use xml_stringify::XmlStringParser;

const INVOICE: &str = "<?xml version=\"1.0\" encoding=\"UTF-8\"?>
<Invoice xmlns=\"urn:oasis:names:specification:ubl:schema:xsd:Invoice-2\">
  <cbc:UBLVersionID>2.1</cbc:UBLVersionID>
  <cbc:ID>123456</cbc:ID>
  <cbc:IssueDate>2013-07-20</cbc:IssueDate>
  <cbc:InvoiceTypeCode listID=\"UNCL1001\">380</cbc:InvoiceTypeCode>
  <cbc:Note languageID=\"no\">Ordered through our website</cbc:Note>
  <cbc:DocumentCurrencyCode listID=\"ISO4217\">NOK</cbc:DocumentCurrencyCode>
  <cac:AccountingSupplierParty>
    <cac:Party>
      <cac:PartyName>
        <cbc:Name>Salescompany ltd.</cbc:Name>
      </cac:PartyName>
      <cac:PostalAddress>
        <cbc:StreetName>Main street 34</cbc:StreetName>
        <cbc:CityName>Big city</cbc:CityName>
        <cbc:PostalZone>54321</cbc:PostalZone>
        <cac:Country>
          <cbc:IdentificationCode listID=\"ISO3166-1:Alpha2\">NO</cbc:IdentificationCode>
        </cac:Country>
      </cac:PostalAddress>
    </cac:Party>
  </cac:AccountingSupplierParty>
  <cac:LegalMonetaryTotal>
    <cbc:LineExtensionAmount currencyID=\"NOK\">1436.50</cbc:LineExtensionAmount>
    <cbc:PayableAmount currencyID=\"NOK\">1795.63</cbc:PayableAmount>
  </cac:LegalMonetaryTotal>
</Invoice>
";

const EXPECTED: &str = "2.1
123456
2013-07-20
380
Ordered through our website
NOK
Salescompany ltd.
Main street 34
Big city
54321
NO
1436.50
1795.63
";

#[test]
fn ehf_name() {
    let input = INVOICE;

    let parser = XmlStringParser::new(input);

    let mut values = parser.parse();
    let mut text: Vec<String> = Vec::new();
    while let Some(v) = values.next() {
        text.push(v.to_string());
    }

    let expected = EXPECTED;
    let expected: Vec<String> = expected.lines().map(|l| l.to_string()).collect();

    for (exp, got) in expected.iter().zip(text.iter()) {
        assert_eq!(exp, got);
    }
}

#[test]
fn invoice_gives_every_leaf_text() {
    let mut values = XmlStringParser::new(INVOICE).parse();
    let mut text: Vec<&str> = Vec::new();
    while let Some(v) = values.next() {
        text.push(v);
    }
    let expected: Vec<&str> = EXPECTED.lines().collect();
    assert_eq!(text, expected);
}
