use xml_stringify::XmlStringParser;

#[test]
fn visma_name() {
    let input = "<?xml version=\"1.0\" encoding=\"utf-8\"?>
<Customerinfo>
  <Customer>
    <CustomerNo>10001</CustomerNo>
    <Name>Fjell og Fjord AS</Name>
    <Address1>Storgata 1</Address1>
    <PostCode>0155</PostCode>
    <PostOffice>OSLO</PostOffice>
    <Email>post@fjellogfjord.example</Email>
  </Customer>
</Customerinfo>
";

    let parser = XmlStringParser::new(input);

    let mut values = parser.parse();
    let mut text: Vec<String> = Vec::new();
    while let Some(v) = values.next() {
        text.push(v.to_string());
    }
    let formatted = text.join("\n");

    println!("{}", formatted);
}
