use xml_stringify::encoding::utf8_width;
use xml_stringify::token::Token;
use xml_stringify::XmlStringParser;

fn values_of(input: &str) -> Vec<&str> {
    let mut values = XmlStringParser::new(input).parse();
    let mut found = Vec::new();
    while let Some(value) = values.next() {
        found.push(value);
    }
    found
}

#[test]
fn edge_case() {
    let input = "
    <cac:PostalAddress>
    <cbc:StreetName>SOMEMULTIBYTETEXT√Ü√ò√Öüëç.8-LEV.E: 10.00.</cbc:StreetName>
    <cbc:AdditionalStreetName>MAX PALL: 1,20</cbc:AdditionalStreetName>
    <cbc:CityName>OSLO</cbc:CityName>
";

    let parser = XmlStringParser::new(input);

    let mut text = parser.parse();

    let expected = [
        "SOMEMULTIBYTETEXT√Ü√ò√Öüëç.8-LEV.E: 10.00.",
        "MAX PALL: 1,20",
        "OSLO",
    ];

    for exp in &expected {
        match text.next() {
            Some(got) => assert_eq!(*exp, got),
            None => break,
        }
    }
}

#[test]
fn single_element_gives_its_text() {
    assert_eq!(values_of("<tag>Hello world!</tag>"), vec!["Hello world!"]);
}

#[test]
fn siblings_give_their_texts_in_order() {
    assert_eq!(values_of("<a>One</a><b>Two</b><c>Three</c>"), vec!["One", "Two", "Three"]);
}

#[test]
fn empty_gap_before_nested_tag_gives_nothing() {
    assert_eq!(values_of("<outer><inner>Text</inner></outer>"), vec!["Text"]);
}

#[test]
fn multi_byte_characters_inside_a_run_are_kept() {
    let input = "<x>abc\u{2603}.</x>";
    let mut values = XmlStringParser::new(input).parse();
    let value = values.next().unwrap();
    assert_eq!(value, "abc\u{2603}.");
    assert_eq!(value.len(), 7);
    assert_eq!(value.as_ptr(), input[3..].as_ptr());
    assert_eq!(values.next(), None);
}

#[test]
fn multi_byte_character_at_the_end_of_a_run_is_kept_whole() {
    assert_eq!(values_of("<x>abc\u{2603}</x>"), vec!["abc\u{2603}"]);
    assert_eq!(values_of("<x>\u{e6}</x><y>\u{1f44d}</y>"), vec!["\u{e6}", "\u{1f44d}"]);
    assert_eq!(values_of("<\u{e6}\u{f8}>\u{e5} \u{1f44d}</\u{e6}\u{f8}>"), vec!["\u{e5} \u{1f44d}"]);
}

#[test]
fn unexpected_close_is_refused() {
    assert!(XmlStringParser::new("<a>x</a>>").try_parse().is_none());
    assert!(XmlStringParser::new("<a>>x</a>").try_parse().is_none());
    assert!(XmlStringParser::new(">").try_parse().is_none());
    assert!(XmlStringParser::new("a > b").try_parse().is_none());
    assert!(XmlStringParser::new("<a>1 > 0</a>").try_parse().is_none());
}

#[test]
fn try_parse_gives_what_parse_gives() {
    let input = "<r>\n  <a>One</a>\n  <b> Two  words </b>\n</r>";
    let mut tried = XmlStringParser::new(input).try_parse().unwrap();
    let mut found = Vec::new();
    while let Some(value) = tried.next() {
        found.push(value);
    }
    assert_eq!(found, vec!["One", "Two  words"]);
    assert_eq!(found, values_of(input));
}

#[test]
fn repeated_open_brackets_are_accepted() {
    assert_eq!(values_of("<<a>x<</a>"), vec!["x"]);
    assert!(XmlStringParser::new("<<a>x<</a>").try_parse().is_some());
}

#[test]
fn blanks_around_a_run_are_cut_off() {
    assert_eq!(values_of("<a>   Hello  big world   </a>"), vec!["Hello  big world"]);
    assert_eq!(values_of("<a>\n    x\n</a>"), vec!["x"]);
}

#[test]
fn blank_gaps_give_nothing() {
    assert_eq!(values_of("<a>   </a>"), Vec::<&str>::new());
    assert_eq!(values_of("<a>\n  <b>  </b>\n</a>"), Vec::<&str>::new());
    assert_eq!(values_of("<a></a>"), Vec::<&str>::new());
}

#[test]
fn characters_that_are_no_text_do_not_start_or_end_a_run() {
    assert_eq!(values_of("<a>=x/y\"</a>"), vec!["x/y"]);
    assert_eq!(values_of("<a>=/\"</a><b>z</b>"), vec!["z"]);
}

#[test]
fn whitespace_of_any_kind_is_no_text() {
    assert_eq!(values_of("<a>\t</a>"), Vec::<&str>::new());
    assert_eq!(values_of("<a>\r\n\t</a><b>\u{a0}\u{3000}</b>"), Vec::<&str>::new());
    assert_eq!(values_of("<a>\tx\r</a>"), vec!["x"]);
    assert_eq!(values_of("<a>\r\n\tOne\tTwo\r\n</a>"), vec!["One\tTwo"]);
    assert_eq!(values_of("<a>\u{2003}x\u{a0}y\u{2028}</a>"), vec!["x\u{a0}y"]);
}

#[test]
fn text_behind_a_closing_tag_is_passed_over() {
    assert_eq!(values_of("<r><a>x</a>y<b>z</b></r>"), vec!["x", "z"]);
}

#[test]
fn run_cut_off_by_the_end_is_dropped() {
    assert_eq!(values_of("<a>One</a><b>Two"), vec!["One"]);
    assert_eq!(values_of("<a>unfinished"), Vec::<&str>::new());
}

#[test]
fn text_outside_any_tag_gives_nothing() {
    assert_eq!(values_of(""), Vec::<&str>::new());
    assert_eq!(values_of("plain text"), Vec::<&str>::new());
    assert_eq!(values_of("before<a>in</a>"), vec!["in"]);
}

#[test]
fn attributes_are_passed_over() {
    let xml = "\n<outertag attribute1=\"hello\">\n    <innertag>Hello world</innertag>\n<\\outertag>";
    let mut values = XmlStringParser::new(xml).parse();
    assert_eq!(values.next(), Some("Hello world"));
    assert_eq!(values.next(), None);
}

#[test]
fn scanning_twice_gives_the_same_values() {
    let input = "<a>One</a><b>Tw\u{f8}</b><c> Three </c>";
    assert_eq!(values_of(input), values_of(input));
    assert_eq!(values_of(input), vec!["One", "Tw\u{f8}", "Three"]);
}

#[test]
fn one_value_for_each_run_of_text() {
    let input = "<r>\n <a>1</a>\n <b>  </b>\n <c>2 3</c>\n <d></d>\n</r>";
    assert_eq!(values_of(input).len(), 2);
}

#[test]
fn each_character_has_its_class() {
    assert_eq!(Token::from(' '), Token::WhiteSpace);
    assert_eq!(Token::from('\n'), Token::NewLine);
    assert_eq!(Token::from('<'), Token::LeftCroc);
    assert_eq!(Token::from('>'), Token::RightCroc);
    assert_eq!(Token::from('='), Token::Equalsign);
    assert_eq!(Token::from('/'), Token::Slash);
    assert_eq!(Token::from('"'), Token::Tick);
    assert_eq!(Token::from('a'), Token::Char);
    assert_eq!(Token::from('\u{2603}'), Token::Char);
}

#[test]
fn whitespace_beyond_the_space_has_its_class() {
    for c in ['\t', '\u{a0}', '\u{1680}', '\u{2000}', '\u{2005}', '\u{200a}'] {
        assert_eq!(Token::from(c), Token::WhiteSpace);
    }
    for c in ['\u{2028}', '\u{2029}', '\u{202f}', '\u{205f}', '\u{3000}'] {
        assert_eq!(Token::from(c), Token::WhiteSpace);
    }
    for c in ['\u{9f}', '\u{a1}', '\u{167f}', '\u{1681}', '\u{1fff}', '\u{200b}'] {
        assert_ne!(Token::from(c), Token::WhiteSpace);
    }
    for c in ['\u{2027}', '\u{202a}', '\u{202e}', '\u{2030}', '\u{2fff}', '\u{3001}'] {
        assert_eq!(Token::from(c), Token::Char);
    }
}

#[test]
fn control_characters_have_the_class_of_the_line_feed() {
    for c in ['\0', '\u{8}', '\n', '\u{b}', '\u{c}', '\r', '\u{1f}', '\u{7f}', '\u{85}', '\u{9f}'] {
        assert_eq!(Token::from(c), Token::NewLine);
    }
    for c in ['!', '~', '\u{a1}'] {
        assert_eq!(Token::from(c), Token::Char);
    }
}

#[test]
fn width_of_a_character_is_the_length_of_its_encoding() {
    assert_eq!(utf8_width('a'), 1);
    assert_eq!(utf8_width('\u{7f}'), 1);
    assert_eq!(utf8_width('\u{80}'), 2);
    assert_eq!(utf8_width('\u{e6}'), 2);
    assert_eq!(utf8_width('\u{7ff}'), 2);
    assert_eq!(utf8_width('\u{800}'), 3);
    assert_eq!(utf8_width('\u{2603}'), 3);
    assert_eq!(utf8_width('\u{ffff}'), 3);
    assert_eq!(utf8_width('\u{10000}'), 4);
    assert_eq!(utf8_width('\u{1f44d}'), 4);
    assert_eq!(utf8_width('\u{10ffff}'), 4);
    for c in ['a', '\u{e6}', '\u{2603}', '\u{1f44d}'] {
        assert_eq!(utf8_width(c), c.len_utf8());
    }
}
