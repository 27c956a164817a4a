use webparse::css::{
    higher, sort_selectors, valid_identifier_char, Color, Declaration, Parser, Rule, Selector,
    SimpleSelector, Stylesheet, Unit, Value,
};
use webparse::error::{ParseError, ParseErrorKind};

fn parse(source: &str) -> Result<Stylesheet, ParseError> {
    Parser::parse(source.to_string())
}

fn only_rule(source: &str) -> Rule {
    let mut sheet = parse(source).unwrap();
    assert_eq!(sheet.rules.len(), 1);
    sheet.rules.remove(0)
}

fn simple(tag: Option<&str>, id: Option<&str>, class: &[&str]) -> Selector {
    Selector::Simple(SimpleSelector {
        tag_name: tag.map(|s| s.to_string()),
        id: id.map(|s| s.to_string()),
        class: class.iter().map(|s| s.to_string()).collect(),
    })
}

fn css_error(source: &str) -> ParseError {
    match parse(source) {
        Ok(_) => panic!("the source was accepted"),
        Err(e) => e,
    }
}

#[test]
fn tag_selector_weighs_one_in_the_last_place() {
    let rule = only_rule("div { }");
    assert_eq!(rule.selectors.len(), 1);
    assert_eq!(rule.selectors[0], simple(Some("div"), None, &[]));
    assert_eq!(rule.selectors[0].specificity(), (0, 0, 1));
}

#[test]
fn id_and_classes_weigh_in_the_first_two_places() {
    let rule = only_rule("#id.cls1.cls2 { }");
    assert_eq!(rule.selectors[0], simple(None, Some("id"), &["cls1", "cls2"]));
    assert_eq!(rule.selectors[0].specificity(), (1, 2, 0));
}

#[test]
fn universal_selector_weighs_nothing() {
    let rule = only_rule("* { }");
    assert_eq!(rule.selectors[0], simple(None, None, &[]));
    assert_eq!(rule.selectors[0].specificity(), (0, 0, 0));
}

#[test]
fn wildcard_tag_name_weighs_nothing_whatever_else_is_there() {
    assert_eq!(simple(Some("*"), Some("a"), &["b", "c"]).specificity(), (0, 0, 0));
    assert_eq!(simple(Some("**"), Some("a"), &["b", "c"]).specificity(), (1, 2, 1));
    assert_eq!(simple(Some("p"), Some("a"), &["b"]).specificity(), (1, 1, 1));
    assert_eq!(simple(None, None, &[]).specificity(), (0, 0, 0));
}

#[test]
fn selectors_are_sorted_from_highest_specificity() {
    let rule = only_rule("div, .cls, #id { }");
    assert_eq!(
        rule.selectors,
        vec![simple(None, Some("id"), &[]), simple(None, None, &["cls"]), simple(Some("div"), None, &[])]
    );
}

#[test]
fn stray_hash_in_selector_list_is_an_unexpected_character() {
    assert_eq!(
        css_error("div # { }"),
        ParseError {
            kind: ParseErrorKind::UnexpectedCharacter { expected: vec![',', '{'], found: '#' },
            position: 4,
        }
    );
}

#[test]
fn selectors_of_equal_specificity_keep_their_order() {
    let rule = only_rule("b, a, .y, c, .x, #i, .z.w, p.q {}");
    assert_eq!(
        rule.selectors,
        vec![
            simple(None, Some("i"), &[]),
            simple(None, None, &["z", "w"]),
            simple(Some("p"), None, &["q"]),
            simple(None, None, &["y"]),
            simple(None, None, &["x"]),
            simple(Some("b"), None, &[]),
            simple(Some("a"), None, &[]),
            simple(Some("c"), None, &[]),
        ]
    );
}

#[test]
fn sort_selectors_orders_a_list_by_hand() {
    let sorted = sort_selectors(vec![
        simple(Some("a"), None, &[]),
        simple(Some("*"), Some("x"), &[]),
        simple(Some("b"), None, &["k"]),
        simple(Some("c"), None, &[]),
    ]);
    assert_eq!(
        sorted,
        vec![
            simple(Some("b"), None, &["k"]),
            simple(Some("a"), None, &[]),
            simple(Some("c"), None, &[]),
            simple(Some("*"), Some("x"), &[]),
        ]
    );
    assert_eq!(sort_selectors(Vec::new()), Vec::new());
}

#[test]
fn higher_compares_place_by_place() {
    assert!(higher((1, 0, 0), (0, 9, 9)));
    assert!(higher((0, 2, 0), (0, 1, 9)));
    assert!(higher((0, 1, 1), (0, 1, 0)));
    assert!(!higher((0, 1, 1), (0, 1, 1)));
    assert!(!higher((0, 9, 9), (1, 0, 0)));
}

#[test]
fn identifier_characters_are_letters_digits_hyphen_and_underscore() {
    for c in ['a', 'z', 'A', 'Z', '0', '9', '-', '_'] {
        assert!(valid_identifier_char(c));
    }
    for c in [' ', '#', '.', '*', '{', ',', '\u{e9}', '/', ':', '@', '[', '`'] {
        assert!(!valid_identifier_char(c));
    }
}

#[test]
fn later_id_and_tag_name_stay() {
    let mut parser = Parser::new("a#x.c#y*b.d rest");
    let selector = parser.parse_simple_selector();
    assert_eq!(Selector::Simple(selector), simple(Some("b"), Some("y"), &["c", "d"]));
}

#[test]
fn part_without_identifier_gets_the_empty_name() {
    let mut parser = Parser::new("#.{");
    let selector = parser.parse_simple_selector();
    assert_eq!(Selector::Simple(selector), simple(None, Some(""), &[""]));
}

#[test]
fn selector_list_stops_before_the_brace() {
    let mut parser = Parser::new("a , b{");
    assert_eq!(
        parser.parse_selectors(),
        Ok(vec![simple(Some("a"), None, &[]), simple(Some("b"), None, &[])])
    );
    let mut parser = Parser::new("a , ");
    assert_eq!(
        parser.parse_selectors(),
        Err(ParseError { kind: ParseErrorKind::UnexpectedEndOfInput, position: 4 })
    );
}

#[test]
fn selector_list_without_block_ends_too_early() {
    assert_eq!(
        css_error("div"),
        ParseError { kind: ParseErrorKind::UnexpectedEndOfInput, position: 3 }
    );
}

#[test]
fn declarations_are_kept_in_source_order() {
    let rule = only_rule("h1 { color: #ff8000; margin: 10px; display: block }");
    assert_eq!(
        rule.declarations,
        vec![
            Declaration {
                name: "color".to_string(),
                value: Value::ColorValue(Color { r: 255, g: 128, b: 0, a: 255 }),
            },
            Declaration {
                name: "margin".to_string(),
                value: Value::Length("10".to_string(), Unit::Px),
            },
            Declaration { name: "display".to_string(), value: Value::Keyword("block".to_string()) },
        ]
    );
}

#[test]
fn length_keeps_its_numeral_as_written() {
    let rule = only_rule("p{width:1.50PX;height:007px;top:3.px}");
    assert_eq!(rule.declarations[0].value, Value::Length("1.50".to_string(), Unit::Px));
    assert_eq!(rule.declarations[1].value, Value::Length("007".to_string(), Unit::Px));
    assert_eq!(rule.declarations[2].value, Value::Length("3.".to_string(), Unit::Px));
}

#[test]
fn colour_channels_are_read_in_either_case() {
    let rule = only_rule("p { color: #0aF1Ce }");
    assert_eq!(
        rule.declarations[0].value,
        Value::ColorValue(Color { r: 0x0a, g: 0xf1, b: 0xce, a: 255 })
    );
}

#[test]
fn rules_are_kept_in_source_order() {
    let sheet = parse(" a { } \n b, #c { x: y; } ").unwrap();
    assert_eq!(sheet.rules.len(), 2);
    assert_eq!(sheet.rules[0].selectors, vec![simple(Some("a"), None, &[])]);
    assert_eq!(sheet.rules[0].declarations, Vec::new());
    assert_eq!(
        sheet.rules[1].selectors,
        vec![simple(None, Some("c"), &[]), simple(Some("b"), None, &[])]
    );
    assert_eq!(sheet.rules[1].declarations.len(), 1);
}

#[test]
fn empty_style_text_is_an_empty_stylesheet() {
    assert_eq!(parse(""), Ok(Stylesheet { rules: Vec::new() }));
    assert_eq!(parse(" \n\t"), Ok(Stylesheet { rules: Vec::new() }));
}

#[test]
fn unknown_unit_is_an_unexpected_character() {
    assert_eq!(
        css_error("a { margin: 10em; }"),
        ParseError {
            kind: ParseErrorKind::UnexpectedCharacter { expected: vec!['p', 'P'], found: 'e' },
            position: 14,
        }
    );
    assert_eq!(
        css_error("a { margin: 10pt; }"),
        ParseError {
            kind: ParseErrorKind::UnexpectedCharacter { expected: vec!['x', 'X'], found: 't' },
            position: 15,
        }
    );
}

#[test]
fn bad_colour_digit_is_an_unexpected_character() {
    let expected: Vec<char> = "0123456789abcdefABCDEF".chars().collect();
    assert_eq!(
        css_error("a { color: #12g456; }"),
        ParseError {
            kind: ParseErrorKind::UnexpectedCharacter { expected, found: 'g' },
            position: 14,
        }
    );
}

#[test]
fn missing_colon_is_an_unexpected_character() {
    assert_eq!(
        css_error("a { color red; }"),
        ParseError {
            kind: ParseErrorKind::UnexpectedCharacter { expected: vec![':'], found: 'r' },
            position: 10,
        }
    );
}

#[test]
fn value_followed_by_anything_else_is_an_unexpected_character() {
    assert_eq!(
        css_error("a { color: red blue; }"),
        ParseError {
            kind: ParseErrorKind::UnexpectedCharacter { expected: vec![';', '}'], found: 'b' },
            position: 15,
        }
    );
}

#[test]
fn unclosed_block_ends_too_early() {
    assert_eq!(
        css_error("a { color: red;"),
        ParseError { kind: ParseErrorKind::UnexpectedEndOfInput, position: 15 }
    );
    assert_eq!(
        css_error("a { color: #12"),
        ParseError { kind: ParseErrorKind::UnexpectedEndOfInput, position: 14 }
    );
    assert_eq!(
        css_error("a { color:"),
        ParseError { kind: ParseErrorKind::UnexpectedEndOfInput, position: 10 }
    );
}

#[test]
fn style_parser_methods_consume_one_rule_each() {
    let mut parser = Parser::new("ab-c_9!");
    assert_eq!(parser.parse_identifier(), "ab-c_9");
    let mut parser = Parser::new("12.5px");
    assert_eq!(parser.parse_numeral(), "12.5");
    assert_eq!(parser.parse_unit(), Ok(Unit::Px));
    let mut parser = Parser::new("7Px;");
    assert_eq!(parser.parse_length(), Ok(Value::Length("7".to_string(), Unit::Px)));
    let mut parser = Parser::new("fF");
    assert_eq!(parser.parse_hex_pair(), Ok(255));
    let mut parser = Parser::new("#102030");
    assert_eq!(
        parser.parse_color(),
        Ok(Value::ColorValue(Color { r: 16, g: 32, b: 48, a: 255 }))
    );
    let mut parser = Parser::new("auto;");
    assert_eq!(parser.parse_value(), Ok(Value::Keyword("auto".to_string())));
    let mut parser = Parser::new("a : b ; c");
    assert_eq!(
        parser.parse_declaration(),
        Ok(Declaration { name: "a".to_string(), value: Value::Keyword("b".to_string()) })
    );
    let mut parser = Parser::new("{ a: b }x");
    assert_eq!(parser.parse_declarations().map(|d| d.len()), Ok(1));
    let mut parser = Parser::new("a{}b{}");
    assert_eq!(parser.parse_rule().map(|r| r.selectors.len()), Ok(1));
    assert_eq!(parser.parse_rules().map(|r| r.len()), Ok(1));
}
