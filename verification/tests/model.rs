use webparse::chars::{contains_char, whitespace};
use webparse::cursor::Cursor;
use webparse::dom::{element_node, text_node, AttrMap, NodeType};
use webparse::error::{ParseError, ParseErrorKind};

#[test]
fn whitespace_is_what_the_standard_library_calls_whitespace() {
    let mut code: u32 = 0;
    while code <= 0x10FFFF {
        if let Some(c) = char::from_u32(code) {
            assert_eq!(whitespace(c), c.is_whitespace(), "at {:x}", code);
        }
        code += 1;
    }
}

#[test]
fn contains_char_finds_what_is_there() {
    assert!(contains_char("a'b", '\''));
    assert!(!contains_char("ab", '\''));
    assert!(!contains_char("", 'a'));
}

#[test]
fn text_node_holds_its_data_and_no_children() {
    let node = text_node("some text".to_string());
    assert_eq!(node.children.len(), 0);
    match node.node_type {
        NodeType::Text(data) => assert_eq!(data, "some text"),
        NodeType::Element(_) => panic!("a text node was asked for"),
    }
}

#[test]
fn element_node_holds_what_it_was_given() {
    let mut attrs = AttrMap::new();
    attrs.insert("id".to_string(), "x".to_string());
    let children = vec![text_node("a".to_string()), text_node("b".to_string())];
    let node = element_node("p".to_string(), attrs, children);
    assert_eq!(node.children.len(), 2);
    match node.node_type {
        NodeType::Element(data) => {
            assert_eq!(data.tag_name, "p");
            assert_eq!(data.attributes.get("id").map(|v| v.as_str()), Some("x"));
        },
        NodeType::Text(_) => panic!("an element was asked for"),
    }
}

#[test]
fn attribute_map_keeps_one_value_for_each_name() {
    let mut attrs = AttrMap::new();
    assert_eq!(attrs.len(), 0);
    assert_eq!(attrs.get("a"), None);
    attrs.insert("a".to_string(), "1".to_string());
    attrs.insert("b".to_string(), "2".to_string());
    attrs.insert("a".to_string(), "3".to_string());
    assert_eq!(attrs.len(), 2);
    assert_eq!(attrs.get("a").map(|v| v.as_str()), Some("3"));
    assert_eq!(attrs.get("b").map(|v| v.as_str()), Some("2"));
    assert_eq!(attrs.get(""), None);
    let mut names: Vec<&str> = attrs.entries().iter().map(|e| e.0.as_str()).collect();
    names.sort();
    assert_eq!(names, vec!["a", "b"]);
}

#[test]
fn cursor_starts_at_the_first_character() {
    let cursor = Cursor::new("ab");
    assert_eq!(cursor.position(), 0);
    assert!(!cursor.eof());
    assert_eq!(cursor.next_char(), 'a');
    assert!(Cursor::new("").eof());
}

#[test]
fn cursor_steps_over_wide_characters_one_at_a_time() {
    let mut cursor = Cursor::new("\u{e9}\u{1f600}z");
    assert_eq!(cursor.consume_char(), '\u{e9}');
    assert_eq!(cursor.position(), 1);
    assert_eq!(cursor.consume_char(), '\u{1f600}');
    assert_eq!(cursor.position(), 2);
    assert_eq!(cursor.next_char(), 'z');
    assert_eq!(cursor.consume_char(), 'z');
    assert!(cursor.eof());
}

#[test]
fn cursor_tells_what_the_rest_starts_with() {
    let mut cursor = Cursor::new("a</b");
    assert!(cursor.starts_with("a<"));
    assert!(cursor.starts_with(""));
    assert!(!cursor.starts_with("</"));
    cursor.consume_char();
    assert!(cursor.starts_with("</"));
    assert!(cursor.starts_with("</b"));
    assert!(!cursor.starts_with("</bc"));
    assert!(!cursor.starts_with("<b"));
}

#[test]
fn consume_while_takes_the_longest_run() {
    let mut cursor = Cursor::new("aaab");
    assert_eq!(cursor.consume_while(|c| c == 'a'), "aaa");
    assert_eq!(cursor.position(), 3);
    assert_eq!(cursor.consume_while(|c| c == 'a'), "");
    assert_eq!(cursor.position(), 3);
    assert_eq!(cursor.consume_while(|_| true), "b");
    assert!(cursor.eof());
    assert_eq!(cursor.consume_while(|_| true), "");
}

#[test]
fn consume_whitespace_stops_at_the_first_other_character() {
    let mut cursor = Cursor::new(" \t\r\n\u{a0}\u{3000}x y");
    cursor.consume_whitespace();
    assert_eq!(cursor.position(), 6);
    cursor.consume_whitespace();
    assert_eq!(cursor.position(), 6);
    assert_eq!(cursor.next_char(), 'x');
}

#[test]
fn expect_consumes_the_required_character_only() {
    let mut cursor = Cursor::new("=x");
    assert_eq!(cursor.expect('='), Ok(()));
    assert_eq!(cursor.position(), 1);
    assert_eq!(
        cursor.expect('='),
        Err(ParseError {
            kind: ParseErrorKind::UnexpectedCharacter { expected: vec!['='], found: 'x' },
            position: 1,
        })
    );
    assert_eq!(cursor.position(), 1);
    assert_eq!(cursor.expect_one_of(vec!['w', 'x']), Ok('x'));
    assert_eq!(
        cursor.expect('='),
        Err(ParseError { kind: ParseErrorKind::UnexpectedEndOfInput, position: 2 })
    );
    assert_eq!(
        cursor.expect_one_of(vec!['a']),
        Err(ParseError { kind: ParseErrorKind::UnexpectedEndOfInput, position: 2 })
    );
}

#[test]
fn expect_one_of_reports_what_was_allowed() {
    let mut cursor = Cursor::new("q");
    assert_eq!(
        cursor.expect_one_of(vec!['p', 'P']),
        Err(ParseError {
            kind: ParseErrorKind::UnexpectedCharacter { expected: vec!['p', 'P'], found: 'q' },
            position: 0,
        })
    );
}
