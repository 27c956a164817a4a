use webparse::dom::{AttrMap, Node, NodeType};
use webparse::error::{ParseError, ParseErrorKind};
use webparse::html::Parser;

fn parse(source: &str) -> Result<Node, ParseError> {
    Parser::parse(source.to_string())
}

fn element_name(node: &Node) -> &str {
    match &node.node_type {
        NodeType::Element(data) => data.tag_name.as_str(),
        NodeType::Text(_) => panic!("a text node has no name"),
    }
}

fn attributes(node: &Node) -> &AttrMap {
    match &node.node_type {
        NodeType::Element(data) => &data.attributes,
        NodeType::Text(_) => panic!("a text node has no attributes"),
    }
}

fn text(node: &Node) -> &str {
    match &node.node_type {
        NodeType::Text(data) => data.as_str(),
        NodeType::Element(_) => panic!("an element is no text"),
    }
}

fn error(source: &str) -> ParseError {
    match parse(source) {
        Ok(_) => panic!("the source was accepted"),
        Err(e) => e,
    }
}

#[test]
fn plain_text_comes_back_unchanged() {
    let source = "Tom &amp; Jerry > \"quoted\"  ";
    let root = parse(source).unwrap();
    assert_eq!(text(&root), source);
    assert_eq!(root.children.len(), 0);
}

#[test]
fn plain_text_with_wide_characters_comes_back_unchanged() {
    let source = "gr\u{fc}\u{df}e \u{2713} \u{1f600}";
    let root = parse(source).unwrap();
    assert_eq!(text(&root), source);
}

#[test]
fn whitespace_before_text_is_dropped() {
    let root = parse("  \n\thello ").unwrap();
    assert_eq!(text(&root), "hello ");
}

#[test]
fn empty_source_is_an_empty_html_element() {
    let root = parse("").unwrap();
    assert_eq!(element_name(&root), "html");
    assert_eq!(attributes(&root).len(), 0);
    assert_eq!(root.children.len(), 0);
}

#[test]
fn blank_source_is_an_empty_html_element() {
    let root = parse(" \n ").unwrap();
    assert_eq!(element_name(&root), "html");
    assert_eq!(root.children.len(), 0);
}

#[test]
fn element_parses_to_name_attribute_and_children() {
    let root = parse("<tag attr=\"v\">children</tag>").unwrap();
    assert_eq!(element_name(&root), "tag");
    assert_eq!(attributes(&root).len(), 1);
    assert_eq!(attributes(&root).get("attr").map(|v| v.as_str()), Some("v"));
    let inner = parse("children").unwrap();
    assert_eq!(root.children.len(), 1);
    assert_eq!(text(&root.children[0]), text(&inner));
    assert_eq!(text(&root.children[0]), "children");
}

#[test]
fn nested_element_is_the_only_child() {
    let root = parse("<a><b></b></a>").unwrap();
    assert_eq!(element_name(&root), "a");
    assert_eq!(root.children.len(), 1);
    assert_eq!(element_name(&root.children[0]), "b");
    assert_eq!(root.children[0].children.len(), 0);
}

#[test]
fn closing_tag_under_another_name_is_a_mismatch() {
    assert_eq!(
        error("<a></b>"),
        ParseError {
            kind: ParseErrorKind::TagMismatch { opening: "a".to_string(), closing: "b".to_string() },
            position: 5,
        }
    );
}

#[test]
fn several_top_level_nodes_get_an_html_root() {
    let root = parse("<a></a><b></b>").unwrap();
    assert_eq!(element_name(&root), "html");
    assert_eq!(attributes(&root).len(), 0);
    assert_eq!(root.children.len(), 2);
    assert_eq!(element_name(&root.children[0]), "a");
    assert_eq!(element_name(&root.children[1]), "b");
}

#[test]
fn text_and_elements_mix_in_source_order() {
    let root = parse("<div><p>Hello</p> world<br></br></div>").unwrap();
    assert_eq!(element_name(&root), "div");
    assert_eq!(root.children.len(), 3);
    assert_eq!(element_name(&root.children[0]), "p");
    assert_eq!(text(&root.children[0].children[0]), "Hello");
    assert_eq!(text(&root.children[1]), "world");
    assert_eq!(element_name(&root.children[2]), "br");
}

#[test]
fn entities_are_not_decoded() {
    let root = parse("<p>a &amp; b</p>").unwrap();
    assert_eq!(text(&root.children[0]), "a &amp; b");
}

#[test]
fn single_quotes_delimit_a_value_too() {
    let root = parse("<a href='x \"y\" z'></a>").unwrap();
    assert_eq!(attributes(&root).get("href").map(|v| v.as_str()), Some("x \"y\" z"));
}

#[test]
fn several_attributes_are_all_kept() {
    let root = parse("<a  id=\"main\"\n class='wide'  ></a>").unwrap();
    assert_eq!(attributes(&root).len(), 2);
    assert_eq!(attributes(&root).get("id").map(|v| v.as_str()), Some("main"));
    assert_eq!(attributes(&root).get("class").map(|v| v.as_str()), Some("wide"));
    assert_eq!(attributes(&root).get("other"), None);
}

#[test]
fn later_value_of_an_attribute_stays() {
    let root = parse("<a x=\"1\" y=\"2\" x=\"3\"></a>").unwrap();
    assert_eq!(attributes(&root).len(), 2);
    assert_eq!(attributes(&root).get("x").map(|v| v.as_str()), Some("3"));
    assert_eq!(attributes(&root).get("y").map(|v| v.as_str()), Some("2"));
}

#[test]
fn what_follows_a_stray_closing_tag_is_not_read() {
    let root = parse("<a></a></b><c>").unwrap();
    assert_eq!(element_name(&root), "a");
}

#[test]
fn missing_equals_sign_is_an_unexpected_character() {
    assert_eq!(
        error("<a b></a>"),
        ParseError {
            kind: ParseErrorKind::UnexpectedCharacter { expected: vec!['='], found: '>' },
            position: 4,
        }
    );
}

#[test]
fn unquoted_value_is_an_unexpected_character() {
    assert_eq!(
        error("<a b=c></a>"),
        ParseError {
            kind: ParseErrorKind::UnexpectedCharacter { expected: vec!['"', '\''], found: 'c' },
            position: 5,
        }
    );
}

#[test]
fn value_without_closing_quote_is_unterminated() {
    assert_eq!(
        error("<a b=\"c></a>"),
        ParseError { kind: ParseErrorKind::UnterminatedQuote, position: 5 }
    );
}

#[test]
fn value_closed_by_the_other_quote_is_a_mismatch() {
    assert_eq!(
        error("<a b=\"c'></a>"),
        ParseError { kind: ParseErrorKind::QuoteMismatch, position: 5 }
    );
    assert_eq!(
        error("<a b='c\"></a>"),
        ParseError { kind: ParseErrorKind::QuoteMismatch, position: 5 }
    );
}

#[test]
fn element_without_closing_tag_ends_too_early() {
    assert_eq!(
        error("<a>text"),
        ParseError { kind: ParseErrorKind::UnexpectedEndOfInput, position: 7 }
    );
    assert_eq!(error("<a"), ParseError { kind: ParseErrorKind::UnexpectedEndOfInput, position: 2 });
    assert_eq!(
        error("<a></a"),
        ParseError { kind: ParseErrorKind::UnexpectedEndOfInput, position: 6 }
    );
}

#[test]
fn positions_count_characters() {
    assert_eq!(
        error("<p>\u{e9}\u{2713}</q>"),
        ParseError {
            kind: ParseErrorKind::TagMismatch { opening: "p".to_string(), closing: "q".to_string() },
            position: 7,
        }
    );
}

#[test]
fn parser_methods_consume_one_rule_each() {
    let mut parser = Parser::new("name1 rest");
    assert_eq!(parser.parse_tag_name(), "name1");
    let mut parser = Parser::new("k='v' next");
    assert_eq!(parser.parse_attr(), Ok(("k".to_string(), "v".to_string())));
    let mut parser = Parser::new("\"a b\">");
    assert_eq!(parser.parse_attr_value(), Ok("a b".to_string()));
    let mut parser = Parser::new(" a=\"1\" b=\"2\">");
    let attrs = parser.parse_attributes().unwrap();
    assert_eq!(attrs.len(), 2);
    let mut parser = Parser::new("some text<b>");
    assert_eq!(text(&parser.parse_text()), "some text");
    let mut parser = Parser::new("<b>x</b>tail");
    let node = parser.parse_node().unwrap();
    assert_eq!(element_name(&node), "b");
    let mut parser = Parser::new("<i></i>");
    assert_eq!(element_name(&parser.parse_element().unwrap()), "i");
    let mut parser = Parser::new(" <a></a> t <b></b></c>");
    assert_eq!(parser.parse_nodes().unwrap().len(), 3);
    let mut parser = Parser::new("");
    assert_eq!(
        parser.parse_node().map(|_| ()),
        Err(ParseError { kind: ParseErrorKind::UnexpectedEndOfInput, position: 0 })
    );
}

#[test]
fn mismatch_is_reported_behind_well_formed_children() {
    assert_eq!(
        error("<list><item>one</item> two</lst>"),
        ParseError {
            kind: ParseErrorKind::TagMismatch {
                opening: "list".to_string(),
                closing: "lst".to_string(),
            },
            position: 28,
        }
    );
}

#[test]
fn names_may_be_empty() {
    let root = parse("<>x</>").unwrap();
    assert_eq!(element_name(&root), "");
    assert_eq!(text(&root.children[0]), "x");
    let root = parse("<a =\"v\"></a>").unwrap();
    assert_eq!(attributes(&root).get("").map(|v| v.as_str()), Some("v"));
}
