//! The markup parser: text with tags, attributes and nesting becomes a tree of
//! nodes.
//!
//! The grammar is
//!
//! ```text
//! document := node*
//! node     := element | text
//! element  := '<' name attributes '>' node* '<' '/' name '>'
//! ```
//!
//! What the parser yields on a source text is defined by the `spec_parse`
//! family of functions, one for each rule; the methods of [`Parser`] compute
//! them.

use crate::chars::{contains_char, is_whitespace};
use crate::cursor::{
    has_prefix_at, lemma_scan_while_advances, lemma_scan_while_maximal,
    lemma_scan_while_unique, scan_while, whitespace_pred, Cursor,
};
use crate::dom::{
    element_node, element_view, nodes_view, tag_name_of, text_node, text_view, AttrMap, Node,
    NodeView,
};
use crate::error::{
    end_of_input, expect_char, fails_with, unexpected, yields, ParseError, ParseErrorKind,
    ParseErrorKindView, ParseErrorView,
};
use vstd::prelude::*;

verus! {

/// The characters of which tag names and attribute names consist.
pub open spec fn is_tag_char(c: char) -> bool {
    ('a' <= c <= 'z') || ('A' <= c <= 'Z') || ('0' <= c <= '9')
}

/// [`is_tag_char`] as a value, for use with [`scan_while`].
pub open spec fn tag_char_pred() -> spec_fn(char) -> bool {
    |c: char| is_tag_char(c)
}

/// The predicate that holds of every character but `stop`.
pub open spec fn other_than(stop: char) -> spec_fn(char) -> bool {
    |c: char| c != stop
}

/// Whether `c` opens and closes a quoted value.
pub open spec fn is_quote(c: char) -> bool {
    c == '"' || c == '\''
}

/// The quote character that is not `quote`.
pub open spec fn other_quote(quote: char) -> char {
    if quote == '"' {
        '\''
    } else {
        '"'
    }
}

/// The name that stands at `pos`: the longest run of tag characters there,
/// with the offset behind it. The run may be empty.
pub open spec fn spec_parse_tag_name(s: Seq<char>, pos: int) -> (Seq<char>, int) {
    let end = scan_while(s, pos, tag_char_pred());
    (s.subrange(pos, end), end)
}

/// The text node that stands at `pos`: the characters up to the next `<`, or
/// to the end of the source, undecoded.
pub open spec fn spec_parse_text(s: Seq<char>, pos: int) -> (NodeView, int) {
    let end = scan_while(s, pos, other_than('<'));
    (text_view(s.subrange(pos, end)), end)
}

/// The quoted value that stands at `pos`: a quote character, the characters
/// up to the next occurrence of the same quote character, and that
/// occurrence. Where the source ends before it, the failure is reported at
/// the opening quote, as a mismatch if the other quote character occurs in
/// between.
pub open spec fn spec_parse_attr_value(s: Seq<char>, pos: int) -> Result<
    (Seq<char>, int),
    ParseErrorView,
> {
    if pos >= s.len() {
        Err(end_of_input(s))
    } else if !is_quote(s[pos]) {
        Err(unexpected(s, pos, seq!['"', '\'']))
    } else {
        let end = scan_while(s, pos + 1, other_than(s[pos]));
        if end < s.len() {
            Ok((s.subrange(pos + 1, end), end + 1))
        } else if s.subrange(pos + 1, end).contains(other_quote(s[pos])) {
            Err(ParseErrorView { kind: ParseErrorKindView::QuoteMismatch, position: pos })
        } else {
            Err(ParseErrorView { kind: ParseErrorKindView::UnterminatedQuote, position: pos })
        }
    }
}

/// The attribute that stands at `pos`: a name, `=`, and a quoted value.
pub open spec fn spec_parse_attr(s: Seq<char>, pos: int) -> Result<
    ((Seq<char>, Seq<char>), int),
    ParseErrorView,
> {
    let (name, name_end) = spec_parse_tag_name(s, pos);
    match expect_char(s, name_end, '=') {
        Err(e) => Err(e),
        Ok(value_start) => match spec_parse_attr_value(s, value_start) {
            Err(e) => Err(e),
            Ok((value, end)) => Ok(((name, value), end)),
        },
    }
}

/// An attribute takes up at least one character.
pub proof fn lemma_attr_advances(s: Seq<char>, pos: int)
    ensures
        spec_parse_attr(s, pos) matches Ok((_, end)) ==> pos < end <= s.len(),
{
    lemma_scan_while_advances(s, pos, tag_char_pred());
    let name_end = scan_while(s, pos, tag_char_pred());
    if expect_char(s, name_end, '=') is Ok {
        lemma_scan_while_advances(s, name_end + 2, other_than(s[name_end + 1]));
    }
}

/// The attributes that stand at `pos`, added to `attrs` in the order in which
/// they are written, so that of two values for one name the later one stays.
/// The list ends before the first `>` that follows whitespace or an
/// attribute; that `>` is left in place.
pub open spec fn spec_parse_attributes(
    s: Seq<char>,
    pos: int,
    attrs: Map<Seq<char>, Seq<char>>,
) -> Result<(Map<Seq<char>, Seq<char>>, int), ParseErrorView>
    decreases s.len() - pos,
{
    let start = scan_while(s, pos, whitespace_pred());
    if start >= s.len() {
        Err(end_of_input(s))
    } else if s[start] == '>' {
        Ok((attrs, start))
    } else {
        match spec_parse_attr(s, start) {
            Err(e) => Err(e),
            Ok(((name, value), next)) => {
                proof {
                    lemma_scan_while_advances(s, pos, whitespace_pred());
                    lemma_attr_advances(s, start);
                }
                spec_parse_attributes(s, next, attrs.insert(name, value))
            },
        }
    }
}

/// A list of attributes ends within the source, on the `>` that follows it.
pub proof fn lemma_attributes_advance(s: Seq<char>, pos: int, attrs: Map<Seq<char>, Seq<char>>)
    ensures
        spec_parse_attributes(s, pos, attrs) matches Ok((_, end)) ==> pos <= end < s.len() && s[end]
            == '>',
    decreases s.len() - pos,
{
    lemma_scan_while_advances(s, pos, whitespace_pred());
    let start = scan_while(s, pos, whitespace_pred());
    if start < s.len() && s[start] != '>' {
        lemma_attr_advances(s, start);
        match spec_parse_attr(s, start) {
            Err(e) => {},
            Ok(((name, value), next)) => {
                lemma_attributes_advance(s, next, attrs.insert(name, value));
            },
        }
    }
}

/// The node that stands at `pos`: an element where a `<` stands there, a text
/// node otherwise.
pub open spec fn spec_parse_node(s: Seq<char>, pos: int) -> Result<(NodeView, int), ParseErrorView>
    decreases s.len() - pos, 1int,
{
    if pos >= s.len() {
        Err(end_of_input(s))
    } else if s[pos] == '<' {
        spec_parse_element(s, pos)
    } else {
        Ok(spec_parse_text(s, pos))
    }
}

/// The element that stands at `pos`: the opening tag with its attributes, the
/// children, and the closing tag, whose name must be that of the opening tag.
/// A closing tag under another name is reported at the first character of
/// that name.
pub open spec fn spec_parse_element(s: Seq<char>, pos: int) -> Result<
    (NodeView, int),
    ParseErrorView,
>
    decreases s.len() - pos, 0int,
{
    match expect_char(s, pos, '<') {
        Err(e) => Err(e),
        Ok(name_start) => {
            let (tag, name_end) = spec_parse_tag_name(s, name_start);
            match spec_parse_attributes(s, name_end, Map::empty()) {
                Err(e) => Err(e),
                Ok((attrs, attrs_end)) => match expect_char(s, attrs_end, '>') {
                    Err(e) => Err(e),
                    Ok(body_start) => {
                        proof {
                            lemma_scan_while_advances(s, name_start, tag_char_pred());
                            lemma_attributes_advance(s, name_end, Map::empty());
                        }
                        match spec_parse_nodes(s, body_start) {
                            Err(e) => Err(e),
                            Ok((children, body_end)) => spec_parse_closing_tag(
                                s,
                                body_end,
                                element_view(tag, attrs, children),
                            ),
                        }
                    },
                },
            }
        },
    }
}

/// The closing tag that stands at `pos`, for the element `element`: `<`, `/`,
/// the element's name, and `>`.
pub open spec fn spec_parse_closing_tag(s: Seq<char>, pos: int, element: NodeView) -> Result<
    (NodeView, int),
    ParseErrorView,
> {
    match expect_char(s, pos, '<') {
        Err(e) => Err(e),
        Ok(slash) => match expect_char(s, slash, '/') {
            Err(e) => Err(e),
            Ok(name_start) => {
                let (closing, name_end) = spec_parse_tag_name(s, name_start);
                if closing != tag_name_of(element) {
                    Err(
                        ParseErrorView {
                            kind: ParseErrorKindView::TagMismatch {
                                opening: tag_name_of(element),
                                closing,
                            },
                            position: name_start,
                        },
                    )
                } else {
                    match expect_char(s, name_end, '>') {
                        Err(e) => Err(e),
                        Ok(end) => Ok((element, end)),
                    }
                }
            },
        },
    }
}

/// The nodes that stand at `pos`, each after the whitespace before it, up to
/// the end of the source or to a `</`, which is left in place.
///
/// The test on `next` is there for the termination argument alone: a node
/// takes up at least one character and ends within the source, as
/// [`lemma_node_advances`] shows.
pub open spec fn spec_parse_nodes(s: Seq<char>, pos: int) -> Result<
    (Seq<NodeView>, int),
    ParseErrorView,
>
    decreases s.len() - pos, 2int,
{
    let start = scan_while(s, pos, whitespace_pred());
    if start >= s.len() || has_prefix_at(s, start, seq!['<', '/']) {
        Ok((Seq::empty(), start))
    } else {
        proof {
            lemma_scan_while_advances(s, pos, whitespace_pred());
        }
        match spec_parse_node(s, start) {
            Err(e) => Err(e),
            Ok((node, next)) => {
                if start < next <= s.len() {
                    match spec_parse_nodes(s, next) {
                        Err(e) => Err(e),
                        Ok((rest, end)) => Ok((seq![node] + rest, end)),
                    }
                } else {
                    Err(end_of_input(s))
                }
            },
        }
    }
}

/// The document that `s` holds: its one top-level node, or, where it holds
/// none or several, an element named `html` with the top-level nodes as its
/// children.
pub open spec fn spec_parse(s: Seq<char>) -> Result<NodeView, ParseErrorView> {
    match spec_parse_nodes(s, 0) {
        Err(e) => Err(e),
        Ok((nodes, _)) => {
            if nodes.len() == 1 {
                Ok(nodes[0])
            } else {
                Ok(element_view(root_name(), Map::empty(), nodes))
            }
        },
    }
}

/// A node takes up at least one character and ends within the source.
pub proof fn lemma_node_advances(s: Seq<char>, pos: int)
    requires
        0 <= pos,
    ensures
        spec_parse_node(s, pos) matches Ok((_, end)) ==> pos < end <= s.len(),
    decreases s.len() - pos, 1int,
{
    if pos < s.len() {
        if s[pos] == '<' {
            lemma_element_advances(s, pos);
        } else {
            lemma_scan_while_maximal(s, pos + 1, other_than('<'));
        }
    }
}

/// An element takes up at least one character and ends within the source.
pub proof fn lemma_element_advances(s: Seq<char>, pos: int)
    requires
        0 <= pos,
    ensures
        spec_parse_element(s, pos) matches Ok((_, end)) ==> pos < end <= s.len(),
    decreases s.len() - pos, 0int,
{
    if let Ok(name_start) = expect_char(s, pos, '<') {
        let (tag, name_end) = spec_parse_tag_name(s, name_start);
        lemma_scan_while_advances(s, name_start, tag_char_pred());
        lemma_attributes_advance(s, name_end, Map::empty());
        if let Ok((attrs, attrs_end)) = spec_parse_attributes(s, name_end, Map::empty()) {
            let body_start = attrs_end + 1;
            lemma_nodes_advance(s, body_start);
            if let Ok((children, body_end)) = spec_parse_nodes(s, body_start) {
                lemma_closing_tag_advances(s, body_end, element_view(tag, attrs, children));
            }
        }
    }
}

/// A closing tag ends within the source.
pub proof fn lemma_closing_tag_advances(s: Seq<char>, pos: int, element: NodeView)
    requires
        0 <= pos,
    ensures
        spec_parse_closing_tag(s, pos, element) matches Ok((_, end)) ==> pos < end <= s.len(),
{
    lemma_scan_while_advances(s, pos + 2, tag_char_pred());
}

/// A list of nodes ends within the source.
pub proof fn lemma_nodes_advance(s: Seq<char>, pos: int)
    requires
        0 <= pos <= s.len(),
    ensures
        spec_parse_nodes(s, pos) matches Ok((_, end)) ==> pos <= end <= s.len(),
    decreases s.len() - pos, 2int,
{
    lemma_scan_while_maximal(s, pos, whitespace_pred());
    let start = scan_while(s, pos, whitespace_pred());
    if !(start >= s.len() || has_prefix_at(s, start, seq!['<', '/'])) {
        lemma_node_advances(s, start);
        if let Ok((node, next)) = spec_parse_node(s, start) {
            lemma_nodes_advance(s, next);
        }
    }
}

/// Putting `front` before the nodes of a parse result.
pub open spec fn prepend_nodes(
    front: Seq<NodeView>,
    rest: Result<(Seq<NodeView>, int), ParseErrorView>,
) -> Result<(Seq<NodeView>, int), ParseErrorView> {
    match rest {
        Ok((nodes, end)) => Ok((front + nodes, end)),
        Err(e) => Err(e),
    }
}

/// A parser for markup text.
pub struct Parser {
    cursor: Cursor,
}

impl Parser {
    /// The characters of the source text.
    pub closed spec fn source(&self) -> Seq<char> {
        self.cursor.source()
    }

    /// The number of characters already consumed.
    pub closed spec fn offset(&self) -> int {
        self.cursor.offset()
    }

    /// A parser at the start of `source`.
    pub fn new(source: &str) -> (parser: Parser)
        ensures
            parser.source() == source@,
            parser.offset() == 0,
    {
        Parser { cursor: Cursor::new(source) }
    }

    /// Consumes a tag or attribute name: the longest run of ASCII letters and
    /// digits at the current offset.
    pub fn parse_tag_name(&mut self) -> (name: String)
        ensures
            final(self).source() == old(self).source(),
            0 <= old(self).offset() <= final(self).offset() <= old(self).source().len(),
            (name@, final(self).offset()) == spec_parse_tag_name(
                old(self).source(),
                old(self).offset(),
            ),
    {
        let test = |c: char| -> (b: bool)
            ensures
                b == is_tag_char(c),
            { (c >= 'a' && c <= 'z') || (c >= 'A' && c <= 'Z') || (c >= '0' && c <= '9') };
        let name = self.cursor.consume_while(test);
        proof {
            lemma_scan_while_unique(
                old(self).source(),
                old(self).offset(),
                self.offset(),
                tag_char_pred(),
            );
        }
        name
    }

    /// Consumes one node: an element where a `<` stands at the current
    /// offset, a text node otherwise.
    pub fn parse_node(&mut self) -> (r: Result<Node, ParseError>)
        ensures
            final(self).source() == old(self).source(),
            0 <= old(self).offset() <= final(self).offset() <= old(self).source().len(),
            match r {
                Ok(node) => yields(
                    spec_parse_node(old(self).source(), old(self).offset()),
                    (node@, final(self).offset()),
                ),
                Err(e) => fails_with(spec_parse_node(old(self).source(), old(self).offset()), e@),
            },
        decreases old(self).source().len() - old(self).offset(), 1int,
    {
        if self.cursor.eof() {
            return Err(
                ParseError {
                    kind: ParseErrorKind::UnexpectedEndOfInput,
                    position: self.cursor.position(),
                },
            );
        }
        if self.cursor.next_char() == '<' {
            self.parse_element()
        } else {
            Ok(self.parse_text())
        }
    }

    /// Consumes a text node: the characters up to the next `<`, undecoded.
    pub fn parse_text(&mut self) -> (node: Node)
        ensures
            final(self).source() == old(self).source(),
            0 <= old(self).offset() <= final(self).offset() <= old(self).source().len(),
            (node@, final(self).offset()) == spec_parse_text(
                old(self).source(),
                old(self).offset(),
            ),
    {
        let test = |c: char| -> (b: bool)
            ensures
                b == (c != '<'),
            { c != '<' };
        let data = self.cursor.consume_while(test);
        proof {
            lemma_scan_while_unique(
                old(self).source(),
                old(self).offset(),
                self.offset(),
                other_than('<'),
            );
        }
        text_node(data)
    }

    /// Consumes an element: opening tag, children and closing tag.
    pub fn parse_element(&mut self) -> (r: Result<Node, ParseError>)
        ensures
            final(self).source() == old(self).source(),
            0 <= old(self).offset() <= final(self).offset() <= old(self).source().len(),
            match r {
                Ok(node) => yields(
                    spec_parse_element(old(self).source(), old(self).offset()),
                    (node@, final(self).offset()),
                ),
                Err(e) => fails_with(
                    spec_parse_element(old(self).source(), old(self).offset()),
                    e@,
                ),
            },
        decreases old(self).source().len() - old(self).offset(), 0int,
    {
        // Opening tag
        match self.cursor.expect('<') {
            Err(e) => {
                return Err(e);
            },
            Ok(_) => {},
        }
        let tag_name = self.parse_tag_name();
        let attrs = match self.parse_attributes() {
            Err(e) => {
                return Err(e);
            },
            Ok(attrs) => attrs,
        };
        match self.cursor.expect('>') {
            Err(e) => {
                return Err(e);
            },
            Ok(_) => {},
        }

        // Contents
        let children = match self.parse_nodes() {
            Err(e) => {
                return Err(e);
            },
            Ok(children) => children,
        };
        let ghost element = element_view(tag_name@, attrs@, nodes_view(children@));

        // Closing tag
        match self.cursor.expect('<') {
            Err(e) => {
                return Err(e);
            },
            Ok(_) => {},
        }
        match self.cursor.expect('/') {
            Err(e) => {
                return Err(e);
            },
            Ok(_) => {},
        }
        let name_start: usize = self.cursor.position();
        let closing = self.parse_tag_name();
        if !(closing == tag_name) {
            return Err(
                ParseError {
                    kind: ParseErrorKind::TagMismatch { opening: tag_name, closing },
                    position: name_start,
                },
            );
        }
        match self.cursor.expect('>') {
            Err(e) => {
                return Err(e);
            },
            Ok(_) => {},
        }
        Ok(element_node(tag_name, attrs, children))
    }

    /// Consumes one attribute: a name, `=`, and a quoted value.
    pub fn parse_attr(&mut self) -> (r: Result<(String, String), ParseError>)
        ensures
            final(self).source() == old(self).source(),
            0 <= old(self).offset() <= final(self).offset() <= old(self).source().len(),
            match r {
                Ok((name, value)) => yields(
                    spec_parse_attr(old(self).source(), old(self).offset()),
                    ((name@, value@), final(self).offset()),
                ),
                Err(e) => fails_with(spec_parse_attr(old(self).source(), old(self).offset()), e@),
            },
    {
        let name = self.parse_tag_name();
        match self.cursor.expect('=') {
            Err(e) => {
                return Err(e);
            },
            Ok(_) => {},
        }
        match self.parse_attr_value() {
            Err(e) => Err(e),
            Ok(value) => Ok((name, value)),
        }
    }

    /// Consumes a quoted value, opened and closed by the same quote
    /// character, single or double, and returns what stands between.
    pub fn parse_attr_value(&mut self) -> (r: Result<String, ParseError>)
        ensures
            final(self).source() == old(self).source(),
            0 <= old(self).offset() <= final(self).offset() <= old(self).source().len(),
            match r {
                Ok(value) => yields(
                    spec_parse_attr_value(old(self).source(), old(self).offset()),
                    (value@, final(self).offset()),
                ),
                Err(e) => fails_with(
                    spec_parse_attr_value(old(self).source(), old(self).offset()),
                    e@,
                ),
            },
    {
        let start: usize = self.cursor.position();
        if self.cursor.eof() {
            return Err(ParseError { kind: ParseErrorKind::UnexpectedEndOfInput, position: start });
        }
        let open_quote = self.cursor.next_char();
        if !(open_quote == '"' || open_quote == '\'') {
            let expected: Vec<char> = vec!['"', '\''];
            assert(expected@ =~= seq!['"', '\'']);
            return Err(
                ParseError {
                    kind: ParseErrorKind::UnexpectedCharacter { expected, found: open_quote },
                    position: start,
                },
            );
        }
        self.cursor.consume_char();
        let test = |c: char| -> (b: bool)
            ensures
                b == (c != open_quote),
            { c != open_quote };
        let value = self.cursor.consume_while(test);
        proof {
            lemma_scan_while_unique(
                old(self).source(),
                old(self).offset() + 1,
                self.offset(),
                other_than(open_quote),
            );
        }
        if self.cursor.eof() {
            let other = if open_quote == '"' {
                '\''
            } else {
                '"'
            };
            if contains_char(value.as_str(), other) {
                return Err(ParseError { kind: ParseErrorKind::QuoteMismatch, position: start });
            } else {
                return Err(ParseError { kind: ParseErrorKind::UnterminatedQuote, position: start });
            }
        }
        self.cursor.consume_char();
        Ok(value)
    }

    /// Consumes a list of attributes, separated by whitespace, up to the `>`
    /// that ends the tag. Of two values for one name the later one stays.
    pub fn parse_attributes(&mut self) -> (r: Result<AttrMap, ParseError>)
        ensures
            final(self).source() == old(self).source(),
            0 <= old(self).offset() <= final(self).offset() <= old(self).source().len(),
            match r {
                Ok(attrs) => yields(
                    spec_parse_attributes(old(self).source(), old(self).offset(), Map::empty()),
                    (attrs@, final(self).offset()),
                ),
                Err(e) => fails_with(
                    spec_parse_attributes(old(self).source(), old(self).offset(), Map::empty()),
                    e@,
                ),
            },
    {
        let mut attributes = AttrMap::new();
        let ghost s = self.source();
        let ghost start = self.offset();
        proof {
            self.cursor.lemma_offset_in_source();
        }
        loop
            invariant
                self.source() == s,
                s == old(self).source(),
                start == old(self).offset(),
                0 <= start <= self.offset() <= s.len(),
                spec_parse_attributes(s, start, Map::empty()) == spec_parse_attributes(
                    s,
                    self.offset(),
                    attributes@,
                ),
            decreases s.len() - self.offset(),
        {
            let ghost before = self.offset();
            self.cursor.consume_whitespace();
            if self.cursor.eof() {
                return Err(
                    ParseError {
                        kind: ParseErrorKind::UnexpectedEndOfInput,
                        position: self.cursor.position(),
                    },
                );
            }
            if self.cursor.next_char() == '>' {
                return Ok(attributes);
            }
            proof {
                lemma_attr_advances(s, self.offset());
            }
            match self.parse_attr() {
                Err(e) => {
                    return Err(e);
                },
                Ok((name, value)) => {
                    attributes.insert(name, value);
                },
            }
        }
    }

    /// Consumes nodes, each after the whitespace before it, up to the end of
    /// the source or to a `</`.
    pub fn parse_nodes(&mut self) -> (r: Result<Vec<Node>, ParseError>)
        ensures
            final(self).source() == old(self).source(),
            0 <= old(self).offset() <= final(self).offset() <= old(self).source().len(),
            match r {
                Ok(nodes) => yields(
                    spec_parse_nodes(old(self).source(), old(self).offset()),
                    (nodes_view(nodes@), final(self).offset()),
                ),
                Err(e) => fails_with(spec_parse_nodes(old(self).source(), old(self).offset()), e@),
            },
        decreases old(self).source().len() - old(self).offset(), 2int,
    {
        let mut nodes: Vec<Node> = Vec::new();
        let ghost s = self.source();
        let ghost start = self.offset();
        proof {
            self.cursor.lemma_offset_in_source();
        }
        loop
            invariant
                self.source() == s,
                s == old(self).source(),
                start == old(self).offset(),
                0 <= start <= self.offset() <= s.len(),
                spec_parse_nodes(s, start) == prepend_nodes(
                    nodes_view(nodes@),
                    spec_parse_nodes(s, self.offset()),
                ),
            decreases s.len() - self.offset(),
        {
            let ghost before = self.offset();
            self.cursor.consume_whitespace();
            if self.cursor.eof() || self.cursor.starts_with("</") {
                proof {
                    reveal_strlit("</");
                    assert("</"@ =~= seq!['<', '/']);
                    assert(nodes_view(nodes@) + Seq::<NodeView>::empty() =~= nodes_view(nodes@));
                }
                return Ok(nodes);
            }
            proof {
                reveal_strlit("</");
                assert("</"@ =~= seq!['<', '/']);
                lemma_node_advances(s, self.offset());
            }
            let ghost front = nodes_view(nodes@);
            match self.parse_node() {
                Err(e) => {
                    return Err(e);
                },
                Ok(node) => {
                    let ghost rest = spec_parse_nodes(s, self.offset());
                    nodes.push(node);
                    proof {
                        assert(nodes_view(nodes@) =~= front + seq![node@]);
                        if let Ok((more, end)) = rest {
                            assert(front + (seq![node@] + more) =~= (front + seq![node@]) + more);
                        }
                    }
                },
            }
        }
    }

    /// Parses a document. The result is its one top-level node, or, where it
    /// has none or several, an element named `html` that holds them.
    pub fn parse(source: String) -> (r: Result<Node, ParseError>)
        ensures
            match r {
                Ok(node) => yields(spec_parse(source@), node@),
                Err(e) => fails_with(spec_parse(source@), e@),
            },
    {
        let mut parser = Parser::new(source.as_str());
        let mut nodes = match parser.parse_nodes() {
            Err(e) => {
                return Err(e);
            },
            Ok(nodes) => nodes,
        };
        if nodes.len() == 1 {
            let ghost views = nodes_view(nodes@);
            let node = nodes.swap_remove(0);
            assert(node@ == views[0]);
            Ok(node)
        } else {
            proof {
                reveal_strlit("html");
                assert("html"@ =~= root_name());
            }
            Ok(element_node("html".to_owned(), AttrMap::new(), nodes))
        }
    }
}

/// The name of the element that holds the top-level nodes of a document
/// that has not exactly one of them.
pub open spec fn root_name() -> Seq<char> {
    seq!['h', 't', 'm', 'l']
}

/// Markup without tags is at most one text node: a source that holds no `<`
/// is the text node of what follows its leading whitespace, or, where
/// nothing follows it, an empty `html` element.
pub proof fn tagless_source_is_its_text(s: Seq<char>)
    requires
        forall|i: int| 0 <= i < s.len() ==> s[i] != '<',
    ensures
        yields(
            spec_parse(s),
            if scan_while(s, 0, whitespace_pred()) < s.len() {
                text_view(s.subrange(scan_while(s, 0, whitespace_pred()), s.len() as int))
            } else {
                element_view(root_name(), Map::empty(), Seq::empty())
            },
        ),
{
    let end = s.len() as int;
    lemma_scan_while_maximal(s, 0, whitespace_pred());
    let start = scan_while(s, 0, whitespace_pred());
    if start < end {
        let node = text_view(s.subrange(start, end));
        lemma_scan_while_unique(s, start, end, other_than('<'));
        lemma_scan_while_unique(s, end, end, whitespace_pred());
        assert(!has_prefix_at(s, start, seq!['<', '/'])) by {
            if has_prefix_at(s, start, seq!['<', '/']) {
                assert(s.subrange(start, start + 2)[0] == s[start]);
            }
        }
        assert(yields(spec_parse_node(s, start), (node, end)));
        assert(yields(spec_parse_nodes(s, end), (Seq::empty(), end)));
        assert(seq![node] + Seq::<NodeView>::empty() =~= seq![node]);
        assert(yields(spec_parse_nodes(s, 0), (seq![node], end)));
    }
}

/// Raw text comes back unchanged: a source that holds no `<` and begins
/// with a character other than whitespace is one text node whose content is
/// the source itself.
pub proof fn plain_text_is_one_text_node(s: Seq<char>)
    requires
        s.len() > 0,
        !is_whitespace(s[0]),
        forall|i: int| 0 <= i < s.len() ==> s[i] != '<',
    ensures
        yields(spec_parse(s), text_view(s)),
{
    tagless_source_is_its_text(s);
    lemma_scan_while_unique(s, 0, 0, whitespace_pred());
    assert(s.subrange(0, s.len() as int) =~= s);
}

/// A document with one top-level node is that node; a document with none or
/// several is an `html` element without attributes that holds them in source
/// order; a document whose nodes fail to parse fails in the same way.
pub proof fn document_root_is_the_one_node_or_wraps_them(s: Seq<char>)
    ensures
        match spec_parse_nodes(s, 0) {
            Ok((nodes, _)) => yields(
                spec_parse(s),
                if nodes.len() == 1 {
                    nodes[0]
                } else {
                    element_view(root_name(), Map::empty(), nodes)
                },
            ),
            Err(e) => fails_with(spec_parse(s), e),
        },
{
}

} // verus!
