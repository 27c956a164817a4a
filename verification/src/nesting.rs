//! How markup parses where it stands inside other markup: what a complete
//! run of nodes yields by itself, it yields in any document that holds it
//! before a closing tag.

use crate::cursor::{
    has_prefix_at, lemma_scan_while_maximal, lemma_scan_while_unique, scan_while,
    whitespace_pred,
};
use crate::dom::{element_view, NodeView};
use crate::error::{expect_char, fails_with, yields, ParseErrorKindView, ParseErrorView};
use crate::html::{
    is_tag_char, lemma_attr_advances, lemma_attributes_advance, lemma_node_advances,
    lemma_nodes_advance, other_than,
    spec_parse, spec_parse_attr, spec_parse_attr_value, spec_parse_attributes,
    spec_parse_closing_tag, spec_parse_element, spec_parse_node, spec_parse_nodes,
    spec_parse_tag_name, tag_char_pred,
};
use vstd::prelude::*;

verus! {

/// Whether `inner` stands in `doc` at offset `at`, with a `</` behind it.
pub open spec fn stands_in(doc: Seq<char>, at: int, inner: Seq<char>) -> bool {
    &&& 0 <= at
    &&& at + inner.len() + 2 <= doc.len()
    &&& doc.subrange(at, at + inner.len()) == inner
    &&& doc[at + inner.len()] == '<'
    &&& doc[at + inner.len() + 1] == '/'
}

/// What stands in a document has the document's characters.
pub proof fn lemma_stands_in_chars(doc: Seq<char>, at: int, inner: Seq<char>)
    requires
        stands_in(doc, at, inner),
    ensures
        forall|i: int| 0 <= i < inner.len() ==> #[trigger] inner[i] == doc[at + i],
        forall|a: int, b: int|
            0 <= a <= b <= inner.len() ==> #[trigger] inner.subrange(a, b) == doc.subrange(
                at + a,
                at + b,
            ),
{
    assert forall|i: int| 0 <= i < inner.len() implies #[trigger] inner[i] == doc[at + i] by {
        assert(doc.subrange(at, at + inner.len())[i] == doc[at + i]);
    }
    assert forall|a: int, b: int| 0 <= a <= b <= inner.len() implies #[trigger] inner.subrange(
        a,
        b,
    ) == doc.subrange(at + a, at + b) by {
        assert(inner.subrange(a, b) =~= doc.subrange(at + a, at + b));
    }
}

/// A scan within what stands in a document comes to rest at the same
/// character in the document, where it rests before the end of the run or
/// does not pass over `<`.
pub proof fn lemma_scan_embedded(
    doc: Seq<char>,
    at: int,
    inner: Seq<char>,
    pos: int,
    pred: spec_fn(char) -> bool,
)
    requires
        stands_in(doc, at, inner),
        0 <= pos <= inner.len(),
        scan_while(inner, pos, pred) < inner.len() || !pred('<'),
    ensures
        scan_while(doc, at + pos, pred) == at + scan_while(inner, pos, pred),
        pos <= scan_while(inner, pos, pred) <= inner.len(),
{
    lemma_stands_in_chars(doc, at, inner);
    lemma_scan_while_maximal(inner, pos, pred);
    let end: int = scan_while(inner, pos, pred);
    assert forall|i: int| at + pos <= i < at + end implies pred(#[trigger] doc[i]) by {
        assert(inner[i - at] == doc[at + (i - at)]);
    }
    if end < inner.len() {
        assert(inner[end] == doc[at + end]);
    }
    lemma_scan_while_unique(doc, at + pos, at + end, pred);
}

/// A required character that is found in what stands in a document is
/// found in the document.
pub proof fn lemma_expect_embedded(doc: Seq<char>, at: int, inner: Seq<char>, pos: int, c: char)
    requires
        stands_in(doc, at, inner),
        0 <= pos,
        expect_char(inner, pos, c) is Ok,
    ensures
        yields(expect_char(inner, pos, c), pos + 1),
        yields(expect_char(doc, at + pos, c), at + pos + 1),
        pos < inner.len(),
{
    lemma_stands_in_chars(doc, at, inner);
    assert(inner[pos] == doc[at + pos]);
}

/// The outcome `outcome` with its end offset moved forward by `by`.
pub open spec fn shifted<T>(outcome: Result<(T, int), ParseErrorView>, by: int) -> Result<
    (T, int),
    ParseErrorView,
> {
    match outcome {
        Ok((value, end)) => Ok((value, end + by)),
        Err(e) => Err(e),
    }
}

/// A tag or attribute name within what stands in a document is the same
/// name in the document.
pub proof fn lemma_tag_name_embedded(doc: Seq<char>, at: int, inner: Seq<char>, pos: int)
    requires
        stands_in(doc, at, inner),
        0 <= pos <= inner.len(),
    ensures
        spec_parse_tag_name(doc, at + pos).0 == spec_parse_tag_name(inner, pos).0,
        spec_parse_tag_name(doc, at + pos).1 == at + spec_parse_tag_name(inner, pos).1,
        pos <= spec_parse_tag_name(inner, pos).1 <= inner.len(),
{
    lemma_stands_in_chars(doc, at, inner);
    lemma_scan_embedded(doc, at, inner, pos, tag_char_pred());
}

/// A quoted value within what stands in a document is the same value in
/// the document.
pub proof fn lemma_attr_value_embedded(doc: Seq<char>, at: int, inner: Seq<char>, pos: int)
    requires
        stands_in(doc, at, inner),
        0 <= pos <= inner.len(),
        spec_parse_attr_value(inner, pos) is Ok,
    ensures
        spec_parse_attr_value(doc, at + pos) == shifted(spec_parse_attr_value(inner, pos), at),
{
    lemma_stands_in_chars(doc, at, inner);
    assert(inner[pos] == doc[at + pos]);
    lemma_scan_while_maximal(inner, pos + 1, other_than(inner[pos]));
    lemma_scan_embedded(doc, at, inner, pos + 1, other_than(inner[pos]));
}

/// An attribute within what stands in a document is the same attribute in
/// the document.
pub proof fn lemma_attr_embedded(doc: Seq<char>, at: int, inner: Seq<char>, pos: int)
    requires
        stands_in(doc, at, inner),
        0 <= pos <= inner.len(),
        spec_parse_attr(inner, pos) is Ok,
    ensures
        spec_parse_attr(doc, at + pos) == shifted(spec_parse_attr(inner, pos), at),
{
    lemma_tag_name_embedded(doc, at, inner, pos);
    let name_end = spec_parse_tag_name(inner, pos).1;
    lemma_expect_embedded(doc, at, inner, name_end, '=');
    lemma_attr_value_embedded(doc, at, inner, name_end + 1);
}

/// A list of attributes within what stands in a document is the same list
/// in the document.
pub proof fn lemma_attributes_embedded(
    doc: Seq<char>,
    at: int,
    inner: Seq<char>,
    pos: int,
    attrs: Map<Seq<char>, Seq<char>>,
)
    requires
        stands_in(doc, at, inner),
        0 <= pos <= inner.len(),
        spec_parse_attributes(inner, pos, attrs) is Ok,
    ensures
        spec_parse_attributes(doc, at + pos, attrs) == shifted(
            spec_parse_attributes(inner, pos, attrs),
            at,
        ),
    decreases inner.len() - pos,
{
    lemma_stands_in_chars(doc, at, inner);
    lemma_scan_embedded(doc, at, inner, pos, whitespace_pred());
    let start = scan_while(inner, pos, whitespace_pred());
    assert(inner[start] == doc[at + start]);
    if inner[start] != '>' {
        lemma_attr_advances(inner, start);
        lemma_attr_embedded(doc, at, inner, start);
        let ((name, value), next) = spec_parse_attr(inner, start)->Ok_0;
        lemma_attributes_embedded(doc, at, inner, next, attrs.insert(name, value));
    }
}

/// A closing tag within what stands in a document is the same closing tag
/// in the document.
pub proof fn lemma_closing_tag_embedded(
    doc: Seq<char>,
    at: int,
    inner: Seq<char>,
    pos: int,
    element: NodeView,
)
    requires
        stands_in(doc, at, inner),
        0 <= pos <= inner.len(),
        spec_parse_closing_tag(inner, pos, element) is Ok,
    ensures
        spec_parse_closing_tag(doc, at + pos, element) == shifted(
            spec_parse_closing_tag(inner, pos, element),
            at,
        ),
{
    lemma_expect_embedded(doc, at, inner, pos, '<');
    lemma_expect_embedded(doc, at, inner, pos + 1, '/');
    lemma_tag_name_embedded(doc, at, inner, pos + 2);
    let name_end = spec_parse_tag_name(inner, pos + 2).1;
    lemma_expect_embedded(doc, at, inner, name_end, '>');
}

/// A node within what stands in a document is the same node in the
/// document.
pub proof fn lemma_node_embedded(doc: Seq<char>, at: int, inner: Seq<char>, pos: int)
    requires
        stands_in(doc, at, inner),
        0 <= pos <= inner.len(),
        spec_parse_node(inner, pos) is Ok,
    ensures
        spec_parse_node(doc, at + pos) == shifted(spec_parse_node(inner, pos), at),
    decreases inner.len() - pos, 1int,
{
    lemma_stands_in_chars(doc, at, inner);
    assert(inner[pos] == doc[at + pos]);
    if inner[pos] == '<' {
        lemma_element_embedded(doc, at, inner, pos);
    } else {
        lemma_scan_embedded(doc, at, inner, pos, other_than('<'));
    }
}

/// An element within what stands in a document is the same element in the
/// document.
pub proof fn lemma_element_embedded(doc: Seq<char>, at: int, inner: Seq<char>, pos: int)
    requires
        stands_in(doc, at, inner),
        0 <= pos <= inner.len(),
        spec_parse_element(inner, pos) is Ok,
    ensures
        spec_parse_element(doc, at + pos) == shifted(spec_parse_element(inner, pos), at),
    decreases inner.len() - pos, 0int,
{
    lemma_expect_embedded(doc, at, inner, pos, '<');
    lemma_tag_name_embedded(doc, at, inner, pos + 1);
    let (tag, name_end) = spec_parse_tag_name(inner, pos + 1);
    lemma_attributes_advance(inner, name_end, Map::empty());
    lemma_attributes_embedded(doc, at, inner, name_end, Map::empty());
    let (attrs, attrs_end) = spec_parse_attributes(inner, name_end, Map::empty())->Ok_0;
    lemma_expect_embedded(doc, at, inner, attrs_end, '>');
    let body_start = attrs_end + 1;
    lemma_nodes_advance(inner, body_start);
    lemma_nodes_embedded(doc, at, inner, body_start);
    let (children, body_end) = spec_parse_nodes(inner, body_start)->Ok_0;
    lemma_closing_tag_embedded(doc, at, inner, body_end, element_view(tag, attrs, children));
}

/// A run of nodes within what stands in a document is the same run in the
/// document.
pub proof fn lemma_nodes_embedded(doc: Seq<char>, at: int, inner: Seq<char>, pos: int)
    requires
        stands_in(doc, at, inner),
        0 <= pos <= inner.len(),
        spec_parse_nodes(inner, pos) is Ok,
    ensures
        spec_parse_nodes(doc, at + pos) == shifted(spec_parse_nodes(inner, pos), at),
    decreases inner.len() - pos, 2int,
{
    lemma_stands_in_chars(doc, at, inner);
    lemma_scan_embedded(doc, at, inner, pos, whitespace_pred());
    let start = scan_while(inner, pos, whitespace_pred());
    let end_mark = seq!['<', '/'];
    if start >= inner.len() {
        assert(doc.subrange(at + start, at + start + 2) =~= end_mark);
    } else if has_prefix_at(inner, start, end_mark) {
        assert(inner.subrange(start, start + 2) == doc.subrange(at + start, at + start + 2));
    } else {
        assert(inner[start] == doc[at + start]);
        if has_prefix_at(doc, at + start, end_mark) {
            assert(doc.subrange(at + start, at + start + 2)[0] == '<');
            assert(doc.subrange(at + start, at + start + 2)[1] == '/');
            if start + 2 <= inner.len() {
                assert(inner[start + 1] == doc[at + (start + 1)]);
                assert(inner.subrange(start, start + 2) =~= end_mark);
            }
        }
        lemma_node_advances(inner, start);
        lemma_node_embedded(doc, at, inner, start);
        let (node, next) = spec_parse_node(inner, start)->Ok_0;
        lemma_nodes_embedded(doc, at, inner, next);
    }
}

/// The text of an element with one attribute: `<tag attr="value">`, the
/// text `inner` of its children, and `</tag>`.
pub open spec fn element_source(
    tag: Seq<char>,
    attr: Seq<char>,
    value: Seq<char>,
    inner: Seq<char>,
) -> Seq<char> {
    seq!['<'] + tag + seq![' '] + attr + seq!['=', '"'] + value + seq!['"', '>'] + inner + seq![
        '<',
        '/',
    ] + tag + seq!['>']
}

/// Where the parts of an element's text stand in it.
pub proof fn lemma_element_source_chars(
    tag: Seq<char>,
    attr: Seq<char>,
    value: Seq<char>,
    inner: Seq<char>,
)
    ensures
        ({
            let doc = element_source(tag, attr, value, inner);
            let space: int = tag.len() as int + 1;
            let equals: int = space + 1 + attr.len();
            let quote: int = equals + 2 + value.len();
            let body: int = quote + 2;
            let close: int = body + inner.len();
            &&& doc.len() == close + 3 + tag.len()
            &&& doc[0] == '<'
            &&& doc.subrange(1, space) == tag
            &&& doc[space] == ' '
            &&& doc.subrange(space + 1, equals) == attr
            &&& doc[equals] == '='
            &&& doc[equals + 1] == '"'
            &&& doc.subrange(equals + 2, quote) == value
            &&& doc[quote] == '"'
            &&& doc[quote + 1] == '>'
            &&& doc.subrange(body, close) == inner
            &&& doc[close] == '<'
            &&& doc[close + 1] == '/'
            &&& doc.subrange(close + 2, close + 2 + tag.len()) == tag
            &&& doc[close + 2 + tag.len()] == '>'
        }),
{
    let doc = element_source(tag, attr, value, inner);
    let space: int = tag.len() as int + 1;
    let equals: int = space + 1 + attr.len();
    let quote: int = equals + 2 + value.len();
    let body: int = quote + 2;
    let close: int = body + inner.len();
    assert(doc.subrange(1, space) =~= tag);
    assert(doc.subrange(space + 1, equals) =~= attr);
    assert(doc.subrange(equals + 2, quote) =~= value);
    assert(doc.subrange(body, close) =~= inner);
    assert(doc.subrange(close + 2, close + 2 + tag.len()) =~= tag);
}

/// A well-formed element parses to its parts: the text
/// `<tag attr="value">inner</tag>`, where `tag` and `attr` are names,
/// `value` holds no `"`, and `inner` is a complete run of nodes, is an
/// element named `tag`, in which `attr` has the value `value`, and whose
/// children are the nodes that `inner` holds.
pub proof fn element_parses_to_its_parts(
    tag: Seq<char>,
    attr: Seq<char>,
    value: Seq<char>,
    inner: Seq<char>,
)
    requires
        forall|i: int| 0 <= i < tag.len() ==> is_tag_char(#[trigger] tag[i]),
        forall|i: int| 0 <= i < attr.len() ==> is_tag_char(#[trigger] attr[i]),
        forall|i: int| 0 <= i < value.len() ==> #[trigger] value[i] != '"',
        spec_parse_nodes(inner, 0) matches Ok((_, end)) && end == inner.len(),
    ensures
        yields(
            spec_parse(element_source(tag, attr, value, inner)),
            element_view(
                tag,
                Map::<Seq<char>, Seq<char>>::empty().insert(attr, value),
                spec_parse_nodes(inner, 0)->Ok_0.0,
            ),
        ),
{
    let doc = element_source(tag, attr, value, inner);
    let space: int = tag.len() as int + 1;
    let equals: int = space + 1 + attr.len();
    let quote: int = equals + 2 + value.len();
    let body: int = quote + 2;
    let close: int = body + inner.len();
    let end: int = close + 3 + tag.len();
    let children = spec_parse_nodes(inner, 0)->Ok_0.0;
    let attrs = Map::<Seq<char>, Seq<char>>::empty().insert(attr, value);
    let element = element_view(tag, attrs, children);
    lemma_element_source_chars(tag, attr, value, inner);

    // The opening tag's name.
    assert forall|i: int| 1 <= i < space implies is_tag_char(#[trigger] doc[i]) by {
        assert(doc.subrange(1, space)[i - 1] == doc[i]);
    }
    lemma_scan_while_unique(doc, 1, space, tag_char_pred());
    assert(spec_parse_tag_name(doc, 1) == (tag, space));

    // The attribute.
    if attr.len() > 0 {
        assert(doc.subrange(space + 1, equals)[0] == doc[space + 1]);
        assert(is_tag_char(attr[0]));
    }
    lemma_scan_while_unique(doc, space, space + 1, whitespace_pred());
    assert forall|i: int| space + 1 <= i < equals implies is_tag_char(#[trigger] doc[i]) by {
        assert(doc.subrange(space + 1, equals)[i - (space + 1)] == doc[i]);
    }
    lemma_scan_while_unique(doc, space + 1, equals, tag_char_pred());
    assert forall|i: int| equals + 2 <= i < quote implies #[trigger] doc[i] != '"' by {
        assert(doc.subrange(equals + 2, quote)[i - (equals + 2)] == doc[i]);
    }
    lemma_scan_while_unique(doc, equals + 2, quote, other_than('"'));
    assert(yields(spec_parse_attr_value(doc, equals + 1), (value, quote + 1)));
    assert(yields(spec_parse_attr(doc, space + 1), ((attr, value), quote + 1)));
    lemma_scan_while_unique(doc, quote + 1, quote + 1, whitespace_pred());
    assert(yields(spec_parse_attributes(doc, quote + 1, attrs), (attrs, quote + 1)));
    assert(doc[space + 1] != '>') by {
        if attr.len() > 0 {
            assert(doc.subrange(space + 1, equals)[0] == doc[space + 1]);
            assert(is_tag_char(attr[0]));
        }
    }
    assert(yields(spec_parse_attributes(doc, space, Map::empty()), (attrs, quote + 1)));

    // The children.
    assert(stands_in(doc, body, inner));
    lemma_nodes_embedded(doc, body, inner, 0);
    assert(yields(spec_parse_nodes(doc, body), (children, close)));

    // The closing tag.
    assert forall|i: int| close + 2 <= i < end - 1 implies is_tag_char(#[trigger] doc[i]) by {
        assert(doc.subrange(close + 2, close + 2 + tag.len())[i - (close + 2)] == doc[i]);
    }
    lemma_scan_while_unique(doc, close + 2, end - 1, tag_char_pred());
    assert(spec_parse_tag_name(doc, close + 2) == (tag, end - 1));
    assert(yields(spec_parse_closing_tag(doc, close, element), (element, end)));
    assert(yields(spec_parse_element(doc, 0), (element, end)));

    // The document.
    lemma_scan_while_unique(doc, 0, 0, whitespace_pred());
    lemma_scan_while_unique(doc, end, end, whitespace_pred());
    assert(!has_prefix_at(doc, 0, seq!['<', '/'])) by {
        if has_prefix_at(doc, 0, seq!['<', '/']) {
            assert(doc.subrange(0, 2)[1] == doc[1]);
            if tag.len() > 0 {
                assert(doc.subrange(1, space)[0] == doc[1]);
                assert(is_tag_char(tag[0]));
            }
        }
    }
    assert(yields(spec_parse_node(doc, 0), (element, end)));
    assert(yields(spec_parse_nodes(doc, end), (Seq::empty(), end)));
    assert(seq![element] + Seq::<NodeView>::empty() =~= seq![element]);
    assert(yields(spec_parse_nodes(doc, 0), (seq![element], end)));
}

/// The text of an element without attributes that is closed under the name
/// `closing`: `<tag>`, the text `inner` of its children, and `</closing>`.
pub open spec fn closed_as(tag: Seq<char>, inner: Seq<char>, closing: Seq<char>) -> Seq<char> {
    seq!['<'] + tag + seq!['>'] + inner + seq!['<', '/'] + closing + seq!['>']
}

/// An element that is closed under another name fails to parse: the text
/// `<tag>inner</closing>`, where `tag` and `closing` are different names and
/// `inner` is a complete run of nodes, gives a tag mismatch that names both,
/// at the first character of `closing`.
pub proof fn element_closed_under_another_name_fails(
    tag: Seq<char>,
    inner: Seq<char>,
    closing: Seq<char>,
)
    requires
        forall|i: int| 0 <= i < tag.len() ==> is_tag_char(#[trigger] tag[i]),
        forall|i: int| 0 <= i < closing.len() ==> is_tag_char(#[trigger] closing[i]),
        tag != closing,
        spec_parse_nodes(inner, 0) matches Ok((_, end)) && end == inner.len(),
    ensures
        fails_with(
            spec_parse(closed_as(tag, inner, closing)),
            ParseErrorView {
                kind: ParseErrorKindView::TagMismatch { opening: tag, closing },
                position: tag.len() as int + inner.len() + 4,
            },
        ),
{
    let doc = closed_as(tag, inner, closing);
    let body: int = tag.len() as int + 2;
    let close: int = body + inner.len();
    let end: int = close + 2 + closing.len();
    let children = spec_parse_nodes(inner, 0)->Ok_0.0;
    let element = element_view(tag, Map::empty(), children);
    assert(doc.len() == end + 1);
    assert(doc.subrange(1, body - 1) =~= tag);
    assert(doc.subrange(body, close) =~= inner);
    assert(doc.subrange(close + 2, end) =~= closing);

    assert forall|i: int| 1 <= i < body - 1 implies is_tag_char(#[trigger] doc[i]) by {
        assert(doc.subrange(1, body - 1)[i - 1] == doc[i]);
    }
    lemma_scan_while_unique(doc, 1, body - 1, tag_char_pred());
    lemma_scan_while_unique(doc, body - 1, body - 1, whitespace_pred());
    assert(yields(spec_parse_attributes(doc, body - 1, Map::empty()), (Map::empty(), body - 1)));

    assert(stands_in(doc, body, inner));
    lemma_nodes_embedded(doc, body, inner, 0);

    assert forall|i: int| close + 2 <= i < end implies is_tag_char(#[trigger] doc[i]) by {
        assert(doc.subrange(close + 2, end)[i - (close + 2)] == doc[i]);
    }
    lemma_scan_while_unique(doc, close + 2, end, tag_char_pred());
    let failure = ParseErrorView {
        kind: ParseErrorKindView::TagMismatch { opening: tag, closing },
        position: close + 2,
    };
    assert(fails_with(spec_parse_closing_tag(doc, close, element), failure));
    assert(fails_with(spec_parse_element(doc, 0), failure));

    lemma_scan_while_unique(doc, 0, 0, whitespace_pred());
    assert(!has_prefix_at(doc, 0, seq!['<', '/'])) by {
        if has_prefix_at(doc, 0, seq!['<', '/']) {
            assert(doc.subrange(0, 2)[1] == doc[1]);
            if tag.len() > 0 {
                assert(doc.subrange(1, body - 1)[0] == doc[1]);
                assert(is_tag_char(tag[0]));
            }
        }
    }
    assert(fails_with(spec_parse_node(doc, 0), failure));
    assert(fails_with(spec_parse_nodes(doc, 0), failure));
}

} // verus!
