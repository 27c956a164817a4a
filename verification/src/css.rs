//! The style model: stylesheets, rules, selectors and declarations, and the
//! specificity by which the selectors of a rule are ordered.

use crate::cursor::{
    lemma_scan_while_advances, lemma_scan_while_unique, scan_while, whitespace_pred, Cursor,
};
use crate::error::{
    end_of_input, expect_char, expect_one_of, fails_with, unexpected, yields, ParseError,
    ParseErrorKind, ParseErrorView,
};
use vstd::prelude::*;

verus! {

/// An ordered list of rules, in the order in which they are written.
#[derive(Debug, Clone, PartialEq, Eq)]
pub struct Stylesheet {
    pub rules: Vec<Rule>,
}

/// Selectors, from the highest specificity to the lowest, and the
/// declarations that hold for what they select, in the order in which they
/// are written.
#[derive(Debug, Clone, PartialEq, Eq)]
pub struct Rule {
    pub selectors: Vec<Selector>,
    pub declarations: Vec<Declaration>,
}

/// A selector. Simple selectors are the only kind.
#[derive(Debug, Clone, PartialEq, Eq)]
pub enum Selector {
    Simple(SimpleSelector),
}

/// A selector on at most one tag name, at most one id, and any number of
/// classes, held in the order in which they were first written.
#[derive(Debug, Clone, PartialEq, Eq)]
pub struct SimpleSelector {
    pub tag_name: Option<String>,
    pub id: Option<String>,
    pub class: Vec<String>,
}

/// A property name with its value.
#[derive(Debug, Clone, PartialEq, Eq)]
pub struct Declaration {
    pub name: String,
    pub value: Value,
}

/// The value of a property.
#[derive(Debug, Clone, PartialEq, Eq)]
pub enum Value {
    Keyword(String),
    /// A length: its magnitude, as the decimal numeral that was written, and
    /// its unit.
    Length(String, Unit),
    ColorValue(Color),
}

/// The units of length.
#[derive(Debug, Clone, Copy, PartialEq, Eq)]
pub enum Unit {
    Px,
}

/// A colour, by its red, green, blue and alpha channels.
#[derive(Debug, Clone, Copy, PartialEq, Eq)]
pub struct Color {
    pub r: u8,
    pub g: u8,
    pub b: u8,
    pub a: u8,
}

/// The precedence of a selector: the weights of its id, of its classes and
/// of its tag name, compared in that order.
pub type Specificity = (usize, usize, usize);

/// The mathematical value of a [`SimpleSelector`].
pub struct SimpleSelectorView {
    pub tag_name: Option<Seq<char>>,
    pub id: Option<Seq<char>>,
    pub class: Seq<Seq<char>>,
}

/// The mathematical value of a [`Selector`].
pub enum SelectorView {
    Simple(SimpleSelectorView),
}

/// The mathematical value of a [`Value`].
pub enum ValueView {
    Keyword(Seq<char>),
    Length(Seq<char>, Unit),
    ColorValue(Color),
}

/// The mathematical value of a [`Declaration`].
pub struct DeclarationView {
    pub name: Seq<char>,
    pub value: ValueView,
}

/// The mathematical value of a [`Rule`].
pub struct RuleView {
    pub selectors: Seq<SelectorView>,
    pub declarations: Seq<DeclarationView>,
}

/// The mathematical value of a [`Stylesheet`].
pub struct StylesheetView {
    pub rules: Seq<RuleView>,
}

/// The character sequences of a list of strings, in order.
pub open spec fn strings_view(strings: Seq<String>) -> Seq<Seq<char>> {
    Seq::new(strings.len(), |i: int| strings[i]@)
}

/// The character sequence of a string that may be absent.
pub open spec fn option_view(string: Option<String>) -> Option<Seq<char>> {
    match string {
        Some(s) => Some(s@),
        None => None,
    }
}

impl View for SimpleSelector {
    type V = SimpleSelectorView;

    open spec fn view(&self) -> SimpleSelectorView {
        SimpleSelectorView {
            tag_name: option_view(self.tag_name),
            id: option_view(self.id),
            class: strings_view(self.class@),
        }
    }
}

impl View for Selector {
    type V = SelectorView;

    open spec fn view(&self) -> SelectorView {
        match self {
            Selector::Simple(simple) => SelectorView::Simple(simple@),
        }
    }
}

impl View for Value {
    type V = ValueView;

    open spec fn view(&self) -> ValueView {
        match self {
            Value::Keyword(word) => ValueView::Keyword(word@),
            Value::Length(magnitude, unit) => ValueView::Length(magnitude@, *unit),
            Value::ColorValue(color) => ValueView::ColorValue(*color),
        }
    }
}

impl View for Declaration {
    type V = DeclarationView;

    open spec fn view(&self) -> DeclarationView {
        DeclarationView { name: self.name@, value: self.value@ }
    }
}

/// The mathematical values of a list of selectors, in order.
pub open spec fn selectors_view(selectors: Seq<Selector>) -> Seq<SelectorView> {
    Seq::new(selectors.len(), |i: int| selectors[i]@)
}

/// The mathematical values of a list of declarations, in order.
pub open spec fn declarations_view(declarations: Seq<Declaration>) -> Seq<DeclarationView> {
    Seq::new(declarations.len(), |i: int| declarations[i]@)
}

impl View for Rule {
    type V = RuleView;

    open spec fn view(&self) -> RuleView {
        RuleView {
            selectors: selectors_view(self.selectors@),
            declarations: declarations_view(self.declarations@),
        }
    }
}

/// The mathematical values of a list of rules, in order.
pub open spec fn rules_view(rules: Seq<Rule>) -> Seq<RuleView> {
    Seq::new(rules.len(), |i: int| rules[i]@)
}

impl View for Stylesheet {
    type V = StylesheetView;

    open spec fn view(&self) -> StylesheetView {
        StylesheetView { rules: rules_view(self.rules@) }
    }
}

/// The tag name that stands for "any element".
pub open spec fn wildcard() -> Seq<char> {
    seq!['*']
}

/// The specificity of a selector. A selector whose tag name is the wildcard
/// is the universal selector and weighs nothing, whatever else it carries;
/// any other selector weighs 1 for its id, 1 for each class and 1 for its tag
/// name.
pub open spec fn specificity_of(selector: SelectorView) -> (nat, nat, nat) {
    match selector {
        SelectorView::Simple(simple) => {
            if simple.tag_name == Some(wildcard()) {
                (0, 0, 0)
            } else {
                (
                    if simple.id is Some {
                        1
                    } else {
                        0
                    },
                    simple.class.len(),
                    if simple.tag_name is Some {
                        1
                    } else {
                        0
                    },
                )
            }
        },
    }
}

/// Whether the specificity `a` is higher than `b`: the first of the three
/// weights in which they differ is greater in `a`.
pub open spec fn outranks(a: (nat, nat, nat), b: (nat, nat, nat)) -> bool {
    a.0 > b.0 || (a.0 == b.0 && (a.1 > b.1 || (a.1 == b.1 && a.2 > b.2)))
}

/// The specificity as a triple of natural numbers.
pub open spec fn weights(s: Specificity) -> (nat, nat, nat) {
    (s.0 as nat, s.1 as nat, s.2 as nat)
}

/// Tells whether the specificity `a` is higher than `b`.
pub fn higher(a: Specificity, b: Specificity) -> (r: bool)
    ensures
        r == outranks(weights(a), weights(b)),
{
    a.0 > b.0 || (a.0 == b.0 && (a.1 > b.1 || (a.1 == b.1 && a.2 > b.2)))
}

impl Selector {
    /// The specificity of the selector.
    pub fn specificity(&self) -> (s: Specificity)
        ensures
            weights(s) == specificity_of(self@),
    {
        match self {
            Selector::Simple(simple) => {
                let universal = match &simple.tag_name {
                    Some(name) => {
                        proof {
                            if name@.len() == 1 && name@[0] == '*' {
                                assert(name@ =~= wildcard());
                            }
                        }
                        name.as_str().unicode_len() == 1 && name.as_str().get_char(0) == '*'
                    },
                    None => false,
                };
                if universal {
                    return (0, 0, 0);
                }
                let a: usize = if simple.id.is_some() {
                    1
                } else {
                    0
                };
                let b: usize = simple.class.len();
                let c: usize = if simple.tag_name.is_some() {
                    1
                } else {
                    0
                };
                (a, b, c)
            },
        }
    }
}

/// The index of the first selector of `list`, at or after `from`, that
/// `selector` outranks, or the length of `list`.
pub open spec fn first_outranked(list: Seq<SelectorView>, selector: SelectorView, from: int) -> int
    decreases list.len() - from,
{
    if 0 <= from < list.len() && !outranks(specificity_of(selector), specificity_of(list[from])) {
        first_outranked(list, selector, from + 1)
    } else {
        from
    }
}

/// `list` with `selector` put before the first selector that it outranks.
pub open spec fn insert_by_specificity(
    list: Seq<SelectorView>,
    selector: SelectorView,
) -> Seq<SelectorView> {
    list.insert(first_outranked(list, selector, 0), selector)
}

/// The selectors of `list` from the highest specificity to the lowest, those
/// of equal specificity in the order in which they stand in `list`.
pub open spec fn sort_by_specificity(list: Seq<SelectorView>) -> Seq<SelectorView>
    decreases list.len(),
{
    if list.len() == 0 {
        list
    } else {
        insert_by_specificity(sort_by_specificity(list.drop_last()), list.last())
    }
}

/// Whether no selector of `list` is outranked by one that stands after it.
pub open spec fn is_descending(list: Seq<SelectorView>) -> bool {
    forall|i: int, j: int|
        0 <= i < j < list.len() ==> !outranks(
            specificity_of(#[trigger] list[j]),
            specificity_of(#[trigger] list[i]),
        )
}

/// The selectors of `list` whose specificity is `weight`, in order.
pub open spec fn of_weight(list: Seq<SelectorView>, weight: (nat, nat, nat)) -> Seq<SelectorView> {
    list.filter(|selector: SelectorView| specificity_of(selector) == weight)
}

/// The search for the insertion point stays within the list, passes only
/// selectors that `selector` does not outrank, and rests on one that it does.
pub proof fn lemma_first_outranked(list: Seq<SelectorView>, selector: SelectorView, from: int)
    requires
        0 <= from <= list.len(),
    ensures
        from <= first_outranked(list, selector, from) <= list.len(),
        forall|i: int|
            from <= i < first_outranked(list, selector, from) ==> !outranks(
                specificity_of(selector),
                specificity_of(#[trigger] list[i]),
            ),
        first_outranked(list, selector, from) < list.len() ==> outranks(
            specificity_of(selector),
            specificity_of(list[first_outranked(list, selector, from)]),
        ),
    decreases list.len() - from,
{
    if from < list.len() && !outranks(specificity_of(selector), specificity_of(list[from])) {
        lemma_first_outranked(list, selector, from + 1);
    }
}

/// Sorts `selectors` from the highest specificity to the lowest. Selectors
/// of equal specificity keep their order.
pub fn sort_selectors(selectors: Vec<Selector>) -> (sorted: Vec<Selector>)
    ensures
        selectors_view(sorted@) == sort_by_specificity(selectors_view(selectors@)),
{
    let ghost all = selectors_view(selectors@);
    let mut sorted: Vec<Selector> = Vec::new();
    for selector in it: selectors
        invariant
            all == selectors_view(it.seq()),
            selectors_view(sorted@) == sort_by_specificity(all.take(it.index() as int)),
    {
        let ghost before = selectors_view(sorted@);
        let weight = selector.specificity();
        let mut i: usize = 0;
        while i < sorted.len() && !higher(weight, sorted[i].specificity())
            invariant
                i <= sorted.len(),
                before == selectors_view(sorted@),
                weights(weight) == specificity_of(selector@),
                first_outranked(before, selector@, 0) == first_outranked(
                    before,
                    selector@,
                    i as int,
                ),
            decreases sorted.len() - i,
        {
            assert(before[i as int] == sorted@[i as int]@);
            i += 1;
        }
        proof {
            if i < sorted.len() {
                assert(before[i as int] == sorted@[i as int]@);
            }
            assert(first_outranked(before, selector@, 0) == i);
        }
        sorted.insert(i, selector);
        proof {
            let k = it.index() as int;
            assert(all.take(k + 1).drop_last() =~= all.take(k));
            assert(all.take(k + 1).last() == selector@);
            assert(selectors_view(sorted@) =~= before.insert(i as int, selector@));
        }
    }
    proof {
        assert(all.take(all.len() as int) =~= all);
    }
    sorted
}

/// Sorting yields a descending list: no selector of the result is outranked
/// by one that stands after it.
pub proof fn sort_is_descending(list: Seq<SelectorView>)
    ensures
        is_descending(sort_by_specificity(list)),
        sort_by_specificity(list).len() == list.len(),
    decreases list.len(),
{
    if list.len() > 0 {
        let front = sort_by_specificity(list.drop_last());
        let selector = list.last();
        sort_is_descending(list.drop_last());
        lemma_first_outranked(front, selector, 0);
        let p = first_outranked(front, selector, 0);
        let out = front.insert(p, selector);
        assert forall|i: int, j: int| 0 <= i < j < out.len() implies !outranks(
            specificity_of(#[trigger] out[j]),
            specificity_of(#[trigger] out[i]),
        ) by {
            if j == p {
                assert(out[i] == front[i]);
            } else if i == p {
                assert(out[j] == front[j - 1]);
                if p < j - 1 {
                    assert(!outranks(specificity_of(front[j - 1]), specificity_of(front[p])));
                }
            } else {
                let a = if i < p {
                    i
                } else {
                    i - 1
                };
                let b = if j < p {
                    j
                } else {
                    j - 1
                };
                assert(out[i] == front[a] && out[j] == front[b]);
                assert(!outranks(specificity_of(front[b]), specificity_of(front[a])));
            }
        }
    }
}

/// Sorting yields a permutation: each selector occurs in the result as often
/// as in the list.
pub proof fn sort_is_permutation(list: Seq<SelectorView>)
    ensures
        sort_by_specificity(list).to_multiset() == list.to_multiset(),
    decreases list.len(),
{
    if list.len() > 0 {
        let front = sort_by_specificity(list.drop_last());
        let selector = list.last();
        sort_is_permutation(list.drop_last());
        lemma_first_outranked(front, selector, 0);
        vstd::seq_lib::to_multiset_insert(front, first_outranked(front, selector, 0), selector);
        vstd::seq_lib::to_multiset_build(list.drop_last(), selector);
        assert(list.drop_last().push(selector) =~= list);
    }
}

/// Sorting is stable: the selectors of any one specificity stand in the
/// result in the order in which they stand in the list.
pub proof fn sort_is_stable(list: Seq<SelectorView>, weight: (nat, nat, nat))
    ensures
        of_weight(sort_by_specificity(list), weight) == of_weight(list, weight),
    decreases list.len(),
{
    let pred = |selector: SelectorView| specificity_of(selector) == weight;
    if list.len() == 0 {
    } else {
        let front = sort_by_specificity(list.drop_last());
        let selector = list.last();
        sort_is_stable(list.drop_last(), weight);
        sort_is_descending(list.drop_last());
        lemma_first_outranked(front, selector, 0);
        let p = first_outranked(front, selector, 0);
        let head = front.subrange(0, p);
        let tail = front.subrange(p, front.len() as int);
        assert(front =~= head + tail);
        assert(front.insert(p, selector) =~= head.push(selector) + tail);
        Seq::filter_distributes_over_add(head, tail, pred);
        Seq::filter_distributes_over_add(head.push(selector), tail, pred);
        head.lemma_filter_push(selector, pred);
        list.drop_last().lemma_filter_push(selector, pred);
        assert(list.drop_last().push(selector) =~= list);
        if pred(selector) {
            assert forall|i: int| 0 <= i < tail.len() implies !pred(#[trigger] tail[i]) by {
                assert(tail[i] == front[p + i]);
                if i > 0 {
                    assert(!outranks(specificity_of(front[p + i]), specificity_of(front[p])));
                }
            }
            assert(tail.all(|x: SelectorView| !pred(x)));
            tail.lemma_all_neg_filter_empty(pred);
            assert(tail.filter(pred) =~= Seq::<SelectorView>::empty());
            assert(head.filter(pred) + tail.filter(pred) =~= head.filter(pred));
            assert(head.filter(pred).push(selector) + tail.filter(pred) =~= head.filter(
                pred,
            ).push(selector));
        }
    }
}

/// The characters of which identifiers consist.
pub open spec fn is_identifier_char(c: char) -> bool {
    ('a' <= c <= 'z') || ('A' <= c <= 'Z') || ('0' <= c <= '9') || c == '-' || c == '_'
}

/// [`is_identifier_char`] as a value, for use with [`scan_while`].
pub open spec fn identifier_pred() -> spec_fn(char) -> bool {
    |c: char| is_identifier_char(c)
}

/// The identifier that stands at `pos`: the longest run of identifier
/// characters there, with the offset behind it. The run may be empty.
pub open spec fn spec_parse_identifier(s: Seq<char>, pos: int) -> (Seq<char>, int) {
    let end = scan_while(s, pos, identifier_pred());
    (s.subrange(pos, end), end)
}

/// The selector that names nothing.
pub open spec fn empty_selector() -> SimpleSelectorView {
    SimpleSelectorView { tag_name: None, id: None, class: Seq::empty() }
}

/// The simple selector that the parts at `pos` make of `selector`. A `#`
/// with the identifier behind it sets the id, a `.` with the identifier
/// behind it adds a class, a `*` adds nothing, an identifier sets the tag
/// name; the first character that begins none of these ends the selector.
/// Of two ids or two tag names the later one stays. An offset outside the
/// source is treated like its end.
pub open spec fn spec_parse_simple_selector_from(
    s: Seq<char>,
    pos: int,
    selector: SimpleSelectorView,
) -> (SimpleSelectorView, int)
    decreases s.len() - pos,
{
    if pos < 0 || pos >= s.len() {
        (selector, pos)
    } else if s[pos] == '#' {
        let (id, end) = spec_parse_identifier(s, pos + 1);
        proof {
            lemma_scan_while_advances(s, pos + 1, identifier_pred());
        }
        spec_parse_simple_selector_from(s, end, SimpleSelectorView { id: Some(id), ..selector })
    } else if s[pos] == '.' {
        let (name, end) = spec_parse_identifier(s, pos + 1);
        proof {
            lemma_scan_while_advances(s, pos + 1, identifier_pred());
        }
        spec_parse_simple_selector_from(
            s,
            end,
            SimpleSelectorView { class: selector.class.push(name), ..selector },
        )
    } else if s[pos] == '*' {
        spec_parse_simple_selector_from(s, pos + 1, selector)
    } else if is_identifier_char(s[pos]) {
        let (name, end) = spec_parse_identifier(s, pos);
        proof {
            lemma_scan_while_advances(s, pos + 1, identifier_pred());
        }
        spec_parse_simple_selector_from(
            s,
            end,
            SimpleSelectorView { tag_name: Some(name), ..selector },
        )
    } else {
        (selector, pos)
    }
}

/// The simple selector that stands at `pos`, with the offset behind it.
pub open spec fn spec_parse_simple_selector(s: Seq<char>, pos: int) -> (SimpleSelectorView, int) {
    spec_parse_simple_selector_from(s, pos, empty_selector())
}

/// A simple selector ends at or behind the offset at which it begins, within
/// the source.
pub proof fn lemma_simple_selector_advances(s: Seq<char>, pos: int, selector: SimpleSelectorView)
    requires
        0 <= pos <= s.len(),
    ensures
        pos <= spec_parse_simple_selector_from(s, pos, selector).1 <= s.len(),
    decreases s.len() - pos,
{
    if pos < s.len() {
        lemma_scan_while_advances(s, pos + 1, identifier_pred());
        if s[pos] == '#' {
            let (id, end) = spec_parse_identifier(s, pos + 1);
            lemma_simple_selector_advances(
                s,
                end,
                SimpleSelectorView { id: Some(id), ..selector },
            );
        } else if s[pos] == '.' {
            let (name, end) = spec_parse_identifier(s, pos + 1);
            lemma_simple_selector_advances(
                s,
                end,
                SimpleSelectorView { class: selector.class.push(name), ..selector },
            );
        } else if s[pos] == '*' {
            lemma_simple_selector_advances(s, pos + 1, selector);
        } else if is_identifier_char(s[pos]) {
            let (name, end) = spec_parse_identifier(s, pos);
            lemma_simple_selector_advances(
                s,
                end,
                SimpleSelectorView { tag_name: Some(name), ..selector },
            );
        }
    }
}

/// The selectors that stand at `pos`, in the order in which they are
/// written: simple selectors with a `,` between them, up to a `{`, which is
/// left in place. Whitespace may stand around each `,` and before the `{`.
/// An offset outside the source is treated like its end.
pub open spec fn spec_collect_selectors(s: Seq<char>, pos: int) -> Result<
    (Seq<SelectorView>, int),
    ParseErrorView,
>
    decreases s.len() - pos,
{
    if pos < 0 || pos > s.len() {
        Err(end_of_input(s))
    } else {
        let (simple, simple_end) = spec_parse_simple_selector(s, pos);
        let next = scan_while(s, simple_end, whitespace_pred());
        if next >= s.len() {
            Err(end_of_input(s))
        } else if s[next] == ',' {
            let more = scan_while(s, next + 1, whitespace_pred());
            proof {
                lemma_simple_selector_advances(s, pos, empty_selector());
                lemma_scan_while_advances(s, simple_end, whitespace_pred());
                lemma_scan_while_advances(s, next + 1, whitespace_pred());
            }
            match spec_collect_selectors(s, more) {
                Err(e) => Err(e),
                Ok((rest, end)) => Ok((seq![SelectorView::Simple(simple)] + rest, end)),
            }
        } else if s[next] == '{' {
            Ok((seq![SelectorView::Simple(simple)], next))
        } else {
            Err(unexpected(s, next, seq![',', '{']))
        }
    }
}

/// The selector list that stands at `pos`, from the highest specificity to
/// the lowest, selectors of equal specificity in the order in which they are
/// written.
pub open spec fn spec_parse_selectors(s: Seq<char>, pos: int) -> Result<
    (Seq<SelectorView>, int),
    ParseErrorView,
> {
    match spec_collect_selectors(s, pos) {
        Err(e) => Err(e),
        Ok((selectors, end)) => Ok((sort_by_specificity(selectors), end)),
    }
}

/// A parsed selector list holds the selectors that are written, each as often
/// as it is written, from the highest specificity to the lowest, those of
/// equal specificity in the order in which they are written.
pub proof fn parsed_selectors_are_sorted(s: Seq<char>, pos: int, weight: (nat, nat, nat))
    ensures
        spec_parse_selectors(s, pos) matches Ok((selectors, end)) ==> {
            &&& spec_collect_selectors(s, pos) matches Ok((written, stop))
            &&& end == stop
            &&& is_descending(selectors)
            &&& selectors.to_multiset() == written.to_multiset()
            &&& of_weight(selectors, weight) == of_weight(written, weight)
        },
{
    if let Ok((written, stop)) = spec_collect_selectors(s, pos) {
        sort_is_descending(written);
        sort_is_permutation(written);
        sort_is_stable(written, weight);
    }
}

/// Putting `front` before the selectors of a parse result.
pub open spec fn prepend_selectors(
    front: Seq<SelectorView>,
    rest: Result<(Seq<SelectorView>, int), ParseErrorView>,
) -> Result<(Seq<SelectorView>, int), ParseErrorView> {
    match rest {
        Ok((selectors, end)) => Ok((front + selectors, end)),
        Err(e) => Err(e),
    }
}

/// The decimal digits.
pub open spec fn is_digit(c: char) -> bool {
    '0' <= c <= '9'
}

/// [`is_digit`] as a value, for use with [`scan_while`].
pub open spec fn digit_pred() -> spec_fn(char) -> bool {
    |c: char| is_digit(c)
}

/// The hexadecimal digits, in either case.
pub open spec fn is_hex_digit(c: char) -> bool {
    ('0' <= c <= '9') || ('a' <= c <= 'f') || ('A' <= c <= 'F')
}

/// The hexadecimal digits as a list, as a failure reports them.
pub open spec fn hex_digits() -> Seq<char> {
    seq![
        '0', '1', '2', '3', '4', '5', '6', '7', '8', '9',
        'a', 'b', 'c', 'd', 'e', 'f',
        'A', 'B', 'C', 'D', 'E', 'F',
    ]
}

/// The number that a hexadecimal digit stands for.
pub open spec fn hex_value(c: char) -> int {
    if '0' <= c <= '9' {
        c as int - '0' as int
    } else if 'a' <= c <= 'f' {
        c as int - 'a' as int + 10
    } else {
        c as int - 'A' as int + 10
    }
}

/// Where the grammar requires a hexadecimal digit at offset `pos`: the
/// offset after it, or the failure that its absence gives.
pub open spec fn expect_hex_digit(s: Seq<char>, pos: int) -> Result<int, ParseErrorView> {
    if pos >= s.len() {
        Err(end_of_input(s))
    } else if is_hex_digit(s[pos]) {
        Ok(pos + 1)
    } else {
        Err(unexpected(s, pos, hex_digits()))
    }
}

/// The channel that stands at `pos`: two hexadecimal digits, the first worth
/// sixteen times the second.
pub open spec fn spec_parse_hex_pair(s: Seq<char>, pos: int) -> Result<(u8, int), ParseErrorView> {
    match expect_hex_digit(s, pos) {
        Err(e) => Err(e),
        Ok(second) => match expect_hex_digit(s, second) {
            Err(e) => Err(e),
            Ok(end) => Ok(((16 * hex_value(s[pos]) + hex_value(s[second])) as u8, end)),
        },
    }
}

/// The colour that stands at `pos`: `#` and the red, green and blue
/// channels. The colour is opaque.
pub open spec fn spec_parse_color(
    s: Seq<char>,
    pos: int,
) -> Result<(ValueView, int), ParseErrorView> {
    match expect_char(s, pos, '#') {
        Err(e) => Err(e),
        Ok(red) => match spec_parse_hex_pair(s, red) {
            Err(e) => Err(e),
            Ok((r, green)) => match spec_parse_hex_pair(s, green) {
                Err(e) => Err(e),
                Ok((g, blue)) => match spec_parse_hex_pair(s, blue) {
                    Err(e) => Err(e),
                    Ok((b, end)) => Ok((ValueView::ColorValue(Color { r, g, b, a: 255 }), end)),
                },
            },
        },
    }
}

/// The decimal numeral that stands at `pos`: digits, and, where a `.`
/// follows them, that `.` and the digits behind it.
pub open spec fn spec_parse_numeral(s: Seq<char>, pos: int) -> (Seq<char>, int) {
    let whole_end = scan_while(s, pos, digit_pred());
    let end = if 0 <= whole_end < s.len() && s[whole_end] == '.' {
        scan_while(s, whole_end + 1, digit_pred())
    } else {
        whole_end
    };
    (s.subrange(pos, end), end)
}

/// The unit that stands at `pos`: `px`, in either case.
pub open spec fn spec_parse_unit(s: Seq<char>, pos: int) -> Result<(Unit, int), ParseErrorView> {
    match expect_one_of(s, pos, seq!['p', 'P']) {
        Err(e) => Err(e),
        Ok(second) => match expect_one_of(s, second, seq!['x', 'X']) {
            Err(e) => Err(e),
            Ok(end) => Ok((Unit::Px, end)),
        },
    }
}

/// The length that stands at `pos`: a decimal numeral and a unit.
pub open spec fn spec_parse_length(
    s: Seq<char>,
    pos: int,
) -> Result<(ValueView, int), ParseErrorView> {
    let (magnitude, unit_start) = spec_parse_numeral(s, pos);
    match spec_parse_unit(s, unit_start) {
        Err(e) => Err(e),
        Ok((unit, end)) => Ok((ValueView::Length(magnitude, unit), end)),
    }
}

/// The value that stands at `pos`: a length where a digit stands there, a
/// colour where a `#` stands there, a keyword otherwise.
pub open spec fn spec_parse_value(
    s: Seq<char>,
    pos: int,
) -> Result<(ValueView, int), ParseErrorView> {
    if pos >= s.len() {
        Err(end_of_input(s))
    } else if is_digit(s[pos]) {
        spec_parse_length(s, pos)
    } else if s[pos] == '#' {
        spec_parse_color(s, pos)
    } else {
        let (word, end) = spec_parse_identifier(s, pos);
        Ok((ValueView::Keyword(word), end))
    }
}

/// The offset behind what ends the declaration whose value ends at `pos`: a
/// `;`, which belongs to the declaration, or the `}` of the block, which is
/// left in place.
pub open spec fn spec_end_declaration(s: Seq<char>, pos: int) -> Result<int, ParseErrorView> {
    if pos >= s.len() {
        Err(end_of_input(s))
    } else if s[pos] == ';' {
        Ok(pos + 1)
    } else if s[pos] == '}' {
        Ok(pos)
    } else {
        Err(unexpected(s, pos, seq![';', '}']))
    }
}

/// The declaration that stands at `pos`: a property name, `:`, a value, and
/// the `;` that separates it from the next declaration. Whitespace may stand
/// around the `:` and behind the value.
pub open spec fn spec_parse_declaration(s: Seq<char>, pos: int) -> Result<
    (DeclarationView, int),
    ParseErrorView,
> {
    let (name, name_end) = spec_parse_identifier(s, pos);
    match expect_char(s, scan_while(s, name_end, whitespace_pred()), ':') {
        Err(e) => Err(e),
        Ok(colon_end) => match spec_parse_value(s, scan_while(s, colon_end, whitespace_pred())) {
            Err(e) => Err(e),
            Ok((value, value_end)) => match spec_end_declaration(
                s,
                scan_while(s, value_end, whitespace_pred()),
            ) {
                Err(e) => Err(e),
                Ok(end) => Ok((DeclarationView { name, value }, end)),
            },
        },
    }
}

/// A value ends at or behind the offset at which it begins, within the
/// source.
pub proof fn lemma_value_advances(s: Seq<char>, pos: int)
    requires
        0 <= pos,
    ensures
        spec_parse_value(s, pos) matches Ok((_, end)) ==> pos <= end <= s.len(),
{
    lemma_scan_while_advances(s, pos, identifier_pred());
    lemma_scan_while_advances(s, pos, digit_pred());
    let whole_end = scan_while(s, pos, digit_pred());
    lemma_scan_while_advances(s, whole_end + 1, digit_pred());
}

/// A declaration takes up at least one character and ends within the
/// source.
pub proof fn lemma_declaration_advances(s: Seq<char>, pos: int)
    requires
        0 <= pos,
    ensures
        spec_parse_declaration(s, pos) matches Ok((_, end)) ==> pos < end <= s.len(),
{
    lemma_scan_while_advances(s, pos, identifier_pred());
    let name_end = scan_while(s, pos, identifier_pred());
    lemma_scan_while_advances(s, name_end, whitespace_pred());
    let colon = scan_while(s, name_end, whitespace_pred());
    if let Ok(colon_end) = expect_char(s, colon, ':') {
        lemma_scan_while_advances(s, colon_end, whitespace_pred());
        let value_start = scan_while(s, colon_end, whitespace_pred());
        lemma_value_advances(s, value_start);
        if let Ok((value, value_end)) = spec_parse_value(s, value_start) {
            lemma_scan_while_advances(s, value_end, whitespace_pred());
        }
    }
}

/// The declarations that stand at `pos`, each after the whitespace before
/// it, up to the `}` that ends the block, with the offset behind that `}`.
/// An offset outside the source is treated like its end.
pub open spec fn spec_parse_declaration_list(s: Seq<char>, pos: int) -> Result<
    (Seq<DeclarationView>, int),
    ParseErrorView,
>
    decreases s.len() - pos,
{
    let start = scan_while(s, pos, whitespace_pred());
    if pos < 0 || start >= s.len() {
        Err(end_of_input(s))
    } else if s[start] == '}' {
        Ok((Seq::empty(), start + 1))
    } else {
        match spec_parse_declaration(s, start) {
            Err(e) => Err(e),
            Ok((declaration, next)) => {
                proof {
                    lemma_scan_while_advances(s, pos, whitespace_pred());
                    lemma_declaration_advances(s, start);
                }
                match spec_parse_declaration_list(s, next) {
                    Err(e) => Err(e),
                    Ok((rest, end)) => Ok((seq![declaration] + rest, end)),
                }
            },
        }
    }
}

/// The declaration block that stands at `pos`: `{`, declarations, `}`.
pub open spec fn spec_parse_declarations(s: Seq<char>, pos: int) -> Result<
    (Seq<DeclarationView>, int),
    ParseErrorView,
> {
    match expect_char(s, pos, '{') {
        Err(e) => Err(e),
        Ok(start) => spec_parse_declaration_list(s, start),
    }
}

/// The rule that stands at `pos`: a selector list and a declaration block.
pub open spec fn spec_parse_rule(
    s: Seq<char>,
    pos: int,
) -> Result<(RuleView, int), ParseErrorView> {
    match spec_parse_selectors(s, pos) {
        Err(e) => Err(e),
        Ok((selectors, block)) => match spec_parse_declarations(s, block) {
            Err(e) => Err(e),
            Ok((declarations, end)) => Ok((RuleView { selectors, declarations }, end)),
        },
    }
}

/// A selector list ends at or behind the offset at which it begins, on a `{`.
pub proof fn lemma_selectors_advance(s: Seq<char>, pos: int)
    ensures
        spec_collect_selectors(s, pos) matches Ok((_, end)) ==> 0 <= pos <= end < s.len() && s[end]
            == '{',
    decreases s.len() - pos,
{
    if 0 <= pos <= s.len() {
        lemma_simple_selector_advances(s, pos, empty_selector());
        let (simple, simple_end) = spec_parse_simple_selector(s, pos);
        lemma_scan_while_advances(s, simple_end, whitespace_pred());
        let next = scan_while(s, simple_end, whitespace_pred());
        if next < s.len() && s[next] == ',' {
            lemma_scan_while_advances(s, next + 1, whitespace_pred());
            lemma_selectors_advance(s, scan_while(s, next + 1, whitespace_pred()));
        }
    }
}

/// A declaration list ends within the source.
pub proof fn lemma_declaration_list_advances(s: Seq<char>, pos: int)
    ensures
        spec_parse_declaration_list(s, pos) matches Ok((_, end)) ==> 0 <= pos < end <= s.len(),
    decreases s.len() - pos,
{
    lemma_scan_while_advances(s, pos, whitespace_pred());
    let start = scan_while(s, pos, whitespace_pred());
    if 0 <= pos && start < s.len() && s[start] != '}' {
        lemma_declaration_advances(s, start);
        if let Ok((declaration, next)) = spec_parse_declaration(s, start) {
            lemma_declaration_list_advances(s, next);
        }
    }
}

/// A rule takes up at least one character and ends within the source.
pub proof fn lemma_rule_advances(s: Seq<char>, pos: int)
    ensures
        spec_parse_rule(s, pos) matches Ok((_, end)) ==> 0 <= pos < end <= s.len(),
{
    lemma_selectors_advance(s, pos);
    if let Ok((selectors, block)) = spec_collect_selectors(s, pos) {
        lemma_declaration_list_advances(s, block + 1);
    }
}

/// The rules that stand at `pos`, each after the whitespace before it, up to
/// the end of the source.
pub open spec fn spec_parse_rules(s: Seq<char>, pos: int) -> Result<Seq<RuleView>, ParseErrorView>
    decreases s.len() - pos,
{
    let start = scan_while(s, pos, whitespace_pred());
    if start >= s.len() {
        Ok(Seq::empty())
    } else {
        match spec_parse_rule(s, start) {
            Err(e) => Err(e),
            Ok((rule, next)) => {
                proof {
                    lemma_scan_while_advances(s, pos, whitespace_pred());
                    lemma_rule_advances(s, start);
                }
                match spec_parse_rules(s, next) {
                    Err(e) => Err(e),
                    Ok(rest) => Ok(seq![rule] + rest),
                }
            },
        }
    }
}

/// The stylesheet that `s` holds: its rules, in the order in which they are
/// written.
pub open spec fn spec_parse(s: Seq<char>) -> Result<StylesheetView, ParseErrorView> {
    match spec_parse_rules(s, 0) {
        Err(e) => Err(e),
        Ok(rules) => Ok(StylesheetView { rules }),
    }
}

/// Putting `front` before the declarations of a parse result.
pub open spec fn prepend_declarations(
    front: Seq<DeclarationView>,
    rest: Result<(Seq<DeclarationView>, int), ParseErrorView>,
) -> Result<(Seq<DeclarationView>, int), ParseErrorView> {
    match rest {
        Ok((declarations, end)) => Ok((front + declarations, end)),
        Err(e) => Err(e),
    }
}

/// Putting `front` before the rules of a parse result.
pub open spec fn prepend_rules(
    front: Seq<RuleView>,
    rest: Result<Seq<RuleView>, ParseErrorView>,
) -> Result<
    Seq<RuleView>,
    ParseErrorView,
> {
    match rest {
        Ok(rules) => Ok(front + rules),
        Err(e) => Err(e),
    }
}

/// Tells whether `c` may stand in an identifier.
pub fn valid_identifier_char(c: char) -> (b: bool)
    ensures
        b == is_identifier_char(c),
{
    (c >= 'a' && c <= 'z') || (c >= 'A' && c <= 'Z') || (c >= '0' && c <= '9') || c == '-' || c
        == '_'
}

/// A parser for style text.
pub struct Parser {
    cursor: Cursor,
}

impl Parser {
    /// The characters of the source text.
    pub closed spec fn source(&self) -> Seq<char> {
        self.cursor.source()
    }

    /// The number of characters already consumed.
    pub closed spec fn offset(&self) -> int {
        self.cursor.offset()
    }

    /// A parser at the start of `source`.
    pub fn new(source: &str) -> (parser: Parser)
        ensures
            parser.source() == source@,
            parser.offset() == 0,
    {
        Parser { cursor: Cursor::new(source) }
    }

    /// Consumes an identifier: the longest run of ASCII letters, digits, `-`
    /// and `_` at the current offset.
    pub fn parse_identifier(&mut self) -> (name: String)
        ensures
            final(self).source() == old(self).source(),
            0 <= old(self).offset() <= final(self).offset() <= old(self).source().len(),
            (name@, final(self).offset()) == spec_parse_identifier(
                old(self).source(),
                old(self).offset(),
            ),
    {
        let test = |c: char| -> (b: bool)
            ensures
                b == is_identifier_char(c),
            { valid_identifier_char(c) };
        let name = self.cursor.consume_while(test);
        proof {
            lemma_scan_while_unique(
                old(self).source(),
                old(self).offset(),
                self.offset(),
                identifier_pred(),
            );
        }
        name
    }

    /// Consumes one simple selector: a run of tag names, `#` ids, `.` classes
    /// and `*`, in any order, up to the first character that begins none of
    /// them.
    pub fn parse_simple_selector(&mut self) -> (selector: SimpleSelector)
        ensures
            final(self).source() == old(self).source(),
            0 <= old(self).offset() <= final(self).offset() <= old(self).source().len(),
            (selector@, final(self).offset()) == spec_parse_simple_selector(
                old(self).source(),
                old(self).offset(),
            ),
    {
        let mut selector = SimpleSelector { tag_name: None, id: None, class: Vec::new() };
        let ghost s = self.source();
        let ghost start = self.offset();
        proof {
            self.cursor.lemma_offset_in_source();
        }
        assert(selector@.class =~= Seq::<Seq<char>>::empty());
        while !self.cursor.eof()
            invariant
                self.source() == s,
                0 <= start <= self.offset() <= s.len(),
                spec_parse_simple_selector(s, start) == spec_parse_simple_selector_from(
                    s,
                    self.offset(),
                    selector@,
                ),
            ensures
                self.source() == s,
                0 <= start <= self.offset() <= s.len(),
                (selector@, self.offset()) == spec_parse_simple_selector(s, start),
            decreases s.len() - self.offset(),
        {
            let ghost before = selector@;
            let c = self.cursor.next_char();
            if c == '#' {
                self.cursor.consume_char();
                selector.id = Some(self.parse_identifier());
            } else if c == '.' {
                self.cursor.consume_char();
                let name = self.parse_identifier();
                selector.class.push(name);
                assert(selector@.class =~= before.class.push(name@));
            } else if c == '*' {
                self.cursor.consume_char();
            } else if valid_identifier_char(c) {
                proof {
                    lemma_scan_while_advances(s, self.offset() + 1, identifier_pred());
                }
                selector.tag_name = Some(self.parse_identifier());
            } else {
                break ;
            }
        }
        selector
    }

    /// Consumes a list of selectors, separated by `,`, up to the `{` that
    /// follows it, and returns them from the highest specificity to the
    /// lowest.
    pub fn parse_selectors(&mut self) -> (r: Result<Vec<Selector>, ParseError>)
        ensures
            final(self).source() == old(self).source(),
            0 <= old(self).offset() <= final(self).offset() <= old(self).source().len(),
            match r {
                Ok(selectors) => yields(
                    spec_parse_selectors(old(self).source(), old(self).offset()),
                    (selectors_view(selectors@), final(self).offset()),
                ),
                Err(e) => fails_with(
                    spec_parse_selectors(old(self).source(), old(self).offset()),
                    e@,
                ),
            },
    {
        let mut selectors: Vec<Selector> = Vec::new();
        let ghost s = self.source();
        let ghost start = self.offset();
        proof {
            self.cursor.lemma_offset_in_source();
        }
        loop
            invariant_except_break
                spec_collect_selectors(s, start) == prepend_selectors(
                    selectors_view(selectors@),
                    spec_collect_selectors(s, self.offset()),
                ),
            invariant
                self.source() == s,
                s == old(self).source(),
                start == old(self).offset(),
                0 <= start <= self.offset() <= s.len(),
            ensures
                yields(
                    spec_collect_selectors(s, start),
                    (selectors_view(selectors@), self.offset()),
                ),
            decreases s.len() - self.offset(),
        {
            let ghost front = selectors_view(selectors@);
            let simple = self.parse_simple_selector();
            selectors.push(Selector::Simple(simple));
            assert(selectors_view(selectors@) =~= front + seq![SelectorView::Simple(simple@)]);
            self.cursor.consume_whitespace();
            if self.cursor.eof() {
                return Err(
                    ParseError {
                        kind: ParseErrorKind::UnexpectedEndOfInput,
                        position: self.cursor.position(),
                    },
                );
            }
            let c = self.cursor.next_char();
            if c == ',' {
                self.cursor.consume_char();
                self.cursor.consume_whitespace();
                proof {
                    if let Ok((more, end)) = spec_collect_selectors(s, self.offset()) {
                        assert(front + (seq![SelectorView::Simple(simple@)] + more) =~= (front
                            + seq![SelectorView::Simple(simple@)]) + more);
                    }
                }
            } else if c == '{' {
                break ;
            } else {
                let expected: Vec<char> = vec![',', '{'];
                assert(expected@ =~= seq![',', '{']);
                return Err(
                    ParseError {
                        kind: ParseErrorKind::UnexpectedCharacter { expected, found: c },
                        position: self.cursor.position(),
                    },
                );
            }
        }
        // Order by specificity
        Ok(sort_selectors(selectors))
    }

    /// Consumes a rule: a selector list and a declaration block.
    pub fn parse_rule(&mut self) -> (r: Result<Rule, ParseError>)
        ensures
            final(self).source() == old(self).source(),
            0 <= old(self).offset() <= final(self).offset() <= old(self).source().len(),
            match r {
                Ok(rule) => yields(
                    spec_parse_rule(old(self).source(), old(self).offset()),
                    (rule@, final(self).offset()),
                ),
                Err(e) => fails_with(spec_parse_rule(old(self).source(), old(self).offset()), e@),
            },
    {
        let selectors = match self.parse_selectors() {
            Err(e) => {
                return Err(e);
            },
            Ok(selectors) => selectors,
        };
        let declarations = match self.parse_declarations() {
            Err(e) => {
                return Err(e);
            },
            Ok(declarations) => declarations,
        };
        Ok(Rule { selectors, declarations })
    }

    /// Consumes a declaration block: `{`, declarations, `}`.
    pub fn parse_declarations(&mut self) -> (r: Result<Vec<Declaration>, ParseError>)
        ensures
            final(self).source() == old(self).source(),
            0 <= old(self).offset() <= final(self).offset() <= old(self).source().len(),
            match r {
                Ok(declarations) => yields(
                    spec_parse_declarations(old(self).source(), old(self).offset()),
                    (declarations_view(declarations@), final(self).offset()),
                ),
                Err(e) => fails_with(
                    spec_parse_declarations(old(self).source(), old(self).offset()),
                    e@,
                ),
            },
    {
        match self.cursor.expect('{') {
            Err(e) => {
                return Err(e);
            },
            Ok(_) => {},
        }
        let mut declarations: Vec<Declaration> = Vec::new();
        let ghost s = self.source();
        let ghost start = self.offset();
        loop
            invariant
                self.source() == s,
                s == old(self).source(),
                0 <= old(self).offset() <= start <= self.offset() <= s.len(),
                yields(expect_char(s, old(self).offset(), '{'), start),
                spec_parse_declaration_list(s, start) == prepend_declarations(
                    declarations_view(declarations@),
                    spec_parse_declaration_list(s, self.offset()),
                ),
            decreases s.len() - self.offset(),
        {
            self.cursor.consume_whitespace();
            if self.cursor.eof() {
                return Err(
                    ParseError {
                        kind: ParseErrorKind::UnexpectedEndOfInput,
                        position: self.cursor.position(),
                    },
                );
            }
            if self.cursor.next_char() == '}' {
                self.cursor.consume_char();
                proof {
                    assert(declarations_view(declarations@) + Seq::<DeclarationView>::empty()
                        =~= declarations_view(declarations@));
                }
                return Ok(declarations);
            }
            proof {
                lemma_declaration_advances(s, self.offset());
            }
            let ghost front = declarations_view(declarations@);
            match self.parse_declaration() {
                Err(e) => {
                    return Err(e);
                },
                Ok(declaration) => {
                    declarations.push(declaration);
                    proof {
                        assert(declarations_view(declarations@) =~= front + seq![declaration@]);
                        if let Ok((more, end)) = spec_parse_declaration_list(s, self.offset()) {
                            assert(front + (seq![declaration@] + more) =~= (front
                                + seq![declaration@]) + more);
                        }
                    }
                },
            }
        }
    }

    /// Consumes a declaration: a property name, `:`, a value, and the `;`
    /// behind it, if one stands there before the `}` of the block.
    pub fn parse_declaration(&mut self) -> (r: Result<Declaration, ParseError>)
        ensures
            final(self).source() == old(self).source(),
            0 <= old(self).offset() <= final(self).offset() <= old(self).source().len(),
            match r {
                Ok(declaration) => yields(
                    spec_parse_declaration(old(self).source(), old(self).offset()),
                    (declaration@, final(self).offset()),
                ),
                Err(e) => fails_with(
                    spec_parse_declaration(old(self).source(), old(self).offset()),
                    e@,
                ),
            },
    {
        let name = self.parse_identifier();
        self.cursor.consume_whitespace();
        match self.cursor.expect(':') {
            Err(e) => {
                return Err(e);
            },
            Ok(_) => {},
        }
        self.cursor.consume_whitespace();
        let value = match self.parse_value() {
            Err(e) => {
                return Err(e);
            },
            Ok(value) => value,
        };
        self.cursor.consume_whitespace();
        if self.cursor.eof() {
            return Err(
                ParseError {
                    kind: ParseErrorKind::UnexpectedEndOfInput,
                    position: self.cursor.position(),
                },
            );
        }
        let c = self.cursor.next_char();
        if c == ';' {
            self.cursor.consume_char();
        } else if c != '}' {
            let expected: Vec<char> = vec![';', '}'];
            assert(expected@ =~= seq![';', '}']);
            return Err(
                ParseError {
                    kind: ParseErrorKind::UnexpectedCharacter { expected, found: c },
                    position: self.cursor.position(),
                },
            );
        }
        Ok(Declaration { name, value })
    }

    /// Consumes a value: a length, a colour or a keyword.
    pub fn parse_value(&mut self) -> (r: Result<Value, ParseError>)
        ensures
            final(self).source() == old(self).source(),
            0 <= old(self).offset() <= final(self).offset() <= old(self).source().len(),
            match r {
                Ok(value) => yields(
                    spec_parse_value(old(self).source(), old(self).offset()),
                    (value@, final(self).offset()),
                ),
                Err(e) => fails_with(spec_parse_value(old(self).source(), old(self).offset()), e@),
            },
    {
        if self.cursor.eof() {
            return Err(
                ParseError {
                    kind: ParseErrorKind::UnexpectedEndOfInput,
                    position: self.cursor.position(),
                },
            );
        }
        let c = self.cursor.next_char();
        if c >= '0' && c <= '9' {
            self.parse_length()
        } else if c == '#' {
            self.parse_color()
        } else {
            Ok(Value::Keyword(self.parse_identifier()))
        }
    }

    /// Consumes a length: a decimal numeral and a unit.
    pub fn parse_length(&mut self) -> (r: Result<Value, ParseError>)
        ensures
            final(self).source() == old(self).source(),
            0 <= old(self).offset() <= final(self).offset() <= old(self).source().len(),
            match r {
                Ok(value) => yields(
                    spec_parse_length(old(self).source(), old(self).offset()),
                    (value@, final(self).offset()),
                ),
                Err(e) => fails_with(spec_parse_length(old(self).source(), old(self).offset()), e@),
            },
    {
        let magnitude = self.parse_numeral();
        match self.parse_unit() {
            Err(e) => Err(e),
            Ok(unit) => Ok(Value::Length(magnitude, unit)),
        }
    }

    /// Consumes a decimal numeral: digits, and, where a `.` follows them,
    /// that `.` and the digits behind it.
    pub fn parse_numeral(&mut self) -> (numeral: String)
        ensures
            final(self).source() == old(self).source(),
            0 <= old(self).offset() <= final(self).offset() <= old(self).source().len(),
            (numeral@, final(self).offset()) == spec_parse_numeral(
                old(self).source(),
                old(self).offset(),
            ),
    {
        let ghost s = self.source();
        let ghost start = self.offset();
        let whole = |c: char| -> (b: bool)
            ensures
                b == is_digit(c),
            { c >= '0' && c <= '9' };
        let mut numeral = self.cursor.consume_while(whole);
        proof {
            lemma_scan_while_unique(s, start, self.offset(), digit_pred());
        }
        if !self.cursor.eof() && self.cursor.next_char() == '.' {
            let ghost point = self.offset();
            self.cursor.consume_char();
            numeral.push('.');
            let part = |c: char| -> (b: bool)
                ensures
                    b == is_digit(c),
                { c >= '0' && c <= '9' };
            let fraction = self.cursor.consume_while(part);
            proof {
                lemma_scan_while_unique(s, point + 1, self.offset(), digit_pred());
            }
            numeral.append(fraction.as_str());
            assert(numeral@ =~= s.subrange(start, self.offset()));
        }
        numeral
    }

    /// Consumes a unit: `px`, in either case.
    pub fn parse_unit(&mut self) -> (r: Result<Unit, ParseError>)
        ensures
            final(self).source() == old(self).source(),
            0 <= old(self).offset() <= final(self).offset() <= old(self).source().len(),
            match r {
                Ok(unit) => yields(
                    spec_parse_unit(old(self).source(), old(self).offset()),
                    (unit, final(self).offset()),
                ),
                Err(e) => fails_with(spec_parse_unit(old(self).source(), old(self).offset()), e@),
            },
    {
        let first: Vec<char> = vec!['p', 'P'];
        assert(first@ =~= seq!['p', 'P']);
        match self.cursor.expect_one_of(first) {
            Err(e) => {
                return Err(e);
            },
            Ok(_) => {},
        }
        let second: Vec<char> = vec!['x', 'X'];
        assert(second@ =~= seq!['x', 'X']);
        match self.cursor.expect_one_of(second) {
            Err(e) => Err(e),
            Ok(_) => Ok(Unit::Px),
        }
    }

    /// Consumes a colour: `#` and three pairs of hexadecimal digits, for
    /// red, green and blue. The colour is opaque.
    pub fn parse_color(&mut self) -> (r: Result<Value, ParseError>)
        ensures
            final(self).source() == old(self).source(),
            0 <= old(self).offset() <= final(self).offset() <= old(self).source().len(),
            match r {
                Ok(value) => yields(
                    spec_parse_color(old(self).source(), old(self).offset()),
                    (value@, final(self).offset()),
                ),
                Err(e) => fails_with(spec_parse_color(old(self).source(), old(self).offset()), e@),
            },
    {
        match self.cursor.expect('#') {
            Err(e) => {
                return Err(e);
            },
            Ok(_) => {},
        }
        let r = match self.parse_hex_pair() {
            Err(e) => {
                return Err(e);
            },
            Ok(r) => r,
        };
        let g = match self.parse_hex_pair() {
            Err(e) => {
                return Err(e);
            },
            Ok(g) => g,
        };
        let b = match self.parse_hex_pair() {
            Err(e) => {
                return Err(e);
            },
            Ok(b) => b,
        };
        Ok(Value::ColorValue(Color { r, g, b, a: 255 }))
    }

    /// Consumes one hexadecimal digit and returns the number it stands for.
    fn parse_hex_digit(&mut self) -> (r: Result<u8, ParseError>)
        ensures
            final(self).source() == old(self).source(),
            0 <= old(self).offset() <= final(self).offset() <= old(self).source().len(),
            match r {
                Ok(v) => yields(
                    expect_hex_digit(old(self).source(), old(self).offset()),
                    final(self).offset(),
                ) && v == hex_value(
                    old(self).source()[old(self).offset()],
                ) && v < 16,
                Err(e) => fails_with(expect_hex_digit(old(self).source(), old(self).offset()), e@),
            },
    {
        if self.cursor.eof() {
            return Err(
                ParseError {
                    kind: ParseErrorKind::UnexpectedEndOfInput,
                    position: self.cursor.position(),
                },
            );
        }
        let c = self.cursor.next_char();
        let n: u32 = c as u32;
        let value: u32 = if c >= '0' && c <= '9' {
            n - 0x30
        } else if c >= 'a' && c <= 'f' {
            n - 0x61 + 10
        } else if c >= 'A' && c <= 'F' {
            n - 0x41 + 10
        } else {
            let expected: Vec<char> = vec![
                '0', '1', '2', '3', '4', '5', '6', '7', '8', '9',
                'a', 'b', 'c', 'd', 'e', 'f',
                'A', 'B', 'C', 'D', 'E', 'F',
            ];
            assert(expected@ =~= hex_digits());
            return Err(
                ParseError {
                    kind: ParseErrorKind::UnexpectedCharacter { expected, found: c },
                    position: self.cursor.position(),
                },
            );
        };
        self.cursor.consume_char();
        Ok(value as u8)
    }

    /// Consumes two hexadecimal digits and returns the number they stand
    /// for.
    pub fn parse_hex_pair(&mut self) -> (r: Result<u8, ParseError>)
        ensures
            final(self).source() == old(self).source(),
            0 <= old(self).offset() <= final(self).offset() <= old(self).source().len(),
            match r {
                Ok(v) => yields(
                    spec_parse_hex_pair(old(self).source(), old(self).offset()),
                    (v, final(self).offset()),
                ),
                Err(e) => fails_with(
                    spec_parse_hex_pair(old(self).source(), old(self).offset()),
                    e@,
                ),
            },
    {
        let high = match self.parse_hex_digit() {
            Err(e) => {
                return Err(e);
            },
            Ok(high) => high,
        };
        let low = match self.parse_hex_digit() {
            Err(e) => {
                return Err(e);
            },
            Ok(low) => low,
        };
        Ok(16 * high + low)
    }

    /// Consumes rules, each after the whitespace before it, up to the end of
    /// the source.
    pub fn parse_rules(&mut self) -> (r: Result<Vec<Rule>, ParseError>)
        ensures
            final(self).source() == old(self).source(),
            0 <= old(self).offset() <= final(self).offset() <= old(self).source().len(),
            match r {
                Ok(rules) => yields(
                    spec_parse_rules(old(self).source(), old(self).offset()),
                    rules_view(rules@),
                ),
                Err(e) => fails_with(spec_parse_rules(old(self).source(), old(self).offset()), e@),
            },
    {
        let mut rules: Vec<Rule> = Vec::new();
        let ghost s = self.source();
        let ghost start = self.offset();
        proof {
            self.cursor.lemma_offset_in_source();
        }
        loop
            invariant
                self.source() == s,
                s == old(self).source(),
                start == old(self).offset(),
                0 <= start <= self.offset() <= s.len(),
                spec_parse_rules(s, start) == prepend_rules(
                    rules_view(rules@),
                    spec_parse_rules(s, self.offset()),
                ),
            decreases s.len() - self.offset(),
        {
            self.cursor.consume_whitespace();
            if self.cursor.eof() {
                proof {
                    assert(rules_view(rules@) + Seq::<RuleView>::empty() =~= rules_view(rules@));
                }
                return Ok(rules);
            }
            proof {
                lemma_rule_advances(s, self.offset());
            }
            let ghost front = rules_view(rules@);
            match self.parse_rule() {
                Err(e) => {
                    return Err(e);
                },
                Ok(rule) => {
                    rules.push(rule);
                    proof {
                        assert(rules_view(rules@) =~= front + seq![rule@]);
                        if let Ok(more) = spec_parse_rules(s, self.offset()) {
                            assert(front + (seq![rule@] + more) =~= (front + seq![rule@]) + more);
                        }
                    }
                },
            }
        }
    }

    /// Parses a stylesheet.
    pub fn parse(source: String) -> (r: Result<Stylesheet, ParseError>)
        ensures
            match r {
                Ok(stylesheet) => yields(spec_parse(source@), stylesheet@),
                Err(e) => fails_with(spec_parse(source@), e@),
            },
    {
        let mut parser = Parser::new(source.as_str());
        match parser.parse_rules() {
            Err(e) => Err(e),
            Ok(rules) => Ok(Stylesheet { rules }),
        }
    }
}

} // verus!
