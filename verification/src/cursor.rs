//! A cursor over a source text: an offset into a sequence of characters, with
//! lookahead and predicate-driven consumption.

use crate::chars::{is_whitespace, whitespace};
use crate::error::{
    expect_char, expect_one_of, fails_with, yields, ParseError, ParseErrorKind,
};
use vstd::prelude::*;

verus! {

/// Trusted, not proved: `String::push` of the standard library appends the
/// character `c` to the end of the string `s` and leaves the characters that
/// stood in it as they were. This is what its documentation says; Verus
/// takes it on faith, and the strings that [`Cursor::consume_while`] returns
/// rest on it. The call panics only where the string would outgrow the
/// address space; the strings built in this crate are parts of a source text
/// that is held in memory.
pub assume_specification[ String::push ](s: &mut String, c: char)
    ensures
        final(s)@ == old(s)@.push(c),
;

/// The offset at which a scan that starts at `pos` and passes over characters
/// satisfying `pred` comes to rest: the first offset at or after `pos` whose
/// character fails `pred`, or the end of `s`.
pub open spec fn scan_while(s: Seq<char>, pos: int, pred: spec_fn(char) -> bool) -> int
    decreases s.len() - pos,
{
    if 0 <= pos < s.len() && pred(s[pos]) {
        scan_while(s, pos + 1, pred)
    } else {
        pos
    }
}

/// Whether the characters of `lit` stand in `s` from offset `pos` on.
pub open spec fn has_prefix_at(s: Seq<char>, pos: int, lit: Seq<char>) -> bool {
    &&& 0 <= pos
    &&& pos + lit.len() <= s.len()
    &&& s.subrange(pos, pos + lit.len()) == lit
}

/// The whitespace predicate as a value, for use with [`scan_while`].
pub open spec fn whitespace_pred() -> spec_fn(char) -> bool {
    |c: char| is_whitespace(c)
}

/// A scan never moves backwards, and moves forwards only within the text.
pub proof fn lemma_scan_while_advances(s: Seq<char>, pos: int, pred: spec_fn(char) -> bool)
    ensures
        pos <= scan_while(s, pos, pred),
        scan_while(s, pos, pred) == pos || scan_while(s, pos, pred) <= s.len(),
    decreases s.len() - pos,
{
    if 0 <= pos < s.len() && pred(s[pos]) {
        lemma_scan_while_advances(s, pos + 1, pred);
    }
}

/// A scan covers exactly the maximal run of characters satisfying the
/// predicate: every character it passes satisfies `pred`, and it rests at the
/// end of the text or on a character that fails `pred`.
pub proof fn lemma_scan_while_maximal(s: Seq<char>, pos: int, pred: spec_fn(char) -> bool)
    requires
        0 <= pos <= s.len(),
    ensures
        pos <= scan_while(s, pos, pred) <= s.len(),
        forall|i: int| pos <= i < scan_while(s, pos, pred) ==> pred(#[trigger] s[i]),
        scan_while(s, pos, pred) < s.len() ==> !pred(s[scan_while(s, pos, pred)]),
    decreases s.len() - pos,
{
    if pos < s.len() && pred(s[pos]) {
        lemma_scan_while_maximal(s, pos + 1, pred);
    }
}

/// Only one offset ends a maximal run: where every character from `pos` to
/// `end` satisfies `pred` and the text ends at `end` or goes on with a
/// character that fails `pred`, `end` is where the scan comes to rest.
pub proof fn lemma_scan_while_unique(s: Seq<char>, pos: int, end: int, pred: spec_fn(char) -> bool)
    requires
        0 <= pos <= end <= s.len(),
        forall|i: int| pos <= i < end ==> pred(#[trigger] s[i]),
        end < s.len() ==> !pred(s[end]),
    ensures
        scan_while(s, pos, pred) == end,
    decreases end - pos,
{
    if pos < end {
        assert(pred(s[pos]));
        lemma_scan_while_unique(s, pos + 1, end, pred);
    }
}

/// A position in a source text.
pub struct Cursor {
    input: Vec<char>,
    pos: usize,
}

impl Cursor {
    #[verifier::type_invariant]
    spec fn in_bounds(&self) -> bool {
        self.pos <= self.input.len()
    }

    /// The characters of the source text.
    pub closed spec fn source(&self) -> Seq<char> {
        self.input@
    }

    /// The number of characters already consumed, which is never more than
    /// the source holds.
    pub closed spec fn offset(&self) -> int {
        if self.pos <= self.input.len() {
            self.pos as int
        } else {
            self.input.len() as int
        }
    }

    /// The offset of a cursor lies within its source.
    pub proof fn lemma_offset_in_source(&self)
        ensures
            0 <= self.offset() <= self.source().len(),
    {
    }

    /// A cursor at the start of `source`.
    pub fn new(source: &str) -> (cursor: Cursor)
        ensures
            cursor.source() == source@,
            cursor.offset() == 0,
    {
        let mut input: Vec<char> = Vec::new();
        for c in it: source.chars()
            invariant
                it.seq() == source@,
                input@ == it.seq().take(it.index() as int),
        {
            input.push(c);
        }
        Cursor { input, pos: 0 }
    }

    /// The current offset, counted in characters.
    pub fn position(&self) -> (p: usize)
        ensures
            p == self.offset(),
            p <= self.source().len(),
    {
        proof {
            use_type_invariant(self);
        }
        self.pos
    }

    /// Whether the whole source has been consumed.
    pub fn eof(&self) -> (b: bool)
        ensures
            b == (self.offset() >= self.source().len()),
            0 <= self.offset() <= self.source().len(),
    {
        proof {
            use_type_invariant(self);
        }
        self.pos >= self.input.len()
    }

    /// The character at the current offset.
    pub fn next_char(&self) -> (c: char)
        requires
            self.offset() < self.source().len(),
        ensures
            0 <= self.offset(),
            c == self.source()[self.offset()],
    {
        self.input[self.pos]
    }

    /// Whether the unconsumed text begins with `s`.
    pub fn starts_with(&self, s: &str) -> (b: bool)
        ensures
            b == has_prefix_at(self.source(), self.offset(), s@),
    {
        proof {
            use_type_invariant(self);
        }
        let mut i: usize = self.pos;
        for c in it: s.chars()
            invariant
                it.seq() == s@,
                self.pos <= self.input.len(),
                i == self.pos + it.index(),
                i <= self.input.len(),
                self.input@.subrange(self.pos as int, i as int) == s@.take(it.index() as int),
        {
            if i >= self.input.len() || self.input[i] != c {
                proof {
                    let k = it.index() as int;
                    if i < self.input.len() {
                        if has_prefix_at(self.input@, self.pos as int, s@) {
                            assert(self.input@.subrange(self.pos as int, self.pos + s@.len())[k]
                                == s@[k]);
                        }
                    }
                }
                return false;
            }
            i += 1;
        }
        proof {
            assert(s@.take(s@.len() as int) == s@);
        }
        true
    }

    /// Consumes the character at the current offset and returns it.
    pub fn consume_char(&mut self) -> (c: char)
        requires
            old(self).offset() < old(self).source().len(),
        ensures
            c == old(self).source()[old(self).offset()],
            final(self).source() == old(self).source(),
            final(self).offset() == old(self).offset() + 1,
            0 <= old(self).offset(),
    {
        let len: usize = self.input.len();
        assert(self.pos < len);
        let c = self.input[self.pos];
        self.pos = self.pos + 1;
        c
    }

    /// Consumes the character `c`, which the grammar requires at the current
    /// offset. Where another character or the end of the source stands
    /// there, the cursor stays where it is.
    pub fn expect(&mut self, c: char) -> (r: Result<(), ParseError>)
        ensures
            final(self).source() == old(self).source(),
            0 <= old(self).offset() <= final(self).offset() <= old(self).source().len(),
            match r {
                Ok(_) => yields(
                    expect_char(old(self).source(), old(self).offset(), c),
                    final(self).offset(),
                ),
                Err(e) => fails_with(
                    expect_char(old(self).source(), old(self).offset(), c),
                    e@,
                ) && final(self).offset() == old(self).offset(),
            },
    {
        proof {
            use_type_invariant(&*self);
        }
        let len: usize = self.input.len();
        if self.pos >= len {
            return Err(ParseError { kind: ParseErrorKind::UnexpectedEndOfInput, position: len });
        }
        let found = self.input[self.pos];
        if found == c {
            self.pos = self.pos + 1;
            Ok(())
        } else {
            let expected: Vec<char> = vec![c];
            assert(expected@ =~= seq![c]);
            Err(
                ParseError {
                    kind: ParseErrorKind::UnexpectedCharacter { expected, found },
                    position: self.pos,
                },
            )
        }
    }

    /// Consumes the character at the current offset, which the grammar
    /// requires to be one of `allowed`, and returns it. Where another
    /// character or the end of the source stands there, the cursor stays
    /// where it is.
    pub fn expect_one_of(&mut self, allowed: Vec<char>) -> (r: Result<char, ParseError>)
        ensures
            final(self).source() == old(self).source(),
            0 <= old(self).offset() <= final(self).offset() <= old(self).source().len(),
            match r {
                Ok(c) => yields(
                    expect_one_of(old(self).source(), old(self).offset(), allowed@),
                    final(self).offset(),
                ) && c == old(self).source()[old(self).offset()],
                Err(e) => fails_with(
                    expect_one_of(old(self).source(), old(self).offset(), allowed@),
                    e@,
                ) && final(self).offset() == old(self).offset(),
            },
    {
        proof {
            use_type_invariant(&*self);
        }
        let len: usize = self.input.len();
        if self.pos >= len {
            return Err(ParseError { kind: ParseErrorKind::UnexpectedEndOfInput, position: len });
        }
        let found = self.input[self.pos];
        let mut i: usize = 0;
        while i < allowed.len()
            invariant
                i <= allowed.len(),
                self.pos < len,
                len == self.input.len(),
                self.pos == old(self).pos,
                self.input == old(self).input,
                found == self.input@[self.pos as int],
                forall|j: int| 0 <= j < i ==> allowed@[j] != found,
            decreases allowed.len() - i,
        {
            if allowed[i] == found {
                self.pos = self.pos + 1;
                return Ok(found);
            }
            i += 1;
        }
        Err(
            ParseError {
                kind: ParseErrorKind::UnexpectedCharacter { expected: allowed, found },
                position: self.pos,
            },
        )
    }

    /// Consumes the longest run of characters, starting at the current offset,
    /// on which `test` answers `true`, and returns that run.
    pub fn consume_while<F: Fn(char) -> bool>(&mut self, test: F) -> (run: String)
        requires
            forall|c: char| call_requires(test, (c,)),
        ensures
            final(self).source() == old(self).source(),
            0 <= old(self).offset() <= final(self).offset() <= old(self).source().len(),
            run@ == old(self).source().subrange(old(self).offset(), final(self).offset()),
            forall|i: int|
                old(self).offset() <= i < final(self).offset() ==> call_ensures(
                    test,
                    (#[trigger] old(self).source()[i],),
                    true,
                ),
            final(self).offset() < old(self).source().len() ==> call_ensures(
                test,
                (old(self).source()[final(self).offset()],),
                false,
            ),
    {
        proof {
            use_type_invariant(&*self);
        }
        let ghost start: int = self.pos as int;
        let mut run = String::new();
        while self.pos < self.input.len()
            invariant
                self.input@ == old(self).input@,
                start == old(self).pos,
                start <= self.pos <= self.input.len(),
                forall|c: char| call_requires(test, (c,)),
                run@ == self.input@.subrange(start, self.pos as int),
                forall|i: int|
                    start <= i < self.pos ==> call_ensures(
                        test,
                        (#[trigger] self.input@[i],),
                        true,
                    ),
            ensures
                start <= self.pos <= self.input.len(),
                run@ == self.input@.subrange(start, self.pos as int),
                forall|i: int|
                    start <= i < self.pos ==> call_ensures(
                        test,
                        (#[trigger] self.input@[i],),
                        true,
                    ),
                self.pos < self.input.len() ==> call_ensures(
                    test,
                    (self.input@[self.pos as int],),
                    false,
                ),
            decreases self.input.len() - self.pos,
        {
            let c = self.input[self.pos];
            if !test(c) {
                break;
            }
            run.push(c);
            self.pos = self.pos + 1;
        }
        run
    }

    /// Consumes the whitespace at the current offset, if there is any.
    pub fn consume_whitespace(&mut self)
        ensures
            final(self).source() == old(self).source(),
            final(self).offset() == scan_while(
                old(self).source(),
                old(self).offset(),
                whitespace_pred(),
            ),
            0 <= old(self).offset() <= final(self).offset() <= old(self).source().len(),
    {
        let test = |c: char| -> (b: bool)
            ensures
                b == is_whitespace(c),
            { whitespace(c) };
        self.consume_while(test);
        proof {
            lemma_scan_while_unique(
                old(self).source(),
                old(self).offset(),
                self.offset(),
                whitespace_pred(),
            );
        }
    }
}

} // verus!
