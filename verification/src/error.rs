//! The ways in which a parse can fail.

use vstd::prelude::*;

verus! {

/// What was wrong with the source text.
#[derive(Debug, Clone, PartialEq, Eq)]
pub enum ParseErrorKind {
    /// A character stood where the grammar allows only those in `expected`.
    UnexpectedCharacter { expected: Vec<char>, found: char },
    /// An element was closed under another name than it was opened with.
    TagMismatch { opening: String, closing: String },
    /// A quoted value runs to the end of the source without a closing quote.
    UnterminatedQuote,
    /// A quoted value runs to the end of the source, and the other quote
    /// character occurs in it: it was closed with the wrong quote.
    QuoteMismatch,
    /// The source ended where the grammar requires a character.
    UnexpectedEndOfInput,
}

/// A failed parse: what was wrong, and the offset, in characters, at which.
#[derive(Debug, Clone, PartialEq, Eq)]
pub struct ParseError {
    pub kind: ParseErrorKind,
    pub position: usize,
}

/// The mathematical value of a [`ParseErrorKind`].
pub enum ParseErrorKindView {
    UnexpectedCharacter { expected: Seq<char>, found: char },
    TagMismatch { opening: Seq<char>, closing: Seq<char> },
    UnterminatedQuote,
    QuoteMismatch,
    UnexpectedEndOfInput,
}

/// The mathematical value of a [`ParseError`].
pub struct ParseErrorView {
    pub kind: ParseErrorKindView,
    pub position: int,
}

impl View for ParseErrorKind {
    type V = ParseErrorKindView;

    open spec fn view(&self) -> ParseErrorKindView {
        match self {
            ParseErrorKind::UnexpectedCharacter { expected, found } => {
                ParseErrorKindView::UnexpectedCharacter { expected: expected@, found: *found }
            },
            ParseErrorKind::TagMismatch { opening, closing } => {
                ParseErrorKindView::TagMismatch { opening: opening@, closing: closing@ }
            },
            ParseErrorKind::UnterminatedQuote => ParseErrorKindView::UnterminatedQuote,
            ParseErrorKind::QuoteMismatch => ParseErrorKindView::QuoteMismatch,
            ParseErrorKind::UnexpectedEndOfInput => ParseErrorKindView::UnexpectedEndOfInput,
        }
    }
}

impl View for ParseError {
    type V = ParseErrorView;

    open spec fn view(&self) -> ParseErrorView {
        ParseErrorView { kind: self.kind@, position: self.position as int }
    }
}

/// Whether a rule comes out with the result `value`.
pub open spec fn yields<T>(outcome: Result<T, ParseErrorView>, value: T) -> bool {
    outcome == Ok::<T, ParseErrorView>(value)
}

/// Whether a rule comes out with the failure `error`.
pub open spec fn fails_with<T>(outcome: Result<T, ParseErrorView>, error: ParseErrorView) -> bool {
    outcome == Err::<T, ParseErrorView>(error)
}

/// The failure reported where the source ends too early.
pub open spec fn end_of_input(s: Seq<char>) -> ParseErrorView {
    ParseErrorView { kind: ParseErrorKindView::UnexpectedEndOfInput, position: s.len() as int }
}

/// The failure reported where the character at `pos` is none of `expected`.
pub open spec fn unexpected(s: Seq<char>, pos: int, expected: Seq<char>) -> ParseErrorView {
    ParseErrorView {
        kind: ParseErrorKindView::UnexpectedCharacter { expected, found: s[pos] },
        position: pos,
    }
}

/// Where the grammar requires the character `c` at offset `pos`: the offset
/// after it, or the failure that its absence gives.
pub open spec fn expect_char(s: Seq<char>, pos: int, c: char) -> Result<int, ParseErrorView> {
    if pos >= s.len() {
        Err(end_of_input(s))
    } else if s[pos] == c {
        Ok(pos + 1)
    } else {
        Err(unexpected(s, pos, seq![c]))
    }
}

/// Where the grammar requires one of the characters `allowed` at offset
/// `pos`: the offset after it, or the failure that its absence gives.
pub open spec fn expect_one_of(s: Seq<char>, pos: int, allowed: Seq<char>) -> Result<
    int,
    ParseErrorView,
> {
    if pos >= s.len() {
        Err(end_of_input(s))
    } else if allowed.contains(s[pos]) {
        Ok(pos + 1)
    } else {
        Err(unexpected(s, pos, allowed))
    }
}

} // verus!
