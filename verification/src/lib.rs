//! Parsers for a small markup language and a small style-rule language.
//!
//! Markup text becomes a tree of [`dom::Node`] values; style text becomes a
//! [`css::Stylesheet`] whose selector lists are ordered by specificity. Both
//! parsers read their source through a [`cursor::Cursor`] and report malformed
//! input as a [`error::ParseError`].

pub mod chars;
pub mod css;
pub mod cursor;
pub mod dom;
pub mod error;
pub mod html;
pub mod nesting;
