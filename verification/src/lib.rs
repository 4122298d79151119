//! A parser for fragments of HTML-like markup.
//!
//! `parse` turns a fragment into a tree of `HtmlElement`s. It works in two
//! steps: `lexer` cuts the fragment into `Tokens`, and `parser` builds the
//! tree from them. Any fragment is accepted: markup that is not well formed
//! gives a tree all the same, and nothing is reported.
//!
//! Every function is verified against a contract. The contracts speak of
//! what the values stand for: a `Node` for an `HtmlElement`, a `Lexeme` for a
//! token, a map for `Attributes`. `tokens_of` says what the tokens of a
//! fragment are, `tree_of` what tree a sequence of tokens stands for, and
//! `document` what tree a fragment stands for.
//!
//! - `token`: the tokens.
//! - `lex`: from characters to tokens.
//! - `attributes`, `element`: the nodes of the tree.
//! - `tree`: from tokens to the tree.
//! - `document`: from a fragment to its tree.
//! - `shape`: what holds of every tree that is built.
//! - `markup`: elements that are read back as they were written.

pub mod attributes;
pub mod document;
pub mod element;
pub mod lex;
pub mod markup;
pub mod shape;
pub mod token;
pub mod tree;

pub use attributes::Attributes;
pub use document::parse;
pub use element::HtmlElement;
pub use lex::lexer;
pub use token::Tokens;
pub use tree::{parser, scan_level};
