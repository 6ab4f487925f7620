//! The tagged grammar: an XML subset with open, close and empty tags,
//! attributes, text content and comments.  No doctypes, entities,
//! namespaces or CDATA are recognized.

use vstd::prelude::*;

pub mod ast;
pub mod lexer;

verus! {

/// A fatal error of the tagged grammar, from the tokenizer or from the
/// parser; the reason is a short human-readable description.
#[derive(Debug)]
pub enum XMLErrorKind {
    TokenizerErr(&'static str),
    ParserErr(&'static str),
}

} // verus!
