//! The bracketed grammar: a JSON subset of objects, arrays, strings,
//! numbers and booleans.

pub mod ast;
pub mod lexer;
