//! A small text-to-tree conversion engine.
//!
//! Two restricted grammars are supported: a bracketed grammar (a JSON
//! subset) and a tagged grammar (an XML subset).  Each grammar has a
//! single-pass lexer that produces a flat token sequence and a
//! stack-driven parser that materializes the sequence into an
//! arena-indexed n-ary tree.  The tagged-grammar tree can be rendered
//! back to text and subtrees can be grafted between trees.

pub mod arena;
pub mod text;
pub mod json;
pub mod xml;
