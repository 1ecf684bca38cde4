//! Reading S-expressions: a byte-level lexer, a flat arena parse tree, and
//! renderers back to text, with machine-checked contracts.

pub mod laws;
pub mod number;
pub mod parse;
pub mod rebuild;
pub mod text;
pub mod tokenise;
