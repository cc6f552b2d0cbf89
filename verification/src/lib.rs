//! A JSON text processor: a scanner that turns bytes into tokens and a
//! recursive-descent parser that builds a value tree from them.

pub mod completeness;
pub mod document;
pub mod error;
pub mod grammar;
pub mod grammar_laws;
pub mod insertion;
pub mod lexer;
pub mod locality;
pub mod number;
pub mod number_laws;
pub mod parser;
pub mod scan;
pub mod scan_laws;
pub mod symbol;
pub mod text;
pub mod token;
pub mod token_laws;
pub mod value;
pub mod whitespace_laws;
