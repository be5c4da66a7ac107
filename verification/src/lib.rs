//! Core of a PDF parsing front-end: a random-access byte source, a lexical
//! tokenizer for PDF syntax, an object parser that assembles composite
//! primitives with two-token lookahead, and a cross-reference (xref) resolver
//! that locates the trailer and indirect-object offsets.
pub mod error;
pub mod lexer;
pub mod parser;
pub mod primitives;
pub mod reader;
pub mod stream;
pub mod utils;
pub mod xref;
