//! A verified JSON validator and structural parser.
//!
//! The library turns raw text into a token sequence (`lex`) and a token
//! sequence into a syntax tree (`parse`), or reports the first lexical or
//! grammar violation.  Both stages are specified against mathematical
//! models of the token stream and the tree, and the executable code is
//! proved to agree with those models on every input.

pub mod data;
pub mod lex;
pub mod parse;
pub mod roundtrip;
