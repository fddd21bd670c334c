//! Lexical-analysis front end for a small command language.
//!
//! The scanner walks a borrowed text buffer byte by byte, skips whitespace,
//! extracts maximal identifier runs, and classifies each run against a fixed
//! keyword table. An identifier that is not a recognized keyword is a scan
//! failure, not a token; exhausting the buffer yields an explicit
//! end-of-input token.

pub mod error;
pub mod laws;
pub mod lexer;
pub mod text;
pub mod token;
