//! Parsing of delimiter-separated values: CSV, TSV and other tables whose
//! fields are separated by a single character.
//!
//! Text is read into a [`Dsv`], a table of records, each an ordered sequence
//! of text fields. No type inference is done on the fields.
//!
//! The meaning of a parse is stated as spec functions: [`lexer::tokenize`] turns text
//! into tokens (delimiter, newline, value) and [`parser::parse_tokens`] groups tokens
//! into records, so that [`parser::parse_text`] is the table that a text denotes, or
//! `None` where it is malformed. Every public parsing function is verified to
//! return exactly that. The lemmas of [`laws`] state what holds of every
//! parse: all records have the field count of the first, parsing is
//! deterministic, and a table written with minimal quoting reads back as it was.
mod dsv;
mod error;
pub mod laws;
pub mod lexer;
pub mod parser;

pub use crate::dsv::Dsv;
pub use crate::error::{Error, Result};
pub use crate::lexer::{Lexer, Token};
pub use crate::parser::{Options, Parser, Quotes};
