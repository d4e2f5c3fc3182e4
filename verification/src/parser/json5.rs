//! The extended dialect of JSON.
use vstd::prelude::*;
use crate::error::ParseError;
use crate::parser::grammar::{parse_text, Dialect};
use crate::parser::json::parse_document;
use crate::parser::Parser;
use crate::{Tree, Value};

verus! {

/// JSON5 parser: comments, unquoted keys, trailing commas, strings in
/// single quotes, more escapes and more numerals.
#[derive(Copy, Clone, Debug, PartialEq, Eq)]
pub struct Json5Parser;

impl Parser for Json5Parser {
    /// What `s` stands for in the extended dialect.
    open spec fn parsed(&self, s: Seq<char>) -> Result<Tree, ParseError> {
        parse_text(s, Dialect::Json5)
    }

    fn parse(&self, s: &str) -> (r: Result<Value, ParseError>) {
        parse_document(s, Dialect::Json5)
    }
}

} // verus!
