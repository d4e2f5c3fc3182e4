//! Parsers: from text to a value.
use vstd::prelude::*;
use crate::error::ParseError;
use crate::{Tree, Value};

pub mod grammar;
pub mod json;
pub mod json5;
pub mod line;
pub mod line_grammar;

pub use json::JsonParser;
pub use json5::Json5Parser;
pub use line::LineParser;

verus! {

/// What a parser hands back, seen as mathematics.
pub open spec fn result_view(r: Result<Value, ParseError>) -> Result<Tree, ParseError> {
    match r {
        Ok(v) => Ok(v@),
        Err(e) => Err(e),
    }
}

/// What every parser offers: the value of a text.
pub trait Parser {
    /// What the text `s` stands for: its value, or the first failure with
    /// its place.
    spec fn parsed(&self, s: Seq<char>) -> Result<Tree, ParseError>;

    /// Reads `s`.
    fn parse(&self, s: &str) -> (r: Result<Value, ParseError>)
        ensures
            result_view(r) == self.parsed(s@),
            r matches Ok(v) ==> v@.wf(),
    ;
}

} // verus!
