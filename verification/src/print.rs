//! The line format in both directions, under one configuration.
use vstd::prelude::*;
use crate::parser::result_view;
use crate::error::ParseError;
use crate::generator::line::{default_tokens, lines, write_lines, Tokens};
use crate::parser::line::parse_with;
use crate::parser::line_grammar::parse_lines;
use crate::text::{chars_of, string_of};
use crate::Value;

verus! {

/// The tokens of the line format.
#[derive(Clone, Debug, PartialEq, Eq)]
pub struct PrintConfig {
    root: String,
    delimiter: String,
    equal: String,
}

impl Default for PrintConfig {
    fn default() -> (r: Self)
        ensures
            r.tokens() == default_tokens(),
    {
        let r = Self { root: "$".to_string(), delimiter: ".".to_string(), equal: " = ".to_string() };
        proof {
            reveal_strlit("$");
            reveal_strlit(".");
            reveal_strlit(" = ");
            assert(r.root@ =~= seq!['$']);
            assert(r.delimiter@ =~= seq!['.']);
            assert(r.equal@ =~= seq![' ', '=', ' ']);
        }
        r
    }
}

impl PrintConfig {
    /// The tokens that this configuration names.
    pub closed spec fn tokens(&self) -> Tokens {
        Tokens { root: self.root@, delimiter: self.delimiter@, equal: self.equal@ }
    }

    /// The root `$`, the delimiter `.` and ` = ` between a path and its
    /// value.
    pub fn new() -> (r: Self)
        ensures
            r.tokens() == default_tokens(),
    {
        Self::default()
    }

    /// Sets what stands for the root.
    pub fn root(&mut self, root: String) -> (r: &mut Self)
        ensures
            *final(self) == *final(r),
            r.tokens() == (Tokens { root: root@, ..old(self).tokens() }),
    {
        self.root = root;
        self
    }

    /// Sets what stands between two steps of a path.
    pub fn delimiter(&mut self, delimiter: String) -> (r: &mut Self)
        ensures
            *final(self) == *final(r),
            r.tokens() == (Tokens { delimiter: delimiter@, ..old(self).tokens() }),
    {
        self.delimiter = delimiter;
        self
    }

    /// Sets what stands between a path and its value.
    pub fn equal(&mut self, equal: String) -> (r: &mut Self)
        ensures
            *final(self) == *final(r),
            r.tokens() == (Tokens { equal: equal@, ..old(self).tokens() }),
    {
        self.equal = equal;
        self
    }
}

/// The lines of `value`, one assignment per leaf.
pub fn print(value: &Value, config: &PrintConfig) -> (s: String)
    ensures
        s@ == lines(value@, config.tokens().root, config.tokens()),
{
    let root = chars_of(config.root.as_str());
    let delimiter = chars_of(config.delimiter.as_str());
    let equal = chars_of(config.equal.as_str());
    let mut buf: Vec<char> = Vec::new();
    write_lines(&mut buf, value, &root, &delimiter, &equal, Ghost(root@));
    assert(buf@ =~= lines(value@, config.tokens().root, config.tokens()));
    string_of(&buf)
}

/// The tree that the assignments of `s` build.
pub fn deprint(s: &str, config: &PrintConfig) -> (r: Result<Value, ParseError>)
    ensures
        result_view(r) == parse_lines(s@, config.tokens()),
        r matches Ok(v) ==> v@.wf(),
{
    parse_with(s, config.root.as_str(), config.delimiter.as_str(), config.equal.as_str())
}

} // verus!
