//! JSON with one element per line.
use vstd::prelude::*;
use crate::generator::json::{json_text, write_value, Layout};
use crate::generator::Generator;
use crate::text::{repeat, string_of};
use crate::{Tree, Value};

verus! {

/// Formatted JSON generator.
#[derive(Copy, Clone, Debug, PartialEq, Eq)]
pub struct PrettyJsonGenerator {
    indent: usize,
}

impl PrettyJsonGenerator {
    /// The number of spaces by which each level is indented.
    pub closed spec fn width(&self) -> nat {
        self.indent as nat
    }

    /// A generator that indents by four spaces.
    pub fn new() -> (r: Self)
        ensures
            r.width() == 4,
    {
        PrettyJsonGenerator { indent: 4 }
    }

    /// Sets the number of spaces per level.
    pub fn indent(&mut self, indent: usize) -> (r: &mut Self)
        ensures
            r.width() == indent,
            *final(self) == *final(r),
    {
        self.indent = indent;
        self
    }
}

impl Default for PrettyJsonGenerator {
    fn default() -> (r: Self)
        ensures
            r.width() == 4,
    {
        PrettyJsonGenerator::new()
    }
}

impl Generator for PrettyJsonGenerator {
    /// The indented text of `t`, and a line break after it.
    open spec fn text(&self, t: Tree) -> Seq<char> {
        json_text(t, Layout::Indented { width: self.width() }, 0) + seq!['\n']
    }

    fn generate(&self, value: &Value) -> (s: String) {
        let mut buf: Vec<char> = Vec::new();
        let mut unit: Vec<char> = Vec::new();
        let mut k: usize = 0;
        while k < self.indent
            invariant
                k <= self.indent,
                unit@ == repeat(' ', k as nat),
            decreases self.indent - k,
        {
            unit.push(' ');
            assert(unit@ =~= repeat(' ', (k + 1) as nat));
            k += 1;
        }
        let mut pad: Vec<char> = Vec::new();
        assert(unit@.len() == self.indent);
        assert(pad@ =~= repeat(' ', unit@.len() * 0));
        write_value(&mut buf, value, true, &unit, &mut pad, Ghost(0));
        buf.push('\n');
        assert(buf@ =~= self.text(value@));
        string_of(&buf)
    }
}

} // verus!
