//! JSON without white space.
use vstd::prelude::*;
use crate::generator::json::{json_text, write_value, Layout};
use crate::generator::Generator;
use crate::text::string_of;
use crate::{Tree, Value};

verus! {

/// Minified JSON generator.
#[derive(Copy, Clone, Debug, PartialEq, Eq)]
pub struct MinJsonGenerator;

impl Generator for MinJsonGenerator {
    /// The compact text of `t`: no white space between tokens.
    open spec fn text(&self, t: Tree) -> Seq<char> {
        json_text(t, Layout::Compact, 0)
    }

    fn generate(&self, value: &Value) -> (s: String) {
        let mut buf: Vec<char> = Vec::new();
        let unit: Vec<char> = Vec::new();
        let mut pad: Vec<char> = Vec::new();
        assert(unit@ =~= crate::text::repeat(' ', 0));
        assert(pad@ =~= crate::text::repeat(' ', 0));
        write_value(&mut buf, value, false, &unit, &mut pad, Ghost(0));
        assert(buf@ =~= self.text(value@));
        string_of(&buf)
    }
}

} // verus!
