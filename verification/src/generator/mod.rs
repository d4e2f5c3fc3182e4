//! Generators: from a value to text.
use vstd::prelude::*;
use crate::{Tree, Value};

pub mod json;
pub mod line;
pub mod min_json;
pub mod pretty_json;

pub use line::LineGenerator;
pub use min_json::MinJsonGenerator;
pub use pretty_json::PrettyJsonGenerator;

verus! {

/// What every generator offers: the text of a value.
pub trait Generator {
    /// The text that this generator writes for `t`.
    spec fn text(&self, t: Tree) -> Seq<char>;

    /// Writes `value` out.
    fn generate(&self, value: &Value) -> (s: String)
        ensures
            s@ == self.text(value@),
    ;
}

} // verus!
