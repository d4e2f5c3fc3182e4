//! Conversion between text and an in-memory tree value, for strict JSON, a
//! JSON5-like dialect and a flat line format of `path = value` assignments.
//!
//! A [`Parser`] turns a text into a [`Value`] or reports the first failure
//! with its place; a [`Generator`] turns a [`Value`] into a text. Every
//! contract is stated over [`Tree`], the mathematical view of a value, and
//! over sequences of characters.
//!
//! - [`parser::grammar`] and [`parser::line_grammar`] hold the grammars as
//!   functions from a text and a position to what stands there; the readers
//!   in [`parser::json`] and [`parser::line`] are proved to compute them.
//! - [`generator::json`] and [`generator::line`] say what text a value has,
//!   and hold the writers that are proved to produce it.
//! - [`laws`] proves what holds of both together: what was written reads
//!   back, the extended dialect reads what the strict one reads, and what
//!   a parser hands back is well formed.
//!
//! Three things to know:
//!
//! - A float is held as the decimal text that denotes it, see [`Float`].
//!   Nothing here computes with floating-point numbers.
//! - An object is a sequence of members in the order in which their keys
//!   first appeared. A key that comes again replaces the value under it
//!   and keeps the place.
//! - The place of a failure counts characters, lines and columns from zero.
use vstd::prelude::*;

pub mod datetime;
pub mod error;
pub mod generator;
pub mod laws;
pub mod parser;
pub mod print;
pub mod text;
pub mod unicode;

pub use generator::Generator;
pub use parser::Parser;
use crate::datetime::{DateTime, DateTimeView};
use crate::parser::grammar::is_number_text;

verus! {

/// A floating-point leaf, held as the decimal text that denotes it.
///
/// The library never computes with the number: a parser keeps the literal it
/// read and a generator writes the text it was given. A parser only gives
/// texts that are decimal numbers, and so does [`Float::finite`].
#[derive(Debug, PartialEq, Eq)]
pub enum Float {
    /// Not a number.
    Nan,
    /// Positive infinity.
    Infinity,
    /// Negative infinity.
    NegInfinity,
    /// A decimal literal, with its sign where it is negative.
    Finite(String),
}

/// The mathematical value of a [`Float`].
pub enum FloatView {
    Nan,
    Infinity,
    NegInfinity,
    Finite(Seq<char>),
}

impl View for Float {
    type V = FloatView;

    open spec fn view(&self) -> FloatView {
        match self {
            Float::Nan => FloatView::Nan,
            Float::Infinity => FloatView::Infinity,
            Float::NegInfinity => FloatView::NegInfinity,
            Float::Finite(s) => FloatView::Finite(s@),
        }
    }
}

/// A parsed value: a tree whose inner nodes are arrays and objects.
///
/// An object keeps its members in the order in which their keys first
/// appeared, and every generator walks them in that order.
#[derive(Debug, PartialEq, Eq)]
pub enum Value {
    Null,
    Int(i128),
    Float(Float),
    Boolean(bool),
    String(String),
    DateTime(DateTime),
    /// A sequence of values.
    Array(Vec<Value>),
    /// A mapping from keys to values, as a sequence of members.
    Object(Vec<Member>),
}

/// One entry of an object: a key and the value under it.
#[derive(Debug, PartialEq, Eq)]
pub struct Member {
    pub key: String,
    pub value: Value,
}

/// The mathematical value of a [`Value`].
pub enum Tree {
    Null,
    Int(int),
    Float(FloatView),
    Boolean(bool),
    String(Seq<char>),
    DateTime(DateTimeView),
    Array(Seq<Tree>),
    Object(Seq<(Seq<char>, Tree)>),
}

impl View for Value {
    type V = Tree;

    open spec fn view(&self) -> Tree
        decreases self,
    {
        match self {
            Value::Null => Tree::Null,
            Value::Int(i) => Tree::Int(*i as int),
            Value::Float(f) => Tree::Float(f@),
            Value::Boolean(b) => Tree::Boolean(*b),
            Value::String(s) => Tree::String(s@),
            Value::DateTime(d) => Tree::DateTime(d@),
            Value::Array(vs) => Tree::Array(trees_of(vs@, vs@.len())),
            Value::Object(ms) => Tree::Object(members_of(ms@, ms@.len())),
        }
    }
}

/// Whether no key stands twice among the members.
pub open spec fn distinct_keys(ms: Seq<(Seq<char>, Tree)>) -> bool {
    forall|i: int, j: int| 0 <= i < j < ms.len() ==> (#[trigger] ms[i]).0 != (#[trigger] ms[j]).0
}

impl Tree {
    /// Whether the tree is well formed: no object in it holds a key twice,
    /// the text of every finite float is a decimal number, and every date
    /// and time is valid.
    pub open spec fn wf(self) -> bool
        decreases self,
    {
        match self {
            Tree::Float(FloatView::Finite(t)) => is_number_text(t),
            Tree::DateTime(d) => d.valid(),
            Tree::Array(ts) => forall|i: int| 0 <= i < ts.len() ==> (#[trigger] ts[i]).wf(),
            Tree::Object(ms) => distinct_keys(ms) && forall|i: int|
                0 <= i < ms.len() ==> (#[trigger] ms[i]).1.wf(),
            _ => true,
        }
    }
}

impl Float {
    /// The finite float with the text `text`, where that is a decimal
    /// number.
    pub fn finite(text: String) -> (r: Option<Float>)
        ensures
            match r {
                Some(f) => f@ == FloatView::Finite(text@) && is_number_text(text@),
                None => !is_number_text(text@),
            },
    {
        if crate::parser::json::number_text(text.as_str()) {
            Some(Float::Finite(text))
        } else {
            None
        }
    }
}

/// The views of the first `n` elements of an array, in order.
pub open spec fn trees_of(vs: Seq<Value>, n: nat) -> Seq<Tree>
    decreases vs, n,
{
    if n == 0 || n > vs.len() {
        Seq::empty()
    } else {
        trees_of(vs, (n - 1) as nat).push(vs[n - 1]@)
    }
}

/// The views of the first `n` members of an object, in order.
pub open spec fn members_of(ms: Seq<Member>, n: nat) -> Seq<(Seq<char>, Tree)>
    decreases ms, n,
{
    if n == 0 || n > ms.len() {
        Seq::empty()
    } else {
        members_of(ms, (n - 1) as nat).push((ms[n - 1].key@, ms[n - 1].value@))
    }
}

/// The view of the elements of an array.
pub open spec fn array_view(vs: Seq<Value>) -> Seq<Tree> {
    trees_of(vs, vs.len())
}

/// The view of the members of an object.
pub open spec fn object_view(ms: Seq<Member>) -> Seq<(Seq<char>, Tree)> {
    members_of(ms, ms.len())
}

/// The view of an array with one more element.
pub proof fn lemma_array_push(vs: Seq<Value>, v: Value)
    ensures
        array_view(vs.push(v)) == array_view(vs).push(v@),
{
    lemma_trees_of(vs, vs.len());
    lemma_trees_of(vs.push(v), vs.len() + 1);
    assert(array_view(vs.push(v)) =~= array_view(vs).push(v@));
}

/// The view of an object with one more member.
pub proof fn lemma_object_push(ms: Seq<Member>, m: Member)
    ensures
        object_view(ms.push(m)) == object_view(ms).push((m.key@, m.value@)),
{
    lemma_members_of(ms, ms.len());
    lemma_members_of(ms.push(m), ms.len() + 1);
    assert(object_view(ms.push(m)) =~= object_view(ms).push((m.key@, m.value@)));
}

/// The view of an array with one element replaced.
pub proof fn lemma_array_update(vs: Seq<Value>, i: int, v: Value)
    requires
        0 <= i < vs.len(),
    ensures
        array_view(vs.update(i, v)) == array_view(vs).update(i, v@),
{
    lemma_trees_of(vs, vs.len());
    lemma_trees_of(vs.update(i, v), vs.len());
    assert(array_view(vs.update(i, v)) =~= array_view(vs).update(i, v@));
}

/// The view of an object with one member replaced.
pub proof fn lemma_object_update(ms: Seq<Member>, i: int, m: Member)
    requires
        0 <= i < ms.len(),
    ensures
        object_view(ms.update(i, m)) == object_view(ms).update(i, (m.key@, m.value@)),
{
    lemma_members_of(ms, ms.len());
    lemma_members_of(ms.update(i, m), ms.len());
    assert(object_view(ms.update(i, m)) =~= object_view(ms).update(i, (m.key@, m.value@)));
}

/// `trees_of` element by element.
pub proof fn lemma_trees_of(vs: Seq<Value>, n: nat)
    requires
        n <= vs.len(),
    ensures
        trees_of(vs, n).len() == n,
        forall|i: int|
            #![trigger trees_of(vs, n)[i]]
            #![trigger vs[i]]
            0 <= i < n ==> trees_of(vs, n)[i] == vs[i]@,
    decreases n,
{
    reveal_with_fuel(trees_of, 2);
    if n > 0 {
        lemma_trees_of(vs, (n - 1) as nat);
    }
}

/// `members_of` element by element.
pub proof fn lemma_members_of(ms: Seq<Member>, n: nat)
    requires
        n <= ms.len(),
    ensures
        members_of(ms, n).len() == n,
        forall|i: int|
            #![trigger members_of(ms, n)[i]]
            #![trigger ms[i]]
            0 <= i < n ==> members_of(ms, n)[i] == (ms[i].key@, ms[i].value@),
    decreases n,
{
    if n > 0 {
        lemma_members_of(ms, (n - 1) as nat);
    }
}

/// The first `n` views depend on the first `n` elements only.
pub proof fn lemma_same_trees(a: Seq<Value>, b: Seq<Value>, n: nat)
    requires
        n <= a.len(),
        n <= b.len(),
        forall|i: int| 0 <= i < n ==> a[i] == b[i],
    ensures
        trees_of(a, n) == trees_of(b, n),
    decreases n,
{
    if n > 0 {
        lemma_same_trees(a, b, (n - 1) as nat);
    }
}

/// The first `n` views depend on the first `n` members only.
pub proof fn lemma_same_members(a: Seq<Member>, b: Seq<Member>, n: nat)
    requires
        n <= a.len(),
        n <= b.len(),
        forall|i: int| 0 <= i < n ==> a[i] == b[i],
    ensures
        members_of(a, n) == members_of(b, n),
    decreases n,
{
    if n > 0 {
        lemma_same_members(a, b, (n - 1) as nat);
    }
}

impl Value {
    /// Whether the value is well formed.
    pub fn well_formed(&self) -> (r: bool)
        ensures
            r == self@.wf(),
        decreases self,
    {
        match self {
            Value::Float(Float::Finite(t)) => crate::parser::json::number_text(t.as_str()),
            Value::DateTime(d) => {
                let _ = d.date();
                true
            },
            Value::Array(vs) => {
                proof {
                    lemma_trees_of(vs@, vs@.len());
                }
                let ghost view = array_view(vs@);
                let mut i: usize = 0;
                while i < vs.len()
                    invariant
                        i <= vs.len(),
                        self == Value::Array(*vs),
                        self@ == Tree::Array(view),
                        view.len() == vs@.len(),
                        forall|j: int| 0 <= j < vs@.len() ==> (#[trigger] view[j]) == vs@[j]@,
                        forall|j: int| 0 <= j < i ==> (#[trigger] view[j]).wf(),
                    decreases vs.len() - i,
                {
                    assert(decreases_to!(*vs => vs[i as int]));
                    assert(decreases_to!(*self => self->Array_0));
                    if !vs[i].well_formed() {
                        assert(!self@.wf()) by {
                            let t = self@;
                            if t.wf() {
                                assert(t->Array_0[i as int].wf());
                            }
                        }
                        return false;
                    }
                    i += 1;
                }
                true
            },
            Value::Object(ms) => {
                proof {
                    lemma_members_of(ms@, ms@.len());
                }
                let ghost view = object_view(ms@);
                let mut i: usize = 0;
                while i < ms.len()
                    invariant
                        i <= ms.len(),
                        self == Value::Object(*ms),
                        self@ == Tree::Object(view),
                        view == object_view(ms@),
                        view.len() == ms@.len(),
                        forall|j: int|
                            0 <= j < ms@.len() ==> (#[trigger] view[j]) == (
                                ms@[j].key@,
                                ms@[j].value@,
                            ),
                        forall|j: int| 0 <= j < i ==> (#[trigger] view[j]).1.wf(),
                        forall|a: int, b: int|
                            0 <= a < b < i ==> (#[trigger] view[a]).0 != (#[trigger] view[b]).0,
                    decreases ms.len() - i,
                {
                    assert(decreases_to!(*ms => ms[i as int]));
                    assert(decreases_to!(*self => self->Object_0));
                    assert(decreases_to!(ms[i as int] => ms[i as int].value));
                    if !ms[i].value.well_formed() {
                        assert(!view[i as int].1.wf());
                        return false;
                    }
                    let mut k: usize = 0;
                    while k < i
                        invariant
                            k <= i < ms.len(),
                            self@ == Tree::Object(view),
                            view == object_view(ms@),
                            view.len() == ms@.len(),
                            forall|j: int|
                                0 <= j < ms@.len() ==> (#[trigger] view[j]) == (
                                    ms@[j].key@,
                                    ms@[j].value@,
                                ),
                            forall|a: int| 0 <= a < k ==> (#[trigger] view[a]).0 != view[i as int].0,
                        decreases i - k,
                    {
                        if ms[k].key == ms[i].key {
                            assert(view[k as int].0 == view[i as int].0);
                            return false;
                        }
                        k += 1;
                    }
                    i += 1;
                }
                true
            },
            _ => true,
        }
    }
}

impl Clone for Float {
    fn clone(&self) -> (r: Self)
        ensures
            r@ == self@,
    {
        match self {
            Float::Nan => Float::Nan,
            Float::Infinity => Float::Infinity,
            Float::NegInfinity => Float::NegInfinity,
            Float::Finite(s) => Float::Finite(s.clone()),
        }
    }
}

impl Clone for Member {
    fn clone(&self) -> (r: Self)
        ensures
            r.key@ == self.key@,
            r.value@ == self.value@,
    {
        Member { key: self.key.clone(), value: self.value.clone() }
    }
}

impl Clone for Value {
    fn clone(&self) -> (r: Self)
        ensures
            r@ == self@,
        decreases self,
    {
        match self {
            Value::Null => Value::Null,
            Value::Int(i) => Value::Int(*i),
            Value::Float(f) => Value::Float(f.clone()),
            Value::Boolean(b) => Value::Boolean(*b),
            Value::String(s) => Value::String(s.clone()),
            Value::DateTime(d) => Value::DateTime(*d),
            Value::Array(vs) => {
                let mut out: Vec<Value> = Vec::new();
                let mut i: usize = 0;
                while i < vs.len()
                    invariant
                        i <= vs.len(),
                        self == Value::Array(*vs),
                        out@.len() == i,
                        trees_of(out@, i as nat) == trees_of(vs@, i as nat),
                    decreases vs.len() - i,
                {
                    assert(decreases_to!(*vs => vs[i as int]));
                    assert(decreases_to!(*self => self->Array_0));
                    let ghost before = out@;
                    out.push(vs[i].clone());
                    proof {
                        lemma_same_trees(before, out@, i as nat);
                    }
                    i += 1;
                }
                Value::Array(out)
            },
            Value::Object(ms) => {
                let mut out: Vec<Member> = Vec::new();
                let mut i: usize = 0;
                while i < ms.len()
                    invariant
                        i <= ms.len(),
                        self == Value::Object(*ms),
                        out@.len() == i,
                        members_of(out@, i as nat) == members_of(ms@, i as nat),
                    decreases ms.len() - i,
                {
                    assert(decreases_to!(*ms => ms[i as int]));
                    assert(decreases_to!(*self => self->Object_0));
                    assert(decreases_to!(ms[i as int] => ms[i as int].value));
                    let ghost before = out@;
                    out.push(Member { key: ms[i].key.clone(), value: ms[i].value.clone() });
                    proof {
                        lemma_same_members(before, out@, i as nat);
                    }
                    i += 1;
                }
                Value::Object(out)
            },
        }
    }
}

} // verus!

