//! The line format: one `path = value` assignment per leaf.
use vstd::prelude::*;
use crate::generator::json::{push_quoted, quoted};
use crate::generator::Generator;
use crate::text::{
    append, append_str, chars_of, decimal, int_text, push_decimal, push_int, string_of,
};
use crate::{lemma_members_of, lemma_trees_of, members_of, trees_of};
use crate::{Float, FloatView, Tree, Value};

verus! {

/// The three tokens of the line format.
pub struct Tokens {
    /// What stands for the root of the tree.
    pub root: Seq<char>,
    /// What stands between two steps of a path.
    pub delimiter: Seq<char>,
    /// What stands between a path and its value.
    pub equal: Seq<char>,
}

/// `$`, `.` and ` = `.
pub open spec fn default_tokens() -> Tokens {
    Tokens { root: seq!['$'], delimiter: seq!['.'], equal: seq![' ', '=', ' '] }
}

/// The text of a float in a line.
pub open spec fn line_float_text(f: FloatView) -> Seq<char> {
    match f {
        FloatView::Nan => seq!['N', 'a', 'N'],
        FloatView::Infinity => seq!['i', 'n', 'f'],
        FloatView::NegInfinity => seq!['-', 'i', 'n', 'f'],
        FloatView::Finite(t) => t,
    }
}

/// The literal of a leaf. An array or object that stands as a leaf is an
/// empty one.
pub open spec fn leaf_text(t: Tree) -> Seq<char> {
    match t {
        Tree::Null => seq!['n', 'u', 'l', 'l'],
        Tree::Boolean(b) => if b {
            seq!['t', 'r', 'u', 'e']
        } else {
            seq!['f', 'a', 'l', 's', 'e']
        },
        Tree::Int(i) => int_text(i),
        Tree::Float(f) => line_float_text(f),
        Tree::String(s) => quoted(s),
        Tree::DateTime(d) => d.text(),
        Tree::Array(_) => seq!['[', ']'],
        Tree::Object(_) => seq!['{', '}'],
    }
}

/// The lines of the tree `t` that stands at the path `loc`, depth first.
///
/// A leaf, an empty array and an empty object each give one line; the
/// elements of an array stand under their indices, counted from zero, and
/// the members of an object under their keys, in the object's order.
pub open spec fn lines(t: Tree, loc: Seq<char>, tokens: Tokens) -> Seq<char>
    decreases t, 0nat,
{
    match t {
        Tree::Array(ts) => if ts.len() == 0 {
            loc + tokens.equal + leaf_text(t) + seq!['\n']
        } else {
            array_lines(ts, ts.len(), loc, tokens)
        },
        Tree::Object(ms) => if ms.len() == 0 {
            loc + tokens.equal + leaf_text(t) + seq!['\n']
        } else {
            object_lines(ms, ms.len(), loc, tokens)
        },
        _ => loc + tokens.equal + leaf_text(t) + seq!['\n'],
    }
}

/// The lines of the first `n` elements of the array at `loc`.
pub open spec fn array_lines(ts: Seq<Tree>, n: nat, loc: Seq<char>, tokens: Tokens) -> Seq<char>
    decreases ts, n,
{
    if n == 0 || n > ts.len() {
        Seq::empty()
    } else {
        array_lines(ts, (n - 1) as nat, loc, tokens) + lines(
            ts[n - 1],
            loc + tokens.delimiter + decimal((n - 1) as nat),
            tokens,
        )
    }
}

/// The lines of the first `n` members of the object at `loc`.
pub open spec fn object_lines(
    ms: Seq<(Seq<char>, Tree)>,
    n: nat,
    loc: Seq<char>,
    tokens: Tokens,
) -> Seq<char>
    decreases ms, n,
{
    if n == 0 || n > ms.len() {
        Seq::empty()
    } else {
        object_lines(ms, (n - 1) as nat, loc, tokens) + lines(
            ms[n - 1].1,
            loc + tokens.delimiter + ms[n - 1].0,
            tokens,
        )
    }
}

/// Appends the literal of a leaf.
fn write_leaf(buf: &mut Vec<char>, value: &Value)
    ensures
        final(buf)@ == old(buf)@ + leaf_text(value@),
{
    match value {
        Value::Null => {
            buf.push('n');
            buf.push('u');
            buf.push('l');
            buf.push('l');
        },
        Value::Boolean(b) => {
            if *b {
                buf.push('t');
                buf.push('r');
                buf.push('u');
                buf.push('e');
            } else {
                buf.push('f');
                buf.push('a');
                buf.push('l');
                buf.push('s');
                buf.push('e');
            }
        },
        Value::Int(i) => {
            push_int(buf, *i);
        },
        Value::Float(f) => {
            match f {
                Float::Nan => {
                    buf.push('N');
                    buf.push('a');
                    buf.push('N');
                },
                Float::Infinity => {
                    buf.push('i');
                    buf.push('n');
                    buf.push('f');
                },
                Float::NegInfinity => {
                    buf.push('-');
                    buf.push('i');
                    buf.push('n');
                    buf.push('f');
                },
                Float::Finite(t) => {
                    append_str(buf, t.as_str());
                },
            }
        },
        Value::String(s) => {
            let cs = chars_of(s.as_str());
            push_quoted(buf, &cs);
        },
        Value::DateTime(d) => {
            d.write(buf);
        },
        Value::Array(_) => {
            buf.push('[');
            buf.push(']');
        },
        Value::Object(_) => {
            buf.push('{');
            buf.push('}');
        },
    }
    assert(buf@ =~= old(buf)@ + leaf_text(value@));
}

/// Appends the one line of a leaf at `loc`.
fn write_line(buf: &mut Vec<char>, value: &Value, loc: &Vec<char>, equal: &Vec<char>)
    ensures
        final(buf)@ == old(buf)@ + (loc@ + equal@ + leaf_text(value@) + seq!['\n']),
{
    append(buf, loc);
    append(buf, equal);
    write_leaf(buf, value);
    buf.push('\n');
    assert(buf@ =~= old(buf)@ + (loc@ + equal@ + leaf_text(value@) + seq!['\n']));
}

/// Appends the lines of `value`, which stands at the path `loc`.
pub fn write_lines(
    buf: &mut Vec<char>,
    value: &Value,
    loc: &Vec<char>,
    delimiter: &Vec<char>,
    equal: &Vec<char>,
    Ghost(root): Ghost<Seq<char>>,
)
    ensures
        final(buf)@ == old(buf)@ + lines(
            value@,
            loc@,
            Tokens { root, delimiter: delimiter@, equal: equal@ },
        ),
    decreases value,
{
    let ghost tokens = Tokens { root, delimiter: delimiter@, equal: equal@ };
    match value {
        Value::Array(vs) => {
            if vs.len() == 0 {
                write_line(buf, value, loc, equal);
            } else {
                let ghost ts = trees_of(vs@, vs@.len());
                proof {
                    lemma_trees_of(vs@, vs@.len());
                }
                assert(buf@ =~= old(buf)@ + array_lines(ts, 0, loc@, tokens));
                let mut i: usize = 0;
                while i < vs.len()
                    invariant
                        i <= vs.len(),
                        value == Value::Array(*vs),
                        ts.len() == vs.len(),
                        forall|j: int| 0 <= j < vs.len() ==> ts[j] == (#[trigger] vs@[j])@,
                        tokens == (Tokens { root, delimiter: delimiter@, equal: equal@ }),
                        buf@ == old(buf)@ + array_lines(ts, i as nat, loc@, tokens),
                    decreases vs.len() - i,
                {
                    let mut child: Vec<char> = Vec::new();
                    append(&mut child, loc);
                    append(&mut child, delimiter);
                    push_decimal(&mut child, i as u128);
                    assert(child@ =~= loc@ + delimiter@ + decimal(i as nat));
                    assert(decreases_to!(*vs => vs[i as int]));
                    assert(decreases_to!(*value => value->Array_0));
                    write_lines(buf, &vs[i], &child, delimiter, equal, Ghost(root));
                    assert(buf@ =~= old(buf)@ + array_lines(ts, (i + 1) as nat, loc@, tokens)) by {
                        assert(ts[i as int] == vs@[i as int]@);
                    }
                    i += 1;
                }
                assert(value@ == Tree::Array(ts));
            }
        },
        Value::Object(ms) => {
            if ms.len() == 0 {
                write_line(buf, value, loc, equal);
            } else {
                let ghost ts = members_of(ms@, ms@.len());
                proof {
                    lemma_members_of(ms@, ms@.len());
                }
                assert(buf@ =~= old(buf)@ + object_lines(ts, 0, loc@, tokens));
                let mut i: usize = 0;
                while i < ms.len()
                    invariant
                        i <= ms.len(),
                        value == Value::Object(*ms),
                        ts.len() == ms.len(),
                        forall|j: int|
                            0 <= j < ms.len() ==> ts[j] == (
                                (#[trigger] ms@[j]).key@,
                                ms@[j].value@,
                            ),
                        tokens == (Tokens { root, delimiter: delimiter@, equal: equal@ }),
                        buf@ == old(buf)@ + object_lines(ts, i as nat, loc@, tokens),
                    decreases ms.len() - i,
                {
                    let mut child: Vec<char> = Vec::new();
                    append(&mut child, loc);
                    append(&mut child, delimiter);
                    append_str(&mut child, ms[i].key.as_str());
                    assert(child@ =~= loc@ + delimiter@ + ms@[i as int].key@);
                    assert(decreases_to!(*ms => ms[i as int]));
                    assert(decreases_to!(*value => value->Object_0));
                    assert(decreases_to!(ms[i as int] => ms[i as int].value));
                    write_lines(buf, &ms[i].value, &child, delimiter, equal, Ghost(root));
                    assert(buf@ =~= old(buf)@ + object_lines(ts, (i + 1) as nat, loc@, tokens)) by {
                        assert(ts[i as int] == (ms@[i as int].key@, ms@[i as int].value@));
                    }
                    i += 1;
                }
                assert(value@ == Tree::Object(ts));
            }
        },
        _ => {
            write_line(buf, value, loc, equal);
        },
    }
}

/// Line generator: flattens a tree into assignments.
#[derive(Clone, Debug, PartialEq, Eq)]
pub struct LineGenerator {
    root: String,
    delimiter: String,
    equal: String,
}

impl Default for LineGenerator {
    fn default() -> (r: Self)
        ensures
            r.tokens() == default_tokens(),
    {
        let r = Self { root: "$".to_string(), delimiter: ".".to_string(), equal: " = ".to_string() };
        proof {
            reveal_strlit("$");
            reveal_strlit(".");
            reveal_strlit(" = ");
            assert(r.root@ =~= seq!['$']);
            assert(r.delimiter@ =~= seq!['.']);
            assert(r.equal@ =~= seq![' ', '=', ' ']);
        }
        r
    }
}

impl LineGenerator {
    /// The tokens that this generator writes.
    pub closed spec fn tokens(&self) -> Tokens {
        Tokens { root: self.root@, delimiter: self.delimiter@, equal: self.equal@ }
    }

    /// A generator with the root `$`, the delimiter `.` and ` = ` between a
    /// path and its value.
    pub fn new() -> (r: Self)
        ensures
            r.tokens() == default_tokens(),
    {
        Self::default()
    }

    /// Sets what stands for the root.
    pub fn root(&mut self, root: String) -> (r: &mut Self)
        ensures
            *final(self) == *final(r),
            r.tokens() == (Tokens { root: root@, ..old(self).tokens() }),
    {
        self.root = root;
        self
    }

    /// Sets what stands between two steps of a path.
    pub fn delimiter(&mut self, delimiter: String) -> (r: &mut Self)
        ensures
            *final(self) == *final(r),
            r.tokens() == (Tokens { delimiter: delimiter@, ..old(self).tokens() }),
    {
        self.delimiter = delimiter;
        self
    }

    /// Sets what stands between a path and its value.
    pub fn equal(&mut self, equal: String) -> (r: &mut Self)
        ensures
            *final(self) == *final(r),
            r.tokens() == (Tokens { equal: equal@, ..old(self).tokens() }),
    {
        self.equal = equal;
        self
    }
}

impl Generator for LineGenerator {
    /// The lines of `t` from the root.
    open spec fn text(&self, t: Tree) -> Seq<char> {
        lines(t, self.tokens().root, self.tokens())
    }

    fn generate(&self, value: &Value) -> (s: String) {
        let root = chars_of(self.root.as_str());
        let delimiter = chars_of(self.delimiter.as_str());
        let equal = chars_of(self.equal.as_str());
        let mut buf: Vec<char> = Vec::new();
        write_lines(&mut buf, value, &root, &delimiter, &equal, Ghost(root@));
        assert(buf@ =~= self.text(value@));
        string_of(&buf)
    }
}

} // verus!
