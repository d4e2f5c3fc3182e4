//! The JSON text of a value: one algorithm for the compact and the indented
//! form, which differ only in the white space between tokens.
use vstd::prelude::*;
use crate::text::{append, chars_of, int_text, push_int, repeat};
use crate::{lemma_members_of, lemma_trees_of, members_of, trees_of};
use crate::{Float, FloatView, Member, Tree, Value};

verus! {

/// How the tokens of a document are laid out.
pub enum Layout {
    /// No white space between tokens.
    Compact,
    /// One element per line, each level `width` spaces deeper than the one
    /// around it.
    Indented { width: nat },
}

/// The lower-case hexadecimal digit of `d`, for `d` below sixteen.
pub open spec fn hex_char(d: int) -> char {
    if d < 10 {
        crate::text::digit_char(d)
    } else if d == 10 {
        'a'
    } else if d == 11 {
        'b'
    } else if d == 12 {
        'c'
    } else if d == 13 {
        'd'
    } else if d == 14 {
        'e'
    } else {
        'f'
    }
}

/// What stands for the character `c` inside a string literal.
///
/// The quote, the backslash and the control characters are escaped; every
/// other character stands for itself.
pub open spec fn escape(c: char) -> Seq<char> {
    if c == '"' {
        seq!['\\', '"']
    } else if c == '\\' {
        seq!['\\', '\\']
    } else if c == '\u{8}' {
        seq!['\\', 'b']
    } else if c == '\u{c}' {
        seq!['\\', 'f']
    } else if c == '\n' {
        seq!['\\', 'n']
    } else if c == '\r' {
        seq!['\\', 'r']
    } else if c == '\t' {
        seq!['\\', 't']
    } else if (c as int) < 0x20 {
        seq!['\\', 'u', '0', '0', hex_char(c as int / 16), hex_char(c as int % 16)]
    } else {
        seq![c]
    }
}

/// The characters of `s`, each one escaped.
pub open spec fn escaped(s: Seq<char>) -> Seq<char>
    decreases s.len(),
{
    if s.len() == 0 {
        Seq::empty()
    } else {
        escaped(s.drop_last()) + escape(s.last())
    }
}

/// The string literal that denotes `s`.
pub open spec fn quoted(s: Seq<char>) -> Seq<char> {
    seq!['"'] + escaped(s) + seq!['"']
}

/// The text of a float: the literal itself where it is finite.
pub open spec fn float_text(f: FloatView) -> Seq<char> {
    match f {
        FloatView::Nan => seq!['N', 'a', 'N'],
        FloatView::Infinity => seq!['I', 'n', 'f', 'i', 'n', 'i', 't', 'y'],
        FloatView::NegInfinity => seq!['-', 'I', 'n', 'f', 'i', 'n', 'i', 't', 'y'],
        FloatView::Finite(t) => t,
    }
}

/// The line break and the indentation before an element at `depth`.
pub open spec fn line_break(layout: Layout, depth: nat) -> Seq<char> {
    match layout {
        Layout::Compact => Seq::empty(),
        Layout::Indented { width } => seq!['\n'] + repeat(' ', width * depth),
    }
}

/// What separates a key from its value.
pub open spec fn colon(layout: Layout) -> Seq<char> {
    match layout {
        Layout::Compact => seq![':'],
        Layout::Indented { width } => seq![':', ' '],
    }
}

/// The text of `t`, where `t` stands `depth` levels deep.
///
/// An empty array is `[]` and an empty object `{}` in either layout. A date
/// or time is written as the string of its text.
pub open spec fn json_text(t: Tree, layout: Layout, depth: nat) -> Seq<char>
    decreases t, 0nat,
{
    match t {
        Tree::Null => seq!['n', 'u', 'l', 'l'],
        Tree::Boolean(b) => if b {
            seq!['t', 'r', 'u', 'e']
        } else {
            seq!['f', 'a', 'l', 's', 'e']
        },
        Tree::Int(i) => int_text(i),
        Tree::Float(f) => float_text(f),
        Tree::String(s) => quoted(s),
        Tree::DateTime(d) => quoted(d.text()),
        Tree::Array(ts) => if ts.len() == 0 {
            seq!['[', ']']
        } else {
            seq!['['] + line_break(layout, depth + 1) + items_text(
                ts,
                ts.len(),
                layout,
                depth + 1,
            ) + line_break(layout, depth) + seq![']']
        },
        Tree::Object(ms) => if ms.len() == 0 {
            seq!['{', '}']
        } else {
            seq!['{'] + line_break(layout, depth + 1) + members_text(
                ms,
                ms.len(),
                layout,
                depth + 1,
            ) + line_break(layout, depth) + seq!['}']
        },
    }
}

/// The first `n` elements of an array, with a comma and a line break
/// between two of them.
pub open spec fn items_text(ts: Seq<Tree>, n: nat, layout: Layout, depth: nat) -> Seq<char>
    decreases ts, n,
{
    if n == 0 || n > ts.len() {
        Seq::empty()
    } else if n == 1 {
        json_text(ts[0], layout, depth)
    } else {
        items_text(ts, (n - 1) as nat, layout, depth) + seq![','] + line_break(layout, depth)
            + json_text(ts[n - 1], layout, depth)
    }
}

/// One member of an object: the key, the colon, the value.
pub open spec fn member_text(m: (Seq<char>, Tree), layout: Layout, depth: nat) -> Seq<char>
    decreases m, 0nat,
{
    quoted(m.0) + colon(layout) + json_text(m.1, layout, depth)
}

/// The first `n` members of an object, with a comma and a line break
/// between two of them.
pub open spec fn members_text(
    ms: Seq<(Seq<char>, Tree)>,
    n: nat,
    layout: Layout,
    depth: nat,
) -> Seq<char>
    decreases ms, n,
{
    if n == 0 || n > ms.len() {
        Seq::empty()
    } else if n == 1 {
        member_text(ms[0], layout, depth)
    } else {
        members_text(ms, (n - 1) as nat, layout, depth) + seq![','] + line_break(layout, depth)
            + member_text(ms[n - 1], layout, depth)
    }
}

/// The lower-case hexadecimal digit of `d`.
fn hex_of(d: u8) -> (c: char)
    requires
        d < 16,
    ensures
        c == hex_char(d as int),
{
    if d < 10 {
        crate::text::digit_of(d)
    } else {
        (87u8 + d) as char
    }
}

/// Appends what stands for `c` inside a string literal.
pub fn push_escaped(buf: &mut Vec<char>, c: char)
    ensures
        final(buf)@ == old(buf)@ + escape(c),
{
    if c == '"' {
        buf.push('\\');
        buf.push('"');
    } else if c == '\\' {
        buf.push('\\');
        buf.push('\\');
    } else if c == '\u{8}' {
        buf.push('\\');
        buf.push('b');
    } else if c == '\u{c}' {
        buf.push('\\');
        buf.push('f');
    } else if c == '\n' {
        buf.push('\\');
        buf.push('n');
    } else if c == '\r' {
        buf.push('\\');
        buf.push('r');
    } else if c == '\t' {
        buf.push('\\');
        buf.push('t');
    } else if (c as u32) < 0x20 {
        let code: u8 = c as u8;
        buf.push('\\');
        buf.push('u');
        buf.push('0');
        buf.push('0');
        buf.push(hex_of(code / 16));
        buf.push(hex_of(code % 16));
    } else {
        buf.push(c);
    }
    assert(buf@ =~= old(buf)@ + escape(c));
}

/// Appends the string literal that denotes the characters `s`.
pub fn push_quoted(buf: &mut Vec<char>, s: &Vec<char>)
    ensures
        final(buf)@ == old(buf)@ + quoted(s@),
{
    buf.push('"');
    let mut i: usize = 0;
    while i < s.len()
        invariant
            i <= s.len(),
            buf@ == old(buf)@ + seq!['"'] + escaped(s@.take(i as int)),
        decreases s.len() - i,
    {
        push_escaped(buf, s[i]);
        assert(s@.take(i + 1).drop_last() =~= s@.take(i as int));
        assert(buf@ =~= old(buf)@ + seq!['"'] + escaped(s@.take(i + 1)));
        i += 1;
    }
    assert(s@.take(s@.len() as int) =~= s@);
    buf.push('"');
    assert(buf@ =~= old(buf)@ + quoted(s@));
}

/// Appends the string literal that denotes `s`.
pub fn string(buf: &mut Vec<char>, s: &str)
    ensures
        final(buf)@ == old(buf)@ + quoted(s@),
{
    let cs = chars_of(s);
    push_quoted(buf, &cs);
}

/// Appends the text of a float.
pub fn push_float(buf: &mut Vec<char>, f: &Float)
    ensures
        final(buf)@ == old(buf)@ + float_text(f@),
{
    match f {
        Float::Nan => {
            buf.push('N');
            buf.push('a');
            buf.push('N');
            assert(buf@ =~= old(buf)@ + float_text(f@));
        },
        Float::Infinity => {
            push_infinity(buf);
        },
        Float::NegInfinity => {
            buf.push('-');
            push_infinity(buf);
            assert(buf@ =~= old(buf)@ + float_text(f@));
        },
        Float::Finite(t) => {
            crate::text::append_str(buf, t.as_str());
        },
    }
}

fn push_infinity(buf: &mut Vec<char>)
    ensures
        final(buf)@ == old(buf)@ + seq!['I', 'n', 'f', 'i', 'n', 'i', 't', 'y'],
{
    buf.push('I');
    buf.push('n');
    buf.push('f');
    buf.push('i');
    buf.push('n');
    buf.push('i');
    buf.push('t');
    buf.push('y');
    assert(buf@ =~= old(buf)@ + seq!['I', 'n', 'f', 'i', 'n', 'i', 't', 'y']);
}

/// The layout that the flag and the width of one level stand for.
pub open spec fn layout_of(pretty: bool, width: nat) -> Layout {
    if pretty {
        Layout::Indented { width }
    } else {
        Layout::Compact
    }
}

proof fn lemma_repeat_more(c: char, width: nat, depth: nat)
    ensures
        repeat(c, width * depth) + repeat(c, width) == repeat(c, width * (depth + 1)),
{
    assert(width * (depth + 1) == width * depth + width) by (nonlinear_arith);
    assert(repeat(c, width * depth) + repeat(c, width) =~= repeat(c, width * (depth + 1)));
}

/// Appends the line break and the indentation `pad`, in the indented layout.
fn push_break(buf: &mut Vec<char>, pretty: bool, pad: &Vec<char>, Ghost(width): Ghost<nat>, Ghost(depth): Ghost<nat>)
    requires
        pad@ == repeat(' ', width * depth),
    ensures
        final(buf)@ == old(buf)@ + line_break(layout_of(pretty, width), depth),
{
    if pretty {
        buf.push('\n');
        append(buf, pad);
        assert(buf@ =~= old(buf)@ + line_break(layout_of(pretty, width), depth));
    } else {
        assert(buf@ =~= old(buf)@ + line_break(layout_of(pretty, width), depth));
    }
}

/// Appends the text of `value`, which stands `depth` levels deep.
///
/// `unit` is the indentation of one level and `pad` that of `depth` levels.
pub fn write_value(
    buf: &mut Vec<char>,
    value: &Value,
    pretty: bool,
    unit: &Vec<char>,
    pad: &mut Vec<char>,
    Ghost(depth): Ghost<nat>,
)
    requires
        unit@ == repeat(' ', unit@.len()),
        old(pad)@ == repeat(' ', unit@.len() * depth),
    ensures
        final(buf)@ == old(buf)@ + json_text(value@, layout_of(pretty, unit@.len()), depth),
        final(pad)@ == old(pad)@,
    decreases value,
{
    let ghost width = unit@.len();
    let ghost layout = layout_of(pretty, width);
    match value {
        Value::Null => {
            buf.push('n');
            buf.push('u');
            buf.push('l');
            buf.push('l');
            assert(buf@ =~= old(buf)@ + json_text(value@, layout, depth));
        },
        Value::Boolean(b) => {
            if *b {
                buf.push('t');
                buf.push('r');
                buf.push('u');
                buf.push('e');
            } else {
                buf.push('f');
                buf.push('a');
                buf.push('l');
                buf.push('s');
                buf.push('e');
            }
            assert(buf@ =~= old(buf)@ + json_text(value@, layout, depth));
        },
        Value::Int(i) => {
            push_int(buf, *i);
        },
        Value::Float(f) => {
            push_float(buf, f);
        },
        Value::String(s) => {
            string(buf, s.as_str());
        },
        Value::DateTime(d) => {
            let mut text: Vec<char> = Vec::new();
            d.write(&mut text);
            assert(text@ =~= d@.text());
            push_quoted(buf, &text);
        },
        Value::Array(vs) => {
            if vs.len() == 0 {
                buf.push('[');
                buf.push(']');
                assert(buf@ =~= old(buf)@ + json_text(value@, layout, depth));
            } else {
                buf.push('[');
                let base = pad.len();
                append(pad, unit);
                proof {
                    lemma_repeat_more(' ', width, depth);
                }
                push_break(buf, pretty, pad, Ghost(width), Ghost(depth + 1));
                write_items(buf, vs, pretty, unit, pad, Ghost(depth + 1));
                pad.truncate(base);
                assert(pad@ =~= old(pad)@);
                push_break(buf, pretty, pad, Ghost(width), Ghost(depth));
                buf.push(']');
                assert(buf@ =~= old(buf)@ + json_text(value@, layout, depth)) by {
                    let ts = trees_of(vs@, vs@.len());
                    lemma_trees_of(vs@, vs@.len());
                    assert(value@ == Tree::Array(ts));
                    assert(buf@ =~= old(buf)@ + (seq!['['] + line_break(layout, depth + 1)
                        + items_text(ts, ts.len(), layout, depth + 1) + line_break(layout, depth)
                        + seq![']']));
                }
            }
        },
        Value::Object(ms) => {
            if ms.len() == 0 {
                buf.push('{');
                buf.push('}');
                assert(buf@ =~= old(buf)@ + json_text(value@, layout, depth));
            } else {
                buf.push('{');
                let base = pad.len();
                append(pad, unit);
                proof {
                    lemma_repeat_more(' ', width, depth);
                }
                push_break(buf, pretty, pad, Ghost(width), Ghost(depth + 1));
                write_members(buf, ms, pretty, unit, pad, Ghost(depth + 1));
                pad.truncate(base);
                assert(pad@ =~= old(pad)@);
                push_break(buf, pretty, pad, Ghost(width), Ghost(depth));
                buf.push('}');
                assert(buf@ =~= old(buf)@ + json_text(value@, layout, depth)) by {
                    let ts = members_of(ms@, ms@.len());
                    lemma_members_of(ms@, ms@.len());
                    assert(value@ == Tree::Object(ts));
                    assert(buf@ =~= old(buf)@ + (seq!['{'] + line_break(layout, depth + 1)
                        + members_text(ts, ts.len(), layout, depth + 1) + line_break(
                        layout,
                        depth,
                    ) + seq!['}']));
                }
            }
        },
    }
}

/// Appends the elements of an array, a comma and a line break between two
/// of them.
fn write_items(
    buf: &mut Vec<char>,
    vs: &Vec<Value>,
    pretty: bool,
    unit: &Vec<char>,
    pad: &mut Vec<char>,
    Ghost(depth): Ghost<nat>,
)
    requires
        unit@ == repeat(' ', unit@.len()),
        old(pad)@ == repeat(' ', unit@.len() * depth),
    ensures
        final(buf)@ == old(buf)@ + items_text(
            trees_of(vs@, vs@.len()),
            vs@.len(),
            layout_of(pretty, unit@.len()),
            depth,
        ),
        final(pad)@ == old(pad)@,
    decreases vs,
{
    let ghost width = unit@.len();
    let ghost layout = layout_of(pretty, width);
    let ghost ts = trees_of(vs@, vs@.len());
    proof {
        lemma_trees_of(vs@, vs@.len());
    }
    assert(buf@ =~= old(buf)@ + items_text(ts, 0, layout, depth));
    let mut i: usize = 0;
    while i < vs.len()
        invariant
            i <= vs.len(),
            ts.len() == vs.len(),
            forall|j: int| 0 <= j < vs.len() ==> ts[j] == (#[trigger] vs@[j])@,
            width == unit@.len(),
            layout == layout_of(pretty, width),
            unit@ == repeat(' ', unit@.len()),
            pad@ == old(pad)@,
            pad@ == repeat(' ', width * depth),
            buf@ == old(buf)@ + items_text(ts, i as nat, layout, depth),
        decreases vs.len() - i,
    {
        let ghost before = buf@;
        if i > 0 {
            buf.push(',');
            push_break(buf, pretty, pad, Ghost(width), Ghost(depth));
        }
        write_value(buf, &vs[i], pretty, unit, pad, Ghost(depth));
        assert(buf@ =~= old(buf)@ + items_text(ts, (i + 1) as nat, layout, depth)) by {
            let item = json_text(ts[i as int], layout, depth);
            assert(ts[i as int] == vs@[i as int]@);
            if i > 0 {
                assert(buf@ =~= before + seq![','] + line_break(layout, depth) + item);
            } else {
                assert(before =~= old(buf)@);
                assert(buf@ =~= before + item);
            }
        }
        i += 1;
    }
}

/// Appends the members of an object, a comma and a line break between two
/// of them.
fn write_members(
    buf: &mut Vec<char>,
    ms: &Vec<Member>,
    pretty: bool,
    unit: &Vec<char>,
    pad: &mut Vec<char>,
    Ghost(depth): Ghost<nat>,
)
    requires
        unit@ == repeat(' ', unit@.len()),
        old(pad)@ == repeat(' ', unit@.len() * depth),
    ensures
        final(buf)@ == old(buf)@ + members_text(
            members_of(ms@, ms@.len()),
            ms@.len(),
            layout_of(pretty, unit@.len()),
            depth,
        ),
        final(pad)@ == old(pad)@,
    decreases ms,
{
    let ghost width = unit@.len();
    let ghost layout = layout_of(pretty, width);
    let ghost ts = members_of(ms@, ms@.len());
    proof {
        lemma_members_of(ms@, ms@.len());
    }
    assert(buf@ =~= old(buf)@ + members_text(ts, 0, layout, depth));
    let mut i: usize = 0;
    while i < ms.len()
        invariant
            i <= ms.len(),
            ts.len() == ms.len(),
            forall|j: int|
                0 <= j < ms.len() ==> ts[j] == ((#[trigger] ms@[j]).key@, ms@[j].value@),
            width == unit@.len(),
            layout == layout_of(pretty, width),
            unit@ == repeat(' ', unit@.len()),
            pad@ == old(pad)@,
            pad@ == repeat(' ', width * depth),
            buf@ == old(buf)@ + members_text(ts, i as nat, layout, depth),
        decreases ms.len() - i,
    {
        let ghost before = buf@;
        if i > 0 {
            buf.push(',');
            push_break(buf, pretty, pad, Ghost(width), Ghost(depth));
        }
        let ghost mid = buf@;
        string(buf, ms[i].key.as_str());
        buf.push(':');
        if pretty {
            buf.push(' ');
        }
        assert(buf@ =~= mid + quoted(ms@[i as int].key@) + colon(layout));
        let ghost head = buf@;
        assert(decreases_to!(ms@[i as int] => ms@[i as int].value));
        write_value(buf, &ms[i].value, pretty, unit, pad, Ghost(depth));
        assert(buf@ =~= old(buf)@ + members_text(ts, (i + 1) as nat, layout, depth)) by {
            let item = member_text(ts[i as int], layout, depth);
            assert(ts[i as int] == (ms@[i as int].key@, ms@[i as int].value@));
            assert(buf@ =~= mid + item);
            if i > 0 {
                assert(mid =~= before + seq![','] + line_break(layout, depth));
            } else {
                assert(before =~= old(buf)@);
            }
        }
        i += 1;
    }
}

} // verus!
