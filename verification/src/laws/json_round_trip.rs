//! The text that a JSON generator wrote reads back as the value, in
//! either dialect.
use vstd::prelude::*;
use crate::laws::keys::lemma_find_new_key;
use crate::error::ParseError;
use crate::generator::json::{
    colon, items_text, json_text, line_break, member_text, members_text, quoted, Layout,
};
use crate::generator::{Generator, MinJsonGenerator, PrettyJsonGenerator};
use crate::laws::numbers::{
    ends_number, is_float_literal, lemma_float_head, lemma_float_round_trip, lemma_int_round_trip,
    lemma_special_round_trip, special_text,
};
use crate::laws::strings::lemma_quoted_round_trip;
use crate::laws::words::lemma_word_head;
use crate::laws::words::{
    lemma_blank_run, lemma_decimal_digits, lemma_word_chars, lemma_word_self, lemma_word_split,
};
use crate::parser::grammar::{
    blank, has_word, holds, items, key, members, number, onward, parse_text, put, value, Dialect,
    Skip, Step,
};
use crate::parser::{Json5Parser, JsonParser, Parser};
use crate::text::is_digit;
use crate::{distinct_keys, FloatView, Tree};

verus! {

/// Whether the dialect reads back what the JSON generators write for `t`:
/// an integer is in the range of `Int`, the text of a finite float is the
/// literal of a float, a float that is not finite goes to the extended
/// dialect only, there is no date or time, and no object holds a key
/// twice.
pub open spec fn json_plain(t: Tree, d: Dialect) -> bool
    decreases t,
{
    match t {
        Tree::Null => true,
        Tree::Boolean(_) => true,
        Tree::String(_) => true,
        Tree::Int(i) => i128::MIN <= i <= i128::MAX,
        Tree::Float(f) => match f {
            FloatView::Finite(x) => is_float_literal(x),
            _ => d is Json5,
        },
        Tree::DateTime(_) => false,
        Tree::Array(ts) => forall|i: int| 0 <= i < ts.len() ==> json_plain(#[trigger] ts[i], d),
        Tree::Object(ms) => distinct_keys(ms) && forall|i: int|
            0 <= i < ms.len() ==> json_plain((#[trigger] ms[i]).1, d),
    }
}

/// Whether a value can start with `c`.
pub open spec fn is_head(c: char) -> bool {
    c == 'n' || c == 't' || c == 'f' || c == '-' || is_digit(c) || c == '"' || c == '[' || c
        == '{' || c == 'I' || c == 'N'
}

/// The text of a value starts with a character that starts a value.
pub proof fn lemma_json_head(t: Tree, layout: Layout, depth: nat, d: Dialect)
    requires
        json_plain(t, d),
    ensures
        json_text(t, layout, depth).len() > 0,
        is_head(json_text(t, layout, depth)[0]),
{
    match t {
        Tree::Int(i) => {
            if i < 0 {
                lemma_decimal_digits((-i) as nat);
            } else {
                lemma_decimal_digits(i as nat);
            }
        },
        Tree::Float(f) => {
            if f is Finite {
                lemma_float_head(f->Finite_0);
            }
        },
        _ => {},
    }
}

/// Where the element `k` of an array starts in the text of its elements.
pub open spec fn item_offset(ts: Seq<Tree>, k: nat, layout: Layout, depth: nat) -> int {
    if k == 0 {
        0
    } else {
        (items_text(ts, k, layout, depth).len() + 1 + line_break(layout, depth).len()) as int
    }
}

/// Where the member `k` of an object starts in the text of its members.
pub open spec fn member_offset(
    ms: Seq<(Seq<char>, Tree)>,
    k: nat,
    layout: Layout,
    depth: nat,
) -> int {
    if k == 0 {
        0
    } else {
        (members_text(ms, k, layout, depth).len() + 1 + line_break(layout, depth).len()) as int
    }
}

/// The text of the first `k` elements stands where the text of more
/// stands.
pub proof fn lemma_items_prefix(
    s: Seq<char>,
    base: int,
    ts: Seq<Tree>,
    k: nat,
    n: nat,
    layout: Layout,
    depth: nat,
)
    requires
        1 <= k <= n <= ts.len(),
        has_word(s, base, items_text(ts, n, layout, depth)),
    ensures
        has_word(s, base, items_text(ts, k, layout, depth)),
    decreases n - k,
{
    if k < n {
        let front = items_text(ts, (n - 1) as nat, layout, depth);
        let back = seq![','] + line_break(layout, depth) + json_text(ts[n - 1], layout, depth);
        assert(items_text(ts, n, layout, depth) =~= front + back);
        lemma_word_split(s, base, front, back);
        lemma_items_prefix(s, base, ts, k, (n - 1) as nat, layout, depth);
    }
}

/// The text of the first `k` members stands where the text of more
/// stands.
pub proof fn lemma_members_prefix(
    s: Seq<char>,
    base: int,
    ms: Seq<(Seq<char>, Tree)>,
    k: nat,
    n: nat,
    layout: Layout,
    depth: nat,
)
    requires
        1 <= k <= n <= ms.len(),
        has_word(s, base, members_text(ms, n, layout, depth)),
    ensures
        has_word(s, base, members_text(ms, k, layout, depth)),
    decreases n - k,
{
    if k < n {
        let front = members_text(ms, (n - 1) as nat, layout, depth);
        let back = seq![','] + line_break(layout, depth) + member_text(ms[n - 1], layout, depth);
        assert(members_text(ms, n, layout, depth) =~= front + back);
        lemma_word_split(s, base, front, back);
        lemma_members_prefix(s, base, ms, k, (n - 1) as nat, layout, depth);
    }
}

/// The element `k` stands at its offset; before it, unless it is the
/// first, a comma and a line break.
pub proof fn lemma_item_place(
    s: Seq<char>,
    base: int,
    ts: Seq<Tree>,
    k: nat,
    layout: Layout,
    depth: nat,
)
    requires
        k < ts.len(),
        has_word(s, base, items_text(ts, k + 1, layout, depth)),
    ensures
        has_word(s, base + item_offset(ts, k, layout, depth), json_text(ts[k as int], layout, depth)),
        items_text(ts, k + 1, layout, depth).len() == item_offset(ts, k, layout, depth)
            + json_text(ts[k as int], layout, depth).len(),
        k > 0 ==> holds(s, base + items_text(ts, k, layout, depth).len(), ',') && has_word(
            s,
            base + items_text(ts, k, layout, depth).len() + 1,
            line_break(layout, depth),
        ),
{
    let item = json_text(ts[k as int], layout, depth);
    if k > 0 {
        let front = items_text(ts, k, layout, depth);
        let sep = seq![','] + line_break(layout, depth);
        assert(items_text(ts, k + 1, layout, depth) =~= front + (sep + item));
        lemma_word_split(s, base, front, sep + item);
        lemma_word_split(s, base + front.len(), sep, item);
        lemma_word_split(s, base + front.len(), seq![','], line_break(layout, depth));
        lemma_word_chars(s, base + front.len(), seq![',']);
        assert(s[base + front.len() + 0] == seq![','][0]);
    }
}

/// The member `k` stands at its offset; before it, unless it is the
/// first, a comma and a line break.
pub proof fn lemma_member_place(
    s: Seq<char>,
    base: int,
    ms: Seq<(Seq<char>, Tree)>,
    k: nat,
    layout: Layout,
    depth: nat,
)
    requires
        k < ms.len(),
        has_word(s, base, members_text(ms, k + 1, layout, depth)),
    ensures
        has_word(
            s,
            base + member_offset(ms, k, layout, depth),
            member_text(ms[k as int], layout, depth),
        ),
        members_text(ms, k + 1, layout, depth).len() == member_offset(ms, k, layout, depth)
            + member_text(ms[k as int], layout, depth).len(),
        k > 0 ==> holds(s, base + members_text(ms, k, layout, depth).len(), ',') && has_word(
            s,
            base + members_text(ms, k, layout, depth).len() + 1,
            line_break(layout, depth),
        ),
{
    let item = member_text(ms[k as int], layout, depth);
    if k > 0 {
        let front = members_text(ms, k, layout, depth);
        let sep = seq![','] + line_break(layout, depth);
        assert(members_text(ms, k + 1, layout, depth) =~= front + (sep + item));
        lemma_word_split(s, base, front, sep + item);
        lemma_word_split(s, base + front.len(), sep, item);
        lemma_word_split(s, base + front.len(), seq![','], line_break(layout, depth));
        lemma_word_chars(s, base + front.len(), seq![',']);
        assert(s[base + front.len() + 0] == seq![','][0]);
    }
}

/// A keyword that stands at `p` starts with the character at `p`.
pub proof fn lemma_keyword_heads(s: Seq<char>, p: int)
    ensures
        has_word(s, p, seq!['t', 'r', 'u', 'e']) ==> 0 <= p < s.len() && s[p] == 't',
        has_word(s, p, seq!['f', 'a', 'l', 's', 'e']) ==> 0 <= p < s.len() && s[p] == 'f',
        has_word(s, p, seq!['n', 'u', 'l', 'l']) ==> 0 <= p < s.len() && s[p] == 'n',
{
    if has_word(s, p, seq!['t', 'r', 'u', 'e']) {
        lemma_word_head(s, p, seq!['t', 'r', 'u', 'e']);
    }
    if has_word(s, p, seq!['f', 'a', 'l', 's', 'e']) {
        lemma_word_head(s, p, seq!['f', 'a', 'l', 's', 'e']);
    }
    if has_word(s, p, seq!['n', 'u', 'l', 'l']) {
        lemma_word_head(s, p, seq!['n', 'u', 'l', 'l']);
    }
}

/// Where the text of a plain value stands, and what follows may stand
/// behind a number, the dialect reads the value and ends behind the text.
pub proof fn lemma_value_round_trip(s: Seq<char>, p: int, t: Tree, layout: Layout, depth: nat, d: Dialect)
    requires
        json_plain(t, d),
        has_word(s, p, json_text(t, layout, depth)),
        ends_number(s, p + json_text(t, layout, depth).len()),
    ensures
        value(s, p, d) == Step::Done(t, p + json_text(t, layout, depth).len()),
    decreases t, 0nat,
{
    let text = json_text(t, layout, depth);
    lemma_json_head(t, layout, depth, d);
    lemma_word_chars(s, p, text);
    assert(s[p + 0] == text[0]);
    lemma_keyword_heads(s, p);
    match t {
        Tree::Null => {},
        Tree::Boolean(b) => {},
        Tree::Int(i) => {
            lemma_int_round_trip(s, p, i, d);
        },
        Tree::Float(f) => {
            if f is Finite {
                lemma_float_round_trip(s, p, f->Finite_0, d);
            } else {
                assert(text == special_text(f));
                lemma_special_round_trip(s, p, f);
            }
        },
        Tree::String(cs) => {
            lemma_quoted_round_trip(s, p, cs, d);
        },
        Tree::DateTime(_) => {},
        Tree::Array(ts) => {
            if ts.len() == 0 {
                assert(s[p + 1] == text[1]);
                assert(ts =~= Seq::<Tree>::empty());
            } else {
                lemma_array_round_trip(s, p, ts, layout, depth, d);
            }
        },
        Tree::Object(ms) => {
            if ms.len() == 0 {
                assert(s[p + 1] == text[1]);
                assert(ms =~= Seq::<(Seq<char>, Tree)>::empty());
            } else {
                lemma_object_round_trip(s, p, ms, layout, depth, d);
            }
        },
    }
}

/// The value lemma for an array that is not empty.
pub proof fn lemma_array_round_trip(
    s: Seq<char>,
    p: int,
    ts: Seq<Tree>,
    layout: Layout,
    depth: nat,
    d: Dialect,
)
    requires
        ts.len() > 0,
        json_plain(Tree::Array(ts), d),
        has_word(s, p, json_text(Tree::Array(ts), layout, depth)),
    ensures
        value(s, p, d) == Step::Done(
            Tree::Array(ts),
            p + json_text(Tree::Array(ts), layout, depth).len(),
        ),
    decreases ts, ts.len() + 1,
{
    let json = d;
    let text = json_text(Tree::Array(ts), layout, depth);
    let n = ts.len();
    let open = seq!['['] + line_break(layout, depth + 1);
    let body = items_text(ts, n, layout, depth + 1);
    let close = line_break(layout, depth) + seq![']'];
    assert(text =~= open + (body + close));
    lemma_word_split(s, p, open, body + close);
    lemma_word_split(s, p + open.len(), body, close);
    lemma_word_split(s, p, seq!['['], line_break(layout, depth + 1));
    lemma_word_chars(s, p, seq!['[']);
    assert(s[p + 0] == seq!['['][0]);
    let base = p + open.len();
    lemma_items_prefix(s, base, ts, 1, n, layout, depth + 1);
    lemma_item_place(s, base, ts, 0, layout, depth + 1);
    lemma_json_head(ts[0], layout, depth + 1, d);
    lemma_word_chars(s, base, json_text(ts[0], layout, depth + 1));
    assert(s[base + 0] == json_text(ts[0], layout, depth + 1)[0]);
    lemma_blank_run(s, p + 1, line_break(layout, depth + 1), d);
    assert(onward(s, p + 1, blank(s, p + 1, json, Skip::Outside)) == Step::Done((), base));
    assert(ts.take(0) =~= Seq::<Tree>::empty());
    lemma_items_round_trip(s, base, ts, 0, layout, depth + 1, depth, d);
    assert(value(s, p, json) == items(s, base, json, Seq::empty()));
}

/// The value lemma for an object that is not empty.
pub proof fn lemma_object_round_trip(
    s: Seq<char>,
    p: int,
    ms: Seq<(Seq<char>, Tree)>,
    layout: Layout,
    depth: nat,
    d: Dialect,
)
    requires
        ms.len() > 0,
        json_plain(Tree::Object(ms), d),
        has_word(s, p, json_text(Tree::Object(ms), layout, depth)),
    ensures
        value(s, p, d) == Step::Done(
            Tree::Object(ms),
            p + json_text(Tree::Object(ms), layout, depth).len(),
        ),
    decreases ms, ms.len() + 1,
{
    let json = d;
    let text = json_text(Tree::Object(ms), layout, depth);
    let n = ms.len();
    let open = seq!['{'] + line_break(layout, depth + 1);
    let body = members_text(ms, n, layout, depth + 1);
    let close = line_break(layout, depth) + seq!['}'];
    assert(text =~= open + (body + close));
    lemma_word_split(s, p, open, body + close);
    lemma_word_split(s, p + open.len(), body, close);
    lemma_word_split(s, p, seq!['{'], line_break(layout, depth + 1));
    lemma_word_chars(s, p, seq!['{']);
    assert(s[p + 0] == seq!['{'][0]);
    let base = p + open.len();
    lemma_members_prefix(s, base, ms, 1, n, layout, depth + 1);
    lemma_member_place(s, base, ms, 0, layout, depth + 1);
    let first = member_text(ms[0], layout, depth + 1);
    lemma_word_chars(s, base, first);
    assert(first[0] == '"');
    assert(s[base + 0] == first[0]);
    lemma_blank_run(s, p + 1, line_break(layout, depth + 1), d);
    assert(onward(s, p + 1, blank(s, p + 1, json, Skip::Outside)) == Step::Done((), base));
    assert(ms.take(0) =~= Seq::<(Seq<char>, Tree)>::empty());
    lemma_members_round_trip(s, base, ms, 0, layout, depth + 1, depth, d);
    assert(value(s, p, json) == members(s, base, json, Seq::empty()));
}

/// One turn of the rule for the elements of an array, where each part is
/// known: the value, and what follows.
pub proof fn lemma_items_step(
    s: Seq<char>,
    p: int,
    d: Dialect,
    acc: Seq<Tree>,
    v: Tree,
    e: int,
    r: int,
)
    requires
        0 <= p <= e <= r <= s.len(),
        value(s, p, d) == Step::Done(v, e),
        blank(s, e, d, Skip::Outside) == Step::Done((), r),
    ensures
        holds(s, r, ']') ==> items(s, p, d, acc) == Step::Done(Tree::Array(acc.push(v)), r + 1),
        forall|n: int|
            holds(s, r, ',') && r < n <= s.len() && #[trigger] blank(s, r + 1, d, Skip::Outside)
                == Step::Done((), n) && !holds(s, n, ']') ==> items(s, p, d, acc) == items(
                s,
                n,
                d,
                acc.push(v),
            ),
{
}

/// Where the text of the elements of an array stands, and behind it the
/// line break and the bracket that close the array, the dialect reads the
/// elements from the element `k` on and gives the array.
pub proof fn lemma_items_round_trip(
    s: Seq<char>,
    base: int,
    ts: Seq<Tree>,
    k: nat,
    layout: Layout,
    depth: nat,
    outer: nat,
    d: Dialect,
)
    requires
        k < ts.len(),
        forall|i: int| 0 <= i < ts.len() ==> json_plain(#[trigger] ts[i], d),
        has_word(s, base, items_text(ts, ts.len(), layout, depth)),
        has_word(
            s,
            base + items_text(ts, ts.len(), layout, depth).len(),
            line_break(layout, outer) + seq![']'],
        ),
    ensures
        items(s, base + item_offset(ts, k, layout, depth), d, ts.take(k as int))
            == Step::Done(
            Tree::Array(ts),
            base + items_text(ts, ts.len(), layout, depth).len() + line_break(layout, outer).len()
                + 1,
        ),
    decreases ts, ts.len() - k,
{
    let json = d;
    let n = ts.len();
    let body = items_text(ts, n, layout, depth);
    let close = line_break(layout, outer) + seq![']'];
    let start = base + item_offset(ts, k, layout, depth);
    let item = json_text(ts[k as int], layout, depth);
    let acc = ts.take(k as int);
    lemma_items_prefix(s, base, ts, k + 1, n, layout, depth);
    lemma_item_place(s, base, ts, k, layout, depth);
    let q = base + items_text(ts, k + 1, layout, depth).len();
    assert(q == start + item.len());
    lemma_word_split(s, base + body.len(), line_break(layout, outer), seq![']']);
    lemma_word_chars(s, base + body.len(), close);
    assert(s[base + body.len() + line_break(layout, outer).len()] == close[line_break(
        layout,
        outer,
    ).len() as int]);
    if k + 1 < n {
        lemma_items_prefix(s, base, ts, k + 2, n, layout, depth);
        lemma_item_place(s, base, ts, k + 1, layout, depth);
        assert(holds(s, q, ','));
        lemma_value_round_trip(s, start, ts[k as int], layout, depth, d);
        assert(blank(s, q, json, Skip::Outside) == Step::Done((), q));
        let next = base + item_offset(ts, k + 1, layout, depth);
        lemma_json_head(ts[k + 1 as int], layout, depth, d);
        lemma_word_chars(s, next, json_text(ts[k + 1 as int], layout, depth));
        assert(s[next + 0] == json_text(ts[k + 1 as int], layout, depth)[0]);
        lemma_blank_run(s, q + 1, line_break(layout, depth), d);
        assert(blank(s, q + 1, json, Skip::Outside) == Step::Done((), next));
        assert(acc.push(ts[k as int]) =~= ts.take(k + 1 as int));
        lemma_items_round_trip(s, base, ts, k + 1, layout, depth, outer, d);
        lemma_items_step(s, start, d, acc, ts[k as int], q, q);
    } else {
        assert(q == base + body.len());
        assert(s[q + 0] == close[0]);
        assert(ends_number(s, q));
        lemma_value_round_trip(s, start, ts[k as int], layout, depth, d);
        lemma_blank_run(s, q, line_break(layout, outer), d);
        assert(acc.push(ts[k as int]) =~= ts);
        let r = q + line_break(layout, outer).len();
        lemma_items_step(s, start, d, acc, ts[k as int], q, r);
    }
}

/// One turn of the rule for the members of an object, where each part is
/// known: the key, the colon, the value, and what follows.
pub proof fn lemma_members_step(
    s: Seq<char>,
    p: int,
    d: Dialect,
    acc: Seq<(Seq<char>, Tree)>,
    k: Seq<char>,
    v: Tree,
    c: int,
    b: int,
    e: int,
    r: int,
)
    requires
        0 <= p <= c < b <= e <= r <= s.len(),
        key(s, p, d) == Step::Done(k, c),
        blank(s, c, d, Skip::Outside) == Step::Done((), c),
        holds(s, c, ':'),
        blank(s, c + 1, d, Skip::Outside) == Step::Done((), b),
        value(s, b, d) == Step::Done(v, e),
        blank(s, e, d, Skip::Outside) == Step::Done((), r),
    ensures
        holds(s, r, '}') ==> members(s, p, d, acc) == Step::Done(Tree::Object(put(acc, k, v)), r + 1),
        forall|n: int|
            holds(s, r, ',') && r < n <= s.len() && #[trigger] blank(s, r + 1, d, Skip::Outside)
                == Step::Done((), n) && !holds(s, n, '}') ==> members(s, p, d, acc) == members(
                s,
                n,
                d,
                put(acc, k, v),
            ),
{
}

/// Where the text of a member stands, the key is read, then the colon,
/// and the value starts behind the white space after the colon.
pub proof fn lemma_member_head(
    s: Seq<char>,
    start: int,
    m: (Seq<char>, Tree),
    layout: Layout,
    depth: nat,
    d: Dialect,
)
    requires
        json_plain(m.1, d),
        has_word(s, start, member_text(m, layout, depth)),
    ensures
        key(s, start, d) == Step::Done(m.0, start + quoted(m.0).len()),
        holds(s, start + quoted(m.0).len(), ':'),
        blank(s, start + quoted(m.0).len(), d, Skip::Outside) == Step::Done(
            (),
            start + quoted(m.0).len(),
        ),
        blank(s, start + quoted(m.0).len() + 1, d, Skip::Outside) == Step::Done(
            (),
            start + quoted(m.0).len() + colon(layout).len(),
        ),
        has_word(
            s,
            start + quoted(m.0).len() + colon(layout).len(),
            json_text(m.1, layout, depth),
        ),
        member_text(m, layout, depth).len() == quoted(m.0).len() + colon(layout).len() + json_text(
            m.1,
            layout,
            depth,
        ).len(),
{
    let name = m.0;
    let child = m.1;
    let item = member_text(m, layout, depth);
    let value_text = json_text(child, layout, depth);
    assert(item =~= quoted(name) + (colon(layout) + value_text));
    lemma_word_split(s, start, quoted(name), colon(layout) + value_text);
    lemma_word_split(s, start + quoted(name).len(), colon(layout), value_text);
    lemma_quoted_round_trip(s, start, name, d);
    let c = start + quoted(name).len();
    lemma_word_chars(s, c, colon(layout));
    assert(s[c + 0] == colon(layout)[0]);
    let b = c + colon(layout).len();
    lemma_json_head(child, layout, depth, d);
    lemma_word_chars(s, b, value_text);
    assert(s[b + 0] == value_text[0]);
    let gap = colon(layout).subrange(1, colon(layout).len() as int);
    assert(colon(layout) =~= seq![':'] + gap);
    lemma_word_split(s, c, seq![':'], gap);
    lemma_blank_run(s, c + 1, gap, d);
}

/// Where the text of the members of an object stands, and behind it the
/// line break and the brace that close the object, the dialect reads the
/// members from the member `k` on and gives the object.
pub proof fn lemma_members_round_trip(
    s: Seq<char>,
    base: int,
    ms: Seq<(Seq<char>, Tree)>,
    k: nat,
    layout: Layout,
    depth: nat,
    outer: nat,
    d: Dialect,
)
    requires
        k < ms.len(),
        distinct_keys(ms),
        forall|i: int| 0 <= i < ms.len() ==> json_plain((#[trigger] ms[i]).1, d),
        has_word(s, base, members_text(ms, ms.len(), layout, depth)),
        has_word(
            s,
            base + members_text(ms, ms.len(), layout, depth).len(),
            line_break(layout, outer) + seq!['}'],
        ),
    ensures
        members(s, base + member_offset(ms, k, layout, depth), d, ms.take(k as int))
            == Step::Done(
            Tree::Object(ms),
            base + members_text(ms, ms.len(), layout, depth).len() + line_break(
                layout,
                outer,
            ).len() + 1,
        ),
    decreases ms, ms.len() - k,
{
    let json = d;
    let n = ms.len();
    let body = members_text(ms, n, layout, depth);
    let close = line_break(layout, outer) + seq!['}'];
    let start = base + member_offset(ms, k, layout, depth);
    let name = ms[k as int].0;
    let child = ms[k as int].1;
    let item = member_text(ms[k as int], layout, depth);
    let acc = ms.take(k as int);
    lemma_members_prefix(s, base, ms, k + 1, n, layout, depth);
    lemma_member_place(s, base, ms, k, layout, depth);
    let q = base + members_text(ms, k + 1, layout, depth).len();
    assert(q == start + item.len());
    lemma_word_split(s, base + body.len(), line_break(layout, outer), seq!['}']);
    lemma_word_chars(s, base + body.len(), close);
    assert(s[base + body.len() + line_break(layout, outer).len()] == close[line_break(
        layout,
        outer,
    ).len() as int]);
    lemma_member_head(s, start, ms[k as int], layout, depth, d);
    let value_text = json_text(child, layout, depth);
    let c = start + quoted(name).len();
    let b = c + colon(layout).len();
    assert(q == b + value_text.len());
    // the key is new
    assert forall|i: int| 0 <= i < acc.len() implies (#[trigger] acc[i]).0 != name by {
        assert(acc[i] == ms[i]);
    }
    lemma_find_new_key(acc, name, 0);
    assert(put(acc, name, child) == acc.push((name, child)));
    if k + 1 < n {
        lemma_members_prefix(s, base, ms, k + 2, n, layout, depth);
        lemma_member_place(s, base, ms, k + 1, layout, depth);
        assert(holds(s, q, ','));
        lemma_value_round_trip(s, b, child, layout, depth, d);
        assert(blank(s, q, json, Skip::Outside) == Step::Done((), q));
        let next = base + member_offset(ms, k + 1, layout, depth);
        let following = member_text(ms[k + 1 as int], layout, depth);
        lemma_word_chars(s, next, following);
        assert(following[0] == '"');
        assert(s[next + 0] == following[0]);
        lemma_blank_run(s, q + 1, line_break(layout, depth), d);
        assert(blank(s, q + 1, json, Skip::Outside) == Step::Done((), next));
        assert(acc.push((name, child)) =~= ms.take(k + 1 as int));
        lemma_members_round_trip(s, base, ms, k + 1, layout, depth, outer, d);
        lemma_members_step(s, start, d, acc, name, child, c, b, q, q);
    } else {
        assert(q == base + body.len());
        assert(s[q + 0] == close[0]);
        assert(ends_number(s, q));
        lemma_value_round_trip(s, b, child, layout, depth, d);
        lemma_blank_run(s, q, line_break(layout, outer), d);
        assert(acc.push((name, child)) =~= ms);
        let r = q + line_break(layout, outer).len();
        lemma_members_step(s, start, d, acc, name, child, c, b, q, r);
    }
}

/// The text of a plain value, with or without a line feed behind it,
/// reads back in the dialect as the value.
pub proof fn lemma_document_round_trip(t: Tree, layout: Layout, tail: Seq<char>, d: Dialect)
    requires
        json_plain(t, d),
        tail.len() == 0 || tail == seq!['\n'],
    ensures
        parse_text(json_text(t, layout, 0) + tail, d) == Ok::<Tree, ParseError>(t),
{
    let body = json_text(t, layout, 0);
    let s = body + tail;
    lemma_word_self(s);
    lemma_word_split(s, 0, body, tail);
    lemma_json_head(t, layout, 0, d);
    assert(s[0] == body[0]);
    if tail.len() > 0 {
        assert(s[body.len() as int] == tail[0]);
    }
    lemma_value_round_trip(s, 0, t, layout, 0, d);
    assert(blank(s, 0, d, Skip::Outside) == Step::<()>::Done((), 0));
    lemma_blank_run(s, body.len() as int, tail, d);
}

/// The minified text of a plain value reads back, as strict JSON, as the
/// value.
pub proof fn lemma_minified_round_trip(t: Tree)
    requires
        json_plain(t, Dialect::Json),
    ensures
        JsonParser.parsed(MinJsonGenerator.text(t)) == Ok::<Tree, ParseError>(t),
{
    lemma_document_round_trip(t, Layout::Compact, Seq::empty(), Dialect::Json);
    assert(json_text(t, Layout::Compact, 0) + Seq::<char>::empty() =~= json_text(
        t,
        Layout::Compact,
        0,
    ));
}

/// The indented text of a plain value reads back, as strict JSON, as the
/// value, whatever the width of the indentation.
pub proof fn lemma_pretty_round_trip(t: Tree, g: PrettyJsonGenerator)
    requires
        json_plain(t, Dialect::Json),
    ensures
        JsonParser.parsed(g.text(t)) == Ok::<Tree, ParseError>(t),
{
    lemma_document_round_trip(
        t,
        Layout::Indented { width: g.width() },
        seq!['\n'],
        Dialect::Json,
    );
}

/// The minified text of a value reads back, in the extended dialect, as
/// the value, also where the value holds floats that are not finite.
pub proof fn lemma_minified_round_trip_json5(t: Tree)
    requires
        json_plain(t, Dialect::Json5),
    ensures
        Json5Parser.parsed(MinJsonGenerator.text(t)) == Ok::<Tree, ParseError>(t),
{
    lemma_document_round_trip(t, Layout::Compact, Seq::empty(), Dialect::Json5);
    assert(json_text(t, Layout::Compact, 0) + Seq::<char>::empty() =~= json_text(
        t,
        Layout::Compact,
        0,
    ));
}

/// The indented text of a value reads back, in the extended dialect, as
/// the value, also where the value holds floats that are not finite.
pub proof fn lemma_pretty_round_trip_json5(t: Tree, g: PrettyJsonGenerator)
    requires
        json_plain(t, Dialect::Json5),
    ensures
        Json5Parser.parsed(g.text(t)) == Ok::<Tree, ParseError>(t),
{
    lemma_document_round_trip(
        t,
        Layout::Indented { width: g.width() },
        seq!['\n'],
        Dialect::Json5,
    );
}

} // verus!
