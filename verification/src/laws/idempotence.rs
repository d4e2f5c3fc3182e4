//! What strict JSON reads, it can write and read again.
use vstd::prelude::*;
use crate::laws::words::lemma_word_chars;
use crate::laws::keys::lemma_put_distinct;
use crate::error::ParseError;
use crate::generator::{Generator, PrettyJsonGenerator};
use crate::laws::bounds::{lemma_blank_bounds, lemma_number_bounds};
use crate::laws::json_round_trip::{json_plain, lemma_pretty_round_trip};
use crate::laws::numbers::{ends_number, is_float_literal, lemma_number_end_local};
use crate::parser::grammar::{
    blank, decimal_numeral, document, exponent_end, float_of, fraction_end, has_digit, has_word,
    holds, int_end, items, key, members, number, numeral, onward, put, value, Dialect, Skip,
};
use crate::parser::{JsonParser, Parser};
use crate::{distinct_keys, FloatView, Tree};

verus! {

/// A number that strict JSON reads is an integer in range or a float that
/// keeps the literal of a float.
pub proof fn lemma_number_plain(s: Seq<char>, p: int)
    requires
        0 <= p < s.len(),
        number(s, p, Dialect::Json) is Done,
    ensures
        json_plain(number(s, p, Dialect::Json)->Done_0, Dialect::Json),
{
    let json = Dialect::Json;
    let negative = holds(s, p, '-');
    let u = if negative {
        p + 1
    } else {
        p
    };
    assert(numeral(s, p, json) is Done);
    assert(has_digit(s, u));
    assert(numeral(s, p, json) == decimal_numeral(s, p, u, negative));
    lemma_number_bounds(s, p, json);
    let i = int_end(s, u);
    let e = exponent_end(s, fraction_end(s, i));
    if e != i {
        assert(number(s, p, json)->Done_1 == e);
        lemma_float_literal(s, p, e);
    }
}

/// The text of a float that strict JSON reads from `p` to `e` is, taken
/// alone, the literal of a float.
pub proof fn lemma_float_literal(s: Seq<char>, p: int, e: int)
    requires
        0 <= p < e <= s.len(),
        ends_number(s, e),
        has_digit(s, if holds(s, p, '-') {
            p + 1
        } else {
            p
        }),
        e == exponent_end(
            s,
            fraction_end(
                s,
                int_end(
                    s,
                    if holds(s, p, '-') {
                        p + 1
                    } else {
                        p
                    },
                ),
            ),
        ),
        e != int_end(s, if holds(s, p, '-') {
            p + 1
        } else {
            p
        }),
    ensures
        is_float_literal(s.subrange(p, e)),
        float_of(
            holds(s, p, '-'),
            s.subrange(if holds(s, p, '-') {
                p + 1
            } else {
                p
            }, e),
        ) == Tree::Float(FloatView::Finite(s.subrange(p, e))),
{
    let json = Dialect::Json;
    let negative = holds(s, p, '-');
    let u = if negative {
        p + 1
    } else {
        p
    };
    let x = s.subrange(p, e);
    let u0 = u - p;
    assert(has_word(s, p, x));
    lemma_word_chars(s, p, x);
    assert(x[0] == s[p + 0]);
    assert(holds(x, 0, '-') == negative);
    assert(s[p + u0] == x[u0]);
    assert(has_digit(x, u0));
    lemma_number_end_local(s, p, x, u0);
    let i0 = int_end(x, u0);
    let e0 = exponent_end(x, fraction_end(x, i0));
    assert(p + e0 == e);
    assert(x.subrange(u0, e0) =~= s.subrange(u, e));
    if negative {
        assert(seq!['-'] + s.subrange(u, e) =~= x);
    }
    assert(numeral(x, 0, json) == decimal_numeral(x, 0, u0, negative));
}

/// A value that strict JSON reads is plain.
pub proof fn lemma_value_plain(s: Seq<char>, p: int)
    requires
        0 <= p <= s.len(),
        value(s, p, Dialect::Json) is Done,
    ensures
        json_plain(value(s, p, Dialect::Json)->Done_0, Dialect::Json),
    decreases s.len() - p, 0nat,
{
    let json = Dialect::Json;
    if s[p] == '{' {
        lemma_blank_bounds(s, p + 1, json, Skip::Outside);
        let q = blank(s, p + 1, json, Skip::Outside)->Done_1;
        if !holds(s, q, '}') {
            lemma_members_plain(s, q, Seq::empty());
        }
    } else if s[p] == '[' {
        lemma_blank_bounds(s, p + 1, json, Skip::Outside);
        let q = blank(s, p + 1, json, Skip::Outside)->Done_1;
        if !holds(s, q, ']') {
            lemma_items_plain(s, q, Seq::empty());
        }
    } else if s[p] == '"' {
    } else if has_word(s, p, seq!['t', 'r', 'u', 'e']) {
    } else if has_word(s, p, seq!['f', 'a', 'l', 's', 'e']) {
    } else if has_word(s, p, seq!['n', 'u', 'l', 'l']) {
    } else {
        lemma_number_plain(s, p);
    }
}

/// An array that strict JSON reads is plain, where the elements read
/// before are.
pub proof fn lemma_items_plain(s: Seq<char>, p: int, acc: Seq<Tree>)
    requires
        0 <= p <= s.len(),
        items(s, p, Dialect::Json, acc) is Done,
        forall|i: int| 0 <= i < acc.len() ==> json_plain(#[trigger] acc[i], Dialect::Json),
    ensures
        json_plain(items(s, p, Dialect::Json, acc)->Done_0, Dialect::Json),
    decreases s.len() - p, 1nat,
{
    let json = Dialect::Json;
    let step = onward(s, p, value(s, p, json));
    let v = step->Done_0;
    let q = step->Done_1;
    lemma_value_plain(s, p);
    let next = acc.push(v);
    assert forall|i: int| 0 <= i < next.len() implies json_plain(#[trigger] next[i], Dialect::Json) by {
        if i < acc.len() {
            assert(next[i] == acc[i]);
        }
    }
    let r = onward(s, q, blank(s, q, json, Skip::Outside))->Done_1;
    if holds(s, r, ']') {
    } else {
        let n = onward(s, r + 1, blank(s, r + 1, json, Skip::Outside))->Done_1;
        lemma_items_plain(s, n, next);
    }
}

/// An object that strict JSON reads is plain, where the members read
/// before are and their keys are distinct.
pub proof fn lemma_members_plain(s: Seq<char>, p: int, acc: Seq<(Seq<char>, Tree)>)
    requires
        0 <= p <= s.len(),
        members(s, p, Dialect::Json, acc) is Done,
        distinct_keys(acc),
        forall|i: int| 0 <= i < acc.len() ==> json_plain((#[trigger] acc[i]).1, Dialect::Json),
    ensures
        json_plain(members(s, p, Dialect::Json, acc)->Done_0, Dialect::Json),
    decreases s.len() - p, 1nat,
{
    let json = Dialect::Json;
    let first = onward(s, p, key(s, p, json));
    let k = first->Done_0;
    let q = first->Done_1;
    let c = onward(s, q, blank(s, q, json, Skip::Outside))->Done_1;
    let b = onward(s, c + 1, blank(s, c + 1, json, Skip::Outside))->Done_1;
    let second = onward(s, b, value(s, b, json));
    let v = second->Done_0;
    let e = second->Done_1;
    lemma_value_plain(s, b);
    let next = put(acc, k, v);
    lemma_put_distinct(acc, k, v);
    assert forall|i: int| 0 <= i < next.len() implies json_plain((#[trigger] next[i]).1, Dialect::Json) by {
        if next[i].1 != v {
            assert(next[i] == acc[i]);
        }
    }
    let r = onward(s, e, blank(s, e, json, Skip::Outside))->Done_1;
    if holds(s, r, '}') {
    } else {
        let n = onward(s, r + 1, blank(s, r + 1, json, Skip::Outside))->Done_1;
        lemma_members_plain(s, n, next);
    }
}

/// What strict JSON reads from a text is plain: it can be written as
/// strict JSON and read back.
pub proof fn lemma_parsed_plain(s: Seq<char>, t: Tree)
    requires
        JsonParser.parsed(s) == Ok::<Tree, ParseError>(t),
    ensures
        json_plain(t, Dialect::Json),
{
    let json = Dialect::Json;
    assert(document(s, json) is Done);
    lemma_blank_bounds(s, 0, json, Skip::Outside);
    let p = blank(s, 0, json, Skip::Outside)->Done_1;
    lemma_value_plain(s, p);
}

/// To pretty-print what strict JSON read from a text, to read the print,
/// and to print again gives the first print: the print reads back as the
/// value that was printed.
pub proof fn lemma_pretty_print_twice(s: Seq<char>, t: Tree, g: PrettyJsonGenerator)
    requires
        JsonParser.parsed(s) == Ok::<Tree, ParseError>(t),
    ensures
        JsonParser.parsed(g.text(t)) == Ok::<Tree, ParseError>(t),
        g.text(JsonParser.parsed(g.text(t))->Ok_0) == g.text(t),
{
    lemma_parsed_plain(s, t);
    lemma_pretty_round_trip(t, g);
}

} // verus!
