//! A string literal that a generator wrote reads back as the string.
use vstd::prelude::*;
use crate::generator::json::{escape, escaped, hex_char, quoted};
use crate::laws::words::{lemma_word_chars, lemma_word_split};
use crate::parser::grammar::{
    char_of, has_word, hex_run, hex_value, is_hex_digit, string_body, Dialect, Step,
};

verus! {

/// Escaping goes character by character.
pub proof fn lemma_escaped_concat(a: Seq<char>, b: Seq<char>)
    ensures
        escaped(a + b) == escaped(a) + escaped(b),
    decreases b.len(),
{
    if b.len() == 0 {
        assert(a + b =~= a);
        assert(escaped(a) + escaped(b) =~= escaped(a));
    } else {
        lemma_escaped_concat(a, b.drop_last());
        assert((a + b).drop_last() =~= a + b.drop_last());
        assert((a + b).last() == b.last());
        assert(escaped(a + b) =~= escaped(a) + escaped(b));
    }
}

/// The escape of the first character stands in front.
pub proof fn lemma_escaped_front(cs: Seq<char>)
    requires
        cs.len() > 0,
    ensures
        escaped(cs) == escape(cs[0]) + escaped(cs.drop_first()),
{
    let head = seq![cs[0]];
    assert(cs =~= head + cs.drop_first());
    lemma_escaped_concat(head, cs.drop_first());
    reveal_with_fuel(escaped, 2);
    assert(head.drop_last() =~= Seq::<char>::empty());
    assert(escaped(head) =~= escape(cs[0]));
}

/// A hexadecimal digit that was written denotes its number.
pub proof fn lemma_hex_char(d: int)
    requires
        0 <= d < 16,
    ensures
        is_hex_digit(hex_char(d)),
        hex_value(hex_char(d)) == d,
{
}

/// Where the escape of `c` stands, the reader of strings takes `c` and
/// goes on behind the escape.
pub proof fn lemma_escape_step(s: Seq<char>, p: int, c: char, acc: Seq<char>, d: Dialect)
    requires
        has_word(s, p, escape(c)),
    ensures
        string_body(s, p, '"', d, acc) == string_body(
            s,
            p + escape(c).len(),
            '"',
            d,
            acc.push(c),
        ),
{
    lemma_word_chars(s, p, escape(c));
    let e = escape(c);
    assert(s[p + 0] == e[0]);
    if c == '"' || c == '\\' || c == '\u{8}' || c == '\u{c}' || c == '\n' || c == '\r' || c
        == '\t' {
        assert(s[p + 1] == e[1]);
    } else if (c as int) < 0x20 {
        assert(s[p + 1] == e[1]);
        assert(s[p + 2] == e[2]);
        assert(s[p + 3] == e[3]);
        assert(s[p + 4] == e[4]);
        assert(s[p + 5] == e[5]);
        let hi = c as int / 16;
        let lo = c as int % 16;
        lemma_hex_char(hi);
        lemma_hex_char(lo);
        reveal_with_fuel(hex_run, 5);
        assert(hex_run(s, p + 2, 4) == Some(c as int));
        assert(char_of(c as int) == c);
    } else {
    }
}

/// Where the escaped characters of `cs` and a quote stand, the reader of
/// strings takes `cs` and ends behind the quote.
pub proof fn lemma_string_round_trip(
    s: Seq<char>,
    p: int,
    cs: Seq<char>,
    acc: Seq<char>,
    d: Dialect,
)
    requires
        has_word(s, p, escaped(cs) + seq!['"']),
    ensures
        string_body(s, p, '"', d, acc) == Step::Done(
            acc + cs,
            p + escaped(cs).len() + 1,
        ),
    decreases cs.len(),
{
    if cs.len() == 0 {
        lemma_word_chars(s, p, escaped(cs) + seq!['"']);
        assert((escaped(cs) + seq!['"'])[0] == '"');
        assert(s[p + 0] == '"');
        assert(acc + cs =~= acc);
    } else {
        let c = cs[0];
        let rest = cs.drop_first();
        lemma_escaped_front(cs);
        assert(escaped(cs) + seq!['"'] =~= escape(c) + (escaped(rest) + seq!['"']));
        lemma_word_split(s, p, escape(c), escaped(rest) + seq!['"']);
        lemma_escape_step(s, p, c, acc, d);
        lemma_string_round_trip(s, p + escape(c).len(), rest, acc.push(c), d);
        assert(acc.push(c) + rest =~= acc + cs);
    }
}

/// Where the literal of `cs` stands, the reader of strings, set behind the
/// opening quote, takes `cs` and ends behind the literal.
pub proof fn lemma_quoted_round_trip(s: Seq<char>, p: int, cs: Seq<char>, d: Dialect)
    requires
        has_word(s, p, quoted(cs)),
    ensures
        0 <= p < s.len(),
        s[p] == '"',
        string_body(s, p + 1, '"', d, Seq::empty()) == Step::Done(
            cs,
            p + quoted(cs).len(),
        ),
{
    assert(quoted(cs) =~= seq!['"'] + (escaped(cs) + seq!['"']));
    lemma_word_split(s, p, seq!['"'], escaped(cs) + seq!['"']);
    lemma_word_chars(s, p, seq!['"']);
    assert(s[p + 0] == seq!['"'][0]);
    lemma_string_round_trip(s, p + 1, cs, Seq::empty(), d);
    assert(Seq::<char>::empty() + cs =~= cs);
}

} // verus!
