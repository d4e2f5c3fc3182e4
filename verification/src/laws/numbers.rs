//! A number that a generator wrote reads back as the number.
use vstd::prelude::*;
use crate::laws::words::{
    lemma_decimal_digits, lemma_decimal_value, lemma_digits_run, lemma_word_chars, lemma_word_head,
    lemma_word_split,
};
use crate::parser::grammar::{
    decimal_numeral, digits_end, exponent_end, fraction_end, has_digit, has_word, holds,
    infinity_word, int_end, int_step, is_number_tail, is_number_text, nan_word, number,
    number_end_at, numeral, Dialect, Step,
};
use crate::text::{decimal, int_text, is_digit};
use crate::{FloatView, Tree};

verus! {

/// Whether what stands at `e` leaves a number that ends there well-formed:
/// the end of the text, or a character that may stand behind a number.
pub open spec fn ends_number(s: Seq<char>, e: int) -> bool {
    e >= s.len() || (0 <= e && !is_number_tail(s[e]))
}

/// Where the numeral of an integer in range stands, and what follows may
/// stand behind a number, the reader of numbers takes the integer.
pub proof fn lemma_int_round_trip(s: Seq<char>, p: int, i: int, d: Dialect)
    requires
        has_word(s, p, int_text(i)),
        i128::MIN <= i <= i128::MAX,
        ends_number(s, p + int_text(i).len()),
    ensures
        number(s, p, d) == Step::Done(Tree::Int(i), p + int_text(i).len()),
{
    let m: nat = if i < 0 {
        (-i) as nat
    } else {
        i as nat
    };
    let ds = decimal(m);
    lemma_decimal_digits(m);
    lemma_decimal_value(m);
    let u = if i < 0 {
        p + 1
    } else {
        p
    };
    if i < 0 {
        lemma_word_split(s, p, seq!['-'], ds);
        lemma_word_chars(s, p, seq!['-']);
        assert(s[p + 0] == seq!['-'][0]);
    } else {
        lemma_word_chars(s, p, ds);
        assert(s[p + 0] == ds[0]);
    }
    assert(has_word(s, u, ds));
    lemma_word_chars(s, u, ds);
    assert(s[u + 0] == ds[0]);
    assert(holds(s, p, '-') == (i < 0));
    let end = u + ds.len();
    assert(end == p + int_text(i).len());
    lemma_digits_run(s, u, ds);
    if s[u] == '0' {
        assert(m == 0);
        assert(ds.len() == 1);
    }
    assert(int_end(s, u) == end);
    assert(fraction_end(s, end) == end);
    assert(exponent_end(s, end) == end);
    assert(s.subrange(u, end) == ds);
    lemma_not_special(s, u);
    assert(decimal_numeral(s, p, u, i < 0) == int_step(i < 0, m, p, end));
    assert(numeral(s, p, d) == decimal_numeral(s, p, u, i < 0));
}

/// Where a digit stands, neither `Infinity` nor `NaN` does.
pub proof fn lemma_not_special(s: Seq<char>, u: int)
    requires
        has_digit(s, u),
    ensures
        !has_word(s, u, infinity_word()),
        !has_word(s, u, nan_word()),
        !holds(s, u, '.'),
        !holds(s, u, '+'),
{
    if has_word(s, u, infinity_word()) {
        lemma_word_head(s, u, infinity_word());
    }
    if has_word(s, u, nan_word()) {
        lemma_word_head(s, u, nan_word());
    }
}

/// Whether `t` is the literal of a float: read alone as a number of strict
/// JSON, it gives the float that keeps `t`.
pub open spec fn is_float_literal(t: Seq<char>) -> bool {
    number(t, 0, Dialect::Json) == Step::Done(Tree::Float(FloatView::Finite(t)), t.len() as int)
}

/// The scanner of digits finds inside a word what it finds in the word
/// alone, where no digit follows the word.
pub proof fn lemma_digits_local(s: Seq<char>, p: int, t: Seq<char>, i: int)
    requires
        has_word(s, p, t),
        0 <= i <= t.len(),
        !has_digit(s, p + t.len()),
    ensures
        digits_end(s, p + i) == p + digits_end(t, i),
        i <= digits_end(t, i) <= t.len(),
    decreases t.len() - i,
{
    lemma_word_chars(s, p, t);
    if i < t.len() {
        assert(s[p + i] == t[i]);
        if is_digit(t[i]) {
            lemma_digits_local(s, p, t, i + 1);
        }
    }
}

/// A character of a word stands in the text where the word stands.
pub proof fn lemma_holds_local(s: Seq<char>, p: int, t: Seq<char>, i: int, c: char)
    requires
        has_word(s, p, t),
        0 <= i < t.len(),
    ensures
        holds(s, p + i, c) == holds(t, i, c),
        has_digit(s, p + i) == has_digit(t, i),
{
    lemma_word_chars(s, p, t);
    assert(s[p + i] == t[i]);
}

/// The integer part of a number inside a word ends where it ends in the
/// word alone, where what follows the word may stand behind a number.
pub proof fn lemma_int_end_local(s: Seq<char>, p: int, t: Seq<char>, u: int)
    requires
        has_word(s, p, t),
        has_digit(t, u),
        ends_number(s, p + t.len()),
    ensures
        int_end(s, p + u) == p + int_end(t, u),
        u < int_end(t, u) <= t.len(),
{
    lemma_holds_local(s, p, t, u, '0');
    lemma_digits_local(s, p, t, u);
    lemma_digits_local(s, p, t, u + 1);
}

/// The same for the fraction.
pub proof fn lemma_fraction_end_local(s: Seq<char>, p: int, t: Seq<char>, i: int)
    requires
        has_word(s, p, t),
        0 <= i <= t.len(),
        ends_number(s, p + t.len()),
    ensures
        fraction_end(s, p + i) == p + fraction_end(t, i),
        i <= fraction_end(t, i) <= t.len(),
{
    if i < t.len() {
        lemma_holds_local(s, p, t, i, '.');
        if i + 1 < t.len() {
            lemma_holds_local(s, p, t, i + 1, '0');
        }
        lemma_digits_local(s, p, t, i + 1);
    }
}

/// The same for the exponent.
pub proof fn lemma_exponent_end_local(s: Seq<char>, p: int, t: Seq<char>, f: int)
    requires
        has_word(s, p, t),
        0 <= f <= t.len(),
        ends_number(s, p + t.len()),
    ensures
        exponent_end(s, p + f) == p + exponent_end(t, f),
        f <= exponent_end(t, f) <= t.len(),
{
    if f < t.len() {
        lemma_holds_local(s, p, t, f, 'e');
        lemma_holds_local(s, p, t, f, 'E');
        if f + 1 < t.len() {
            lemma_holds_local(s, p, t, f + 1, '+');
            lemma_holds_local(s, p, t, f + 1, '-');
            lemma_holds_local(s, p, t, f + 1, '0');
        }
        if f + 2 < t.len() {
            lemma_holds_local(s, p, t, f + 2, '0');
        }
        lemma_digits_local(s, p, t, f + 1);
        if f + 2 <= t.len() {
            lemma_digits_local(s, p, t, f + 2);
        }
    }
}

/// A number in decimal digits inside a word ends, relative to the word,
/// where it ends in the word alone.
pub proof fn lemma_number_end_local(s: Seq<char>, p: int, t: Seq<char>, u: int)
    requires
        has_word(s, p, t),
        has_digit(t, u),
        ends_number(s, p + t.len()),
    ensures
        int_end(s, p + u) == p + int_end(t, u),
        exponent_end(s, fraction_end(s, int_end(s, p + u))) == p + exponent_end(
            t,
            fraction_end(t, int_end(t, u)),
        ),
        u < int_end(t, u) <= exponent_end(t, fraction_end(t, int_end(t, u))) <= t.len(),
{
    lemma_int_end_local(s, p, t, u);
    let i = int_end(t, u);
    lemma_fraction_end_local(s, p, t, i);
    let f = fraction_end(t, i);
    lemma_exponent_end_local(s, p, t, f);
}

/// The literal of a float starts with `-` or a digit.
pub proof fn lemma_float_head(t: Seq<char>)
    requires
        is_float_literal(t),
    ensures
        t.len() > 0,
        t[0] == '-' || is_digit(t[0]),
{
}

/// Where the literal of a float stands, and what follows may stand behind
/// a number, the reader of numbers takes the float.
pub proof fn lemma_float_round_trip(s: Seq<char>, p: int, t: Seq<char>, d: Dialect)
    requires
        has_word(s, p, t),
        is_float_literal(t),
        ends_number(s, p + t.len()),
    ensures
        number(s, p, d) == Step::Done(Tree::Float(FloatView::Finite(t)), p + t.len()),
{
    let json = Dialect::Json;
    lemma_word_chars(s, p, t);
    assert(numeral(t, 0, json) is Done);
    let negative = holds(t, 0, '-');
    let u = if negative {
        1int
    } else {
        0int
    };
    assert(s[p + 0] == t[0]);
    assert(holds(s, p, '-') == negative);
    assert(has_digit(t, u));
    assert(numeral(t, 0, json) == decimal_numeral(t, 0, u, negative));
    lemma_holds_local(s, p, t, u, '0');
    lemma_number_end_local(s, p, t, u);
    let i = int_end(t, u);
    let e = exponent_end(t, fraction_end(t, i));
    assert(e == t.len());
    assert(s.subrange(p + u, p + e) =~= t.subrange(u, e));
    assert(s[p + u] == t[u]);
    lemma_not_special(s, p + u);
    if t[u] == '0' {
        assert(i == u + 1);
        assert(holds(t, i, '.') || holds(t, i, 'e') || holds(t, i, 'E'));
        assert(s[p + i] == t[i]);
    }
    assert(numeral(s, p, d) == decimal_numeral(s, p, p + u, negative));
}

/// The text of a float that is not finite, as the JSON generators write
/// it.
pub open spec fn special_text(f: FloatView) -> Seq<char> {
    match f {
        FloatView::NegInfinity => seq!['-'] + infinity_word(),
        FloatView::Infinity => infinity_word(),
        _ => nan_word(),
    }
}

/// Where `NaN`, `Infinity` or `-Infinity` stands, and what follows may
/// stand behind a number, the reader of numbers of the extended dialect
/// takes the float.
pub proof fn lemma_special_round_trip(s: Seq<char>, p: int, f: FloatView)
    requires
        !(f is Finite),
        has_word(s, p, special_text(f)),
        ends_number(s, p + special_text(f).len()),
    ensures
        number(s, p, Dialect::Json5) == Step::Done(Tree::Float(f), p + special_text(f).len()),
{
    let text = special_text(f);
    lemma_word_chars(s, p, text);
    assert(s[p + 0] == text[0]);
    match f {
        FloatView::NegInfinity => {
            lemma_word_split(s, p, seq!['-'], infinity_word());
        },
        FloatView::Infinity => {},
        _ => {
            if has_word(s, p, infinity_word()) {
                lemma_word_head(s, p, infinity_word());
            }
        },
    }
}

/// A decimal number that stands in a text, with behind it what may
/// stand behind a number, is a decimal number when taken alone.
pub proof fn lemma_number_text_local(s: Seq<char>, q: int, e: int)
    requires
        0 <= q < e <= s.len(),
        ends_number(s, e),
        number_end_at(s, q) == e,
    ensures
        is_number_text(s.subrange(q, e)),
{
    let x = s.subrange(q, e);
    assert(has_word(s, q, x));
    lemma_word_chars(s, q, x);
    assert(s[q + 0] == x[0]);
    let negative = holds(s, q, '-');
    let u = if negative {
        1int
    } else {
        0int
    };
    assert(holds(x, 0, '-') == negative);
    if u < x.len() {
        lemma_holds_local(s, q, x, u, '.');
    }
    if has_digit(s, q + u) {
        lemma_number_end_local(s, q, x, u);
    } else {
        assert(u + 1 < x.len()) by {
            lemma_digits_local(s, q, x, x.len() as int);
        }
        lemma_holds_local(s, q, x, u + 1, '0');
        lemma_digits_local(s, q, x, u + 1);
        lemma_exponent_end_local(s, q, x, digits_end(x, u + 1));
    }
}

} // verus!
