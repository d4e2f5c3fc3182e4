//! The literal of a leaf in a line reads back as the leaf.
use vstd::prelude::*;
use crate::generator::line::leaf_text;
use crate::laws::datetimes::{datetime_plain, lemma_datetime_round_trip};
use crate::laws::numbers::{is_float_literal, lemma_float_round_trip, lemma_int_round_trip};
use crate::laws::strings::lemma_quoted_round_trip;
use crate::laws::words::lemma_word_head;
use crate::laws::words::{lemma_word_chars, lemma_word_self};
use crate::parser::grammar::{
    decimal_numeral, digits_end, exponent_end, fraction_end, has_digit, has_word, holds, int_end,
    number, numeral, Dialect, Step,
};
use crate::parser::line_grammar::{date_ahead, literal, time_ahead};
use crate::text::is_digit;
use crate::{FloatView, Tree};

verus! {

/// Whether the line format can write the leaf `t` down and read it back:
/// an integer is in the range of `Int`, a finite float has the literal of a
/// float for its text, a date or time is plain, and an array or object is
/// empty.
pub open spec fn line_leaf(t: Tree) -> bool {
    match t {
        Tree::Null => true,
        Tree::Boolean(_) => true,
        Tree::String(_) => true,
        Tree::Int(i) => i128::MIN <= i <= i128::MAX,
        Tree::Float(f) => match f {
            FloatView::Finite(x) => is_float_literal(x),
            _ => true,
        },
        Tree::DateTime(d) => datetime_plain(d),
        Tree::Array(ts) => ts.len() == 0,
        Tree::Object(ms) => ms.len() == 0,
    }
}

/// Every character of a run of digits is a digit, and behind the run
/// stands none.
pub proof fn lemma_digits_all(s: Seq<char>, p: int)
    requires
        0 <= p <= s.len(),
    ensures
        p <= digits_end(s, p) <= s.len(),
        forall|j: int| p <= j < digits_end(s, p) ==> is_digit(#[trigger] s[j]),
        !has_digit(s, digits_end(s, p)),
    decreases s.len() - p,
{
    if has_digit(s, p) {
        lemma_digits_all(s, p + 1);
    }
}

/// Whether the character at `j` may stand at its place in a number: a
/// digit, `-` in front, a point, `e` or `E`, or a sign behind `e` or `E`.
pub open spec fn number_shape(x: Seq<char>, j: int) -> bool {
    is_digit(x[j]) || (x[j] == '-' && j == 0) || x[j] == '.' || x[j] == 'e' || x[j] == 'E' || ((x[j]
        == '+' || x[j] == '-') && j > 0 && (x[j - 1] == 'e' || x[j - 1] == 'E'))
}

/// A text that is a number as a whole holds, at each place, a character
/// that may stand there in a number.
pub proof fn lemma_number_shape(x: Seq<char>)
    requires
        number(x, 0, Dialect::Json) is Done,
        number(x, 0, Dialect::Json)->Done_1 == x.len(),
    ensures
        x.len() > 0,
        x[0] == '-' || is_digit(x[0]),
        x[0] == '-' ==> x.len() > 1 && is_digit(x[1]),
        forall|j: int| 0 <= j < x.len() ==> #[trigger] number_shape(x, j),
{
    let json = Dialect::Json;
    let negative = holds(x, 0, '-');
    let u = if negative {
        1int
    } else {
        0int
    };
    assert(numeral(x, 0, json) is Done);
    assert(has_digit(x, u));
    assert(numeral(x, 0, json) == decimal_numeral(x, 0, u, negative));
    let i = int_end(x, u);
    lemma_digits_all(x, u);
    let f = fraction_end(x, i);
    if i + 1 <= x.len() {
        lemma_digits_all(x, i + 1);
    }
    let e = exponent_end(x, f);
    if f + 1 <= x.len() {
        lemma_digits_all(x, f + 1);
    }
    if f + 2 <= x.len() {
        lemma_digits_all(x, f + 2);
    }
    assert(e == x.len());
    assert forall|j: int| 0 <= j < x.len() implies #[trigger] number_shape(x, j) by {
        if j < u {
        } else if j < i {
        } else if j < f {
        } else {
        }
    }
}

/// Where a number stands as a whole, and behind it a line feed, the
/// literal that stands there is that number.
pub proof fn lemma_literal_number(s: Seq<char>, q: int, x: Seq<char>)
    requires
        has_word(s, q, x),
        number(x, 0, Dialect::Json) is Done,
        number(x, 0, Dialect::Json)->Done_1 == x.len(),
        holds(s, q + x.len(), '\n'),
    ensures
        literal(s, q) == number(s, q, Dialect::Json),
{
    lemma_number_shape(x);
    lemma_word_chars(s, q, x);
    assert(s[q + 0] == x[0]);
    lemma_not_words(s, q);
    if x[0] == '-' {
        assert(s[q + 1] == x[1]);
    }
    if has_word(s, q, seq!['-', 'i', 'n', 'f']) {
        lemma_word_chars(s, q, seq!['-', 'i', 'n', 'f']);
        assert(s[q + 1] == seq!['-', 'i', 'n', 'f'][1]);
    }
    if date_ahead(s, q) {
        assert(x.len() >= 4) by {
            if x.len() < 4 {
                assert(!is_digit(s[q + x.len()]));
            }
        }
        assert(s[q + 3] == x[3]);
        if x.len() > 4 {
            assert(s[q + 4] == x[4]);
            assert(number_shape(x, 4));
        }
    }
    if time_ahead(s, q) {
        assert(x.len() >= 2) by {
            if x.len() < 2 {
                assert(!is_digit(s[q + x.len()]));
            }
        }
        if x.len() > 2 {
            assert(s[q + 2] == x[2]);
            assert(number_shape(x, 2));
        }
    }
}

/// A word of the line format that stands at `q` starts with the character
/// at `q`.
pub proof fn lemma_not_words(s: Seq<char>, q: int)
    ensures
        has_word(s, q, seq!['n', 'u', 'l', 'l']) ==> 0 <= q < s.len() && s[q] == 'n',
        has_word(s, q, seq!['t', 'r', 'u', 'e']) ==> 0 <= q < s.len() && s[q] == 't',
        has_word(s, q, seq!['f', 'a', 'l', 's', 'e']) ==> 0 <= q < s.len() && s[q] == 'f',
        has_word(s, q, seq!['N', 'a', 'N']) ==> 0 <= q < s.len() && s[q] == 'N',
        has_word(s, q, seq!['i', 'n', 'f']) ==> 0 <= q < s.len() && s[q] == 'i',
        has_word(s, q, seq!['-', 'i', 'n', 'f']) ==> 0 <= q < s.len() && s[q] == '-',
        has_word(s, q, seq!['[', ']']) ==> 0 <= q < s.len() && s[q] == '[',
        has_word(s, q, seq!['{', '}']) ==> 0 <= q < s.len() && s[q] == '{',
{
    if has_word(s, q, seq!['n', 'u', 'l', 'l']) {
        lemma_word_head(s, q, seq!['n', 'u', 'l', 'l']);
    }
    if has_word(s, q, seq!['t', 'r', 'u', 'e']) {
        lemma_word_head(s, q, seq!['t', 'r', 'u', 'e']);
    }
    if has_word(s, q, seq!['f', 'a', 'l', 's', 'e']) {
        lemma_word_head(s, q, seq!['f', 'a', 'l', 's', 'e']);
    }
    if has_word(s, q, seq!['N', 'a', 'N']) {
        lemma_word_head(s, q, seq!['N', 'a', 'N']);
    }
    if has_word(s, q, seq!['i', 'n', 'f']) {
        lemma_word_head(s, q, seq!['i', 'n', 'f']);
    }
    if has_word(s, q, seq!['-', 'i', 'n', 'f']) {
        lemma_word_head(s, q, seq!['-', 'i', 'n', 'f']);
    }
    if has_word(s, q, seq!['[', ']']) {
        lemma_word_head(s, q, seq!['[', ']']);
    }
    if has_word(s, q, seq!['{', '}']) {
        lemma_word_head(s, q, seq!['{', '}']);
    }
}

/// Where the literal of a leaf stands, and behind it a line feed, the
/// line format reads the leaf and ends behind the literal.
pub proof fn lemma_literal_round_trip(s: Seq<char>, q: int, t: Tree)
    requires
        line_leaf(t),
        has_word(s, q, leaf_text(t)),
        holds(s, q + leaf_text(t).len(), '\n'),
    ensures
        literal(s, q) == Step::Done(t, q + leaf_text(t).len()),
{
    let text = leaf_text(t);
    lemma_word_chars(s, q, text);
    lemma_not_words(s, q);
    match t {
        Tree::Null => {},
        Tree::Boolean(b) => {
            assert(s[q + 0] == text[0]);
        },
        Tree::Int(i) => {
            lemma_word_self(text);
            lemma_int_round_trip(text, 0, i, Dialect::Json);
            lemma_literal_number(s, q, text);
            lemma_int_round_trip(s, q, i, Dialect::Json);
        },
        Tree::Float(f) => {
            assert(s[q + 0] == text[0]);
            match f {
                FloatView::Finite(x) => {
                    lemma_literal_number(s, q, x);
                    lemma_float_round_trip(s, q, x, Dialect::Json);
                },
                FloatView::NegInfinity => {
                    assert(s[q + 1] == text[1]);
                },
                _ => {},
            }
        },
        Tree::String(cs) => {
            lemma_quoted_round_trip(s, q, cs, Dialect::Json);
            assert(s[q + 0] == text[0]);
            if has_word(s, q, seq!['-', 'i', 'n', 'f']) {
            }
        },
        Tree::DateTime(d) => {
            lemma_datetime_round_trip(s, q, d);
        },
        Tree::Array(ts) => {
            assert(s[q + 0] == text[0]);
            assert(ts =~= Seq::<Tree>::empty());
        },
        Tree::Object(ms) => {
            assert(s[q + 0] == text[0]);
            assert(ms =~= Seq::<(Seq<char>, Tree)>::empty());
        },
    }
}

} // verus!
