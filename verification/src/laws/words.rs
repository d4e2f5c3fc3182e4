//! Words inside a text, and what the scanners make of them.
use vstd::prelude::*;
use crate::parser::grammar::{
    blank, digits_end, has_digit, has_word, is_blank, is_space, Dialect, Skip, Step,
};
use crate::text::{decimal, decimal_value, digit_char, digit_value, is_digit};

verus! {

/// A word that stands at `p` starts with the character at `p`.
pub proof fn lemma_word_head(s: Seq<char>, p: int, word: Seq<char>)
    requires
        has_word(s, p, word),
        word.len() > 0,
    ensures
        0 <= p < s.len(),
        s[p] == word[0],
{
    assert(s.subrange(p, p + word.len())[0] == s[p]);
}

/// The characters of a word that stands at `p` stand from `p` on.
pub proof fn lemma_word_chars(s: Seq<char>, p: int, word: Seq<char>)
    requires
        has_word(s, p, word),
    ensures
        forall|i: int| 0 <= i < word.len() ==> s[p + i] == #[trigger] word[i],
{
    assert forall|i: int| 0 <= i < word.len() implies s[p + i] == #[trigger] word[i] by {
        assert(s.subrange(p, p + word.len())[i] == s[p + i]);
    }
}

/// A word stands at `p` where each of its characters does.
pub proof fn lemma_word_from_chars(s: Seq<char>, p: int, word: Seq<char>)
    requires
        0 <= p,
        p + word.len() <= s.len(),
        forall|i: int| 0 <= i < word.len() ==> s[p + i] == #[trigger] word[i],
    ensures
        has_word(s, p, word),
{
    assert(s.subrange(p, p + word.len()) =~= word);
}

/// Two words stand one behind the other where their concatenation stands.
pub proof fn lemma_word_split(s: Seq<char>, p: int, a: Seq<char>, b: Seq<char>)
    requires
        has_word(s, p, a + b),
    ensures
        has_word(s, p, a),
        has_word(s, p + a.len(), b),
{
    lemma_word_chars(s, p, a + b);
    assert forall|i: int| 0 <= i < a.len() implies s[p + i] == #[trigger] a[i] by {
        assert((a + b)[i] == a[i]);
    }
    assert forall|i: int| 0 <= i < b.len() implies s[p + a.len() + i] == #[trigger] b[i] by {
        assert((a + b)[a.len() + i] == b[i]);
    }
    lemma_word_from_chars(s, p, a);
    lemma_word_from_chars(s, p + a.len(), b);
}

/// A text holds itself from its start.
pub proof fn lemma_word_self(s: Seq<char>)
    ensures
        has_word(s, 0, s),
{
    assert(s.subrange(0, s.len() as int) =~= s);
}

/// Every character of a numeral is a digit, and only the numeral of zero
/// starts with `0`.
pub proof fn lemma_decimal_digits(n: nat)
    ensures
        decimal(n).len() > 0,
        forall|i: int| 0 <= i < decimal(n).len() ==> is_digit(#[trigger] decimal(n)[i]),
        decimal(n)[0] == '0' ==> n == 0,
        n == 0 ==> decimal(n) == seq!['0'],
    decreases n,
{
    if n >= 10 {
        lemma_decimal_digits(n / 10);
        let head = decimal(n / 10);
        assert forall|i: int| 0 <= i < decimal(n).len() implies is_digit(
            #[trigger] decimal(n)[i],
        ) by {
            if i < head.len() {
                assert(decimal(n)[i] == head[i]);
            }
        }
        assert(decimal(n)[0] == head[0]);
    }
}

/// A numeral denotes its number.
pub proof fn lemma_decimal_value(n: nat)
    ensures
        decimal_value(decimal(n)) == n,
    decreases n,
{
    reveal_with_fuel(decimal_value, 2);
    if n >= 10 {
        lemma_decimal_value(n / 10);
        assert(decimal(n).drop_last() =~= decimal(n / 10));
        assert(digit_value(digit_char((n % 10) as int)) == n % 10);
    } else {
        assert(decimal(n).drop_last() =~= Seq::<char>::empty());
        assert(digit_value(digit_char(n as int)) == n);
    }
}

/// A run of digits that stands at `p`, with no digit behind it, is what the
/// scanner of digits passes over.
pub proof fn lemma_digits_run(s: Seq<char>, p: int, run: Seq<char>)
    requires
        has_word(s, p, run),
        forall|i: int| 0 <= i < run.len() ==> is_digit(#[trigger] run[i]),
        !has_digit(s, p + run.len()),
    ensures
        digits_end(s, p) == p + run.len(),
    decreases run.len(),
{
    lemma_word_chars(s, p, run);
    if run.len() > 0 {
        assert(s[p + 0] == run[0]);
        let rest = run.drop_first();
        assert forall|i: int| 0 <= i < rest.len() implies s[p + 1 + i] == #[trigger] rest[i] by {
            assert(rest[i] == run[i + 1]);
        }
        lemma_word_from_chars(s, p + 1, rest);
        lemma_digits_run(s, p + 1, rest);
    }
}

/// Whether every character of `w` is white space of strict JSON.
pub open spec fn all_space(w: Seq<char>) -> bool {
    forall|i: int| 0 <= i < w.len() ==> is_space(#[trigger] w[i])
}

/// Whether the reader of white space stops at `e`: at the end of the
/// text, or at a character that is no white space of the dialect and
/// starts no comment.
pub open spec fn ends_blank(s: Seq<char>, e: int, d: Dialect) -> bool {
    e >= s.len() || (0 <= e && !is_blank(s[e], d) && !(d is Json5 && s[e] == '/'))
}

/// White space that stands at `p`, with none behind it, is what the reader
/// of white space passes over.
pub proof fn lemma_blank_run(s: Seq<char>, p: int, w: Seq<char>, d: Dialect)
    requires
        has_word(s, p, w),
        all_space(w),
        ends_blank(s, p + w.len(), d),
    ensures
        blank(s, p, d, Skip::Outside) == Step::Done((), p + w.len()),
    decreases w.len(),
{
    lemma_word_chars(s, p, w);
    if w.len() > 0 {
        assert(s[p + 0] == w[0]);
        let rest = w.drop_first();
        assert forall|i: int| 0 <= i < rest.len() implies s[p + 1 + i] == #[trigger] rest[i] by {
            assert(rest[i] == w[i + 1]);
        }
        assert forall|i: int| 0 <= i < rest.len() implies is_space(#[trigger] rest[i]) by {
            assert(rest[i] == w[i + 1]);
        }
        lemma_word_from_chars(s, p + 1, rest);
        lemma_blank_run(s, p + 1, rest, d);
    }
}

} // verus!
