//! Numerals of a fixed width.
use vstd::prelude::*;
use crate::datetime::trim_zeros;
use crate::laws::words::{lemma_decimal_digits, lemma_decimal_value, lemma_word_chars};
use crate::parser::grammar::has_word;
use crate::parser::line_grammar::{all_digits, four, pow10, two};
use crate::text::{decimal, decimal_value, is_digit, padded, repeat};

verus! {

/// A number below ten to the `k` has a numeral of at most `k` digits.
pub proof fn lemma_decimal_len(n: nat, k: nat)
    requires
        k >= 1,
        n < pow10(k),
    ensures
        decimal(n).len() <= k,
    decreases k,
{
    reveal_with_fuel(pow10, 2);
    if n >= 10 {
        assert(k >= 2);
        assert(n / 10 < pow10((k - 1) as nat)) by (nonlinear_arith)
            requires
                n < 10 * pow10((k - 1) as nat),
        ;
        lemma_decimal_len(n / 10, (k - 1) as nat);
    }
}

/// Zeros denote zero.
pub proof fn lemma_zeros_value(k: nat)
    ensures
        decimal_value(repeat('0', k)) == 0,
    decreases k,
{
    if k > 0 {
        lemma_zeros_value((k - 1) as nat);
        assert(repeat('0', k).drop_last() =~= repeat('0', (k - 1) as nat));
    }
}

/// Zeros in front of digits change nothing of what they denote.
pub proof fn lemma_leading_zeros(k: nat, ds: Seq<char>)
    ensures
        decimal_value(repeat('0', k) + ds) == decimal_value(ds),
    decreases ds.len(),
{
    if ds.len() == 0 {
        assert(repeat('0', k) + ds =~= repeat('0', k));
        lemma_zeros_value(k);
    } else {
        lemma_leading_zeros(k, ds.drop_last());
        assert((repeat('0', k) + ds).drop_last() =~= repeat('0', k) + ds.drop_last());
    }
}

/// The numeral of a number below ten to the `w`, filled up to `w` digits,
/// has `w` digits and denotes the number.
pub proof fn lemma_padded(n: nat, w: nat)
    requires
        w >= 1,
        n < pow10(w),
    ensures
        padded(n, w).len() == w,
        all_digits(padded(n, w)),
        decimal_value(padded(n, w)) == n,
{
    lemma_decimal_len(n, w);
    lemma_decimal_digits(n);
    lemma_decimal_value(n);
    let ds = decimal(n);
    if ds.len() < w {
        lemma_leading_zeros((w - ds.len()) as nat, ds);
        let zs = repeat('0', (w - ds.len()) as nat);
        assert forall|i: int| 0 <= i < padded(n, w).len() implies is_digit(
            #[trigger] padded(n, w)[i],
        ) by {
            if i >= zs.len() {
                assert(padded(n, w)[i] == ds[i - zs.len()]);
            }
        }
    } else {
        assert(padded(n, w) == ds);
    }
}

/// Where two digits stand, they are read as what they denote.
pub proof fn lemma_two_digits(s: Seq<char>, p: int, ds: Seq<char>)
    requires
        has_word(s, p, ds),
        ds.len() == 2,
        all_digits(ds),
    ensures
        two(s, p) == Some(decimal_value(ds) as int),
{
    lemma_word_chars(s, p, ds);
    assert(s[p + 0] == ds[0]);
    assert(s[p + 1] == ds[1]);
    reveal_with_fuel(decimal_value, 3);
    assert(ds.drop_last().drop_last() =~= Seq::<char>::empty());
    assert(ds.drop_last().last() == ds[0]);
}

/// Where four digits stand, they are read as what they denote.
pub proof fn lemma_four_digits(s: Seq<char>, p: int, ds: Seq<char>)
    requires
        has_word(s, p, ds),
        ds.len() == 4,
        all_digits(ds),
    ensures
        four(s, p) == Some(decimal_value(ds) as int),
{
    lemma_word_chars(s, p, ds);
    assert(s[p + 0] == ds[0]);
    assert(s[p + 1] == ds[1]);
    assert(s[p + 2] == ds[2]);
    assert(s[p + 3] == ds[3]);
    reveal_with_fuel(decimal_value, 5);
    let a = ds.drop_last();
    let b = a.drop_last();
    let c = b.drop_last();
    assert(c.drop_last() =~= Seq::<char>::empty());
    assert(a.last() == ds[2]);
    assert(b.last() == ds[1]);
    assert(c.last() == ds[0]);
}

/// Where the numeral of a number below a hundred stands in two digits, it
/// is read as the number.
pub proof fn lemma_two_padded(s: Seq<char>, p: int, n: nat)
    requires
        n <= 99,
        has_word(s, p, padded(n, 2)),
    ensures
        padded(n, 2).len() == 2,
        two(s, p) == Some(n as int),
{
    reveal_with_fuel(pow10, 3);
    lemma_padded(n, 2);
    lemma_two_digits(s, p, padded(n, 2));
}

/// Where the numeral of a number below ten thousand stands in four digits,
/// it is read as the number.
pub proof fn lemma_four_padded(s: Seq<char>, p: int, n: nat)
    requires
        n <= 9999,
        has_word(s, p, padded(n, 4)),
    ensures
        padded(n, 4).len() == 4,
        four(s, p) == Some(n as int),
{
    reveal_with_fuel(pow10, 5);
    lemma_padded(n, 4);
    lemma_four_digits(s, p, padded(n, 4));
}

/// Digits without the zeros at their end denote the number of all the
/// digits, divided by ten for each zero.
pub proof fn lemma_trim_zeros(ds: Seq<char>)
    requires
        all_digits(ds),
    ensures
        trim_zeros(ds).len() <= ds.len(),
        all_digits(trim_zeros(ds)),
        decimal_value(trim_zeros(ds)) * pow10((ds.len() - trim_zeros(ds).len()) as nat)
            == decimal_value(ds),
        decimal_value(ds) > 0 ==> trim_zeros(ds).len() > 0,
    decreases ds.len(),
{
    reveal_with_fuel(pow10, 2);
    if ds.len() > 0 && ds.last() == '0' {
        let front = ds.drop_last();
        assert forall|i: int| 0 <= i < front.len() implies is_digit(#[trigger] front[i]) by {
            assert(front[i] == ds[i]);
        }
        lemma_trim_zeros(front);
        let t = trim_zeros(front);
        let k = (front.len() - t.len()) as nat;
        assert(decimal_value(ds) == decimal_value(front) * 10);
        assert(pow10(k + 1) == 10 * pow10(k));
        assert(decimal_value(t) * pow10(k + 1) == decimal_value(ds)) by (nonlinear_arith)
            requires
                decimal_value(t) * pow10(k) == decimal_value(front),
                decimal_value(ds) == decimal_value(front) * 10,
                pow10(k + 1) == 10 * pow10(k),
        ;
    } else {
        assert(decimal_value(ds) * pow10(0) == decimal_value(ds)) by (nonlinear_arith)
            requires
                pow10(0) == 1,
        ;
    }
}

} // verus!
