//! Characters, digits and decimal numerals.
use vstd::prelude::*;

verus! {

/// The digit that writes `d` in base ten, for `d` below ten.
pub open spec fn digit_char(d: int) -> char {
    if d == 0 {
        '0'
    } else if d == 1 {
        '1'
    } else if d == 2 {
        '2'
    } else if d == 3 {
        '3'
    } else if d == 4 {
        '4'
    } else if d == 5 {
        '5'
    } else if d == 6 {
        '6'
    } else if d == 7 {
        '7'
    } else if d == 8 {
        '8'
    } else {
        '9'
    }
}

/// Whether `c` is one of `0` to `9`.
pub open spec fn is_digit(c: char) -> bool {
    '0' <= c <= '9'
}

/// The number that the decimal digit `c` stands for.
pub open spec fn digit_value(c: char) -> int {
    c as int - '0' as int
}

/// The shortest decimal numeral of `n`.
pub open spec fn decimal(n: nat) -> Seq<char>
    decreases n,
{
    if n < 10 {
        seq![digit_char(n as int)]
    } else {
        decimal(n / 10).push(digit_char((n % 10) as int))
    }
}

/// The number that a run of decimal digits denotes; the empty run denotes zero.
pub open spec fn decimal_value(ds: Seq<char>) -> nat
    decreases ds.len(),
{
    if ds.len() == 0 {
        0
    } else {
        (decimal_value(ds.drop_last()) * 10 + digit_value(ds.last())) as nat
    }
}

/// The decimal numeral of an integer, with `-` before a negative one.
pub open spec fn int_text(i: int) -> Seq<char> {
    if i < 0 {
        seq!['-'] + decimal((-i) as nat)
    } else {
        decimal(i as nat)
    }
}

/// `n` copies of `c`.
pub open spec fn repeat(c: char, n: nat) -> Seq<char> {
    Seq::new(n, |i: int| c)
}

/// The decimal numeral of `n`, with zeros in front up to `width` characters.
pub open spec fn padded(n: nat, width: nat) -> Seq<char> {
    if decimal(n).len() >= width {
        decimal(n)
    } else {
        repeat('0', (width - decimal(n).len()) as nat) + decimal(n)
    }
}

/// `String::push` appends the one character to the end of the string and
/// changes nothing else of it.
pub assume_specification[ std::string::String::push ](s: &mut std::string::String, c: char)
    ensures
        final(s)@ == old(s)@.push(c),
;

/// `char::from_u32` gives the character with the code point `i` where `i` is
/// a Unicode scalar value, that is, outside the surrogate range and at most
/// `0x10FFFF`, and `None` otherwise.
pub assume_specification[ char::from_u32 ](i: u32) -> (r: Option<char>)
    ensures
        r == if is_scalar(i as int) { Some(i as char) } else { None::<char> },
;

/// Whether `i` is the code point of a character.
pub open spec fn is_scalar(i: int) -> bool {
    0 <= i <= 0xD7FF || 0xE000 <= i <= 0x10FFFF
}

/// The string that holds the characters of `v`, in order.
pub fn string_of(v: &Vec<char>) -> (s: String)
    ensures
        s@ == v@,
{
    let mut s = String::new();
    let mut i: usize = 0;
    while i < v.len()
        invariant
            i <= v.len(),
            s@ == v@.take(i as int),
        decreases v.len() - i,
    {
        s.push(v[i]);
        assert(v@.take(i + 1) =~= v@.take(i as int).push(v@[i as int]));
        i += 1;
    }
    assert(v@.take(v@.len() as int) =~= v@);
    s
}

/// The characters of `s`, in order.
pub fn chars_of(s: &str) -> (v: Vec<char>)
    ensures
        v@ == s@,
{
    let mut v: Vec<char> = Vec::new();
    for c in it: s.chars()
        invariant
            it.seq() == s@,
            v@ == s@.take(it.index() as int),
    {
        v.push(c);
        assert(s@.take(it.index() + 1) =~= s@.take(it.index() as int).push(c));
    }
    assert(s@.take(s@.len() as int) =~= s@);
    v
}

/// Appends the characters of `other`.
pub fn append(buf: &mut Vec<char>, other: &Vec<char>)
    ensures
        final(buf)@ == old(buf)@ + other@,
{
    let mut i: usize = 0;
    while i < other.len()
        invariant
            i <= other.len(),
            buf@ == old(buf)@ + other@.take(i as int),
        decreases other.len() - i,
    {
        buf.push(other[i]);
        assert(other@.take(i + 1) =~= other@.take(i as int).push(other@[i as int]));
        assert(buf@ =~= old(buf)@ + other@.take(i + 1));
        i += 1;
    }
    assert(other@.take(other@.len() as int) =~= other@);
}

/// Appends the characters of `s`.
pub fn append_str(buf: &mut Vec<char>, s: &str)
    ensures
        final(buf)@ == old(buf)@ + s@,
{
    let cs = chars_of(s);
    append(buf, &cs);
}

/// The two characters as a word.
pub fn word2(a: char, b: char) -> (w: Vec<char>)
    ensures
        w@ == seq![a, b],
{
    let mut w: Vec<char> = Vec::new();
    w.push(a);
    w.push(b);
    assert(w@ =~= seq![a, b]);
    w
}

/// The three characters as a word.
pub fn word3(a: char, b: char, c: char) -> (w: Vec<char>)
    ensures
        w@ == seq![a, b, c],
{
    let mut w: Vec<char> = Vec::new();
    w.push(a);
    w.push(b);
    w.push(c);
    assert(w@ =~= seq![a, b, c]);
    w
}

/// The four characters as a word.
pub fn word4(a: char, b: char, c: char, d: char) -> (w: Vec<char>)
    ensures
        w@ == seq![a, b, c, d],
{
    let mut w: Vec<char> = Vec::new();
    w.push(a);
    w.push(b);
    w.push(c);
    w.push(d);
    assert(w@ =~= seq![a, b, c, d]);
    w
}

/// The five characters as a word.
pub fn word5(a: char, b: char, c: char, d: char, e: char) -> (w: Vec<char>)
    ensures
        w@ == seq![a, b, c, d, e],
{
    let mut w: Vec<char> = Vec::new();
    w.push(a);
    w.push(b);
    w.push(c);
    w.push(d);
    w.push(e);
    assert(w@ =~= seq![a, b, c, d, e]);
    w
}

/// The digit that writes `d`.
pub fn digit_of(d: u8) -> (c: char)
    requires
        d < 10,
    ensures
        c == digit_char(d as int),
{
    (48u8 + d) as char
}

/// Appends the decimal numeral of `n`.
pub fn push_decimal(buf: &mut Vec<char>, n: u128)
    ensures
        final(buf)@ == old(buf)@ + decimal(n as nat),
    decreases n,
{
    if n >= 10 {
        push_decimal(buf, n / 10);
    }
    buf.push(digit_of((n % 10) as u8));
    assert(buf@ =~= old(buf)@ + decimal(n as nat));
}

/// Appends the decimal numeral of `i`, with `-` before a negative one.
pub fn push_int(buf: &mut Vec<char>, i: i128)
    ensures
        final(buf)@ == old(buf)@ + int_text(i as int),
{
    if i < 0 {
        buf.push('-');
        let m: u128 = ((-(i + 1)) as u128) + 1;
        push_decimal(buf, m);
        assert(buf@ =~= old(buf)@ + int_text(i as int));
    } else {
        push_decimal(buf, i as u128);
    }
}

/// Appends the decimal numeral of `n`, with zeros in front up to `width`
/// characters.
pub fn push_padded(buf: &mut Vec<char>, n: u64, width: usize)
    ensures
        final(buf)@ == old(buf)@ + padded(n as nat, width as nat),
{
    let mut digits: Vec<char> = Vec::new();
    push_decimal(&mut digits, n as u128);
    assert(digits@ =~= decimal(n as nat));
    let mut k: usize = digits.len();
    while k < width
        invariant
            digits.len() <= k,
            k <= width || k == digits.len(),
            digits@ == decimal(n as nat),
            buf@ == old(buf)@ + repeat('0', (k - digits.len()) as nat),
        decreases width - k,
    {
        buf.push('0');
        assert(buf@ =~= old(buf)@ + repeat('0', (k + 1 - digits.len()) as nat));
        k += 1;
    }
    append(buf, &digits);
    assert(buf@ =~= old(buf)@ + padded(n as nat, width as nat));
}

} // verus!
