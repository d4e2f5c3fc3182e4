//! The reader of JSON, strict and extended: it follows the rules of the
//! grammar over the characters of a text.
use vstd::prelude::*;
use crate::parser::result_view;
use crate::error::{locate, ErrorKind, Expected, ParseError};
use crate::parser::grammar::{
    blank, decimal_numeral, digits_end, document, escape, exponent_end, find_key, float_of,
    has_word, hex_end, hex_number, hex_run, hex_value, holds, ident_piece, ident_rest,
    infinity_word, int_step, is_blank, is_hex_digit, is_ident_part, is_ident_start, is_line_end,
    is_number_tail, is_number_text, items, key, members, number, numeral, parse_text, put,
    string_body, value, Dialect, Skip, Step,
};
use crate::parser::Parser;
use crate::text::{chars_of, decimal_value, digit_value, is_digit, string_of, word3, word4, word5};
use crate::unicode::{
    is_connector, is_decimal_digit, is_letter, is_nonspacing_mark, is_spacing_mark,
};
use crate::{lemma_array_push, lemma_members_of, lemma_object_push, lemma_object_update};
use crate::{array_view, object_view, Float, Member, Tree, Value};

verus! {

/// A failure of a rule: why, and at which position of the text.
#[derive(Copy, Clone, Debug, PartialEq, Eq)]
pub struct Fault {
    pub kind: ErrorKind,
    pub at: usize,
}

/// Whether the dialect is the extended one.
pub fn extended(d: Dialect) -> (r: bool)
    ensures
        r == (d is Json5),
{
    match d {
        Dialect::Json => false,
        Dialect::Json5 => true,
    }
}

fn blank_char(c: char, d: Dialect) -> (r: bool)
    ensures
        r == is_blank(c, d),
{
    c == ' ' || c == '\n' || c == '\r' || c == '\t' || (extended(d) && (c == '\u{b}' || c
        == '\u{c}' || c == '\u{feff}' || ((c as u32) >= 0x80 && c.is_whitespace())))
}

fn line_end_char(c: char) -> (r: bool)
    ensures
        r == is_line_end(c),
{
    c == '\n' || c == '\r' || c == '\u{2028}' || c == '\u{2029}'
}

/// Skips white space, and comments in the extended dialect.
pub fn skip_blank(s: &Vec<char>, p: usize, d: Dialect) -> (r: Result<usize, Fault>)
    requires
        p <= s.len(),
    ensures
        match r {
            Ok(q) => blank(s@, p as int, d, Skip::Outside) == Step::Done((), q as int) && p <= q
                <= s.len(),
            Err(f) => blank(s@, p as int, d, Skip::Outside) == Step::<()>::Fail(f.kind, f.at as int)
                && f.at <= s.len(),
        },
{
    let json5 = extended(d);
    let mut i: usize = p;
    // 0: between tokens; 1: in a line comment; 2: in a block comment
    let mut mode: u8 = 0;
    let mut start: usize = 0;
    let ghost mut m = Skip::Outside;
    loop
        invariant
            p <= i <= s.len(),
            json5 == (d is Json5),
            mode <= 2,
            mode == 0 ==> m == Skip::Outside,
            mode == 1 ==> m == Skip::Line,
            mode == 2 ==> m == Skip::Block(start as int) && start <= s.len(),
            blank(s@, p as int, d, Skip::Outside) == blank(s@, i as int, d, m),
        decreases s.len() - i,
    {
        if i >= s.len() {
            if mode == 2 {
                return Err(Fault { kind: ErrorKind::Syntax(Expected::CommentEnd), at: start });
            } else {
                return Ok(i);
            }
        }
        let c = s[i];
        if mode == 0 {
            if blank_char(c, d) {
                i += 1;
            } else if json5 && c == '/' && i + 1 < s.len() && s[i + 1] == '/' {
                i += 2;
                mode = 1;
                proof {
                    m = Skip::Line;
                }
            } else if json5 && c == '/' && i + 1 < s.len() && s[i + 1] == '*' {
                start = i;
                i += 2;
                mode = 2;
                proof {
                    m = Skip::Block(start as int);
                }
            } else {
                return Ok(i);
            }
        } else if mode == 1 {
            if line_end_char(c) {
                mode = 0;
                proof {
                    m = Skip::Outside;
                }
            }
            i += 1;
        } else {
            if c == '*' && i + 1 < s.len() && s[i + 1] == '/' {
                i += 2;
                mode = 0;
                proof {
                    m = Skip::Outside;
                }
            } else {
                i += 1;
            }
        }
    }
}

fn digit_char(c: char) -> (r: bool)
    ensures
        r == is_digit(c),
{
    '0' <= c && c <= '9'
}

fn hex_digit_char(c: char) -> (r: bool)
    ensures
        r == is_hex_digit(c),
{
    ('0' <= c && c <= '9') || ('a' <= c && c <= 'f') || ('A' <= c && c <= 'F')
}

/// The number that the hexadecimal digit `c` stands for.
fn hex_digit_value(c: char) -> (r: u8)
    requires
        is_hex_digit(c),
    ensures
        r as int == hex_value(c),
        r < 16,
{
    if '0' <= c && c <= '9' {
        ((c as u32) - 48) as u8
    } else if 'a' <= c && c <= 'f' {
        ((c as u32) - 97 + 10) as u8
    } else {
        ((c as u32) - 65 + 10) as u8
    }
}

/// The position after the run of decimal digits at `p`.
pub fn scan_digits(s: &Vec<char>, p: usize) -> (q: usize)
    requires
        p <= s.len(),
    ensures
        q == digits_end(s@, p as int),
        p <= q <= s.len(),
        forall|i: int| p <= i < q ==> is_digit(#[trigger] s@[i]),
{
    let mut i: usize = p;
    while i < s.len() && digit_char(s[i])
        invariant
            p <= i <= s.len(),
            digits_end(s@, p as int) == digits_end(s@, i as int),
            forall|j: int| p <= j < i ==> is_digit(#[trigger] s@[j]),
        decreases s.len() - i,
    {
        i += 1;
    }
    i
}

/// The position after the run of hexadecimal digits at `p`.
pub fn scan_hex(s: &Vec<char>, p: usize) -> (q: usize)
    requires
        p <= s.len(),
    ensures
        q == hex_end(s@, p as int),
        p <= q <= s.len(),
        forall|i: int| p <= i < q ==> is_hex_digit(#[trigger] s@[i]),
{
    let mut i: usize = p;
    while i < s.len() && hex_digit_char(s[i])
        invariant
            p <= i <= s.len(),
            hex_end(s@, p as int) == hex_end(s@, i as int),
            forall|j: int| p <= j < i ==> is_hex_digit(#[trigger] s@[j]),
        decreases s.len() - i,
    {
        i += 1;
    }
    i
}

/// A longer run of digits denotes no smaller a number.
pub proof fn lemma_decimal_grows(ds: Seq<char>, k: int)
    requires
        0 <= k <= ds.len(),
        forall|i: int| 0 <= i < ds.len() ==> is_digit(#[trigger] ds[i]),
    ensures
        decimal_value(ds.take(k)) <= decimal_value(ds),
    decreases ds.len(),
{
    if k == ds.len() {
        assert(ds.take(k) =~= ds);
    } else {
        lemma_decimal_grows(ds.drop_last(), k);
        assert(ds.drop_last().take(k) =~= ds.take(k));
        assert(decimal_value(ds) >= decimal_value(ds.drop_last())) by (nonlinear_arith)
            requires
                decimal_value(ds) == decimal_value(ds.drop_last()) * 10 + digit_value(ds.last()),
                digit_value(ds.last()) >= 0,
        ;
    }
}

/// A longer run of hexadecimal digits denotes no smaller a number.
pub proof fn lemma_hex_grows(ds: Seq<char>, k: int)
    requires
        0 <= k <= ds.len(),
        forall|i: int| 0 <= i < ds.len() ==> is_hex_digit(#[trigger] ds[i]),
    ensures
        hex_number(ds.take(k)) <= hex_number(ds),
    decreases ds.len(),
{
    if k == ds.len() {
        assert(ds.take(k) =~= ds);
    } else {
        lemma_hex_grows(ds.drop_last(), k);
        assert(ds.drop_last().take(k) =~= ds.take(k));
        assert(hex_number(ds) >= hex_number(ds.drop_last())) by (nonlinear_arith)
            requires
                hex_number(ds) == hex_number(ds.drop_last()) * 16 + hex_value(ds.last()),
                hex_value(ds.last()) >= 0,
        ;
    }
}

/// The number that the decimal digits from `from` to `to` denote, where it
/// is below `2^128`.
pub fn decimal_magnitude(s: &Vec<char>, from: usize, to: usize) -> (r: Option<u128>)
    requires
        from <= to <= s.len(),
        forall|i: int| from <= i < to ==> is_digit(#[trigger] s@[i]),
    ensures
        match r {
            Some(v) => v == decimal_value(s@.subrange(from as int, to as int)),
            None => decimal_value(s@.subrange(from as int, to as int)) > u128::MAX,
        },
{
    let ghost all = s@.subrange(from as int, to as int);
    let mut acc: u128 = 0;
    let mut i: usize = from;
    while i < to
        invariant
            from <= i <= to <= s.len(),
            all == s@.subrange(from as int, to as int),
            forall|j: int| from <= j < to ==> is_digit(#[trigger] s@[j]),
            acc == decimal_value(s@.subrange(from as int, i as int)),
        decreases to - i,
    {
        let digit: u128 = ((s[i] as u32) - 48) as u128;
        proof {
            assert(s@.subrange(from as int, i + 1).drop_last() =~= s@.subrange(
                from as int,
                i as int,
            ));
            assert(all.take(i + 1 - from) =~= s@.subrange(from as int, i + 1));
            lemma_decimal_grows(all, i + 1 - from);
        }
        if acc > (u128::MAX - digit) / 10 {
            return None;
        }
        acc = acc * 10 + digit;
        i += 1;
    }
    Some(acc)
}

/// The number that the hexadecimal digits from `from` to `to` denote, where
/// it is below `2^128`.
pub fn hex_magnitude(s: &Vec<char>, from: usize, to: usize) -> (r: Option<u128>)
    requires
        from <= to <= s.len(),
        forall|i: int| from <= i < to ==> is_hex_digit(#[trigger] s@[i]),
    ensures
        match r {
            Some(v) => v == hex_number(s@.subrange(from as int, to as int)),
            None => hex_number(s@.subrange(from as int, to as int)) > u128::MAX,
        },
{
    let ghost all = s@.subrange(from as int, to as int);
    let mut acc: u128 = 0;
    let mut i: usize = from;
    while i < to
        invariant
            from <= i <= to <= s.len(),
            all == s@.subrange(from as int, to as int),
            forall|j: int| from <= j < to ==> is_hex_digit(#[trigger] s@[j]),
            acc == hex_number(s@.subrange(from as int, i as int)),
        decreases to - i,
    {
        let digit: u128 = hex_digit_value(s[i]) as u128;
        proof {
            assert(s@.subrange(from as int, i + 1).drop_last() =~= s@.subrange(
                from as int,
                i as int,
            ));
            assert(all.take(i + 1 - from) =~= s@.subrange(from as int, i + 1));
            lemma_hex_grows(all, i + 1 - from);
        }
        if acc > (u128::MAX - digit) / 16 {
            return None;
        }
        acc = acc * 16 + digit;
        i += 1;
    }
    Some(acc)
}

/// Whether `word` stands at the position `p` of `s`.
pub fn word_at(s: &Vec<char>, p: usize, word: &Vec<char>) -> (r: bool)
    requires
        p <= s.len(),
    ensures
        r == has_word(s@, p as int, word@),
{
    if word.len() > s.len() - p {
        return false;
    }
    let mut i: usize = 0;
    while i < word.len()
        invariant
            i <= word.len(),
            p + word.len() <= s.len(),
            s@.subrange(p as int, p + i) == word@.take(i as int),
        decreases word.len() - i,
    {
        if s[p + i] != word[i] {
            assert(s@.subrange(p as int, p + word.len())[i as int] != word@[i as int]);
            return false;
        }
        assert(s@.subrange(p as int, p + i + 1) =~= s@.subrange(p as int, p + i).push(
            s@[p + i],
        ));
        assert(word@.take(i + 1) =~= word@.take(i as int).push(word@[i as int]));
        i += 1;
    }
    assert(word@.take(word@.len() as int) =~= word@);
    true
}

fn infinity_chars() -> (w: Vec<char>)
    ensures
        w@ == infinity_word(),
{
    let mut w: Vec<char> = Vec::new();
    w.push('I');
    w.push('n');
    w.push('f');
    w.push('i');
    w.push('n');
    w.push('i');
    w.push('t');
    w.push('y');
    assert(w@ =~= infinity_word());
    w
}

/// The float whose literal stands from `from` to `to`.
fn float_value(s: &Vec<char>, from: usize, to: usize, negative: bool) -> (v: Value)
    requires
        from <= to <= s.len(),
    ensures
        v@ == float_of(negative, s@.subrange(from as int, to as int)),
{
    let mut text: Vec<char> = Vec::new();
    if negative {
        text.push('-');
    }
    let ghost head = text@;
    let mut i: usize = from;
    while i < to
        invariant
            from <= i <= to <= s.len(),
            text@ == head + s@.subrange(from as int, i as int),
        decreases to - i,
    {
        text.push(s[i]);
        assert(s@.subrange(from as int, i + 1) =~= s@.subrange(from as int, i as int).push(
            s@[i as int],
        ));
        assert(text@ =~= head + s@.subrange(from as int, i + 1));
        i += 1;
    }
    assert(head =~= if negative {
        seq!['-']
    } else {
        Seq::<char>::empty()
    });
    assert(Seq::<char>::empty() + s@.subrange(from as int, to as int) =~= s@.subrange(
        from as int,
        to as int,
    ));
    Value::Float(Float::Finite(string_of(&text)))
}

/// The integer of the given sign and magnitude, where it is in range.
fn int_value(negative: bool, magnitude: Option<u128>, p: usize, end: usize, Ghost(m): Ghost<nat>) -> (r:
    Result<(Value, usize), Fault>)
    requires
        match magnitude {
            Some(v) => v == m,
            None => m > u128::MAX,
        },
    ensures
        match r {
            Ok((v, q)) => int_step(negative, m, p as int, end as int) == Step::Done(v@, q as int)
                && q == end,
            Err(f) => int_step(negative, m, p as int, end as int) == Step::<Tree>::Fail(
                f.kind,
                f.at as int,
            ) && f.at == p,
        },
{
    let limit: u128 = i128::MAX as u128;
    match magnitude {
        Some(v) => {
            if negative {
                if v <= limit {
                    Ok((Value::Int(-(v as i128)), end))
                } else if v == limit + 1 {
                    Ok((Value::Int(i128::MIN), end))
                } else {
                    Err(Fault { kind: ErrorKind::NumericRange, at: p })
                }
            } else {
                if v <= limit {
                    Ok((Value::Int(v as i128), end))
                } else {
                    Err(Fault { kind: ErrorKind::NumericRange, at: p })
                }
            }
        },
        None => Err(Fault { kind: ErrorKind::NumericRange, at: p }),
    }
}

/// Reads a number at `p`.
pub fn parse_number(s: &Vec<char>, p: usize, d: Dialect) -> (r: Result<(Value, usize), Fault>)
    requires
        p < s.len(),
    ensures
        match r {
            Ok((v, q)) => number(s@, p as int, d) == Step::Done(v@, q as int) && p <= q <= s.len(),
            Err(f) => number(s@, p as int, d) == Step::<Tree>::Fail(f.kind, f.at as int) && f.at
                <= s.len(),
        },
{
    match parse_numeral(s, p, d) {
        Ok((v, e)) => {
            if e < s.len() && number_tail_char(s[e]) {
                Err(Fault { kind: ErrorKind::Syntax(Expected::Number), at: e })
            } else {
                Ok((v, e))
            }
        },
        Err(f) => Err(f),
    }
}

fn number_tail_char(c: char) -> (r: bool)
    ensures
        r == is_number_tail(c),
{
    digit_char(c) || ('a' <= c && c <= 'z') || ('A' <= c && c <= 'Z') || c == '.' || c == '+' || c
        == '-' || c == '_'
}

/// Reads a numeral at `p`.
fn parse_numeral(s: &Vec<char>, p: usize, d: Dialect) -> (r: Result<(Value, usize), Fault>)
    requires
        p < s.len(),
    ensures
        match r {
            Ok((v, q)) => numeral(s@, p as int, d) == Step::Done(v@, q as int) && p <= q <= s.len(),
            Err(f) => numeral(s@, p as int, d) == Step::<Tree>::Fail(f.kind, f.at as int) && f.at
                <= s.len(),
        },
{
    let json5 = extended(d);
    let negative = s[p] == '-';
    let u = if negative || (json5 && s[p] == '+') {
        p + 1
    } else {
        p
    };
    if json5 && word_at(s, u, &infinity_chars()) {
        Ok(
            (
                Value::Float(
                    if negative {
                        Float::NegInfinity
                    } else {
                        Float::Infinity
                    },
                ),
                u + 8,
            ),
        )
    } else if json5 && word_at(s, u, &word3('N', 'a', 'N')) {
        Ok((Value::Float(Float::Nan), u + 3))
    } else if json5 && u < s.len() && s.len() - u > 2 && s[u] == '0' && (s[u + 1] == 'x' || s[u + 1] == 'X')
        && hex_digit_char(s[u + 2]) {
        let end = scan_hex(s, u + 2);
        let magnitude = hex_magnitude(s, u + 2, end);
        int_value(
            negative,
            magnitude,
            p,
            end,
            Ghost(hex_number(s@.subrange(u + 2, end as int))),
        )
    } else if json5 && u < s.len() && s.len() - u > 1 && s[u] == '.' && digit_char(s[u + 1]) {
        let f = scan_digits(s, u + 1);
        let end = scan_exponent(s, f);
        Ok((float_value(s, u, end, negative), end))
    } else if u < s.len() && digit_char(s[u]) {
        parse_decimal(s, p, u, negative)
    } else {
        Err(Fault { kind: ErrorKind::Syntax(Expected::Digit), at: u })
    }
}

/// Reads the number in decimal digits that starts at `u`, behind the sign
/// where there is one.
fn parse_decimal(s: &Vec<char>, p: usize, u: usize, negative: bool) -> (r: Result<
    (Value, usize),
    Fault,
>)
    requires
        p <= u < s.len(),
        is_digit(s@[u as int]),
    ensures
        match r {
            Ok((v, q)) => decimal_numeral(s@, p as int, u as int, negative) == Step::Done(
                v@,
                q as int,
            ) && p <= q <= s.len(),
            Err(f) => decimal_numeral(s@, p as int, u as int, negative) == Step::<Tree>::Fail(
                f.kind,
                f.at as int,
            ) && f.at <= s.len(),
        },
{
    let i = if s[u] == '0' {
        u + 1
    } else {
        scan_digits(s, u)
    };
    let f = if i < s.len() && s.len() - i > 1 && s[i] == '.' && digit_char(s[i + 1]) {
        scan_digits(s, i + 1)
    } else {
        i
    };
    let end = scan_exponent(s, f);
    if end == i {
        assert forall|j: int| u <= j < i implies is_digit(#[trigger] s@[j]) by {}
        let magnitude = decimal_magnitude(s, u, i);
        int_value(negative, magnitude, p, i, Ghost(decimal_value(s@.subrange(u as int, i as int))))
    } else {
        Ok((float_value(s, u, end, negative), end))
    }
}

/// Whether `text` is, as a whole, a decimal number.
pub fn number_text(text: &str) -> (r: bool)
    ensures
        r == is_number_text(text@),
{
    let s = chars_of(text);
    let u: usize = if s.len() > 0 && s[0] == '-' {
        1
    } else {
        0
    };
    if u < s.len() && digit_char(s[u]) {
        let i = if s[u] == '0' {
            u + 1
        } else {
            scan_digits(&s, u)
        };
        let f = if i < s.len() && s.len() - i > 1 && s[i] == '.' && digit_char(s[i + 1]) {
            scan_digits(&s, i + 1)
        } else {
            i
        };
        scan_exponent(&s, f) == s.len()
    } else if u < s.len() && s.len() - u > 1 && s[u] == '.' && digit_char(s[u + 1]) {
        let f = scan_digits(&s, u + 1);
        scan_exponent(&s, f) == s.len()
    } else {
        false
    }
}

/// The position after the exponent at `p`.
fn scan_exponent(s: &Vec<char>, p: usize) -> (q: usize)
    requires
        p <= s.len(),
    ensures
        q == exponent_end(s@, p as int),
        p <= q <= s.len(),
{
    if p < s.len() && (s[p] == 'e' || s[p] == 'E') {
        let q = if p + 1 < s.len() && (s[p + 1] == '+' || s[p + 1] == '-') {
            p + 2
        } else {
            p + 1
        };
        if q < s.len() && digit_char(s[q]) {
            scan_digits(s, q)
        } else {
            p
        }
    } else {
        p
    }
}

/// The number that the `n` hexadecimal digits at `p` denote, where there
/// are that many.
fn hex_code(s: &Vec<char>, p: usize, n: usize) -> (r: Option<u32>)
    requires
        p <= s.len(),
        n <= 4,
    ensures
        match r {
            Some(v) => hex_run(s@, p as int, n as nat) == Some(v as int) && v <= 0xFFFF,
            None => hex_run(s@, p as int, n as nat) is None,
        },
{
    reveal_with_fuel(hex_run, 5);
    let mut acc: u32 = 0;
    let mut k: usize = 0;
    while k < n
        invariant
            k <= n <= 4,
            p <= s.len(),
            hex_run(s@, p as int, k as nat) == Some(acc as int),
            k == 0 ==> acc == 0,
            k == 1 ==> acc < 0x10,
            k == 2 ==> acc < 0x100,
            k == 3 ==> acc < 0x1000,
            k == 4 ==> acc < 0x10000,
        decreases n - k,
    {
        if k >= s.len() - p || !hex_digit_char(s[p + k]) {
            proof {
                lemma_hex_run_none(s@, p as int, (k + 1) as nat, n as nat);
            }
            return None;
        }
        acc = acc * 16 + hex_digit_value(s[p + k]) as u32;
        k += 1;
    }
    Some(acc)
}

/// Reads the escape at `e`, the position after a backslash.
pub fn parse_escape(s: &Vec<char>, e: usize, d: Dialect) -> (r: Result<(Option<char>, usize), Fault>)
    requires
        e <= s.len(),
    ensures
        match r {
            Ok((c, q)) => escape(s@, e as int, d) == Step::Done(c, q as int) && e <= q <= s.len(),
            Err(f) => escape(s@, e as int, d) == Step::<Option<char>>::Fail(f.kind, f.at as int)
                && f.at <= s.len(),
        },
{
    let json5 = extended(d);
    let bad = Fault { kind: ErrorKind::InvalidEscape, at: e };
    if e >= s.len() {
        return if json5 {
            Ok((None, e))
        } else {
            Err(bad)
        };
    }
    let c = s[e];
    if c == '"' || c == '\\' || c == '/' {
        Ok((Some(c), e + 1))
    } else if c == 'b' {
        Ok((Some('\u{8}'), e + 1))
    } else if c == 'f' {
        Ok((Some('\u{c}'), e + 1))
    } else if c == 'n' {
        Ok((Some('\n'), e + 1))
    } else if c == 'r' {
        Ok((Some('\r'), e + 1))
    } else if c == 't' {
        Ok((Some('\t'), e + 1))
    } else if c == 'u' {
        match hex_code(s, e + 1, 4) {
            Some(code) => match char::from_u32(code) {
                Some(ch) => {
                    proof {
                        lemma_hex_run_fits(s@, e + 1, 4);
                    }
                    Ok((Some(ch), e + 5))
                },
                None => Err(bad),
            },
            None => Err(bad),
        }
    } else if json5 {
        if c == '\'' {
            Ok((Some('\''), e + 1))
        } else if c == 'v' {
            Ok((Some('\u{b}'), e + 1))
        } else if c == 'x' {
            match hex_code(s, e + 1, 2) {
                Some(code) => {
                    proof {
                        lemma_hex_run_fits(s@, e + 1, 2);
                        reveal_with_fuel(hex_run, 3);
                    }
                    match char::from_u32(code) {
                        Some(ch) => Ok((Some(ch), e + 3)),
                        None => Err(bad),
                    }
                },
                None => Err(bad),
            }
        } else if line_end_char(c) {
            Ok((None, e + 1))
        } else {
            Ok((None, e))
        }
    } else {
        Err(bad)
    }
}

/// Where fewer digits are missing, more are.
pub proof fn lemma_hex_run_none(s: Seq<char>, p: int, k: nat, n: nat)
    requires
        k <= n,
        hex_run(s, p, k) is None,
    ensures
        hex_run(s, p, n) is None,
    decreases n,
{
    if k < n {
        lemma_hex_run_none(s, p, k, (n - 1) as nat);
    }
}

/// Where `n` hexadecimal digits stand at `p`, they stand inside the text.
pub proof fn lemma_hex_run_fits(s: Seq<char>, p: int, n: nat)
    requires
        hex_run(s, p, n) is Some,
        0 <= p <= s.len(),
    ensures
        p + n <= s.len(),
        0 <= hex_run(s, p, n)->0,
    decreases n,
{
    if n > 0 {
        lemma_hex_run_fits(s, p, (n - 1) as nat);
    }
}

/// Reads the rest of a string from `p` on, up to and with the closing
/// `quote`.
pub fn parse_string_body(s: &Vec<char>, p: usize, quote: char, d: Dialect) -> (r: Result<
    (Vec<char>, usize),
    Fault,
>)
    requires
        p <= s.len(),
    ensures
        match r {
            Ok((cs, q)) => string_body(s@, p as int, quote, d, Seq::empty()) == Step::Done(
                cs@,
                q as int,
            ) && p < q <= s.len(),
            Err(f) => string_body(s@, p as int, quote, d, Seq::empty()) == Step::<
                Seq<char>,
            >::Fail(f.kind, f.at as int) && f.at <= s.len(),
        },
{
    let mut acc: Vec<char> = Vec::new();
    let mut i: usize = p;
    loop
        invariant
            p <= i <= s.len(),
            string_body(s@, p as int, quote, d, Seq::empty()) == string_body(
                s@,
                i as int,
                quote,
                d,
                acc@,
            ),
        decreases s.len() - i,
    {
        if i >= s.len() {
            return Err(Fault { kind: ErrorKind::Syntax(Expected::ClosingQuote), at: i });
        }
        let c = s[i];
        if c == quote {
            return Ok((acc, i + 1));
        } else if c == '\\' {
            match parse_escape(s, i + 1, d) {
                Ok((ch, q)) => {
                    match ch {
                        Some(x) => {
                            acc.push(x);
                        },
                        None => {},
                    }
                    i = q;
                },
                Err(f) => {
                    return Err(f);
                },
            }
        } else if c == '\n' || c == '\r' {
            return Err(Fault { kind: ErrorKind::Syntax(Expected::ClosingQuote), at: i });
        } else {
            acc.push(c);
            i += 1;
        }
    }
}

fn ident_start_char(c: char) -> (r: bool)
    ensures
        r == is_ident_start(c),
{
    is_letter(c) || c == '$' || c == '_'
}

fn ident_part_char(c: char) -> (r: bool)
    ensures
        r == is_ident_part(c),
{
    ident_start_char(c) || is_nonspacing_mark(c) || is_spacing_mark(c) || is_decimal_digit(c)
        || is_connector(c) || c == '\u{200c}' || c == '\u{200d}'
}

/// Reads one character of an unquoted key at `p`.
fn parse_ident_piece(s: &Vec<char>, p: usize, first: bool) -> (r: Option<(char, usize)>)
    requires
        p <= s.len(),
    ensures
        match r {
            Some((c, q)) => ident_piece(s@, p as int, first) == Some((c, q as int)) && p < q
                <= s.len(),
            None => ident_piece(s@, p as int, first) is None,
        },
{
    if p >= s.len() {
        return None;
    }
    let c = s[p];
    if c == '\\' {
        if p + 1 < s.len() && s[p + 1] == 'u' {
            match hex_code(s, p + 2, 4) {
                Some(code) => match char::from_u32(code) {
                    Some(ch) => {
                        proof {
                            lemma_hex_run_fits(s@, p + 2, 4);
                        }
                        Some((ch, p + 6))
                    },
                    None => None,
                },
                None => None,
            }
        } else {
            None
        }
    } else if (first && ident_start_char(c)) || (!first && ident_part_char(c)) {
        Some((c, p + 1))
    } else {
        None
    }
}

/// Reads the key of a member at `p`.
pub fn parse_key(s: &Vec<char>, p: usize, d: Dialect) -> (r: Result<(String, usize), Fault>)
    requires
        p <= s.len(),
    ensures
        match r {
            Ok((k, q)) => key(s@, p as int, d) == Step::Done(k@, q as int) && p < q <= s.len(),
            Err(f) => key(s@, p as int, d) == Step::<Seq<char>>::Fail(f.kind, f.at as int) && f.at
                <= s.len(),
        },
{
    let json5 = extended(d);
    if p < s.len() && s[p] == '"' {
        match parse_string_body(s, p + 1, '"', d) {
            Ok((cs, q)) => Ok((string_of(&cs), q)),
            Err(f) => Err(f),
        }
    } else if json5 && p < s.len() && s[p] == '\'' {
        match parse_string_body(s, p + 1, '\'', d) {
            Ok((cs, q)) => Ok((string_of(&cs), q)),
            Err(f) => Err(f),
        }
    } else if json5 {
        match parse_ident_piece(s, p, true) {
            Some((c, q)) => {
                let mut acc: Vec<char> = Vec::new();
                acc.push(c);
                assert(acc@ =~= seq![c]);
                let mut i: usize = q;
                loop
                    invariant
                        p < i <= s.len(),
                        d is Json5,
                        !holds(s@, p as int, '"'),
                        !holds(s@, p as int, '\''),
                        ident_piece(s@, p as int, true) == Some((c, q as int)),
                        ident_rest(s@, q as int, seq![c]) == ident_rest(s@, i as int, acc@),
                    decreases s.len() - i,
                {
                    match parse_ident_piece(s, i, false) {
                        Some((x, n)) => {
                            acc.push(x);
                            i = n;
                        },
                        None => {
                            return Ok((string_of(&acc), i));
                        },
                    }
                }
            },
            None => Err(Fault { kind: ErrorKind::Syntax(Expected::Key), at: p }),
        }
    } else {
        Err(Fault { kind: ErrorKind::Syntax(Expected::Key), at: p })
    }
}

/// Puts `value` under `key`: in the place of the member that has the key,
/// or at the end where none has it.
pub fn put_member(ms: &mut Vec<Member>, key: String, value: Value)
    ensures
        object_view(final(ms)@) == put(object_view(old(ms)@), key@, value@),
{
    let ghost before = object_view(ms@);
    proof {
        lemma_members_of(ms@, ms@.len());
    }
    let mut i: usize = 0;
    while i < ms.len()
        invariant
            i <= ms.len(),
            ms@ == old(ms)@,
            before == object_view(ms@),
            before.len() == ms@.len(),
            forall|j: int| 0 <= j < ms@.len() ==> before[j] == ((#[trigger] ms@[j]).key@, ms@[j].value@),
            find_key(before, key@, 0) == find_key(before, key@, i as int),
        decreases ms.len() - i,
    {
        if ms[i].key == key {
            let m = Member { key, value };
            proof {
                lemma_object_update(ms@, i as int, m);
            }
            ms.set(i, m);
            return ;
        }
        i += 1;
    }
    let m = Member { key, value };
    proof {
        lemma_object_push(ms@, m);
    }
    ms.push(m);
}

/// Reads a value at `p`.
pub fn parse_value(s: &Vec<char>, p: usize, d: Dialect) -> (r: Result<(Value, usize), Fault>)
    requires
        p <= s.len(),
    ensures
        match r {
            Ok((v, q)) => value(s@, p as int, d) == Step::Done(v@, q as int) && p <= q <= s.len(),
            Err(f) => value(s@, p as int, d) == Step::<Tree>::Fail(f.kind, f.at as int) && f.at
                <= s.len(),
        },
    decreases s.len() - p, 0nat,
{
    let json5 = extended(d);
    if p >= s.len() {
        return Err(Fault { kind: ErrorKind::Syntax(Expected::Value), at: p });
    }
    let c = s[p];
    if c == '{' {
        match skip_blank(s, p + 1, d) {
            Ok(q) => {
                if q < s.len() && s[q] == '}' {
                    let v = Value::Object(Vec::new());
                    assert(v@ == Tree::Object(Seq::empty()));
                    Ok((v, q + 1))
                } else {
                    parse_members(s, q, d)
                }
            },
            Err(f) => Err(f),
        }
    } else if c == '[' {
        match skip_blank(s, p + 1, d) {
            Ok(q) => {
                if q < s.len() && s[q] == ']' {
                    let v = Value::Array(Vec::new());
                    assert(v@ == Tree::Array(Seq::empty()));
                    Ok((v, q + 1))
                } else {
                    parse_items(s, q, d)
                }
            },
            Err(f) => Err(f),
        }
    } else if c == '"' {
        match parse_string_body(s, p + 1, '"', d) {
            Ok((cs, q)) => Ok((Value::String(string_of(&cs)), q)),
            Err(f) => Err(f),
        }
    } else if json5 && c == '\'' {
        match parse_string_body(s, p + 1, '\'', d) {
            Ok((cs, q)) => Ok((Value::String(string_of(&cs)), q)),
            Err(f) => Err(f),
        }
    } else if word_at(s, p, &word4('t', 'r', 'u', 'e')) {
        Ok((Value::Boolean(true), p + 4))
    } else if word_at(s, p, &word5('f', 'a', 'l', 's', 'e')) {
        Ok((Value::Boolean(false), p + 5))
    } else if word_at(s, p, &word4('n', 'u', 'l', 'l')) {
        Ok((Value::Null, p + 4))
    } else if c == '-' || digit_char(c) || (json5 && (c == '+' || c == '.' || c == 'I' || c
        == 'N')) {
        parse_number(s, p, d)
    } else {
        Err(Fault { kind: ErrorKind::Syntax(Expected::Value), at: p })
    }
}

/// Reads the elements of an array from `p` on, where the first one
/// starts, up to and with the closing bracket.
fn parse_items(s: &Vec<char>, p: usize, d: Dialect) -> (r: Result<(Value, usize), Fault>)
    requires
        p <= s.len(),
    ensures
        match r {
            Ok((v, q)) => items(s@, p as int, d, Seq::empty()) == Step::Done(v@, q as int) && p
                <= q <= s.len(),
            Err(f) => items(s@, p as int, d, Seq::empty()) == Step::<Tree>::Fail(
                f.kind,
                f.at as int,
            ) && f.at <= s.len(),
        },
    decreases s.len() - p, 1nat,
{
    let json5 = extended(d);
    let mut acc: Vec<Value> = Vec::new();
    let mut i: usize = p;
    assert(array_view(acc@) =~= Seq::empty());
    loop
        invariant
            p <= i <= s.len(),
            json5 == (d is Json5),
            items(s@, p as int, d, Seq::empty()) == items(s@, i as int, d, array_view(acc@)),
        decreases s.len() - i,
    {
        let (v, q) = match parse_value(s, i, d) {
            Ok(x) => x,
            Err(f) => {
                return Err(f);
            },
        };
        proof {
            lemma_array_push(acc@, v);
        }
        acc.push(v);
        let r = match skip_blank(s, q, d) {
            Ok(x) => x,
            Err(f) => {
                return Err(f);
            },
        };
        if r < s.len() && s[r] == ']' {
            return Ok((Value::Array(acc), r + 1));
        } else if r < s.len() && s[r] == ',' {
            let n = match skip_blank(s, r + 1, d) {
                Ok(x) => x,
                Err(f) => {
                    return Err(f);
                },
            };
            if json5 && n < s.len() && s[n] == ']' {
                return Ok((Value::Array(acc), n + 1));
            }
            i = n;
        } else {
            return Err(Fault { kind: ErrorKind::Syntax(Expected::CommaOrBracket), at: r });
        }
    }
}

/// Reads the members of an object from `p` on, where the first key
/// starts, up to and with the closing brace.
fn parse_members(s: &Vec<char>, p: usize, d: Dialect) -> (r: Result<(Value, usize), Fault>)
    requires
        p <= s.len(),
    ensures
        match r {
            Ok((v, q)) => members(s@, p as int, d, Seq::empty()) == Step::Done(v@, q as int) && p
                <= q <= s.len(),
            Err(f) => members(s@, p as int, d, Seq::empty()) == Step::<Tree>::Fail(
                f.kind,
                f.at as int,
            ) && f.at <= s.len(),
        },
    decreases s.len() - p, 1nat,
{
    let json5 = extended(d);
    let mut acc: Vec<Member> = Vec::new();
    let mut i: usize = p;
    assert(object_view(acc@) =~= Seq::empty());
    loop
        invariant
            p <= i <= s.len(),
            json5 == (d is Json5),
            members(s@, p as int, d, Seq::empty()) == members(s@, i as int, d, object_view(acc@)),
        decreases s.len() - i,
    {
        let (k, q) = match parse_key(s, i, d) {
            Ok(x) => x,
            Err(f) => {
                return Err(f);
            },
        };
        let c = match skip_blank(s, q, d) {
            Ok(x) => x,
            Err(f) => {
                return Err(f);
            },
        };
        if !(c < s.len() && s[c] == ':') {
            return Err(Fault { kind: ErrorKind::Syntax(Expected::Colon), at: c });
        }
        let b = match skip_blank(s, c + 1, d) {
            Ok(x) => x,
            Err(f) => {
                return Err(f);
            },
        };
        let (v, e) = match parse_value(s, b, d) {
            Ok(x) => x,
            Err(f) => {
                return Err(f);
            },
        };
        put_member(&mut acc, k, v);
        let r = match skip_blank(s, e, d) {
            Ok(x) => x,
            Err(f) => {
                return Err(f);
            },
        };
        if r < s.len() && s[r] == '}' {
            return Ok((Value::Object(acc), r + 1));
        } else if r < s.len() && s[r] == ',' {
            let n = match skip_blank(s, r + 1, d) {
                Ok(x) => x,
                Err(f) => {
                    return Err(f);
                },
            };
            if json5 && n < s.len() && s[n] == '}' {
                return Ok((Value::Object(acc), n + 1));
            }
            i = n;
        } else {
            return Err(Fault { kind: ErrorKind::Syntax(Expected::CommaOrBrace), at: r });
        }
    }
}

/// Reads a whole document.
pub fn parse_document(s: &str, d: Dialect) -> (r: Result<Value, ParseError>)
    ensures
        result_view(r) == parse_text(s@, d),
        r matches Ok(v) ==> v@.wf(),
{
    proof {
        crate::laws::wellformed::lemma_parse_text_wf(s@, d);
    }
    let cs = chars_of(s);
    let p = match skip_blank(&cs, 0, d) {
        Ok(x) => x,
        Err(f) => {
            return Err(locate(&cs, f.kind, f.at));
        },
    };
    let (v, q) = match parse_value(&cs, p, d) {
        Ok(x) => x,
        Err(f) => {
            return Err(locate(&cs, f.kind, f.at));
        },
    };
    let r = match skip_blank(&cs, q, d) {
        Ok(x) => x,
        Err(f) => {
            return Err(locate(&cs, f.kind, f.at));
        },
    };
    if r >= cs.len() {
        Ok(v)
    } else {
        Err(locate(&cs, ErrorKind::UnexpectedTrailingInput, r))
    }
}

/// JSON parser.
#[derive(Copy, Clone, Debug, PartialEq, Eq)]
pub struct JsonParser;

impl Parser for JsonParser {
    /// What `s` stands for as strict JSON.
    open spec fn parsed(&self, s: Seq<char>) -> Result<Tree, ParseError> {
        parse_text(s, Dialect::Json)
    }

    fn parse(&self, s: &str) -> (r: Result<Value, ParseError>) {
        parse_document(s, Dialect::Json)
    }
}

} // verus!
