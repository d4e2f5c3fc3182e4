//! The grammar of JSON, strict and extended, as one set of rules: the
//! extended dialect accepts what the strict one accepts, and more.
//!
//! A rule looks at a text from a position on and says what stands there
//! and where it ends, or why nothing does.
use vstd::prelude::*;
use crate::error::{error_at, ErrorKind, Expected, ParseError};
use crate::text::{decimal_value, is_digit, is_scalar};
use crate::unicode::{
    unicode_connector, unicode_decimal_digit, unicode_letter, unicode_nonspacing_mark,
    unicode_spacing_mark, unicode_white_space,
};
use crate::{FloatView, Tree};

verus! {

/// Which of the two grammars is read.
#[derive(Copy, Clone, Debug, PartialEq, Eq)]
pub enum Dialect {
    /// Strict JSON.
    Json,
    /// JSON with comments, unquoted keys, trailing commas, single-quoted
    /// strings, more escapes and more numerals.
    Json5,
}

/// What a rule of a grammar makes of the text from some position on.
pub enum Step<T> {
    /// The rule matched: its value, and the position after what it read.
    Done(T, int),
    /// The rule failed: why, and where.
    Fail(ErrorKind, int),
}

/// `step`, as long as it ends between `p` and the end of `s`. No rule ends
/// before the place where it started, nor after the end of the text; to say
/// so here shows that the rules end.
pub open spec fn onward<T>(s: Seq<char>, p: int, step: Step<T>) -> Step<T> {
    match step {
        Step::Done(_, q) => if q < p || q > s.len() {
            Step::Fail(ErrorKind::Syntax(Expected::Value), p)
        } else {
            step
        },
        Step::Fail(_, _) => step,
    }
}

/// Whether the character `c` stands at the position `p` of `s`.
pub open spec fn holds(s: Seq<char>, p: int, c: char) -> bool {
    0 <= p < s.len() && s[p] == c
}

/// Whether `word` stands at the position `p` of `s`.
pub open spec fn has_word(s: Seq<char>, p: int, word: Seq<char>) -> bool {
    0 <= p && p + word.len() <= s.len() && s.subrange(p, p + word.len()) == word
}

/// Whether a decimal digit stands at the position `p` of `s`.
pub open spec fn has_digit(s: Seq<char>, p: int) -> bool {
    0 <= p < s.len() && is_digit(s[p])
}

/// Whether `c` is a hexadecimal digit, in either case.
pub open spec fn is_hex_digit(c: char) -> bool {
    is_digit(c) || 'a' <= c <= 'f' || 'A' <= c <= 'F'
}

/// Whether a hexadecimal digit stands at the position `p` of `s`.
pub open spec fn has_hex_digit(s: Seq<char>, p: int) -> bool {
    0 <= p < s.len() && is_hex_digit(s[p])
}

/// The number that the hexadecimal digit `c` stands for.
pub open spec fn hex_value(c: char) -> int {
    if is_digit(c) {
        c as int - '0' as int
    } else if 'a' <= c <= 'f' {
        c as int - 'a' as int + 10
    } else {
        c as int - 'A' as int + 10
    }
}

/// The number that a run of hexadecimal digits denotes.
pub open spec fn hex_number(ds: Seq<char>) -> nat
    decreases ds.len(),
{
    if ds.len() == 0 {
        0
    } else {
        (hex_number(ds.drop_last()) * 16 + hex_value(ds.last())) as nat
    }
}

/// The white space of strict JSON.
pub open spec fn is_space(c: char) -> bool {
    c == ' ' || c == '\n' || c == '\r' || c == '\t'
}

/// What ends a line.
pub open spec fn is_line_end(c: char) -> bool {
    c == '\n' || c == '\r' || c == '\u{2028}' || c == '\u{2029}'
}

/// The white space of the dialect: in the extended one also the vertical
/// tab, the form feed, the byte order mark, and every character beyond
/// ASCII that has the Unicode property White_Space.
pub open spec fn is_blank(c: char, d: Dialect) -> bool {
    is_space(c) || (d is Json5 && (c == '\u{b}' || c == '\u{c}' || c == '\u{feff}' || (c as int
        >= 0x80 && unicode_white_space(c))))
}

/// Where the reader of white space stands.
pub enum Skip {
    /// Between tokens.
    Outside,
    /// In a comment that runs to the end of the line.
    Line,
    /// In a comment that started at the given position and runs to `*/`.
    Block(int),
}

/// The position of the first character from `p` on that is neither white
/// space nor part of a comment. Comments belong to the extended dialect: `//`
/// to the end of the line, and `/*` to the next `*/`, without which the
/// rule fails at the start of the comment.
pub open spec fn blank(s: Seq<char>, p: int, d: Dialect, mode: Skip) -> Step<()>
    decreases s.len() - p,
{
    if p < 0 || p >= s.len() {
        match mode {
            Skip::Block(start) => Step::Fail(ErrorKind::Syntax(Expected::CommentEnd), start),
            _ => Step::Done((), p),
        }
    } else {
        match mode {
            Skip::Outside => if is_blank(s[p], d) {
                blank(s, p + 1, d, Skip::Outside)
            } else if d is Json5 && s[p] == '/' && holds(s, p + 1, '/') {
                blank(s, p + 2, d, Skip::Line)
            } else if d is Json5 && s[p] == '/' && holds(s, p + 1, '*') {
                blank(s, p + 2, d, Skip::Block(p))
            } else {
                Step::Done((), p)
            },
            Skip::Line => if is_line_end(s[p]) {
                blank(s, p + 1, d, Skip::Outside)
            } else {
                blank(s, p + 1, d, Skip::Line)
            },
            Skip::Block(start) => if s[p] == '*' && holds(s, p + 1, '/') {
                blank(s, p + 2, d, Skip::Outside)
            } else {
                blank(s, p + 1, d, Skip::Block(start))
            },
        }
    }
}

/// The position after the run of decimal digits that starts at `p`.
pub open spec fn digits_end(s: Seq<char>, p: int) -> int
    decreases s.len() - p,
{
    if has_digit(s, p) {
        digits_end(s, p + 1)
    } else {
        p
    }
}

/// The position after the run of hexadecimal digits that starts at `p`.
pub open spec fn hex_end(s: Seq<char>, p: int) -> int
    decreases s.len() - p,
{
    if has_hex_digit(s, p) {
        hex_end(s, p + 1)
    } else {
        p
    }
}

/// The position after the integer part at `p`: a single `0`, or a run of
/// digits that starts with another digit.
pub open spec fn int_end(s: Seq<char>, p: int) -> int {
    if holds(s, p, '0') {
        p + 1
    } else {
        digits_end(s, p)
    }
}

/// The position after the fraction at `p`, a point and at least one digit;
/// `p` itself where there is none.
pub open spec fn fraction_end(s: Seq<char>, p: int) -> int {
    if holds(s, p, '.') && has_digit(s, p + 1) {
        digits_end(s, p + 1)
    } else {
        p
    }
}

/// The position after the exponent at `p`: `e` or `E`, an optional sign and
/// at least one digit; `p` itself where there is none.
pub open spec fn exponent_end(s: Seq<char>, p: int) -> int {
    if holds(s, p, 'e') || holds(s, p, 'E') {
        let q = if holds(s, p + 1, '+') || holds(s, p + 1, '-') {
            p + 2
        } else {
            p + 1
        };
        if has_digit(s, q) {
            digits_end(s, q)
        } else {
            p
        }
    } else {
        p
    }
}

/// Where the decimal number at `q` ends: an optional `-`, then an integer
/// part with an optional fraction and an optional exponent, or a fraction
/// without an integer part with an optional exponent. Where there is no
/// such number, `-1`.
pub open spec fn number_end_at(s: Seq<char>, q: int) -> int {
    let u = if holds(s, q, '-') {
        q + 1
    } else {
        q
    };
    if has_digit(s, u) {
        exponent_end(s, fraction_end(s, int_end(s, u)))
    } else if holds(s, u, '.') && has_digit(s, u + 1) {
        exponent_end(s, digits_end(s, u + 1))
    } else {
        -1
    }
}

/// Where the decimal number at the start of `t` ends.
pub open spec fn number_text_end(t: Seq<char>) -> int {
    number_end_at(t, 0)
}

/// Whether `t` is, as a whole, a decimal number.
pub open spec fn is_number_text(t: Seq<char>) -> bool {
    number_text_end(t) == t.len()
}

/// The integer of the given sign and magnitude, which the text from `p` to
/// `end` denotes; a failure where it is out of the range of `Int`.
pub open spec fn int_step(negative: bool, magnitude: nat, p: int, end: int) -> Step<Tree> {
    let i = if negative {
        -(magnitude as int)
    } else {
        magnitude as int
    };
    if i128::MIN <= i <= i128::MAX {
        Step::Done(Tree::Int(i), end)
    } else {
        Step::Fail(ErrorKind::NumericRange, p)
    }
}

/// The float whose literal is `lexeme`, with `-` in front where it is
/// negative.
pub open spec fn float_of(negative: bool, lexeme: Seq<char>) -> Tree {
    Tree::Float(
        FloatView::Finite(
            if negative {
                seq!['-'] + lexeme
            } else {
                lexeme
            },
        ),
    )
}

/// The word `Infinity`.
pub open spec fn infinity_word() -> Seq<char> {
    seq!['I', 'n', 'f', 'i', 'n', 'i', 't', 'y']
}

/// The word `NaN`.
pub open spec fn nan_word() -> Seq<char> {
    seq!['N', 'a', 'N']
}

/// The number in decimal digits that `numeral` describes last: an
/// integer, or a float with a fraction or an exponent.
pub open spec fn decimal_numeral(s: Seq<char>, p: int, u: int, negative: bool) -> Step<Tree> {
    let i = int_end(s, u);
    let end = exponent_end(s, fraction_end(s, i));
    if end == i {
        int_step(negative, decimal_value(s.subrange(u, i)), p, i)
    } else {
        Step::Done(float_of(negative, s.subrange(u, end)), end)
    }
}

/// Whether `c` may not stand directly behind a number: a letter, a digit,
/// `.`, `+`, `-` or `_`.
pub open spec fn is_number_tail(c: char) -> bool {
    is_digit(c) || 'a' <= c <= 'z' || 'A' <= c <= 'Z' || c == '.' || c == '+' || c == '-' || c
        == '_'
}

/// A number at `p`: a numeral that ends where no character follows that
/// would make it a malformed one.
pub open spec fn number(s: Seq<char>, p: int, d: Dialect) -> Step<Tree> {
    match numeral(s, p, d) {
        Step::Done(v, e) => if 0 <= e < s.len() && is_number_tail(s[e]) {
            Step::Fail(ErrorKind::Syntax(Expected::Number), e)
        } else {
            Step::Done(v, e)
        },
        Step::Fail(kind, at) => Step::Fail(kind, at),
    }
}

/// A numeral at `p`.
///
/// Strict: an optional `-`, the integer part, an optional fraction, an
/// optional exponent. With neither fraction nor exponent it is an `Int`,
/// otherwise a `Float` that keeps the literal.
///
/// Extended: also a `+` in front, `Infinity`, `NaN`, a hexadecimal integer
/// after `0x` or `0X`, and a fraction without an integer part.
pub open spec fn numeral(s: Seq<char>, p: int, d: Dialect) -> Step<Tree> {
    let negative = holds(s, p, '-');
    let u = if negative || (d is Json5 && holds(s, p, '+')) {
        p + 1
    } else {
        p
    };
    if d is Json5 && has_word(s, u, infinity_word()) {
        Step::Done(
            Tree::Float(
                if negative {
                    FloatView::NegInfinity
                } else {
                    FloatView::Infinity
                },
            ),
            u + 8,
        )
    } else if d is Json5 && has_word(s, u, nan_word()) {
        Step::Done(Tree::Float(FloatView::Nan), u + 3)
    } else if d is Json5 && holds(s, u, '0') && (holds(s, u + 1, 'x') || holds(s, u + 1, 'X'))
        && has_hex_digit(s, u + 2) {
        let end = hex_end(s, u + 2);
        int_step(negative, hex_number(s.subrange(u + 2, end)), p, end)
    } else if d is Json5 && holds(s, u, '.') && has_digit(s, u + 1) {
        let end = exponent_end(s, digits_end(s, u + 1));
        Step::Done(float_of(negative, s.subrange(u, end)), end)
    } else if has_digit(s, u) {
        decimal_numeral(s, p, u, negative)
    } else {
        Step::Fail(ErrorKind::Syntax(Expected::Digit), u)
    }
}

/// The number that the `n` hexadecimal digits at `p` denote, where there are
/// that many.
pub open spec fn hex_run(s: Seq<char>, p: int, n: nat) -> Option<int>
    decreases n,
{
    if n == 0 {
        Some(0)
    } else {
        match hex_run(s, p, (n - 1) as nat) {
            Some(v) => if has_hex_digit(s, p + n - 1) {
                Some(v * 16 + hex_value(s[p + n - 1]))
            } else {
                None
            },
            None => None,
        }
    }
}

/// The character with the code point `code`.
pub open spec fn char_of(code: int) -> char {
    (code as u32) as char
}

/// What the escape at `e`, the position after a backslash, stands for: a
/// character, or nothing.
///
/// Strict: `"`, `\`, `/`, `b`, `f`, `n`, `r`, `t`, and `u` with four
/// hexadecimal digits that name a character; anything else fails.
///
/// Extended: also `'`, `v`, and `x` with two hexadecimal digits. Before the
/// end of a line the backslash and the line end together stand for nothing;
/// before any other character the backslash alone stands for nothing.
pub open spec fn escape(s: Seq<char>, e: int, d: Dialect) -> Step<Option<char>> {
    if e < 0 || e >= s.len() {
        if d is Json5 {
            Step::Done(None, e)
        } else {
            Step::Fail(ErrorKind::InvalidEscape, e)
        }
    } else {
        let c = s[e];
        if c == '"' || c == '\\' || c == '/' {
            Step::Done(Some(c), e + 1)
        } else if c == 'b' {
            Step::Done(Some('\u{8}'), e + 1)
        } else if c == 'f' {
            Step::Done(Some('\u{c}'), e + 1)
        } else if c == 'n' {
            Step::Done(Some('\n'), e + 1)
        } else if c == 'r' {
            Step::Done(Some('\r'), e + 1)
        } else if c == 't' {
            Step::Done(Some('\t'), e + 1)
        } else if c == 'u' {
            match hex_run(s, e + 1, 4) {
                Some(code) => if is_scalar(code) {
                    Step::Done(Some(char_of(code)), e + 5)
                } else {
                    Step::Fail(ErrorKind::InvalidEscape, e)
                },
                None => Step::Fail(ErrorKind::InvalidEscape, e),
            }
        } else if d is Json5 {
            if c == '\'' {
                Step::Done(Some('\''), e + 1)
            } else if c == 'v' {
                Step::Done(Some('\u{b}'), e + 1)
            } else if c == 'x' {
                match hex_run(s, e + 1, 2) {
                    Some(code) => Step::Done(Some(char_of(code)), e + 3),
                    None => Step::Fail(ErrorKind::InvalidEscape, e),
                }
            } else if is_line_end(c) {
                Step::Done(None, e + 1)
            } else {
                Step::Done(None, e)
            }
        } else {
            Step::Fail(ErrorKind::InvalidEscape, e)
        }
    }
}

/// The rest of a string from `p` on, up to and with the closing `quote`;
/// `acc` holds the characters read so far. A line feed or carriage return
/// may not stand in a string unescaped.
pub open spec fn string_body(
    s: Seq<char>,
    p: int,
    quote: char,
    d: Dialect,
    acc: Seq<char>,
) -> Step<Seq<char>>
    decreases s.len() - p,
{
    if p < 0 || p >= s.len() {
        Step::Fail(ErrorKind::Syntax(Expected::ClosingQuote), p)
    } else if s[p] == quote {
        Step::Done(acc, p + 1)
    } else if s[p] == '\\' {
        match escape(s, p + 1, d) {
            Step::Done(c, q) => string_body(
                s,
                q,
                quote,
                d,
                match c {
                    Some(ch) => acc.push(ch),
                    None => acc,
                },
            ),
            Step::Fail(kind, at) => Step::Fail(kind, at),
        }
    } else if s[p] == '\n' || s[p] == '\r' {
        Step::Fail(ErrorKind::Syntax(Expected::ClosingQuote), p)
    } else {
        string_body(s, p + 1, quote, d, acc.push(s[p]))
    }
}

/// Whether an unquoted key may start with `c`.
pub open spec fn is_ident_start(c: char) -> bool {
    unicode_letter(c) || c == '$' || c == '_'
}

/// Whether `c` may stand in an unquoted key after its first character.
pub open spec fn is_ident_part(c: char) -> bool {
    is_ident_start(c) || unicode_nonspacing_mark(c) || unicode_spacing_mark(c)
        || unicode_decimal_digit(c) || unicode_connector(c) || c == '\u{200c}' || c == '\u{200d}'
}

/// One character of an unquoted key at `p`, and the position after it: a
/// character of the right class, or `\u` with four hexadecimal digits that
/// name a character.
pub open spec fn ident_piece(s: Seq<char>, p: int, first: bool) -> Option<(char, int)> {
    if p < 0 || p >= s.len() {
        None
    } else if s[p] == '\\' {
        if holds(s, p + 1, 'u') {
            match hex_run(s, p + 2, 4) {
                Some(code) => if is_scalar(code) {
                    Some((char_of(code), p + 6))
                } else {
                    None
                },
                None => None,
            }
        } else {
            None
        }
    } else if (first && is_ident_start(s[p])) || (!first && is_ident_part(s[p])) {
        Some((s[p], p + 1))
    } else {
        None
    }
}

/// The rest of an unquoted key from `p` on, after the characters `acc`.
pub open spec fn ident_rest(s: Seq<char>, p: int, acc: Seq<char>) -> (Seq<char>, int)
    decreases s.len() - p,
{
    match ident_piece(s, p, false) {
        Some((c, q)) => ident_rest(s, q, acc.push(c)),
        None => (acc, p),
    }
}

/// The key of a member at `p`: a string; in the extended dialect also a
/// string in single quotes or an unquoted identifier.
pub open spec fn key(s: Seq<char>, p: int, d: Dialect) -> Step<Seq<char>> {
    if holds(s, p, '"') {
        string_body(s, p + 1, '"', d, Seq::empty())
    } else if d is Json5 && holds(s, p, '\'') {
        string_body(s, p + 1, '\'', d, Seq::empty())
    } else if d is Json5 && ident_piece(s, p, true) is Some {
        let (c, q) = ident_piece(s, p, true)->0;
        let (name, end) = ident_rest(s, q, seq![c]);
        Step::Done(name, end)
    } else {
        Step::Fail(ErrorKind::Syntax(Expected::Key), p)
    }
}

/// The first index from `from` on at which `ms` holds the key `k`; the
/// length of `ms` where there is none.
pub open spec fn find_key(ms: Seq<(Seq<char>, Tree)>, k: Seq<char>, from: int) -> int
    decreases ms.len() - from,
{
    if from < 0 || from >= ms.len() {
        ms.len() as int
    } else if ms[from].0 == k {
        from
    } else {
        find_key(ms, k, from + 1)
    }
}

/// `ms` with `v` under the key `k`: in the place of the member that has the
/// key, or at the end where none has it.
pub open spec fn put(ms: Seq<(Seq<char>, Tree)>, k: Seq<char>, v: Tree) -> Seq<(Seq<char>, Tree)> {
    let i = find_key(ms, k, 0);
    if i < ms.len() {
        ms.update(i, (k, v))
    } else {
        ms.push((k, v))
    }
}

/// A value at `p`.
pub open spec fn value(s: Seq<char>, p: int, d: Dialect) -> Step<Tree>
    decreases s.len() - p, 0nat,
{
    if p < 0 || p >= s.len() {
        Step::Fail(ErrorKind::Syntax(Expected::Value), p)
    } else if s[p] == '{' {
        match onward(s, p + 1, blank(s, p + 1, d, Skip::Outside)) {
            Step::Done(_, q) => if holds(s, q, '}') {
                Step::Done(Tree::Object(Seq::empty()), q + 1)
            } else {
                members(s, q, d, Seq::empty())
            },
            Step::Fail(kind, at) => Step::Fail(kind, at),
        }
    } else if s[p] == '[' {
        match onward(s, p + 1, blank(s, p + 1, d, Skip::Outside)) {
            Step::Done(_, q) => if holds(s, q, ']') {
                Step::Done(Tree::Array(Seq::empty()), q + 1)
            } else {
                items(s, q, d, Seq::empty())
            },
            Step::Fail(kind, at) => Step::Fail(kind, at),
        }
    } else if s[p] == '"' {
        match string_body(s, p + 1, '"', d, Seq::empty()) {
            Step::Done(cs, q) => Step::Done(Tree::String(cs), q),
            Step::Fail(kind, at) => Step::Fail(kind, at),
        }
    } else if d is Json5 && s[p] == '\'' {
        match string_body(s, p + 1, '\'', d, Seq::empty()) {
            Step::Done(cs, q) => Step::Done(Tree::String(cs), q),
            Step::Fail(kind, at) => Step::Fail(kind, at),
        }
    } else if has_word(s, p, seq!['t', 'r', 'u', 'e']) {
        Step::Done(Tree::Boolean(true), p + 4)
    } else if has_word(s, p, seq!['f', 'a', 'l', 's', 'e']) {
        Step::Done(Tree::Boolean(false), p + 5)
    } else if has_word(s, p, seq!['n', 'u', 'l', 'l']) {
        Step::Done(Tree::Null, p + 4)
    } else if s[p] == '-' || is_digit(s[p]) || (d is Json5 && (s[p] == '+' || s[p] == '.' || s[p]
        == 'I' || s[p] == 'N')) {
        number(s, p, d)
    } else {
        Step::Fail(ErrorKind::Syntax(Expected::Value), p)
    }
}

/// The elements of an array from `p` on, where the next element starts,
/// up to and with the closing bracket; `acc` holds the elements read so far.
/// In the extended dialect a comma may stand before the bracket.
pub open spec fn items(s: Seq<char>, p: int, d: Dialect, acc: Seq<Tree>) -> Step<Tree>
    decreases s.len() - p, 1nat,
{
    match onward(s, p, value(s, p, d)) {
        Step::Done(v, q) => match onward(s, q, blank(s, q, d, Skip::Outside)) {
            Step::Done(_, r) => if holds(s, r, ']') {
                Step::Done(Tree::Array(acc.push(v)), r + 1)
            } else if holds(s, r, ',') {
                match onward(s, r + 1, blank(s, r + 1, d, Skip::Outside)) {
                    Step::Done(_, n) => if d is Json5 && holds(s, n, ']') {
                        Step::Done(Tree::Array(acc.push(v)), n + 1)
                    } else {
                        items(s, n, d, acc.push(v))
                    },
                    Step::Fail(kind, at) => Step::Fail(kind, at),
                }
            } else {
                Step::Fail(ErrorKind::Syntax(Expected::CommaOrBracket), r)
            },
            Step::Fail(kind, at) => Step::Fail(kind, at),
        },
        Step::Fail(kind, at) => Step::Fail(kind, at),
    }
}

/// The members of an object from `p` on, where the next key starts, up to
/// and with the closing brace; `acc` holds the members read so far. A key
/// that comes again replaces the value that stood under it. In the
/// extended dialect a comma may stand before the brace.
pub open spec fn members(
    s: Seq<char>,
    p: int,
    d: Dialect,
    acc: Seq<(Seq<char>, Tree)>,
) -> Step<Tree>
    decreases s.len() - p, 1nat,
{
    match onward(s, p, key(s, p, d)) {
        Step::Done(k, q) => match onward(s, q, blank(s, q, d, Skip::Outside)) {
            Step::Done(_, c) => if !holds(s, c, ':') {
                Step::Fail(ErrorKind::Syntax(Expected::Colon), c)
            } else {
                match onward(s, c + 1, blank(s, c + 1, d, Skip::Outside)) {
                    Step::Done(_, b) => match onward(s, b, value(s, b, d)) {
                        Step::Done(v, e) => match onward(s, e, blank(s, e, d, Skip::Outside)) {
                            Step::Done(_, r) => if holds(s, r, '}') {
                                Step::Done(Tree::Object(put(acc, k, v)), r + 1)
                            } else if holds(s, r, ',') {
                                match onward(s, r + 1, blank(s, r + 1, d, Skip::Outside)) {
                                    Step::Done(_, n) => if d is Json5 && holds(s, n, '}') {
                                        Step::Done(Tree::Object(put(acc, k, v)), n + 1)
                                    } else {
                                        members(s, n, d, put(acc, k, v))
                                    },
                                    Step::Fail(kind, at) => Step::Fail(kind, at),
                                }
                            } else {
                                Step::Fail(ErrorKind::Syntax(Expected::CommaOrBrace), r)
                            },
                            Step::Fail(kind, at) => Step::Fail(kind, at),
                        },
                        Step::Fail(kind, at) => Step::Fail(kind, at),
                    },
                    Step::Fail(kind, at) => Step::Fail(kind, at),
                }
            },
            Step::Fail(kind, at) => Step::Fail(kind, at),
        },
        Step::Fail(kind, at) => Step::Fail(kind, at),
    }
}

/// A whole document: white space, one value, white space, and nothing
/// more.
pub open spec fn document(s: Seq<char>, d: Dialect) -> Step<Tree> {
    match blank(s, 0, d, Skip::Outside) {
        Step::Done(_, p) => match value(s, p, d) {
            Step::Done(v, q) => match blank(s, q, d, Skip::Outside) {
                Step::Done(_, r) => if r >= s.len() {
                    Step::Done(v, r)
                } else {
                    Step::Fail(ErrorKind::UnexpectedTrailingInput, r)
                },
                Step::Fail(kind, at) => Step::Fail(kind, at),
            },
            Step::Fail(kind, at) => Step::Fail(kind, at),
        },
        Step::Fail(kind, at) => Step::Fail(kind, at),
    }
}

/// What a whole text stands for in the dialect `d`: its value, or the
/// first failure with its place.
pub open spec fn parse_text(s: Seq<char>, d: Dialect) -> Result<Tree, ParseError> {
    match document(s, d) {
        Step::Done(v, _) => Ok(v),
        Step::Fail(kind, at) => Err(error_at(s, kind, at)),
    }
}

} // verus!
