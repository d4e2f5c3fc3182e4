//! The grammar of the line format: one assignment per line, each a path
//! from the root, the token of assignment, and the literal of a leaf.
use vstd::prelude::*;
use crate::datetime::{DateTimeView, DateView, OffsetView, TimeView};
use crate::error::{error_at, ErrorKind, Expected, ParseError};
use crate::generator::line::Tokens;
use crate::parser::grammar::{
    digits_end, has_digit, has_word, holds, number, onward, string_body, Dialect, Step,
};
use crate::parser::line::{assemble, ItemView, PathView};
use crate::text::{decimal_value, digit_value, is_digit};
use crate::{FloatView, Tree};

verus! {

/// The position of the first character from `p` on at which the
/// delimiter or the token of assignment stands; the end of the text where
/// neither does.
pub open spec fn segment_end(s: Seq<char>, p: int, tokens: Tokens) -> int
    decreases s.len() - p,
{
    if p < 0 || p >= s.len() || has_word(s, p, tokens.delimiter) || has_word(s, p, tokens.equal) {
        p
    } else {
        segment_end(s, p + 1, tokens)
    }
}

/// Whether every character of `t` is a decimal digit.
pub open spec fn all_digits(t: Seq<char>) -> bool {
    forall|i: int| 0 <= i < t.len() ==> is_digit(#[trigger] t[i])
}

/// Whether `t` is the decimal numeral of an index: digits, no zero in front
/// of another digit, and a number that fits an index.
pub open spec fn is_index_text(t: Seq<char>) -> bool {
    t.len() > 0 && all_digits(t) && (t.len() == 1 || t[0] != '0') && decimal_value(t)
        <= usize::MAX
}

/// The step that the text `t` names: an index where it is the numeral of
/// one, a key otherwise.
pub open spec fn segment_of(t: Seq<char>) -> PathView {
    if is_index_text(t) {
        PathView::Index(decimal_value(t) as int)
    } else {
        PathView::Key(t)
    }
}

/// The steps of a path from `p` on, up to and with the token of
/// assignment; `acc` holds the steps read so far. A step is a run of
/// characters up to the next delimiter or token of assignment. Where the
/// token of assignment stands directly after the root and its delimiter,
/// the path is empty.
pub open spec fn segments(s: Seq<char>, p: int, tokens: Tokens, acc: Seq<PathView>) -> Step<
    Seq<PathView>,
>
    decreases s.len() - p,
{
    let e = segment_end(s, p, tokens);
    if e <= p || e > s.len() {
        if acc.len() == 0 && has_word(s, p, tokens.equal) {
            Step::Done(acc, p + tokens.equal.len())
        } else {
            Step::Fail(ErrorKind::Syntax(Expected::Segment), p)
        }
    } else {
        let step = segment_of(s.subrange(p, e));
        if has_word(s, e, tokens.equal) {
            Step::Done(acc.push(step), e + tokens.equal.len())
        } else if has_word(s, e, tokens.delimiter) {
            segments(s, e + tokens.delimiter.len(), tokens, acc.push(step))
        } else {
            Step::Fail(ErrorKind::Syntax(Expected::Equal), e)
        }
    }
}

/// The number that the two digits at `p` denote, where two digits stand
/// there.
pub open spec fn two(s: Seq<char>, p: int) -> Option<int> {
    if has_digit(s, p) && has_digit(s, p + 1) {
        Some(digit_value(s[p]) * 10 + digit_value(s[p + 1]))
    } else {
        None
    }
}

/// The number that the four digits at `p` denote, where four digits stand
/// there.
pub open spec fn four(s: Seq<char>, p: int) -> Option<int> {
    match (two(s, p), two(s, p + 2)) {
        (Some(a), Some(b)) => Some(a * 100 + b),
        _ => None,
    }
}

/// Ten to the power of `n`.
pub open spec fn pow10(n: nat) -> nat
    decreases n,
{
    if n == 0 {
        1
    } else {
        10 * pow10((n - 1) as nat)
    }
}

/// The date `YYYY-MM-DD` at `p`.
pub open spec fn date_at(s: Seq<char>, p: int) -> Step<DateView> {
    match (four(s, p), two(s, p + 5), two(s, p + 8)) {
        (Some(y), Some(m), Some(d)) => if holds(s, p + 4, '-') && holds(s, p + 7, '-') {
            let date = DateView { year: y, month: m, day: d };
            if date.valid() {
                Step::Done(date, p + 10)
            } else {
                Step::Fail(ErrorKind::InvalidDateTime, p)
            }
        } else {
            Step::Fail(ErrorKind::Syntax(Expected::DateTime), p)
        },
        _ => Step::Fail(ErrorKind::Syntax(Expected::DateTime), p),
    }
}

/// The position after the fraction of a second at `p`: a point and one to
/// nine digits; `p` itself where there is none.
pub open spec fn second_fraction_end(s: Seq<char>, p: int) -> int {
    if holds(s, p, '.') && has_digit(s, p + 1) {
        let e = digits_end(s, p + 1);
        if e > p + 10 {
            p + 10
        } else {
            e
        }
    } else {
        p
    }
}

/// The nanoseconds that the fraction from `p` to `e` denotes.
pub open spec fn nanoseconds(s: Seq<char>, p: int, e: int) -> int {
    if p + 1 < e <= p + 10 {
        (decimal_value(s.subrange(p + 1, e)) * pow10((p + 10 - e) as nat)) as int
    } else {
        0
    }
}

/// The time `HH:MM:SS` at `p`, with its fraction.
pub open spec fn time_at(s: Seq<char>, p: int) -> Step<TimeView> {
    match (two(s, p), two(s, p + 3), two(s, p + 6)) {
        (Some(h), Some(m), Some(sec)) => if holds(s, p + 2, ':') && holds(s, p + 5, ':') {
            let e = second_fraction_end(s, p + 8);
            let time = TimeView {
                hour: h,
                minute: m,
                second: sec,
                nanosecond: nanoseconds(s, p + 8, e),
            };
            if time.valid() {
                Step::Done(time, e)
            } else {
                Step::Fail(ErrorKind::InvalidDateTime, p)
            }
        } else {
            Step::Fail(ErrorKind::Syntax(Expected::DateTime), p)
        },
        _ => Step::Fail(ErrorKind::Syntax(Expected::DateTime), p),
    }
}

/// The offset at `p`, where one stands there: `Z`, or a sign and `HH:MM`.
/// The sign applies to the hours.
pub open spec fn offset_at(s: Seq<char>, p: int) -> Step<Option<OffsetView>> {
    if holds(s, p, 'Z') {
        Step::Done(Some(OffsetView { hour: 0, minute: 0 }), p + 1)
    } else if (holds(s, p, '+') || holds(s, p, '-')) && two(s, p + 1) is Some && holds(
        s,
        p + 3,
        ':',
    ) && two(s, p + 4) is Some {
        let h = two(s, p + 1)->0;
        let offset = OffsetView {
            hour: if holds(s, p, '-') {
                -h
            } else {
                h
            },
            minute: two(s, p + 4)->0,
        };
        if offset.valid() {
            Step::Done(Some(offset), p + 6)
        } else {
            Step::Fail(ErrorKind::InvalidDateTime, p)
        }
    } else {
        Step::Done(None, p)
    }
}

/// Whether a date seems to start at `p`: four digits and a hyphen.
pub open spec fn date_ahead(s: Seq<char>, p: int) -> bool {
    four(s, p) is Some && holds(s, p + 4, '-')
}

/// Whether a time seems to start at `p`: two digits and a colon.
pub open spec fn time_ahead(s: Seq<char>, p: int) -> bool {
    two(s, p) is Some && holds(s, p + 2, ':')
}

/// The date and time at `p`: a date, then after `T` or a space a time, then
/// an offset, the last two optional; or a time alone.
pub open spec fn datetime_at(s: Seq<char>, p: int) -> Step<DateTimeView> {
    if date_ahead(s, p) {
        match date_at(s, p) {
            Step::Done(date, q) => if holds(s, q, 'T') || holds(s, q, ' ') {
                match time_at(s, q + 1) {
                    Step::Done(time, r) => match offset_at(s, r) {
                        Step::Done(offset, e) => Step::Done(
                            DateTimeView { date: Some(date), time: Some(time), offset },
                            e,
                        ),
                        Step::Fail(kind, at) => Step::Fail(kind, at),
                    },
                    Step::Fail(kind, at) => Step::Fail(kind, at),
                }
            } else {
                match offset_at(s, q) {
                    Step::Done(offset, e) => if offset is Some {
                        Step::Fail(ErrorKind::InvalidDateTime, p)
                    } else {
                        Step::Done(DateTimeView { date: Some(date), time: None, offset: None }, e)
                    },
                    Step::Fail(kind, at) => Step::Fail(kind, at),
                }
            },
            Step::Fail(kind, at) => Step::Fail(kind, at),
        }
    } else {
        match time_at(s, p) {
            Step::Done(time, e) => Step::Done(
                DateTimeView { date: None, time: Some(time), offset: None },
                e,
            ),
            Step::Fail(kind, at) => Step::Fail(kind, at),
        }
    }
}

/// The literal of a leaf at `p`: `null`, `true`, `false`, `NaN`, `inf`,
/// `-inf`, `[]`, `{}`, a string as in strict JSON, a date or time, or a
/// number as in strict JSON.
pub open spec fn literal(s: Seq<char>, p: int) -> Step<Tree> {
    if has_word(s, p, seq!['n', 'u', 'l', 'l']) {
        Step::Done(Tree::Null, p + 4)
    } else if has_word(s, p, seq!['t', 'r', 'u', 'e']) {
        Step::Done(Tree::Boolean(true), p + 4)
    } else if has_word(s, p, seq!['f', 'a', 'l', 's', 'e']) {
        Step::Done(Tree::Boolean(false), p + 5)
    } else if has_word(s, p, seq!['N', 'a', 'N']) {
        Step::Done(Tree::Float(FloatView::Nan), p + 3)
    } else if has_word(s, p, seq!['i', 'n', 'f']) {
        Step::Done(Tree::Float(FloatView::Infinity), p + 3)
    } else if has_word(s, p, seq!['-', 'i', 'n', 'f']) {
        Step::Done(Tree::Float(FloatView::NegInfinity), p + 4)
    } else if has_word(s, p, seq!['[', ']']) {
        Step::Done(Tree::Array(Seq::empty()), p + 2)
    } else if has_word(s, p, seq!['{', '}']) {
        Step::Done(Tree::Object(Seq::empty()), p + 2)
    } else if holds(s, p, '"') {
        match string_body(s, p + 1, '"', Dialect::Json, Seq::empty()) {
            Step::Done(cs, q) => Step::Done(Tree::String(cs), q),
            Step::Fail(kind, at) => Step::Fail(kind, at),
        }
    } else if date_ahead(s, p) || time_ahead(s, p) {
        match datetime_at(s, p) {
            Step::Done(d, q) => Step::Done(Tree::DateTime(d), q),
            Step::Fail(kind, at) => Step::Fail(kind, at),
        }
    } else if holds(s, p, '-') || has_digit(s, p) {
        number(s, p, Dialect::Json)
    } else {
        Step::Fail(ErrorKind::Syntax(Expected::Value), p)
    }
}

/// One assignment at `p`: the root, the delimiter, the steps of the path,
/// the token of assignment, the literal.
pub open spec fn assignment(s: Seq<char>, p: int, tokens: Tokens) -> Step<ItemView> {
    if !has_word(s, p, tokens.root) {
        Step::Fail(ErrorKind::Syntax(Expected::Root), p)
    } else if !has_word(s, p + tokens.root.len(), tokens.delimiter) {
        Step::Fail(ErrorKind::Syntax(Expected::Delimiter), p + tokens.root.len())
    } else {
        match segments(s, p + tokens.root.len() + tokens.delimiter.len(), tokens, Seq::empty()) {
            Step::Done(path, q) => match literal(s, q) {
                Step::Done(v, e) => Step::Done(ItemView { path, value: v }, e),
                Step::Fail(kind, at) => Step::Fail(kind, at),
            },
            Step::Fail(kind, at) => Step::Fail(kind, at),
        }
    }
}

/// The assignments from `p` on, one per line; `acc` holds those read so
/// far. Empty lines are passed over.
pub open spec fn assignments(s: Seq<char>, p: int, tokens: Tokens, acc: Seq<ItemView>) -> Step<
    Seq<ItemView>,
>
    decreases s.len() - p,
{
    if p < 0 || p >= s.len() {
        Step::Done(acc, p)
    } else if s[p] == '\n' {
        assignments(s, p + 1, tokens, acc)
    } else {
        match onward(s, p, assignment(s, p, tokens)) {
            Step::Done(item, e) => if e >= s.len() {
                Step::Done(acc.push(item), e)
            } else if s[e] == '\n' {
                assignments(s, e + 1, tokens, acc.push(item))
            } else {
                Step::Fail(ErrorKind::Syntax(Expected::LineEnd), e)
            },
            Step::Fail(kind, at) => Step::Fail(kind, at),
        }
    }
}

/// What a text of assignments stands for: the tree that they build one
/// after the other from `Null`, or the first failure with its place.
pub open spec fn parse_lines(s: Seq<char>, tokens: Tokens) -> Result<Tree, ParseError> {
    match assignments(s, 0, tokens, Seq::empty()) {
        Step::Done(items, _) => Ok(assemble(items, items.len())),
        Step::Fail(kind, at) => Err(error_at(s, kind, at)),
    }
}

} // verus!
