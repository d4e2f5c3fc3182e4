//! No rule of the grammar ends before the place where it started, nor
//! after the end of the text.
use vstd::prelude::*;
use crate::parser::grammar::{
    blank, digits_end, escape, exponent_end, fraction_end, has_word, hex_end, hex_run, ident_piece,
    ident_rest, int_end, items, key, members, number, numeral, onward, string_body, value, Dialect,
    Skip, Step,
};
use crate::parser::json::lemma_hex_run_fits;
use crate::generator::line::Tokens;
use crate::parser::line::PathView;
use crate::parser::line_grammar::{
    assignment, datetime_at, literal, segment_end, segment_of, segments, time_at,
};
use crate::Tree;

verus! {

/// Whether `step`, where it is done, ends between `p` and the end of `s`.
pub open spec fn within<T>(s: Seq<char>, p: int, step: Step<T>) -> bool {
    step matches Step::Done(_, q) ==> p <= q <= s.len()
}

/// A step that ends in bounds passes `onward` unchanged: with the lemmas
/// below, no use of `onward` in a grammar changes anything.
pub proof fn lemma_onward<T>(s: Seq<char>, p: int, step: Step<T>)
    requires
        within(s, p, step),
    ensures
        onward(s, p, step) == step,
{
}

/// White space ends at or after the place where it starts.
pub proof fn lemma_blank_bounds(s: Seq<char>, p: int, d: Dialect, mode: Skip)
    requires
        0 <= p <= s.len(),
    ensures
        within(s, p, blank(s, p, d, mode)),
    decreases s.len() - p,
{
    if p < s.len() {
        match mode {
            Skip::Outside => {
                if crate::parser::grammar::is_blank(s[p], d) {
                    lemma_blank_bounds(s, p + 1, d, Skip::Outside);
                } else if d is Json5 && s[p] == '/' && crate::parser::grammar::holds(s, p + 1, '/') {
                    lemma_blank_bounds(s, p + 2, d, Skip::Line);
                } else if d is Json5 && s[p] == '/' && crate::parser::grammar::holds(s, p + 1, '*') {
                    lemma_blank_bounds(s, p + 2, d, Skip::Block(p));
                }
            },
            Skip::Line => {
                if crate::parser::grammar::is_line_end(s[p]) {
                    lemma_blank_bounds(s, p + 1, d, Skip::Outside);
                } else {
                    lemma_blank_bounds(s, p + 1, d, Skip::Line);
                }
            },
            Skip::Block(start) => {
                if s[p] == '*' && crate::parser::grammar::holds(s, p + 1, '/') {
                    lemma_blank_bounds(s, p + 2, d, Skip::Outside);
                } else {
                    lemma_blank_bounds(s, p + 1, d, Skip::Block(start));
                }
            },
        }
    }
}

/// A run of digits ends at or after the place where it starts.
pub proof fn lemma_digits_bounds(s: Seq<char>, p: int)
    requires
        0 <= p <= s.len(),
    ensures
        p <= digits_end(s, p) <= s.len(),
    decreases s.len() - p,
{
    if crate::parser::grammar::has_digit(s, p) {
        lemma_digits_bounds(s, p + 1);
    }
}

/// A run of hexadecimal digits ends at or after the place where it starts.
pub proof fn lemma_hex_bounds(s: Seq<char>, p: int)
    requires
        0 <= p <= s.len(),
    ensures
        p <= hex_end(s, p) <= s.len(),
    decreases s.len() - p,
{
    if crate::parser::grammar::has_hex_digit(s, p) {
        lemma_hex_bounds(s, p + 1);
    }
}

/// An exponent ends at or after the place where it starts.
pub proof fn lemma_exponent_bounds(s: Seq<char>, p: int)
    requires
        0 <= p <= s.len(),
    ensures
        p <= exponent_end(s, p) <= s.len(),
{
    if p + 1 <= s.len() {
        lemma_digits_bounds(s, p + 1);
    }
    if p + 2 <= s.len() {
        lemma_digits_bounds(s, p + 2);
    }
}

/// A number ends at or after the place where it starts.
pub proof fn lemma_number_bounds(s: Seq<char>, p: int, d: Dialect)
    requires
        0 <= p < s.len(),
    ensures
        within(s, p, numeral(s, p, d)),
        within(s, p, number(s, p, d)),
{
    let u = if crate::parser::grammar::holds(s, p, '-') || (d is Json5 && crate::parser::grammar::holds(
        s,
        p,
        '+',
    )) {
        p + 1
    } else {
        p
    };
    if u + 2 <= s.len() {
        lemma_hex_bounds(s, u + 2);
    }
    if u + 1 <= s.len() {
        lemma_digits_bounds(s, u + 1);
        lemma_exponent_bounds(s, digits_end(s, u + 1));
    }
    if u <= s.len() {
        lemma_digits_bounds(s, u);
        let i = int_end(s, u);
        if i + 1 <= s.len() {
            lemma_digits_bounds(s, i + 1);
        }
        if 0 <= i <= s.len() {
            let f = fraction_end(s, i);
            lemma_exponent_bounds(s, f);
        }
    }
}

/// An escape ends at or after the place where it starts.
pub proof fn lemma_escape_bounds(s: Seq<char>, e: int, d: Dialect)
    requires
        0 <= e <= s.len(),
    ensures
        within(s, e, escape(s, e, d)),
{
    if e < s.len() {
        if hex_run(s, e + 1, 4) is Some {
            lemma_hex_run_fits(s, e + 1, 4);
        }
        if hex_run(s, e + 1, 2) is Some {
            lemma_hex_run_fits(s, e + 1, 2);
        }
    }
}

/// A string ends after the place where its body starts.
pub proof fn lemma_string_bounds(s: Seq<char>, p: int, quote: char, d: Dialect, acc: Seq<char>)
    requires
        0 <= p <= s.len(),
    ensures
        within(s, p + 1, string_body(s, p, quote, d, acc)),
    decreases s.len() - p,
{
    if p < s.len() && s[p] != quote {
        if s[p] == '\\' {
            lemma_escape_bounds(s, p + 1, d);
            match escape(s, p + 1, d) {
                Step::Done(c, q) => {
                    lemma_string_bounds(
                        s,
                        q,
                        quote,
                        d,
                        match c {
                            Some(ch) => acc.push(ch),
                            None => acc,
                        },
                    );
                },
                Step::Fail(_, _) => {},
            }
        } else if s[p] != '\n' && s[p] != '\r' {
            lemma_string_bounds(s, p + 1, quote, d, acc.push(s[p]));
        }
    }
}

/// A character of an unquoted key ends after the place where it starts.
pub proof fn lemma_ident_piece_bounds(s: Seq<char>, p: int, first: bool)
    requires
        0 <= p <= s.len(),
    ensures
        ident_piece(s, p, first) matches Some((_, q)) ==> p < q <= s.len(),
{
    if p + 2 <= s.len() && hex_run(s, p + 2, 4) is Some {
        lemma_hex_run_fits(s, p + 2, 4);
    }
}

/// The rest of an unquoted key ends at or after the place where it starts.
pub proof fn lemma_ident_rest_bounds(s: Seq<char>, p: int, acc: Seq<char>)
    requires
        0 <= p <= s.len(),
    ensures
        p <= ident_rest(s, p, acc).1 <= s.len(),
    decreases s.len() - p,
{
    lemma_ident_piece_bounds(s, p, false);
    match ident_piece(s, p, false) {
        Some((c, q)) => {
            lemma_ident_rest_bounds(s, q, acc.push(c));
        },
        None => {},
    }
}

/// A key ends after the place where it starts.
pub proof fn lemma_key_bounds(s: Seq<char>, p: int, d: Dialect)
    requires
        0 <= p <= s.len(),
    ensures
        within(s, p + 1, key(s, p, d)),
{
    if p < s.len() {
        lemma_string_bounds(s, p + 1, '"', d, Seq::empty());
        lemma_string_bounds(s, p + 1, '\'', d, Seq::empty());
        lemma_ident_piece_bounds(s, p, true);
        match ident_piece(s, p, true) {
            Some((c, q)) => {
                lemma_ident_rest_bounds(s, q, seq![c]);
            },
            None => {},
        }
    }
}

/// A value ends after the place where it starts, inside the text.
pub proof fn lemma_value_bounds(s: Seq<char>, p: int, d: Dialect)
    requires
        0 <= p <= s.len(),
    ensures
        within(s, p, value(s, p, d)),
    decreases s.len() - p, 0nat,
{
    if p < s.len() {
        if s[p] == '{' {
            match onward(s, p + 1, blank(s, p + 1, d, Skip::Outside)) {
                Step::Done(_, q) => {
                    lemma_members_bounds(s, q, d, Seq::empty());
                },
                Step::Fail(_, _) => {},
            }
        } else if s[p] == '[' {
            match onward(s, p + 1, blank(s, p + 1, d, Skip::Outside)) {
                Step::Done(_, q) => {
                    lemma_items_bounds(s, q, d, Seq::empty());
                },
                Step::Fail(_, _) => {},
            }
        } else if s[p] == '"' {
            lemma_string_bounds(s, p + 1, '"', d, Seq::empty());
        } else if d is Json5 && s[p] == '\'' {
            lemma_string_bounds(s, p + 1, '\'', d, Seq::empty());
        } else {
            lemma_number_bounds(s, p, d);
        }
    }
}

/// The elements of an array end at or after the place where they start.
pub proof fn lemma_items_bounds(s: Seq<char>, p: int, d: Dialect, acc: Seq<Tree>)
    requires
        0 <= p <= s.len(),
    ensures
        within(s, p, items(s, p, d, acc)),
    decreases s.len() - p, 1nat,
{
    match onward(s, p, value(s, p, d)) {
        Step::Done(v, q) => match onward(s, q, blank(s, q, d, Skip::Outside)) {
            Step::Done(_, r) => {
                if crate::parser::grammar::holds(s, r, ',') {
                    match onward(s, r + 1, blank(s, r + 1, d, Skip::Outside)) {
                        Step::Done(_, n) => {
                            lemma_items_bounds(s, n, d, acc.push(v));
                        },
                        Step::Fail(_, _) => {},
                    }
                }
            },
            Step::Fail(_, _) => {},
        },
        Step::Fail(_, _) => {},
    }
}

/// The members of an object end at or after the place where they start.
pub proof fn lemma_members_bounds(s: Seq<char>, p: int, d: Dialect, acc: Seq<(Seq<char>, Tree)>)
    requires
        0 <= p <= s.len(),
    ensures
        within(s, p, members(s, p, d, acc)),
    decreases s.len() - p, 1nat,
{
    match onward(s, p, key(s, p, d)) {
        Step::Done(k, q) => match onward(s, q, blank(s, q, d, Skip::Outside)) {
            Step::Done(_, c) => {
                if crate::parser::grammar::holds(s, c, ':') {
                    match onward(s, c + 1, blank(s, c + 1, d, Skip::Outside)) {
                        Step::Done(_, b) => match onward(s, b, value(s, b, d)) {
                            Step::Done(v, e) => match onward(
                                s,
                                e,
                                blank(s, e, d, Skip::Outside),
                            ) {
                                Step::Done(_, r) => {
                                    if crate::parser::grammar::holds(s, r, ',') {
                                        match onward(
                                            s,
                                            r + 1,
                                            blank(s, r + 1, d, Skip::Outside),
                                        ) {
                                            Step::Done(_, n) => {
                                                lemma_members_bounds(
                                                    s,
                                                    n,
                                                    d,
                                                    crate::parser::grammar::put(acc, k, v),
                                                );
                                            },
                                            Step::Fail(_, _) => {},
                                        }
                                    }
                                },
                                Step::Fail(_, _) => {},
                            },
                            Step::Fail(_, _) => {},
                        },
                        Step::Fail(_, _) => {},
                    }
                }
            },
            Step::Fail(_, _) => {},
        },
        Step::Fail(_, _) => {},
    }
}

/// A step of a path ends at or after the place where it starts.
pub proof fn lemma_segment_end_bounds(s: Seq<char>, p: int, tokens: Tokens)
    requires
        0 <= p <= s.len(),
    ensures
        p <= segment_end(s, p, tokens) <= s.len(),
    decreases s.len() - p,
{
    if !(p >= s.len() || has_word(s, p, tokens.delimiter) || has_word(s, p, tokens.equal)) {
        lemma_segment_end_bounds(s, p + 1, tokens);
    }
}

/// The steps of a path end at or after the place where they start.
pub proof fn lemma_segments_bounds(s: Seq<char>, p: int, tokens: Tokens, acc: Seq<PathView>)
    requires
        0 <= p <= s.len(),
    ensures
        within(s, p, segments(s, p, tokens, acc)),
    decreases s.len() - p,
{
    let e = segment_end(s, p, tokens);
    if !(e <= p || e > s.len()) {
        let step = segment_of(s.subrange(p, e));
        if !has_word(s, e, tokens.equal) && has_word(s, e, tokens.delimiter) {
            lemma_segments_bounds(s, e + tokens.delimiter.len(), tokens, acc.push(step));
        }
    }
}

/// A time ends at or after the place where it starts.
pub proof fn lemma_time_bounds(s: Seq<char>, p: int)
    requires
        0 <= p <= s.len(),
    ensures
        within(s, p, time_at(s, p)),
{
    if p + 9 <= s.len() {
        lemma_digits_bounds(s, p + 9);
    }
}

/// A date and time ends at or after the place where it starts.
pub proof fn lemma_datetime_bounds(s: Seq<char>, p: int)
    requires
        0 <= p <= s.len(),
    ensures
        within(s, p, datetime_at(s, p)),
{
    lemma_time_bounds(s, p);
    if p + 11 <= s.len() {
        lemma_time_bounds(s, p + 11);
    }
}

/// A literal ends at or after the place where it starts.
pub proof fn lemma_literal_bounds(s: Seq<char>, p: int)
    requires
        0 <= p <= s.len(),
    ensures
        within(s, p, literal(s, p)),
{
    if p < s.len() {
        lemma_string_bounds(s, p + 1, '"', Dialect::Json, Seq::empty());
        lemma_datetime_bounds(s, p);
        lemma_number_bounds(s, p, Dialect::Json);
    }
}

/// An assignment ends after the place where it starts, inside the text.
pub proof fn lemma_assignment_bounds(s: Seq<char>, p: int, tokens: Tokens)
    requires
        0 <= p <= s.len(),
    ensures
        within(s, p, assignment(s, p, tokens)),
{
    if has_word(s, p, tokens.root) && has_word(s, p + tokens.root.len(), tokens.delimiter) {
        let start = p + tokens.root.len() + tokens.delimiter.len();
        lemma_segments_bounds(s, start, tokens, Seq::empty());
        match segments(s, start, tokens, Seq::empty()) {
            Step::Done(_, q) => {
                lemma_literal_bounds(s, q);
            },
            Step::Fail(_, _) => {},
        }
    }
}

/// Wherever a grammar passes a step through `onward`, the step comes out
/// unchanged: the test in `onward` never fails.
pub proof fn lemma_rules_go_onward(s: Seq<char>, p: int, d: Dialect, tokens: Tokens)
    requires
        0 <= p <= s.len(),
    ensures
        onward(s, p, blank(s, p, d, Skip::Outside)) == blank(s, p, d, Skip::Outside),
        onward(s, p, value(s, p, d)) == value(s, p, d),
        onward(s, p, key(s, p, d)) == key(s, p, d),
        onward(s, p, assignment(s, p, tokens)) == assignment(s, p, tokens),
{
    lemma_blank_bounds(s, p, d, Skip::Outside);
    lemma_onward(s, p, blank(s, p, d, Skip::Outside));
    lemma_value_bounds(s, p, d);
    lemma_onward(s, p, value(s, p, d));
    lemma_key_bounds(s, p, d);
    lemma_onward(s, p, key(s, p, d));
    lemma_assignment_bounds(s, p, tokens);
    lemma_onward(s, p, assignment(s, p, tokens));
}

} // verus!
