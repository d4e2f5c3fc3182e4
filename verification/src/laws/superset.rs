//! The extended dialect reads every strict document, and reads it alike.
use vstd::prelude::*;
use crate::laws::words::lemma_word_head;
use crate::error::ParseError;
use crate::parser::grammar::{
    blank, document, escape, has_word, holds, is_space, items, key, members, number, numeral,
    onward, string_body, value, Dialect, Skip, Step,
};
use crate::parser::{Json5Parser, JsonParser, Parser};
use crate::text::is_digit;
use crate::Tree;

verus! {

/// Whether `c` can start or end a token of strict JSON: an ASCII character
/// that is no white space of either dialect and starts no comment.
pub open spec fn is_token_char(c: char) -> bool {
    (c as int) < 0x80 && !is_space(c) && c != '\u{b}' && c != '\u{c}' && c != '/'
}

/// Whether the text is at its end at `p`, or a token character stands
/// there.
pub open spec fn token_ahead(s: Seq<char>, p: int) -> bool {
    p >= s.len() || (0 <= p && is_token_char(s[p]))
}

/// Strict white space ends where a character stands that is none; where
/// that is a token character or the end, the extended dialect stops there
/// too.
pub proof fn lemma_blank_superset(s: Seq<char>, p: int)
    requires
        0 <= p <= s.len(),
    ensures
        blank(s, p, Dialect::Json, Skip::Outside) is Done,
        p <= blank(s, p, Dialect::Json, Skip::Outside)->Done_1 <= s.len(),
        token_ahead(s, blank(s, p, Dialect::Json, Skip::Outside)->Done_1) ==> blank(
            s,
            p,
            Dialect::Json5,
            Skip::Outside,
        ) == blank(s, p, Dialect::Json, Skip::Outside),
    decreases s.len() - p,
{
    if p < s.len() && is_space(s[p]) {
        lemma_blank_superset(s, p + 1);
    }
}

/// A string that the strict dialect reads, the extended one reads alike.
pub proof fn lemma_string_superset(s: Seq<char>, p: int, acc: Seq<char>)
    requires
        0 <= p <= s.len(),
        string_body(s, p, '"', Dialect::Json, acc) is Done,
    ensures
        string_body(s, p, '"', Dialect::Json5, acc) == string_body(s, p, '"', Dialect::Json, acc),
    decreases s.len() - p,
{
    if p < s.len() && s[p] != '"' {
        if s[p] == '\\' {
            match escape(s, p + 1, Dialect::Json) {
                Step::Done(c, q) => {
                    lemma_string_superset(
                        s,
                        q,
                        match c {
                            Some(ch) => acc.push(ch),
                            None => acc,
                        },
                    );
                },
                Step::Fail(_, _) => {},
            }
        } else if s[p] != '\n' && s[p] != '\r' {
            lemma_string_superset(s, p + 1, acc.push(s[p]));
        }
    }
}

/// A number that the strict dialect reads, the extended one reads alike.
pub proof fn lemma_number_superset(s: Seq<char>, p: int)
    requires
        0 <= p < s.len(),
        number(s, p, Dialect::Json) is Done,
    ensures
        number(s, p, Dialect::Json5) == number(s, p, Dialect::Json),
{
    let u = if holds(s, p, '-') {
        p + 1
    } else {
        p
    };
    assert(numeral(s, p, Dialect::Json) is Done);
    assert(0 <= u < s.len() && is_digit(s[u]));
    if has_word(s, u, crate::parser::grammar::infinity_word()) {
        lemma_word_head(s, u, crate::parser::grammar::infinity_word());
    }
    if has_word(s, u, crate::parser::grammar::nan_word()) {
        lemma_word_head(s, u, crate::parser::grammar::nan_word());
    }
}

/// Where the strict dialect reads a value, a token character stands.
pub proof fn lemma_value_head(s: Seq<char>, p: int)
    requires
        value(s, p, Dialect::Json) is Done,
    ensures
        0 <= p < s.len(),
        is_token_char(s[p]),
        s[p] != ']',
{
    if has_word(s, p, seq!['t', 'r', 'u', 'e']) {
        lemma_word_head(s, p, seq!['t', 'r', 'u', 'e']);
    }
    if has_word(s, p, seq!['f', 'a', 'l', 's', 'e']) {
        lemma_word_head(s, p, seq!['f', 'a', 'l', 's', 'e']);
    }
    if has_word(s, p, seq!['n', 'u', 'l', 'l']) {
        lemma_word_head(s, p, seq!['n', 'u', 'l', 'l']);
    }
}

/// A value that the strict dialect reads, the extended one reads alike.
pub proof fn lemma_value_superset(s: Seq<char>, p: int)
    requires
        0 <= p <= s.len(),
        value(s, p, Dialect::Json) is Done,
    ensures
        value(s, p, Dialect::Json5) == value(s, p, Dialect::Json),
    decreases s.len() - p, 0nat,
{
    let json = Dialect::Json;
    let json5 = Dialect::Json5;
    lemma_value_head(s, p);
    if s[p] == '{' {
        lemma_blank_superset(s, p + 1);
        let q = blank(s, p + 1, json, Skip::Outside)->Done_1;
        if holds(s, q, '}') {
        } else {
            assert(members(s, q, json, Seq::empty()) is Done);
            lemma_members_head(s, q, Seq::empty());
            lemma_members_superset(s, q, Seq::empty());
        }
    } else if s[p] == '[' {
        lemma_blank_superset(s, p + 1);
        let q = blank(s, p + 1, json, Skip::Outside)->Done_1;
        if holds(s, q, ']') {
        } else {
            assert(items(s, q, json, Seq::empty()) is Done);
            lemma_items_head(s, q, Seq::empty());
            lemma_items_superset(s, q, Seq::empty());
        }
    } else if s[p] == '"' {
        lemma_string_superset(s, p + 1, Seq::empty());
    } else if has_word(s, p, seq!['t', 'r', 'u', 'e']) {
    } else if has_word(s, p, seq!['f', 'a', 'l', 's', 'e']) {
    } else if has_word(s, p, seq!['n', 'u', 'l', 'l']) {
    } else {
        lemma_number_superset(s, p);
    }
}

/// Where the strict dialect reads the elements of an array, the first one
/// starts with a token character.
pub proof fn lemma_items_head(s: Seq<char>, p: int, acc: Seq<Tree>)
    requires
        items(s, p, Dialect::Json, acc) is Done,
    ensures
        0 <= p < s.len(),
        is_token_char(s[p]),
        s[p] != ']',
{
    assert(value(s, p, Dialect::Json) is Done);
    lemma_value_head(s, p);
}

/// Where the strict dialect reads the members of an object, the first key
/// starts with a quote.
pub proof fn lemma_members_head(s: Seq<char>, p: int, acc: Seq<(Seq<char>, Tree)>)
    requires
        members(s, p, Dialect::Json, acc) is Done,
    ensures
        0 <= p < s.len(),
        s[p] == '"',
{
    assert(key(s, p, Dialect::Json) is Done);
}

/// The elements of an array that the strict dialect reads, the extended
/// one reads alike.
pub proof fn lemma_items_superset(s: Seq<char>, p: int, acc: Seq<Tree>)
    requires
        0 <= p <= s.len(),
        items(s, p, Dialect::Json, acc) is Done,
    ensures
        items(s, p, Dialect::Json5, acc) == items(s, p, Dialect::Json, acc),
    decreases s.len() - p, 1nat,
{
    let json = Dialect::Json;
    let step = onward(s, p, value(s, p, json));
    assert(step is Done);
    let v = step->Done_0;
    let q = step->Done_1;
    lemma_value_superset(s, p);
    lemma_blank_superset(s, q);
    let r = blank(s, q, json, Skip::Outside)->Done_1;
    if holds(s, r, ']') {
    } else {
        assert(holds(s, r, ','));
        lemma_blank_superset(s, r + 1);
        let n = blank(s, r + 1, json, Skip::Outside)->Done_1;
        assert(items(s, n, json, acc.push(v)) is Done);
        lemma_items_head(s, n, acc.push(v));
        lemma_items_superset(s, n, acc.push(v));
    }
}

/// The members of an object that the strict dialect reads, the extended
/// one reads alike.
pub proof fn lemma_members_superset(s: Seq<char>, p: int, acc: Seq<(Seq<char>, Tree)>)
    requires
        0 <= p <= s.len(),
        members(s, p, Dialect::Json, acc) is Done,
    ensures
        members(s, p, Dialect::Json5, acc) == members(s, p, Dialect::Json, acc),
    decreases s.len() - p, 1nat,
{
    let json = Dialect::Json;
    let first = onward(s, p, key(s, p, json));
    assert(first is Done);
    let k = first->Done_0;
    let q = first->Done_1;
    assert(holds(s, p, '"'));
    lemma_string_superset(s, p + 1, Seq::empty());
    lemma_blank_superset(s, q);
    let c = blank(s, q, json, Skip::Outside)->Done_1;
    assert(holds(s, c, ':'));
    lemma_blank_superset(s, c + 1);
    let b = blank(s, c + 1, json, Skip::Outside)->Done_1;
    let second = onward(s, b, value(s, b, json));
    assert(second is Done);
    let v = second->Done_0;
    let e = second->Done_1;
    lemma_value_head(s, b);
    lemma_value_superset(s, b);
    lemma_blank_superset(s, e);
    let r = blank(s, e, json, Skip::Outside)->Done_1;
    if holds(s, r, '}') {
    } else {
        assert(holds(s, r, ','));
        lemma_blank_superset(s, r + 1);
        let n = blank(s, r + 1, json, Skip::Outside)->Done_1;
        let next = crate::parser::grammar::put(acc, k, v);
        assert(members(s, n, json, next) is Done);
        lemma_members_head(s, n, next);
        lemma_members_superset(s, n, next);
    }
}

/// Every text that is a document of strict JSON is a document of the
/// extended dialect too, with the same value.
pub proof fn lemma_json5_reads_json(s: Seq<char>, v: Tree)
    requires
        JsonParser.parsed(s) == Ok::<Tree, ParseError>(v),
    ensures
        Json5Parser.parsed(s) == Ok::<Tree, ParseError>(v),
{
    let json = Dialect::Json;
    assert(document(s, json) is Done);
    lemma_blank_superset(s, 0);
    let p = blank(s, 0, json, Skip::Outside)->Done_1;
    assert(value(s, p, json) is Done);
    lemma_value_head(s, p);
    lemma_value_superset(s, p);
    let q = value(s, p, json)->Done_1;
    crate::laws::bounds::lemma_value_bounds(s, p, json);
    lemma_blank_superset(s, q);
}

} // verus!
