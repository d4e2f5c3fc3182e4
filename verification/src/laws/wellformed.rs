//! What a parser hands back holds no key twice in any object.
use vstd::prelude::*;
use crate::laws::bounds::lemma_number_bounds;
use crate::laws::numbers::{ends_number, lemma_number_text_local};
use crate::laws::words::lemma_word_head;
use crate::parser::grammar::{has_digit, infinity_word, nan_word, number_end_at};
use crate::generator::line::Tokens;
use crate::laws::bounds::lemma_blank_bounds;
use crate::laws::keys::{lemma_find_key, lemma_put_distinct};
use crate::parser::grammar::{
    blank, document, find_key, has_word, holds, items, key, members, number, numeral, onward,
    parse_text, put, value, Dialect, Skip,
};
use crate::parser::line::{assemble, elements, entries, splice, stretched, ItemView, PathView};
use crate::parser::line_grammar::{
    assignment, assignments, literal, parse_lines, segment_end, segment_of, segments,
};
use crate::{distinct_keys, Tree};

verus! {

/// A value that either dialect reads holds no key twice.
pub proof fn lemma_value_wf(s: Seq<char>, p: int, d: Dialect)
    requires
        0 <= p <= s.len(),
        value(s, p, d) is Done,
    ensures
        value(s, p, d)->Done_0.wf(),
    decreases s.len() - p, 0nat,
{
    if s[p] == '{' {
        lemma_blank_bounds(s, p + 1, d, Skip::Outside);
        let q = blank(s, p + 1, d, Skip::Outside)->Done_1;
        if !holds(s, q, '}') {
            lemma_members_wf(s, q, d, Seq::empty());
        }
    } else if s[p] == '[' {
        lemma_blank_bounds(s, p + 1, d, Skip::Outside);
        let q = blank(s, p + 1, d, Skip::Outside)->Done_1;
        if !holds(s, q, ']') {
            lemma_items_wf(s, q, d, Seq::empty());
        }
    } else if s[p] == '"' {
    } else if d is Json5 && s[p] == '\'' {
    } else if has_word(s, p, seq!['t', 'r', 'u', 'e']) {
    } else if has_word(s, p, seq!['f', 'a', 'l', 's', 'e']) {
    } else if has_word(s, p, seq!['n', 'u', 'l', 'l']) {
    } else {
        lemma_number_wf(s, p, d);
    }
}

/// A number that either dialect reads is an integer or a float, and the
/// text of a finite float is a decimal number.
pub proof fn lemma_number_wf(s: Seq<char>, p: int, d: Dialect)
    requires
        0 <= p < s.len(),
        number(s, p, d) is Done,
    ensures
        number(s, p, d)->Done_0.wf(),
        number(s, p, d)->Done_0 is Int || number(s, p, d)->Done_0 is Float,
{
    assert(numeral(s, p, d) is Done);
    let v = number(s, p, d)->Done_0;
    let e = number(s, p, d)->Done_1;
    if v is Float && v->Float_0 is Finite {
        let negative = holds(s, p, '-');
        let u = if negative || (d is Json5 && holds(s, p, '+')) {
            p + 1
        } else {
            p
        };
        let q = if negative {
            p
        } else {
            u
        };
        lemma_number_bounds(s, p, d);
        assert(ends_number(s, e));
        if has_word(s, u, infinity_word()) {
            lemma_word_head(s, u, infinity_word());
        }
        if has_word(s, u, nan_word()) {
            lemma_word_head(s, u, nan_word());
        }
        assert(number_end_at(s, q) == e);
        lemma_number_text_local(s, q, e);
        if negative {
            assert(seq!['-'] + s.subrange(u, e) =~= s.subrange(q, e));
        }
    }
}

/// An array that either dialect reads holds no key twice, where the
/// elements read before hold none.
pub proof fn lemma_items_wf(s: Seq<char>, p: int, d: Dialect, acc: Seq<Tree>)
    requires
        0 <= p <= s.len(),
        items(s, p, d, acc) is Done,
        forall|i: int| 0 <= i < acc.len() ==> (#[trigger] acc[i]).wf(),
    ensures
        items(s, p, d, acc)->Done_0.wf(),
    decreases s.len() - p, 1nat,
{
    let step = onward(s, p, value(s, p, d));
    let v = step->Done_0;
    let q = step->Done_1;
    lemma_value_wf(s, p, d);
    let next = acc.push(v);
    assert forall|i: int| 0 <= i < next.len() implies (#[trigger] next[i]).wf() by {
        if i < acc.len() {
            assert(next[i] == acc[i]);
        }
    }
    let r = onward(s, q, blank(s, q, d, Skip::Outside))->Done_1;
    if holds(s, r, ']') {
    } else {
        let n = onward(s, r + 1, blank(s, r + 1, d, Skip::Outside))->Done_1;
        if d is Json5 && holds(s, n, ']') {
        } else {
            lemma_items_wf(s, n, d, next);
        }
    }
}

/// An object that either dialect reads holds no key twice, where the
/// members read before hold none and their keys are distinct.
pub proof fn lemma_members_wf(s: Seq<char>, p: int, d: Dialect, acc: Seq<(Seq<char>, Tree)>)
    requires
        0 <= p <= s.len(),
        members(s, p, d, acc) is Done,
        distinct_keys(acc),
        forall|i: int| 0 <= i < acc.len() ==> (#[trigger] acc[i]).1.wf(),
    ensures
        members(s, p, d, acc)->Done_0.wf(),
    decreases s.len() - p, 1nat,
{
    let first = onward(s, p, key(s, p, d));
    let k = first->Done_0;
    let q = first->Done_1;
    let c = onward(s, q, blank(s, q, d, Skip::Outside))->Done_1;
    let b = onward(s, c + 1, blank(s, c + 1, d, Skip::Outside))->Done_1;
    let second = onward(s, b, value(s, b, d));
    let v = second->Done_0;
    let e = second->Done_1;
    lemma_value_wf(s, b, d);
    let next = put(acc, k, v);
    lemma_put_distinct(acc, k, v);
    assert forall|i: int| 0 <= i < next.len() implies (#[trigger] next[i]).1.wf() by {
        if next[i].1 != v {
            assert(next[i] == acc[i]);
        }
    }
    let r = onward(s, e, blank(s, e, d, Skip::Outside))->Done_1;
    if holds(s, r, '}') {
    } else {
        let n = onward(s, r + 1, blank(s, r + 1, d, Skip::Outside))->Done_1;
        if d is Json5 && holds(s, n, '}') {
        } else {
            lemma_members_wf(s, n, d, next);
        }
    }
}

/// What either dialect reads from a text holds no key twice in any
/// object.
pub proof fn lemma_parse_text_wf(s: Seq<char>, d: Dialect)
    ensures
        parse_text(s, d) matches Ok(t) ==> t.wf(),
{
    if parse_text(s, d) is Ok {
        assert(document(s, d) is Done);
        lemma_blank_bounds(s, 0, d, Skip::Outside);
        let p = blank(s, 0, d, Skip::Outside)->Done_1;
        lemma_value_wf(s, p, d);
    }
}

/// Whether no step of the path is an index below zero.
pub open spec fn real_path(path: Seq<PathView>) -> bool {
    forall|i: int| 0 <= i < path.len() ==> ((#[trigger] path[i]) matches PathView::Index(k) ==> k >= 0)
}

/// To put a leaf at the end of a path keeps the keys of every object
/// distinct.
pub proof fn lemma_splice_wf(t: Tree, path: Seq<PathView>, leaf: Tree)
    requires
        t.wf(),
        leaf.wf(),
        real_path(path),
    ensures
        splice(t, path, leaf).wf(),
    decreases path.len(),
{
    if path.len() > 0 {
        let rest = path.drop_first();
        assert forall|i: int| 0 <= i < rest.len() implies ((#[trigger] rest[i]) matches PathView::Index(
            k,
        ) ==> k >= 0) by {
            assert(rest[i] == path[i + 1]);
        }
        match path[0] {
            PathView::Index(i) => {
                let ts = stretched(elements(t), i);
                assert forall|j: int| 0 <= j < ts.len() implies (#[trigger] ts[j]).wf() by {
                    if j < elements(t).len() {
                        assert(ts[j] == elements(t)[j]);
                    }
                }
                lemma_splice_wf(ts[i], rest, leaf);
                let next = ts.update(i, splice(ts[i], rest, leaf));
                assert forall|j: int| 0 <= j < next.len() implies (#[trigger] next[j]).wf() by {
                    if j != i {
                        assert(next[j] == ts[j]);
                    }
                }
            },
            PathView::Key(k) => {
                let ms = entries(t);
                lemma_find_key(ms, k, 0);
                let j = find_key(ms, k, 0);
                if j < ms.len() {
                    lemma_splice_wf(ms[j].1, rest, leaf);
                    let next = ms.update(j, (k, splice(ms[j].1, rest, leaf)));
                    assert forall|a: int, b: int| 0 <= a < b < next.len() implies (
                    #[trigger] next[a]).0 != (#[trigger] next[b]).0 by {
                        assert(next[a].0 == ms[a].0);
                        assert(next[b].0 == ms[b].0);
                    }
                    assert forall|a: int| 0 <= a < next.len() implies (#[trigger] next[a]).1.wf() by {
                        if a != j {
                            assert(next[a] == ms[a]);
                        }
                    }
                } else {
                    lemma_splice_wf(Tree::Null, rest, leaf);
                    let next = ms.push((k, splice(Tree::Null, rest, leaf)));
                    assert forall|a: int, b: int| 0 <= a < b < next.len() implies (
                    #[trigger] next[a]).0 != (#[trigger] next[b]).0 by {
                        assert(next[a] == ms[a]);
                        if b < ms.len() {
                            assert(next[b] == ms[b]);
                        }
                    }
                    assert forall|a: int| 0 <= a < next.len() implies (#[trigger] next[a]).1.wf() by {
                        if a < ms.len() {
                            assert(next[a] == ms[a]);
                        }
                    }
                }
            },
        }
    }
}

/// Whether the assignment has a real path and a value without a key that
/// stands twice.
pub open spec fn sound_item(item: ItemView) -> bool {
    real_path(item.path) && item.value.wf()
}

/// The tree that sound assignments build holds no key twice.
pub proof fn lemma_assemble_wf(items: Seq<ItemView>, n: nat)
    requires
        forall|i: int| 0 <= i < items.len() ==> sound_item(#[trigger] items[i]),
    ensures
        assemble(items, n).wf(),
    decreases n,
{
    if n > 0 && n <= items.len() {
        lemma_assemble_wf(items, (n - 1) as nat);
        assert(sound_item(items[n - 1]));
        lemma_splice_wf(assemble(items, (n - 1) as nat), items[n - 1].path, items[n - 1].value);
    }
}

/// The steps that the line format reads make a real path.
pub proof fn lemma_segments_real(s: Seq<char>, p: int, tokens: Tokens, acc: Seq<PathView>)
    requires
        real_path(acc),
        segments(s, p, tokens, acc) is Done,
    ensures
        real_path(segments(s, p, tokens, acc)->Done_0),
    decreases s.len() - p,
{
    let e = segment_end(s, p, tokens);
    if e <= p || e > s.len() {
    } else {
        let step = segment_of(s.subrange(p, e));
        let next = acc.push(step);
        assert forall|i: int| 0 <= i < next.len() implies ((#[trigger] next[i]) matches PathView::Index(
            k,
        ) ==> k >= 0) by {
            if i < acc.len() {
                assert(next[i] == acc[i]);
            }
        }
        if has_word(s, e, tokens.equal) {
        } else {
            lemma_segments_real(s, e + tokens.delimiter.len(), tokens, next);
        }
    }
}

/// A literal of the line format holds no key twice.
pub proof fn lemma_literal_wf(s: Seq<char>, p: int)
    requires
        literal(s, p) is Done,
    ensures
        literal(s, p)->Done_0.wf(),
{
    if number(s, p, Dialect::Json) is Done && (holds(s, p, '-') || has_digit(s, p)) {
        lemma_number_wf(s, p, Dialect::Json);
    }
}

/// The assignments that the line format reads are sound, where those read
/// before are.
pub proof fn lemma_assignments_sound(s: Seq<char>, p: int, tokens: Tokens, acc: Seq<ItemView>)
    requires
        forall|i: int| 0 <= i < acc.len() ==> sound_item(#[trigger] acc[i]),
        assignments(s, p, tokens, acc) is Done,
    ensures
        forall|i: int|
            0 <= i < assignments(s, p, tokens, acc)->Done_0.len() ==> sound_item(
                #[trigger] assignments(s, p, tokens, acc)->Done_0[i],
            ),
    decreases s.len() - p,
{
    if p < 0 || p >= s.len() {
    } else if s[p] == '\n' {
        lemma_assignments_sound(s, p + 1, tokens, acc);
    } else {
        let step = onward(s, p, assignment(s, p, tokens));
        let item = step->Done_0;
        let e = step->Done_1;
        let start = p + tokens.root.len() + tokens.delimiter.len();
        assert(real_path(Seq::<PathView>::empty()));
        lemma_segments_real(s, start, tokens, Seq::empty());
        let q = segments(s, start, tokens, Seq::empty())->Done_1;
        lemma_literal_wf(s, q);
        let next = acc.push(item);
        assert forall|i: int| 0 <= i < next.len() implies sound_item(#[trigger] next[i]) by {
            if i < acc.len() {
                assert(next[i] == acc[i]);
            }
        }
        if e >= s.len() {
        } else {
            lemma_assignments_sound(s, e + 1, tokens, next);
        }
    }
}

/// What the line format reads from a text holds no key twice in any
/// object.
pub proof fn lemma_parse_lines_wf(s: Seq<char>, tokens: Tokens)
    ensures
        parse_lines(s, tokens) matches Ok(t) ==> t.wf(),
{
    if parse_lines(s, tokens) is Ok {
        lemma_assignments_sound(s, 0, tokens, Seq::empty());
        let items = assignments(s, 0, tokens, Seq::empty())->Done_0;
        lemma_assemble_wf(items, items.len());
    }
}

} // verus!
