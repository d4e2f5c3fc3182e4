//! The path of a line reads back as its steps.
use vstd::prelude::*;
use crate::generator::line::Tokens;
use crate::laws::words::{
    lemma_decimal_digits, lemma_decimal_value, lemma_word_chars, lemma_word_split,
};
use crate::parser::grammar::{has_word, Step};
use crate::parser::line::PathView;
use crate::parser::line_grammar::{is_index_text, segment_end, segment_of, segments};
use crate::text::{decimal, is_digit};

verus! {

/// The text of a step: the numeral of an index, or the key itself.
pub open spec fn step_text(step: PathView) -> Seq<char> {
    match step {
        PathView::Index(i) => decimal(i as nat),
        PathView::Key(k) => k,
    }
}

/// The text of a path: the root, and before each step the delimiter.
pub open spec fn path_text(path: Seq<PathView>, tokens: Tokens) -> Seq<char>
    decreases path.len(),
{
    if path.len() == 0 {
        tokens.root
    } else {
        path_text(path.drop_last(), tokens) + tokens.delimiter + step_text(path.last())
    }
}

/// Whether the tokens can be told from what stands between them: the
/// delimiter and the token of assignment are not empty, start with
/// different characters and with no digit, and a line starts with no line
/// feed.
pub open spec fn clear_tokens(tokens: Tokens) -> bool {
    &&& tokens.delimiter.len() > 0
    &&& tokens.equal.len() > 0
    &&& !is_digit(tokens.delimiter[0])
    &&& !is_digit(tokens.equal[0])
    &&& tokens.delimiter[0] != tokens.equal[0]
    &&& (tokens.root + tokens.delimiter)[0] != '\n'
}

/// Whether `token` could start at the place `i` of `t`: as far as `t`
/// reaches from `i` on, it agrees with `token`.
pub open spec fn starts_in(t: Seq<char>, i: int, token: Seq<char>) -> bool {
    forall|j: int| 0 <= j < token.len() && i + j < t.len() ==> t[i + j] == #[trigger] token[j]
}

/// Whether neither the delimiter nor the token of assignment could start
/// inside the text of a step.
pub open spec fn clear_text(t: Seq<char>, tokens: Tokens) -> bool {
    forall|i: int|
        0 <= i < t.len() ==> !(#[trigger] starts_in(t, i, tokens.delimiter)) && !starts_in(
            t,
            i,
            tokens.equal,
        )
}

/// Whether a step reads back as itself: an index that fits an index of the
/// machine, or a key that is not empty, is no numeral of an index, and
/// inside which neither the delimiter nor the token of assignment could
/// start.
pub open spec fn clear_step(step: PathView, tokens: Tokens) -> bool {
    match step {
        PathView::Index(i) => 0 <= i <= usize::MAX,
        PathView::Key(k) => k.len() > 0 && !is_index_text(k) && clear_text(k, tokens),
    }
}

/// Whether every step of the path is clear.
pub open spec fn clear_path(path: Seq<PathView>, tokens: Tokens) -> bool {
    forall|i: int| 0 <= i < path.len() ==> clear_step(#[trigger] path[i], tokens)
}

/// The text of a clear step is not empty, clear, and reads back as the
/// step.
pub proof fn lemma_step_text(step: PathView, tokens: Tokens)
    requires
        clear_tokens(tokens),
        clear_step(step, tokens),
    ensures
        step_text(step).len() > 0,
        clear_text(step_text(step), tokens),
        segment_of(step_text(step)) == step,
{
    match step {
        PathView::Index(i) => {
            lemma_decimal_digits(i as nat);
            lemma_decimal_value(i as nat);
            let t = decimal(i as nat);
            assert forall|j: int| 0 <= j < t.len() implies !(#[trigger] starts_in(
                t,
                j,
                tokens.delimiter,
            )) && !starts_in(t, j, tokens.equal) by {
                assert(is_digit(t[j]));
                if starts_in(t, j, tokens.delimiter) {
                    assert(t[j + 0] == tokens.delimiter[0]);
                }
                if starts_in(t, j, tokens.equal) {
                    assert(t[j + 0] == tokens.equal[0]);
                }
            }
        },
        PathView::Key(k) => {},
    }
}

/// A token that stands at a place inside a word could start there.
pub proof fn lemma_starts_in(s: Seq<char>, p: int, t: Seq<char>, i: int, token: Seq<char>)
    requires
        has_word(s, p, t),
        0 <= i < t.len(),
        has_word(s, p + i, token),
    ensures
        starts_in(t, i, token),
{
    lemma_word_chars(s, p, t);
    lemma_word_chars(s, p + i, token);
    assert forall|j: int| 0 <= j < token.len() && i + j < t.len() implies t[i + j]
        == #[trigger] token[j] by {
        assert(s[p + (i + j)] == t[i + j]);
        assert(s[p + i + j] == token[j]);
    }
}

/// The text of a longer path starts with the text of a shorter one.
pub proof fn lemma_path_prefix(
    s: Seq<char>,
    p: int,
    path: Seq<PathView>,
    k: int,
    tokens: Tokens,
)
    requires
        0 <= k <= path.len(),
        has_word(s, p, path_text(path, tokens)),
    ensures
        has_word(s, p, path_text(path.take(k), tokens)),
    decreases path.len() - k,
{
    if k == path.len() {
        assert(path.take(k) =~= path);
    } else {
        let front = path_text(path.drop_last(), tokens);
        lemma_word_split(s, p, front + tokens.delimiter, step_text(path.last()));
        lemma_word_split(s, p, front, tokens.delimiter);
        lemma_path_prefix(s, p, path.drop_last(), k, tokens);
        assert(path.drop_last().take(k) =~= path.take(k));
    }
}

/// Where the text of a path stands, each step stands behind the text of
/// the steps before it and the delimiter.
pub proof fn lemma_step_place(s: Seq<char>, p: int, path: Seq<PathView>, k: int, tokens: Tokens)
    requires
        0 <= k < path.len(),
        has_word(s, p, path_text(path, tokens)),
    ensures
        has_word(s, p, path_text(path.take(k), tokens)),
        has_word(s, p + path_text(path.take(k), tokens).len(), tokens.delimiter),
        has_word(
            s,
            p + path_text(path.take(k), tokens).len() + tokens.delimiter.len(),
            step_text(path[k]),
        ),
        path_text(path.take(k + 1), tokens).len() == path_text(path.take(k), tokens).len()
            + tokens.delimiter.len() + step_text(path[k]).len(),
{
    lemma_path_prefix(s, p, path, k + 1, tokens);
    let upto = path.take(k + 1);
    assert(upto.drop_last() =~= path.take(k));
    assert(upto.last() == path[k]);
    let front = path_text(path.take(k), tokens);
    lemma_word_split(s, p, front + tokens.delimiter, step_text(path[k]));
    lemma_word_split(s, p, front, tokens.delimiter);
}

/// Where a clear text stands and behind it the delimiter or the token of
/// assignment, a step that starts inside the text ends behind it.
pub proof fn lemma_segment_run(s: Seq<char>, p: int, t: Seq<char>, i: int, tokens: Tokens)
    requires
        has_word(s, p, t),
        clear_text(t, tokens),
        0 <= i <= t.len(),
        has_word(s, p + t.len(), tokens.delimiter) || has_word(s, p + t.len(), tokens.equal),
    ensures
        segment_end(s, p + i, tokens) == p + t.len(),
    decreases t.len() - i,
{
    if i < t.len() {
        if has_word(s, p + i, tokens.delimiter) {
            lemma_starts_in(s, p, t, i, tokens.delimiter);
        }
        if has_word(s, p + i, tokens.equal) {
            lemma_starts_in(s, p, t, i, tokens.equal);
        }
        assert(!starts_in(t, i, tokens.delimiter));
        lemma_segment_run(s, p, t, i + 1, tokens);
    }
}

/// Where the text of a clear path that is not empty stands, and behind it
/// the token of assignment, the steps read back from the step `k` on.
pub proof fn lemma_segments_round_trip(
    s: Seq<char>,
    p: int,
    path: Seq<PathView>,
    k: int,
    tokens: Tokens,
)
    requires
        clear_tokens(tokens),
        clear_path(path, tokens),
        0 <= k < path.len(),
        has_word(s, p, path_text(path, tokens)),
        has_word(s, p + path_text(path, tokens).len(), tokens.equal),
    ensures
        segments(
            s,
            p + path_text(path.take(k), tokens).len() + tokens.delimiter.len(),
            tokens,
            path.take(k),
        ) == Step::Done(path, p + path_text(path, tokens).len() + tokens.equal.len()),
    decreases path.len() - k,
{
    let step = path[k];
    let text = step_text(step);
    let start = p + path_text(path.take(k), tokens).len() + tokens.delimiter.len();
    let end = start + text.len();
    lemma_step_place(s, p, path, k, tokens);
    lemma_step_text(step, tokens);
    assert(end == p + path_text(path.take(k + 1), tokens).len());
    if k + 1 < path.len() {
        lemma_step_place(s, p, path, k + 1, tokens);
        lemma_segment_run(s, start, text, 0, tokens);
        lemma_word_chars(s, end, tokens.delimiter);
        assert(s[end + 0] == tokens.delimiter[0]);
        if has_word(s, end, tokens.equal) {
            lemma_word_chars(s, end, tokens.equal);
            assert(s[end + 0] == tokens.equal[0]);
        }
        assert(s.subrange(start, end) == text);
        assert(path.take(k).push(step) =~= path.take(k + 1));
        lemma_segments_round_trip(s, p, path, k + 1, tokens);
    } else {
        assert(path.take(k + 1) =~= path);
        lemma_segment_run(s, start, text, 0, tokens);
        assert(s.subrange(start, end) == text);
        assert(path.take(k).push(step) =~= path);
    }
}

} // verus!
