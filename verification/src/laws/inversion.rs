//! The lines that the generator wrote read back as the tree.
use vstd::prelude::*;
use crate::error::ParseError;
use crate::generator::line::{array_lines, leaf_text, lines, object_lines, Tokens};
use crate::generator::{Generator, LineGenerator};
use crate::laws::literals::{lemma_literal_round_trip, line_leaf};
use crate::laws::paths::{
    clear_path, clear_step, clear_tokens, lemma_segments_round_trip, lemma_step_place, path_text,
};
use crate::laws::rebuild::{array_leaves, leaves, lemma_assemble_leaves, object_leaves, under};
use crate::laws::words::{lemma_word_chars, lemma_word_self, lemma_word_split};
use crate::parser::grammar::{has_word, holds, Step};
use crate::parser::line::{ItemView, PathView};
use crate::parser::line_grammar::{assignment, assignments, parse_lines};
use crate::parser::{LineParser, Parser};
use crate::{distinct_keys, Tree};

verus! {

/// Whether `t` is written as one line: no array or object with something
/// in it.
pub open spec fn is_leaf(t: Tree) -> bool {
    match t {
        Tree::Array(ts) => ts.len() == 0,
        Tree::Object(ms) => ms.len() == 0,
        _ => true,
    }
}

/// Whether the line format can write `t` down and read it back with the
/// tokens: every leaf can be, every key is clear and stands once in its
/// object, and every index fits an index of the machine.
pub open spec fn line_plain(t: Tree, tokens: Tokens) -> bool
    decreases t,
{
    match t {
        Tree::Array(ts) => ts.len() <= usize::MAX + 1 && forall|i: int|
            0 <= i < ts.len() ==> line_plain(#[trigger] ts[i], tokens),
        Tree::Object(ms) => distinct_keys(ms) && forall|i: int|
            0 <= i < ms.len() ==> clear_step(PathView::Key((#[trigger] ms[i]).0), tokens)
                && line_plain(ms[i].1, tokens),
        _ => line_leaf(t),
    }
}

/// The assignments `items`, each with `path` in front of its path.
pub open spec fn rooted(path: Seq<PathView>, items: Seq<ItemView>) -> Seq<ItemView> {
    Seq::new(items.len(), |i: int| ItemView { path: path + items[i].path, value: items[i].value })
}

/// A plain tree holds no key twice.
pub proof fn lemma_line_plain_wf(t: Tree, tokens: Tokens)
    requires
        line_plain(t, tokens),
    ensures
        t.wf(),
    decreases t,
{
    match t {
        Tree::Array(ts) => {
            assert forall|i: int| 0 <= i < ts.len() implies (#[trigger] ts[i]).wf() by {
                lemma_line_plain_wf(ts[i], tokens);
            }
        },
        Tree::Object(ms) => {
            assert forall|i: int| 0 <= i < ms.len() implies (#[trigger] ms[i]).1.wf() by {
                lemma_line_plain_wf(ms[i].1, tokens);
            }
        },
        _ => {},
    }
}

/// The line of the leaf `t` at `path`, without the line feed at its end.
pub open spec fn line_text(t: Tree, path: Seq<PathView>, tokens: Tokens) -> Seq<char> {
    path_text(path, tokens) + tokens.equal + leaf_text(t)
}

/// A line starts with the first character of the root and the delimiter.
pub proof fn lemma_line_start(s: Seq<char>, p: int, path: Seq<PathView>, tokens: Tokens)
    requires
        clear_tokens(tokens),
        path.len() > 0,
        has_word(s, p, path_text(path, tokens)),
    ensures
        0 <= p < s.len(),
        s[p] != '\n',
        has_word(s, p, tokens.root),
        has_word(s, p + tokens.root.len(), tokens.delimiter),
{
    lemma_step_place(s, p, path, 0, tokens);
    assert(path.take(0) =~= Seq::<PathView>::empty());
    assert(path_text(path.take(0), tokens) == tokens.root);
    lemma_word_chars(s, p, tokens.root);
    lemma_word_chars(s, p + tokens.root.len(), tokens.delimiter);
    if tokens.root.len() > 0 {
        assert(s[p + 0] == tokens.root[0]);
        assert((tokens.root + tokens.delimiter)[0] == tokens.root[0]);
    } else {
        assert(s[p + tokens.root.len() + 0] == tokens.delimiter[0]);
        assert((tokens.root + tokens.delimiter)[0] == tokens.delimiter[0]);
    }
}

/// Where the line of a leaf stands, and behind it a line feed, the line
/// format reads the assignment of the leaf.
pub proof fn lemma_assignment_round_trip(
    s: Seq<char>,
    p: int,
    t: Tree,
    path: Seq<PathView>,
    tokens: Tokens,
)
    requires
        clear_tokens(tokens),
        clear_path(path, tokens),
        path.len() > 0,
        line_leaf(t),
        has_word(s, p, line_text(t, path, tokens)),
        holds(s, p + line_text(t, path, tokens).len(), '\n'),
    ensures
        assignment(s, p, tokens) == Step::Done(
            ItemView { path, value: t },
            p + line_text(t, path, tokens).len(),
        ),
{
    let loc = path_text(path, tokens);
    lemma_word_split(s, p, loc + tokens.equal, leaf_text(t));
    lemma_word_split(s, p, loc, tokens.equal);
    let q = p + loc.len() + tokens.equal.len();
    lemma_line_start(s, p, path, tokens);
    lemma_segments_round_trip(s, p, path, 0, tokens);
    assert(path.take(0) =~= Seq::<PathView>::empty());
    assert(path_text(path.take(0), tokens) == tokens.root);
    lemma_literal_round_trip(s, q, t);
}

/// Where the line of a leaf stands, the line format reads one assignment
/// and goes on behind the line.
pub proof fn lemma_line_round_trip(
    s: Seq<char>,
    p: int,
    t: Tree,
    path: Seq<PathView>,
    tokens: Tokens,
    acc: Seq<ItemView>,
)
    requires
        clear_tokens(tokens),
        clear_path(path, tokens),
        path.len() > 0,
        line_leaf(t),
        has_word(s, p, line_text(t, path, tokens) + seq!['\n']),
    ensures
        assignments(s, p, tokens, acc) == assignments(
            s,
            p + line_text(t, path, tokens).len() + 1,
            tokens,
            acc.push(ItemView { path, value: t }),
        ),
{
    let line = line_text(t, path, tokens);
    lemma_word_split(s, p, line, seq!['\n']);
    let e = p + line.len();
    lemma_word_chars(s, e, seq!['\n']);
    assert(s[e + 0] == seq!['\n'][0]);
    lemma_word_split(s, p, path_text(path, tokens) + tokens.equal, leaf_text(t));
    lemma_word_split(s, p, path_text(path, tokens), tokens.equal);
    lemma_line_start(s, p, path, tokens);
    lemma_assignment_round_trip(s, p, t, path, tokens);
}

/// The lines of the first `m` elements stand where the lines of more
/// stand, and behind them the lines of the next element.
pub proof fn lemma_array_lines_place(
    s: Seq<char>,
    p: int,
    ts: Seq<Tree>,
    m: nat,
    n: nat,
    loc: Seq<char>,
    tokens: Tokens,
)
    requires
        m < n <= ts.len(),
        has_word(s, p, array_lines(ts, n, loc, tokens)),
    ensures
        has_word(s, p, array_lines(ts, m + 1, loc, tokens)),
        has_word(
            s,
            p + array_lines(ts, m, loc, tokens).len(),
            lines(ts[m as int], loc + tokens.delimiter + crate::text::decimal(m), tokens),
        ),
        array_lines(ts, m + 1, loc, tokens).len() == array_lines(ts, m, loc, tokens).len() + lines(
            ts[m as int],
            loc + tokens.delimiter + crate::text::decimal(m),
            tokens,
        ).len(),
    decreases n - m,
{
    if m + 1 < n {
        let front = array_lines(ts, (n - 1) as nat, loc, tokens);
        let back = lines(
            ts[n - 1],
            loc + tokens.delimiter + crate::text::decimal((n - 1) as nat),
            tokens,
        );
        lemma_word_split(s, p, front, back);
        lemma_array_lines_place(s, p, ts, m, (n - 1) as nat, loc, tokens);
    } else {
        let front = array_lines(ts, m, loc, tokens);
        let back = lines(ts[m as int], loc + tokens.delimiter + crate::text::decimal(m), tokens);
        lemma_word_split(s, p, front, back);
    }
}

/// The lines of the first `m` members stand where the lines of more
/// stand, and behind them the lines of the next member.
pub proof fn lemma_object_lines_place(
    s: Seq<char>,
    p: int,
    ms: Seq<(Seq<char>, Tree)>,
    m: nat,
    n: nat,
    loc: Seq<char>,
    tokens: Tokens,
)
    requires
        m < n <= ms.len(),
        has_word(s, p, object_lines(ms, n, loc, tokens)),
    ensures
        has_word(s, p, object_lines(ms, m + 1, loc, tokens)),
        has_word(
            s,
            p + object_lines(ms, m, loc, tokens).len(),
            lines(ms[m as int].1, loc + tokens.delimiter + ms[m as int].0, tokens),
        ),
        object_lines(ms, m + 1, loc, tokens).len() == object_lines(ms, m, loc, tokens).len()
            + lines(ms[m as int].1, loc + tokens.delimiter + ms[m as int].0, tokens).len(),
    decreases n - m,
{
    if m + 1 < n {
        let front = object_lines(ms, (n - 1) as nat, loc, tokens);
        let back = lines(ms[n - 1].1, loc + tokens.delimiter + ms[n - 1].0, tokens);
        lemma_word_split(s, p, front, back);
        lemma_object_lines_place(s, p, ms, m, (n - 1) as nat, loc, tokens);
    } else {
        let front = object_lines(ms, m, loc, tokens);
        let back = lines(ms[m as int].1, loc + tokens.delimiter + ms[m as int].0, tokens);
        lemma_word_split(s, p, front, back);
    }
}

/// To set a path in front of assignments under a step is to set the path
/// with the step in front of them.
pub proof fn lemma_rooted_under(path: Seq<PathView>, step: PathView, items: Seq<ItemView>)
    ensures
        rooted(path, under(step, items)) == rooted(path.push(step), items),
{
    assert forall|i: int| 0 <= i < items.len() implies rooted(path, under(step, items))[i]
        == rooted(path.push(step), items)[i] by {
        assert(path + (seq![step] + items[i].path) =~= path.push(step) + items[i].path);
    }
    assert(rooted(path, under(step, items)) =~= rooted(path.push(step), items));
}

/// To set a path in front of two runs of assignments is to set it in front
/// of each.
pub proof fn lemma_rooted_concat(path: Seq<PathView>, a: Seq<ItemView>, b: Seq<ItemView>)
    ensures
        rooted(path, a + b) == rooted(path, a) + rooted(path, b),
{
    assert(rooted(path, a + b) =~= rooted(path, a) + rooted(path, b));
}

/// Where the lines of a plain tree stand, the line format reads the
/// assignments of the tree, each with the path of the tree in front, and
/// goes on behind the lines.
pub proof fn lemma_lines_parse(
    s: Seq<char>,
    p: int,
    t: Tree,
    path: Seq<PathView>,
    tokens: Tokens,
    acc: Seq<ItemView>,
)
    requires
        clear_tokens(tokens),
        clear_path(path, tokens),
        line_plain(t, tokens),
        path.len() > 0 || !is_leaf(t),
        has_word(s, p, lines(t, path_text(path, tokens), tokens)),
    ensures
        assignments(s, p, tokens, acc) == assignments(
            s,
            p + lines(t, path_text(path, tokens), tokens).len(),
            tokens,
            acc + rooted(path, leaves(t)),
        ),
    decreases t, 0nat,
{
    let loc = path_text(path, tokens);
    if is_leaf(t) {
        assert(lines(t, loc, tokens) == line_text(t, path, tokens) + seq!['\n']);
        lemma_line_round_trip(s, p, t, path, tokens, acc);
        assert(path + Seq::<PathView>::empty() =~= path);
        assert(acc + rooted(path, leaves(t)) =~= acc.push(ItemView { path, value: t }));
    } else {
        match t {
            Tree::Array(ts) => {
                assert(array_leaves(ts, 0) =~= Seq::<ItemView>::empty());
                assert(acc + rooted(path, array_leaves(ts, 0)) =~= acc);
                lemma_array_lines_parse(s, p, ts, 0, path, tokens, acc);
            },
            Tree::Object(ms) => {
                assert(object_leaves(ms, 0) =~= Seq::<ItemView>::empty());
                assert(acc + rooted(path, object_leaves(ms, 0)) =~= acc);
                lemma_object_lines_parse(s, p, ms, 0, path, tokens, acc);
            },
            _ => {},
        }
    }
}

/// The same for the elements of an array from the element `m` on.
pub proof fn lemma_array_lines_parse(
    s: Seq<char>,
    p: int,
    ts: Seq<Tree>,
    m: nat,
    path: Seq<PathView>,
    tokens: Tokens,
    acc: Seq<ItemView>,
)
    requires
        clear_tokens(tokens),
        clear_path(path, tokens),
        line_plain(Tree::Array(ts), tokens),
        m <= ts.len(),
        has_word(s, p, array_lines(ts, ts.len(), path_text(path, tokens), tokens)),
    ensures
        assignments(
            s,
            p + array_lines(ts, m, path_text(path, tokens), tokens).len(),
            tokens,
            acc + rooted(path, array_leaves(ts, m)),
        ) == assignments(
            s,
            p + array_lines(ts, ts.len(), path_text(path, tokens), tokens).len(),
            tokens,
            acc + rooted(path, array_leaves(ts, ts.len())),
        ),
    decreases ts, ts.len() - m,
{
    if m < ts.len() {
        let loc = path_text(path, tokens);
        let step = PathView::Index(m as int);
        let child = ts[m as int];
        let down = path.push(step);
        lemma_array_lines_place(s, p, ts, m, ts.len(), loc, tokens);
        assert(down.drop_last() =~= path);
        assert(path_text(down, tokens) == loc + tokens.delimiter + crate::text::decimal(m));
        assert forall|i: int| 0 <= i < down.len() implies clear_step(
            #[trigger] down[i],
            tokens,
        ) by {
            if i < path.len() {
                assert(down[i] == path[i]);
            }
        }
        let before = acc + rooted(path, array_leaves(ts, m));
        lemma_lines_parse(
            s,
            p + array_lines(ts, m, loc, tokens).len(),
            child,
            down,
            tokens,
            before,
        );
        lemma_rooted_under(path, step, leaves(child));
        lemma_rooted_concat(path, array_leaves(ts, m), under(step, leaves(child)));
        assert(before + rooted(down, leaves(child)) =~= acc + rooted(
            path,
            array_leaves(ts, m + 1),
        ));
        lemma_array_lines_parse(s, p, ts, m + 1, path, tokens, acc);
    }
}

/// The same for the members of an object from the member `m` on.
pub proof fn lemma_object_lines_parse(
    s: Seq<char>,
    p: int,
    ms: Seq<(Seq<char>, Tree)>,
    m: nat,
    path: Seq<PathView>,
    tokens: Tokens,
    acc: Seq<ItemView>,
)
    requires
        clear_tokens(tokens),
        clear_path(path, tokens),
        line_plain(Tree::Object(ms), tokens),
        m <= ms.len(),
        has_word(s, p, object_lines(ms, ms.len(), path_text(path, tokens), tokens)),
    ensures
        assignments(
            s,
            p + object_lines(ms, m, path_text(path, tokens), tokens).len(),
            tokens,
            acc + rooted(path, object_leaves(ms, m)),
        ) == assignments(
            s,
            p + object_lines(ms, ms.len(), path_text(path, tokens), tokens).len(),
            tokens,
            acc + rooted(path, object_leaves(ms, ms.len())),
        ),
    decreases ms, ms.len() - m,
{
    if m < ms.len() {
        let loc = path_text(path, tokens);
        let step = PathView::Key(ms[m as int].0);
        let child = ms[m as int].1;
        let down = path.push(step);
        lemma_object_lines_place(s, p, ms, m, ms.len(), loc, tokens);
        assert(down.drop_last() =~= path);
        assert(path_text(down, tokens) == loc + tokens.delimiter + ms[m as int].0);
        assert forall|i: int| 0 <= i < down.len() implies clear_step(
            #[trigger] down[i],
            tokens,
        ) by {
            if i < path.len() {
                assert(down[i] == path[i]);
            }
        }
        let before = acc + rooted(path, object_leaves(ms, m));
        lemma_lines_parse(
            s,
            p + object_lines(ms, m, loc, tokens).len(),
            child,
            down,
            tokens,
            before,
        );
        lemma_rooted_under(path, step, leaves(child));
        lemma_rooted_concat(path, object_leaves(ms, m), under(step, leaves(child)));
        assert(before + rooted(down, leaves(child)) =~= acc + rooted(
            path,
            object_leaves(ms, m + 1),
        ));
        lemma_object_lines_parse(s, p, ms, m + 1, path, tokens, acc);
    }
}

/// The lines of a plain array or object that is not empty read back, with
/// the same clear tokens, as the tree.
pub proof fn lemma_lines_round_trip(t: Tree, tokens: Tokens)
    requires
        clear_tokens(tokens),
        line_plain(t, tokens),
        !is_leaf(t),
    ensures
        parse_lines(lines(t, tokens.root, tokens), tokens) == Ok::<Tree, ParseError>(t),
{
    let s = lines(t, tokens.root, tokens);
    let path = Seq::<PathView>::empty();
    lemma_word_self(s);
    lemma_lines_parse(s, 0, t, path, tokens, Seq::empty());
    assert(Seq::<ItemView>::empty() + rooted(path, leaves(t)) =~= leaves(t)) by {
        assert forall|i: int| 0 <= i < leaves(t).len() implies rooted(path, leaves(t))[i]
            == leaves(t)[i] by {
            assert(path + leaves(t)[i].path =~= leaves(t)[i].path);
        }
    }
    lemma_line_plain_wf(t, tokens);
    lemma_assemble_leaves(t);
}

/// What the line generator writes for a plain array or object that is not
/// empty, the line parser with the same clear tokens reads back as the
/// tree.
pub proof fn lemma_line_inversion(t: Tree, g: LineGenerator, p: LineParser)
    requires
        g.tokens() == p.tokens(),
        clear_tokens(g.tokens()),
        line_plain(t, g.tokens()),
        !is_leaf(t),
    ensures
        p.parsed(g.text(t)) == Ok::<Tree, ParseError>(t),
{
    lemma_lines_round_trip(t, g.tokens());
}

} // verus!

