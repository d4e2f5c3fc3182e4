//! The assignments of the leaves of a tree build the tree again.
use vstd::prelude::*;
use crate::laws::keys::lemma_find_key;
use crate::parser::grammar::find_key;
use crate::parser::line::{assemble, elements, entries, splice, stretched, ItemView, PathView};
use crate::{distinct_keys, Tree};

verus! {

/// The assignments `items`, each with `step` in front of its path.
pub open spec fn under(step: PathView, items: Seq<ItemView>) -> Seq<ItemView> {
    Seq::new(
        items.len(),
        |i: int| ItemView { path: seq![step] + items[i].path, value: items[i].value },
    )
}

/// The assignments that write `t` down, depth first: one for each leaf,
/// empty array and empty object, with the path that leads to it from `t`.
pub open spec fn leaves(t: Tree) -> Seq<ItemView>
    decreases t, 0nat,
{
    match t {
        Tree::Array(ts) => if ts.len() == 0 {
            seq![ItemView { path: Seq::empty(), value: t }]
        } else {
            array_leaves(ts, ts.len())
        },
        Tree::Object(ms) => if ms.len() == 0 {
            seq![ItemView { path: Seq::empty(), value: t }]
        } else {
            object_leaves(ms, ms.len())
        },
        _ => seq![ItemView { path: Seq::empty(), value: t }],
    }
}

/// The assignments of the first `n` elements of an array, each under its
/// index.
pub open spec fn array_leaves(ts: Seq<Tree>, n: nat) -> Seq<ItemView>
    decreases ts, n,
{
    if n == 0 || n > ts.len() {
        Seq::empty()
    } else {
        array_leaves(ts, (n - 1) as nat) + under(PathView::Index(n - 1), leaves(ts[n - 1]))
    }
}

/// The assignments of the first `n` members of an object, each under its
/// key.
pub open spec fn object_leaves(ms: Seq<(Seq<char>, Tree)>, n: nat) -> Seq<ItemView>
    decreases ms, n,
{
    if n == 0 || n > ms.len() {
        Seq::empty()
    } else {
        object_leaves(ms, (n - 1) as nat) + under(PathView::Key(ms[n - 1].0), leaves(ms[n - 1].1))
    }
}

/// The tree that the assignments build from `x`, one after the other.
pub open spec fn rebuild(x: Tree, items: Seq<ItemView>) -> Tree
    decreases items.len(),
{
    if items.len() == 0 {
        x
    } else {
        rebuild(splice(x, items[0].path, items[0].value), items.drop_first())
    }
}

/// To build from two runs of assignments is to build from the first and
/// then from the second.
pub proof fn lemma_rebuild_concat(x: Tree, a: Seq<ItemView>, b: Seq<ItemView>)
    ensures
        rebuild(x, a + b) == rebuild(rebuild(x, a), b),
    decreases a.len(),
{
    if a.len() == 0 {
        assert(a + b =~= b);
    } else {
        assert((a + b)[0] == a[0]);
        assert((a + b).drop_first() =~= a.drop_first() + b);
        lemma_rebuild_concat(splice(x, a[0].path, a[0].value), a.drop_first(), b);
    }
}

/// The tree that the first `n` assignments build from `Null`.
pub proof fn lemma_assemble_rebuild(items: Seq<ItemView>, n: nat)
    requires
        n <= items.len(),
    ensures
        assemble(items, n) == rebuild(Tree::Null, items.take(n as int)),
    decreases n,
{
    if n == 0 {
        assert(items.take(0).len() == 0);
    } else {
        lemma_assemble_rebuild(items, (n - 1) as nat);
        let front = items.take(n - 1);
        let last = seq![items[n - 1]];
        assert(items.take(n as int) =~= front + last);
        lemma_rebuild_concat(Tree::Null, front, last);
        reveal_with_fuel(rebuild, 2);
        assert(last.drop_first().len() == 0);
    }
}

/// A tree has at least one leaf.
pub proof fn lemma_leaves_some(t: Tree)
    ensures
        leaves(t).len() > 0,
    decreases t,
{
    match t {
        Tree::Array(ts) => {
            if ts.len() > 0 {
                lemma_leaves_some(ts[ts.len() - 1]);
            }
        },
        Tree::Object(ms) => {
            if ms.len() > 0 {
                lemma_leaves_some(ms[ms.len() - 1].1);
            }
        },
        _ => {},
    }
}

/// Assignments under the index of the last element of an array build
/// inside that element.
pub proof fn lemma_rebuild_in_element(done: Seq<Tree>, y: Tree, items: Seq<ItemView>)
    ensures
        rebuild(Tree::Array(done.push(y)), under(PathView::Index(done.len() as int), items))
            == Tree::Array(done.push(rebuild(y, items))),
    decreases items.len(),
{
    let k = done.len() as int;
    let step = PathView::Index(k);
    let all = under(step, items);
    if items.len() > 0 {
        let q = items[0].path;
        let v = items[0].value;
        let path = seq![step] + q;
        assert(all[0].path == path);
        assert(path.drop_first() =~= q);
        let ts = done.push(y);
        assert(stretched(ts, k) == ts);
        let next = splice(y, q, v);
        assert(ts.update(k, next) =~= done.push(next));
        assert(splice(Tree::Array(ts), path, v) == Tree::Array(done.push(next)));
        assert(all.drop_first() =~= under(step, items.drop_first()));
        lemma_rebuild_in_element(done, next, items.drop_first());
    }
}

/// The first assignments under an index just behind the elements of an
/// array add an element and build inside it.
pub proof fn lemma_rebuild_new_element(x: Tree, items: Seq<ItemView>)
    requires
        items.len() > 0,
    ensures
        rebuild(x, under(PathView::Index(elements(x).len() as int), items)) == Tree::Array(
            elements(x).push(rebuild(Tree::Null, items)),
        ),
{
    let done = elements(x);
    let k = done.len() as int;
    let step = PathView::Index(k);
    let all = under(step, items);
    let q = items[0].path;
    let v = items[0].value;
    let path = seq![step] + q;
    assert(all[0].path == path);
    assert(path.drop_first() =~= q);
    let ts = stretched(done, k);
    assert(ts =~= done.push(Tree::Null));
    let next = splice(Tree::Null, q, v);
    assert(ts.update(k, next) =~= done.push(next));
    assert(splice(x, path, v) == Tree::Array(done.push(next)));
    assert(all.drop_first() =~= under(step, items.drop_first()));
    lemma_rebuild_in_element(done, next, items.drop_first());
}

/// Whether none of the members has the key.
pub open spec fn is_new_key(ms: Seq<(Seq<char>, Tree)>, k: Seq<char>) -> bool {
    forall|i: int| 0 <= i < ms.len() ==> (#[trigger] ms[i]).0 != k
}

/// Assignments under the key of the last member of an object build inside
/// that member, where no member before it has the key.
pub proof fn lemma_rebuild_in_member(
    done: Seq<(Seq<char>, Tree)>,
    k: Seq<char>,
    y: Tree,
    items: Seq<ItemView>,
)
    requires
        is_new_key(done, k),
    ensures
        rebuild(Tree::Object(done.push((k, y))), under(PathView::Key(k), items)) == Tree::Object(
            done.push((k, rebuild(y, items))),
        ),
    decreases items.len(),
{
    let step = PathView::Key(k);
    let all = under(step, items);
    if items.len() > 0 {
        let q = items[0].path;
        let v = items[0].value;
        let path = seq![step] + q;
        assert(all[0].path == path);
        assert(path.drop_first() =~= q);
        let ms = done.push((k, y));
        lemma_find_key(ms, k, 0);
        let j = find_key(ms, k, 0);
        assert(j == done.len()) by {
            if j < done.len() {
                assert(ms[j] == done[j]);
            }
            assert(ms[done.len() as int].0 == k);
        }
        let next = splice(y, q, v);
        assert(ms.update(j, (k, next)) =~= done.push((k, next)));
        assert(splice(Tree::Object(ms), path, v) == Tree::Object(done.push((k, next))));
        assert(all.drop_first() =~= under(step, items.drop_first()));
        lemma_rebuild_in_member(done, k, next, items.drop_first());
    }
}

/// The first assignments under a key that no member has add a member and
/// build inside it.
pub proof fn lemma_rebuild_new_member(x: Tree, k: Seq<char>, items: Seq<ItemView>)
    requires
        items.len() > 0,
        is_new_key(entries(x), k),
    ensures
        rebuild(x, under(PathView::Key(k), items)) == Tree::Object(
            entries(x).push((k, rebuild(Tree::Null, items))),
        ),
{
    let done = entries(x);
    let step = PathView::Key(k);
    let all = under(step, items);
    let q = items[0].path;
    let v = items[0].value;
    let path = seq![step] + q;
    assert(all[0].path == path);
    assert(path.drop_first() =~= q);
    lemma_find_key(done, k, 0);
    let j = find_key(done, k, 0);
    assert(j == done.len());
    let next = splice(Tree::Null, q, v);
    assert(splice(x, path, v) == Tree::Object(done.push((k, next))));
    assert(all.drop_first() =~= under(step, items.drop_first()));
    lemma_rebuild_in_member(done, k, next, items.drop_first());
}

/// The assignments of a tree build the tree.
pub proof fn lemma_rebuild_leaves(t: Tree)
    requires
        t.wf(),
    ensures
        rebuild(Tree::Null, leaves(t)) == t,
    decreases t, 0nat,
{
    reveal_with_fuel(rebuild, 2);
    match t {
        Tree::Array(ts) => {
            if ts.len() > 0 {
                lemma_rebuild_array(ts, ts.len());
                assert(ts.take(ts.len() as int) =~= ts);
            } else {
                assert(leaves(t).drop_first().len() == 0);
            }
        },
        Tree::Object(ms) => {
            if ms.len() > 0 {
                lemma_rebuild_object(ms, ms.len());
                assert(ms.take(ms.len() as int) =~= ms);
            } else {
                assert(leaves(t).drop_first().len() == 0);
            }
        },
        _ => {
            assert(leaves(t).drop_first().len() == 0);
        },
    }
}

/// The assignments of the first `m` elements build the array of those
/// elements.
pub proof fn lemma_rebuild_array(ts: Seq<Tree>, m: nat)
    requires
        1 <= m <= ts.len(),
        forall|i: int| 0 <= i < ts.len() ==> (#[trigger] ts[i]).wf(),
    ensures
        rebuild(Tree::Null, array_leaves(ts, m)) == Tree::Array(ts.take(m as int)),
    decreases ts, m,
{
    let child = ts[m - 1];
    let front = array_leaves(ts, (m - 1) as nat);
    let back = under(PathView::Index(m - 1), leaves(child));
    lemma_rebuild_concat(Tree::Null, front, back);
    let x = rebuild(Tree::Null, front);
    if m > 1 {
        lemma_rebuild_array(ts, (m - 1) as nat);
    }
    assert(elements(x) =~= ts.take(m - 1));
    lemma_leaves_some(child);
    lemma_rebuild_leaves(child);
    lemma_rebuild_new_element(x, leaves(child));
    assert(ts.take(m - 1).push(child) =~= ts.take(m as int));
}

/// The assignments of the first `m` members build the object of those
/// members.
pub proof fn lemma_rebuild_object(ms: Seq<(Seq<char>, Tree)>, m: nat)
    requires
        1 <= m <= ms.len(),
        distinct_keys(ms),
        forall|i: int| 0 <= i < ms.len() ==> (#[trigger] ms[i]).1.wf(),
    ensures
        rebuild(Tree::Null, object_leaves(ms, m)) == Tree::Object(ms.take(m as int)),
    decreases ms, m,
{
    let k = ms[m - 1].0;
    let child = ms[m - 1].1;
    let front = object_leaves(ms, (m - 1) as nat);
    let back = under(PathView::Key(k), leaves(child));
    lemma_rebuild_concat(Tree::Null, front, back);
    let x = rebuild(Tree::Null, front);
    if m > 1 {
        lemma_rebuild_object(ms, (m - 1) as nat);
    }
    assert(entries(x) =~= ms.take(m - 1));
    assert forall|i: int| 0 <= i < entries(x).len() implies (#[trigger] entries(x)[i]).0 != k by {
        assert(entries(x)[i] == ms[i]);
    }
    lemma_leaves_some(child);
    lemma_rebuild_leaves(child);
    lemma_rebuild_new_member(x, k, leaves(child));
    assert(ms.take(m - 1).push((k, child)) =~= ms.take(m as int));
}

/// The assignments of a tree, put together one after the other from
/// `Null`, give the tree, as long as no object holds a key twice.
pub proof fn lemma_assemble_leaves(t: Tree)
    requires
        t.wf(),
    ensures
        assemble(leaves(t), leaves(t).len()) == t,
{
    lemma_assemble_rebuild(leaves(t), leaves(t).len());
    assert(leaves(t).take(leaves(t).len() as int) =~= leaves(t));
    lemma_rebuild_leaves(t);
}

} // verus!
