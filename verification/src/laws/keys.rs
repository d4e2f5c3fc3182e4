//! The keys of the members of an object.
use vstd::prelude::*;
use crate::parser::grammar::{find_key, put};
use crate::{distinct_keys, Tree};

verus! {

/// Where no member from `from` on has the key, the key is looked for in
/// vain; where one has it, the first such place is found.
pub proof fn lemma_find_key(ms: Seq<(Seq<char>, Tree)>, k: Seq<char>, from: int)
    requires
        0 <= from <= ms.len(),
    ensures
        from <= find_key(ms, k, from) <= ms.len(),
        find_key(ms, k, from) < ms.len() ==> ms[find_key(ms, k, from)].0 == k,
        forall|i: int| from <= i < find_key(ms, k, from) ==> (#[trigger] ms[i]).0 != k,
    decreases ms.len() - from,
{
    if from < ms.len() && ms[from].0 != k {
        lemma_find_key(ms, k, from + 1);
    }
}

/// Where the key is none of the keys before it, the first place of the key
/// is behind them.
pub proof fn lemma_find_new_key(ms: Seq<(Seq<char>, Tree)>, k: Seq<char>, from: int)
    requires
        0 <= from <= ms.len(),
        forall|i: int| 0 <= i < ms.len() ==> (#[trigger] ms[i]).0 != k,
    ensures
        find_key(ms, k, from) == ms.len(),
    decreases ms.len() - from,
{
    if from < ms.len() {
        lemma_find_new_key(ms, k, from + 1);
    }
}

/// To put a member keeps the keys distinct.
pub proof fn lemma_put_distinct(ms: Seq<(Seq<char>, Tree)>, k: Seq<char>, v: Tree)
    requires
        distinct_keys(ms),
    ensures
        distinct_keys(put(ms, k, v)),
        put(ms, k, v).len() >= ms.len(),
        forall|i: int|
            0 <= i < put(ms, k, v).len() ==> (#[trigger] put(ms, k, v)[i]).1 == v || (i < ms.len()
                && put(ms, k, v)[i] == ms[i]),
{
    lemma_find_key(ms, k, 0);
    let i = find_key(ms, k, 0);
    let next = put(ms, k, v);
    assert forall|a: int, b: int| 0 <= a < b < next.len() implies (#[trigger] next[a]).0 != (
    #[trigger] next[b]).0 by {
        if i < ms.len() {
            assert(next[a].0 == ms[a].0);
            assert(next[b].0 == ms[b].0);
        } else {
            if b < ms.len() {
                assert(next[a] == ms[a]);
                assert(next[b] == ms[b]);
            } else {
                assert(next[a] == ms[a]);
            }
        }
    }
}

} // verus!
