//! Laws of the trie's operations, stated over the contracts' own terms: the map
//! of stored entries and the order relations on its keys.
use vstd::prelude::*;
use crate::order::{is_successor, is_predecessor, is_next, is_prev};

verus! {

/// The entries after inserting each pair of `ops`, in order, into `m`.
pub open spec fn after_inserts<T>(m: Map<usize, T>, ops: Seq<(usize, T)>) -> Map<usize, T>
    decreases ops.len(),
{
    if ops.len() == 0 {
        m
    } else {
        after_inserts(m, ops.drop_last()).insert(ops.last().0, ops.last().1)
    }
}

/// After a sequence of inserts into an empty trie, a key is found exactly when
/// it was inserted, and it holds the value of its most recent insert.
pub proof fn law_find_after_inserts<T>(ops: Seq<(usize, T)>, k: usize)
    ensures
        after_inserts(Map::<usize, T>::empty(), ops).contains_key(k) <==> exists|i: int|
            0 <= i < ops.len() && (#[trigger] ops[i]).0 == k,
        forall|i: int|
            0 <= i < ops.len() && (#[trigger] ops[i]).0 == k && (forall|j: int|
                i < j < ops.len() ==> (#[trigger] ops[j]).0 != k) ==> after_inserts(
                Map::<usize, T>::empty(),
                ops,
            )[k] == ops[i].1,
    decreases ops.len(),
{
    if ops.len() > 0 {
        let init = ops.drop_last();
        law_find_after_inserts(init, k);
        if ops.last().0 != k {
            if exists|i: int| 0 <= i < ops.len() && (#[trigger] ops[i]).0 == k {
                let i = choose|i: int| 0 <= i < ops.len() && (#[trigger] ops[i]).0 == k;
                assert(init[i] == ops[i]);
            }
            assert forall|i: int|
                0 <= i < ops.len() && (#[trigger] ops[i]).0 == k && (forall|j: int|
                    i < j < ops.len() ==> (#[trigger] ops[j]).0 != k) implies after_inserts(
                Map::<usize, T>::empty(),
                ops,
            )[k] == ops[i].1 by {
                assert(init[i] == ops[i]);
                assert forall|j: int| i < j < init.len() implies (#[trigger] init[j]).0 != k by {
                    assert(init[j] == ops[j]);
                }
            }
        } else {
            assert(ops[ops.len() - 1].0 == k);
        }
    }
}

/// Inserting a new key adds one entry, inserting a stored key adds none;
/// deleting a stored key removes one entry, deleting an absent key removes none.
pub proof fn law_count<T>(m: Map<usize, T>, k: usize, v: T)
    requires
        m.dom().finite(),
    ensures
        !m.contains_key(k) ==> m.insert(k, v).len() == m.len() + 1,
        m.contains_key(k) ==> m.insert(k, v).len() == m.len(),
        m.contains_key(k) ==> m.remove(k).len() == m.len() - 1,
        !m.contains_key(k) ==> m.remove(k).len() == m.len(),
{
    if !m.contains_key(k) {
        assert(m.remove(k) =~= m);
    }
    if m.contains_key(k) {
        assert(m.insert(k, v).dom() =~= m.dom());
    }
}

/// For a stored key, the inclusive successor and predecessor are the key itself.
pub proof fn law_inclusive(keys: Set<usize>, k: usize, s: usize)
    requires
        keys.contains(k),
    ensures
        is_successor(keys, k, s) <==> s == k,
        is_predecessor(keys, k, s) <==> s == k,
{
}

/// No key has a predecessor below every stored key, nor a successor above them.
pub proof fn law_boundary(keys: Set<usize>, key: usize, s: usize)
    ensures
        (forall|x: usize| #[trigger] keys.contains(x) ==> key < x) ==> !is_predecessor(keys, key, s),
        (forall|x: usize| #[trigger] keys.contains(x) ==> x < key) ==> !is_successor(keys, key, s),
{
}

/// After a key is deleted, its successor and predecessor are the keys that were
/// its neighbours in the chain of leaves.
pub proof fn law_delete_neighbours(
    keys: Set<usize>,
    k: usize,
    before: Option<usize>,
    after: Option<usize>,
)
    requires
        keys.contains(k),
        is_prev(keys, k, before),
        is_next(keys, k, after),
    ensures
        !keys.remove(k).contains(k),
        match after {
            Some(b) => is_successor(keys.remove(k), k, b),
            None => forall|x: usize| #[trigger] keys.remove(k).contains(x) ==> x < k,
        },
        match before {
            Some(a) => is_predecessor(keys.remove(k), k, a),
            None => forall|x: usize| #[trigger] keys.remove(k).contains(x) ==> k < x,
        },
{
    let rest = keys.remove(k);
    assert forall|x: usize| #[trigger] rest.contains(x) implies keys.contains(x) && x != k by {}
}

/// The successor and the predecessor of a key are unique, so the queries'
/// results are fixed by the stored keys alone.
pub proof fn law_queries_determined(keys: Set<usize>, key: usize, s1: usize, s2: usize)
    ensures
        is_successor(keys, key, s1) && is_successor(keys, key, s2) ==> s1 == s2,
        is_predecessor(keys, key, s1) && is_predecessor(keys, key, s2) ==> s1 == s2,
{
}

} // verus!
