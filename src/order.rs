//! Order facts about sets of keys, as the trie's links and queries state them.
use vstd::prelude::*;
use crate::prefix::{prefix, lemma_prefix_child, lemma_prefix_orders};

verus! {

/// Some key of `keys` has prefix `p` at `level`.
pub open spec fn has_under(keys: Set<usize>, bits: nat, level: nat, p: int) -> bool {
    exists|x: usize| #[trigger] keys.contains(x) && prefix(x, bits, level) as int == p
}

/// `m` is the smallest key of `keys` with prefix `p` at `level`.
pub open spec fn is_min_under(keys: Set<usize>, bits: nat, level: nat, p: int, m: usize) -> bool {
    &&& keys.contains(m)
    &&& prefix(m, bits, level) as int == p
    &&& forall|x: usize| #[trigger] keys.contains(x) && prefix(x, bits, level) as int == p ==> m <= x
}

/// `m` is the largest key of `keys` with prefix `p` at `level`.
pub open spec fn is_max_under(keys: Set<usize>, bits: nat, level: nat, p: int, m: usize) -> bool {
    &&& keys.contains(m)
    &&& prefix(m, bits, level) as int == p
    &&& forall|x: usize| #[trigger] keys.contains(x) && prefix(x, bits, level) as int == p ==> x <= m
}

/// `s` is the smallest key of `keys` that is at least `key`.
pub open spec fn is_successor(keys: Set<usize>, key: usize, s: usize) -> bool {
    &&& keys.contains(s)
    &&& key <= s
    &&& forall|x: usize| #[trigger] keys.contains(x) && key <= x ==> s <= x
}

/// `s` is the largest key of `keys` that is at most `key`.
pub open spec fn is_predecessor(keys: Set<usize>, key: usize, s: usize) -> bool {
    &&& keys.contains(s)
    &&& s <= key
    &&& forall|x: usize| #[trigger] keys.contains(x) && x <= key ==> x <= s
}

/// `n` is the key that follows `k` in `keys`, or none when `k` is the largest.
pub open spec fn is_next(keys: Set<usize>, k: usize, n: Option<usize>) -> bool {
    match n {
        Some(s) => {
            &&& keys.contains(s)
            &&& k < s
            &&& forall|x: usize| #[trigger] keys.contains(x) && k < x ==> s <= x
        },
        None => forall|x: usize| #[trigger] keys.contains(x) ==> x <= k,
    }
}

/// `n` is the key that precedes `k` in `keys`, or none when `k` is the smallest.
pub open spec fn is_prev(keys: Set<usize>, k: usize, n: Option<usize>) -> bool {
    match n {
        Some(s) => {
            &&& keys.contains(s)
            &&& s < k
            &&& forall|x: usize| #[trigger] keys.contains(x) && x < k ==> x <= s
        },
        None => forall|x: usize| #[trigger] keys.contains(x) ==> k <= x,
    }
}

/// The smallest key under a child is the smallest under its parent, when it is
/// the left child or the left child is empty.
pub proof fn lemma_min_from_child(keys: Set<usize>, bits: nat, level: nat, q: int, c: int, m: usize)
    requires
        level < bits < 64,
        is_min_under(keys, bits, level + 1, c, m),
        c == 2 * q || (c == 2 * q + 1 && !has_under(keys, bits, level + 1, 2 * q)),
    ensures
        is_min_under(keys, bits, level, q, m),
{
    lemma_prefix_child(m, bits, level);
    assert forall|x: usize| #[trigger] keys.contains(x) && prefix(x, bits, level) as int == q implies m
        <= x by {
        lemma_prefix_child(x, bits, level);
        if prefix(x, bits, level + 1) as int != c {
            if c == 2 * q {
                lemma_prefix_orders(m, x, bits, level + 1);
            } else {
                assert(has_under(keys, bits, level + 1, 2 * q));
            }
        }
    }
}

/// The largest key under a child is the largest under its parent, when it is
/// the right child or the right child is empty.
pub proof fn lemma_max_from_child(keys: Set<usize>, bits: nat, level: nat, q: int, c: int, m: usize)
    requires
        level < bits < 64,
        is_max_under(keys, bits, level + 1, c, m),
        c == 2 * q + 1 || (c == 2 * q && !has_under(keys, bits, level + 1, 2 * q + 1)),
    ensures
        is_max_under(keys, bits, level, q, m),
{
    lemma_prefix_child(m, bits, level);
    assert forall|x: usize| #[trigger] keys.contains(x) && prefix(x, bits, level) as int == q implies x
        <= m by {
        lemma_prefix_child(x, bits, level);
        if prefix(x, bits, level + 1) as int != c {
            if c == 2 * q + 1 {
                lemma_prefix_orders(x, m, bits, level + 1);
            } else {
                assert(has_under(keys, bits, level + 1, 2 * q + 1));
            }
        }
    }
}

/// A key is under a node exactly when it is under one of the node's two children.
pub proof fn lemma_under_children(keys: Set<usize>, bits: nat, level: nat, q: int)
    requires
        level < bits < 64,
    ensures
        has_under(keys, bits, level, q) <==> (has_under(keys, bits, level + 1, 2 * q) || has_under(
            keys,
            bits,
            level + 1,
            2 * q + 1,
        )),
{
    if has_under(keys, bits, level, q) {
        let x = choose|x: usize| #[trigger] keys.contains(x) && prefix(x, bits, level) as int == q;
        lemma_prefix_child(x, bits, level);
    }
    if has_under(keys, bits, level + 1, 2 * q) {
        let x = choose|x: usize|
            #[trigger] keys.contains(x) && prefix(x, bits, level + 1) as int == 2 * q;
        lemma_prefix_child(x, bits, level);
    }
    if has_under(keys, bits, level + 1, 2 * q + 1) {
        let x = choose|x: usize|
            #[trigger] keys.contains(x) && prefix(x, bits, level + 1) as int == 2 * q + 1;
        lemma_prefix_child(x, bits, level);
    }
}

/// Two key sets that differ at most in `key` agree on every node that is not on
/// the path of `key`.
pub proof fn lemma_under_frame(
    keys: Set<usize>,
    keys2: Set<usize>,
    key: usize,
    bits: nat,
    level: nat,
    q: int,
)
    requires
        forall|x: usize| x != key ==> (#[trigger] keys.contains(x) == keys2.contains(x)),
        prefix(key, bits, level) as int != q,
    ensures
        has_under(keys, bits, level, q) == has_under(keys2, bits, level, q),
        forall|m: usize|
            is_min_under(keys, bits, level, q, m) == #[trigger] is_min_under(keys2, bits, level, q, m),
        forall|m: usize|
            is_max_under(keys, bits, level, q, m) == #[trigger] is_max_under(keys2, bits, level, q, m),
{
    if has_under(keys, bits, level, q) {
        let x = choose|x: usize| #[trigger] keys.contains(x) && prefix(x, bits, level) as int == q;
        assert(keys2.contains(x));
    }
    if has_under(keys2, bits, level, q) {
        let x = choose|x: usize| #[trigger] keys2.contains(x) && prefix(x, bits, level) as int == q;
        assert(keys.contains(x));
    }
    assert forall|x: usize|
        #![trigger keys.contains(x)]
        #![trigger keys2.contains(x)]
        keys.contains(x) && prefix(x, bits, level) as int == q <==> keys2.contains(x) && prefix(
            x,
            bits,
            level,
        ) as int == q by {
        if x != key {
            assert(keys.contains(x) == keys2.contains(x));
        }
    }
    assert forall|m: usize|
        is_min_under(keys, bits, level, q, m) == #[trigger] is_min_under(keys2, bits, level, q, m) by {
        if m != key {
            assert(keys.contains(m) == keys2.contains(m));
        }
    }
    assert forall|m: usize|
        is_max_under(keys, bits, level, q, m) == #[trigger] is_max_under(keys2, bits, level, q, m) by {
        if m != key {
            assert(keys.contains(m) == keys2.contains(m));
        }
    }
}

/// Once `key` is removed, the key after it gets the key before it as its
/// predecessor; the other keys keep theirs.
pub proof fn lemma_prev_after_remove(
    keys: Set<usize>,
    key: usize,
    before: Option<usize>,
    after: Option<usize>,
    k: usize,
    kprev: Option<usize>,
)
    requires
        keys.contains(key),
        keys.contains(k),
        k != key,
        is_prev(keys, key, before),
        is_next(keys, key, after),
        is_prev(keys, k, kprev),
    ensures
        is_prev(keys.remove(key), k, if after == Some(k) { before } else { kprev }),
{
    let nkeys = keys.remove(key);
    if after == Some(k) {
        match before {
            Some(s) => {
                assert forall|x: usize| #[trigger] nkeys.contains(x) && x < k implies x <= s by {
                    assert(keys.contains(x));
                }
            },
            None => {
                assert forall|x: usize| #[trigger] nkeys.contains(x) implies k <= x by {
                    assert(keys.contains(x));
                }
            },
        }
    } else {
        match kprev {
            Some(s) => {
                if s == key {
                    let b = after->Some_0;
                    assert(keys.contains(k) && key < k);
                    assert(keys.contains(b) && b <= k);
                }
            },
            None => {},
        }
    }
}

/// Once `key` is removed, the key before it gets the key after it as its
/// successor; the other keys keep theirs.
pub proof fn lemma_next_after_remove(
    keys: Set<usize>,
    key: usize,
    before: Option<usize>,
    after: Option<usize>,
    k: usize,
    knext: Option<usize>,
)
    requires
        keys.contains(key),
        keys.contains(k),
        k != key,
        is_prev(keys, key, before),
        is_next(keys, key, after),
        is_next(keys, k, knext),
    ensures
        is_next(keys.remove(key), k, if before == Some(k) { after } else { knext }),
{
    let nkeys = keys.remove(key);
    if before == Some(k) {
        match after {
            Some(s) => {
                assert forall|x: usize| #[trigger] nkeys.contains(x) && k < x implies s <= x by {
                    assert(keys.contains(x));
                }
            },
            None => {
                assert forall|x: usize| #[trigger] nkeys.contains(x) implies x <= k by {
                    assert(keys.contains(x));
                }
            },
        }
    } else {
        match knext {
            Some(s) => {
                if s == key {
                    let a = before->Some_0;
                    assert(keys.contains(k) && k < key);
                    assert(keys.contains(a) && k <= a);
                }
            },
            None => {},
        }
    }
}

/// The neighbours of `key` in a set without it, as the inclusive queries find them.
pub open spec fn splice_ok(keys: Set<usize>, key: usize, pred: Option<usize>, succ: Option<usize>) -> bool {
    &&& !keys.contains(key)
    &&& match pred {
        Some(a) => is_predecessor(keys, key, a),
        None => forall|x: usize| #[trigger] keys.contains(x) ==> key < x,
    }
    &&& match succ {
        Some(b) => is_successor(keys, key, b),
        None => forall|x: usize| #[trigger] keys.contains(x) ==> x < key,
    }
}

/// A key spliced in between its neighbours is linked to them.
pub proof fn lemma_links_of_inserted(keys: Set<usize>, key: usize, pred: Option<usize>, succ: Option<usize>)
    requires
        splice_ok(keys, key, pred, succ),
    ensures
        is_prev(keys.insert(key), key, pred),
        is_next(keys.insert(key), key, succ),
{
    assert forall|x: usize| #[trigger] keys.insert(key).contains(x) && x != key implies keys.contains(
        x,
    ) by {}
}

/// Once `key` is inserted, its successor gets it as predecessor; the other
/// keys keep theirs.
pub proof fn lemma_prev_after_insert(
    keys: Set<usize>,
    key: usize,
    pred: Option<usize>,
    succ: Option<usize>,
    k: usize,
    kprev: Option<usize>,
)
    requires
        splice_ok(keys, key, pred, succ),
        keys.contains(k),
        is_prev(keys, k, kprev),
    ensures
        is_prev(keys.insert(key), k, if succ == Some(k) { Some(key) } else { kprev }),
{
    let nkeys = keys.insert(key);
    if succ == Some(k) {
        assert forall|x: usize| #[trigger] nkeys.contains(x) && x < k implies x <= key by {
            if x != key && x > key {
                assert(keys.contains(x));
            }
        }
    } else {
        match kprev {
            Some(s) => {
                assert forall|x: usize| #[trigger] nkeys.contains(x) && x < k implies x <= s by {
                    if x == key {
                        let b = succ->Some_0;
                        assert(keys.contains(b) && b <= k);
                    }
                }
            },
            None => {
                if key < k {
                    let b = succ->Some_0;
                    assert(keys.contains(b) && b <= k);
                }
            },
        }
    }
}

/// Once `key` is inserted, its predecessor gets it as successor; the other
/// keys keep theirs.
pub proof fn lemma_next_after_insert(
    keys: Set<usize>,
    key: usize,
    pred: Option<usize>,
    succ: Option<usize>,
    k: usize,
    knext: Option<usize>,
)
    requires
        splice_ok(keys, key, pred, succ),
        keys.contains(k),
        is_next(keys, k, knext),
    ensures
        is_next(keys.insert(key), k, if pred == Some(k) { Some(key) } else { knext }),
{
    let nkeys = keys.insert(key);
    if pred == Some(k) {
        assert forall|x: usize| #[trigger] nkeys.contains(x) && k < x implies key <= x by {
            if x != key && x < key {
                assert(keys.contains(x));
            }
        }
    } else {
        match knext {
            Some(s) => {
                assert forall|x: usize| #[trigger] nkeys.contains(x) && k < x implies s <= x by {
                    if x == key {
                        let a = pred->Some_0;
                        assert(keys.contains(a) && k <= a);
                    }
                }
            },
            None => {
                if k < key {
                    let a = pred->Some_0;
                    assert(keys.contains(a) && k <= a);
                }
            },
        }
    }
}

} // verus!
