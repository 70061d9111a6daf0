//! The trie: one index per level, the sorted chain of leaves, and the shortcut
//! links of internal nodes that miss a child.
use vstd::prelude::*;
use std::collections::HashMap;
use crate::node::{Link, TrieNode};
use crate::order::{
    has_under,
    is_min_under,
    is_max_under,
    is_successor,
    is_predecessor,
    is_next,
    is_prev,
    lemma_min_from_child,
    lemma_max_from_child,
    lemma_under_children,
    lemma_under_frame,
    lemma_prev_after_remove,
    lemma_next_after_remove,
    lemma_prev_after_insert,
    lemma_next_after_insert,
    lemma_links_of_inserted,
    splice_ok,
};
use crate::prefix::{
    prefix,
    in_universe,
    lemma_prefix_child,
    lemma_prefix_root,
    lemma_prefix_bottom,
    lemma_prefix_between,
    lemma_prefix_orders,
};

verus! {

broadcast use vstd::std_specs::hash::group_hash_axioms;

/// The left side of the internal node with prefix `p` at `level`: a real child
/// when keys lie under the left half, else a shortcut to the smallest key below
/// the node, or nothing when no key lies below it.
pub open spec fn left_ok(keys: Set<usize>, bits: nat, level: nat, p: int, link: Link) -> bool {
    match link {
        Link::Child => has_under(keys, bits, level + 1, 2 * p),
        Link::Shortcut(m) => !has_under(keys, bits, level + 1, 2 * p) && is_min_under(
            keys,
            bits,
            level,
            p,
            m,
        ),
        Link::Absent => !has_under(keys, bits, level, p),
    }
}

/// The right side, symmetric to `left_ok`.
pub open spec fn right_ok(keys: Set<usize>, bits: nat, level: nat, p: int, link: Link) -> bool {
    match link {
        Link::Child => has_under(keys, bits, level + 1, 2 * p + 1),
        Link::Shortcut(m) => !has_under(keys, bits, level + 1, 2 * p + 1) && is_max_under(
            keys,
            bits,
            level,
            p,
            m,
        ),
        Link::Absent => !has_under(keys, bits, level, p),
    }
}

/// A leaf of key `k`: it holds a value and its neighbours in the sorted chain.
pub open spec fn leaf_ok<T>(keys: Set<usize>, bits: nat, k: usize, n: TrieNode<T>) -> bool {
    &&& n.spec_key() == k
    &&& n.spec_level() == bits
    &&& n.spec_value() is Some
    &&& is_prev(keys, k, n.spec_prev())
    &&& is_next(keys, k, n.spec_next())
}

/// An internal node with prefix `p` at `level`.
pub open spec fn node_ok<T>(keys: Set<usize>, bits: nat, level: nat, p: int, n: TrieNode<T>) -> bool {
    &&& n.spec_level() == level
    &&& n.spec_value() is None
    &&& left_ok(keys, bits, level, p, n.spec_left())
    &&& right_ok(keys, bits, level, p, n.spec_right())
}

/// The index of one internal level: it holds exactly the prefixes of stored keys
/// (and the root at level 0), each with a well-formed node. The prefix `skip` is
/// left out of the statement.
pub open spec fn level_ok<T>(
    keys: Set<usize>,
    bits: nat,
    level: nat,
    m: Map<usize, TrieNode<T>>,
    skip: int,
) -> bool {
    &&& forall|p: usize|
        #![trigger m.contains_key(p)]
        #![trigger has_under(keys, bits, level, p as int)]
        p as int != skip ==> (m.contains_key(p) <==> ((level == 0 && p == 0) || has_under(
            keys,
            bits,
            level,
            p as int,
        )))
    &&& forall|p: usize|
        p as int != skip && #[trigger] m.contains_key(p) ==> node_ok(keys, bits, level, p as int, m[p])
}

/// The prefix of `path` at `level`, or -1 (no prefix) when there is no path.
pub open spec fn skip_of(path: Option<usize>, bits: nat, level: nat) -> int {
    match path {
        Some(k) => prefix(k, bits, level) as int,
        None => -1,
    }
}

/// Adding or removing `key` leaves every level well formed off the path of `key`.
pub proof fn lemma_level_ok_transfer<T>(
    keys: Set<usize>,
    keys2: Set<usize>,
    key: usize,
    bits: nat,
    level: nat,
    m: Map<usize, TrieNode<T>>,
)
    requires
        level < bits < 64,
        level_ok(keys, bits, level, m, -1),
        forall|x: usize| x != key ==> (#[trigger] keys.contains(x) == keys2.contains(x)),
    ensures
        level_ok(keys2, bits, level, m, prefix(key, bits, level) as int),
{
    assert forall|q: usize| q as int != prefix(key, bits, level) as int implies (#[trigger] m.contains_key(
        q,
    ) <==> ((level == 0 && q == 0) || has_under(keys2, bits, level, q as int))) && (m.contains_key(q)
        ==> node_ok(keys2, bits, level, q as int, m[q])) by {
        lemma_prefix_child(key, bits, level);
        lemma_under_frame(keys, keys2, key, bits, level, q as int);
        lemma_under_frame(keys, keys2, key, bits, level + 1, 2 * q as int);
        lemma_under_frame(keys, keys2, key, bits, level + 1, 2 * q as int + 1);
        assert(m.contains_key(q) <==> ((level == 0 && q == 0) || has_under(keys, bits, level, q as int)));
        if m.contains_key(q) {
            assert(node_ok(keys, bits, level, q as int, m[q]));
        }
    }
    assert forall|q: usize| q as int != prefix(key, bits, level) as int implies (m.contains_key(q)
        <==> ((level == 0 && q == 0) || #[trigger] has_under(keys2, bits, level, q as int))) by {
        assert(m.contains_key(q) ==> node_ok(keys2, bits, level, q as int, m[q]));
    }
}

/// A bitwise trie storing values under the integer keys of `[0, 2^bits)`.
///
/// Level `l` of the trie is an index from the `l`-bit prefixes of the stored keys
/// to their nodes; the last level holds the leaves, keyed by full key.
pub struct Xfast<T = String> {
    nr_levels: usize,
    level_maps: Vec<HashMap<usize, TrieNode<T>>>,
}

impl<T> View for Xfast<T> {
    type V = Map<usize, T>;

    /// The stored entries: each key with its value.
    closed spec fn view(&self) -> Map<usize, T> {
        self.leaves().map_values(|n: TrieNode<T>| n.spec_value()->Some_0)
    }
}

impl<T> Xfast<T> {
    /// The number of bits of a key: keys lie in `[0, 2^bits)`.
    pub closed spec fn bits(&self) -> nat {
        self.nr_levels as nat
    }

    /// The index of level `l`.
    pub closed spec fn level_map(&self, l: int) -> Map<usize, TrieNode<T>> {
        self.level_maps@[l]@
    }

    /// The leaves, keyed by key.
    pub closed spec fn leaves(&self) -> Map<usize, TrieNode<T>> {
        self.level_map(self.nr_levels as int)
    }

    /// The stored keys.
    pub closed spec fn keys(&self) -> Set<usize> {
        self.leaves().dom()
    }

    /// The key after `k` in the chain of leaves.
    pub closed spec fn chain_next(&self, k: usize) -> Option<usize> {
        self.leaves()[k].spec_next()
    }

    /// The key before `k` in the chain of leaves.
    pub closed spec fn chain_prev(&self, k: usize) -> Option<usize> {
        self.leaves()[k].spec_prev()
    }

    /// Every stored key lies in the trie's universe.
    pub proof fn lemma_stored_in_universe(&self, k: usize)
        requires
            self.wf(),
            self@.contains_key(k),
        ensures
            in_universe(k, self.bits()),
    {
        self.lemma_view();
        self.lemma_leaf(k);
    }

    /// The chain of leaves is sorted: each stored key links to the next larger
    /// and the next smaller stored key, and the ends link to nothing.
    pub proof fn law_chain_order(&self, k: usize)
        requires
            self.wf(),
            self@.contains_key(k),
        ensures
            is_next(self@.dom(), k, self.chain_next(k)),
            is_prev(self@.dom(), k, self.chain_prev(k)),
            self.chain_next(k) matches Some(s) ==> k < s,
            self.chain_prev(k) matches Some(s) ==> s < k,
    {
        self.lemma_view();
        self.lemma_leaf(k);
    }

    /// Bounds, level count, and the leaves with their chain links.
    closed spec fn shape_ok(&self) -> bool {
        &&& 1 <= self.nr_levels < usize::BITS
        &&& self.level_maps@.len() == self.nr_levels + 1
        &&& self.leaves_ok()
    }

    /// Every leaf lies in the universe and is linked to its neighbours.
    #[verifier::opaque]
    closed spec fn leaves_ok(&self) -> bool {
        forall|k: usize| #[trigger]
            self.leaves().contains_key(k) ==> in_universe(k, self.bits()) && leaf_ok(
                self.keys(),
                self.bits(),
                k,
                self.leaves()[k],
            )
    }

    /// The leaves' part of the invariant depends on the leaves alone.
    proof fn lemma_leaves_frame(&self, other: &Self)
        requires
            self.leaves_ok(),
            other.nr_levels == self.nr_levels,
            other.leaves() == self.leaves(),
        ensures
            other.leaves_ok(),
    {
        reveal(Xfast::leaves_ok);
    }

    /// Splicing a new leaf between its predecessor and successor keeps the
    /// chain sorted and linked.
    proof fn lemma_chain_insert(&self, new: &Self, key: usize, pred: Option<usize>, succ: Option<usize>)
        requires
            self.leaves_ok(),
            new.nr_levels == self.nr_levels,
            in_universe(key, self.bits()),
            splice_ok(self.keys(), key, pred, succ),
            new.keys() == self.keys().insert(key),
            new.leaves()[key].spec_key() == key,
            new.leaves()[key].spec_level() == self.bits(),
            new.leaves()[key].spec_value() is Some,
            new.leaves()[key].spec_prev() == pred,
            new.leaves()[key].spec_next() == succ,
            forall|j: usize| #[trigger]
                self.keys().contains(j) ==> {
                    &&& new.leaves()[j].spec_key() == self.leaves()[j].spec_key()
                    &&& new.leaves()[j].spec_level() == self.leaves()[j].spec_level()
                    &&& new.leaves()[j].spec_value() == self.leaves()[j].spec_value()
                    &&& new.leaves()[j].spec_prev() == if succ == Some(j) {
                        Some(key)
                    } else {
                        self.leaves()[j].spec_prev()
                    }
                    &&& new.leaves()[j].spec_next() == if pred == Some(j) {
                        Some(key)
                    } else {
                        self.leaves()[j].spec_next()
                    }
                },
        ensures
            new.leaves_ok(),
    {
        reveal(Xfast::leaves_ok);
        let keys = self.keys();
        let nkeys = new.keys();
        assert forall|k: usize| #[trigger] new.leaves().contains_key(k) implies in_universe(
            k,
            new.bits(),
        ) && leaf_ok(nkeys, new.bits(), k, new.leaves()[k]) by {
            if k != key {
                assert(keys.contains(k));
                let n = self.leaves()[k];
                assert(leaf_ok(keys, self.bits(), k, n));
                lemma_prev_after_insert(keys, key, pred, succ, k, n.spec_prev());
                lemma_next_after_insert(keys, key, pred, succ, k, n.spec_next());
            } else {
                lemma_links_of_inserted(keys, key, pred, succ);
            }
        }
    }

    /// Unlinking a leaf joins its two neighbours and keeps the chain sorted.
    proof fn lemma_chain_remove(&self, new: &Self, key: usize)
        requires
            self.leaves_ok(),
            new.nr_levels == self.nr_levels,
            self.keys().contains(key),
            new.keys() == self.keys().remove(key),
            forall|j: usize| #[trigger]
                new.keys().contains(j) ==> {
                    &&& new.leaves()[j].spec_key() == self.leaves()[j].spec_key()
                    &&& new.leaves()[j].spec_level() == self.leaves()[j].spec_level()
                    &&& new.leaves()[j].spec_value() == self.leaves()[j].spec_value()
                    &&& new.leaves()[j].spec_prev() == if self.leaves()[key].spec_next() == Some(j) {
                        self.leaves()[key].spec_prev()
                    } else {
                        self.leaves()[j].spec_prev()
                    }
                    &&& new.leaves()[j].spec_next() == if self.leaves()[key].spec_prev() == Some(j) {
                        self.leaves()[key].spec_next()
                    } else {
                        self.leaves()[j].spec_next()
                    }
                },
        ensures
            new.leaves_ok(),
    {
        reveal(Xfast::leaves_ok);
        let keys = self.keys();
        let nkeys = new.keys();
        let kn = self.leaves()[key];
        assert(leaf_ok(keys, self.bits(), key, kn));
        assert forall|k: usize| #[trigger] new.leaves().contains_key(k) implies in_universe(
            k,
            new.bits(),
        ) && leaf_ok(nkeys, new.bits(), k, new.leaves()[k]) by {
            assert(keys.contains(k));
            let n = self.leaves()[k];
            assert(leaf_ok(keys, self.bits(), k, n));
            lemma_prev_after_remove(keys, key, kn.spec_prev(), kn.spec_next(), k, n.spec_prev());
            lemma_next_after_remove(keys, key, kn.spec_prev(), kn.spec_next(), k, n.spec_next());
        }
    }

    /// Changing the values of leaves keeps the chain.
    proof fn lemma_chain_values(&self, new: &Self)
        requires
            self.leaves_ok(),
            new.nr_levels == self.nr_levels,
            new.keys() == self.keys(),
            forall|j: usize| #[trigger]
                new.keys().contains(j) ==> {
                    &&& new.leaves()[j].spec_key() == self.leaves()[j].spec_key()
                    &&& new.leaves()[j].spec_level() == self.leaves()[j].spec_level()
                    &&& new.leaves()[j].spec_value() is Some
                    &&& new.leaves()[j].spec_prev() == self.leaves()[j].spec_prev()
                    &&& new.leaves()[j].spec_next() == self.leaves()[j].spec_next()
                },
        ensures
            new.leaves_ok(),
    {
        reveal(Xfast::leaves_ok);
    }

    /// What the leaves' part of the invariant says of one key.
    proof fn lemma_leaf(&self, k: usize)
        requires
            self.leaves_ok(),
            self.keys().contains(k),
        ensures
            in_universe(k, self.bits()),
            leaf_ok(self.keys(), self.bits(), k, self.leaves()[k]),
    {
        reveal(Xfast::leaves_ok);
    }

    /// The internal levels in `[lo, hi)` are well formed, but for the nodes on
    /// the path of `path`.
    #[verifier::opaque]
    closed spec fn levels_ok(&self, lo: int, hi: int, path: Option<usize>) -> bool {
        forall|l: int|
            lo <= l < hi ==> level_ok(
                self.keys(),
                self.bits(),
                l as nat,
                #[trigger] self.level_map(l),
                skip_of(path, self.bits(), l as nat),
            )
    }

    /// The trie is well formed.
    pub closed spec fn wf(&self) -> bool {
        &&& self.shape_ok()
        &&& self.levels_ok(0, self.nr_levels as int, None)
    }

    /// What a well-formed level says of one prefix.
    proof fn lemma_level_at(&self, lo: int, hi: int, path: Option<usize>, l: int, q: usize)
        requires
            self.levels_ok(lo, hi, path),
            0 <= lo <= l < hi,
            q as int != skip_of(path, self.bits(), l as nat),
        ensures
            self.level_map(l).contains_key(q) <==> ((l == 0 && q == 0) || has_under(
                self.keys(),
                self.bits(),
                l as nat,
                q as int,
            )),
            self.level_map(l).contains_key(q) ==> node_ok(
                self.keys(),
                self.bits(),
                l as nat,
                q as int,
                self.level_map(l)[q],
            ),
    {
        reveal(Xfast::levels_ok);
        assert(level_ok(
            self.keys(),
            self.bits(),
            l as nat,
            self.level_map(l),
            skip_of(path, self.bits(), l as nat),
        ));
        let m = self.level_map(l);
        if m.contains_key(q) {
        } else {
            assert(!has_under(self.keys(), self.bits(), l as nat, q as int));
        }
    }

    /// A prefix missing from a level has no key under it.
    proof fn lemma_absent_not_under(&self, l: int, q: usize)
        requires
            self.wf(),
            0 < l <= self.nr_levels,
            !self.level_map(l).contains_key(q),
        ensures
            !has_under(self.keys(), self.bits(), l as nat, q as int),
    {
        if l == self.nr_levels {
            if has_under(self.keys(), self.bits(), l as nat, q as int) {
                let x = choose|x: usize|
                    #[trigger] self.keys().contains(x) && prefix(x, self.bits(), l as nat) as int
                        == q as int;
                lemma_prefix_bottom(x, self.bits());
            }
        } else {
            self.lemma_level_at(0, self.nr_levels as int, None, l, q);
        }
    }

    /// With nothing under the root, nothing is stored.
    proof fn lemma_root_empty(&self)
        requires
            self.wf(),
            !has_under(self.keys(), self.bits(), 0, 0),
        ensures
            self.keys() =~= Set::empty(),
    {
        assert forall|x: usize| !#[trigger] self.keys().contains(x) by {
            if self.keys().contains(x) {
                self.lemma_leaf(x);
                lemma_prefix_root(x, self.bits());
            }
        }
    }

    /// Below well-formed levels, a prefix is present exactly when keys lie under it.
    proof fn lemma_present_iff(&self, lv: int, q: usize)
        requires
            self.shape_ok(),
            0 < lv <= self.nr_levels,
            self.levels_ok(lv, self.nr_levels as int, None),
        ensures
            self.level_map(lv).contains_key(q) <==> has_under(self.keys(), self.bits(), lv as nat, q as int),
    {
        if lv == self.nr_levels {
            lemma_prefix_bottom(q, self.bits());
            if has_under(self.keys(), self.bits(), lv as nat, q as int) {
                let x = choose|x: usize|
                    #[trigger] self.keys().contains(x) && prefix(x, self.bits(), lv as nat) as int
                        == q as int;
                lemma_prefix_bottom(x, self.bits());
            }
            if self.keys().contains(q) {
                assert(self.keys().contains(q) && prefix(q, self.bits(), lv as nat) as int == q as int);
            }
        } else {
            self.lemma_level_at(lv, self.nr_levels as int, None, lv, q);
        }
    }

    /// Levels that did not change keep their properties.
    proof fn lemma_levels_frame(&self, other: &Self, lo: int, hi: int, path: Option<usize>)
        requires
            self.levels_ok(lo, hi, path),
            other.nr_levels == self.nr_levels,
            other.keys() == self.keys(),
            forall|l: int| lo <= l < hi ==> #[trigger] other.level_map(l) == self.level_map(l),
        ensures
            other.levels_ok(lo, hi, path),
    {
        reveal(Xfast::levels_ok);
        assert forall|l: int| lo <= l < hi implies level_ok(
            other.keys(),
            other.bits(),
            l as nat,
            #[trigger] other.level_map(l),
            skip_of(path, other.bits(), l as nat),
        ) by {}
    }

    /// Changing the stored keys by `key` alone keeps the levels well formed
    /// off its path.
    proof fn lemma_levels_transfer(&self, other: &Self, key: usize)
        requires
            self.levels_ok(0, self.nr_levels as int, None),
            self.nr_levels < 64,
            other.nr_levels == self.nr_levels,
            forall|l: int| 0 <= l < self.nr_levels ==> #[trigger] other.level_map(l) == self.level_map(l),
            forall|x: usize| x != key ==> (#[trigger] self.keys().contains(x) == other.keys().contains(x)),
        ensures
            other.levels_ok(0, other.nr_levels as int, Some(key)),
    {
        reveal(Xfast::levels_ok);
        assert forall|l: int| 0 <= l < other.nr_levels implies level_ok(
            other.keys(),
            other.bits(),
            l as nat,
            #[trigger] other.level_map(l),
            skip_of(Some(key), other.bits(), l as nat),
        ) by {
            lemma_level_ok_transfer(self.keys(), other.keys(), key, self.bits(), l as nat, self.level_map(l));
        }
    }

    /// One more level on the path of `key` restored.
    proof fn lemma_levels_step(&self, new: &Self, key: usize, l: int)
        requires
            self.levels_ok(0, l + 1, Some(key)),
            self.levels_ok(l + 1, self.nr_levels as int, None),
            0 <= l < self.nr_levels,
            new.nr_levels == self.nr_levels,
            new.keys() == self.keys(),
            forall|j: int| 0 <= j < self.nr_levels && j != l ==> #[trigger] new.level_map(j) == self.level_map(j),
            new.level_map(l).remove(prefix(key, self.bits(), l as nat)) == self.level_map(l).remove(
                prefix(key, self.bits(), l as nat),
            ),
            new.level_map(l).contains_key(prefix(key, self.bits(), l as nat)) <==> ((l == 0 && prefix(
                key,
                self.bits(),
                l as nat,
            ) == 0) || has_under(
                self.keys(),
                self.bits(),
                l as nat,
                prefix(key, self.bits(), l as nat) as int,
            )),
            new.level_map(l).contains_key(prefix(key, self.bits(), l as nat)) ==> node_ok(
                self.keys(),
                self.bits(),
                l as nat,
                prefix(key, self.bits(), l as nat) as int,
                new.level_map(l)[prefix(key, self.bits(), l as nat)],
            ),
        ensures
            new.levels_ok(0, l, Some(key)),
            new.levels_ok(l, new.nr_levels as int, None),
    {
        reveal(Xfast::levels_ok);
        let p = prefix(key, self.bits(), l as nat);
        let m = self.level_map(l);
        let nm = new.level_map(l);
        assert(level_ok(self.keys(), self.bits(), l as nat, m, p as int));
        assert forall|q: usize| q != p implies #[trigger] nm.contains_key(q) == m.contains_key(q) && (
        nm.contains_key(q) ==> nm[q] == m[q]) by {
            assert(nm.remove(p).contains_key(q) == nm.contains_key(q));
            assert(m.remove(p).contains_key(q) == m.contains_key(q));
            if nm.contains_key(q) {
                assert(nm.remove(p)[q] == nm[q]);
                assert(m.remove(p)[q] == m[q]);
            }
        }
        assert(level_ok(new.keys(), new.bits(), l as nat, nm, -1));
        assert forall|j: int| l <= j < new.nr_levels implies level_ok(
            new.keys(),
            new.bits(),
            j as nat,
            #[trigger] new.level_map(j),
            skip_of(None, new.bits(), j as nat),
        ) by {}
        assert forall|j: int| 0 <= j < l implies level_ok(
            new.keys(),
            new.bits(),
            j as nat,
            #[trigger] new.level_map(j),
            skip_of(Some(key), new.bits(), j as nat),
        ) by {}
    }

    /// The view holds the stored keys with the values of their leaves.
    proof fn lemma_view(&self)
        ensures
            self@.dom() == self.keys(),
            forall|k: usize| #[trigger]
                self.keys().contains(k) ==> self@[k] == self.leaves()[k].spec_value()->Some_0,
    {
        assert(self@.dom() =~= self.keys());
    }

    /// Builds `n` empty level indices.
    fn create_map_list(n: usize) -> (r: Vec<HashMap<usize, TrieNode<T>>>)
        ensures
            r@.len() == n,
            forall|i: int| 0 <= i < n ==> (#[trigger] r@[i])@ == Map::<usize, TrieNode<T>>::empty(),
    {
        let mut r: Vec<HashMap<usize, TrieNode<T>>> = Vec::new();
        let mut i: usize = 0;
        while i < n
            invariant
                i <= n,
                r@.len() == i,
                forall|j: int| 0 <= j < i ==> (#[trigger] r@[j])@ == Map::<
                    usize,
                    TrieNode<T>,
                >::empty(),
            decreases n - i,
        {
            r.push(HashMap::new());
            i = i + 1;
        }
        r
    }

    /// Creates an empty trie for the keys of `[0, 2^bit_width)`.
    ///
    /// The root sits at level 0 and the leaves at level `bit_width`, so the width
    /// is at least 1, and below the width of `usize` so that prefixes are shifts.
    pub fn new(bit_width: usize) -> (r: Self)
        requires
            1 <= bit_width < usize::BITS,
        ensures
            r.wf(),
            r.bits() == bit_width,
            r@ == Map::<usize, T>::empty(),
    {
        let mut level_maps = Self::create_map_list(bit_width + 1);
        let root = TrieNode::new_internal(0, Link::Absent, Link::Absent);
        level_maps[0].insert(0, root);
        let r = Xfast { nr_levels: bit_width, level_maps };
        proof {
            reveal(Xfast::levels_ok);
            reveal(Xfast::leaves_ok);
            assert(r.keys() =~= Set::empty());
            assert forall|l: int| 0 <= l < bit_width implies level_ok(
                r.keys(),
                r.bits(),
                l as nat,
                #[trigger] r.level_map(l),
                skip_of(None, r.bits(), l as nat),
            ) by {
                if l == 0 {
                    assert(r.level_map(0) =~= Map::<usize, TrieNode<T>>::empty().insert(0, root));
                } else {
                    assert(r.level_map(l) =~= Map::<usize, TrieNode<T>>::empty());
                }
                assert forall|p: usize| !#[trigger] has_under(r.keys(), r.bits(), l as nat, p as int) by {}
            }
            assert(r@ =~= Map::<usize, T>::empty());
        }
        r
    }

    /// Returns the number of stored keys.
    pub fn len(&self) -> (r: usize)
        requires
            self.wf(),
        ensures
            r == self@.len(),
    {
        proof {
            self.lemma_view();
        }
        self.level_maps[self.nr_levels].len()
    }

    /// Returns the leaf stored under `key`, if any.
    pub fn find_key(&self, key: usize) -> (r: Option<&TrieNode<T>>)
        requires
            self.wf(),
        ensures
            match r {
                Some(n) => {
                    &&& self@.contains_key(key)
                    &&& n.spec_key() == key
                    &&& n.spec_value() == Some(self@[key])
                    &&& n.spec_prev() == self.chain_prev(key)
                    &&& n.spec_next() == self.chain_next(key)
                },
                None => !self@.contains_key(key),
            },
    {
        proof {
            self.lemma_view();
            if self.keys().contains(key) {
                self.lemma_leaf(key);
            }
        }
        self.level_maps[self.nr_levels].get(&key)
    }
    /// The level index at depth `l` holds the node on the path of `key`.
    pub closed spec fn on_path(&self, key: usize, l: int) -> bool {
        self.level_map(l).contains_key(prefix(key, self.bits(), l as nat))
    }

    /// Binary search over the levels for the deepest node on the path of `key`:
    /// the level it returns holds that node and the next one down does not.
    fn find_lowest_common_ancestor(&self, key: usize) -> (d: usize)
        requires
            self.wf(),
            in_universe(key, self.bits()),
        ensures
            d <= self.nr_levels,
            self.on_path(key, d as int),
            d < self.nr_levels ==> !self.on_path(key, d + 1),
    {
        proof {
            lemma_prefix_root(key, self.bits());
            self.lemma_level_at(0, self.nr_levels as int, None, 0, 0);
        }
        let mut low: usize = 0;
        let mut high: usize = self.nr_levels;
        let mut ancestor: usize = 0;
        while low <= high
            invariant
                self.wf(),
                low <= high + 1,
                high <= self.nr_levels,
                self.on_path(key, 0),
                low > 0 ==> ancestor == low - 1 && self.on_path(key, ancestor as int),
                high < self.nr_levels ==> !self.on_path(key, high + 1),
            decreases high + 1 - low,
        {
            let mid = low + (high - low) / 2;
            let p = key >> (self.nr_levels - mid);
            if self.level_maps[mid].contains_key(&p) {
                ancestor = mid;
                low = mid + 1;
            } else {
                high = mid - 1;
            }
        }
        ancestor
    }

    /// The smallest key below the node with prefix `p` at `level`, reached by
    /// following left sides: real children, then at most one shortcut.
    fn get_leftmost_node(&self, level: usize, p: usize) -> (m: usize)
        requires
            self.shape_ok(),
            self.levels_ok(level as int, self.nr_levels as int, None),
            level <= self.nr_levels,
            self.level_map(level as int).contains_key(p),
            has_under(self.keys(), self.bits(), level as nat, p as int),
        ensures
            is_min_under(self.keys(), self.bits(), level as nat, p as int, m),
    {
        let mut l = level;
        let mut q = p;
        while l < self.nr_levels
            invariant
                self.shape_ok(),
                self.levels_ok(level as int, self.nr_levels as int, None),
                level <= l <= self.nr_levels,
                self.level_map(l as int).contains_key(q),
                has_under(self.keys(), self.bits(), l as nat, q as int),
                forall|m: usize|
                    is_min_under(self.keys(), self.bits(), l as nat, q as int, m) ==> is_min_under(
                        self.keys(),
                        self.bits(),
                        level as nat,
                        p as int,
                        m,
                    ),
            decreases self.nr_levels - l,
        {
            let node = self.level_maps[l].get(&q).unwrap();
            proof {
                self.lemma_level_at(level as int, self.nr_levels as int, None, l as int, q);
                let x = choose|x: usize|
                    #[trigger] self.keys().contains(x) && prefix(x, self.bits(), l as nat) as int
                        == q as int;
                lemma_prefix_child(x, self.bits(), l as nat);
            }
            match node.left() {
                Link::Shortcut(m) => {
                    return m;
                },
                _ => {
                    proof {
                        assert forall|m: usize|
                            is_min_under(
                                self.keys(),
                                self.bits(),
                                (l + 1) as nat,
                                2 * q as int,
                                m,
                            ) implies is_min_under(
                            self.keys(),
                            self.bits(),
                            level as nat,
                            p as int,
                            m,
                        ) by {
                            lemma_min_from_child(
                                self.keys(),
                                self.bits(),
                                l as nat,
                                q as int,
                                2 * q as int,
                                m,
                            );
                        }
                        if l + 1 < self.nr_levels {
                            self.lemma_level_at(
                                level as int,
                                self.nr_levels as int,
                                None,
                                l + 1,
                                (2 * q) as usize,
                            );
                        } else {
                            let x = choose|x: usize|
                                #[trigger] self.keys().contains(x) && prefix(
                                    x,
                                    self.bits(),
                                    (l + 1) as nat,
                                ) as int == 2 * q as int;
                            lemma_prefix_bottom(x, self.bits());
                        }
                    }
                    q = 2 * q;
                    l = l + 1;
                },
            }
        }
        proof {
            lemma_prefix_bottom(q, self.bits());
            assert forall|x: usize|
                #[trigger] self.keys().contains(x) && prefix(x, self.bits(), l as nat) as int
                    == q as int implies q <= x by {
                lemma_prefix_bottom(x, self.bits());
            }
        }
        q
    }

    /// The largest key below the node with prefix `p` at `level`, reached by
    /// following right sides: real children, then at most one shortcut.
    fn get_rightmost_node(&self, level: usize, p: usize) -> (m: usize)
        requires
            self.shape_ok(),
            self.levels_ok(level as int, self.nr_levels as int, None),
            level <= self.nr_levels,
            self.level_map(level as int).contains_key(p),
            has_under(self.keys(), self.bits(), level as nat, p as int),
        ensures
            is_max_under(self.keys(), self.bits(), level as nat, p as int, m),
    {
        let mut l = level;
        let mut q = p;
        while l < self.nr_levels
            invariant
                self.shape_ok(),
                self.levels_ok(level as int, self.nr_levels as int, None),
                level <= l <= self.nr_levels,
                self.level_map(l as int).contains_key(q),
                has_under(self.keys(), self.bits(), l as nat, q as int),
                forall|m: usize|
                    is_max_under(self.keys(), self.bits(), l as nat, q as int, m) ==> is_max_under(
                        self.keys(),
                        self.bits(),
                        level as nat,
                        p as int,
                        m,
                    ),
            decreases self.nr_levels - l,
        {
            let node = self.level_maps[l].get(&q).unwrap();
            proof {
                self.lemma_level_at(level as int, self.nr_levels as int, None, l as int, q);
                let x = choose|x: usize|
                    #[trigger] self.keys().contains(x) && prefix(x, self.bits(), l as nat) as int
                        == q as int;
                lemma_prefix_child(x, self.bits(), l as nat);
            }
            match node.right() {
                Link::Shortcut(m) => {
                    return m;
                },
                _ => {
                    proof {
                        assert forall|m: usize|
                            is_max_under(
                                self.keys(),
                                self.bits(),
                                (l + 1) as nat,
                                2 * q + 1 as int,
                                m,
                            ) implies is_max_under(
                            self.keys(),
                            self.bits(),
                            level as nat,
                            p as int,
                            m,
                        ) by {
                            lemma_max_from_child(
                                self.keys(),
                                self.bits(),
                                l as nat,
                                q as int,
                                2 * q + 1 as int,
                                m,
                            );
                        }
                        if l + 1 < self.nr_levels {
                            self.lemma_level_at(
                                level as int,
                                self.nr_levels as int,
                                None,
                                l + 1,
                                (2 * q + 1) as usize,
                            );
                        } else {
                            let x = choose|x: usize|
                                #[trigger] self.keys().contains(x) && prefix(
                                    x,
                                    self.bits(),
                                    (l + 1) as nat,
                                ) as int == 2 * q + 1 as int;
                            lemma_prefix_bottom(x, self.bits());
                        }
                    }
                    q = 2 * q + 1;
                    l = l + 1;
                },
            }
        }
        proof {
            lemma_prefix_bottom(q, self.bits());
            assert forall|x: usize|
                #[trigger] self.keys().contains(x) && prefix(x, self.bits(), l as nat) as int
                    == q as int implies x <= q by {
                lemma_prefix_bottom(x, self.bits());
            }
        }
        q
    }
    /// Returns the leaf of the smallest stored key that is at least `key`; the
    /// leaf of `key` itself when `key` is stored.
    pub fn find_successor(&self, key: usize) -> (r: Option<&TrieNode<T>>)
        requires
            self.wf(),
            in_universe(key, self.bits()),
        ensures
            match r {
                Some(n) => is_successor(self@.dom(), key, n.spec_key()) && n.spec_value() == Some(
                    self@[n.spec_key()],
                ),
                None => forall|x: usize| #[trigger] self@.dom().contains(x) ==> x < key,
            },
    {
        proof {
            self.lemma_view();
        }
        let d = self.find_lowest_common_ancestor(key);
        let bits = self.nr_levels;
        if d == bits {
            proof {
                lemma_prefix_bottom(key, self.bits());
                self.lemma_leaf(key);
            }
            return self.level_maps[bits].get(&key);
        }
        let p = key >> (bits - d);
        let node = self.level_maps[d].get(&p).unwrap();
        let bit = (key >> (bits - d - 1)) & 1;
        let ghost keys = self.keys();
        let ghost lb = self.bits();
        proof {
            self.lemma_level_at(0, bits as int, None, d as int, p);
            lemma_prefix_child(key, lb, d as nat);
            self.lemma_absent_not_under(d + 1, prefix(key, lb, (d + 1) as nat));
        }
        let link = if bit == 1 {
            node.right()
        } else {
            node.left()
        };
        match link {
            Link::Shortcut(m) => {
                proof {
                    self.lemma_leaf(m);
                    lemma_prefix_child(m, lb, d as nat);
                    if bit == 1 {
                        lemma_prefix_orders(m, key, lb, (d + 1) as nat);
                    } else {
                        lemma_prefix_orders(key, m, lb, (d + 1) as nat);
                    }
                }
                if m < key {
                    let leaf = self.level_maps[bits].get(&m).unwrap();
                    match leaf.next_key() {
                        Some(s) => {
                            proof {
                                self.lemma_leaf(s);
                                if s < key {
                                    lemma_prefix_between(m, s, key, lb, d as nat);
                                }
                            }
                            self.level_maps[bits].get(&s)
                        },
                        None => None,
                    }
                } else {
                    proof {
                        assert forall|x: usize|
                            #[trigger] keys.contains(x) && key <= x implies m <= x by {
                            if x < m {
                                lemma_prefix_between(key, x, m, lb, d as nat);
                            }
                        }
                    }
                    self.level_maps[bits].get(&m)
                }
            },
            _ => {
                proof {
                    self.lemma_root_empty();
                }
                None
            },
        }
    }

    /// Returns the leaf of the largest stored key that is at most `key`; the
    /// leaf of `key` itself when `key` is stored.
    pub fn find_predecessor(&self, key: usize) -> (r: Option<&TrieNode<T>>)
        requires
            self.wf(),
            in_universe(key, self.bits()),
        ensures
            match r {
                Some(n) => is_predecessor(self@.dom(), key, n.spec_key()) && n.spec_value()
                    == Some(self@[n.spec_key()]),
                None => forall|x: usize| #[trigger] self@.dom().contains(x) ==> key < x,
            },
    {
        proof {
            self.lemma_view();
        }
        let d = self.find_lowest_common_ancestor(key);
        let bits = self.nr_levels;
        if d == bits {
            proof {
                lemma_prefix_bottom(key, self.bits());
                self.lemma_leaf(key);
            }
            return self.level_maps[bits].get(&key);
        }
        let p = key >> (bits - d);
        let node = self.level_maps[d].get(&p).unwrap();
        let bit = (key >> (bits - d - 1)) & 1;
        let ghost keys = self.keys();
        let ghost lb = self.bits();
        proof {
            self.lemma_level_at(0, bits as int, None, d as int, p);
            lemma_prefix_child(key, lb, d as nat);
            self.lemma_absent_not_under(d + 1, prefix(key, lb, (d + 1) as nat));
        }
        let link = if bit == 1 {
            node.right()
        } else {
            node.left()
        };
        match link {
            Link::Shortcut(m) => {
                proof {
                    self.lemma_leaf(m);
                    lemma_prefix_child(m, lb, d as nat);
                    if bit == 1 {
                        lemma_prefix_orders(m, key, lb, (d + 1) as nat);
                    } else {
                        lemma_prefix_orders(key, m, lb, (d + 1) as nat);
                    }
                }
                if m > key {
                    let leaf = self.level_maps[bits].get(&m).unwrap();
                    match leaf.prev_key() {
                        Some(s) => {
                            proof {
                                self.lemma_leaf(s);
                                if s > key {
                                    lemma_prefix_between(key, s, m, lb, d as nat);
                                }
                            }
                            self.level_maps[bits].get(&s)
                        },
                        None => None,
                    }
                } else {
                    proof {
                        assert forall|x: usize|
                            #[trigger] keys.contains(x) && x <= key implies x <= m by {
                            if x > m {
                                lemma_prefix_between(m, x, key, lb, d as nat);
                            }
                        }
                    }
                    self.level_maps[bits].get(&m)
                }
            },
            _ => {
                proof {
                    self.lemma_root_empty();
                }
                None
            },
        }
    }
    /// Restores the nodes on the path of `key` after its leaf was added or
    /// removed, from the leaf's parent up to the root. A node left with no child
    /// is pruned (the root stays, with nothing below it), a missing node is
    /// created and linked, and each side without a real child gets a shortcut to
    /// the extremal leaf reached through the other child.
    fn update_descendant_ptr(&mut self, key: usize)
        requires
            old(self).shape_ok(),
            in_universe(key, old(self).bits()),
            old(self).levels_ok(0, old(self).nr_levels as int, Some(key)),
        ensures
            final(self).wf(),
            final(self).nr_levels == old(self).nr_levels,
            final(self).leaves() == old(self).leaves(),
    {
        let bits = self.nr_levels;
        let mut i = bits;
        assert(self.levels_ok(bits as int, bits as int, None)) by {
            reveal(Xfast::levels_ok);
        }
        while i > 0
            invariant
                self.shape_ok(),
                self.nr_levels == bits,
                self.leaves() == old(self).leaves(),
                in_universe(key, self.bits()),
                i <= bits,
                self.levels_ok(0, i as int, Some(key)),
                self.levels_ok(i as int, bits as int, None),
            decreases i,
        {
            let l = i - 1;
            let p = key >> (bits - l);
            proof {
                lemma_prefix_child(key, self.bits(), l as nat);
            }
            let c0 = 2 * p;
            let c1 = 2 * p + 1;
            let has0 = self.level_maps[l + 1].contains_key(&c0);
            let has1 = self.level_maps[l + 1].contains_key(&c1);
            let ghost pre = *self;
            let ghost keys = self.keys();
            proof {
                self.lemma_present_iff(l + 1, c0);
                self.lemma_present_iff(l + 1, c1);
                lemma_under_children(keys, self.bits(), l as nat, p as int);
                if l == 0 {
                    lemma_prefix_root(key, self.bits());
                }
            }
            if !has0 && !has1 {
                if l == 0 {
                    self.level_maps[l].insert(p, TrieNode::new_internal(l, Link::Absent, Link::Absent));
                } else {
                    self.level_maps[l].remove(&p);
                }
            } else {
                let left = if has0 {
                    Link::Child
                } else {
                    let m = self.get_leftmost_node(l + 1, c1);
                    proof {
                        lemma_min_from_child(keys, self.bits(), l as nat, p as int, c1 as int, m);
                    }
                    Link::Shortcut(m)
                };
                let right = if has1 {
                    Link::Child
                } else {
                    let m = self.get_rightmost_node(l + 1, c0);
                    proof {
                        lemma_max_from_child(keys, self.bits(), l as nat, p as int, c0 as int, m);
                    }
                    Link::Shortcut(m)
                };
                self.level_maps[l].insert(p, TrieNode::new_internal(l, left, right));
            }
            proof {
                assert(self.level_map(l as int).remove(p) =~= pre.level_map(l as int).remove(p));
                assert forall|j: int| 0 <= j <= bits && j != l implies #[trigger] self.level_map(j)
                    == pre.level_map(j) by {}
                assert(self.leaves() == pre.leaves());
                pre.lemma_leaves_frame(&*self);
                pre.lemma_levels_step(&*self, key, l as int);
            }
            i = l;
        }
    }
    /// Stores `value` under `key`. A key already present keeps its place in
    /// the chain of leaves and gets the new value.
    pub fn insert_key(&mut self, key: usize, value: T)
        requires
            old(self).wf(),
            in_universe(key, old(self).bits()),
        ensures
            final(self).wf(),
            final(self).bits() == old(self).bits(),
            final(self)@ == old(self)@.insert(key, value),
    {
        let bits = self.nr_levels;
        proof {
            self.lemma_view();
        }
        if self.level_maps[bits].contains_key(&key) {
            let ghost pre = *self;
            let mut leaf = self.level_maps[bits].remove(&key).unwrap();
            leaf.set_value(value);
            self.level_maps[bits].insert(key, leaf);
            proof {
                pre.lemma_leaf(key);
                assert(self.keys() =~= pre.keys());
                assert forall|j: usize| #[trigger] self.keys().contains(j) implies self.leaves()[j].spec_value() is Some
                    && self.leaves()[j].spec_key() == pre.leaves()[j].spec_key() by {
                    pre.lemma_leaf(j);
                }
                pre.lemma_chain_values(&*self);
                assert forall|l: int| 0 <= l < bits implies #[trigger] self.level_map(l)
                    == pre.level_map(l) by {}
                pre.lemma_levels_frame(&*self, 0, bits as int, None);
                self.lemma_view();
                assert(self@ =~= pre@.insert(key, value));
            }
            return ;
        }
        let pred = match self.find_predecessor(key) {
            Some(n) => Some(n.key()),
            None => None,
        };
        let succ = match self.find_successor(key) {
            Some(n) => Some(n.key()),
            None => None,
        };
        let ghost pre = *self;
        let mut leaf = TrieNode::new(key, value, bits);
        leaf.set_prev(pred);
        leaf.set_next(succ);
        if let Some(a) = pred {
            let mut n = self.level_maps[bits].remove(&a).unwrap();
            n.set_next(Some(key));
            self.level_maps[bits].insert(a, n);
        }
        let ghost mid = *self;
        if let Some(b) = succ {
            let mut n = self.level_maps[bits].remove(&b).unwrap();
            n.set_prev(Some(key));
            self.level_maps[bits].insert(b, n);
        }
        let ghost mid2 = *self;
        self.level_maps[bits].insert(key, *leaf);
        proof {
            assert(self.keys() =~= pre.keys().insert(key));
            assert(mid.keys() =~= pre.keys());
            assert(mid2.keys() =~= pre.keys());
            pre.lemma_chain_insert(&*self, key, pred, succ);
            assert forall|l: int| 0 <= l < bits implies #[trigger] self.level_map(l)
                == pre.level_map(l) by {}
            pre.lemma_levels_transfer(&*self, key);
        }
        let ghost spliced = *self;
        self.update_descendant_ptr(key);
        proof {
            self.lemma_view();
            spliced.lemma_view();
            pre.lemma_view();
            assert(self@ =~= pre@.insert(key, value));
        }
    }

    /// Removes `key` and returns its leaf, or returns none and changes nothing
    /// when `key` is not stored.
    pub fn delete_key(&mut self, key: usize) -> (r: Option<TrieNode<T>>)
        requires
            old(self).wf(),
        ensures
            final(self).wf(),
            final(self).bits() == old(self).bits(),
            match r {
                Some(n) => {
                    &&& old(self)@.contains_key(key)
                    &&& n.spec_key() == key
                    &&& n.spec_value() == Some(old(self)@[key])
                    &&& n.spec_prev() == old(self).chain_prev(key)
                    &&& n.spec_next() == old(self).chain_next(key)
                    &&& final(self)@ == old(self)@.remove(key)
                },
                None => !old(self)@.contains_key(key) && final(self)@ == old(self)@,
            },
    {
        let bits = self.nr_levels;
        proof {
            self.lemma_view();
        }
        if !self.level_maps[bits].contains_key(&key) {
            return None;
        }
        let ghost pre = *self;
        proof {
            pre.lemma_leaf(key);
        }
        let leaf = self.level_maps[bits].remove(&key).unwrap();
        let pred = leaf.prev_key();
        let succ = leaf.next_key();
        if let Some(a) = pred {
            proof {
                pre.lemma_leaf(a);
            }
            let mut n = self.level_maps[bits].remove(&a).unwrap();
            n.set_next(succ);
            self.level_maps[bits].insert(a, n);
        }
        let ghost mid = *self;
        if let Some(b) = succ {
            proof {
                pre.lemma_leaf(b);
            }
            let mut n = self.level_maps[bits].remove(&b).unwrap();
            n.set_prev(pred);
            self.level_maps[bits].insert(b, n);
        }
        proof {
            assert(self.keys() =~= pre.keys().remove(key));
            assert(mid.keys() =~= pre.keys().remove(key));
            pre.lemma_chain_remove(&*self, key);
            assert forall|l: int| 0 <= l < bits implies #[trigger] self.level_map(l)
                == pre.level_map(l) by {}
            pre.lemma_levels_transfer(&*self, key);
            lemma_prefix_root(key, pre.bits());
        }
        let ghost spliced = *self;
        self.update_descendant_ptr(key);
        proof {
            self.lemma_view();
            spliced.lemma_view();
            pre.lemma_view();
            assert(self@ =~= pre@.remove(key));
        }
        Some(leaf)
    }
}

} // verus!
