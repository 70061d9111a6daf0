//! Key prefixes: the top bits of a key, as they index the levels of the trie.
use vstd::prelude::*;

verus! {

/// The prefix of `key` that indexes level `level` of a trie whose leaves sit
/// at level `bits`: the key with its lowest `bits - level` bits dropped.
pub open spec fn prefix(key: usize, bits: nat, level: nat) -> usize {
    key >> ((bits - level) as usize)
}

/// `key` lies in the universe of a trie with `bits` levels below the root.
pub open spec fn in_universe(key: usize, bits: nat) -> bool {
    key >> (bits as usize) == 0
}

proof fn lemma_shr_succ(k: usize, s: usize)
    requires
        s < 64,
    ensures
        k >> ((s + 1) as usize) == (k >> s) >> 1usize,
{
    assert(k >> ((s + 1) as usize) == (k >> s) >> 1usize) by (bit_vector)
        requires
            s < 64,
    ;
}

proof fn lemma_shr_split(x: usize)
    ensures
        x == 2 * (x >> 1usize) + (x & 1usize),
        (x & 1usize) == 0 || (x & 1usize) == 1,
{
    assert(x == 2 * (x >> 1usize) + (x & 1usize)) by (bit_vector);
    assert((x & 1usize) == 0 || (x & 1usize) == 1) by (bit_vector);
}

proof fn lemma_shr_mono(a: usize, b: usize, s: usize)
    requires
        a <= b,
    ensures
        a >> s <= b >> s,
{
    assert(a >> s <= b >> s) by (bit_vector)
        requires
            a <= b,
    ;
}

/// The prefix one level down is the prefix followed by one more bit of the key.
pub proof fn lemma_prefix_child(key: usize, bits: nat, level: nat)
    requires
        level < bits,
        bits < 64,
    ensures
        prefix(key, bits, level + 1) as int == 2 * (prefix(key, bits, level) as int) + (
        (key >> ((bits - level - 1) as usize)) & 1usize) as int,
        prefix(key, bits, level) as int == prefix(key, bits, level + 1) as int / 2,
        prefix(key, bits, level + 1) as int == 2 * (prefix(key, bits, level) as int)
            || prefix(key, bits, level + 1) as int == 2 * (prefix(key, bits, level) as int) + 1,
        2 * (prefix(key, bits, level) as int) + 1 <= usize::MAX,
{
    let s = (bits - level - 1) as usize;
    lemma_shr_succ(key, s);
    lemma_shr_split(key >> s);
    lemma_usize_max_odd();
}

proof fn lemma_usize_max_odd()
    ensures
        usize::MAX % 2 == 1,
{
    assert(usize::MAX == 0xffff_ffff || usize::MAX == 0xffff_ffff_ffff_ffff);
}

/// The key 0 lies in every universe.
pub proof fn lemma_zero_in_universe(bits: nat)
    ensures
        in_universe(0, bits),
{
    let s = bits as usize;
    assert(0usize >> s == 0) by (bit_vector);
}

/// Every key of the universe has the prefix 0 at level 0.
pub proof fn lemma_prefix_root(key: usize, bits: nat)
    requires
        in_universe(key, bits),
    ensures
        prefix(key, bits, 0) == 0,
{
}

/// At the bottom level the prefix of a key is the key itself.
pub proof fn lemma_prefix_bottom(key: usize, bits: nat)
    ensures
        prefix(key, bits, bits) == key,
{
    assert(key >> 0usize == key) by (bit_vector);
}

/// Prefixes preserve the order of keys.
pub proof fn lemma_prefix_mono(a: usize, b: usize, bits: nat, level: nat)
    requires
        a <= b,
        level <= bits,
    ensures
        prefix(a, bits, level) <= prefix(b, bits, level),
{
    lemma_shr_mono(a, b, (bits - level) as usize);
}

/// A key that lies between two keys with one prefix has that prefix too.
pub proof fn lemma_prefix_between(lo: usize, x: usize, hi: usize, bits: nat, level: nat)
    requires
        lo <= x <= hi,
        prefix(lo, bits, level) == prefix(hi, bits, level),
        level <= bits,
    ensures
        prefix(x, bits, level) == prefix(lo, bits, level),
{
    lemma_prefix_mono(lo, x, bits, level);
    lemma_prefix_mono(x, hi, bits, level);
}

/// Keys under the left child of a node come before keys under its right child.
pub proof fn lemma_prefix_orders(a: usize, b: usize, bits: nat, level: nat)
    requires
        prefix(a, bits, level) < prefix(b, bits, level),
        level <= bits,
    ensures
        a < b,
{
    if a >= b {
        lemma_prefix_mono(b, a, bits, level);
    }
}

} // verus!
