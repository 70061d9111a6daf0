//! Enumeration of the stored entries, in ascending order of key.
use vstd::prelude::*;
use crate::node::TrieNode;
use crate::prefix::lemma_zero_in_universe;
use crate::trie::Xfast;

verus! {

/// The keys of `s` ascend strictly.
pub open spec fn ascending(s: Seq<usize>) -> bool {
    forall|i: int, j: int| 0 <= i < j < s.len() ==> s[i] < s[j]
}

/// What an enumeration of the trie `t` holds: every stored key once, in
/// ascending order.
pub open spec fn enumerates<T>(t: Xfast<T>, keys: Seq<usize>) -> bool {
    &&& ascending(keys)
    &&& forall|x: usize| #[trigger] keys.contains(x) <==> t@.contains_key(x)
}

impl<T> Xfast<T> {
    /// The stored keys in ascending order, read by walking the chain of leaves
    /// from the smallest key.
    pub fn chain_keys(&self) -> (r: Vec<usize>)
        requires
            self.wf(),
        ensures
            enumerates(*self, r@),
    {
        let mut keys: Vec<usize> = Vec::new();
        proof {
            lemma_zero_in_universe(self.bits());
        }
        let first = match self.find_successor(0) {
            Some(n) => n.key(),
            None => {
                return keys;
            },
        };
        let mut cur = first;
        keys.push(cur);
        let mut nxt = self.find_key(cur).unwrap().next_key();
        proof {
            assert(keys@[0] == cur);
        }
        while nxt.is_some()
            invariant
                self.wf(),
                self@.contains_key(cur),
                nxt == self.chain_next(cur),
                keys@.len() > 0,
                keys@.last() == cur,
                ascending(keys@),
                forall|x: usize| #[trigger]
                    keys@.contains(x) <==> (self@.contains_key(x) && x <= cur),
            decreases usize::MAX - cur,
        {
            let s = nxt.unwrap();
            proof {
                self.law_chain_order(cur);
            }
            let ghost old_keys = keys@;
            keys.push(s);
            proof {
                assert forall|x: usize| #[trigger]
                    keys@.contains(x) <==> (self@.contains_key(x) && x <= s) by {
                    if keys@.contains(x) && x != s {
                        let i = choose|i: int| 0 <= i < keys@.len() && keys@[i] == x;
                        assert(old_keys[i] == x);
                    }
                    if old_keys.contains(x) {
                        let i = choose|i: int| 0 <= i < old_keys.len() && old_keys[i] == x;
                        assert(keys@[i] == x);
                    }
                    if x == s {
                        assert(keys@[keys@.len() - 1] == s);
                    }
                }
                assert forall|i: int, j: int| 0 <= i < j < keys@.len() implies keys@[i] < keys@[j] by {
                    if j < keys@.len() - 1 {
                        assert(old_keys[i] == keys@[i] && old_keys[j] == keys@[j]);
                    } else {
                        assert(old_keys.contains(keys@[i]));
                    }
                }
            }
            cur = s;
            nxt = self.find_key(cur).unwrap().next_key();
        }
        proof {
            self.law_chain_order(cur);
        }
        keys
    }

    /// Returns an iterator over the stored keys and their leaves, in ascending
    /// order of key; the keys are read when it is made.
    pub fn iter(&self) -> (r: XfastIter<'_, T>)
        requires
            self.wf(),
        ensures
            r.wf(),
            r.trie() == *self,
            r.position() == 0,
            enumerates(*self, r.keys()),
    {
        let keys = self.chain_keys();
        XfastIter { trie: self, keys, index: 0 }
    }
}

impl<T> Xfast<T> {
    /// Returns an iterator over the stored keys, in ascending order, through
    /// which the value of each key can be replaced; the keys are read when it is
    /// made.
    pub fn iter_mut(&mut self) -> (r: XfastIterMut<'_, T>)
        requires
            old(self).wf(),
        ensures
            r.wf(),
            r.trie() == *old(self),
            r.position() == 0,
            enumerates(*old(self), r.keys()),
    {
        let keys = self.chain_keys();
        XfastIterMut { trie: self, keys, index: 0 }
    }
}

/// An iterator over the keys and leaves of a trie.
pub struct XfastIter<'a, T> {
    trie: &'a Xfast<T>,
    keys: Vec<usize>,
    index: usize,
}

impl<'a, T> XfastIter<'a, T> {
    /// The trie enumerated.
    pub closed spec fn trie(&self) -> Xfast<T> {
        *self.trie
    }

    /// The keys, read when the iterator was made.
    pub closed spec fn keys(&self) -> Seq<usize> {
        self.keys@
    }

    /// How many keys were handed out.
    pub closed spec fn position(&self) -> int {
        self.index as int
    }

    /// The iterator enumerates its trie.
    pub closed spec fn wf(&self) -> bool {
        &&& self.trie.wf()
        &&& self.index <= self.keys@.len()
        &&& enumerates(*self.trie, self.keys@)
    }

    /// Hands out the next key with its leaf, or none after the last.
    pub fn next(&mut self) -> (r: Option<(&'a usize, &'a TrieNode<T>)>)
        requires
            old(self).wf(),
        ensures
            final(self).wf(),
            final(self).trie() == old(self).trie(),
            final(self).keys() == old(self).keys(),
            old(self).position() < old(self).keys().len() ==> {
                &&& final(self).position() == old(self).position() + 1
                &&& r matches Some((k, n)) && *k == old(self).keys()[old(self).position()]
                    && n.spec_key() == *k && n.spec_value() == Some(old(self).trie()@[*k])
            },
            old(self).position() >= old(self).keys().len() ==> r is None && final(self).position()
                == old(self).position(),
    {
        if self.index < self.keys.len() {
            let key = self.keys[self.index];
            self.index = self.index + 1;
            proof {
                assert(self.keys@.contains(key));
            }
            let trie: &'a Xfast<T> = self.trie;
            let node = trie.find_key(key).unwrap();
            Some((node.key_ref(), node))
        } else {
            None
        }
    }
}

/// An iterator over the keys of a trie that can replace their values.
pub struct XfastIterMut<'a, T> {
    trie: &'a mut Xfast<T>,
    keys: Vec<usize>,
    index: usize,
}

impl<'a, T> XfastIterMut<'a, T> {
    /// The trie enumerated, as it stands.
    pub closed spec fn trie(&self) -> Xfast<T> {
        *self.trie
    }

    /// The keys, read when the iterator was made.
    pub closed spec fn keys(&self) -> Seq<usize> {
        self.keys@
    }

    /// How many keys were handed out.
    pub closed spec fn position(&self) -> int {
        self.index as int
    }

    /// The iterator enumerates its trie.
    pub closed spec fn wf(&self) -> bool {
        &&& self.trie.wf()
        &&& self.index <= self.keys@.len()
        &&& enumerates(*self.trie, self.keys@)
    }

    /// Hands out the next key, or none after the last.
    pub fn next(&mut self) -> (r: Option<usize>)
        requires
            old(self).wf(),
        ensures
            final(self).wf(),
            final(self).trie() == old(self).trie(),
            final(self).keys() == old(self).keys(),
            old(self).position() < old(self).keys().len() ==> {
                &&& final(self).position() == old(self).position() + 1
                &&& r == Some(old(self).keys()[old(self).position()])
            },
            old(self).position() >= old(self).keys().len() ==> r is None && final(self).position()
                == old(self).position(),
    {
        if self.index < self.keys.len() {
            let key = self.keys[self.index];
            self.index = self.index + 1;
            Some(key)
        } else {
            None
        }
    }

    /// Replaces the value of the key handed out last; does nothing before the
    /// first key is handed out.
    pub fn set_value(&mut self, value: T)
        requires
            old(self).wf(),
        ensures
            final(self).wf(),
            final(self).keys() == old(self).keys(),
            final(self).position() == old(self).position(),
            old(self).position() > 0 ==> final(self).trie()@ == old(self).trie()@.insert(
                old(self).keys()[old(self).position() - 1],
                value,
            ),
            old(self).position() == 0 ==> final(self).trie()@ == old(self).trie()@,
    {
        if self.index > 0 {
            let key = self.keys[self.index - 1];
            proof {
                assert(self.keys@.contains(key));
                self.trie.lemma_stored_in_universe(key);
            }
            self.trie.insert_key(key, value);
            proof {
                assert forall|x: usize| #[trigger] self.keys@.contains(x) <==> self.trie@.contains_key(x) by {}
            }
        }
    }
}

} // verus!
