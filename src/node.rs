//! Nodes of the trie.
use vstd::prelude::*;

verus! {

/// One outgoing side of an internal node.
#[derive(Clone, Copy, PartialEq, Eq, Structural, Debug)]
pub enum Link {
    /// Nothing is stored below the node.
    Absent,
    /// A real child exists on this side, one level down under the extended prefix.
    Child,
    /// No child on this side: the key of the nearest leaf reached by continuing
    /// toward this side through the other child.
    Shortcut(usize),
}

/// A node of the trie: a leaf, which holds a value and its neighbours in the
/// sorted chain of leaves, or an internal node, which holds two links.
#[derive(Debug)]
pub struct TrieNode<T> {
    pub(crate) key: usize,
    /// The stored value; present exactly on leaves.
    pub value: Option<T>,
    pub(crate) level: usize,
    pub(crate) left: Link,
    pub(crate) right: Link,
    pub(crate) prev: Option<usize>,
    pub(crate) next: Option<usize>,
}

impl<T> TrieNode<T> {
    /// The key of a leaf (0 on internal nodes).
    pub closed spec fn spec_key(&self) -> usize {
        self.key
    }

    /// The stored value.
    pub closed spec fn spec_value(&self) -> Option<T> {
        self.value
    }

    /// The depth of the node.
    pub closed spec fn spec_level(&self) -> usize {
        self.level
    }

    /// The key of the previous leaf in the chain.
    pub closed spec fn spec_prev(&self) -> Option<usize> {
        self.prev
    }

    /// The key of the next leaf in the chain.
    pub closed spec fn spec_next(&self) -> Option<usize> {
        self.next
    }

    /// The node's left side.
    pub closed spec fn spec_left(&self) -> Link {
        self.left
    }

    /// The node's right side.
    pub closed spec fn spec_right(&self) -> Link {
        self.right
    }
    /// Creates a leaf at `level` holding `key` and `value`, not yet linked to
    /// any neighbour.
    pub fn new(key: usize, value: T, level: usize) -> (r: Box<Self>)
        ensures
            r.spec_key() == key,
            r.spec_value() == Some(value),
            r.spec_level() == level,
            r.spec_prev() is None,
            r.spec_next() is None,
            r.spec_left() == Link::Absent,
            r.spec_right() == Link::Absent,
    {
        Box::new(
            TrieNode {
                key,
                value: Some(value),
                level,
                left: Link::Absent,
                right: Link::Absent,
                prev: None,
                next: None,
            },
        )
    }

    /// Creates an internal node at `level` with the given sides.
    pub(crate) fn new_internal(level: usize, left: Link, right: Link) -> (r: Self)
        ensures
            r.spec_key() == 0,
            r.spec_value() is None,
            r.spec_level() == level,
            r.spec_left() == left,
            r.spec_right() == right,
            r.spec_prev() is None,
            r.spec_next() is None,
    {
        TrieNode { key: 0, value: None, level, left, right, prev: None, next: None }
    }

    /// The key of a leaf.
    pub fn key(&self) -> (r: usize)
        ensures
            r == self.spec_key(),
    {
        self.key
    }

    /// A reference to the key of a leaf.
    pub fn key_ref(&self) -> (r: &usize)
        ensures
            *r == self.spec_key(),
    {
        &self.key
    }

    /// The depth of the node; the root is at level 0.
    pub fn level(&self) -> (r: usize)
        ensures
            r == self.spec_level(),
    {
        self.level
    }

    /// The left side of an internal node.
    pub fn left(&self) -> (r: Link)
        ensures
            r == self.spec_left(),
    {
        self.left
    }

    /// The right side of an internal node.
    pub fn right(&self) -> (r: Link)
        ensures
            r == self.spec_right(),
    {
        self.right
    }

    /// Replaces the value of a leaf.
    pub(crate) fn set_value(&mut self, value: T)
        ensures
            final(self).spec_value() == Some(value),
            final(self).spec_key() == old(self).spec_key(),
            final(self).spec_level() == old(self).spec_level(),
            final(self).spec_prev() == old(self).spec_prev(),
            final(self).spec_next() == old(self).spec_next(),
    {
        self.value = Some(value);
    }

    /// Sets the previous leaf in the chain.
    pub(crate) fn set_prev(&mut self, prev: Option<usize>)
        ensures
            final(self).spec_prev() == prev,
            final(self).spec_value() == old(self).spec_value(),
            final(self).spec_key() == old(self).spec_key(),
            final(self).spec_level() == old(self).spec_level(),
            final(self).spec_next() == old(self).spec_next(),
    {
        self.prev = prev;
    }

    /// Sets the next leaf in the chain.
    pub(crate) fn set_next(&mut self, next: Option<usize>)
        ensures
            final(self).spec_next() == next,
            final(self).spec_value() == old(self).spec_value(),
            final(self).spec_key() == old(self).spec_key(),
            final(self).spec_level() == old(self).spec_level(),
            final(self).spec_prev() == old(self).spec_prev(),
    {
        self.next = next;
    }

    /// The key of the next larger leaf in the chain, on a leaf.
    pub fn next_key(&self) -> (r: Option<usize>)
        ensures
            r == self.spec_next(),
    {
        self.next
    }

    /// The key of the next smaller leaf in the chain, on a leaf.
    pub fn prev_key(&self) -> (r: Option<usize>)
        ensures
            r == self.spec_prev(),
    {
        self.prev
    }
}

} // verus!
