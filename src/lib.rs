//! A map from byte-sequence keys to values, stored as a trie that branches
//! on the nibbles (half-bytes) of each key.
use vstd::prelude::*;

pub mod path;
pub mod trie;
pub mod trie_node;

use crate::path::{nibble_path, BRANCHING};

verus! {

/// A map from byte strings to values of type `T`: a trie over the nibbles
/// of each key, sixteen children per node.
pub struct Trie<T> {
    inner: trie::Trie<[u8], T, BRANCHING>,
}

impl<T> View for Trie<T> {
    type V = Map<Seq<usize>, T>;

    /// The stored values, by the nibble path of their key.
    closed spec fn view(&self) -> Map<Seq<usize>, T> {
        self.inner@
    }
}

impl<T> Trie<T> {
    /// The underlying trie is well formed.
    pub closed spec fn wf(&self) -> bool {
        self.inner.wf()
    }

    /// An empty trie.
    pub fn new() -> (r: Trie<T>)
        ensures
            r.wf(),
            r@ == Map::<Seq<usize>, T>::empty(),
    {
        Trie { inner: trie::Trie::new() }
    }

    /// The value stored under `key`, if any.
    pub fn get(&self, key: &[u8]) -> (r: Option<&T>)
        ensures
            r is Some == self@.contains_key(nibble_path(key@)),
            r is Some ==> *r.unwrap() == self@[nibble_path(key@)],
    {
        self.inner.get(key)
    }

    /// A mutable reference to the value stored under `key`, if any.
    pub fn get_mut(&mut self, key: &[u8]) -> (r: Option<&mut T>)
        requires
            old(self).wf(),
        ensures
            final(self).wf(),
            r is Some == old(self)@.contains_key(nibble_path(key@)),
            r is Some ==> *r.unwrap() == old(self)@[nibble_path(key@)],
            r is Some ==> final(self)@ == old(self)@.insert(nibble_path(key@), *final(r.unwrap())),
            r is None ==> *final(self) == *old(self),
    {
        self.inner.get_mut(key)
    }

    /// Removes the value stored under `key` and returns it.
    pub fn delete(&mut self, key: &[u8]) -> (r: Option<T>)
        requires
            old(self).wf(),
        ensures
            final(self).wf(),
            final(self)@ == old(self)@.remove(nibble_path(key@)),
            r is Some == old(self)@.contains_key(nibble_path(key@)),
            r is Some ==> r.unwrap() == old(self)@[nibble_path(key@)],
            final(self)@.len() == old(self)@.len() - if r is Some { 1int } else { 0int },
            r is None ==> *final(self) == *old(self),
    {
        self.inner.delete(key)
    }

    /// Stores `val` under `key` and returns the value that was there.
    pub fn insert(&mut self, key: &[u8], val: T) -> (r: Option<T>)
        requires
            old(self).wf(),
            old(self)@.len() < usize::MAX || old(self)@.contains_key(nibble_path(key@)),
        ensures
            final(self).wf(),
            final(self)@ == old(self)@.insert(nibble_path(key@), val),
            r is Some == old(self)@.contains_key(nibble_path(key@)),
            r is Some ==> r.unwrap() == old(self)@[nibble_path(key@)],
            final(self)@.len() == old(self)@.len() + if r is Some { 0int } else { 1int },
    {
        self.inner.insert(key, val)
    }

    /// The number of stored values.
    pub fn len(&self) -> (r: usize)
        requires
            self.wf(),
        ensures
            r == self@.len(),
    {
        self.inner.len()
    }

    /// Whether no value is stored.
    pub fn is_empty(&self) -> (r: bool)
        requires
            self.wf(),
        ensures
            r == (self@.len() == 0),
    {
        self.inner.is_empty()
    }
}

impl<T> Default for Trie<T> {
    fn default() -> (r: Self)
        ensures
            r.wf(),
            r@ == Map::<Seq<usize>, T>::empty(),
    {
        Self::new()
    }
}

} // verus!
