//! The trie map: keys are turned into nibble paths, and each path addresses
//! one node below the root.
use vstd::prelude::*;

use crate::path::{
    is_prefix, is_strict_prefix, lemma_nibble_path_in_range, nibble_path, path_in_range, path_lt, push_nibbles,
    BRANCHING,
};
use crate::trie_node::TrieNode;
use std::marker::PhantomData;
use vstd::string::StringSliceAdditionalSpecFns;
use vstd::utf8::encode_utf8;

verus! {

/// What successive calls of `next` return from entries `s`: the first one,
/// then those of the rest.
pub open spec fn drain_front<X>(s: Seq<X>) -> Seq<X>
    decreases s.len(),
{
    if s.len() == 0 {
        s
    } else {
        seq![s[0]] + drain_front(s.drop_first())
    }
}

/// What successive calls of `next_back` return from entries `s`: the last
/// one, then those of the rest.
pub open spec fn drain_back<X>(s: Seq<X>) -> Seq<X>
    decreases s.len(),
{
    if s.len() == 0 {
        s
    } else {
        seq![s.last()] + drain_back(s.drop_last())
    }
}

proof fn lemma_drain_front<X>(s: Seq<X>)
    ensures
        drain_front(s) == s,
    decreases s.len(),
{
    if s.len() > 0 {
        lemma_drain_front(s.drop_first());
        assert(seq![s[0]] + s.drop_first() =~= s);
    }
}

proof fn lemma_drain_back<X>(s: Seq<X>)
    ensures
        drain_back(s) == s.reverse(),
    decreases s.len(),
{
    if s.len() > 0 {
        lemma_drain_back(s.drop_last());
        assert(seq![s.last()] + s.drop_last().reverse() =~= s.reverse());
    }
}

/// A snapshot of a trie's entries in increasing path order, consumed from
/// either end. It borrows the trie, which cannot change while it lives.
pub struct TrieIter<'a, K: TrieKey<N> + ?Sized, T, const N: usize> {
    _trie: &'a Trie<K, T, N>,
    items: Vec<(Vec<usize>, &'a T)>,
    front_index: usize,
    back_index: usize,
}

impl<'a, K: TrieKey<N> + ?Sized, T, const N: usize> TrieIter<'a, K, T, N> {
    /// The two cursors lie within the snapshot, the front one not past the back one.
    pub closed spec fn wf(&self) -> bool {
        self.front_index <= self.back_index <= self.items@.len()
    }

    /// The number of entries in the snapshot.
    pub closed spec fn snapshot_len(&self) -> nat {
        self.items@.len()
    }

    /// The number of entries taken so far, from either end.
    pub closed spec fn consumed(&self) -> nat {
        (self.front_index + (self.items@.len() - self.back_index)) as nat
    }

    /// The entries not consumed yet, as (path, value) pairs.
    pub closed spec fn remaining(&self) -> Seq<(Seq<usize>, T)> {
        Seq::new(
            (self.back_index - self.front_index) as nat,
            |k: int|
                (
                    self.items@[self.front_index + k].0@,
                    *self.items@[self.front_index + k].1,
                ),
        )
    }

    fn new(trie: &'a Trie<K, T, N>) -> (r: Self)
        requires
            trie.wf(),
        ensures
            r.wf(),
            forall|a: int, b: int|
                0 <= a < b < r.remaining().len() ==> path_lt(
                    #[trigger] r.remaining()[a].0,
                    #[trigger] r.remaining()[b].0,
                ),
            forall|k: int|
                0 <= k < r.remaining().len() ==> trie@.contains_key(#[trigger] r.remaining()[k].0)
                    && trie@[r.remaining()[k].0] == r.remaining()[k].1,
            forall|p: Seq<usize>|
                #[trigger] trie@.contains_key(p) ==> exists|k: int|
                    0 <= k < r.remaining().len() && #[trigger] r.remaining()[k].0 == p,
            r.remaining().len() == trie@.len(),
            r.snapshot_len() == trie@.len(),
            r.consumed() == 0,
    {
        let items = trie.root.collect_all(Ghost(trie.depth@));
        let back_index = items.len();
        let r = TrieIter { _trie: trie, items, front_index: 0, back_index };
        proof {
            assert forall|p: Seq<usize>| #[trigger] trie@.contains_key(p) implies exists|k: int|
                0 <= k < r.remaining().len() && #[trigger] r.remaining()[k].0 == p by {
                let k = choose|k: int| 0 <= k < r.items@.len() && #[trigger] r.items@[k].0@ == p;
                assert(r.remaining()[k].0 == r.items@[k].0@);
            }
            assert forall|a: int, b: int|
                0 <= a < b < r.remaining().len() implies path_lt(
                    #[trigger] r.remaining()[a].0,
                    #[trigger] r.remaining()[b].0,
                ) by {
                assert(r.remaining()[a].0 == r.items@[a].0@);
                assert(r.remaining()[b].0 == r.items@[b].0@);
            }
            let rem = r.remaining();
            let paths = rem.map_values(|e: (Seq<usize>, T)| e.0);
            assert forall|a: int, b: int| 0 <= a < paths.len() && 0 <= b < paths.len() && a != b
                implies paths[a] != paths[b] by {
                if a < b {
                    assert(path_lt(rem[a].0, rem[b].0));
                } else {
                    assert(path_lt(rem[b].0, rem[a].0));
                }
            }
            assert(paths.no_duplicates());
            paths.unique_seq_to_set();
            assert forall|p: Seq<usize>| paths.to_set().contains(p) == trie@.dom().contains(p) by {
                if trie@.contains_key(p) {
                    let k = choose|k: int| 0 <= k < rem.len() && #[trigger] rem[k].0 == p;
                    assert(paths[k] == p);
                }
                if paths.to_set().contains(p) {
                    let k = choose|k: int| 0 <= k < paths.len() && paths[k] == p;
                    assert(trie@.contains_key(rem[k].0));
                }
            }
            assert(paths.to_set() =~= trie@.dom());
        }
        r
    }

    /// Takes the first remaining entry.
    pub fn next(&mut self) -> (r: Option<(Vec<usize>, &'a T)>)
        requires
            old(self).wf(),
        ensures
            final(self).wf(),
            final(self).snapshot_len() == old(self).snapshot_len(),
            final(self).consumed() == old(self).consumed() + if r is Some { 1int } else { 0int },
            old(self).remaining().len() == 0 ==> r is None && final(self).remaining() == old(
                self,
            ).remaining(),
            old(self).remaining().len() > 0 ==> r is Some && (r.unwrap().0@, *r.unwrap().1) == old(
                self,
            ).remaining()[0] && final(self).remaining() == old(self).remaining().drop_first(),
    {
        if self.front_index >= self.back_index {
            return None;
        }
        let item = &self.items[self.front_index];
        let path = item.0.clone();
        let value = item.1;
        assert(path@ =~= item.0@);
        self.front_index = self.front_index + 1;
        assert(self.remaining() =~= old(self).remaining().drop_first());
        Some((path, value))
    }

    /// Takes the last remaining entry.
    pub fn next_back(&mut self) -> (r: Option<(Vec<usize>, &'a T)>)
        requires
            old(self).wf(),
        ensures
            final(self).wf(),
            final(self).snapshot_len() == old(self).snapshot_len(),
            final(self).consumed() == old(self).consumed() + if r is Some { 1int } else { 0int },
            old(self).remaining().len() == 0 ==> r is None && final(self).remaining() == old(
                self,
            ).remaining(),
            old(self).remaining().len() > 0 ==> r is Some && (r.unwrap().0@, *r.unwrap().1) == old(
                self,
            ).remaining().last() && final(self).remaining() == old(self).remaining().drop_last(),
    {
        if self.front_index >= self.back_index {
            return None;
        }
        self.back_index = self.back_index - 1;
        let item = &self.items[self.back_index];
        let path = item.0.clone();
        let value = item.1;
        assert(path@ =~= item.0@);
        assert(self.remaining() =~= old(self).remaining().drop_last());
        Some((path, value))
    }

    /// Consuming the entries from the back yields those from the front in
    /// reverse order, element for element.
    pub proof fn lemma_backward_is_reversed_forward(&self)
        ensures
            drain_back(self.remaining()) == drain_front(self.remaining()).reverse(),
    {
        lemma_drain_front(self.remaining());
        lemma_drain_back(self.remaining());
    }

    /// The number of remaining entries, as an exact lower and upper bound.
    pub fn size_hint(&self) -> (r: (usize, Option<usize>))
        requires
            self.wf(),
        ensures
            r.0 == self.remaining().len(),
            r.0 == self.snapshot_len() - self.consumed(),
            r.1 == Some(r.0),
    {
        let remaining = self.back_index - self.front_index;
        (remaining, Some(remaining))
    }
}

/// A key type that can be turned into a path of child indices below `N`.
pub trait TrieKey<const N: usize> {
    /// The path that addresses this key's node.
    spec fn key_path(&self) -> Seq<usize>;

    /// Every entry of the path selects one of the `N` children.
    proof fn lemma_key_path_in_range(&self)
        ensures
            path_in_range(self.key_path(), N),
    ;

    /// Appends this key's path to `path`.
    fn populate_path(&self, path: &mut Vec<usize>)
        ensures
            final(path)@ == old(path)@ + self.key_path(),
    ;

    /// An empty vector, with room reserved for this key's path.
    fn init_path(&self) -> (r: Vec<usize>)
        ensures
            r@.len() == 0,
    ;

    /// This key's path.
    fn build_path(&self) -> (r: Vec<usize>)
        ensures
            r@ == self.key_path(),
    {
        let mut v = self.init_path();
        self.populate_path(&mut v);
        assert(v@ =~= self.key_path());
        v
    }
}

/// Room for the two nibbles of each of `len` bytes, where that fits in `usize`.
fn path_capacity(len: usize) -> usize {
    if len <= usize::MAX / 2 {
        2 * len
    } else {
        len
    }
}

impl TrieKey<BRANCHING> for [u8] {
    open spec fn key_path(&self) -> Seq<usize> {
        nibble_path(self@)
    }

    proof fn lemma_key_path_in_range(&self) {
        lemma_nibble_path_in_range(self@);
    }

    fn populate_path(&self, path: &mut Vec<usize>) {
        push_nibbles(self, path);
    }

    fn init_path(&self) -> (r: Vec<usize>) {
        Vec::with_capacity(path_capacity(self.len()))
    }
}

impl TrieKey<BRANCHING> for str {
    open spec fn key_path(&self) -> Seq<usize> {
        nibble_path(self.spec_bytes())
    }

    proof fn lemma_key_path_in_range(&self) {
        lemma_nibble_path_in_range(self.spec_bytes());
    }

    fn populate_path(&self, path: &mut Vec<usize>) {
        push_nibbles(self.as_bytes(), path);
    }

    fn init_path(&self) -> (r: Vec<usize>) {
        Vec::with_capacity(path_capacity(self.as_bytes().len()))
    }
}

impl<const M: usize> TrieKey<BRANCHING> for [u8; M] {
    open spec fn key_path(&self) -> Seq<usize> {
        nibble_path(self@)
    }

    proof fn lemma_key_path_in_range(&self) {
        lemma_nibble_path_in_range(self@);
    }

    fn populate_path(&self, path: &mut Vec<usize>) {
        push_nibbles(self.as_slice(), path);
    }

    fn init_path(&self) -> (r: Vec<usize>) {
        Vec::with_capacity(path_capacity(M))
    }
}

impl TrieKey<BRANCHING> for Vec<u8> {
    open spec fn key_path(&self) -> Seq<usize> {
        nibble_path(self@)
    }

    proof fn lemma_key_path_in_range(&self) {
        lemma_nibble_path_in_range(self@);
    }

    fn populate_path(&self, path: &mut Vec<usize>) {
        push_nibbles(self.as_slice(), path);
    }

    fn init_path(&self) -> (r: Vec<usize>) {
        Vec::with_capacity(path_capacity(self.len()))
    }
}

impl TrieKey<BRANCHING> for String {
    /// The path of the text's UTF-8 bytes, as for `str`.
    open spec fn key_path(&self) -> Seq<usize> {
        nibble_path(encode_utf8(self@))
    }

    proof fn lemma_key_path_in_range(&self) {
        lemma_nibble_path_in_range(encode_utf8(self@));
    }

    fn populate_path(&self, path: &mut Vec<usize>) {
        push_nibbles(self.as_str().as_bytes(), path);
    }

    fn init_path(&self) -> (r: Vec<usize>) {
        Vec::with_capacity(path_capacity(self.as_str().as_bytes().len()))
    }
}

/// A map from keys of type `K` to values of type `T`, held in a trie whose
/// nodes have `N` children each.
pub struct Trie<K: TrieKey<N> + ?Sized, T, const N: usize> {
    len: usize,
    root: TrieNode<T, N>,
    depth: Ghost<nat>,
    _key_type: PhantomData<K>,
}

impl<K: TrieKey<N> + ?Sized, T, const N: usize> View for Trie<K, T, N> {
    type V = Map<Seq<usize>, T>;

    /// The stored values, by key path.
    closed spec fn view(&self) -> Map<Seq<usize>, T> {
        self.root@
    }
}

impl<K: TrieKey<N> + ?Sized, T, const N: usize> Trie<K, T, N> {
    /// The nodes form a well-formed trie, finitely many values are stored,
    /// and the count equals their number.
    pub closed spec fn wf(&self) -> bool {
        &&& self.root.wf(self.depth@)
        &&& self.root@.dom().finite()
        &&& self.len == self.root@.len()
    }

    /// An empty trie: a root with no value and no children.
    pub fn new() -> (r: Trie<K, T, N>)
        ensures
            r.wf(),
            r@ == Map::<Seq<usize>, T>::empty(),
    {
        let root = TrieNode::new();
        let r = Trie { len: 0, root, depth: Ghost(0), _key_type: PhantomData };
        assert(r@ =~= Map::<Seq<usize>, T>::empty());
        r
    }

    /// The value stored under `key`, if any.
    pub fn get(&self, key: &K) -> (r: Option<&T>)
        ensures
            r is Some == self@.contains_key(key.key_path()),
            r is Some ==> *r.unwrap() == self@[key.key_path()],
    {
        let path = key.build_path();
        assert(path@.skip(0) =~= path@);
        self.root.get_at(&path, 0)
    }

    /// A mutable reference to the value stored under `key`, if any. Writing
    /// through it changes that value and nothing else.
    pub fn get_mut(&mut self, key: &K) -> (r: Option<&mut T>)
        requires
            old(self).wf(),
        ensures
            final(self).wf(),
            r is Some == old(self)@.contains_key(key.key_path()),
            r is Some ==> *r.unwrap() == old(self)@[key.key_path()],
            r is Some ==> final(self)@ == old(self)@.insert(key.key_path(), *final(r.unwrap())),
            r is Some ==> forall|q: Seq<usize>|
                #[trigger] final(self).spec_node(q) is Some == old(self).spec_node(q) is Some,
            r is None ==> *final(self) == *old(self),
    {
        let path = key.build_path();
        assert(path@.skip(0) =~= path@);
        if self.root.get_at(&path, 0).is_none() {
            return None;
        }
        proof {
            let p = path@.skip(0);
            let d = self.depth@;
            assert forall|n2: TrieNode<T, N>, w: T|
                #[trigger] TrieNode::value_updated(self.root, n2, p, w) implies n2.wf(d)
                && n2@ == self.root@.insert(p, w) && n2@.dom().finite() && n2@.len()
                == self.root@.len() && forall|q: Seq<usize>|
                #[trigger] n2.node_at(q) is Some == self.root.node_at(q) is Some by {
                TrieNode::lemma_value_updated(self.root, n2, p, w, d);
                assert(n2@ =~= self.root@.insert(p, w));
                assert(self.root@.insert(p, w).dom() =~= self.root@.dom());
                assert forall|q: Seq<usize>|
                    #[trigger] n2.node_at(q) is Some == self.root.node_at(q) is Some by {
                    n2.lemma_node_exists(d, q);
                    self.root.lemma_node_exists(d, q);
                    assert(forall|x: Seq<usize>| n2@.contains_key(x) == self.root@.contains_key(x));
                }
            }
        }
        Some(self.root.get_mut_at(&path, 0))
    }

    /// Stores `val` under `key` and returns the value that was there.
    pub fn insert(&mut self, key: &K, val: T) -> (r: Option<T>)
        requires
            old(self).wf(),
            old(self)@.len() < usize::MAX || old(self)@.contains_key(key.key_path()),
        ensures
            final(self).wf(),
            final(self)@ == old(self)@.insert(key.key_path(), val),
            r is Some == old(self)@.contains_key(key.key_path()),
            r is Some ==> r.unwrap() == old(self)@[key.key_path()],
            final(self)@.len() == old(self)@.len() + if r is Some { 0int } else { 1int },
            forall|q: Seq<usize>|
                #[trigger] final(self).spec_node(q) is Some <==> (old(self).spec_node(q) is Some
                    || is_prefix(q, key.key_path())),
    {
        let path = key.build_path();
        proof {
            key.lemma_key_path_in_range();
            assert(path@.skip(0) =~= path@);
        }
        let ghost d = TrieNode::<T, N>::deeper(self.depth@, path@.len() as int);
        let r = self.root.insert_at(&path, 0, val, Ghost(self.depth@));
        self.depth = Ghost(d);
        proof {
            assert(self.root@ =~= old(self).root@.insert(path@, val));
            if r is Some {
                assert(old(self).root@.insert(path@, val).dom() =~= old(self).root@.dom());
            }
        }
        if r.is_none() {
            self.len = self.len + 1;
        }
        proof {
            let k = path@;
            assert forall|q: Seq<usize>|
                #[trigger] self.spec_node(q) is Some <==> (old(self).spec_node(q) is Some
                    || is_prefix(q, k)) by {
                self.lemma_node_exists(q);
                old(self).lemma_node_exists(q);
                if is_prefix(q, k) {
                    assert(self@.contains_key(k));
                }
                if exists|p: Seq<usize>| #[trigger] old(self)@.contains_key(p) && is_prefix(q, p) {
                    let p = choose|p: Seq<usize>| #[trigger] old(self)@.contains_key(p) && is_prefix(q, p);
                    assert(self@.contains_key(p));
                }
                if exists|p: Seq<usize>| #[trigger] self@.contains_key(p) && is_prefix(q, p) {
                    let p = choose|p: Seq<usize>| #[trigger] self@.contains_key(p) && is_prefix(q, p);
                    if p != k {
                        assert(old(self)@.contains_key(p));
                    }
                }
            }
        }
        r
    }

    /// Removes the value stored under `key` and returns it. Nodes left
    /// without a value below them are dropped.
    pub fn delete(&mut self, key: &K) -> (r: Option<T>)
        requires
            old(self).wf(),
        ensures
            final(self).wf(),
            final(self)@ == old(self)@.remove(key.key_path()),
            r is Some == old(self)@.contains_key(key.key_path()),
            r is Some ==> r.unwrap() == old(self)@[key.key_path()],
            final(self)@.len() == old(self)@.len() - if r is Some { 1int } else { 0int },
            r is None ==> *final(self) == *old(self),
            forall|q: Seq<usize>|
                #[trigger] final(self).spec_node(q) is Some ==> old(self).spec_node(q) is Some,
    {
        let path = key.build_path();
        proof {
            key.lemma_key_path_in_range();
            assert(path@.skip(0) =~= path@);
        }
        if self.root.get_at(&path, 0).is_none() {
            return None;
        }
        let r = self.root.delete_at(&path, 0, Ghost(self.depth@));
        proof {
            assert(self.root@ =~= old(self).root@.remove(path@));
            if r is Some {
                old(self).root@.lemma_remove_key_len(path@);
            } else {
                assert(old(self).root@.remove(path@) =~= old(self).root@);
            }
        }
        if r.is_some() {
            self.len = self.len - 1;
        }
        proof {
            assert forall|q: Seq<usize>|
                #[trigger] self.spec_node(q) is Some implies old(self).spec_node(q) is Some by {
                self.lemma_node_exists(q);
                old(self).lemma_node_exists(q);
                if q.len() > 0 {
                    let p = choose|p: Seq<usize>| #[trigger] self@.contains_key(p) && is_prefix(q, p);
                    assert(old(self)@.contains_key(p));
                }
            }
        }
        r
    }

    /// The number of stored values.
    pub fn len(&self) -> (r: usize)
        requires
            self.wf(),
        ensures
            r == self@.len(),
    {
        self.len
    }

    /// Whether no value is stored.
    pub fn is_empty(&self) -> (r: bool)
        requires
            self.wf(),
        ensures
            r == (self@.len() == 0),
    {
        self.len == 0
    }

    /// The node that `p` addresses, if every slot on the way is occupied.
    pub closed spec fn spec_node(&self, p: Seq<usize>) -> Option<TrieNode<T, N>> {
        self.root.node_at(p)
    }

    /// The node addressed by `key`, if it exists. A node exists for the empty
    /// path and for each prefix of a stored path, and for no other path; it
    /// holds the value stored under its own path, and has a child exactly
    /// when some stored path extends its own.
    pub fn node(&self, key: &K) -> (r: Option<&TrieNode<T, N>>)
        requires
            self.wf(),
        ensures
            r is Some == self.spec_node(key.key_path()) is Some,
            r is Some ==> *r.unwrap() == self.spec_node(key.key_path()).unwrap(),
            r is Some <==> (key.key_path().len() == 0 || exists|p: Seq<usize>|
                #[trigger] self@.contains_key(p) && is_prefix(key.key_path(), p)),
            r is Some ==> (r.unwrap().spec_value() is Some == self@.contains_key(key.key_path())),
            r is Some && r.unwrap().spec_value() is Some ==> r.unwrap().spec_value().unwrap()
                == self@[key.key_path()],
            r is Some ==> (r.unwrap().spec_has_child() <==> exists|p: Seq<usize>|
                #[trigger] self@.contains_key(p) && is_strict_prefix(key.key_path(), p)),
    {
        let path = key.build_path();
        assert(path@.skip(0) =~= path@);
        proof {
            self.lemma_node_exists(path@);
            self.lemma_no_dead_branches(path@);
        }
        self.root.node_at_path(&path, 0)
    }

    /// A node exists exactly at the empty path and at each prefix of a
    /// stored path.
    pub proof fn lemma_node_exists(&self, q: Seq<usize>)
        requires
            self.wf(),
        ensures
            self.spec_node(q) is Some <==> (q.len() == 0 || exists|p: Seq<usize>|
                #[trigger] self@.contains_key(p) && is_prefix(q, p)),
    {
        self.root.lemma_node_exists(self.depth@, q);
        assert(self@ == self.root@);
        if exists|p: Seq<usize>| #[trigger] self.root@.contains_key(p) && is_prefix(q, p) {
            let p = choose|p: Seq<usize>| #[trigger] self.root@.contains_key(p) && is_prefix(q, p);
            assert(self@.contains_key(p));
        }
    }

    /// The node at `q` has a child exactly when some stored path extends `q`.
    pub proof fn lemma_no_dead_branches(&self, q: Seq<usize>)
        requires
            self.wf(),
        ensures
            (self.spec_node(q) is Some && self.spec_node(q).unwrap().spec_has_child()) <==> exists|
                p: Seq<usize>,
            | #[trigger] self@.contains_key(p) && is_strict_prefix(q, p),
    {
        self.root.lemma_children_iff_extension(self.depth@, q);
        assert(self@ == self.root@);
        if exists|p: Seq<usize>| #[trigger] self.root@.contains_key(p) && is_strict_prefix(q, p) {
            let p = choose|p: Seq<usize>| #[trigger] self.root@.contains_key(p) && is_strict_prefix(q, p);
            assert(self@.contains_key(p));
        }
    }

    /// After `insert(key, v)`, `get(key)` returns `v`.
    pub proof fn lemma_insert_then_get(&self, key: &K, v: T)
        ensures
            self@.insert(key.key_path(), v).contains_key(key.key_path()),
            self@.insert(key.key_path(), v)[key.key_path()] == v,
    {
    }

    /// Inserting under a stored key returns the value it held and keeps the
    /// count; inserting under a new key returns nothing and adds one.
    pub proof fn lemma_insert_count(&self, key: &K, v1: T, v2: T)
        requires
            self.wf(),
        ensures
            ({
                let m1 = self@.insert(key.key_path(), v1);
                &&& m1.contains_key(key.key_path())
                &&& m1[key.key_path()] == v1
                &&& m1.dom().finite()
                &&& m1.insert(key.key_path(), v2).len() == m1.len()
            }),
            !self@.contains_key(key.key_path()) ==> self@.insert(key.key_path(), v1).len()
                == self@.len() + 1,
    {
        let p = key.key_path();
        let m1 = self@.insert(p, v1);
        assert(m1.insert(p, v2).dom() =~= m1.dom());
    }

    /// `delete(key)` removes the key; deleting it again returns nothing and
    /// keeps the count.
    pub proof fn lemma_delete_twice(&self, key: &K)
        requires
            self.wf(),
        ensures
            !self@.remove(key.key_path()).contains_key(key.key_path()),
            self@.remove(key.key_path()).remove(key.key_path()) == self@.remove(key.key_path()),
            self@.remove(key.key_path()).remove(key.key_path()).len() == self@.remove(
                key.key_path(),
            ).len(),
    {
        let m1 = self@.remove(key.key_path());
        assert(m1.remove(key.key_path()) =~= m1);
    }

    /// Deleting one key leaves every other key and its value in place, and
    /// lowers the count by exactly one when the key was stored.
    pub proof fn lemma_delete_keeps_others(&self, key: &K, other: Seq<usize>)
        requires
            self.wf(),
            other != key.key_path(),
        ensures
            self@.remove(key.key_path()).contains_key(other) == self@.contains_key(other),
            self@.contains_key(other) ==> self@.remove(key.key_path())[other] == self@[other],
            self@.contains_key(key.key_path()) ==> self@.remove(key.key_path()).len() == self@.len()
                - 1,
    {
        if self@.contains_key(key.key_path()) {
            self@.lemma_remove_key_len(key.key_path());
        }
    }

    /// The empty key addresses the root's own slot: storing under it can be
    /// read back and changes no other key.
    pub proof fn lemma_empty_key(&self, v: T, other: Seq<usize>)
        requires
            other.len() > 0,
        ensures
            self@.insert(Seq::<usize>::empty(), v)[Seq::<usize>::empty()] == v,
            self@.insert(Seq::<usize>::empty(), v).contains_key(other) == self@.contains_key(other),
            self@.contains_key(other) ==> self@.insert(Seq::<usize>::empty(), v)[other]
                == self@[other],
            nibble_path(Seq::<u8>::empty()) == Seq::<usize>::empty(),
    {
        assert(other != Seq::<usize>::empty());
        assert(nibble_path(Seq::<u8>::empty()) =~= Seq::<usize>::empty());
    }

    /// When no stored path extends a stored key's path (as after deleting
    /// the only longer key below it), that key's node exists, keeps its
    /// value, has no child, and no node lies below it.
    pub proof fn lemma_cleanup_below(&self, q: Seq<usize>)
        requires
            self.wf(),
            self@.contains_key(q),
            forall|p: Seq<usize>| #[trigger] self@.contains_key(p) ==> !is_strict_prefix(q, p),
        ensures
            self.spec_node(q) is Some,
            self.spec_node(q).unwrap().spec_value() == Some(self@[q]),
            !self.spec_node(q).unwrap().spec_has_child(),
            forall|r: Seq<usize>| is_strict_prefix(q, r) ==> #[trigger] self.spec_node(r) is None,
    {
        assert(q.take(q.len() as int) =~= q);
        self.lemma_node_exists(q);
        self.lemma_no_dead_branches(q);
        self.root.lemma_node_value(q);
        assert(self@ == self.root@);
        assert forall|r: Seq<usize>| is_strict_prefix(q, r) implies #[trigger] self.spec_node(r)
            is None by {
            self.lemma_node_exists(r);
            if exists|p: Seq<usize>| #[trigger] self@.contains_key(p) && is_prefix(r, p) {
                let p = choose|p: Seq<usize>| #[trigger] self@.contains_key(p) && is_prefix(r, p);
                assert(p.take(q.len() as int) =~= r.take(q.len() as int));
                assert(is_strict_prefix(q, p));
            }
        }
    }


    /// Every node other than the root holds a value or has a child.
    pub proof fn lemma_nodes_live(&self, q: Seq<usize>)
        requires
            self.wf(),
            q.len() > 0,
            self.spec_node(q) is Some,
        ensures
            self.spec_node(q).unwrap().spec_value() is Some
                || self.spec_node(q).unwrap().spec_has_child(),
    {
        self.lemma_node_exists(q);
        self.lemma_no_dead_branches(q);
        self.root.lemma_node_value(q);
        assert(self@ == self.root@);
        let p = choose|p: Seq<usize>| #[trigger] self@.contains_key(p) && is_prefix(q, p);
        if p.len() == q.len() {
            assert(p =~= q);
        } else {
            assert(is_strict_prefix(q, p));
        }
    }


    /// A snapshot of all entries in increasing path order.
    pub fn iter(&self) -> (r: TrieIter<'_, K, T, N>)
        requires
            self.wf(),
        ensures
            r.wf(),
            forall|a: int, b: int|
                0 <= a < b < r.remaining().len() ==> path_lt(
                    #[trigger] r.remaining()[a].0,
                    #[trigger] r.remaining()[b].0,
                ),
            forall|k: int|
                0 <= k < r.remaining().len() ==> self@.contains_key(#[trigger] r.remaining()[k].0)
                    && self@[r.remaining()[k].0] == r.remaining()[k].1,
            forall|p: Seq<usize>|
                #[trigger] self@.contains_key(p) ==> exists|k: int|
                    0 <= k < r.remaining().len() && #[trigger] r.remaining()[k].0 == p,
            r.remaining().len() == self@.len(),
            r.snapshot_len() == self@.len(),
            r.consumed() == 0,
    {
        TrieIter::new(self)
    }
}

impl<K: TrieKey<N> + ?Sized, T, const N: usize> Default for Trie<K, T, N> {
    fn default() -> (r: Self)
        ensures
            r.wf(),
            r@ == Map::<Seq<usize>, T>::empty(),
    {
        Self::new()
    }
}

} // verus!
