//! A trie node: an optional value and one optional owned child per nibble.
use vstd::prelude::*;

use crate::path::{is_prefix, is_strict_prefix, path_in_range, path_lt};

verus! {

/// One node of the trie. The node reached from the root by a path holds the
/// value stored under that path, if any.
pub struct TrieNode<T, const N: usize> {
    value: Option<T>,
    next: Vec<Option<Box<TrieNode<T, N>>>>,
}

/// The entries of `s` from index `start` on have strictly increasing paths.
pub open spec fn sorted_from<'a, T>(s: Seq<(Vec<usize>, &'a T)>, start: int) -> bool {
    forall|a: int, b: int|
        start <= a < b < s.len() ==> path_lt(#[trigger] s[a].0@, #[trigger] s[b].0@)
}

impl<T, const N: usize> View for TrieNode<T, N> {
    type V = Map<Seq<usize>, T>;

    /// The values stored in this subtree, by path relative to this node.
    closed spec fn view(&self) -> Map<Seq<usize>, T> {
        Map::new(|p: Seq<usize>| self.lookup(p) is Some, |p: Seq<usize>| self.lookup(p).unwrap())
    }
}

impl<T, const N: usize> TrieNode<T, N> {
    /// The value held in this node's own slot.
    pub closed spec fn spec_value(&self) -> Option<T> {
        self.value
    }

    /// The child in slot `i`, if there is one.
    pub closed spec fn child_spec(&self, i: int) -> Option<TrieNode<T, N>> {
        if 0 <= i < self.next.len() {
            match self.next@[i] {
                Some(b) => Some(*b),
                None => None,
            }
        } else {
            None
        }
    }

    /// The node reached from this one by following `p`, if every slot on the
    /// way is occupied.
    pub closed spec fn node_at(&self, p: Seq<usize>) -> Option<TrieNode<T, N>>
        decreases p.len(),
    {
        if p.len() == 0 {
            Some(*self)
        } else {
            match self.child_spec(p[0] as int) {
                Some(c) => c.node_at(p.drop_first()),
                None => None,
            }
        }
    }

    /// The value stored under the path `p`, relative to this node.
    pub closed spec fn lookup(&self, p: Seq<usize>) -> Option<T> {
        match self.node_at(p) {
            Some(n) => n.value,
            None => None,
        }
    }

    /// Some value is stored under the path `q`.
    pub open spec fn stores(&self, q: Seq<usize>) -> bool {
        self.lookup(q) is Some
    }

    /// Some child slot is occupied.
    pub closed spec fn spec_has_child(&self) -> bool {
        exists|i: int| 0 <= i < self.next.len() && #[trigger] self.next@[i] is Some
    }

    /// At least two child slots are occupied.
    pub closed spec fn spec_has_multiple_children(&self) -> bool {
        exists|i: int, k: int|
            0 <= i < k < self.next.len() && #[trigger] self.next@[i] is Some
                && #[trigger] self.next@[k] is Some
    }

    /// Some value is stored in this node or below it.
    pub closed spec fn holds_value(&self) -> bool {
        exists|q: Seq<usize>| #[trigger] self.lookup(q) is Some
    }

    /// Every node of the subtree has `N` child slots, lies at most `d` levels
    /// below this one, and, unless it is this node, holds a value in its own
    /// subtree: no dead branch is kept.
    pub closed spec fn wf(&self, d: nat) -> bool
        decreases d,
    {
        &&& self.next.len() == N
        &&& forall|i: int|
            #![trigger self.child_spec(i)]
            0 <= i < N ==> match self.child_spec(i) {
                Some(c) => d > 0 && c.wf((d - 1) as nat) && c.holds_value(),
                None => true,
            }
    }

    proof fn lemma_wf_mono(&self, d1: nat, d2: nat)
        requires
            self.wf(d1),
            d1 <= d2,
        ensures
            self.wf(d2),
        decreases d1,
    {
        assert forall|i: int| 0 <= i < N implies match #[trigger] self.child_spec(i) {
            Some(c) => d2 > 0 && c.wf((d2 - 1) as nat) && c.holds_value(),
            None => true,
        } by {
            if let Some(c) = self.child_spec(i) {
                c.lemma_wf_mono((d1 - 1) as nat, (d2 - 1) as nat);
            }
        }
    }

    /// A node with an empty value slot and `N` empty child slots.
    pub fn new() -> (r: TrieNode<T, N>)
        ensures
            r.wf(0),
            r.spec_value() is None,
            !r.spec_has_child(),
            forall|q: Seq<usize>| #[trigger] r.lookup(q) is None,
            r@ == Map::<Seq<usize>, T>::empty(),
    {
        let mut next: Vec<Option<Box<TrieNode<T, N>>>> = Vec::new();
        let mut i: usize = 0;
        while i < N
            invariant
                0 <= i <= N,
                next@.len() == i,
                forall|k: int| 0 <= k < i ==> #[trigger] next@[k] is None,
            decreases N - i,
        {
            next.push(None);
            i = i + 1;
        }
        let r = TrieNode { value: None, next };
        assert forall|q: Seq<usize>| #[trigger] r.lookup(q) is None by {
            if q.len() > 0 {
                assert(r.child_spec(q[0] as int) is None);
            }
        }
        assert(r@ =~= Map::<Seq<usize>, T>::empty());
        r
    }

    /// Whether some child slot is occupied.
    pub fn has_child(&self) -> (r: bool)
        ensures
            r == self.spec_has_child(),
    {
        let mut i: usize = 0;
        while i < self.next.len()
            invariant
                0 <= i <= self.next@.len(),
                forall|k: int| 0 <= k < i ==> #[trigger] self.next@[k] is None,
            decreases self.next@.len() - i,
        {
            if self.next[i].is_some() {
                return true;
            }
            i = i + 1;
        }
        false
    }

    /// Whether two or more child slots are occupied; stops at the second one.
    pub fn has_multiple_children(&self) -> (r: bool)
        ensures
            r == self.spec_has_multiple_children(),
    {
        let mut found: Option<usize> = None;
        let mut i: usize = 0;
        while i < self.next.len()
            invariant
                0 <= i <= self.next@.len(),
                match found {
                    Some(f) => f < i && self.next@[f as int] is Some && forall|k: int|
                        0 <= k < i && k != f ==> #[trigger] self.next@[k] is None,
                    None => forall|k: int| 0 <= k < i ==> #[trigger] self.next@[k] is None,
                },
            decreases self.next@.len() - i,
        {
            if self.next[i].is_some() {
                if let Some(f) = found {
                    assert(self.next@[f as int] is Some && self.next@[i as int] is Some);
                    return true;
                }
                found = Some(i);
            }
            i = i + 1;
        }
        false
    }

    /// The value held in this node's own slot.
    pub fn value(&self) -> (r: Option<&T>)
        ensures
            match r {
                Some(v) => self.spec_value() == Some(*v),
                None => self.spec_value() is None,
            },
    {
        self.value.as_ref()
    }

    /// The child in slot `index`, if there is one.
    pub fn child(&self, index: usize) -> (r: Option<&TrieNode<T, N>>)
        ensures
            r is Some == self.child_spec(index as int) is Some,
            r is Some ==> *r.unwrap() == self.child_spec(index as int).unwrap(),
    {
        if index >= self.next.len() {
            return None;
        }
        match &self.next[index] {
            Some(c) => Some(&**c),
            None => None,
        }
    }

    /// Puts `val` in this node's own slot and returns what was there.
    fn value_replace(&mut self, val: T) -> (r: Option<T>)
        ensures
            r == old(self).spec_value(),
            final(self).spec_value() == Some(val),
            final(self).next == old(self).next,
    {
        let r = self.value.take();
        self.value = Some(val);
        r
    }

    /// Empties this node's own slot and returns what was there.
    fn value_take(&mut self) -> (r: Option<T>)
        ensures
            r == old(self).spec_value(),
            final(self).spec_value() is None,
            final(self).next == old(self).next,
    {
        self.value.take()
    }

    /// The depth bound after a path of `len` entries was added below a node
    /// whose subtree was `d` deep.
    pub open spec fn deeper(d: nat, len: int) -> nat {
        if len <= d { d } else { len as nat }
    }

    /// Stores `v` under `path[i..]`, creating the missing nodes on the way,
    /// and returns the value that was there.
    pub(crate) fn insert_at(&mut self, path: &Vec<usize>, i: usize, v: T, Ghost(d): Ghost<nat>) -> (r:
        Option<T>)
        requires
            old(self).wf(d),
            i <= path@.len(),
            path_in_range(path@, N),
        ensures
            final(self).wf(Self::deeper(d, path@.len() - i)),
            final(self)@ == old(self)@.insert(path@.skip(i as int), v),
            r is Some == old(self)@.contains_key(path@.skip(i as int)),
            r is Some ==> r.unwrap() == old(self)@[path@.skip(i as int)],
            r == old(self).lookup(path@.skip(i as int)),
            forall|q: Seq<usize>|
                #[trigger] final(self).lookup(q) == if q == path@.skip(i as int) {
                    Some(v)
                } else {
                    old(self).lookup(q)
                },
        decreases path@.len() - i,
    {
        let ghost p = path@.skip(i as int);
        let ghost big = Self::deeper(d, path@.len() - i);
        if i == path.len() {
            let r = self.value_replace(v);
            proof {
                assert(p.len() == 0);
                assert forall|q: Seq<usize>|
                    #[trigger] self.lookup(q) == if q == p {
                        Some(v)
                    } else {
                        old(self).lookup(q)
                    } by {
                    if q.len() == 0 {
                        assert(q =~= p);
                    }
                }
                assert forall|k: int| #[trigger] self.child_spec(k) == old(self).child_spec(k) by {}
                assert(self.wf(d));
                self.lemma_wf_mono(d, big);
                assert(self@ =~= old(self)@.insert(p, v));
            }
            r
        } else {
            let j = path[i];
            let mut slot: Option<Box<TrieNode<T, N>>> = None;
            self.next.set_and_swap(j, &mut slot);
            let ghost old_child = slot;
            let ghost cd: nat = if slot is Some { (d - 1) as nat } else { 0 };
            let mut child = match slot {
                Some(b) => b,
                None => Box::new(TrieNode::new()),
            };
            let ghost before = *child;
            let r = (&mut *child).insert_at(path, i + 1, v, Ghost(cd));
            self.next.set(j, Some(child));
            proof {
                let tail = path@.skip(i + 1);
                assert(p.drop_first() =~= tail);
                assert(p[0] == j);
                assert(self.child_spec(j as int) == Some(*child));
                assert forall|q: Seq<usize>|
                    #[trigger] self.lookup(q) == if q == p {
                        Some(v)
                    } else {
                        old(self).lookup(q)
                    } by {
                    if q.len() > 0 && q[0] == j {
                        assert(self.lookup(q) == child.lookup(q.drop_first()));
                        if let Some(b) = old_child {
                            assert(old(self).lookup(q) == b.lookup(q.drop_first()));
                        }
                        if q.drop_first() == tail {
                            assert forall|k: int| 0 <= k < q.len() implies q[k] == p[k] by {
                                if k > 0 {
                                    assert(q[k] == q.drop_first()[k - 1]);
                                    assert(p[k] == p.drop_first()[k - 1]);
                                }
                            }
                            assert(q =~= p);
                        }
                        if old_child is None {
                            assert(before.lookup(q.drop_first()) is None);
                        }
                    } else if q.len() > 0 {
                        assert(self.child_spec(q[0] as int) == old(self).child_spec(q[0] as int));
                    }
                }
                assert(child.lookup(tail) is Some);
                assert(child.holds_value());
                assert forall|k: int| 0 <= k < N implies match #[trigger] self.child_spec(k) {
                    Some(c) => big > 0 && c.wf((big - 1) as nat) && c.holds_value(),
                    None => true,
                } by {
                    if k == j {
                        child.lemma_wf_mono(Self::deeper(cd, path@.len() - (i + 1)), (big - 1) as nat);
                    } else {
                        assert(self.child_spec(k) == old(self).child_spec(k));
                        if let Some(c) = self.child_spec(k) {
                            c.lemma_wf_mono((d - 1) as nat, (big - 1) as nat);
                        }
                    }
                }
                if old_child is None {
                    assert(old(self).lookup(p) is None);
                }
                assert(self@ =~= old(self)@.insert(p, v));
            }
            r
        }
    }

    /// A node with neither a value nor a child stores nothing.
    proof fn lemma_empty_lookup(&self)
        requires
            self.value is None,
            !self.spec_has_child(),
        ensures
            forall|q: Seq<usize>| #[trigger] self.lookup(q) is None,
    {
        assert forall|q: Seq<usize>| #[trigger] self.lookup(q) is None by {
            if q.len() > 0 && 0 <= q[0] < self.next.len() {
                assert(self.next@[q[0] as int] is None);
            }
        }
    }

    /// In a well-formed subtree, a node with a value or a child stores some value.
    proof fn lemma_live_holds_value(&self, d: nat)
        requires
            self.wf(d),
            self.value is Some || self.spec_has_child(),
        ensures
            self.holds_value(),
    {
        if self.value is Some {
            assert(self.lookup(Seq::empty()) is Some);
        } else {
            let k = choose|k: int| 0 <= k < self.next.len() && #[trigger] self.next@[k] is Some;
            let c = self.child_spec(k).unwrap();
            let q = choose|q: Seq<usize>| #[trigger] c.lookup(q) is Some;
            let full = seq![k as usize] + q;
            assert(full.drop_first() =~= q);
            assert(self.lookup(full) == c.lookup(q));
        }
    }

    /// The value stored under `path[i..]`, if any.
    pub(crate) fn get_at(&self, path: &Vec<usize>, i: usize) -> (r: Option<&T>)
        requires
            i <= path@.len(),
        ensures
            match r {
                Some(v) => self.lookup(path@.skip(i as int)) == Some(*v),
                None => self.lookup(path@.skip(i as int)) is None,
            },
            r is Some == self@.contains_key(path@.skip(i as int)),
            r is Some ==> *r.unwrap() == self@[path@.skip(i as int)],
        decreases path@.len() - i,
    {
        let ghost p = path@.skip(i as int);
        if i == path.len() {
            return self.value.as_ref();
        }
        let j = path[i];
        proof {
            assert(p.drop_first() =~= path@.skip(i + 1));
            assert(p[0] == j);
        }
        if j >= self.next.len() {
            return None;
        }
        match &self.next[j] {
            Some(c) => {
                let r = c.get_at(path, i + 1);
                proof {
                    assert(self.lookup(p) == c.lookup(path@.skip(i + 1)));
                }
                r
            },
            None => None,
        }
    }

    /// Removes the value stored under `path[i..]` and returns it. Children
    /// left with nothing below them are dropped on the way back up.
    pub(crate) fn delete_at(&mut self, path: &Vec<usize>, i: usize, Ghost(d): Ghost<nat>) -> (r: Option<
        T,
    >)
        requires
            old(self).wf(d),
            i <= path@.len(),
            path_in_range(path@, N),
        ensures
            final(self).wf(d),
            final(self)@ == old(self)@.remove(path@.skip(i as int)),
            r is Some == old(self)@.contains_key(path@.skip(i as int)),
            r is Some ==> r.unwrap() == old(self)@[path@.skip(i as int)],
            r == old(self).lookup(path@.skip(i as int)),
            forall|q: Seq<usize>|
                #[trigger] final(self).lookup(q) == if q == path@.skip(i as int) {
                    None
                } else {
                    old(self).lookup(q)
                },
        decreases path@.len() - i,
    {
        let ghost p = path@.skip(i as int);
        if i == path.len() {
            let r = self.value_take();
            proof {
                assert(p.len() == 0);
                assert forall|q: Seq<usize>|
                    #[trigger] self.lookup(q) == if q == p {
                        None
                    } else {
                        old(self).lookup(q)
                    } by {
                    if q.len() == 0 {
                        assert(q =~= p);
                    }
                }
                assert forall|k: int| #[trigger] self.child_spec(k) == old(self).child_spec(k) by {}
                assert(self.wf(d));
                assert(self@ =~= old(self)@.remove(p));
            }
            return r;
        }
        let j = path[i];
        let ghost tail = path@.skip(i + 1);
        proof {
            assert(p.drop_first() =~= tail);
            assert(p[0] == j);
        }
        if self.next[j].is_none() {
            proof {
                assert forall|q: Seq<usize>|
                    #[trigger] self.lookup(q) == if q == p {
                        None
                    } else {
                        old(self).lookup(q)
                    } by {}
                assert(self@ =~= old(self)@.remove(p));
            }
            return None;
        }
        let mut slot: Option<Box<TrieNode<T, N>>> = None;
        self.next.set_and_swap(j, &mut slot);
        let mut child = match slot {
            Some(b) => b,
            None => {
                return None;
            },
        };
        let ghost before = *child;
        proof {
            assert(old(self).child_spec(j as int) == Some(before));
        }
        let r = (&mut *child).delete_at(path, i + 1, Ghost((d - 1) as nat));
        let keep = child.value.is_some() || child.has_child();
        let ghost after = *child;
        if keep {
            self.next.set(j, Some(child));
            proof {
                after.lemma_live_holds_value((d - 1) as nat);
            }
        } else {
            proof {
                after.lemma_empty_lookup();
            }
        }
        proof {
            assert forall|q: Seq<usize>|
                #[trigger] self.lookup(q) == if q == p {
                    None
                } else {
                    old(self).lookup(q)
                } by {
                if q.len() > 0 && q[0] == j {
                    assert(old(self).lookup(q) == before.lookup(q.drop_first()));
                    if keep {
                        assert(self.lookup(q) == after.lookup(q.drop_first()));
                    } else {
                        assert(after.lookup(q.drop_first()) is None);
                    }
                    if q.drop_first() == tail {
                        assert forall|k: int| 0 <= k < q.len() implies q[k] == p[k] by {
                            if k > 0 {
                                assert(q[k] == q.drop_first()[k - 1]);
                                assert(p[k] == p.drop_first()[k - 1]);
                            }
                        }
                        assert(q =~= p);
                    }
                } else if q.len() > 0 {
                    assert(self.child_spec(q[0] as int) == old(self).child_spec(q[0] as int));
                }
            }
            assert forall|k: int| 0 <= k < N implies match #[trigger] self.child_spec(k) {
                Some(c) => d > 0 && c.wf((d - 1) as nat) && c.holds_value(),
                None => true,
            } by {
                if k != j {
                    assert(self.child_spec(k) == old(self).child_spec(k));
                }
            }
            assert(self@ =~= old(self)@.remove(p));
        }
        r
    }

    /// `new` is `old` with the value under `p`, which `old` holds, set to `w`.
    pub closed spec fn value_updated(old: TrieNode<T, N>, new: TrieNode<T, N>, p: Seq<usize>, w: T) -> bool
        decreases p.len(),
    {
        if p.len() == 0 {
            new.value == Some(w) && new.next == old.next
        } else {
            &&& new.value == old.value
            &&& new.next.len() == old.next.len()
            &&& forall|k: int|
                #![trigger new.next@[k]]
                0 <= k < new.next.len() && k != p[0] ==> new.next@[k] == old.next@[k]
            &&& match (old.child_spec(p[0] as int), new.child_spec(p[0] as int)) {
                (Some(a), Some(b)) => Self::value_updated(a, b, p.drop_first(), w),
                _ => false,
            }
        }
    }

    /// Setting a stored value keeps the shape and changes the contents at one path.
    pub proof fn lemma_value_updated(old: TrieNode<T, N>, new: TrieNode<T, N>, p: Seq<usize>, w: T, d: nat)
        requires
            old.wf(d),
            Self::value_updated(old, new, p, w),
        ensures
            new.wf(d),
            new@ == old@.insert(p, w),
            forall|q: Seq<usize>|
                #[trigger] new.lookup(q) == if q == p {
                    Some(w)
                } else {
                    old.lookup(q)
                },
        decreases p.len(),
    {
        if p.len() == 0 {
            assert forall|k: int| #[trigger] new.child_spec(k) == old.child_spec(k) by {}
            assert forall|q: Seq<usize>|
                #[trigger] new.lookup(q) == if q == p {
                    Some(w)
                } else {
                    old.lookup(q)
                } by {
                if q.len() == 0 {
                    assert(q =~= p);
                }
            }
        } else {
            let j = p[0] as int;
            let a = old.child_spec(j).unwrap();
            let b = new.child_spec(j).unwrap();
            let tail = p.drop_first();
            Self::lemma_value_updated(a, b, tail, w, (d - 1) as nat);
            assert(b.lookup(tail) == Some(w));
            assert forall|k: int| 0 <= k < N && k != j implies #[trigger] new.child_spec(k)
                == old.child_spec(k) by {
                assert(new.next@[k] == old.next@[k]);
            }
            assert forall|q: Seq<usize>|
                #[trigger] new.lookup(q) == if q == p {
                    Some(w)
                } else {
                    old.lookup(q)
                } by {
                if q.len() > 0 && q[0] == j {
                    assert(new.lookup(q) == b.lookup(q.drop_first()));
                    assert(old.lookup(q) == a.lookup(q.drop_first()));
                    if q.drop_first() == tail {
                        assert forall|k: int| 0 <= k < q.len() implies q[k] == p[k] by {
                            if k > 0 {
                                assert(q[k] == q.drop_first()[k - 1]);
                                assert(p[k] == p.drop_first()[k - 1]);
                            }
                        }
                        assert(q =~= p);
                    }
                } else if q.len() > 0 && 0 <= q[0] < N {
                    assert(new.child_spec(q[0] as int) == old.child_spec(q[0] as int));
                }
            }
            assert(b.holds_value());
            assert forall|k: int| 0 <= k < N implies match #[trigger] new.child_spec(k) {
                Some(c) => d > 0 && c.wf((d - 1) as nat) && c.holds_value(),
                None => true,
            } by {
                if k != j {
                    assert(new.child_spec(k) == old.child_spec(k));
                }
            }
        }
        assert(new@ =~= old@.insert(p, w));
    }

    /// A mutable reference to the value stored under `path[i..]`, which is present.
    pub(crate) fn get_mut_at(&mut self, path: &Vec<usize>, i: usize) -> (r: &mut T)
        requires
            i <= path@.len(),
            old(self).lookup(path@.skip(i as int)) is Some,
        ensures
            old(self).lookup(path@.skip(i as int)) == Some(*r),
            Self::value_updated(*old(self), *final(self), path@.skip(i as int), *final(r)),
        decreases path@.len() - i,
    {
        let ghost p = path@.skip(i as int);
        if i == path.len() {
            return self.value.as_mut().unwrap();
        }
        let j = path[i];
        let ghost tail = path@.skip(i + 1);
        proof {
            assert(p.drop_first() =~= tail);
            assert(p[0] == j);
        }
        let b = self.next[j].as_mut().unwrap();
        (&mut **b).get_mut_at(path, i + 1)
    }

    /// Each entry of `s[lo..hi]` pairs `p + q` with the value stored under
    /// `q` in this subtree.
    #[verifier::opaque]
    pub open spec fn entries_below<'a>(&self, s: Seq<(Vec<usize>, &'a T)>, lo: int, hi: int, p: Seq<usize>) -> bool {
        forall|k: int|
            #![trigger s[k]]
            lo <= k < hi ==> exists|q: Seq<usize>|
                #![trigger self.lookup(q)]
                s[k].0@ == p + q && self.lookup(q) == Some(*s[k].1)
    }

    /// Each value stored under a path `q` that is empty or starts below `j`
    /// has an entry `p + q` in `s[lo..hi]`.
    #[verifier::opaque]
    pub open spec fn covered_below<'a>(&self, s: Seq<(Vec<usize>, &'a T)>, lo: int, hi: int, p: Seq<usize>, j: int) -> bool {
        forall|q: Seq<usize>|
            #[trigger] self.stores(q) && (q.len() == 0 || q[0] < j) ==> exists|k: int|
                lo <= k < hi && #[trigger] s[k].0@ == p + q
    }

    /// Each entry of `s[lo..hi]` is `p` itself, or extends `p` by an entry below `j`.
    #[verifier::opaque]
    pub open spec fn prefixed_before<'a>(s: Seq<(Vec<usize>, &'a T)>, lo: int, hi: int, p: Seq<usize>, j: int) -> bool {
        forall|k: int|
            lo <= k < hi ==> (#[trigger] s[k].0@ == p || (s[k].0@.len() > p.len() && s[k].0@.take(
                p.len() as int,
            ) == p && s[k].0@[p.len() as int] < j))
    }

    proof fn lemma_collect_start<'a>(&self, s: Seq<(Vec<usize>, &'a T)>, start: int, p: Seq<usize>)
        requires
            0 <= start <= s.len() <= start + 1,
            s.len() == start + 1 <==> self.value is Some,
            s.len() == start + 1 ==> s[start].0@ == p && Some(*s[start].1) == self.value,
        ensures
            self.entries_below(s, start, s.len() as int, p),
            self.covered_below(s, start, s.len() as int, p, 0),
            Self::prefixed_before(s, start, s.len() as int, p, 0),
            sorted_from(s, start),
    {
        reveal(TrieNode::entries_below);
        reveal(TrieNode::covered_below);
        reveal(TrieNode::prefixed_before);
        if s.len() == start + 1 {
            assert(s[start].0@ == p + Seq::<usize>::empty());
            assert(self.lookup(Seq::empty()) == self.value);
        }
        assert forall|q: Seq<usize>|
            #[trigger] self.stores(q) && (q.len() == 0 || q[0] < 0) implies exists|k: int|
                start <= k < s.len() && #[trigger] s[k].0@ == p + q by {
            assert(q =~= Seq::<usize>::empty());
            assert(s[start].0@ =~= p + q);
        }
    }

    proof fn lemma_collect_skip<'a>(&self, s: Seq<(Vec<usize>, &'a T)>, start: int, p: Seq<usize>, j: int)
        requires
            self.child_spec(j) is None,
            self.covered_below(s, start, s.len() as int, p, j),
            Self::prefixed_before(s, start, s.len() as int, p, j),
        ensures
            self.covered_below(s, start, s.len() as int, p, j + 1),
            Self::prefixed_before(s, start, s.len() as int, p, j + 1),
    {
        reveal(TrieNode::covered_below);
        reveal(TrieNode::prefixed_before);
        assert forall|q: Seq<usize>|
            #[trigger] self.stores(q) && (q.len() == 0 || q[0] < j + 1) implies exists|k: int|
                start <= k < s.len() && #[trigger] s[k].0@ == p + q by {
            if q.len() > 0 && q[0] == j {
                assert(self.child_spec(j) is None);
            }
        }
    }

    proof fn lemma_collect_child<'a>(
        &self,
        child: TrieNode<T, N>,
        before: Seq<(Vec<usize>, &'a T)>,
        after: Seq<(Vec<usize>, &'a T)>,
        start: int,
        p: Seq<usize>,
        j: int,
    )
        requires
            0 <= j,
            self.child_spec(j) == Some(child),
            0 <= start <= before.len() <= after.len(),
            after.take(before.len() as int) == before,
            self.entries_below(before, start, before.len() as int, p),
            self.covered_below(before, start, before.len() as int, p, j),
            Self::prefixed_before(before, start, before.len() as int, p, j),
            sorted_from(before, start),
            sorted_from(after, before.len() as int),
            child.entries_below(after, before.len() as int, after.len() as int, p.push(j as usize)),
            forall|q: Seq<usize>| #[trigger] child.stores(q) ==> exists|k: int|
                before.len() <= k < after.len() && #[trigger] after[k].0@ == p.push(j as usize) + q,
        ensures
            after.take(start) == before.take(start),
            self.entries_below(after, start, after.len() as int, p),
            self.covered_below(after, start, after.len() as int, p, j + 1),
            Self::prefixed_before(after, start, after.len() as int, p, j + 1),
            sorted_from(after, start),
    {
        reveal(TrieNode::entries_below);
        reveal(TrieNode::covered_below);
        reveal(TrieNode::prefixed_before);
        let b = before.len() as int;
        let plen = p.len() as int;
        let pj = p.push(j as usize);
        assert forall|k: int| 0 <= k < b implies #[trigger] after[k] == before[k] by {
            assert(after.take(b)[k] == after[k]);
        }
        assert(after.take(start) =~= before.take(start));
        assert forall|k: int|
            #![trigger after[k]]
            b <= k < after.len() implies exists|q: Seq<usize>|
                #![trigger self.lookup(q)]
                after[k].0@ == p + q && self.lookup(q) == Some(*after[k].1) && q.len() > 0 && q[0]
                    == j by {
            let q1 = choose|q1: Seq<usize>|
                #![trigger child.lookup(q1)]
                after[k].0@ == pj + q1 && child.lookup(q1) == Some(*after[k].1);
            let q = seq![j as usize] + q1;
            assert(q.drop_first() =~= q1);
            assert(p + q =~= pj + q1);
            assert(self.lookup(q) == child.lookup(q1));
        }
        assert forall|k: int|
            #![trigger after[k]]
            start <= k < after.len() implies exists|q: Seq<usize>|
                #![trigger self.lookup(q)]
                after[k].0@ == p + q && self.lookup(q) == Some(*after[k].1) by {
            if k < b {
                assert(after[k] == before[k]);
            }
        }
        assert forall|k: int| start <= k < after.len() implies (#[trigger] after[k].0@ == p || (
        after[k].0@.len() > plen && after[k].0@.take(plen) == p && after[k].0@[plen] < j + 1)) by {
            if k < b {
                assert(after[k] == before[k]);
            } else {
                let q = choose|q: Seq<usize>|
                    #![trigger self.lookup(q)]
                    after[k].0@ == p + q && self.lookup(q) == Some(*after[k].1) && q.len() > 0
                        && q[0] == j;
                assert((p + q).take(plen) =~= p);
                assert((p + q)[plen] == q[0]);
            }
        }
        assert forall|x: int, y: int|
            start <= x < y < after.len() implies path_lt(
            #[trigger] after[x].0@,
            #[trigger] after[y].0@,
        ) by {
            if y >= b && x < b {
                assert(after[x] == before[x]);
                let a = after[x].0@;
                let q = choose|q: Seq<usize>|
                    #![trigger self.lookup(q)]
                    after[y].0@ == p + q && self.lookup(q) == Some(*after[y].1) && q.len() > 0
                        && q[0] == j;
                let e = after[y].0@;
                assert(e.take(plen) =~= p);
                assert(e[plen] == j);
                if a == p {
                    assert(a == e.take(a.len() as int));
                } else {
                    assert(a.take(plen) == e.take(plen));
                    assert(a[plen] < e[plen]);
                }
            } else if y < b {
                assert(after[x] == before[x]);
                assert(after[y] == before[y]);
            }
        }
        assert forall|q: Seq<usize>|
            #[trigger] self.stores(q) && (q.len() == 0 || q[0] < j + 1) implies exists|k: int|
                start <= k < after.len() && #[trigger] after[k].0@ == p + q by {
            if q.len() > 0 && q[0] == j {
                let q1 = q.drop_first();
                assert(self.lookup(q) == child.lookup(q1));
                assert(child.stores(q1));
                let k = choose|k: int| b <= k < after.len() && #[trigger] after[k].0@ == pj + q1;
                assert(pj + q1 =~= p + q);
            } else {
                let k = choose|k: int| start <= k < b && #[trigger] before[k].0@ == p + q;
                assert(after[k] == before[k]);
            }
        }
    }

    proof fn lemma_collect_end<'a>(&self, s: Seq<(Vec<usize>, &'a T)>, start: int, p: Seq<usize>)
        requires
            self.covered_below(s, start, s.len() as int, p, self.next.len() as int),
        ensures
            forall|q: Seq<usize>| #[trigger] self.stores(q) ==> exists|k: int|
                start <= k < s.len() && #[trigger] s[k].0@ == p + q,
    {
        reveal(TrieNode::covered_below);
        assert forall|q: Seq<usize>| #[trigger] self.stores(q) implies exists|k: int|
            start <= k < s.len() && #[trigger] s[k].0@ == p + q by {
            if q.len() > 0 && q[0] >= self.next.len() {
                assert(self.child_spec(q[0] as int) is None);
            }
        }
    }

    /// Appends the values of this subtree to `items` in increasing path
    /// order, each paired with its full path, `path` being this node's own.
    pub(crate) fn collect_items<'a>(
        &'a self,
        path: &mut Vec<usize>,
        items: &mut Vec<(Vec<usize>, &'a T)>,
        Ghost(d): Ghost<nat>,
    )
        requires
            self.wf(d),
        ensures
            final(path)@ == old(path)@,
            final(items)@.len() >= old(items)@.len(),
            final(items)@.take(old(items)@.len() as int) == old(items)@,
            sorted_from(final(items)@, old(items)@.len() as int),
            self.entries_below(final(items)@, old(items)@.len() as int, final(items)@.len() as int, old(path)@),
            forall|q: Seq<usize>|
                #[trigger] self.stores(q) ==> exists|k: int|
                    old(items)@.len() <= k < final(items)@.len() && #[trigger] final(items)@[k].0@
                        == old(path)@ + q,
        decreases d,
    {
        let ghost start = items@.len() as int;
        let ghost old_items = items@;
        let ghost p = path@;
        if let Some(v) = self.value.as_ref() {
            let here = path.clone();
            assert(here@ =~= p);
            items.push((here, v));
        }
        proof {
            assert(items@.take(start) =~= old_items);
            self.lemma_collect_start(items@, start, p);
        }
        let mut j: usize = 0;
        while j < self.next.len()
            invariant
                self.wf(d),
                path@ == p,
                j <= self.next@.len(),
                start == old_items.len(),
                start <= items@.len(),
                items@.take(start) == old_items,
                sorted_from(items@, start),
                self.entries_below(items@, start, items@.len() as int, p),
                self.covered_below(items@, start, items@.len() as int, p, j as int),
                Self::prefixed_before(items@, start, items@.len() as int, p, j as int),
            decreases self.next@.len() - j,
        {
            if let Some(c) = &self.next[j] {
                let ghost before = items@;
                let ghost child = self.child_spec(j as int).unwrap();
                assert(child == **c);
                path.push(j);
                c.collect_items(path, items, Ghost((d - 1) as nat));
                path.pop();
                proof {
                    assert(path@ =~= p);
                    self.lemma_collect_child(child, before, items@, start, p, j as int);
                    assert(items@.take(start) =~= old_items) by {
                        assert forall|k: int| 0 <= k < start implies items@.take(start)[k]
                            == old_items[k] by {
                            assert(before.take(start)[k] == before[k]);
                            assert(items@.take(start)[k] == before.take(start)[k]);
                        }
                    }
                }
            } else {
                proof {
                    self.lemma_collect_skip(items@, start, p, j as int);
                }
            }
            j = j + 1;
        }
        proof {
            self.lemma_collect_end(items@, start, p);
        }
    }

    /// All values of this subtree with their paths, in increasing path order.
    pub(crate) fn collect_all<'a>(&'a self, Ghost(d): Ghost<nat>) -> (r: Vec<(Vec<usize>, &'a T)>)
        requires
            self.wf(d),
        ensures
            sorted_from(r@, 0),
            forall|k: int|
                0 <= k < r@.len() ==> self@.contains_key(#[trigger] r@[k].0@) && self@[r@[k].0@]
                    == *r@[k].1,
            forall|q: Seq<usize>|
                #[trigger] self@.contains_key(q) ==> exists|k: int|
                    0 <= k < r@.len() && #[trigger] r@[k].0@ == q,
    {
        let mut path: Vec<usize> = Vec::new();
        let mut items: Vec<(Vec<usize>, &'a T)> = Vec::new();
        self.collect_items(&mut path, &mut items, Ghost(d));
        proof {
            reveal(TrieNode::entries_below);
            assert forall|k: int| 0 <= k < items@.len() implies self@.contains_key(
                #[trigger] items@[k].0@,
            ) && self@[items@[k].0@] == *items@[k].1 by {
                let q = choose|q: Seq<usize>|
                    #![trigger self.lookup(q)]
                    items@[k].0@ == Seq::<usize>::empty() + q && self.lookup(q) == Some(*items@[k].1);
                assert(Seq::<usize>::empty() + q =~= q);
            }
            assert forall|q: Seq<usize>| #[trigger] self@.contains_key(q) implies exists|k: int|
                0 <= k < items@.len() && #[trigger] items@[k].0@ == q by {
                assert(self.stores(q));
                assert(Seq::<usize>::empty() + q =~= q);
            }
        }
        items
    }

    /// Following `a` and then `b` reaches the node that `a + b` reaches.
    pub proof fn lemma_node_at_concat(&self, a: Seq<usize>, b: Seq<usize>)
        ensures
            self.node_at(a + b) == match self.node_at(a) {
                Some(m) => m.node_at(b),
                None => None,
            },
        decreases a.len(),
    {
        if a.len() == 0 {
            assert(a + b =~= b);
        } else {
            assert((a + b).drop_first() =~= a.drop_first() + b);
            assert((a + b)[0] == a[0]);
            if let Some(c) = self.child_spec(a[0] as int) {
                c.lemma_node_at_concat(a.drop_first(), b);
            }
        }
    }

    /// A node at depth `a.len()` of a subtree `d` deep is itself well formed
    /// to depth `d - a.len()`, and holds a value unless it is this node.
    pub proof fn lemma_wf_node_at(&self, d: nat, a: Seq<usize>)
        requires
            self.wf(d),
            self.node_at(a) is Some,
        ensures
            a.len() <= d,
            self.node_at(a).unwrap().wf((d - a.len()) as nat),
            a.len() > 0 ==> self.node_at(a).unwrap().holds_value(),
        decreases a.len(),
    {
        if a.len() > 0 {
            let c = self.child_spec(a[0] as int).unwrap();
            c.lemma_wf_node_at((d - 1) as nat, a.drop_first());
            if a.len() > 1 {
                assert(a.drop_first().len() > 0);
            }
        }
    }

    /// The node at `q`, if it exists, holds exactly the value stored under `q`.
    pub proof fn lemma_node_value(&self, q: Seq<usize>)
        ensures
            self.node_at(q) is Some ==> (self.node_at(q).unwrap().spec_value() is Some
                == self@.contains_key(q)),
            self.node_at(q) is Some && self@.contains_key(q) ==> self.node_at(q).unwrap().spec_value()
                == Some(self@[q]),
    {
    }

    /// In a well-formed subtree a node exists exactly at this node's own
    /// path and at each prefix of a stored path: nodes are created only on
    /// the way to a value, and none is kept once nothing lies below it.
    pub proof fn lemma_node_exists(&self, d: nat, q: Seq<usize>)
        requires
            self.wf(d),
        ensures
            self.node_at(q) is Some <==> (q.len() == 0 || exists|p: Seq<usize>|
                #[trigger] self@.contains_key(p) && is_prefix(q, p)),
    {
        if q.len() > 0 && self.node_at(q) is Some {
            self.lemma_wf_node_at(d, q);
            let m = self.node_at(q).unwrap();
            let r = choose|r: Seq<usize>| #[trigger] m.lookup(r) is Some;
            self.lemma_node_at_concat(q, r);
            let p = q + r;
            assert(self.lookup(p) is Some);
            assert(p.take(q.len() as int) =~= q);
            assert(self@.contains_key(p) && is_prefix(q, p));
        }
        if exists|p: Seq<usize>| #[trigger] self@.contains_key(p) && is_prefix(q, p) {
            let p = choose|p: Seq<usize>| #[trigger] self@.contains_key(p) && is_prefix(q, p);
            let rest = p.skip(q.len() as int);
            assert(p =~= q + rest);
            self.lemma_node_at_concat(q, rest);
            assert(self.lookup(p) is Some);
        }
        if q.len() == 0 {
            assert(self.node_at(q) == Some(*self));
        }
    }

    /// In a well-formed subtree, the node at `q` has a child exactly when some
    /// stored path extends `q`: deletion leaves no dead branch behind.
    pub proof fn lemma_children_iff_extension(&self, d: nat, q: Seq<usize>)
        requires
            self.wf(d),
        ensures
            (self.node_at(q) is Some && self.node_at(q).unwrap().spec_has_child()) <==> exists|
                p: Seq<usize>,
            | #[trigger] self@.contains_key(p) && is_strict_prefix(q, p),
    {
        if self.node_at(q) is Some && self.node_at(q).unwrap().spec_has_child() {
            let m = self.node_at(q).unwrap();
            self.lemma_wf_node_at(d, q);
            let j = choose|j: int| 0 <= j < m.next.len() && #[trigger] m.next@[j] is Some;
            let c = m.child_spec(j).unwrap();
            let qj = q.push(j as usize);
            self.lemma_node_at_concat(q, seq![j as usize]);
            assert(seq![j as usize].drop_first() =~= Seq::<usize>::empty());
            assert(q + seq![j as usize] =~= qj);
            assert(seq![j as usize][0] == j as usize);
            assert(m.node_at(seq![j as usize]) == c.node_at(Seq::<usize>::empty()));
            assert(self.node_at(qj) == Some(c));
            self.lemma_wf_node_at(d, qj);
            let r = choose|r: Seq<usize>| #[trigger] c.lookup(r) is Some;
            self.lemma_node_at_concat(qj, r);
            let p = qj + r;
            assert(self.lookup(p) is Some);
            assert(p.take(q.len() as int) =~= q);
            assert(self@.contains_key(p) && is_strict_prefix(q, p));
        }
        if exists|p: Seq<usize>| #[trigger] self@.contains_key(p) && is_strict_prefix(q, p) {
            let p = choose|p: Seq<usize>| #[trigger] self@.contains_key(p) && is_strict_prefix(q, p);
            let j = p[q.len() as int];
            let rest = p.skip(q.len() as int + 1);
            let qj = q.push(j);
            assert(p =~= qj + rest);
            self.lemma_node_at_concat(qj, rest);
            self.lemma_node_at_concat(q, seq![j]);
            assert(q + seq![j] =~= qj);
            assert(seq![j].drop_first() =~= Seq::<usize>::empty());
            let m = self.node_at(q).unwrap();
            assert(m.child_spec(j as int) is Some);
            assert(m.next@[j as int] is Some);
        }
    }

    /// The node reached by following `path[i..]`, if every slot on the way is occupied.
    pub(crate) fn node_at_path(&self, path: &Vec<usize>, i: usize) -> (r: Option<&TrieNode<T, N>>)
        requires
            i <= path@.len(),
        ensures
            r is Some == self.node_at(path@.skip(i as int)) is Some,
            r is Some ==> *r.unwrap() == self.node_at(path@.skip(i as int)).unwrap(),
            r is Some ==> (r.unwrap().spec_value() is Some == self@.contains_key(
                path@.skip(i as int),
            )),
            r is Some && r.unwrap().spec_value() is Some ==> r.unwrap().spec_value().unwrap()
                == self@[path@.skip(i as int)],
        decreases path@.len() - i,
    {
        let ghost p = path@.skip(i as int);
        if i == path.len() {
            assert(p.len() == 0);
            assert(self.lookup(p) == self.value);
            return Some(self);
        }
        let j = path[i];
        let ghost tail = path@.skip(i + 1);
        proof {
            assert(p.drop_first() =~= tail);
            assert(p[0] == j);
        }
        if j >= self.next.len() {
            return None;
        }
        match &self.next[j] {
            Some(c) => {
                let r = c.node_at_path(path, i + 1);
                proof {
                    assert(self.lookup(p) == c.lookup(tail));
                    assert(self.node_at(p) == c.node_at(tail));
                }
                r
            },
            None => None,
        }
    }
}

} // verus!
