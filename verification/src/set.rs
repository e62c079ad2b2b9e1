//! The thin set wrapper over the in-memory map: members are keys, values
//! are the unit type.
use vstd::prelude::*;

use crate::mem::BPTreeMap;
use crate::sorted::{find, has_key, kv_insert, kv_remove, lemma_find_props, sorted_keys};

verus! {

/// An ordered set of `u64` members, backed by a [`BPTreeMap`] with unit
/// values. The view is the backing map's pair sequence.
pub struct BPTreeSet(BPTreeMap<()>);

impl View for BPTreeSet {
    type V = Seq<(u64, ())>;

    closed spec fn view(&self) -> Seq<(u64, ())> {
        self.0@
    }
}

impl BPTreeSet {
    /// The backing map is well-formed.
    pub closed spec fn wf(self) -> bool {
        self.0.wf()
    }

    /// An empty set with the default branching order of three.
    pub fn new() -> (r: Self)
        ensures
            r.wf(),
            r@ == Seq::<(u64, ())>::empty(),
    {
        BPTreeSet(BPTreeMap::new())
    }

    /// An empty set with the given branching order.
    pub fn with_order(order: usize) -> (r: Self)
        requires
            order >= 3,
        ensures
            r.wf(),
            r@ == Seq::<(u64, ())>::empty(),
    {
        BPTreeSet(BPTreeMap::with_order(order))
    }

    /// How many members the set holds.
    pub fn len(&self) -> (r: usize)
        requires
            self.wf(),
        ensures
            r == self@.len(),
    {
        self.0.len()
    }

    /// Whether the set holds no members.
    pub fn is_empty(&self) -> (r: bool)
        requires
            self.wf(),
        ensures
            r == (self@.len() == 0),
    {
        self.0.is_empty()
    }

    /// The stored member equal to `key`, if any.
    pub fn get(&self, key: u64) -> (r: Option<u64>)
        requires
            self.wf(),
        ensures
            r is Some <==> has_key(self@, key),
            r is Some ==> r == Some(key),
    {
        proof {
            lemma_find_props(self@, key);
        }
        match self.0.get_key_value(key) {
            Some((k, _)) => Some(k),
            None => None,
        }
    }

    /// Whether `key` is a member.
    pub fn contains(&self, key: u64) -> (r: bool)
        requires
            self.wf(),
        ensures
            r == has_key(self@, key),
    {
        self.0.contains_key(key)
    }

    /// Add `key`; whether it was newly added.
    pub fn insert(&mut self, key: u64) -> (r: bool)
        requires
            old(self).wf(),
            old(self)@.len() < usize::MAX as nat,
        ensures
            final(self).wf(),
            final(self)@ == kv_insert(old(self)@, key, ()),
            r == !has_key(old(self)@, key),
    {
        proof {
            lemma_find_props(self@, key);
        }
        match self.0.insert(key, ()) {
            Some(_) => false,
            None => true,
        }
    }

    /// Remove `key`; whether it was present.
    pub fn remove(&mut self, key: u64) -> (r: bool)
        requires
            old(self).wf(),
        ensures
            final(self).wf(),
            final(self)@ == kv_remove(old(self)@, key),
            r == has_key(old(self)@, key),
    {
        proof {
            lemma_find_props(self@, key);
        }
        match self.0.remove(key) {
            Some(_) => true,
            None => false,
        }
    }

    /// The keys of a well-formed set read out strictly ascending; with the
    /// insertion and removal lemmas of the pair-sequence vocabulary this
    /// pins membership and size after every mutation.
    pub proof fn lemma_view_sorted(self)
        requires
            self.wf(),
        ensures
            sorted_keys(self@),
    {
        self.0.lemma_view_sorted();
    }

    /// The members in ascending order.
    pub fn iter(&self) -> (r: Vec<u64>)
        requires
            self.wf(),
        ensures
            r@.len() == self@.len(),
            forall|j: int| 0 <= j < r@.len() ==> r@[j] == self@[j].0,
    {
        self.0.keys()
    }
}

} // verus!
