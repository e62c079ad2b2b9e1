//! The disk-oriented B+Tree: the same verified engine, with stable node
//! identities, per-node dirty flags, and persistence as data. The library
//! computes which files to write, remove or read — actual filesystem work is
//! the caller's, performed around the [`Loader`] and [`Flush`] exchanges.
use vstd::prelude::*;

use crate::image::{
    decode_image, decode_root_meta, decode_u64_meta, encode_root_meta, encode_u64_meta,
    image_bytes, image_children, root_meta_bytes, u64_bytes, NodeImage,
};
use crate::mem::{
    appended_images, chain_linked, internal_ok, lemma_clean_of_index, lemma_entries_of_at,
    lemma_ok_nonempty, BPTreeMap, Internal, Leaf, Node,
};
use crate::sorted::{
    find, has_key, keys_at_least, keys_below, kv_insert, kv_remove, lemma_find_props,
    sorted_keys, sorted_u64s,
};


verus! {

/// What can go wrong at the disk boundary.
#[derive(Clone, Copy, Debug, PartialEq, Eq, Structural)]
pub enum Error {
    /// An underlying filesystem failure, reported by the caller's I/O.
    IO,
    /// Bytes that are not a canonical encoding.
    Codec,
    /// A metadata file missing or unusable at load.
    BadTree,
    /// `persist_key` or a guard release named a key the tree does not hold.
    UnknownKey,
}

/// The file operations one persistence step asks of the caller: metadata
/// bytes to write when their dirty flags were set, node images keyed by
/// identity, and identities whose files should be removed.
pub struct Flush {
    pub root_meta: Option<Vec<u8>>,
    pub order_meta: Option<Vec<u8>>,
    pub len_meta: Option<Vec<u8>>,
    pub nodes: Vec<(u128, Vec<u8>)>,
    pub removals: Vec<u128>,
}

/// A scoped handle for mutating one value: take it with `get_mut`, change
/// `value`, and hand it back to `release`, which stores the value and marks
/// the owning leaf dirty.
///
/// The guard is a plain value and does not borrow the tree: the caller is
/// expected to hold at most one guard per tree and to release it before
/// other mutations, as a borrowing guard would enforce. A release whose key
/// has since been removed is refused; a release over a value stored since
/// the guard was taken overwrites it.
pub struct ValueMutationGuard {
    pub key: u64,
    pub value: u64,
}

/// The disk-backed B+Tree from `u64` keys to `u64` values.
pub struct BPTree {
    map: BPTreeMap<u64>,
    root_dirty: bool,
    order_dirty: bool,
    len_dirty: bool,
    freed: Vec<u128>,
}

impl View for BPTree {
    type V = Seq<(u64, u64)>;

    closed spec fn view(&self) -> Seq<(u64, u64)> {
        self.map@
    }
}

impl BPTree {
    /// The backing tree is well-formed.
    pub closed spec fn wf(self) -> bool {
        self.map.wf()
    }

    /// No resident node is flagged dirty.
    pub closed spec fn spec_clean(self) -> bool {
        self.map.spec_clean()
    }

    /// The branching order.
    pub closed spec fn spec_order(self) -> int {
        self.map.spec_order()
    }

    /// The root node's identity, if any.
    pub closed spec fn spec_root_id(self) -> Option<u128> {
        self.map.spec_root_id()
    }

    /// Whether the root metadata file is stale.
    pub closed spec fn spec_root_dirty(self) -> bool {
        self.root_dirty
    }

    /// Whether the order metadata file is stale.
    pub closed spec fn spec_order_dirty(self) -> bool {
        self.order_dirty
    }

    /// Whether the length metadata file is stale.
    pub closed spec fn spec_len_dirty(self) -> bool {
        self.len_dirty
    }

    /// The identities of dissolved nodes whose files await reclamation.
    pub closed spec fn spec_freed(self) -> Seq<u128> {
        self.freed@
    }

    /// The write set a full flush of the nodes would produce.
    pub closed spec fn spec_dirty_images(self) -> Seq<(u128, Seq<u8>)> {
        self.map.spec_dirty_images()
    }

    /// The write set a flush along one key's path would produce.
    pub closed spec fn spec_path_images(self, key: u64) -> Seq<(u128, Seq<u8>)> {
        self.map.spec_path_images(key)
    }

    /// Whether the leaves' forward links thread them left to right: the
    /// chain that in-order iteration of a conforming reader follows.
    pub closed spec fn spec_chain_linked(self) -> bool {
        chain_linked(self.map.spec_leaf_refs())
    }

    /// The keys of a well-formed tree read out strictly ascending.
    pub proof fn lemma_view_sorted(self)
        requires
            self.wf(),
        ensures
            sorted_keys(self@),
    {
        self.map.lemma_view_sorted();
    }

    /// An empty tree with the default branching order of three; all
    /// metadata starts dirty.
    pub fn new() -> (r: Self)
        ensures
            r.wf(),
            r@ == Seq::<(u64, u64)>::empty(),
            r.spec_order() == 3,
            r.spec_root_dirty() && r.spec_order_dirty() && r.spec_len_dirty(),
            r.spec_freed() == Seq::<u128>::empty(),
    {
        Self::with_order(3)
    }

    /// An empty tree with the given branching order.
    pub fn with_order(order: usize) -> (r: Self)
        requires
            order >= 3,
        ensures
            r.wf(),
            r@ == Seq::<(u64, u64)>::empty(),
            r.spec_order() == order as int,
            r.spec_root_dirty() && r.spec_order_dirty() && r.spec_len_dirty(),
            r.spec_freed() == Seq::<u128>::empty(),
    {
        BPTree {
            map: BPTreeMap::with_order(order),
            root_dirty: true,
            order_dirty: true,
            len_dirty: true,
            freed: Vec::new(),
        }
    }

    /// How many pairs the tree holds.
    pub fn len(&self) -> (r: usize)
        requires
            self.wf(),
        ensures
            r == self@.len(),
    {
        self.map.len()
    }

    /// Whether the tree holds no pairs.
    pub fn is_empty(&self) -> (r: bool)
        requires
            self.wf(),
        ensures
            r == (self@.len() == 0),
    {
        self.map.is_empty()
    }

    /// The pair at `key`. With every node resident, lookups cannot fail.
    pub fn get_key_value(&self, key: u64) -> (r: Result<Option<(u64, u64)>, Error>)
        requires
            self.wf(),
        ensures
            r is Ok,
            match find(self@, key) {
                Some(p) => r == Ok::<_, Error>(Some(p)),
                None => r == Ok::<_, Error>(None::<(u64, u64)>),
            },
    {
        proof {
            lemma_find_props(self@, key);
        }
        match self.map.get_key_value(key) {
            Some((k, v)) => Ok(Some((k, *v))),
            None => Ok(None),
        }
    }

    /// The value at `key`.
    pub fn get(&self, key: u64) -> (r: Result<Option<u64>, Error>)
        requires
            self.wf(),
        ensures
            r is Ok,
            match find(self@, key) {
                Some(p) => r == Ok::<_, Error>(Some(p.1)),
                None => r == Ok::<_, Error>(None::<u64>),
            },
    {
        match self.get_key_value(key) {
            Ok(Some((_, v))) => Ok(Some(v)),
            Ok(None) => Ok(None),
            Err(e) => Err(e),
        }
    }

    /// Whether some pair carries `key`.
    pub fn contains_key(&self, key: u64) -> (r: Result<bool, Error>)
        requires
            self.wf(),
        ensures
            r == Ok::<_, Error>(has_key(self@, key)),
    {
        proof {
            lemma_find_props(self@, key);
        }
        Ok(self.map.contains_key(key))
    }

    /// Insert or replace; a fresh pair dirties the length and root
    /// metadata, a replacement dirties only the leaf it sits in.
    pub fn insert(&mut self, key: u64, value: u64) -> (r: Result<Option<u64>, Error>)
        requires
            old(self).wf(),
            old(self)@.len() < usize::MAX as nat,
        ensures
            final(self).wf(),
            final(self)@ == kv_insert(old(self)@, key, value),
            final(self).spec_order() == old(self).spec_order(),
            match find(old(self)@, key) {
                Some(p) => r == Ok::<_, Error>(Some(p.1)),
                None => r == Ok::<_, Error>(None::<u64>),
            },
            has_key(old(self)@, key) ==> (final(self).spec_root_dirty() == old(self).spec_root_dirty()
                && final(self).spec_len_dirty() == old(self).spec_len_dirty()),
            !has_key(old(self)@, key) ==> (final(self).spec_root_dirty()
                && final(self).spec_len_dirty()),
            final(self).spec_order_dirty() == old(self).spec_order_dirty(),
            final(self).spec_freed() == old(self).spec_freed(),
            !final(self).spec_clean(),
    {
        proof {
            lemma_find_props(self@, key);
        }
        let prev = self.map.insert(key, value);
        if prev.is_none() {
            self.len_dirty = true;
            self.root_dirty = true;
        }
        Ok(prev)
    }

    /// Remove the pair at `key`, remembering the identities of any nodes
    /// dissolved by rebalancing so that their files can be reclaimed.
    pub fn remove_entry(&mut self, key: u64) -> (r: Result<Option<(u64, u64)>, Error>)
        requires
            old(self).wf(),
        ensures
            final(self).wf(),
            final(self)@ == kv_remove(old(self)@, key),
            r == Ok::<_, Error>(find(old(self)@, key)),
            final(self).spec_order() == old(self).spec_order(),
            has_key(old(self)@, key) ==> (final(self).spec_root_dirty()
                && final(self).spec_len_dirty()),
            !has_key(old(self)@, key) ==> (final(self).spec_root_dirty() == old(self).spec_root_dirty()
                && final(self).spec_len_dirty() == old(self).spec_len_dirty()),
            final(self).spec_order_dirty() == old(self).spec_order_dirty(),
    {
        proof {
            lemma_find_props(self@, key);
        }
        let mut freed: Vec<u128> = Vec::new();
        let removed = self.map.remove_entry_tracked(key, &mut freed);
        self.freed.append(&mut freed);
        if removed.is_some() {
            self.len_dirty = true;
            self.root_dirty = true;
        }
        Ok(removed)
    }

    /// Remove the value at `key`.
    pub fn remove(&mut self, key: u64) -> (r: Result<Option<u64>, Error>)
        requires
            old(self).wf(),
        ensures
            final(self).wf(),
            final(self)@ == kv_remove(old(self)@, key),
            match find(old(self)@, key) {
                Some(p) => r == Ok::<_, Error>(Some(p.1)),
                None => r == Ok::<_, Error>(None::<u64>),
            },
    {
        match self.remove_entry(key) {
            Ok(Some(p)) => Ok(Some(p.1)),
            Ok(None) => Ok(None),
            Err(e) => Err(e),
        }
    }

    /// A mutation guard for the value at `key`: the guard carries the value
    /// out; `release` stores it back and dirties the owning leaf.
    pub fn get_mut(&mut self, key: u64) -> (r: Result<Option<ValueMutationGuard>, Error>)
        requires
            old(self).wf(),
        ensures
            *final(self) == *old(self),
            match find(old(self)@, key) {
                Some(p) => r is Ok && match r {
                    Ok(g) => g is Some && g.unwrap().key == key && g.unwrap().value == p.1,
                    Err(_) => false,
                },
                None => r is Ok && match r {
                    Ok(g) => g is None,
                    Err(_) => false,
                },
            },
    {
        proof {
            lemma_find_props(self@, key);
        }
        match self.map.get(key) {
            Some(v) => Ok(Some(ValueMutationGuard { key, value: *v })),
            None => Ok(None),
        }
    }

    /// The key's stored pair together with a mutation guard.
    pub fn get_key_value_mut(&mut self, key: u64) -> (r: Result<
        Option<(u64, ValueMutationGuard)>,
        Error,
    >)
        requires
            old(self).wf(),
        ensures
            *final(self) == *old(self),
            match find(old(self)@, key) {
                Some(p) => match r {
                    Ok(g) => g is Some && g.unwrap().0 == key && g.unwrap().1.key == key
                        && g.unwrap().1.value == p.1,
                    Err(_) => false,
                },
                None => match r {
                    Ok(g) => g is None,
                    Err(_) => false,
                },
            },
    {
        match self.get_mut(key) {
            Ok(Some(g)) => Ok(Some((key, g))),
            Ok(None) => Ok(None),
            Err(e) => Err(e),
        }
    }

    /// Store a guard's value back at its key, dirtying the leaf that holds
    /// it; unknown keys are refused and nothing changes.
    pub fn release(&mut self, guard: ValueMutationGuard) -> (r: Result<(), Error>)
        requires
            old(self).wf(),
        ensures
            final(self).wf(),
            has_key(old(self)@, guard.key) ==> r == Ok::<(), Error>(()) && final(self)@
                == kv_insert(old(self)@, guard.key, guard.value) && !final(self).spec_clean(),
            !has_key(old(self)@, guard.key) ==> r == Err::<(), Error>(Error::UnknownKey)
                && final(self)@ == old(self)@,
    {
        proof {
            lemma_find_props(self@, guard.key);
        }
        if !self.map.contains_key(guard.key) {
            return Err(Error::UnknownKey);
        }
        proof {
            lemma_find_props(self@, guard.key);
        }
        let _ = self.map.insert(guard.key, guard.value);
        Ok(())
    }

    /// Write out everything dirty: metadata whose flags are set, every
    /// dirty node depth-first, and the files of dissolved nodes to remove.
    /// The plan is pinned exactly: each metadata file appears if and only
    /// if its flag was set, carrying the canonical encoding of the current
    /// value; the node writes are exactly the dirty nodes' identities and
    /// images, children before parents; the removals are the logged
    /// identities of dissolved nodes. Afterwards nothing is dirty.
    pub fn persist(&mut self) -> (r: Flush)
        requires
            old(self).wf(),
        ensures
            final(self).wf(),
            final(self)@ == old(self)@,
            final(self).spec_order() == old(self).spec_order(),
            final(self).spec_clean(),
            r.root_meta is Some <==> old(self).spec_root_dirty(),
            r.root_meta is Some ==> r.root_meta.unwrap()@ == root_meta_bytes(
                old(self).spec_root_id(),
            ),
            r.order_meta is Some <==> old(self).spec_order_dirty(),
            r.order_meta is Some ==> r.order_meta.unwrap()@ == u64_bytes(
                old(self).spec_order() as u64,
            ),
            r.len_meta is Some <==> old(self).spec_len_dirty(),
            r.len_meta is Some ==> r.len_meta.unwrap()@ == u64_bytes(old(self)@.len() as u64),
            appended_images(
                Seq::<(u128, Vec<u8>)>::empty(),
                r.nodes@,
                old(self).spec_dirty_images(),
            ),
            r.removals@ == old(self).spec_freed(),
            final(self).spec_freed() == Seq::<u128>::empty(),
            !final(self).spec_root_dirty(),
            !final(self).spec_order_dirty(),
            !final(self).spec_len_dirty(),
    {
        let root_meta = if self.root_dirty {
            let id = self.map.root_id();
            self.root_dirty = false;
            Some(encode_root_meta(&id))
        } else {
            None
        };
        let order_meta = if self.order_dirty {
            self.order_dirty = false;
            Some(encode_u64_meta(self.map.order() as u64))
        } else {
            None
        };
        let len_meta = if self.len_dirty {
            self.len_dirty = false;
            Some(encode_u64_meta(self.map.len() as u64))
        } else {
            None
        };
        let mut nodes: Vec<(u128, Vec<u8>)> = Vec::new();
        self.map.flush_nodes(&mut nodes);
        let mut removals: Vec<u128> = Vec::new();
        removals.append(&mut self.freed);
        proof {
            assert(removals@ =~= old(self).spec_freed());
            assert(self.freed@ =~= Seq::<u128>::empty());
        }
        Flush { root_meta, order_meta, len_meta, nodes, removals }
    }

    /// Write out the metadata and the dirty nodes along the descent path
    /// for `key` only, top down, with the same exactness as [`BPTree::persist`]
    /// restricted to that path. A key the tree does not hold is refused
    /// before anything is touched.
    pub fn persist_key(&mut self, key: u64) -> (r: Result<Flush, Error>)
        requires
            old(self).wf(),
        ensures
            final(self).wf(),
            final(self)@ == old(self)@,
            final(self).spec_order() == old(self).spec_order(),
            r is Ok <==> has_key(old(self)@, key),
            !has_key(old(self)@, key) ==> *final(self) == *old(self) && r == Err::<Flush, Error>(
                Error::UnknownKey,
            ),
            match r {
                Ok(f) => {
                    &&& (f.root_meta is Some <==> old(self).spec_root_dirty())
                    &&& (f.root_meta is Some ==> f.root_meta.unwrap()@ == root_meta_bytes(
                        old(self).spec_root_id(),
                    ))
                    &&& (f.order_meta is Some <==> old(self).spec_order_dirty())
                    &&& (f.order_meta is Some ==> f.order_meta.unwrap()@ == u64_bytes(
                        old(self).spec_order() as u64,
                    ))
                    &&& (f.len_meta is Some <==> old(self).spec_len_dirty())
                    &&& (f.len_meta is Some ==> f.len_meta.unwrap()@ == u64_bytes(
                        old(self)@.len() as u64,
                    ))
                    &&& appended_images(
                        Seq::<(u128, Vec<u8>)>::empty(),
                        f.nodes@,
                        old(self).spec_path_images(key),
                    )
                    &&& f.removals@ == old(self).spec_freed()
                    &&& final(self).spec_freed() == Seq::<u128>::empty()
                    &&& !final(self).spec_root_dirty()
                    &&& !final(self).spec_order_dirty()
                    &&& !final(self).spec_len_dirty()
                },
                Err(_) => true,
            },
    {
        proof {
            lemma_find_props(self@, key);
        }
        if !self.map.contains_key(key) {
            return Err(Error::UnknownKey);
        }
        let root_meta = if self.root_dirty {
            let id = self.map.root_id();
            Some(encode_root_meta(&id))
        } else {
            None
        };
        let order_meta = if self.order_dirty {
            Some(encode_u64_meta(self.map.order() as u64))
        } else {
            None
        };
        let len_meta = if self.len_dirty {
            Some(encode_u64_meta(self.map.len() as u64))
        } else {
            None
        };
        let mut nodes: Vec<(u128, Vec<u8>)> = Vec::new();
        let found = self.map.flush_key(key, &mut nodes);
        proof {
            assert(found);
        }
        self.root_dirty = false;
        self.order_dirty = false;
        self.len_dirty = false;
        let mut removals: Vec<u128> = Vec::new();
        removals.append(&mut self.freed);
        proof {
            assert(removals@ =~= old(self).spec_freed());
            assert(self.freed@ =~= Seq::<u128>::empty());
        }
        Ok(Flush { root_meta, order_meta, len_meta, nodes, removals })
    }

    /// The pairs in ascending key order.
    pub fn iter(&self) -> (r: Result<Vec<(u64, u64)>, Error>)
        requires
            self.wf(),
        ensures
            match r {
                Ok(v) => v@ == self@,
                Err(_) => false,
            },
    {
        Ok(self.map.iter())
    }

    /// The keys in ascending order.
    pub fn keys(&self) -> (r: Result<Vec<u64>, Error>)
        requires
            self.wf(),
        ensures
            match r {
                Ok(v) => v@.len() == self@.len() && (forall|j: int|
                    0 <= j < v@.len() ==> v@[j] == self@[j].0),
                Err(_) => false,
            },
    {
        Ok(self.map.keys())
    }

    /// The values in ascending key order.
    pub fn values(&self) -> (r: Result<Vec<u64>, Error>)
        requires
            self.wf(),
        ensures
            match r {
                Ok(v) => v@.len() == self@.len() && (forall|j: int|
                    0 <= j < v@.len() ==> v@[j] == self@[j].1),
                Err(_) => false,
            },
    {
        Ok(self.map.values())
    }
}

} // verus!

verus! {

/// Every key of `s` is at most `b`.
pub open spec fn keys_at_most(s: Seq<(u64, u64)>, b: u64) -> bool {
    forall|i: int| 0 <= i < s.len() ==> (#[trigger] s[i]).0 <= b
}

/// Exec check that a pair sequence has strictly ascending keys.
fn check_sorted_pairs(v: &Vec<(u64, u64)>) -> (r: bool)
    ensures
        r == sorted_keys(v@),
{
    let mut j: usize = 1;
    let mut ok = true;
    if v.len() == 0 {
        return true;
    }
    while j < v.len()
        invariant
            1 <= j <= v@.len(),
            ok == (forall|p: int, q: int| 0 <= p < q < j ==> v@[p].0 < v@[q].0),
        decreases v@.len() - j,
    {
        if v[j - 1].0 >= v[j].0 {
            ok = false;
        }
        proof {
            if ok && v@[j as int - 1].0 < v@[j as int].0 {
                assert forall|p: int, q: int| 0 <= p < q < j + 1 implies v@[p].0 < v@[q].0 by {
                    if q == j {
                        if p < j - 1 {
                            assert(v@[p].0 < v@[j as int - 1].0);
                        }
                    }
                }
            }
        }
        j = j + 1;
    }
    ok
}

/// Exec check that a key sequence is strictly ascending.
fn check_sorted_keys(v: &Vec<u64>) -> (r: bool)
    ensures
        r == sorted_u64s(v@),
{
    let mut j: usize = 1;
    let mut ok = true;
    if v.len() == 0 {
        return true;
    }
    while j < v.len()
        invariant
            1 <= j <= v@.len(),
            ok == (forall|p: int, q: int| 0 <= p < q < j ==> v@[p] < v@[q]),
        decreases v@.len() - j,
    {
        if v[j - 1] >= v[j] {
            ok = false;
        }
        proof {
            if ok && v@[j as int - 1] < v@[j as int] {
                assert forall|p: int, q: int| 0 <= p < q < j + 1 implies v@[p] < v@[q] by {
                    if q == j {
                        if p < j - 1 {
                            assert(v@[p] < v@[j as int - 1]);
                        }
                    }
                }
            }
        }
        j = j + 1;
    }
    ok
}

/// Bounds hold of a concatenated child row when they hold childwise.
proof fn lemma_entries_of_bounds(s: Seq<Node<u64>>, lo: u64, hi: u64)
    requires
        forall|j: int| 0 <= j < s.len() ==> keys_at_least((#[trigger] s[j]).entries(), lo),
        forall|j: int| 0 <= j < s.len() ==> keys_at_most((#[trigger] s[j]).entries(), hi),
    ensures
        keys_at_least(Node::entries_of(s), lo),
        keys_at_most(Node::entries_of(s), hi),
    decreases s,
{
    if s.len() > 0 {
        lemma_entries_of_bounds(s.drop_first(), lo, hi);
        assert(forall|j: int|
            0 <= j < s.drop_first().len() ==> (#[trigger] s.drop_first()[j]) == s[j + 1]);
        let all = s[0].entries() + Node::entries_of(s.drop_first());
        assert forall|i: int| 0 <= i < all.len() implies (#[trigger] all[i]).0 >= lo && all[i].0
            <= hi by {
            if i < s[0].entries().len() {
                assert(all[i] == s[0].entries()[i]);
            } else {
                assert(all[i] == Node::entries_of(s.drop_first())[i - s[0].entries().len()]);
            }
        }
    }
}

/// The staged state between reading the metadata files and having every
/// node image in hand: `next_need` names the file to read next, `install`
/// accepts its bytes, and `finish` rebuilds and revalidates the tree.
pub struct Loader {
    order: usize,
    len: usize,
    root_id: Option<u128>,
    images: Vec<NodeImage>,
    pending: Vec<u128>,
}

impl Loader {
    /// The loader holds a sensible order.
    pub closed spec fn wf(self) -> bool {
        self.order >= 3
    }

    /// The branching order read from the metadata.
    pub closed spec fn spec_order(self) -> int {
        self.order as int
    }

    /// The pair count read from the metadata.
    pub closed spec fn spec_len(self) -> int {
        self.len as int
    }

    /// The root identity read from the metadata.
    pub closed spec fn spec_root(self) -> Option<u128> {
        self.root_id
    }

    /// The identities whose files are still to be read, the next one last.
    pub closed spec fn spec_pending(self) -> Seq<u128> {
        self.pending@
    }

    /// The images installed so far, in installation order.
    pub closed spec fn spec_images(self) -> Seq<NodeImage> {
        self.images@
    }

    /// The identity of the next node file the loader needs, if any.
    pub fn next_need(&self) -> (r: Option<u128>)
        ensures
            r is Some <==> self.spec_pending().len() > 0,
            r is Some ==> r == Some(self.spec_pending().last()),
    {
        if self.pending.len() == 0 {
            None
        } else {
            Some(self.pending[self.pending.len() - 1])
        }
    }

    /// Hand the loader the bytes of the node file it asked for. Success
    /// records exactly one image: one whose canonical encoding is `bytes`,
    /// carrying the identity that was at the head of the queue; its child
    /// references are queued in turn. On failure nothing changes.
    pub fn install(&mut self, id: u128, bytes: &Vec<u8>) -> (r: Result<(), Error>)
        requires
            old(self).wf(),
        ensures
            final(self).wf(),
            r is Err ==> *final(self) == *old(self),
            r is Ok ==> old(self).spec_pending().len() > 0 && old(self).spec_pending().last()
                == id,
            r is Ok ==> ({
                let m = final(self).spec_images().last();
                &&& image_bytes(m) == bytes@
                &&& crate::image::image_id(m) == id
                &&& final(self).spec_images() == old(self).spec_images().push(m)
                &&& final(self).spec_pending() == old(self).spec_pending().drop_last()
                    + image_children(m)
                &&& final(self).spec_order() == old(self).spec_order()
                &&& final(self).spec_len() == old(self).spec_len()
                &&& final(self).spec_root() == old(self).spec_root()
            }),
    {
        let image = match decode_image(bytes) {
            Some(image) => image,
            None => {
                return Err(Error::Codec);
            },
        };
        let carried = match &image {
            NodeImage::Leaf { id, .. } => *id,
            NodeImage::Internal { id, .. } => *id,
        };
        if carried != id {
            return Err(Error::Codec);
        }
        if self.pending.len() == 0 {
            return Err(Error::BadTree);
        }
        let expect = self.pending[self.pending.len() - 1];
        if expect != id {
            return Err(Error::BadTree);
        }
        let _ = self.pending.pop();
        proof {
            assert(self.pending@ =~= old(self).spec_pending().drop_last());
        }
        let ghost base = self.pending@;
        match &image {
            NodeImage::Leaf { .. } => {
                proof {
                    assert(base + image_children(image) =~= base);
                }
            },
            NodeImage::Internal { children, .. } => {
                let mut j: usize = 0;
                while j < children.len()
                    invariant
                        j <= children@.len(),
                        self.wf(),
                        self.pending@ == base + children@.take(j as int),
                        self.order == old(self).order,
                        self.len == old(self).len,
                        self.root_id == old(self).root_id,
                        self.images@ == old(self).images@,
                    decreases children@.len() - j,
                {
                    proof {
                        assert(children@.take(j as int).push(children@[j as int])
                            =~= children@.take(j as int + 1));
                        assert((base + children@.take(j as int)).push(children@[j as int]) =~= base
                            + children@.take(j as int + 1));
                    }
                    self.pending.push(children[j]);
                    j = j + 1;
                }
                proof {
                    assert(children@.take(children@.len() as int) =~= children@);
                }
            },
        }
        self.images.push(image);
        Ok(())
    }

    /// Rebuild the tree once every image is in. The structure is
    /// revalidated from scratch — anything that would break the tree's
    /// shape, ordering, separator consistency, depth uniformity or the
    /// recorded count is refused as `BadTree` — so any tree returned is
    /// well-formed, fully clean, and holds exactly the recorded number of
    /// pairs.
    pub fn finish(self) -> (r: Result<BPTree, Error>)
        requires
            self.wf(),
        ensures
            self.spec_pending().len() > 0 ==> r is Err,
            match r {
                Ok(t) => {
                    &&& t.wf()
                    &&& t@.len() == self.spec_len()
                    &&& t.spec_order() == self.spec_order()
                    &&& t.spec_clean()
                    &&& !t.spec_root_dirty()
                    &&& !t.spec_order_dirty()
                    &&& !t.spec_len_dirty()
                    &&& t.spec_freed() == Seq::<u128>::empty()
                    &&& t.spec_chain_linked()
                },
                Err(_) => true,
            },
    {
        if self.pending.len() > 0 {
            return Err(Error::BadTree);
        }
        let order = self.order;
        let mut images = self.images;
        match self.root_id {
            None => {
                if self.len != 0 {
                    return Err(Error::BadTree);
                }
                Ok(BPTree {
                    map: BPTreeMap::assemble(None, order, 0),
                    root_dirty: false,
                    order_dirty: false,
                    len_dirty: false,
                    freed: Vec::new(),
                })
            },
            Some(rid) => {
                let built = build_node(&mut images, rid, order, true);
                match built {
                    Err(e) => Err(e),
                    Ok((node, _h, _lo, _hi)) => {
                        let n = count_entries(&node);
                        if n != self.len || n == 0 || n == usize::MAX {
                            return Err(Error::BadTree);
                        }
                        let is_bare_internal = match &node {
                            Node::Internal(nd) => nd.keys.len() == 0,
                            Node::Leaf(_) => false,
                        };
                        if is_bare_internal {
                            return Err(Error::BadTree);
                        }
                        let mut refs: Vec<(u128, Option<u128>)> = Vec::new();
                        collect_leaf_refs(&node, &mut refs);
                        proof {
                            assert(refs@ =~= node.leaf_refs());
                        }
                        if !check_chain(&refs) {
                            return Err(Error::BadTree);
                        }
                        Ok(BPTree {
                            map: BPTreeMap::assemble(Some(node), order, n),
                            root_dirty: false,
                            order_dirty: false,
                            len_dirty: false,
                            freed: Vec::new(),
                        })
                    },
                }
            },
        }
    }
}

/// Append the in-order leaves' identities and forward links below `node`.
fn collect_leaf_refs(node: &Node<u64>, out: &mut Vec<(u128, Option<u128>)>)
    ensures
        final(out)@ == old(out)@ + node.leaf_refs(),
    decreases *node,
{
    match node {
        Node::Leaf(l) => {
            out.push((l.id, l.next));
            proof {
                assert(old(out)@.push((l.id, l.next)) =~= old(out)@ + node.leaf_refs());
            }
        },
        Node::Internal(nd) => {
            let mut j: usize = 0;
            proof {
                assert(nd.children@.take(0) =~= Seq::<Node<u64>>::empty());
                assert(old(out)@ + Node::leaf_refs_of(Seq::<Node<u64>>::empty()) =~= old(out)@);
            }
            while j < nd.children.len()
                invariant
                    j <= nd.children@.len(),
                    (*node) is Internal,
                    node->Internal_0 == *nd,
                    out@ == old(out)@ + Node::leaf_refs_of(nd.children@.take(j as int)),
                decreases nd.children@.len() - j,
            {
                proof {
                    broadcast use vstd::std_specs::vec::axiom_vec_index_decreases;

                    assert(decreases_to!(*node => node->Internal_0));
                    assert(decreases_to!(node->Internal_0 => nd.children));
                    assert(decreases_to!(nd.children => nd.children@[j as int]));
                    assert(decreases_to!(*node => nd.children@[j as int]));
                }
                let c: &Node<u64> = &nd.children[j];
                collect_leaf_refs(c, out);
                proof {
                    crate::mem::lemma_leaf_refs_take_snoc(nd.children@, j as int);
                    assert((old(out)@ + Node::leaf_refs_of(nd.children@.take(j as int)))
                        + nd.children@[j as int].leaf_refs() =~= old(out)@ + (Node::leaf_refs_of(
                        nd.children@.take(j as int),
                    ) + nd.children@[j as int].leaf_refs()));
                }
                j = j + 1;
            }
            proof {
                assert(nd.children@.take(nd.children@.len() as int) =~= nd.children@);
            }
        },
    }
}

/// Whether the forward links thread these leaves left to right and end the
/// chain.
fn check_chain(v: &Vec<(u128, Option<u128>)>) -> (r: bool)
    ensures
        r == chain_linked(v@),
{
    if v.len() == 0 {
        return true;
    }
    let last = v[v.len() - 1];
    let end_ok = match last.1 {
        None => true,
        Some(_) => false,
    };
    if !end_ok {
        return false;
    }
    let n = v.len();
    let mut j: usize = 0;
    let mut ok = true;
    while j < n - 1
        invariant
            n == v@.len(),
            n > 0,
            j <= n - 1,
            ok == (forall|t: int| 0 <= t < j ==> (#[trigger] v@[t]).1 == Some(v@[t + 1].0)),
        decreases n - j,
    {
        let here = v[j];
        let next = v[j + 1];
        let step_ok = match here.1 {
            Some(n) => n == next.0,
            None => false,
        };
        if !step_ok {
            ok = false;
        }
        proof {
            if ok {
                assert forall|t: int| 0 <= t < j + 1 implies (#[trigger] v@[t]).1 == Some(
                    v@[t + 1].0,
                ) by {}
            }
        }
        j = j + 1;
    }
    ok
}

/// How many pairs a rebuilt subtree holds, saturating at the machine
/// limit.
fn count_entries(node: &Node<u64>) -> (r: usize)
    ensures
        node.entries().len() <= usize::MAX ==> r == node.entries().len(),
        node.entries().len() > usize::MAX ==> r == usize::MAX,
    decreases *node,
{
    match node {
        Node::Leaf(leaf) => leaf.entries.len(),
        Node::Internal(nd) => {
            let mut total: usize = 0;
            let mut j: usize = 0;
            proof {
                assert(nd.children@.take(0) =~= Seq::<Node<u64>>::empty());
            }
            while j < nd.children.len()
                invariant
                    j <= nd.children@.len(),
                    (*node) is Internal,
                    node->Internal_0 == *nd,
                    Node::entries_of(nd.children@.take(j as int)).len() <= usize::MAX
                        ==> total == Node::entries_of(nd.children@.take(j as int)).len(),
                    Node::entries_of(nd.children@.take(j as int)).len() > usize::MAX ==> total
                        == usize::MAX,
                decreases nd.children@.len() - j,
            {
                proof {
                    broadcast use vstd::std_specs::vec::axiom_vec_index_decreases;

                    assert(decreases_to!(*node => node->Internal_0));
                    assert(decreases_to!(node->Internal_0 => nd.children));
                    assert(decreases_to!(nd.children => nd.children@[j as int]));
                    assert(decreases_to!(*node => nd.children@[j as int]));
                    crate::mem::lemma_entries_of_take_snoc(nd.children@, j as int + 1);
                }
                let c: &Node<u64> = &nd.children[j];
                let cn = count_entries(c);
                total = if total >= usize::MAX - cn {
                    usize::MAX
                } else {
                    total + cn
                };
                j = j + 1;
            }
            proof {
                assert(nd.children@.take(nd.children@.len() as int) =~= nd.children@);
            }
            total
        },
    }
}

/// Take the image with identity `id` out of the store, if present.
fn take_image(images: &mut Vec<NodeImage>, id: u128) -> (r: Option<NodeImage>)
    ensures
        final(images)@.len() <= old(images)@.len(),
        r is Some ==> final(images)@.len() == old(images)@.len() - 1,
        r is Some ==> crate::image::image_id(r.unwrap()) == id,
{
    let mut j: usize = 0;
    let n = images.len();
    while j < n
        invariant
            j <= n,
            n == images@.len(),
            images@ == old(images)@,
        decreases n - j,
    {
        let hit = match &images[j] {
            NodeImage::Leaf { id: nid, .. } => *nid == id,
            NodeImage::Internal { id: nid, .. } => *nid == id,
        };
        if hit {
            return Some(images.swap_remove(j));
        }
        j = j + 1;
    }
    None
}

/// Rebuild the node with identity `id` from the image store, consuming its
/// image, recursively rebuilding its children, and revalidating every
/// structural rule. On success the subtree is sound, properly sized unless
/// it is the root, and its entry keys all lie in `[lo, hi]`.
#[verifier::rlimit(100)]
#[verifier::spinoff_prover]
fn build_node(images: &mut Vec<NodeImage>, id: u128, order: usize, root: bool) -> (r: Result<
    (Node<u64>, usize, u64, u64),
    Error,
>)
    requires
        order >= 3,
    ensures
        final(images)@.len() <= old(images)@.len(),
        match r {
            Ok(t) => {
                &&& t.0.ok(order as int)
                &&& !root ==> t.0.sized(order as int)
                &&& t.1 == t.0.height()
                &&& t.0.entries().len() >= 1
                &&& keys_at_least(t.0.entries(), t.2)
                &&& keys_at_most(t.0.entries(), t.3)
                &&& t.0.spec_id() == id
                &&& t.0.clean()
            },
            Err(_) => true,
        },
    decreases old(images)@.len(),
{
    let image = match take_image(images, id) {
        Some(image) => image,
        None => {
            return Err(Error::BadTree);
        },
    };
    match image {
        NodeImage::Leaf { id: nid, entries, next } => {
            if entries.len() == 0 || entries.len() > order {
                return Err(Error::BadTree);
            }
            if !root && entries.len() < order / 2 + order % 2 {
                return Err(Error::BadTree);
            }
            if !check_sorted_pairs(&entries) {
                return Err(Error::BadTree);
            }
            let lo = entries[0].0;
            let hi = entries[entries.len() - 1].0;
            proof {
                assert forall|t: int| 0 <= t < entries@.len() implies lo <= (
                #[trigger] entries@[t]).0 <= hi by {
                    if t > 0 {
                        assert(entries@[0].0 < entries@[t].0);
                    }
                    if t < entries@.len() - 1 {
                        assert(entries@[t].0 < entries@[entries@.len() - 1].0);
                    }
                }
            }
            Ok((Node::Leaf(Leaf { id: nid, entries, next, dirty: false }), 0, lo, hi))
        },
        NodeImage::Internal { id: nid, keys, children: child_ids } => {
            if keys.len() == 0 || keys.len() > order {
                return Err(Error::BadTree);
            }
            if !root && keys.len() < order / 2 {
                return Err(Error::BadTree);
            }
            if child_ids.len() == 0 || child_ids.len() - 1 != keys.len() {
                return Err(Error::BadTree);
            }
            if !check_sorted_keys(&keys) {
                return Err(Error::BadTree);
            }
            let mut children: Vec<Node<u64>> = Vec::new();
            let mut height: usize = 0;
            let mut lo: u64 = 0;
            let mut hi: u64 = 0;
            let mut j: usize = 0;
            let ghost ks = keys@;
            let m = order;
            while j < child_ids.len()
                invariant
                    j <= child_ids@.len(),
                    child_ids@.len() == ks.len() + 1,
                    keys@ == ks,
                    sorted_u64s(ks),
                    1 <= ks.len() <= m,
                    m == order,
                    m >= 3,
                    images@.len() < old(images)@.len(),
                    children@.len() == j,
                    forall|t: int| 0 <= t < j ==> (#[trigger] children@[t]).ok(m as int),
                    forall|t: int| 0 <= t < j ==> (#[trigger] children@[t]).sized(m as int),
                    forall|t: int|
                        0 <= t < j ==> (#[trigger] children@[t]).height() == height,
                    forall|t: int| 0 <= t < j ==> (#[trigger] children@[t]).entries().len() >= 1,
                    forall|t: int| 0 <= t < j ==> (#[trigger] children@[t]).clean(),
                    forall|t: int|
                        0 <= t < j && t < ks.len() ==> keys_below(
                            (#[trigger] children@[t]).entries(),
                            ks[t],
                        ),
                    forall|t: int|
                        1 <= t < j ==> keys_at_least(
                            (#[trigger] children@[t]).entries(),
                            ks[t - 1],
                        ),
                    forall|t: int|
                        0 <= t < j ==> keys_at_least((#[trigger] children@[t]).entries(), lo),
                    forall|t: int|
                        0 <= t < j ==> keys_at_most((#[trigger] children@[t]).entries(), hi),
                    1 <= j && j <= ks.len() ==> hi < ks[j - 1],
                decreases child_ids@.len() - j,
            {
                let built = build_node(images, child_ids[j], order, false);
                let (c, ch_height, c_lo, c_hi) = match built {
                    Ok(t) => t,
                    Err(e) => {
                        return Err(e);
                    },
                };
                proof {
                    assert(c.entries().len() >= 1);
                    assert(c_lo <= c.entries()[0].0 && c.entries()[0].0 <= c_hi);
                }
                if j == 0 {
                    height = ch_height;
                    lo = c_lo;
                } else {
                    if ch_height != height {
                        return Err(Error::BadTree);
                    }
                    if !(keys[j - 1] <= c_lo) {
                        return Err(Error::BadTree);
                    }
                }
                if j < keys.len() {
                    if !(c_hi < keys[j]) {
                        return Err(Error::BadTree);
                    }
                }
                proof {
                    let c2 = c;
                    if j > 0 {
                        assert(hi < ks[j as int - 1]);
                        assert(ks[j as int - 1] <= c_lo);
                        assert(hi < c_hi);
                    }
                    assert forall|t: int|
                        0 <= t < j + 1 implies keys_at_least(
                        (#[trigger] children@.push(c2)[t]).entries(),
                        lo,
                    ) by {
                        if t < j {
                            assert(children@.push(c2)[t] == children@[t]);
                        } else {
                            assert(children@.push(c2)[t] == c2);
                            if j > 0 {
                                assert(keys_at_least(c2.entries(), ks[j as int - 1]));
                                assert(keys_at_least(children@[0].entries(), lo));
                                assert(children@[0].entries()[0].0 < ks[0]);
                                assert(ks[0] <= ks[j as int - 1]);
                                assert(lo <= children@[0].entries()[0].0);
                            }
                        }
                    }
                    assert forall|t: int|
                        0 <= t < j + 1 implies keys_at_most(
                        (#[trigger] children@.push(c2)[t]).entries(),
                        c_hi,
                    ) by {
                        if t < j {
                            assert(children@.push(c2)[t] == children@[t]);
                            assert(keys_at_most(children@[t].entries(), hi));
                        } else {
                            assert(children@.push(c2)[t] == c2);
                        }
                    }
                }
                hi = c_hi;
                children.push(c);
                j = j + 1;
            }
            proof {
                assert(internal_ok(ks, children@, m as int)) by {
                    assert forall|t: int| 0 <= t < ks.len() implies keys_at_least(
                        children@[t + 1].entries(),
                        #[trigger] ks[t],
                    ) by {
                        assert(keys_at_least(children@[t + 1].entries(), ks[t + 1 - 1]));
                    }
                    assert forall|t: int|
                        0 <= t < children@.len() implies (#[trigger] children@[t]).height()
                        == children@[0].height() by {}
                }
                lemma_entries_of_bounds(children@, lo, hi);
                lemma_entries_of_at(children@, 0);
                lemma_ok_nonempty(children@[0], m as int);
                lemma_clean_of_index(children@);
            }
            if height == usize::MAX {
                return Err(Error::BadTree);
            }
            let node = Node::Internal(Internal { id: nid, keys, children, dirty: false });
            proof {
                assert(node.entries().len() >= node->Internal_0.children@[0].entries().len());
                assert(node->Internal_0.children@[0].height() == height);
                assert(node.height() == height + 1);
            }
            Ok((node, height + 1, lo, hi))
        },
    }
}

impl BPTree {
    /// Read the three metadata files and begin loading: the root, the
    /// order and the count come from them, and the loader then asks for
    /// node files one identity at a time.
    pub fn load(
        root_meta: Option<&Vec<u8>>,
        order_meta: Option<&Vec<u8>>,
        len_meta: Option<&Vec<u8>>,
    ) -> (r: Result<Loader, Error>)
        ensures
            (root_meta is None || order_meta is None || len_meta is None) ==> r == Err::<
                Loader,
                Error,
            >(Error::BadTree),
            match r {
                Ok(l) => {
                    &&& l.wf()
                    &&& root_meta is Some && order_meta is Some && len_meta is Some
                    &&& root_meta_bytes(l.spec_root()) == root_meta.unwrap()@
                    &&& u64_bytes(l.spec_order() as u64) == order_meta.unwrap()@
                    &&& u64_bytes(l.spec_len() as u64) == len_meta.unwrap()@
                    &&& l.spec_order() >= 3
                    &&& l.spec_images() == Seq::<NodeImage>::empty()
                    &&& l.spec_pending() == (match l.spec_root() {
                        Some(rid) => seq![rid],
                        None => Seq::<u128>::empty(),
                    })
                },
                Err(_) => true,
            },
            match (root_meta, order_meta, len_meta) {
                (Some(rb), Some(ob), Some(lb)) => (exists|o: Option<u128>, x: u64, y: u64|
                    rb@ == root_meta_bytes(o) && ob@ == u64_bytes(x) && lb@ == u64_bytes(y) && 3
                        <= x <= usize::MAX as u64 && y <= usize::MAX as u64) ==> r is Ok,
                _ => true,
            },
    {
        let root_bytes = match root_meta {
            Some(b) => b,
            None => {
                return Err(Error::BadTree);
            },
        };
        let order_bytes = match order_meta {
            Some(b) => b,
            None => {
                return Err(Error::BadTree);
            },
        };
        let len_bytes = match len_meta {
            Some(b) => b,
            None => {
                return Err(Error::BadTree);
            },
        };
        let root_id = match decode_root_meta(root_bytes) {
            Some(r) => r,
            None => {
                return Err(Error::Codec);
            },
        };
        let order64 = match decode_u64_meta(order_bytes) {
            Some(x) => x,
            None => {
                return Err(Error::Codec);
            },
        };
        let len64 = match decode_u64_meta(len_bytes) {
            Some(x) => x,
            None => {
                return Err(Error::Codec);
            },
        };
        if order64 < 3 || order64 > usize::MAX as u64 {
            proof {
                assert forall|x: u64| order_bytes@ == u64_bytes(x) implies !(3 <= x
                    <= usize::MAX as u64) by {}
            }
            return Err(Error::BadTree);
        }
        if len64 > usize::MAX as u64 {
            proof {
                assert forall|y: u64| len_bytes@ == u64_bytes(y) implies !(y
                    <= usize::MAX as u64) by {}
            }
            return Err(Error::BadTree);
        }
        let order = order64 as usize;
        let len = len64 as usize;
        let mut pending: Vec<u128> = Vec::new();
        match root_id {
            Some(rid) => {
                pending.push(rid);
                proof {
                    assert(pending@ =~= seq![rid]);
                }
            },
            None => {},
        }
        Ok(Loader { order, len, root_id, images: Vec::new(), pending })
    }
}

} // verus!
