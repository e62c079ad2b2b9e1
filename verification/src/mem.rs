//! The in-memory B+Tree map: internal nodes route by separator keys, leaves
//! hold the pairs, and the tree rebalances itself on insertion and removal.
//!
//! The node types are exposed for inspection, but a tree handed out by this
//! module always satisfies the closed well-formedness predicate
//! [`BPTreeMap::wf`]: size bounds on every non-root node, strictly ascending
//! keys, separator consistency, uniform leaf depth, and a length field equal
//! to the number of pairs.
use vstd::prelude::*;

use crate::ident::fresh_id;
use crate::sorted::{
    find, has_key, keys_above, keys_at_least, keys_below, kv_insert, kv_remove,
    lemma_find_at, lemma_find_concat, lemma_find_props, lemma_insert_at_rank,
    lemma_kv_insert_concat_left, lemma_kv_insert_concat_right, lemma_kv_insert_props,
    lemma_kv_remove_concat, lemma_kv_remove_props, lemma_remove_at, lemma_replace_at,
    sorted_keys, sorted_u64s,
};

verus! {

/// A routing node: `children.len() == keys.len() + 1`, and the subtree at
/// `children[i]` holds the keys in `[keys[i-1], keys[i])`, separators
/// resolving duplicates to the right.
pub struct Internal<T> {
    /// Stable identity; on disk it doubles as the node's file name.
    pub id: u128,
    pub keys: Vec<u64>,
    pub children: Vec<Node<T>>,
    /// Whether the in-memory content differs from the on-disk image.
    pub dirty: bool,
}

/// A leaf node: the pairs themselves, in strictly ascending key order.
pub struct Leaf<T> {
    /// Stable identity; on disk it doubles as the node's file name.
    pub id: u128,
    pub entries: Vec<(u64, T)>,
    /// The next leaf in key order, by identity: the forward chain that
    /// in-order iteration follows.
    pub next: Option<u128>,
    /// Whether the in-memory content differs from the on-disk image.
    pub dirty: bool,
}

pub enum Node<T> {
    Internal(Internal<T>),
    Leaf(Leaf<T>),
}

/// Fewest keys a non-root leaf may hold.
pub open spec fn min_leaf_keys(m: int) -> int {
    (m + 1) / 2
}

/// Fewest keys a non-root internal node may hold.
pub open spec fn min_internal_keys(m: int) -> int {
    m / 2
}

impl<T> Internal<T> {
    /// A non-root internal node must hold at least `⌊order/2⌋` keys.
    pub fn is_underfull(&self, order: usize) -> (r: bool)
        ensures
            r == (self.keys@.len() < min_internal_keys(order as int)),
    {
        self.keys.len() < order / 2
    }

    /// No node may hold more than `order` keys.
    pub fn is_overfull(&self, order: usize) -> (r: bool)
        ensures
            r == (self.keys@.len() > order as int),
    {
        self.keys.len() > order
    }

    /// Whether a key can be borrowed without going underfull.
    pub fn has_extra_keys(&self, order: usize) -> (r: bool)
        ensures
            r == (self.keys@.len() > min_internal_keys(order as int)),
    {
        self.keys.len() > order / 2
    }
}

impl<T> Leaf<T> {
    /// A non-root leaf must hold at least `⌈order/2⌉` keys.
    pub fn is_underfull(&self, order: usize) -> (r: bool)
        ensures
            r == (self.entries@.len() < min_leaf_keys(order as int)),
    {
        self.entries.len() < order / 2 + order % 2
    }

    /// No leaf may hold more than `order` keys.
    pub fn is_overfull(&self, order: usize) -> (r: bool)
        ensures
            r == (self.entries@.len() > order as int),
    {
        self.entries.len() > order
    }

    /// Whether a pair can be borrowed without going underfull.
    pub fn has_extra_keys(&self, order: usize) -> (r: bool)
        ensures
            r == (self.entries@.len() > min_leaf_keys(order as int)),
    {
        self.entries.len() > order / 2 + order % 2
    }
}

impl<T> Node<T> {
    /// The in-order sequence of pairs held below this node.
    pub open spec fn entries(self) -> Seq<(u64, T)>
        decreases self,
    {
        match self {
            Node::Leaf(leaf) => leaf.entries@,
            Node::Internal(node) => Node::entries_of(node.children@),
        }
    }

    /// The concatenated in-order pairs of a child sequence.
    pub open spec fn entries_of(s: Seq<Node<T>>) -> Seq<(u64, T)>
        decreases s,
    {
        if s.len() == 0 {
            Seq::empty()
        } else {
            s[0].entries() + Node::entries_of(s.drop_first())
        }
    }

    /// Leaves sit at height zero; every internal node sits one above its
    /// first child. Well-formedness forces all children to share a height,
    /// so this is the distance to every leaf below.
    pub open spec fn height(self) -> nat
        decreases self,
    {
        match self {
            Node::Leaf(_) => 0,
            Node::Internal(node) => 1 + Node::height_of(node.children@),
        }
    }

    /// Height of the first node of a sequence (zero when empty).
    pub open spec fn height_of(s: Seq<Node<T>>) -> nat
        decreases s,
    {
        if s.len() == 0 {
            0
        } else {
            s[0].height()
        }
    }

    /// Number of keys held in this node itself.
    pub open spec fn key_count(self) -> int {
        match self {
            Node::Leaf(leaf) => leaf.entries@.len() as int,
            Node::Internal(node) => node.keys@.len() as int,
        }
    }

    /// Lower size bound demanded of every non-root node.
    pub open spec fn sized(self, m: int) -> bool {
        match self {
            Node::Leaf(leaf) => leaf.entries@.len() >= min_leaf_keys(m),
            Node::Internal(node) => node.keys@.len() >= min_internal_keys(m),
        }
    }

    /// Structural soundness of the subtree rooted here, except for this
    /// node's own lower size bound, which is its parent's business.
    pub open spec fn ok(self, m: int) -> bool
        decreases self,
    {
        match self {
            Node::Leaf(leaf) => {
                &&& leaf.entries@.len() <= m
                &&& sorted_keys(leaf.entries@)
            },
            Node::Internal(node) => node.keys@.len() <= m && internal_ok(
                node.keys@,
                node.children@,
                m,
            ),
        }
    }
}

/// The internal-node conjuncts of [`Node::ok`] other than the upper size
/// bound, over bare key and child sequences so that proofs can speak of
/// transient, just-overfull states.
pub open spec fn internal_ok<T>(keys: Seq<u64>, children: Seq<Node<T>>, m: int) -> bool
    decreases children,
{
    &&& children.len() == keys.len() + 1
    &&& sorted_u64s(keys)
    &&& forall|i: int| 0 <= i < children.len() ==> (#[trigger] children[i]).ok(m)
    &&& forall|i: int| 0 <= i < children.len() ==> (#[trigger] children[i]).sized(m)
    &&& forall|i: int|
        0 <= i < children.len() ==> (#[trigger] children[i]).height() == children[0].height()
    &&& forall|i: int|
        0 <= i < keys.len() ==> keys_below((#[trigger] children[i]).entries(), keys[i])
    &&& forall|i: int|
        0 <= i < keys.len() ==> keys_at_least(children[i + 1].entries(), #[trigger] keys[i])
}

/// The entries of a single-node sequence are that node's entries.
pub proof fn lemma_entries_of_unit<T>(n: Node<T>)
    ensures
        Node::entries_of(seq![n]) == n.entries(),
{
    assert(seq![n].len() == 1 && seq![n][0] == n);
    assert(seq![n].drop_first() =~= Seq::<Node<T>>::empty());
    assert(Node::entries_of(seq![n]) == n.entries() + Node::entries_of(
        Seq::<Node<T>>::empty(),
    ));
    assert(n.entries() + Seq::<(u64, T)>::empty() =~= n.entries());
}

/// A child sequence's entries split at any cut point.
pub proof fn lemma_entries_of_split<T>(s: Seq<Node<T>>, i: int)
    requires
        0 <= i <= s.len(),
    ensures
        Node::entries_of(s) == Node::entries_of(s.take(i)) + Node::entries_of(s.skip(i)),
    decreases i,
{
    if i == 0 {
        assert(s.take(0) =~= Seq::<Node<T>>::empty());
        assert(s.skip(0) =~= s);
        assert(Node::entries_of(s.take(0)) + Node::entries_of(s) =~= Node::entries_of(s));
    } else {
        lemma_entries_of_split(s.drop_first(), i - 1);
        assert(s.drop_first().take(i - 1) =~= s.take(i).drop_first());
        assert(s.drop_first().skip(i - 1) =~= s.skip(i));
        assert(s.take(i)[0] == s[0]);
        assert(Node::entries_of(s.take(i)) == s[0].entries() + Node::entries_of(
            s.take(i).drop_first(),
        ));
        assert(s[0].entries() + (Node::entries_of(s.take(i).drop_first()) + Node::entries_of(
            s.skip(i),
        )) =~= (s[0].entries() + Node::entries_of(s.take(i).drop_first())) + Node::entries_of(
            s.skip(i),
        ));
    }
}

/// A child sequence's entries around one child: prefix, the child itself,
/// suffix.
pub proof fn lemma_entries_of_at<T>(s: Seq<Node<T>>, i: int)
    requires
        0 <= i < s.len(),
    ensures
        Node::entries_of(s) == Node::entries_of(s.take(i)) + s[i].entries() + Node::entries_of(
            s.skip(i + 1),
        ),
{
    lemma_entries_of_split(s, i);
    assert(s.skip(i)[0] == s[i]);
    assert(s.skip(i).drop_first() =~= s.skip(i + 1));
    assert(Node::entries_of(s.skip(i)) == s[i].entries() + Node::entries_of(s.skip(i + 1)));
    assert(Node::entries_of(s.take(i)) + (s[i].entries() + Node::entries_of(s.skip(i + 1)))
        =~= Node::entries_of(s.take(i)) + s[i].entries() + Node::entries_of(s.skip(i + 1)));
}

/// Extending a prefix by one child appends that child's entries.
pub proof fn lemma_entries_of_take_snoc<T>(s: Seq<Node<T>>, i: int)
    requires
        1 <= i <= s.len(),
    ensures
        Node::entries_of(s.take(i)) == Node::entries_of(s.take(i - 1)) + s[i - 1].entries(),
{
    lemma_entries_of_at(s.take(i), i - 1);
    assert(s.take(i).take(i - 1) =~= s.take(i - 1));
    assert(s.take(i).skip(i) =~= Seq::<Node<T>>::empty());
    assert(s.take(i)[i - 1] == s[i - 1]);
    assert(Node::entries_of(s.take(i - 1)) + s[i - 1].entries() + Seq::<(u64, T)>::empty()
        =~= Node::entries_of(s.take(i - 1)) + s[i - 1].entries());
}

/// Bounds on a concatenation restrict both parts.
pub proof fn lemma_bounds_parts<T>(a: Seq<(u64, T)>, b: Seq<(u64, T)>, x: u64)
    ensures
        keys_at_least(a + b, x) ==> keys_at_least(a, x) && keys_at_least(b, x),
        keys_below(a + b, x) ==> keys_below(a, x) && keys_below(b, x),
        keys_above(a + b, x) ==> keys_above(a, x) && keys_above(b, x),
{
    assert forall|j: int| 0 <= j < a.len() implies (a + b)[j] == a[j] by {}
    assert forall|j: int| 0 <= j < b.len() implies (a + b)[a.len() + j] == b[j] by {}
    if keys_at_least(a + b, x) {
        assert forall|j: int| 0 <= j < a.len() implies (#[trigger] a[j]).0 >= x by {
            assert((a + b)[j] == a[j]);
        }
        assert forall|j: int| 0 <= j < b.len() implies (#[trigger] b[j]).0 >= x by {
            assert((a + b)[a.len() + j] == b[j]);
        }
    }
    if keys_below(a + b, x) {
        assert forall|j: int| 0 <= j < a.len() implies (#[trigger] a[j]).0 < x by {
            assert((a + b)[j] == a[j]);
        }
        assert forall|j: int| 0 <= j < b.len() implies (#[trigger] b[j]).0 < x by {
            assert((a + b)[a.len() + j] == b[j]);
        }
    }
    if keys_above(a + b, x) {
        assert forall|j: int| 0 <= j < a.len() implies (#[trigger] a[j]).0 > x by {
            assert((a + b)[j] == a[j]);
        }
        assert forall|j: int| 0 <= j < b.len() implies (#[trigger] b[j]).0 > x by {
            assert((a + b)[a.len() + j] == b[j]);
        }
    }
}

/// Keys below a bound stay below it across concatenation, and likewise for
/// the other bounds.
pub proof fn lemma_bounds_concat<T>(a: Seq<(u64, T)>, b: Seq<(u64, T)>, x: u64)
    ensures
        keys_below(a, x) && keys_below(b, x) ==> keys_below(a + b, x),
        keys_at_least(a, x) && keys_at_least(b, x) ==> keys_at_least(a + b, x),
        keys_above(a, x) && keys_above(b, x) ==> keys_above(a + b, x),
{
    if keys_below(a, x) && keys_below(b, x) {
        assert forall|i: int| 0 <= i < (a + b).len() implies (#[trigger] (a + b)[i]).0 < x by {
            if i < a.len() {
                assert((a + b)[i] == a[i]);
            } else {
                assert((a + b)[i] == b[i - a.len()]);
            }
        }
    }
    if keys_at_least(a, x) && keys_at_least(b, x) {
        assert forall|i: int| 0 <= i < (a + b).len() implies (#[trigger] (a + b)[i]).0 >= x by {
            if i < a.len() {
                assert((a + b)[i] == a[i]);
            } else {
                assert((a + b)[i] == b[i - a.len()]);
            }
        }
    }
    if keys_above(a, x) && keys_above(b, x) {
        assert forall|i: int| 0 <= i < (a + b).len() implies (#[trigger] (a + b)[i]).0 > x by {
            if i < a.len() {
                assert((a + b)[i] == a[i]);
            } else {
                assert((a + b)[i] == b[i - a.len()]);
            }
        }
    }
}

/// Two sorted runs separated by a bound concatenate to a sorted run.
pub proof fn lemma_sorted_concat<T>(a: Seq<(u64, T)>, b: Seq<(u64, T)>, bound: u64)
    requires
        sorted_keys(a),
        sorted_keys(b),
        keys_below(a, bound),
        keys_at_least(b, bound),
    ensures
        sorted_keys(a + b),
{
    assert forall|i: int, j: int| 0 <= i < j < (a + b).len() implies (a + b)[i].0 < (a + b)[j].0 by {
        if j < a.len() {
            assert((a + b)[i] == a[i] && (a + b)[j] == a[j]);
        } else if i >= a.len() {
            assert((a + b)[i] == b[i - a.len()] && (a + b)[j] == b[j - a.len()]);
        } else {
            assert((a + b)[i] == a[i] && (a + b)[j] == b[j - a.len()]);
        }
    }
}

/// In a well-formed internal node, every pair left of child `i` has its key
/// below `keys[i-1]`.
pub proof fn lemma_children_below<T>(keys: Seq<u64>, children: Seq<Node<T>>, m: int, i: int)
    requires
        internal_ok(keys, children, m),
        1 <= i <= keys.len(),
    ensures
        keys_below(Node::entries_of(children.take(i)), keys[i - 1]),
    decreases i,
{
    if i == 1 {
        assert(children.take(1) =~= seq![children[0]]);
        lemma_entries_of_unit(children[0]);
    } else {
        lemma_children_below(keys, children, m, i - 1);
        lemma_entries_of_take_snoc(children, i);
        assert(keys[i - 2] < keys[i - 1]);
        assert(keys_below(Node::entries_of(children.take(i - 1)), keys[i - 1]));
        assert(keys_below(children[i - 1].entries(), keys[i - 1]));
        lemma_bounds_concat(
            Node::entries_of(children.take(i - 1)),
            children[i - 1].entries(),
            keys[i - 1],
        );
    }
}

/// In a well-formed internal node, every pair from child `i` rightward has
/// its key at least `keys[i-1]`.
pub proof fn lemma_children_at_least<T>(keys: Seq<u64>, children: Seq<Node<T>>, m: int, i: int)
    requires
        internal_ok(keys, children, m),
        1 <= i <= keys.len(),
    ensures
        keys_at_least(Node::entries_of(children.skip(i)), keys[i - 1]),
    decreases children.len() - i,
{
    if i == keys.len() {
        assert(children.skip(i) =~= seq![children[i]]);
        lemma_entries_of_unit(children[i]);
        assert(keys_at_least(children[i].entries(), keys[i - 1]));
    } else {
        lemma_children_at_least(keys, children, m, i + 1);
        assert(children.skip(i)[0] == children[i]);
        assert(children.skip(i).drop_first() =~= children.skip(i + 1));
        assert(Node::entries_of(children.skip(i)) == children[i].entries() + Node::entries_of(
            children.skip(i + 1),
        ));
        assert(keys[i - 1] <= keys[i]);
        assert(keys_at_least(children[i].entries(), keys[i - 1]));
        assert(keys_at_least(Node::entries_of(children.skip(i + 1)), keys[i - 1]));
        lemma_bounds_concat(
            children[i].entries(),
            Node::entries_of(children.skip(i + 1)),
            keys[i - 1],
        );
    }
}

/// A well-formed subtree's entries are strictly sorted by key.
pub proof fn lemma_ok_sorted<T>(node: Node<T>, m: int)
    requires
        node.ok(m),
    ensures
        sorted_keys(node.entries()),
    decreases node, 0nat,
{
    match node {
        Node::Leaf(_) => {},
        Node::Internal(inner) => {
            lemma_children_sorted(inner.keys@, inner.children@, m, inner.children@.len() as int);
            assert(inner.children@.take(inner.children@.len() as int) =~= inner.children@);
        },
    }
}

/// The entries of the first `i` children of a well-formed internal node are
/// sorted.
pub proof fn lemma_children_sorted<T>(keys: Seq<u64>, children: Seq<Node<T>>, m: int, i: int)
    requires
        internal_ok(keys, children, m),
        0 <= i <= children.len(),
    ensures
        sorted_keys(Node::entries_of(children.take(i))),
    decreases children, i,
{
    if i == 0 {
        assert(children.take(0) =~= Seq::<Node<T>>::empty());
    } else {
        lemma_children_sorted(keys, children, m, i - 1);
        lemma_ok_sorted(children[i - 1], m);
        lemma_entries_of_take_snoc(children, i);
        if i == 1 {
            assert(children.take(0) =~= Seq::<Node<T>>::empty());
            assert(Node::entries_of(children.take(0)) + children[0].entries() =~= children[
                0
            ].entries());
        } else {
            lemma_children_below(keys, children, m, i - 1);
            assert(keys_at_least(children[i - 1].entries(), keys[i - 2]));
            lemma_sorted_concat(
                Node::entries_of(children.take(i - 1)),
                children[i - 1].entries(),
                keys[i - 2],
            );
        }
    }
}

/// A subtree that meets its lower size bound holds at least one pair.
pub proof fn lemma_ok_nonempty<T>(node: Node<T>, m: int)
    requires
        node.ok(m),
        node.sized(m),
        m >= 3,
    ensures
        node.entries().len() >= 1,
    decreases node,
{
    match node {
        Node::Leaf(_) => {},
        Node::Internal(inner) => {
            let ch = inner.children@;
            assert(ch[0].ok(m) && ch[0].sized(m));
            lemma_ok_nonempty(ch[0], m);
            assert(Node::entries_of(ch) == ch[0].entries() + Node::entries_of(ch.drop_first()));
        },
    }
}

/// Routing: when the branch index `i` separates keys at most `key` from keys
/// above it, lookup, insertion and removal on the whole child sequence reduce
/// to child `i`.
pub proof fn lemma_route<T>(keys: Seq<u64>, children: Seq<Node<T>>, m: int, i: int, key: u64, v: T)
    requires
        internal_ok(keys, children, m),
        0 <= i <= keys.len(),
        forall|j: int| 0 <= j < i ==> keys[j] <= key,
        forall|j: int| i <= j < keys.len() ==> keys[j] > key,
    ensures
        ({
            let pre = Node::entries_of(children.take(i));
            let mid = children[i].entries();
            let suf = Node::entries_of(children.skip(i + 1));
            &&& Node::entries_of(children) == pre + mid + suf
            &&& keys_below(pre, key)
            &&& keys_above(suf, key)
            &&& find(Node::entries_of(children), key) == find(mid, key)
            &&& kv_insert(Node::entries_of(children), key, v) == pre + kv_insert(mid, key, v)
                + suf
            &&& kv_remove(Node::entries_of(children), key) == pre + kv_remove(mid, key) + suf
        }),
{
    let pre = Node::entries_of(children.take(i));
    let mid = children[i].entries();
    let suf = Node::entries_of(children.skip(i + 1));
    lemma_entries_of_at(children, i);
    if i > 0 {
        lemma_children_below(keys, children, m, i);
        assert(keys_below(pre, key)) by {
            assert(forall|j: int| 0 <= j < pre.len() ==> (#[trigger] pre[j]).0 < keys[i - 1]
                <= key);
        }
    } else {
        assert(children.take(0) =~= Seq::<Node<T>>::empty());
    }
    if i < keys.len() {
        lemma_children_at_least(keys, children, m, i + 1);
        assert(keys_above(suf, key)) by {
            assert(forall|j: int| 0 <= j < suf.len() ==> (#[trigger] suf[j]).0 >= keys[i] > key);
        }
    } else {
        assert(children.skip(i + 1) =~= Seq::<Node<T>>::empty());
    }
    // Lookup reduces to the middle part.
    lemma_find_concat(pre + mid, suf, key);
    lemma_find_concat(pre, mid, key);
    lemma_find_props(pre, key);
    lemma_find_props(suf, key);
    if find(pre, key) is Some {
        assert(has_key(pre, key));
        let j = choose|j: int| 0 <= j < pre.len() && (#[trigger] pre[j]).0 == key;
        assert(false);
    }
    if find(suf, key) is Some {
        assert(has_key(suf, key));
        let j = choose|j: int| 0 <= j < suf.len() && (#[trigger] suf[j]).0 == key;
        assert(false);
    }
    // Insertion lands in the middle part.
    lemma_kv_insert_concat_right(pre + mid, suf, key, v);
    lemma_kv_insert_concat_left(pre, mid, key, v);
    // Removal touches at most the middle part.
    lemma_kv_remove_concat(pre + mid, suf, key);
    lemma_kv_remove_concat(pre, mid, key);
    lemma_kv_remove_props(suf, key);
    if has_key(suf, key) {
        let j = choose|j: int| 0 <= j < suf.len() && (#[trigger] suf[j]).0 == key;
        assert(false);
    }
    if has_key(pre, key) {
        let j = choose|j: int| 0 <= j < pre.len() && (#[trigger] pre[j]).0 == key;
        assert(false);
    }
    lemma_kv_remove_props(pre + mid, key);
    if !has_key(pre + mid, key) {
        assert(kv_remove(pre + mid, key) == pre + mid);
        assert(kv_remove(mid, key) =~= mid) by {
            lemma_kv_remove_props(mid, key);
            if has_key(mid, key) {
                let j = choose|j: int| 0 <= j < mid.len() && (#[trigger] mid[j]).0 == key;
                assert((pre + mid)[pre.len() + j] == mid[j]);
                assert(false);
            }
        }
    }
}

/// Replacing one child with a fit substitute keeps an internal node sound.
pub proof fn lemma_internal_update<T>(
    keys: Seq<u64>,
    children: Seq<Node<T>>,
    m: int,
    i: int,
    c: Node<T>,
)
    requires
        internal_ok(keys, children, m),
        0 <= i < children.len(),
        c.ok(m),
        c.sized(m),
        c.height() == children[i].height(),
        i > 0 ==> keys_at_least(c.entries(), keys[i - 1]),
        i < keys.len() ==> keys_below(c.entries(), keys[i]),
    ensures
        internal_ok(keys, children.update(i, c), m),
{
    let ch = children.update(i, c);
    assert forall|j: int| 0 <= j < ch.len() implies (#[trigger] ch[j]).ok(m) by {
        if j != i {
            assert(ch[j] == children[j]);
        }
    }
    assert forall|j: int| 0 <= j < ch.len() implies (#[trigger] ch[j]).sized(m) by {
        if j != i {
            assert(ch[j] == children[j]);
        }
    }
    assert forall|j: int| 0 <= j < ch.len() implies (#[trigger] ch[j]).height()
        == ch[0].height() by {
        if j != i {
            assert(ch[j] == children[j]);
        }
        assert(ch[0].height() == children[0].height());
    }
    assert forall|j: int| 0 <= j < keys.len() implies keys_below(
        (#[trigger] ch[j]).entries(),
        keys[j],
    ) by {
        if j != i {
            assert(ch[j] == children[j]);
        }
    }
    assert forall|j: int| 0 <= j < keys.len() implies keys_at_least(
        ch[j + 1].entries(),
        #[trigger] keys[j],
    ) by {
        if j + 1 != i {
            assert(ch[j + 1] == children[j + 1]);
        }
    }
}

/// Installing a split child — left half, promoted separator, right half —
/// keeps an internal node sound apart from the upper size bound.
/// Key order is kept when a separator strictly between its neighbours is
/// spliced in.
pub proof fn lemma_keys_insert_sorted(keys: Seq<u64>, i: int, sep: u64)
    requires
        sorted_u64s(keys),
        0 <= i <= keys.len(),
        i > 0 ==> keys[i - 1] < sep,
        i < keys.len() ==> sep < keys[i],
    ensures
        sorted_u64s(keys.insert(i, sep)),
{
    let ks = keys.insert(i, sep);
    assert forall|p: int, q: int| 0 <= p < q < ks.len() implies ks[p] < ks[q] by {
        if p < i && q < i {
            assert(ks[p] == keys[p] && ks[q] == keys[q]);
        } else if p < i && q == i {
            assert(ks[p] == keys[p] && ks[q] == sep);
            assert(keys[p] <= keys[i - 1]);
        } else if p < i && q > i {
            assert(ks[p] == keys[p] && ks[q] == keys[q - 1]);
        } else if p == i && q > i {
            assert(ks[p] == sep && ks[q] == keys[q - 1]);
            assert(keys[i] <= keys[q - 1]);
        } else {
            assert(ks[p] == keys[p - 1] && ks[q] == keys[q - 1]);
        }
    }
}

/// Installing a split child — left half, promoted separator, right half —
/// keeps an internal node sound apart from the upper size bound.
#[verifier::rlimit(100)]
pub proof fn lemma_internal_insert_split<T>(
    keys: Seq<u64>,
    children: Seq<Node<T>>,
    m: int,
    i: int,
    left: Node<T>,
    sep: u64,
    right: Node<T>,
)
    requires
        internal_ok(keys, children, m),
        0 <= i <= keys.len(),
        left.ok(m),
        right.ok(m),
        left.sized(m),
        right.sized(m),
        left.height() == children[i].height(),
        right.height() == children[i].height(),
        keys_below(left.entries(), sep),
        keys_at_least(right.entries(), sep),
        left.entries().len() >= 1,
        right.entries().len() >= 1,
        i > 0 ==> keys_at_least(left.entries(), keys[i - 1]),
        i < keys.len() ==> keys_below(right.entries(), keys[i]),
    ensures
        internal_ok(keys.insert(i, sep), children.update(i, left).insert(i + 1, right), m),
{
    let ks = keys.insert(i, sep);
    let ch = children.update(i, left).insert(i + 1, right);
    assert(left.entries()[0].0 < sep);
    assert(right.entries()[0].0 >= sep);
    if i > 0 {
        assert(left.entries()[0].0 >= keys[i - 1]);
        assert(sep > keys[i - 1]);
    }
    if i < keys.len() {
        assert(right.entries()[0].0 < keys[i]);
        assert(sep < keys[i]);
    }
    assert(ch.len() == ks.len() + 1);
    lemma_keys_insert_sorted(keys, i, sep);
    assert forall|j: int| 0 <= j < ch.len() implies (#[trigger] ch[j]).ok(m)
        && (#[trigger] ch[j]).sized(m) && (#[trigger] ch[j]).height() == ch[0].height() by {
        if j < i {
            assert(ch[j] == children[j]);
        } else if j == i {
            assert(ch[j] == left);
        } else if j == i + 1 {
            assert(ch[j] == right);
        } else {
            assert(ch[j] == children[j - 1]);
        }
        if i == 0 {
            assert(ch[0] == left);
        } else {
            assert(ch[0] == children[0]);
        }
    }
    assert forall|j: int| 0 <= j < ks.len() implies keys_below(
        (#[trigger] ch[j]).entries(),
        ks[j],
    ) by {
        if j < i {
            assert(ch[j] == children[j] && ks[j] == keys[j]);
        } else if j == i {
            assert(ch[j] == left && ks[j] == sep);
        } else if j == i + 1 {
            assert(ch[j] == right && ks[j] == keys[j - 1]);
        } else {
            assert(ch[j] == children[j - 1] && ks[j] == keys[j - 1]);
        }
    }
    assert forall|j: int| 0 <= j < ks.len() implies keys_at_least(
        ch[j + 1].entries(),
        #[trigger] ks[j],
    ) by {
        if j + 1 < i {
            assert(ch[j + 1] == children[j + 1] && ks[j] == keys[j]);
        } else if j + 1 == i {
            assert(ch[j + 1] == left && ks[j] == keys[j]);
            assert(keys_at_least(left.entries(), keys[i - 1]));
        } else if j == i {
            assert(ch[j + 1] == right && ks[j] == sep);
        } else {
            assert(ch[j + 1] == children[j] && ks[j] == keys[j - 1]);
            assert(keys_at_least(children[j].entries(), keys[j - 1]));
        }
    }
}

/// The lower size bound that applies to a node of this kind.
pub open spec fn min_keys_of<T>(node: Node<T>, m: int) -> int {
    match node {
        Node::Leaf(_) => min_leaf_keys(m),
        Node::Internal(_) => min_internal_keys(m),
    }
}

/// [`internal_ok`] with the lower size bound waived for the child at `u`:
/// the state of a node whose child just lost a pair and awaits rebalancing.
#[verifier::opaque]
pub open spec fn internal_ok_except<T>(
    keys: Seq<u64>,
    children: Seq<Node<T>>,
    m: int,
    u: int,
) -> bool
    decreases children,
{
    &&& children.len() == keys.len() + 1
    &&& sorted_u64s(keys)
    &&& forall|i: int| 0 <= i < children.len() ==> (#[trigger] children[i]).ok(m)
    &&& forall|i: int| 0 <= i < children.len() && i != u ==> (#[trigger] children[i]).sized(m)
    &&& forall|i: int|
        0 <= i < children.len() ==> (#[trigger] children[i]).height() == children[0].height()
    &&& forall|i: int|
        0 <= i < keys.len() ==> keys_below((#[trigger] children[i]).entries(), keys[i])
    &&& forall|i: int|
        0 <= i < keys.len() ==> keys_at_least(children[i + 1].entries(), #[trigger] keys[i])
}

/// One child of an almost-sound internal node is itself sound.
pub proof fn lemma_except_child_ok<T>(
    keys: Seq<u64>,
    children: Seq<Node<T>>,
    m: int,
    u: int,
    j: int,
)
    requires
        internal_ok_except(keys, children, m, u),
        0 <= j < children.len(),
    ensures
        children[j].ok(m),
        children.len() == keys.len() + 1,
{
    reveal(internal_ok_except);
}

/// A sound internal node's separator keys sit strictly above any lower
/// bound on its entries.
pub proof fn lemma_internal_keys_above<T>(keys: Seq<u64>, children: Seq<Node<T>>, m: int, lo: u64)
    requires
        internal_ok(keys, children, m),
        m >= 3,
        keys_at_least(Node::entries_of(children), lo),
    ensures
        forall|j: int| 0 <= j < keys.len() ==> #[trigger] keys[j] > lo,
{
    assert forall|j: int| 0 <= j < keys.len() implies #[trigger] keys[j] > lo by {
        lemma_entries_of_at(children, j);
        lemma_ok_nonempty(children[j], m);
        let all = Node::entries_of(children);
        let pre = Node::entries_of(children.take(j));
        let e1 = children[j].entries()[0];
        assert(all[pre.len() as int] == e1);
        assert(e1.0 >= lo && e1.0 < keys[j]);
    }
}

/// A sound internal node's separator keys sit strictly below any strict
/// upper bound on its entries.
pub proof fn lemma_internal_keys_below<T>(keys: Seq<u64>, children: Seq<Node<T>>, m: int, hi: u64)
    requires
        internal_ok(keys, children, m),
        m >= 3,
        keys_below(Node::entries_of(children), hi),
    ensures
        forall|j: int| 0 <= j < keys.len() ==> #[trigger] keys[j] < hi,
{
    assert forall|j: int| 0 <= j < keys.len() implies #[trigger] keys[j] < hi by {
        lemma_entries_of_at(children, j + 1);
        lemma_ok_nonempty(children[j + 1], m);
        let all = Node::entries_of(children);
        let pre2 = Node::entries_of(children.take(j + 1));
        let e2 = children[j + 1].entries()[0];
        assert(all[pre2.len() as int] == e2);
        assert(e2.0 < hi && e2.0 >= keys[j]);
    }
}

/// Entries around two adjacent children, before and after replacing them.
pub proof fn lemma_entries_update_pair<T>(ch: Seq<Node<T>>, i: int, a: Node<T>, b: Node<T>)
    requires
        1 <= i < ch.len(),
    ensures
        Node::entries_of(ch) == Node::entries_of(ch.take(i - 1)) + (ch[i - 1].entries() + ch[
            i
        ].entries()) + Node::entries_of(ch.skip(i + 1)),
        Node::entries_of(ch.update(i - 1, a).update(i, b)) == Node::entries_of(ch.take(i - 1)) + (
        a.entries() + b.entries()) + Node::entries_of(ch.skip(i + 1)),
        a.height() == ch[i - 1].height() ==> Node::height_of(ch.update(i - 1, a).update(i, b))
            == Node::height_of(ch),
{
    let ch9 = ch.update(i - 1, a).update(i, b);
    let pre = Node::entries_of(ch.take(i - 1));
    let suf = Node::entries_of(ch.skip(i + 1));
    lemma_entries_of_at(ch, i - 1);
    assert(Node::entries_of(ch.skip(i)) == ch[i].entries() + Node::entries_of(ch.skip(i + 1)))
        by {
        assert(ch.skip(i)[0] == ch[i]);
        assert(ch.skip(i).drop_first() =~= ch.skip(i + 1));
    }
    assert(pre + ch[i - 1].entries() + (ch[i].entries() + suf) =~= pre + (ch[i - 1].entries()
        + ch[i].entries()) + suf);
    lemma_entries_of_at(ch9, i - 1);
    assert(Node::entries_of(ch9.skip(i)) == ch9[i].entries() + Node::entries_of(ch9.skip(i + 1)))
        by {
        assert(ch9.skip(i)[0] == ch9[i]);
        assert(ch9.skip(i).drop_first() =~= ch9.skip(i + 1));
    }
    assert(ch9.take(i - 1) =~= ch.take(i - 1));
    assert(ch9.skip(i + 1) =~= ch.skip(i + 1));
    assert(ch9[i - 1] == a && ch9[i] == b);
    assert(pre + a.entries() + (b.entries() + suf) =~= pre + (a.entries() + b.entries()) + suf);
    if a.height() == ch[i - 1].height() {
        assert(Node::height_of(ch9) == Node::height_of(ch)) by {
            if i == 1 {
                assert(ch9[0] == a);
            } else {
                assert(ch9[0] == ch[0]);
            }
        }
    }
}

/// Replacing two adjacent children and the separator between them, without
/// changing their combined entries, restores soundness after a borrow.
#[verifier::rlimit(100)]
pub proof fn lemma_internal_replace_pair<T>(
    keys: Seq<u64>,
    children: Seq<Node<T>>,
    m: int,
    i: int,
    u: int,
    a: Node<T>,
    b: Node<T>,
    sep: u64,
)
    requires
        internal_ok_except(keys, children, m, u),
        i - 1 <= u <= i,
        1 <= i < children.len(),
        a.ok(m),
        b.ok(m),
        a.sized(m),
        b.sized(m),
        a.height() == children[i - 1].height(),
        b.height() == children[i].height(),
        a.entries() + b.entries() == children[i - 1].entries() + children[i].entries(),
        keys_below(a.entries(), sep),
        keys_at_least(b.entries(), sep),
        a.entries().len() >= 1,
        b.entries().len() >= 1,
        i >= 2 ==> keys_at_least(a.entries(), keys[i - 2]),
        i < keys.len() ==> keys_below(b.entries(), keys[i]),
    ensures
        internal_ok(keys.update(i - 1, sep), children.update(i - 1, a).update(i, b), m),
        Node::entries_of(children.update(i - 1, a).update(i, b)) == Node::entries_of(children),
        Node::height_of(children.update(i - 1, a).update(i, b)) == Node::height_of(children),
{
    reveal(internal_ok_except);
    let ks = keys.update(i - 1, sep);
    let ch = children.update(i - 1, a).update(i, b);
    assert(a.entries()[0].0 < sep);
    assert(b.entries()[0].0 >= sep);
    if i >= 2 {
        assert(a.entries()[0].0 >= keys[i - 2]);
        assert(sep > keys[i - 2]);
    }
    if i < keys.len() {
        assert(b.entries()[0].0 < keys[i]);
        assert(sep < keys[i]);
    }
    assert(sorted_u64s(ks)) by {
        assert forall|p: int, q: int| 0 <= p < q < ks.len() implies ks[p] < ks[q] by {
            if p != i - 1 && q != i - 1 {
                assert(ks[p] == keys[p] && ks[q] == keys[q]);
            } else if q == i - 1 {
                assert(ks[p] == keys[p]);
                assert(keys[p] <= keys[i - 2]);
            } else {
                assert(ks[q] == keys[q]);
                assert(keys[i] <= keys[q]);
            }
        }
    }
    assert forall|j: int| 0 <= j < ch.len() implies (#[trigger] ch[j]).ok(m) && (
    #[trigger] ch[j]).sized(m) && (#[trigger] ch[j]).height() == ch[0].height() by {
        if j == i - 1 {
            assert(ch[j] == a);
        } else if j == i {
            assert(ch[j] == b);
        } else {
            assert(ch[j] == children[j]);
        }
        if i == 1 {
            assert(ch[0] == a);
        } else {
            assert(ch[0] == children[0]);
        }
    }
    assert forall|j: int| 0 <= j < ks.len() implies keys_below(
        (#[trigger] ch[j]).entries(),
        ks[j],
    ) by {
        if j == i - 1 {
            assert(ch[j] == a && ks[j] == sep);
        } else if j == i {
            assert(ch[j] == b && ks[j] == keys[j]);
        } else {
            assert(ch[j] == children[j] && ks[j] == keys[j]);
        }
    }
    assert forall|j: int| 0 <= j < ks.len() implies keys_at_least(
        ch[j + 1].entries(),
        #[trigger] ks[j],
    ) by {
        if j == i - 1 {
            assert(ch[j + 1] == b && ks[j] == sep);
        } else if j == i {
            assert(ch[j + 1] == children[j + 1] && ks[j] == keys[j]);
            assert(keys_at_least(children[j + 1].entries(), keys[j]));
        } else if j == i - 2 {
            assert(ch[j + 1] == a && ks[j] == keys[j]);
            assert(keys_at_least(a.entries(), keys[i - 2]));
        } else {
            assert(ch[j + 1] == children[j + 1] && ks[j] == keys[j]);
            assert(keys_at_least(children[j + 1].entries(), keys[j]));
        }
    }
    // Entries are preserved: only the boundary between the two children
    // moved.
    lemma_entries_update_pair(children, i, a, b);
}

/// Merging two adjacent children into one node carrying their combined
/// entries, dropping the separator between them, restores soundness.
#[verifier::rlimit(100)]
pub proof fn lemma_internal_merge<T>(
    keys: Seq<u64>,
    children: Seq<Node<T>>,
    m: int,
    i: int,
    u: int,
    merged: Node<T>,
)
    requires
        internal_ok_except(keys, children, m, u),
        i - 1 <= u <= i,
        1 <= i < children.len(),
        merged.ok(m),
        merged.sized(m),
        merged.height() == children[i].height(),
        merged.entries() == children[i - 1].entries() + children[i].entries(),
    ensures
        internal_ok(keys.remove(i - 1), children.update(i - 1, merged).remove(i), m),
        Node::entries_of(children.update(i - 1, merged).remove(i)) == Node::entries_of(children),
        Node::height_of(children.update(i - 1, merged).remove(i)) == Node::height_of(children),
{
    reveal(internal_ok_except);
    let ks = keys.remove(i - 1);
    let ch = children.update(i - 1, merged).remove(i);
    assert(ch.len() == ks.len() + 1);
    assert(sorted_u64s(ks)) by {
        assert forall|p: int, q: int| 0 <= p < q < ks.len() implies ks[p] < ks[q] by {
            let p2: int = if p < i - 1 { p } else { p + 1 };
            let q2: int = if q < i - 1 { q } else { q + 1 };
            assert(ks[p] == keys[p2] && ks[q] == keys[q2]);
        }
    }
    assert forall|j: int| 0 <= j < ch.len() implies (#[trigger] ch[j]).ok(m) && (
    #[trigger] ch[j]).sized(m) && (#[trigger] ch[j]).height() == ch[0].height() by {
        if j == i - 1 {
            assert(ch[j] == merged);
        } else if j < i - 1 {
            assert(ch[j] == children[j]);
        } else {
            assert(ch[j] == children[j + 1]);
        }
        if i == 1 {
            assert(ch[0] == merged);
        } else {
            assert(ch[0] == children[0]);
        }
    }
    assert forall|j: int| 0 <= j < ks.len() implies keys_below(
        (#[trigger] ch[j]).entries(),
        ks[j],
    ) by {
        if j < i - 1 {
            assert(ch[j] == children[j] && ks[j] == keys[j]);
        } else if j == i - 1 {
            assert(ch[j] == merged && ks[j] == keys[i]);
            assert(keys_below(children[i - 1].entries(), keys[i - 1]));
            assert(keys_below(children[i].entries(), keys[i]));
            assert(keys[i - 1] < keys[i]);
            assert forall|t: int| 0 <= t < merged.entries().len() implies (
            #[trigger] merged.entries()[t]).0 < keys[i] by {
                let el = children[i - 1].entries();
                let er = children[i].entries();
                if t < el.len() {
                    assert(merged.entries()[t] == el[t]);
                } else {
                    assert(merged.entries()[t] == er[t - el.len()]);
                }
            }
        } else {
            assert(ch[j] == children[j + 1] && ks[j] == keys[j + 1]);
        }
    }
    assert forall|j: int| 0 <= j < ks.len() implies keys_at_least(
        ch[j + 1].entries(),
        #[trigger] ks[j],
    ) by {
        if j + 1 < i - 1 {
            assert(ch[j + 1] == children[j + 1] && ks[j] == keys[j]);
            assert(keys_at_least(children[j + 1].entries(), keys[j]));
        } else if j + 1 == i - 1 {
            assert(ch[j + 1] == merged && ks[j] == keys[j]);
            assert(keys_at_least(children[i - 1].entries(), keys[i - 2]));
            assert(keys_at_least(children[i].entries(), keys[i - 1]));
            assert(keys[i - 2] < keys[i - 1]);
            assert forall|t: int| 0 <= t < merged.entries().len() implies (
            #[trigger] merged.entries()[t]).0 >= keys[i - 2] by {
                let el = children[i - 1].entries();
                let er = children[i].entries();
                if t < el.len() {
                    assert(merged.entries()[t] == el[t]);
                } else {
                    assert(merged.entries()[t] == er[t - el.len()]);
                }
            }
        } else {
            assert(ch[j + 1] == children[j + 2] && ks[j] == keys[j + 1]);
            assert(keys_at_least(children[j + 2].entries(), keys[j + 1]));
        }
    }
    // Entries are preserved.
    lemma_entries_update_pair(children, i, merged, merged);
    lemma_entries_of_at(ch, i - 1);
    assert(ch.take(i - 1) =~= children.take(i - 1));
    assert(ch.skip(i) =~= children.skip(i + 1));
    assert(ch[i - 1] == merged);
    let pre = Node::entries_of(children.take(i - 1));
    let suf = Node::entries_of(children.skip(i + 1));
    assert(pre + merged.entries() + suf =~= pre + (children[i - 1].entries()
        + children[i].entries()) + suf);
    assert(Node::height_of(ch) == Node::height_of(children)) by {
        if i == 1 {
            assert(ch[0] == merged);
        } else {
            assert(ch[0] == children[0]);
        }
    }
}

/// Replacing one child with a fit substitute whose lower size bound is
/// waived leaves an internal node sound except at that child.
pub proof fn lemma_internal_update_except<T>(
    keys: Seq<u64>,
    children: Seq<Node<T>>,
    m: int,
    i: int,
    c: Node<T>,
)
    requires
        internal_ok(keys, children, m),
        0 <= i < children.len(),
        c.ok(m),
        c.height() == children[i].height(),
        i > 0 ==> keys_at_least(c.entries(), keys[i - 1]),
        i < keys.len() ==> keys_below(c.entries(), keys[i]),
    ensures
        internal_ok_except(keys, children.update(i, c), m, i),
{
    reveal(internal_ok_except);
    let ch = children.update(i, c);
    assert forall|j: int| 0 <= j < ch.len() implies (#[trigger] ch[j]).ok(m) by {
        if j != i {
            assert(ch[j] == children[j]);
        }
    }
    assert forall|j: int| 0 <= j < ch.len() && j != i implies (#[trigger] ch[j]).sized(m) by {
        assert(ch[j] == children[j]);
    }
    assert forall|j: int| 0 <= j < ch.len() implies (#[trigger] ch[j]).height()
        == ch[0].height() by {
        if j != i {
            assert(ch[j] == children[j]);
        }
        assert(ch[0].height() == children[0].height());
    }
    assert forall|j: int| 0 <= j < keys.len() implies keys_below(
        (#[trigger] ch[j]).entries(),
        keys[j],
    ) by {
        if j != i {
            assert(ch[j] == children[j]);
        }
    }
    assert forall|j: int| 0 <= j < keys.len() implies keys_at_least(
        ch[j + 1].entries(),
        #[trigger] keys[j],
    ) by {
        if j + 1 != i {
            assert(ch[j + 1] == children[j + 1]);
        }
    }
}

/// Dropping an internal node's last key and child keeps it sound; the
/// dropped child's entries are the tail of the node's entries.
pub proof fn lemma_internal_drop_last<T>(keys: Seq<u64>, children: Seq<Node<T>>, m: int)
    requires
        internal_ok(keys, children, m),
        keys.len() >= 2,
        m >= 3,
    ensures
        ({
            let lk = keys.subrange(0, keys.len() - 1);
            let lc = children.subrange(0, children.len() - 1);
            let last = children[children.len() - 1];
            &&& internal_ok(lk, lc, m)
            &&& Node::entries_of(lc) + last.entries() == Node::entries_of(children)
            &&& keys_below(Node::entries_of(lc), keys[keys.len() - 1])
            &&& keys_at_least(last.entries(), keys[keys.len() - 1])
            &&& Node::entries_of(lc).len() >= 1
            &&& Node::height_of(lc) == Node::height_of(children)
        }),
{
    let n = keys.len() as int;
    let lk = keys.subrange(0, n - 1);
    let lc = children.subrange(0, n);
    assert(children.len() - 1 == n);
    assert forall|j: int| 0 <= j < lc.len() implies (#[trigger] lc[j]).ok(m) && (
    #[trigger] lc[j]).sized(m) && (#[trigger] lc[j]).height() == lc[0].height() by {
        assert(lc[j] == children[j] && lc[0] == children[0]);
    }
    assert forall|j: int| 0 <= j < lk.len() implies keys_below(
        (#[trigger] lc[j]).entries(),
        lk[j],
    ) by {
        assert(lc[j] == children[j] && lk[j] == keys[j]);
    }
    assert forall|j: int| 0 <= j < lk.len() implies keys_at_least(
        lc[j + 1].entries(),
        #[trigger] lk[j],
    ) by {
        assert(lc[j + 1] == children[j + 1] && lk[j] == keys[j]);
        assert(keys_at_least(children[j + 1].entries(), keys[j]));
    }
    assert(sorted_u64s(lk)) by {
        assert forall|p: int, q: int| 0 <= p < q < lk.len() implies lk[p] < lk[q] by {
            assert(lk[p] == keys[p] && lk[q] == keys[q]);
        }
    }
    lemma_entries_of_split(children, n);
    assert(children.take(n) =~= lc);
    assert(children.skip(n) =~= seq![children[n]]);
    lemma_entries_of_unit(children[n]);
    lemma_children_below(keys, children, m, n);
    lemma_children_at_least(keys, children, m, n);
    assert(children.skip(n) =~= seq![children[n]]);
    assert(keys_at_least(children[n].entries(), keys[n - 1])) by {
        assert(keys_at_least(children[n - 1 + 1].entries(), keys[n - 1]));
    }
    lemma_ok_nonempty(children[0], m);
    lemma_entries_of_at(lc, 0);
    assert(Node::entries_of(lc).len() >= lc[0].entries().len());
    assert(lc[0] == children[0]);
    assert(Node::height_of(lc) == children[0].height());
}

/// Dropping an internal node's first key and child keeps it sound; the
/// dropped child's entries are the head of the node's entries.
pub proof fn lemma_internal_drop_first<T>(keys: Seq<u64>, children: Seq<Node<T>>, m: int)
    requires
        internal_ok(keys, children, m),
        keys.len() >= 2,
        m >= 3,
    ensures
        ({
            let rk = keys.subrange(1, keys.len() as int);
            let rc = children.subrange(1, children.len() as int);
            let head = children[0];
            &&& internal_ok(rk, rc, m)
            &&& head.entries() + Node::entries_of(rc) == Node::entries_of(children)
            &&& keys_below(head.entries(), keys[0])
            &&& keys_at_least(Node::entries_of(rc), keys[0])
            &&& Node::entries_of(rc).len() >= 1
            &&& Node::height_of(rc) == Node::height_of(children)
        }),
{
    let n = keys.len() as int;
    let cn = children.len() as int;
    let rk = keys.subrange(1, n);
    let rc = children.subrange(1, cn);
    assert forall|j: int| 0 <= j < rc.len() implies (#[trigger] rc[j]).ok(m) && (
    #[trigger] rc[j]).sized(m) && (#[trigger] rc[j]).height() == rc[0].height() by {
        assert(rc[j] == children[j + 1] && rc[0] == children[1]);
    }
    assert forall|j: int| 0 <= j < rk.len() implies keys_below(
        (#[trigger] rc[j]).entries(),
        rk[j],
    ) by {
        assert(rc[j] == children[j + 1] && rk[j] == keys[j + 1]);
        assert(keys_below(children[j + 1].entries(), keys[j + 1]));
    }
    assert forall|j: int| 0 <= j < rk.len() implies keys_at_least(
        rc[j + 1].entries(),
        #[trigger] rk[j],
    ) by {
        assert(rc[j + 1] == children[j + 2] && rk[j] == keys[j + 1]);
        assert(keys_at_least(children[j + 2].entries(), keys[j + 1]));
    }
    assert(sorted_u64s(rk)) by {
        assert forall|p: int, q: int| 0 <= p < q < rk.len() implies rk[p] < rk[q] by {
            assert(rk[p] == keys[p + 1] && rk[q] == keys[q + 1]);
        }
    }
    lemma_entries_of_split(children, 1);
    assert(children.take(1) =~= seq![children[0]]);
    assert(children.skip(1) =~= rc);
    lemma_entries_of_unit(children[0]);
    lemma_children_at_least(keys, children, m, 1);
    lemma_ok_nonempty(children[1], m);
    lemma_entries_of_at(rc, 0);
    assert(Node::entries_of(rc).len() >= rc[0].entries().len());
    assert(rc[0] == children[1]);
    assert(Node::height_of(rc) == children[1].height());
}

/// Leaves are exactly the nodes of height zero in a uniform sibling row.
pub proof fn lemma_kind_from_height<T>(a: Node<T>, b: Node<T>)
    requires
        a.height() == b.height(),
    ensures
        a is Leaf <==> b is Leaf,
{
}

/// Rotating through a separator: an internal sibling pair where the left
/// node donates its last key and child to the right one, the parent
/// separator moving down and the donated key moving up.
#[verifier::rlimit(100)]
#[verifier::spinoff_prover]
pub proof fn lemma_rotate_from_left<T>(
    lk: Seq<u64>,
    lc: Seq<Node<T>>,
    ck: Seq<u64>,
    cc: Seq<Node<T>>,
    m: int,
    sep_old: u64,
)
    requires
        internal_ok(lk, lc, m),
        internal_ok(ck, cc, m),
        2 <= lk.len() <= m,
        ck.len() == min_internal_keys(m) - 1,
        m >= 3,
        keys_below(Node::entries_of(lc), sep_old),
        keys_at_least(Node::entries_of(cc), sep_old),
        Node::height_of(lc) == Node::height_of(cc),
    ensures
        ({
            let bc = lc[lc.len() - 1];
            let bk = lk[lk.len() - 1];
            let ak = lk.subrange(0, lk.len() - 1);
            let ac = lc.subrange(0, lc.len() - 1);
            let bks = seq![sep_old] + ck;
            let bcs = seq![bc] + cc;
            &&& internal_ok(ak, ac, m)
            &&& internal_ok(bks, bcs, m)
            &&& bks.len() == min_internal_keys(m) <= m
            &&& Node::entries_of(ac) + Node::entries_of(bcs) == Node::entries_of(lc)
                + Node::entries_of(cc)
            &&& keys_below(Node::entries_of(ac), bk)
            &&& keys_at_least(Node::entries_of(bcs), bk)
            &&& Node::entries_of(ac).len() >= 1
            &&& Node::entries_of(bcs).len() >= 1
            &&& Node::height_of(ac) == Node::height_of(lc)
            &&& Node::height_of(bcs) == Node::height_of(cc)
            &&& bk < sep_old
            &&& Node::entries_of(ac) + bc.entries() == Node::entries_of(lc)
            &&& Node::entries_of(bcs) == bc.entries() + Node::entries_of(cc)
        }),
{
    let bc = lc[lc.len() - 1];
    let bk = lk[lk.len() - 1];
    let ak = lk.subrange(0, lk.len() - 1);
    let ac = lc.subrange(0, lc.len() - 1);
    let bks = seq![sep_old] + ck;
    let bcs = seq![bc] + cc;
    lemma_internal_drop_last(lk, lc, m);
    lemma_internal_keys_below(lk, lc, m, sep_old);
    lemma_internal_keys_above(ck, cc, m, sep_old);
    assert(bk < sep_old);
    assert(min_internal_keys(m) >= 1);
    assert(Node::entries_of(bcs) == bc.entries() + Node::entries_of(cc)) by {
        assert(bcs[0] == bc);
        assert(bcs.drop_first() =~= cc);
    }
    assert(keys_below(bc.entries(), sep_old)) by {
        assert forall|t: int| 0 <= t < bc.entries().len() implies (#[trigger] bc.entries()[t]).0
            < sep_old by {
            let pre = Node::entries_of(ac);
            assert(Node::entries_of(lc)[pre.len() + t] == bc.entries()[t]);
        }
    }
    assert(internal_ok(bks, bcs, m)) by {
        assert(sorted_u64s(bks)) by {
            assert forall|p2: int, q2: int| 0 <= p2 < q2 < bks.len() implies bks[p2] < bks[q2] by {
                if p2 == 0 {
                    assert(bks[q2] == ck[q2 - 1]);
                    assert(ck[q2 - 1] > sep_old);
                } else {
                    assert(bks[p2] == ck[p2 - 1] && bks[q2] == ck[q2 - 1]);
                }
            }
        }
        assert(bc.height() == lc[0].height());
        assert forall|j: int| 0 <= j < bcs.len() implies (#[trigger] bcs[j]).ok(m) && (
        #[trigger] bcs[j]).sized(m) && (#[trigger] bcs[j]).height() == bcs[0].height() by {
            if j == 0 {
                assert(bcs[0] == bc);
            } else {
                assert(bcs[j] == cc[j - 1]);
                assert(cc[j - 1].height() == cc[0].height());
            }
            assert(bcs[0] == bc);
        }
        assert forall|j: int| 0 <= j < bks.len() implies keys_below(
            (#[trigger] bcs[j]).entries(),
            bks[j],
        ) by {
            if j == 0 {
                assert(bcs[0] == bc && bks[0] == sep_old);
            } else {
                assert(bcs[j] == cc[j - 1] && bks[j] == ck[j - 1]);
                assert(keys_below(cc[j - 1].entries(), ck[j - 1]));
            }
        }
        assert forall|j: int| 0 <= j < bks.len() implies keys_at_least(
            bcs[j + 1].entries(),
            #[trigger] bks[j],
        ) by {
            if j == 0 {
                assert(bcs[1] == cc[0] && bks[0] == sep_old);
                assert(keys_at_least(cc[0].entries(), sep_old)) by {
                    lemma_entries_of_at(cc, 0);
                    assert forall|t: int|
                        0 <= t < cc[0].entries().len() implies (#[trigger] cc[0].entries()[t]).0
                        >= sep_old by {
                        assert(cc.take(0) =~= Seq::<Node<T>>::empty());
                        assert(Node::entries_of(cc)[t] == cc[0].entries()[t]);
                    }
                }
            } else {
                assert(bcs[j + 1] == cc[j] && bks[j] == ck[j - 1]);
                assert(keys_at_least(cc[j - 1 + 1].entries(), ck[j - 1]));
            }
        }
    }
    assert(Node::entries_of(ac) + Node::entries_of(bcs) =~= Node::entries_of(lc)
        + Node::entries_of(cc)) by {
        assert(Node::entries_of(ac) + bc.entries() == Node::entries_of(lc));
        assert(Node::entries_of(ac) + (bc.entries() + Node::entries_of(cc)) =~= (
        Node::entries_of(ac) + bc.entries()) + Node::entries_of(cc));
    }
    assert(keys_at_least(Node::entries_of(bcs), bk)) by {
        let be = Node::entries_of(bcs);
        assert(keys_at_least(bc.entries(), bk));
        assert forall|t: int| 0 <= t < be.len() implies (#[trigger] be[t]).0 >= bk by {
            if t < bc.entries().len() {
                assert(be[t] == bc.entries()[t]);
            } else {
                assert(be[t] == Node::entries_of(cc)[t - bc.entries().len()]);
                assert(Node::entries_of(cc)[t - bc.entries().len()].0 >= sep_old > bk);
            }
        }
    }
    assert(Node::entries_of(bcs).len() >= 1) by {
        lemma_ok_nonempty(bc, m);
    }
    assert(Node::height_of(bcs) == Node::height_of(cc)) by {
        assert(bcs[0] == bc);
        assert(bc.height() == lc[0].height());
    }
}


impl<T> Internal<T> {
    /// Child `i` is one key short and its left sibling has spares: move the
    /// sibling's greatest key (leaf) or rotate through the separator
    /// (internal), then put the child back.
    fn borrow_left(
        &mut self,
        i: usize,
        child: Node<T>,
        order: usize,
        Ghost(ks): Ghost<Seq<u64>>,
        Ghost(ch2): Ghost<Seq<Node<T>>>,
    )
        requires
            old(self).keys@ == ks,
            old(self).children@ == ch2.remove(i as int),
            internal_ok_except(ks, ch2, order as int, i as int),
            ks.len() <= order as int,
            1 <= ks.len(),
            order >= 3,
            1 <= i as int,
            (i as int) < ch2.len(),
            ch2[i as int] == child,
            child.key_count() == min_keys_of(child, order as int) - 1,
            ch2[i as int - 1].key_count() > min_keys_of(ch2[i as int - 1], order as int),
        ensures
            internal_ok(final(self).keys@, final(self).children@, order as int),
            final(self).keys@.len() == ks.len(),
            Node::entries_of(final(self).children@) == Node::entries_of(ch2),
            Node::height_of(final(self).children@) == Node::height_of(ch2),
    {
        proof {
            reveal(internal_ok_except);
            assert(ch2[i as int - 1].height() == ch2[i as int].height()) by {
                assert(ch2[i as int - 1].height() == ch2[0].height());
                assert(ch2[i as int].height() == ch2[0].height());
            }
            lemma_kind_from_height(ch2[i as int - 1], ch2[i as int]);
        }
        let child_is_leaf = match &child {
            Node::Leaf(_) => true,
            Node::Internal(_) => false,
        };
        if child_is_leaf {
            self.borrow_left_leaf(i, child, order, Ghost(ks), Ghost(ch2));
        } else {
            self.borrow_left_internal(i, child, order, Ghost(ks), Ghost(ch2));
        }
    }

    /// The leaf flavour of [`Internal::borrow_left`].
    #[verifier::rlimit(100)]
    #[verifier::spinoff_prover]
    fn borrow_left_leaf(
        &mut self,
        i: usize,
        child: Node<T>,
        order: usize,
        Ghost(ks): Ghost<Seq<u64>>,
        Ghost(ch2): Ghost<Seq<Node<T>>>,
    )
        requires
            old(self).keys@ == ks,
            old(self).children@ == ch2.remove(i as int),
            internal_ok_except(ks, ch2, order as int, i as int),
            ks.len() <= order as int,
            1 <= ks.len(),
            order >= 3,
            1 <= i as int,
            (i as int) < ch2.len(),
            ch2[i as int] == child,
            child.key_count() == min_keys_of(child, order as int) - 1,
            ch2[i as int - 1].key_count() > min_keys_of(ch2[i as int - 1], order as int),
            child is Leaf,
            ch2[i as int - 1] is Leaf,
        ensures
            internal_ok(final(self).keys@, final(self).children@, order as int),
            final(self).keys@.len() == ks.len(),
            Node::entries_of(final(self).children@) == Node::entries_of(ch2),
            Node::height_of(final(self).children@) == Node::height_of(ch2),
    {
        let ghost m = order as int;
        let ghost lold = ch2[i as int - 1];
        let ghost cold = ch2[i as int];
        let mut child = child;
        let mut left = self.children.remove(i - 1);
        proof {
            lemma_except_child_ok(ks, ch2, m, i as int, i as int - 1);
            assert(left == lold) by {
                assert(ch2.remove(i as int)[i as int - 1] == ch2[i as int - 1]);
            }
        }
        let (mk, mv) = match &mut left {
            Node::Leaf(l) => {
                proof {
                    assert(min_leaf_keys(m) >= 2) by (nonlinear_arith)
                        requires
                            m >= 3,
                    ;
                }
                l.dirty = true;
                l.entries.pop().unwrap()
            },
            Node::Internal(_) => unreached(),
        };
        match &mut child {
            Node::Leaf(l) => {
                l.entries.insert(0, (mk, mv));
                l.dirty = true;
            },
            Node::Internal(_) => {},
        }
        self.keys.set(i - 1, mk);
        proof {
            assert(left->Leaf_0.entries@ =~= lold->Leaf_0.entries@.drop_last());
            assert(child->Leaf_0.entries@ =~= seq![(mk, mv)] + cold->Leaf_0.entries@);
            lemma_borrow_left_leaf_post(ks, ch2, m, i as int, left, child, mk, mv);
        }
        self.children.insert(i - 1, left);
        self.children.insert(i, child);
        proof {
            assert(self.keys@ =~= ks.update(i as int - 1, mk));
            assert(self.children@ =~= ch2.update(i as int - 1, left).update(i as int, child));
        }
    }

    /// The internal flavour of [`Internal::borrow_left`]: rotate through
    /// the parent separator, moving the sibling's last subtree across.
    #[verifier::rlimit(100)]
    #[verifier::spinoff_prover]
    fn borrow_left_internal(
        &mut self,
        i: usize,
        child: Node<T>,
        order: usize,
        Ghost(ks): Ghost<Seq<u64>>,
        Ghost(ch2): Ghost<Seq<Node<T>>>,
    )
        requires
            old(self).keys@ == ks,
            old(self).children@ == ch2.remove(i as int),
            internal_ok_except(ks, ch2, order as int, i as int),
            ks.len() <= order as int,
            1 <= ks.len(),
            order >= 3,
            1 <= i as int,
            (i as int) < ch2.len(),
            ch2[i as int] == child,
            child.key_count() == min_keys_of(child, order as int) - 1,
            ch2[i as int - 1].key_count() > min_keys_of(ch2[i as int - 1], order as int),
            child is Internal,
            ch2[i as int - 1] is Internal,
        ensures
            internal_ok(final(self).keys@, final(self).children@, order as int),
            final(self).keys@.len() == ks.len(),
            Node::entries_of(final(self).children@) == Node::entries_of(ch2),
            Node::height_of(final(self).children@) == Node::height_of(ch2),
    {
        let ghost m = order as int;
        let ghost lold = ch2[i as int - 1];
        let ghost cold = ch2[i as int];
        let mut child = child;
        let mut left = self.children.remove(i - 1);
        proof {
            lemma_except_child_ok(ks, ch2, m, i as int, i as int - 1);
            assert(left == lold) by {
                assert(ch2.remove(i as int)[i as int - 1] == ch2[i as int - 1]);
            }
        }
        let sep_old = self.keys[i - 1];
        let (bk, bc) = match &mut left {
            Node::Internal(nd) => {
                proof {
                    assert(lold->Internal_0.keys@.len() >= 2) by {
                        assert(min_internal_keys(m) >= 1);
                    }
                }
                nd.steal_last()
            },
            Node::Leaf(_) => unreached(),
        };
        match &mut child {
            Node::Internal(nd) => {
                nd.grow_front(sep_old, bc);
            },
            Node::Leaf(_) => {},
        }
        self.keys.set(i - 1, bk);
        proof {
            let lk = lold->Internal_0.keys@;
            let lc = lold->Internal_0.children@;
            assert(left->Internal_0.keys@ =~= lk.subrange(0, lk.len() - 1));
            assert(left->Internal_0.children@ =~= lc.subrange(0, lc.len() - 1));
            lemma_borrow_left_internal_post(ks, ch2, m, i as int, left, child, bk, sep_old);
        }
        self.children.insert(i - 1, left);
        self.children.insert(i, child);
        proof {
            assert(self.keys@ =~= ks.update(i as int - 1, bk));
            assert(self.children@ =~= ch2.update(i as int - 1, left).update(i as int, child));
        }
    }
}

/// Everything the leaf flavour of a borrow from the left has to show,
/// phrased over the two reshaped leaves.
#[verifier::rlimit(100)]
#[verifier::spinoff_prover]
pub proof fn lemma_borrow_left_leaf_post<T>(
    ks: Seq<u64>,
    ch2: Seq<Node<T>>,
    m: int,
    i: int,
    a: Node<T>,
    b: Node<T>,
    mk: u64,
    mv: T,
)
    requires
        internal_ok_except(ks, ch2, m, i),
        ks.len() <= m,
        1 <= ks.len(),
        m >= 3,
        1 <= i < ch2.len(),
        ch2[i] is Leaf,
        ch2[i - 1] is Leaf,
        ch2[i].key_count() == min_leaf_keys(m) - 1,
        ch2[i - 1].key_count() > min_leaf_keys(m),
        a is Leaf,
        b is Leaf,
        ch2[i - 1]->Leaf_0.entries@.len() >= 2,
        (mk, mv) == ch2[i - 1]->Leaf_0.entries@.last(),
        a->Leaf_0.entries@ == ch2[i - 1]->Leaf_0.entries@.drop_last(),
        b->Leaf_0.entries@ == seq![(mk, mv)] + ch2[i]->Leaf_0.entries@,
    ensures
        internal_ok(ks.update(i - 1, mk), ch2.update(i - 1, a).update(i, b), m),
        Node::entries_of(ch2.update(i - 1, a).update(i, b)) == Node::entries_of(ch2),
        Node::height_of(ch2.update(i - 1, a).update(i, b)) == Node::height_of(ch2),
{
    reveal(internal_ok_except);
    let lold = ch2[i - 1];
    let cold = ch2[i];
    let le = lold->Leaf_0.entries@;
    let ce = cold->Leaf_0.entries@;
    let p = le.last();
    assert(keys_below(le, ks[i - 1]));
    assert(keys_at_least(ce, ks[i - 1]));
    assert(sorted_keys(le) && sorted_keys(ce));
    assert(p.0 < ks[i - 1]);
    assert(a.ok(m)) by {
        assert forall|p2: int, q2: int|
            0 <= p2 < q2 < le.drop_last().len() implies le.drop_last()[p2].0 < le.drop_last()[
            q2].0 by {
            assert(le.drop_last()[p2] == le[p2] && le.drop_last()[q2] == le[q2]);
        }
    }
    assert(a.sized(m));
    assert(b.ok(m)) by {
        let be = seq![p] + ce;
        assert forall|p2: int, q2: int| 0 <= p2 < q2 < be.len() implies be[p2].0 < be[q2].0 by {
            if p2 == 0 {
                assert(be[q2] == ce[q2 - 1]);
                assert(ce[q2 - 1].0 >= ks[i - 1] > p.0);
            } else {
                assert(be[p2] == ce[p2 - 1] && be[q2] == ce[q2 - 1]);
            }
        }
        assert(be.len() == min_leaf_keys(m) <= m) by (nonlinear_arith)
            requires
                m >= 3 && be.len() == min_leaf_keys(m) && min_leaf_keys(m) == (m + 1) / 2,
        ;
    }
    assert(b.sized(m));
    assert(a.entries() + b.entries() =~= lold.entries() + cold.entries());
    assert(keys_below(a.entries(), mk)) by {
        assert forall|j: int| 0 <= j < le.drop_last().len() implies (#[trigger] le.drop_last()[
        j]).0 < mk by {
            assert(le.drop_last()[j] == le[j]);
            assert(le[j].0 < le[le.len() - 1].0);
        }
    }
    assert(keys_at_least(b.entries(), mk)) by {
        let be = seq![p] + ce;
        assert forall|j: int| 0 <= j < be.len() implies (#[trigger] be[j]).0 >= mk by {
            if j > 0 {
                assert(be[j] == ce[j - 1]);
                assert(ce[j - 1].0 >= ks[i - 1] > mk);
            }
        }
    }
    if i >= 2 {
        assert(keys_at_least(a.entries(), ks[i - 2])) by {
            assert(keys_at_least(le, ks[i - 2]));
            assert forall|j: int| 0 <= j < le.drop_last().len() implies (#[trigger] le.drop_last()[
            j]).0 >= ks[i - 2] by {
                assert(le.drop_last()[j] == le[j]);
            }
        }
    }
    if i < ks.len() {
        assert(keys_below(b.entries(), ks[i])) by {
            let be = seq![p] + ce;
            assert(keys_below(ce, ks[i]));
            assert(mk < ks[i - 1] < ks[i]);
            assert forall|j: int| 0 <= j < be.len() implies (#[trigger] be[j]).0 < ks[i] by {
                if j > 0 {
                    assert(be[j] == ce[j - 1]);
                }
            }
        }
    }
    lemma_internal_replace_pair(ks, ch2, m, i, i, a, b, mk);
}

/// Everything [`Internal::borrow_left_internal`] has to show, phrased over
/// the rotated nodes.
#[verifier::rlimit(100)]
#[verifier::spinoff_prover]
pub proof fn lemma_borrow_left_internal_post<T>(
    ks: Seq<u64>,
    ch2: Seq<Node<T>>,
    m: int,
    i: int,
    a: Node<T>,
    b: Node<T>,
    bk: u64,
    sep_old: u64,
)
    requires
        internal_ok_except(ks, ch2, m, i),
        ks.len() <= m,
        1 <= ks.len(),
        m >= 3,
        1 <= i < ch2.len(),
        ch2[i] is Internal,
        ch2[i - 1] is Internal,
        ch2[i].key_count() == min_internal_keys(m) - 1,
        ch2[i - 1].key_count() > min_internal_keys(m),
        sep_old == ks[i - 1],
        a is Internal,
        b is Internal,
        bk == ch2[i - 1]->Internal_0.keys@.last(),
        a->Internal_0.keys@ == ch2[i - 1]->Internal_0.keys@.subrange(
            0,
            ch2[i - 1]->Internal_0.keys@.len() - 1,
        ),
        a->Internal_0.children@ == ch2[i - 1]->Internal_0.children@.subrange(
            0,
            ch2[i - 1]->Internal_0.children@.len() - 1,
        ),
        b->Internal_0.keys@ == seq![sep_old] + ch2[i]->Internal_0.keys@,
        b->Internal_0.children@ == seq![ch2[i - 1]->Internal_0.children@.last()] + ch2[
            i
        ]->Internal_0.children@,
    ensures
        internal_ok(ks.update(i - 1, bk), ch2.update(i - 1, a).update(i, b), m),
        Node::entries_of(ch2.update(i - 1, a).update(i, b)) == Node::entries_of(ch2),
        Node::height_of(ch2.update(i - 1, a).update(i, b)) == Node::height_of(ch2),
{
    reveal(internal_ok_except);
    let lold = ch2[i - 1];
    let cold = ch2[i];
    let lk = lold->Internal_0.keys@;
    let lc = lold->Internal_0.children@;
    let ck = cold->Internal_0.keys@;
    let cc = cold->Internal_0.children@;
    let bc = lc[lc.len() - 1];
    assert(bk == lk[lk.len() - 1]);
    assert(Node::height_of(lc) == Node::height_of(cc)) by {
        assert(lold.height() == cold.height()) by {
            assert(lold.height() == ch2[0].height());
            assert(cold.height() == ch2[0].height());
        }
    }
    assert(keys_below(Node::entries_of(lc), sep_old));
    assert(keys_at_least(Node::entries_of(cc), sep_old));
    lemma_rotate_from_left(lk, lc, ck, cc, m, sep_old);
    assert(a.entries() == Node::entries_of(lc.subrange(0, lc.len() - 1)));
    assert(b.entries() == Node::entries_of(seq![bc] + cc));
    assert(a.entries() + b.entries() == lold.entries() + cold.entries());
    assert(a.ok(m) && a.sized(m) && b.ok(m) && b.sized(m));
    assert(a.height() == lold.height());
    assert(b.height() == cold.height());
    assert(a.entries().len() >= 1 && b.entries().len() >= 1);
    assert(keys_below(a.entries(), bk));
    assert(keys_at_least(b.entries(), bk));
    if i >= 2 {
        assert(keys_at_least(a.entries() + bc.entries(), ks[i - 2]));
        lemma_bounds_parts(a.entries(), bc.entries(), ks[i - 2]);
    }
    if i < ks.len() {
        assert(keys_below(a.entries() + bc.entries(), ks[i - 1]));
        lemma_bounds_parts(a.entries(), bc.entries(), ks[i - 1]);
        assert(keys_below(bc.entries(), ks[i]));
        lemma_bounds_concat(bc.entries(), cold.entries(), ks[i]);
        assert(b.entries() == bc.entries() + cold.entries());
    }
    lemma_internal_replace_pair(ks, ch2, m, i, i, a, b, bk);
}

/// The mirror rotation: the right sibling donates its first key and child,
/// the parent separator moving down into the cursor and the donated key
/// moving up.
#[verifier::rlimit(100)]
#[verifier::spinoff_prover]
pub proof fn lemma_rotate_from_right<T>(
    ck: Seq<u64>,
    cc: Seq<Node<T>>,
    rk: Seq<u64>,
    rc: Seq<Node<T>>,
    m: int,
    sep_old: u64,
)
    requires
        internal_ok(ck, cc, m),
        internal_ok(rk, rc, m),
        ck.len() == min_internal_keys(m) - 1,
        2 <= rk.len() <= m,
        m >= 3,
        keys_below(Node::entries_of(cc), sep_old),
        keys_at_least(Node::entries_of(rc), sep_old),
        Node::height_of(cc) == Node::height_of(rc),
    ensures
        ({
            let bc = rc[0];
            let bk = rk[0];
            let aks = ck + seq![sep_old];
            let acs = cc + seq![bc];
            let bks = rk.subrange(1, rk.len() as int);
            let bcs = rc.subrange(1, rc.len() as int);
            &&& internal_ok(aks, acs, m)
            &&& internal_ok(bks, bcs, m)
            &&& aks.len() == min_internal_keys(m) <= m
            &&& Node::entries_of(acs) + Node::entries_of(bcs) == Node::entries_of(cc)
                + Node::entries_of(rc)
            &&& keys_below(Node::entries_of(acs), bk)
            &&& keys_at_least(Node::entries_of(bcs), bk)
            &&& Node::entries_of(acs).len() >= 1
            &&& Node::entries_of(bcs).len() >= 1
            &&& Node::height_of(acs) == Node::height_of(cc)
            &&& Node::height_of(bcs) == Node::height_of(rc)
            &&& bk > sep_old
            &&& Node::entries_of(acs) == Node::entries_of(cc) + bc.entries()
            &&& bc.entries() + Node::entries_of(bcs) == Node::entries_of(rc)
            &&& keys_at_least(bc.entries(), sep_old)
        }),
{
    let bc = rc[0];
    let bk = rk[0];
    let aks = ck + seq![sep_old];
    let acs = cc + seq![bc];
    let bks = rk.subrange(1, rk.len() as int);
    let bcs = rc.subrange(1, rc.len() as int);
    lemma_internal_drop_first(rk, rc, m);
    lemma_internal_keys_below(ck, cc, m, sep_old);
    lemma_internal_keys_above(rk, rc, m, sep_old);
    assert(bk > sep_old);
    assert(min_internal_keys(m) >= 1);
    assert(keys_at_least(bc.entries(), sep_old)) by {
        assert forall|t: int| 0 <= t < bc.entries().len() implies (#[trigger] bc.entries()[t]).0
            >= sep_old by {
            assert(Node::entries_of(rc)[t] == bc.entries()[t]);
        }
    }
    assert(Node::entries_of(acs) == Node::entries_of(cc) + bc.entries()) by {
        lemma_entries_of_split(acs, cc.len() as int);
        assert(acs.take(cc.len() as int) =~= cc);
        assert(acs.skip(cc.len() as int) =~= seq![bc]);
        lemma_entries_of_unit(bc);
    }
    assert(internal_ok(aks, acs, m)) by {
        assert(sorted_u64s(aks)) by {
            assert forall|p2: int, q2: int| 0 <= p2 < q2 < aks.len() implies aks[p2] < aks[q2] by {
                if q2 == aks.len() - 1 {
                    assert(aks[p2] == ck[p2] && aks[q2] == sep_old);
                    assert(ck[p2] < sep_old);
                } else {
                    assert(aks[p2] == ck[p2] && aks[q2] == ck[q2]);
                }
            }
        }
        assert(bc.height() == rc[0].height());
        assert forall|j: int| 0 <= j < acs.len() implies (#[trigger] acs[j]).ok(m) && (
        #[trigger] acs[j]).sized(m) && (#[trigger] acs[j]).height() == acs[0].height() by {
            if j == acs.len() - 1 {
                assert(acs[j] == bc);
            } else {
                assert(acs[j] == cc[j]);
                assert(cc[j].height() == cc[0].height());
            }
            assert(acs[0] == cc[0]);
        }
        assert forall|j: int| 0 <= j < aks.len() implies keys_below(
            (#[trigger] acs[j]).entries(),
            aks[j],
        ) by {
            if j == aks.len() - 1 {
                assert(acs[j] == cc[j] && aks[j] == sep_old);
                assert(keys_below(cc[j].entries(), sep_old)) by {
                    lemma_entries_of_at(cc, j);
                    assert forall|t: int|
                        0 <= t < cc[j].entries().len() implies (#[trigger] cc[j].entries()[t]).0
                        < sep_old by {
                        let pre = Node::entries_of(cc.take(j));
                        assert(Node::entries_of(cc)[pre.len() + t] == cc[j].entries()[t]);
                    }
                }
            } else {
                assert(acs[j] == cc[j] && aks[j] == ck[j]);
                assert(keys_below(cc[j].entries(), ck[j]));
            }
        }
        assert forall|j: int| 0 <= j < aks.len() implies keys_at_least(
            acs[j + 1].entries(),
            #[trigger] aks[j],
        ) by {
            if j == aks.len() - 1 {
                assert(acs[j + 1] == bc && aks[j] == sep_old);
            } else {
                assert(acs[j + 1] == cc[j + 1] && aks[j] == ck[j]);
                assert(keys_at_least(cc[j + 1].entries(), ck[j]));
            }
        }
    }
    assert(Node::entries_of(acs) + Node::entries_of(bcs) =~= Node::entries_of(cc)
        + Node::entries_of(rc)) by {
        assert((Node::entries_of(cc) + bc.entries()) + Node::entries_of(bcs)
            =~= Node::entries_of(cc) + (bc.entries() + Node::entries_of(bcs)));
    }
    assert(keys_below(Node::entries_of(acs), bk)) by {
        let ae = Node::entries_of(acs);
        assert(keys_below(bc.entries(), bk));
        assert forall|t: int| 0 <= t < ae.len() implies (#[trigger] ae[t]).0 < bk by {
            if t < Node::entries_of(cc).len() {
                assert(ae[t] == Node::entries_of(cc)[t]);
                assert(Node::entries_of(cc)[t].0 < sep_old < bk);
            } else {
                assert(ae[t] == bc.entries()[t - Node::entries_of(cc).len()]);
            }
        }
    }
    assert(Node::entries_of(acs).len() >= 1) by {
        lemma_ok_nonempty(bc, m);
    }
    assert(Node::height_of(acs) == Node::height_of(cc)) by {
        assert(acs[0] == cc[0]);
    }
}

/// Two adjacent internal siblings merged around their parent separator form
/// one sound node.
#[verifier::rlimit(100)]
#[verifier::spinoff_prover]
pub proof fn lemma_merge_internal_nodes<T>(
    lk: Seq<u64>,
    lc: Seq<Node<T>>,
    ck: Seq<u64>,
    cc: Seq<Node<T>>,
    m: int,
    sep: u64,
)
    requires
        internal_ok(lk, lc, m),
        internal_ok(ck, cc, m),
        lk.len() + ck.len() + 1 <= m,
        m >= 3,
        keys_below(Node::entries_of(lc), sep),
        keys_at_least(Node::entries_of(cc), sep),
        Node::height_of(lc) == Node::height_of(cc),
    ensures
        ({
            let mks = lk + seq![sep] + ck;
            let mcs = lc + cc;
            &&& internal_ok(mks, mcs, m)
            &&& mks.len() == lk.len() + ck.len() + 1
            &&& Node::entries_of(mcs) == Node::entries_of(lc) + Node::entries_of(cc)
            &&& Node::height_of(mcs) == Node::height_of(lc)
        }),
{
    let mks = lk + seq![sep] + ck;
    let mcs = lc + cc;
    lemma_internal_keys_below(lk, lc, m, sep);
    lemma_internal_keys_above(ck, cc, m, sep);
    assert(Node::entries_of(mcs) == Node::entries_of(lc) + Node::entries_of(cc)) by {
        lemma_entries_of_split(mcs, lc.len() as int);
        assert(mcs.take(lc.len() as int) =~= lc);
        assert(mcs.skip(lc.len() as int) =~= cc);
    }
    assert(mcs.len() == mks.len() + 1);
    assert(sorted_u64s(mks)) by {
        assert forall|p2: int, q2: int| 0 <= p2 < q2 < mks.len() implies mks[p2] < mks[q2] by {
            let n = lk.len() as int;
            if p2 < n {
                assert(mks[p2] == lk[p2]);
            } else if p2 == n {
                assert(mks[p2] == sep);
            } else {
                assert(mks[p2] == ck[p2 - n - 1]);
            }
            if q2 < n {
                assert(mks[q2] == lk[q2]);
            } else if q2 == n {
                assert(mks[q2] == sep);
            } else {
                assert(mks[q2] == ck[q2 - n - 1]);
            }
        }
    }
    assert forall|j: int| 0 <= j < mcs.len() implies (#[trigger] mcs[j]).ok(m) && (
    #[trigger] mcs[j]).sized(m) && (#[trigger] mcs[j]).height() == mcs[0].height() by {
        let n = lc.len() as int;
        if j < n {
            assert(mcs[j] == lc[j]);
            assert(lc[j].height() == lc[0].height());
        } else {
            assert(mcs[j] == cc[j - n]);
            assert(cc[j - n].height() == cc[0].height());
            assert(cc[0].height() == lc[0].height()) by {
                assert(Node::height_of(lc) == Node::height_of(cc));
            }
        }
        assert(mcs[0] == lc[0]);
    }
    assert forall|j: int| 0 <= j < mks.len() implies keys_below(
        (#[trigger] mcs[j]).entries(),
        mks[j],
    ) by {
        let n = lk.len() as int;
        if j < n {
            assert(mcs[j] == lc[j] && mks[j] == lk[j]);
            assert(keys_below(lc[j].entries(), lk[j]));
        } else if j == n {
            assert(mcs[j] == lc[n] && mks[j] == sep);
            assert(keys_below(lc[n].entries(), sep)) by {
                lemma_entries_of_at(lc, n);
                assert forall|t: int|
                    0 <= t < lc[n].entries().len() implies (#[trigger] lc[n].entries()[t]).0
                    < sep by {
                    let pre = Node::entries_of(lc.take(n));
                    assert(Node::entries_of(lc)[pre.len() + t] == lc[n].entries()[t]);
                }
            }
        } else {
            assert(mcs[j] == cc[j - n - 1] && mks[j] == ck[j - n - 1]);
            assert(keys_below(cc[j - n - 1].entries(), ck[j - n - 1]));
        }
    }
    assert forall|j: int| 0 <= j < mks.len() implies keys_at_least(
        mcs[j + 1].entries(),
        #[trigger] mks[j],
    ) by {
        let n = lk.len() as int;
        if j < n {
            assert(mcs[j + 1] == lc[j + 1] && mks[j] == lk[j]);
            assert(keys_at_least(lc[j + 1].entries(), lk[j]));
        } else if j == n {
            assert(mcs[j + 1] == cc[0] && mks[j] == sep);
            assert(keys_at_least(cc[0].entries(), sep)) by {
                lemma_entries_of_at(cc, 0);
                assert forall|t: int|
                    0 <= t < cc[0].entries().len() implies (#[trigger] cc[0].entries()[t]).0
                    >= sep by {
                    assert(cc.take(0) =~= Seq::<Node<T>>::empty());
                    assert(Node::entries_of(cc)[t] == cc[0].entries()[t]);
                }
            }
        } else {
            assert(mcs[j + 1] == cc[j - n] && mks[j] == ck[j - n - 1]);
            assert(keys_at_least(cc[j - n - 1 + 1].entries(), ck[j - n - 1]));
        }
    }
    assert(Node::height_of(mcs) == Node::height_of(lc)) by {
        assert(mcs[0] == lc[0]);
    }
}


/// Everything the internal flavour of a borrow from the right has to show,
/// phrased over the rotated nodes.
#[verifier::rlimit(100)]
#[verifier::spinoff_prover]
pub proof fn lemma_borrow_right_internal_post<T>(
    ks: Seq<u64>,
    ch2: Seq<Node<T>>,
    m: int,
    i: int,
    a: Node<T>,
    b: Node<T>,
    bk: u64,
    sep_old: u64,
)
    requires
        internal_ok_except(ks, ch2, m, i),
        ks.len() <= m,
        1 <= ks.len(),
        m >= 3,
        0 <= i < ks.len(),
        ch2.len() == ks.len() + 1,
        ch2[i] is Internal,
        ch2[i + 1] is Internal,
        ch2[i].key_count() == min_internal_keys(m) - 1,
        ch2[i + 1].key_count() > min_internal_keys(m),
        sep_old == ks[i],
        a is Internal,
        b is Internal,
        bk == ch2[i + 1]->Internal_0.keys@[0],
        a->Internal_0.keys@ == ch2[i]->Internal_0.keys@ + seq![sep_old],
        a->Internal_0.children@ == ch2[i]->Internal_0.children@ + seq![ch2[
            i + 1
        ]->Internal_0.children@[0]],
        b->Internal_0.keys@ == ch2[i + 1]->Internal_0.keys@.subrange(
            1,
            ch2[i + 1]->Internal_0.keys@.len() as int,
        ),
        b->Internal_0.children@ == ch2[i + 1]->Internal_0.children@.subrange(
            1,
            ch2[i + 1]->Internal_0.children@.len() as int,
        ),
    ensures
        internal_ok(ks.update(i, bk), ch2.update(i, a).update(i + 1, b), m),
        Node::entries_of(ch2.update(i, a).update(i + 1, b)) == Node::entries_of(ch2),
        Node::height_of(ch2.update(i, a).update(i + 1, b)) == Node::height_of(ch2),
{
    reveal(internal_ok_except);
    let cold = ch2[i];
    let rold = ch2[i + 1];
    let ck = cold->Internal_0.keys@;
    let cc = cold->Internal_0.children@;
    let rk = rold->Internal_0.keys@;
    let rc = rold->Internal_0.children@;
    let bc = rc[0];
    assert(bk == rk[0]);
    assert(Node::height_of(cc) == Node::height_of(rc)) by {
        assert(cold.height() == rold.height()) by {
            assert(cold.height() == ch2[0].height());
            assert(rold.height() == ch2[0].height());
        }
    }
    assert(keys_below(Node::entries_of(cc), sep_old));
    assert(keys_at_least(Node::entries_of(rc), sep_old));
    lemma_rotate_from_right(ck, cc, rk, rc, m, sep_old);
    assert(a.entries() == Node::entries_of(cc + seq![bc]));
    assert(b.entries() == Node::entries_of(rc.subrange(1, rc.len() as int)));
    assert(a.entries() + b.entries() == cold.entries() + rold.entries());
    assert(a.ok(m) && a.sized(m) && b.ok(m) && b.sized(m));
    assert(a.height() == cold.height());
    assert(b.height() == rold.height());
    assert(keys_below(a.entries(), bk));
    assert(keys_at_least(b.entries(), bk));
    if i >= 1 {
        assert(keys_at_least(cold.entries(), ks[i - 1]));
        assert(keys_at_least(bc.entries(), ks[i - 1])) by {
            assert(keys_at_least(bc.entries(), sep_old));
            assert(ks[i - 1] < sep_old);
        }
        lemma_bounds_concat(cold.entries(), bc.entries(), ks[i - 1]);
        assert(a.entries() == cold.entries() + bc.entries());
    }
    if i + 1 < ks.len() {
        assert(keys_below(bc.entries() + b.entries(), ks[i + 1]));
        lemma_bounds_parts(bc.entries(), b.entries(), ks[i + 1]);
    }
    lemma_internal_replace_pair(ks, ch2, m, i + 1, i, a, b, bk);
}

/// Everything the internal flavour of a merge with the left sibling has to
/// show, phrased over the merged node.
#[verifier::rlimit(100)]
#[verifier::spinoff_prover]
pub proof fn lemma_merge_left_internal_post<T>(
    ks: Seq<u64>,
    ch2: Seq<Node<T>>,
    m: int,
    i: int,
    merged: Node<T>,
)
    requires
        internal_ok_except(ks, ch2, m, i),
        ks.len() <= m,
        1 <= ks.len(),
        m >= 3,
        1 <= i < ch2.len(),
        ch2[i - 1] is Internal,
        ch2[i] is Internal,
        ch2[i].key_count() == min_internal_keys(m) - 1,
        ch2[i - 1].key_count() <= min_internal_keys(m),
        merged is Internal,
        merged->Internal_0.keys@ == ch2[i - 1]->Internal_0.keys@ + seq![ks[i - 1]] + ch2[
            i
        ]->Internal_0.keys@,
        merged->Internal_0.children@ == ch2[i - 1]->Internal_0.children@ + ch2[
            i
        ]->Internal_0.children@,
    ensures
        internal_ok(ks.remove(i - 1), ch2.update(i - 1, merged).remove(i), m),
        Node::entries_of(ch2.update(i - 1, merged).remove(i)) == Node::entries_of(ch2),
        Node::height_of(ch2.update(i - 1, merged).remove(i)) == Node::height_of(ch2),
{
    reveal(internal_ok_except);
    let lold = ch2[i - 1];
    let cold = ch2[i];
    let lk = lold->Internal_0.keys@;
    let lc = lold->Internal_0.children@;
    let ck = cold->Internal_0.keys@;
    let cc = cold->Internal_0.children@;
    assert(lk.len() == min_internal_keys(m));
    assert(lk.len() + ck.len() + 1 <= m) by (nonlinear_arith)
        requires
            m >= 3 && lk.len() == m / 2 && ck.len() == m / 2 - 1,
    ;
    assert(Node::height_of(lc) == Node::height_of(cc)) by {
        assert(lold.height() == cold.height()) by {
            assert(lold.height() == ch2[0].height());
            assert(cold.height() == ch2[0].height());
        }
    }
    assert(keys_below(Node::entries_of(lc), ks[i - 1]));
    assert(keys_at_least(Node::entries_of(cc), ks[i - 1]));
    lemma_merge_internal_nodes(lk, lc, ck, cc, m, ks[i - 1]);
    assert(merged.ok(m));
    assert(merged.sized(m));
    assert(merged.entries() == lold.entries() + cold.entries());
    assert(merged.height() == ch2[i].height());
    lemma_internal_merge(ks, ch2, m, i, i, merged);
}

/// Everything the internal flavour of a merge with the right sibling has to
/// show, phrased over the merged node.
#[verifier::rlimit(100)]
#[verifier::spinoff_prover]
pub proof fn lemma_merge_right_internal_post<T>(
    ks: Seq<u64>,
    ch2: Seq<Node<T>>,
    m: int,
    i: int,
    merged: Node<T>,
)
    requires
        internal_ok_except(ks, ch2, m, i),
        ks.len() <= m,
        1 <= ks.len(),
        m >= 3,
        0 <= i < ks.len(),
        ch2.len() == ks.len() + 1,
        ch2[i] is Internal,
        ch2[i + 1] is Internal,
        ch2[i].key_count() == min_internal_keys(m) - 1,
        ch2[i + 1].key_count() <= min_internal_keys(m),
        merged is Internal,
        merged->Internal_0.keys@ == ch2[i]->Internal_0.keys@ + seq![ks[i]] + ch2[
            i + 1
        ]->Internal_0.keys@,
        merged->Internal_0.children@ == ch2[i]->Internal_0.children@ + ch2[
            i + 1
        ]->Internal_0.children@,
    ensures
        internal_ok(ks.remove(i), ch2.update(i, merged).remove(i + 1), m),
        Node::entries_of(ch2.update(i, merged).remove(i + 1)) == Node::entries_of(ch2),
        Node::height_of(ch2.update(i, merged).remove(i + 1)) == Node::height_of(ch2),
{
    reveal(internal_ok_except);
    let cold = ch2[i];
    let rold = ch2[i + 1];
    let ck = cold->Internal_0.keys@;
    let cc = cold->Internal_0.children@;
    let rk = rold->Internal_0.keys@;
    let rc = rold->Internal_0.children@;
    assert(rk.len() == min_internal_keys(m));
    assert(ck.len() + rk.len() + 1 <= m) by (nonlinear_arith)
        requires
            m >= 3 && rk.len() == m / 2 && ck.len() == m / 2 - 1,
    ;
    assert(Node::height_of(cc) == Node::height_of(rc)) by {
        assert(cold.height() == rold.height()) by {
            assert(cold.height() == ch2[0].height());
            assert(rold.height() == ch2[0].height());
        }
    }
    assert(keys_below(Node::entries_of(cc), ks[i]));
    assert(keys_at_least(Node::entries_of(rc), ks[i]));
    lemma_merge_internal_nodes(ck, cc, rk, rc, m, ks[i]);
    assert(merged.ok(m));
    assert(merged.sized(m));
    assert(merged.entries() == cold.entries() + rold.entries());
    assert(merged.height() == ch2[i + 1].height());
    lemma_internal_merge(ks, ch2, m, i + 1, i, merged);
}


impl<T> Internal<T> {
    /// Child `i` is one key short and its right sibling has spares: move the
    /// sibling's least key (leaf) or rotate through the separator
    /// (internal), then put the child back.
    fn borrow_right(
        &mut self,
        i: usize,
        child: Node<T>,
        order: usize,
        Ghost(ks): Ghost<Seq<u64>>,
        Ghost(ch2): Ghost<Seq<Node<T>>>,
    )
        requires
            old(self).keys@ == ks,
            old(self).children@ == ch2.remove(i as int),
            internal_ok_except(ks, ch2, order as int, i as int),
            ks.len() <= order as int,
            1 <= ks.len(),
            order >= 3,
            ch2.len() == ks.len() + 1,
            0 <= i as int,
            (i as int) < ks.len(),
            ch2[i as int] == child,
            child.key_count() == min_keys_of(child, order as int) - 1,
            ch2[i as int + 1].key_count() > min_keys_of(ch2[i as int + 1], order as int),
        ensures
            internal_ok(final(self).keys@, final(self).children@, order as int),
            final(self).keys@.len() == ks.len(),
            Node::entries_of(final(self).children@) == Node::entries_of(ch2),
            Node::height_of(final(self).children@) == Node::height_of(ch2),
    {
        proof {
            reveal(internal_ok_except);
            assert(ch2[i as int].height() == ch2[i as int + 1].height()) by {
                assert(ch2[i as int].height() == ch2[0].height());
                assert(ch2[i as int + 1].height() == ch2[0].height());
            }
            lemma_kind_from_height(ch2[i as int], ch2[i as int + 1]);
        }
        let child_is_leaf = match &child {
            Node::Leaf(_) => true,
            Node::Internal(_) => false,
        };
        if child_is_leaf {
            self.borrow_right_leaf(i, child, order, Ghost(ks), Ghost(ch2));
        } else {
            self.borrow_right_internal(i, child, order, Ghost(ks), Ghost(ch2));
        }
    }

    /// The leaf flavour of [`Internal::borrow_right`].
    #[verifier::rlimit(100)]
    #[verifier::spinoff_prover]
    fn borrow_right_leaf(
        &mut self,
        i: usize,
        child: Node<T>,
        order: usize,
        Ghost(ks): Ghost<Seq<u64>>,
        Ghost(ch2): Ghost<Seq<Node<T>>>,
    )
        requires
            old(self).keys@ == ks,
            old(self).children@ == ch2.remove(i as int),
            internal_ok_except(ks, ch2, order as int, i as int),
            ks.len() <= order as int,
            1 <= ks.len(),
            order >= 3,
            ch2.len() == ks.len() + 1,
            0 <= i as int,
            (i as int) < ks.len(),
            ch2[i as int] == child,
            child.key_count() == min_keys_of(child, order as int) - 1,
            ch2[i as int + 1].key_count() > min_keys_of(ch2[i as int + 1], order as int),
            child is Leaf,
            ch2[i as int + 1] is Leaf,
        ensures
            internal_ok(final(self).keys@, final(self).children@, order as int),
            final(self).keys@.len() == ks.len(),
            Node::entries_of(final(self).children@) == Node::entries_of(ch2),
            Node::height_of(final(self).children@) == Node::height_of(ch2),
    {
        let ghost m = order as int;
        proof {
            reveal(internal_ok_except);
        }
        let ghost cold = ch2[i as int];
        let ghost rold = ch2[i as int + 1];
        let mut child = child;
        let mut right = self.children.remove(i);
        proof {
            assert(right == rold) by {
                assert(ch2.remove(i as int)[i as int] == ch2[i as int + 1]);
            }
            assert(min_leaf_keys(m) >= 2) by (nonlinear_arith)
                requires
                    m >= 3,
            ;
        }
        let (mk, mv) = match &mut right {
            Node::Leaf(l) => {
                l.dirty = true;
                l.entries.remove(0)
            },
            Node::Internal(_) => unreached(),
        };
        let sep_new = match &right {
            Node::Leaf(l) => l.entries[0].0,
            Node::Internal(_) => unreached(),
        };
        match &mut child {
            Node::Leaf(l) => {
                l.entries.push((mk, mv));
                l.dirty = true;
            },
            Node::Internal(_) => {},
        }
        self.keys.set(i, sep_new);
        proof {
            let a = child;
            let b = right;
            let ce = cold->Leaf_0.entries@;
            let re = rold->Leaf_0.entries@;
            let p = re[0];
            assert(mk == p.0 && mv == p.1);
            assert(a->Leaf_0.entries@ =~= ce.push(p));
            assert(b->Leaf_0.entries@ =~= re.drop_first());
            assert(sep_new == re[1].0);
            assert(keys_below(ce, ks[i as int]));
            assert(keys_at_least(re, ks[i as int]));
            assert(sorted_keys(ce) && sorted_keys(re));
            assert(p.0 >= ks[i as int]);
            assert(a.ok(m)) by {
                let ae = ce.push(p);
                assert forall|p2: int, q2: int|
                    0 <= p2 < q2 < ae.len() implies ae[p2].0 < ae[q2].0 by {
                    if q2 == ae.len() - 1 {
                        assert(ae[p2] == ce[p2] && ae[q2] == p);
                        assert(ce[p2].0 < ks[i as int] <= p.0);
                    } else {
                        assert(ae[p2] == ce[p2] && ae[q2] == ce[q2]);
                    }
                }
                assert(ae.len() == min_leaf_keys(m) <= m) by (nonlinear_arith)
                    requires
                        m >= 3 && ae.len() == min_leaf_keys(m) && min_leaf_keys(m) == (m + 1) / 2,
                ;
            }
            assert(a.sized(m));
            assert(b.ok(m)) by {
                let be = re.drop_first();
                assert forall|p2: int, q2: int|
                    0 <= p2 < q2 < be.len() implies be[p2].0 < be[q2].0 by {
                    assert(be[p2] == re[p2 + 1] && be[q2] == re[q2 + 1]);
                }
            }
            assert(b.sized(m));
            assert(a.entries() + b.entries() =~= cold.entries() + rold.entries()) by {
                assert(ce.push(p) =~= ce + seq![p]);
                assert(seq![p] + re.drop_first() =~= re);
                assert((ce + seq![p]) + re.drop_first() =~= ce + re);
            }
            assert(keys_below(a.entries(), sep_new)) by {
                let ae = ce.push(p);
                assert forall|j: int| 0 <= j < ae.len() implies (#[trigger] ae[j]).0 < sep_new by {
                    if j == ae.len() - 1 {
                        assert(ae[j] == p);
                        assert(re[0].0 < re[1].0);
                    } else {
                        assert(ae[j] == ce[j]);
                        assert(ce[j].0 < ks[i as int] <= re[0].0 < re[1].0);
                    }
                }
            }
            assert(keys_at_least(b.entries(), sep_new)) by {
                let be = re.drop_first();
                assert forall|j: int| 0 <= j < be.len() implies (#[trigger] be[j]).0 >= sep_new by {
                    assert(be[j] == re[j + 1]);
                    if j > 0 {
                        assert(re[1].0 < re[j + 1].0);
                    }
                }
            }
            if i as int >= 1 {
                assert(keys_at_least(a.entries(), ks[i as int - 1])) by {
                    let ae = ce.push(p);
                    assert(keys_at_least(ce, ks[i as int - 1]));
                    assert forall|j: int|
                        0 <= j < ae.len() implies (#[trigger] ae[j]).0 >= ks[i as int - 1] by {
                        if j == ae.len() - 1 {
                            assert(ae[j] == p);
                            assert(p.0 >= ks[i as int] > ks[i as int - 1]);
                        } else {
                            assert(ae[j] == ce[j]);
                        }
                    }
                }
            }
            if i as int + 1 < ks.len() {
                assert(keys_below(b.entries(), ks[i as int + 1])) by {
                    let be = re.drop_first();
                    assert(keys_below(re, ks[i as int + 1]));
                    assert forall|j: int|
                        0 <= j < be.len() implies (#[trigger] be[j]).0 < ks[i as int + 1] by {
                        assert(be[j] == re[j + 1]);
                    }
                }
            }
            lemma_internal_replace_pair(ks, ch2, m, i as int + 1, i as int, a, b, sep_new);
        }
        self.children.insert(i, child);
        self.children.insert(i + 1, right);
        proof {
            assert(self.keys@ =~= ks.update(i as int, sep_new));
            assert(self.children@ =~= ch2.update(i as int, child).update(i as int + 1, right));
        }
    }

    /// The internal flavour of [`Internal::borrow_right`]: rotate through
    /// the parent separator, moving the sibling's first subtree across.
    #[verifier::rlimit(100)]
    #[verifier::spinoff_prover]
    fn borrow_right_internal(
        &mut self,
        i: usize,
        child: Node<T>,
        order: usize,
        Ghost(ks): Ghost<Seq<u64>>,
        Ghost(ch2): Ghost<Seq<Node<T>>>,
    )
        requires
            old(self).keys@ == ks,
            old(self).children@ == ch2.remove(i as int),
            internal_ok_except(ks, ch2, order as int, i as int),
            ks.len() <= order as int,
            1 <= ks.len(),
            order >= 3,
            ch2.len() == ks.len() + 1,
            0 <= i as int,
            (i as int) < ks.len(),
            ch2[i as int] == child,
            child.key_count() == min_keys_of(child, order as int) - 1,
            ch2[i as int + 1].key_count() > min_keys_of(ch2[i as int + 1], order as int),
            child is Internal,
            ch2[i as int + 1] is Internal,
        ensures
            internal_ok(final(self).keys@, final(self).children@, order as int),
            final(self).keys@.len() == ks.len(),
            Node::entries_of(final(self).children@) == Node::entries_of(ch2),
            Node::height_of(final(self).children@) == Node::height_of(ch2),
    {
        let ghost m = order as int;
        let ghost cold = ch2[i as int];
        let ghost rold = ch2[i as int + 1];
        let mut child = child;
        let mut right = self.children.remove(i);
        proof {
            lemma_except_child_ok(ks, ch2, m, i as int, i as int + 1);
            assert(right == rold) by {
                assert(ch2.remove(i as int)[i as int] == ch2[i as int + 1]);
            }
        }
        let sep_old = self.keys[i];
        let (bk, bc) = match &mut right {
            Node::Internal(nd) => {
                proof {
                    assert(rold->Internal_0.keys@.len() >= 2) by {
                        assert(min_internal_keys(m) >= 1);
                    }
                }
                nd.steal_first()
            },
            Node::Leaf(_) => unreached(),
        };
        match &mut child {
            Node::Internal(nd) => {
                nd.grow_back(sep_old, bc);
            },
            Node::Leaf(_) => {},
        }
        self.keys.set(i, bk);
        proof {
            let rk = rold->Internal_0.keys@;
            let rc = rold->Internal_0.children@;
            assert(right->Internal_0.keys@ =~= rk.subrange(1, rk.len() as int));
            assert(right->Internal_0.children@ =~= rc.subrange(1, rc.len() as int));
            assert(child->Internal_0.keys@ =~= cold->Internal_0.keys@ + seq![sep_old]);
            assert(child->Internal_0.children@ =~= cold->Internal_0.children@ + seq![rc[0]]);
            lemma_borrow_right_internal_post(ks, ch2, m, i as int, child, right, bk, sep_old);
        }
        self.children.insert(i, child);
        self.children.insert(i + 1, right);
        proof {
            assert(self.keys@ =~= ks.update(i as int, bk));
            assert(self.children@ =~= ch2.update(i as int, child).update(i as int + 1, right));
        }
    }

    /// Child `i` is one key short and no sibling can spare one: fold the
    /// child into its left sibling and drop the separator between them.
    fn merge_left(
        &mut self,
        i: usize,
        child: Node<T>,
        order: usize,
        freed: &mut Vec<u128>,
        Ghost(ks): Ghost<Seq<u64>>,
        Ghost(ch2): Ghost<Seq<Node<T>>>,
    )
        requires
            old(self).keys@ == ks,
            old(self).children@ == ch2.remove(i as int),
            internal_ok_except(ks, ch2, order as int, i as int),
            ks.len() <= order as int,
            1 <= ks.len(),
            order >= 3,
            1 <= i as int,
            (i as int) < ch2.len(),
            ch2[i as int] == child,
            child.key_count() == min_keys_of(child, order as int) - 1,
            ch2[i as int - 1].key_count() <= min_keys_of(ch2[i as int - 1], order as int),
        ensures
            internal_ok(final(self).keys@, final(self).children@, order as int),
            final(self).keys@.len() == ks.len() - 1,
            Node::entries_of(final(self).children@) == Node::entries_of(ch2),
            Node::height_of(final(self).children@) == Node::height_of(ch2),
    {
        proof {
            reveal(internal_ok_except);
            assert(ch2[i as int - 1].height() == ch2[i as int].height()) by {
                assert(ch2[i as int - 1].height() == ch2[0].height());
                assert(ch2[i as int].height() == ch2[0].height());
            }
            lemma_kind_from_height(ch2[i as int - 1], ch2[i as int]);
        }
        let child_is_leaf = match &child {
            Node::Leaf(_) => true,
            Node::Internal(_) => false,
        };
        if child_is_leaf {
            self.merge_left_leaf(i, child, order, freed, Ghost(ks), Ghost(ch2));
        } else {
            self.merge_left_internal(i, child, order, freed, Ghost(ks), Ghost(ch2));
        }
    }

    /// The leaf flavour of [`Internal::merge_left`].
    #[verifier::rlimit(100)]
    #[verifier::spinoff_prover]
    fn merge_left_leaf(
        &mut self,
        i: usize,
        child: Node<T>,
        order: usize,
        freed: &mut Vec<u128>,
        Ghost(ks): Ghost<Seq<u64>>,
        Ghost(ch2): Ghost<Seq<Node<T>>>,
    )
        requires
            old(self).keys@ == ks,
            old(self).children@ == ch2.remove(i as int),
            internal_ok_except(ks, ch2, order as int, i as int),
            ks.len() <= order as int,
            1 <= ks.len(),
            order >= 3,
            1 <= i as int,
            (i as int) < ch2.len(),
            ch2[i as int] == child,
            child.key_count() == min_keys_of(child, order as int) - 1,
            ch2[i as int - 1].key_count() <= min_keys_of(ch2[i as int - 1], order as int),
            child is Leaf,
            ch2[i as int - 1] is Leaf,
        ensures
            internal_ok(final(self).keys@, final(self).children@, order as int),
            final(self).keys@.len() == ks.len() - 1,
            Node::entries_of(final(self).children@) == Node::entries_of(ch2),
            Node::height_of(final(self).children@) == Node::height_of(ch2),
    {
        let ghost m = order as int;
        proof {
            reveal(internal_ok_except);
        }
        let ghost lold = ch2[i as int - 1];
        let ghost cold = ch2[i as int];
        let mut left = self.children.remove(i - 1);
        proof {
            assert(left == lold) by {
                assert(ch2.remove(i as int)[i as int - 1] == ch2[i as int - 1]);
            }
        }
        let mut cl = match child {
            Node::Leaf(cl) => cl,
            Node::Internal(_) => unreached(),
        };
        freed.push(cl.id);
        match &mut left {
            Node::Leaf(l) => {
                l.entries.append(&mut cl.entries);
                l.next = cl.next;
                l.dirty = true;
            },
            Node::Internal(_) => {},
        }
        self.keys.remove(i - 1);
        self.children.insert(i - 1, left);
        proof {
            let merged = left;
            let le = lold->Leaf_0.entries@;
            let ce = cold->Leaf_0.entries@;
            assert(merged->Leaf_0.entries@ == le + ce);
            assert(merged.entries() == lold.entries() + cold.entries());
            assert(merged.ok(m)) by {
                lemma_sorted_concat(le, ce, ks[i as int - 1]);
                assert((le + ce).len() <= m) by (nonlinear_arith)
                    requires
                        m >= 3 && le.len() <= (m + 1) / 2 && ce.len() == (m + 1) / 2 - 1,
                ;
            }
            assert(merged.sized(m));
            assert(merged.height() == ch2[i as int].height());
            lemma_internal_merge(ks, ch2, m, i as int, i as int, merged);
            assert(self.keys@ =~= ks.remove(i as int - 1));
            assert(self.children@ =~= ch2.update(i as int - 1, merged).remove(i as int));
        }
    }

    /// The internal flavour of [`Internal::merge_left`]: the separator is
    /// pulled down between the two key runs.
    #[verifier::rlimit(100)]
    #[verifier::spinoff_prover]
    fn merge_left_internal(
        &mut self,
        i: usize,
        child: Node<T>,
        order: usize,
        freed: &mut Vec<u128>,
        Ghost(ks): Ghost<Seq<u64>>,
        Ghost(ch2): Ghost<Seq<Node<T>>>,
    )
        requires
            old(self).keys@ == ks,
            old(self).children@ == ch2.remove(i as int),
            internal_ok_except(ks, ch2, order as int, i as int),
            ks.len() <= order as int,
            1 <= ks.len(),
            order >= 3,
            1 <= i as int,
            (i as int) < ch2.len(),
            ch2[i as int] == child,
            child.key_count() == min_keys_of(child, order as int) - 1,
            ch2[i as int - 1].key_count() <= min_keys_of(ch2[i as int - 1], order as int),
            child is Internal,
            ch2[i as int - 1] is Internal,
        ensures
            internal_ok(final(self).keys@, final(self).children@, order as int),
            final(self).keys@.len() == ks.len() - 1,
            Node::entries_of(final(self).children@) == Node::entries_of(ch2),
            Node::height_of(final(self).children@) == Node::height_of(ch2),
    {
        let ghost m = order as int;
        let ghost lold = ch2[i as int - 1];
        let ghost cold = ch2[i as int];
        let mut left = self.children.remove(i - 1);
        proof {
            lemma_except_child_ok(ks, ch2, m, i as int, i as int - 1);
            assert(left == lold) by {
                assert(ch2.remove(i as int)[i as int - 1] == ch2[i as int - 1]);
            }
        }
        let sep = self.keys[i - 1];
        let mut cn = match child {
            Node::Internal(cn) => cn,
            Node::Leaf(_) => unreached(),
        };
        freed.push(cn.id);
        match &mut left {
            Node::Internal(nd) => {
                nd.keys.push(sep);
                nd.keys.append(&mut cn.keys);
                nd.children.append(&mut cn.children);
                nd.dirty = true;
            },
            Node::Leaf(_) => {},
        }
        self.keys.remove(i - 1);
        self.children.insert(i - 1, left);
        proof {
            let merged = left;
            assert(merged->Internal_0.keys@ =~= (lold->Internal_0.keys@ + seq![sep])
                + cold->Internal_0.keys@);
            assert((lold->Internal_0.keys@ + seq![sep]) + cold->Internal_0.keys@
                =~= lold->Internal_0.keys@ + seq![sep] + cold->Internal_0.keys@);
            assert(merged->Internal_0.children@ =~= lold->Internal_0.children@
                + cold->Internal_0.children@);
            lemma_merge_left_internal_post(ks, ch2, m, i as int, merged);
            assert(self.keys@ =~= ks.remove(i as int - 1));
            assert(self.children@ =~= ch2.update(i as int - 1, merged).remove(i as int));
        }
    }

    /// Child `i` is the leftmost and one key short, with no generous
    /// sibling: fold the right sibling into it and drop the separator.
    fn merge_right(
        &mut self,
        i: usize,
        child: Node<T>,
        order: usize,
        freed: &mut Vec<u128>,
        Ghost(ks): Ghost<Seq<u64>>,
        Ghost(ch2): Ghost<Seq<Node<T>>>,
    )
        requires
            old(self).keys@ == ks,
            old(self).children@ == ch2.remove(i as int),
            internal_ok_except(ks, ch2, order as int, i as int),
            ks.len() <= order as int,
            1 <= ks.len(),
            order >= 3,
            ch2.len() == ks.len() + 1,
            0 <= i as int,
            (i as int) < ks.len(),
            ch2[i as int] == child,
            child.key_count() == min_keys_of(child, order as int) - 1,
            ch2[i as int + 1].key_count() <= min_keys_of(ch2[i as int + 1], order as int),
        ensures
            internal_ok(final(self).keys@, final(self).children@, order as int),
            final(self).keys@.len() == ks.len() - 1,
            Node::entries_of(final(self).children@) == Node::entries_of(ch2),
            Node::height_of(final(self).children@) == Node::height_of(ch2),
    {
        proof {
            reveal(internal_ok_except);
            assert(ch2[i as int].height() == ch2[i as int + 1].height()) by {
                assert(ch2[i as int].height() == ch2[0].height());
                assert(ch2[i as int + 1].height() == ch2[0].height());
            }
            lemma_kind_from_height(ch2[i as int], ch2[i as int + 1]);
        }
        let child_is_leaf = match &child {
            Node::Leaf(_) => true,
            Node::Internal(_) => false,
        };
        if child_is_leaf {
            self.merge_right_leaf(i, child, order, freed, Ghost(ks), Ghost(ch2));
        } else {
            self.merge_right_internal(i, child, order, freed, Ghost(ks), Ghost(ch2));
        }
    }

    /// The leaf flavour of [`Internal::merge_right`].
    #[verifier::rlimit(100)]
    #[verifier::spinoff_prover]
    fn merge_right_leaf(
        &mut self,
        i: usize,
        child: Node<T>,
        order: usize,
        freed: &mut Vec<u128>,
        Ghost(ks): Ghost<Seq<u64>>,
        Ghost(ch2): Ghost<Seq<Node<T>>>,
    )
        requires
            old(self).keys@ == ks,
            old(self).children@ == ch2.remove(i as int),
            internal_ok_except(ks, ch2, order as int, i as int),
            ks.len() <= order as int,
            1 <= ks.len(),
            order >= 3,
            ch2.len() == ks.len() + 1,
            0 <= i as int,
            (i as int) < ks.len(),
            ch2[i as int] == child,
            child.key_count() == min_keys_of(child, order as int) - 1,
            ch2[i as int + 1].key_count() <= min_keys_of(ch2[i as int + 1], order as int),
            child is Leaf,
            ch2[i as int + 1] is Leaf,
        ensures
            internal_ok(final(self).keys@, final(self).children@, order as int),
            final(self).keys@.len() == ks.len() - 1,
            Node::entries_of(final(self).children@) == Node::entries_of(ch2),
            Node::height_of(final(self).children@) == Node::height_of(ch2),
    {
        let ghost m = order as int;
        proof {
            reveal(internal_ok_except);
        }
        let ghost cold = ch2[i as int];
        let ghost rold = ch2[i as int + 1];
        let mut child = child;
        let mut right = self.children.remove(i);
        proof {
            assert(right == rold) by {
                assert(ch2.remove(i as int)[i as int] == ch2[i as int + 1]);
            }
        }
        let mut rl = match right {
            Node::Leaf(rl) => rl,
            Node::Internal(_) => unreached(),
        };
        freed.push(rl.id);
        match &mut child {
            Node::Leaf(l) => {
                l.entries.append(&mut rl.entries);
                l.next = rl.next;
                l.dirty = true;
            },
            Node::Internal(_) => {},
        }
        self.keys.remove(i);
        self.children.insert(i, child);
        proof {
            let merged = child;
            let ce = cold->Leaf_0.entries@;
            let re = rold->Leaf_0.entries@;
            assert(merged->Leaf_0.entries@ == ce + re);
            assert(merged.entries() == cold.entries() + rold.entries());
            assert(merged.ok(m)) by {
                lemma_sorted_concat(ce, re, ks[i as int]);
                assert((ce + re).len() <= m) by (nonlinear_arith)
                    requires
                        m >= 3 && re.len() <= (m + 1) / 2 && ce.len() == (m + 1) / 2 - 1,
                ;
            }
            assert(merged.sized(m));
            assert(merged.height() == ch2[i as int + 1].height());
            lemma_internal_merge(ks, ch2, m, i as int + 1, i as int, merged);
            assert(self.keys@ =~= ks.remove(i as int));
            assert(self.children@ =~= ch2.update(i as int, merged).remove(i as int + 1));
        }
    }

    /// The internal flavour of [`Internal::merge_right`].
    #[verifier::rlimit(100)]
    #[verifier::spinoff_prover]
    fn merge_right_internal(
        &mut self,
        i: usize,
        child: Node<T>,
        order: usize,
        freed: &mut Vec<u128>,
        Ghost(ks): Ghost<Seq<u64>>,
        Ghost(ch2): Ghost<Seq<Node<T>>>,
    )
        requires
            old(self).keys@ == ks,
            old(self).children@ == ch2.remove(i as int),
            internal_ok_except(ks, ch2, order as int, i as int),
            ks.len() <= order as int,
            1 <= ks.len(),
            order >= 3,
            ch2.len() == ks.len() + 1,
            0 <= i as int,
            (i as int) < ks.len(),
            ch2[i as int] == child,
            child.key_count() == min_keys_of(child, order as int) - 1,
            ch2[i as int + 1].key_count() <= min_keys_of(ch2[i as int + 1], order as int),
            child is Internal,
            ch2[i as int + 1] is Internal,
        ensures
            internal_ok(final(self).keys@, final(self).children@, order as int),
            final(self).keys@.len() == ks.len() - 1,
            Node::entries_of(final(self).children@) == Node::entries_of(ch2),
            Node::height_of(final(self).children@) == Node::height_of(ch2),
    {
        let ghost m = order as int;
        let ghost cold = ch2[i as int];
        let ghost rold = ch2[i as int + 1];
        let mut child = child;
        let mut right = self.children.remove(i);
        proof {
            lemma_except_child_ok(ks, ch2, m, i as int, i as int + 1);
            assert(right == rold) by {
                assert(ch2.remove(i as int)[i as int] == ch2[i as int + 1]);
            }
        }
        let sep = self.keys[i];
        let mut rn = match right {
            Node::Internal(rn) => rn,
            Node::Leaf(_) => unreached(),
        };
        freed.push(rn.id);
        match &mut child {
            Node::Internal(nd) => {
                nd.keys.push(sep);
                nd.keys.append(&mut rn.keys);
                nd.children.append(&mut rn.children);
                nd.dirty = true;
            },
            Node::Leaf(_) => {},
        }
        self.keys.remove(i);
        self.children.insert(i, child);
        proof {
            let merged = child;
            assert(merged->Internal_0.keys@ =~= (cold->Internal_0.keys@ + seq![sep])
                + rold->Internal_0.keys@);
            assert((cold->Internal_0.keys@ + seq![sep]) + rold->Internal_0.keys@
                =~= cold->Internal_0.keys@ + seq![sep] + rold->Internal_0.keys@);
            assert(merged->Internal_0.children@ =~= cold->Internal_0.children@
                + rold->Internal_0.children@);
            lemma_merge_right_internal_post(ks, ch2, m, i as int, merged);
            assert(self.keys@ =~= ks.remove(i as int));
            assert(self.children@ =~= ch2.update(i as int, merged).remove(i as int + 1));
        }
    }
}


impl<T> Node<T> {
    /// This node's stable identity.
    pub fn node_id(&self) -> (r: u128)
        ensures
            r == self.spec_id(),
    {
        match self {
            Node::Leaf(leaf) => leaf.id,
            Node::Internal(node) => node.id,
        }
    }

    /// This node's stable identity.
    pub open spec fn spec_id(self) -> u128 {
        match self {
            Node::Leaf(leaf) => leaf.id,
            Node::Internal(node) => node.id,
        }
    }

    /// Whether this node could donate a key and stay within bounds.
    fn has_extra(&self, order: usize) -> (r: bool)
        ensures
            r == (self.key_count() > min_keys_of(*self, order as int)),
    {
        match self {
            Node::Leaf(leaf) => leaf.has_extra_keys(order),
            Node::Internal(node) => node.has_extra_keys(order),
        }
    }

    /// Whether this node fell below its lower size bound.
    fn underfull(&self, order: usize) -> (r: bool)
        ensures
            r == (self.key_count() < min_keys_of(*self, order as int)),
            r == !self.sized(order as int),
    {
        match self {
            Node::Leaf(leaf) => leaf.is_underfull(order),
            Node::Internal(node) => node.is_underfull(order),
        }
    }
}

/// Binary search over separator keys: the branch index under the
/// right-leaning duplicate rule, i.e. the number of keys at most `key`.
fn rank_keys(keys: &Vec<u64>, key: u64) -> (r: usize)
    requires
        sorted_u64s(keys@),
    ensures
        r <= keys@.len(),
        forall|j: int| 0 <= j < r ==> keys@[j] <= key,
        forall|j: int| r <= j < keys@.len() ==> keys@[j] > key,
{
    let mut lo: usize = 0;
    let mut hi: usize = keys.len();
    while lo < hi
        invariant
            lo <= hi <= keys@.len(),
            sorted_u64s(keys@),
            forall|j: int| 0 <= j < lo ==> keys@[j] <= key,
            forall|j: int| hi <= j < keys@.len() ==> keys@[j] > key,
        decreases hi - lo,
    {
        let mid = lo + (hi - lo) / 2;
        if keys[mid] <= key {
            lo = mid + 1;
        } else {
            hi = mid;
        }
    }
    lo
}

/// Binary search over a leaf's pairs: the number of keys at most `key`.
fn rank_entries<T>(entries: &Vec<(u64, T)>, key: u64) -> (r: usize)
    requires
        sorted_keys(entries@),
    ensures
        r <= entries@.len(),
        forall|j: int| 0 <= j < r ==> (#[trigger] entries@[j]).0 <= key,
        forall|j: int| r <= j < entries@.len() ==> (#[trigger] entries@[j]).0 > key,
{
    let mut lo: usize = 0;
    let mut hi: usize = entries.len();
    while lo < hi
        invariant
            lo <= hi <= entries@.len(),
            sorted_keys(entries@),
            forall|j: int| 0 <= j < lo ==> (#[trigger] entries@[j]).0 <= key,
            forall|j: int| hi <= j < entries@.len() ==> (#[trigger] entries@[j]).0 > key,
        decreases hi - lo,
    {
        let mid = lo + (hi - lo) / 2;
        if entries[mid].0 <= key {
            lo = mid + 1;
        } else {
            hi = mid;
        }
    }
    lo
}

impl<T> Node<T> {
    /// Descend to the leaf responsible for `key` and report its pair.
    pub(crate) fn find_in(&self, key: u64, Ghost(m): Ghost<int>) -> (r: Option<&(u64, T)>)
        requires
            self.ok(m),
        ensures
            match find(self.entries(), key) {
                Some(p) => r is Some && p == *r.unwrap() && p.0 == key,
                None => r is None,
            },
        decreases *self,
    {
        proof {
            lemma_find_props(self.entries(), key);
        }
        match self {
            Node::Leaf(leaf) => {
                let r = rank_entries(&leaf.entries, key);
                if r > 0 && leaf.entries[r - 1].0 == key {
                    proof {
                        lemma_find_at(leaf.entries@, key, r - 1);
                    }
                    Some(&leaf.entries[r - 1])
                } else {
                    proof {
                        if has_key(leaf.entries@, key) {
                            let i = choose|i: int|
                                0 <= i < leaf.entries@.len() && (#[trigger] leaf.entries@[i]).0
                                    == key;
                            assert(leaf.entries@[i].0 == key);
                            assert(i < r || r <= i);
                            assert(false);
                        }
                    }
                    None
                }
            },
            Node::Internal(node) => {
                let i = rank_keys(&node.keys, key);
                proof {
                    let ch = node.children@;
                    let ks = node.keys@;
                    lemma_entries_of_at(ch, i as int);
                    let pre = Node::entries_of(ch.take(i as int));
                    let mid = ch[i as int].entries();
                    let suf = Node::entries_of(ch.skip(i as int + 1));
                    if i > 0 {
                        lemma_children_below(ks, ch, m, i as int);
                        assert(keys_below(pre, key)) by {
                            assert(forall|j: int|
                                0 <= j < pre.len() ==> (#[trigger] pre[j]).0 < ks[i - 1] <= key);
                        }
                    } else {
                        assert(ch.take(0) =~= Seq::<Node<T>>::empty());
                    }
                    if i < ks.len() {
                        lemma_children_at_least(ks, ch, m, i as int + 1);
                        assert(keys_above(suf, key)) by {
                            assert(forall|j: int|
                                0 <= j < suf.len() ==> (#[trigger] suf[j]).0 >= ks[i as int]
                                    > key);
                        }
                    } else {
                        assert(ch.skip(i as int + 1) =~= Seq::<Node<T>>::empty());
                    }
                    lemma_find_concat(pre + mid, suf, key);
                    lemma_find_concat(pre, mid, key);
                    lemma_find_props(pre, key);
                    lemma_find_props(suf, key);
                    if find(pre, key) is Some {
                        assert(has_key(pre, key));
                        let j = choose|j: int|
                            0 <= j < pre.len() && (#[trigger] pre[j]).0 == key;
                        assert(false);
                    }
                    if find(suf, key) is Some {
                        assert(has_key(suf, key));
                        let j = choose|j: int|
                            0 <= j < suf.len() && (#[trigger] suf[j]).0 == key;
                        assert(false);
                    }
                    assert(find(self.entries(), key) == find(mid, key));
                    lemma_find_props(mid, key);
                }
                let child: &Node<T> = &node.children[i];
                proof {
                    broadcast use vstd::std_specs::vec::axiom_vec_index_decreases;

                    assert(decreases_to!(*self => self->Internal_0));
                    assert(decreases_to!(self->Internal_0 => node.children));
                    assert(decreases_to!(node.children => node.children@[i as int]));
                    assert(decreases_to!(*self => node.children@[i as int]));
                }
                child.find_in(key, Ghost(m))
            },
        }
    }
}

/// Splitting a just-overfull internal node at `⌊len/2⌋`: both halves are
/// sound and properly sized, and the key at the split index is the promoted
/// separator.
#[verifier::rlimit(100)]
#[verifier::spinoff_prover]
pub proof fn lemma_internal_split<T>(keys: Seq<u64>, children: Seq<Node<T>>, m: int)
    requires
        internal_ok(keys, children, m),
        keys.len() == m + 1,
        m >= 3,
    ensures
        ({
            let si = (m + 1) / 2;
            let lk = keys.subrange(0, si);
            let lc = children.subrange(0, si + 1);
            let rk = keys.subrange(si + 1, keys.len() as int);
            let rc = children.subrange(si + 1, children.len() as int);
            let sep = keys[si];
            &&& internal_ok(lk, lc, m)
            &&& internal_ok(rk, rc, m)
            &&& min_internal_keys(m) <= lk.len() <= m
            &&& min_internal_keys(m) <= rk.len() <= m
            &&& Node::entries_of(children) == Node::entries_of(lc) + Node::entries_of(rc)
            &&& keys_below(Node::entries_of(lc), sep)
            &&& keys_at_least(Node::entries_of(rc), sep)
            &&& Node::entries_of(lc).len() >= 1
            &&& Node::entries_of(rc).len() >= 1
            &&& Node::height_of(lc) == Node::height_of(children)
            &&& Node::height_of(rc) == Node::height_of(children)
        }),
{
    let si = (m + 1) / 2;
    let lk = keys.subrange(0, si);
    let lc = children.subrange(0, si + 1);
    let rk = keys.subrange(si + 1, keys.len() as int);
    let rc = children.subrange(si + 1, children.len() as int);
    let sep = keys[si];
    assert(2 <= si <= m - 1) by (nonlinear_arith)
        requires
            m >= 3 && si == (m + 1) / 2,
    ;
    assert(m - si >= m / 2 && si >= m / 2) by (nonlinear_arith)
        requires
            m >= 3 && si == (m + 1) / 2,
    ;
    assert(internal_ok(lk, lc, m)) by {
        assert forall|p: int, q: int| 0 <= p < q < lk.len() implies lk[p] < lk[q] by {
            assert(lk[p] == keys[p] && lk[q] == keys[q]);
        }
        assert forall|j: int| 0 <= j < lc.len() implies (#[trigger] lc[j]).ok(m) && (
        #[trigger] lc[j]).sized(m) && (#[trigger] lc[j]).height() == lc[0].height() by {
            assert(lc[j] == children[j] && lc[0] == children[0]);
        }
        assert forall|j: int| 0 <= j < lk.len() implies keys_below(
            (#[trigger] lc[j]).entries(),
            lk[j],
        ) by {
            assert(lc[j] == children[j] && lk[j] == keys[j]);
        }
        assert forall|j: int| 0 <= j < lk.len() implies keys_at_least(
            lc[j + 1].entries(),
            #[trigger] lk[j],
        ) by {
            assert(lc[j + 1] == children[j + 1] && lk[j] == keys[j]);
            assert(keys_at_least(children[j + 1].entries(), keys[j]));
        }
    }
    assert(internal_ok(rk, rc, m)) by {
        assert forall|p: int, q: int| 0 <= p < q < rk.len() implies rk[p] < rk[q] by {
            assert(rk[p] == keys[si + 1 + p] && rk[q] == keys[si + 1 + q]);
        }
        assert forall|j: int| 0 <= j < rc.len() implies (#[trigger] rc[j]).ok(m) && (
        #[trigger] rc[j]).sized(m) && (#[trigger] rc[j]).height() == rc[0].height() by {
            assert(rc[j] == children[si + 1 + j] && rc[0] == children[si + 1]);
        }
        assert forall|j: int| 0 <= j < rk.len() implies keys_below(
            (#[trigger] rc[j]).entries(),
            rk[j],
        ) by {
            assert(rc[j] == children[si + 1 + j] && rk[j] == keys[si + 1 + j]);
            assert(keys_below(children[si + 1 + j].entries(), keys[si + 1 + j]));
        }
        assert forall|j: int| 0 <= j < rk.len() implies keys_at_least(
            rc[j + 1].entries(),
            #[trigger] rk[j],
        ) by {
            assert(rc[j + 1] == children[si + 1 + j + 1] && rk[j] == keys[si + 1 + j]);
            assert(keys_at_least(children[si + 1 + j + 1].entries(), keys[si + 1 + j]));
        }
    }
    lemma_entries_of_split(children, si + 1);
    assert(children.take(si + 1) =~= lc);
    assert(children.skip(si + 1) =~= rc);
    lemma_children_below(keys, children, m, si + 1);
    lemma_children_at_least(keys, children, m, si + 1);
    lemma_ok_nonempty(children[0], m);
    lemma_entries_of_at(lc, 0);
    assert(Node::entries_of(lc).len() >= lc[0].entries().len());
    assert(lc[0] == children[0]);
    lemma_ok_nonempty(children[si + 1], m);
    lemma_entries_of_at(rc, 0);
    assert(Node::entries_of(rc).len() >= rc[0].entries().len());
    assert(rc[0] == children[si + 1]);
    assert(Node::height_of(lc) == children[0].height());
    assert(Node::height_of(rc) == children[si + 1].height());
    assert(children[si + 1].height() == children[0].height());
}

impl<T> Leaf<T> {
    /// Split a just-overfull leaf in the middle. The right half keeps the
    /// upper pairs and its first key is the promoted separator.
    fn split(&mut self, order: usize) -> (r: (u64, Node<T>))
        requires
            sorted_keys(old(self).entries@),
            old(self).entries@.len() == order as int + 1,
            order >= 3,
        ensures
            ({
                let m = order as int;
                let sep = r.0;
                let right = r.1;
                &&& final(self).entries@ + right.entries() == old(self).entries@
                &&& sorted_keys(final(self).entries@)
                &&& min_leaf_keys(m) <= final(self).entries@.len() <= m
                &&& right.ok(m)
                &&& right.sized(m)
                &&& keys_below(final(self).entries@, sep)
                &&& keys_at_least(right.entries(), sep)
                &&& final(self).entries@.len() >= 1
                &&& right.entries().len() >= 1
                &&& right is Leaf
                &&& right.height() == 0
                &&& final(self).dirty
            }),
    {
        let ghost m = order as int;
        let si = self.entries.len() / 2;
        let right_entries = self.entries.split_off(si);
        let sep = right_entries[0].0;
        proof {
            let s = old(self).entries@;
            assert(si as int == (m + 1) / 2);
            assert((m + 1) - (m + 1) / 2 >= (m + 1) / 2) by (nonlinear_arith)
                requires
                    m >= 3,
            ;
            assert((m + 1) / 2 <= m && (m + 1) / 2 >= 2) by (nonlinear_arith)
                requires
                    m >= 3,
            ;
            assert(s.subrange(0, si as int) + s.subrange(si as int, s.len() as int) =~= s);
            assert(sorted_keys(s.subrange(0, si as int))) by {
                assert forall|p: int, q: int|
                    0 <= p < q < si implies s.subrange(0, si as int)[p].0 < s.subrange(
                    0,
                    si as int,
                )[q].0 by {
                    assert(s.subrange(0, si as int)[p] == s[p]);
                    assert(s.subrange(0, si as int)[q] == s[q]);
                }
            }
            assert(sorted_keys(s.subrange(si as int, s.len() as int))) by {
                assert forall|p: int, q: int|
                    0 <= p < q < s.len() - si implies s.subrange(si as int, s.len() as int)[p].0
                    < s.subrange(si as int, s.len() as int)[q].0 by {
                    assert(s.subrange(si as int, s.len() as int)[p] == s[p + si]);
                    assert(s.subrange(si as int, s.len() as int)[q] == s[q + si]);
                }
            }
            assert forall|j: int| 0 <= j < si implies (#[trigger] s.subrange(0, si as int)[j]).0
                < sep by {
                assert(s.subrange(0, si as int)[j] == s[j]);
                assert(s[j].0 < s[si as int].0);
            }
            assert forall|j: int| 0 <= j < s.len() - si implies (#[trigger] s.subrange(
                si as int,
                s.len() as int,
            )[j]).0 >= sep by {
                assert(s.subrange(si as int, s.len() as int)[j] == s[j + si]);
                if j > 0 {
                    assert(s[si as int].0 < s[j + si].0);
                }
            }
        }
        let nid = fresh_id();
                        let right = Node::Leaf(
                            Leaf { id: nid, entries: right_entries, next: self.next, dirty: true },
                        );
                        self.next = Some(nid);
                        self.dirty = true;
                        (sep, right)
    }
}

/// [`lemma_internal_split`] restated over the post-state sequences of an
/// executable split.
pub proof fn lemma_internal_split_post<T>(
    ks: Seq<u64>,
    ch: Seq<Node<T>>,
    m: int,
    lk: Seq<u64>,
    lc: Seq<Node<T>>,
    rk: Seq<u64>,
    rc: Seq<Node<T>>,
    sep: u64,
)
    requires
        internal_ok(ks, ch, m),
        ks.len() == m + 1,
        m >= 3,
        lk == ks.subrange(0, (m + 1) / 2),
        lc == ch.subrange(0, (m + 1) / 2 + 1),
        rk == ks.subrange((m + 1) / 2 + 1, ks.len() as int),
        rc == ch.subrange((m + 1) / 2 + 1, ch.len() as int),
        sep == ks[(m + 1) / 2],
    ensures
        internal_ok(lk, lc, m),
        internal_ok(rk, rc, m),
        min_internal_keys(m) <= lk.len() <= m,
        min_internal_keys(m) <= rk.len() <= m,
        Node::entries_of(lc) + Node::entries_of(rc) == Node::entries_of(ch),
        keys_below(Node::entries_of(lc), sep),
        keys_at_least(Node::entries_of(rc), sep),
        Node::entries_of(lc).len() >= 1,
        Node::entries_of(rc).len() >= 1,
        Node::height_of(lc) == Node::height_of(ch),
        Node::height_of(rc) == Node::height_of(ch),
{
    lemma_internal_split(ks, ch, m);
}

impl<T> Internal<T> {
    /// Split a just-overfull internal node: the right half takes the keys
    /// and children above the middle key, which is popped and promoted.
    fn split(&mut self, order: usize) -> (r: (u64, Node<T>))
        requires
            internal_ok(old(self).keys@, old(self).children@, order as int),
            old(self).keys@.len() == order as int + 1,
            order >= 3,
        ensures
            ({
                let m = order as int;
                let sep = r.0;
                let right = r.1;
                &&& internal_ok(final(self).keys@, final(self).children@, m)
                &&& min_internal_keys(m) <= final(self).keys@.len() <= m
                &&& right.ok(m)
                &&& right.sized(m)
                &&& Node::entries_of(final(self).children@) + right.entries()
                    == Node::entries_of(old(self).children@)
                &&& keys_below(Node::entries_of(final(self).children@), sep)
                &&& keys_at_least(right.entries(), sep)
                &&& Node::entries_of(final(self).children@).len() >= 1
                &&& right.entries().len() >= 1
                &&& right is Internal
                &&& Node::height_of(final(self).children@) == Node::height_of(
                    old(self).children@,
                )
                &&& right.height() == 1 + Node::height_of(old(self).children@)
                &&& final(self).dirty
            }),
    {
        let ghost m = order as int;
        let ghost ks = old(self).keys@;
        let ghost ch = old(self).children@;
        let si = self.keys.len() / 2;
        let sep = self.keys[si];
        let right_keys = self.keys.split_off(si + 1);
        self.keys.truncate(si);
        let right_children = self.children.split_off(si + 1);
        proof {
            assert(si as int == (m + 1) / 2);
            assert(self.keys@ =~= ks.subrange(0, si as int));
            assert(self.children@ =~= ch.subrange(0, si as int + 1));
            assert(right_keys@ =~= ks.subrange(si as int + 1, ks.len() as int));
            assert(right_children@ =~= ch.subrange(si as int + 1, ch.len() as int));
            lemma_internal_split_post(
                ks,
                ch,
                m,
                self.keys@,
                self.children@,
                right_keys@,
                right_children@,
                sep,
            );
        }
        self.dirty = true;
        (
            sep,
            Node::Internal(
                Internal { id: fresh_id(), keys: right_keys, children: right_children, dirty: true },
            ),
        )
    }
}

/// Entries and height after replacing child `i` by a left half and
/// splicing its right half in just after it.
pub proof fn lemma_entries_insert_pair<T>(ch: Seq<Node<T>>, i: int, c2: Node<T>, rt: Node<T>)
    requires
        0 <= i < ch.len(),
        c2.height() == ch[i].height(),
    ensures
        Node::entries_of(ch.update(i, c2).insert(i + 1, rt)) == (Node::entries_of(ch.take(i)) + (
        c2.entries() + rt.entries())) + Node::entries_of(ch.skip(i + 1)),
        Node::height_of(ch.update(i, c2).insert(i + 1, rt)) == Node::height_of(ch),
{
    let pre = Node::entries_of(ch.take(i));
    let suf = Node::entries_of(ch.skip(i + 1));
    let ch2 = ch.update(i, c2);
    let ch3 = ch2.insert(i + 1, rt);
    lemma_entries_of_at(ch3, i + 1);
    assert(ch3.take(i + 1) =~= ch2.take(i + 1));
    lemma_entries_of_take_snoc(ch2, i + 1);
    assert(ch2.take(i) =~= ch.take(i));
    assert(ch2[i] == c2);
    assert(ch3[i + 1] == rt);
    assert(ch3.skip(i + 2) =~= ch.skip(i + 1));
    assert(Node::entries_of(ch3) == (pre + c2.entries()) + rt.entries() + suf);
    assert((pre + c2.entries()) + rt.entries() + suf =~= (pre + (c2.entries() + rt.entries()))
        + suf);
    assert(Node::height_of(ch3) == Node::height_of(ch)) by {
        if i == 0 {
            assert(ch3[0] == c2);
        } else {
            assert(ch3[0] == ch[0]);
        }
    }
}

impl<T> Internal<T> {
    /// Take this node's last key and child, marking it dirty.
    fn steal_last(&mut self) -> (r: (u64, Node<T>))
        requires
            old(self).keys@.len() >= 1,
            old(self).children@.len() >= 1,
        ensures
            final(self).keys@ == old(self).keys@.drop_last(),
            final(self).children@ == old(self).children@.drop_last(),
            r.0 == old(self).keys@.last(),
            r.1 == old(self).children@.last(),
    {
        self.dirty = true;
        let bk = self.keys.pop().unwrap();
        let bc = self.children.pop().unwrap();
        proof {
            assert(self.keys@ =~= old(self).keys@.drop_last());
            assert(self.children@ =~= old(self).children@.drop_last());
        }
        (bk, bc)
    }

    /// Take this node's first key and child, marking it dirty.
    fn steal_first(&mut self) -> (r: (u64, Node<T>))
        requires
            old(self).keys@.len() >= 1,
            old(self).children@.len() >= 1,
        ensures
            final(self).keys@ == old(self).keys@.drop_first(),
            final(self).children@ == old(self).children@.drop_first(),
            r.0 == old(self).keys@.first(),
            r.1 == old(self).children@.first(),
    {
        self.dirty = true;
        let bk = self.keys.remove(0);
        let bc = self.children.remove(0);
        proof {
            assert(self.keys@ =~= old(self).keys@.drop_first());
            assert(self.children@ =~= old(self).children@.drop_first());
        }
        (bk, bc)
    }

    /// Put a key and child at this node's front, marking it dirty.
    fn grow_front(&mut self, k: u64, c: Node<T>)
        ensures
            final(self).keys@ == seq![k] + old(self).keys@,
            final(self).children@ == seq![c] + old(self).children@,
    {
        self.dirty = true;
        self.keys.insert(0, k);
        self.children.insert(0, c);
        proof {
            assert(self.keys@ =~= seq![k] + old(self).keys@);
            assert(self.children@ =~= seq![c] + old(self).children@);
        }
    }

    /// Put a key and child at this node's back, marking it dirty.
    fn grow_back(&mut self, k: u64, c: Node<T>)
        ensures
            final(self).keys@ == old(self).keys@ + seq![k],
            final(self).children@ == old(self).children@ + seq![c],
    {
        self.dirty = true;
        self.keys.push(k);
        self.children.push(c);
        proof {
            assert(self.keys@ =~= old(self).keys@ + seq![k]);
            assert(self.children@ =~= old(self).children@ + seq![c]);
        }
    }

    /// Install a split child: put back the left half, splice in the
    /// promoted separator and the right half, and split this node in turn
    /// if that overflows it.
    #[verifier::rlimit(100)]
    #[verifier::spinoff_prover]
    fn finish_split(
        &mut self,
        i: usize,
        child: Node<T>,
        sep: u64,
        right: Node<T>,
        order: usize,
        Ghost(ks): Ghost<Seq<u64>>,
        Ghost(ch): Ghost<Seq<Node<T>>>,
        Ghost(goal): Ghost<Seq<(u64, T)>>,
    ) -> (r: Option<(u64, Node<T>)>)
        requires
            old(self).keys@ == ks,
            old(self).children@ == ch.remove(i as int),
            internal_ok(ks, ch, order as int),
            ks.len() <= order as int,
            0 <= i as int <= ks.len(),
            order >= 3,
            child.ok(order as int),
            right.ok(order as int),
            child.sized(order as int),
            right.sized(order as int),
            child.height() == ch[i as int].height(),
            right.height() == ch[i as int].height(),
            keys_below(child.entries(), sep),
            keys_at_least(right.entries(), sep),
            child.entries().len() >= 1,
            right.entries().len() >= 1,
            i > 0 ==> keys_at_least(child.entries(), ks[i as int - 1]),
            (i as int) < ks.len() ==> keys_below(right.entries(), ks[i as int]),
            (Node::entries_of(ch.take(i as int)) + (child.entries() + right.entries()))
                + Node::entries_of(ch.skip(i as int + 1)) == goal,
        ensures
            final(self).dirty,
            ({
                let m = order as int;
                &&& Node::height_of(final(self).children@) == Node::height_of(ch)
                &&& match r {
                    None => {
                        &&& internal_ok(final(self).keys@, final(self).children@, m)
                        &&& final(self).keys@.len() <= m
                        &&& Node::entries_of(final(self).children@) == goal
                        &&& final(self).keys@.len() == ks.len() + 1
                    },
                    Some(sk) => {
                        &&& internal_ok(final(self).keys@, final(self).children@, m)
                        &&& min_internal_keys(m) <= final(self).keys@.len() <= m
                        &&& sk.1.ok(m)
                        &&& sk.1.sized(m)
                        &&& Node::entries_of(final(self).children@) + sk.1.entries() == goal
                        &&& keys_below(Node::entries_of(final(self).children@), sk.0)
                        &&& keys_at_least(sk.1.entries(), sk.0)
                        &&& Node::entries_of(final(self).children@).len() >= 1
                        &&& sk.1.entries().len() >= 1
                        &&& sk.1 is Internal
                        &&& sk.1.height() == 1 + Node::height_of(ch)
                    },
                }
            }),
    {
        let ghost m = order as int;
        self.dirty = true;
        proof {
            lemma_internal_insert_split(ks, ch, m, i as int, child, sep, right);
            lemma_entries_insert_pair(ch, i as int, child, right);
        }
        self.children.insert(i, child);
        self.keys.insert(i, sep);
        let n = self.children.len();
        assert(i < n);
        self.children.insert(i + 1, right);
        let ghost ks2 = ks.insert(i as int, sep);
        let ghost ch3 = ch.update(i as int, child).insert(i as int + 1, right);
        proof {
            assert(self.keys@ =~= ks2);
            assert(self.children@ =~= ch3);
            assert(Node::entries_of(ch3) == goal);
        }
        if self.keys.len() <= order {
            None
        } else {
            let (sep2, right2) = self.split(order);
            proof {
                assert(Node::entries_of(self.children@) + right2.entries() == Node::entries_of(
                    ch3,
                ));
            }
            Some((sep2, right2))
        }
    }

    /// Insert below this internal node: route to the child, install a split
    /// child if one comes back, and split this node in turn on overflow.
    #[verifier::rlimit(100)]
    #[verifier::spinoff_prover]
    fn insert_down(&mut self, key: u64, value: T, order: usize) -> (r: (
        Option<T>,
        Option<(u64, Node<T>)>,
    ))
        requires
            internal_ok(old(self).keys@, old(self).children@, order as int),
            old(self).keys@.len() <= order as int,
            order >= 3,
        ensures
            !(Node::Internal(*final(self)).clean()),
            ({
                let m = order as int;
                let prev = r.0;
                let split = r.1;
                let oldmap = Node::entries_of(old(self).children@);
                &&& (match find(oldmap, key) {
                    Some(p) => prev == Some(p.1),
                    None => prev is None,
                })
                &&& Node::height_of(final(self).children@) == Node::height_of(
                    old(self).children@,
                )
                &&& match split {
                    None => {
                        &&& internal_ok(final(self).keys@, final(self).children@, m)
                        &&& final(self).keys@.len() <= m
                        &&& Node::entries_of(final(self).children@) == kv_insert(
                            oldmap,
                            key,
                            value,
                        )
                        &&& old(self).keys@.len() <= final(self).keys@.len() <= old(
                            self,
                        ).keys@.len() + 1
                    },
                    Some(sk) => {
                        &&& internal_ok(final(self).keys@, final(self).children@, m)
                        &&& min_internal_keys(m) <= final(self).keys@.len() <= m
                        &&& sk.1.ok(m)
                        &&& sk.1.sized(m)
                        &&& Node::entries_of(final(self).children@) + sk.1.entries() == kv_insert(
                            oldmap,
                            key,
                            value,
                        )
                        &&& keys_below(Node::entries_of(final(self).children@), sk.0)
                        &&& keys_at_least(sk.1.entries(), sk.0)
                        &&& Node::entries_of(final(self).children@).len() >= 1
                        &&& sk.1.entries().len() >= 1
                        &&& sk.1 is Internal
                        &&& sk.1.height() == 1 + Node::height_of(old(self).children@)
                        &&& prev is None
                    },
                }
            }),
        decreases *old(self),
    {
        let ghost m = order as int;
        let i = rank_keys(&self.keys, key);
        proof {
            broadcast use vstd::std_specs::vec::axiom_vec_index_decreases;

            assert(decreases_to!(*old(self) => old(self).children));
            assert(decreases_to!(old(self).children => old(self).children@[i as int]));
            assert(decreases_to!(*old(self) => old(self).children@[
                i as int
            ]));
            lemma_route(
                old(self).keys@,
                old(self).children@,
                m,
                i as int,
                key,
                value,
            );
        }
        let ghost ks = old(self).keys@;
        let ghost ch = old(self).children@;
        let ghost pre = Node::entries_of(ch.take(i as int));
        let ghost mid = ch[i as int].entries();
        let ghost suf = Node::entries_of(ch.skip(i as int + 1));
        let mut child = self.children.remove(i);
        let (prev, split) = child.insert_in(key, value, order);
        if prev.is_none() {
            self.dirty = true;
        }
        proof {
            lemma_kv_insert_props(mid, key, value);
            lemma_ok_sorted(ch[i as int], m);
            if i > 0 {
                assert(keys_at_least(mid, ks[i - 1]));
                assert(keys_at_least(kv_insert(mid, key, value), ks[i - 1]));
            }
            if (i as int) < ks.len() {
                assert(keys_below(mid, ks[i as int]));
                assert(keys_below(kv_insert(mid, key, value), ks[i as int]));
            }
        }
        match split {
            None => {
                self.children.insert(i, child);
                proof {
                    let ghost c2 = self.children@[i as int];
                    assert(self.children@ =~= ch.update(i as int, c2));
                    assert(c2.sized(m)) by {
                        assert(ch[i as int].sized(m));
                    }
                    lemma_internal_update(ks, ch, m, i as int, c2);
                    let ch2 = ch.update(i as int, c2);
                    lemma_entries_of_at(ch2, i as int);
                    assert(ch2.take(i as int) =~= ch.take(i as int));
                    assert(ch2.skip(i as int + 1) =~= ch.skip(i as int + 1));
                    assert(Node::entries_of(ch2) == pre + kv_insert(mid, key, value)
                        + suf);
                    assert(Node::height_of(ch2) == Node::height_of(ch)) by {
                        assert(ch2[0].height() == ch[0].height());
                    }
                    assert(!(Node::Internal(*self).clean())) by {
                        lemma_clean_of_index(self.children@);
                        assert(!c2.clean());
                    }
                }
                (prev, None)
            },
            Some((sep, right)) => {
                proof {
                    let c2 = child;
                    let rt = right;
                    lemma_ok_nonempty(rt, m);
                    assert(c2.entries() =~= kv_insert(mid, key, value).subrange(
                        0,
                        c2.entries().len() as int,
                    )) by {
                        assert(c2.entries() + rt.entries() == kv_insert(mid, key, value));
                    }
                    if i > 0 {
                        assert(keys_at_least(c2.entries(), ks[i - 1])) by {
                            let s = kv_insert(mid, key, value);
                            assert forall|j: int|
                                0 <= j < c2.entries().len() implies (
                            #[trigger] c2.entries()[j]).0 >= ks[i - 1] by {
                                assert(c2.entries()[j] == s[j]);
                            }
                        }
                    }
                    if (i as int) < ks.len() {
                        assert(keys_below(rt.entries(), ks[i as int])) by {
                            let s = kv_insert(mid, key, value);
                            assert forall|j: int|
                                0 <= j < rt.entries().len() implies (
                            #[trigger] rt.entries()[j]).0 < ks[i as int] by {
                                assert(rt.entries()[j] == s[j + c2.entries().len()]);
                            }
                        }
                    }
                    assert((pre + (child.entries() + right.entries())) + suf =~= (pre
                        + kv_insert(mid, key, value)) + suf);
                }
                let r2 = self.finish_split(
                    i,
                    child,
                    sep,
                    right,
                    order,
                    Ghost(ks),
                    Ghost(ch),
                    Ghost((pre + kv_insert(mid, key, value)) + suf),
                );
                (prev, r2)
            },
        }
    }
}

impl<T> Node<T> {
    /// Insert `(key, value)` into the subtree, splitting on overflow. The
    /// result carries the replaced value, if the key was already present,
    /// and the promoted separator with the new right sibling if this node
    /// had to split.
    #[verifier::rlimit(100)]
    #[verifier::spinoff_prover]
    pub(crate) fn insert_in(&mut self, key: u64, value: T, order: usize) -> (r: (
        Option<T>,
        Option<(u64, Node<T>)>,
    ))
        requires
            old(self).ok(order as int),
            order >= 3,
        ensures
            !final(self).clean(),
            ({
                let m = order as int;
                let prev = r.0;
                let split = r.1;
                &&& (match find(old(self).entries(), key) {
                    Some(p) => prev == Some(p.1),
                    None => prev is None,
                })
                &&& ((*final(self)) is Leaf <==> (*old(self)) is Leaf)
                &&& final(self).height() == old(self).height()
                &&& match split {
                    None => {
                        &&& final(self).ok(m)
                        &&& final(self).entries() == kv_insert(old(self).entries(), key, value)
                        &&& old(self).key_count() <= final(self).key_count() <= old(
                            self,
                        ).key_count() + 1
                    },
                    Some(sk) => {
                        &&& final(self).ok(m)
                        &&& sk.1.ok(m)
                        &&& final(self).sized(m)
                        &&& sk.1.sized(m)
                        &&& final(self).entries() + sk.1.entries() == kv_insert(
                            old(self).entries(),
                            key,
                            value,
                        )
                        &&& keys_below(final(self).entries(), sk.0)
                        &&& keys_at_least(sk.1.entries(), sk.0)
                        &&& final(self).entries().len() >= 1
                        &&& sk.1.entries().len() >= 1
                        &&& sk.1.height() == old(self).height()
                        &&& (sk.1 is Leaf <==> (*old(self)) is Leaf)
                        &&& prev is None
                    },
                }
            }),
        decreases *old(self),
    {
        let ghost m = order as int;
        match self {
            Node::Leaf(leaf) => {
                proof {
                    lemma_find_props(leaf.entries@, key);
                }
                let r = rank_entries(&leaf.entries, key);
                if r > 0 && leaf.entries[r - 1].0 == key {
                    leaf.dirty = true;
                    let old_pair = leaf.entries.remove(r - 1);
                    leaf.entries.insert(r - 1, (key, value));
                    proof {
                        lemma_find_at(old(self)->Leaf_0.entries@, key, r - 1);
                        lemma_replace_at(old(self)->Leaf_0.entries@, key, value, r - 1);
                        assert(leaf.entries@ =~= old(self)->Leaf_0.entries@.update(
                            r - 1,
                            (key, value),
                        ));
                        lemma_kv_insert_props(old(self)->Leaf_0.entries@, key, value);
                    }
                    (Some(old_pair.1), None)
                } else {
                    proof {
                        if has_key(old(self)->Leaf_0.entries@, key) {
                            let s = old(self)->Leaf_0.entries@;
                            let i = choose|i: int| 0 <= i < s.len() && (#[trigger] s[i]).0 == key;
                            assert(i < r || r <= i);
                            assert(false);
                        }
                        assert forall|j: int| 0 <= j < r implies (#[trigger] old(
                            self,
                        )->Leaf_0.entries@[j]).0 < key by {
                            let s = old(self)->Leaf_0.entries@;
                            assert(s[j].0 <= key && s[j].0 != key);
                        }
                        lemma_insert_at_rank(old(self)->Leaf_0.entries@, key, value, r as int);
                        lemma_kv_insert_props(old(self)->Leaf_0.entries@, key, value);
                    }
                    leaf.dirty = true;
                    leaf.entries.insert(r, (key, value));
                    if leaf.entries.len() <= order {
                        (None, None)
                    } else {
                        let (sep, right) = leaf.split(order);
                        (None, Some((sep, right)))
                    }
                }
            },
            Node::Internal(node) => {
                proof {
                    assert(decreases_to!(*old(self) => old(self)->Internal_0));
                }
                let (prev, split) = node.insert_down(key, value, order);
                (prev, split)
            },
        }
    }
}
impl<T> Internal<T> {
    /// Remove `key` below this internal node, rebalancing the child it was
    /// taken from if that child fell below its bound.
    #[verifier::rlimit(100)]
    #[verifier::spinoff_prover]
    fn remove_down(&mut self, key: u64, order: usize, freed: &mut Vec<u128>) -> (r: Option<(u64, T)>)
        requires
            internal_ok(old(self).keys@, old(self).children@, order as int),
            old(self).keys@.len() <= order as int,
            1 <= old(self).keys@.len(),
            order >= 3,
        ensures
            ({
                let m = order as int;
                let oldmap = Node::entries_of(old(self).children@);
                &&& internal_ok(final(self).keys@, final(self).children@, m)
                &&& final(self).keys@.len() <= m
                &&& Node::entries_of(final(self).children@) == kv_remove(oldmap, key)
                &&& r == find(oldmap, key)
                &&& Node::height_of(final(self).children@) == Node::height_of(
                    old(self).children@,
                )
                &&& old(self).keys@.len() - 1 <= final(self).keys@.len() <= old(
                    self,
                ).keys@.len()
                &&& (r is None ==> final(self).keys@.len() == old(self).keys@.len())
            }),
        decreases *old(self),
    {
        let ghost m = order as int;
        let i = rank_keys(&self.keys, key);
        proof {
            broadcast use vstd::std_specs::vec::axiom_vec_index_decreases;

            assert(decreases_to!(*old(self) => old(self).children));
            assert(decreases_to!(old(self).children => old(self).children@[i as int]));
            assert(decreases_to!(*old(self) => old(self).children@[i as int]));
            lemma_route(
                old(self).keys@,
                old(self).children@,
                m,
                i as int,
                key,
                arbitrary::<T>(),
            );
        }
        let ghost ks = old(self).keys@;
        let ghost ch = old(self).children@;
        let ghost pre = Node::entries_of(ch.take(i as int));
        let ghost mid = ch[i as int].entries();
        let ghost suf = Node::entries_of(ch.skip(i as int + 1));
        let mut child = self.children.remove(i);
        let r = child.remove_in(key, order, freed);
        if r.is_some() {
            self.dirty = true;
        }
        let ghost c2 = child;
        let ghost ch2 = ch.update(i as int, c2);
        proof {
            lemma_kv_remove_props(mid, key);
            if i > 0 {
                assert(keys_at_least(mid, ks[i - 1]));
                assert(keys_at_least(kv_remove(mid, key), ks[i - 1]));
            }
            if (i as int) < ks.len() {
                assert(keys_below(mid, ks[i as int]));
                assert(keys_below(kv_remove(mid, key), ks[i as int]));
            }
            assert(self.children@ =~= ch2.remove(i as int));
            assert(Node::entries_of(ch2) == pre + kv_remove(mid, key) + suf) by {
                lemma_entries_of_at(ch2, i as int);
                assert(ch2.take(i as int) =~= ch.take(i as int));
                assert(ch2.skip(i as int + 1) =~= ch.skip(i as int + 1));
            }
        }
        if !child.underfull(order) {
            self.children.insert(i, child);
            proof {
                assert(c2.sized(m)) by {
                    assert(!(c2.key_count() < min_keys_of(c2, m)));
                }
                lemma_internal_update(ks, ch, m, i as int, c2);
                assert(self.children@ =~= ch2);
                assert(Node::height_of(ch2) == Node::height_of(ch)) by {
                    assert(ch2[0].height() == ch[0].height());
                }
            }
            return r;
        }
        proof {
            assert(ch[i as int].sized(m));
            assert(c2.key_count() == min_keys_of(c2, m) - 1) by {
                assert(min_keys_of(c2, m) == min_keys_of(ch[i as int], m));
            }
            lemma_internal_update_except(ks, ch, m, i as int, c2);
        }
        if i > 0 && self.children[i - 1].has_extra(order) {
            proof {
                assert(ch2[i as int - 1] == ch[i as int - 1]);
            }
            self.borrow_left(i, child, order, Ghost(ks), Ghost(ch2));
        } else if i < self.keys.len() && self.children[i].has_extra(order) {
            proof {
                assert(ch2[i as int + 1] == ch[i as int + 1]);
                assert(ch2.remove(i as int)[i as int] == ch2[i as int + 1]);
            }
            self.borrow_right(i, child, order, Ghost(ks), Ghost(ch2));
        } else if i > 0 {
            proof {
                assert(ch2[i as int - 1] == ch[i as int - 1]);
                assert(ch2[i as int - 1].sized(m));
            }
            self.merge_left(i, child, order, freed, Ghost(ks), Ghost(ch2));
        } else {
            proof {
                assert(ch2[i as int + 1] == ch[i as int + 1]);
                assert(ch2.remove(i as int)[i as int] == ch2[i as int + 1]);
                assert(ch2[i as int + 1].sized(m));
            }
            self.merge_right(i, child, order, freed, Ghost(ks), Ghost(ch2));
        }
        proof {
            assert(r is Some) by {
                if r is None {
                    assert(c2.key_count() == ch[i as int].key_count());
                }
            }
        }
        r
    }
}

impl<T> Node<T> {
    /// Remove `key` from the subtree: the removed pair comes back, the
    /// subtree stays sound, and at most one key leaves this node itself.
    #[verifier::rlimit(100)]
    #[verifier::spinoff_prover]
    pub(crate) fn remove_in(&mut self, key: u64, order: usize, freed: &mut Vec<u128>) -> (r: Option<(u64, T)>)
        requires
            old(self).ok(order as int),
            (*old(self)) is Internal ==> old(self).key_count() >= 1,
            order >= 3,
        ensures
            final(self).ok(order as int),
            final(self).entries() == kv_remove(old(self).entries(), key),
            r == find(old(self).entries(), key),
            final(self).height() == old(self).height(),
            ((*final(self)) is Leaf <==> (*old(self)) is Leaf),
            old(self).key_count() - 1 <= final(self).key_count() <= old(self).key_count(),
            r is None ==> final(self).key_count() == old(self).key_count(),
        decreases *old(self),
    {
        match self {
            Node::Leaf(leaf) => {
                proof {
                    lemma_find_props(leaf.entries@, key);
                    lemma_kv_remove_props(leaf.entries@, key);
                }
                let rk = rank_entries(&leaf.entries, key);
                if rk > 0 && leaf.entries[rk - 1].0 == key {
                    proof {
                        lemma_find_at(old(self)->Leaf_0.entries@, key, rk - 1);
                        lemma_remove_at(old(self)->Leaf_0.entries@, key, rk - 1);
                    }
                    leaf.dirty = true;
                    let pair = leaf.entries.remove(rk - 1);
                    Some(pair)
                } else {
                    proof {
                        if has_key(old(self)->Leaf_0.entries@, key) {
                            let s = old(self)->Leaf_0.entries@;
                            let j = choose|j: int| 0 <= j < s.len() && (#[trigger] s[j]).0 == key;
                            assert(j < rk || rk <= j);
                            assert(false);
                        }
                    }
                    None
                }
            },
            Node::Internal(node) => {
                proof {
                    assert(decreases_to!(*old(self) => old(self)->Internal_0));
                }
                node.remove_down(key, order, freed)
            },
        }
    }
}


/// The in-memory B+Tree map from `u64` keys to values of type `T`.
pub struct BPTreeMap<T> {
    root: Option<Node<T>>,
    order: usize,
    len: usize,
}

impl<T> BPTreeMap<T> {
    /// The tree's content, as the in-order sequence of its pairs.
    pub closed spec fn spec_entries(self) -> Seq<(u64, T)> {
        match self.root {
            None => Seq::empty(),
            Some(node) => node.entries(),
        }
    }

    /// The branching order the tree was created with.
    pub closed spec fn spec_order(self) -> int {
        self.order as int
    }

    /// Well-formedness: order at least three; size bounds on every non-root
    /// node; strictly ascending keys in every node; separator consistency;
    /// uniform leaf depth; a non-empty root that is dropped when the last
    /// pair goes; and a length field equal to the number of pairs.
    pub closed spec fn wf(self) -> bool {
        &&& self.order >= 3
        &&& match self.root {
            None => self.len == 0,
            Some(node) => {
                &&& node.ok(self.order as int)
                &&& node.entries().len() == self.len
                &&& node.entries().len() >= 1
                &&& (node is Internal ==> node.key_count() >= 1)
            },
        }
    }
}

impl<T> View for BPTreeMap<T> {
    type V = Seq<(u64, T)>;

    open spec fn view(&self) -> Seq<(u64, T)> {
        self.spec_entries()
    }
}

impl<T> BPTreeMap<T> {
    /// An empty tree with the default branching order of three.
    pub fn new() -> (r: Self)
        ensures
            r.wf(),
            r@ == Seq::<(u64, T)>::empty(),
            r.spec_order() == 3,
    {
        Self::with_order(3)
    }

    /// An empty tree with the given branching order.
    pub fn with_order(order: usize) -> (r: Self)
        requires
            order >= 3,
        ensures
            r.wf(),
            r@ == Seq::<(u64, T)>::empty(),
            r.spec_order() == order as int,
    {
        BPTreeMap { root: None, order, len: 0 }
    }

    /// How many pairs the tree holds.
    pub fn len(&self) -> (r: usize)
        requires
            self.wf(),
        ensures
            r == self@.len(),
    {
        self.len
    }

    /// Whether the tree holds no pairs.
    pub fn is_empty(&self) -> (r: bool)
        requires
            self.wf(),
        ensures
            r == (self@.len() == 0),
    {
        self.len == 0
    }

    /// The pair at `key`, if present.
    pub fn get_key_value(&self, key: u64) -> (r: Option<(u64, &T)>)
        requires
            self.wf(),
        ensures
            match find(self@, key) {
                Some(p) => r is Some && r.unwrap().0 == key && p.1 == *r.unwrap().1,
                None => r is None,
            },
    {
        match &self.root {
            None => None,
            Some(node) => match node.find_in(key, Ghost(self.order as int)) {
                None => None,
                Some(p) => Some((p.0, &p.1)),
            },
        }
    }

    /// The value at `key`, if present.
    pub fn get(&self, key: u64) -> (r: Option<&T>)
        requires
            self.wf(),
        ensures
            match find(self@, key) {
                Some(p) => r is Some && p.1 == *r.unwrap(),
                None => r is None,
            },
    {
        match self.get_key_value(key) {
            None => None,
            Some((_, v)) => Some(v),
        }
    }

    /// Whether some pair carries `key`.
    pub fn contains_key(&self, key: u64) -> (r: bool)
        requires
            self.wf(),
        ensures
            r == has_key(self@, key),
    {
        proof {
            lemma_find_props(self@, key);
        }
        match self.get(key) {
            Some(_) => true,
            None => false,
        }
    }

    /// Insert `(key, value)`: replaces and returns the prior value when the
    /// key is present, and otherwise adds the pair, growing the root if a
    /// split propagates all the way up.
    pub fn insert(&mut self, key: u64, value: T) -> (prev: Option<T>)
        requires
            old(self).wf(),
            old(self)@.len() < usize::MAX as nat || has_key(old(self)@, key),
        ensures
            final(self).wf(),
            final(self)@ == kv_insert(old(self)@, key, value),
            final(self).spec_order() == old(self).spec_order(),
            match find(old(self)@, key) {
                Some(p) => prev == Some(p.1),
                None => prev is None,
            },
            prev is Some ==> final(self)@.len() == old(self)@.len(),
            prev is None ==> final(self)@.len() == old(self)@.len() + 1,
            !final(self).spec_clean(),
    {
        proof {
            self.lemma_view_sorted();
            lemma_kv_insert_props(self@, key, value);
            lemma_find_props(self@, key);
        }
        if self.root.is_none() {
            let mut entries: Vec<(u64, T)> = Vec::new();
            entries.push((key, value));
            proof {
                assert(entries@ =~= seq![(key, value)]);
                assert(kv_insert(old(self)@, key, value) =~= seq![(key, value)]);
            }
            self.root = Some(Node::Leaf(Leaf { id: fresh_id(), entries, next: None, dirty: true }));
            self.len = 1;
            return None;
        }
        let mut root = self.root.take().unwrap();
        let (prev, split) = root.insert_in(key, value, self.order);
        match split {
            None => {
                self.root = Some(root);
            },
            Some((sep, right)) => {
                // The root itself split: grow a new internal root above the
                // two halves.
                let mut keys: Vec<u64> = Vec::new();
                keys.push(sep);
                let mut children: Vec<Node<T>> = Vec::new();
                children.push(root);
                children.push(right);
                proof {
                    let l = children@[0];
                    let rt = children@[1];
                    assert(children@ =~= seq![l, rt]);
                    assert(keys@ =~= seq![sep]);
                    assert(children@.drop_first() =~= seq![rt]);
                    lemma_entries_of_unit(rt);
                    assert(Node::entries_of(children@) == l.entries() + rt.entries());
                }
                self.root = Some(
                    Node::Internal(Internal { id: fresh_id(), keys, children, dirty: true }),
                );
            },
        }
        if prev.is_none() {
            self.len = self.len + 1;
        }
        prev
    }

    /// Remove the pair at `key` if present, shrinking the root when a merge
    /// leaves it with a single child and dropping it when the tree empties.
    #[verifier::rlimit(100)]
    #[verifier::spinoff_prover]
    pub fn remove_entry(&mut self, key: u64) -> (r: Option<(u64, T)>)
        requires
            old(self).wf(),
        ensures
            final(self).wf(),
            final(self)@ == kv_remove(old(self)@, key),
            r == find(old(self)@, key),
            final(self).spec_order() == old(self).spec_order(),
            r is Some ==> final(self)@.len() == old(self)@.len() - 1,
            r is None ==> final(self)@ == old(self)@,
    {
        let mut freed: Vec<u128> = Vec::new();
        self.remove_entry_tracked(key, &mut freed)
    }

    /// [`BPTreeMap::remove_entry`], also reporting the identities of nodes
    /// that were dissolved, so that a disk backend can reclaim their files.
    pub fn remove_entry_tracked(&mut self, key: u64, freed: &mut Vec<u128>) -> (r: Option<
        (u64, T),
    >)
        requires
            old(self).wf(),
        ensures
            final(self).wf(),
            final(self)@ == kv_remove(old(self)@, key),
            r == find(old(self)@, key),
            final(self).spec_order() == old(self).spec_order(),
            r is Some ==> final(self)@.len() == old(self)@.len() - 1,
            r is None ==> final(self)@ == old(self)@,
    {
        proof {
            self.lemma_view_sorted();
            lemma_kv_remove_props(self@, key);
            lemma_find_props(self@, key);
        }
        if self.root.is_none() {
            return None;
        }
        let mut root = self.root.take().unwrap();
        let ghost oldroot = root;
        let r = root.remove_in(key, self.order, freed);
        let collapse = match &root {
            Node::Internal(nd) => nd.keys.len() == 0,
            Node::Leaf(_) => false,
        };
        if collapse {
            // A merge of the root's two children left it with one child:
            // that child is the new root.
            let mut nd = match root {
                Node::Internal(nd) => nd,
                Node::Leaf(_) => unreached(),
            };
            freed.push(nd.id);
            let newroot = nd.children.pop().unwrap();
            proof {
                assert(nd.children@.len() == 0);
                assert(root->Internal_0.children@ =~= seq![newroot]);
                lemma_entries_of_unit(newroot);
                assert(newroot.entries() == kv_remove(old(self)@, key));
                assert(r is Some) by {
                    if r is None {
                        assert(root.key_count() == oldroot.key_count());
                    }
                }
                lemma_ok_nonempty(newroot, self.order as int);
            }
            self.root = Some(newroot);
        } else {
            let drop_root = match &root {
                Node::Leaf(l) => l.entries.len() == 0,
                Node::Internal(_) => false,
            };
            if drop_root {
                freed.push(root.node_id());
                proof {
                    assert(root.entries().len() == 0);
                    assert(r is Some) by {
                        if r is None {
                            assert(root.entries() == oldroot.entries());
                        }
                    }
                }
                self.root = None;
            } else {
                proof {
                    assert(root.entries().len() >= 1) by {
                        match root {
                            Node::Leaf(l) => {},
                            Node::Internal(nd) => {
                                lemma_entries_of_at(nd.children@, 0);
                                lemma_ok_nonempty(nd.children@[0], self.order as int);
                            },
                        }
                    }
                }
                self.root = Some(root);
            }
        }
        if r.is_some() {
            proof {
                assert(has_key(old(self)@, key));
                assert(old(self)@.len() >= 1);
            }
            self.len = self.len - 1;
        }
        r
    }

    /// Remove the value at `key`, if present.
    pub fn remove(&mut self, key: u64) -> (r: Option<T>)
        requires
            old(self).wf(),
        ensures
            final(self).wf(),
            final(self)@ == kv_remove(old(self)@, key),
            match find(old(self)@, key) {
                Some(p) => r == Some(p.1),
                None => r is None,
            },
            final(self).spec_order() == old(self).spec_order(),
    {
        match self.remove_entry(key) {
            Some(p) => Some(p.1),
            None => None,
        }
    }

    /// The keys of a well-formed tree read out strictly ascending: the leaf
    /// chain, which is what in-order traversal walks, is sorted.
    pub proof fn lemma_view_sorted(self)
        requires
            self.wf(),
        ensures
            sorted_keys(self@),
    {
        match self.root {
            None => {},
            Some(node) => {
                lemma_ok_sorted(node, self.order as int);
            },
        }
    }
}

impl<T> Default for BPTreeMap<T> {
    /// The same tree `new` builds: empty, order three.
    fn default() -> (r: Self)
        ensures
            r.wf(),
            r@ == Seq::<(u64, T)>::empty(),
    {
        Self::new()
    }
}

} // verus!

use vstd::prelude::*;

verus! {

impl<T: Copy> Node<T> {
    /// Append this subtree's pairs, in order, to `out`.
    pub(crate) fn push_entries(&self, out: &mut Vec<(u64, T)>)
        ensures
            final(out)@ == old(out)@ + self.entries(),
        decreases *self,
    {
        match self {
            Node::Leaf(leaf) => {
                let mut j: usize = 0;
                while j < leaf.entries.len()
                    invariant
                        j <= leaf.entries@.len(),
                        (*self) is Leaf,
                        self->Leaf_0.entries@ == leaf.entries@,
                        out@ == old(out)@ + leaf.entries@.take(j as int),
                    decreases leaf.entries@.len() - j,
                {
                    let p = leaf.entries[j];
                    proof {
                        assert(leaf.entries@.take(j as int).push(p) =~= leaf.entries@.take(
                            j as int + 1,
                        ));
                        assert(old(out)@ + leaf.entries@.take(j as int) + seq![p] =~= old(out)@
                            + leaf.entries@.take(j as int + 1));
                    }
                    out.push(p);
                    j = j + 1;
                }
                proof {
                    assert(leaf.entries@.take(leaf.entries@.len() as int) =~= leaf.entries@);
                }
            },
            Node::Internal(node) => {
                let mut j: usize = 0;
                proof {
                    assert(node.children@.take(0) =~= Seq::<Node<T>>::empty());
                    assert(old(out)@ + Node::entries_of(Seq::<Node<T>>::empty()) =~= old(out)@);
                }
                while j < node.children.len()
                    invariant
                        j <= node.children@.len(),
                        (*self) is Internal,
                        self->Internal_0 == *node,
                        out@ == old(out)@ + Node::entries_of(node.children@.take(j as int)),
                    decreases node.children@.len() - j,
                {
                    proof {
                        broadcast use vstd::std_specs::vec::axiom_vec_index_decreases;

                        assert(decreases_to!(*self => self->Internal_0));
                        assert(decreases_to!(self->Internal_0 => node.children));
                        assert(decreases_to!(node.children => node.children@[j as int]));
                        assert(decreases_to!(*self => node.children@[j as int]));
                    }
                    let c: &Node<T> = &node.children[j];
                    c.push_entries(out);
                    proof {
                        lemma_entries_of_take_snoc(node.children@, j as int + 1);
                        assert((old(out)@ + Node::entries_of(node.children@.take(j as int)))
                            + node.children@[j as int].entries() =~= old(out)@ + (
                        Node::entries_of(node.children@.take(j as int)) + node.children@[
                            j as int].entries()));
                    }
                    j = j + 1;
                }
                proof {
                    assert(node.children@.take(node.children@.len() as int) =~= node.children@);
                }
            },
        }
    }
}

impl<T: Copy> BPTreeMap<T> {
    /// The pairs in ascending key order, as the leaf chain yields them.
    pub fn iter(&self) -> (r: Vec<(u64, T)>)
        requires
            self.wf(),
        ensures
            r@ == self@,
    {
        let mut out: Vec<(u64, T)> = Vec::new();
        match &self.root {
            None => {},
            Some(node) => {
                node.push_entries(&mut out);
            },
        }
        proof {
            if self.root is Some {
                assert(Seq::<(u64, T)>::empty() + self@ =~= self@);
            }
        }
        out
    }

    /// The keys in ascending order.
    pub fn keys(&self) -> (r: Vec<u64>)
        requires
            self.wf(),
        ensures
            r@.len() == self@.len(),
            forall|j: int| 0 <= j < r@.len() ==> r@[j] == self@[j].0,
    {
        let all = self.iter();
        let mut out: Vec<u64> = Vec::new();
        let mut j: usize = 0;
        while j < all.len()
            invariant
                j <= all@.len(),
                all@ == self@,
                out@.len() == j,
                forall|t: int| 0 <= t < j ==> out@[t] == all@[t].0,
            decreases all@.len() - j,
        {
            out.push(all[j].0);
            j = j + 1;
        }
        out
    }

    /// The values in ascending key order.
    pub fn values(&self) -> (r: Vec<T>)
        requires
            self.wf(),
        ensures
            r@.len() == self@.len(),
            forall|j: int| 0 <= j < r@.len() ==> r@[j] == self@[j].1,
    {
        let all = self.iter();
        let mut out: Vec<T> = Vec::new();
        let mut j: usize = 0;
        while j < all.len()
            invariant
                j <= all@.len(),
                all@ == self@,
                out@.len() == j,
                forall|t: int| 0 <= t < j ==> out@[t] == all@[t].1,
            decreases all@.len() - j,
        {
            out.push(all[j].1);
            j = j + 1;
        }
        out
    }
}

impl<T> BPTreeMap<T> {
    /// Idempotence: a second insert of the same pair changes nothing and
    /// finds the first one's value; a second removal of the same key finds
    /// nothing and changes nothing further.
    pub proof fn lemma_idempotence(self, k: u64, v: T)
        requires
            self.wf(),
        ensures
            kv_insert(kv_insert(self@, k, v), k, v) == kv_insert(self@, k, v),
            find(kv_insert(self@, k, v), k) == Some((k, v)),
            kv_remove(kv_remove(self@, k), k) == kv_remove(self@, k),
            find(kv_remove(self@, k), k) is None,
    {
        self.lemma_view_sorted();
        lemma_kv_insert_props(self@, k, v);
        lemma_kv_remove_props(self@, k);
        lemma_kv_remove_props(kv_remove(self@, k), k);
        lemma_find_props(kv_remove(self@, k), k);
        lemma_insert_stable(kv_insert(self@, k, v), k, v);
    }
}

/// Inserting a pair that already sits at its place leaves the sequence
/// unchanged.
pub proof fn lemma_insert_stable<T>(s: Seq<(u64, T)>, k: u64, v: T)
    requires
        sorted_keys(s),
        find(s, k) == Some((k, v)),
    ensures
        kv_insert(s, k, v) == s,
    decreases s.len(),
{
    if s.len() == 0 {
    } else if k < s[0].0 {
        lemma_find_props(s, k);
        let j = choose|j: int| 0 <= j < s.len() && (#[trigger] s[j]).0 == k;
        assert(s[0].0 <= s[j].0);
        assert(false);
    } else if k == s[0].0 {
        assert(s[0] == (k, v));
        assert(seq![(k, v)] + s.drop_first() =~= s);
    } else {
        assert(forall|t: int|
            0 <= t < s.drop_first().len() ==> (#[trigger] s.drop_first()[t]) == s[t + 1]);
        assert(sorted_keys(s.drop_first()));
        lemma_insert_stable(s.drop_first(), k, v);
        assert(seq![s[0]] + s.drop_first() =~= s);
    }
}

} // verus!

use crate::image::{encode_image, NodeImage};

verus! {

impl<T> Node<T> {
    /// No node in this subtree is flagged dirty.
    pub open spec fn clean(self) -> bool
        decreases self,
    {
        match self {
            Node::Leaf(leaf) => !leaf.dirty,
            Node::Internal(node) => !node.dirty && Node::clean_of(node.children@),
        }
    }

    /// No node below any of these children is flagged dirty.
    pub open spec fn clean_of(s: Seq<Node<T>>) -> bool
        decreases s,
    {
        if s.len() == 0 {
            true
        } else {
            s[0].clean() && Node::clean_of(s.drop_first())
        }
    }
}

/// Cleanliness of a child sequence is elementwise.
pub proof fn lemma_clean_of_index<T>(s: Seq<Node<T>>)
    ensures
        Node::clean_of(s) <==> (forall|j: int| 0 <= j < s.len() ==> (#[trigger] s[j]).clean()),
    decreases s,
{
    if s.len() > 0 {
        lemma_clean_of_index(s.drop_first());
        assert(forall|j: int|
            0 <= j < s.drop_first().len() ==> (#[trigger] s.drop_first()[j]) == s[j + 1]);
        if s[0].clean() && forall|j: int|
            0 <= j < s.drop_first().len() ==> (#[trigger] s.drop_first()[j]).clean() {
            assert forall|j: int| 0 <= j < s.len() implies (#[trigger] s[j]).clean() by {
                if j > 0 {
                    assert(s.drop_first()[j - 1] == s[j]);
                }
            }
        }
    }
}

/// A plain copy of a vector of copyable items.
fn copy_values<T: Copy>(v: &Vec<T>) -> (r: Vec<T>)
    ensures
        r@ == v@,
{
    let mut out: Vec<T> = Vec::new();
    let mut j: usize = 0;
    while j < v.len()
        invariant
            j <= v@.len(),
            out@ == v@.take(j as int),
        decreases v@.len() - j,
    {
        out.push(v[j]);
        proof {
            assert(v@.take(j as int).push(v@[j as int]) =~= v@.take(j as int + 1));
        }
        j = j + 1;
    }
    proof {
        assert(v@.take(v@.len() as int) =~= v@);
    }
    out
}

/// The identities of a row of children, in order.
fn child_ids(v: &Vec<Node<u64>>) -> (r: Vec<u128>)
    ensures
        r@.len() == v@.len(),
        forall|j: int| 0 <= j < v@.len() ==> r@[j] == (#[trigger] v@[j]).spec_id(),
{
    let mut out: Vec<u128> = Vec::new();
    let mut j: usize = 0;
    while j < v.len()
        invariant
            j <= v@.len(),
            out@.len() == j,
            forall|t: int| 0 <= t < j ==> out@[t] == (#[trigger] v@[t]).spec_id(),
        decreases v@.len() - j,
    {
        out.push(v[j].node_id());
        j = j + 1;
    }
    out
}

impl Node<u64> {
    /// Depth-first: flush every dirty node below and including this one,
    /// appending its identity and encoded image, and lower the flags.
    #[verifier::rlimit(100)]
    #[verifier::spinoff_prover]
    pub(crate) fn flush(&mut self, out: &mut Vec<(u128, Vec<u8>)>, Ghost(m): Ghost<int>)
        requires
            old(self).ok(m),
        ensures
            final(self).ok(m),
            final(self).entries() == old(self).entries(),
            final(self).height() == old(self).height(),
            final(self).key_count() == old(self).key_count(),
            final(self).spec_id() == old(self).spec_id(),
            ((*final(self)) is Leaf <==> (*old(self)) is Leaf),
            old(self).sized(m) ==> final(self).sized(m),
            final(self).clean(),
            appended_images(old(out)@, final(out)@, old(self).dirty_images()),
        decreases *old(self),
    {
        match self {
            Node::Leaf(leaf) => {
                if leaf.dirty {
                    let entries = copy_values(&leaf.entries);
                    let image = NodeImage::Leaf { id: leaf.id, entries, next: leaf.next };
                    let bytes = encode_image(&image);
                    proof {
                        assert(bytes@ == old(self).image());
                    }
                    out.push((leaf.id, bytes));
                }
                leaf.dirty = false;
                proof {
                    assert(leaf.id == old(self)->Leaf_0.id);
                }
            },
            Node::Internal(node) => {
                let ghost ks = old(self)->Internal_0.keys@;
                let ghost ch = old(self)->Internal_0.children@;
                let mut j: usize = 0;
                while j < node.children.len()
                    invariant
                        j <= node.children@.len(),
                        node.children@.len() == ch.len(),
                        node.keys@ == ks,
                        (*old(self)) is Internal,
                        ks == old(self)->Internal_0.keys@,
                        ch == old(self)->Internal_0.children@,
                        node.id == old(self)->Internal_0.id,
                        internal_ok(ks, node.children@, m),
                        Node::entries_of(node.children@) == Node::entries_of(ch),
                        Node::height_of(node.children@) == Node::height_of(ch),
                        forall|t: int| 0 <= t < j ==> (#[trigger] node.children@[t]).clean(),
                        forall|t: int|
                            j <= t < ch.len() ==> (#[trigger] node.children@[t]) == ch[t],
                        forall|t: int|
                            0 <= t < ch.len() ==> (#[trigger] node.children@[t]).spec_id() == ch[
                                t
                            ].spec_id(),
                        node.dirty == old(self)->Internal_0.dirty,
                        appended_images(
                            old(out)@,
                            out@,
                            Node::dirty_images_of(ch.take(j as int)),
                        ),
                        internal_ok(ks, ch, m),
                    decreases ch.len() - j,
                {
                    let ghost before = node.children@;
                    let ghost out_before = out@;
                    let mut c = node.children.remove(j);
                    proof {
                        broadcast use vstd::std_specs::vec::axiom_vec_index_decreases;

                        assert(decreases_to!(*old(self) => old(self)->Internal_0));
                        assert(decreases_to!(old(self)->Internal_0 => old(
                            self,
                        )->Internal_0.children));
                        assert(decreases_to!(old(self)->Internal_0.children => old(
                            self,
                        )->Internal_0.children@[j as int]));
                        assert(decreases_to!(*old(self) => old(self)->Internal_0.children@[
                            j as int
                        ]));
                        assert(c == ch[j as int]);
                        assert(c.ok(m));
                    }
                    c.flush(out, Ghost(m));
                    node.children.insert(j, c);
                    proof {
                        let c2 = node.children@[j as int];
                        assert(node.children@ =~= before.update(j as int, c2));
                        assert(c2.sized(m)) by {
                            assert(before[j as int].sized(m));
                        }
                        lemma_internal_update(ks, before, m, j as int, c2);
                        lemma_entries_of_at(before.update(j as int, c2), j as int);
                        lemma_entries_of_at(before, j as int);
                        assert(before.update(j as int, c2).take(j as int) =~= before.take(
                            j as int,
                        ));
                        assert(before.update(j as int, c2).skip(j as int + 1) =~= before.skip(
                            j as int + 1,
                        ));
                        assert(Node::entries_of(node.children@) == Node::entries_of(before));
                        assert(Node::height_of(node.children@) == Node::height_of(before)) by {
                            assert(node.children@[0].height() == before[0].height());
                        }
                        lemma_dirty_images_take_snoc(ch, j as int);
                        lemma_appended_compose(
                            old(out)@,
                            out_before,
                            out@,
                            Node::dirty_images_of(ch.take(j as int)),
                            ch[j as int].dirty_images(),
                        );
                    }
                    j = j + 1;
                }
                proof {
                    assert(ch.take(ch.len() as int) =~= ch);
                }
                if node.dirty {
                    let keys = copy_values(&node.keys);
                    let children = child_ids(&node.children);
                    proof {
                        assert(children@ =~= ids_of(ch)) by {
                            assert forall|t: int| 0 <= t < ch.len() implies children@[t] == ids_of(
                                ch,
                            )[t] by {
                                assert(children@[t] == node.children@[t].spec_id());
                                assert(node.children@[t].spec_id() == ch[t].spec_id());
                            }
                        }
                    }
                    let image = NodeImage::Internal { id: node.id, keys, children };
                    let bytes = encode_image(&image);
                    proof {
                        assert(bytes@ == old(self).image());
                    }
                    let ghost out_mid = out@;
                    out.push((node.id, bytes));
                    proof {
                        lemma_appended_compose(
                            old(out)@,
                            out_mid,
                            out@,
                            Node::dirty_images_of(ch),
                            seq![(node.id, old(self).image())],
                        );
                    }
                }
                node.dirty = false;
                proof {
                    lemma_clean_of_index(node.children@);
                    assert(node.id == old(self)->Internal_0.id);
                    if !old(self)->Internal_0.dirty {
                        assert(Node::dirty_images_of(ch) + Seq::<(u128, Seq<u8>)>::empty()
                            =~= Node::dirty_images_of(ch));
                    }
                }
            },
        }
    }

    /// Flush the dirty nodes along the search path for `key`, parent before
    /// child, and report whether the path's leaf holds the key.
    #[verifier::rlimit(100)]
    #[verifier::spinoff_prover]
    pub(crate) fn flush_path(
        &mut self,
        key: u64,
        out: &mut Vec<(u128, Vec<u8>)>,
        Ghost(m): Ghost<int>,
    ) -> (found: bool)
        requires
            old(self).ok(m),
        ensures
            final(self).ok(m),
            final(self).entries() == old(self).entries(),
            final(self).height() == old(self).height(),
            final(self).key_count() == old(self).key_count(),
            final(self).spec_id() == old(self).spec_id(),
            ((*final(self)) is Leaf <==> (*old(self)) is Leaf),
            old(self).sized(m) ==> final(self).sized(m),
            found == has_key(old(self).entries(), key),
            appended_images(old(out)@, final(out)@, old(self).path_images(key)),
        decreases *old(self),
    {
        match self {
            Node::Leaf(leaf) => {
                if leaf.dirty {
                    let entries = copy_values(&leaf.entries);
                    let image = NodeImage::Leaf { id: leaf.id, entries, next: leaf.next };
                    let bytes = encode_image(&image);
                    proof {
                        assert(bytes@ == old(self).image());
                    }
                    out.push((leaf.id, bytes));
                    leaf.dirty = false;
                }
                let r = rank_entries(&leaf.entries, key);
                proof {
                    lemma_find_props(leaf.entries@, key);
                    if has_key(leaf.entries@, key) {
                        let s = leaf.entries@;
                        let t = choose|t: int| 0 <= t < s.len() && (#[trigger] s[t]).0 == key;
                        assert(t < r || r <= t);
                    }
                }
                r > 0 && leaf.entries[r - 1].0 == key
            },
            Node::Internal(node) => {
                if node.dirty {
                    let keys = copy_values(&node.keys);
                    let children = child_ids(&node.children);
                    proof {
                        assert(children@ =~= ids_of(old(self)->Internal_0.children@));
                    }
                    let image = NodeImage::Internal { id: node.id, keys, children };
                    let bytes = encode_image(&image);
                    proof {
                        assert(bytes@ == old(self).image());
                    }
                    out.push((node.id, bytes));
                    node.dirty = false;
                }
                let ghost out_mid = out@;
                let ghost own_part: Seq<(u128, Seq<u8>)> = if old(self)->Internal_0.dirty {
                    seq![(old(self)->Internal_0.id, old(self).image())]
                } else {
                    Seq::empty()
                };
                proof {
                    assert(appended_images(old(out)@, out_mid, own_part));
                }
                let i = rank_keys(&node.keys, key);
                proof {
                    broadcast use vstd::std_specs::vec::axiom_vec_index_decreases;

                    assert(decreases_to!(*old(self) => old(self)->Internal_0));
                    assert(decreases_to!(old(self)->Internal_0 => old(
                        self,
                    )->Internal_0.children));
                    assert(decreases_to!(old(self)->Internal_0.children => old(
                        self,
                    )->Internal_0.children@[i as int]));
                    assert(decreases_to!(*old(self) => old(self)->Internal_0.children@[
                        i as int
                    ]));
                    lemma_route(
                        old(self)->Internal_0.keys@,
                        old(self)->Internal_0.children@,
                        m,
                        i as int,
                        key,
                        arbitrary::<u64>(),
                    );
                    lemma_find_props(
                        Node::entries_of(old(self)->Internal_0.children@),
                        key,
                    );
                    lemma_find_props(old(self)->Internal_0.children@[i as int].entries(), key);
                }
                let ghost ks = old(self)->Internal_0.keys@;
                let ghost ch = old(self)->Internal_0.children@;
                let ghost before = node.children@;
                let mut c = node.children.remove(i);
                let found = c.flush_path(key, out, Ghost(m));
                node.children.insert(i, c);
                proof {
                    let c2 = node.children@[i as int];
                    assert(node.children@ =~= ch.update(i as int, c2));
                    assert(c2.sized(m)) by {
                        assert(ch[i as int].sized(m));
                    }
                    lemma_internal_update(ks, ch, m, i as int, c2);
                    lemma_entries_of_at(ch.update(i as int, c2), i as int);
                    lemma_entries_of_at(ch, i as int);
                    assert(ch.update(i as int, c2).take(i as int) =~= ch.take(i as int));
                    assert(ch.update(i as int, c2).skip(i as int + 1) =~= ch.skip(i as int + 1));
                    assert(Node::entries_of(node.children@) == Node::entries_of(ch));
                    assert(Node::height_of(node.children@) == Node::height_of(ch)) by {
                        assert(node.children@[0].height() == ch[0].height());
                    }
                    lemma_rank_of(ks, key, i as int);
                    lemma_appended_compose(
                        old(out)@,
                        out_mid,
                        out@,
                        own_part,
                        ch[i as int].path_images(key),
                    );
                    assert(old(self).path_images(key) == own_part + ch[i as int].path_images(
                        key,
                    ));
                }
                found
            },
        }
    }
}

impl<T> BPTreeMap<T> {
    /// The branching order, as the running code reads it.
    pub fn order(&self) -> (r: usize)
        ensures
            r as int == self.spec_order(),
    {
        self.order
    }

    /// Whether every resident node's dirty flag is lowered.
    pub closed spec fn spec_clean(self) -> bool {
        match self.root {
            None => true,
            Some(node) => node.clean(),
        }
    }
}

impl BPTreeMap<u64> {
    /// The root node's identity, if the tree has a root.
    pub fn root_id(&self) -> (r: Option<u128>)
        requires
            self.wf(),
        ensures
            r == self.spec_root_id(),
            r is Some <==> self@.len() > 0,
    {
        match &self.root {
            None => None,
            Some(n) => Some(n.node_id()),
        }
    }

    /// Flush every dirty node, depth first, appending identities and
    /// encoded images; afterwards nothing is dirty and the content is
    /// untouched.
    pub fn flush_nodes(&mut self, out: &mut Vec<(u128, Vec<u8>)>)
        requires
            old(self).wf(),
        ensures
            final(self).wf(),
            final(self)@ == old(self)@,
            final(self).spec_order() == old(self).spec_order(),
            final(self).spec_root_id() == old(self).spec_root_id(),
            final(self).spec_clean(),
            appended_images(old(out)@, final(out)@, old(self).spec_dirty_images()),
    {
        if self.root.is_none() {
            return ;
        }
        let mut root = self.root.take().unwrap();
        root.flush(out, Ghost(self.order as int));
        self.root = Some(root);
    }

    /// Flush the dirty nodes along the search path for `key`, top down,
    /// reporting whether the key is present at the leaf.
    pub fn flush_key(&mut self, key: u64, out: &mut Vec<(u128, Vec<u8>)>) -> (found: bool)
        requires
            old(self).wf(),
        ensures
            final(self).wf(),
            final(self)@ == old(self)@,
            final(self).spec_order() == old(self).spec_order(),
            final(self).spec_root_id() == old(self).spec_root_id(),
            found == has_key(old(self)@, key),
            appended_images(old(out)@, final(out)@, old(self).spec_path_images(key)),
    {
        if self.root.is_none() {
            return false;
        }
        let mut root = self.root.take().unwrap();
        let found = root.flush_path(key, out, Ghost(self.order as int));
        self.root = Some(root);
        found
    }

    /// Assemble a map from a rebuilt root; the caller vouches for the
    /// root's soundness and the recorded length.
    pub(crate) fn assemble(root: Option<Node<u64>>, order: usize, len: usize) -> (r: Self)
        requires
            order >= 3,
            match root {
                None => len == 0,
                Some(n) => {
                    &&& n.ok(order as int)
                    &&& n.entries().len() == len
                    &&& n.entries().len() >= 1
                    &&& (n is Internal ==> n.key_count() >= 1)
                },
            },
        ensures
            r.wf(),
            r@ == (match root {
                None => Seq::<(u64, u64)>::empty(),
                Some(n) => n.entries(),
            }),
            r.spec_order() == order as int,
            r.spec_clean() <==> (match root {
                None => true,
                Some(n) => n.clean(),
            }),
            r.spec_leaf_refs() == (match root {
                None => Seq::<(u128, Option<u128>)>::empty(),
                Some(n) => n.leaf_refs(),
            }),
    {
        BPTreeMap { root, order, len }
    }
}

} // verus!

use crate::image::{internal_image_bytes, leaf_image_bytes};
use crate::sorted::{lemma_rank_of, rank_of};

verus! {

/// The identities of a row of children, in order.
pub open spec fn ids_of(s: Seq<Node<u64>>) -> Seq<u128> {
    Seq::new(s.len(), |i: int| s[i].spec_id())
}

impl Node<u64> {
    /// The canonical bytes of this node's own file.
    pub open spec fn image(self) -> Seq<u8> {
        match self {
            Node::Leaf(l) => leaf_image_bytes(l.id, l.entries@, l.next),
            Node::Internal(n) => internal_image_bytes(n.id, n.keys@, ids_of(n.children@)),
        }
    }

    /// The identities and images of the dirty nodes below and including
    /// this one, children first: the write set of a full flush.
    pub open spec fn dirty_images(self) -> Seq<(u128, Seq<u8>)>
        decreases self,
    {
        match self {
            Node::Leaf(l) => if l.dirty {
                seq![(l.id, self.image())]
            } else {
                Seq::empty()
            },
            Node::Internal(n) => Node::dirty_images_of(n.children@) + (if n.dirty {
                seq![(n.id, self.image())]
            } else {
                Seq::empty()
            }),
        }
    }

    /// The dirty images below a row of children, left to right.
    pub open spec fn dirty_images_of(s: Seq<Node<u64>>) -> Seq<(u128, Seq<u8>)>
        decreases s,
    {
        if s.len() == 0 {
            Seq::empty()
        } else {
            s[0].dirty_images() + Node::dirty_images_of(s.drop_first())
        }
    }

    /// The identities and images of the dirty nodes on the descent path of
    /// `key`, top down: the write set of a single-key flush.
    pub open spec fn path_images(self, key: u64) -> Seq<(u128, Seq<u8>)>
        decreases self,
    {
        match self {
            Node::Leaf(l) => if l.dirty {
                seq![(l.id, self.image())]
            } else {
                Seq::empty()
            },
            Node::Internal(n) => (if n.dirty {
                seq![(n.id, self.image())]
            } else {
                Seq::empty()
            }) + ({
                let i = rank_of(n.keys@, key);
                if 0 <= i < n.children@.len() {
                    n.children@[i].path_images(key)
                } else {
                    Seq::empty()
                }
            }),
        }
    }
}

/// `new_out` is `old_out` with the given identity–image writes appended:
/// the shape of every flush contract.
pub open spec fn appended_images(
    old_out: Seq<(u128, Vec<u8>)>,
    new_out: Seq<(u128, Vec<u8>)>,
    imgs: Seq<(u128, Seq<u8>)>,
) -> bool {
    &&& new_out.len() == old_out.len() + imgs.len()
    &&& forall|t: int| 0 <= t < old_out.len() ==> new_out[t] == old_out[t]
    &&& forall|t: int|
        0 <= t < imgs.len() ==> (#[trigger] new_out[old_out.len() + t]).0 == imgs[t].0
            && new_out[old_out.len() + t].1@ == imgs[t].1
}

/// Appending in two steps appends the concatenation.
pub proof fn lemma_appended_compose(
    a: Seq<(u128, Vec<u8>)>,
    b: Seq<(u128, Vec<u8>)>,
    c: Seq<(u128, Vec<u8>)>,
    i1: Seq<(u128, Seq<u8>)>,
    i2: Seq<(u128, Seq<u8>)>,
)
    requires
        appended_images(a, b, i1),
        appended_images(b, c, i2),
    ensures
        appended_images(a, c, i1 + i2),
{
    assert forall|t: int| 0 <= t < (i1 + i2).len() implies (#[trigger] c[a.len() + t]).0 == (i1
        + i2)[t].0 && c[a.len() + t].1@ == (i1 + i2)[t].1 by {
        if t < i1.len() {
            assert(c[a.len() + t] == b[a.len() + t]);
            assert((i1 + i2)[t] == i1[t]);
        } else {
            assert(c[b.len() + (t - i1.len())] == c[a.len() + t]);
            assert((i1 + i2)[t] == i2[t - i1.len()]);
        }
    }
}

/// Growing a child row by one child appends its dirty images.
pub proof fn lemma_dirty_images_take_snoc(s: Seq<Node<u64>>, j: int)
    requires
        0 <= j < s.len(),
    ensures
        Node::dirty_images_of(s.take(j + 1)) == Node::dirty_images_of(s.take(j)) + s[
            j
        ].dirty_images(),
    decreases j,
{
    if j == 0 {
        assert(s.take(0) =~= Seq::<Node<u64>>::empty());
        assert(s.take(1)[0] == s[0]);
        assert(s.take(1).drop_first() =~= Seq::<Node<u64>>::empty());
        assert(s[0].dirty_images() + Seq::<(u128, Seq<u8>)>::empty() =~= Seq::<(
            u128,
            Seq<u8>,
        )>::empty() + s[0].dirty_images());
    } else {
        lemma_dirty_images_take_snoc(s.drop_first(), j - 1);
        assert(s.take(j + 1)[0] == s[0]);
        assert(s.take(j + 1).drop_first() =~= s.drop_first().take(j));
        assert(s.take(j)[0] == s[0]);
        assert(s.take(j).drop_first() =~= s.drop_first().take(j - 1));
        assert(s.drop_first()[j - 1] == s[j]);
        assert(s[0].dirty_images() + (Node::dirty_images_of(s.drop_first().take(j - 1)) + s[
            j
        ].dirty_images()) =~= (s[0].dirty_images() + Node::dirty_images_of(
            s.drop_first().take(j - 1),
        )) + s[j].dirty_images());
    }
}

impl<T> BPTreeMap<T> {
    /// The root node, exposed for stating structural facts.
    pub closed spec fn spec_root(self) -> Option<Node<T>> {
        self.root
    }

    /// What well-formedness pins down structurally: an order of at least
    /// three, and a root subtree that is sound — size bounds on every
    /// non-root node, strictly ascending keys, separator consistency,
    /// uniform leaf depth — non-empty, and carrying exactly the view.
    pub proof fn lemma_wf_structure(self)
        requires
            self.wf(),
        ensures
            self.spec_order() >= 3,
            match self.spec_root() {
                None => self@.len() == 0,
                Some(n) => {
                    &&& n.ok(self.spec_order())
                    &&& self@ == n.entries()
                    &&& self@.len() >= 1
                    &&& (n is Internal ==> n.key_count() >= 1)
                },
            },
    {
    }
}

impl BPTreeMap<u64> {
    /// The root node's identity, if any.
    pub closed spec fn spec_root_id(self) -> Option<u128> {
        match self.root {
            None => None,
            Some(n) => Some(n.spec_id()),
        }
    }

    /// The write set of a full flush: every dirty node's identity and
    /// image, children before parents.
    pub closed spec fn spec_dirty_images(self) -> Seq<(u128, Seq<u8>)> {
        match self.root {
            None => Seq::empty(),
            Some(n) => n.dirty_images(),
        }
    }

    /// The write set of a single-key flush: the dirty nodes on the key's
    /// descent path, top down.
    pub closed spec fn spec_path_images(self, key: u64) -> Seq<(u128, Seq<u8>)> {
        match self.root {
            None => Seq::empty(),
            Some(n) => n.path_images(key),
        }
    }
}

} // verus!

verus! {

impl Node<u64> {
    /// The in-order leaves below this node: each one's identity and
    /// forward link.
    pub open spec fn leaf_refs(self) -> Seq<(u128, Option<u128>)>
        decreases self,
    {
        match self {
            Node::Leaf(l) => seq![(l.id, l.next)],
            Node::Internal(n) => Node::leaf_refs_of(n.children@),
        }
    }

    /// The in-order leaves below a row of children.
    pub open spec fn leaf_refs_of(s: Seq<Node<u64>>) -> Seq<(u128, Option<u128>)>
        decreases s,
    {
        if s.len() == 0 {
            Seq::empty()
        } else {
            s[0].leaf_refs() + Node::leaf_refs_of(s.drop_first())
        }
    }
}

/// The forward links thread the leaves left to right, and the last leaf
/// ends the chain.
pub open spec fn chain_linked(s: Seq<(u128, Option<u128>)>) -> bool {
    &&& forall|i: int| 0 <= i < s.len() - 1 ==> (#[trigger] s[i]).1 == Some(s[i + 1].0)
    &&& s.len() > 0 ==> s[s.len() - 1].1 is None
}

/// Growing a child row by one child appends its leaves.
pub proof fn lemma_leaf_refs_take_snoc(s: Seq<Node<u64>>, j: int)
    requires
        0 <= j < s.len(),
    ensures
        Node::leaf_refs_of(s.take(j + 1)) == Node::leaf_refs_of(s.take(j)) + s[j].leaf_refs(),
    decreases j,
{
    if j == 0 {
        assert(s.take(0) =~= Seq::<Node<u64>>::empty());
        assert(s.take(1)[0] == s[0]);
        assert(s.take(1).drop_first() =~= Seq::<Node<u64>>::empty());
        assert(s[0].leaf_refs() + Seq::<(u128, Option<u128>)>::empty() =~= Seq::<(
            u128,
            Option<u128>,
        )>::empty() + s[0].leaf_refs());
    } else {
        lemma_leaf_refs_take_snoc(s.drop_first(), j - 1);
        assert(s.take(j + 1)[0] == s[0]);
        assert(s.take(j + 1).drop_first() =~= s.drop_first().take(j));
        assert(s.take(j)[0] == s[0]);
        assert(s.take(j).drop_first() =~= s.drop_first().take(j - 1));
        assert(s.drop_first()[j - 1] == s[j]);
        assert(s[0].leaf_refs() + (Node::leaf_refs_of(s.drop_first().take(j - 1)) + s[
            j
        ].leaf_refs()) =~= (s[0].leaf_refs() + Node::leaf_refs_of(s.drop_first().take(j - 1)))
            + s[j].leaf_refs());
    }
}

impl BPTreeMap<u64> {
    /// The in-order leaves' identities and forward links.
    pub closed spec fn spec_leaf_refs(self) -> Seq<(u128, Option<u128>)> {
        match self.root {
            None => Seq::empty(),
            Some(n) => n.leaf_refs(),
        }
    }
}

} // verus!
