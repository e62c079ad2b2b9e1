//! Sorted key–value sequences: the vocabulary in which the maps' contracts
//! are stated. A tree's content is abstracted as a `Seq` of `(key, value)`
//! pairs in strictly ascending key order; `find`, `kv_insert` and `kv_remove`
//! say what lookups and mutations mean on that sequence.
use vstd::prelude::*;

verus! {

/// The keys of `s` are strictly ascending.
pub open spec fn sorted_keys<T>(s: Seq<(u64, T)>) -> bool {
    forall|i: int, j: int| 0 <= i < j < s.len() ==> s[i].0 < s[j].0
}

/// A sequence of bare keys is strictly ascending.
pub open spec fn sorted_u64s(s: Seq<u64>) -> bool {
    forall|i: int, j: int| 0 <= i < j < s.len() ==> s[i] < s[j]
}

/// Every key of `s` is strictly below `b`.
pub open spec fn keys_below<T>(s: Seq<(u64, T)>, b: u64) -> bool {
    forall|i: int| 0 <= i < s.len() ==> (#[trigger] s[i]).0 < b
}

/// Every key of `s` is strictly above `b`.
pub open spec fn keys_above<T>(s: Seq<(u64, T)>, b: u64) -> bool {
    forall|i: int| 0 <= i < s.len() ==> (#[trigger] s[i]).0 > b
}

/// Every key of `s` is at least `b`.
pub open spec fn keys_at_least<T>(s: Seq<(u64, T)>, b: u64) -> bool {
    forall|i: int| 0 <= i < s.len() ==> (#[trigger] s[i]).0 >= b
}

/// Some pair of `s` carries the key `k`.
pub open spec fn has_key<T>(s: Seq<(u64, T)>, k: u64) -> bool {
    exists|i: int| 0 <= i < s.len() && (#[trigger] s[i]).0 == k
}

/// The first pair of `s` whose key is `k`, if any.
pub open spec fn find<T>(s: Seq<(u64, T)>, k: u64) -> Option<(u64, T)>
    decreases s.len(),
{
    if s.len() == 0 {
        None
    } else if s[0].0 == k {
        Some(s[0])
    } else {
        find(s.drop_first(), k)
    }
}

/// `s` with `(k, v)` put in key order, replacing the pair at `k` if present.
pub open spec fn kv_insert<T>(s: Seq<(u64, T)>, k: u64, v: T) -> Seq<(u64, T)>
    decreases s.len(),
{
    if s.len() == 0 {
        seq![(k, v)]
    } else if k < s[0].0 {
        seq![(k, v)] + s
    } else if k == s[0].0 {
        seq![(k, v)] + s.drop_first()
    } else {
        seq![s[0]] + kv_insert(s.drop_first(), k, v)
    }
}

/// `s` with the first pair at key `k` taken out, if any.
pub open spec fn kv_remove<T>(s: Seq<(u64, T)>, k: u64) -> Seq<(u64, T)>
    decreases s.len(),
{
    if s.len() == 0 {
        s
    } else if s[0].0 == k {
        s.drop_first()
    } else {
        seq![s[0]] + kv_remove(s.drop_first(), k)
    }
}

/// `find` scans left to right: on a concatenation it prefers the left part.
pub proof fn lemma_find_concat<T>(a: Seq<(u64, T)>, b: Seq<(u64, T)>, k: u64)
    ensures
        find(a + b, k) == (if find(a, k) is Some {
            find(a, k)
        } else {
            find(b, k)
        }),
    decreases a.len(),
{
    if a.len() == 0 {
        assert(a + b =~= b);
    } else {
        assert((a + b).drop_first() =~= a.drop_first() + b);
        lemma_find_concat(a.drop_first(), b, k);
    }
}

/// What `find` returns: a pair with the sought key when one exists.
pub proof fn lemma_find_props<T>(s: Seq<(u64, T)>, k: u64)
    ensures
        match find(s, k) {
            Some(p) => p.0 == k && has_key(s, k),
            None => !has_key(s, k),
        },
    decreases s.len(),
{
    if s.len() > 0 && s[0].0 != k {
        lemma_find_props(s.drop_first(), k);
        if has_key(s, k) {
            let i = choose|i: int| 0 <= i < s.len() && (#[trigger] s[i]).0 == k;
            assert(s.drop_first()[i - 1] == s[i]);
        }
        if has_key(s.drop_first(), k) {
            let i = choose|i: int|
                0 <= i < s.drop_first().len() && (#[trigger] s.drop_first()[i]).0 == k;
            assert(s[i + 1] == s.drop_first()[i]);
        }
    }
}

/// In a sorted sequence, `find` returns exactly the pair sitting at
/// a witnessed index.
pub proof fn lemma_find_at<T>(s: Seq<(u64, T)>, k: u64, i: int)
    requires
        sorted_keys(s),
        0 <= i < s.len(),
        s[i].0 == k,
    ensures
        find(s, k) == Some(s[i]),
    decreases s.len(),
{
    if i == 0 {
    } else {
        assert(s[0].0 < s[i].0);
        assert(s.drop_first()[i - 1] == s[i]);
        lemma_find_at(s.drop_first(), k, i - 1);
    }
}

/// Inserting behind a prefix whose keys are all below `k` leaves the prefix
/// untouched.
pub proof fn lemma_kv_insert_concat_left<T>(a: Seq<(u64, T)>, b: Seq<(u64, T)>, k: u64, v: T)
    requires
        keys_below(a, k),
    ensures
        kv_insert(a + b, k, v) == a + kv_insert(b, k, v),
    decreases a.len(),
{
    if a.len() == 0 {
        assert(a + b =~= b);
        assert(a + kv_insert(b, k, v) =~= kv_insert(b, k, v));
    } else {
        assert((a + b).drop_first() =~= a.drop_first() + b);
        lemma_kv_insert_concat_left(a.drop_first(), b, k, v);
        assert(seq![(a + b)[0]] + (a.drop_first() + kv_insert(b, k, v)) =~= a + kv_insert(
            b,
            k,
            v,
        ));
    }
}

/// Inserting in front of a suffix whose keys are all above `k` leaves the
/// suffix untouched.
pub proof fn lemma_kv_insert_concat_right<T>(a: Seq<(u64, T)>, b: Seq<(u64, T)>, k: u64, v: T)
    requires
        keys_above(b, k),
    ensures
        kv_insert(a + b, k, v) == kv_insert(a, k, v) + b,
    decreases a.len(),
{
    if a.len() == 0 {
        assert(a + b =~= b);
        if b.len() == 0 {
            assert(kv_insert(a, k, v) + b =~= seq![(k, v)]);
        } else {
            assert(b[0].0 > k);
            assert(kv_insert(a, k, v) + b =~= seq![(k, v)] + b);
        }
    } else {
        assert((a + b).drop_first() =~= a.drop_first() + b);
        assert((a + b)[0] == a[0]);
        if k < a[0].0 {
            assert(seq![(k, v)] + (a + b) =~= (seq![(k, v)] + a) + b);
        } else if k == a[0].0 {
            assert(seq![(k, v)] + (a + b).drop_first() =~= (seq![(k, v)] + a.drop_first()) + b);
        } else {
            lemma_kv_insert_concat_right(a.drop_first(), b, k, v);
            assert(seq![a[0]] + (kv_insert(a.drop_first(), k, v) + b) =~= (seq![a[0]] + kv_insert(
                a.drop_first(),
                k,
                v,
            )) + b);
        }
    }
}

/// Removal on a concatenation takes the pair out of whichever part holds the
/// key first.
pub proof fn lemma_kv_remove_concat<T>(a: Seq<(u64, T)>, b: Seq<(u64, T)>, k: u64)
    ensures
        kv_remove(a + b, k) == (if has_key(a, k) {
            kv_remove(a, k) + b
        } else {
            a + kv_remove(b, k)
        }),
    decreases a.len(),
{
    lemma_find_props(a, k);
    if a.len() == 0 {
        assert(a + b =~= b);
        assert(a + kv_remove(b, k) =~= kv_remove(b, k));
    } else {
        assert((a + b).drop_first() =~= a.drop_first() + b);
        lemma_kv_remove_concat(a.drop_first(), b, k);
        lemma_find_props(a.drop_first(), k);
        if a[0].0 == k {
            assert(has_key(a, k));
            assert(kv_remove(a, k) + b =~= a.drop_first() + b);
        } else {
            if has_key(a, k) {
                let i = choose|i: int| 0 <= i < a.len() && (#[trigger] a[i]).0 == k;
                assert(a.drop_first()[i - 1] == a[i]);
                assert(has_key(a.drop_first(), k));
                assert(seq![a[0]] + (kv_remove(a.drop_first(), k) + b) =~= (seq![a[0]] + kv_remove(
                    a.drop_first(),
                    k,
                )) + b);
            } else {
                if has_key(a.drop_first(), k) {
                    let i = choose|i: int|
                        0 <= i < a.drop_first().len() && (#[trigger] a.drop_first()[i]).0 == k;
                    assert(a[i + 1] == a.drop_first()[i]);
                }
                assert(seq![a[0]] + (a.drop_first() + kv_remove(b, k)) =~= a + kv_remove(b, k));
            }
        }
    }
}

/// Size, order, bounds and membership facts about `kv_insert`.
pub proof fn lemma_kv_insert_props<T>(s: Seq<(u64, T)>, k: u64, v: T)
    ensures
        sorted_keys(s) && has_key(s, k) ==> kv_insert(s, k, v).len() == s.len(),
        sorted_keys(s) && !has_key(s, k) ==> kv_insert(s, k, v).len() == s.len() + 1,
        sorted_keys(s) ==> sorted_keys(kv_insert(s, k, v)),
        find(kv_insert(s, k, v), k) == Some((k, v)),
        forall|b: u64| keys_below(s, b) && k < b ==> keys_below(#[trigger] kv_insert(s, k, v), b),
        forall|b: u64| keys_at_least(s, b) && k >= b ==> keys_at_least(
            #[trigger] kv_insert(s, k, v),
            b,
        ),
    decreases s.len(),
{
    lemma_find_props(s, k);
    if s.len() == 0 {
        assert(kv_insert(s, k, v) =~= seq![(k, v)]);
        assert(find(kv_insert(s, k, v), k) == Some((k, v)));
    } else if k < s[0].0 {
        assert(kv_insert(s, k, v)[0] == (k, v));
        assert(find(kv_insert(s, k, v), k) == Some((k, v)));
        if sorted_keys(s) && has_key(s, k) {
            let i = choose|i: int| 0 <= i < s.len() && (#[trigger] s[i]).0 == k;
            assert(s[0].0 <= s[i].0);
            assert(false);
        }
        assert forall|i: int, j: int|
            sorted_keys(s) && 0 <= i < j < kv_insert(s, k, v).len() implies kv_insert(s, k, v)[i].0
            < kv_insert(s, k, v)[j].0 by {
            if i > 0 {
                assert(kv_insert(s, k, v)[i] == s[i - 1]);
            }
            assert(kv_insert(s, k, v)[j] == s[j - 1]);
        }
    } else if k == s[0].0 {
        assert(s[0].0 == k);
        assert(has_key(s, k));
        assert(kv_insert(s, k, v)[0] == (k, v));
        assert(find(kv_insert(s, k, v), k) == Some((k, v)));
    } else {
        lemma_kv_insert_props(s.drop_first(), k, v);
        lemma_find_props(s.drop_first(), k);
        let t = kv_insert(s.drop_first(), k, v);
        let r = kv_insert(s, k, v);
        assert(r =~= seq![s[0]] + t);
        assert(r[0] == s[0] && r[0].0 != k);
        assert(r.drop_first() =~= t);
        assert(find(r, k) == find(t, k));
        if has_key(s, k) {
            let i = choose|i: int| 0 <= i < s.len() && (#[trigger] s[i]).0 == k;
            assert(i != 0);
            assert(s.drop_first()[i - 1] == s[i]);
            assert(has_key(s.drop_first(), k));
        }
        if has_key(s.drop_first(), k) {
            let i = choose|i: int|
                0 <= i < s.drop_first().len() && (#[trigger] s.drop_first()[i]).0 == k;
            assert(s[i + 1] == s.drop_first()[i]);
            assert(has_key(s, k));
        }
        if sorted_keys(s) {
            assert(forall|i: int| 0 <= i < s.drop_first().len() ==> s[0].0 < (
            #[trigger] s.drop_first()[i]).0);
            assert(sorted_keys(s.drop_first()));
            assert forall|i: int| 0 <= i < t.len() implies s[0].0 < (#[trigger] t[i]).0 by {
                lemma_kv_insert_index_source(s.drop_first(), k, v, i);
            }
            assert forall|i: int, j: int| 0 <= i < j < r.len() implies r[i].0 < r[j].0 by {
                if i > 0 {
                    assert(r[i] == t[i - 1] && r[j] == t[j - 1]);
                } else {
                    assert(r[j] == t[j - 1]);
                }
            }
        }
        assert forall|b: u64| keys_below(s, b) && k < b implies keys_below(
            #[trigger] kv_insert(s, k, v),
            b,
        ) by {
            assert(keys_below(s.drop_first(), b));
            assert forall|i: int| 0 <= i < r.len() implies (#[trigger] r[i]).0 < b by {
                if i > 0 {
                    assert(r[i] == t[i - 1]);
                }
            }
        }
        assert forall|b: u64| keys_at_least(s, b) && k >= b implies keys_at_least(
            #[trigger] kv_insert(s, k, v),
            b,
        ) by {
            assert(keys_at_least(s.drop_first(), b));
            assert forall|i: int| 0 <= i < r.len() implies (#[trigger] r[i]).0 >= b by {
                if i > 0 {
                    assert(r[i] == t[i - 1]);
                }
            }
        }
    }
}

/// Every pair of `kv_insert(s, k, v)` is either `(k, v)` or a pair of `s`.
pub proof fn lemma_kv_insert_index_source<T>(s: Seq<(u64, T)>, k: u64, v: T, i: int)
    requires
        0 <= i < kv_insert(s, k, v).len(),
    ensures
        kv_insert(s, k, v)[i] == (k, v) || exists|j: int|
            0 <= j < s.len() && kv_insert(s, k, v)[i] == #[trigger] s[j],
    decreases s.len(),
{
    if s.len() == 0 {
    } else if k < s[0].0 {
        if i > 0 {
            assert(kv_insert(s, k, v)[i] == s[i - 1]);
        }
    } else if k == s[0].0 {
        if i > 0 {
            assert(kv_insert(s, k, v)[i] == s.drop_first()[i - 1]);
            assert(s.drop_first()[i - 1] == s[i]);
        }
    } else {
        if i == 0 {
        } else {
            lemma_kv_insert_index_source(s.drop_first(), k, v, i - 1);
            assert(kv_insert(s, k, v)[i] == kv_insert(s.drop_first(), k, v)[i - 1]);
            if exists|j: int|
                0 <= j < s.drop_first().len() && kv_insert(s.drop_first(), k, v)[i - 1]
                    == #[trigger] s.drop_first()[j] {
                let j = choose|j: int|
                    0 <= j < s.drop_first().len() && kv_insert(s.drop_first(), k, v)[i - 1]
                        == #[trigger] s.drop_first()[j];
                assert(s[j + 1] == s.drop_first()[j]);
            }
        }
    }
}

/// Every pair of `kv_remove(s, k)` is a pair of `s`.
pub proof fn lemma_kv_remove_index_source<T>(s: Seq<(u64, T)>, k: u64, i: int)
    requires
        0 <= i < kv_remove(s, k).len(),
    ensures
        exists|j: int| 0 <= j < s.len() && kv_remove(s, k)[i] == #[trigger] s[j],
    decreases s.len(),
{
    if s.len() == 0 {
    } else if s[0].0 == k {
        assert(kv_remove(s, k)[i] == s[i + 1]);
    } else {
        if i == 0 {
            assert(kv_remove(s, k)[0] == s[0]);
        } else {
            lemma_kv_remove_index_source(s.drop_first(), k, i - 1);
            assert(kv_remove(s, k)[i] == kv_remove(s.drop_first(), k)[i - 1]);
            let j = choose|j: int|
                0 <= j < s.drop_first().len() && kv_remove(s.drop_first(), k)[i - 1]
                    == #[trigger] s.drop_first()[j];
            assert(s[j + 1] == s.drop_first()[j]);
        }
    }
}

/// Size, order and bounds facts about `kv_remove`.
pub proof fn lemma_kv_remove_props<T>(s: Seq<(u64, T)>, k: u64)
    ensures
        has_key(s, k) ==> kv_remove(s, k).len() == s.len() - 1,
        !has_key(s, k) ==> kv_remove(s, k) == s,
        sorted_keys(s) ==> sorted_keys(kv_remove(s, k)),
        sorted_keys(s) ==> find(kv_remove(s, k), k) is None,
        forall|b: u64| keys_below(s, b) ==> keys_below(#[trigger] kv_remove(s, k), b),
        forall|b: u64| keys_at_least(s, b) ==> keys_at_least(#[trigger] kv_remove(s, k), b),
    decreases s.len(),
{
    lemma_find_props(s, k);
    let r = kv_remove(s, k);
    assert forall|b: u64| keys_below(s, b) implies keys_below(#[trigger] kv_remove(s, k), b) by {
        assert forall|i: int| 0 <= i < r.len() implies (#[trigger] r[i]).0 < b by {
            lemma_kv_remove_index_source(s, k, i);
        }
    }
    assert forall|b: u64| keys_at_least(s, b) implies keys_at_least(
        #[trigger] kv_remove(s, k),
        b,
    ) by {
        assert forall|i: int| 0 <= i < r.len() implies (#[trigger] r[i]).0 >= b by {
            lemma_kv_remove_index_source(s, k, i);
        }
    }
    if s.len() == 0 {
    } else if s[0].0 == k {
        assert(has_key(s, k));
        if sorted_keys(s) {
            assert(forall|i: int|
                0 <= i < s.drop_first().len() ==> (#[trigger] s.drop_first()[i]) == s[i + 1]);
            assert(sorted_keys(s.drop_first()));
            lemma_find_props(s.drop_first(), k);
            if has_key(s.drop_first(), k) {
                let i = choose|i: int|
                    0 <= i < s.drop_first().len() && (#[trigger] s.drop_first()[i]).0 == k;
                assert(s[i + 1].0 == k && s[0].0 == k);
                assert(false);
            }
            assert(find(kv_remove(s, k), k) is None);
        }
    } else {
        lemma_kv_remove_props(s.drop_first(), k);
        lemma_find_props(s.drop_first(), k);
        assert(forall|i: int|
            0 <= i < s.drop_first().len() ==> (#[trigger] s.drop_first()[i]) == s[i + 1]);
        if has_key(s, k) {
            let i = choose|i: int| 0 <= i < s.len() && (#[trigger] s[i]).0 == k;
            assert(s.drop_first()[i - 1] == s[i]);
            assert(has_key(s.drop_first(), k));
        }
        if has_key(s.drop_first(), k) {
            assert(has_key(s, k));
        }
        if !has_key(s, k) {
            assert(r =~= s);
        }
        if sorted_keys(s) {
            assert(sorted_keys(s.drop_first()));
            let t = kv_remove(s.drop_first(), k);
            assert(r =~= seq![s[0]] + t);
            assert(r[0] == s[0] && r[0].0 != k);
            assert(r.drop_first() =~= t);
            assert(find(r, k) == find(t, k));
            assert forall|i: int, j: int| 0 <= i < j < r.len() implies r[i].0 < r[j].0 by {
                if i > 0 {
                    assert(r[i] == t[i - 1] && r[j] == t[j - 1]);
                } else {
                    assert(r[j] == t[j - 1]);
                    lemma_kv_remove_index_source(s.drop_first(), k, j - 1);
                }
            }
        }
    }
}

/// `find` ignores removals at other keys, and insertions answer for their own
/// key while leaving other lookups alone.
pub proof fn lemma_find_after<T>(s: Seq<(u64, T)>, k: u64, v: T, q: u64)
    ensures
        q != k ==> find(kv_insert(s, k, v), q) == find(s, q),
        q != k ==> find(kv_remove(s, k), q) == find(s, q),
    decreases s.len(),
{
    if s.len() == 0 {
        assert(kv_insert(s, k, v) =~= seq![(k, v)]);
        if q != k {
            assert(kv_insert(s, k, v)[0].0 == k);
            assert(kv_insert(s, k, v).drop_first() =~= s);
            assert(find(kv_insert(s, k, v), q) == find(s, q));
        }
    } else if q != k {
        lemma_find_after(s.drop_first(), k, v, q);
        if k < s[0].0 {
            assert(kv_insert(s, k, v)[0] == (k, v));
            assert(kv_insert(s, k, v).drop_first() =~= s);
        } else if k == s[0].0 {
            assert(kv_insert(s, k, v)[0] == (k, v));
            assert(kv_insert(s, k, v).drop_first() =~= s.drop_first());
            assert(find(kv_insert(s, k, v), q) == find(s.drop_first(), q));
            assert(find(s, q) == find(s.drop_first(), q));
        } else {
            assert(kv_insert(s, k, v)[0] == s[0]);
            assert(kv_insert(s, k, v).drop_first() =~= kv_insert(s.drop_first(), k, v));
        }
        if s[0].0 != k {
            assert(kv_remove(s, k)[0] == s[0]);
            assert(kv_remove(s, k).drop_first() =~= kv_remove(s.drop_first(), k));
        }
    }
}

/// The exec insertion point: in a sorted sequence where rank `r` separates
/// keys at most `k` from keys above it and `k` itself is absent, inserting at
/// `r` realizes `kv_insert`.
pub proof fn lemma_insert_at_rank<T>(s: Seq<(u64, T)>, k: u64, v: T, r: int)
    requires
        sorted_keys(s),
        0 <= r <= s.len(),
        forall|j: int| 0 <= j < r ==> (#[trigger] s[j]).0 < k,
        forall|j: int| r <= j < s.len() ==> (#[trigger] s[j]).0 > k,
    ensures
        kv_insert(s, k, v) == s.insert(r, (k, v)),
    decreases s.len(),
{
    if s.len() == 0 {
        assert(kv_insert(s, k, v) =~= s.insert(0, (k, v)));
    } else if r == 0 {
        assert(s[0].0 > k);
        assert(kv_insert(s, k, v) =~= s.insert(0, (k, v)));
    } else {
        assert(s[0].0 < k);
        lemma_insert_at_rank(s.drop_first(), k, v, r - 1);
        assert(seq![s[0]] + kv_insert(s.drop_first(), k, v) =~= s.insert(r, (k, v)));
    }
}

/// Replacing the pair at a witnessed index of a sorted sequence realizes
/// `kv_insert` for a present key.
pub proof fn lemma_replace_at<T>(s: Seq<(u64, T)>, k: u64, v: T, i: int)
    requires
        sorted_keys(s),
        0 <= i < s.len(),
        s[i].0 == k,
    ensures
        kv_insert(s, k, v) == s.update(i, (k, v)),
    decreases s.len(),
{
    if i == 0 {
        assert(kv_insert(s, k, v) =~= s.update(0, (k, v)));
    } else {
        assert(s[0].0 < s[i].0);
        assert(s.drop_first()[i - 1] == s[i]);
        lemma_replace_at(s.drop_first(), k, v, i - 1);
        assert(seq![s[0]] + s.drop_first().update(i - 1, (k, v)) =~= s.update(i, (k, v)));
    }
}

/// Taking out the pair at a witnessed index of a sorted sequence realizes
/// `kv_remove`.
pub proof fn lemma_remove_at<T>(s: Seq<(u64, T)>, k: u64, i: int)
    requires
        sorted_keys(s),
        0 <= i < s.len(),
        s[i].0 == k,
    ensures
        kv_remove(s, k) == s.remove(i),
    decreases s.len(),
{
    if i == 0 {
        assert(kv_remove(s, k) =~= s.remove(0));
    } else {
        assert(s[0].0 < s[i].0);
        assert(s.drop_first()[i - 1] == s[i]);
        lemma_remove_at(s.drop_first(), k, i - 1);
        assert(seq![s[0]] + s.drop_first().remove(i - 1) =~= s.remove(i));
    }
}

} // verus!

verus! {

/// How many keys of `s` are at most `k`: for a sorted key row, the branch
/// index under the right-leaning duplicate rule.
pub open spec fn rank_of(s: Seq<u64>, k: u64) -> int
    decreases s.len(),
{
    if s.len() == 0 {
        0
    } else {
        (if s[0] <= k {
            1int
        } else {
            0int
        }) + rank_of(s.drop_first(), k)
    }
}

/// On a sorted row, the rank is pinned by its boundary conditions.
pub proof fn lemma_rank_of(s: Seq<u64>, k: u64, r: int)
    requires
        sorted_u64s(s),
        0 <= r <= s.len(),
        forall|j: int| 0 <= j < r ==> s[j] <= k,
        forall|j: int| r <= j < s.len() ==> s[j] > k,
    ensures
        rank_of(s, k) == r,
    decreases s.len(),
{
    if s.len() == 0 {
    } else {
        assert(forall|j: int|
            0 <= j < s.drop_first().len() ==> (#[trigger] s.drop_first()[j]) == s[j + 1]);
        assert(sorted_u64s(s.drop_first()));
        if r == 0 {
            assert(s[0] > k);
            lemma_rank_of(s.drop_first(), k, 0);
        } else {
            assert(s[0] <= k);
            lemma_rank_of(s.drop_first(), k, r - 1);
        }
    }
}

} // verus!
