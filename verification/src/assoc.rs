//! Sorted association lists keyed by strings: the ordered-map shape the
//! TOML tables and the manifest's dependency set are kept in. Entries are
//! stored in strictly increasing key order, so iteration is in key order
//! and every key occurs once.

use vstd::prelude::*;
use crate::text::{chars_eq, chars_lt, chars_of, lemma_seq_lt_asym, lemma_seq_lt_total, lemma_seq_lt_trans, seq_lt};

verus! {

/// The keys of an association list, in order.
pub open spec fn keys<V>(t: Seq<(Seq<char>, V)>) -> Seq<Seq<char>> {
    Seq::new(t.len(), |i: int| t[i].0)
}

/// The key views of an executable association list, in order.
pub open spec fn skeys<V>(t: Seq<(String, V)>) -> Seq<Seq<char>> {
    Seq::new(t.len(), |i: int| t[i].0@)
}

/// Keys strictly increase.
pub open spec fn sorted(ks: Seq<Seq<char>>) -> bool {
    forall|i: int, j: int| 0 <= i < j < ks.len() ==> seq_lt(#[trigger] ks[i], #[trigger] ks[j])
}

/// The number of leading keys that sort before `k`: the insertion point of
/// `k` in a sorted key sequence.
pub open spec fn lower_bound(ks: Seq<Seq<char>>, k: Seq<char>) -> nat
    decreases ks.len(),
{
    if ks.len() == 0 {
        0
    } else if seq_lt(ks[0], k) {
        1 + lower_bound(ks.drop_first(), k)
    } else {
        0
    }
}

/// `t` with the entry `(k, v)` added at its sorted position.
pub open spec fn insert_sorted<V>(t: Seq<(Seq<char>, V)>, k: Seq<char>, v: V) -> Seq<(Seq<char>, V)> {
    let p = lower_bound(keys(t), k) as int;
    t.take(p) + seq![(k, v)] + t.skip(p)
}

/// The value stored under `k` (meaningful when `k` is present).
pub open spec fn value_of<V>(t: Seq<(Seq<char>, V)>, k: Seq<char>) -> V {
    t[keys(t).index_of(k)].1
}

/// `t` with the value stored under `k` replaced by `v`.
pub open spec fn replace_value<V>(t: Seq<(Seq<char>, V)>, k: Seq<char>, v: V) -> Seq<(Seq<char>, V)> {
    let i = keys(t).index_of(k);
    t.update(i, (k, v))
}

/// The characterisation of `lower_bound` on a sorted sequence.
pub proof fn lemma_lower_bound(ks: Seq<Seq<char>>, k: Seq<char>, p: int)
    requires
        sorted(ks),
        0 <= p <= ks.len(),
        forall|j: int| 0 <= j < p ==> seq_lt(#[trigger] ks[j], k),
        p == ks.len() || !seq_lt(ks[p], k),
    ensures
        lower_bound(ks, k) == p,
    decreases ks.len(),
{
    if ks.len() > 0 && seq_lt(ks[0], k) {
        let r = ks.drop_first();
        assert forall|i: int, j: int| 0 <= i < j < r.len() implies seq_lt(#[trigger] r[i], #[trigger] r[j]) by {
            assert(r[i] == ks[i + 1] && r[j] == ks[j + 1]);
        }
        assert forall|j: int| 0 <= j < p - 1 implies seq_lt(#[trigger] r[j], k) by {
            assert(r[j] == ks[j + 1]);
        }
        lemma_lower_bound(r, k, p - 1);
    } else if ks.len() > 0 {
        assert(p == 0);
    }
}

/// Every key before the insertion point sorts before `k`, every key from it
/// on does not.
pub proof fn lemma_lower_bound_split(ks: Seq<Seq<char>>, k: Seq<char>)
    requires
        sorted(ks),
    ensures
        lower_bound(ks, k) <= ks.len(),
        forall|j: int| 0 <= j < lower_bound(ks, k) ==> seq_lt(#[trigger] ks[j], k),
        forall|j: int| lower_bound(ks, k) <= j < ks.len() ==> !seq_lt(#[trigger] ks[j], k),
    decreases ks.len(),
{
    if ks.len() > 0 {
        let r = ks.drop_first();
        assert forall|i: int, j: int| 0 <= i < j < r.len() implies seq_lt(#[trigger] r[i], #[trigger] r[j]) by {
            assert(r[i] == ks[i + 1] && r[j] == ks[j + 1]);
        }
        lemma_lower_bound_split(r, k);
        if seq_lt(ks[0], k) {
            assert forall|j: int| 0 <= j < lower_bound(ks, k) implies seq_lt(#[trigger] ks[j], k) by {
                if j > 0 {
                    assert(ks[j] == r[j - 1]);
                }
            }
            assert forall|j: int| lower_bound(ks, k) <= j < ks.len() implies !seq_lt(#[trigger] ks[j], k) by {
                assert(ks[j] == r[j - 1]);
            }
        } else {
            assert forall|j: int| 0 <= j < ks.len() implies !seq_lt(#[trigger] ks[j], k) by {
                if j > 0 {
                    assert(seq_lt(ks[0], ks[j]));
                    lemma_seq_lt_total(ks[0], k);
                    if seq_lt(ks[j], k) {
                        if ks[0] == k {
                            lemma_seq_lt_asym(ks[j], k);
                        } else {
                            lemma_seq_lt_trans(ks[0], ks[j], k);
                        }
                    }
                }
            }
        }
    }
}

/// In a sorted sequence, `k` is present exactly when it sits at the
/// insertion point.
pub proof fn lemma_contains_at_lower_bound(ks: Seq<Seq<char>>, k: Seq<char>)
    requires
        sorted(ks),
    ensures
        ks.contains(k) <==> (lower_bound(ks, k) < ks.len() && ks[lower_bound(ks, k) as int] == k),
        ks.contains(k) ==> ks.index_of(k) == lower_bound(ks, k),
{
    lemma_lower_bound_split(ks, k);
    let p = lower_bound(ks, k) as int;
    if ks.contains(k) {
        let i = ks.index_of(k);
        if i < p {
            lemma_seq_lt_asym(k, k);
        } else if i > p {
            assert(seq_lt(ks[p], ks[i]));
            lemma_seq_lt_total(ks[p], k);
            if seq_lt(k, ks[p]) {
                lemma_seq_lt_asym(k, ks[p]);
            }
        }
    }
    if p < ks.len() && ks[p] == k {
        assert(ks.contains(k));
    }
}

/// In a sorted sequence a key's only position is its index.
pub proof fn lemma_index_of_sorted(ks: Seq<Seq<char>>, k: Seq<char>, p: int)
    requires
        sorted(ks),
        0 <= p < ks.len(),
        ks[p] == k,
    ensures
        ks.contains(k),
        ks.index_of(k) == p,
{
    assert(ks.contains(k));
    let i = ks.index_of(k);
    if i < p {
        lemma_seq_lt_asym(k, k);
    } else if i > p {
        lemma_seq_lt_asym(k, k);
    }
}

/// Inserting a missing key at its insertion point keeps the keys sorted.
pub proof fn lemma_insert_sorted<V>(t: Seq<(Seq<char>, V)>, k: Seq<char>, v: V)
    requires
        sorted(keys(t)),
        !keys(t).contains(k),
    ensures
        sorted(keys(insert_sorted(t, k, v))),
        keys(insert_sorted(t, k, v)).contains(k),
        keys(insert_sorted(t, k, v)).to_set() == keys(t).to_set().insert(k),
        insert_sorted(t, k, v).len() == t.len() + 1,
{
    let ks = keys(t);
    lemma_lower_bound_split(ks, k);
    let p = lower_bound(ks, k) as int;
    let n = insert_sorted(t, k, v);
    let nk = keys(n);
    assert(nk.len() == ks.len() + 1);
    assert forall|i: int| 0 <= i < nk.len() implies #[trigger] nk[i] == (if i < p {
        ks[i]
    } else if i == p {
        k
    } else {
        ks[i - 1]
    }) by {}
    assert forall|i: int, j: int| 0 <= i < j < nk.len() implies seq_lt(#[trigger] nk[i], #[trigger] nk[j]) by {
        if j < p {
        } else if j == p {
        } else if i < p {
            assert(seq_lt(ks[i], k));
            lemma_seq_lt_total(ks[j - 1], k);
            assert(ks.contains(ks[j - 1]));
            lemma_seq_lt_trans(ks[i], k, ks[j - 1]);
        } else if i == p {
            lemma_seq_lt_total(ks[j - 1], k);
            assert(ks.contains(ks[j - 1]));
        } else {
        }
    }
    assert(nk[p] == k);
    assert(nk.to_set() =~= ks.to_set().insert(k)) by {
        assert forall|x: Seq<char>| nk.contains(x) implies ks.to_set().insert(k).contains(x) by {
            let i = nk.index_of(x);
            if i < p {
                assert(ks[i] == x);
            } else if i > p {
                assert(ks[i - 1] == x);
            }
        }
        assert forall|x: Seq<char>| ks.to_set().insert(k).contains(x) implies nk.contains(x) by {
            if x != k {
                let i = ks.index_of(x);
                if i < p {
                    assert(nk[i] == x);
                } else {
                    assert(nk[i + 1] == x);
                }
            }
        }
    }
}

/// After inserting a missing key, the key is found at its insertion point
/// with the inserted value, and removing that entry gives back `t`.
pub proof fn lemma_insert_sorted_lookup<V>(t: Seq<(Seq<char>, V)>, k: Seq<char>, v: V)
    requires
        sorted(keys(t)),
        !keys(t).contains(k),
    ensures
        keys(insert_sorted(t, k, v)).index_of(k) == lower_bound(keys(t), k),
        value_of(insert_sorted(t, k, v), k) == v,
        insert_sorted(t, k, v).remove(lower_bound(keys(t), k) as int) == t,
{
    lemma_insert_sorted(t, k, v);
    lemma_lower_bound_split(keys(t), k);
    let p = lower_bound(keys(t), k) as int;
    let n = insert_sorted(t, k, v);
    assert(keys(n)[p] == k);
    lemma_index_of_sorted(keys(n), k, p);
    assert(n.remove(p) =~= t);
}

/// Replacing a value leaves the keys unchanged.
pub proof fn lemma_replace_value_keys<V>(t: Seq<(Seq<char>, V)>, k: Seq<char>, v: V)
    requires
        keys(t).contains(k),
    ensures
        keys(replace_value(t, k, v)) == keys(t),
        value_of(replace_value(t, k, v), k) == v,
{
    let i = keys(t).index_of(k);
    assert(keys(replace_value(t, k, v)) =~= keys(t));
}

/// Find `k` in an executable association list: its insertion point and
/// whether it is present there.
pub fn find_key<V>(t: &Vec<(String, V)>, k: &Vec<char>) -> (r: (usize, bool))
    requires
        sorted(skeys(t@)),
    ensures
        r.0 == lower_bound(skeys(t@), k@),
        r.1 == skeys(t@).contains(k@),
        r.1 ==> r.0 < t@.len() && t@[r.0 as int].0@ == k@ && skeys(t@).index_of(k@) == r.0,
{
    let ghost ks = skeys(t@);
    let mut i: usize = 0;
    while i < t.len() && chars_lt(&chars_of(t[i].0.as_str()), k)
        invariant
            i <= t@.len(),
            ks == skeys(t@),
            forall|j: int| 0 <= j < i ==> seq_lt(#[trigger] ks[j], k@),
        decreases t.len() - i,
    {
        i = i + 1;
    }
    proof {
        lemma_lower_bound(ks, k@, i as int);
        lemma_contains_at_lower_bound(ks, k@);
    }
    if i < t.len() {
        let found = chars_eq(&chars_of(t[i].0.as_str()), k);
        (i, found)
    } else {
        (i, false)
    }
}

} // verus!
