//! Key-ordered arrangement of entry collections: an insertion sort whose
//! result is a specification-level function of its input.

use vstd::prelude::*;
use crate::types::B256;
use crate::keys::{key_lt, key_le, lemma_key_lt_trichotomy, lemma_key_lt_trans, lemma_key_le_trans};

verus! {

broadcast use vstd::seq_lib::group_to_multiset_ensures, vstd::multiset::group_multiset_axioms;

/// The entries as pairs of key bytes and value model.
pub open spec fn entry_views<K: View<V = Seq<u8>>, V: View>(s: Seq<(K, V)>) -> Seq<(Seq<u8>, V::V)> {
    s.map_values(|p: (K, V)| (p.0@, p.1@))
}

/// Keys never decrease from one entry to a later one.
pub open spec fn sorted_le<M>(s: Seq<(Seq<u8>, M)>) -> bool {
    forall|i: int, j: int| 0 <= i < j < s.len() ==> #[trigger] key_le(s[i].0, s[j].0)
}

/// Keys grow strictly from each entry to the next.
pub open spec fn strictly_ascending<M>(s: Seq<(Seq<u8>, M)>) -> bool {
    forall|i: int| 0 <= i && i + 1 < s.len() ==> #[trigger] key_lt(s[i].0, s[i + 1].0)
}

/// No two entries share a key.
pub open spec fn key_distinct<M>(s: Seq<(Seq<u8>, M)>) -> bool {
    forall|i: int, j: int|
        #![trigger s[i].0, s[j].0]
        0 <= i < s.len() && 0 <= j < s.len() && i != j ==> s[i].0 != s[j].0
}

/// Some entry carries the key.
pub open spec fn has_key<M>(s: Seq<(Seq<u8>, M)>, k: Seq<u8>) -> bool {
    exists|i: int| 0 <= i < s.len() && (#[trigger] s[i].0) == k
}

/// The entry placed before the first strictly larger key.
pub open spec fn insert_spec<M>(x: (Seq<u8>, M), s: Seq<(Seq<u8>, M)>) -> Seq<(Seq<u8>, M)>
    decreases s.len(),
{
    if s.len() == 0 {
        seq![x]
    } else if key_lt(x.0, s[0].0) {
        seq![x] + s
    } else {
        seq![s[0]] + insert_spec(x, s.subrange(1, s.len() as int))
    }
}

/// The entries arranged by key, each inserted in turn.
pub open spec fn sort_spec<M>(s: Seq<(Seq<u8>, M)>) -> Seq<(Seq<u8>, M)>
    decreases s.len(),
{
    if s.len() == 0 {
        s
    } else {
        insert_spec(s.last(), sort_spec(s.drop_last()))
    }
}

/// Inserting adds one entry, and every entry of the result is the new one
/// or one of the old.
pub proof fn lemma_insert_elems<M>(x: (Seq<u8>, M), s: Seq<(Seq<u8>, M)>)
    ensures
        insert_spec(x, s).len() == s.len() + 1,
        forall|j: int|
            0 <= j < insert_spec(x, s).len() ==> #[trigger] insert_spec(x, s)[j] == x
                || s.contains(insert_spec(x, s)[j]),
    decreases s.len(),
{
    if s.len() == 0 {
    } else if key_lt(x.0, s[0].0) {
    } else {
        let s1 = s.subrange(1, s.len() as int);
        lemma_insert_elems(x, s1);
        assert forall|j: int| 0 <= j < insert_spec(x, s).len() implies #[trigger] insert_spec(
            x,
            s,
        )[j] == x || s.contains(insert_spec(x, s)[j]) by {
            if j == 0 {
                assert(insert_spec(x, s)[0] == s[0]);
            } else {
                let e = insert_spec(x, s)[j];
                assert(e == insert_spec(x, s1)[j - 1]);
                if e != x {
                    let k = choose|k: int| 0 <= k < s1.len() && s1[k] == e;
                    assert(s[k + 1] == e);
                }
            }
        }
    }
}

/// Insertion keeps the entries key-ordered.
pub proof fn lemma_insert_sorted<M>(x: (Seq<u8>, M), s: Seq<(Seq<u8>, M)>)
    requires
        sorted_le(s),
    ensures
        sorted_le(insert_spec(x, s)),
    decreases s.len(),
{
    if s.len() == 0 {
    } else if key_lt(x.0, s[0].0) {
        let r = seq![x] + s;
        assert forall|i: int, j: int| 0 <= i < j < r.len() implies #[trigger] key_le(
            r[i].0,
            r[j].0,
        ) by {
            if i == 0 {
                assert(key_lt(x.0, s[0].0));
                if j > 1 {
                    assert(key_le(s[0].0, s[j - 1].0));
                    lemma_key_le_trans(x.0, s[0].0, s[j - 1].0);
                    if key_lt(s[0].0, s[j - 1].0) {
                        lemma_key_lt_trans(x.0, s[0].0, s[j - 1].0);
                    }
                }
            } else {
                assert(key_le(s[i - 1].0, s[j - 1].0));
            }
        }
    } else {
        let s1 = s.subrange(1, s.len() as int);
        assert forall|i: int, j: int| 0 <= i < j < s1.len() implies #[trigger] key_le(
            s1[i].0,
            s1[j].0,
        ) by {
            assert(key_le(s[i + 1].0, s[j + 1].0));
        }
        lemma_insert_sorted(x, s1);
        lemma_insert_elems(x, s1);
        let r = seq![s[0]] + insert_spec(x, s1);
        assert forall|i: int, j: int| 0 <= i < j < r.len() implies #[trigger] key_le(
            r[i].0,
            r[j].0,
        ) by {
            if i == 0 {
                let e = insert_spec(x, s1)[j - 1];
                if e == x {
                    lemma_key_lt_trichotomy(x.0, s[0].0);
                } else {
                    let k = choose|k: int| 0 <= k < s1.len() && s1[k] == e;
                    assert(key_le(s[0].0, s[k + 1].0));
                }
            } else {
                assert(key_le(insert_spec(x, s1)[i - 1].0, insert_spec(x, s1)[j - 1].0));
            }
        }
    }
}

/// Insertion adds exactly the new entry to the collection's contents.
pub proof fn lemma_insert_multiset<M>(x: (Seq<u8>, M), s: Seq<(Seq<u8>, M)>)
    ensures
        insert_spec(x, s).to_multiset() == s.to_multiset().insert(x),
    decreases s.len(),
{
    if s.len() == 0 {
        assert(seq![x] =~= Seq::<(Seq<u8>, M)>::empty().push(x));
        assert(insert_spec(x, s).to_multiset() =~= s.to_multiset().insert(x));
    } else if key_lt(x.0, s[0].0) {
        vstd::seq_lib::lemma_multiset_commutative(seq![x], s);
        assert(seq![x] =~= Seq::<(Seq<u8>, M)>::empty().push(x));
        assert(insert_spec(x, s).to_multiset() =~= s.to_multiset().insert(x));
    } else {
        let s1 = s.subrange(1, s.len() as int);
        lemma_insert_multiset(x, s1);
        vstd::seq_lib::lemma_multiset_commutative(seq![s[0]], insert_spec(x, s1));
        vstd::seq_lib::lemma_multiset_commutative(seq![s[0]], s1);
        assert(seq![s[0]] + s1 =~= s);
        assert(seq![s[0]] =~= Seq::<(Seq<u8>, M)>::empty().push(s[0]));
        assert(insert_spec(x, s).to_multiset() =~= s.to_multiset().insert(x));
    }
}

/// A key occurs after an insertion exactly when it is the inserted key or
/// occurred before.
pub proof fn lemma_insert_has_key<M>(x: (Seq<u8>, M), s: Seq<(Seq<u8>, M)>, k: Seq<u8>)
    ensures
        has_key(insert_spec(x, s), k) <==> (has_key(s, k) || k == x.0),
    decreases s.len(),
{
    lemma_insert_elems(x, s);
    let r = insert_spec(x, s);
    if has_key(r, k) {
        let i = choose|i: int| 0 <= i < r.len() && (#[trigger] r[i].0) == k;
        if r[i] != x {
            assert(s.contains(r[i]));
            let j = choose|j: int| 0 <= j < s.len() && s[j] == r[i];
            assert(s[j].0 == k);
        }
    }
    if s.len() == 0 {
        assert(r[0] == x);
    } else if key_lt(x.0, s[0].0) {
        if has_key(s, k) {
            let i = choose|i: int| 0 <= i < s.len() && (#[trigger] s[i].0) == k;
            assert(r[i + 1] == s[i]);
        }
        assert(r[0] == x);
    } else {
        let s1 = s.subrange(1, s.len() as int);
        lemma_insert_has_key(x, s1, k);
        assert(r[0] == s[0]);
        if has_key(s, k) {
            let i = choose|i: int| 0 <= i < s.len() && (#[trigger] s[i].0) == k;
            if i == 0 {
                assert(r[0].0 == k);
            } else {
                assert(s1[i - 1].0 == k);
                assert(has_key(s1, k));
                let j = choose|j: int| 0 <= j < insert_spec(x, s1).len()
                    && (#[trigger] insert_spec(x, s1)[j].0) == k;
                assert(r[j + 1].0 == k);
            }
        }
        if k == x.0 {
            let j = choose|j: int| 0 <= j < insert_spec(x, s1).len()
                && (#[trigger] insert_spec(x, s1)[j].0) == k;
            assert(r[j + 1].0 == k);
        }
    }
}

/// Inserting a fresh key keeps keys pairwise distinct.
pub proof fn lemma_insert_distinct<M>(x: (Seq<u8>, M), s: Seq<(Seq<u8>, M)>)
    requires
        key_distinct(s),
        !has_key(s, x.0),
    ensures
        key_distinct(insert_spec(x, s)),
{
    lemma_insert_elems(x, s);
    let r = insert_spec(x, s);
    assert forall|i: int, j: int|
        #![trigger r[i].0, r[j].0]
        0 <= i < r.len() && 0 <= j < r.len() && i != j implies r[i].0 != r[j].0 by {
        if r[i] == r[j] {
            lemma_two_indices_count(r, i, j);
            lemma_insert_multiset(x, s);
            assert(s.to_multiset().count(r[i]) >= 2);
            lemma_count_two_indices(s, r[i]);
            let (a, b): (int, int) = choose|a: int, b: int|
                #![trigger s[a], s[b]]
                0 <= a < s.len() && 0 <= b < s.len() && a != b && s[a] == r[i] && s[b] == r[i];
            assert(s[a].0 != s[b].0);
            assert(false);
        } else if r[i] == x {
            assert(s.contains(r[j]));
            let b = choose|b: int| 0 <= b < s.len() && s[b] == r[j];
            assert(s[b].0 != x.0);
        } else if r[j] == x {
            assert(s.contains(r[i]));
            let a = choose|a: int| 0 <= a < s.len() && s[a] == r[i];
            assert(s[a].0 != x.0);
        } else {
            assert(s.contains(r[i]));
            assert(s.contains(r[j]));
            let a = choose|a: int| 0 <= a < s.len() && s[a] == r[i];
            let b = choose|b: int| 0 <= b < s.len() && s[b] == r[j];
            assert(s[a].0 != s[b].0);
        }
    }
}

/// A count of at least two puts one entry at two positions.
pub proof fn lemma_count_two_indices<M>(s: Seq<(Seq<u8>, M)>, e: (Seq<u8>, M))
    requires
        s.to_multiset().count(e) >= 2,
    ensures
        exists|a: int, b: int|
            #![trigger s[a], s[b]]
            0 <= a < s.len() && 0 <= b < s.len() && a != b && s[a] == e && s[b] == e,
    decreases s.len(),
{
    assert(s.to_multiset().len() >= 2);
    assert(s.len() >= 2) by {
        if s.len() < 2 {
            assert(s.to_multiset().len() == s.len());
        }
    }
    assert(s =~= s.drop_last().push(s.last()));
    assert(s.to_multiset() =~= s.drop_last().to_multiset().insert(s.last()));
    if s.last() == e {
        assert(s.drop_last().to_multiset().count(e) >= 1);
        assert(s.drop_last().contains(e));
        let a = choose|a: int| 0 <= a < s.drop_last().len() && (#[trigger] s.drop_last()[a]) == e;
        assert(s[a] == e);
        assert(s[s.len() - 1] == e);
    } else {
        assert(s.drop_last().to_multiset().count(e) >= 2);
        lemma_count_two_indices(s.drop_last(), e);
        let (a, b): (int, int) = choose|a: int, b: int|
            #![trigger s.drop_last()[a], s.drop_last()[b]]
            0 <= a < s.drop_last().len() && 0 <= b < s.drop_last().len() && a != b
                && s.drop_last()[a] == e && s.drop_last()[b] == e;
        assert(s[a] == e);
        assert(s[b] == e);
    }
}

/// Two occurrences of one entry give it a count of at least two.
pub proof fn lemma_two_indices_count<M>(s: Seq<(Seq<u8>, M)>, i: int, j: int)
    requires
        0 <= i < s.len(),
        0 <= j < s.len(),
        i != j,
        s[i] == s[j],
    ensures
        s.to_multiset().count(s[i]) >= 2,
{
    let lo = if i < j {
        i
    } else {
        j
    };
    let hi = if i < j {
        j
    } else {
        i
    };
    let s1 = s.remove(lo);
    s.remove_ensures(lo);
    assert(s1[hi - 1] == s[hi]);
    assert(s1.to_multiset().count(s[i]) >= 1) by {
        assert(s1.contains(s1[hi - 1]));
    }
    assert(s1.to_multiset() =~= s.to_multiset().remove(s[lo]));
    assert(s.to_multiset().contains(s[lo])) by {
        assert(s.contains(s[lo]));
    }
}

/// The arranged entries are key-ordered.
pub proof fn lemma_sort_sorted<M>(s: Seq<(Seq<u8>, M)>)
    ensures
        sorted_le(sort_spec(s)),
    decreases s.len(),
{
    if s.len() > 0 {
        lemma_sort_sorted(s.drop_last());
        lemma_insert_sorted(s.last(), sort_spec(s.drop_last()));
    }
}

/// Arranging keeps exactly the same entries.
pub proof fn lemma_sort_multiset<M>(s: Seq<(Seq<u8>, M)>)
    ensures
        sort_spec(s).to_multiset() == s.to_multiset(),
    decreases s.len(),
{
    if s.len() > 0 {
        lemma_sort_multiset(s.drop_last());
        lemma_insert_multiset(s.last(), sort_spec(s.drop_last()));
        assert(s =~= s.drop_last().push(s.last()));
        assert(sort_spec(s).to_multiset() =~= s.to_multiset());
    }
}

/// Arranging keeps exactly the same keys.
pub proof fn lemma_sort_has_key<M>(s: Seq<(Seq<u8>, M)>, k: Seq<u8>)
    ensures
        has_key(sort_spec(s), k) <==> has_key(s, k),
    decreases s.len(),
{
    if s.len() > 0 {
        lemma_sort_has_key(s.drop_last(), k);
        lemma_insert_has_key(s.last(), sort_spec(s.drop_last()), k);
        if has_key(s, k) {
            let i = choose|i: int| 0 <= i < s.len() && (#[trigger] s[i].0) == k;
            if i < s.len() - 1 {
                assert(s.drop_last()[i].0 == k);
            }
        }
        if has_key(s.drop_last(), k) {
            let i = choose|i: int| 0 <= i < s.drop_last().len() && (#[trigger] s.drop_last()[i].0)
                == k;
            assert(s[i].0 == k);
        }
    }
}

/// Arranging entries with pairwise distinct keys keeps them distinct.
pub proof fn lemma_sort_distinct<M>(s: Seq<(Seq<u8>, M)>)
    requires
        key_distinct(s),
    ensures
        key_distinct(sort_spec(s)),
    decreases s.len(),
{
    if s.len() > 0 {
        let t = s.drop_last();
        assert forall|i: int, j: int|
            0 <= i < t.len() && 0 <= j < t.len() && i != j implies (#[trigger] t[i].0) != (
        #[trigger] t[j].0) by {
            assert(s[i].0 != s[j].0);
        }
        lemma_sort_distinct(t);
        lemma_sort_has_key(t, s.last().0);
        if has_key(t, s.last().0) {
            let i = choose|i: int| 0 <= i < t.len() && (#[trigger] t[i].0) == s.last().0;
            assert(s[i].0 == s[s.len() - 1].0);
            assert(false);
        }
        lemma_insert_distinct(s.last(), sort_spec(t));
    }
}

/// A property of every entry survives the arrangement.
pub proof fn lemma_sort_preserves<M>(s: Seq<(Seq<u8>, M)>, q: spec_fn((Seq<u8>, M)) -> bool)
    requires
        forall|i: int| 0 <= i < s.len() ==> q(#[trigger] s[i]),
    ensures
        forall|i: int| 0 <= i < sort_spec(s).len() ==> q(#[trigger] sort_spec(s)[i]),
{
    lemma_sort_multiset(s);
    assert forall|i: int| 0 <= i < sort_spec(s).len() implies q(#[trigger] sort_spec(s)[i]) by {
        let r = sort_spec(s);
        assert(r.contains(r[i]));
        assert(r.to_multiset().count(r[i]) > 0);
        assert(s.to_multiset().count(r[i]) > 0);
        assert(s.contains(r[i]));
        let j = choose|j: int| 0 <= j < s.len() && s[j] == r[i];
        assert(q(s[j]));
    }
}

/// Key-ordered collections of the same entries with pairwise distinct
/// keys coincide.
pub proof fn lemma_sorted_distinct_unique<M>(s1: Seq<(Seq<u8>, M)>, s2: Seq<(Seq<u8>, M)>)
    requires
        sorted_le(s1),
        sorted_le(s2),
        s1.to_multiset() == s2.to_multiset(),
        key_distinct(s1),
    ensures
        s1 == s2,
    decreases s1.len(),
{
    assert(s1.to_multiset().len() == s1.len());
    assert(s2.to_multiset().len() == s2.len());
    if s1.len() == 0 {
        assert(s1 =~= s2);
    } else {
        assert(s1.contains(s1[0]));
        assert(s2.to_multiset().count(s1[0]) > 0);
        assert(s2.contains(s1[0]));
        let j = choose|j: int| 0 <= j < s2.len() && (#[trigger] s2[j]) == s1[0];
        assert(s2.contains(s2[0]));
        assert(s1.to_multiset().count(s2[0]) > 0);
        assert(s1.contains(s2[0]));
        let k = choose|k: int| 0 <= k < s1.len() && (#[trigger] s1[k]) == s2[0];
        if j > 0 {
            assert(key_le(s2[0].0, s2[j].0));
        }
        if k > 0 {
            assert(key_le(s1[0].0, s1[k].0));
        }
        assert(s1[0].0 == s2[0].0) by {
            if key_lt(s1[0].0, s2[0].0) && key_lt(s2[0].0, s1[0].0) {
                crate::keys::lemma_key_lt_asym(s1[0].0, s2[0].0);
            }
        }
        assert(s1[0] == s2[0]) by {
            if s1[0] != s2[0] {
                assert(k != 0);
                assert(s1[k].0 != s1[0].0);
            }
        }
        let t1 = s1.drop_first();
        let t2 = s2.drop_first();
        assert(s1 =~= seq![s1[0]] + t1);
        assert(s2 =~= seq![s2[0]] + t2);
        vstd::seq_lib::lemma_multiset_commutative(seq![s1[0]], t1);
        vstd::seq_lib::lemma_multiset_commutative(seq![s2[0]], t2);
        assert(seq![s1[0]] =~= Seq::<(Seq<u8>, M)>::empty().push(s1[0]));
        assert(seq![s2[0]] =~= Seq::<(Seq<u8>, M)>::empty().push(s2[0]));
        assert(t1.to_multiset() =~= t2.to_multiset()) by {
            assert forall|e: (Seq<u8>, M)| true implies t1.to_multiset().count(e)
                == t2.to_multiset().count(e) by {
                assert(s1.to_multiset().count(e) == seq![s1[0]].to_multiset().count(e)
                    + t1.to_multiset().count(e));
                assert(s2.to_multiset().count(e) == seq![s2[0]].to_multiset().count(e)
                    + t2.to_multiset().count(e));
            }
        }
        assert forall|i: int, j2: int| 0 <= i < j2 < t1.len() implies #[trigger] key_le(
            t1[i].0,
            t1[j2].0,
        ) by {
            assert(key_le(s1[i + 1].0, s1[j2 + 1].0));
        }
        assert forall|i: int, j2: int| 0 <= i < j2 < t2.len() implies #[trigger] key_le(
            t2[i].0,
            t2[j2].0,
        ) by {
            assert(key_le(s2[i + 1].0, s2[j2 + 1].0));
        }
        assert forall|i: int, j2: int|
            #![trigger t1[i].0, t1[j2].0]
            0 <= i < t1.len() && 0 <= j2 < t1.len() && i != j2 implies t1[i].0 != t1[j2].0 by {
            assert(s1[i + 1].0 != s1[j2 + 1].0);
        }
        lemma_sorted_distinct_unique(t1, t2);
        assert(s1 =~= s2);
    }
}

/// Key-ordered entries with pairwise distinct keys ascend strictly.
pub proof fn lemma_sorted_distinct_strict<M>(s: Seq<(Seq<u8>, M)>)
    requires
        sorted_le(s),
        key_distinct(s),
    ensures
        strictly_ascending(s),
{
    assert forall|i: int| 0 <= i && i + 1 < s.len() implies #[trigger] key_lt(s[i].0, s[i + 1].0) by {
        assert(key_le(s[i].0, s[i + 1].0));
        assert(s[i].0 != s[i + 1].0);
    }
}

/// Arranges the entries by ascending key; ties keep their first-met order.
pub fn sort_entries<V: View>(v: Vec<(B256, V)>) -> (r: Vec<(B256, V)>)
    ensures
        entry_views(r@) == sort_spec(entry_views(v@)),
{
    let ghost orig = v@;
    let mut v = v;
    let mut out: Vec<(B256, V)> = Vec::new();
    let ghost mut k: int = 0;
    while v.len() > 0
        invariant
            0 <= k <= orig.len(),
            v@ == orig.subrange(k, orig.len() as int),
            entry_views(out@) == sort_spec(entry_views(orig.subrange(0, k))),
        decreases v@.len(),
    {
        proof {
            assert(orig.subrange(k, orig.len() as int)[0] == orig[k]);
        }
        let x = v.remove(0);
        proof {
            assert(v@ =~= orig.subrange(k + 1, orig.len() as int));
        }
        let ghost pre = entry_views(out@);
        let ghost xm = (x.0@, x.1@);
        let mut p: usize = 0;
        let mut hit = false;
        while !hit && p < out.len()
            invariant
                0 <= p <= out@.len(),
                entry_views(out@) == pre,
                x.0@ == xm.0,
                forall|j: int| 0 <= j < p ==> !key_lt(xm.0, pre[j].0),
                hit ==> p < out@.len() && key_lt(xm.0, pre[p as int].0),
            decreases out@.len() - p + if hit {
                0int
            } else {
                1int
            },
        {
            proof {
                assert(pre[p as int].0 == out@[p as int].0@);
            }
            if crate::keys::bytes_lt(&x.0.bytes, &out[p].0.bytes) {
                hit = true;
            } else {
                p += 1;
            }
        }
        out.insert(p, x);
        proof {
            lemma_insert_spec_at(xm, pre, p as int);
            assert(entry_views(out@) =~= pre.insert(p as int, xm));
            assert(entry_views(orig.subrange(0, k + 1)).drop_last() =~= entry_views(
                orig.subrange(0, k),
            ));
            assert(entry_views(orig.subrange(0, k + 1)).last() == xm);
            assert(entry_views(out@) == sort_spec(entry_views(orig.subrange(0, k + 1))));
            k = k + 1;
        }
    }
    proof {
        assert(orig.subrange(0, orig.len() as int) =~= orig);
    }
    out
}

/// Where no earlier key is above the new one and the next is, the
/// insertion lands exactly there.
pub proof fn lemma_insert_spec_at<M>(x: (Seq<u8>, M), s: Seq<(Seq<u8>, M)>, p: int)
    requires
        0 <= p <= s.len(),
        forall|j: int| 0 <= j < p ==> !key_lt(x.0, s[j].0),
        p == s.len() || key_lt(x.0, s[p].0),
    ensures
        insert_spec(x, s) == s.insert(p, x),
    decreases p,
{
    if p == 0 {
        if s.len() == 0 {
            assert(insert_spec(x, s) =~= s.insert(0, x));
        } else {
            assert(insert_spec(x, s) =~= s.insert(0, x));
        }
    } else {
        let s1 = s.subrange(1, s.len() as int);
        assert(!key_lt(x.0, s[0].0));
        assert forall|j: int| 0 <= j < p - 1 implies !key_lt(x.0, s1[j].0) by {
            assert(s1[j] == s[j + 1]);
        }
        if p - 1 < s1.len() {
            assert(s1[p - 1] == s[p]);
        }
        lemma_insert_spec_at(x, s1, p - 1);
        assert(insert_spec(x, s) =~= s.insert(p, x));
    }
}

} // verus!
