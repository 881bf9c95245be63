//! One half of the bidirectional storage: an association index from keys to
//! non-empty buckets of values, kept as a vector of `(key, bucket)` entries
//! with pairwise distinct key views and duplicate-free buckets.
//!
//! Everything here is generic in the key side `K` and the value side `V`, so
//! the same code and the same proofs serve the left index (`K` = left,
//! `V` = right) and the right index (`K` = right, `V` = left).

use vstd::prelude::*;

use crate::value::EqClone;

verus! {

/// Whether some element of `b` has view `vv`.
pub open spec fn bucket_has<V: View>(b: Seq<V>, vv: V::V) -> bool {
    exists|j: int| 0 <= j < b.len() && b[j]@ == vv
}

/// The views of the elements of `b`, as a set.
pub open spec fn views_of<V: View>(b: Seq<V>) -> Set<V::V> {
    Set::new(|vv: V::V| bucket_has(b, vv))
}

/// Whether the index `s` has an entry keyed by view `kv`.
pub open spec fn has_key<K: View, V>(s: Seq<(K, Vec<V>)>, kv: K::V) -> bool {
    exists|i: int| 0 <= i < s.len() && s[i].0@ == kv
}

/// Whether the index `s` associates key view `kv` with value view `vv`.
pub open spec fn entry_in<K: View, V: View>(s: Seq<(K, Vec<V>)>, kv: K::V, vv: V::V) -> bool {
    exists|i: int| 0 <= i < s.len() && s[i].0@ == kv && bucket_has(s[i].1@, vv)
}

/// Every `(key view, value view)` association held by the index `s`.
pub open spec fn entry_set<K: View, V: View>(s: Seq<(K, Vec<V>)>) -> Set<(K::V, V::V)> {
    Set::new(|p: (K::V, V::V)| entry_in(s, p.0, p.1))
}

/// No two elements of `b` share a view.
pub open spec fn values_distinct<V: View>(b: Seq<V>) -> bool {
    forall|i: int, j: int|
        0 <= i < b.len() && 0 <= j < b.len() && i != j ==> b[i]@ != b[j]@
}

/// No two entries of the index `s` share a key view.
pub open spec fn keys_distinct<K: View, V>(s: Seq<(K, Vec<V>)>) -> bool {
    forall|i: int, j: int|
        0 <= i < s.len() && 0 <= j < s.len() && i != j ==> s[i].0@ != s[j].0@
}

/// Every bucket of the index `s` is non-empty and free of duplicate views.
pub open spec fn buckets_wf<K, V: View>(s: Seq<(K, Vec<V>)>) -> bool {
    forall|i: int|
        0 <= i < s.len() ==> values_distinct(#[trigger] s[i].1@) && s[i].1@.len() > 0
}

/// Well-formedness of one index: distinct keys, and well-formed buckets.
pub open spec fn index_wf<K: View, V: View>(s: Seq<(K, Vec<V>)>) -> bool {
    keys_distinct(s) && buckets_wf(s)
}

/// The two indices describe the same relation, with the roles of key and
/// value exchanged.
pub open spec fn mirrored<K: View, V: View>(a: Seq<(K, Vec<V>)>, b: Seq<(V, Vec<K>)>) -> bool {
    forall|kv: K::V, vv: V::V|
        #![trigger entry_in(a, kv, vv)]
        #![trigger entry_in(b, vv, kv)]
        entry_in(a, kv, vv) <==> entry_in(b, vv, kv)
}

/// The total number of associations held by the index `s`: the sum of its
/// bucket lengths.
pub open spec fn flat_count<K, V>(s: Seq<(K, Vec<V>)>) -> nat
    decreases s.len(),
{
    if s.len() == 0 {
        0
    } else {
        flat_count(s.drop_last()) + s.last().1@.len()
    }
}

/// How `flat_count` changes when one entry of the index is replaced.
pub proof fn lemma_flat_count_update<K, V>(s: Seq<(K, Vec<V>)>, i: int, e: (K, Vec<V>))
    requires
        0 <= i < s.len(),
    ensures
        flat_count(s.update(i, e)) + s[i].1@.len() == flat_count(s) + e.1@.len(),
    decreases s.len(),
{
    let s2 = s.update(i, e);
    if i == s.len() - 1 {
        assert(s2.drop_last() =~= s.drop_last());
    } else {
        assert(s2.drop_last() =~= s.drop_last().update(i, e));
        lemma_flat_count_update(s.drop_last(), i, e);
    }
}

/// Replacing the bucket of entry `i` (keeping its key view) rewrites exactly
/// that key's associations and leaves every other key untouched.
pub proof fn lemma_entry_update_bucket<K: View, V: View>(s: Seq<(K, Vec<V>)>, i: int, e: (K, Vec<V>))
    requires
        0 <= i < s.len(),
        keys_distinct(s),
        e.0@ == s[i].0@,
    ensures
        keys_distinct(s.update(i, e)),
        forall|kv: K::V| has_key(s.update(i, e), kv) <==> has_key(s, kv),
        forall|kv: K::V, vv: V::V|
            entry_in(s.update(i, e), kv, vv) <==> (if kv == s[i].0@ {
                bucket_has(e.1@, vv)
            } else {
                entry_in(s, kv, vv)
            }),
        flat_count(s.update(i, e)) + s[i].1@.len() == flat_count(s) + e.1@.len(),
{
    let s2 = s.update(i, e);
    lemma_flat_count_update(s, i, e);
    assert forall|kv: K::V| has_key(s2, kv) implies has_key(s, kv) by {
        let w = choose|w: int| 0 <= w < s2.len() && s2[w].0@ == kv;
        assert(s[w].0@ == kv);
    }
    assert forall|kv: K::V| has_key(s, kv) implies has_key(s2, kv) by {
        let w = choose|w: int| 0 <= w < s.len() && s[w].0@ == kv;
        assert(s2[w].0@ == kv);
    }
    assert forall|kv: K::V, vv: V::V|
        entry_in(s2, kv, vv) implies (if kv == s[i].0@ {
        bucket_has(e.1@, vv)
    } else {
        entry_in(s, kv, vv)
    }) by {
        let w = choose|w: int|
            0 <= w < s2.len() && s2[w].0@ == kv && bucket_has(s2[w].1@, vv);
        if w == i {
            assert(bucket_has(e.1@, vv));
        } else {
            assert(s[w].0@ == kv && bucket_has(s[w].1@, vv));
            assert(kv != s[i].0@);
        }
    }
    assert forall|kv: K::V, vv: V::V|
        (if kv == s[i].0@ {
            bucket_has(e.1@, vv)
        } else {
            entry_in(s, kv, vv)
        }) implies entry_in(s2, kv, vv) by {
        if kv == s[i].0@ {
            assert(s2[i].0@ == kv && bucket_has(s2[i].1@, vv));
        } else {
            let w = choose|w: int|
                0 <= w < s.len() && s[w].0@ == kv && bucket_has(s[w].1@, vv);
            assert(w != i);
            assert(s2[w].0@ == kv && bucket_has(s2[w].1@, vv));
        }
    }
}

/// Appending an entry with a fresh key view adds exactly that key's
/// associations.
pub proof fn lemma_entry_push<K: View, V: View>(s: Seq<(K, Vec<V>)>, e: (K, Vec<V>))
    requires
        keys_distinct(s),
        !has_key(s, e.0@),
    ensures
        keys_distinct(s.push(e)),
        forall|kv: K::V| has_key(s.push(e), kv) <==> (has_key(s, kv) || kv == e.0@),
        forall|kv: K::V, vv: V::V|
            entry_in(s.push(e), kv, vv) <==> (entry_in(s, kv, vv) || (kv == e.0@ && bucket_has(
                e.1@,
                vv,
            ))),
        flat_count(s.push(e)) == flat_count(s) + e.1@.len(),
{
    let s2 = s.push(e);
    assert(s2.drop_last() =~= s);
    assert(s2.last() == e);
    assert forall|i: int, j: int|
        0 <= i < s2.len() && 0 <= j < s2.len() && i != j implies s2[i].0@ != s2[j].0@ by {
        if i < s.len() && j < s.len() {
            assert(s[i].0@ != s[j].0@);
        }
    }
    assert forall|kv: K::V| has_key(s2, kv) implies (has_key(s, kv) || kv == e.0@) by {
        let w = choose|w: int| 0 <= w < s2.len() && s2[w].0@ == kv;
        if w < s.len() {
            assert(s[w].0@ == kv);
        }
    }
    assert forall|kv: K::V| (has_key(s, kv) || kv == e.0@) implies has_key(s2, kv) by {
        if has_key(s, kv) {
            let w = choose|w: int| 0 <= w < s.len() && s[w].0@ == kv;
            assert(s2[w].0@ == kv);
        } else {
            assert(s2[s.len() as int].0@ == kv);
        }
    }
    assert forall|kv: K::V, vv: V::V|
        entry_in(s2, kv, vv) implies (entry_in(s, kv, vv) || (kv == e.0@ && bucket_has(
        e.1@,
        vv,
    ))) by {
        let w = choose|w: int|
            0 <= w < s2.len() && s2[w].0@ == kv && bucket_has(s2[w].1@, vv);
        if w < s.len() {
            assert(s[w].0@ == kv && bucket_has(s[w].1@, vv));
        }
    }
    assert forall|kv: K::V, vv: V::V|
        (entry_in(s, kv, vv) || (kv == e.0@ && bucket_has(e.1@, vv))) implies entry_in(
        s2,
        kv,
        vv,
    ) by {
        if entry_in(s, kv, vv) {
            let w = choose|w: int|
                0 <= w < s.len() && s[w].0@ == kv && bucket_has(s[w].1@, vv);
            assert(s2[w].0@ == kv && bucket_has(s2[w].1@, vv));
        } else {
            assert(s2[s.len() as int].0@ == kv && bucket_has(s2[s.len() as int].1@, vv));
        }
    }
}

/// Removing entry `i` by a swap with the final entry drops exactly that
/// key's associations.
pub proof fn lemma_entry_swap_remove<K: View, V: View>(s: Seq<(K, Vec<V>)>, i: int)
    requires
        0 <= i < s.len(),
        keys_distinct(s),
        buckets_wf(s),
    ensures
        keys_distinct(s.update(i, s.last()).drop_last()),
        buckets_wf(s.update(i, s.last()).drop_last()),
        forall|kv: K::V|
            has_key(s.update(i, s.last()).drop_last(), kv) <==> (has_key(s, kv) && kv != s[i].0@),
        forall|kv: K::V, vv: V::V|
            entry_in(s.update(i, s.last()).drop_last(), kv, vv) <==> (entry_in(s, kv, vv) && kv
                != s[i].0@),
        flat_count(s.update(i, s.last()).drop_last()) + s[i].1@.len() == flat_count(s),
{
    let s2 = s.update(i, s.last()).drop_last();
    let n = s.len() - 1;
    lemma_flat_count_update(s, i, s.last());
    let su = s.update(i, s.last());
    if i == n {
        assert(su =~= s);
        assert(flat_count(su.drop_last()) + su.last().1@.len() == flat_count(su));
    } else {
        assert(su.last() == s.last());
        assert(flat_count(su.drop_last()) + su.last().1@.len() == flat_count(su));
    }
    // Element characterization of s2: each of its entries is an entry of s
    // whose key view is not s[i].0@, and conversely.
    assert forall|kv: K::V, vv: V::V|
        entry_in(s2, kv, vv) implies (entry_in(s, kv, vv) && kv != s[i].0@) by {
        let w = choose|w: int|
            0 <= w < s2.len() && s2[w].0@ == kv && bucket_has(s2[w].1@, vv);
        if w == i {
            assert(s2[w] == s[n]);
            assert(s[n].0@ == kv && bucket_has(s[n].1@, vv));
            assert(i != n);
            assert(kv != s[i].0@);
        } else {
            assert(s2[w] == s[w]);
            assert(kv != s[i].0@);
        }
    }
    assert forall|kv: K::V, vv: V::V|
        (entry_in(s, kv, vv) && kv != s[i].0@) implies entry_in(s2, kv, vv) by {
        let w = choose|w: int|
            0 <= w < s.len() && s[w].0@ == kv && bucket_has(s[w].1@, vv);
        assert(w != i);
        if w == n {
            assert(i < n);
            assert(s2[i] == s[n]);
            assert(s2[i].0@ == kv && bucket_has(s2[i].1@, vv));
        } else {
            assert(s2[w] == s[w]);
        }
    }
    assert forall|kv: K::V| has_key(s2, kv) implies (has_key(s, kv) && kv != s[i].0@) by {
        let w = choose|w: int| 0 <= w < s2.len() && s2[w].0@ == kv;
        if w == i {
            assert(s2[w] == s[n]);
            assert(s[n].0@ == kv);
            assert(kv != s[i].0@);
        } else {
            assert(s2[w] == s[w]);
        }
    }
    assert forall|kv: K::V| (has_key(s, kv) && kv != s[i].0@) implies has_key(s2, kv) by {
        let w = choose|w: int| 0 <= w < s.len() && s[w].0@ == kv;
        assert(w != i);
        if w == n {
            assert(i < n);
            assert(s2[i] == s[n]);
        } else {
            assert(s2[w] == s[w]);
        }
    }
    assert forall|a: int, b: int|
        0 <= a < s2.len() && 0 <= b < s2.len() && a != b implies s2[a].0@ != s2[b].0@ by {
        let oa: int = if a == i { n } else { a };
        let ob: int = if b == i { n } else { b };
        assert(s2[a] == s[oa] && s2[b] == s[ob]);
        assert(oa != ob);
    }
    assert forall|a: int| 0 <= a < s2.len() implies values_distinct(#[trigger] s2[a].1@)
        && s2[a].1@.len() > 0 by {
        let oa: int = if a == i { n } else { a };
        assert(s2[a] == s[oa]);
        assert(values_distinct(s[oa].1@) && s[oa].1@.len() > 0);
    }
}

/// Removing the element at position `j` of a duplicate-free bucket by a swap
/// with the final element removes exactly that element's view.
pub proof fn lemma_bucket_swap_remove<V: View>(b: Seq<V>, j: int)
    requires
        0 <= j < b.len(),
        values_distinct(b),
    ensures
        values_distinct(b.update(j, b.last()).drop_last()),
        forall|vv: V::V|
            bucket_has(b.update(j, b.last()).drop_last(), vv) <==> (bucket_has(b, vv) && vv
                != b[j]@),
{
    let b2 = b.update(j, b.last()).drop_last();
    let n = b.len() - 1;
    assert forall|vv: V::V| bucket_has(b2, vv) implies (bucket_has(b, vv) && vv != b[j]@) by {
        let w = choose|w: int| 0 <= w < b2.len() && b2[w]@ == vv;
        if w == j {
            assert(b2[w] == b[n]);
            assert(b[n]@ == vv);
            assert(j != n);
        } else {
            assert(b2[w] == b[w]);
        }
    }
    assert forall|vv: V::V| (bucket_has(b, vv) && vv != b[j]@) implies bucket_has(b2, vv) by {
        let w = choose|w: int| 0 <= w < b.len() && b[w]@ == vv;
        assert(w != j);
        if w == n {
            assert(j < n);
            assert(b2[j] == b[n]);
        } else {
            assert(b2[w] == b[w]);
        }
    }
    assert forall|a: int, c: int|
        0 <= a < b2.len() && 0 <= c < b2.len() && a != c implies b2[a]@ != b2[c]@ by {
        let oa: int = if a == j { n } else { a };
        let oc: int = if c == j { n } else { c };
        assert(b2[a] == b[oa] && b2[c] == b[oc]);
        assert(oa != oc);
    }
}

/// The associations of a single key view `kv` with every view in `b`.
pub open spec fn keyed_set<KV, V: View>(kv: KV, b: Seq<V>) -> Set<(KV, V::V)> {
    Set::new(|p: (KV, V::V)| p.0 == kv && bucket_has(b, p.1))
}

/// The length of a union of two finite sets with no common element is the
/// sum of their lengths.
pub proof fn lemma_disjoint_union_len<A>(s1: Set<A>, s2: Set<A>)
    requires
        s1.finite(),
        s2.finite(),
        forall|a: A| !(s1.contains(a) && s2.contains(a)),
    ensures
        s1.union(s2).finite(),
        s1.union(s2).len() == s1.len() + s2.len(),
    decreases s2.len(),
{
    if s2.len() == 0 {
        s2.lemma_len0_is_empty();
        assert(s1.union(s2) =~= s1);
    } else {
        if !(exists|a: A| s2.contains(a)) {
            assert(s2 =~= Set::empty());
        }
        let a = s2.choose();
        assert(s2.contains(a));
        lemma_disjoint_union_len(s1, s2.remove(a));
        assert(s1.union(s2) =~= s1.union(s2.remove(a)).insert(a));
        assert(!s1.union(s2.remove(a)).contains(a));
    }
}

/// A duplicate-free bucket has exactly as many views as elements.
pub proof fn lemma_views_card<V: View>(b: Seq<V>)
    requires
        values_distinct(b),
    ensures
        views_of(b).finite(),
        views_of(b).len() == b.len(),
    decreases b.len(),
{
    if b.len() == 0 {
        assert(views_of(b) =~= Set::empty());
    } else {
        let b0 = b.drop_last();
        assert(values_distinct(b0));
        lemma_views_card(b0);
        assert forall|vv: V::V| bucket_has(b, vv) implies (bucket_has(b0, vv) || vv
            == b.last()@) by {
            let w = choose|w: int| 0 <= w < b.len() && b[w]@ == vv;
            if w < b.len() - 1 {
                assert(b0[w]@ == vv);
            }
        }
        assert forall|vv: V::V| bucket_has(b0, vv) implies bucket_has(b, vv) by {
            let w = choose|w: int| 0 <= w < b0.len() && b0[w]@ == vv;
            assert(b[w]@ == vv);
        }
        assert(views_of(b) =~= views_of(b0).insert(b.last()@));
        assert(!bucket_has(b0, b.last()@));
    }
}

/// A bucket has at most as many views as elements.
pub proof fn lemma_views_card_le<V: View>(b: Seq<V>)
    ensures
        views_of(b).finite(),
        views_of(b).len() <= b.len(),
    decreases b.len(),
{
    if b.len() == 0 {
        assert(views_of(b) =~= Set::empty());
    } else {
        let b0 = b.drop_last();
        lemma_views_card_le(b0);
        assert forall|vv: V::V| bucket_has(b, vv) implies (bucket_has(b0, vv) || vv
            == b.last()@) by {
            let w = choose|w: int| 0 <= w < b.len() && b[w]@ == vv;
            if w < b.len() - 1 {
                assert(b0[w]@ == vv);
            }
        }
        assert forall|vv: V::V| bucket_has(b0, vv) implies bucket_has(b, vv) by {
            let w = choose|w: int| 0 <= w < b0.len() && b0[w]@ == vv;
            assert(b[w]@ == vv);
        }
        assert(views_of(b) =~= views_of(b0).insert(b.last()@));
    }
}

/// The associations of one key with a duplicate-free bucket number exactly
/// the bucket's length.
pub proof fn lemma_keyed_card<KV, V: View>(kv: KV, b: Seq<V>)
    requires
        values_distinct(b),
    ensures
        keyed_set(kv, b).finite(),
        keyed_set(kv, b).len() == b.len(),
    decreases b.len(),
{
    if b.len() == 0 {
        assert(keyed_set(kv, b) =~= Set::empty());
    } else {
        let b0 = b.drop_last();
        assert(values_distinct(b0));
        lemma_keyed_card(kv, b0);
        assert forall|vv: V::V| bucket_has(b, vv) implies (bucket_has(b0, vv) || vv
            == b.last()@) by {
            let w = choose|w: int| 0 <= w < b.len() && b[w]@ == vv;
            if w < b.len() - 1 {
                assert(b0[w]@ == vv);
            }
        }
        assert forall|vv: V::V| bucket_has(b0, vv) implies bucket_has(b, vv) by {
            let w = choose|w: int| 0 <= w < b0.len() && b0[w]@ == vv;
            assert(b[w]@ == vv);
        }
        assert(keyed_set(kv, b) =~= keyed_set(kv, b0).insert((kv, b.last()@)));
        assert(!bucket_has(b0, b.last()@));
        assert(!keyed_set(kv, b0).contains((kv, b.last()@)));
    }
}

/// In a well-formed index, the stored association count equals the number
/// of distinct `(key view, value view)` pairs it relates.
pub proof fn lemma_flat_count_is_card<K: View, V: View>(s: Seq<(K, Vec<V>)>)
    requires
        index_wf(s),
    ensures
        entry_set(s).finite(),
        entry_set(s).len() == flat_count(s),
    decreases s.len(),
{
    if s.len() == 0 {
        assert(entry_set(s) =~= Set::empty());
    } else {
        let sp = s.drop_last();
        assert(keys_distinct(sp));
        assert forall|i: int|
            0 <= i < sp.len() implies values_distinct(#[trigger] sp[i].1@)
            && sp[i].1@.len() > 0 by {
            assert(sp[i] == s[i]);
            assert(values_distinct(s[i].1@) && s[i].1@.len() > 0);
        }
        lemma_flat_count_is_card(sp);
        let n = s.len() - 1;
        let kv = s[n].0@;
        let b = s[n].1@;
        assert forall|p: (K::V, V::V)|
            entry_set(s).contains(p) <==> entry_set(sp).union(keyed_set(kv, b)).contains(p) by {
            if entry_in(s, p.0, p.1) {
                let w = choose|w: int|
                    0 <= w < s.len() && s[w].0@ == p.0 && bucket_has(s[w].1@, p.1);
                if w < n {
                    assert(sp[w].0@ == p.0 && bucket_has(sp[w].1@, p.1));
                    assert(entry_in(sp, p.0, p.1));
                } else {
                    assert(p.0 == kv && bucket_has(b, p.1));
                }
            }
            if entry_in(sp, p.0, p.1) {
                let w = choose|w: int|
                    0 <= w < sp.len() && sp[w].0@ == p.0 && bucket_has(sp[w].1@, p.1);
                assert(s[w].0@ == p.0 && bucket_has(s[w].1@, p.1));
                assert(entry_in(s, p.0, p.1));
            }
            if p.0 == kv && bucket_has(b, p.1) {
                assert(s[n].0@ == p.0 && bucket_has(s[n].1@, p.1));
                assert(entry_in(s, p.0, p.1));
            }
        }
        assert(entry_set(s) =~= entry_set(sp).union(keyed_set(kv, b)));
        assert(values_distinct(b));
        lemma_keyed_card(kv, b);
        assert forall|p: (K::V, V::V)|
            !(entry_set(sp).contains(p) && keyed_set(kv, b).contains(p)) by {
            if entry_set(sp).contains(p) && keyed_set(kv, b).contains(p) {
                let w = choose|w: int|
                    0 <= w < sp.len() && sp[w].0@ == p.0 && bucket_has(sp[w].1@, p.1);
                assert(s[w].0@ == kv && s[n].0@ == kv);
            }
        }
        lemma_disjoint_union_len(entry_set(sp), keyed_set(kv, b));
    }
}

/// In a well-formed index, a key is present exactly when it has at least
/// one association.
pub proof fn lemma_has_key_iff_entry<K: View, V: View>(s: Seq<(K, Vec<V>)>, kv: K::V)
    requires
        index_wf(s),
    ensures
        has_key(s, kv) <==> exists|vv: V::V| entry_in(s, kv, vv),
{
    if has_key(s, kv) {
        let w = choose|w: int| 0 <= w < s.len() && s[w].0@ == kv;
        assert(s[w].1@.len() > 0);
        let vv = s[w].1@[0]@;
        assert(bucket_has(s[w].1@, vv));
        assert(entry_in(s, kv, vv));
    }
    if exists|vv: V::V| entry_in(s, kv, vv) {
        let vv = choose|vv: V::V| entry_in(s, kv, vv);
        let w = choose|w: int|
            0 <= w < s.len() && s[w].0@ == kv && bucket_has(s[w].1@, vv);
        assert(has_key(s, kv));
    }
}

/// Finds the position of the entry keyed by `key`, if any.
pub(crate) fn find_key<K: EqClone, V>(s: &Vec<(K, Vec<V>)>, key: &K) -> (r: Option<usize>)
    ensures
        match r {
            Some(i) => i < s@.len() && s@[i as int].0@ == key@,
            None => !has_key(s@, key@),
        },
{
    let mut i: usize = 0;
    while i < s.len()
        invariant
            i <= s@.len(),
            forall|j: int| 0 <= j < i ==> s@[j].0@ != key@,
        decreases s@.len() - i,
    {
        if s[i].0.eq_value(key) {
            return Some(i);
        }
        i = i + 1;
    }
    None
}

/// Finds the position of the element of `b` whose view is `value`'s, if any.
pub(crate) fn find_value<V: EqClone>(b: &Vec<V>, value: &V) -> (r: Option<usize>)
    ensures
        match r {
            Some(j) => j < b@.len() && b@[j as int]@ == value@,
            None => !bucket_has(b@, value@),
        },
{
    let mut j: usize = 0;
    while j < b.len()
        invariant
            j <= b@.len(),
            forall|i: int| 0 <= i < j ==> b@[i]@ != value@,
        decreases b@.len() - j,
    {
        if b[j].eq_value(value) {
            return Some(j);
        }
        j = j + 1;
    }
    None
}

/// Whether the index holds the association `(key, value)`.
pub(crate) fn index_contains<K: EqClone, V: EqClone>(
    s: &Vec<(K, Vec<V>)>,
    key: &K,
    value: &V,
) -> (r: bool)
    requires
        index_wf(s@),
    ensures
        r == entry_in(s@, key@, value@),
{
    match find_key(s, key) {
        Some(i) => {
            match find_value(&s[i].1, value) {
                Some(j) => {
                    proof {
                        assert(s@[i as int].0@ == key@ && bucket_has(s@[i as int].1@, value@));
                    }
                    true
                },
                None => {
                    proof {
                        if entry_in(s@, key@, value@) {
                            let w = choose|w: int|
                                0 <= w < s@.len() && s@[w].0@ == key@ && bucket_has(s@[w].1@, value@);
                            assert(w == i as int);
                        }
                    }
                    false
                },
            }
        },
        None => {
            proof {
                if entry_in(s@, key@, value@) {
                    let w = choose|w: int|
                        0 <= w < s@.len() && s@[w].0@ == key@ && bucket_has(s@[w].1@, value@);
                    assert(has_key(s@, key@));
                }
            }
            false
        },
    }
}

/// Adds the association `(key, value)` to the index, creating the key's
/// entry if it is new. Reports whether the index changed.
pub(crate) fn index_add<K: EqClone, V: EqClone>(
    s: &mut Vec<(K, Vec<V>)>,
    key: K,
    value: V,
) -> (added: bool)
    requires
        index_wf(old(s)@),
    ensures
        index_wf(final(s)@),
        added == !entry_in(old(s)@, key@, value@),
        forall|kv: K::V| has_key(final(s)@, kv) <==> (has_key(old(s)@, kv) || kv == key@),
        forall|kv: K::V, vv: V::V|
            entry_in(final(s)@, kv, vv) <==> (entry_in(old(s)@, kv, vv) || (kv == key@ && vv
                == value@)),
        flat_count(final(s)@) == flat_count(old(s)@) + (if added {
            1nat
        } else {
            0nat
        }),
{
    match find_key(s, &key) {
        Some(i) => {
            let ghost s0 = s@;
            match find_value(&s[i].1, &value) {
                Some(_) => {
                    proof {
                        assert(entry_in(s0, key@, value@));
                        assert forall|kv: K::V, vv: V::V|
                            entry_in(s0, kv, vv) <==> (entry_in(s0, kv, vv) || (kv == key@ && vv
                                == value@)) by {
                            if kv == key@ && vv == value@ {
                                assert(entry_in(s0, kv, vv));
                            }
                        }
                        assert forall|kv: K::V| has_key(s0, kv) <==> (has_key(s0, kv) || kv
                            == key@) by {
                            if kv == key@ {
                                assert(has_key(s0, kv));
                            }
                        }
                    }
                    false
                },
                None => {
                    s[i].1.push(value);
                    proof {
                        let e = s@[i as int];
                        assert(s@ =~= s0.update(i as int, e));
                        assert(e.1@ == s0[i as int].1@.push(value));
                        lemma_entry_update_bucket(s0, i as int, e);
                        // The pair was absent: any witness entry would be i.
                        if entry_in(s0, key@, value@) {
                            let w = choose|w: int|
                                0 <= w < s0.len() && s0[w].0@ == key@ && bucket_has(s0[w].1@, value@);
                            assert(w == i as int);
                        }
                        // The grown bucket holds the old views plus value@.
                        assert forall|vv: V::V|
                            bucket_has(e.1@, vv) <==> (bucket_has(s0[i as int].1@, vv) || vv
                                == value@) by {
                            if bucket_has(e.1@, vv) {
                                let w = choose|w: int| 0 <= w < e.1@.len() && e.1@[w]@ == vv;
                                if w < s0[i as int].1@.len() {
                                    assert(s0[i as int].1@[w]@ == vv);
                                }
                            }
                            if bucket_has(s0[i as int].1@, vv) {
                                let w = choose|w: int|
                                    0 <= w < s0[i as int].1@.len() && s0[i as int].1@[w]@ == vv;
                                assert(e.1@[w]@ == vv);
                            }
                            if vv == value@ {
                                assert(e.1@.last()@ == vv);
                            }
                        }
                        assert(values_distinct(e.1@));
                        assert forall|kv: K::V, vv: V::V|
                            entry_in(s@, kv, vv) <==> (entry_in(s0, kv, vv) || (kv == key@ && vv
                                == value@)) by {
                            if kv == s0[i as int].0@ {
                                assert(entry_in(s0, kv, vv) <==> bucket_has(s0[i as int].1@, vv));
                            }
                        }
                    }
                    true
                },
            }
        },
        None => {
            let ghost s0 = s@;
            let mut bucket: Vec<V> = Vec::new();
            bucket.push(value);
            let entry = (key, bucket);
            proof {
                assert(entry.1@ =~= seq![value]);
            }
            s.push(entry);
            proof {
                assert(s@ =~= s0.push(entry));
                lemma_entry_push(s0, entry);
                assert forall|vv: V::V| bucket_has(entry.1@, vv) <==> vv == value@ by {
                    if bucket_has(entry.1@, vv) {
                        let w = choose|w: int| 0 <= w < entry.1@.len() && entry.1@[w]@ == vv;
                        assert(w == 0);
                    }
                    if vv == value@ {
                        assert(entry.1@[0]@ == vv);
                    }
                }
                if entry_in(s0, key@, value@) {
                    let w = choose|w: int|
                        0 <= w < s0.len() && s0[w].0@ == key@ && bucket_has(s0[w].1@, value@);
                    assert(has_key(s0, key@));
                }
                assert(values_distinct(entry.1@));
            }
            true
        },
    }
}

/// Removes the association `(key, value)` from the index, deleting the
/// key's entry if its bucket becomes empty. Reports whether the index
/// changed.
pub(crate) fn index_remove<K: EqClone, V: EqClone>(
    s: &mut Vec<(K, Vec<V>)>,
    key: &K,
    value: &V,
) -> (removed: bool)
    requires
        index_wf(old(s)@),
    ensures
        index_wf(final(s)@),
        removed == entry_in(old(s)@, key@, value@),
        forall|kv: K::V, vv: V::V|
            entry_in(final(s)@, kv, vv) <==> (entry_in(old(s)@, kv, vv) && !(kv == key@ && vv
                == value@)),
        flat_count(final(s)@) + (if removed {
            1nat
        } else {
            0nat
        }) == flat_count(old(s)@),
{
    match find_key(s, key) {
        Some(i) => {
            let ghost s0 = s@;
            match find_value(&s[i].1, value) {
                Some(j) => {
                    proof {
                        assert(entry_in(s0, key@, value@));
                    }
                    s[i].1.swap_remove(j);
                    let ghost s1 = s@;
                    proof {
                        let e = s1[i as int];
                        assert(s1 =~= s0.update(i as int, e));
                        lemma_entry_update_bucket(s0, i as int, e);
                        lemma_bucket_swap_remove(s0[i as int].1@, j as int);
                        assert(e.1@ == s0[i as int].1@.update(
                            j as int,
                            s0[i as int].1@.last(),
                        ).drop_last());
                    }
                    if s[i].1.len() == 0 {
                        s.swap_remove(i);
                        proof {
                            assert(s@ =~= s1.update(i as int, s1.last()).drop_last());
                            assert(keys_distinct(s1));
                            assert forall|a: int|
                                0 <= a < s1.len() implies values_distinct(#[trigger] s1[a].1@) by {
                                if a != i {
                                    assert(s1[a] == s0[a]);
                                    assert(values_distinct(s0[a].1@));
                                }
                            }
                            // Entry i has an empty bucket, so the swap-remove
                            // variant of the entry lemma applies to the
                            // index without entry i's (vacuous) associations.
                            let s2 = s@;
                            assert forall|kv: K::V, vv: V::V|
                                entry_in(s2, kv, vv) <==> (entry_in(s0, kv, vv) && !(kv == key@
                                    && vv == value@)) by {
                                lemma_entry_swap_remove_keyless(s1, i as int);
                                if entry_in(s2, kv, vv) {
                                    assert(entry_in(s1, kv, vv) && kv != s1[i as int].0@);
                                }
                                if entry_in(s0, kv, vv) && !(kv == key@ && vv == value@) {
                                    assert(entry_in(s1, kv, vv));
                                    if kv == key@ {
                                        assert(bucket_has(s1[i as int].1@, vv));
                                        assert(false);
                                    }
                                }
                            }
                            lemma_entry_swap_remove_keyless(s1, i as int);
                            assert(flat_count(s@) + s1[i as int].1@.len() == flat_count(s1));
                            let n = s1.len() - 1;
                            assert forall|a: int|
                                0 <= a < s2.len() implies values_distinct(#[trigger] s2[a].1@)
                                && s2[a].1@.len() > 0 by {
                                let oa: int = if a == i as int {
                                    n
                                } else {
                                    a
                                };
                                assert(s2[a] == s1[oa]);
                                assert(oa != i as int);
                                assert(s1[oa] == s0[oa]);
                                assert(values_distinct(s0[oa].1@) && s0[oa].1@.len() > 0);
                            }
                        }
                    } else {
                        proof {
                            assert forall|a: int|
                                0 <= a < s@.len() implies values_distinct(#[trigger] s@[a].1@)
                                && s@[a].1@.len() > 0 by {
                                if a != i {
                                    assert(s@[a] == s0[a]);
                                    assert(values_distinct(s0[a].1@) && s0[a].1@.len() > 0);
                                }
                            }
                            assert forall|kv: K::V, vv: V::V|
                                entry_in(s@, kv, vv) <==> (entry_in(s0, kv, vv) && !(kv == key@
                                    && vv == value@)) by {
                                if kv == s0[i as int].0@ {
                                    assert(entry_in(s0, kv, vv) <==> bucket_has(
                                        s0[i as int].1@,
                                        vv,
                                    ));
                                }
                            }
                        }
                    }
                    true
                },
                None => {
                    proof {
                        if entry_in(s0, key@, value@) {
                            let w = choose|w: int|
                                0 <= w < s0.len() && s0[w].0@ == key@ && bucket_has(s0[w].1@, value@);
                            assert(w == i as int);
                        }
                    }
                    false
                },
            }
        },
        None => {
            proof {
                if entry_in(s@, key@, value@) {
                    let w = choose|w: int|
                        0 <= w < s@.len() && s@[w].0@ == key@ && bucket_has(s@[w].1@, value@);
                    assert(has_key(s@, key@));
                }
            }
            false
        },
    }
}

/// The swap-remove entry lemma without the non-empty-bucket obligation,
/// for removing an entry whose bucket has just been emptied.
pub proof fn lemma_entry_swap_remove_keyless<K: View, V: View>(s: Seq<(K, Vec<V>)>, i: int)
    requires
        0 <= i < s.len(),
        keys_distinct(s),
    ensures
        keys_distinct(s.update(i, s.last()).drop_last()),
        forall|kv: K::V, vv: V::V|
            entry_in(s.update(i, s.last()).drop_last(), kv, vv) <==> (entry_in(s, kv, vv) && kv
                != s[i].0@),
        forall|kv: K::V|
            has_key(s.update(i, s.last()).drop_last(), kv) <==> (has_key(s, kv) && kv != s[i].0@),
        flat_count(s.update(i, s.last()).drop_last()) + s[i].1@.len() == flat_count(s),
{
    let s2 = s.update(i, s.last()).drop_last();
    let n = s.len() - 1;
    lemma_flat_count_update(s, i, s.last());
    let su = s.update(i, s.last());
    if i == n {
        assert(su =~= s);
        assert(flat_count(su.drop_last()) + su.last().1@.len() == flat_count(su));
    } else {
        assert(su.last() == s.last());
        assert(flat_count(su.drop_last()) + su.last().1@.len() == flat_count(su));
    }
    assert forall|kv: K::V, vv: V::V|
        entry_in(s2, kv, vv) implies (entry_in(s, kv, vv) && kv != s[i].0@) by {
        let w = choose|w: int|
            0 <= w < s2.len() && s2[w].0@ == kv && bucket_has(s2[w].1@, vv);
        if w == i {
            assert(s2[w] == s[n]);
            assert(s[n].0@ == kv && bucket_has(s[n].1@, vv));
            assert(i != n);
        } else {
            assert(s2[w] == s[w]);
        }
    }
    assert forall|kv: K::V, vv: V::V|
        (entry_in(s, kv, vv) && kv != s[i].0@) implies entry_in(s2, kv, vv) by {
        let w = choose|w: int|
            0 <= w < s.len() && s[w].0@ == kv && bucket_has(s[w].1@, vv);
        assert(w != i);
        if w == n {
            assert(i < n);
            assert(s2[i] == s[n]);
        } else {
            assert(s2[w] == s[w]);
        }
    }
    assert forall|kv: K::V| has_key(s2, kv) implies (has_key(s, kv) && kv != s[i].0@) by {
        let w = choose|w: int| 0 <= w < s2.len() && s2[w].0@ == kv;
        if w == i {
            assert(s2[w] == s[n]);
            assert(s[n].0@ == kv);
        } else {
            assert(s2[w] == s[w]);
        }
    }
    assert forall|kv: K::V| (has_key(s, kv) && kv != s[i].0@) implies has_key(s2, kv) by {
        let w = choose|w: int| 0 <= w < s.len() && s[w].0@ == kv;
        assert(w != i);
        if w == n {
            assert(i < n);
            assert(s2[i] == s[n]);
        } else {
            assert(s2[w] == s[w]);
        }
    }
    assert forall|a: int, b: int|
        0 <= a < s2.len() && 0 <= b < s2.len() && a != b implies s2[a].0@ != s2[b].0@ by {
        let oa: int = if a == i { n } else { a };
        let ob: int = if b == i { n } else { b };
        assert(s2[a] == s[oa] && s2[b] == s[ob]);
        assert(oa != ob);
    }
}

} // verus!
