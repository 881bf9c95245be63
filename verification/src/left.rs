//! Operations keyed by the left side of a [`BiMultiMap`](crate::BiMultiMap):
//! lookups, cascading removal, and bulk replacement of one left key's
//! associates.

use vstd::prelude::*;

use crate::BiMultiMap;
use crate::index::{
    bucket_has, entry_in, find_key, find_value, flat_count, has_key, index_remove, index_wf,
    lemma_entry_swap_remove, lemma_flat_count_is_card, mirrored, values_distinct,
};
use crate::value::EqClone;

verus! {

impl<L: EqClone, R: EqClone> BiMultiMap<L, R> {
    /// The right values associated with `left`, or `None` if there are
    /// none. The returned bucket is non-empty and free of duplicates.
    pub fn get_left(&self, left: &L) -> (r: Option<&Vec<R>>)
        requires
            self.wf(),
        ensures
            r is Some <==> (exists|rv: R::V| self@.contains((left@, rv))),
            match r {
                Some(b) => values_distinct(b@) && b@.len() > 0 && (forall|rv: R::V|
                    bucket_has(b@, rv) <==> self@.contains((left@, rv))),
                None => forall|rv: R::V| !self@.contains((left@, rv)),
            },
    {
        match find_key(&self.left_index, left) {
            Some(i) => {
                let b = &self.left_index[i].1;
                proof {
                    let s = self.left_index@;
                    assert(bucket_has(b@, b@[0]@));
                    assert(entry_in(s, left@, b@[0]@));
                    assert forall|rv: R::V|
                        bucket_has(b@, rv) <==> self@.contains((left@, rv)) by {
                        if bucket_has(b@, rv) {
                            assert(s[i as int].0@ == left@ && bucket_has(s[i as int].1@, rv));
                            assert(entry_in(s, left@, rv));
                        }
                        if entry_in(s, left@, rv) {
                            let w = choose|w: int|
                                0 <= w < s.len() && s[w].0@ == left@ && bucket_has(s[w].1@, rv);
                            assert(w == i as int);
                        }
                    }
                }
                Some(b)
            },
            None => {
                proof {
                    let s = self.left_index@;
                    assert forall|rv: R::V| !self@.contains((left@, rv)) by {
                        if entry_in(s, left@, rv) {
                            let w = choose|w: int|
                                0 <= w < s.len() && s[w].0@ == left@ && bucket_has(s[w].1@, rv);
                            assert(has_key(s, left@));
                        }
                    }
                }
                None
            },
        }
    }

    /// One right value associated with `left`, or `None` if there are
    /// none. Which associate is returned is unspecified.
    pub fn get_one_left(&self, left: &L) -> (r: Option<&R>)
        requires
            self.wf(),
        ensures
            r is Some <==> (exists|rv: R::V| self@.contains((left@, rv))),
            match r {
                Some(v) => self@.contains((left@, v@)),
                None => forall|rv: R::V| !self@.contains((left@, rv)),
            },
    {
        match self.get_left(left) {
            Some(b) => {
                proof {
                    assert(bucket_has(b@, b@[0]@));
                }
                Some(&b[0])
            },
            None => None,
        }
    }

    /// The right values associated with `left` materialized as a vector of
    /// references, or `None` if there are none. The order is unspecified.
    pub fn get_left_vec(&self, left: &L) -> (r: Option<Vec<&R>>)
        requires
            self.wf(),
        ensures
            r is Some <==> (exists|rv: R::V| self@.contains((left@, rv))),
            match r {
                Some(vs) => values_distinct(vs@) && vs@.len() > 0 && (forall|rv: R::V|
                    bucket_has(vs@, rv) <==> self@.contains((left@, rv))),
                None => forall|rv: R::V| !self@.contains((left@, rv)),
            },
    {
        match self.get_left(left) {
            Some(b) => {
                let mut vs: Vec<&R> = Vec::new();
                let mut j: usize = 0;
                while j < b.len()
                    invariant
                        j <= b@.len(),
                        vs@.len() == j,
                        forall|w: int| 0 <= w < j ==> vs@[w]@ == b@[w]@,
                    decreases b@.len() - j,
                {
                    vs.push(&b[j]);
                    j = j + 1;
                }
                proof {
                    assert forall|rv: R::V| bucket_has(vs@, rv) <==> bucket_has(b@, rv) by {
                        if bucket_has(vs@, rv) {
                            let w = choose|w: int| 0 <= w < vs@.len() && vs@[w]@ == rv;
                            assert(b@[w]@ == rv);
                        }
                        if bucket_has(b@, rv) {
                            let w = choose|w: int| 0 <= w < b@.len() && b@[w]@ == rv;
                            assert(vs@[w]@ == rv);
                        }
                    }
                    assert forall|a: int, c: int|
                        0 <= a < vs@.len() && 0 <= c < vs@.len() && a != c implies vs@[a]@
                        != vs@[c]@ by {
                        assert(vs@[a]@ == b@[a]@ && vs@[c]@ == b@[c]@);
                    }
                }
                Some(vs)
            },
            None => None,
        }
    }

    /// Removes every association whose left value is `left`, returning the
    /// right values that were associated, or `None` if there were none.
    pub fn remove_left(&mut self, left: &L) -> (r: Option<Vec<R>>)
        requires
            old(self).wf(),
        ensures
            final(self).wf(),
            r is Some <==> (exists|rv: R::V| old(self)@.contains((left@, rv))),
            match r {
                Some(b) => values_distinct(b@) && b@.len() > 0 && (forall|rv: R::V|
                    bucket_has(b@, rv) <==> old(self)@.contains((left@, rv))),
                None => forall|rv: R::V| !old(self)@.contains((left@, rv)),
            },
            forall|p: (L::V, R::V)|
                final(self)@.contains(p) <==> (old(self)@.contains(p) && p.0 != left@),
    {
        let ghost l0 = self.left_index@;
        let ghost r0 = self.right_index@;
        match find_key(&self.left_index, left) {
            None => {
                proof {
                    assert forall|rv: R::V| !old(self)@.contains((left@, rv)) by {
                        if entry_in(l0, left@, rv) {
                            let w = choose|w: int|
                                0 <= w < l0.len() && l0[w].0@ == left@ && bucket_has(l0[w].1@, rv);
                            assert(has_key(l0, left@));
                        }
                    }
                    assert forall|p: (L::V, R::V)|
                        self@.contains(p) <==> (old(self)@.contains(p) && p.0 != left@) by {
                        if entry_in(l0, p.0, p.1) && p.0 == left@ {
                            let w = choose|w: int|
                                0 <= w < l0.len() && l0[w].0@ == p.0 && bucket_has(l0[w].1@, p.1);
                            assert(has_key(l0, left@));
                        }
                    }
                }
                None
            },
            Some(i) => {
                proof {
                    lemma_entry_swap_remove(l0, i as int);
                }
                let entry = self.left_index.swap_remove(i);
                let bucket = entry.1;
                let ghost l1 = self.left_index@;
                proof {
                    assert(l1 =~= l0.update(i as int, l0.last()).drop_last());
                    assert(bucket@ == l0[i as int].1@);
                    // The bucket holds exactly the old partners of `left`.
                    assert forall|rv: R::V|
                        bucket_has(bucket@, rv) <==> entry_in(l0, left@, rv) by {
                        if entry_in(l0, left@, rv) {
                            let w = choose|w: int|
                                0 <= w < l0.len() && l0[w].0@ == left@ && bucket_has(l0[w].1@, rv);
                            assert(w == i as int);
                        }
                    }
                }
                let mut j: usize = 0;
                while j < bucket.len()
                    invariant
                        j <= bucket@.len(),
                        self.left_index@ == l1,
                        self.count == old(self).count,
                        index_wf(self.right_index@),
                        values_distinct(bucket@),
                        forall|rv: R::V| bucket_has(bucket@, rv) <==> entry_in(l0, left@, rv),
                        forall|kv: R::V, vv: L::V|
                            entry_in(self.right_index@, kv, vv) <==> (entry_in(r0, kv, vv)
                                && !(vv == left@ && bucket_has(bucket@.take(j as int), kv))),
                        flat_count(self.right_index@) + j == flat_count(r0),
                        mirrored(l0, r0),
                    decreases bucket@.len() - j,
                {
                    let ghost rcur = self.right_index@;
                    proof {
                        // The pair (bucket[j], left) is still present on the
                        // right side: it was there initially, and earlier
                        // iterations removed only other bucket elements.
                        assert(bucket_has(bucket@, bucket@[j as int]@));
                        assert(entry_in(l0, left@, bucket@[j as int]@));
                        assert(entry_in(r0, bucket@[j as int]@, left@));
                        if bucket_has(bucket@.take(j as int), bucket@[j as int]@) {
                            let u = choose|u: int|
                                0 <= u < j && bucket@.take(j as int)[u]@ == bucket@[j as int]@;
                            assert(false);
                        }
                        assert(entry_in(rcur, bucket@[j as int]@, left@));
                    }
                    index_remove(&mut self.right_index, &bucket[j], left);
                    proof {
                        assert(bucket@.take(j as int + 1) =~= bucket@.take(j as int).push(
                            bucket@[j as int],
                        ));
                        assert forall|kv: R::V, vv: L::V|
                            entry_in(self.right_index@, kv, vv) <==> (entry_in(r0, kv, vv)
                                && !(vv == left@ && bucket_has(
                                bucket@.take(j as int + 1),
                                kv,
                            ))) by {
                            assert(entry_in(self.right_index@, kv, vv) <==> (entry_in(
                                rcur,
                                kv,
                                vv,
                            ) && !(kv == bucket@[j as int]@ && vv == left@)));
                            assert(entry_in(rcur, kv, vv) <==> (entry_in(r0, kv, vv) && !(vv
                                == left@ && bucket_has(bucket@.take(j as int), kv))));
                            if bucket_has(bucket@.take(j as int), kv) {
                                let u = choose|u: int|
                                    0 <= u < j && bucket@.take(j as int)[u]@ == kv;
                                assert(bucket@.take(j as int + 1)[u]@ == kv);
                            }
                            if bucket_has(bucket@.take(j as int + 1), kv) && kv
                                != bucket@[j as int]@ {
                                let u = choose|u: int|
                                    0 <= u < j + 1 && #[trigger] bucket@.take(
                                        j as int + 1,
                                    )[u]@ == kv;
                                assert(u < j);
                                assert(bucket@.take(j as int)[u]@ == kv);
                            }
                            if kv == bucket@[j as int]@ {
                                assert(bucket@.take(j as int + 1)[j as int]@ == kv);
                            }
                        }
                    }
                    j = j + 1;
                }
                proof {
                    assert(bucket@.take(bucket@.len() as int) =~= bucket@);
                    // The left count drops by the bucket's length.
                    assert(flat_count(l1) + bucket@.len() == flat_count(l0));
                }
                self.count = self.count - bucket.len();
                proof {
                    assert forall|kv: L::V, vv: R::V|
                        #![trigger entry_in(self.left_index@, kv, vv)]
                        #![trigger entry_in(self.right_index@, vv, kv)]
                        entry_in(self.left_index@, kv, vv) <==> entry_in(
                            self.right_index@,
                            vv,
                            kv,
                        ) by {
                        assert(entry_in(l0, kv, vv) <==> entry_in(r0, vv, kv));
                        assert(entry_in(l1, kv, vv) <==> (entry_in(l0, kv, vv) && kv != left@));
                        if entry_in(r0, vv, kv) && kv != left@ {
                            assert(!(kv == left@ && bucket_has(bucket@, vv)));
                        }
                        if entry_in(r0, vv, kv) && !(kv == left@ && bucket_has(bucket@, vv)) {
                            if kv == left@ {
                                assert(entry_in(l0, left@, vv));
                                assert(bucket_has(bucket@, vv));
                                assert(false);
                            }
                        }
                    }
                    assert forall|p: (L::V, R::V)|
                        self@.contains(p) <==> (old(self)@.contains(p) && p.0 != left@) by {
                        assert(entry_in(l1, p.0, p.1) <==> (entry_in(l0, p.0, p.1) && p.0
                            != left@));
                    }
                    assert forall|rv: R::V|
                        bucket_has(bucket@, rv) <==> old(self)@.contains((left@, rv)) by {}
                    assert(bucket_has(bucket@, bucket@[0]@));
                }
                Some(bucket)
            },
        }
    }

    /// Replaces the set of right values associated with `left_key` with
    /// exactly the given values, reconciling the right index: associates
    /// present in both the old and the new set are untouched, the rest are
    /// removed or added as needed. An empty `right_values` removes the key.
    ///
    /// `right_values` stands for a set, so its elements must be pairwise
    /// distinct. The bound on the sizes is a machine limit: the entry count
    /// is kept in a `usize`.
    pub fn set_left(&mut self, left_key: L, right_values: Vec<R>)
        requires
            old(self).wf(),
            values_distinct(right_values@),
            old(self)@.len() + right_values@.len() <= usize::MAX,
        ensures
            final(self).wf(),
            forall|p: (L::V, R::V)|
                final(self)@.contains(p) <==> (if p.0 == left_key@ {
                    bucket_has(right_values@, p.1)
                } else {
                    old(self)@.contains(p)
                }),
    {
        // Of the values currently associated with the key, those absent
        // from the new set are to be removed; values present in both sets
        // are left untouched.
        let mut to_remove: Vec<R> = Vec::new();
        match self.get_left(&left_key) {
            Some(b) => {
                let mut j: usize = 0;
                while j < b.len()
                    invariant
                        j <= b@.len(),
                        values_distinct(b@),
                        forall|rv: R::V|
                            bucket_has(to_remove@, rv) <==> (bucket_has(b@.take(j as int), rv)
                                && !bucket_has(right_values@, rv)),
                        values_distinct(to_remove@),
                    decreases b@.len() - j,
                {
                    let ghost tr0 = to_remove@;
                    match find_value(&right_values, &b[j]) {
                        Some(_) => {
                            proof {
                                assert(bucket_has(right_values@, b@[j as int]@));
                                assert(b@.take(j as int + 1) =~= b@.take(j as int).push(
                                    b@[j as int],
                                ));
                                assert forall|rv: R::V|
                                    bucket_has(to_remove@, rv) <==> (bucket_has(
                                        b@.take(j as int + 1),
                                        rv,
                                    ) && !bucket_has(right_values@, rv)) by {
                                    if bucket_has(b@.take(j as int + 1), rv) && rv
                                        != b@[j as int]@ {
                                        let u = choose|u: int|
                                            0 <= u < j + 1 && #[trigger] b@.take(
                                                j as int + 1,
                                            )[u]@ == rv;
                                        assert(u < j);
                                        assert(b@.take(j as int)[u]@ == rv);
                                    }
                                    if bucket_has(b@.take(j as int), rv) {
                                        let u = choose|u: int|
                                            0 <= u < j && b@.take(j as int)[u]@ == rv;
                                        assert(b@.take(j as int + 1)[u]@ == rv);
                                    }
                                }
                            }
                        },
                        None => {
                            to_remove.push(b[j].clone_value());
                            proof {
                                assert(to_remove@ =~= tr0.push(to_remove@.last()));
                                assert(to_remove@.last()@ == b@[j as int]@);
                                assert(b@.take(j as int + 1) =~= b@.take(j as int).push(
                                    b@[j as int],
                                ));
                                assert forall|rv: R::V|
                                    bucket_has(to_remove@, rv) <==> (bucket_has(
                                        b@.take(j as int + 1),
                                        rv,
                                    ) && !bucket_has(right_values@, rv)) by {
                                    if bucket_has(to_remove@, rv) {
                                        let u = choose|u: int|
                                            0 <= u < to_remove@.len() && to_remove@[u]@ == rv;
                                        if u < tr0.len() {
                                            assert(bucket_has(tr0, rv));
                                            let w = choose|w: int|
                                                0 <= w < j && b@.take(j as int)[w]@ == rv;
                                            assert(b@.take(j as int + 1)[w]@ == rv);
                                        } else {
                                            assert(rv == b@[j as int]@);
                                            assert(b@.take(j as int + 1)[j as int]@ == rv);
                                        }
                                    }
                                    if bucket_has(b@.take(j as int + 1), rv) && !bucket_has(
                                        right_values@,
                                        rv,
                                    ) {
                                        let u = choose|u: int|
                                            0 <= u < j + 1 && #[trigger] b@.take(
                                                j as int + 1,
                                            )[u]@ == rv;
                                        if u < j {
                                            assert(b@.take(j as int)[u]@ == rv);
                                            assert(bucket_has(tr0, rv));
                                            let w = choose|w: int|
                                                0 <= w < tr0.len() && tr0[w]@ == rv;
                                            assert(to_remove@[w]@ == rv);
                                        } else {
                                            assert(to_remove@.last()@ == rv);
                                        }
                                    }
                                }
                                assert forall|a: int, c: int|
                                    0 <= a < to_remove@.len() && 0 <= c < to_remove@.len() && a
                                    != c implies to_remove@[a]@ != to_remove@[c]@ by {
                                    if to_remove@[a]@ == to_remove@[c]@ {
                                        let x: int = if a < c {
                                            a
                                        } else {
                                            c
                                        };
                                        assert(x < tr0.len());
                                        assert(bucket_has(tr0, to_remove@.last()@));
                                        let w = choose|w: int|
                                            0 <= w < j && b@.take(j as int)[w]@
                                                == to_remove@.last()@;
                                        assert(b@[w]@ == b@[j as int]@);
                                        assert(false);
                                    }
                                }
                            }
                        },
                    }
                    j = j + 1;
                }
                proof {
                    assert(b@.take(b@.len() as int) =~= b@);
                    assert forall|rv: R::V|
                        bucket_has(to_remove@, rv) <==> (old(self)@.contains((left_key@, rv))
                            && !bucket_has(right_values@, rv)) by {}
                }
            },
            None => {
                proof {
                    assert forall|rv: R::V|
                        bucket_has(to_remove@, rv) <==> (old(self)@.contains((left_key@, rv))
                            && !bucket_has(right_values@, rv)) by {
                        if bucket_has(to_remove@, rv) {
                            let u = choose|u: int|
                                0 <= u < to_remove@.len() && to_remove@[u]@ == rv;
                            assert(false);
                        }
                    }
                }
            },
        }
        // Remove the stale associations.
        let mut a: usize = 0;
        while a < to_remove.len()
            invariant
                a <= to_remove@.len(),
                self.wf(),
                old(self).wf(),
                values_distinct(to_remove@),
                values_distinct(right_values@),
                forall|rv: R::V|
                    bucket_has(to_remove@, rv) <==> (old(self)@.contains((left_key@, rv))
                        && !bucket_has(right_values@, rv)),
                forall|p: (L::V, R::V)|
                    self@.contains(p) <==> (old(self)@.contains(p) && !(p.0 == left_key@
                        && bucket_has(to_remove@.take(a as int), p.1))),
                old(self)@.len() + right_values@.len() <= usize::MAX,
                self@.len() <= old(self)@.len(),
            decreases to_remove@.len() - a,
        {
            let ghost cur = self@;
            proof {
                lemma_flat_count_is_card(self.left_index@);
                lemma_flat_count_is_card(old(self).left_index@);
                assert(cur.finite());
            }
            self.remove(&left_key, &to_remove[a]);
            proof {
                assert(to_remove@.take(a as int + 1) =~= to_remove@.take(a as int).push(
                    to_remove@[a as int],
                ));
                assert forall|p: (L::V, R::V)|
                    self@.contains(p) <==> (old(self)@.contains(p) && !(p.0 == left_key@
                        && bucket_has(to_remove@.take(a as int + 1), p.1))) by {
                    assert(self@ == cur.remove((left_key@, to_remove@[a as int]@)));
                    assert(cur.contains(p) <==> (old(self)@.contains(p) && !(p.0 == left_key@
                        && bucket_has(to_remove@.take(a as int), p.1))));
                    assert(p == (p.0, p.1));
                    if bucket_has(to_remove@.take(a as int), p.1) {
                        let u = choose|u: int|
                            0 <= u < a && to_remove@.take(a as int)[u]@ == p.1;
                        assert(to_remove@.take(a as int + 1)[u]@ == p.1);
                    }
                    if bucket_has(to_remove@.take(a as int + 1), p.1) && p.1
                        != to_remove@[a as int]@ {
                        let u = choose|u: int|
                            0 <= u < a + 1 && #[trigger] to_remove@.take(a as int + 1)[u]@
                                == p.1;
                        assert(u < a);
                        assert(to_remove@.take(a as int)[u]@ == p.1);
                    }
                    if p.1 == to_remove@[a as int]@ {
                        assert(to_remove@.take(a as int + 1)[a as int]@ == p.1);
                    }
                }
                assert(self@ == cur.remove((left_key@, to_remove@[a as int]@)));
                assert(cur.remove((left_key@, to_remove@[a as int]@)).len() <= cur.len());
            }
            a = a + 1;
        }
        proof {
            assert(to_remove@.take(to_remove@.len() as int) =~= to_remove@);
            lemma_flat_count_is_card(self.left_index@);
        }
        let ghost mid = self@;
        // Add the new associations; values already present are untouched.
        // The ghost set `added` collects the views handled so far.
        let ghost mut added: Set<R::V> = Set::empty();
        let mut bi: usize = 0;
        while bi < right_values.len()
            invariant
                bi <= right_values@.len(),
                self.wf(),
                old(self).wf(),
                mid.finite(),
                forall|rv: R::V|
                    bucket_has(to_remove@, rv) <==> (old(self)@.contains((left_key@, rv))
                        && !bucket_has(right_values@, rv)),
                forall|p: (L::V, R::V)|
                    mid.contains(p) <==> (old(self)@.contains(p) && !(p.0 == left_key@
                        && bucket_has(to_remove@, p.1))),
                values_distinct(right_values@),
                forall|rv: R::V| #[trigger] added.contains(rv) ==> bucket_has(right_values@, rv),
                forall|u: int| 0 <= u < bi ==> added.contains(#[trigger] right_values@[u]@),
                forall|p: (L::V, R::V)|
                    self@.contains(p) <==> (mid.contains(p) || (p.0 == left_key@
                        && added.contains(p.1))),
                old(self)@.len() + right_values@.len() <= usize::MAX,
                mid.len() <= old(self)@.len(),
                self@.len() <= mid.len() + bi,
            decreases right_values@.len() - bi,
        {
            let ghost cur = self@;
            let ghost added0 = added;
            proof {
                lemma_flat_count_is_card(self.left_index@);
                assert(cur.finite());
                assert(self@.len() < usize::MAX);
            }
            self.insert(left_key.clone_value(), right_values[bi].clone_value());
            proof {
                added = added.insert(right_values@[bi as int]@);
                assert(bucket_has(right_values@, right_values@[bi as int]@));
                assert forall|p: (L::V, R::V)|
                    self@.contains(p) <==> (mid.contains(p) || (p.0 == left_key@
                        && added.contains(p.1))) by {
                    assert(self@ == cur.insert((left_key@, right_values@[bi as int]@)));
                    assert(cur.contains(p) <==> (mid.contains(p) || (p.0 == left_key@
                        && added0.contains(p.1))));
                    assert(p == (p.0, p.1));
                }
                assert(self@ == cur.insert((left_key@, right_values@[bi as int]@)));
                assert(cur.insert((left_key@, right_values@[bi as int]@)).len() <= cur.len()
                    + 1);
            }
            bi = bi + 1;
        }
        proof {
            assert forall|p: (L::V, R::V)|
                self@.contains(p) <==> (if p.0 == left_key@ {
                bucket_has(right_values@, p.1)
            } else {
                old(self)@.contains(p)
            }) by {
                assert(self@.contains(p) <==> (mid.contains(p) || (p.0 == left_key@
                    && added.contains(p.1))));
                assert(mid.contains(p) <==> (old(self)@.contains(p) && !(p.0 == left_key@
                    && bucket_has(to_remove@, p.1))));
                if bucket_has(right_values@, p.1) {
                    let u = choose|u: int|
                        0 <= u < right_values@.len() && right_values@[u]@ == p.1;
                    assert(added.contains(right_values@[u]@));
                }
                if p.0 == left_key@ {
                    assert(p == (left_key@, p.1));
                    assert(bucket_has(to_remove@, p.1) <==> (old(self)@.contains(p)
                        && !bucket_has(right_values@, p.1)));
                }
            }
        }
    }
}

} // verus!
