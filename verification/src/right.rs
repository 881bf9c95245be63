//! Operations keyed by the right side of a [`BiMultiMap`](crate::BiMultiMap):
//! lookups, cascading removal, and bulk replacement of one right key's
//! associates. Each operation mirrors its left-side counterpart.

use vstd::prelude::*;

use crate::BiMultiMap;
use crate::index::{
    bucket_has, entry_in, find_key, find_value, flat_count, has_key, index_remove, index_wf,
    lemma_entry_swap_remove, lemma_flat_count_is_card, lemma_has_key_iff_entry, mirrored,
    values_distinct,
};
use crate::value::EqClone;

verus! {

impl<L: EqClone, R: EqClone> BiMultiMap<L, R> {
    /// The left values associated with `right`, or `None` if there are
    /// none. The returned bucket is non-empty and free of duplicates.
    pub fn get_right(&self, right: &R) -> (r: Option<&Vec<L>>)
        requires
            self.wf(),
        ensures
            r is Some <==> (exists|lv: L::V| self@.contains((lv, right@))),
            match r {
                Some(b) => values_distinct(b@) && b@.len() > 0 && (forall|lv: L::V|
                    bucket_has(b@, lv) <==> self@.contains((lv, right@))),
                None => forall|lv: L::V| !self@.contains((lv, right@)),
            },
    {
        match find_key(&self.right_index, right) {
            Some(i) => {
                let b = &self.right_index[i].1;
                proof {
                    let s = self.right_index@;
                    assert(bucket_has(b@, b@[0]@));
                    assert(entry_in(s, right@, b@[0]@));
                    assert(entry_in(self.left_index@, b@[0]@, right@));
                    assert forall|lv: L::V|
                        bucket_has(b@, lv) <==> self@.contains((lv, right@)) by {
                        if bucket_has(b@, lv) {
                            assert(s[i as int].0@ == right@ && bucket_has(s[i as int].1@, lv));
                            assert(entry_in(s, right@, lv));
                            assert(entry_in(self.left_index@, lv, right@));
                        }
                        if entry_in(self.left_index@, lv, right@) {
                            assert(entry_in(s, right@, lv));
                            let w = choose|w: int|
                                0 <= w < s.len() && s[w].0@ == right@ && bucket_has(s[w].1@, lv);
                            assert(w == i as int);
                        }
                    }
                }
                Some(b)
            },
            None => {
                proof {
                    let s = self.right_index@;
                    assert forall|lv: L::V| !self@.contains((lv, right@)) by {
                        if entry_in(self.left_index@, lv, right@) {
                            assert(entry_in(s, right@, lv));
                            let w = choose|w: int|
                                0 <= w < s.len() && s[w].0@ == right@ && bucket_has(s[w].1@, lv);
                            assert(has_key(s, right@));
                        }
                    }
                }
                None
            },
        }
    }

    /// One left value associated with `right`, or `None` if there are
    /// none. Which associate is returned is unspecified.
    pub fn get_one_right(&self, right: &R) -> (r: Option<&L>)
        requires
            self.wf(),
        ensures
            r is Some <==> (exists|lv: L::V| self@.contains((lv, right@))),
            match r {
                Some(v) => self@.contains((v@, right@)),
                None => forall|lv: L::V| !self@.contains((lv, right@)),
            },
    {
        match self.get_right(right) {
            Some(b) => {
                proof {
                    assert(bucket_has(b@, b@[0]@));
                }
                Some(&b[0])
            },
            None => None,
        }
    }

    /// The left values associated with `right` materialized as a vector of
    /// references, or `None` if there are none. The order is unspecified.
    pub fn get_right_vec(&self, right: &R) -> (r: Option<Vec<&L>>)
        requires
            self.wf(),
        ensures
            r is Some <==> (exists|lv: L::V| self@.contains((lv, right@))),
            match r {
                Some(vs) => values_distinct(vs@) && vs@.len() > 0 && (forall|lv: L::V|
                    bucket_has(vs@, lv) <==> self@.contains((lv, right@))),
                None => forall|lv: L::V| !self@.contains((lv, right@)),
            },
    {
        match self.get_right(right) {
            Some(b) => {
                let mut vs: Vec<&L> = Vec::new();
                let mut j: usize = 0;
                while j < b.len()
                    invariant
                        j <= b@.len(),
                        vs@.len() == j,
                        forall|w: int| 0 <= w < j ==> vs@[w]@ == b@[w]@,
                    decreases b@.len() - j,
                {
                    vs.push(&b[j]);
                    j = j + 1;
                }
                proof {
                    assert forall|lv: L::V| bucket_has(vs@, lv) <==> bucket_has(b@, lv) by {
                        if bucket_has(vs@, lv) {
                            let w = choose|w: int| 0 <= w < vs@.len() && vs@[w]@ == lv;
                            assert(b@[w]@ == lv);
                        }
                        if bucket_has(b@, lv) {
                            let w = choose|w: int| 0 <= w < b@.len() && b@[w]@ == lv;
                            assert(vs@[w]@ == lv);
                        }
                    }
                    assert forall|a: int, c: int|
                        0 <= a < vs@.len() && 0 <= c < vs@.len() && a != c implies vs@[a]@
                        != vs@[c]@ by {
                        assert(vs@[a]@ == b@[a]@ && vs@[c]@ == b@[c]@);
                    }
                }
                Some(vs)
            },
            None => None,
        }
    }

    /// The distinct right values currently present, each referenced once.
    /// The order is unspecified.
    pub fn right_values(&self) -> (r: Vec<&R>)
        requires
            self.wf(),
        ensures
            values_distinct(r@),
            forall|rv: R::V|
                bucket_has(r@, rv) <==> exists|lv: L::V| self@.contains((lv, rv)),
    {
        let mut out: Vec<&R> = Vec::new();
        let mut i: usize = 0;
        while i < self.right_index.len()
            invariant
                self.wf(),
                i <= self.right_index@.len(),
                out@.len() == i,
                forall|w: int| 0 <= w < i ==> out@[w]@ == self.right_index@[w].0@,
            decreases self.right_index@.len() - i,
        {
            out.push(&self.right_index[i].0);
            i = i + 1;
        }
        proof {
            let s = self.right_index@;
            assert forall|rv: R::V|
                bucket_has(out@, rv) <==> exists|lv: L::V| self@.contains((lv, rv)) by {
                lemma_has_key_iff_entry(s, rv);
                if bucket_has(out@, rv) {
                    let w = choose|w: int| 0 <= w < out@.len() && out@[w]@ == rv;
                    assert(s[w].0@ == rv);
                    assert(has_key(s, rv));
                    let lv = choose|lv: L::V| entry_in(s, rv, lv);
                    assert(entry_in(self.left_index@, lv, rv));
                    assert(self@.contains((lv, rv)));
                }
                if exists|lv: L::V| self@.contains((lv, rv)) {
                    let lv = choose|lv: L::V| self@.contains((lv, rv));
                    assert(entry_in(s, rv, lv));
                    assert(has_key(s, rv));
                    let w = choose|w: int| 0 <= w < s.len() && s[w].0@ == rv;
                    assert(out@[w]@ == rv);
                }
            }
            assert forall|a: int, c: int|
                0 <= a < out@.len() && 0 <= c < out@.len() && a != c implies out@[a]@
                != out@[c]@ by {
                assert(out@[a]@ == s[a].0@ && out@[c]@ == s[c].0@);
            }
        }
        out
    }

    /// Removes every association whose right value is `right`, returning
    /// the left values that were associated, or `None` if there were none.
    pub fn remove_right(&mut self, right: &R) -> (r: Option<Vec<L>>)
        requires
            old(self).wf(),
        ensures
            final(self).wf(),
            r is Some <==> (exists|lv: L::V| old(self)@.contains((lv, right@))),
            match r {
                Some(b) => values_distinct(b@) && b@.len() > 0 && (forall|lv: L::V|
                    bucket_has(b@, lv) <==> old(self)@.contains((lv, right@))),
                None => forall|lv: L::V| !old(self)@.contains((lv, right@)),
            },
            forall|p: (L::V, R::V)|
                final(self)@.contains(p) <==> (old(self)@.contains(p) && p.1 != right@),
    {
        let ghost l0 = self.left_index@;
        let ghost r0 = self.right_index@;
        match find_key(&self.right_index, right) {
            None => {
                proof {
                    assert forall|lv: L::V| !old(self)@.contains((lv, right@)) by {
                        if entry_in(l0, lv, right@) {
                            assert(entry_in(r0, right@, lv));
                            let w = choose|w: int|
                                0 <= w < r0.len() && r0[w].0@ == right@ && bucket_has(r0[w].1@, lv);
                            assert(has_key(r0, right@));
                        }
                    }
                    assert forall|p: (L::V, R::V)|
                        self@.contains(p) <==> (old(self)@.contains(p) && p.1 != right@) by {
                        if entry_in(l0, p.0, p.1) && p.1 == right@ {
                            assert(entry_in(r0, right@, p.0));
                            let w = choose|w: int|
                                0 <= w < r0.len() && r0[w].0@ == right@ && bucket_has(
                                    r0[w].1@,
                                    p.0,
                                );
                            assert(has_key(r0, right@));
                        }
                    }
                }
                None
            },
            Some(i) => {
                proof {
                    lemma_entry_swap_remove(r0, i as int);
                }
                let entry = self.right_index.swap_remove(i);
                let bucket = entry.1;
                let ghost r1 = self.right_index@;
                proof {
                    assert(r1 =~= r0.update(i as int, r0.last()).drop_last());
                    assert(bucket@ == r0[i as int].1@);
                    // The bucket holds exactly the old partners of `right`.
                    assert forall|lv: L::V|
                        bucket_has(bucket@, lv) <==> entry_in(r0, right@, lv) by {
                        if entry_in(r0, right@, lv) {
                            let w = choose|w: int|
                                0 <= w < r0.len() && r0[w].0@ == right@ && bucket_has(r0[w].1@, lv);
                            assert(w == i as int);
                        }
                    }
                }
                let mut j: usize = 0;
                while j < bucket.len()
                    invariant
                        j <= bucket@.len(),
                        self.right_index@ == r1,
                        self.count == old(self).count,
                        index_wf(self.left_index@),
                        values_distinct(bucket@),
                        forall|lv: L::V| bucket_has(bucket@, lv) <==> entry_in(r0, right@, lv),
                        forall|kv: L::V, vv: R::V|
                            entry_in(self.left_index@, kv, vv) <==> (entry_in(l0, kv, vv)
                                && !(vv == right@ && bucket_has(bucket@.take(j as int), kv))),
                        flat_count(self.left_index@) + j == flat_count(l0),
                        mirrored(l0, r0),
                    decreases bucket@.len() - j,
                {
                    let ghost lcur = self.left_index@;
                    proof {
                        // The pair (bucket[j], right) is still present on
                        // the left side: it was there initially, and
                        // earlier iterations removed only other pairs.
                        assert(bucket_has(bucket@, bucket@[j as int]@));
                        assert(entry_in(r0, right@, bucket@[j as int]@));
                        assert(entry_in(l0, bucket@[j as int]@, right@));
                        if bucket_has(bucket@.take(j as int), bucket@[j as int]@) {
                            let u = choose|u: int|
                                0 <= u < j && bucket@.take(j as int)[u]@ == bucket@[j as int]@;
                            assert(false);
                        }
                        assert(entry_in(lcur, bucket@[j as int]@, right@));
                    }
                    index_remove(&mut self.left_index, &bucket[j], right);
                    proof {
                        assert(bucket@.take(j as int + 1) =~= bucket@.take(j as int).push(
                            bucket@[j as int],
                        ));
                        assert forall|kv: L::V, vv: R::V|
                            entry_in(self.left_index@, kv, vv) <==> (entry_in(l0, kv, vv)
                                && !(vv == right@ && bucket_has(
                                bucket@.take(j as int + 1),
                                kv,
                            ))) by {
                            assert(entry_in(self.left_index@, kv, vv) <==> (entry_in(
                                lcur,
                                kv,
                                vv,
                            ) && !(kv == bucket@[j as int]@ && vv == right@)));
                            assert(entry_in(lcur, kv, vv) <==> (entry_in(l0, kv, vv) && !(vv
                                == right@ && bucket_has(bucket@.take(j as int), kv))));
                            if bucket_has(bucket@.take(j as int), kv) {
                                let u = choose|u: int|
                                    0 <= u < j && bucket@.take(j as int)[u]@ == kv;
                                assert(bucket@.take(j as int + 1)[u]@ == kv);
                            }
                            if bucket_has(bucket@.take(j as int + 1), kv) && kv
                                != bucket@[j as int]@ {
                                let u = choose|u: int|
                                    0 <= u < j + 1 && #[trigger] bucket@.take(
                                        j as int + 1,
                                    )[u]@ == kv;
                                assert(u < j);
                                assert(bucket@.take(j as int)[u]@ == kv);
                            }
                            if kv == bucket@[j as int]@ {
                                assert(bucket@.take(j as int + 1)[j as int]@ == kv);
                            }
                        }
                    }
                    j = j + 1;
                }
                proof {
                    assert(bucket@.take(bucket@.len() as int) =~= bucket@);
                }
                self.count = self.count - bucket.len();
                proof {
                    assert forall|kv: L::V, vv: R::V|
                        #![trigger entry_in(self.left_index@, kv, vv)]
                        #![trigger entry_in(self.right_index@, vv, kv)]
                        entry_in(self.left_index@, kv, vv) <==> entry_in(
                            self.right_index@,
                            vv,
                            kv,
                        ) by {
                        assert(entry_in(l0, kv, vv) <==> entry_in(r0, vv, kv));
                        assert(entry_in(r1, vv, kv) <==> (entry_in(r0, vv, kv) && vv != right@));
                        if entry_in(l0, kv, vv) && vv == right@ {
                            assert(entry_in(r0, right@, kv));
                            assert(bucket_has(bucket@, kv));
                        }
                    }
                    assert forall|p: (L::V, R::V)|
                        self@.contains(p) <==> (old(self)@.contains(p) && p.1 != right@) by {
                        assert(entry_in(self.left_index@, p.0, p.1) <==> (entry_in(
                            l0,
                            p.0,
                            p.1,
                        ) && !(p.1 == right@ && bucket_has(bucket@, p.0))));
                        if entry_in(l0, p.0, p.1) && p.1 == right@ {
                            assert(entry_in(r0, right@, p.0));
                            assert(bucket_has(bucket@, p.0));
                        }
                    }
                    assert forall|lv: L::V|
                        bucket_has(bucket@, lv) <==> old(self)@.contains((lv, right@)) by {
                        assert(entry_in(l0, lv, right@) <==> entry_in(r0, right@, lv));
                    }
                    assert(bucket_has(bucket@, bucket@[0]@));
                }
                Some(bucket)
            },
        }
    }

    /// Replaces the set of left values associated with `right_key` with
    /// exactly the given values, reconciling the left index: associates
    /// present in both the old and the new set are untouched, the rest are
    /// removed or added as needed. An empty `left_values` removes the key.
    ///
    /// `left_values` stands for a set, so its elements must be pairwise
    /// distinct. The bound on the sizes is a machine limit: the entry count
    /// is kept in a `usize`.
    pub fn set_right(&mut self, right_key: R, left_values: Vec<L>)
        requires
            old(self).wf(),
            values_distinct(left_values@),
            old(self)@.len() + left_values@.len() <= usize::MAX,
        ensures
            final(self).wf(),
            forall|p: (L::V, R::V)|
                final(self)@.contains(p) <==> (if p.1 == right_key@ {
                    bucket_has(left_values@, p.0)
                } else {
                    old(self)@.contains(p)
                }),
    {
        // Of the values currently associated with the key, those absent
        // from the new set are to be removed; values present in both sets
        // are left untouched.
        let mut to_remove: Vec<L> = Vec::new();
        match self.get_right(&right_key) {
            Some(b) => {
                let mut j: usize = 0;
                while j < b.len()
                    invariant
                        j <= b@.len(),
                        values_distinct(b@),
                        forall|lv: L::V|
                            bucket_has(to_remove@, lv) <==> (bucket_has(b@.take(j as int), lv)
                                && !bucket_has(left_values@, lv)),
                        values_distinct(to_remove@),
                    decreases b@.len() - j,
                {
                    let ghost tr0 = to_remove@;
                    match find_value(&left_values, &b[j]) {
                        Some(_) => {
                            proof {
                                assert(bucket_has(left_values@, b@[j as int]@));
                                assert(b@.take(j as int + 1) =~= b@.take(j as int).push(
                                    b@[j as int],
                                ));
                                assert forall|lv: L::V|
                                    bucket_has(to_remove@, lv) <==> (bucket_has(
                                        b@.take(j as int + 1),
                                        lv,
                                    ) && !bucket_has(left_values@, lv)) by {
                                    if bucket_has(b@.take(j as int + 1), lv) && lv
                                        != b@[j as int]@ {
                                        let u = choose|u: int|
                                            0 <= u < j + 1 && #[trigger] b@.take(
                                                j as int + 1,
                                            )[u]@ == lv;
                                        assert(u < j);
                                        assert(b@.take(j as int)[u]@ == lv);
                                    }
                                    if bucket_has(b@.take(j as int), lv) {
                                        let u = choose|u: int|
                                            0 <= u < j && b@.take(j as int)[u]@ == lv;
                                        assert(b@.take(j as int + 1)[u]@ == lv);
                                    }
                                }
                            }
                        },
                        None => {
                            to_remove.push(b[j].clone_value());
                            proof {
                                assert(to_remove@ =~= tr0.push(to_remove@.last()));
                                assert(to_remove@.last()@ == b@[j as int]@);
                                assert(b@.take(j as int + 1) =~= b@.take(j as int).push(
                                    b@[j as int],
                                ));
                                assert forall|lv: L::V|
                                    bucket_has(to_remove@, lv) <==> (bucket_has(
                                        b@.take(j as int + 1),
                                        lv,
                                    ) && !bucket_has(left_values@, lv)) by {
                                    if bucket_has(to_remove@, lv) {
                                        let u = choose|u: int|
                                            0 <= u < to_remove@.len() && to_remove@[u]@ == lv;
                                        if u < tr0.len() {
                                            assert(bucket_has(tr0, lv));
                                            let w = choose|w: int|
                                                0 <= w < j && b@.take(j as int)[w]@ == lv;
                                            assert(b@.take(j as int + 1)[w]@ == lv);
                                        } else {
                                            assert(lv == b@[j as int]@);
                                            assert(b@.take(j as int + 1)[j as int]@ == lv);
                                        }
                                    }
                                    if bucket_has(b@.take(j as int + 1), lv) && !bucket_has(
                                        left_values@,
                                        lv,
                                    ) {
                                        let u = choose|u: int|
                                            0 <= u < j + 1 && #[trigger] b@.take(
                                                j as int + 1,
                                            )[u]@ == lv;
                                        if u < j {
                                            assert(b@.take(j as int)[u]@ == lv);
                                            assert(bucket_has(tr0, lv));
                                            let w = choose|w: int|
                                                0 <= w < tr0.len() && tr0[w]@ == lv;
                                            assert(to_remove@[w]@ == lv);
                                        } else {
                                            assert(to_remove@.last()@ == lv);
                                        }
                                    }
                                }
                                assert forall|a: int, c: int|
                                    0 <= a < to_remove@.len() && 0 <= c < to_remove@.len() && a
                                    != c implies to_remove@[a]@ != to_remove@[c]@ by {
                                    if to_remove@[a]@ == to_remove@[c]@ {
                                        let x: int = if a < c {
                                            a
                                        } else {
                                            c
                                        };
                                        assert(x < tr0.len());
                                        assert(bucket_has(tr0, to_remove@.last()@));
                                        let w = choose|w: int|
                                            0 <= w < j && b@.take(j as int)[w]@
                                                == to_remove@.last()@;
                                        assert(b@[w]@ == b@[j as int]@);
                                        assert(false);
                                    }
                                }
                            }
                        },
                    }
                    j = j + 1;
                }
                proof {
                    assert(b@.take(b@.len() as int) =~= b@);
                    assert forall|lv: L::V|
                        bucket_has(to_remove@, lv) <==> (old(self)@.contains((lv, right_key@))
                            && !bucket_has(left_values@, lv)) by {}
                }
            },
            None => {
                proof {
                    assert forall|lv: L::V|
                        bucket_has(to_remove@, lv) <==> (old(self)@.contains((lv, right_key@))
                            && !bucket_has(left_values@, lv)) by {
                        if bucket_has(to_remove@, lv) {
                            let u = choose|u: int|
                                0 <= u < to_remove@.len() && to_remove@[u]@ == lv;
                            assert(false);
                        }
                    }
                }
            },
        }
        // Remove the stale associations.
        let mut a: usize = 0;
        while a < to_remove.len()
            invariant
                a <= to_remove@.len(),
                self.wf(),
                old(self).wf(),
                values_distinct(to_remove@),
                values_distinct(left_values@),
                forall|lv: L::V|
                    bucket_has(to_remove@, lv) <==> (old(self)@.contains((lv, right_key@))
                        && !bucket_has(left_values@, lv)),
                forall|p: (L::V, R::V)|
                    self@.contains(p) <==> (old(self)@.contains(p) && !(p.1 == right_key@
                        && bucket_has(to_remove@.take(a as int), p.0))),
                old(self)@.len() + left_values@.len() <= usize::MAX,
                self@.len() <= old(self)@.len(),
            decreases to_remove@.len() - a,
        {
            let ghost cur = self@;
            proof {
                lemma_flat_count_is_card(self.left_index@);
                lemma_flat_count_is_card(old(self).left_index@);
                assert(cur.finite());
            }
            self.remove(&to_remove[a], &right_key);
            proof {
                assert(to_remove@.take(a as int + 1) =~= to_remove@.take(a as int).push(
                    to_remove@[a as int],
                ));
                assert forall|p: (L::V, R::V)|
                    self@.contains(p) <==> (old(self)@.contains(p) && !(p.1 == right_key@
                        && bucket_has(to_remove@.take(a as int + 1), p.0))) by {
                    assert(self@ == cur.remove((to_remove@[a as int]@, right_key@)));
                    assert(cur.contains(p) <==> (old(self)@.contains(p) && !(p.1 == right_key@
                        && bucket_has(to_remove@.take(a as int), p.0))));
                    assert(p == (p.0, p.1));
                    if bucket_has(to_remove@.take(a as int), p.0) {
                        let u = choose|u: int|
                            0 <= u < a && to_remove@.take(a as int)[u]@ == p.0;
                        assert(to_remove@.take(a as int + 1)[u]@ == p.0);
                    }
                    if bucket_has(to_remove@.take(a as int + 1), p.0) && p.0
                        != to_remove@[a as int]@ {
                        let u = choose|u: int|
                            0 <= u < a + 1 && #[trigger] to_remove@.take(a as int + 1)[u]@
                                == p.0;
                        assert(u < a);
                        assert(to_remove@.take(a as int)[u]@ == p.0);
                    }
                    if p.0 == to_remove@[a as int]@ {
                        assert(to_remove@.take(a as int + 1)[a as int]@ == p.0);
                    }
                }
                assert(self@ == cur.remove((to_remove@[a as int]@, right_key@)));
                assert(cur.remove((to_remove@[a as int]@, right_key@)).len() <= cur.len());
            }
            a = a + 1;
        }
        proof {
            assert(to_remove@.take(to_remove@.len() as int) =~= to_remove@);
            lemma_flat_count_is_card(self.left_index@);
        }
        let ghost mid = self@;
        // Add the new associations; values already present are untouched.
        // The ghost set `added` collects the views handled so far.
        let ghost mut added: Set<L::V> = Set::empty();
        let mut bi: usize = 0;
        while bi < left_values.len()
            invariant
                bi <= left_values@.len(),
                self.wf(),
                old(self).wf(),
                mid.finite(),
                forall|lv: L::V|
                    bucket_has(to_remove@, lv) <==> (old(self)@.contains((lv, right_key@))
                        && !bucket_has(left_values@, lv)),
                forall|p: (L::V, R::V)|
                    mid.contains(p) <==> (old(self)@.contains(p) && !(p.1 == right_key@
                        && bucket_has(to_remove@, p.0))),
                values_distinct(left_values@),
                forall|lv: L::V| #[trigger] added.contains(lv) ==> bucket_has(left_values@, lv),
                forall|u: int| 0 <= u < bi ==> added.contains(#[trigger] left_values@[u]@),
                forall|p: (L::V, R::V)|
                    self@.contains(p) <==> (mid.contains(p) || (p.1 == right_key@
                        && added.contains(p.0))),
                old(self)@.len() + left_values@.len() <= usize::MAX,
                mid.len() <= old(self)@.len(),
                self@.len() <= mid.len() + bi,
            decreases left_values@.len() - bi,
        {
            let ghost cur = self@;
            let ghost added0 = added;
            proof {
                lemma_flat_count_is_card(self.left_index@);
                assert(cur.finite());
                assert(self@.len() < usize::MAX);
            }
            self.insert(left_values[bi].clone_value(), right_key.clone_value());
            proof {
                added = added.insert(left_values@[bi as int]@);
                assert(bucket_has(left_values@, left_values@[bi as int]@));
                assert forall|p: (L::V, R::V)|
                    self@.contains(p) <==> (mid.contains(p) || (p.1 == right_key@
                        && added.contains(p.0))) by {
                    assert(self@ == cur.insert((left_values@[bi as int]@, right_key@)));
                    assert(cur.contains(p) <==> (mid.contains(p) || (p.1 == right_key@
                        && added0.contains(p.0))));
                    assert(p == (p.0, p.1));
                }
                assert(self@ == cur.insert((left_values@[bi as int]@, right_key@)));
                assert(cur.insert((left_values@[bi as int]@, right_key@)).len() <= cur.len()
                    + 1);
            }
            bi = bi + 1;
        }
        proof {
            assert forall|p: (L::V, R::V)|
                self@.contains(p) <==> (if p.1 == right_key@ {
                bucket_has(left_values@, p.0)
            } else {
                old(self)@.contains(p)
            }) by {
                assert(self@.contains(p) <==> (mid.contains(p) || (p.1 == right_key@
                    && added.contains(p.0))));
                assert(mid.contains(p) <==> (old(self)@.contains(p) && !(p.1 == right_key@
                    && bucket_has(to_remove@, p.0))));
                if bucket_has(left_values@, p.0) {
                    let u = choose|u: int|
                        0 <= u < left_values@.len() && left_values@[u]@ == p.0;
                    assert(added.contains(left_values@[u]@));
                }
                if p.1 == right_key@ {
                    assert(p == (p.0, right_key@));
                    assert(bucket_has(to_remove@, p.0) <==> (old(self)@.contains(p)
                        && !bucket_has(left_values@, p.0)));
                }
            }
        }
    }
}

} // verus!
