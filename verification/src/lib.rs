//! A verified bidirectional multimap.
//!
//! A [`BiMultiMap`] associates many "left" values with many "right" values
//! and lets either side be used as the lookup key. It keeps two mirrored
//! indices — left value to the set of associated right values, and right
//! value to the set of associated left values — and every mutation updates
//! both before returning, so the two sides never disagree.
//!
//! The abstract state of the map, written `m@`, is the set of `(left view,
//! right view)` pairs it currently relates; every operation's contract is
//! stated against that set.

pub mod index;
pub mod laws;
mod left;
mod right;
pub mod value;

use vstd::prelude::*;

use crate::index::{
    bucket_has, entry_in, entry_set, flat_count, index_add, index_contains, index_remove,
    index_wf, keys_distinct, lemma_flat_count_is_card, lemma_views_card, lemma_views_card_le,
    mirrored, values_distinct, views_of,
};
use crate::value::EqClone;

verus! {

/// A bidirectional multimap between left values of type `L` and right values
/// of type `R`.
///
/// Each distinct association is one entry; inserting an existing pair is a
/// no-op, and a key whose last association is removed disappears from its
/// index entirely. `len` reports the number of entries.
#[derive(Clone, Debug)]
pub struct BiMultiMap<L: EqClone, R: EqClone> {
    left_index: Vec<(L, Vec<R>)>,
    right_index: Vec<(R, Vec<L>)>,
    count: usize,
}

impl<L: EqClone, R: EqClone> View for BiMultiMap<L, R> {
    type V = Set<(L::V, R::V)>;

    open(crate) spec fn view(&self) -> Set<(L::V, R::V)> {
        entry_set(self.left_index@)
    }
}

impl<L: EqClone, R: EqClone> BiMultiMap<L, R> {
    /// The relation as the right index records it: the set of
    /// `(right view, left view)` pairs. The map's own view `@` is the
    /// relation as the left index records it.
    pub open(crate) spec fn right_view(self) -> Set<(R::V, L::V)> {
        entry_set(self.right_index@)
    }

    /// The structural invariant: both indices are well formed, they mirror
    /// each other, and the stored entry count matches the left index.
    pub open(crate) spec fn wf(self) -> bool {
        &&& index_wf(self.left_index@)
        &&& index_wf(self.right_index@)
        &&& mirrored(self.left_index@, self.right_index@)
        &&& self.count == flat_count(self.left_index@)
    }

    /// Creates an empty map.
    pub fn new() -> (m: Self)
        ensures
            m.wf(),
            m@ == Set::<(L::V, R::V)>::empty(),
    {
        let m = BiMultiMap { left_index: Vec::new(), right_index: Vec::new(), count: 0usize };
        proof {
            assert(m@ =~= Set::<(L::V, R::V)>::empty());
        }
        m
    }

    /// The number of distinct associations currently stored.
    pub fn len(&self) -> (n: usize)
        requires
            self.wf(),
        ensures
            n == self@.len(),
    {
        proof {
            lemma_flat_count_is_card(self.left_index@);
        }
        self.count
    }

    /// Adds the association between `left` and `right`. Inserting a pair
    /// that is already present leaves the map unchanged.
    ///
    /// The bound on the current size is a machine limit: the entry count is
    /// kept in a `usize`.
    pub fn insert(&mut self, left: L, right: R)
        requires
            old(self).wf(),
            old(self)@.len() < usize::MAX,
        ensures
            final(self).wf(),
            final(self)@ == old(self)@.insert((left@, right@)),
    {
        let ghost l0 = self.left_index@;
        let ghost r0 = self.right_index@;
        let left2 = left.clone_value();
        let right2 = right.clone_value();
        let added_r = index_add(&mut self.right_index, right2, left2);
        let added_l = index_add(&mut self.left_index, left, right);
        proof {
            assert(entry_in(l0, left@, right@) <==> entry_in(r0, right@, left@));
            assert(added_l == added_r);
            lemma_flat_count_is_card(l0);
        }
        if added_l {
            self.count = self.count + 1;
        }
        proof {
            assert forall|kv: L::V, vv: R::V|
                #![trigger entry_in(self.left_index@, kv, vv)]
                #![trigger entry_in(self.right_index@, vv, kv)]
                entry_in(self.left_index@, kv, vv) <==> entry_in(
                    self.right_index@,
                    vv,
                    kv,
                ) by {
                assert(entry_in(l0, kv, vv) <==> entry_in(r0, vv, kv));
            }
            assert forall|p: (L::V, R::V)|
                self@.contains(p) <==> old(self)@.insert((left@, right@)).contains(p) by {
                assert(entry_in(self.left_index@, p.0, p.1) <==> (entry_in(l0, p.0, p.1) || (p.0
                    == left@ && p.1 == right@)));
            }
            assert(self@ =~= old(self)@.insert((left@, right@)));
        }
    }

    /// Removes the association between `left` and `right`, reporting
    /// whether it was present.
    ///
    /// The entry is removed only if it is recorded in both directions; an
    /// entry found on one side only would mean the indices have diverged,
    /// and the removal then refuses to act rather than repair one side.
    pub fn remove(&mut self, left: &L, right: &R) -> (removed: bool)
        requires
            old(self).wf(),
        ensures
            final(self).wf(),
            removed == old(self)@.contains((left@, right@)),
            final(self)@ == old(self)@.remove((left@, right@)),
    {
        let ghost l0 = self.left_index@;
        let ghost r0 = self.right_index@;
        let in_left = index_contains(&self.left_index, left, right);
        let in_right = index_contains(&self.right_index, right, left);
        let can_be_removed = in_left && in_right;
        if can_be_removed {
            proof {
                lemma_flat_count_is_card(l0);
                if self.count == 0 {
                    entry_set(l0).lemma_len0_is_empty();
                    assert(entry_set(l0).contains((left@, right@)));
                    assert(false);
                }
            }
            self.count = self.count - 1;
            index_remove(&mut self.left_index, left, right);
            index_remove(&mut self.right_index, right, left);
            proof {
                assert forall|kv: L::V, vv: R::V|
                    #![trigger entry_in(self.left_index@, kv, vv)]
                    #![trigger entry_in(self.right_index@, vv, kv)]
                    entry_in(self.left_index@, kv, vv) <==> entry_in(
                        self.right_index@,
                        vv,
                        kv,
                    ) by {
                    assert(entry_in(l0, kv, vv) <==> entry_in(r0, vv, kv));
                }
                assert forall|p: (L::V, R::V)|
                    self@.contains(p) <==> old(self)@.remove((left@, right@)).contains(p) by {
                    assert(entry_in(self.left_index@, p.0, p.1) <==> (entry_in(l0, p.0, p.1)
                        && !(p.0 == left@ && p.1 == right@)));
                }
                assert(self@ =~= old(self)@.remove((left@, right@)));
            }
            true
        } else {
            proof {
                assert(entry_in(l0, left@, right@) <==> entry_in(r0, right@, left@));
                assert(!old(self)@.contains((left@, right@)));
                assert(self@ =~= old(self)@.remove((left@, right@)));
            }
            false
        }
    }

    /// Builds a map from a sequence of pairs, as if each pair were inserted
    /// in sequence order into an empty map. Repeated pairs contribute one
    /// entry.
    pub fn from_iter(pairs: Vec<(L, R)>) -> (m: Self)
        ensures
            m.wf(),
            forall|p: (L::V, R::V)| m@.contains(p) <==> bucket_has(pairs@, p),
    {
        let mut m = BiMultiMap::new();
        proof {
            assert(m@ =~= views_of(pairs@.take(0)));
        }
        let mut i: usize = 0;
        while i < pairs.len()
            invariant
                m.wf(),
                i <= pairs@.len(),
                m@ == views_of(pairs@.take(i as int)),
            decreases pairs@.len() - i,
        {
            proof {
                lemma_views_card_le(pairs@.take(i as int));
            }
            m.insert(pairs[i].0.clone_value(), pairs[i].1.clone_value());
            proof {
                let prev = pairs@.take(i as int);
                let cur = pairs@.take(i as int + 1);
                assert(cur =~= prev.push(pairs@[i as int]));
                assert forall|p: (L::V, R::V)|
                    m@.contains(p) <==> views_of(cur).contains(p) by {
                    if bucket_has(cur, p) {
                        let w = choose|w: int| 0 <= w < cur.len() && cur[w]@ == p;
                        if w < prev.len() {
                            assert(prev[w]@ == p);
                        }
                    }
                    if bucket_has(prev, p) {
                        let w = choose|w: int| 0 <= w < prev.len() && prev[w]@ == p;
                        assert(cur[w]@ == p);
                    }
                    if p == pairs@[i as int]@ {
                        assert(cur[i as int]@ == p);
                    }
                }
                assert(m@ =~= views_of(cur));
            }
            i = i + 1;
        }
        proof {
            assert(pairs@.take(pairs@.len() as int) =~= pairs@);
            assert forall|p: (L::V, R::V)| m@.contains(p) <==> bucket_has(pairs@, p) by {}
        }
        m
    }

    /// Lists every association as an owned `(left, right)` pair. Each entry
    /// appears exactly once; the order is unspecified.
    pub fn iter(&self) -> (r: Vec<(L, R)>)
        requires
            self.wf(),
        ensures
            values_distinct(r@),
            forall|p: (L::V, R::V)| bucket_has(r@, p) <==> self@.contains(p),
            r@.len() == self@.len(),
    {
        let mut out: Vec<(L, R)> = Vec::new();
        let mut i: usize = 0;
        while i < self.left_index.len()
            invariant
                self.wf(),
                i <= self.left_index@.len(),
                values_distinct(out@),
                forall|p: (L::V, R::V)|
                    bucket_has(out@, p) <==> entry_in(self.left_index@.take(i as int), p.0, p.1),
            decreases self.left_index@.len() - i,
        {
            let bucket_len = self.left_index[i].1.len();
            let mut j: usize = 0;
            while j < bucket_len
                invariant
                    self.wf(),
                    i < self.left_index@.len(),
                    bucket_len == self.left_index@[i as int].1@.len(),
                    j <= bucket_len,
                    values_distinct(out@),
                    forall|p: (L::V, R::V)|
                        bucket_has(out@, p) <==> (entry_in(
                            self.left_index@.take(i as int),
                            p.0,
                            p.1,
                        ) || (p.0 == self.left_index@[i as int].0@ && bucket_has(
                            self.left_index@[i as int].1@.take(j as int),
                            p.1,
                        ))),
                decreases bucket_len - j,
            {
                let ghost s = self.left_index@;
                let ghost out0 = out@;
                let ghost kv = self.left_index@[i as int].0@;
                let ghost b = self.left_index@[i as int].1@;
                let pair = (
                    self.left_index[i].0.clone_value(),
                    self.left_index[i].1[j].clone_value(),
                );
                out.push(pair);
                proof {
                    assert(out@ =~= out0.push(pair));
                    assert(pair@ == (kv, b[j as int]@));
                    // The new pair was not listed yet: its key is not among
                    // the earlier entries, and its value not among the
                    // earlier elements of this bucket.
                    assert forall|w: int| 0 <= w < out0.len() implies out0[w]@ != pair@ by {
                        if out0[w]@ == pair@ {
                            assert(bucket_has(out0, pair@));
                            if entry_in(s.take(i as int), kv, b[j as int]@) {
                                let u = choose|u: int|
                                    0 <= u < i && s.take(i as int)[u].0@ == kv && bucket_has(
                                        s.take(i as int)[u].1@,
                                        b[j as int]@,
                                    );
                                assert(s[u].0@ == kv && s[i as int].0@ == kv);
                                assert(keys_distinct(s));
                                assert(false);
                            }
                            if bucket_has(b.take(j as int), b[j as int]@) {
                                let u = choose|u: int|
                                    0 <= u < j && b.take(j as int)[u]@ == b[j as int]@;
                                assert(values_distinct(b));
                                assert(false);
                            }
                            assert(false);
                        }
                    }
                    assert(values_distinct(out@));
                    assert forall|p: (L::V, R::V)|
                        bucket_has(out@, p) <==> (entry_in(s.take(i as int), p.0, p.1) || (p.0
                            == kv && bucket_has(b.take(j as int + 1), p.1))) by {
                        assert(b.take(j as int + 1) =~= b.take(j as int).push(b[j as int]));
                        if bucket_has(out@, p) {
                            let w = choose|w: int| 0 <= w < out@.len() && out@[w]@ == p;
                            if w < out0.len() {
                                assert(bucket_has(out0, p));
                                if p.0 == kv && bucket_has(b.take(j as int), p.1) {
                                    let u = choose|u: int|
                                        0 <= u < j && b.take(j as int)[u]@ == p.1;
                                    assert(b.take(j as int + 1)[u]@ == p.1);
                                }
                            } else {
                                assert(p == pair@);
                                assert(b.take(j as int + 1)[j as int]@ == p.1);
                            }
                        }
                        if entry_in(s.take(i as int), p.0, p.1) {
                            assert(bucket_has(out0, p));
                            let w = choose|w: int| 0 <= w < out0.len() && out0[w]@ == p;
                            assert(out@[w]@ == p);
                        }
                        if p.0 == kv && bucket_has(b.take(j as int + 1), p.1) {
                            let u = choose|u: int|
                                0 <= u < j + 1 && #[trigger] b.take(j as int + 1)[u]@ == p.1;
                            if u < j {
                                assert(bucket_has(b.take(j as int), p.1));
                                assert(bucket_has(out0, p));
                                let w = choose|w: int| 0 <= w < out0.len() && out0[w]@ == p;
                                assert(out@[w]@ == p);
                            } else {
                                assert(p == pair@);
                                assert(out@[out0.len() as int]@ == p);
                            }
                        }
                    }
                }
                j = j + 1;
            }
            proof {
                let b = self.left_index@[i as int].1@;
                assert(b.take(j as int) =~= b);
                let prev = self.left_index@.take(i as int);
                let cur = self.left_index@.take(i as int + 1);
                assert(cur =~= prev.push(self.left_index@[i as int]));
                assert forall|p: (L::V, R::V)|
                    bucket_has(out@, p) <==> entry_in(cur, p.0, p.1) by {
                    if entry_in(prev, p.0, p.1) {
                        let w = choose|w: int|
                            0 <= w < prev.len() && prev[w].0@ == p.0 && bucket_has(
                                prev[w].1@,
                                p.1,
                            );
                        assert(cur[w].0@ == p.0 && bucket_has(cur[w].1@, p.1));
                    }
                    if p.0 == self.left_index@[i as int].0@ && bucket_has(b, p.1) {
                        assert(cur[i as int].0@ == p.0 && bucket_has(cur[i as int].1@, p.1));
                    }
                    if entry_in(cur, p.0, p.1) {
                        let w = choose|w: int|
                            0 <= w < cur.len() && cur[w].0@ == p.0 && bucket_has(cur[w].1@, p.1);
                        if w < prev.len() {
                            assert(prev[w].0@ == p.0 && bucket_has(prev[w].1@, p.1));
                        }
                    }
                }
            }
            i = i + 1;
        }
        proof {
            assert(self.left_index@.take(self.left_index@.len() as int) =~= self.left_index@);
            assert forall|p: (L::V, R::V)| bucket_has(out@, p) <==> self@.contains(p) by {}
            assert(views_of(out@) =~= self@);
            lemma_views_card(out@);
            lemma_flat_count_is_card(self.left_index@);
        }
        out
    }

    /// Lists every association as a pair of references. Each entry appears
    /// exactly once; the order is unspecified.
    pub fn iter_ref(&self) -> (r: Vec<(&L, &R)>)
        requires
            self.wf(),
        ensures
            values_distinct(r@),
            forall|p: (L::V, R::V)| bucket_has(r@, p) <==> self@.contains(p),
            r@.len() == self@.len(),
    {
        let mut out: Vec<(&L, &R)> = Vec::new();
        let mut i: usize = 0;
        while i < self.left_index.len()
            invariant
                self.wf(),
                i <= self.left_index@.len(),
                values_distinct(out@),
                forall|p: (L::V, R::V)|
                    bucket_has(out@, p) <==> entry_in(self.left_index@.take(i as int), p.0, p.1),
            decreases self.left_index@.len() - i,
        {
            let bucket_len = self.left_index[i].1.len();
            let mut j: usize = 0;
            while j < bucket_len
                invariant
                    self.wf(),
                    i < self.left_index@.len(),
                    bucket_len == self.left_index@[i as int].1@.len(),
                    j <= bucket_len,
                    values_distinct(out@),
                    forall|p: (L::V, R::V)|
                        bucket_has(out@, p) <==> (entry_in(
                            self.left_index@.take(i as int),
                            p.0,
                            p.1,
                        ) || (p.0 == self.left_index@[i as int].0@ && bucket_has(
                            self.left_index@[i as int].1@.take(j as int),
                            p.1,
                        ))),
                decreases bucket_len - j,
            {
                let ghost s = self.left_index@;
                let ghost out0 = out@;
                let ghost kv = self.left_index@[i as int].0@;
                let ghost b = self.left_index@[i as int].1@;
                let pair = (&self.left_index[i].0, &self.left_index[i].1[j]);
                out.push(pair);
                proof {
                    assert(out@ =~= out0.push(pair));
                    assert(pair@ == (kv, b[j as int]@));
                    // The new pair was not listed yet: its key is not among
                    // the earlier entries, and its value not among the
                    // earlier elements of this bucket.
                    assert forall|w: int| 0 <= w < out0.len() implies out0[w]@ != pair@ by {
                        if out0[w]@ == pair@ {
                            assert(bucket_has(out0, pair@));
                            if entry_in(s.take(i as int), kv, b[j as int]@) {
                                let u = choose|u: int|
                                    0 <= u < i && s.take(i as int)[u].0@ == kv && bucket_has(
                                        s.take(i as int)[u].1@,
                                        b[j as int]@,
                                    );
                                assert(s[u].0@ == kv && s[i as int].0@ == kv);
                                assert(keys_distinct(s));
                                assert(false);
                            }
                            if bucket_has(b.take(j as int), b[j as int]@) {
                                let u = choose|u: int|
                                    0 <= u < j && b.take(j as int)[u]@ == b[j as int]@;
                                assert(values_distinct(b));
                                assert(false);
                            }
                            assert(false);
                        }
                    }
                    assert(values_distinct(out@));
                    assert forall|p: (L::V, R::V)|
                        bucket_has(out@, p) <==> (entry_in(s.take(i as int), p.0, p.1) || (p.0
                            == kv && bucket_has(b.take(j as int + 1), p.1))) by {
                        assert(b.take(j as int + 1) =~= b.take(j as int).push(b[j as int]));
                        if bucket_has(out@, p) {
                            let w = choose|w: int| 0 <= w < out@.len() && out@[w]@ == p;
                            if w < out0.len() {
                                assert(bucket_has(out0, p));
                                if p.0 == kv && bucket_has(b.take(j as int), p.1) {
                                    let u = choose|u: int|
                                        0 <= u < j && b.take(j as int)[u]@ == p.1;
                                    assert(b.take(j as int + 1)[u]@ == p.1);
                                }
                            } else {
                                assert(p == pair@);
                                assert(b.take(j as int + 1)[j as int]@ == p.1);
                            }
                        }
                        if entry_in(s.take(i as int), p.0, p.1) {
                            assert(bucket_has(out0, p));
                            let w = choose|w: int| 0 <= w < out0.len() && out0[w]@ == p;
                            assert(out@[w]@ == p);
                        }
                        if p.0 == kv && bucket_has(b.take(j as int + 1), p.1) {
                            let u = choose|u: int|
                                0 <= u < j + 1 && #[trigger] b.take(j as int + 1)[u]@ == p.1;
                            if u < j {
                                assert(bucket_has(b.take(j as int), p.1));
                                assert(bucket_has(out0, p));
                                let w = choose|w: int| 0 <= w < out0.len() && out0[w]@ == p;
                                assert(out@[w]@ == p);
                            } else {
                                assert(p == pair@);
                                assert(out@[out0.len() as int]@ == p);
                            }
                        }
                    }
                }
                j = j + 1;
            }
            proof {
                let b = self.left_index@[i as int].1@;
                assert(b.take(j as int) =~= b);
                let prev = self.left_index@.take(i as int);
                let cur = self.left_index@.take(i as int + 1);
                assert(cur =~= prev.push(self.left_index@[i as int]));
                assert forall|p: (L::V, R::V)|
                    bucket_has(out@, p) <==> entry_in(cur, p.0, p.1) by {
                    if entry_in(prev, p.0, p.1) {
                        let w = choose|w: int|
                            0 <= w < prev.len() && prev[w].0@ == p.0 && bucket_has(
                                prev[w].1@,
                                p.1,
                            );
                        assert(cur[w].0@ == p.0 && bucket_has(cur[w].1@, p.1));
                    }
                    if p.0 == self.left_index@[i as int].0@ && bucket_has(b, p.1) {
                        assert(cur[i as int].0@ == p.0 && bucket_has(cur[i as int].1@, p.1));
                    }
                    if entry_in(cur, p.0, p.1) {
                        let w = choose|w: int|
                            0 <= w < cur.len() && cur[w].0@ == p.0 && bucket_has(cur[w].1@, p.1);
                        if w < prev.len() {
                            assert(prev[w].0@ == p.0 && bucket_has(prev[w].1@, p.1));
                        }
                    }
                }
            }
            i = i + 1;
        }
        proof {
            assert(self.left_index@.take(self.left_index@.len() as int) =~= self.left_index@);
            assert forall|p: (L::V, R::V)| bucket_has(out@, p) <==> self@.contains(p) by {}
            assert(views_of(out@) =~= self@);
            lemma_views_card(out@);
            lemma_flat_count_is_card(self.left_index@);
        }
        out
    }

    /// Lists every association, consuming the map. Each entry appears
    /// exactly once; the order is unspecified.
    pub fn into_iter(self) -> (r: Vec<(L, R)>)
        requires
            self.wf(),
        ensures
            values_distinct(r@),
            forall|p: (L::V, R::V)| bucket_has(r@, p) <==> self@.contains(p),
            r@.len() == self@.len(),
    {
        self.iter()
    }
}

impl<L: EqClone, R: EqClone> Default for BiMultiMap<L, R> {
    /// An empty map.
    fn default() -> (m: Self)
        ensures
            m.wf(),
            m@ == Set::<(L::V, R::V)>::empty(),
    {
        BiMultiMap::new()
    }
}

} // verus!
