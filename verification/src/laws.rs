//! Laws of the [`BiMultiMap`](crate::BiMultiMap): properties that relate
//! several operations, stated over the abstract relation `m@` that every
//! operation's contract is written against.

use vstd::prelude::*;

use crate::BiMultiMap;
use crate::index::{entry_in, lemma_flat_count_is_card};
use crate::value::EqClone;

verus! {

/// Symmetry: the two indices always describe the same relation. A left
/// value relates to a right value in the map's view exactly when the right
/// index records the association the other way round.
pub proof fn lemma_symmetry<L: EqClone, R: EqClone>(m: BiMultiMap<L, R>, lv: L::V, rv: R::V)
    requires
        m.wf(),
    ensures
        m@.contains((lv, rv)) <==> m.right_view().contains((rv, lv)),
{
    assert(entry_in(m.left_index@, lv, rv) <==> entry_in(m.right_index@, rv, lv));
}

/// Idempotent insertion: inserting a pair twice leaves the same state as
/// inserting it once. Together with `insert`'s contract, inserting into
/// `m` twice yields `m@.insert(p).insert(p)`, which is `m@.insert(p)`.
pub proof fn lemma_insert_idempotent<L: EqClone, R: EqClone>(m: BiMultiMap<L, R>, lv: L::V, rv: R::V)
    ensures
        m@.insert((lv, rv)).insert((lv, rv)) == m@.insert((lv, rv)),
{
    assert(m@.insert((lv, rv)).insert((lv, rv)) =~= m@.insert((lv, rv)));
}

/// Removal inverts insertion exactly on fresh pairs: inserting a pair and
/// then removing it restores the original state if and only if the pair
/// was absent beforehand.
pub proof fn lemma_remove_inverts_insert<L: EqClone, R: EqClone>(
    m: BiMultiMap<L, R>,
    lv: L::V,
    rv: R::V,
)
    ensures
        (m@.insert((lv, rv)).remove((lv, rv)) == m@) <==> !m@.contains((lv, rv)),
{
    let p = (lv, rv);
    if m@.contains(p) {
        assert(!m@.insert(p).remove(p).contains(p));
    } else {
        assert(m@.insert(p).remove(p) =~= m@);
    }
}

/// The entry count never moves on a no-op: inserting a pair that is
/// already present, or removing one that is absent, keeps the number of
/// entries unchanged.
pub proof fn lemma_len_unchanged_on_noop<L: EqClone, R: EqClone>(
    m: BiMultiMap<L, R>,
    lv: L::V,
    rv: R::V,
)
    requires
        m.wf(),
    ensures
        m@.contains((lv, rv)) ==> m@.insert((lv, rv)).len() == m@.len(),
        !m@.contains((lv, rv)) ==> m@.remove((lv, rv)).len() == m@.len(),
{
    lemma_flat_count_is_card(m.left_index@);
    let p = (lv, rv);
    if m@.contains(p) {
        assert(m@.insert(p) =~= m@);
    } else {
        assert(m@.remove(p) =~= m@);
    }
}

} // verus!
