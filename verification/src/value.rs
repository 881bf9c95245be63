//! The obligations a type must meet to live on either side of a
//! [`BiMultiMap`](crate::BiMultiMap): equality and duplication that respect
//! the type's abstract view.

use vstd::prelude::*;

verus! {

/// A value that can be stored on either side of the map.
///
/// Both indices may hold their own copy of the same abstract value, so the
/// map needs to duplicate values and to compare them. Both operations are
/// specified against the abstract view `@`: two values are the same exactly
/// when their views agree, and a duplicate carries the same view as the
/// original. Mutating state that `eq_value` observes after a value has been
/// stored is a caller obligation violation the map cannot detect.
pub trait EqClone: View + Sized {
    /// Decides whether two values have the same abstract view.
    fn eq_value(&self, other: &Self) -> (r: bool)
        ensures
            r <==> (self@ == other@),
    ;

    /// Produces a value with the same abstract view as `self`.
    fn clone_value(&self) -> (r: Self)
        ensures
            r@ == self@,
    ;
}

impl EqClone for bool {
    fn eq_value(&self, other: &Self) -> (r: bool) {
        *self == *other
    }

    fn clone_value(&self) -> (r: Self) {
        *self
    }
}

impl EqClone for u8 {
    fn eq_value(&self, other: &Self) -> (r: bool) {
        *self == *other
    }

    fn clone_value(&self) -> (r: Self) {
        *self
    }
}

impl EqClone for u16 {
    fn eq_value(&self, other: &Self) -> (r: bool) {
        *self == *other
    }

    fn clone_value(&self) -> (r: Self) {
        *self
    }
}

impl EqClone for u32 {
    fn eq_value(&self, other: &Self) -> (r: bool) {
        *self == *other
    }

    fn clone_value(&self) -> (r: Self) {
        *self
    }
}

impl EqClone for u64 {
    fn eq_value(&self, other: &Self) -> (r: bool) {
        *self == *other
    }

    fn clone_value(&self) -> (r: Self) {
        *self
    }
}

impl EqClone for usize {
    fn eq_value(&self, other: &Self) -> (r: bool) {
        *self == *other
    }

    fn clone_value(&self) -> (r: Self) {
        *self
    }
}

impl EqClone for i8 {
    fn eq_value(&self, other: &Self) -> (r: bool) {
        *self == *other
    }

    fn clone_value(&self) -> (r: Self) {
        *self
    }
}

impl EqClone for i16 {
    fn eq_value(&self, other: &Self) -> (r: bool) {
        *self == *other
    }

    fn clone_value(&self) -> (r: Self) {
        *self
    }
}

impl EqClone for i32 {
    fn eq_value(&self, other: &Self) -> (r: bool) {
        *self == *other
    }

    fn clone_value(&self) -> (r: Self) {
        *self
    }
}

impl EqClone for i64 {
    fn eq_value(&self, other: &Self) -> (r: bool) {
        *self == *other
    }

    fn clone_value(&self) -> (r: Self) {
        *self
    }
}

impl EqClone for isize {
    fn eq_value(&self, other: &Self) -> (r: bool) {
        *self == *other
    }

    fn clone_value(&self) -> (r: Self) {
        *self
    }
}

impl EqClone for char {
    fn eq_value(&self, other: &Self) -> (r: bool) {
        *self == *other
    }

    fn clone_value(&self) -> (r: Self) {
        *self
    }
}

impl EqClone for String {
    fn eq_value(&self, other: &Self) -> (r: bool) {
        *self == *other
    }

    fn clone_value(&self) -> (r: Self) {
        self.clone()
    }
}

} // verus!
