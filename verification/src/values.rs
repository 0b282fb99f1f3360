//! The contract a stored value type must meet.
//!
//! Coalescing rests on deciding whether two values are equal, so the map
//! asks its value type for an equality test whose result is pinned to
//! logical equality.

use vstd::prelude::*;

verus! {

/// A value that a [`RangeMap`] can store: duplicable, with a decidable
/// equality that agrees with logical equality.
///
/// [`RangeMap`]: crate::RangeMap
pub trait ValueEq: Sized {
    /// Decide whether two values are equal.
    fn eq_value(&self, other: &Self) -> (r: bool)
        ensures
            r <==> *self == *other,
    ;

    /// Produce a value equal to this one.
    fn dup(&self) -> (r: Self)
        ensures
            r == *self,
    ;
}

impl ValueEq for bool {
    fn eq_value(&self, other: &Self) -> (r: bool)
        ensures
            r <==> *self == *other,
    {
        *self == *other
    }

    fn dup(&self) -> (r: Self)
        ensures
            r == *self,
    {
        *self
    }
}

impl ValueEq for () {
    fn eq_value(&self, other: &Self) -> (r: bool)
        ensures
            r <==> *self == *other,
    {
        true
    }

    fn dup(&self) -> (r: Self)
        ensures
            r == *self,
    {
        *self
    }
}

impl ValueEq for u32 {
    fn eq_value(&self, other: &Self) -> (r: bool)
        ensures
            r <==> *self == *other,
    {
        *self == *other
    }

    fn dup(&self) -> (r: Self)
        ensures
            r == *self,
    {
        *self
    }
}

impl ValueEq for u64 {
    fn eq_value(&self, other: &Self) -> (r: bool)
        ensures
            r <==> *self == *other,
    {
        *self == *other
    }

    fn dup(&self) -> (r: Self)
        ensures
            r == *self,
    {
        *self
    }
}

impl ValueEq for i32 {
    fn eq_value(&self, other: &Self) -> (r: bool)
        ensures
            r <==> *self == *other,
    {
        *self == *other
    }

    fn dup(&self) -> (r: Self)
        ensures
            r == *self,
    {
        *self
    }
}

} // verus!
