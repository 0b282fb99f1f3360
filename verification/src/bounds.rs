//! Endpoint descriptors and their ordering arithmetic.
//!
//! A bound used as the start of a range and a bound used as the end of a
//! range order differently at equal values, and `Unbounded` sits at opposite
//! extremes. Both orders are modelled with a single integer scale: key `k`
//! lives at position `2*k`, and the place "just past `k`" (between `k` and
//! `k + 1`) at position `2*k + 1`. A start bound maps to the first position
//! it admits, an end bound to the last, and every comparison, overlap and
//! adjacency question becomes plain integer arithmetic.

use vstd::prelude::*;

verus! {

/// An endpoint of a range: unbounded, inclusive at a value, or exclusive at
/// a value.
#[derive(Clone, Copy, Debug, PartialEq, Eq)]
pub enum Bound {
    Unbounded,
    Included(u32),
    Excluded(u32),
}

/// First position admitted when the bound opens a range.
///
/// `Unbounded` starts before every key; an exclusive start at `x` begins
/// just past `x`.
pub open spec fn start_pos(b: Bound) -> int {
    match b {
        Bound::Unbounded => -1,
        Bound::Included(x) => 2 * (x as int),
        Bound::Excluded(x) => 2 * (x as int) + 1,
    }
}

/// Last position admitted when the bound closes a range.
///
/// `Unbounded` ends past every key; an exclusive end at `x` stops just
/// before `x`.
pub open spec fn end_pos(b: Bound) -> int {
    match b {
        Bound::Unbounded => 2 * (u32::MAX as int) + 1,
        Bound::Included(x) => 2 * (x as int),
        Bound::Excluded(x) => 2 * (x as int) - 1,
    }
}

/// Position of the key `k` itself.
pub open spec fn key_pos(k: u32) -> int {
    2 * (k as int)
}

/// The end bound of the region stopping immediately before start bound
/// `b`, if any: what [`Bound::before`] returns.
pub open spec fn spec_before(b: Bound) -> Option<Bound> {
    match b {
        Bound::Unbounded => None,
        Bound::Included(x) => Some(Bound::Excluded(x)),
        Bound::Excluded(x) => Some(Bound::Included(x)),
    }
}

/// The start bound of the region beginning immediately after end bound
/// `b`, if any: what [`Bound::after`] returns.
pub open spec fn spec_after(b: Bound) -> Option<Bound> {
    match b {
        Bound::Unbounded => None,
        Bound::Included(x) => Some(Bound::Excluded(x)),
        Bound::Excluded(x) => Some(Bound::Included(x)),
    }
}

impl Bound {
    /// The wrapped value, if the bound is bounded.
    pub fn value(&self) -> (r: Option<u32>)
        ensures
            r matches Some(x) ==> *self == Bound::Included(x) || *self == Bound::Excluded(x),
            r is None <==> *self is Unbounded,
    {
        match *self {
            Bound::Unbounded => None,
            Bound::Included(x) => Some(x),
            Bound::Excluded(x) => Some(x),
        }
    }

    /// The end bound of the region that stops immediately before this start
    /// bound, or `None` when nothing precedes an unbounded start.
    pub fn before(&self) -> (r: Option<Bound>)
        ensures
            r == spec_before(*self),
            r is None <==> *self is Unbounded,
            r matches Some(e) ==> end_pos(e) == start_pos(*self) - 1,
    {
        match *self {
            Bound::Unbounded => None,
            Bound::Included(x) => Some(Bound::Excluded(x)),
            Bound::Excluded(x) => Some(Bound::Included(x)),
        }
    }

    /// The start bound of the region that begins immediately after this end
    /// bound, or `None` when nothing follows an unbounded end.
    pub fn after(&self) -> (r: Option<Bound>)
        ensures
            r == spec_after(*self),
            r is None <==> *self is Unbounded,
            r matches Some(s) ==> start_pos(s) == end_pos(*self) + 1,
    {
        match *self {
            Bound::Unbounded => None,
            Bound::Included(x) => Some(Bound::Excluded(x)),
            Bound::Excluded(x) => Some(Bound::Included(x)),
        }
    }
}

/// Distinct bounds admit distinct start positions.
pub proof fn lemma_start_pos_injective(a: Bound, b: Bound)
    requires
        start_pos(a) == start_pos(b),
    ensures
        a == b,
{
}

/// Distinct bounds admit distinct end positions.
pub proof fn lemma_end_pos_injective(a: Bound, b: Bound)
    requires
        end_pos(a) == end_pos(b),
    ensures
        a == b,
{
}

/// Decides `start_pos(*a) <= start_pos(*b)`.
pub fn start_le_start(a: &Bound, b: &Bound) -> (r: bool)
    ensures
        r <==> start_pos(*a) <= start_pos(*b),
{
    match (*a, *b) {
        (Bound::Unbounded, _) => true,
        (_, Bound::Unbounded) => false,
        (Bound::Included(x), Bound::Included(y)) => x <= y,
        (Bound::Included(x), Bound::Excluded(y)) => x <= y,
        (Bound::Excluded(x), Bound::Included(y)) => x < y,
        (Bound::Excluded(x), Bound::Excluded(y)) => x <= y,
    }
}

/// Decides `end_pos(*a) <= end_pos(*b)`.
pub fn end_le_end(a: &Bound, b: &Bound) -> (r: bool)
    ensures
        r <==> end_pos(*a) <= end_pos(*b),
{
    match (*a, *b) {
        (_, Bound::Unbounded) => true,
        (Bound::Unbounded, _) => false,
        (Bound::Included(x), Bound::Included(y)) => x <= y,
        (Bound::Included(x), Bound::Excluded(y)) => x < y,
        (Bound::Excluded(x), Bound::Included(y)) => x <= y,
        (Bound::Excluded(x), Bound::Excluded(y)) => x <= y,
    }
}

/// Decides `start_pos(*s) <= end_pos(*e)`: whether the region from `s`
/// reaches the region up to `e`, the kernel of every overlap test.
pub fn start_le_end(s: &Bound, e: &Bound) -> (r: bool)
    ensures
        r <==> start_pos(*s) <= end_pos(*e),
{
    match (*s, *e) {
        (Bound::Unbounded, _) => true,
        (_, Bound::Unbounded) => true,
        (Bound::Included(x), Bound::Included(y)) => x <= y,
        (Bound::Included(x), Bound::Excluded(y)) => x < y,
        (Bound::Excluded(x), Bound::Included(y)) => x < y,
        (Bound::Excluded(x), Bound::Excluded(y)) => x < y,
    }
}

/// Decides `start_pos(*s) <= end_pos(*e) + 1`: like [`start_le_end`] but
/// also true at exact adjacency, the kernel of every touch test.
pub fn start_le_end_next(s: &Bound, e: &Bound) -> (r: bool)
    ensures
        r <==> start_pos(*s) <= end_pos(*e) + 1,
{
    match (*s, *e) {
        (Bound::Unbounded, _) => true,
        (_, Bound::Unbounded) => true,
        (Bound::Included(x), Bound::Included(y)) => x <= y,
        (Bound::Included(x), Bound::Excluded(y)) => x <= y,
        (Bound::Excluded(x), Bound::Included(y)) => x <= y,
        (Bound::Excluded(x), Bound::Excluded(y)) => x < y,
    }
}

/// Decides `end_pos(*e) + 1 == start_pos(*s)`: exact adjacency, with no
/// gap and no overlap between the region up to `e` and the region from `s`.
pub fn end_adjacent_start(e: &Bound, s: &Bound) -> (r: bool)
    ensures
        r <==> end_pos(*e) + 1 == start_pos(*s),
{
    match (*e, *s) {
        (Bound::Unbounded, _) => false,
        (_, Bound::Unbounded) => false,
        (Bound::Included(x), Bound::Included(y)) => false,
        (Bound::Included(x), Bound::Excluded(y)) => x == y,
        (Bound::Excluded(x), Bound::Included(y)) => x == y,
        (Bound::Excluded(x), Bound::Excluded(y)) => false,
    }
}

} // verus!
