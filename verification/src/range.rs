//! A normalized interval over `u32` keys: a start bound paired with an end
//! bound, kept non-empty by construction.

use crate::bounds::{
    end_pos, key_pos, start_le_end, start_le_end_next, start_pos, Bound,
};
use vstd::prelude::*;

verus! {

/// A monotonically increasing segment, the key type of [`RangeMap`].
///
/// Well-formed ranges come out of [`Range::new`], [`Range::full`],
/// [`Range::point`] and the `From` conversion; every operation on the map
/// expects them.
///
/// [`RangeMap`]: crate::RangeMap
#[derive(Clone, Copy, Debug, PartialEq, Eq)]
pub struct Range {
    /// Where the segment begins.
    pub start: Bound,
    /// Where the segment ends.
    pub end: Bound,
}

/// Rejection of the one bound pair with no valid representation: both sides
/// excluded at one value, an interval with nothing in it.
#[derive(Clone, Copy, Debug, PartialEq, Eq)]
pub struct EmptyRangeError;

/// What [`Range::new`] makes of a raw bound pair: backwards pairs are
/// swapped, a degenerate pair at one value with an inclusive side collapses
/// to the point, and a both-excluded degenerate pair has no representation.
pub open spec fn normalized(start: Bound, end: Bound) -> Option<Range> {
    match (start, end) {
        (Bound::Unbounded, _) | (_, Bound::Unbounded) => Some(Range { start, end }),
        (Bound::Included(s), Bound::Included(e))
        | (Bound::Included(s), Bound::Excluded(e))
        | (Bound::Excluded(s), Bound::Included(e))
        | (Bound::Excluded(s), Bound::Excluded(e)) => {
            if s == e {
                if start is Excluded && end is Excluded {
                    None
                } else {
                    Some(Range { start: Bound::Included(s), end: Bound::Included(e) })
                }
            } else if s < e {
                Some(Range { start, end })
            } else {
                Some(Range { start: end, end: start })
            }
        },
    }
}

/// The half-open range `a..b`, normalized.
pub open spec fn from_half_open(a: u32, b: u32) -> Range {
    if a < b {
        Range { start: Bound::Included(a), end: Bound::Excluded(b) }
    } else if a == b {
        Range { start: Bound::Included(a), end: Bound::Included(b) }
    } else {
        Range { start: Bound::Excluded(b), end: Bound::Included(a) }
    }
}

/// Whether shifting the bounded value of `b` up by `by` stays within `u32`.
pub open spec fn can_shift_up(b: Bound, by: u32) -> bool {
    match b {
        Bound::Unbounded => true,
        Bound::Included(x) => x + by <= u32::MAX,
        Bound::Excluded(x) => x + by <= u32::MAX,
    }
}

/// Whether shifting the bounded value of `b` down by `by` stays within `u32`.
pub open spec fn can_shift_down(b: Bound, by: u32) -> bool {
    match b {
        Bound::Unbounded => true,
        Bound::Included(x) => by <= x,
        Bound::Excluded(x) => by <= x,
    }
}

/// `b` with its bounded value moved up by `by`; `Unbounded` is untouched.
pub open spec fn shifted_up(b: Bound, by: u32) -> Bound {
    match b {
        Bound::Unbounded => Bound::Unbounded,
        Bound::Included(x) => Bound::Included((x + by) as u32),
        Bound::Excluded(x) => Bound::Excluded((x + by) as u32),
    }
}

/// `b` with its bounded value moved down by `by`; `Unbounded` is untouched.
pub open spec fn shifted_down(b: Bound, by: u32) -> Bound {
    match b {
        Bound::Unbounded => Bound::Unbounded,
        Bound::Included(x) => Bound::Included((x - by) as u32),
        Bound::Excluded(x) => Bound::Excluded((x - by) as u32),
    }
}

impl Range {
    /// A range is well formed when its first admitted position does not lie
    /// past its last: it denotes a non-empty region of the position scale.
    pub open spec fn wf(self) -> bool {
        start_pos(self.start) <= end_pos(self.end)
    }

    /// Whether position `q` of the scale of [`start_pos`] lies inside the
    /// range.
    pub open spec fn contains_pos(self, q: int) -> bool {
        start_pos(self.start) <= q <= end_pos(self.end)
    }

    /// Construct a range from a pair of bounds.
    ///
    /// A backwards (decreasing) pair is reversed. A degenerate pair at one
    /// value with at least one inclusive side collapses to the inclusive
    /// point. The one pair that denotes an empty interval — both sides
    /// excluded at one value — is rejected.
    pub fn new(start: Bound, end: Bound) -> (r: Result<Range, EmptyRangeError>)
        ensures
            r matches Ok(rg) ==> normalized(start, end) == Some(rg) && rg.wf(),
            r is Err <==> normalized(start, end) is None,
    {
        match (start, end) {
            (Bound::Unbounded, _) | (_, Bound::Unbounded) => Ok(Range { start, end }),
            (Bound::Included(s), Bound::Included(e))
            | (Bound::Included(s), Bound::Excluded(e))
            | (Bound::Excluded(s), Bound::Included(e))
            | (Bound::Excluded(s), Bound::Excluded(e)) => {
                if s == e {
                    if matches!(start, Bound::Excluded(_)) && matches!(end, Bound::Excluded(_)) {
                        Err(EmptyRangeError)
                    } else {
                        Ok(Range { start: Bound::Included(s), end: Bound::Included(e) })
                    }
                } else if s < e {
                    Ok(Range { start, end })
                } else {
                    Ok(Range { start: end, end: start })
                }
            },
        }
    }

    /// The range that spans all possible values.
    pub fn full() -> (r: Range)
        ensures
            r == (Range { start: Bound::Unbounded, end: Bound::Unbounded }),
            r.wf(),
            forall|q: int| -1 <= q <= end_pos(Bound::Unbounded) ==> r.contains_pos(q),
    {
        Range { start: Bound::Unbounded, end: Bound::Unbounded }
    }

    /// The degenerate range holding exactly the value `v`.
    pub fn point(v: u32) -> (r: Range)
        ensures
            r == (Range { start: Bound::Included(v), end: Bound::Included(v) }),
            r.wf(),
            forall|q: int| r.contains_pos(q) <==> q == key_pos(v),
    {
        Range { start: Bound::Included(v), end: Bound::Included(v) }
    }

    /// The bound at which the range begins.
    pub fn start_bound(&self) -> (r: Bound)
        ensures
            r == self.start,
    {
        self.start
    }

    /// The bound at which the range ends.
    pub fn end_bound(&self) -> (r: Bound)
        ensures
            r == self.end,
    {
        self.end
    }

    /// The start value of the range, if it is bounded.
    pub fn start_value(&self) -> (r: Option<u32>)
        ensures
            r matches Some(x) ==> self.start == Bound::Included(x) || self.start
                == Bound::Excluded(x),
            r is None <==> self.start is Unbounded,
    {
        self.start.value()
    }

    /// The end value of the range, if it is bounded.
    pub fn end_value(&self) -> (r: Option<u32>)
        ensures
            r matches Some(x) ==> self.end == Bound::Included(x) || self.end == Bound::Excluded(
                x,
            ),
            r is None <==> self.end is Unbounded,
    {
        self.end.value()
    }

    /// The end bound of the region that stops immediately before this
    /// range, if the range does not begin unbounded.
    pub fn bound_before(&self) -> (r: Option<Bound>)
        ensures
            r is None <==> self.start is Unbounded,
            r matches Some(e) ==> end_pos(e) == start_pos(self.start) - 1,
    {
        self.start.before()
    }

    /// The start bound of the region that begins immediately after this
    /// range, if the range does not end unbounded.
    pub fn bound_after(&self) -> (r: Option<Bound>)
        ensures
            r is None <==> self.end is Unbounded,
            r matches Some(s) ==> start_pos(s) == end_pos(self.end) + 1,
    {
        self.end.after()
    }

    /// Whether the range overlaps another: some position lies in both.
    pub fn overlaps(&self, other: &Range) -> (r: bool)
        ensures
            r <==> overlap(*self, *other),
    {
        start_le_end(&self.start, &other.end) && start_le_end(&other.start, &self.end)
    }

    /// Whether the range touches another: they overlap, or they meet with
    /// no gap between them. A single excluded point between two ranges is a
    /// gap, so such ranges do not touch.
    pub fn touches(&self, other: &Range) -> (r: bool)
        ensures
            r <==> touch(*self, *other),
    {
        start_le_end_next(&self.start, &other.end) && start_le_end_next(&other.start, &self.end)
    }

    /// Whether the range contains the key `k`.
    pub fn contains_key(&self, k: &u32) -> (r: bool)
        ensures
            r <==> self.contains_pos(key_pos(*k)),
    {
        let kb = Bound::Included(*k);
        start_le_end(&self.start, &kb) && start_le_end(&kb, &self.end)
    }

    /// Shift the entire range up by some value; unbounded sides are
    /// untouched.
    pub fn shift(&mut self, by: u32)
        requires
            can_shift_up(old(self).start, by),
            can_shift_up(old(self).end, by),
        ensures
            final(self).start == shifted_up(old(self).start, by),
            final(self).end == shifted_up(old(self).end, by),
            old(self).wf() ==> final(self).wf(),
    {
        self.shift_right(by);
    }

    /// Shift the entire range down by some value; unbounded sides are
    /// untouched.
    pub fn shift_left(&mut self, by: u32)
        requires
            can_shift_down(old(self).start, by),
            can_shift_down(old(self).end, by),
        ensures
            final(self).start == shifted_down(old(self).start, by),
            final(self).end == shifted_down(old(self).end, by),
            old(self).wf() ==> final(self).wf(),
    {
        match self.start {
            Bound::Unbounded => {},
            Bound::Included(x) => {
                self.start = Bound::Included(x - by);
            },
            Bound::Excluded(x) => {
                self.start = Bound::Excluded(x - by);
            },
        }
        match self.end {
            Bound::Unbounded => {},
            Bound::Included(x) => {
                self.end = Bound::Included(x - by);
            },
            Bound::Excluded(x) => {
                self.end = Bound::Excluded(x - by);
            },
        }
    }

    /// Shift the entire range up by some value; unbounded sides are
    /// untouched.
    pub fn shift_right(&mut self, by: u32)
        requires
            can_shift_up(old(self).start, by),
            can_shift_up(old(self).end, by),
        ensures
            final(self).start == shifted_up(old(self).start, by),
            final(self).end == shifted_up(old(self).end, by),
            old(self).wf() ==> final(self).wf(),
    {
        match self.start {
            Bound::Unbounded => {},
            Bound::Included(x) => {
                self.start = Bound::Included(x + by);
            },
            Bound::Excluded(x) => {
                self.start = Bound::Excluded(x + by);
            },
        }
        match self.end {
            Bound::Unbounded => {},
            Bound::Included(x) => {
                self.end = Bound::Included(x + by);
            },
            Bound::Excluded(x) => {
                self.end = Bound::Excluded(x + by);
            },
        }
    }
}

/// Whether some position lies in both `a` and `b`.
pub open spec fn overlap(a: Range, b: Range) -> bool {
    start_pos(a.start) <= end_pos(b.end) && start_pos(b.start) <= end_pos(a.end)
}

/// Whether `a` and `b` overlap or meet with no gap between them.
pub open spec fn touch(a: Range, b: Range) -> bool {
    start_pos(a.start) <= end_pos(b.end) + 1 && start_pos(b.start) <= end_pos(a.end) + 1
}

impl From<core::ops::Range<u32>> for Range {
    /// Construct the range `r.start..r.end`, normalized: empty and
    /// backwards inputs collapse as [`Range::new`] collapses them.
    fn from(r: core::ops::Range<u32>) -> (res: Range)
        ensures
            res == from_half_open(r.start, r.end),
            res.wf(),
    {
        if r.start < r.end {
            Range { start: Bound::Included(r.start), end: Bound::Excluded(r.end) }
        } else if r.start == r.end {
            Range { start: Bound::Included(r.start), end: Bound::Included(r.end) }
        } else {
            Range { start: Bound::Excluded(r.end), end: Bound::Included(r.start) }
        }
    }
}

impl vstd::std_specs::convert::FromSpecImpl<core::ops::Range<u32>> for Range {
    open spec fn obeys_from_spec() -> bool {
        true
    }

    open spec fn from_spec(r: core::ops::Range<u32>) -> Range {
        from_half_open(r.start, r.end)
    }
}

} // verus!
