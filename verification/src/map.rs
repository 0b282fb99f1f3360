//! The map itself: ordered storage of disjoint ranges and point queries.

use crate::bounds::{key_pos, start_le_end, start_le_start, start_pos, Bound};
use crate::coverage::{
    bulk_covered, covered_val, entries_wf, lemma_covered_at, lemma_covered_none_at_gap,
    lemma_covered_none_before, lemma_entries_sorted,
};
use crate::engine::{insert_entries, remove_entries};
use crate::range::Range;
use crate::values::ValueEq;
use vstd::prelude::*;

verus! {

/// A map of non-overlapping [`Range`]s to values.
///
/// Stored ranges are kept maximal: no two stored ranges that touch carry
/// equal values — such pairs are merged by [`insert`]. Entries are held
/// sorted by start bound, which the non-overlap invariant makes a total
/// order on the whole partition.
///
/// [`insert`]: RangeMap::insert
#[derive(Clone)]
pub struct RangeMap<V> {
    entries: Vec<(Range, V)>,
}

impl<V> View for RangeMap<V> {
    type V = Seq<(Range, V)>;

    closed spec fn view(&self) -> Seq<(Range, V)> {
        self.entries@
    }
}

impl<V> RangeMap<V> {
    /// The partition invariant, established by [`RangeMap::new`] and kept
    /// by every mutation.
    pub open spec fn wf(&self) -> bool {
        entries_wf(self@)
    }
}

impl<V: ValueEq> RangeMap<V> {
    /// Construct an empty map.
    pub fn new() -> (r: RangeMap<V>)
        ensures
            r@ == Seq::<(Range, V)>::empty(),
            r.wf(),
            forall|q: int| covered_val(r@, q) is None,
    {
        RangeMap { entries: Vec::new() }
    }

    /// The number of stored ranges.
    pub fn len(&self) -> (r: usize)
        ensures
            r == self@.len(),
    {
        self.entries.len()
    }

    /// Whether the map stores no range at all.
    pub fn is_empty(&self) -> (r: bool)
        ensures
            r <==> self@.len() == 0,
    {
        self.entries.len() == 0
    }

    /// The stored entries, in ascending order.
    pub fn to_vec(&self) -> (r: Vec<(Range, V)>)
        ensures
            r@ == self@,
    {
        let n = self.entries.len();
        let mut out: Vec<(Range, V)> = Vec::new();
        let mut i: usize = 0;
        while i < n
            invariant
                i <= n,
                n == self.entries@.len(),
                out@ =~= self.entries@.subrange(0, i as int),
            decreases n - i,
        {
            let e = &self.entries[i];
            out.push((e.0, e.1.dup()));
            i += 1;
        }
        proof {
            assert(out@ =~= self@);
        }
        out
    }

    /// Find the index of the last stored entry whose start lies at or
    /// before the key, if any.
    #[verifier::rlimit(100)]
    fn locate(&self, k: &u32) -> (r: Option<usize>)
        requires
            self.wf(),
        ensures
            r matches Some(i) ==> i < self@.len() && start_pos(self@[i as int].0.start) <= key_pos(
                *k,
            ) && (forall|m: int|
                i < m < self@.len() ==> start_pos((#[trigger] self@[m]).0.start) > key_pos(*k)),
            r is None ==> forall|m: int|
                0 <= m < self@.len() ==> start_pos((#[trigger] self@[m]).0.start) > key_pos(*k),
    {
        let n = self.entries.len();
        if n == 0 {
            return None;
        }
        let kb = Bound::Included(*k);
        if !start_le_start(&self.entries[0].0.start, &kb) {
            proof {
                assert forall|m: int|
                    0 <= m < self@.len() implies start_pos((#[trigger] self@[m]).0.start)
                    > key_pos(*k) by {
                    if m > 0 {
                        lemma_entries_sorted(self@, 0, m);
                        assert(self@[0].0.wf());
                    }
                }
            }
            return None;
        }
        let mut lo: usize = 0;
        let mut hi: usize = n;
        while hi - lo > 1
            invariant
                0 <= lo < hi <= n,
                n == self@.len(),
                self.wf(),
                kb == Bound::Included(*k),
                start_pos(self@[lo as int].0.start) <= key_pos(*k),
                forall|m: int|
                    hi <= m < self@.len() ==> start_pos((#[trigger] self@[m]).0.start) > key_pos(
                        *k,
                    ),
            decreases hi - lo,
        {
            let mid = lo + (hi - lo) / 2;
            if start_le_start(&self.entries[mid].0.start, &kb) {
                lo = mid;
            } else {
                hi = mid;
                proof {
                    assert forall|m: int|
                        hi <= m < self@.len() implies start_pos((#[trigger] self@[m]).0.start)
                        > key_pos(*k) by {
                        if m > hi {
                            lemma_entries_sorted(self@, hi as int, m);
                            assert(self@[hi as int].0.wf());
                        }
                    }
                }
            }
        }
        proof {
            assert forall|m: int|
                lo < m < self@.len() implies start_pos((#[trigger] self@[m]).0.start) > key_pos(
                *k,
            ) by {
                if m > lo + 1 {
                    lemma_entries_sorted(self@, lo + 1, m);
                    assert(self@[lo + 1].0.wf());
                }
            }
        }
        Some(lo)
    }

    /// Look up the value stored at key `k`, if any range contains it.
    pub fn get(&self, k: &u32) -> (r: Option<&V>)
        requires
            self.wf(),
        ensures
            match r {
                Some(v) => covered_val(self@, key_pos(*k)) == Some(*v),
                None => covered_val(self@, key_pos(*k)) is None,
            },
    {
        match self.get_range_value(k) {
            Some((_, v)) => Some(v),
            None => None,
        }
    }

    /// Look up the stored range containing key `k` together with its
    /// value, if any.
    pub fn get_range_value(&self, k: &u32) -> (r: Option<(&Range, &V)>)
        requires
            self.wf(),
        ensures
            match r {
                Some((rg, v)) => {
                    &&& covered_val(self@, key_pos(*k)) == Some(*v)
                    &&& rg.contains_pos(key_pos(*k))
                    &&& exists|i: int| 0 <= i < self@.len() && self@[i] == (*rg, *v)
                },
                None => covered_val(self@, key_pos(*k)) is None,
            },
    {
        let ghost q = key_pos(*k);
        match self.locate(k) {
            None => {
                proof {
                    lemma_covered_none_before(self@, q);
                }
                None
            },
            Some(i) => {
                let e = &self.entries[i];
                let kb = Bound::Included(*k);
                if start_le_end(&kb, &e.0.end) {
                    proof {
                        lemma_covered_at(self@, q, i as int);
                        assert(self@[i as int] == (e.0, e.1));
                    }
                    Some((&e.0, &e.1))
                } else {
                    proof {
                        lemma_covered_none_at_gap(self@, q, i as int);
                    }
                    None
                }
            },
        }
    }

    /// Insert `(r, value)`: overwrite everything stored inside `r`, and
    /// merge with every stored entry that `r` overlaps, or touches while
    /// carrying an equal value, so that the partition stays maximal.
    pub fn insert(&mut self, r: Range, value: V)
        requires
            old(self).wf(),
            r.wf(),
        ensures
            final(self).wf(),
            forall|q: int|
                r.contains_pos(q) ==> #[trigger] covered_val(final(self)@, q) == Some(value),
            forall|q: int|
                !r.contains_pos(q) ==> #[trigger] covered_val(final(self)@, q) == covered_val(
                    old(self)@,
                    q,
                ),
    {
        let out = insert_entries(&self.entries, r, value);
        self.entries = out;
    }

    /// Remove `r`: everything stored inside it is dropped, and an entry
    /// reaching past either side of it is truncated to the part outside.
    pub fn remove(&mut self, r: Range)
        requires
            old(self).wf(),
            r.wf(),
        ensures
            final(self).wf(),
            forall|q: int|
                r.contains_pos(q) ==> #[trigger] covered_val(final(self)@, q) is None,
            forall|q: int|
                !r.contains_pos(q) ==> #[trigger] covered_val(final(self)@, q) == covered_val(
                    old(self)@,
                    q,
                ),
    {
        let out = remove_entries(&self.entries, r);
        self.entries = out;
    }

    /// Extend the map by a sequence of pairs, each applied via
    /// [`RangeMap::insert`] in order: later pairs overwrite or coalesce
    /// with earlier ones.
    pub fn extend(&mut self, pairs: Vec<(Range, V)>)
        requires
            old(self).wf(),
            forall|m: int| 0 <= m < pairs@.len() ==> (#[trigger] pairs@[m]).0.wf(),
        ensures
            final(self).wf(),
            forall|q: int|
                #[trigger] covered_val(final(self)@, q) == (if bulk_covered(pairs@, q) is Some {
                    bulk_covered(pairs@, q)
                } else {
                    covered_val(old(self)@, q)
                }),
    {
        let ghost base = self@;
        let n = pairs.len();
        let mut i: usize = 0;
        proof {
            assert(pairs@.subrange(0, 0) =~= Seq::<(Range, V)>::empty());
        }
        while i < n
            invariant
                i <= n,
                n == pairs@.len(),
                self.wf(),
                forall|m: int| 0 <= m < pairs@.len() ==> (#[trigger] pairs@[m]).0.wf(),
                forall|q: int|
                    #[trigger] covered_val(self@, q) == (if bulk_covered(
                        pairs@.subrange(0, i as int),
                        q,
                    ) is Some {
                        bulk_covered(pairs@.subrange(0, i as int), q)
                    } else {
                        covered_val(base, q)
                    }),
            decreases n - i,
        {
            let p = &pairs[i];
            let ghost before = self@;
            self.insert(p.0, p.1.dup());
            proof {
                let sub1 = pairs@.subrange(0, i as int + 1);
                assert(sub1.drop_last() =~= pairs@.subrange(0, i as int));
                assert(sub1.last() == pairs@[i as int]);
                assert forall|q: int|
                    #[trigger] covered_val(self@, q) == (if bulk_covered(sub1, q) is Some {
                        bulk_covered(sub1, q)
                    } else {
                        covered_val(base, q)
                    }) by {
                    if pairs@[i as int].0.contains_pos(q) {
                        assert(covered_val(self@, q) == Some(pairs@[i as int].1));
                    } else {
                        assert(covered_val(self@, q) == covered_val(before, q));
                    }
                }
            }
            i += 1;
        }
        proof {
            assert(pairs@.subrange(0, n as int) =~= pairs@);
        }
    }

    /// Build a map from a sequence of pairs, each applied via
    /// [`RangeMap::insert`] in order: later pairs overwrite or coalesce
    /// with earlier ones.
    pub fn from_entries(pairs: Vec<(Range, V)>) -> (r: RangeMap<V>)
        requires
            forall|m: int| 0 <= m < pairs@.len() ==> (#[trigger] pairs@[m]).0.wf(),
        ensures
            r.wf(),
            forall|q: int| #[trigger] covered_val(r@, q) == bulk_covered(pairs@, q),
    {
        let mut m: RangeMap<V> = RangeMap::new();
        m.extend(pairs);
        m
    }
}

} // verus!
