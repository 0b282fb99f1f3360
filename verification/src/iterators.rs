//! Iteration over the stored partition and over its gaps.
//!
//! Each iterator takes a snapshot of the entries it walks, yields owned
//! values, and is fused: once exhausted it keeps reporting nothing.

use crate::bounds::{
    end_pos, spec_after, spec_before, start_le_end, start_le_start, start_pos, Bound,
};
use crate::coverage::{covered_val, entries_wf, lemma_covered_exists, lemma_entries_sorted};
use crate::map::RangeMap;
use crate::range::Range;
use crate::values::ValueEq;
use vstd::prelude::*;

verus! {

/// The gap strictly between two consecutive stored ranges, if it is
/// non-empty: from just after `a` to just before `b`.
pub open spec fn gap_between(a: Range, b: Range) -> Option<Range> {
    match (spec_after(a.end), spec_before(b.start)) {
        (Some(gs), Some(ge)) => if start_pos(gs) <= end_pos(ge) {
            Some(Range { start: gs, end: ge })
        } else {
            None
        },
        _ => None,
    }
}

/// The non-empty gaps between consecutive entries of `s`, from index `i`
/// on, in ascending order.
pub open spec fn gaps_from<V>(s: Seq<(Range, V)>, i: int) -> Seq<Range>
    decreases s.len() - i,
{
    if i < 0 || i + 1 >= s.len() {
        Seq::<Range>::empty()
    } else {
        match gap_between(s[i].0, s[i + 1].0) {
            Some(g) => seq![g] + gaps_from(s, i + 1),
            None => gaps_from(s, i + 1),
        }
    }
}

/// The maximal uncovered intervals within an outer region, walking the
/// entries of `s` from index `i` on with the next candidate gap starting
/// at `cur`.
///
/// Unlike [`gaps_from`], the region before the first entry and after the
/// last one count, clipped to the outer region; an outer region that
/// touches no entry at all yields itself as its one gap.
pub open spec fn gaps_in_from<V>(s: Seq<(Range, V)>, i: int, cur: Bound, outer_end: Bound) -> Seq<
    Range,
>
    decreases s.len() - i,
{
    if start_pos(cur) > end_pos(outer_end) {
        Seq::<Range>::empty()
    } else if i < 0 || i >= s.len() {
        seq![Range { start: cur, end: outer_end }]
    } else if end_pos(s[i].0.end) < start_pos(cur) {
        gaps_in_from(s, i + 1, cur, outer_end)
    } else if start_pos(s[i].0.start) > end_pos(outer_end) {
        seq![Range { start: cur, end: outer_end }]
    } else {
        let rest = match spec_after(s[i].0.end) {
            Some(c2) => gaps_in_from(s, i + 1, c2, outer_end),
            None => Seq::<Range>::empty(),
        };
        if start_pos(cur) < start_pos(s[i].0.start) {
            match spec_before(s[i].0.start) {
                Some(ge) => seq![Range { start: cur, end: ge }] + rest,
                None => rest,
            }
        } else {
            rest
        }
    }
}

/// An iterator over the entries of a [`RangeMap`], ascending, double
/// ended, exhaustible and fused.
pub struct Iter<V> {
    items: Vec<(Range, V)>,
    front: usize,
    back: usize,
}

impl<V> Iter<V> {
    /// The cursors stay within the snapshot.
    pub closed spec fn inv(&self) -> bool {
        self.front <= self.back <= self.items@.len()
    }

    /// The entries not yet yielded from either end.
    pub closed spec fn remaining(&self) -> Seq<(Range, V)> {
        self.items@.subrange(self.front as int, self.back as int)
    }
}

impl<V: ValueEq> Iter<V> {
    /// The next entry from the front.
    pub fn next(&mut self) -> (r: Option<(Range, V)>)
        requires
            old(self).inv(),
        ensures
            final(self).inv(),
            (match r {
                Some(e) => old(self).remaining().len() > 0 && e == old(self).remaining().first()
                    && final(self).remaining() == old(self).remaining().drop_first(),
                None => old(self).remaining().len() == 0 && final(self).remaining() == old(
                    self,
                ).remaining(),
            }),
    {
        if self.front < self.back {
            let e = &self.items[self.front];
            self.front += 1;
            proof {
                assert(self.remaining() =~= old(self).remaining().drop_first());
            }
            Some((e.0, e.1.dup()))
        } else {
            None
        }
    }

    /// The next entry from the back.
    pub fn next_back(&mut self) -> (r: Option<(Range, V)>)
        requires
            old(self).inv(),
        ensures
            final(self).inv(),
            (match r {
                Some(e) => old(self).remaining().len() > 0 && e == old(self).remaining().last()
                    && final(self).remaining() == old(self).remaining().drop_last(),
                None => old(self).remaining().len() == 0 && final(self).remaining() == old(
                    self,
                ).remaining(),
            }),
    {
        if self.front < self.back {
            self.back -= 1;
            let e = &self.items[self.back];
            proof {
                assert(self.remaining() =~= old(self).remaining().drop_last());
            }
            Some((e.0, e.1.dup()))
        } else {
            None
        }
    }

    /// How many entries are left to yield.
    pub fn len(&self) -> (r: usize)
        requires
            self.inv(),
        ensures
            r == self.remaining().len(),
    {
        self.back - self.front
    }
}

/// An owning iterator over the entries of a [`RangeMap`]; it behaves as
/// [`Iter`] does.
pub struct IntoIter<V> {
    items: Vec<(Range, V)>,
    front: usize,
    back: usize,
}

impl<V> IntoIter<V> {
    /// The cursors stay within the snapshot.
    pub closed spec fn inv(&self) -> bool {
        self.front <= self.back <= self.items@.len()
    }

    /// The entries not yet yielded from either end.
    pub closed spec fn remaining(&self) -> Seq<(Range, V)> {
        self.items@.subrange(self.front as int, self.back as int)
    }
}

impl<V: ValueEq> IntoIter<V> {
    /// The next entry from the front.
    pub fn next(&mut self) -> (r: Option<(Range, V)>)
        requires
            old(self).inv(),
        ensures
            final(self).inv(),
            (match r {
                Some(e) => old(self).remaining().len() > 0 && e == old(self).remaining().first()
                    && final(self).remaining() == old(self).remaining().drop_first(),
                None => old(self).remaining().len() == 0 && final(self).remaining() == old(
                    self,
                ).remaining(),
            }),
    {
        if self.front < self.back {
            let e = &self.items[self.front];
            self.front += 1;
            proof {
                assert(self.remaining() =~= old(self).remaining().drop_first());
            }
            Some((e.0, e.1.dup()))
        } else {
            None
        }
    }

    /// The next entry from the back.
    pub fn next_back(&mut self) -> (r: Option<(Range, V)>)
        requires
            old(self).inv(),
        ensures
            final(self).inv(),
            (match r {
                Some(e) => old(self).remaining().len() > 0 && e == old(self).remaining().last()
                    && final(self).remaining() == old(self).remaining().drop_last(),
                None => old(self).remaining().len() == 0 && final(self).remaining() == old(
                    self,
                ).remaining(),
            }),
    {
        if self.front < self.back {
            self.back -= 1;
            let e = &self.items[self.back];
            proof {
                assert(self.remaining() =~= old(self).remaining().drop_last());
            }
            Some((e.0, e.1.dup()))
        } else {
            None
        }
    }

    /// How many entries are left to yield.
    pub fn len(&self) -> (r: usize)
        requires
            self.inv(),
        ensures
            r == self.remaining().len(),
    {
        self.back - self.front
    }
}

/// An iterator over the range keys of a [`RangeMap`], ascending, double
/// ended, exhaustible and fused.
pub struct Ranges {
    items: Vec<Range>,
    front: usize,
    back: usize,
}

impl Ranges {
    /// The cursors stay within the snapshot.
    pub closed spec fn inv(&self) -> bool {
        self.front <= self.back <= self.items@.len()
    }

    /// The ranges not yet yielded from either end.
    pub closed spec fn remaining(&self) -> Seq<Range> {
        self.items@.subrange(self.front as int, self.back as int)
    }

    /// The next range from the front.
    pub fn next(&mut self) -> (r: Option<Range>)
        requires
            old(self).inv(),
        ensures
            final(self).inv(),
            (match r {
                Some(e) => old(self).remaining().len() > 0 && e == old(self).remaining().first()
                    && final(self).remaining() == old(self).remaining().drop_first(),
                None => old(self).remaining().len() == 0 && final(self).remaining() == old(
                    self,
                ).remaining(),
            }),
    {
        if self.front < self.back {
            let e = self.items[self.front];
            self.front += 1;
            proof {
                assert(self.remaining() =~= old(self).remaining().drop_first());
            }
            Some(e)
        } else {
            None
        }
    }

    /// The next range from the back.
    pub fn next_back(&mut self) -> (r: Option<Range>)
        requires
            old(self).inv(),
        ensures
            final(self).inv(),
            (match r {
                Some(e) => old(self).remaining().len() > 0 && e == old(self).remaining().last()
                    && final(self).remaining() == old(self).remaining().drop_last(),
                None => old(self).remaining().len() == 0 && final(self).remaining() == old(
                    self,
                ).remaining(),
            }),
    {
        if self.front < self.back {
            self.back -= 1;
            let e = self.items[self.back];
            proof {
                assert(self.remaining() =~= old(self).remaining().drop_last());
            }
            Some(e)
        } else {
            None
        }
    }

    /// How many ranges are left to yield.
    pub fn len(&self) -> (r: usize)
        requires
            self.inv(),
        ensures
            r == self.remaining().len(),
    {
        self.back - self.front
    }
}

/// An iterator over the values of a [`RangeMap`], in range order,
/// double ended, exhaustible and fused.
pub struct Values<V> {
    items: Vec<V>,
    front: usize,
    back: usize,
}

impl<V> Values<V> {
    /// The cursors stay within the snapshot.
    pub closed spec fn inv(&self) -> bool {
        self.front <= self.back <= self.items@.len()
    }

    /// The values not yet yielded from either end.
    pub closed spec fn remaining(&self) -> Seq<V> {
        self.items@.subrange(self.front as int, self.back as int)
    }
}

impl<V: ValueEq> Values<V> {
    /// The next value from the front.
    pub fn next(&mut self) -> (r: Option<V>)
        requires
            old(self).inv(),
        ensures
            final(self).inv(),
            (match r {
                Some(e) => old(self).remaining().len() > 0 && e == old(self).remaining().first()
                    && final(self).remaining() == old(self).remaining().drop_first(),
                None => old(self).remaining().len() == 0 && final(self).remaining() == old(
                    self,
                ).remaining(),
            }),
    {
        if self.front < self.back {
            let e = self.items[self.front].dup();
            self.front += 1;
            proof {
                assert(self.remaining() =~= old(self).remaining().drop_first());
            }
            Some(e)
        } else {
            None
        }
    }

    /// The next value from the back.
    pub fn next_back(&mut self) -> (r: Option<V>)
        requires
            old(self).inv(),
        ensures
            final(self).inv(),
            (match r {
                Some(e) => old(self).remaining().len() > 0 && e == old(self).remaining().last()
                    && final(self).remaining() == old(self).remaining().drop_last(),
                None => old(self).remaining().len() == 0 && final(self).remaining() == old(
                    self,
                ).remaining(),
            }),
    {
        if self.front < self.back {
            self.back -= 1;
            let e = self.items[self.back].dup();
            proof {
                assert(self.remaining() =~= old(self).remaining().drop_last());
            }
            Some(e)
        } else {
            None
        }
    }

    /// How many values are left to yield.
    pub fn len(&self) -> (r: usize)
        requires
            self.inv(),
        ensures
            r == self.remaining().len(),
    {
        self.back - self.front
    }
}

/// An iterator over the maximal gaps between stored ranges, ascending,
/// exhaustible and fused. Regions before the first stored range and
/// after the last one are not gaps.
pub struct Gaps<V> {
    items: Vec<(Range, V)>,
    pos: usize,
}

impl<V> Gaps<V> {
    /// The cursor stays within the snapshot.
    pub closed spec fn inv(&self) -> bool {
        self.pos <= self.items@.len()
    }

    /// The gaps not yet yielded.
    pub closed spec fn remaining(&self) -> Seq<Range> {
        gaps_from(self.items@, self.pos as int)
    }

    /// The next gap.
    pub fn next(&mut self) -> (r: Option<Range>)
        requires
            old(self).inv(),
        ensures
            final(self).inv(),
            (match r {
                Some(g) => old(self).remaining().len() > 0 && g == old(self).remaining().first()
                    && final(self).remaining() == old(self).remaining().drop_first() && g.wf(),
                None => old(self).remaining().len() == 0 && final(self).remaining() == old(
                    self,
                ).remaining(),
            }),
    {
        let n = self.items.len();
        while n - self.pos > 1
            invariant
                self.pos <= n,
                n == self.items@.len(),
                self.items@ == old(self).items@,
                gaps_from(self.items@, self.pos as int) == gaps_from(
                    old(self).items@,
                    old(self).pos as int,
                ),
            decreases n - self.pos,
        {
            let ga = self.items[self.pos].0.bound_after();
            let gb = self.items[self.pos + 1].0.bound_before();
            let ghost p = self.pos as int;
            self.pos += 1;
            if let Some(gs) = ga {
                if let Some(ge) = gb {
                    if start_le_end(&gs, &ge) {
                        let g = Range { start: gs, end: ge };
                        proof {
                            assert(gap_between(self.items@[p].0, self.items@[p + 1].0) == Some(
                                g,
                            ));
                            assert(gaps_from(self.items@, p) == seq![g] + gaps_from(
                                self.items@,
                                p + 1,
                            ));
                            assert((seq![g] + gaps_from(self.items@, p + 1)).first() == g);
                            assert((seq![g] + gaps_from(self.items@, p + 1)).drop_first()
                                =~= gaps_from(self.items@, p + 1));
                        }
                        return Some(g);
                    }
                }
            }
            proof {
                assert(gap_between(self.items@[p].0, self.items@[p + 1].0) is None);
                assert(gaps_from(self.items@, p) == gaps_from(self.items@, p + 1));
            }
        }
        proof {
            assert(gaps_from(self.items@, self.pos as int) == Seq::<Range>::empty());
        }
        None
    }
}

/// An iterator over the maximal uncovered intervals within an outer
/// range, ascending, exhaustible and fused. Unlike [`Gaps`], uncovered
/// regions at either edge of the outer range count.
pub struct GapsIn {
    gaps: Vec<Range>,
    pos: usize,
}

impl GapsIn {
    /// The cursor stays within the computed gap list, whose entries are
    /// all well formed.
    pub closed spec fn inv(&self) -> bool {
        self.pos <= self.gaps@.len() && (forall|k: int|
            0 <= k < self.gaps@.len() ==> (#[trigger] self.gaps@[k]).wf())
    }

    /// The gaps not yet yielded.
    pub closed spec fn remaining(&self) -> Seq<Range> {
        self.gaps@.subrange(self.pos as int, self.gaps@.len() as int)
    }

    /// The next gap.
    pub fn next(&mut self) -> (r: Option<Range>)
        requires
            old(self).inv(),
        ensures
            final(self).inv(),
            (match r {
                Some(g) => old(self).remaining().len() > 0 && g == old(self).remaining().first()
                    && final(self).remaining() == old(self).remaining().drop_first() && g.wf(),
                None => old(self).remaining().len() == 0 && final(self).remaining() == old(
                    self,
                ).remaining(),
            }),
    {
        if self.pos < self.gaps.len() {
            let g = self.gaps[self.pos];
            self.pos += 1;
            proof {
                assert(self.remaining() =~= old(self).remaining().drop_first());
            }
            Some(g)
        } else {
            None
        }
    }
}

/// Collect the uncovered intervals of `gaps_in_from` into `acc`.
fn push_gaps_in<V: ValueEq>(
    items: &Vec<(Range, V)>,
    i: usize,
    cur: Bound,
    outer_end: Bound,
    acc: &mut Vec<Range>,
)
    requires
        i <= items@.len(),
    ensures
        final(acc)@ == old(acc)@ + gaps_in_from(items@, i as int, cur, outer_end),
    decreases items@.len() - i,
{
    if !start_le_end(&cur, &outer_end) {
        proof {
            assert(acc@ =~= acc@ + gaps_in_from(items@, i as int, cur, outer_end));
        }
        return ;
    }
    if i == items.len() {
        acc.push(Range { start: cur, end: outer_end });
        proof {
            assert(acc@ =~= old(acc)@ + gaps_in_from(items@, i as int, cur, outer_end));
        }
        return ;
    }
    let e = &items[i];
    if !start_le_end(&cur, &e.0.end) {
        push_gaps_in(items, i + 1, cur, outer_end, acc);
        return ;
    }
    if !start_le_end(&e.0.start, &outer_end) {
        acc.push(Range { start: cur, end: outer_end });
        proof {
            assert(acc@ =~= old(acc)@ + gaps_in_from(items@, i as int, cur, outer_end));
        }
        return ;
    }
    let mut pushed = false;
    if !start_le_start(&e.0.start, &cur) {
        let ge = e.0.bound_before().unwrap();
        acc.push(Range { start: cur, end: ge });
        pushed = true;
    }
    match e.0.bound_after() {
        Some(c2) => {
            push_gaps_in(items, i + 1, c2, outer_end, acc);
            proof {
                if pushed {
                    assert(acc@ =~= old(acc)@ + gaps_in_from(items@, i as int, cur, outer_end));
                }
            }
        },
        None => {
            proof {
                assert(acc@ =~= old(acc)@ + gaps_in_from(items@, i as int, cur, outer_end));
            }
        },
    }
}

/// Every interval that the bounded gap walk yields is well formed: each
/// is emitted only when its far edge lies at or past `cur`.
proof fn lemma_gaps_in_from_wf<V>(s: Seq<(Range, V)>, i: int, cur: Bound, oe: Bound, k: int)
    requires
        0 <= k < gaps_in_from(s, i, cur, oe).len(),
    ensures
        gaps_in_from(s, i, cur, oe)[k].wf(),
    decreases s.len() - i,
{
    let gs = gaps_in_from(s, i, cur, oe);
    if start_pos(cur) > end_pos(oe) {
    } else if i < 0 || i >= s.len() {
        assert(gs[0] == (Range { start: cur, end: oe }));
    } else if end_pos(s[i].0.end) < start_pos(cur) {
        lemma_gaps_in_from_wf(s, i + 1, cur, oe, k);
    } else if start_pos(s[i].0.start) > end_pos(oe) {
        assert(gs[0] == (Range { start: cur, end: oe }));
    } else {
        let rest = match spec_after(s[i].0.end) {
            Some(c2) => gaps_in_from(s, i + 1, c2, oe),
            None => Seq::<Range>::empty(),
        };
        if start_pos(cur) < start_pos(s[i].0.start) && spec_before(s[i].0.start) is Some {
            let ge = spec_before(s[i].0.start)->0;
            assert(gs == seq![Range { start: cur, end: ge }] + rest);
            if k == 0 {
                assert(gs[0] == (Range { start: cur, end: ge }));
            } else {
                assert(gs[k] == rest[k - 1]);
                match spec_after(s[i].0.end) {
                    Some(c2) => {
                        lemma_gaps_in_from_wf(s, i + 1, c2, oe, k - 1);
                    },
                    None => {},
                }
            }
        } else {
            assert(gs == rest);
            match spec_after(s[i].0.end) {
                Some(c2) => {
                    lemma_gaps_in_from_wf(s, i + 1, c2, oe, k);
                },
                None => {},
            }
        }
    }
}

impl<V: ValueEq> RangeMap<V> {
    /// An iterator over the stored entries, in ascending order.
    pub fn iter(&self) -> (it: Iter<V>)
        ensures
            it.inv(),
            it.remaining() == self@,
    {
        let items = self.to_vec();
        let n = items.len();
        let it = Iter { items, front: 0, back: n };
        proof {
            assert(it.remaining() =~= self@);
        }
        it
    }

    /// An owning iterator over the stored entries, in ascending order.
    pub fn into_iter(self) -> (it: IntoIter<V>)
        ensures
            it.inv(),
            it.remaining() == self@,
    {
        let items = self.to_vec();
        let n = items.len();
        let it = IntoIter { items, front: 0, back: n };
        proof {
            assert(it.remaining() =~= self@);
        }
        it
    }

    /// An iterator over the stored range keys, in ascending order.
    pub fn ranges(&self) -> (it: Ranges)
        ensures
            it.inv(),
            it.remaining() == self@.map_values(|e: (Range, V)| e.0),
    {
        let entries = self.to_vec();
        let n = entries.len();
        let mut items: Vec<Range> = Vec::new();
        let mut i: usize = 0;
        while i < n
            invariant
                i <= n,
                n == entries@.len(),
                entries@ == self@,
                items@.len() == i,
                forall|m: int| 0 <= m < i ==> items@[m] == (#[trigger] entries@[m]).0,
            decreases n - i,
        {
            items.push(entries[i].0);
            i += 1;
        }
        let it = Ranges { items, front: 0, back: n };
        proof {
            assert(it.remaining() =~= self@.map_values(|e: (Range, V)| e.0));
        }
        it
    }

    /// An iterator over the stored values, in range order.
    pub fn values(&self) -> (it: Values<V>)
        ensures
            it.inv(),
            it.remaining() == self@.map_values(|e: (Range, V)| e.1),
    {
        let entries = self.to_vec();
        let n = entries.len();
        let mut items: Vec<V> = Vec::new();
        let mut i: usize = 0;
        while i < n
            invariant
                i <= n,
                n == entries@.len(),
                entries@ == self@,
                items@.len() == i,
                forall|m: int| 0 <= m < i ==> items@[m] == (#[trigger] entries@[m]).1,
            decreases n - i,
        {
            let e = &entries[i];
            items.push(e.1.dup());
            i += 1;
        }
        let it = Values { items, front: 0, back: n };
        proof {
            assert(it.remaining() =~= self@.map_values(|e: (Range, V)| e.1));
        }
        it
    }

    /// An iterator over all maximal gaps between stored ranges.
    ///
    /// Regions before the first stored range and after the last one are
    /// not yielded: without an outer bound they have no far edge. See
    /// [`RangeMap::gaps_in`] for the bounded variant.
    pub fn gaps(&self) -> (g: Gaps<V>)
        ensures
            g.inv(),
            g.remaining() == gaps_from(self@, 0),
    {
        Gaps { items: self.to_vec(), pos: 0 }
    }

    /// An iterator over all maximal uncovered intervals within `outer`.
    ///
    /// Unlike [`RangeMap::gaps`], uncovered regions at either edge of
    /// `outer` are yielded, clipped to it; when `outer` touches no stored
    /// range at all, it is itself the one gap.
    pub fn gaps_in(&self, outer: Range) -> (g: GapsIn)
        ensures
            g.inv(),
            g.remaining() == gaps_in_from(self@, 0, outer.start, outer.end),
    {
        let items = self.to_vec();
        let mut acc: Vec<Range> = Vec::new();
        push_gaps_in(&items, 0, outer.start, outer.end, &mut acc);
        let g = GapsIn { gaps: acc, pos: 0 };
        proof {
            assert forall|k: int|
                0 <= k < acc@.len() implies (#[trigger] acc@[k]).wf() by {
                lemma_gaps_in_from_wf(items@, 0, outer.start, outer.end, k);
            }
            assert(g.remaining() =~= gaps_in_from(self@, 0, outer.start, outer.end));
        }
        g
    }
}

/// Whether position `q` lies inside one of the listed gaps.
pub open spec fn in_gap_list(gs: Seq<Range>, q: int) -> bool {
    exists|i: int| 0 <= i < gs.len() && (#[trigger] gs[i]).contains_pos(q)
}

/// A position lies in a cons gap list exactly when it lies in the head
/// gap or in the remainder.
proof fn lemma_in_gap_cons(g: Range, rest: Seq<Range>, q: int)
    ensures
        in_gap_list(seq![g] + rest, q) <==> (g.contains_pos(q) || in_gap_list(rest, q)),
{
    let gs = seq![g] + rest;
    if in_gap_list(gs, q) {
        let i = choose|i: int| 0 <= i < gs.len() && (#[trigger] gs[i]).contains_pos(q);
        if i > 0 {
            assert(rest[i - 1] == gs[i]);
        } else {
            assert(gs[0] == g);
        }
    }
    if g.contains_pos(q) {
        assert(gs[0] == g);
        assert(gs[0].contains_pos(q));
    }
    if in_gap_list(rest, q) {
        let i = choose|i: int| 0 <= i < rest.len() && (#[trigger] rest[i]).contains_pos(q);
        assert(gs[i + 1] == rest[i]);
        assert(gs[i + 1].contains_pos(q));
    }
}

/// Which positions the gaps from index `i` on hold: those past the end of
/// entry `i`, at or before the end of the last entry, and inside no later
/// entry.
proof fn lemma_gaps_from_characterization<V>(s: Seq<(Range, V)>, i: int, q: int)
    requires
        entries_wf(s),
        0 <= i < s.len(),
    ensures
        in_gap_list(gaps_from(s, i), q) <==> (end_pos(s[i].0.end) < q <= end_pos(
            s.last().0.end,
        ) && (forall|m: int| i < m < s.len() ==> !(#[trigger] s[m]).0.contains_pos(q))),
    decreases s.len() - i,
{
    if i + 1 >= s.len() {
        // No pair left: the gap list is empty, and the claimed region is
        // empty too.
        assert(s.last() == s[i]);
    } else {
        lemma_gaps_from_characterization(s, i + 1, q);
        assert(end_pos(s[i].0.end) < start_pos(s[i + 1].0.start));
        assert(s[i + 1].0.wf());
        if i + 1 < s.len() - 1 {
            lemma_entries_sorted(s, i + 1, s.len() - 1);
        }
        assert(end_pos(s[i + 1].0.end) <= end_pos(s.last().0.end));
        match gap_between(s[i].0, s[i + 1].0) {
            Some(g) => {
                assert(gaps_from(s, i) == seq![g] + gaps_from(s, i + 1));
                lemma_in_gap_cons(g, gaps_from(s, i + 1), q);
                assert(g.contains_pos(q) <==> end_pos(s[i].0.end) < q < start_pos(
                    s[i + 1].0.start,
                ));
                if g.contains_pos(q) {
                    assert forall|m: int|
                        i < m < s.len() implies !(#[trigger] s[m]).0.contains_pos(q) by {
                        if m > i + 1 {
                            lemma_entries_sorted(s, i + 1, m);
                        }
                    }
                }
            },
            None => {
                assert(gaps_from(s, i) == gaps_from(s, i + 1));
                // The two entries leave no position strictly between them.
                assert(spec_after(s[i].0.end) is Some) by {
                    if s[i].0.end is Unbounded {
                        assert(end_pos(s[i].0.end) == 2 * (u32::MAX as int) + 1);
                        assert(start_pos(s[i + 1].0.start) <= 2 * (u32::MAX as int) + 1);
                        assert(false);
                    }
                }
                assert(spec_before(s[i + 1].0.start) is Some) by {
                    if s[i + 1].0.start is Unbounded {
                        assert(start_pos(s[i + 1].0.start) == -1);
                        assert(end_pos(s[i].0.end) >= -1) by {
                            assert(s[i].0.wf());
                            assert(start_pos(s[i].0.start) >= -1);
                        }
                        assert(false);
                    }
                }
                assert(end_pos(s[i].0.end) + 1 >= start_pos(s[i + 1].0.start));
            },
        }
    }
}

/// The gaps of a map hold exactly the uncovered positions between the
/// start of its first entry and the end of its last one: no covered
/// position, no position outside that span, and nothing missed.
pub proof fn lemma_gaps_complement<V>(s: Seq<(Range, V)>, q: int)
    requires
        entries_wf(s),
    ensures
        in_gap_list(gaps_from(s, 0), q) <==> (s.len() > 0 && start_pos(s[0].0.start) <= q
            <= end_pos(s.last().0.end) && covered_val(s, q) is None),
{
    if s.len() == 0 {
    } else {
        lemma_gaps_from_characterization(s, 0, q);
        lemma_covered_exists(s, q);
        assert(s[0].0.wf());
        if in_gap_list(gaps_from(s, 0), q) {
            assert(!s[0].0.contains_pos(q));
        }
        if s.len() > 0 && start_pos(s[0].0.start) <= q <= end_pos(s.last().0.end)
            && covered_val(s, q) is None {
            assert(!s[0].0.contains_pos(q));
            assert(end_pos(s[0].0.end) < q);
        }
    }
}

/// Which positions the bounded gap walk holds from state `(i, cur)` on:
/// those from `cur` to the outer end that lie inside no remaining entry.
proof fn lemma_gaps_in_from_characterization<V>(
    s: Seq<(Range, V)>,
    i: int,
    cur: Bound,
    oe: Bound,
    q: int,
)
    requires
        entries_wf(s),
        0 <= i <= s.len(),
    ensures
        in_gap_list(gaps_in_from(s, i, cur, oe), q) <==> (start_pos(cur) <= q <= end_pos(oe) && (
        forall|m: int| i <= m < s.len() ==> !(#[trigger] s[m]).0.contains_pos(q))),
    decreases s.len() - i,
{
    if start_pos(cur) > end_pos(oe) {
    } else if i >= s.len() {
        let g = Range { start: cur, end: oe };
        lemma_in_gap_cons(g, Seq::<Range>::empty(), q);
        assert(seq![g] + Seq::<Range>::empty() =~= seq![g]);
        assert(gaps_in_from(s, i, cur, oe) == seq![g]);
    } else if end_pos(s[i].0.end) < start_pos(cur) {
        lemma_gaps_in_from_characterization(s, i + 1, cur, oe, q);
    } else if start_pos(s[i].0.start) > end_pos(oe) {
        let g = Range { start: cur, end: oe };
        lemma_in_gap_cons(g, Seq::<Range>::empty(), q);
        assert(seq![g] + Seq::<Range>::empty() =~= seq![g]);
        assert(gaps_in_from(s, i, cur, oe) == seq![g]);
        if start_pos(cur) <= q <= end_pos(oe) {
            assert forall|m: int| i <= m < s.len() implies !(#[trigger] s[m]).0.contains_pos(
                q,
            ) by {
                if m > i {
                    lemma_entries_sorted(s, i, m);
                    assert(s[i].0.wf());
                }
            }
        }
    } else {
        let rest = match spec_after(s[i].0.end) {
            Some(c2) => gaps_in_from(s, i + 1, c2, oe),
            None => Seq::<Range>::empty(),
        };
        match spec_after(s[i].0.end) {
            Some(c2) => {
                lemma_gaps_in_from_characterization(s, i + 1, c2, oe, q);
            },
            None => {
                // The entry runs to infinity: nothing past it lies within
                // the outer region.
                assert(end_pos(s[i].0.end) == 2 * (u32::MAX as int) + 1);
            },
        }
        if start_pos(cur) < start_pos(s[i].0.start) {
            assert(spec_before(s[i].0.start) is Some) by {
                if s[i].0.start is Unbounded {
                    assert(start_pos(s[i].0.start) == -1);
                    assert(start_pos(cur) >= -1);
                    assert(false);
                }
            }
            let ge = spec_before(s[i].0.start)->0;
            let g = Range { start: cur, end: ge };
            assert(gaps_in_from(s, i, cur, oe) == seq![g] + rest);
            lemma_in_gap_cons(g, rest, q);
            if g.contains_pos(q) {
                assert forall|m: int| i <= m < s.len() implies !(#[trigger] s[m]).0.contains_pos(
                    q,
                ) by {
                    if m > i {
                        lemma_entries_sorted(s, i, m);
                        assert(s[i].0.wf());
                    }
                }
            }
        } else {
            assert(gaps_in_from(s, i, cur, oe) == rest);
        }
    }
}

/// The bounded gaps of a map hold exactly the uncovered positions of the
/// outer range: every position of the outer range that no stored entry
/// covers lies in one of them, and no other position does.
pub proof fn lemma_gaps_in_complement<V>(s: Seq<(Range, V)>, outer: Range, q: int)
    requires
        entries_wf(s),
    ensures
        in_gap_list(gaps_in_from(s, 0, outer.start, outer.end), q) <==> (outer.contains_pos(q)
            && covered_val(s, q) is None),
{
    lemma_gaps_in_from_characterization(s, 0, outer.start, outer.end, q);
    lemma_covered_exists(s, q);
}

} // verus!
