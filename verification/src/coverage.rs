//! The mathematical model of the stored partition.
//!
//! A map state is a sequence of `(range, value)` entries. [`entries_wf`]
//! states the partition invariant — entries sorted, pairwise disjoint,
//! non-empty, and never adjacent with equal values — and [`covered_val`]
//! reads the sequence as a function from positions to optional values. The
//! lemmas here connect the two views and are the workhorses of the
//! mutation proofs.

use crate::bounds::{end_pos, start_pos};
use crate::range::Range;
use vstd::prelude::*;

verus! {

/// The partition invariant of a stored entry sequence:
/// every range non-empty, ranges sorted by position and pairwise disjoint,
/// and no two adjacent ranges carrying equal values.
pub open spec fn entries_wf<V>(s: Seq<(Range, V)>) -> bool {
    &&& forall|i: int| 0 <= i < s.len() ==> (#[trigger] s[i]).0.wf()
    &&& forall|i: int, j: int|
        0 <= i && i + 1 == j && j < s.len() ==> end_pos((#[trigger] s[i]).0.end) < start_pos(
            (#[trigger] s[j]).0.start,
        )
    &&& forall|i: int, j: int|
        0 <= i && i + 1 == j && j < s.len() ==> (end_pos((#[trigger] s[i]).0.end) + 1 == start_pos(
            (#[trigger] s[j]).0.start,
        ) ==> s[i].1 != s[j].1)
}

/// The value stored at position `q`, read off the entry sequence: the value
/// of the first entry whose range contains `q`, if any.
pub open spec fn covered_val<V>(s: Seq<(Range, V)>, q: int) -> Option<V>
    decreases s.len(),
{
    if s.len() == 0 {
        None
    } else if s[0].0.contains_pos(q) {
        Some(s[0].1)
    } else {
        covered_val(s.drop_first(), q)
    }
}

/// The value at position `q` after inserting the pairs of `list`, in
/// order, into an empty map: the value of the last pair whose range
/// contains `q`, if any.
pub open spec fn bulk_covered<V>(list: Seq<(Range, V)>, q: int) -> Option<V>
    decreases list.len(),
{
    if list.len() == 0 {
        None
    } else if list.last().0.contains_pos(q) {
        Some(list.last().1)
    } else {
        bulk_covered(list.drop_last(), q)
    }
}

/// Reading a concatenation: the left part wins where it covers.
pub proof fn lemma_covered_concat<V>(a: Seq<(Range, V)>, b: Seq<(Range, V)>, q: int)
    ensures
        covered_val(a + b, q) == (if covered_val(a, q) is Some {
            covered_val(a, q)
        } else {
            covered_val(b, q)
        }),
    decreases a.len(),
{
    if a.len() == 0 {
        assert(a + b =~= b);
    } else {
        assert((a + b).drop_first() =~= a.drop_first() + b);
        assert((a + b)[0] == a[0]);
        lemma_covered_concat(a.drop_first(), b, q);
    }
}

/// A position is covered exactly when some entry's range contains it.
pub proof fn lemma_covered_exists<V>(s: Seq<(Range, V)>, q: int)
    ensures
        (covered_val(s, q) is Some) <==> exists|i: int|
            0 <= i < s.len() && (#[trigger] s[i]).0.contains_pos(q),
    decreases s.len(),
{
    if s.len() == 0 {
    } else if s[0].0.contains_pos(q) {
    } else {
        lemma_covered_exists(s.drop_first(), q);
        if covered_val(s, q) is Some {
            let i = choose|i: int|
                0 <= i < s.drop_first().len() && (#[trigger] s.drop_first()[i]).0.contains_pos(q);
            assert(s[i + 1].0.contains_pos(q));
        }
        if exists|i: int| 0 <= i < s.len() && (#[trigger] s[i]).0.contains_pos(q) {
            let i = choose|i: int| 0 <= i < s.len() && (#[trigger] s[i]).0.contains_pos(q);
            assert(s.drop_first()[i - 1].0.contains_pos(q));
        }
    }
}

/// In a well-formed sequence, every earlier range ends strictly before
/// every later range starts.
pub proof fn lemma_entries_sorted<V>(s: Seq<(Range, V)>, i: int, j: int)
    requires
        entries_wf(s),
        0 <= i < j < s.len(),
    ensures
        end_pos(s[i].0.end) < start_pos(s[j].0.start),
    decreases j - i,
{
    if j > i + 1 {
        lemma_entries_sorted(s, i, j - 1);
        assert(start_pos(s[j - 1].0.start) <= end_pos(s[j - 1].0.end));
    }
}

/// A contiguous slice of a well-formed sequence is well formed.
pub proof fn lemma_wf_subrange<V>(s: Seq<(Range, V)>, lo: int, hi: int)
    requires
        entries_wf(s),
        0 <= lo <= hi <= s.len(),
    ensures
        entries_wf(s.subrange(lo, hi)),
{
    let t = s.subrange(lo, hi);
    assert forall|i: int| 0 <= i < t.len() implies (#[trigger] t[i]).0.wf() by {
        assert(t[i] == s[lo + i]);
    }
    assert forall|i: int, j: int|
        0 <= i && i + 1 == j && j < t.len() implies end_pos((#[trigger] t[i]).0.end) < start_pos(
        (#[trigger] t[j]).0.start,
    ) by {
        assert(t[i] == s[lo + i]);
        assert(t[j] == s[lo + j]);
    }
    assert forall|i: int, j: int|
        0 <= i && i + 1 == j && j < t.len() && end_pos((#[trigger] t[i]).0.end) + 1 == start_pos(
            (#[trigger] t[j]).0.start,
        ) implies t[i].1 != t[j].1 by {
        assert(t[i] == s[lo + i]);
        assert(t[j] == s[lo + j]);
    }
}

/// In a well-formed sequence, the entry containing a position determines
/// the value read there.
pub proof fn lemma_covered_at<V>(s: Seq<(Range, V)>, q: int, i: int)
    requires
        entries_wf(s),
        0 <= i < s.len(),
        s[i].0.contains_pos(q),
    ensures
        covered_val(s, q) == Some(s[i].1),
    decreases i,
{
    if i == 0 {
    } else {
        lemma_entries_sorted(s, 0, i);
        assert(!s[0].0.contains_pos(q));
        lemma_wf_subrange(s, 1, s.len() as int);
        assert(s.drop_first() =~= s.subrange(1, s.len() as int));
        assert(s.drop_first()[i - 1] == s[i]);
        lemma_covered_at(s.drop_first(), q, i - 1);
    }
}

/// Nothing is covered at a position that lies before the start of every
/// entry.
pub proof fn lemma_covered_none_before<V>(s: Seq<(Range, V)>, q: int)
    requires
        forall|m: int| 0 <= m < s.len() ==> start_pos((#[trigger] s[m]).0.start) > q,
    ensures
        covered_val(s, q) is None,
{
    lemma_covered_exists(s, q);
}

/// Nothing is covered at a position past the end of entry `i` but before
/// the start of every later entry.
pub proof fn lemma_covered_none_at_gap<V>(s: Seq<(Range, V)>, q: int, i: int)
    requires
        entries_wf(s),
        0 <= i < s.len(),
        q > end_pos(s[i].0.end),
        forall|m: int| i < m < s.len() ==> start_pos((#[trigger] s[m]).0.start) > q,
    ensures
        covered_val(s, q) is None,
{
    lemma_covered_exists(s, q);
    if covered_val(s, q) is Some {
        let m = choose|m: int| 0 <= m < s.len() && (#[trigger] s[m]).0.contains_pos(q);
        if m < i {
            lemma_entries_sorted(s, m, i);
            assert(s[i].0.wf());
        }
    }
}

/// Joining two well-formed sequences that meet properly — the left one
/// ending before the right one starts, with no equal-valued adjacency at
/// the seam — yields a well-formed sequence.
pub proof fn lemma_wf_concat<V>(a: Seq<(Range, V)>, b: Seq<(Range, V)>)
    requires
        entries_wf(a),
        entries_wf(b),
        a.len() > 0 && b.len() > 0 ==> end_pos(a.last().0.end) < start_pos(b.first().0.start) && (
        end_pos(a.last().0.end) + 1 == start_pos(b.first().0.start) ==> a.last().1 != b.first().1),
    ensures
        entries_wf(a + b),
{
    let c = a + b;
    let n = a.len() as int;
    assert forall|i: int| 0 <= i < c.len() implies (#[trigger] c[i]).0.wf() by {
        if i < n {
            assert(c[i] == a[i]);
        } else {
            assert(c[i] == b[i - n]);
        }
    }
    assert forall|i: int, j: int|
        0 <= i && i + 1 == j && j < c.len() implies end_pos((#[trigger] c[i]).0.end) < start_pos(
        (#[trigger] c[j]).0.start,
    ) by {
        if j < n {
            assert(c[i] == a[i]);
            assert(c[j] == a[j]);
        } else if i >= n {
            assert(c[i] == b[i - n]);
            assert(c[j] == b[j - n]);
        } else {
            assert(c[i] == a.last());
            assert(c[j] == b.first());
        }
    }
    assert forall|i: int, j: int|
        0 <= i && i + 1 == j && j < c.len() && end_pos((#[trigger] c[i]).0.end) + 1 == start_pos(
            (#[trigger] c[j]).0.start,
        ) implies c[i].1 != c[j].1 by {
        if j < n {
            assert(c[i] == a[i]);
            assert(c[j] == a[j]);
        } else if i >= n {
            assert(c[i] == b[i - n]);
            assert(c[j] == b[j - n]);
        } else {
            assert(c[i] == a.last());
            assert(c[j] == b.first());
        }
    }
}

} // verus!
