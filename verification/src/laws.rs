//! Laws of the maximal partition.
//!
//! The partition invariant together with the pointwise reading pins a map
//! state down completely: two well-formed states that read alike are
//! equal. Idempotence of insertion follows.

use crate::bounds::{
    end_pos, lemma_end_pos_injective, lemma_start_pos_injective, start_pos,
};
use crate::coverage::{
    covered_val, entries_wf, lemma_covered_at, lemma_covered_exists, lemma_entries_sorted,
    lemma_wf_subrange,
};
use crate::range::Range;
use vstd::prelude::*;

verus! {

/// What an insertion promises, stated over entry sequences: `new_s` is
/// well formed, reads `v` everywhere inside `r`, and reads as `old_s`
/// everywhere outside. This is exactly the contract of
/// [`RangeMap::insert`] over the views of the map before and after.
///
/// [`RangeMap::insert`]: crate::RangeMap::insert
pub open spec fn inserted<V>(
    old_s: Seq<(Range, V)>,
    new_s: Seq<(Range, V)>,
    r: Range,
    v: V,
) -> bool {
    &&& entries_wf(new_s)
    &&& forall|q: int| r.contains_pos(q) ==> #[trigger] covered_val(new_s, q) == Some(v)
    &&& forall|q: int|
        !r.contains_pos(q) ==> #[trigger] covered_val(new_s, q) == covered_val(old_s, q)
}

/// Canonicity of the maximal partition: two well-formed entry sequences
/// that read the same value at every position are the same sequence.
///
/// Non-overlap alone would not give this; it is the merging of adjacent
/// equal-valued ranges that makes the representation unique.
#[verifier::rlimit(100)]
pub proof fn lemma_partition_canonical<V>(a: Seq<(Range, V)>, b: Seq<(Range, V)>)
    requires
        entries_wf(a),
        entries_wf(b),
        forall|q: int| #[trigger] covered_val(a, q) == covered_val(b, q),
    ensures
        a == b,
    decreases a.len(),
{
    if a.len() == 0 && b.len() == 0 {
        assert(a =~= b);
    } else if a.len() == 0 {
        let sb = start_pos(b[0].0.start);
        lemma_covered_at(b, sb, 0);
        assert(covered_val(a, sb) is None);
        assert(false);
    } else if b.len() == 0 {
        let sa = start_pos(a[0].0.start);
        lemma_covered_at(a, sa, 0);
        assert(covered_val(b, sa) is None);
        assert(false);
    } else {
        let sa = start_pos(a[0].0.start);
        let sb = start_pos(b[0].0.start);
        lemma_covered_at(a, sa, 0);
        lemma_covered_at(b, sb, 0);
        // The first starts agree: each sequence covers nothing before its
        // own first start.
        if sa < sb {
            assert forall|m: int| 0 <= m < b.len() implies !(#[trigger] b[m]).0.contains_pos(
                sa,
            ) by {
                if m > 0 {
                    lemma_entries_sorted(b, 0, m);
                    assert(b[0].0.wf());
                }
            }
            lemma_covered_exists(b, sa);
            assert(false);
        }
        if sb < sa {
            assert forall|m: int| 0 <= m < a.len() implies !(#[trigger] a[m]).0.contains_pos(
                sb,
            ) by {
                if m > 0 {
                    lemma_entries_sorted(a, 0, m);
                    assert(a[0].0.wf());
                }
            }
            lemma_covered_exists(a, sb);
            assert(false);
        }
        lemma_start_pos_injective(a[0].0.start, b[0].0.start);
        assert(a[0].1 == b[0].1);
        // The first ends agree: just past the shorter first range, the
        // two sequences would read differently — the longer one still
        // reads the first value, the shorter one reads nothing or, by
        // maximality, a different value.
        lemma_first_end_le(a, b);
        lemma_first_end_le(b, a);
        let ea = end_pos(a[0].0.end);
        lemma_end_pos_injective(a[0].0.end, b[0].0.end);
        assert(a[0] == b[0]);
        // And the tails read alike, so they are equal by induction.
        let ta = a.drop_first();
        let tb = b.drop_first();
        lemma_wf_subrange(a, 1, a.len() as int);
        assert(ta =~= a.subrange(1, a.len() as int));
        lemma_wf_subrange(b, 1, b.len() as int);
        assert(tb =~= b.subrange(1, b.len() as int));
        assert forall|q: int| #[trigger] covered_val(ta, q) == covered_val(tb, q) by {
            if q > ea {
                assert(!a[0].0.contains_pos(q));
                assert(covered_val(a, q) == covered_val(ta, q));
                assert(covered_val(b, q) == covered_val(tb, q));
            } else {
                assert forall|m: int| 0 <= m < ta.len() implies !(#[trigger] ta[m]).0.contains_pos(
                    q,
                ) by {
                    assert(ta[m] == a[m + 1]);
                    lemma_entries_sorted(a, 0, m + 1);
                }
                assert forall|m: int| 0 <= m < tb.len() implies !(#[trigger] tb[m]).0.contains_pos(
                    q,
                ) by {
                    assert(tb[m] == b[m + 1]);
                    lemma_entries_sorted(b, 0, m + 1);
                }
                lemma_covered_exists(ta, q);
                lemma_covered_exists(tb, q);
            }
        }
        lemma_partition_canonical(ta, tb);
        assert(a.len() == b.len());
        assert forall|i: int| 0 <= i < a.len() implies a[i] == b[i] by {
            if i > 0 {
                assert(ta[i - 1] == a[i]);
                assert(tb[i - 1] == b[i]);
            }
        }
        assert(a =~= b);
    }
}

/// Helper for canonicity: when two sequences read alike and their first
/// ranges begin together with one value, the first range of `b` ends no
/// later than the first range of `a`.
proof fn lemma_first_end_le<V>(a: Seq<(Range, V)>, b: Seq<(Range, V)>)
    requires
        entries_wf(a),
        entries_wf(b),
        forall|q: int| #[trigger] covered_val(a, q) == covered_val(b, q),
        a.len() > 0,
        b.len() > 0,
        a[0].1 == b[0].1,
        start_pos(b[0].0.start) == start_pos(a[0].0.start),
    ensures
        end_pos(b[0].0.end) <= end_pos(a[0].0.end),
{
    let ea = end_pos(a[0].0.end);
    if end_pos(b[0].0.end) > ea {
        // Just past the end of `a`'s first range, `b` still reads the
        // first value.
        assert(b[0].0.contains_pos(ea + 1));
        lemma_covered_at(b, ea + 1, 0);
        // But `a` reads nothing there, or a different value.
        if a.len() > 1 && a[1].0.contains_pos(ea + 1) {
            lemma_covered_at(a, ea + 1, 1);
            assert(end_pos(a[0].0.end) < start_pos(a[1].0.start));
            assert(start_pos(a[1].0.start) == ea + 1);
            assert(a[1].1 != a[0].1);
            assert(false);
        } else {
            assert forall|m: int| 0 <= m < a.len() implies !(#[trigger] a[m]).0.contains_pos(
                ea + 1,
            ) by {
                if m > 1 {
                    lemma_entries_sorted(a, 1, m);
                    assert(a[1].0.wf());
                    assert(end_pos(a[0].0.end) < start_pos(a[1].0.start));
                }
            }
            lemma_covered_exists(a, ea + 1);
            assert(false);
        }
    }
}

/// Inserting a pair twice in a row yields the same state as inserting it
/// once: insertion is idempotent.
pub proof fn lemma_insert_idempotent<V>(
    s0: Seq<(Range, V)>,
    s1: Seq<(Range, V)>,
    s2: Seq<(Range, V)>,
    r: Range,
    v: V,
)
    requires
        entries_wf(s0),
        inserted(s0, s1, r, v),
        inserted(s1, s2, r, v),
    ensures
        s1 == s2,
{
    assert forall|q: int| #[trigger] covered_val(s2, q) == covered_val(s1, q) by {
        if r.contains_pos(q) {
            assert(covered_val(s1, q) == Some(v));
            assert(covered_val(s2, q) == Some(v));
        }
    }
    lemma_partition_canonical(s2, s1);
}

} // verus!
