//! The mutation engine: rebuilding the stored partition for an insertion
//! or a removal.
//!
//! Both operations pass once over the sorted entries. Entries wholly
//! before the mutated range are kept; entries that take part are merged
//! into the inserted span or trimmed to fragments; entries wholly after
//! are kept. The proofs here show that the rebuilt sequence is well formed
//! and reads, position by position, exactly as the contract of the
//! operation demands.

use crate::bounds::{
    end_adjacent_start, end_le_end, end_pos, start_le_end, start_le_start, start_pos,
};
use crate::coverage::{
    covered_val, entries_wf, lemma_covered_at, lemma_covered_concat, lemma_covered_exists,
    lemma_entries_sorted, lemma_wf_concat, lemma_wf_subrange,
};
use crate::range::{overlap, touch, Range};
use crate::values::ValueEq;
use vstd::prelude::*;

verus! {

/// Whether entry `e` takes part in an insertion of `(r, v)`: it overlaps
/// `r`, or touches it carrying an equal value.
pub open spec fn participates<V>(e: (Range, V), r: Range, v: V) -> bool {
    overlap(e.0, r) || (touch(e.0, r) && e.1 == v)
}

/// Whether entry `e` lies wholly before an insertion of `(r, v)` and takes
/// no part in it.
pub open spec fn left_outside<V>(e: (Range, V), r: Range, v: V) -> bool {
    end_pos(e.0.end) < start_pos(r.start) && !(end_pos(e.0.end) + 1 == start_pos(r.start) && e.1
        == v)
}

/// Whether position `q` lies in `r` or in one of the equal-valued entries
/// `s[j..i]` that an insertion of `(r, v)` merges into its span.
pub open spec fn in_merged<V>(
    s: Seq<(Range, V)>,
    j: int,
    i: int,
    r: Range,
    v: V,
    q: int,
) -> bool {
    r.contains_pos(q) || exists|m: int|
        j <= m < i && (#[trigger] s[m]).1 == v && s[m].0.contains_pos(q)
}

/// A fragment as a sequence: one entry, or none.
pub open spec fn opt_seq<V>(o: Option<(Range, V)>) -> Seq<(Range, V)> {
    match o {
        Some(f) => seq![f],
        None => Seq::<(Range, V)>::empty(),
    }
}

fn check_participates<V: ValueEq>(e: &(Range, V), r: &Range, v: &V) -> (res: bool)
    ensures
        res <==> participates(*e, *r, *v),
{
    e.0.overlaps(r) || (e.0.touches(r) && e.1.eq_value(v))
}

fn check_left_outside<V: ValueEq>(e: &(Range, V), r: &Range, v: &V) -> (res: bool)
    ensures
        res <==> left_outside(*e, *r, *v),
{
    if start_le_end(&r.start, &e.0.end) {
        false
    } else {
        !(end_adjacent_start(&e.0.end, &r.start) && e.1.eq_value(v))
    }
}

/// Once one entry has taken part in an insertion, every later entry starts
/// at or after the inserted range does.
proof fn lemma_later_participant_starts_within<V>(
    s: Seq<(Range, V)>,
    r: Range,
    v: V,
    m: int,
)
    requires
        entries_wf(s),
        r.wf(),
        0 < m < s.len(),
        participates(s[m - 1], r, v),
    ensures
        start_pos(s[m].0.start) >= start_pos(r.start),
{
    assert(end_pos(s[m - 1].0.end) < start_pos(s[m].0.start));
}

/// An entry that takes part in an insertion while a later entry also takes
/// part ends at or before the inserted range does.
proof fn lemma_nonlast_participant_ends_within<V>(
    s: Seq<(Range, V)>,
    r: Range,
    v: V,
    m: int,
    i: int,
)
    requires
        entries_wf(s),
        r.wf(),
        0 <= m < i < s.len(),
        participates(s[i], r, v),
    ensures
        end_pos(s[m].0.end) <= end_pos(r.end),
{
    lemma_entries_sorted(s, m, i);
}

/// Reading a single-entry sequence.
proof fn lemma_covered_singleton<V>(e: (Range, V), q: int)
    ensures
        covered_val(seq![e], q) == (if e.0.contains_pos(q) {
            Some(e.1)
        } else {
            None::<V>
        }),
{
    let s = seq![e];
    assert(s[0] == e);
    assert(s.drop_first() =~= Seq::<(Range, V)>::empty());
    assert(covered_val(Seq::<(Range, V)>::empty(), q) is None);
}

/// A single well-formed entry is a well-formed sequence.
proof fn lemma_wf_singleton<V>(e: (Range, V))
    requires
        e.0.wf(),
    ensures
        entries_wf(seq![e]),
{
    assert(seq![e][0] == e);
}

/// Reading the assembled sequence at one position `q`: inside `r` it
/// yields the inserted value, outside it reads as the old sequence.
proof fn lemma_insert_read<V>(
    s: Seq<(Range, V)>,
    r: Range,
    v: V,
    j: int,
    j2: int,
    lf: Option<(Range, V)>,
    rf: Option<(Range, V)>,
    cur: Range,
    fin: Seq<(Range, V)>,
    q: int,
)
    requires
        entries_wf(s),
        r.wf(),
        0 <= j <= j2 <= s.len(),
        forall|m: int| 0 <= m < j ==> left_outside(#[trigger] s[m], r, v),
        forall|m: int| j <= m < j2 ==> participates(#[trigger] s[m], r, v),
        start_pos(cur.start) <= start_pos(r.start),
        end_pos(r.end) <= end_pos(cur.end),
        forall|q2: int| #[trigger] in_merged(s, j, j2, r, v, q2) <==> cur.contains_pos(q2),
        lf is Some <==> (j < j2 && s[j].1 != v && start_pos(s[j].0.start) < start_pos(r.start)),
        lf matches Some(f) ==> f.1 == s[j].1 && f.0.start == s[j].0.start && end_pos(f.0.end)
            == start_pos(r.start) - 1 && f.0.wf() && cur.start == r.start,
        rf is Some ==> j < j2 && s[j2 - 1].1 != v && end_pos(s[j2 - 1].0.end) > end_pos(r.end)
            && overlap(s[j2 - 1].0, r),
        rf matches Some(f) ==> f.1 == s[j2 - 1].1 && f.0.end == s[j2 - 1].0.end && start_pos(
            f.0.start,
        ) == end_pos(r.end) + 1 && f.0.wf() && cur.end == r.end,
        forall|m: int, q2: int|
            j <= m < j2 && (#[trigger] s[m]).1 != v && #[trigger] s[m].0.contains_pos(q2)
                ==> r.contains_pos(q2) || (lf matches Some(f) && f.0.contains_pos(q2)) || (
            rf matches Some(f) && f.0.contains_pos(q2)),
        fin == s.subrange(0, j) + opt_seq(lf) + seq![(cur, v)] + opt_seq(rf) + s.subrange(
            j2,
            s.len() as int,
        ),
    ensures
        r.contains_pos(q) ==> covered_val(fin, q) == Some(v),
        !r.contains_pos(q) ==> covered_val(fin, q) == covered_val(s, q),
{
    let pre = s.subrange(0, j);
    let lfs = opt_seq(lf);
    let midv = seq![(cur, v)];
    let rfs = opt_seq(rf);
    let tail = s.subrange(j2, s.len() as int);
    let part = s.subrange(j, j2);

    // Chain of reads through the assembled pieces.
    lemma_covered_concat(pre, lfs, q);
    lemma_covered_concat(pre + lfs, midv, q);
    lemma_covered_concat(pre + lfs + midv, rfs, q);
    lemma_covered_concat(pre + lfs + midv + rfs, tail, q);
    // And through the old sequence, split at the participant block.
    assert(s =~= pre + part + tail);
    lemma_covered_concat(pre, part, q);
    lemma_covered_concat(pre + part, tail, q);
    lemma_covered_singleton((cur, v), q);
    if let Some(f) = lf {
        lemma_covered_singleton(f, q);
        // The left fragment lies inside `s[j]`.
        if f.0.contains_pos(q) {
            assert(participates(s[j], r, v));
            assert(end_pos(s[j].0.end) + 1 >= start_pos(r.start));
            assert(s[j].0.contains_pos(q));
        }
    }
    if let Some(f) = rf {
        lemma_covered_singleton(f, q);
        // The right fragment lies inside `s[j2 - 1]`.
        if f.0.contains_pos(q) {
            assert(s[j2 - 1].0.contains_pos(q));
        }
    }
    lemma_wf_subrange(s, j, j2);

    if r.contains_pos(q) {
        // Nothing before the merged span reaches into `r`.
        assert forall|m: int| 0 <= m < pre.len() implies !(#[trigger] pre[m]).0.contains_pos(
            q,
        ) by {
            assert(pre[m] == s[m]);
            assert(left_outside(s[m], r, v));
        }
        lemma_covered_exists(pre, q);
        assert(covered_val(pre, q) is None);
        if let Some(f) = lf {
            assert(!f.0.contains_pos(q));
        }
        assert(cur.contains_pos(q));
        assert(covered_val(fin, q) == Some(v));
    } else {
        if covered_val(pre, q) is Some {
            assert(covered_val(fin, q) == covered_val(pre, q));
            assert(covered_val(s, q) == covered_val(pre, q));
        } else {
            // `q` is outside `r` and outside the untouched prefix.
            if covered_val(part, q) is Some {
                lemma_covered_exists(part, q);
                let mp = choose|mp: int|
                    0 <= mp < part.len() && (#[trigger] part[mp]).0.contains_pos(q);
                let m = j + mp;
                assert(part[mp] == s[m]);
                lemma_covered_at(part, q, mp);
                assert(covered_val(part, q) == Some(s[m].1));
                assert(covered_val(s, q) == Some(s[m].1));
                if s[m].1 == v {
                    assert(in_merged(s, j, j2, r, v, q));
                    assert(cur.contains_pos(q));
                    if let Some(f) = lf {
                        if f.0.contains_pos(q) {
                            // Both `s[j]` and `s[m]` would contain `q`.
                            if m != j {
                                lemma_entries_sorted(s, j, m);
                                assert(false);
                            }
                            assert(false);
                        }
                    }
                    assert(covered_val(fin, q) == Some(v));
                } else {
                    assert(r.contains_pos(q) || (lf matches Some(f) && f.0.contains_pos(q)) || (
                    rf matches Some(f) && f.0.contains_pos(q)));
                    if lf is Some && (lf->0).0.contains_pos(q) {
                        let f = lf->0;
                        // `q` lies in the left fragment; its source is `s[j]`.
                        if m != j {
                            lemma_entries_sorted(s, if m < j { m } else { j }, if m < j {
                                j
                            } else {
                                m
                            });
                            assert(false);
                        }
                        assert(!cur.contains_pos(q)) by {
                            assert(end_pos(f.0.end) == start_pos(r.start) - 1);
                            assert(cur.start == r.start);
                        }
                        assert(covered_val(fin, q) == Some(f.1));
                    } else {
                        let f = rf.unwrap();
                        assert(f.0.contains_pos(q));
                        if m != j2 - 1 {
                            lemma_entries_sorted(s, if m < j2 - 1 { m } else { j2 - 1 }, if m < j2
                                - 1 {
                                j2 - 1
                            } else {
                                m
                            });
                            assert(false);
                        }
                        if let Some(g) = lf {
                            assert(!g.0.contains_pos(q));
                        }
                        assert(!cur.contains_pos(q)) by {
                            assert(cur.end == r.end);
                            assert(q >= end_pos(r.end) + 1);
                        }
                        assert(covered_val(fin, q) == Some(f.1));
                    }
                }
            } else {
                // `q` is covered, if at all, only by the suffix.
                lemma_covered_exists(part, q);
                assert(covered_val(s, q) == covered_val(tail, q));
                if let Some(f) = lf {
                    if f.0.contains_pos(q) {
                        assert(part[0] == s[j]);
                        assert(false);
                    }
                }
                assert(!cur.contains_pos(q)) by {
                    if cur.contains_pos(q) {
                        assert(in_merged(s, j, j2, r, v, q));
                        let m = choose|m: int|
                            j <= m < j2 && (#[trigger] s[m]).1 == v && s[m].0.contains_pos(q);
                        assert(part[m - j] == s[m]);
                        assert(false);
                    }
                }
                if let Some(f) = rf {
                    if f.0.contains_pos(q) {
                        assert(part[j2 - 1 - j] == s[j2 - 1]);
                        assert(false);
                    }
                }
                assert(covered_val(fin, q) == covered_val(tail, q));
            }
        }
    }
}

/// The state of the insertion pass once it has scanned past the last
/// participating entry: `fin` — untouched prefix, left fragment, merged
/// span, right fragment, untouched suffix — is well formed and reads as
/// the old sequence overridden by `(r, v)` on `r`.
#[verifier::rlimit(100)]
#[verifier::spinoff_prover]
proof fn lemma_insert_assembly<V>(
    s: Seq<(Range, V)>,
    r: Range,
    v: V,
    j: int,
    j2: int,
    lf: Option<(Range, V)>,
    rf: Option<(Range, V)>,
    cur: Range,
    fin: Seq<(Range, V)>,
)
    requires
        entries_wf(s),
        r.wf(),
        0 <= j <= j2 <= s.len(),
        forall|m: int| 0 <= m < j ==> left_outside(#[trigger] s[m], r, v),
        forall|m: int| j <= m < j2 ==> participates(#[trigger] s[m], r, v),
        j2 < s.len() ==> !participates(s[j2], r, v),
        j < s.len() ==> !left_outside(s[j], r, v),
        start_pos(cur.start) <= start_pos(r.start),
        end_pos(r.end) <= end_pos(cur.end),
        cur.start == r.start || (j < j2 && s[j].1 == v && cur.start == s[j].0.start),
        cur.end == r.end || (exists|m: int|
            j <= m < j2 && (#[trigger] s[m]).1 == v && cur.end == s[m].0.end),
        forall|q: int| #[trigger] in_merged(s, j, j2, r, v, q) <==> cur.contains_pos(q),
        lf is Some <==> (j < j2 && s[j].1 != v && start_pos(s[j].0.start) < start_pos(r.start)),
        lf matches Some(f) ==> f.1 == s[j].1 && f.0.start == s[j].0.start && end_pos(f.0.end)
            == start_pos(r.start) - 1 && f.0.wf() && cur.start == r.start,
        rf is Some ==> j < j2 && s[j2 - 1].1 != v && end_pos(s[j2 - 1].0.end) > end_pos(r.end)
            && overlap(s[j2 - 1].0, r),
        rf matches Some(f) ==> f.1 == s[j2 - 1].1 && f.0.end == s[j2 - 1].0.end && start_pos(
            f.0.start,
        ) == end_pos(r.end) + 1 && f.0.wf() && cur.end == r.end,
        j < j2 ==> (end_pos(s[j2 - 1].0.end) <= end_pos(cur.end) || rf is Some),
        forall|m: int, q: int|
            j <= m < j2 && (#[trigger] s[m]).1 != v && #[trigger] s[m].0.contains_pos(q)
                ==> r.contains_pos(q) || (lf matches Some(f) && f.0.contains_pos(q)) || (
            rf matches Some(f) && f.0.contains_pos(q)),
        fin == s.subrange(0, j) + opt_seq(lf) + seq![(cur, v)] + opt_seq(rf) + s.subrange(
            j2,
            s.len() as int,
        ),
    ensures
        entries_wf(fin),
        forall|q: int| r.contains_pos(q) ==> #[trigger] covered_val(fin, q) == Some(v),
        forall|q: int|
            !r.contains_pos(q) ==> #[trigger] covered_val(fin, q) == covered_val(s, q),
{
    let pre = s.subrange(0, j);
    let lfs = opt_seq(lf);
    let midv = seq![(cur, v)];
    let rfs = opt_seq(rf);
    let tail = s.subrange(j2, s.len() as int);
    assert(cur.wf());

    // Facts about participants.
    assert forall|m: int| j <= m < j2 implies start_pos((#[trigger] s[m]).0.start) <= end_pos(
        r.end,
    ) + 1 && end_pos(s[m].0.end) + 1 >= start_pos(r.start) by {
        assert(participates(s[m], r, v));
    }

    // --- Well-formedness of the assembled sequence. ---
    lemma_wf_subrange(s, 0, j);
    lemma_wf_subrange(s, j2, s.len() as int);
    lemma_wf_subrange(s, j, j2);
    lemma_wf_singleton((cur, v));
    if let Some(f) = lf {
        lemma_wf_singleton(f);
    }
    if let Some(f) = rf {
        lemma_wf_singleton(f);
    }

    // Seam between the merged span and the suffix.
    if j2 < s.len() {
        let nxt = s[j2];
        if rf is None {
            if cur.end == r.end {
                // `nxt` does not even touch `r` with an equal value, and
                // does not overlap it.
                if j2 == j {
                    assert(!left_outside(nxt, r, v));
                } else {
                    lemma_later_participant_starts_within(s, r, v, j2);
                    assert(end_pos(nxt.0.end) >= end_pos(s[j2 - 1].0.end));
                }
                assert(end_pos(nxt.0.end) >= start_pos(r.start));
                assert(!overlap(nxt.0, r));
                assert(start_pos(nxt.0.start) > end_pos(r.end));
                if start_pos(nxt.0.start) == end_pos(cur.end) + 1 {
                    assert(touch(nxt.0, r));
                    assert(nxt.1 != v);
                }
            } else {
                let m = choose|m: int|
                    j <= m < j2 && (#[trigger] s[m]).1 == v && cur.end == s[m].0.end;
                if m < j2 - 1 {
                    lemma_entries_sorted(s, m, j2 - 1);
                }
                assert(end_pos(cur.end) <= end_pos(s[j2 - 1].0.end));
                assert(start_pos(nxt.0.start) > end_pos(s[j2 - 1].0.end));
                if start_pos(nxt.0.start) == end_pos(cur.end) + 1 {
                    assert(end_pos(s[j2 - 1].0.end) == end_pos(cur.end));
                    assert(end_pos(s[j2 - 1].0.end) == end_pos(s[m].0.end));
                    if m < j2 - 1 {
                        lemma_entries_sorted(s, m, j2 - 1);
                        assert(false);
                    }
                    assert(s[j2 - 1].1 == v);
                    assert(nxt.1 != v);
                }
            }
        }
    }

    let w4 = rfs + tail;
    lemma_wf_concat(rfs, tail);
    let w3 = midv + w4;
    if w4.len() > 0 {
        if let Some(f) = rf {
            assert(w4.first() == f);
        } else {
            assert(w4.first() == s[j2]);
        }
    }
    lemma_wf_concat(midv, w4);
    let w2 = lfs + w3;
    assert(w3.first() == (cur, v));
    if let Some(f) = lf {
        assert(end_pos(f.0.end) + 1 == start_pos(cur.start));
        assert(f.1 != v);
    }
    lemma_wf_concat(lfs, w3);
    let w1 = pre + w2;
    if pre.len() > 0 && w2.len() > 0 {
        assert(pre.last() == s[j - 1]);
        assert(left_outside(s[j - 1], r, v));
        if let Some(f) = lf {
            assert(w2.first() == f);
            assert(end_pos(s[j - 1].0.end) < start_pos(s[j].0.start));
        } else {
            assert(w2.first() == (cur, v));
            if cur.start != r.start {
                assert(j < j2 && s[j].1 == v && cur.start == s[j].0.start);
                assert(end_pos(s[j - 1].0.end) < start_pos(s[j].0.start));
            }
        }
    }
    lemma_wf_concat(pre, w2);
    assert(fin =~= pre + w2);
    assert(entries_wf(fin));

    // --- Pointwise reading of the assembled sequence. ---
    assert forall|q: int| r.contains_pos(q) implies #[trigger] covered_val(fin, q) == Some(
        v,
    ) by {
        lemma_insert_read(s, r, v, j, j2, lf, rf, cur, fin, q);
    }
    assert forall|q: int| !r.contains_pos(q) implies #[trigger] covered_val(fin, q)
        == covered_val(s, q) by {
        lemma_insert_read(s, r, v, j, j2, lf, rf, cur, fin, q);
    }
}

/// Rebuild the entry sequence for an insertion of `(r, value)`.
///
/// One pass over the sorted entries: entries wholly before `r` are kept;
/// entries that overlap `r`, or touch it with an equal value, are merged
/// into one maximal span (keeping the outer parts of differently-valued
/// entries as fragments); entries wholly after are kept.
pub(crate) fn insert_entries<V: ValueEq>(
    entries: &Vec<(Range, V)>,
    r: Range,
    value: V,
) -> (out: Vec<(Range, V)>)
    requires
        entries_wf(entries@),
        r.wf(),
    ensures
        entries_wf(out@),
        forall|q: int| r.contains_pos(q) ==> #[trigger] covered_val(out@, q) == Some(value),
        forall|q: int|
            !r.contains_pos(q) ==> #[trigger] covered_val(out@, q) == covered_val(entries@, q),
{
    let ghost s = entries@;
    let ghost gv = value;
    let n = entries.len();
    let mut out: Vec<(Range, V)> = Vec::new();
    let mut i: usize = 0;

    // Entries wholly before `r` that take no part in the insertion.
    while i < n && check_left_outside(&entries[i], &r, &value)
        invariant
            i <= n,
            n == s.len(),
            entries@ == s,
            entries_wf(s),
            r.wf(),
            gv == value,
            out@ =~= s.subrange(0, i as int),
            forall|m: int| 0 <= m < i ==> left_outside(#[trigger] s[m], r, value),
        decreases n - i,
    {
        let e = &entries[i];
        out.push((e.0, e.1.dup()));
        i += 1;
    }
    let ghost j = i as int;

    // Entries taking part: grow the merged span, keep the outer parts of
    // differently-valued entries as fragments.
    let mut cur_start = r.start;
    let mut cur_end = r.end;
    let mut left_frag: Option<(Range, V)> = None;
    let mut right_frag: Option<(Range, V)> = None;
    proof {
        assert forall|q: int| #[trigger] in_merged(s, j, j, r, value, q) implies (start_pos(
            cur_start,
        ) <= q <= end_pos(cur_end)) by {
            if !r.contains_pos(q) {
                let m = choose|m: int|
                    j <= m < j && (#[trigger] s[m]).1 == value && s[m].0.contains_pos(q);
                assert(false);
            }
        }
    }
    while i < n && check_participates(&entries[i], &r, &value)
        invariant
            0 <= j <= i as int <= n,
            n == s.len(),
            entries@ == s,
            entries_wf(s),
            r.wf(),
            gv == value,
            out@ =~= s.subrange(0, j),
            forall|m: int| 0 <= m < j ==> left_outside(#[trigger] s[m], r, value),
            j < n ==> !left_outside(s[j], r, value),
            forall|m: int| j <= m < i as int ==> participates(#[trigger] s[m], r, value),
            start_pos(cur_start) <= start_pos(r.start),
            end_pos(r.end) <= end_pos(cur_end),
            cur_start == r.start || (j < i as int && s[j].1 == value && cur_start
                == s[j].0.start),
            cur_end == r.end || (exists|m: int|
                j <= m < i as int && (#[trigger] s[m]).1 == value && cur_end == s[m].0.end),
            forall|q: int| #[trigger] in_merged(s, j, i as int, r, value, q) <==> (start_pos(
                cur_start,
            ) <= q <= end_pos(cur_end)),
            left_frag is Some <==> (j < i as int && s[j].1 != value && start_pos(s[j].0.start)
                < start_pos(r.start)),
            left_frag matches Some(f) ==> f.1 == s[j].1 && f.0.start == s[j].0.start && end_pos(
                f.0.end,
            ) == start_pos(r.start) - 1 && f.0.wf() && cur_start == r.start,
            right_frag is Some ==> j < i as int && s[i as int - 1].1 != value && end_pos(
                s[i as int - 1].0.end,
            ) > end_pos(r.end) && overlap(s[i as int - 1].0, r),
            right_frag matches Some(f) ==> f.1 == s[i as int - 1].1 && f.0.end == s[i as int
                - 1].0.end && start_pos(f.0.start) == end_pos(r.end) + 1 && f.0.wf() && cur_end
                == r.end,
            j < i as int ==> (end_pos(s[i as int - 1].0.end) <= end_pos(cur_end) || right_frag
                is Some),
            forall|m: int, q: int|
                j <= m < i as int && (#[trigger] s[m]).1 != value && #[trigger] s[
                    m
                ].0.contains_pos(q) ==> r.contains_pos(q) || (left_frag matches Some(f)
                && f.0.contains_pos(q)) || (right_frag matches Some(f) && f.0.contains_pos(q)),
        decreases n - i,
    {
        proof {
            // The scan cannot continue past a right fragment.
            if right_frag is Some {
                lemma_nonlast_participant_ends_within(s, r, value, i as int - 1, i as int);
                assert(false);
            }
        }
        let ghost ocs = cur_start;
        let ghost oce = cur_end;
        let e = &entries[i];
        if e.1.eq_value(&value) {
            // Merge an equal-valued entry into the span.
            if !start_le_start(&cur_start, &e.0.start) {
                proof {
                    if i as int > j {
                        lemma_later_participant_starts_within(s, r, value, i as int);
                        assert(false);
                    }
                }
                cur_start = e.0.start;
            }
            if !end_le_end(&e.0.end, &cur_end) {
                cur_end = e.0.end;
            }
            proof {
                assert(touch(s[i as int].0, r));
                assert forall|q: int| #[trigger] in_merged(s, j, i as int + 1, r, value, q)
                    implies (start_pos(cur_start) <= q <= end_pos(cur_end)) by {
                    if !r.contains_pos(q) {
                        let m = choose|m: int|
                            j <= m < i as int + 1 && (#[trigger] s[m]).1 == value
                                && s[m].0.contains_pos(q);
                        if m < i as int {
                            assert(in_merged(s, j, i as int, r, value, q));
                            assert(start_pos(ocs) <= q <= end_pos(oce));
                        }
                    }
                }
                assert forall|q: int|
                    (start_pos(cur_start) <= q <= end_pos(cur_end)) implies #[trigger] in_merged(
                    s,
                    j,
                    i as int + 1,
                    r,
                    value,
                    q,
                ) by {
                    if start_pos(ocs) <= q <= end_pos(oce) {
                        assert(in_merged(s, j, i as int, r, value, q));
                        if !r.contains_pos(q) {
                            let m = choose|m: int|
                                j <= m < i as int && (#[trigger] s[m]).1 == value
                                    && s[m].0.contains_pos(q);
                            assert(j <= m < i as int + 1 && s[m].1 == value
                                && s[m].0.contains_pos(q));
                        }
                    } else {
                        assert(s[i as int].0.contains_pos(q));
                    }
                }
            }
        } else {
            // A differently-valued entry must overlap; keep its outer
            // parts.
            proof {
                assert(overlap(s[i as int].0, r));
            }
            if !start_le_start(&r.start, &e.0.start) {
                proof {
                    if i as int > j {
                        lemma_later_participant_starts_within(s, r, value, i as int);
                        assert(false);
                    }
                }
                let fe = r.start.before();
                left_frag = Some((Range { start: e.0.start, end: fe.unwrap() }, e.1.dup()));
            }
            if !end_le_end(&e.0.end, &r.end) {
                proof {
                    if cur_end != r.end {
                        let m = choose|m: int|
                            j <= m < i as int && (#[trigger] s[m]).1 == value && cur_end
                                == s[m].0.end;
                        lemma_nonlast_participant_ends_within(s, r, value, m, i as int);
                        crate::bounds::lemma_end_pos_injective(cur_end, r.end);
                    }
                }
                let fs = r.end.after();
                right_frag = Some((Range { start: fs.unwrap(), end: e.0.end }, e.1.dup()));
            }
            proof {
                // The merged span is unchanged.
                assert forall|q: int| #[trigger] in_merged(s, j, i as int + 1, r, value, q)
                    <==> in_merged(s, j, i as int, r, value, q) by {
                    if in_merged(s, j, i as int + 1, r, value, q) && !r.contains_pos(q) {
                        let m = choose|m: int|
                            j <= m < i as int + 1 && (#[trigger] s[m]).1 == value
                                && s[m].0.contains_pos(q);
                        assert(m < i as int);
                        assert(in_merged(s, j, i as int, r, value, q));
                    }
                    if in_merged(s, j, i as int, r, value, q) && !r.contains_pos(q) {
                        let m = choose|m: int|
                            j <= m < i as int && (#[trigger] s[m]).1 == value
                                && s[m].0.contains_pos(q);
                        assert(j <= m < i as int + 1 && s[m].1 == value && s[m].0.contains_pos(
                            q,
                        ));
                    }
                }
                // Every part of the new entry is accounted for.
                assert forall|q: int| #[trigger] s[i as int].0.contains_pos(q) implies
                    r.contains_pos(q) || (left_frag matches Some(f) && f.0.contains_pos(q)) || (
                right_frag matches Some(f) && f.0.contains_pos(q)) by {
                    if q < start_pos(r.start) {
                        if i as int > j {
                            lemma_later_participant_starts_within(s, r, value, i as int);
                        }
                        assert(start_pos(s[i as int].0.start) < start_pos(r.start));
                    } else if q > end_pos(r.end) {
                        assert(end_pos(s[i as int].0.end) > end_pos(r.end));
                    }
                }
            }
        }
        i += 1;
    }
    let ghost j2 = i as int;
    let ghost lfg = left_frag;
    let ghost rfg = right_frag;

    // Assemble: left fragment, merged span, right fragment.
    if let Some(f) = left_frag {
        out.push(f);
    }
    let merged = Range { start: cur_start, end: cur_end };
    out.push((merged, value));
    if let Some(f) = right_frag {
        out.push(f);
    }
    let ghost base = out@;
    let ghost fin = s.subrange(0, j) + opt_seq(lfg) + seq![(merged, gv)] + opt_seq(rfg)
        + s.subrange(j2, n as int);
    proof {
        assert(base =~= s.subrange(0, j) + opt_seq(lfg) + seq![(merged, gv)] + opt_seq(rfg));
        assert(fin =~= base + s.subrange(j2, n as int));
        lemma_insert_assembly(s, r, gv, j, j2, lfg, rfg, merged, fin);
    }

    // Entries wholly after the merged span.
    while i < n
        invariant
            0 <= j2 <= i as int <= n,
            n == s.len(),
            entries@ == s,
            out@ =~= base + s.subrange(j2, i as int),
            fin == base + s.subrange(j2, n as int),
            entries_wf(fin),
            forall|q: int| r.contains_pos(q) ==> #[trigger] covered_val(fin, q) == Some(gv),
            forall|q: int|
                !r.contains_pos(q) ==> #[trigger] covered_val(fin, q) == covered_val(s, q),
        decreases n - i,
    {
        let e = &entries[i];
        out.push((e.0, e.1.dup()));
        i += 1;
    }
    proof {
        assert(out@ =~= fin);
        assert(out@ == fin);
    }
    out
}

/// Reading the sequence assembled by a removal at one position `q`:
/// inside `r` nothing is left, outside it reads as the old sequence.
#[verifier::rlimit(100)]
#[verifier::spinoff_prover]
proof fn lemma_remove_read<V>(
    s: Seq<(Range, V)>,
    r: Range,
    j: int,
    j2: int,
    lf: Option<(Range, V)>,
    rf: Option<(Range, V)>,
    fin: Seq<(Range, V)>,
    q: int,
)
    requires
        entries_wf(s),
        r.wf(),
        0 <= j <= j2 <= s.len(),
        forall|m: int| 0 <= m < j ==> end_pos((#[trigger] s[m]).0.end) < start_pos(r.start),
        j < s.len() ==> end_pos(s[j].0.end) >= start_pos(r.start),
        forall|m: int| j <= m < j2 ==> overlap((#[trigger] s[m]).0, r),
        j2 < s.len() ==> !overlap(s[j2].0, r),
        lf is Some <==> (j < j2 && start_pos(s[j].0.start) < start_pos(r.start)),
        lf matches Some(f) ==> f.1 == s[j].1 && f.0.start == s[j].0.start && end_pos(f.0.end)
            == start_pos(r.start) - 1 && f.0.wf(),
        rf is Some <==> (j < j2 && end_pos(s[j2 - 1].0.end) > end_pos(r.end)),
        rf matches Some(f) ==> f.1 == s[j2 - 1].1 && f.0.end == s[j2 - 1].0.end && start_pos(
            f.0.start,
        ) == end_pos(r.end) + 1 && f.0.wf(),
        fin == s.subrange(0, j) + opt_seq(lf) + opt_seq(rf) + s.subrange(j2, s.len() as int),
    ensures
        r.contains_pos(q) ==> covered_val(fin, q) is None,
        !r.contains_pos(q) ==> covered_val(fin, q) == covered_val(s, q),
{
    let pre = s.subrange(0, j);
    let lfs = opt_seq(lf);
    let rfs = opt_seq(rf);
    let tail = s.subrange(j2, s.len() as int);
    let part = s.subrange(j, j2);

    lemma_covered_concat(pre, lfs, q);
    lemma_covered_concat(pre + lfs, rfs, q);
    lemma_covered_concat(pre + lfs + rfs, tail, q);
    assert(s =~= pre + part + tail);
    lemma_covered_concat(pre, part, q);
    lemma_covered_concat(pre + part, tail, q);
    if let Some(f) = lf {
        lemma_covered_singleton(f, q);
        // The left fragment lies inside `s[j]`.
        if f.0.contains_pos(q) {
            assert(overlap(s[j].0, r));
            assert(s[j].0.contains_pos(q));
        }
    }
    if let Some(f) = rf {
        lemma_covered_singleton(f, q);
        // The right fragment lies inside `s[j2 - 1]`.
        if f.0.contains_pos(q) {
            assert(overlap(s[j2 - 1].0, r));
            assert(s[j2 - 1].0.contains_pos(q));
        }
    }
    lemma_wf_subrange(s, j, j2);

    if r.contains_pos(q) {
        assert forall|m: int| 0 <= m < fin.len() implies !(#[trigger] fin[m]).0.contains_pos(
            q,
        ) by {
            let pl = pre.len() + lfs.len();
            let plr = pl + rfs.len();
            if m < pre.len() {
                assert(fin[m] == s[m]);
            } else if m < pl {
                assert(fin[m] == lf->0);
            } else if m < plr {
                assert(fin[m] == rf->0);
            } else {
                let mt = m - plr + j2;
                assert(fin[m] == s[mt]);
                // Suffix entries start past the end of `r`.
                if mt > j2 {
                    lemma_entries_sorted(s, j2, mt);
                }
                assert(start_pos(s[j2].0.start) > end_pos(r.end)) by {
                    if j2 == j {
                        assert(end_pos(s[j2].0.end) >= start_pos(r.start));
                    } else {
                        assert(overlap(s[j2 - 1].0, r));
                        lemma_entries_sorted(s, j2 - 1, j2);
                    }
                    assert(!overlap(s[j2].0, r));
                }
            }
        }
        lemma_covered_exists(fin, q);
    } else {
        if covered_val(pre, q) is Some {
            assert(covered_val(fin, q) == covered_val(pre, q));
            assert(covered_val(s, q) == covered_val(pre, q));
        } else if covered_val(part, q) is Some {
            lemma_covered_exists(part, q);
            let mp = choose|mp: int| 0 <= mp < part.len() && (#[trigger] part[mp]).0.contains_pos(q);
            let m = j + mp;
            assert(part[mp] == s[m]);
            lemma_covered_at(part, q, mp);
            assert(covered_val(s, q) == Some(s[m].1));
            if q < start_pos(r.start) {
                // Only the first overlapping entry reaches left of `r`.
                if m > j {
                    assert(overlap(s[m - 1].0, r));
                    assert(end_pos(s[m - 1].0.end) < start_pos(s[m].0.start));
                    assert(false);
                }
                assert(lf is Some);
                let f = lf->0;
                assert(f.0.contains_pos(q));
                assert(covered_val(fin, q) == Some(f.1));
            } else {
                // `q` lies past the end of `r`; only the last overlapping
                // entry reaches there.
                assert(q > end_pos(r.end));
                if m < j2 - 1 {
                    assert(overlap(s[m + 1].0, r));
                    assert(end_pos(s[m].0.end) < start_pos(s[m + 1].0.start));
                    assert(false);
                }
                assert(m == j2 - 1);
                assert(rf is Some);
                let f = rf->0;
                assert(f.0.contains_pos(q));
                if let Some(g) = lf {
                    assert(!g.0.contains_pos(q));
                }
                assert(covered_val(fin, q) == Some(f.1));
            }
        } else {
            lemma_covered_exists(part, q);
            assert(covered_val(s, q) == covered_val(tail, q));
            if let Some(f) = lf {
                if f.0.contains_pos(q) {
                    assert(part[0] == s[j]);
                    assert(false);
                }
            }
            if let Some(f) = rf {
                if f.0.contains_pos(q) {
                    assert(part[j2 - 1 - j] == s[j2 - 1]);
                    assert(false);
                }
            }
            assert(covered_val(fin, q) == covered_val(tail, q));
        }
    }
}

/// The state of the removal pass once it has scanned past the last
/// overlapping entry: `fin` — untouched prefix, the kept outer fragments,
/// untouched suffix — is well formed and reads as the old sequence with
/// `r` blanked out.
#[verifier::rlimit(100)]
#[verifier::spinoff_prover]
proof fn lemma_remove_assembly<V>(
    s: Seq<(Range, V)>,
    r: Range,
    j: int,
    j2: int,
    lf: Option<(Range, V)>,
    rf: Option<(Range, V)>,
    fin: Seq<(Range, V)>,
)
    requires
        entries_wf(s),
        r.wf(),
        0 <= j <= j2 <= s.len(),
        forall|m: int| 0 <= m < j ==> end_pos((#[trigger] s[m]).0.end) < start_pos(r.start),
        j < s.len() ==> end_pos(s[j].0.end) >= start_pos(r.start),
        forall|m: int| j <= m < j2 ==> overlap((#[trigger] s[m]).0, r),
        j2 < s.len() ==> !overlap(s[j2].0, r),
        lf is Some <==> (j < j2 && start_pos(s[j].0.start) < start_pos(r.start)),
        lf matches Some(f) ==> f.1 == s[j].1 && f.0.start == s[j].0.start && end_pos(f.0.end)
            == start_pos(r.start) - 1 && f.0.wf(),
        rf is Some <==> (j < j2 && end_pos(s[j2 - 1].0.end) > end_pos(r.end)),
        rf matches Some(f) ==> f.1 == s[j2 - 1].1 && f.0.end == s[j2 - 1].0.end && start_pos(
            f.0.start,
        ) == end_pos(r.end) + 1 && f.0.wf(),
        fin == s.subrange(0, j) + opt_seq(lf) + opt_seq(rf) + s.subrange(j2, s.len() as int),
    ensures
        entries_wf(fin),
        forall|q: int| r.contains_pos(q) ==> #[trigger] covered_val(fin, q) is None,
        forall|q: int|
            !r.contains_pos(q) ==> #[trigger] covered_val(fin, q) == covered_val(s, q),
{
    let pre = s.subrange(0, j);
    let lfs = opt_seq(lf);
    let rfs = opt_seq(rf);
    let tail = s.subrange(j2, s.len() as int);

    lemma_wf_subrange(s, 0, j);
    lemma_wf_subrange(s, j2, s.len() as int);
    if let Some(f) = lf {
        lemma_wf_singleton(f);
    }
    if let Some(f) = rf {
        lemma_wf_singleton(f);
    }

    // Seams.
    let w3 = rfs + tail;
    if rfs.len() > 0 && tail.len() > 0 {
        let f = rf->0;
        assert(w3.first() == f);
        assert(end_pos(f.0.end) == end_pos(s[j2 - 1].0.end));
    }
    lemma_wf_concat(rfs, tail);
    let w2 = lfs + w3;
    if lfs.len() > 0 && w3.len() > 0 {
        let f = lf->0;
        if rfs.len() > 0 {
            assert(w3.first() == rf->0);
            // The two fragments flank the removed range and never meet.
            assert(end_pos(f.0.end) + 1 < start_pos((rf->0).0.start));
        } else {
            assert(w3.first() == s[j2]);
            // The suffix starts past the removed range.
            assert(overlap(s[j2 - 1].0, r));
            lemma_entries_sorted(s, j2 - 1, j2);
            assert(start_pos(s[j2].0.start) > end_pos(f.0.end) + 1);
        }
    }
    lemma_wf_concat(lfs, w3);
    let w1 = pre + w2;
    if pre.len() > 0 && w2.len() > 0 {
        assert(pre.last() == s[j - 1]);
        if lfs.len() > 0 {
            assert(w2.first() == lf->0);
            assert((lf->0).0.start == s[j].0.start);
            assert(end_pos(s[j - 1].0.end) < start_pos(s[j].0.start));
        } else if rfs.len() > 0 {
            assert(w2.first() == rf->0);
            assert(end_pos(s[j - 1].0.end) + 1 < start_pos((rf->0).0.start));
        } else {
            assert(w2.first() == s[j2]);
            if j2 > j {
                lemma_entries_sorted(s, j - 1, j2);
                assert(overlap(s[j2 - 1].0, r));
                lemma_entries_sorted(s, j2 - 1, j2);
                assert(start_pos(s[j2].0.start) > end_pos(s[j - 1].0.end) + 1);
            }
        }
    }
    lemma_wf_concat(pre, w2);
    assert(fin =~= pre + w2);
    assert(entries_wf(fin));

    assert forall|q: int| r.contains_pos(q) implies #[trigger] covered_val(fin, q) is None by {
        lemma_remove_read(s, r, j, j2, lf, rf, fin, q);
    }
    assert forall|q: int| !r.contains_pos(q) implies #[trigger] covered_val(fin, q)
        == covered_val(s, q) by {
        lemma_remove_read(s, r, j, j2, lf, rf, fin, q);
    }
}

/// Rebuild the entry sequence for a removal of `r`.
///
/// One pass over the sorted entries: entries wholly before `r` are kept;
/// entries overlapping `r` are trimmed to the parts outside it, which
/// splits an entry that strictly contains `r` in two; entries wholly
/// after are kept.
pub(crate) fn remove_entries<V: ValueEq>(entries: &Vec<(Range, V)>, r: Range) -> (out: Vec<
    (Range, V),
>)
    requires
        entries_wf(entries@),
        r.wf(),
    ensures
        entries_wf(out@),
        forall|q: int| r.contains_pos(q) ==> #[trigger] covered_val(out@, q) is None,
        forall|q: int|
            !r.contains_pos(q) ==> #[trigger] covered_val(out@, q) == covered_val(entries@, q),
{
    let ghost s = entries@;
    let n = entries.len();
    let mut out: Vec<(Range, V)> = Vec::new();
    let mut i: usize = 0;

    // Entries wholly before `r`.
    while i < n && !start_le_end(&r.start, &entries[i].0.end)
        invariant
            i <= n,
            n == s.len(),
            entries@ == s,
            entries_wf(s),
            r.wf(),
            out@ =~= s.subrange(0, i as int),
            forall|m: int| 0 <= m < i ==> end_pos((#[trigger] s[m]).0.end) < start_pos(r.start),
        decreases n - i,
    {
        let e = &entries[i];
        out.push((e.0, e.1.dup()));
        i += 1;
    }
    let ghost j = i as int;

    // Entries overlapping `r`: keep their outer parts.
    let mut left_frag: Option<(Range, V)> = None;
    let mut right_frag: Option<(Range, V)> = None;
    while i < n && entries[i].0.overlaps(&r)
        invariant
            0 <= j <= i as int <= n,
            n == s.len(),
            entries@ == s,
            entries_wf(s),
            r.wf(),
            out@ =~= s.subrange(0, j),
            forall|m: int| 0 <= m < j ==> end_pos((#[trigger] s[m]).0.end) < start_pos(r.start),
            j < n ==> end_pos(s[j].0.end) >= start_pos(r.start),
            forall|m: int| j <= m < i as int ==> overlap((#[trigger] s[m]).0, r),
            left_frag is Some <==> (j < i as int && start_pos(s[j].0.start) < start_pos(
                r.start,
            )),
            left_frag matches Some(f) ==> f.1 == s[j].1 && f.0.start == s[j].0.start && end_pos(
                f.0.end,
            ) == start_pos(r.start) - 1 && f.0.wf(),
            right_frag is Some <==> (j < i as int && end_pos(s[i as int - 1].0.end)
                > end_pos(r.end)),
            right_frag matches Some(f) ==> f.1 == s[i as int - 1].1 && f.0.end == s[i as int
                - 1].0.end && start_pos(f.0.start) == end_pos(r.end) + 1 && f.0.wf(),
        decreases n - i,
    {
        proof {
            // The scan cannot continue past a right fragment.
            if right_frag is Some {
                assert(end_pos(s[i as int - 1].0.end) < start_pos(s[i as int].0.start));
                assert(false);
            }
        }
        let e = &entries[i];
        if !start_le_start(&r.start, &e.0.start) {
            proof {
                if i as int > j {
                    assert(overlap(s[i as int - 1].0, r));
                    assert(end_pos(s[i as int - 1].0.end) < start_pos(s[i as int].0.start));
                    assert(false);
                }
            }
            let fe = r.start.before();
            left_frag = Some((Range { start: e.0.start, end: fe.unwrap() }, e.1.dup()));
        }
        if !end_le_end(&e.0.end, &r.end) {
            let fs = r.end.after();
            right_frag = Some((Range { start: fs.unwrap(), end: e.0.end }, e.1.dup()));
        }
        i += 1;
    }
    let ghost j2 = i as int;
    let ghost lfg = left_frag;
    let ghost rfg = right_frag;

    if let Some(f) = left_frag {
        out.push(f);
    }
    if let Some(f) = right_frag {
        out.push(f);
    }
    let ghost base = out@;
    let ghost fin = s.subrange(0, j) + opt_seq(lfg) + opt_seq(rfg) + s.subrange(j2, n as int);
    proof {
        assert(base =~= s.subrange(0, j) + opt_seq(lfg) + opt_seq(rfg));
        assert(fin =~= base + s.subrange(j2, n as int));
        lemma_remove_assembly(s, r, j, j2, lfg, rfg, fin);
    }

    // Entries wholly after `r`.
    while i < n
        invariant
            0 <= j2 <= i as int <= n,
            n == s.len(),
            entries@ == s,
            out@ =~= base + s.subrange(j2, i as int),
            fin == base + s.subrange(j2, n as int),
            entries_wf(fin),
            forall|q: int| r.contains_pos(q) ==> #[trigger] covered_val(fin, q) is None,
            forall|q: int|
                !r.contains_pos(q) ==> #[trigger] covered_val(fin, q) == covered_val(s, q),
        decreases n - i,
    {
        let e = &entries[i];
        out.push((e.0, e.1.dup()));
        i += 1;
    }
    proof {
        assert(out@ =~= fin);
        assert(out@ == fin);
    }
    out
}

} // verus!
