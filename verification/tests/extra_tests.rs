use rangemap::{Bound, EmptyRangeError, Range, RangeMap};

// Check the partition invariant through the public API: stored ranges
// pairwise non-overlapping and never touching with equal values.
fn check_invariant<V: rangemap::ValueEq + PartialEq>(map: &RangeMap<V>) {
    let entries = map.to_vec();
    for w in entries.windows(2) {
        let (a, av) = &w[0];
        let (b, bv) = &w[1];
        assert!(!a.overlaps(b));
        if a.touches(b) {
            assert!(av != bv);
        }
    }
}

#[test]
fn inserted_values_are_readable_at_every_point() {
    let mut map: RangeMap<u32> = RangeMap::new();
    map.insert(Range::from(10..20), 7);
    for p in 10..20u32 {
        assert_eq!(map.get(&p), Some(&7));
    }
    assert_eq!(map.get(&9), None);
    assert_eq!(map.get(&20), None);
}

#[test]
fn invariant_holds_after_mixed_mutations() {
    let mut map: RangeMap<bool> = RangeMap::new();
    let steps: Vec<(bool, u32, u32, bool)> = vec![
        (true, 2, 9, false),
        (true, 4, 6, true),
        (true, 6, 8, false),
        (false, 5, 7, false),
        (true, 0, 3, true),
        (false, 1, 2, false),
        (true, 7, 12, true),
        (true, 12, 14, true),
        (false, 0, 20, false),
        (true, 3, 4, false),
        (true, 4, 5, false),
    ];
    for (is_insert, a, b, v) in steps {
        if is_insert {
            map.insert(Range::from(a..b), v);
        } else {
            map.remove(Range::from(a..b));
        }
        check_invariant(&map);
    }
}

#[test]
fn insert_is_idempotent() {
    let mut map: RangeMap<bool> = RangeMap::new();
    map.insert(Range::from(1..5), true);
    map.insert(Range::from(4..9), false);
    let r = Range::from(3..7);
    map.insert(r, true);
    let once = map.to_vec();
    map.insert(r, true);
    let twice = map.to_vec();
    assert_eq!(once, twice);
}

#[test]
fn removed_points_read_absent_and_others_are_untouched() {
    let mut map: RangeMap<bool> = RangeMap::new();
    map.insert(Range::from(0..10), true);
    map.insert(Range::from(20..30), false);
    map.remove(Range::from(5..25));
    for p in 5..25u32 {
        assert_eq!(map.get(&p), None);
    }
    for p in 0..5u32 {
        assert_eq!(map.get(&p), Some(&true));
    }
    for p in 25..30u32 {
        assert_eq!(map.get(&p), Some(&false));
    }
}

#[test]
fn gaps_between_two_entries() {
    let mut map: RangeMap<()> = RangeMap::new();
    map.insert(Range::from(2..5), ());
    map.insert(Range::from(6..9), ());
    let mut gaps = map.gaps();
    assert_eq!(gaps.next(), Some(Range::from(5..6)));
    assert_eq!(gaps.next(), None);
    // The iterator is fused.
    assert_eq!(gaps.next(), None);
    assert_eq!(gaps.next(), None);
}

#[test]
fn gaps_of_empty_and_single_entry_maps() {
    let empty: RangeMap<()> = RangeMap::new();
    assert_eq!(empty.gaps().next(), None);

    let mut one: RangeMap<()> = RangeMap::new();
    one.insert(Range::from(3..7), ());
    assert_eq!(one.gaps().next(), None);
}

#[test]
fn adjacent_entries_leave_no_gap() {
    let mut map: RangeMap<bool> = RangeMap::new();
    map.insert(Range::from(1..3), false);
    map.insert(Range::from(3..5), true);
    assert_eq!(map.len(), 2);
    assert_eq!(map.gaps().next(), None);
}

#[test]
fn gap_around_an_excluded_point() {
    // (1, 4) and (4, 7): the single key 4 is uncovered, and the gap is
    // exactly the point [4, 4].
    let mut map: RangeMap<()> = RangeMap::new();
    let left = Range::new(Bound::Excluded(1), Bound::Excluded(4)).unwrap();
    let right = Range::new(Bound::Excluded(4), Bound::Excluded(7)).unwrap();
    map.insert(left, ());
    map.insert(right, ());
    assert_eq!(map.len(), 2);
    let mut gaps = map.gaps();
    assert_eq!(gaps.next(), Some(Range::point(4)));
    assert_eq!(gaps.next(), None);
}

#[test]
fn whole_outer_range_is_a_gap() {
    let map: RangeMap<()> = RangeMap::new();
    let mut gaps = map.gaps_in(Range::from(1..8));
    assert_eq!(gaps.next(), Some(Range::from(1..8)));
    assert_eq!(gaps.next(), None);
    assert_eq!(gaps.next(), None);
}

#[test]
fn outer_range_covered_exactly_has_no_gaps() {
    let mut map: RangeMap<()> = RangeMap::new();
    map.insert(Range::from(1..6), ());
    let mut gaps = map.gaps_in(Range::from(1..6));
    assert_eq!(gaps.next(), None);
    assert_eq!(gaps.next(), None);
}

#[test]
fn items_floating_inside_outer_range() {
    let mut map: RangeMap<()> = RangeMap::new();
    map.insert(Range::from(5..6), ());
    map.insert(Range::from(3..4), ());
    let mut gaps = map.gaps_in(Range::from(1..8));
    assert_eq!(gaps.next(), Some(Range::from(1..3)));
    assert_eq!(gaps.next(), Some(Range::from(4..5)));
    assert_eq!(gaps.next(), Some(Range::from(6..8)));
    assert_eq!(gaps.next(), None);
    assert_eq!(gaps.next(), None);
}

#[test]
fn item_outside_outer_range_leaves_it_whole() {
    let mut map: RangeMap<()> = RangeMap::new();
    map.insert(Range::from(1..3), ());
    let mut gaps = map.gaps_in(Range::from(5..8));
    assert_eq!(gaps.next(), Some(Range::from(5..8)));
    assert_eq!(gaps.next(), None);
}

#[test]
fn degenerate_outer_range_covered_by_touching_items() {
    // `4..4` normalizes to the point [4, 4], and both neighbours cover
    // nothing of it only if 4 itself is uncovered.
    let mut map: RangeMap<()> = RangeMap::new();
    map.insert(Range::from(2..4), ());
    map.insert(Range::from(4..6), ());
    let mut gaps = map.gaps_in(Range::from(4..4));
    assert_eq!(gaps.next(), None);
}

#[test]
fn degenerate_outer_range_away_from_items_is_its_own_gap() {
    let mut map: RangeMap<()> = RangeMap::new();
    map.insert(Range::from(1..3), ());
    map.insert(Range::from(5..7), ());
    let mut gaps = map.gaps_in(Range::from(4..4));
    assert_eq!(gaps.next(), Some(Range::point(4)));
    assert_eq!(gaps.next(), None);
}

#[test]
fn both_excluded_degenerate_pair_is_rejected() {
    assert_eq!(
        Range::new(Bound::Excluded(5), Bound::Excluded(5)),
        Err(EmptyRangeError)
    );
}

#[test]
fn backwards_bounds_are_swapped() {
    let r = Range::new(Bound::Included(7), Bound::Excluded(3)).unwrap();
    assert_eq!(r.start, Bound::Excluded(3));
    assert_eq!(r.end, Bound::Included(7));
}

#[test]
fn degenerate_pair_collapses_to_inclusive_point() {
    let r = Range::new(Bound::Included(4), Bound::Excluded(4)).unwrap();
    assert_eq!(r, Range::point(4));
    assert_eq!(Range::from(4..4), Range::point(4));
}

#[test]
fn full_range_spans_everything() {
    let r = Range::full();
    assert_eq!(r.start, Bound::Unbounded);
    assert_eq!(r.end, Bound::Unbounded);
    let mut map: RangeMap<bool> = RangeMap::new();
    map.insert(r, true);
    assert_eq!(map.get(&0), Some(&true));
    assert_eq!(map.get(&u32::MAX), Some(&true));
    assert_eq!(map.len(), 1);
}

#[test]
fn point_range_holds_one_key() {
    let mut map: RangeMap<bool> = RangeMap::new();
    map.insert(Range::point(5), true);
    assert_eq!(map.get(&4), None);
    assert_eq!(map.get(&5), Some(&true));
    assert_eq!(map.get(&6), None);
}

#[test]
fn largest_key_is_usable() {
    let mut map: RangeMap<bool> = RangeMap::new();
    map.insert(Range::point(u32::MAX), true);
    assert_eq!(map.get(&u32::MAX), Some(&true));
    assert_eq!(map.get(&(u32::MAX - 1)), None);
}

#[test]
fn start_and_end_values() {
    let bounded = Range::from(5..10);
    assert_eq!(bounded.start_value(), Some(5));
    assert_eq!(bounded.end_value(), Some(10));
    let unbounded = Range::full();
    assert_eq!(unbounded.start_value(), None);
    assert_eq!(unbounded.end_value(), None);
}

#[test]
fn shifts_move_bounded_sides_only() {
    let mut r = Range::from(5..10);
    r.shift(3);
    assert_eq!(r, Range::from(8..13));
    r.shift_left(4);
    assert_eq!(r, Range::from(4..9));
    r.shift_right(1);
    assert_eq!(r, Range::from(5..10));

    let mut half = Range::new(Bound::Unbounded, Bound::Excluded(10)).unwrap();
    half.shift_right(5);
    assert_eq!(half.start, Bound::Unbounded);
    assert_eq!(half.end, Bound::Excluded(15));
}

#[test]
fn overlaps_and_touches_cases() {
    let a = Range::from(1..3);
    let b = Range::from(3..5);
    let c = Range::from(2..4);
    let d = Range::from(7..9);
    // Adjacent half-open ranges touch but do not overlap.
    assert!(!a.overlaps(&b));
    assert!(a.touches(&b));
    // Overlapping ranges both overlap and touch.
    assert!(a.overlaps(&c));
    assert!(a.touches(&c));
    // Distant ranges do neither.
    assert!(!a.overlaps(&d));
    assert!(!a.touches(&d));
    // Two ranges separated by a single excluded point do not touch.
    let e = Range::new(Bound::Excluded(1), Bound::Excluded(4)).unwrap();
    let f = Range::new(Bound::Excluded(4), Bound::Excluded(7)).unwrap();
    assert!(!e.overlaps(&f));
    assert!(!e.touches(&f));
    // Inclusive ends meeting inclusive starts overlap.
    let g = Range::new(Bound::Included(1), Bound::Included(4)).unwrap();
    let h = Range::new(Bound::Included(4), Bound::Included(7)).unwrap();
    assert!(g.overlaps(&h));
}

#[test]
fn contains_key_respects_bound_kinds() {
    let r = Range::new(Bound::Excluded(2), Bound::Included(5)).unwrap();
    assert!(!r.contains_key(&2));
    assert!(r.contains_key(&3));
    assert!(r.contains_key(&5));
    assert!(!r.contains_key(&6));
}

#[test]
fn bound_value_and_adjacency_helpers() {
    assert_eq!(Bound::Included(3).value(), Some(3));
    assert_eq!(Bound::Excluded(3).value(), Some(3));
    assert_eq!(Bound::Unbounded.value(), None);
    assert_eq!(Bound::Included(3).before(), Some(Bound::Excluded(3)));
    assert_eq!(Bound::Excluded(3).before(), Some(Bound::Included(3)));
    assert_eq!(Bound::Unbounded.before(), None);
    assert_eq!(Bound::Included(3).after(), Some(Bound::Excluded(3)));
    assert_eq!(Bound::Excluded(3).after(), Some(Bound::Included(3)));
    assert_eq!(Bound::Unbounded.after(), None);
}

#[test]
fn unbounded_entries_merge_and_query() {
    let mut map: RangeMap<bool> = RangeMap::new();
    map.insert(Range::new(Bound::Unbounded, Bound::Excluded(5)).unwrap(), true);
    map.insert(Range::new(Bound::Included(5), Bound::Unbounded).unwrap(), true);
    // Adjacent unbounded halves with one value merge into the full range.
    assert_eq!(map.len(), 1);
    assert_eq!(map.to_vec(), vec![(Range::full(), true)]);
}

#[test]
fn len_and_is_empty_follow_mutations() {
    let mut map: RangeMap<bool> = RangeMap::new();
    assert!(map.is_empty());
    assert_eq!(map.len(), 0);
    map.insert(Range::from(1..3), true);
    assert!(!map.is_empty());
    assert_eq!(map.len(), 1);
    map.insert(Range::from(5..7), true);
    assert_eq!(map.len(), 2);
    map.remove(Range::from(0..10));
    assert!(map.is_empty());
}

#[test]
fn extend_applies_pairs_in_order() {
    let mut map: RangeMap<bool> = RangeMap::new();
    map.extend(vec![
        (Range::from(1..5), true),
        (Range::from(3..7), false),
    ]);
    assert_eq!(
        map.to_vec(),
        vec![(Range::from(1..3), true), (Range::from(3..7), false)]
    );
}

#[test]
fn from_entries_builds_by_insertion() {
    let map = RangeMap::from_entries(vec![
        (Range::from(1..3), false),
        (Range::from(3..5), false),
    ]);
    assert_eq!(map.to_vec(), vec![(Range::from(1..5), false)]);
}

#[test]
fn iter_walks_entries_in_order_from_both_ends() {
    let mut map: RangeMap<bool> = RangeMap::new();
    map.insert(Range::from(5..7), true);
    map.insert(Range::from(1..3), false);
    let mut it = map.iter();
    assert_eq!(it.len(), 2);
    assert_eq!(it.next(), Some((Range::from(1..3), false)));
    assert_eq!(it.next_back(), Some((Range::from(5..7), true)));
    assert_eq!(it.len(), 0);
    assert_eq!(it.next(), None);
    assert_eq!(it.next_back(), None);
}

#[test]
fn into_iter_consumes_in_order() {
    let mut map: RangeMap<bool> = RangeMap::new();
    map.insert(Range::from(1..3), false);
    map.insert(Range::from(3..5), true);
    let mut it = map.into_iter();
    assert_eq!(it.next(), Some((Range::from(1..3), false)));
    assert_eq!(it.next(), Some((Range::from(3..5), true)));
    assert_eq!(it.next(), None);
}

#[test]
fn ranges_and_values_project_entries() {
    let mut map: RangeMap<bool> = RangeMap::new();
    map.insert(Range::from(1..3), false);
    map.insert(Range::from(5..7), true);
    let mut rs = map.ranges();
    assert_eq!(rs.next(), Some(Range::from(1..3)));
    assert_eq!(rs.next(), Some(Range::from(5..7)));
    assert_eq!(rs.next(), None);
    let mut vs = map.values();
    assert_eq!(vs.next(), Some(false));
    assert_eq!(vs.next_back(), Some(true));
    assert_eq!(vs.next(), None);
}

#[test]
fn range_rendering_covers_all_bound_kinds() {
    assert_eq!(rangemap::render::range_repr(&Range::from(2..5)), "[2, 5)");
    assert_eq!(rangemap::render::range_repr(&Range::full()), "(-∞, ∞)");
    assert_eq!(rangemap::render::range_repr(&Range::point(7)), "[7, 7]");
    let r = Range::new(Bound::Excluded(10), Bound::Included(4294967295)).unwrap();
    assert_eq!(rangemap::render::range_repr(&r), "(10, 4294967295]");
}

#[test]
fn map_rendering_shows_values() {
    let mut map: RangeMap<bool> = RangeMap::new();
    map.insert(Range::from(1..3), false);
    map.insert(Range::from(4..6), true);
    assert_eq!(map.debug_repr(), "{[1, 3): false, [4, 6): true}");
    let mut counts: RangeMap<u32> = RangeMap::new();
    counts.insert(Range::from(0..10), 42);
    assert_eq!(counts.debug_repr(), "{[0, 10): 42}");
}
