use permutator::Permutation;
use rangemap::{Bound, Range, RangeMap};
use std::collections::BTreeMap;
use std::ops::RangeBounds;

fn to_vec<V: rangemap::ValueEq>(map: &RangeMap<V>) -> Vec<(Range, V)> {
    map.to_vec()
}

// A simple but infeasibly slow and memory-hungry
// version of `RangeMap` for testing.
#[derive(Eq, PartialEq, Debug)]
pub struct StupidU32RangeMap<V> {
    // Inner B-Tree map. Stores values and their keys
    // directly rather than as ranges.
    btm: BTreeMap<u32, V>,
}

impl<V> StupidU32RangeMap<V>
where
    V: Eq + Clone,
{
    pub fn new() -> StupidU32RangeMap<V> {
        StupidU32RangeMap { btm: BTreeMap::new() }
    }

    pub fn insert<R: RangeBounds<u32>>(&mut self, range: R, value: V) {
        let start = match range.start_bound() {
            std::ops::Bound::Unbounded => u32::MIN,
            std::ops::Bound::Included(&t) => t,
            std::ops::Bound::Excluded(&t) => t + 1,
        };
        let end = match range.end_bound() {
            std::ops::Bound::Unbounded => u32::MAX,
            std::ops::Bound::Included(&t) => t,
            std::ops::Bound::Excluded(&t) => t - 1,
        };
        for k in start..=end {
            self.btm.insert(k, value.clone());
        }
    }
}

fn std_bound(b: Bound) -> std::ops::Bound<u32> {
    match b {
        Bound::Unbounded => std::ops::Bound::Unbounded,
        Bound::Included(x) => std::ops::Bound::Included(x),
        Bound::Excluded(x) => std::ops::Bound::Excluded(x),
    }
}

impl<V> From<RangeMap<V>> for StupidU32RangeMap<V>
where
    V: Eq + Clone + rangemap::ValueEq,
{
    fn from(range_map: RangeMap<V>) -> Self {
        let mut stupid = Self::new();
        for (range, value) in range_map.to_vec() {
            stupid.insert((std_bound(range.start), std_bound(range.end)), value.clone());
        }
        stupid
    }
}

//
// Insertion tests
//

#[test]
fn empty_map_is_empty() {
    let range_map: RangeMap<bool> = RangeMap::new();
    assert_eq!(to_vec(&range_map), vec![]);
}

#[test]
fn insert_into_empty_map() {
    let mut range_map: RangeMap<bool> = RangeMap::new();
    range_map.insert(Range::from(0..50), false);
    assert_eq!(to_vec(&range_map), vec![(Range::from(0..50), false)]);
}

#[test]
fn new_same_value_immediately_following_stored() {
    let mut range_map: RangeMap<bool> = RangeMap::new();
    // 0 1 2 3 4 5 6 7 8 9
    // ◌ ●---◌ ◌ ◌ ◌ ◌ ◌ ◌
    range_map.insert(Range::from(1..3), false);
    // 0 1 2 3 4 5 6 7 8 9
    // ◌ ◌ ◌ ●---◌ ◌ ◌ ◌ ◌
    range_map.insert(Range::from(3..5), false);
    // 0 1 2 3 4 5 6 7 8 9
    // ◌ ●-------◌ ◌ ◌ ◌ ◌
    assert_eq!(to_vec(&range_map), vec![(Range::from(1..5), false)]);
}

#[test]
fn new_different_value_immediately_following_stored() {
    let mut range_map: RangeMap<bool> = RangeMap::new();
    range_map.insert(Range::from(1..3), false);
    range_map.insert(Range::from(3..5), true);
    assert_eq!(
        to_vec(&range_map),
        vec![(Range::from(1..3), false), (Range::from(3..5), true)]
    );
}

#[test]
fn new_same_value_overlapping_end_of_stored() {
    let mut range_map: RangeMap<bool> = RangeMap::new();
    range_map.insert(Range::from(1..4), false);
    range_map.insert(Range::from(3..5), false);
    assert_eq!(to_vec(&range_map), vec![(Range::from(1..5), false)]);
}

#[test]
fn new_different_value_overlapping_end_of_stored() {
    let mut range_map: RangeMap<bool> = RangeMap::new();
    range_map.insert(Range::from(1..4), false);
    range_map.insert(Range::from(3..5), true);
    assert_eq!(
        to_vec(&range_map),
        vec![(Range::from(1..3), false), (Range::from(3..5), true)]
    );
}

#[test]
fn new_same_value_immediately_preceding_stored() {
    let mut range_map: RangeMap<bool> = RangeMap::new();
    range_map.insert(Range::from(3..5), false);
    range_map.insert(Range::from(1..3), false);
    assert_eq!(to_vec(&range_map), vec![(Range::from(1..5), false)]);
}

#[test]
fn new_different_value_immediately_preceding_stored() {
    let mut range_map: RangeMap<bool> = RangeMap::new();
    range_map.insert(Range::from(3..5), true);
    range_map.insert(Range::from(1..3), false);
    assert_eq!(
        to_vec(&range_map),
        vec![(Range::from(1..3), false), (Range::from(3..5), true)]
    );
}

#[test]
fn new_same_value_wholly_inside_stored() {
    let mut range_map: RangeMap<bool> = RangeMap::new();
    range_map.insert(Range::from(1..5), false);
    range_map.insert(Range::from(2..4), false);
    assert_eq!(to_vec(&range_map), vec![(Range::from(1..5), false)]);
}

#[test]
fn new_different_value_wholly_inside_stored() {
    let mut range_map: RangeMap<bool> = RangeMap::new();
    range_map.insert(Range::from(1..5), true);
    range_map.insert(Range::from(2..4), false);
    assert_eq!(
        to_vec(&range_map),
        vec![
            (Range::from(1..2), true),
            (Range::from(2..4), false),
            (Range::from(4..5), true)
        ]
    );
}

#[test]
fn replace_at_end_of_existing_range_should_coalesce() {
    let mut range_map: RangeMap<bool> = RangeMap::new();
    range_map.insert(Range::from(1..3), false);
    range_map.insert(Range::from(3..5), true);
    range_map.insert(Range::from(3..5), false);
    assert_eq!(to_vec(&range_map), vec![(Range::from(1..5), false)]);
}

#[test]
// Test every permutation of a bunch of touching and overlapping ranges.
fn lots_of_interesting_ranges() {
    let mut ranges_with_values = [
        (2..3, false),
        // A duplicate duplicates
        (2..3, false),
        // Almost a duplicate, but with a different value
        (2..3, true),
        // A few small ranges, some of them overlapping others,
        // some of them touching others
        (3..5, true),
        (4..6, true),
        (5..7, true),
        // A really big range
        (2..6, true),
    ];

    ranges_with_values.permutation().for_each(|permutation| {
        let mut range_map: RangeMap<bool> = RangeMap::new();
        let mut stupid: StupidU32RangeMap<bool> = StupidU32RangeMap::new();

        for (k, v) in permutation {
            // Insert it into both maps.
            range_map.insert(Range::from(k.clone()), v);
            stupid.insert(k, v);

            // At every step, both maps should contain the same stuff.
            let stupid2: StupidU32RangeMap<bool> = range_map.clone().into();
            assert_eq!(stupid, stupid2);
        }
    });
}

//
// Get* tests
//

#[test]
fn get() {
    let mut range_map: RangeMap<bool> = RangeMap::new();
    range_map.insert(Range::from(0..50), false);
    assert_eq!(range_map.get(&49), Some(&false));
    assert_eq!(range_map.get(&50), None);
}

#[test]
fn get_key_value() {
    let mut range_map: RangeMap<bool> = RangeMap::new();
    range_map.insert(Range::from(0..50), false);
    assert_eq!(
        range_map.get_range_value(&49),
        Some((&Range::from(0..50), &false))
    );
    assert_eq!(range_map.get_range_value(&50), None);
}

//
// Removal tests
//

#[test]
fn remove_from_empty_map() {
    let mut range_map: RangeMap<bool> = RangeMap::new();
    range_map.remove(Range::from(0..50));
    assert_eq!(to_vec(&range_map), vec![]);
}

#[test]
fn remove_non_covered_range_before_stored() {
    let mut range_map: RangeMap<bool> = RangeMap::new();
    range_map.insert(Range::from(25..75), false);
    range_map.remove(Range::from(0..25));
    assert_eq!(to_vec(&range_map), vec![(Range::from(25..75), false)]);
}

#[test]
fn remove_non_covered_range_after_stored() {
    let mut range_map: RangeMap<bool> = RangeMap::new();
    range_map.insert(Range::from(25..75), false);
    range_map.remove(Range::from(75..100));
    assert_eq!(to_vec(&range_map), vec![(Range::from(25..75), false)]);
}

#[test]
fn remove_overlapping_start_of_stored() {
    let mut range_map: RangeMap<bool> = RangeMap::new();
    range_map.insert(Range::from(25..75), false);
    range_map.remove(Range::from(0..30));
    assert_eq!(to_vec(&range_map), vec![(Range::from(30..75), false)]);
}

#[test]
fn remove_middle_of_stored() {
    let mut range_map: RangeMap<bool> = RangeMap::new();
    range_map.insert(Range::from(25..75), false);
    range_map.remove(Range::from(30..70));
    assert_eq!(
        to_vec(&range_map),
        vec![(Range::from(25..30), false), (Range::from(70..75), false)]
    );
}

#[test]
fn remove_overlapping_end_of_stored() {
    let mut range_map: RangeMap<bool> = RangeMap::new();
    range_map.insert(Range::from(25..75), false);
    range_map.remove(Range::from(70..100));
    assert_eq!(to_vec(&range_map), vec![(Range::from(25..70), false)]);
}

#[test]
fn remove_exactly_stored() {
    let mut range_map: RangeMap<bool> = RangeMap::new();
    range_map.insert(Range::from(25..75), false);
    range_map.remove(Range::from(25..75));
    assert_eq!(to_vec(&range_map), vec![]);
}

#[test]
fn remove_superset_of_stored() {
    let mut range_map: RangeMap<bool> = RangeMap::new();
    range_map.insert(Range::from(25..75), false);
    range_map.remove(Range::from(0..100));
    assert_eq!(to_vec(&range_map), vec![]);
}

///
/// Rendering
///

#[test]
fn map_debug_repr_looks_right() {
    let mut map: RangeMap<()> = RangeMap::new();

    // Empty
    assert_eq!(map.debug_repr(), "{}");

    // One entry
    map.insert(Range::from(2..5), ());
    assert_eq!(map.debug_repr(), "{[2, 5): ()}");

    // Many entries
    map.insert(Range::from(6..7), ());
    map.insert(Range::from(8..9), ());
    assert_eq!(map.debug_repr(), "{[2, 5): (), [6, 7): (), [8, 9): ()}");
}
