use disjoint_ranges::{DisjointRange, UnaryRange};

#[test]
fn test_without_lower() {
    let range = UnaryRange::new_unchecked(5, 10);
    let wo_range = UnaryRange::new_unchecked(3, 6);
    let actual = range.without(wo_range).unwrap();
    assert_eq!(1, actual.len());
    assert_eq!(7, actual[0].low);
    assert_eq!(10, actual[0].high);
}

#[test]
fn test_without_higher() {
    let range = UnaryRange::new_unchecked(5, 10);
    let wo_range = UnaryRange::new_unchecked(8, 12);
    let actual = range.without(wo_range).unwrap();
    assert_eq!(1, actual.len());
    assert_eq!(5, actual[0].low);
    assert_eq!(7, actual[0].high);
}

#[test]
fn test_without_middle() {
    let range = UnaryRange::new_unchecked(5, 10);
    let wo_range = UnaryRange::new_unchecked(7, 8);
    let actual = range.without(wo_range).unwrap();
    assert_eq!(2, actual.len());
    let actual_smaller = actual[0];
    let actual_greater = actual[1];
    assert_eq!(5, actual_smaller.low);
    assert_eq!(6, actual_smaller.high);
    assert_eq!(9, actual_greater.low);
    assert_eq!(10, actual_greater.high);
}

#[test]
fn test_meld_ranges_overlapping() {
    let mut ranges = vec![
        UnaryRange::new_unchecked(0, 9),
        UnaryRange::new_unchecked(10, 19),
    ];
    DisjointRange::meld_ranges(&mut ranges);
    assert_eq!(1, ranges.len());
    let UnaryRange { low, high } = ranges[0];
    assert_eq!(0, low);
    assert_eq!(19, high);
}

#[test]
fn test_meld_ranges_non_overlapping() {
    let mut ranges = vec![
        UnaryRange::new_unchecked(0, 9),
        UnaryRange::new_unchecked(11, 19),
    ];
    DisjointRange::meld_ranges(&mut ranges);
    assert_eq!(2, ranges.len());
    let UnaryRange { low, high } = ranges[0];
    assert_eq!(0, low);
    assert_eq!(9, high);
    let UnaryRange { low, high } = ranges[1];
    assert_eq!(11, low);
    assert_eq!(19, high);
}

#[test]
fn test_meld_ranges_first_two() {
    let mut ranges = vec![
        UnaryRange::new_unchecked(0, 4),
        UnaryRange::new_unchecked(5, 9),
        UnaryRange::new_unchecked(11, 15),
    ];
    DisjointRange::meld_ranges(&mut ranges);
    assert_eq!(2, ranges.len());
    let UnaryRange { low, high } = ranges[0];
    assert_eq!(0, low);
    assert_eq!(9, high);
    let UnaryRange { low, high } = ranges[1];
    assert_eq!(11, low);
    assert_eq!(15, high);
}

#[test]
fn test_meld_ranges_last_two() {
    let mut ranges = vec![
        UnaryRange::new_unchecked(0, 4),
        UnaryRange::new_unchecked(6, 10),
        UnaryRange::new_unchecked(11, 15),
    ];
    DisjointRange::meld_ranges(&mut ranges);
    assert_eq!(2, ranges.len());
    let UnaryRange { low, high } = ranges[0];
    assert_eq!(0, low);
    assert_eq!(4, high);
    let UnaryRange { low, high } = ranges[1];
    assert_eq!(6, low);
    assert_eq!(15, high);
}

#[test]
fn test_meld_ranges_all() {
    let mut ranges = vec![
        UnaryRange::new_unchecked(0, 4),
        UnaryRange::new_unchecked(5, 10),
        UnaryRange::new_unchecked(11, 15),
    ];
    DisjointRange::meld_ranges(&mut ranges);
    assert_eq!(1, ranges.len());
    let UnaryRange { low, high } = ranges[0];
    assert_eq!(0, low);
    assert_eq!(15, high);
}

#[test]
fn test_subtract_range_lowest_lower() {
    let mut orig = DisjointRange::from_bounds_unchecked(vec![(0, 4), (6, 10), (12, 16)]);
    let o2 = orig.clone();
    let wo_range = UnaryRange::new_unchecked(0, 2);
    orig.subtract_unary_range(wo_range);
    assert_eq!(3, orig.ranges.len());
    assert_eq!(UnaryRange { low: 3, high: 4 }, orig.ranges[0]);
    assert_eq!(o2.ranges[1], orig.ranges[1]);
    assert_eq!(o2.ranges[2], orig.ranges[2]);
}

#[test]
fn test_subtract_unary_range_lowest_higher() {
    let mut orig = DisjointRange::from_bounds_unchecked(vec![(0, 4), (6, 10), (12, 16)]);
    let o2 = orig.clone();
    let wo_range = UnaryRange::new_unchecked(2, 4);
    orig.subtract_unary_range(wo_range);
    assert_eq!(3, orig.ranges.len());
    assert_eq!(UnaryRange { low: 0, high: 1 }, orig.ranges[0]);
    assert_eq!(o2.ranges[1], orig.ranges[1]);
    assert_eq!(o2.ranges[2], orig.ranges[2]);
}

#[test]
fn test_subtract_unary_range_lowest_middle() {
    let mut orig = DisjointRange::from_bounds_unchecked(vec![(0, 4), (6, 10), (12, 16)]);
    let o2 = orig.clone();
    let wo_range = UnaryRange::new_unchecked(2, 3);
    orig.subtract_unary_range(wo_range);
    assert_eq!(4, orig.ranges.len());
    assert_eq!(UnaryRange { low: 0, high: 1 }, orig.ranges[0]);
    assert_eq!(UnaryRange { low: 4, high: 4 }, orig.ranges[1]);
    assert_eq!(o2.ranges[1], orig.ranges[2]);
    assert_eq!(o2.ranges[2], orig.ranges[3]);
}

#[test]
fn test_subtract_unary_range_lower_spanning() {
    let mut orig = DisjointRange::from_bounds_unchecked(vec![(0, 4), (6, 10), (12, 16)]);
    let o2 = orig.clone();
    let wo_range = UnaryRange::new_unchecked(4, 7);
    orig.subtract_unary_range(wo_range);
    assert_eq!(3, orig.ranges.len());
    assert_eq!(UnaryRange { low: 0, high: 3 }, orig.ranges[0]);
    assert_eq!(UnaryRange { low: 8, high: 10 }, orig.ranges[1]);
    assert_eq!(o2.ranges[2], orig.ranges[2]);
}

#[test]
fn test_add_unary_range_before_separate() {
    let mut orig = DisjointRange::from_bounds_unchecked(vec![(4, 6), (8, 10)]);
    let o2 = orig.clone();
    let to_add = UnaryRange::new_unchecked(0, 2);
    let ta = to_add.clone();
    orig.add_unary_range(to_add);
    assert_eq!(3, orig.ranges.len());
    assert_eq!(ta, orig.ranges[0]);
    assert_eq!(o2.ranges[0], orig.ranges[1]);
    assert_eq!(o2.ranges[1], orig.ranges[2]);
}

#[test]
fn test_add_unary_range_before_merged() {
    let mut orig = DisjointRange::from_bounds_unchecked(vec![(4, 6), (8, 10)]);
    let o2 = orig.clone();
    let to_add = UnaryRange::new_unchecked(0, 3);
    orig.add_unary_range(to_add);
    assert_eq!(2, orig.ranges.len());
    assert_eq!(UnaryRange { low: 0, high: 6 }, orig.ranges[0]);
    assert_eq!(o2.ranges[1], orig.ranges[1]);
}

#[test]
fn test_add_unary_range_middle_separate() {
    let mut orig = DisjointRange::from_bounds_unchecked(vec![(4, 5), (10, 11)]);
    let o2 = orig.clone();
    let to_add = UnaryRange::new_unchecked(7, 8);
    let ta = to_add.clone();
    orig.add_unary_range(to_add);
    assert_eq!(3, orig.ranges.len());
    assert_eq!(o2.ranges[0], orig.ranges[0]);
    assert_eq!(ta, orig.ranges[1]);
    assert_eq!(o2.ranges[1], orig.ranges[2]);
}

#[test]
fn test_add_unary_range_middle_merged() {
    let mut orig = DisjointRange::from_bounds_unchecked(vec![(4, 5), (10, 11)]);
    let o2 = orig.clone();
    let to_add = UnaryRange::new_unchecked(6, 8);
    orig.add_unary_range(to_add);
    assert_eq!(2, orig.ranges.len());
    assert_eq!(UnaryRange { low: 4, high: 8 }, orig.ranges[0]);
    assert_eq!(o2.ranges[1], orig.ranges[1]);
}

#[test]
fn test_add_unary_range_merge_all() {
    let mut orig = DisjointRange::from_bounds_unchecked(vec![(4, 5), (10, 11)]);
    let to_add = UnaryRange::new_unchecked(6, 9);
    orig.add_unary_range(to_add);
    assert_eq!(1, orig.ranges.len());
    assert_eq!(UnaryRange { low: 4, high: 11 }, orig.ranges[0]);
}

#[test]
fn test_complement_unary() {
    let orig = UnaryRange::new_unchecked(10u8, 50u8);
    let complement = orig.complement().unwrap();
    assert_eq!(2, complement.ranges.len());
    assert_eq!(UnaryRange { low: 0, high: 9 }, complement.ranges[0]);
    assert_eq!(
        UnaryRange {
            low: 51,
            high: u8::MAX
        },
        complement.ranges[1]
    );
}

#[test]
fn test_complement_disjoint() {
    let orig = DisjointRange::from_bounds_unchecked(vec![(10u8, 50), (70, 100)]);
    let complement = orig.complement();
    assert_eq!(3, complement.ranges.len());
    assert_eq!(UnaryRange { low: 0, high: 9 }, complement.ranges[0]);
    assert_eq!(UnaryRange { low: 51, high: 69 }, complement.ranges[1]);
    assert_eq!(
        UnaryRange {
            low: 101,
            high: u8::MAX
        },
        complement.ranges[2]
    );
}
