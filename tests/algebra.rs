use disjoint_ranges::traits::{bounded_max, bounded_min};
use disjoint_ranges::{Bounded, DisjointRange, Stepped, UnaryRange};

fn bounds_of<T: Copy>(d: &DisjointRange<T>) -> Vec<(T, T)> {
    d.ranges.iter().map(|r| (r.low, r.high)).collect()
}

#[test]
fn unary_contains_matches_bounds() {
    let r = UnaryRange::new(3u8, 7u8).unwrap();
    for v in 0..=255u8 {
        assert_eq!(r.contains(&v), 3 <= v && v <= 7);
    }
}

#[test]
fn unary_new_rejects_reversed_bounds() {
    assert!(UnaryRange::new(8i32, 7i32).is_none());
    let r = UnaryRange::new(7i32, 7i32).unwrap();
    assert_eq!((r.low, r.high), (7, 7));
}

#[test]
fn without_disjoint_keeps_self() {
    let r = UnaryRange::new_unchecked(5u8, 10u8);
    let below = r.without(UnaryRange::new_unchecked(0, 4)).unwrap();
    assert_eq!(below, vec![r]);
    let above = r.without(UnaryRange::new_unchecked(11, 255)).unwrap();
    assert_eq!(above, vec![r]);
}

#[test]
fn without_covering_is_none() {
    let r = UnaryRange::new_unchecked(5u8, 10u8);
    assert!(r.without(UnaryRange::new_unchecked(5, 10)).is_none());
    assert!(r.without(UnaryRange::new_unchecked(0, 255)).is_none());
}

#[test]
fn without_touching_one_step_in() {
    let r = UnaryRange::new_unchecked(5u8, 10u8);
    let high = r.without(UnaryRange::new_unchecked(6, 20)).unwrap();
    assert_eq!(high, vec![UnaryRange { low: 5, high: 5 }]);
    let low = r.without(UnaryRange::new_unchecked(0, 9)).unwrap();
    assert_eq!(low, vec![UnaryRange { low: 10, high: 10 }]);
}

#[test]
fn without_is_set_difference() {
    let r = UnaryRange::new_unchecked(5u8, 10u8);
    for (a, b) in [(3u8, 6u8), (8, 12), (7, 8), (0, 2), (20, 30), (5, 10)] {
        let o = UnaryRange::new_unchecked(a, b);
        let pieces = r.without(o).unwrap_or_default();
        for v in 0..=40u8 {
            let held = pieces.iter().any(|p| p.contains(&v));
            assert_eq!(held, r.contains(&v) && !o.contains(&v));
        }
    }
}

#[test]
fn meld_fuses_one_step_gap_only() {
    let mut d = DisjointRange::from_bounds_unchecked(vec![(0u8, 4u8), (5, 9), (11, 15)]);
    d.add_disjoint_range(DisjointRange::empty());
    assert_eq!(bounds_of(&d), vec![(0, 9), (11, 15)]);
}

#[test]
fn add_unary_bridges_both_neighbours() {
    let mut d = DisjointRange::from_bounds_unchecked(vec![(4u8, 5u8), (10, 11)]);
    d.add_unary_range(UnaryRange::new_unchecked(6, 9));
    assert_eq!(bounds_of(&d), vec![(4, 11)]);
}

#[test]
fn add_disjoint_normalizes_unsorted_input() {
    let mut d = DisjointRange::from_bounds_unchecked(vec![(20i32, 25), (0, 3), (4, 6)]);
    let other = DisjointRange::from_bounds_unchecked(vec![(30i32, 40), (8, 9), (22, 31), (-5, -2)]);
    d.add_disjoint_range(other);
    assert_eq!(bounds_of(&d), vec![(-5, -2), (0, 6), (8, 9), (20, 40)]);
}

#[test]
fn add_disjoint_order_does_not_matter() {
    let a = DisjointRange::from_bounds_unchecked(vec![(1u16, 3), (10, 12)]);
    let b = DisjointRange::from_bounds_unchecked(vec![(4u16, 8), (14, 20)]);
    let c = DisjointRange::from_bounds_unchecked(vec![(9u16, 9), (30, 31)]);
    let mut ab = a.clone();
    ab.add_disjoint_range(b.clone());
    let mut ba = b.clone();
    ba.add_disjoint_range(a.clone());
    assert_eq!(bounds_of(&ab), bounds_of(&ba));
    let mut ab_c = ab.clone();
    ab_c.add_disjoint_range(c.clone());
    let mut bc = b.clone();
    bc.add_disjoint_range(c.clone());
    let mut a_bc = a.clone();
    a_bc.add_disjoint_range(bc);
    assert_eq!(bounds_of(&ab_c), bounds_of(&a_bc));
    assert_eq!(bounds_of(&ab_c), vec![(1, 12), (14, 20), (30, 31)]);
}

#[test]
fn add_unary_order_does_not_matter() {
    let base = DisjointRange::from_bounds_unchecked(vec![(0i64, 2), (40, 50)]);
    let x = UnaryRange::new_unchecked(10i64, 20);
    let y = UnaryRange::new_unchecked(3i64, 9);
    let mut xy = base.clone();
    xy.add_unary_range(x);
    xy.add_unary_range(y);
    let mut yx = base.clone();
    yx.add_unary_range(y);
    yx.add_unary_range(x);
    assert_eq!(bounds_of(&xy), bounds_of(&yx));
    assert_eq!(bounds_of(&xy), vec![(0, 20), (40, 50)]);
}

#[test]
fn unary_complement_over_u8() {
    let c = UnaryRange::new_unchecked(10u8, 50u8).complement().unwrap();
    assert_eq!(bounds_of(&c), vec![(0, 9), (51, 255)]);
    let low_end = UnaryRange::new_unchecked(0u8, 50u8).complement().unwrap();
    assert_eq!(bounds_of(&low_end), vec![(51, 255)]);
    let high_end = UnaryRange::new_unchecked(10u8, 255u8).complement().unwrap();
    assert_eq!(bounds_of(&high_end), vec![(0, 9)]);
    assert!(UnaryRange::new_unchecked(0u8, 255u8).complement().is_none());
}

#[test]
fn complement_twice_gives_back_the_set() {
    let s = DisjointRange::from_bounds_unchecked(vec![(0i8, 3), (10, 20), (100, 127)]);
    let back = s.clone().complement().complement();
    assert_eq!(bounds_of(&back), bounds_of(&s));
    let c = s.complement();
    assert_eq!(bounds_of(&c), vec![(-128, -1), (4, 9), (21, 99)]);
}

#[test]
fn complement_of_empty_and_entire() {
    let all = DisjointRange::<u8>::empty().complement();
    assert_eq!(bounds_of(&all), vec![(0, 255)]);
    let none = DisjointRange::<u8>::entire().complement();
    assert!(none.ranges.is_empty());
}

#[test]
fn complement_holds_exactly_the_other_values() {
    let s = DisjointRange::from_bounds_unchecked(vec![(5u8, 9), (12, 12), (200, 255)]);
    let c = s.clone().complement();
    for v in 0..=255u8 {
        assert_ne!(s.contains(v), c.contains(v));
    }
}

#[test]
fn subtract_then_add_restores_inner_range() {
    let s = DisjointRange::from_bounds_unchecked(vec![(0u32, 10), (20, 30)]);
    let x = UnaryRange::new_unchecked(22u32, 25);
    let mut t = s.clone();
    t.subtract_unary_range(x);
    assert_eq!(bounds_of(&t), vec![(0, 10), (20, 21), (26, 30)]);
    t.add_unary_range(x);
    assert_eq!(bounds_of(&t), bounds_of(&s));
}

#[test]
fn subtract_then_add_of_outside_range_grows_the_set() {
    let s = DisjointRange::from_bounds_unchecked(vec![(0u32, 10), (20, 30)]);
    let x = UnaryRange::new_unchecked(8u32, 22);
    let mut t = s.clone();
    t.subtract_unary_range(x);
    t.add_unary_range(x);
    assert_eq!(bounds_of(&t), vec![(0, 30)]);
}

#[test]
fn subtract_across_several_ranges() {
    let mut s = DisjointRange::from_bounds_unchecked(vec![(0u8, 4), (6, 10), (12, 16), (20, 22)]);
    s.subtract_unary_range(UnaryRange::new_unchecked(3, 13));
    assert_eq!(bounds_of(&s), vec![(0, 2), (14, 16), (20, 22)]);
    s.subtract_unary_range(UnaryRange::new_unchecked(0, 255));
    assert!(s.ranges.is_empty());
}

#[test]
fn disjoint_contains_each_range() {
    let s = DisjointRange::from_bounds_unchecked(vec![(1i16, 2), (5, 5)]);
    assert!(!s.contains(0));
    assert!(s.contains(1));
    assert!(s.contains(2));
    assert!(!s.contains(3));
    assert!(s.contains(5));
    assert!(!DisjointRange::<i16>::empty().contains(0));
}

#[test]
fn checked_constructors() {
    assert!(DisjointRange::new_single_range(3u8, 2u8).is_none());
    let one = DisjointRange::new_single_range(2u8, 3u8).unwrap();
    assert_eq!(bounds_of(&one), vec![(2, 3)]);
    assert!(DisjointRange::from_bounds(vec![(1u8, 2u8), (5, 4)]).is_none());
    let ok = DisjointRange::from_bounds(vec![(5u8, 6u8), (1, 2)]).unwrap();
    assert_eq!(bounds_of(&ok), vec![(5, 6), (1, 2)]);
    let raw = DisjointRange::from_ranges(vec![UnaryRange::new_unchecked(9u8, 9)]);
    assert_eq!(bounds_of(&raw), vec![(9, 9)]);
    let unchecked = DisjointRange::new_single_range_unchecked(4u8, 4u8);
    assert_eq!(bounds_of(&unchecked), vec![(4, 4)]);
}

#[test]
fn entire_spans_the_domain() {
    assert_eq!(bounds_of(&DisjointRange::<i8>::entire()), vec![(-128, 127)]);
    assert_eq!(bounds_of(&DisjointRange::<u64>::entire()), vec![(0, u64::MAX)]);
    assert_eq!(bounded_min::<i32>(), i32::MIN);
    assert_eq!(bounded_max::<usize>(), usize::MAX);
}

#[test]
fn integer_steps_saturate() {
    assert_eq!(255u8.increment(), 255);
    assert_eq!(254u8.increment(), 255);
    assert_eq!(0u8.decrement(), 0);
    assert_eq!(i128::MIN.decrement(), i128::MIN);
    assert_eq!((-1isize).increment(), 0);
    assert_eq!(u16::step(), 1);
    assert_eq!(<u32 as Bounded>::min_val(), 0);
    assert!(3i64.not_after(&3));
    assert!(!4i64.not_after(&3));
}
