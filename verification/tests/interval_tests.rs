use avl_interval_tree::{Interval, IntervalError};

#[test]
fn new_keeps_both_bounds() {
    let interval = Interval::new(5i32, 17);
    assert_eq!(interval.start(), 5);
    assert_eq!(interval.stop(), 17);
    let point = Interval::new(-3i64, -3);
    assert_eq!(point.start(), -3);
    assert_eq!(point.stop(), -3);
}

#[test]
fn contains_value_includes_both_bounds() {
    let interval = Interval::new(5i32, 17);
    assert!(interval.contains_value(5));
    assert!(interval.contains_value(12));
    assert!(interval.contains_value(17));
    assert!(!interval.contains_value(4));
    assert!(!interval.contains_value(18));
}

#[test]
fn contains_interval_needs_both_bounds_inside() {
    let interval = Interval::new(5i32, 17);
    assert!(interval.contains_interval(&Interval::new(5, 17)));
    assert!(interval.contains_interval(&Interval::new(6, 16)));
    assert!(interval.contains_interval(&Interval::new(17, 17)));
    assert!(!interval.contains_interval(&Interval::new(4, 17)));
    assert!(!interval.contains_interval(&Interval::new(5, 18)));
    assert!(!interval.contains_interval(&Interval::new(20, 30)));
}

#[test]
fn overlaps_with_is_symmetric() {
    let a = Interval::new(0i32, 10);
    let inside = Interval::new(3, 4);
    let across = Interval::new(10, 20);
    let apart = Interval::new(11, 20);
    let around = Interval::new(-5, 15);
    assert!(a.overlaps_with(&inside) && inside.overlaps_with(&a));
    assert!(a.overlaps_with(&across) && across.overlaps_with(&a));
    assert!(a.overlaps_with(&around) && around.overlaps_with(&a));
    assert!(!a.overlaps_with(&apart) && !apart.overlaps_with(&a));
}

#[test]
fn adjacency_has_a_direction() {
    let a = Interval::new(0i32, 10);
    let b = Interval::new(11, 20);
    let c = Interval::new(12, 20);
    assert!(a.left_adjacent_to(&b));
    assert!(!b.left_adjacent_to(&a));
    assert!(b.right_adjacent_to(&a));
    assert!(!a.right_adjacent_to(&b));
    assert!(a.adjacent_to(&b) && b.adjacent_to(&a));
    assert!(!a.adjacent_to(&c) && !c.adjacent_to(&a));
    assert!(!a.adjacent_to(&a));
}

#[test]
fn adjacency_at_the_ends_of_the_type() {
    let top = Interval::new(100i8, i8::MAX);
    let bottom = Interval::new(i8::MIN, -100);
    let middle = Interval::new(-99i8, 99);
    assert!(!top.left_adjacent_to(&bottom));
    assert!(!top.left_adjacent_to(&top));
    assert!(!bottom.right_adjacent_to(&top));
    assert!(bottom.left_adjacent_to(&middle));
    assert!(middle.left_adjacent_to(&top));
    assert!(top.right_adjacent_to(&middle));
    let whole = Interval::new(u8::MIN, u8::MAX);
    assert!(!whole.adjacent_to(&whole));
    assert!(whole.can_merge_with(&whole));
}

#[test]
fn can_merge_with_overlapping_or_touching() {
    let a = Interval::new(0i32, 10);
    assert!(a.can_merge_with(&Interval::new(5, 15)));
    assert!(a.can_merge_with(&Interval::new(11, 15)));
    assert!(a.can_merge_with(&Interval::new(-4, -1)));
    assert!(!a.can_merge_with(&Interval::new(12, 15)));
    assert!(!a.can_merge_with(&Interval::new(-4, -2)));
}

#[test]
fn merge_gives_the_hull() {
    let a = Interval::new(0i32, 10);
    let merged = a.merge(&Interval::new(5, 15)).unwrap();
    assert_eq!((merged.start(), merged.stop()), (0, 15));
    let merged = a.merge(&Interval::new(-7, -1)).unwrap();
    assert_eq!((merged.start(), merged.stop()), (-7, 10));
    let merged = a.merge(&Interval::new(2, 3)).unwrap();
    assert_eq!((merged.start(), merged.stop()), (0, 10));
    let merged = a.merge(&Interval::new(-2, 30)).unwrap();
    assert_eq!((merged.start(), merged.stop()), (-2, 30));
}

#[test]
fn merge_rejects_intervals_that_lie_apart() {
    let a = Interval::new(0i32, 10);
    let result = a.merge(&Interval::new(12, 15));
    assert!(matches!(result, Err(IntervalError::MergeOnDisjointIntervals)));
    let result = Interval::new(12, 15).merge(&a);
    assert!(matches!(result, Err(IntervalError::MergeOnDisjointIntervals)));
}

#[test]
fn merge_unchecked_gives_the_hull() {
    let a = Interval::new(3u16, 9);
    let merged = a.merge_unchecked(&Interval::new(10, 12));
    assert_eq!((merged.start(), merged.stop()), (3, 12));
    let merged = Interval::new(10u16, 12).merge_unchecked(&a);
    assert_eq!((merged.start(), merged.stop()), (3, 12));
}

#[test]
fn merge_inplace_widens_or_leaves_alone() {
    let mut a = Interval::new(0i32, 10);
    assert!(a.merge_inplace(&Interval::new(11, 20)).is_ok());
    assert_eq!((a.start(), a.stop()), (0, 20));
    let result = a.merge_inplace(&Interval::new(22, 30));
    assert_eq!(result, Err(IntervalError::MergeOnDisjointIntervals));
    assert_eq!((a.start(), a.stop()), (0, 20));
}

#[test]
fn merge_inplace_unchecked_widens() {
    let mut a = Interval::new(0i32, 10);
    a.merge_inplace_unchecked(&Interval::new(-5, 3));
    assert_eq!((a.start(), a.stop()), (-5, 10));
    a.merge_inplace_unchecked(&Interval::new(11, 11));
    assert_eq!((a.start(), a.stop()), (-5, 11));
}

#[test]
fn left_and_right_are_strict() {
    let a = Interval::new(0i32, 10);
    let b = Interval::new(11, 20);
    let c = Interval::new(10, 20);
    assert!(a.is_left_of(&b));
    assert!(!b.is_left_of(&a));
    assert!(b.is_right_of(&a));
    assert!(!a.is_right_of(&b));
    assert!(!a.is_left_of(&c));
    assert!(!c.is_right_of(&a));
    assert!(!a.is_left_of(&a));
    assert!(!a.is_right_of(&a));
}

#[test]
fn error_message_names_the_cause() {
    assert_eq!(
        IntervalError::MergeOnDisjointIntervals.message(),
        "Cannot merge non-overlapping/non-adjacent intervals"
    );
}
