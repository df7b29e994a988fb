use avl_interval_tree::{AVLIntervalTree, Interval, IntervalTree};

fn bounds(tree: &AVLIntervalTree<i32>) -> Vec<(i32, i32)> {
    tree.intervals().iter().map(|interval| (interval.start(), interval.stop())).collect()
}

/// Rebuilds the heights from a listing and checks each node's record and
/// balance against them. Returns the height of the subtree that starts at
/// `*at` and moves `*at` behind it.
fn checked_height(listing: &[Option<(i32, Interval<i32>)>], at: &mut usize) -> i32 {
    let entry = listing[*at];
    *at += 1;
    match entry {
        None => 0,
        Some((height, _)) => {
            let left = checked_height(listing, at);
            let right = checked_height(listing, at);
            assert!((left - right).abs() <= 1);
            assert_eq!(height, 1 + left.max(right));
            height
        }
    }
}

fn check_shape(tree: &AVLIntervalTree<i32>) {
    assert!(tree.is_avl());
    let listing = tree.outline();
    let mut at = 0;
    checked_height(&listing, &mut at);
    assert_eq!(at, listing.len());
    let stored = bounds(tree);
    assert_eq!(stored.len() as i32, tree.number_of_nodes());
    for pair in stored.windows(2) {
        assert!(pair[0].1 + 1 < pair[1].0);
    }
    for (start, stop) in stored {
        assert!(start <= stop);
    }
}

#[test]
fn empty_tree_holds_nothing() {
    let tree: AVLIntervalTree<i32> = AVLIntervalTree::empty();
    assert!(tree.is_empty());
    assert!(tree.is_avl());
    assert_eq!(tree.number_of_nodes(), 0);
    assert!(!tree.contains_value(0));
    assert!(!tree.contains(&Interval::new(1, 2)));
    assert!(bounds(&tree).is_empty());
    assert_eq!(tree.outline().len(), 1);
    assert!(tree.outline()[0].is_none());
}

#[test]
fn delete_from_empty_tree_is_a_no_op() {
    let mut tree: AVLIntervalTree<i32> = AVLIntervalTree::empty();
    tree.delete(&Interval::new(1, 5));
    tree.delete_value(3);
    assert!(tree.is_empty());
    assert_eq!(tree.number_of_nodes(), 0);
}

#[test]
fn it_works() {
    let mut tree = AVLIntervalTree::empty();
    assert!(tree.is_avl());
    assert_eq!(tree.number_of_nodes(), 0);

    tree.insert(Interval::new(5, 17));
    check_shape(&tree);
    assert_eq!(tree.number_of_nodes(), 1);
    assert!(tree.contains_value(12));
    assert!(!tree.contains_value(3));

    tree.insert(Interval::new(18, 25));
    check_shape(&tree);
    assert_eq!(tree.number_of_nodes(), 1);
    assert!(tree.contains_value(21));
    assert_eq!(bounds(&tree), vec![(5, 25)]);

    tree.insert(Interval::new(-3, 1));
    check_shape(&tree);
    assert_eq!(tree.number_of_nodes(), 2);
    assert!(tree.contains_value(0));
    assert_eq!(bounds(&tree), vec![(-3, 1), (5, 25)]);

    tree.delete(&Interval::new(9, 12));
    check_shape(&tree);
    assert_eq!(tree.number_of_nodes(), 3);
    assert!(!tree.contains_value(12));
    assert!(tree.contains_value(5));
    assert_eq!(bounds(&tree), vec![(-3, 1), (5, 8), (13, 25)]);
}

#[test]
fn delete_inside_splits_a_node() {
    let mut tree = AVLIntervalTree::empty();
    tree.insert(Interval::new(0, 10));
    tree.delete(&Interval::new(3, 6));
    check_shape(&tree);
    assert_eq!(tree.number_of_nodes(), 2);
    assert_eq!(bounds(&tree), vec![(0, 2), (7, 10)]);
    for value in 0..=10 {
        assert_eq!(tree.contains_value(value), !(3..=6).contains(&value));
    }
}

#[test]
fn delete_at_one_end_shrinks_a_node() {
    let mut tree = AVLIntervalTree::empty();
    tree.insert(Interval::new(0, 10));
    tree.delete(&Interval::new(0, 5));
    check_shape(&tree);
    assert_eq!(bounds(&tree), vec![(6, 10)]);
    tree.delete(&Interval::new(9, 10));
    check_shape(&tree);
    assert_eq!(bounds(&tree), vec![(6, 8)]);
    tree.delete(&Interval::new(-4, 6));
    assert_eq!(bounds(&tree), vec![(7, 8)]);
    tree.delete(&Interval::new(8, 40));
    assert_eq!(bounds(&tree), vec![(7, 7)]);
    tree.delete(&Interval::new(7, 7));
    assert!(tree.is_empty());
    assert_eq!(tree.number_of_nodes(), 0);
}

#[test]
fn delete_of_the_root_empties_the_tree() {
    let mut tree = AVLIntervalTree::empty();
    tree.insert(Interval::new(4, 9));
    tree.delete(&Interval::new(0, 20));
    assert!(tree.is_empty());
    assert!(tree.is_avl());
    assert!(!tree.contains_value(5));
}

#[test]
fn delete_of_an_absent_interval_changes_nothing() {
    let mut tree = AVLIntervalTree::empty();
    tree.insert(Interval::new(0, 3));
    tree.insert(Interval::new(10, 13));
    tree.delete(&Interval::new(5, 8));
    tree.delete(&Interval::new(20, 30));
    tree.delete(&Interval::new(-9, -1));
    check_shape(&tree);
    assert_eq!(bounds(&tree), vec![(0, 3), (10, 13)]);
}

#[test]
fn delete_across_many_nodes() {
    let mut tree = AVLIntervalTree::empty();
    for k in 0..40 {
        tree.insert(Interval::new(10 * k, 10 * k + 4));
    }
    check_shape(&tree);
    assert_eq!(tree.number_of_nodes(), 40);
    tree.delete(&Interval::new(12, 383));
    check_shape(&tree);
    assert_eq!(bounds(&tree), vec![(0, 4), (10, 11), (384, 384), (390, 394)]);
    tree.delete(&Interval::new(-100, 1000));
    assert!(tree.is_empty());
}

#[test]
fn delete_with_two_children_promotes_the_successor() {
    let mut tree = AVLIntervalTree::empty();
    for k in 0..7 {
        tree.insert(Interval::new(10 * k, 10 * k + 2));
    }
    let root = tree.outline()[0].unwrap().1;
    tree.delete(&root);
    check_shape(&tree);
    assert_eq!(tree.number_of_nodes(), 6);
    assert!(!tree.contains(&root));
    let expected: Vec<(i32, i32)> = (0..7)
        .map(|k| (10 * k, 10 * k + 2))
        .filter(|pair| *pair != (root.start(), root.stop()))
        .collect();
    assert_eq!(bounds(&tree), expected);
}

#[test]
fn insert_merges_overlapping_and_touching_intervals() {
    let mut tree = AVLIntervalTree::empty();
    tree.insert(Interval::new(10, 20));
    tree.insert(Interval::new(30, 40));
    tree.insert(Interval::new(50, 60));
    assert_eq!(tree.number_of_nodes(), 3);
    tree.insert(Interval::new(21, 29));
    check_shape(&tree);
    assert_eq!(bounds(&tree), vec![(10, 40), (50, 60)]);
    tree.insert(Interval::new(35, 55));
    check_shape(&tree);
    assert_eq!(bounds(&tree), vec![(10, 60)]);
    tree.insert(Interval::new(62, 70));
    assert_eq!(bounds(&tree), vec![(10, 60), (62, 70)]);
    tree.insert_value(61);
    check_shape(&tree);
    assert_eq!(bounds(&tree), vec![(10, 70)]);
}

#[test]
fn insert_takes_in_a_neighbour_below_the_far_end_of_a_subtree() {
    let mut tree = AVLIntervalTree::empty();
    tree.insert(Interval::new(10, 20));
    tree.insert(Interval::new(5, 6));
    tree.insert(Interval::new(30, 31));
    tree.insert(Interval::new(1, 2));
    check_shape(&tree);
    tree.insert(Interval::new(7, 9));
    check_shape(&tree);
    assert_eq!(bounds(&tree), vec![(1, 2), (5, 20), (30, 31)]);
}

#[test]
fn insert_over_everything_leaves_one_node() {
    let mut tree = AVLIntervalTree::empty();
    for k in 0..100 {
        tree.insert(Interval::new(4 * k, 4 * k + 1));
    }
    check_shape(&tree);
    assert_eq!(tree.number_of_nodes(), 100);
    tree.insert(Interval::new(2, 397));
    check_shape(&tree);
    assert_eq!(bounds(&tree), vec![(0, 397)]);
}

#[test]
fn insert_over_one_side_rebalances_the_rest() {
    let mut tree = AVLIntervalTree::empty();
    for k in 0..64 {
        tree.insert(Interval::new(4 * k, 4 * k + 1));
    }
    tree.insert(Interval::new(0, 200));
    check_shape(&tree);
    let mut expected = vec![(0, 201)];
    expected.extend((51..64).map(|k| (4 * k, 4 * k + 1)));
    assert_eq!(bounds(&tree), expected);
    tree.insert(Interval::new(210, 300));
    check_shape(&tree);
    assert_eq!(bounds(&tree), vec![(0, 201), (204, 205), (208, 300)]);
}

#[test]
fn insert_twice_is_insert_once() {
    let mut once = AVLIntervalTree::empty();
    let mut twice = AVLIntervalTree::empty();
    for tree in [&mut once, &mut twice] {
        tree.insert(Interval::new(0, 3));
        tree.insert(Interval::new(20, 23));
        tree.insert(Interval::new(8, 12));
    }
    twice.insert(Interval::new(8, 12));
    check_shape(&twice);
    assert_eq!(bounds(&once), bounds(&twice));
    twice.insert(Interval::new(9, 11));
    assert_eq!(bounds(&once), bounds(&twice));
}

#[test]
fn delete_undoes_an_insert_that_met_nothing() {
    let mut tree = AVLIntervalTree::empty();
    tree.insert(Interval::new(0, 3));
    tree.insert(Interval::new(20, 23));
    let before = bounds(&tree);
    tree.insert(Interval::new(8, 12));
    assert_eq!(tree.number_of_nodes(), 3);
    tree.delete(&Interval::new(8, 12));
    check_shape(&tree);
    assert_eq!(bounds(&tree), before);
    tree.insert(Interval::new(4, 19));
    assert_eq!(bounds(&tree), vec![(0, 23)]);
    tree.delete(&Interval::new(4, 19));
    assert_eq!(bounds(&tree), before);
}

#[test]
fn contains_asks_for_every_point() {
    let mut tree = AVLIntervalTree::empty();
    tree.insert(Interval::new(0, 10));
    tree.insert(Interval::new(12, 20));
    assert!(tree.contains(&Interval::new(0, 10)));
    assert!(tree.contains(&Interval::new(3, 7)));
    assert!(tree.contains(&Interval::new(12, 12)));
    assert!(!tree.contains(&Interval::new(10, 12)));
    assert!(!tree.contains(&Interval::new(0, 20)));
    assert!(!tree.contains(&Interval::new(11, 11)));
    assert!(!tree.contains(&Interval::new(-1, 3)));
    assert!(!tree.contains(&Interval::new(18, 21)));
    assert!(!tree.contains(&Interval::new(30, 40)));
}

#[test]
fn single_values_go_in_and_out() {
    let mut tree = AVLIntervalTree::empty();
    tree.insert_value(7);
    assert!(tree.contains_value(7));
    assert!(!tree.contains_value(6));
    assert!(!tree.contains_value(8));
    tree.insert_value(9);
    assert_eq!(tree.number_of_nodes(), 2);
    tree.insert_value(8);
    assert_eq!(bounds(&tree), vec![(7, 9)]);
    tree.delete_value(8);
    assert_eq!(bounds(&tree), vec![(7, 7), (9, 9)]);
    tree.delete_value(8);
    assert_eq!(bounds(&tree), vec![(7, 7), (9, 9)]);
    tree.delete_value(7);
    tree.delete_value(9);
    assert!(tree.is_empty());
}

#[test]
fn ascending_and_descending_inserts_stay_balanced() {
    let mut up = AVLIntervalTree::empty();
    let mut down = AVLIntervalTree::empty();
    for k in 0..200 {
        up.insert(Interval::new(3 * k, 3 * k));
        down.insert(Interval::new(-3 * k, -3 * k));
        check_shape(&up);
        check_shape(&down);
    }
    assert_eq!(up.number_of_nodes(), 200);
    assert_eq!(down.number_of_nodes(), 200);
    let tallest = up.outline()[0].unwrap().0;
    assert!(tallest <= 11);
}

#[test]
fn zigzag_inserts_take_double_rotations() {
    let mut tree = AVLIntervalTree::empty();
    tree.insert(Interval::new(30, 30));
    tree.insert(Interval::new(10, 10));
    tree.insert(Interval::new(20, 20));
    check_shape(&tree);
    assert_eq!(tree.outline()[0].unwrap().1.start(), 20);
    assert_eq!(tree.outline()[0].unwrap().0, 2);

    let mut tree = AVLIntervalTree::empty();
    tree.insert(Interval::new(10, 10));
    tree.insert(Interval::new(30, 30));
    tree.insert(Interval::new(20, 20));
    check_shape(&tree);
    assert_eq!(tree.outline()[0].unwrap().1.start(), 20);

    let mut tree = AVLIntervalTree::empty();
    tree.insert(Interval::new(10, 10));
    tree.insert(Interval::new(20, 20));
    tree.insert(Interval::new(30, 30));
    check_shape(&tree);
    assert_eq!(tree.outline()[0].unwrap().1.start(), 20);

    let mut tree = AVLIntervalTree::empty();
    tree.insert(Interval::new(30, 30));
    tree.insert(Interval::new(20, 20));
    tree.insert(Interval::new(10, 10));
    check_shape(&tree);
    assert_eq!(tree.outline()[0].unwrap().1.start(), 20);
}

#[test]
fn outline_lists_root_then_left_then_right() {
    let mut tree = AVLIntervalTree::empty();
    tree.insert(Interval::new(10, 11));
    tree.insert(Interval::new(0, 1));
    tree.insert(Interval::new(20, 21));
    let listing: Vec<Option<(i32, (i32, i32))>> = tree
        .outline()
        .iter()
        .map(|entry| entry.map(|(height, interval)| (height, (interval.start(), interval.stop()))))
        .collect();
    assert_eq!(
        listing,
        vec![
            Some((2, (10, 11))),
            Some((1, (0, 1))),
            None,
            None,
            Some((1, (20, 21))),
            None,
            None,
        ]
    );
}

#[test]
fn whole_range_of_a_small_type() {
    let mut tree: AVLIntervalTree<u8> = AVLIntervalTree::empty();
    tree.insert(Interval::new(0, 255));
    assert!(tree.contains_value(0));
    assert!(tree.contains_value(255));
    tree.delete(&Interval::new(0, 0));
    tree.delete(&Interval::new(255, 255));
    assert!(!tree.contains_value(0));
    assert!(!tree.contains_value(255));
    assert!(tree.contains(&Interval::new(1, 254)));
    tree.insert_value(255);
    tree.insert_value(0);
    assert_eq!(tree.number_of_nodes(), 1);
    tree.delete(&Interval::new(0, 255));
    assert!(tree.is_empty());
}

#[test]
fn every_other_point_of_a_small_type() {
    let mut tree: AVLIntervalTree<i8> = AVLIntervalTree::empty();
    let mut value = i8::MIN;
    loop {
        tree.insert_value(value);
        if value >= i8::MAX - 1 {
            break;
        }
        value += 2;
    }
    assert!(tree.is_avl());
    assert_eq!(tree.number_of_nodes(), 128);
    assert!(tree.contains_value(i8::MIN));
    assert!(!tree.contains_value(i8::MAX));
    tree.insert(Interval::new(i8::MIN, i8::MAX));
    assert_eq!(tree.number_of_nodes(), 1);
    assert!(tree.contains(&Interval::new(i8::MIN, i8::MAX)));
}
