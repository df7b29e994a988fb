use avl_interval_tree::{AVLIntervalTree, Interval, IntervalTree};
use rand::{thread_rng, Rng};
use std::collections::HashSet;
use std::error::Error;

fn random_interval<T: Rng>(rng: &mut T) -> Interval<i8> {
    let start = rng.gen::<i8>();
    let stop = rng.gen::<i8>();
    Interval::new(i8::min(start, stop), i8::max(start, stop))
}

fn random_interval_small<T: Rng>(rng: &mut T) -> Interval<i8> {
    let start = rng.gen::<i8>();
    let (start, stop) = if start >= i8::MAX - 5 { (start - 5, start) } else { (start, start + 5) };
    Interval::new(start, stop)
}

fn show(interval: &Interval<i8>) -> String {
    format!("[{}, {}]", interval.start(), interval.stop())
}

fn test_item_in_tree<T: Rng>(
    rng: &mut T,
    tree: &mut AVLIntervalTree<i8>,
    items_in_tree: &mut HashSet<i8>,
) -> Result<(), Box<dyn Error>> {
    let x: i8 = rng.gen();
    let contained_in_tree = tree.contains_value(x);
    let contained_in_set = items_in_tree.contains(&x);
    if contained_in_tree != contained_in_set {
        println!("{:?}", tree.outline());
        println!("Failed test value: {x} (set: {contained_in_set}, tree: {contained_in_tree})");
        assert_eq!(contained_in_set, contained_in_tree);
    }
    Ok(())
}

#[test]
fn random_test_avl_tree_insert() -> Result<(), Box<dyn Error>> {
    let mut tree: AVLIntervalTree<i8> = AVLIntervalTree::empty();
    let mut items_in_tree: HashSet<i8> = HashSet::new();
    let mut rng = thread_rng();
    const ITERATIONS: i32 = 10;
    const SAMPLES_PER_ITERATION: i32 = 10;
    for _ in 0..ITERATIONS {
        let interval = random_interval_small(&mut rng);
        items_in_tree.extend(interval.start()..=interval.stop());
        println!("Insert: {}", show(&interval));
        tree.insert(interval);
        println!("{:?}", tree.outline());
        assert!(tree.is_avl());
        for _ in 0..SAMPLES_PER_ITERATION {
            test_item_in_tree(&mut rng, &mut tree, &mut items_in_tree)?;
        }
    }
    Ok(())
}

#[test]
fn random_test_avl_tree() -> Result<(), Box<dyn Error>> {
    let mut tree: AVLIntervalTree<i8> = AVLIntervalTree::empty();
    let mut items_in_tree: HashSet<i8> = HashSet::new();
    let mut rng = thread_rng();
    const ITERATORS: i32 = 1000;
    const SAMPLES_PER_ITERATION: i32 = 100;
    for _ in 0..ITERATORS {
        let perform_random_insert = rng.gen_bool(0.5);
        if perform_random_insert || items_in_tree.is_empty() {
            let interval = random_interval(&mut rng);
            items_in_tree.extend(interval.start()..=interval.stop());
            println!("Insert: {}", show(&interval));
            tree.insert(interval);
        } else {
            let interval = random_interval(&mut rng);
            for x in interval.start()..=interval.stop() {
                items_in_tree.remove(&x);
            }
            tree.delete(&interval);
            println!("Delete: {}", show(&interval));
        }
        assert!(tree.is_avl());
        for _ in 0..SAMPLES_PER_ITERATION {
            test_item_in_tree(&mut rng, &mut tree, &mut items_in_tree)?;
        }
    }
    println!("{:?}", tree.outline());
    Ok(())
}

/// A step of a fixed sequence of numbers that looks random.
fn step(state: &mut u64) -> u64 {
    *state = state.wrapping_mul(6364136223846793005).wrapping_add(1442695040888963407);
    *state >> 33
}

fn recorded_height(listing: &[Option<(i32, Interval<i32>)>], at: &mut usize) -> i32 {
    let entry = listing[*at];
    *at += 1;
    match entry {
        None => 0,
        Some((height, _)) => {
            let left = recorded_height(listing, at);
            let right = recorded_height(listing, at);
            assert!((left - right).abs() <= 1);
            assert_eq!(height, 1 + left.max(right));
            height
        }
    }
}

fn runs_of(model: &[bool]) -> Vec<(i32, i32)> {
    let mut runs = Vec::new();
    let mut at = 0;
    while at < model.len() {
        if model[at] {
            let start = at;
            while at + 1 < model.len() && model[at + 1] {
                at += 1;
            }
            runs.push((start as i32, at as i32));
        }
        at += 1;
    }
    runs
}

fn differential_run(seed: u64, width: usize, longest: usize, steps: usize) {
    let mut state = seed;
    let mut tree: AVLIntervalTree<i32> = AVLIntervalTree::empty();
    let mut model = vec![false; width];
    for _ in 0..steps {
        let start = (step(&mut state) as usize) % width;
        let length = (step(&mut state) as usize) % longest;
        let stop = usize::min(width - 1, start + length);
        let interval = Interval::new(start as i32, stop as i32);
        let kind = step(&mut state) % 4;
        if kind < 2 {
            tree.insert(interval);
            for at in start..=stop {
                model[at] = true;
            }
        } else if kind == 2 {
            tree.delete(&interval);
            for at in start..=stop {
                model[at] = false;
            }
        } else {
            let expected = (start..=stop).all(|at| model[at]);
            assert_eq!(tree.contains(&interval), expected);
        }
        assert!(tree.is_avl());
        let listing = tree.outline();
        let mut at = 0;
        recorded_height(&listing, &mut at);
        assert_eq!(at, listing.len());
        let stored: Vec<(i32, i32)> =
            tree.intervals().iter().map(|interval| (interval.start(), interval.stop())).collect();
        assert_eq!(stored, runs_of(&model));
        assert_eq!(tree.number_of_nodes() as usize, stored.len());
        assert_eq!(tree.is_empty(), stored.is_empty());
        for _ in 0..20 {
            let value = (step(&mut state) as usize) % width;
            assert_eq!(tree.contains_value(value as i32), model[value]);
        }
    }
}

#[test]
fn differential_run_with_short_intervals() {
    differential_run(1, 2000, 6, 3000);
}

#[test]
fn differential_run_with_long_intervals() {
    differential_run(2, 2000, 300, 3000);
}

#[test]
fn differential_run_with_mixed_intervals() {
    let mut state = 7u64;
    let mut tree: AVLIntervalTree<i32> = AVLIntervalTree::empty();
    let mut model = vec![false; 4000];
    for round in 0..2500 {
        let start = (step(&mut state) as usize) % 4000;
        let longest = if round % 50 == 49 { 1500 } else { 3 };
        let length = (step(&mut state) as usize) % longest;
        let stop = usize::min(3999, start + length);
        let interval = Interval::new(start as i32, stop as i32);
        if round % 50 == 49 && step(&mut state) % 2 == 0 {
            tree.delete(&interval);
            for at in start..=stop {
                model[at] = false;
            }
        } else {
            tree.insert(interval);
            for at in start..=stop {
                model[at] = true;
            }
        }
        assert!(tree.is_avl());
        let listing = tree.outline();
        let mut at = 0;
        recorded_height(&listing, &mut at);
        let stored: Vec<(i32, i32)> =
            tree.intervals().iter().map(|interval| (interval.start(), interval.stop())).collect();
        assert_eq!(stored, runs_of(&model));
    }
}
