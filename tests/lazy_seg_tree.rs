use rand::rngs::StdRng;
use rand::{Rng, SeedableRng};
use seg_trees::algebra::Algebra;
use seg_trees::lazy_seg_tree::LazySegTree;

#[test]
fn stress_plus_sum() {
    const MAX_N: usize = 50;
    const MAX_VAL: i32 = 1000_000;
    const TESTS_N: usize = 300;
    const OPS_IN_TEST: usize = 100;

    for t in 0..TESTS_N {
        let mut rnd = StdRng::seed_from_u64(787788 + t as u64);
        let n: usize = rnd.gen_range(1..=MAX_N);
        let mut tree = LazySegTree::new(Algebra::PlusSum, 0, n);
        let mut slow_vec = vec![0i64; n];
        for _ in 0..OPS_IN_TEST {
            let left = rnd.gen_range(0..n);
            let right = rnd.gen_range(left..=n);
            if rnd.gen_bool(0.5) {
                let sum_from_tree = tree.get(left, right);
                let sum_slow: i64 = slow_vec[left..right].iter().sum();
                assert_eq!(sum_from_tree, sum_slow);
            } else {
                let change = rnd.gen_range(0..MAX_VAL) as i64;
                tree.apply(left, right, change);
                for v in &mut slow_vec[left..right] {
                    *v += change;
                }
            }
        }
    }
}

#[test]
fn stress_plus_min() {
    const MAX_N: usize = 50;
    const MAX_VAL: i32 = 1000_000;
    const TESTS_N: usize = 300;
    const OPS_IN_TEST: usize = 100;

    for t in 0..TESTS_N {
        let mut rnd = StdRng::seed_from_u64(787788 + t as u64);
        let n: usize = rnd.gen_range(1..=MAX_N);
        let init_val = 123;
        let mut tree = LazySegTree::new(Algebra::PlusMin, init_val, n);
        let mut slow_vec = vec![init_val; n];
        for _ in 0..OPS_IN_TEST {
            let left = rnd.gen_range(0..n);
            let right = rnd.gen_range((left + 1)..=n);
            if rnd.gen_bool(0.5) {
                let sum_from_tree = tree.get(left, right);
                let sum_slow = *slow_vec[left..right].iter().min().unwrap();
                assert_eq!(sum_from_tree, sum_slow);
            } else {
                let change = rnd.gen_range(0..MAX_VAL) as i64;
                tree.apply(left, right, change);
                for v in &mut slow_vec[left..right] {
                    *v += change;
                }
            }
        }
    }
}

#[test]
fn sum_scenario_add_three_to_middle() {
    let mut tree = LazySegTree::new(Algebra::PlusSum, 0, 5);
    tree.apply(1, 4, 3);
    assert_eq!(tree.get(0, 5), 9);
    assert_eq!(tree.get(1, 3), 6);
    assert_eq!(tree.get(0, 1), 0);
}

#[test]
fn min_scenario_two_overlapping_adds() {
    let mut tree = LazySegTree::new(Algebra::PlusMin, 0, 5);
    tree.apply(0, 5, 10);
    tree.apply(2, 5, 5);
    assert_eq!(tree.get(0, 5), 10);
    assert_eq!(tree.get(2, 5), 15);
    assert_eq!(tree.get(0, 2), 10);
    assert_eq!(tree.get(3, 4), 15);
}

#[test]
fn sum_law_range_grows_by_delta_times_width() {
    let mut tree = LazySegTree::new(Algebra::PlusSum, 2, 10);
    tree.apply(0, 10, 1);
    let before = tree.get(3, 8);
    let outside_before = tree.get(0, 3);
    tree.apply(3, 8, -4);
    assert_eq!(tree.get(3, 8), before - 4 * 5);
    assert_eq!(tree.get(0, 3), outside_before);
    assert_eq!(tree.get(8, 10), 6);
}

#[test]
fn min_law_range_grows_by_delta() {
    let mut tree = LazySegTree::new(Algebra::PlusMin, 7, 9);
    tree.apply(2, 4, -3);
    let before = tree.get(1, 6);
    tree.apply(1, 6, 11);
    assert_eq!(before, 4);
    assert_eq!(tree.get(1, 6), before + 11);
}

#[test]
fn no_push_update_changes_nothing() {
    let mut tree = LazySegTree::new(Algebra::PlusSum, 1, 6);
    tree.apply(1, 4, 2);
    let whole = tree.get(0, 6);
    let part = tree.get(2, 5);
    tree.apply(0, 6, Algebra::PlusSum.no_push());
    assert_eq!(tree.get(0, 6), whole);
    assert_eq!(tree.get(2, 5), part);
}

#[test]
fn empty_range_query_is_identity() {
    let mut sum_tree = LazySegTree::new(Algebra::PlusSum, 5, 4);
    assert_eq!(sum_tree.get(2, 2), 0);
    sum_tree.apply(3, 3, 100);
    assert_eq!(sum_tree.get(0, 4), 20);
    let mut min_tree = LazySegTree::new(Algebra::PlusMin, 5, 4);
    assert_eq!(min_tree.get(4, 4), i64::MAX);
    min_tree.apply(0, 0, -100);
    assert_eq!(min_tree.get(0, 4), 5);
}

#[test]
fn single_element_tree_returns_initial_value() {
    let mut tree = LazySegTree::new(Algebra::PlusMin, 42, 1);
    assert_eq!(tree.get(0, 1), 42);
    tree.apply(0, 1, -2);
    assert_eq!(tree.get(0, 1), 40);
    let mut sum_tree = LazySegTree::new(Algebra::PlusSum, -9, 1);
    assert_eq!(sum_tree.get(0, 1), -9);
}

#[test]
fn queries_after_nested_updates_push_down_correctly() {
    let mut tree = LazySegTree::new(Algebra::PlusSum, 0, 7);
    tree.apply(0, 7, 1);
    tree.apply(2, 6, 2);
    tree.apply(5, 7, 3);
    let expected = [1i64, 1, 3, 3, 3, 6, 4];
    for l in 0..7 {
        for r in l..=7 {
            let want: i64 = expected[l..r].iter().sum();
            assert_eq!(tree.get(l, r), want);
        }
    }
}

#[test]
fn algebra_operations() {
    assert_eq!(Algebra::PlusSum.id(), 0);
    assert_eq!(Algebra::PlusMin.id(), i64::MAX);
    assert_eq!(Algebra::PlusSum.join_elems(&3, &4), 7);
    assert_eq!(Algebra::PlusMin.join_elems(&3, &-4), -4);
    assert_eq!(Algebra::PlusSum.apply_push(&10, &3, 2, 6), 22);
    assert_eq!(Algebra::PlusMin.apply_push(&10, &3, 2, 6), 13);
    let mut p = 5i64;
    Algebra::PlusSum.join_pushes(&mut p, &-8);
    assert_eq!(p, -3);
    assert_eq!(Algebra::PlusMin.no_push(), 0);
}

#[test]
fn relaxation_counter_counts_pushes() {
    let mut tree = LazySegTree::new(Algebra::PlusSum, 0, 4);
    assert_eq!(tree.relaxations(), 0);
    tree.apply(0, 4, 1);
    assert_eq!(tree.relaxations(), 0);
    tree.apply(1, 2, 1);
    assert!(tree.relaxations() > 0);
    assert_eq!(tree.get(0, 4), 5);
}
