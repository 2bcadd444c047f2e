use rand::rngs::StdRng;
use rand::{thread_rng, Rng, SeedableRng};
use seg_trees::fenwick::Fenwick;

#[test]
fn stress() {
    let mut rnd = StdRng::from_rng(thread_rng()).unwrap();
    const MAX_N: usize = 100;
    const MAX_VAL: i32 = std::i32::MAX;
    const TESTS_N: usize = 100;

    for _ in 0..TESTS_N {
        let n: usize = rnd.gen_range(1..=MAX_N);
        let mut fenw = Fenwick::new(n);
        let mut slow_vec = vec![0i64; n];
        for _ in 0..TESTS_N {
            let pos = rnd.gen_range(0..n);
            if rnd.gen_bool(0.5) {
                let sum_from_fenw = fenw.get_sum(pos);
                let sum_slow: i64 = slow_vec[0..=pos].iter().sum();
                assert_eq!(sum_from_fenw, sum_slow);
            } else {
                let change = rnd.gen_range(0..MAX_VAL) as i64;
                fenw.add(pos, change);
                slow_vec[pos] += change;
            }
        }
    }
}

#[test]
fn fenwick_prefix_sums_after_point_updates() {
    let mut f = Fenwick::new(8);
    f.add(0, 5);
    f.add(3, -2);
    f.add(7, 10);
    assert_eq!(f.get_sum(0), 5);
    assert_eq!(f.get_sum(2), 5);
    assert_eq!(f.get_sum(3), 3);
    assert_eq!(f.get_sum(6), 3);
    assert_eq!(f.get_sum(7), 13);
}

#[test]
fn fenwick_new_is_all_zero() {
    let f = Fenwick::new(5);
    for i in 0..5 {
        assert_eq!(f.get_sum(i), 0);
    }
}

#[test]
fn fenwick_single_element() {
    let mut f = Fenwick::new(1);
    f.add(0, -7);
    f.add(0, 3);
    assert_eq!(f.get_sum(0), -4);
}

#[test]
fn fenwick_add_past_end_changes_nothing() {
    let mut f = Fenwick::new(3);
    f.add(1, 4);
    f.add(3, 100);
    f.add(10, 100);
    assert_eq!(f.get_sum(2), 4);
}
