use heapsort::sort::heapsort;

use std::cell::Cell;

fn asc(a: &u64, b: &u64) -> bool {
    *a < *b
}

fn desc(a: &u64, b: &u64) -> bool {
    *a > *b
}

/// A simple deterministic pseudo-random stream (64-bit LCG).
struct Lcg {
    state: u64,
}

impl Lcg {
    fn new(seed: u64) -> Lcg {
        Lcg { state: seed }
    }

    fn next(&mut self) -> u64 {
        self.state = self
            .state
            .wrapping_mul(6364136223846793005)
            .wrapping_add(1442695040888963407);
        self.state >> 16
    }
}

#[test]
fn concrete_scenario_ascending() {
    let mut v: Vec<u64> = vec![5, 3, 8, 1, 9, 2];
    heapsort(&mut v, &asc);
    assert_eq!(v, vec![1, 2, 3, 5, 8, 9]);
}

#[test]
fn concrete_scenario_all_equal() {
    let mut v: Vec<u64> = vec![2, 2, 2];
    heapsort(&mut v, &asc);
    assert_eq!(v, vec![2, 2, 2]);
}

#[test]
fn two_elements_both_orders() {
    let mut v: Vec<u64> = vec![1, 2];
    heapsort(&mut v, &asc);
    assert_eq!(v, vec![1, 2]);

    let mut w: Vec<u64> = vec![2, 1];
    heapsort(&mut w, &asc);
    assert_eq!(w, vec![1, 2]);

    let mut x: Vec<u64> = vec![1, 2];
    heapsort(&mut x, &desc);
    assert_eq!(x, vec![2, 1]);

    let mut y: Vec<u64> = vec![2, 1];
    heapsort(&mut y, &desc);
    assert_eq!(y, vec![2, 1]);
}

#[test]
fn short_inputs_untouched() {
    let mut v: Vec<u64> = vec![];
    heapsort(&mut v, &asc);
    assert_eq!(v, Vec::<u64>::new());

    let mut w: Vec<u64> = vec![7];
    heapsort(&mut w, &asc);
    assert_eq!(w, vec![7]);
}

#[test]
fn descending_comparator() {
    let mut v: Vec<u64> = vec![5, 3, 8, 1, 9, 2];
    heapsort(&mut v, &desc);
    assert_eq!(v, vec![9, 8, 5, 3, 2, 1]);
}

#[test]
fn strictly_descending_input() {
    let mut v: Vec<u64> = (0..1000).rev().collect();
    heapsort(&mut v, &asc);
    let expected: Vec<u64> = (0..1000).collect();
    assert_eq!(v, expected);
}

#[test]
fn already_sorted_left_unchanged() {
    let mut v: Vec<u64> = (0..500).map(|i| i * 3).collect();
    let before = v.clone();
    heapsort(&mut v, &asc);
    assert_eq!(v, before);
}

#[test]
fn permutation_of_random_input() {
    let mut rng = Lcg::new(42);
    let mut v: Vec<u64> = (0..2000).map(|_| rng.next() % 100).collect();
    let mut expected = v.clone();
    expected.sort();
    heapsort(&mut v, &asc);
    assert_eq!(v, expected);
}

#[test]
fn equal_keys_kept_not_order() {
    // Distinguishable elements that compare equal on their key: the sort must
    // keep the multiset and order the keys; reordering equal-key elements is
    // acceptable (the sort is not stable), so only those facts are asserted.
    let mut v: Vec<(u64, u64)> = vec![(1, 0), (0, 0), (1, 1), (0, 1), (1, 2)];
    let by_key = |a: &(u64, u64), b: &(u64, u64)| a.0 < b.0;
    heapsort(&mut v, &by_key);
    let keys: Vec<u64> = v.iter().map(|p| p.0).collect();
    assert_eq!(keys, vec![0, 0, 1, 1, 1]);
    let mut tagged = v.clone();
    tagged.sort();
    assert_eq!(tagged, vec![(0, 0), (0, 1), (1, 0), (1, 1), (1, 2)]);
}

#[test]
fn comparator_call_count_within_bound() {
    let n: usize = 10_000;
    let mut rng = Lcg::new(7);
    let mut v: Vec<u64> = (0..n).map(|_| rng.next()).collect();
    let calls = Cell::new(0u64);
    let counting = |a: &u64, b: &u64| {
        calls.set(calls.get() + 1);
        *a < *b
    };
    heapsort(&mut v, &counting);
    for i in 1..n {
        assert!(v[i - 1] <= v[i]);
    }
    let mut log2_ceil = 0u64;
    while (1u64 << log2_ceil) < n as u64 {
        log2_ceil += 1;
    }
    // Heapsort makes at most about 2 n log2(n) comparisons; allow slack.
    let bound = 3 * (n as u64) * log2_ceil;
    assert!(calls.get() <= bound, "comparator called {} times", calls.get());
}

#[test]
fn all_equal_large_terminates() {
    let mut v: Vec<u64> = vec![9; 4096];
    let calls = Cell::new(0u64);
    let counting = |a: &u64, b: &u64| {
        calls.set(calls.get() + 1);
        *a < *b
    };
    heapsort(&mut v, &counting);
    assert_eq!(v, vec![9; 4096]);
    let n = 4096u64;
    let bound = 3 * n * 12;
    assert!(calls.get() <= bound, "comparator called {} times", calls.get());
}
