use ods::quicksort::quicksort;
use rand::rngs::StdRng;
use rand::{Rng, SeedableRng};
use std::cell::RefCell;

fn is_sorted(data: &[i64]) -> bool {
    data.windows(2).all(|w| w[0] <= w[1])
}

fn first(_n: usize) -> usize {
    0
}

fn last(n: usize) -> usize {
    n - 1
}

#[test]
fn test_quicksort() {
    let mut rng = rand::thread_rng();
    let mut v = (0..256).map(|_| rng.gen_range(0, 100)).collect::<Vec<i64>>();
    let rng = RefCell::new(rng);
    quicksort(&mut v, &|n: usize| rng.borrow_mut().gen_range(0, n));
    assert!(is_sorted(&v));
}

#[test]
fn quicksort_keeps_the_values() {
    let mut v = vec![5i64, -1, 3, 3, 9, 0, -7, 3, 12, 5];
    let mut expected = v.clone();
    expected.sort();
    quicksort(&mut v, &first);
    assert_eq!(v, expected);
}

#[test]
fn quicksort_edge_cases() {
    let mut empty: Vec<i64> = Vec::new();
    quicksort(&mut empty, &first);
    assert!(empty.is_empty());
    let mut one = vec![42i64];
    quicksort(&mut one, &first);
    assert_eq!(one, vec![42]);
    let mut same = vec![7i64; 20];
    quicksort(&mut same, &last);
    assert_eq!(same, vec![7; 20]);
    let mut extremes = vec![i64::MAX, i64::MIN, 0, i64::MIN, i64::MAX];
    quicksort(&mut extremes, &last);
    assert_eq!(extremes, vec![i64::MIN, i64::MIN, 0, i64::MAX, i64::MAX]);
}

#[test]
fn quicksort_with_a_seeded_generator_is_repeatable() {
    let mut a = (0..200i64).map(|x| (x * 7919) % 101).collect::<Vec<i64>>();
    let mut b = a.clone();
    let ra = RefCell::new(StdRng::seed_from_u64(7));
    let rb = RefCell::new(StdRng::seed_from_u64(8));
    quicksort(&mut a, &|n: usize| ra.borrow_mut().gen_range(0, n));
    quicksort(&mut b, &|n: usize| rb.borrow_mut().gen_range(0, n));
    assert_eq!(a, b);
    assert!(is_sorted(&a));
}
