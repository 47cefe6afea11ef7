use strict_heaps::sort::distribution::external_distribution_sort;
use strict_heaps::sort::quick::{quick_sort, quick_sort_range};
use strict_heaps::util::random::{random_array, random_range, random_samples};

#[test]
fn quick_correct() {
    let l: Vec<u64> = random_array(1024).into_iter().map(|x| x as u64).collect();
    let mut qsorted = l.clone();
    quick_sort(&mut *qsorted);
    let mut l = l;
    l.sort_unstable();
    assert!(l == qsorted);
}

#[test]
fn quick_sort_small_cases() {
    let mut e: Vec<u64> = Vec::new();
    quick_sort(&mut e);
    assert!(e.is_empty());
    let mut one = vec![7u64];
    quick_sort(&mut one);
    assert_eq!(one, [7]);
    let mut dup = vec![3u64, 1, 3, 2, 1, 3];
    quick_sort(&mut dup);
    assert_eq!(dup, [1, 1, 2, 3, 3, 3]);
    let mut desc: Vec<u64> = (0..100u64).rev().collect();
    quick_sort(&mut desc);
    assert_eq!(desc, (0..100u64).collect::<Vec<u64>>());
}

#[test]
fn quick_sort_range_leaves_rest() {
    let mut v = vec![9u64, 5, 4, 3, 0];
    quick_sort_range(&mut v, 1, 3);
    assert_eq!(v, [9, 3, 4, 5, 0]);
}

#[test]
fn random_helpers_stay_in_bounds() {
    for _ in 0..100 {
        let r = random_range(3, 7);
        assert!((3..7).contains(&r));
    }
    let a = [10u8, 20, 30];
    let s = random_samples(&a, 8);
    assert_eq!(s.len(), 8);
    assert!(s.iter().all(|x| a.contains(x)));
    assert_eq!(random_array(5).len(), 5);
}

#[test]
fn distribution_correct() {
    let mut l: Vec<u64> = random_array(1024).into_iter().map(|x| x as u64).collect();
    let dsorted = external_distribution_sort(&*l);
    l.sort_unstable();
    assert!(l == dsorted);
}

#[test]
fn distribution_sort_large_input() {
    let mut l: Vec<u64> = random_array(20000).into_iter().map(|x| (x % 1000) as u64).collect();
    let dsorted = external_distribution_sort(&l);
    l.sort_unstable();
    assert!(l == dsorted);
}

#[test]
fn distribution_sort_all_equal() {
    let l: Vec<u64> = vec![5; 5000];
    assert_eq!(external_distribution_sort(&l), l);
}
