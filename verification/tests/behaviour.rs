use timsort::merge::{merge, merge_hi, merge_lo};
use timsort::sort::min_run_length;
use timsort::{sort, sort_by};

/// A deterministic stream of pseudo-random numbers.
fn pseudo_random(seed: u64, len: usize, modulus: u64) -> Vec<u64> {
    let mut state = seed;
    let mut out = Vec::new();
    for _ in 0..len {
        state = state.wrapping_mul(6364136223846793005).wrapping_add(1442695040888963407);
        out.push((state >> 33) % modulus);
    }
    out
}

/// Pairs of key and position in the input.
fn tagged(keys: &[u64]) -> Vec<(u64, usize)> {
    keys.iter().enumerate().map(|(i, k)| (*k, i)).collect()
}

fn expect_stable_sort_by_key(keys: Vec<u64>) {
    let mut ours = tagged(&keys);
    let mut expected = ours.clone();
    expected.sort_by(|a, b| a.0.cmp(&b.0));
    sort_by(&mut ours, |a, b| a.0.cmp(&b.0));
    assert_eq!(ours, expected);
}

#[test]
fn random_keys_with_many_ties() {
    for (seed, len) in [(1u64, 10usize), (2, 63), (3, 64), (4, 65), (5, 200), (6, 1000), (7, 4097)] {
        expect_stable_sort_by_key(pseudo_random(seed, len, 7));
    }
}

#[test]
fn random_keys_mostly_distinct() {
    for (seed, len) in [(11u64, 100usize), (12, 777), (13, 3000)] {
        expect_stable_sort_by_key(pseudo_random(seed, len, 1_000_000));
    }
}

#[test]
fn descending_input_is_reversed() {
    let keys: Vec<u64> = (0..500u64).rev().collect();
    expect_stable_sort_by_key(keys);
}

#[test]
fn descending_with_equal_neighbours_stays_stable() {
    let keys: Vec<u64> = (0..300u64).map(|i| (300 - i) / 3).collect();
    expect_stable_sort_by_key(keys);
}

#[test]
fn sawtooth_runs() {
    let keys: Vec<u64> = (0..2000u64).map(|i| i % 97).collect();
    expect_stable_sort_by_key(keys);
}

#[test]
fn sorted_input_is_left_alone() {
    let mut list: Vec<u32> = (0..1000u32).map(|i| i / 2).collect();
    let before = list.clone();
    sort(&mut list);
    assert_eq!(list, before);
}

#[test]
fn sorting_twice_changes_nothing() {
    let mut list = tagged(&pseudo_random(21, 500, 10));
    sort_by(&mut list, |a, b| a.0.cmp(&b.0));
    let once = list.clone();
    sort_by(&mut list, |a, b| a.0.cmp(&b.0));
    assert_eq!(list, once);
}

#[test]
fn partial_ord_sort_of_floats() {
    let mut list = vec![2.5f64, -1.0, 3.25, 0.0, -7.5, 2.5];
    sort(&mut list);
    assert_eq!(list, vec![-7.5, -1.0, 0.0, 2.5, 2.5, 3.25]);
}

#[test]
fn partial_ord_sort_with_nan_keeps_items() {
    let mut list = vec![3.0f64, f64::NAN, 1.0, 2.0];
    sort(&mut list);
    assert_eq!(list.len(), 4);
    assert_eq!(list.iter().filter(|x| x.is_nan()).count(), 1);
    let mut rest: Vec<f64> = list.iter().cloned().filter(|x| !x.is_nan()).collect();
    rest.sort_by(|a, b| a.partial_cmp(b).unwrap());
    assert_eq!(rest, vec![1.0, 2.0, 3.0]);
}

#[test]
fn sort_with_inconsistent_comparator_keeps_items() {
    let keys = pseudo_random(31, 300, 50);
    let mut list = keys.clone();
    let mut calls = 0u64;
    let flip = std::cell::Cell::new(0u64);
    sort_by(&mut list, |a, b| {
        flip.set(flip.get() + 1);
        if flip.get() % 3 == 0 { b.cmp(a) } else { a.cmp(b) }
    });
    calls += flip.get();
    assert!(calls > 0);
    let mut got = list.clone();
    got.sort();
    let mut want = keys.clone();
    want.sort();
    assert_eq!(got, want);
}

fn expect_merges(first: Vec<u64>, second: Vec<u64>) {
    let mut keys = first.clone();
    keys.extend(second.iter().cloned());
    let base = tagged(&keys);
    let mut expected = base.clone();
    expected.sort_by(|a, b| a.0.cmp(&b.0));
    let mut a = base.clone();
    merge(&mut a, first.len(), |x: &(u64, usize), y: &(u64, usize)| x.0.cmp(&y.0));
    assert_eq!(a, expected);
    let mut b = base.clone();
    merge_lo(&mut b, first.len(), |x: &(u64, usize), y: &(u64, usize)| x.0.cmp(&y.0));
    assert_eq!(b, expected);
    let mut c = base.clone();
    merge_hi(&mut c, first.len(), second.len(), |x: &(u64, usize), y: &(u64, usize)| x.0.cmp(&y.0));
    assert_eq!(c, expected);
}

#[test]
fn merge_small_halves() {
    expect_merges(vec![1, 3, 5], vec![2, 3, 4, 6]);
    expect_merges(vec![], vec![1, 2]);
    expect_merges(vec![1, 2], vec![]);
    expect_merges(vec![5, 6, 7], vec![1, 2, 3]);
    expect_merges(vec![1, 2, 3], vec![5, 6, 7]);
    expect_merges(vec![2, 2, 2], vec![2, 2]);
}

#[test]
fn merge_long_winning_streaks_gallop() {
    // The second run wins many times in a row, then the first.
    let first: Vec<u64> = (0..100u64).map(|i| 1000 + i).chain(2000..2010).collect();
    let second: Vec<u64> = (0..300u64).chain(1500..1520).chain(3000..3005).collect();
    expect_merges(first.clone(), second.clone());
    expect_merges(second, first);
}

#[test]
fn merge_random_halves() {
    for seed in 40u64..48 {
        let mut first = pseudo_random(seed, (seed as usize) * 13 % 150, 30);
        let mut second = pseudo_random(seed + 100, (seed as usize) * 29 % 170, 30);
        first.sort();
        second.sort();
        expect_merges(first, second);
    }
}

#[test]
fn merge_exact_result() {
    let mut list = vec![1, 4, 9, 2, 3, 10];
    merge(&mut list, 3, |a: &i32, b: &i32| a.cmp(b));
    assert_eq!(list, vec![1, 2, 3, 4, 9, 10]);
}

#[test]
fn min_run_lengths() {
    assert_eq!(min_run_length(0), 0);
    assert_eq!(min_run_length(63), 63);
    assert_eq!(min_run_length(64), 32);
    assert_eq!(min_run_length(65), 33);
    assert_eq!(min_run_length(127), 64);
    assert_eq!(min_run_length(1000), 63);
    assert_eq!(min_run_length(1024), 32);
}

#[test]
fn two_items_in_each_order() {
    let mut a = vec![2u8, 1];
    sort(&mut a);
    assert_eq!(a, vec![1, 2]);
    let mut b = vec![1u8, 2];
    sort(&mut b);
    assert_eq!(b, vec![1, 2]);
    expect_stable_sort_by_key(vec![5, 5]);
    expect_stable_sort_by_key(vec![5, 4]);
}

#[test]
fn equal_keys_keep_their_order() {
    let mut list = vec![(1u8, 'a'), (0, 'b'), (1, 'c'), (0, 'd'), (1, 'e')];
    sort_by(&mut list, |x, y| x.0.cmp(&y.0));
    assert_eq!(list, vec![(0, 'b'), (0, 'd'), (1, 'a'), (1, 'c'), (1, 'e')]);
}
