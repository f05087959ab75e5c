use bitonic_sorter::bitonic::{sort, sort_by, splits_concurrently, PARALLEL_THRESHOLD};
use bitonic_sorter::utils::{is_sorted_ascending, is_sorted_descending, new_u32_vec};
use bitonic_sorter::{ShapeError, SortOrder};
use bitonic_sorter::SortOrder::{Ascending, Descending};

#[test]
fn sort_empty_and_singleton() {
    let mut empty: Vec<u32> = vec![];
    assert_eq!(sort(&mut empty, &Ascending), Ok(()));
    assert_eq!(empty, Vec::<u32>::new());
    assert_eq!(sort(&mut empty, &Descending), Ok(()));

    let mut one: Vec<u32> = vec![7];
    assert_eq!(sort(&mut one, &Ascending), Ok(()));
    assert_eq!(one, vec![7]);
}

#[test]
fn sort_pair_and_power_lengths() {
    let mut two: Vec<u32> = vec![9, 3];
    assert_eq!(sort(&mut two, &Ascending), Ok(()));
    assert_eq!(two, vec![3, 9]);

    let mut four: Vec<u32> = vec![2, 2, 1, 1];
    assert_eq!(sort(&mut four, &Descending), Ok(()));
    assert_eq!(four, vec![2, 2, 1, 1]);

    let mut big = new_u32_vec(16384);
    assert_eq!(sort(&mut big, &Ascending), Ok(()));
    assert!(is_sorted_ascending(&big));
}

#[test]
fn sort_signed_and_narrow_integers() {
    let mut x: Vec<i64> = vec![3, -5, 0, -5];
    assert_eq!(sort(&mut x, &Ascending), Ok(()));
    assert_eq!(x, vec![-5, -5, 0, 3]);

    let mut y: Vec<u8> = vec![255, 0];
    assert_eq!(sort(&mut y, &Descending), Ok(()));
    assert_eq!(y, vec![255, 0]);

    let mut z: Vec<usize> = vec![4, 3, 2, 1, 8, 7, 6, 5];
    assert_eq!(sort(&mut z, &Ascending), Ok(()));
    assert_eq!(z, vec![1, 2, 3, 4, 5, 6, 7, 8]);
}

#[test]
fn shape_error_reports_length_and_leaves_input_alone() {
    for n in [3usize, 5, 6, 7, 12, 100] {
        let mut x: Vec<u32> = (0..n as u32).rev().collect();
        let before = x.clone();
        let r = sort(&mut x, &Ascending);
        assert_eq!(r, Err(ShapeError { len: n }));
        assert_eq!(x, before);
        let r = sort(&mut x, &Descending);
        assert_eq!(r, Err(ShapeError { len: n }));
        assert_eq!(x, before);
        let r = sort_by(&mut x, &|a: &u32, b: &u32| a.cmp(b));
        assert_eq!(r, Err(ShapeError { len: n }));
        assert_eq!(x, before);
    }
}

#[test]
fn length_three_fails_both_directions() {
    let mut x: Vec<u32> = vec![10, 30, 11];
    assert_eq!(sort(&mut x, &Ascending), Err(ShapeError { len: 3 }));
    assert_eq!(x, vec![10, 30, 11]);
    assert_eq!(sort(&mut x, &Descending), Err(ShapeError { len: 3 }));
    assert_eq!(x, vec![10, 30, 11]);
}

#[test]
fn sorting_sorted_input_is_identity() {
    let mut x: Vec<u32> = vec![1, 2, 3, 4, 5, 6, 7, 8];
    assert_eq!(sort(&mut x, &Ascending), Ok(()));
    assert_eq!(x, vec![1, 2, 3, 4, 5, 6, 7, 8]);

    let mut y: Vec<u32> = vec![8, 7, 6, 5, 4, 3, 2, 1];
    assert_eq!(sort(&mut y, &Descending), Ok(()));
    assert_eq!(y, vec![8, 7, 6, 5, 4, 3, 2, 1]);
}

#[test]
fn repeated_runs_are_byte_identical() {
    let orders: [SortOrder; 2] = [Ascending, Descending];
    for order in &orders {
        let mut first = new_u32_vec(4096);
        assert_eq!(sort(&mut first, order), Ok(()));
        for _ in 0..3 {
            let mut again = new_u32_vec(4096);
            assert_eq!(sort(&mut again, order), Ok(()));
            assert_eq!(first, again);
        }
    }
}

#[test]
fn multiset_is_preserved() {
    let mut x: Vec<u32> = vec![5, 5, 1, 9, 9, 9, 0, 5];
    assert_eq!(sort(&mut x, &Ascending), Ok(()));
    assert_eq!(x, vec![0, 1, 5, 5, 5, 9, 9, 9]);
}

#[test]
fn equal_keys_keep_multiset_not_positions() {
    // Pairs compared by their first component only: the comparator calls
    // distinct values equal, so only sortedness of keys and the multiset of
    // pairs may be asserted, never exact positions.
    let input: Vec<(u32, u32)> = vec![(1, 9), (0, 3), (1, 8), (0, 4)];
    let mut x = input.clone();
    assert_eq!(sort_by(&mut x, &|a: &(u32, u32), b: &(u32, u32)| a.0.cmp(&b.0)), Ok(()));
    let keys: Vec<u32> = x.iter().map(|p| p.0).collect();
    assert_eq!(keys, vec![0, 0, 1, 1]);
    let mut seen = x.clone();
    seen.sort();
    let mut expected = input.clone();
    expected.sort();
    assert_eq!(seen, expected);
}

#[test]
fn descending_checker_matches() {
    let up: Vec<u32> = vec![1, 2, 3];
    let down: Vec<u32> = vec![3, 2, 2, 1];
    let flat: Vec<u32> = vec![4, 4];
    assert!(is_sorted_ascending(&up));
    assert!(!is_sorted_descending(&up));
    assert!(is_sorted_descending(&down));
    assert!(!is_sorted_ascending(&down));
    assert!(is_sorted_ascending(&flat));
    assert!(is_sorted_descending(&flat));
    assert!(is_sorted_ascending(&Vec::<u32>::new()));
    assert!(is_sorted_descending(&Vec::<u32>::new()));
}

#[test]
fn threshold_policy_compares_half_length() {
    assert_eq!(PARALLEL_THRESHOLD, 4096);
    assert!(splits_concurrently(4096, PARALLEL_THRESHOLD));
    assert!(splits_concurrently(5000, PARALLEL_THRESHOLD));
    assert!(!splits_concurrently(4095, PARALLEL_THRESHOLD));
    assert!(!splits_concurrently(0, PARALLEL_THRESHOLD));
    // A threshold above the data length forces fully sequential execution.
    assert!(!splits_concurrently(1 << 20, usize::MAX));
}

#[test]
fn generated_data_has_requested_length() {
    assert_eq!(new_u32_vec(0).len(), 0);
    assert_eq!(new_u32_vec(1).len(), 1);
    assert_eq!(new_u32_vec(1000).len(), 1000);
    // The generator is seeded with a constant: it must repeat itself.
    assert_eq!(new_u32_vec(64), new_u32_vec(64));
}
