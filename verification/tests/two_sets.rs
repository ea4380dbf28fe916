use two_sets::{solve_block_stride, solve_greedy_vector};

fn verify_solution(n: u32, set_a: &[u32], set_b: &[u32]) {
    let mut sum_a: u64 = 0;
    for &x in set_a {
        sum_a += x as u64;
    }
    let mut sum_b: u64 = 0;
    for &x in set_b {
        sum_b += x as u64;
    }
    assert_eq!(sum_a, sum_b, "Sums are not equal for n={}", n);

    let expected_sum = (n as u64) * (n as u64 + 1) / 4;
    assert_eq!(sum_a, expected_sum, "Sum is not equal to target sum for n={}", n);

    // Verify elements are 1..=n and distinct
    let mut present = vec![false; n as usize + 1];
    for &x in set_a {
        assert!(x >= 1 && x <= n);
        assert!(!present[x as usize]);
        present[x as usize] = true;
    }
    for &x in set_b {
        assert!(x >= 1 && x <= n);
        assert!(!present[x as usize]);
        present[x as usize] = true;
    }
    for i in 1..=n {
        assert!(present[i as usize], "Missing element {}", i);
    }
}

#[test]
fn test_impossible_cases() {
    assert!(solve_block_stride(1).is_none());
    assert!(solve_block_stride(2).is_none());
    assert!(solve_block_stride(5).is_none());
    assert!(solve_block_stride(6).is_none());

    assert!(solve_greedy_vector(1).is_none());
    assert!(solve_greedy_vector(2).is_none());
    assert!(solve_greedy_vector(5).is_none());
    assert!(solve_greedy_vector(6).is_none());
}

#[test]
fn test_valid_cases_block_stride() {
    let test_cases = [3, 4, 7, 8, 11, 12, 15, 16, 99, 100, 999, 1000];
    for &n in &test_cases {
        let res = solve_block_stride(n);
        assert!(res.is_some(), "Failed for n={}", n);
        let (set_a, set_b) = res.unwrap();
        verify_solution(n, &set_a, &set_b);
    }
}

#[test]
fn test_valid_cases_greedy_vector() {
    let test_cases = [3, 4, 7, 8, 11, 12, 15, 16, 99, 100, 999, 1000];
    for &n in &test_cases {
        let res = solve_greedy_vector(n);
        assert!(res.is_some(), "Failed for n={}", n);
        let (set_a, set_b) = res.unwrap();
        verify_solution(n, &set_a, &set_b);
    }
}

#[test]
fn block_stride_exact_sets() {
    assert_eq!(solve_block_stride(3), Some((vec![1, 2], vec![3])));
    assert_eq!(solve_block_stride(4), Some((vec![1, 4], vec![2, 3])));
    assert_eq!(solve_block_stride(7), Some((vec![1, 2, 4, 7], vec![3, 5, 6])));
    assert_eq!(solve_block_stride(8), Some((vec![1, 4, 5, 8], vec![2, 3, 6, 7])));
}

#[test]
fn greedy_exact_sets() {
    assert_eq!(solve_greedy_vector(3), Some((vec![3], vec![1, 2])));
    assert_eq!(solve_greedy_vector(4), Some((vec![1, 4], vec![2, 3])));
    assert_eq!(solve_greedy_vector(7), Some((vec![1, 6, 7], vec![2, 3, 4, 5])));
    assert_eq!(solve_greedy_vector(8), Some((vec![3, 7, 8], vec![1, 2, 4, 5, 6])));
}

#[test]
fn zero_has_the_empty_split() {
    assert_eq!(solve_block_stride(0), Some((vec![], vec![])));
    assert_eq!(solve_greedy_vector(0), Some((vec![], vec![])));
}

#[test]
fn solvers_agree_on_existence() {
    for n in 0..200u32 {
        let a = solve_block_stride(n).is_some();
        let b = solve_greedy_vector(n).is_some();
        assert_eq!(a, b, "n={}", n);
        assert_eq!(a, n % 4 == 0 || n % 4 == 3, "n={}", n);
    }
}

#[test]
fn larger_cases_are_equal_splits() {
    for &n in &[4095u32, 65536, 100003] {
        let (a, b) = solve_block_stride(n).unwrap();
        verify_solution(n, &a, &b);
        let (a, b) = solve_greedy_vector(n).unwrap();
        verify_solution(n, &a, &b);
    }
}
