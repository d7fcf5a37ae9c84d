use buddhabrot::goldbach::{comet_points, goldbach_pairs_count, sieve};

#[test]
fn sieve_of_small_limits() {
    assert_eq!(sieve(0), vec![false]);
    assert_eq!(sieve(1), vec![false, false]);
    assert_eq!(sieve(2), vec![false, false, true]);
}

#[test]
fn sieve_marks_exactly_the_primes() {
    let t = sieve(50);
    let primes: Vec<usize> = (0..t.len()).filter(|&i| t[i]).collect();
    assert_eq!(primes, vec![2, 3, 5, 7, 11, 13, 17, 19, 23, 29, 31, 37, 41, 43, 47]);
}

#[test]
fn sieve_agrees_with_trial_division() {
    let t = sieve(2000);
    for n in 0..=2000usize {
        let prime = n >= 2 && (2..n).all(|d| n % d != 0);
        assert_eq!(t[n], prime, "n = {}", n);
    }
}

#[test]
fn pairs_count_known_values() {
    let t = sieve(100);
    assert_eq!(goldbach_pairs_count(4, &t), 1);
    assert_eq!(goldbach_pairs_count(10, &t), 2);
    assert_eq!(goldbach_pairs_count(28, &t), 2);
    assert_eq!(goldbach_pairs_count(100, &t), 6);
    assert_eq!(goldbach_pairs_count(2, &t), 0);
    assert_eq!(goldbach_pairs_count(0, &t), 0);
}

#[test]
fn comet_points_small_range() {
    let (points, max) = comet_points(12);
    assert_eq!(points, vec![(4, 1), (6, 1), (8, 1), (10, 2), (12, 1)]);
    assert_eq!(max, 2);
}

#[test]
fn comet_points_empty_below_four() {
    let (points, max) = comet_points(3);
    assert!(points.is_empty());
    assert_eq!(max, 0);
}

#[test]
fn comet_points_default_range() {
    let (points, max) = comet_points(10_000);
    assert_eq!(points.len(), 4999);
    assert_eq!(points[0], (4, 1));
    assert_eq!(points[4998].0, 10_000);
    assert_eq!(points[4998].1, 127);
    assert!(points.iter().all(|&(_, c)| c <= max));
    assert!(points.iter().any(|&(_, c)| c == max));
}

#[test]
fn pairs_count_reads_no_further_than_n_minus_two() {
    let t = sieve(8);
    assert_eq!(goldbach_pairs_count(10, &t), 2);
    assert_eq!(goldbach_pairs_count(3, &[]), 0);
}
