use math::goldbach::{build_sieve, goldbach_pairs, goldbach_partners, is_prime};

fn lines_of(pairs: &[(u64, u64, u64)]) -> Vec<String> {
    pairs.iter().map(|(n, p, q)| format!("{} {} {}", n, p, q)).collect()
}

// --- build_sieve ---

#[test]
fn test_build_sieve_limit_2() {
    assert!(build_sieve(2).is_empty());
}

#[test]
fn test_build_sieve_limit_3() {
    let sieve = build_sieve(3);
    assert!(!sieve.is_empty());
    assert!(is_prime(3, &sieve));
}

#[test]
fn test_build_sieve_limit_10_primes_correct() {
    let sieve = build_sieve(10);
    assert!(is_prime(3, &sieve));
    assert!(is_prime(5, &sieve));
    assert!(is_prime(7, &sieve));
    assert!(!is_prime(9, &sieve));
}

#[test]
fn test_build_sieve_limit_100_prime_count() {
    let sieve = build_sieve(100);
    let count = (3u64..=100).step_by(2).filter(|&n| is_prime(n, &sieve)).count();
    assert_eq!(count, 24);
}

// --- is_prime ---

#[test]
fn test_is_prime_edge_cases() {
    let sieve = build_sieve(10);
    assert!(!is_prime(0, &sieve));
    assert!(!is_prime(1, &sieve));
    assert!(is_prime(2, &sieve));
}

#[test]
fn test_is_prime_small_values() {
    let sieve = build_sieve(10);
    assert!(is_prime(3, &sieve));
    assert!(!is_prime(4, &sieve));
    assert!(is_prime(5, &sieve));
    assert!(!is_prime(6, &sieve));
    assert!(is_prime(7, &sieve));
    assert!(!is_prime(9, &sieve));
}

#[test]
fn test_is_prime_large_prime_and_composite() {
    let sieve = build_sieve(100);
    assert!(is_prime(97, &sieve));
    assert!(!is_prime(91, &sieve));
}

#[test]
fn is_prime_agrees_with_trial_division() {
    let sieve = build_sieve(2000);
    for n in 0u64..=2000 {
        let trial = n >= 2 && (2..n).take_while(|d| d * d <= n).all(|d| n % d != 0);
        assert_eq!(is_prime(n, &sieve), trial, "n = {}", n);
    }
}

#[test]
fn even_numbers_above_two_are_not_prime() {
    for n in 2u64..=500 {
        let sieve = build_sieve(n * 2 + 1);
        assert!(!is_prime(n * 2, &sieve));
    }
}

// --- goldbach_pairs ---

#[test]
fn test_goldbach_pairs_limit_4() {
    let sieve = build_sieve(4);
    let pairs = goldbach_pairs(4, &sieve);
    assert_eq!(pairs.len(), 1);
    assert_eq!(lines_of(&pairs), vec!["4 2 2"]);
}

#[test]
fn test_goldbach_pairs_limit_10_exact() {
    let sieve = build_sieve(10);
    let pairs = goldbach_pairs(10, &sieve);
    assert_eq!(pairs.len(), 5);
    let lines = lines_of(&pairs);
    assert_eq!(lines[0], "4 2 2");
    assert_eq!(lines[1], "6 3 3");
    assert_eq!(lines[2], "8 3 5");
    assert_eq!(lines[3], "10 3 7");
    assert_eq!(lines[4], "10 5 5");
}

#[test]
fn test_goldbach_pairs_count_matches_lines() {
    let sieve = build_sieve(10);
    let pairs = goldbach_pairs(10, &sieve);
    assert_eq!(pairs.len(), lines_of(&pairs).len());
}

#[test]
fn test_goldbach_pairs_limit_20() {
    let sieve = build_sieve(20);
    let pairs = goldbach_pairs(20, &sieve);
    let lines = lines_of(&pairs);
    assert!(lines.iter().any(|l| l == "20 3 17"));
    for &(n, p, q) in &pairs {
        assert!(is_prime(p, &sieve));
        assert!(is_prime(q, &sieve));
        assert_eq!(p + q, n);
        assert!(p <= q);
    }
}

#[test]
fn goldbach_pairs_limit_100_ends_with_47_53() {
    let sieve = build_sieve(100);
    let pairs = goldbach_pairs(100, &sieve);
    assert_eq!(pairs.last(), Some(&(100, 47, 53)));
    // Every even number from 4 to 100 has at least one decomposition.
    for n in (4u64..=100).step_by(2) {
        assert!(pairs.iter().any(|&(m, _, _)| m == n), "n = {}", n);
    }
}

#[test]
fn goldbach_partners_of_28() {
    let sieve = build_sieve(28);
    assert_eq!(goldbach_partners(28, &sieve), vec![5, 11]);
}

#[test]
fn goldbach_pairs_below_four_is_empty() {
    let sieve = build_sieve(3);
    assert!(goldbach_pairs(3, &sieve).is_empty());
}
