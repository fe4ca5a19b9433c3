use math::bignum::BigNat;
use math::perfect_numbers::{examine_candidate, search_bound, Candidate};
use math::perfect_numbers::{generate_perfect_numbers, is_prime, lucas_lehmer, verify_perfect};

// --- is_prime ---

#[test]
fn test_is_prime_zero() {
    assert!(!is_prime(0));
}

#[test]
fn test_is_prime_one() {
    assert!(!is_prime(1));
}

#[test]
fn test_is_prime_two() {
    assert!(is_prime(2));
}

#[test]
fn test_is_prime_four() {
    assert!(!is_prime(4));
}

#[test]
fn test_is_prime_small_primes() {
    for p in [3u64, 5, 7, 11, 13, 17, 19, 23, 29, 31, 89] {
        assert!(is_prime(p), "{p} should be prime");
    }
}

#[test]
fn test_is_prime_composites() {
    for n in [4u64, 6, 9, 15, 25, 91] {
        assert!(!is_prime(n), "{n} should be composite");
    }
}

#[test]
fn even_numbers_above_two_are_composite() {
    for n in 2u64..=1_000 {
        assert!(!is_prime(n * 2));
    }
}

#[test]
fn is_prime_large_values() {
    assert!(is_prime(1_000_000_007));
    assert!(!is_prime(1_000_000_007 * 3));
    assert!(is_prime(4_294_967_291));
}

// --- lucas_lehmer ---

#[test]
fn test_lucas_lehmer_known_mersenne_primes() {
    for p in [2u64, 3, 5, 7, 13, 17, 19, 31, 61, 89] {
        assert!(lucas_lehmer(p), "p={p} should be Mersenne prime");
    }
}

#[test]
fn test_lucas_lehmer_known_failures() {
    for p in [11u64, 23, 29, 37, 41] {
        assert!(!lucas_lehmer(p), "p={p} should not be Mersenne prime");
    }
}

// --- verify_perfect ---

#[test]
fn test_verify_perfect_known_exponents() {
    for p in [2u64, 3, 5, 7, 13, 17, 19] {
        assert!(verify_perfect(p), "p={p} should verify as perfect");
    }
}

// --- generate_perfect_numbers ---

#[test]
fn test_generate_limit_5_empty() {
    assert!(generate_perfect_numbers(&BigNat::from_u64(5)).is_empty());
}

#[test]
fn test_generate_limit_10_yields_6() {
    let result = generate_perfect_numbers(&BigNat::from_u64(10));
    assert_eq!(result.len(), 1);
    assert_eq!(result[0].0, 2);
    assert_eq!(result[0].1.to_decimal(), "6");
}

#[test]
fn test_generate_limit_10000_yields_4() {
    let result = generate_perfect_numbers(&BigNat::from_u64(10000));
    assert_eq!(result.len(), 4);
    assert_eq!(result[3].0, 7u64);
    let values: Vec<String> = result.iter().map(|(_, v)| v.to_decimal()).collect();
    assert_eq!(values, vec!["6", "28", "496", "8128"]);
}

#[test]
fn test_generate_limit_n54_yields_10() {
    let limit = BigNat::pow(10, 54);
    let result = generate_perfect_numbers(&limit);
    assert_eq!(result.len(), 10);
    assert_eq!(result[9].0, 89u64);
}

#[test]
fn generate_limit_is_inclusive() {
    let result = generate_perfect_numbers(&BigNat::from_u64(28));
    assert_eq!(result.len(), 2);
    let result = generate_perfect_numbers(&BigNat::from_u64(27));
    assert_eq!(result.len(), 1);
}

#[test]
fn generated_numbers_are_perfect() {
    let sums = math::amicable::proper_divisor_sum_sieve(10_000);
    for (_, n) in generate_perfect_numbers(&BigNat::from_u64(10_000)) {
        let n = n.to_u64() as usize;
        assert_eq!(sums[n] as usize, n, "{n} should equal the sum of its proper divisors");
    }
}

#[test]
fn examine_candidate_cases() {
    let limit = BigNat::from_u64(10_000);
    assert_eq!(search_bound(&limit), 10);
    assert!(matches!(examine_candidate(4, &limit), Candidate::CompositeExponent));
    match examine_candidate(11, &limit) {
        Candidate::NotMersennePrime(mp) => assert_eq!(mp.to_decimal(), "2047"),
        _ => panic!("11 should fail the test"),
    }
    match examine_candidate(7, &limit) {
        Candidate::Perfect(mp, n, ok) => {
            assert_eq!(mp.to_decimal(), "127");
            assert_eq!(n.to_decimal(), "8128");
            assert!(ok);
        }
        _ => panic!("7 should give 8128"),
    }
    match examine_candidate(13, &limit) {
        Candidate::ExceedsLimit(_, n) => assert_eq!(n.to_decimal(), "33550336"),
        _ => panic!("13 should exceed 10000"),
    }
}

#[test]
fn every_even_perfect_number_is_listed() {
    let sums = math::amicable::proper_divisor_sum_sieve(100_000);
    let listed: Vec<u64> = generate_perfect_numbers(&BigNat::from_u64(100_000))
        .iter()
        .map(|(_, v)| v.to_u64())
        .collect();
    let found: Vec<u64> = (1..=100_000u64)
        .filter(|n| n % 2 == 0 && sums[*n as usize] as u64 == *n)
        .collect();
    assert_eq!(listed, found);
}

#[test]
fn lucas_lehmer_agrees_with_trial_division() {
    for p in 2u64..=31 {
        let m = (1u64 << p) - 1;
        let mut prime = m >= 2;
        let mut d = 2u64;
        while d * d <= m {
            if m % d == 0 {
                prime = false;
                break;
            }
            d += 1;
        }
        assert_eq!(lucas_lehmer(p), prime, "p={p}");
    }
}
