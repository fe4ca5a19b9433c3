use math::bignum::BigNat;
use math::factorial::{calculate_factorial, compute_swing, compute_swing_chunk, factorial_rec, sieve};

fn dec(x: &BigNat) -> String {
    x.to_decimal()
}

// --- sieve ---

#[test]
fn test_sieve_below_2_empty() {
    assert!(sieve(0).is_empty());
    assert!(sieve(1).is_empty());
}

#[test]
fn test_sieve_n_equals_2() {
    assert_eq!(sieve(2), vec![2u32]);
}

#[test]
fn test_sieve_small_known() {
    assert_eq!(sieve(10), vec![2u32, 3, 5, 7]);
}

#[test]
fn test_sieve_no_composites() {
    let primes = sieve(20);
    for &p in &primes {
        assert!(p < 2 || (2..p).all(|d| p % d != 0), "{} is composite", p);
    }
}

#[test]
fn test_sieve_count_to_100() {
    assert_eq!(sieve(100).len(), 25);
}

#[test]
fn test_sieve_count_to_49() {
    assert_eq!(sieve(49).len(), 15);
    assert!(!sieve(49).contains(&49));
}

#[test]
fn test_sieve_count_to_1000() {
    assert_eq!(sieve(1000).len(), 168);
}

// --- compute_swing_chunk ---

#[test]
fn test_swing_chunk_empty() {
    assert_eq!(dec(&compute_swing_chunk(10, &[])), "1");
}

#[test]
fn test_swing_chunk_prime_exceeds_m() {
    assert_eq!(dec(&compute_swing_chunk(2, &[3u32, 5, 7])), "1");
}

#[test]
fn test_swing_chunk_m_equals_2() {
    assert_eq!(dec(&compute_swing_chunk(2, &[2u32])), "2");
}

#[test]
fn test_swing_chunk_p2_contribution_for_m6() {
    assert_eq!(dec(&compute_swing_chunk(6, &[2u32])), "4");
}

#[test]
fn test_swing_chunk_p3_contribution_for_m6() {
    assert_eq!(dec(&compute_swing_chunk(6, &[3u32])), "1");
}

#[test]
fn test_swing_chunk_p5_contribution_for_m6() {
    assert_eq!(dec(&compute_swing_chunk(6, &[5u32])), "5");
}

#[test]
fn test_swing_chunk_exp_zero_returns_one() {
    assert_eq!(dec(&compute_swing_chunk(14, &[7u32])), "1");
}

#[test]
fn swing_chunk_stops_at_first_prime_above_m() {
    // 5 > 4 ends the product, so the 3 after it is not used: only 2^1.
    assert_eq!(dec(&compute_swing_chunk(4, &[2u32, 5, 3])), "2");
    assert_eq!(dec(&compute_swing_chunk(4, &[2u32, 3])), "6");
}

// --- compute_swing ---

#[test]
fn test_swing_1() {
    let primes = sieve(10);
    assert_eq!(dec(&compute_swing(1, &primes)), "1");
}

#[test]
fn test_swing_2() {
    let primes = sieve(10);
    assert_eq!(dec(&compute_swing(2, &primes)), "2");
}

#[test]
fn test_swing_6() {
    let primes = sieve(10);
    assert_eq!(dec(&compute_swing(6, &primes)), "20");
}

#[test]
fn test_swing_4() {
    let primes = sieve(10);
    assert_eq!(dec(&compute_swing(4, &primes)), "6");
}

#[test]
fn test_swing_empty_primes() {
    assert_eq!(dec(&compute_swing(100, &[])), "1");
}

#[test]
fn test_swing_satisfies_factorial_identity() {
    let primes = sieve(10);
    let sw6 = compute_swing(6, &primes);
    let three_factorial_sq = BigNat::from_u64(36);
    assert_eq!(dec(&sw6.mul(&three_factorial_sq)), "720");
}

#[test]
fn swing_of_large_m_matches_central_quotient() {
    // swing(30) = 30! / (15!)^2 = 155117520
    let primes = sieve(30);
    assert_eq!(dec(&compute_swing(30, &primes)), "155117520");
}

// --- factorial_rec ---

#[test]
fn test_factorial_rec_base_0() {
    let primes = sieve(10);
    assert_eq!(dec(&factorial_rec(0, &primes)), "1");
}

#[test]
fn test_factorial_rec_base_1() {
    let primes = sieve(10);
    assert_eq!(dec(&factorial_rec(1, &primes)), "1");
}

#[test]
fn test_factorial_rec_2() {
    let primes = sieve(10);
    assert_eq!(dec(&factorial_rec(2, &primes)), "2");
}

#[test]
fn test_factorial_rec_5() {
    let primes = sieve(10);
    assert_eq!(dec(&factorial_rec(5, &primes)), "120");
}

// --- calculate_factorial ---

#[test]
fn test_calculate_factorial_0() {
    assert_eq!(dec(&calculate_factorial(0)), "1");
}

#[test]
fn test_calculate_factorial_1() {
    assert_eq!(dec(&calculate_factorial(1)), "1");
}

#[test]
fn test_calculate_factorial_5() {
    assert_eq!(dec(&calculate_factorial(5)), "120");
}

#[test]
fn test_calculate_factorial_10() {
    assert_eq!(dec(&calculate_factorial(10)), "3628800");
}

#[test]
fn test_calculate_factorial_20() {
    assert_eq!(dec(&calculate_factorial(20)), "2432902008176640000");
}

#[test]
fn calculate_factorial_matches_running_product() {
    let mut expected = BigNat::from_u64(1);
    for n in 1..=60u64 {
        expected = expected.mul(&BigNat::from_u64(n));
        assert_eq!(dec(&calculate_factorial(n)), dec(&expected), "n = {}", n);
    }
}

#[test]
fn calculate_factorial_of_100_has_158_digits() {
    let s = dec(&calculate_factorial(100));
    assert_eq!(s.len(), 158);
    assert!(s.starts_with("93326215443944152681"));
    assert!(s.ends_with("000000000000000000000000"));
}

// --- fmt_int ---

#[test]
fn test_fmt_int_sub_thousand() {
    assert_eq!(math::factorial::fmt_int(999), "999");
}

#[test]
fn main_test_fmt_int_large() {
    assert_eq!(math::factorial::fmt_int(1_000_000_000), "1,000,000,000");
    assert_eq!(math::factorial::fmt_int(0), "0");
    assert_eq!(math::factorial::fmt_int(1000), "1,000");
}
