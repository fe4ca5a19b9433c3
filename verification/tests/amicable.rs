use math::amicable::proper_divisor_sum_sieve;

#[test]
fn sieve_zero_and_one() {
    let s = proper_divisor_sum_sieve(6);
    assert_eq!(s[0], 0);
    assert_eq!(s[1], 0);
}

#[test]
fn sieve_small_values() {
    let s = proper_divisor_sum_sieve(10);
    assert_eq!(s[2], 1);
    assert_eq!(s[4], 3);
    assert_eq!(s[6], 6);
    assert_eq!(s[10], 8);
}

#[test]
fn sieve_amicable_values() {
    let s = proper_divisor_sum_sieve(285);
    assert_eq!(s[220], 284);
    assert_eq!(s[284], 220);
}

#[test]
fn sieve_length() {
    let s = proper_divisor_sum_sieve(10);
    assert_eq!(s.len(), 11);
}

#[test]
fn sieve_perfect_numbers_are_fixed_points() {
    let s = proper_divisor_sum_sieve(500);
    assert_eq!(s[6], 6);
    assert_eq!(s[28], 28);
    assert_eq!(s[496], 496);
}

#[test]
fn sieve_primes_have_sum_one() {
    let s = proper_divisor_sum_sieve(30);
    for p in [2usize, 3, 5, 7, 11, 13, 17, 19, 23, 29] {
        assert_eq!(s[p], 1);
    }
}

#[test]
fn sieve_limit_zero() {
    let s = proper_divisor_sum_sieve(0);
    assert_eq!(s, vec![0u32]);
}

#[test]
fn amicable_pairs_up_to_ten_thousand() {
    let pairs = math::amicable::amicable_pairs(10_000);
    assert_eq!(pairs, vec![(220, 284), (1184, 1210), (2620, 2924), (5020, 5564), (6232, 6368)]);
}

#[test]
fn amicable_pairs_up_to_a_thousand_is_one_pair() {
    assert_eq!(math::amicable::amicable_pairs(1_000), vec![(220, 284)]);
    assert!(math::amicable::amicable_pairs(10).is_empty());
    assert!(math::amicable::amicable_pairs(0).is_empty());
}

#[test]
fn amicable_pair_needs_both_within_limit() {
    // 284 > 283, so the pair (220, 284) is not complete below 284.
    assert!(math::amicable::amicable_pairs(283).is_empty());
    assert_eq!(math::amicable::amicable_pairs(284), vec![(220, 284)]);
}
