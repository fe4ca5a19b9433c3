use math::twin_primes::{find_twin_primes, fmt_int, sieve_segment, small_sieve};

#[test]
fn main_test_fmt_int_zero() {
    assert_eq!(fmt_int(0), "0");
}

#[test]
fn main_test_fmt_int_below_thousand() {
    assert_eq!(fmt_int(999), "999");
}

#[test]
fn main_test_fmt_int_thousands() {
    assert_eq!(fmt_int(1_000), "1,000");
    assert_eq!(fmt_int(10_000), "10,000");
}

#[test]
fn main_test_fmt_int_millions() {
    assert_eq!(fmt_int(1_234_567), "1,234,567");
}

#[test]
fn main_test_small_sieve_empty() {
    assert!(small_sieve(0).is_empty());
    assert!(small_sieve(1).is_empty());
}

#[test]
fn main_test_small_sieve_two() {
    assert_eq!(small_sieve(2), vec![2u64]);
}

#[test]
fn main_test_small_sieve_ten() {
    assert_eq!(small_sieve(10), vec![2u64, 3, 5, 7]);
}

#[test]
fn main_test_small_sieve_thirty() {
    assert_eq!(small_sieve(30), vec![2u64, 3, 5, 7, 11, 13, 17, 19, 23, 29]);
}

#[test]
fn main_test_small_sieve_count_100() {
    assert_eq!(small_sieve(100).len(), 25);
}

#[test]
fn main_test_small_sieve_count_1000() {
    assert_eq!(small_sieve(1000).len(), 168);
}

#[test]
fn main_test_sieve_segment_small() {
    let sp = vec![2u64, 3, 5, 7];
    let result = sieve_segment(11, 30, &sp);
    assert_eq!(result, vec![11u64, 13, 17, 19, 23, 29]);
}

#[test]
fn main_test_sieve_segment_known_range() {
    let sp = small_sieve(14);
    let result = sieve_segment(101, 200, &sp);
    let expected = vec![
        101u64, 103, 107, 109, 113, 127, 131, 137, 139, 149, 151, 157, 163, 167, 173, 179, 181,
        191, 193, 197, 199,
    ];
    assert_eq!(result, expected);
}

#[test]
fn test_sieve_segment_all_odd() {
    let sp = small_sieve(32);
    let result = sieve_segment(101, 200, &sp);
    assert!(result.iter().all(|&p| p % 2 == 1));
}

#[test]
fn test_sieve_segment_lo_exceeds_limit() {
    let sp = vec![2u64, 3, 5];
    assert!(sieve_segment(101, 100, &sp).is_empty());
}

#[test]
fn test_sieve_segment_single_prime() {
    let sp = small_sieve(5);
    assert_eq!(sieve_segment(31, 31, &sp), vec![31u64]);
}

#[test]
fn find_twin_primes_below_limit_small() {
    assert!(find_twin_primes(4).is_empty());
    assert!(find_twin_primes(5).is_empty());
    assert_eq!(find_twin_primes(6), vec![(3u64, 5u64)]);
    assert_eq!(find_twin_primes(8), vec![(3u64, 5u64), (5, 7)]);
}

#[test]
fn find_twin_primes_below_100() {
    let expected = vec![
        (3u64, 5u64),
        (5, 7),
        (11, 13),
        (17, 19),
        (29, 31),
        (41, 43),
        (59, 61),
        (71, 73),
    ];
    assert_eq!(find_twin_primes(100), expected);
}

#[test]
fn find_twin_primes_matches_brute_force_across_segments() {
    // Crosses the first segment boundary (segments span 2^19 numbers).
    let limit = 1_100_000u64;
    let primes = small_sieve(limit);
    let mut expected = Vec::new();
    for w in primes.windows(2) {
        if w[1] - w[0] == 2 && w[1] < limit {
            expected.push((w[0], w[1]));
        }
    }
    assert_eq!(find_twin_primes(limit), expected);
}

#[test]
fn sieve_segment_divisor_of_lo_is_struck() {
    // 3 divides 9: an element that divides a candidate strikes it.
    assert_eq!(sieve_segment(9, 15, &[3u64]), vec![11u64, 13]);
}

#[test]
fn twin_prime_stream_batches_add_up() {
    let limit = 2_000_000u64;
    let mut stream = math::twin_primes::TwinPrimeStream::new(limit);
    let mut all = Vec::new();
    let mut batches = 0;
    while let Some(batch) = stream.next_pairs() {
        all.extend(batch);
        batches += 1;
    }
    assert!(batches >= 3);
    assert_eq!(all, find_twin_primes(limit));
    assert!(stream.next_pairs().is_none());
}

#[test]
fn twin_prime_stream_small_limits() {
    let mut stream = math::twin_primes::TwinPrimeStream::new(4);
    assert!(stream.next_pairs().is_none());
    let mut stream = math::twin_primes::TwinPrimeStream::new(10);
    let mut all = Vec::new();
    while let Some(batch) = stream.next_pairs() {
        all.extend(batch);
    }
    assert_eq!(all, vec![(3, 5), (5, 7)]);
}
