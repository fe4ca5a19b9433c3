use math::prime::{find_primes, fmt_int, sieve_segment, small_sieve};

#[test]
fn prime_fmt_int_values() {
    assert_eq!(fmt_int(0), "0");
    assert_eq!(fmt_int(999), "999");
    assert_eq!(fmt_int(1_000), "1,000");
    assert_eq!(fmt_int(1_234_567), "1,234,567");
    assert_eq!(fmt_int(1_000_000_000), "1,000,000,000");
}

#[test]
fn prime_small_sieve_values() {
    assert!(small_sieve(1).is_empty());
    assert_eq!(small_sieve(30), vec![2, 3, 5, 7, 11, 13, 17, 19, 23, 29]);
}

#[test]
fn test_sieve_segment_no_even_numbers() {
    let sp = small_sieve(32);
    let result = sieve_segment(101, 200, &sp);
    assert!(result.iter().all(|&p| p % 2 == 1));
    assert_eq!(result.len(), 21);
}

#[test]
fn test_sieve_segment_empty_when_lo_exceeds_limit() {
    let sp = vec![2u64, 3, 5];
    let result = sieve_segment(101, 100, &sp);
    assert!(result.is_empty());
}

#[test]
fn test_sieve_segment_lo_equals_limit_prime() {
    let sp = small_sieve(5);
    let result = sieve_segment(31, 31, &sp);
    assert_eq!(result, vec![31u64]);
}

#[test]
fn test_find_primes_below_2() {
    assert!(find_primes(1).is_empty());
    assert!(find_primes(0).is_empty());
}

#[test]
fn test_find_primes_limit_2() {
    assert_eq!(find_primes(2), vec![2]);
}

#[test]
fn test_find_primes_up_to_10() {
    assert_eq!(find_primes(10), vec![2, 3, 5, 7]);
}

#[test]
fn test_find_primes_count_100() {
    assert_eq!(find_primes(100).len(), 25);
}

#[test]
fn test_find_primes_count_1000() {
    assert_eq!(find_primes(1_000).len(), 168);
}

#[test]
fn test_find_primes_count_1_million() {
    assert_eq!(find_primes(1_000_000).len(), 78_498);
}

#[test]
fn test_find_primes_last_prime_before_million() {
    assert_eq!(*find_primes(1_000_000).last().unwrap(), 999_983);
}

#[test]
fn test_find_primes_no_even_numbers_except_2() {
    let bad: Vec<u64> = find_primes(10_000).into_iter().filter(|&n| n != 2 && n % 2 == 0).collect();
    assert!(bad.is_empty(), "unexpected even primes: {:?}", bad);
}

#[test]
fn find_primes_across_several_blocks() {
    // Well past one segment, so several segments (and the parallel path) run.
    let primes = find_primes(3_000_000);
    assert_eq!(primes.len(), 216_816);
    assert_eq!(*primes.last().unwrap(), 2_999_999);
}

#[test]
fn prime_stream_batches_add_up() {
    let limit = 1_000_000u64;
    let mut stream = math::prime::PrimeStream::new(limit);
    assert_eq!(stream.sieved_below(), 0);
    let mut all = Vec::new();
    while let Some(batch) = stream.next_primes() {
        all.extend(batch);
    }
    assert_eq!(stream.sieved_below(), limit + 1);
    assert_eq!(all, find_primes(limit));
    assert!(stream.next_primes().is_none());
}

#[test]
fn prime_stream_small_limits() {
    let mut stream = math::prime::PrimeStream::new(1);
    assert!(stream.next_primes().is_none());
    let mut stream = math::prime::PrimeStream::new(2);
    assert_eq!(stream.next_primes(), Some(vec![2]));
    assert!(stream.next_primes().is_none());
}
