use math::collatz::{chain_length, collatz_next, generate_records};

fn make_cache(limit: u64) -> Vec<u32> {
    let mut cache = vec![0u32; (limit + 1) as usize];
    cache[1] = 1;
    cache
}

#[test]
fn test_collatz_next_even() {
    assert_eq!(collatz_next(6), 3);
}

#[test]
fn test_collatz_next_odd() {
    assert_eq!(collatz_next(3), 10);
}

#[test]
fn test_chain_length_n1() {
    let mut cache = make_cache(10);
    assert_eq!(chain_length(1, &mut cache, 10), 0);
}

#[test]
fn test_chain_length_n2() {
    let mut cache = make_cache(10);
    assert_eq!(chain_length(2, &mut cache, 10), 1);
}

#[test]
fn test_chain_length_n3() {
    let mut cache = make_cache(100);
    assert_eq!(chain_length(3, &mut cache, 100), 7);
}

#[test]
fn test_chain_length_n27() {
    let mut cache = make_cache(10_000);
    assert_eq!(chain_length(27, &mut cache, 10_000), 111);
}

#[test]
fn test_chain_length_cache_reuse() {
    let mut cache = make_cache(100);
    chain_length(3, &mut cache, 100);
    assert_ne!(cache[3], 0);
    assert_eq!(chain_length(3, &mut cache, 100), 7);
}

#[test]
fn test_chain_length_value_exceeds_limit() {
    // n=3's chain passes through 10, 16, 8 which exceed limit=5
    let mut cache = make_cache(5);
    assert_eq!(chain_length(3, &mut cache, 5), 7);
}

#[test]
fn test_generate_records_limit_1() {
    let records = generate_records(1);
    assert_eq!(records, vec![(1u64, 0u32)]);
}

#[test]
fn test_generate_records_limit_10() {
    let records = generate_records(10);
    assert_eq!(records[0], (1, 0));
    assert_eq!(records[1], (2, 1));
    assert_eq!(records[2], (3, 7));
    assert_eq!(records[3], (6, 8));
    assert_eq!(records[4], (7, 16));
    assert_eq!(records[5], (9, 19));
    assert_eq!(records.len(), 6);
}

#[test]
fn chain_length_fills_path_entries() {
    let mut cache = make_cache(20);
    assert_eq!(chain_length(6, &mut cache, 20), 8);
    // 6 -> 3 -> 10 -> 5 -> 16 -> 8 -> 4 -> 2 -> 1
    assert_eq!(cache[6], 9);
    assert_eq!(cache[3], 8);
    assert_eq!(cache[10], 7);
    assert_eq!(cache[16], 5);
    assert_eq!(cache[2], 2);
    assert_eq!(cache[7], 0);
}

#[test]
fn records_limit_100_last() {
    let records = generate_records(100);
    assert_eq!(*records.last().unwrap(), (97, 118));
}

#[test]
fn chain_length_ignores_entry_zero() {
    let mut cache = make_cache(30);
    cache[0] = 77;
    assert_eq!(chain_length(27, &mut cache, 30), 111);
    assert_eq!(cache[0], 77);
    assert_eq!(cache[27], 112);
}
