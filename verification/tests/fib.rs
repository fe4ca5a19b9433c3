use math::bignum::BigNat;
use math::fib::{fmt_int, generate_fibonacci, FibonacciBelow};

fn values(max_digits: usize) -> Vec<String> {
    generate_fibonacci(max_digits).iter().map(|x| x.to_decimal()).collect()
}

#[test]
fn test_fmt_int_zero() {
    assert_eq!(fmt_int(0), "0");
}

#[test]
fn test_fmt_int_below_thousand() {
    assert_eq!(fmt_int(999), "999");
}

#[test]
fn test_fmt_int_thousands() {
    assert_eq!(fmt_int(1_000), "1,000");
}

#[test]
fn test_fmt_int_millions() {
    assert_eq!(fmt_int(1_234_567), "1,234,567");
}

#[test]
fn test_single_digit_sequence() {
    let v = values(1);
    assert_eq!(v.len(), 6);
    assert_eq!(v.join("\n") + "\n", "1\n1\n2\n3\n5\n8\n");
}

#[test]
fn main_test_two_digit_count() {
    assert_eq!(values(2).len(), 11);
}

#[test]
fn main_test_two_digit_last_value() {
    assert_eq!(values(2).last().unwrap(), "89");
}

#[test]
fn test_known_first_ten_values() {
    let nums: Vec<u64> = values(2).iter().take(10).map(|l| l.parse().unwrap()).collect();
    assert_eq!(nums, vec![1, 1, 2, 3, 5, 8, 13, 21, 34, 55]);
}

#[test]
fn test_each_is_sum_of_previous_two() {
    let nums: Vec<u64> = values(3).iter().map(|l| l.parse().unwrap()).collect();
    for i in 2..nums.len() {
        assert_eq!(nums[i], nums[i - 1] + nums[i - 2]);
    }
}

#[test]
fn test_all_positive() {
    for line in values(2) {
        let n: u64 = line.parse().unwrap();
        assert!(n > 0);
    }
}

#[test]
fn main_test_zero_max_digits_empty() {
    assert!(generate_fibonacci(0).is_empty());
}

#[test]
fn fibonacci_below_ten_to_the_twenty() {
    let v = values(20);
    assert_eq!(v.len(), 97);
    assert_eq!(v.last().unwrap(), "83621143489848422977");
}

#[test]
fn fibonacci_iterator_stops_and_stays_stopped() {
    let mut it = FibonacciBelow::new(1);
    let mut seen = Vec::new();
    while let Some(x) = it.next_term() {
        seen.push(x.to_decimal());
    }
    assert_eq!(seen, vec!["1", "1", "2", "3", "5", "8"]);
    assert!(it.next_term().is_none());
}

#[test]
fn fibonacci_terms_are_below_the_bound() {
    let bound = BigNat::pow(10, 30);
    for x in generate_fibonacci(30) {
        assert!(x.lt(&bound));
    }
}
