use math::sq::{fmt_int, generate_squares, ten_pow};

fn lines_of(max_digits: u32) -> Vec<String> {
    generate_squares(max_digits).iter().map(|(sq, k)| format!("{} | {}", sq, k)).collect()
}

#[test]
fn sq_fmt_int_values() {
    assert_eq!(fmt_int(0), "0");
    assert_eq!(fmt_int(999), "999");
    assert_eq!(fmt_int(1_000), "1,000");
    assert_eq!(fmt_int(1_234_567), "1,234,567");
}

#[test]
fn sq_zero_max_digits_empty() {
    assert!(generate_squares(0).is_empty());
}

#[test]
fn test_one_digit_squares() {
    let squares = generate_squares(1);
    assert_eq!(squares.len(), 3);
    assert_eq!(lines_of(1).join("\n") + "\n", "1 | 1\n4 | 2\n9 | 3\n");
}

#[test]
fn sq_two_digit_count() {
    assert_eq!(generate_squares(2).len(), 9);
}

#[test]
fn sq_two_digit_last_value() {
    assert_eq!(lines_of(2).last().unwrap(), "81 | 9");
}

#[test]
fn test_two_digit_excludes_100() {
    assert!(!lines_of(2).iter().any(|l| l.starts_with("100 |")));
}

#[test]
fn test_each_is_perfect_square() {
    for (sq, root) in generate_squares(3) {
        assert_eq!(root * root, sq, "{sq} is not a perfect square");
    }
}

#[test]
fn test_strictly_increasing() {
    let nums: Vec<u64> = generate_squares(3).iter().map(|p| p.0).collect();
    for i in 1..nums.len() {
        assert!(nums[i] > nums[i - 1]);
    }
}

#[test]
fn test_ten_digit_count() {
    assert_eq!(generate_squares(10).len(), 99_999);
}

#[test]
fn test_ten_digit_last_value() {
    assert_eq!(lines_of(10).last().unwrap(), "9999800001 | 99999");
}

#[test]
fn test_ten_digit_excludes_100000_squared() {
    assert!(!lines_of(10).iter().any(|l| l.starts_with("10000000000 |")));
}

#[test]
fn twelve_digit_squares_stop_below_ten_to_the_twelve() {
    let squares = generate_squares(12);
    assert_eq!(squares.len(), 999_999);
    let (sq, k) = *squares.last().unwrap();
    assert_eq!(k, 999_999);
    assert_eq!(sq, 999_998_000_001);
}

#[test]
fn ten_pow_values() {
    assert_eq!(ten_pow(0), 1);
    assert_eq!(ten_pow(3), 1000);
    assert_eq!(ten_pow(19), 10_000_000_000_000_000_000);
}
