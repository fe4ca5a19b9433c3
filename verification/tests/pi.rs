use math::pi::{bs, bs_leaf, bs_merge, fmt_int, format_series_progress, pi_to_string, CHU_A, CHU_C3_24};

/// The first 50 decimal places of pi.
const PI_REF: &str = "3.14159265358979323846264338327950288419716939937510";

/// pi as an arbitrary-precision float prints it with `sig` significant
/// digits.
fn raw_pi(sig: usize) -> String {
    format!("{}e0", &PI_REF[..sig + 1])
}

fn dec(x: &math::bignum::BigNat) -> String {
    x.to_decimal()
}

fn int_text(x: &math::bignum::BigInt) -> String {
    let m = x.magnitude().to_decimal();
    if x.is_negative() {
        format!("-{}", m)
    } else {
        m
    }
}

#[test]
fn pi_fmt_int_values() {
    assert_eq!(fmt_int(0), "0");
    assert_eq!(fmt_int(999), "999");
    assert_eq!(fmt_int(1_000), "1,000");
    assert_eq!(fmt_int(1_234_567), "1,234,567");
    assert_eq!(fmt_int(1_000_000_000), "1,000,000,000");
}

// --- bs_leaf ---

#[test]
fn main_test_bs_leaf_zero() {
    let pqt = bs_leaf(0);
    assert_eq!(dec(&pqt.p), "1");
    assert_eq!(dec(&pqt.q), "1");
    assert_eq!(int_text(&pqt.t), CHU_A.to_string());
}

#[test]
fn test_bs_leaf_one_p_and_q() {
    let pqt = bs_leaf(1);
    assert_eq!(dec(&pqt.p), "5");
    assert_eq!(dec(&pqt.q), CHU_C3_24.to_string());
    assert!(pqt.t.is_negative(), "T should be negative for odd index");
    // t_1 = -(5 * (13591409 + 545140134)) = -2793657715
    assert_eq!(int_text(&pqt.t), "-2793657715");
}

#[test]
fn test_bs_leaf_even_index_positive_t() {
    let pqt = bs_leaf(2);
    assert!(!pqt.t.is_negative(), "T should be positive for even index > 0");
    // p_2 = 7 * 3 * 11 = 231; t_2 = 231 * (13591409 + 2 * 545140134)
    assert_eq!(dec(&pqt.p), "231");
    assert_eq!(int_text(&pqt.t), (231u64 * (13591409 + 2 * 545140134)).to_string());
}

// --- bs_merge ---

#[test]
fn main_test_bs_merge_matches_two_leaves() {
    let merged = bs_merge(bs_leaf(0), bs_leaf(1));
    let full = bs(0, 2);
    assert_eq!(dec(&merged.p), dec(&full.p));
    assert_eq!(dec(&merged.q), dec(&full.q));
    assert_eq!(int_text(&merged.t), int_text(&full.t));
}

// --- bs (split consistency) ---

#[test]
fn main_test_bs_split_consistency_4() {
    let full = bs(0, 4);
    let merged = bs_merge(bs(0, 2), bs(2, 4));
    assert_eq!(dec(&full.p), dec(&merged.p));
    assert_eq!(dec(&full.q), dec(&merged.q));
    assert_eq!(int_text(&full.t), int_text(&merged.t));
}

#[test]
fn main_test_bs_split_consistency_8() {
    let full = bs(0, 8);
    let merged = bs_merge(bs(0, 4), bs(4, 8));
    assert_eq!(dec(&full.p), dec(&merged.p));
    assert_eq!(dec(&full.q), dec(&merged.q));
    assert_eq!(int_text(&full.t), int_text(&merged.t));
}

#[test]
fn main_test_bs_split_consistency_above_threshold() {
    let full = bs(0, 600);
    let merged = bs_merge(bs(0, 300), bs(300, 600));
    assert_eq!(dec(&full.p), dec(&merged.p));
    assert_eq!(dec(&full.q), dec(&merged.q));
    assert_eq!(int_text(&full.t), int_text(&merged.t));
}

// --- pi_to_string ---

#[test]
fn test_pi_to_string_starts_with_3_dot() {
    assert!(pi_to_string(&raw_pi(15), 10).starts_with("3."));
}

#[test]
fn test_pi_to_string_exact_decimal_count() {
    assert_eq!(pi_to_string(&raw_pi(25), 20).len(), 22);
}

#[test]
fn test_pi_to_string_no_exponent_notation() {
    let s = pi_to_string(&raw_pi(20), 15);
    assert!(!s.contains('e') && !s.contains('E'));
}

#[test]
fn test_pi_to_string_known_digits() {
    let s = pi_to_string(&raw_pi(20), 15);
    assert_eq!(&s[..17], &PI_REF[..17]);
}

#[test]
fn test_pi_to_string_single_decimal_place() {
    let s = pi_to_string(&raw_pi(6), 1);
    assert_eq!(s.len(), 3);
    assert_eq!(s, "3.1");
}

#[test]
fn test_pi_to_string_strips_exponent() {
    let s = pi_to_string("1.0000000000e-2", 5);
    assert!(!s.contains('e') && !s.contains('E'));
}

#[test]
fn test_pi_to_string_no_dot_path() {
    let s = pi_to_string("0", 3);
    assert!(s.contains('.'), "must contain a decimal point");
    assert_eq!(s, "0.000");
}

// --- format_series_progress ---

#[test]
fn main_test_format_series_progress_zero_completed() {
    let s = format_series_progress(0, 100);
    assert!(s.contains("  0%"), "should show 0%: {}", s);
    assert!(s.contains("0 / 100 terms"), "should show term counts: {}", s);
}

#[test]
fn main_test_format_series_progress_partial() {
    let s = format_series_progress(50, 100);
    assert!(s.contains(" 50%"), "should show 50%: {}", s);
}

#[test]
fn main_test_format_series_progress_complete() {
    let s = format_series_progress(100, 100);
    assert!(s.contains("100%"), "should show 100%: {}", s);
}

#[test]
fn main_test_format_series_progress_zero_total() {
    let s = format_series_progress(0, 0);
    assert!(s.contains("100%"), "zero total should show 100%: {}", s);
}

// --- pi_text ---

#[test]
fn pi_text_fifty_places() {
    assert_eq!(math::pi::pi_text(10, 50), PI_REF);
}

#[test]
fn pi_text_ten_places() {
    assert_eq!(math::pi::pi_text(2, 10), "3.1415926535");
}

#[test]
fn pi_text_one_term_is_the_first_approximation() {
    // 426880 * sqrt(10005) / 13591409 = 3.14159265358973420766...
    assert_eq!(math::pi::pi_text(1, 14), "3.14159265358973");
}

#[test]
fn pi_terms_values() {
    assert_eq!(math::pi::pi_terms(0), 10);
    assert_eq!(math::pi::pi_terms(14), 11);
    assert_eq!(math::pi::pi_terms(1_000_000), 71_438);
}
