use math::e::{bs, bs_leaf, bs_merge, e_to_string, fmt_int, format_series_progress};

/// The first 50 decimal places of e.
const E_REF: &str = "2.71828182845904523536028747135266249775724709369995";

/// e as an arbitrary-precision float prints it with `sig` significant
/// digits: mantissa, then the exponent marker.
fn raw_e(sig: usize) -> String {
    format!("{}e0", &E_REF[..sig + 1])
}

fn dec(x: &math::bignum::BigNat) -> String {
    x.to_decimal()
}

// --- fmt_int ---

#[test]
fn e_fmt_int_values() {
    assert_eq!(fmt_int(0), "0");
    assert_eq!(fmt_int(999), "999");
    assert_eq!(fmt_int(1_000), "1,000");
    assert_eq!(fmt_int(10_000), "10,000");
    assert_eq!(fmt_int(1_234_567), "1,234,567");
}

#[test]
fn main_test_fmt_int_billions() {
    assert_eq!(fmt_int(1_000_000_000), "1,000,000,000");
}

// --- bs_leaf ---

#[test]
fn e_bs_leaf_zero() {
    let pq = bs_leaf(0);
    assert_eq!(dec(&pq.p), "1");
    assert_eq!(dec(&pq.q), "1");
}

#[test]
fn test_bs_leaf_one() {
    let pq = bs_leaf(1);
    assert_eq!(dec(&pq.p), "2");
    assert_eq!(dec(&pq.q), "2");
}

#[test]
fn test_bs_leaf_two() {
    let pq = bs_leaf(2);
    assert_eq!(dec(&pq.p), "3");
    assert_eq!(dec(&pq.q), "3");
}

// --- bs_merge ---

#[test]
fn e_bs_merge_matches_two_leaves() {
    let merged = bs_merge(bs_leaf(0), bs_leaf(1));
    let full = bs(0, 2);
    assert_eq!(dec(&merged.p), dec(&full.p));
    assert_eq!(dec(&merged.q), dec(&full.q));
}

// --- bs (split consistency) ---

#[test]
fn e_bs_split_consistency_4() {
    let full = bs(0, 4);
    let merged = bs_merge(bs(0, 2), bs(2, 4));
    assert_eq!(dec(&full.p), dec(&merged.p));
    assert_eq!(dec(&full.q), dec(&merged.q));
}

#[test]
fn e_bs_split_consistency_8() {
    let full = bs(0, 8);
    let merged = bs_merge(bs(0, 4), bs(4, 8));
    assert_eq!(dec(&full.p), dec(&merged.p));
    assert_eq!(dec(&full.q), dec(&merged.q));
}

#[test]
fn e_bs_split_consistency_above_threshold() {
    let full = bs(0, 600);
    let merged = bs_merge(bs(0, 300), bs(300, 600));
    assert_eq!(dec(&full.p), dec(&merged.p));
    assert_eq!(dec(&full.q), dec(&merged.q));
}

#[test]
fn e_series_of_five_terms() {
    // P(0, 5) = 1*2*3*4*5 = 120 and Q / P = 1 + 1/1! + ... + 1/4! = 65/24.
    let pq = bs(0, 5);
    assert_eq!(dec(&pq.p), "120");
    assert_eq!(dec(&pq.q), "325");
}

// --- e_to_string ---

#[test]
fn test_e_to_string_starts_with_2_dot() {
    let s = e_to_string(&raw_e(15), 10);
    assert!(s.starts_with("2."));
}

#[test]
fn test_e_to_string_exact_decimal_count() {
    let s = e_to_string(&raw_e(25), 20);
    assert_eq!(s.len(), 22);
}

#[test]
fn test_e_to_string_no_exponent_notation() {
    let s = e_to_string(&raw_e(20), 15);
    assert!(!s.contains('e') && !s.contains('E'));
}

#[test]
fn test_e_to_string_known_digits() {
    let s = e_to_string(&raw_e(20), 15);
    assert_eq!(&s[..17], &E_REF[..17]);
}

#[test]
fn test_e_to_string_single_decimal_place() {
    let s = e_to_string(&raw_e(6), 1);
    assert_eq!(s.len(), 3);
    assert_eq!(s, "2.7");
}

#[test]
fn test_e_to_string_strips_exponent_suffix() {
    let s = e_to_string("1.0000000000e-2", 5);
    assert!(!s.contains('e') && !s.contains('E'));
    assert!(s.starts_with("1."));
    assert_eq!(s, "1.00000");
}

#[test]
fn test_e_to_string_pads_when_no_dot() {
    assert_eq!(e_to_string("0", 4), "0.0000");
}

#[test]
fn e_to_string_pads_short_mantissa() {
    assert_eq!(e_to_string("2.5e0", 4), "2.5000");
    assert_eq!(e_to_string("2.5E0", 0), "2.");
}

// --- format_series_progress ---

#[test]
fn e_format_series_progress_zero_completed() {
    let s = format_series_progress(0, 100);
    assert!(s.contains("0%"));
    assert!(s.contains("0 / 100"));
}

#[test]
fn e_format_series_progress_partial() {
    let s = format_series_progress(25, 100);
    assert!(s.contains("25%"));
    assert!(s.contains("25 / 100"));
}

#[test]
fn e_format_series_progress_complete() {
    let s = format_series_progress(100, 100);
    assert!(s.contains("100%"));
}

#[test]
fn e_format_series_progress_zero_total() {
    let s = format_series_progress(0, 0);
    assert!(s.contains("100%"));
}

#[test]
fn e_format_series_progress_exact_text() {
    assert_eq!(
        format_series_progress(1_500, 20_000),
        "  Computing series:    7%  (1,500 / 20,000 terms)   "
    );
}

// --- e_text ---

#[test]
fn e_text_fifty_places() {
    assert_eq!(math::e::e_text(60, 50), E_REF);
}

#[test]
fn e_text_one_place() {
    assert_eq!(math::e::e_text(20, 1), "2.7");
}

#[test]
fn e_text_few_terms_is_the_partial_sum() {
    // 1 + 1 + 1/2 + 1/6 + 1/24 = 2.708333...
    assert_eq!(math::e::e_text(5, 6), "2.708333");
}
