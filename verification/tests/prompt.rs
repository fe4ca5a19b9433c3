use math::prompt::{classify_reply, is_yes, parse_uint, Reply};

#[test]
fn classify_reply_in_range() {
    assert_eq!(classify_reply("3", 1, 5, u32::MAX as u64), Reply::Accepted(3));
    assert_eq!(classify_reply("1", 1, 5, u32::MAX as u64), Reply::Accepted(1));
    assert_eq!(classify_reply("5", 1, 5, u32::MAX as u64), Reply::Accepted(5));
    assert_eq!(classify_reply("+4", 1, 5, u32::MAX as u64), Reply::Accepted(4));
}

#[test]
fn classify_reply_out_of_range() {
    assert_eq!(classify_reply("0", 1, 5, u32::MAX as u64), Reply::OutOfRange(0));
    assert_eq!(classify_reply("6", 1, 5, u32::MAX as u64), Reply::OutOfRange(6));
}

#[test]
fn classify_reply_not_a_number() {
    assert_eq!(classify_reply("abc", 1, 5, u32::MAX as u64), Reply::NotANumber);
    assert_eq!(classify_reply("-1", 1, 5, u32::MAX as u64), Reply::NotANumber);
    assert_eq!(classify_reply("", 1, 5, u32::MAX as u64), Reply::NotANumber);
    assert_eq!(classify_reply("2.5", 1, 5, u32::MAX as u64), Reply::NotANumber);
    assert_eq!(classify_reply("+", 1, 5, u32::MAX as u64), Reply::NotANumber);
}

#[test]
fn classify_reply_type_limit() {
    // Above u32::MAX a u32 prompt sees no number at all; a u64 prompt sees
    // one out of range.
    assert_eq!(classify_reply("4294967296", 1, 5, u32::MAX as u64), Reply::NotANumber);
    assert_eq!(classify_reply("4294967296", 1, 5, u64::MAX), Reply::OutOfRange(4294967296));
    assert_eq!(classify_reply("18446744073709551616", 1, 5, u64::MAX), Reply::NotANumber);
}

#[test]
fn parse_uint_matches_std() {
    for s in ["0", "7", "+7", "007", "65535", "65536", "x", "", "-0", "1 2"] {
        assert_eq!(parse_uint(s, u16::MAX as u64), s.parse::<u16>().ok().map(|v| v as u64), "{s}");
        assert_eq!(parse_uint(s, u64::MAX), s.parse::<u64>().ok(), "{s}");
    }
}

#[test]
fn is_yes_answers() {
    assert!(is_yes("y"));
    assert!(is_yes("yes"));
    assert!(!is_yes("Y"));
    assert!(!is_yes("Yes"));
    assert!(!is_yes("n"));
    assert!(!is_yes(""));
    assert!(!is_yes("yess"));
    assert!(!is_yes("ye"));
}
