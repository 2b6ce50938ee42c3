use ltc::text::{contains, cut, find, find_bytes, format_i64, parse_u32};

#[test]
fn find_gives_the_leftmost_position() {
    assert_eq!(find("abcabc", "bc"), Some(1));
    assert_eq!(find("abcabc", "abc"), Some(0));
    assert_eq!(find("abcabc", "c"), Some(2));
    assert_eq!(find("xxabc", "abc"), Some(2));
}

#[test]
fn find_misses_what_is_not_there() {
    assert_eq!(find("abcabc", "cb"), None);
    assert_eq!(find("ab", "abc"), None);
    assert_eq!(find("", "a"), None);
}

#[test]
fn find_of_nothing_is_at_the_start() {
    assert_eq!(find("abc", ""), Some(0));
    assert_eq!(find("", ""), Some(0));
}

#[test]
fn find_counts_bytes_not_characters() {
    assert_eq!(find("héllo", "llo"), Some(3));
    assert_eq!(find("héllo", "llo"), "héllo".find("llo"));
    assert_eq!(find_bytes(&[1, 2, 3, 2, 3], &[2, 3]), Some(1));
    assert_eq!(find_bytes(&[1, 2, 3], &[3, 2]), None);
}

#[test]
fn contains_agrees_with_find() {
    assert!(contains("server_1.log", "_1.log"));
    assert!(!contains("server_2.log", "_1.log"));
    assert!(contains("abc", ""));
}

#[test]
fn cut_takes_a_byte_range() {
    assert_eq!(cut("hello world", 0, 5), Some("hello"));
    assert_eq!(cut("hello world", 6, 11), Some("world"));
    assert_eq!(cut("hello", 2, 2), Some(""));
    assert_eq!(cut("hello", 0, 5), Some("hello"));
}

#[test]
fn cut_refuses_a_range_outside_the_text() {
    assert_eq!(cut("hello", 0, 6), None);
    assert_eq!(cut("hello", 3, 2), None);
    assert_eq!(cut("", 0, 1), None);
}

#[test]
fn cut_refuses_to_split_a_character() {
    assert_eq!(cut("héllo", 0, 2), None);
    assert_eq!(cut("héllo", 2, 4), None);
    assert_eq!(cut("héllo", 1, 3), Some("é"));
    assert_eq!(cut("héllo", 0, 3), Some("hé"));
}

#[test]
fn parse_u32_reads_decimal_numbers() {
    assert_eq!(parse_u32(b"0"), Some(0));
    assert_eq!(parse_u32(b"5"), Some(5));
    assert_eq!(parse_u32(b"007"), Some(7));
    assert_eq!(parse_u32(b"+12"), Some(12));
    assert_eq!(parse_u32(b"4294967295"), Some(u32::MAX));
    assert_eq!(parse_u32(b"0000000004294967295"), Some(u32::MAX));
}

#[test]
fn parse_u32_refuses_what_is_no_number() {
    assert_eq!(parse_u32(b""), None);
    assert_eq!(parse_u32(b"+"), None);
    assert_eq!(parse_u32(b"-1"), None);
    assert_eq!(parse_u32(b"++1"), None);
    assert_eq!(parse_u32(b"12a"), None);
    assert_eq!(parse_u32(b" 12"), None);
    assert_eq!(parse_u32(b"12 "), None);
    assert_eq!(parse_u32(b"1+2"), None);
}

#[test]
fn parse_u32_refuses_what_does_not_fit() {
    assert_eq!(parse_u32(b"4294967296"), None);
    assert_eq!(parse_u32(b"99999999999999999999999999"), None);
    assert_eq!(parse_u32(b"42949672950"), None);
}

#[test]
fn parse_u32_agrees_with_the_standard_library() {
    for text in ["0", "+0", "17", "+", "", "4294967295", "4294967296", "1x", "-0", "00"] {
        assert_eq!(parse_u32(text.as_bytes()), text.parse::<u32>().ok());
    }
}

#[test]
fn format_i64_writes_decimal_numbers() {
    assert_eq!(format_i64(0), "0");
    assert_eq!(format_i64(7), "7");
    assert_eq!(format_i64(60), "60");
    assert_eq!(format_i64(1234567890), "1234567890");
    assert_eq!(format_i64(-1), "-1");
    assert_eq!(format_i64(-60), "-60");
    assert_eq!(format_i64(i64::MAX), "9223372036854775807");
    assert_eq!(format_i64(i64::MIN), "-9223372036854775808");
}

#[test]
fn format_i64_agrees_with_the_standard_library() {
    for value in [0, 9, 10, 99, 100, 101, -9, -10, 1 << 40, -(1 << 40)] {
        assert_eq!(format_i64(value), value.to_string());
    }
}
