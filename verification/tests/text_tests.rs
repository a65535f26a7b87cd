use zhtta::text::{find, format_decimal, parse_u64, starts_with};

#[test]
fn format_decimal_writes_digits() {
    assert_eq!(format_decimal(0), b"0".to_vec());
    assert_eq!(format_decimal(7), b"7".to_vec());
    assert_eq!(format_decimal(4414), b"4414".to_vec());
    assert_eq!(format_decimal(1234567890), b"1234567890".to_vec());
    assert_eq!(format_decimal(u64::MAX), b"18446744073709551615".to_vec());
}

#[test]
fn parse_u64_reads_numbers() {
    assert_eq!(parse_u64(b"0"), Some(0));
    assert_eq!(parse_u64(b"4414"), Some(4414));
    assert_eq!(parse_u64(b"+80"), Some(80));
    assert_eq!(parse_u64(b"18446744073709551615"), Some(u64::MAX));
    assert_eq!(parse_u64(b"007"), Some(7));
}

#[test]
fn parse_u64_refuses_other_text() {
    assert_eq!(parse_u64(b""), None);
    assert_eq!(parse_u64(b"+"), None);
    assert_eq!(parse_u64(b"-1"), None);
    assert_eq!(parse_u64(b"12a"), None);
    assert_eq!(parse_u64(b" 12"), None);
    assert_eq!(parse_u64(b"18446744073709551616"), None);
    assert_eq!(parse_u64(b"99999999999999999999"), None);
}

#[test]
fn parse_reads_back_format() {
    for n in [0u64, 1, 9, 10, 99, 100, 4414, 65535, 1 << 40, u64::MAX - 1, u64::MAX] {
        assert_eq!(parse_u64(&format_decimal(n)), Some(n));
    }
}

#[test]
fn find_gives_first_occurrence() {
    assert_eq!(find(b"a-->b-->", b"-->"), Some(1));
    assert_eq!(find(b"abc", b"abcd"), None);
    assert_eq!(find(b"abc", b"x"), None);
    assert_eq!(find(b"abc", b""), Some(0));
    assert_eq!(find(b"aab", b"ab"), Some(1));
}

#[test]
fn starts_with_tests_prefix() {
    assert!(starts_with(b"128.143.2.3:80", b"128.143"));
    assert!(!starts_with(b"12.8.143", b"128.143"));
    assert!(!starts_with(b"128", b"128.143"));
}
