use vexlake::decimal::{decimal_bytes, parse_decimal, push_decimal};

#[test]
fn decimal_text() {
    assert_eq!(decimal_bytes(0), b"0".to_vec());
    assert_eq!(decimal_bytes(1234567890), b"1234567890".to_vec());
    assert_eq!(decimal_bytes(u64::MAX), b"18446744073709551615".to_vec());
    let mut s = String::from("v");
    push_decimal(&mut s, 907);
    assert_eq!(s, "v907");
}

#[test]
fn parse_accepts_trimmed_numbers() {
    assert_eq!(parse_decimal(b"42"), Some(42));
    assert_eq!(parse_decimal(b"  7\n"), Some(7));
    assert_eq!(parse_decimal(b"+15"), Some(15));
    assert_eq!(parse_decimal(b"18446744073709551615"), Some(u64::MAX));
}

#[test]
fn parse_rejects_other_text() {
    assert_eq!(parse_decimal(b""), None);
    assert_eq!(parse_decimal(b"   "), None);
    assert_eq!(parse_decimal(b"+"), None);
    assert_eq!(parse_decimal(b"-1"), None);
    assert_eq!(parse_decimal(b"1 2"), None);
    assert_eq!(parse_decimal(b"12a"), None);
    assert_eq!(parse_decimal(b"18446744073709551616"), None);
    assert_eq!(parse_decimal(b"99999999999999999999"), None);
}

#[test]
fn text_reads_back() {
    for n in [0u64, 9, 10, 99, 100, 123456789, u64::MAX] {
        assert_eq!(parse_decimal(&decimal_bytes(n)), Some(n));
    }
}

#[test]
fn parse_trims_unicode_whitespace() {
    assert_eq!(parse_decimal("\u{3000}42".as_bytes()), Some(42));
    assert_eq!(parse_decimal("\u{85}7\u{a0}".as_bytes()), Some(7));
    assert_eq!(parse_decimal("\u{2003}\u{2028}+9\u{202f}\u{205f}\u{1680}".as_bytes()), Some(9));
    assert_eq!(parse_decimal("\u{200b}5".as_bytes()), None);
}
