use megaparse::number::{format_decimal, parse_i64};
use megaparse::target::{first_index_of_byte, last_index_of_byte};
use megaparse::text::{bytes_equal, bytes_start_with, find_bytes, trim_bytes};

#[test]
fn parse_plain_number() {
    assert_eq!(parse_i64(b"12345"), Some(12345));
}

#[test]
fn parse_signed_numbers() {
    assert_eq!(parse_i64(b"+7"), Some(7));
    assert_eq!(parse_i64(b"-42"), Some(-42));
    assert_eq!(parse_i64(b"-0"), Some(0));
}

#[test]
fn parse_rejects_bad_text() {
    assert_eq!(parse_i64(b""), None);
    assert_eq!(parse_i64(b"+"), None);
    assert_eq!(parse_i64(b"-"), None);
    assert_eq!(parse_i64(b"12a"), None);
    assert_eq!(parse_i64(b" 12"), None);
    assert_eq!(parse_i64(b"1 2"), None);
    assert_eq!(parse_i64(b"+-1"), None);
}

#[test]
fn parse_limits_of_i64() {
    assert_eq!(parse_i64(b"9223372036854775807"), Some(i64::MAX));
    assert_eq!(parse_i64(b"9223372036854775808"), None);
    assert_eq!(parse_i64(b"-9223372036854775808"), Some(i64::MIN));
    assert_eq!(parse_i64(b"-9223372036854775809"), None);
    assert_eq!(parse_i64(b"000000000000000000000000000001"), Some(1));
    assert_eq!(parse_i64(b"99999999999999999999999999x"), None);
}

#[test]
fn parse_agrees_with_std() {
    let cases = [
        "0", "17", "+17", "-17", "", "+", "-", "a", "1e3", "٣", "18446744073709551616",
        "-9223372036854775808", "00012", "12 ",
    ];
    for c in cases.iter() {
        assert_eq!(parse_i64(c.as_bytes()), c.parse::<i64>().ok(), "{}", c);
    }
}

#[test]
fn decimal_text() {
    assert_eq!(format_decimal(0), b"0".to_vec());
    assert_eq!(format_decimal(9), b"9".to_vec());
    assert_eq!(format_decimal(10), b"10".to_vec());
    assert_eq!(format_decimal(1234567890), b"1234567890".to_vec());
    assert_eq!(format_decimal(u64::MAX), u64::MAX.to_string().into_bytes());
}

#[test]
fn decimal_reads_back() {
    for n in [0i64, 5, 10, 99, 100, 123456789, i64::MAX].iter() {
        let text = format_decimal(*n as u64);
        assert_eq!(parse_i64(&text), Some(*n));
    }
}

#[test]
fn trim_agrees_with_std() {
    let cases = [
        "", "   ", "  12 ", "\t12\n", "\u{a0}12\u{3000}", "\u{2009}x\u{2028}", "\u{85}a b\u{202f}",
        "\u{1680}\u{205f}", "é", " é ", "\u{200b}x", "x\u{200a}",
    ];
    for c in cases.iter() {
        assert_eq!(trim_bytes(c.as_bytes()), c.trim().as_bytes(), "{:?}", c);
    }
}

#[test]
fn find_first_occurrence() {
    assert_eq!(find_bytes(b"/a/b/a:", b"/a"), Some(0));
    assert_eq!(find_bytes(b"x/a/b/a:", b"/a"), Some(1));
    assert_eq!(find_bytes(b"abc", b""), Some(0));
    assert_eq!(find_bytes(b"abc", b"abcd"), None);
    assert_eq!(find_bytes(b"abc", b"c"), Some(2));
    assert_eq!(find_bytes(b"abc", b"d"), None);
}

#[test]
fn byte_helpers() {
    assert_eq!(first_index_of_byte(b"a.b.c", b'.'), Some(1));
    assert_eq!(last_index_of_byte(b"a.b.c", b'.'), Some(3));
    assert_eq!(first_index_of_byte(b"abc", b'.'), None);
    assert_eq!(last_index_of_byte(b"", b'.'), None);
    assert!(bytes_equal(b"--", b"--"));
    assert!(!bytes_equal(b"--", b"-"));
    assert!(!bytes_equal(b"-a", b"--"));
    assert!(bytes_start_with(b"---- x", b"---- "));
    assert!(!bytes_start_with(b"---", b"---- "));
}
