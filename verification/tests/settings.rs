use megaparse::rows::RowCounter;
use megaparse::target::{check_target_name, parse_row_limit, TargetNameError};

#[test]
fn default_target_name_is_accepted() {
    assert_eq!(check_target_name(b"megaxx.txt"), Ok(()));
}

#[test]
fn target_name_too_short() {
    assert_eq!(check_target_name(b"a.b"), Err(TargetNameError::TooShort));
    assert_eq!(check_target_name(b""), Err(TargetNameError::TooShort));
}

#[test]
fn target_name_without_dot() {
    assert_eq!(check_target_name(b"megaxx"), Err(TargetNameError::NoExtension));
}

#[test]
fn target_name_with_short_extension() {
    assert_eq!(check_target_name(b"megaxx.tx"), Err(TargetNameError::ExtensionTooShort));
    assert_eq!(check_target_name(b"mega.txt.x"), Err(TargetNameError::ExtensionTooShort));
}

#[test]
fn target_name_with_short_stem() {
    assert_eq!(check_target_name(b"ab.txt"), Err(TargetNameError::StemTooShort));
    assert_eq!(check_target_name(b".abc.txt"), Err(TargetNameError::StemTooShort));
    assert_eq!(check_target_name(b"abc.txt"), Ok(()));
}

#[test]
fn target_name_counts_bytes() {
    // "é" takes two bytes, so "é.tx" is long enough but its extension is not.
    assert_eq!(check_target_name("é.tx".as_bytes()), Err(TargetNameError::ExtensionTooShort));
    assert_eq!(check_target_name("aé.txt".as_bytes()), Ok(()));
}

#[test]
fn row_limit_accepts_ten_or_more() {
    assert_eq!(parse_row_limit(b"10"), Some(10));
    assert_eq!(parse_row_limit(b"250000"), Some(250000));
}

#[test]
fn row_limit_refuses_small_or_bad_numbers() {
    assert_eq!(parse_row_limit(b"9"), None);
    assert_eq!(parse_row_limit(b"-99"), None);
    assert_eq!(parse_row_limit(b""), None);
    assert_eq!(parse_row_limit(b" 100"), None);
    assert_eq!(parse_row_limit(b"1e3"), None);
}

#[test]
fn counter_counts_rows() {
    let mut c = RowCounter::new();
    assert_eq!(c.rows(), 0);
    for _ in 0..5 {
        assert!(!c.count_row());
    }
    assert_eq!(c.rows(), 5);
}

#[test]
fn counter_reports_after_each_step() {
    let mut c = RowCounter::new();
    let mut reports = Vec::new();
    for _ in 0..300001 {
        if c.count_row() {
            reports.push(c.rows());
        }
    }
    assert_eq!(reports, vec![100001, 200001, 300001]);
    assert_eq!(c.rows(), 300001);
}
