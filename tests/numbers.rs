use redis_lite::decimal::{parse_i64, parse_u64, push_int, push_nat};
use redis_lite::syntax::{is_big_number_text, is_float_text};

#[test]
fn parse_i64_forms() {
    assert_eq!(parse_i64(b"42"), Some(42));
    assert_eq!(parse_i64(b"+42"), Some(42));
    assert_eq!(parse_i64(b"-0"), Some(0));
    assert_eq!(parse_i64(b"-9223372036854775808"), Some(i64::MIN));
    assert_eq!(parse_i64(b"9223372036854775807"), Some(i64::MAX));
    assert_eq!(parse_i64(b"9223372036854775808"), None);
    assert_eq!(parse_i64(b"00000000000000000000000000012"), Some(12));
    assert_eq!(parse_i64(b"99999999999999999999999999999"), None);
    assert_eq!(parse_i64(b""), None);
    assert_eq!(parse_i64(b"+"), None);
    assert_eq!(parse_i64(b"-"), None);
    assert_eq!(parse_i64(b"1 "), None);
}

#[test]
fn parse_u64_forms() {
    assert_eq!(parse_u64(b"10"), Some(10));
    assert_eq!(parse_u64(b"+10"), Some(10));
    assert_eq!(parse_u64(b"18446744073709551615"), Some(u64::MAX));
    assert_eq!(parse_u64(b"18446744073709551616"), None);
    assert_eq!(parse_u64(b"-1"), None);
    assert_eq!(parse_u64(b""), None);
    assert_eq!(parse_u64(b"1x"), None);
}

#[test]
fn decimal_spelling() {
    let mut out = Vec::new();
    push_nat(&mut out, 0);
    push_int(&mut out, -120);
    push_int(&mut out, i64::MIN);
    push_nat(&mut out, 340282366920938463463374607431768211455);
    assert_eq!(
        out,
        b"0-120-9223372036854775808340282366920938463463374607431768211455".to_vec()
    );
}

#[test]
fn float_text_forms() {
    for ok in ["1.5", ".5", "5.", "1e10", "1E-3", "+2.5e+7", "inf", "-Infinity", "NaN", "+nan", "0"] {
        assert!(is_float_text(ok.as_bytes()), "{}", ok);
    }
    for bad in ["", ".", "e5", "1e", "1.2.3", "abc", "--1", "1e1.5", "infin", " 1"] {
        assert!(!is_float_text(bad.as_bytes()), "{}", bad);
    }
}

#[test]
fn big_number_text_forms() {
    assert!(is_big_number_text(b"+"));
    assert!(is_big_number_text(b"-0123"));
    assert!(!is_big_number_text(b"123"));
    assert!(!is_big_number_text(b"+12a"));
    assert!(!is_big_number_text(b""));
}
