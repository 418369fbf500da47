use intcode::text::int_to_text;
use intcode::text::parse_int;

#[test]
fn test_parse_int_trimmed() {
    assert_eq!(parse_int(" 42 "), Some(42));
    assert_eq!(parse_int("-1\n"), Some(-1));
    assert_eq!(parse_int("\t+7\r\n"), Some(7));
}

#[test]
fn test_parse_int_rejects() {
    assert_eq!(parse_int(""), None);
    assert_eq!(parse_int("   "), None);
    assert_eq!(parse_int("+-3"), None);
    assert_eq!(parse_int("12a"), None);
    assert_eq!(parse_int("1 2"), None);
}

#[test]
fn test_parse_int_range() {
    assert_eq!(parse_int("9223372036854775807"), Some(i64::MAX));
    assert_eq!(parse_int("-9223372036854775808"), Some(i64::MIN));
    assert_eq!(parse_int("9223372036854775808"), None);
    assert_eq!(parse_int("-9223372036854775809"), None);
}

#[test]
fn test_int_to_text() {
    assert_eq!(int_to_text(0).as_slice(), b"0");
    assert_eq!(int_to_text(12345).as_slice(), b"12345");
    assert_eq!(int_to_text(-17).as_slice(), b"-17");
    assert_eq!(int_to_text(i64::MIN).as_slice(), b"-9223372036854775808");
    assert_eq!(int_to_text(i64::MAX).as_slice(), b"9223372036854775807");
}

#[test]
fn test_round_trip() {
    let values: Vec<i64> = vec![0, 1, -1, 99, -12345, i64::MIN, i64::MAX];
    for v in values {
        let text = int_to_text(v);
        let s = String::from_utf8(text).unwrap();
        assert_eq!(parse_int(&s), Some(v));
    }
}
