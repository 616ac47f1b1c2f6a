use edge_relay::auth::{is_allowed, parse_allowed_id};

#[test]
fn allows_matching_id() {
    assert!(is_allowed(123, 123));
    assert!(is_allowed(-1001, -1001));
    assert!(is_allowed(0, 0));
}

#[test]
fn rejects_non_matching_id() {
    assert!(!is_allowed(123, 456));
    assert!(!is_allowed(0, 1));
    assert!(!is_allowed(-1, 1));
}

#[test]
fn parses_valid_id() {
    assert_eq!(parse_allowed_id("789"), Some(789));
}

#[test]
fn parses_id_with_surrounding_whitespace() {
    assert_eq!(parse_allowed_id("  789 \n"), Some(789));
}

#[test]
fn parses_negative_channel_id() {
    assert_eq!(parse_allowed_id("-1001234567890"), Some(-1001234567890));
}

#[test]
fn rejects_non_numeric() {
    assert_eq!(parse_allowed_id("abc"), None);
    assert_eq!(parse_allowed_id("12x"), None);
    assert_eq!(parse_allowed_id("1.5"), None);
}

#[test]
fn rejects_empty() {
    assert_eq!(parse_allowed_id(""), None);
    assert_eq!(parse_allowed_id("   "), None);
}

#[test]
fn parsed_id_round_trips_through_is_allowed() {
    let allowed = parse_allowed_id("42").unwrap();
    assert!(is_allowed(42, allowed));
    assert!(!is_allowed(43, allowed));
}

#[test]
fn rejects_id_that_overflows_i64() {
    // A number too large for i64 must be rejected, not wrap.
    assert_eq!(parse_allowed_id("99999999999999999999999"), None);
}

#[test]
fn accepts_i64_bounds() {
    assert_eq!(parse_allowed_id(&i64::MAX.to_string()), Some(i64::MAX));
    assert_eq!(parse_allowed_id(&i64::MIN.to_string()), Some(i64::MIN));
}

#[test]
fn rejects_one_past_i64_bounds() {
    assert_eq!(parse_allowed_id("9223372036854775808"), None);
    assert_eq!(parse_allowed_id("-9223372036854775809"), None);
}

#[test]
fn accepts_explicit_plus_sign_and_negative_zero() {
    assert_eq!(parse_allowed_id("+42"), Some(42));
    assert_eq!(parse_allowed_id(" -0 "), Some(0));
    assert_eq!(parse_allowed_id("007"), Some(7));
}

#[test]
fn rejects_bare_signs_and_inner_whitespace() {
    assert_eq!(parse_allowed_id("-"), None);
    assert_eq!(parse_allowed_id("+"), None);
    assert_eq!(parse_allowed_id("+-1"), None);
    assert_eq!(parse_allowed_id("1 2"), None);
}

#[test]
fn ignores_unicode_whitespace_around_id() {
    assert_eq!(parse_allowed_id("\u{3000}\u{a0}77\u{2028}\t"), Some(77));
    assert_eq!(parse_allowed_id(" 77 "), parse_allowed_id("77"));
}

#[test]
fn reads_back_decimal_of_assorted_ids() {
    for id in [0i64, 1, -1, 42, -1001234567890, i64::MAX - 1, i64::MIN + 1] {
        assert_eq!(parse_allowed_id(&id.to_string()), Some(id));
    }
}
