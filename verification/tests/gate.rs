use ryu_mission_control::gate::{
    bearer_ok, configured_port, configured_token, constant_time_eq, parse_port, require_token,
};

#[test]
fn no_configured_token_rejects_everything() {
    assert!(!bearer_ok(Some("anything"), None));
    assert!(!bearer_ok(Some("anything"), Some("")));
    assert!(!bearer_ok(None, None));
}

#[test]
fn only_the_exact_token_is_accepted() {
    assert!(bearer_ok(Some("s3cret"), Some("s3cret")));
    assert!(!bearer_ok(Some("s3cre"), Some("s3cret")));
    assert!(!bearer_ok(Some("s3crett"), Some("s3cret")));
    assert!(!bearer_ok(None, Some("s3cret")));
}

#[test]
fn ct_eq_is_length_sensitive_and_content_sensitive() {
    assert!(constant_time_eq(b"abc", b"abc"));
    assert!(!constant_time_eq(b"abc", b"abd"));
    assert!(!constant_time_eq(b"abc", b"ab"));
}

#[test]
fn an_empty_secret_opens_nothing() {
    assert!(!bearer_ok(Some(""), Some("")));
    assert!(constant_time_eq(b"", b""));
}

#[test]
fn the_header_presents_what_stands_behind_its_scheme() {
    assert!(require_token(Some("Bearer s3cret"), Some("s3cret")));
    assert!(!require_token(Some("bearer s3cret"), Some("s3cret")));
    assert!(!require_token(Some("Bearer  s3cret"), Some("s3cret")));
    assert!(!require_token(Some("s3cret"), Some("s3cret")));
    assert!(!require_token(Some("Bearer"), Some("s3cret")));
    assert!(!require_token(None, Some("s3cret")));
    assert!(!require_token(Some("Bearer s3cret"), None));
    assert!(require_token(Some("Bearer grün"), Some("grün")));
}

#[test]
fn a_secret_is_configured_without_the_white_space_around_it() {
    assert_eq!(configured_token(Some(" s3cret\n")).as_deref(), Some("s3cret"));
    assert_eq!(configured_token(Some("  \t")), None);
    assert_eq!(configured_token(Some("")), None);
    assert_eq!(configured_token(None), None);
}

#[test]
fn a_port_is_a_number_of_16_bits() {
    for good in ["0", "8010", "65535", "+8010", "00080", "+0"] {
        assert_eq!(parse_port(good), good.parse::<u16>().ok());
        assert!(parse_port(good).is_some());
    }
    for bad in ["", "+", "-1", "65536", "99999999999999999999", "8o10", " 80", "٣", "++1"] {
        assert_eq!(parse_port(bad), None);
        assert!(bad.parse::<u16>().is_err());
    }
}

#[test]
fn a_port_that_is_not_configured_is_the_default() {
    assert_eq!(configured_port(None), 8010);
    assert_eq!(configured_port(Some("junk")), 8010);
    assert_eq!(configured_port(Some("")), 8010);
    assert_eq!(configured_port(Some(" 9010 ")), 9010);
}
