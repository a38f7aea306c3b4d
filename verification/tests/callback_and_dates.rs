use eve_remap::callback::request_target;
use eve_remap::esi::{is_unauthorized, EsiError};
use eve_remap::callback::{parse_auth_code_from_request, parse_callback, CallbackError};
use eve_remap::date::{iso_to_unix_secs, ymd_to_days};

#[test]
fn test_parse_auth_code_success() {
    let req = "GET /callback?code=abc123xyz&state=random HTTP/1.1\r\n";
    assert_eq!(parse_auth_code_from_request(req).unwrap(), "abc123xyz");
}

#[test]
fn test_parse_auth_code_missing() {
    let req = "GET /callback?error=access_denied HTTP/1.1\r\n";
    assert!(parse_auth_code_from_request(req).is_err());
}

#[test]
fn test_iso_to_unix_basic() {
    // Known epoch: 2021-01-01T00:00:00Z = 1609459200
    let ts = iso_to_unix_secs("2021-01-01T00:00:00Z");
    assert_eq!(ts, Some(1_609_459_200));
}

#[test]
fn test_iso_to_unix_with_offset() {
    // 2021-01-01T02:00:00+02:00 == 2021-01-01T00:00:00Z
    let ts = iso_to_unix_secs("2021-01-01T02:00:00+02:00");
    assert_eq!(ts, Some(1_609_459_200));
}

#[test]
fn test_iso_to_unix_null() {
    assert_eq!(iso_to_unix_secs(""), None);
    assert_eq!(iso_to_unix_secs("null"), None);
}

#[test]
fn iso_negative_offset_and_whitespace() {
    assert_eq!(iso_to_unix_secs("  2021-01-01T00:00:00-05:30 "), Some(1_609_459_200 + 5 * 3600 + 30 * 60));
    assert_eq!(iso_to_unix_secs("2021-01-01"), None);
    assert_eq!(iso_to_unix_secs("2021-01-01T00:00"), None);
    assert_eq!(iso_to_unix_secs("2021-13-01T00:00:00Z"), None);
    assert_eq!(iso_to_unix_secs("1969-12-31T23:00:00Z"), Some(0));
    assert_eq!(iso_to_unix_secs("2024-02-29T12:00:00Z"), Some(1_709_208_000));
    assert_eq!(iso_to_unix_secs("2021-01-01T00:00:00+2:00"), None);
}

#[test]
fn ymd_epoch_and_leap_days() {
    assert_eq!(ymd_to_days(1970, 1, 1), Some(0));
    assert_eq!(ymd_to_days(2000, 3, 1), Some(11_017));
    assert_eq!(ymd_to_days(1970, 0, 1), None);
    assert_eq!(ymd_to_days(0, 1, 1), None);
    assert_eq!(ymd_to_days(1970, 1, 0), None);
}

#[test]
fn auth_code_errors_by_kind() {
    assert_eq!(parse_auth_code_from_request(""), Err(CallbackError::NoRequestLine));
    assert_eq!(parse_auth_code_from_request("GET nothing"), Err(CallbackError::NoPath));
    assert_eq!(parse_auth_code_from_request("GET /callback HTTP/1.1"), Err(CallbackError::NoQuery));
    assert_eq!(
        parse_auth_code_from_request("GET /cb?code=&state=x\r\nHost: y"),
        Err(CallbackError::NoCode("GET /cb?code=&state=x".to_string()))
    );
    assert_eq!(parse_auth_code_from_request("GET /cb?state=s&code=c1&code=c2").unwrap(), "c1");
}

#[test]
fn callback_uri_code_and_state() {
    let (code, state) = parse_callback("/callback?code=abc&state=xyz HTTP/1.1\r\n");
    assert_eq!(code.as_deref(), Some("abc"));
    assert_eq!(state, "xyz");
    let (code, state) = parse_callback("/callback?code=a&code=b");
    assert_eq!(code.as_deref(), Some("b"));
    assert_eq!(state, "");
    let (code, state) = parse_callback("/callback");
    assert_eq!(code, None);
    assert_eq!(state, "");
}

#[test]
fn request_target_starts_at_first_slash() {
    assert_eq!(
        request_target("GET /callback?code=x HTTP/1.1\r\n"),
        Some("/callback?code=x HTTP/1.1\r\n".to_string())
    );
    assert_eq!(request_target("garbage"), None);
}

#[test]
fn unauthorized_errors_are_retried() {
    let e = EsiError { endpoint: "/characters/1/skills/".to_string(), status: 401 };
    assert!(is_unauthorized(&e.message()));
    let e = EsiError { endpoint: "/x/".to_string(), status: 404 };
    assert!(!is_unauthorized(&e.message()));
    assert!(is_unauthorized("HTTP 401"));
}
