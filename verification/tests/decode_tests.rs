use power_usage::decode::decode_params;
use power_usage::errors::ApiError;

fn s(x: &str) -> String {
    x.to_string()
}

fn decode(
    target: Option<&str>,
    date: Option<&str>,
    time: Option<&str>,
    csv: Option<&str>,
) -> Result<power_usage::decode::UsageQuery, ApiError> {
    let t = target.map(s);
    let d = date.map(s);
    let tm = time.map(s);
    let c = csv.map(s);
    decode_params(t.as_ref(), d.as_ref(), tm.as_ref(), c.as_ref())
}

#[test]
fn decodes_valid_request() {
    let q = decode(Some("dev.*"), Some("2024-01-02"), Some("03:04"), Some("true")).unwrap();
    assert_eq!(q.target, "dev.*");
    assert!(q.want_csv);
    // 2024-01-02 03:04 at UTC+7 is 2024-01-01T20:04:00Z
    assert_eq!(q.instant, 1704139440);
    assert_eq!(q.prev_instant, 1704139440 - 86400);
}

#[test]
fn previous_instant_is_exactly_one_day_earlier() {
    for (date, time) in [
        ("2024-02-29", "00:00"),
        ("1999-12-31", "23:59"),
        ("2024-01-01", "05:30"),
        ("1970-01-01", "07:00"),
    ] {
        let q = decode(Some("x"), Some(date), Some(time), None).unwrap();
        assert_eq!(q.prev_instant, q.instant - 86400);
    }
}

#[test]
fn decodes_dot_delimited_date() {
    let q = decode(Some("x"), Some("2024.01.02"), Some("03:04"), None).unwrap();
    assert_eq!(q.instant, 1704139440);
    assert!(!q.want_csv);
}

#[test]
fn epoch_of_unix_epoch_moment() {
    // 1970-01-01 07:00 at UTC+7 is the Unix epoch itself
    let q = decode(Some("x"), Some("1970-01-01"), Some("07:00"), None).unwrap();
    assert_eq!(q.instant, 0);
    assert_eq!(q.prev_instant, -86400);
}

#[test]
fn rejects_missing_target() {
    assert!(matches!(decode(None, Some("2024-01-02"), Some("03:04"), None), Err(ApiError::BadRequest)));
}

#[test]
fn rejects_empty_target() {
    assert!(matches!(decode(Some(""), Some("2024-01-02"), Some("03:04"), None), Err(ApiError::BadRequest)));
}

#[test]
fn rejects_missing_date_or_time() {
    assert!(matches!(decode(Some("x"), None, Some("03:04"), None), Err(ApiError::BadRequest)));
    assert!(matches!(decode(Some("x"), Some("2024-01-02"), None, None), Err(ApiError::BadRequest)));
}

#[test]
fn rejects_wrong_date_component_count() {
    assert!(matches!(decode(Some("x"), Some("2024-01"), Some("03:04"), None), Err(ApiError::BadRequest)));
    assert!(matches!(decode(Some("x"), Some("2024-01-02-03"), Some("03:04"), None), Err(ApiError::BadRequest)));
    assert!(matches!(decode(Some("x"), Some(""), Some("03:04"), None), Err(ApiError::BadRequest)));
}

#[test]
fn rejects_non_numeric_date_component() {
    assert!(matches!(decode(Some("x"), Some("2024-xx-02"), Some("03:04"), None), Err(ApiError::BadRequest)));
    assert!(matches!(decode(Some("x"), Some("2024--02"), Some("03:04"), None), Err(ApiError::BadRequest)));
}

#[test]
fn rejects_wrong_time_component_count() {
    assert!(matches!(decode(Some("x"), Some("2024-01-02"), Some("03"), None), Err(ApiError::BadRequest)));
    assert!(matches!(decode(Some("x"), Some("2024-01-02"), Some("03:04:05"), None), Err(ApiError::BadRequest)));
}

#[test]
fn rejects_non_numeric_time_component() {
    assert!(matches!(decode(Some("x"), Some("2024-01-02"), Some("03:4b"), None), Err(ApiError::BadRequest)));
    assert!(matches!(decode(Some("x"), Some("2024-01-02"), Some("03.04"), None), Err(ApiError::BadRequest)));
    // a signed component is not numeric for unsigned parsing
    assert!(matches!(decode(Some("x"), Some("2024-01-02"), Some("03:-0"), None), Err(ApiError::BadRequest)));
}

#[test]
fn rejects_invalid_calendar_dates() {
    assert!(matches!(decode(Some("x"), Some("2024-13-01"), Some("03:04"), None), Err(ApiError::BadRequest)));
    assert!(matches!(decode(Some("x"), Some("2023-02-29"), Some("03:04"), None), Err(ApiError::BadRequest)));
    assert!(matches!(decode(Some("x"), Some("2024-04-31"), Some("03:04"), None), Err(ApiError::BadRequest)));
    assert!(matches!(decode(Some("x"), Some("2024-00-10"), Some("03:04"), None), Err(ApiError::BadRequest)));
}

#[test]
fn accepts_leap_day_of_leap_year() {
    assert!(decode(Some("x"), Some("2024-02-29"), Some("00:00"), None).is_ok());
}

#[test]
fn rejects_invalid_time_of_day() {
    assert!(matches!(decode(Some("x"), Some("2024-01-02"), Some("24:00"), None), Err(ApiError::BadRequest)));
    assert!(matches!(decode(Some("x"), Some("2024-01-02"), Some("03:60"), None), Err(ApiError::BadRequest)));
}

#[test]
fn csv_flag_is_true_only_for_literal_true() {
    assert!(decode(Some("x"), Some("2024-01-02"), Some("03:04"), Some("true")).unwrap().want_csv);
    assert!(!decode(Some("x"), Some("2024-01-02"), Some("03:04"), Some("TRUE")).unwrap().want_csv);
    assert!(!decode(Some("x"), Some("2024-01-02"), Some("03:04"), Some("1")).unwrap().want_csv);
    assert!(!decode(Some("x"), Some("2024-01-02"), Some("03:04"), None).unwrap().want_csv);
}

#[test]
fn status_codes_match_error_taxonomy() {
    assert_eq!(ApiError::BadRequest.status_code(), 400);
    assert_eq!(ApiError::BackendUnreachable.status_code(), 502);
    assert_eq!(ApiError::Internal.status_code(), 500);
}
