use power_usage::backend::{
    build_query_expr, build_request, group_samples, parse_response, sort_by_address, RawSample,
};
use power_usage::errors::ApiError;
use power_usage::floatlit::is_float_literal;
use power_usage::numeric::{parse_u32, u64_to_string};

fn s(x: &str) -> String {
    x.to_string()
}

fn sample(instance: Option<&str>, address: Option<&str>, value: Option<&str>) -> RawSample {
    RawSample { instance: instance.map(s), address: address.map(s), value: value.map(s) }
}

#[test]
fn parses_u32_like_the_standard_grammar() {
    assert_eq!(parse_u32("123"), Some(123));
    assert_eq!(parse_u32("0"), Some(0));
    assert_eq!(parse_u32("+5"), Some(5));
    assert_eq!(parse_u32("-0"), None);
    assert_eq!("-0".parse::<u32>().ok(), None);
    assert_eq!(parse_u32("4294967295"), Some(4294967295));
    assert_eq!(parse_u32("4294967296"), None);
    assert_eq!(parse_u32("99999999999999999999"), None);
    assert_eq!(parse_u32("-1"), None);
    assert_eq!(parse_u32(""), None);
    assert_eq!(parse_u32("+"), None);
    assert_eq!(parse_u32("12a"), None);
    assert_eq!(parse_u32(" 12"), None);
}

#[test]
fn float_grammar_accepts_what_float_parsing_accepts() {
    for ok in [
        "5", "5.5", ".5", "5.", "-0.25", "+3", "1e5", "1E-5", "+1.5e+3", "2.e2", "inf",
        "Infinity", "-NaN", "nan", "007",
    ] {
        assert!(is_float_literal(ok), "expected accept: {}", ok);
        assert!(ok.parse::<f64>().is_ok(), "reference disagrees: {}", ok);
    }
    for bad in [
        "", ".", "e5", "1e", "1e+", "1.2.3", "abc", "1e5x", "--1", "+-1", "in", "infinit",
        " 1", "1 ", "0x10", "1,5",
    ] {
        assert!(!is_float_literal(bad), "expected reject: {}", bad);
        assert!(bad.parse::<f64>().is_err(), "reference disagrees: {}", bad);
    }
}

#[test]
fn renders_decimal_positions() {
    assert_eq!(u64_to_string(0), "0");
    assert_eq!(u64_to_string(7), "7");
    assert_eq!(u64_to_string(10), "10");
    assert_eq!(u64_to_string(250), "250");
    assert_eq!(u64_to_string(1204507), "1204507");
}

#[test]
fn sorts_by_numeric_address_with_fallback_zero() {
    let items = vec![
        sample(Some("a"), Some("2"), Some("5")),
        sample(Some("a"), Some("1"), Some("3")),
        sample(Some("b"), Some("x"), Some("7")),
    ];
    let sorted = sort_by_address(items);
    let order: Vec<&str> = sorted.iter().map(|i| i.value.as_deref().unwrap()).collect();
    assert_eq!(order, vec!["7", "3", "5"]);
}

#[test]
fn sort_is_stable_for_equal_keys() {
    let items = vec![
        sample(Some("a"), Some("1"), Some("first")),
        sample(Some("b"), None, Some("front")),
        sample(Some("a"), Some("1"), Some("second")),
        sample(Some("c"), Some("-0"), Some("also-zero")),
    ];
    let sorted = sort_by_address(items);
    let order: Vec<&str> = sorted.iter().map(|i| i.value.as_deref().unwrap()).collect();
    // missing and unparsable addresses ("-0" among them) all key as 0,
    // in original order
    assert_eq!(order, vec!["front", "also-zero", "first", "second"]);
}

#[test]
fn groups_sorted_items_by_instance() {
    let items = vec![
        sample(Some("a"), Some("2"), Some("5")),
        sample(Some("a"), Some("1"), Some("3")),
        sample(Some("b"), Some("x"), Some("7")),
    ];
    let series = group_samples(items);
    let view: Vec<(String, Vec<String>)> = series;
    assert_eq!(
        view,
        vec![(s("b"), vec![s("7")]), (s("a"), vec![s("3"), s("5")])]
    );
}

#[test]
fn grouping_skips_unparsable_values_and_defaults_instance() {
    let items = vec![
        sample(Some("a"), Some("1"), None),
        sample(Some("a"), Some("2"), Some("oops")),
        sample(Some("a"), Some("3"), Some("NaN")),
        sample(None, Some("4"), Some("2.5")),
    ];
    let series = group_samples(items);
    assert_eq!(
        series,
        vec![(s("a"), vec![s("NaN")]), (s("unknown"), vec![s("2.5")])]
    );
}

#[test]
fn parses_a_full_backend_response() {
    let body = r#"{"status":"success","data":{"result":[
        {"metric":{"instance":"a","address":"2"},"value":[1700000000,"5"]},
        {"metric":{"instance":"a","address":"1"},"value":[1700000000,"3"]},
        {"metric":{"instance":"b","address":"x"},"value":[1700000000,"7"]}
    ]}}"#;
    let series = parse_response(body).unwrap();
    assert_eq!(
        series,
        vec![(s("b"), vec![s("7")]), (s("a"), vec![s("3"), s("5")])]
    );
}

#[test]
fn response_without_result_array_is_backend_unreachable() {
    assert_eq!(parse_response("{\"data\":{}}"), Err(ApiError::BackendUnreachable));
    assert_eq!(parse_response("{}"), Err(ApiError::BackendUnreachable));
    assert_eq!(
        parse_response("{\"data\":{\"result\":{}}}"),
        Err(ApiError::BackendUnreachable)
    );
    assert_eq!(parse_response("not json at all"), Err(ApiError::BackendUnreachable));
    assert_eq!(parse_response(""), Err(ApiError::BackendUnreachable));
}

#[test]
fn malformed_items_are_tolerated_inside_the_array() {
    let body = r#"{"data":{"result":[
        {"metric":{"address":"1"},"value":[1,"2.5"]},
        {"value":"nope"},
        {"metric":{"instance":"a"},"value":[1]}
    ]}}"#;
    let series = parse_response(body).unwrap();
    assert_eq!(series, vec![(s("unknown"), vec![s("2.5")])]);
}

#[test]
fn builds_the_fixed_matcher_expression() {
    assert_eq!(
        build_query_expr("dev-[0-9]+"),
        "last_over_time({__name__=\"energy\",instance=~\"dev-[0-9]+\"}[10m])"
    );
}

#[test]
fn builds_the_wire_request_with_rfc3339_time() {
    let req = build_request("dev.*", 1704139440).unwrap();
    assert_eq!(
        req.query,
        "last_over_time({__name__=\"energy\",instance=~\"dev.*\"}[10m])"
    );
    assert_eq!(req.time, "2024-01-01T20:04:00Z");
    let epoch = build_request("x", 0).unwrap();
    assert_eq!(epoch.time, "1970-01-01T00:00:00Z");
    let negative = build_request("x", -86400).unwrap();
    assert_eq!(negative.time, "1969-12-31T00:00:00Z");
}

#[test]
fn requests_within_the_promised_range_succeed() {
    assert!(build_request("x", 8_000_000_000_000).is_some());
    assert!(build_request("x", -8_000_000_000_000).is_some());
    // far beyond the representable years the calendar library refuses
    assert!(build_request("x", 9_000_000_000_000).is_none());
}
