use power_usage::align::{align_series, ReadingPair};
use power_usage::gateway::process_bodies;
use power_usage::render::{render_csv, RenderRecord};

fn s(x: &str) -> String {
    x.to_string()
}

fn series(entries: &[(&str, &[&str])]) -> Vec<(String, Vec<String>)> {
    entries
        .iter()
        .map(|(k, vs)| (s(k), vs.iter().map(|v| s(v)).collect()))
        .collect()
}

fn pairs_of(rows: &[(String, Vec<ReadingPair>)], key: &str) -> Vec<(String, String)> {
    rows.iter()
        .find(|(k, _)| k == key)
        .map(|(_, ps)| ps.iter().map(|p| (p.curr.clone(), p.prev.clone())).collect())
        .unwrap()
}

#[test]
fn aligns_positionally_and_truncates_to_shorter() {
    let curr = series(&[("a", &["10", "20"])]);
    let prev = series(&[("a", &["4", "6", "9"])]);
    let rows = align_series(curr, &prev);
    assert_eq!(rows.len(), 1);
    assert_eq!(
        pairs_of(&rows, "a"),
        vec![(s("10"), s("4")), (s("20"), s("6"))]
    );
}

#[test]
fn truncates_when_current_is_longer_side_or_shorter_side() {
    let curr = series(&[("a", &["1", "2", "3"])]);
    let prev = series(&[("a", &["9"])]);
    let rows = align_series(curr, &prev);
    assert_eq!(pairs_of(&rows, "a"), vec![(s("1"), s("9"))]);
}

#[test]
fn instance_only_in_current_leaves_no_entry() {
    let curr = series(&[("a", &["10"]), ("b", &["5"])]);
    let prev = series(&[("a", &["4"])]);
    let rows = align_series(curr, &prev);
    assert_eq!(rows.len(), 1);
    assert_eq!(rows[0].0, "a");
}

#[test]
fn instance_only_in_previous_leaves_no_entry() {
    let curr = series(&[("a", &["10"])]);
    let prev = series(&[("a", &["4"]), ("c", &["8"])]);
    let rows = align_series(curr, &prev);
    assert_eq!(rows.len(), 1);
    assert_eq!(rows[0].0, "a");
}

#[test]
fn alignment_keeps_current_order_of_instances() {
    let curr = series(&[("b", &["1"]), ("a", &["2"])]);
    let prev = series(&[("a", &["1"]), ("b", &["1"])]);
    let rows = align_series(curr, &prev);
    let keys: Vec<&str> = rows.iter().map(|(k, _)| k.as_str()).collect();
    assert_eq!(keys, vec!["b", "a"]);
}

#[test]
fn processes_two_bodies_end_to_end() {
    let curr = r#"{"data":{"result":[{"metric":{"instance":"a","address":"1"},"value":[1,"10"]},
        {"metric":{"instance":"b","address":"2"},"value":[1,"5"]}]}}"#;
    let prev = r#"{"data":{"result":[{"metric":{"instance":"a","address":"1"},"value":[1,"4"]}]}}"#;
    let rows = process_bodies(curr, prev).unwrap();
    assert_eq!(rows.len(), 1);
    assert_eq!(pairs_of(&rows, "a"), vec![(s("10"), s("4"))]);
    assert!(matches!(
        process_bodies(curr, "{\"data\":{}}"),
        Err(power_usage::errors::ApiError::BackendUnreachable)
    ));
}

const HEADER: &str = "Target,Address,Prev_kWh,Current_kWh,Daily_KWh,Avg_Power_Watt\n";

fn rec(prev: &str, curr: &str, daily: &str, avg: &str, zero: bool) -> RenderRecord {
    RenderRecord {
        prev_kwh: s(prev),
        curr_kwh: s(curr),
        daily_kwh: s(daily),
        avg_power_watt: s(avg),
        avg_is_zero: zero,
    }
}

#[test]
fn renders_the_computed_example_row() {
    // curr = 10 kWh, prev = 4 kWh: the delta of 6 kWh over 24 hours is an
    // average power of exactly 250 watts under the fixed scaling chain
    let curr = 10.0_f64;
    let prev = 4.0_f64;
    let daily = curr - prev;
    let avg = (daily / 24.0 * 100000.0).round() / 100.0;
    assert_eq!(avg, 250.0);
    let rows = vec![(
        s("a"),
        vec![rec(
            &format!("{}", prev),
            &format!("{}", curr),
            &format!("{}", daily),
            &format!("{}", avg),
            avg == 0.0,
        )],
    )];
    let out = render_csv(&rows);
    assert_eq!(out, format!("{}a,1,4,10,6,250\n", HEADER));
}

#[test]
fn omits_zero_rows_but_keeps_others_and_their_positions() {
    let rows = vec![(
        s("a"),
        vec![
            rec("1", "1", "0", "0", true),
            rec("2", "4", "2", "83.33", false),
            rec("3", "3", "0", "0", true),
            rec("5", "9", "4", "166.67", false),
        ],
    )];
    let out = render_csv(&rows);
    assert_eq!(
        out,
        format!("{}a,2,2,4,2,83.33\na,4,5,9,4,166.67\n", HEADER)
    );
}

#[test]
fn negative_zero_average_is_still_omitted() {
    // a slightly negative delta rounds to -0.0, which equals 0.0 and is
    // filtered like it
    let daily = -0.0001_f64;
    let avg = (daily / 24.0 * 100000.0).round() / 100.0;
    assert_eq!(avg, 0.0);
    let rows = vec![(s("a"), vec![rec("1", "0.9999", "-0.0001", &format!("{}", avg), avg == 0.0)])];
    assert_eq!(render_csv(&rows), HEADER);
}

#[test]
fn header_is_present_even_when_everything_is_filtered() {
    let rows = vec![
        (s("a"), vec![rec("1", "1", "0", "0", true)]),
        (s("b"), vec![rec("2", "2", "0", "0", true)]),
    ];
    assert_eq!(render_csv(&rows), HEADER);
    assert_eq!(render_csv(&Vec::new()), HEADER);
}

#[test]
fn renders_multiple_instances_in_order() {
    let rows = vec![
        (s("b"), vec![rec("1", "2", "1", "41.67", false)]),
        (s("a"), vec![rec("4", "10", "6", "250", false)]),
    ];
    assert_eq!(
        render_csv(&rows),
        format!("{}b,1,1,2,1,41.67\na,1,4,10,6,250\n", HEADER)
    );
}
