use carbon_influxdb::carbon::{parse_u64, split_on_blanks, GraphitePoint};
use carbon_influxdb::database::{CarbonConnection, InfluxDatabase};
use carbon_influxdb::json::encode_records;
use carbon_influxdb::number::{is_float, push_json_number};
use carbon_influxdb::record::{add_point, build_records, InfluxDataRecord};
use carbon_influxdb::text::{push_dec, push_json_string, push_signed_dec};

fn point(name: &str, value: &str, ts: u64) -> GraphitePoint {
    GraphitePoint { metric_name: name.to_string(), metric_value: value.to_string(), timestamp: ts }
}

fn db() -> InfluxDatabase {
    InfluxDatabase {
        host: "localhost".to_string(),
        port: 8086,
        database: "metrics".to_string(),
        username: "test".to_string(),
        password: "test".to_string(),
    }
}

fn json_number(s: &str) -> String {
    let mut out = String::new();
    push_json_number(&mut out, s);
    out
}

#[test]
fn parses_well_formed_line() {
    let p = GraphitePoint::from_carbon_line("cpu.load 0.75 1700000000\n").unwrap();
    assert_eq!(p.metric_name, "cpu.load");
    assert_eq!(p.metric_value, "0.75");
    assert_eq!(p.timestamp, 1700000000);
}

#[test]
fn scenario_one_line_to_one_record() {
    let p = GraphitePoint::from_carbon_line("cpu.load 0.75 1700000000\n").unwrap();
    let records = build_records(&vec![p]);
    assert_eq!(records.len(), 1);
    assert_eq!(records[0].series_name, "cpu.load");
    assert_eq!(records[0].columns, vec!["time", "value"]);
    assert_eq!(records[0].points, vec![(1700000000u64, "0.75".to_string())]);
    assert_eq!(
        encode_records(&records),
        "[{\"name\":\"cpu.load\",\"columns\":[\"time\",\"value\"],\"points\":[[1700000000,0.75]]}]"
    );
}

#[test]
fn scenario_bad_line_is_dropped_and_processing_goes_on() {
    let mut c = CarbonConnection::new();
    assert!(GraphitePoint::from_carbon_line("bad line here\n").is_none());
    assert!(!c.feed_line("bad line here\n"));
    assert!(c.records.is_empty());
    assert!(c.feed_line("disk.free 12 1700000001"));
    assert_eq!(c.records.len(), 1);
    assert_eq!(c.records[0].series_name, "disk.free");
}

#[test]
fn scenario_no_valid_lines_sends_nothing() {
    let mut c = CarbonConnection::new();
    assert!(!c.feed_line(""));
    assert!(!c.feed_line("just noise"));
    assert!(c.finish(&db()).is_none());
    assert!(CarbonConnection::new().finish(&db()).is_none());
}

#[test]
fn rejects_wrong_field_counts() {
    assert!(GraphitePoint::from_carbon_line("").is_none());
    assert!(GraphitePoint::from_carbon_line("   ").is_none());
    assert!(GraphitePoint::from_carbon_line("m 1").is_none());
    assert!(GraphitePoint::from_carbon_line("m 1 2 3").is_none());
}

#[test]
fn rejects_non_numeric_fields() {
    assert!(GraphitePoint::from_carbon_line("m x 5").is_none());
    assert!(GraphitePoint::from_carbon_line("m 1 x").is_none());
    assert!(GraphitePoint::from_carbon_line("m 1 -5").is_none());
    assert!(GraphitePoint::from_carbon_line("m 1 1.5").is_none());
    assert!(GraphitePoint::from_carbon_line("m 1e 5").is_none());
    assert!(GraphitePoint::from_carbon_line("m . 5").is_none());
}

#[test]
fn timestamp_edges() {
    assert_eq!(
        GraphitePoint::from_carbon_line("m 1 18446744073709551615").unwrap().timestamp,
        u64::MAX
    );
    assert!(GraphitePoint::from_carbon_line("m 1 18446744073709551616").is_none());
    assert_eq!(GraphitePoint::from_carbon_line("m 1 +5").unwrap().timestamp, 5);
    assert_eq!(parse_u64("007"), Some(7));
    assert_eq!(parse_u64("+"), None);
    assert_eq!(parse_u64(""), None);
    assert_eq!(parse_u64("99999999999999999999"), None);
}

#[test]
fn separators_and_surrounding_whitespace() {
    let p = GraphitePoint::from_carbon_line("  m\t\t1   5  \r\n").unwrap();
    assert_eq!((p.metric_name.as_str(), p.metric_value.as_str(), p.timestamp), ("m", "1", 5));
    let q = GraphitePoint::from_carbon_line("\u{a0}m 2 6\u{3000}").unwrap();
    assert_eq!(q.metric_name, "m");
    assert_eq!(split_on_blanks("a  b\t c"), vec!["a", "b", "c"]);
    assert_eq!(split_on_blanks(" a"), vec!["", "a"]);
    assert_eq!(split_on_blanks(""), vec![""]);
}

#[test]
fn float_texts() {
    for s in ["0.75", "1", "1.", ".5", "-2.5e-3", "+1E5", "inf", "-Infinity", "NaN", "007"] {
        assert!(is_float(s), "{}", s);
    }
    for s in ["", "+", ".", "e5", "1e", "1e+", "1.2.3", "0x10", "infin", "1 "] {
        assert!(!is_float(s), "{}", s);
    }
}

#[test]
fn json_numbers() {
    assert_eq!(json_number("0.75"), "0.75");
    assert_eq!(json_number("+007.50e+3"), "7.50e+3");
    assert_eq!(json_number(".5"), "0.5");
    assert_eq!(json_number("-.5"), "-0.5");
    assert_eq!(json_number("1."), "1");
    assert_eq!(json_number("000"), "0");
    assert_eq!(json_number("2E10"), "2e10");
    assert_eq!(json_number("-inf"), "null");
    assert_eq!(json_number("NaN"), "null");
}

#[test]
fn round_trip_of_rendered_sample() {
    let p = GraphitePoint::from_carbon_line("web.hits -1.5e2 42").unwrap();
    let line = format!("{} {} {}", p.metric_name, p.metric_value, p.timestamp);
    let q = GraphitePoint::from_carbon_line(&line).unwrap();
    assert_eq!(q.metric_name, p.metric_name);
    assert_eq!(q.metric_value, p.metric_value);
    assert_eq!(q.timestamp, p.timestamp);
}

#[test]
fn batching_keeps_order_per_series() {
    let records = build_records(&vec![point("m", "1", 100), point("m", "2", 200)]);
    assert_eq!(records.len(), 1);
    assert_eq!(records[0].series_name, "m");
    assert_eq!(records[0].points, vec![(100u64, "1".to_string()), (200u64, "2".to_string())]);
}

#[test]
fn batching_groups_interleaved_series() {
    let records = build_records(&vec![
        point("a", "1", 1),
        point("b", "2", 2),
        point("a", "3", 3),
        point("a", "3", 3),
    ]);
    assert_eq!(records.len(), 2);
    assert_eq!(records[0].series_name, "a");
    assert_eq!(
        records[0].points,
        vec![(1u64, "1".to_string()), (3u64, "3".to_string()), (3u64, "3".to_string())]
    );
    assert_eq!(records[1].series_name, "b");
    assert_eq!(records[1].points, vec![(2u64, "2".to_string())]);
}

#[test]
fn add_point_to_existing_and_new_series() {
    let mut records: Vec<InfluxDataRecord> = Vec::new();
    add_point(&mut records, &point("x", "5", 10));
    add_point(&mut records, &point("y", ".5", 11));
    add_point(&mut records, &point("x", "nan", 12));
    assert_eq!(records.len(), 2);
    assert_eq!(records[0].points, vec![(10u64, "5".to_string()), (12u64, "null".to_string())]);
    assert_eq!(records[1].points, vec![(11u64, "0.5".to_string())]);
}

#[test]
fn new_record_and_push() {
    let mut r = InfluxDataRecord::new_graphite("s".to_string());
    assert_eq!(r.columns, vec!["time", "value"]);
    assert!(r.points.is_empty());
    r.push_graphite_point(7, "+3.25");
    assert_eq!(r.points, vec![(7u64, "3.25".to_string())]);
    assert_eq!(r.series_name, "s");
}

#[test]
fn serialization_is_deterministic() {
    let records = build_records(&vec![point("a", "1", 1), point("b", "2.5", 2), point("a", "3", 3)]);
    let once = encode_records(&records);
    let twice = encode_records(&records.clone());
    assert_eq!(once, twice);
    assert_eq!(
        once,
        "[{\"name\":\"a\",\"columns\":[\"time\",\"value\"],\"points\":[[1,1],[3,3]]},\
         {\"name\":\"b\",\"columns\":[\"time\",\"value\"],\"points\":[[2,2.5]]}]"
    );
}

#[test]
fn empty_batch_encodes_as_empty_array() {
    assert_eq!(encode_records(&Vec::new()), "[]");
}

#[test]
fn series_names_are_escaped() {
    let records = build_records(&vec![point("a\"b\\c\u{1}", "1", 1)]);
    assert_eq!(
        encode_records(&records),
        "[{\"name\":\"a\\\"b\\\\c\\u0001\",\"columns\":[\"time\",\"value\"],\"points\":[[1,1]]}]"
    );
    let mut s = String::new();
    push_json_string(&mut s, "t\tn\nr\r\u{8}\u{c}\u{1f}");
    assert_eq!(s, "\"t\\tn\\nr\\r\\b\\f\\u001f\"");
}

#[test]
fn decimal_text() {
    let mut s = String::new();
    push_dec(&mut s, 0);
    s.push(' ');
    push_dec(&mut s, u64::MAX);
    s.push(' ');
    push_signed_dec(&mut s, -42);
    s.push(' ');
    push_signed_dec(&mut s, i64::MIN);
    assert_eq!(s, "0 18446744073709551615 -42 -9223372036854775808");
}

#[test]
fn post_url_and_request() {
    let d = db();
    assert_eq!(d.get_post_url(), "http://localhost:8086/db/metrics/series?u=test&p=test");
    let mut c = CarbonConnection::new();
    assert!(c.feed_line("cpu.load 0.75 1700000000"));
    let req = c.finish(&d).unwrap();
    assert_eq!(req.url, "http://localhost:8086/db/metrics/series?u=test&p=test");
    assert_eq!(req.content_type, "application/x-www-form-urlencoded");
    assert_eq!(
        req.body,
        "[{\"name\":\"cpu.load\",\"columns\":[\"time\",\"value\"],\"points\":[[1700000000,0.75]]}]\n"
    );
}

#[test]
fn separate_connections_do_not_mix() {
    let mut a = CarbonConnection::new();
    let mut b = CarbonConnection::new();
    assert!(a.feed_line("a.one 1 1"));
    assert!(b.feed_line("b.one 2 2"));
    assert!(a.feed_line("a.two 3 3"));
    let ra = a.finish(&db()).unwrap();
    let rb = b.finish(&db()).unwrap();
    assert!(ra.body.contains("a.one") && ra.body.contains("a.two") && !ra.body.contains("b.one"));
    assert!(rb.body.contains("b.one") && !rb.body.contains("a."));
}
