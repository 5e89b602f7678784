//! Decimal and date rendering.

use tsdb::{timestamp_secs_to_string, timestamp_to_interval_str, u64_to_string, Raw, Sample};

#[test]
fn u64_to_string_test() {
    assert_eq!(u64_to_string(0), "0");
    assert_eq!(u64_to_string(7), "7");
    assert_eq!(u64_to_string(10), "10");
    assert_eq!(u64_to_string(1482892260), "1482892260");
    assert_eq!(u64_to_string(u64::MAX), "18446744073709551615");
}

#[test]
fn raw_to_string_test() {
    let raw = Raw { table_name: "cpu".to_string(), data_point: Sample::new(5, 7) };
    assert_eq!(raw.to_string(), "cpu:{5,7}");
}

#[test]
fn timestamp_secs_to_string_test() {
    let t: u64 = 1578960146;
    let expected = chrono::DateTime::<chrono::Utc>::from_timestamp(t as i64, 0)
        .unwrap()
        .format("%Y-%m-%dT%T%z")
        .to_string();
    assert_eq!(timestamp_secs_to_string(t), expected);
    assert_eq!(timestamp_secs_to_string(0), "1970-01-01T00:00:00+0000");
}

#[test]
fn timestamp_to_interval_str_test() {
    let b: u64 = 1578960000;
    let e: u64 = 1578970800;
    let expected = format!(
        "[{},{}), {}/{}",
        b,
        e,
        timestamp_secs_to_string(b),
        timestamp_secs_to_string(e)
    );
    assert_eq!(timestamp_to_interval_str(b, e), expected);
}
