use netdiag::clock::{now_stamp, timestamp_from_reading};

#[test]
fn reading_at_the_epoch() {
    assert_eq!(timestamp_from_reading(false, 0, 0), "1970-01-01T00:00:00+00:00");
}

#[test]
fn reading_after_the_epoch() {
    assert_eq!(timestamp_from_reading(false, 1431648000, 0), "2015-05-15T00:00:00+00:00");
    assert_eq!(timestamp_from_reading(false, 0, 1_000_000), "1970-01-01T00:00:00.001+00:00");
    assert_eq!(timestamp_from_reading(false, 0, 1_000), "1970-01-01T00:00:00.000001+00:00");
    assert_eq!(timestamp_from_reading(false, 0, 1), "1970-01-01T00:00:00.000000001+00:00");
}

#[test]
fn reading_before_the_epoch() {
    assert_eq!(timestamp_from_reading(true, 1, 0), "1969-12-31T23:59:59+00:00");
    assert_eq!(timestamp_from_reading(true, 0, 500_000_000), "1969-12-31T23:59:59.500+00:00");
    assert_eq!(timestamp_from_reading(true, 86_400, 0), "1969-12-31T00:00:00+00:00");
}

#[test]
fn reading_out_of_range_gives_empty() {
    assert_eq!(timestamp_from_reading(false, u64::MAX, 0), "");
    assert_eq!(timestamp_from_reading(true, u64::MAX, 0), "");
    assert_eq!(timestamp_from_reading(false, i64::MAX as u64, 0), "");
    assert_eq!(timestamp_from_reading(true, 1u64 << 63, 0), "");
}

#[test]
fn now_parses_as_rfc3339() {
    let a = now_stamp();
    let b = now_stamp();
    let ta = chrono::DateTime::parse_from_rfc3339(&a).unwrap();
    let tb = chrono::DateTime::parse_from_rfc3339(&b).unwrap();
    assert!(ta <= tb);
    assert!(a.ends_with("+00:00"));
}
