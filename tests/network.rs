use netdiag::network::{
    latency_from_text, network_health, network_health_from_text, LinkStatus,
};

const PING_OK: &str = "PING 8.8.8.8 (8.8.8.8) 56(84) bytes of data.\n\
64 bytes from 8.8.8.8: icmp_seq=1 ttl=117 time=12.3 ms\n\
\n\
--- 8.8.8.8 ping statistics ---\n\
1 packets transmitted, 1 received, 0% packet loss, time 0ms\n\
rtt min/avg/max/mdev = 12.345/12.345/12.345/0.000 ms\n";

#[test]
fn latency_is_truncated_not_rounded() {
    assert_eq!(latency_from_text(PING_OK), 12);
    assert_eq!(latency_from_text("time=12.9 ms"), 12);
    assert_eq!(latency_from_text("time=0.045 ms"), 0);
}

#[test]
fn connected_check_reports_latency() {
    let h = network_health_from_text(true, PING_OK, "2024-01-01T00:00:00+00:00".to_string());
    assert_eq!(h.status, LinkStatus::Connected);
    assert_eq!(h.latency, 12);
    assert_eq!(h.timestamp, "2024-01-01T00:00:00+00:00");
}

#[test]
fn non_numeric_time_gives_zero() {
    assert_eq!(latency_from_text("reply time=abc ms"), 0);
    let h = network_health_from_text(true, "reply time=fast ms\n", "t".to_string());
    assert_eq!(h.status, LinkStatus::Connected);
    assert_eq!(h.latency, 0);
}

#[test]
fn missing_marker_gives_zero() {
    assert_eq!(latency_from_text(""), 0);
    assert_eq!(latency_from_text("1 packets transmitted, time 0ms\n"), 0);
    assert_eq!(latency_from_text("time="), 0);
    assert_eq!(latency_from_text("time=   \n5 ms"), 0);
}

#[test]
fn failed_check_is_disconnected_with_zero_latency() {
    let h = network_health_from_text(false, PING_OK, "t".to_string());
    assert_eq!(h.status, LinkStatus::Disconnected);
    assert_eq!(h.latency, 0);
    let h = network_health(false, PING_OK.as_bytes());
    assert_eq!(h.status, LinkStatus::Disconnected);
    assert_eq!(h.latency, 0);
}

#[test]
fn first_line_with_marker_counts() {
    assert_eq!(latency_from_text("a\nb time=3.9 ms\nc time=8 ms\n"), 3);
    assert_eq!(latency_from_text("x time=12.3time=4 ms"), 12);
    assert_eq!(latency_from_text("time=   7.2 ms"), 7);
    assert_eq!(latency_from_text("time=7.2\r\n"), 7);
}

#[test]
fn decimal_forms() {
    assert_eq!(latency_from_text("time=5."), 5);
    assert_eq!(latency_from_text("time=.5"), 0);
    assert_eq!(latency_from_text("time=+7.9"), 7);
    assert_eq!(latency_from_text("time=-7.9"), -7);
    assert_eq!(latency_from_text("time=."), 0);
    assert_eq!(latency_from_text("time=1.2.3"), 0);
    assert_eq!(latency_from_text("time=12ms"), 0);
    assert_eq!(latency_from_text("time=250"), 250);
}

#[test]
fn exponent_forms() {
    assert_eq!(latency_from_text("time=1e3 ms"), 1000);
    assert_eq!(latency_from_text("time=2.5E1 ms"), 25);
    assert_eq!(latency_from_text("time=1.5e+1"), 15);
    assert_eq!(latency_from_text("time=123e-1"), 12);
    assert_eq!(latency_from_text("time=1e-3"), 0);
    assert_eq!(latency_from_text("time=-2.5e1"), -25);
    assert_eq!(latency_from_text("time=1e-0"), 1);
    assert_eq!(latency_from_text("time=0e99999999999999999999999999999"), 0);
    assert_eq!(latency_from_text("time=1e99999999999999999999999999999"), i32::MAX);
    assert_eq!(latency_from_text("time=-1e40"), i32::MIN);
    assert_eq!(latency_from_text("time=7e-99999999999999999999999999999"), 0);
    assert_eq!(latency_from_text("time=5e"), 0);
    assert_eq!(latency_from_text("time=e5"), 0);
    assert_eq!(latency_from_text("time=5e+"), 0);
    assert_eq!(latency_from_text("time=5e1.0"), 0);
}

#[test]
fn huge_times_are_held_to_i32() {
    assert_eq!(latency_from_text("time=99999999999.5"), i32::MAX);
    assert_eq!(latency_from_text("time=2147483647"), i32::MAX);
    assert_eq!(latency_from_text("time=-99999999999"), i32::MIN);
    assert_eq!(latency_from_text("time=-2147483648"), i32::MIN);
    assert_eq!(latency_from_text("time=-2147483647"), -2147483647);
}

#[test]
fn probe_on_bytes_decodes_and_stamps() {
    let h = network_health(true, PING_OK.as_bytes());
    assert_eq!(h.status, LinkStatus::Connected);
    assert_eq!(h.latency, 12);
    assert!(chrono::DateTime::parse_from_rfc3339(&h.timestamp).is_ok());
    let h = network_health(true, b"\xff time=42.0 ms\n");
    assert_eq!(h.latency, 42);
}

#[test]
fn timestamps_do_not_go_back() {
    let a = network_health(true, PING_OK.as_bytes());
    let b = network_health(true, PING_OK.as_bytes());
    let ta = chrono::DateTime::parse_from_rfc3339(&a.timestamp).unwrap();
    let tb = chrono::DateTime::parse_from_rfc3339(&b.timestamp).unwrap();
    assert!(ta <= tb);
    assert!(a.timestamp.ends_with("+00:00"));
}

#[test]
fn status_names() {
    assert_eq!(LinkStatus::Connected.as_str(), "connected");
    assert_eq!(LinkStatus::Disconnected.as_str(), "disconnected");
}
