use netdiag::geo::GeoLocation;
use netdiag::system::{
    load_from_text, process_count, system_status, system_status_from_text, uptime_from_text,
};

#[test]
fn load_follows_its_marker() {
    let line = "10:00  up 2 days,  3 users,  load average: 1.23, 0.98, 0.50";
    assert_eq!(load_from_text(line), "1.23, 0.98, 0.50");
    assert_eq!(load_from_text(" 10:00:01 up 1 day, load average: 0.00, 0.01, 0.05\n"), "0.00, 0.01, 0.05");
}

#[test]
fn load_without_marker_is_empty() {
    assert_eq!(load_from_text("10:00 up 2 days"), "");
    assert_eq!(load_from_text(""), "");
    assert_eq!(load_from_text("load averages: 1.0 2.0 3.0"), "");
}

#[test]
fn load_keeps_a_second_marker() {
    assert_eq!(load_from_text("load average: 1 load average: 2"), "1 load average: 2");
    assert_eq!(load_from_text("load average:1load average:2"), "1load average:2");
}

#[test]
fn process_count_is_line_count() {
    assert_eq!(process_count("USER PID\nroot 1\nroot 2\n"), 3);
    assert_eq!(process_count("USER PID\nroot 1\nroot 2"), 3);
    assert_eq!(process_count(""), 0);
    assert_eq!(process_count("\n"), 1);
    assert_eq!(process_count("\n\n"), 2);
    assert_eq!(process_count("a\r\nb\r\n"), 2);
}

#[test]
fn uptime_is_trimmed_verbatim() {
    assert_eq!(uptime_from_text("  up 3 days, 2 hours \n"), "up 3 days, 2 hours");
    assert_eq!(uptime_from_text("\u{3000}up 1 minute\u{a0}"), "up 1 minute");
    assert_eq!(uptime_from_text(" \n\t"), "");
}

#[test]
fn status_from_text_assembles_all_three() {
    let s = system_status_from_text(
        "USER PID\nroot 1\nroot 2\nroot 3\n",
        "up 2 days\n",
        "10:00  up 2 days,  3 users,  load average: 1.23, 0.98, 0.50\n",
        "2024-01-01T00:00:00+00:00".to_string(),
    );
    assert_eq!(s.processes, 4);
    assert_eq!(s.uptime, "up 2 days");
    assert_eq!(s.load, "1.23, 0.98, 0.50");
    assert_eq!(s.timestamp, "2024-01-01T00:00:00+00:00");
}

#[test]
fn status_from_bytes_decodes_and_stamps() {
    let s = system_status(b"H\na\n", b"\xffup 5 minutes\n", b"load average: 0.1, 0.2, 0.3\n");
    assert_eq!(s.processes, 2);
    assert_eq!(s.uptime, "\u{fffd}up 5 minutes");
    assert_eq!(s.load, "0.1, 0.2, 0.3");
    assert!(chrono::DateTime::parse_from_rfc3339(&s.timestamp).is_ok());
    let t = system_status(b"", b"", b"");
    assert_eq!(t.processes, 0);
    assert_eq!(t.uptime, "");
    assert_eq!(t.load, "");
    let ta = chrono::DateTime::parse_from_rfc3339(&s.timestamp).unwrap();
    let tb = chrono::DateTime::parse_from_rfc3339(&t.timestamp).unwrap();
    assert!(ta <= tb);
}

#[test]
fn geo_location_keeps_fields() {
    let g = GeoLocation::new(
        "1.2.3.4".to_string(),
        "X".to_string(),
        "Y".to_string(),
        "Z".to_string(),
        "O".to_string(),
        "T".to_string(),
    );
    assert_eq!(g.ip, "1.2.3.4");
    assert_eq!(g.city, "X");
    assert_eq!(g.region, "Y");
    assert_eq!(g.country, "Z");
    assert_eq!(g.org, "O");
    assert_eq!(g.timezone, "T");
}
