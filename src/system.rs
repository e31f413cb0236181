use vstd::prelude::*;

use crate::clock::{is_utc_rfc3339, now_stamp};
use crate::text::{
    chars_of, count_lines, decode_lossy, find, find_from, lemma_find_from_extend,
    lemma_trimmed_range_shift, line_count, lossy_text, trim_bounds, trimmed, trimmed_range,
};
use vstd::string::StrSliceExecFns;

verus! {

/// The marker that precedes the load averages in an uptime report.
pub open spec fn load_marker() -> Seq<char> {
    seq!['l', 'o', 'a', 'd', ' ', 'a', 'v', 'e', 'r', 'a', 'g', 'e', ':']
}

/// The load averages that the uptime report `s` gives: all that follows the
/// first marker, trimmed; empty where there is no marker.
pub open spec fn load_of(s: Seq<char>) -> Seq<char> {
    match find_from(s, load_marker(), 0) {
        None => Seq::empty(),
        Some(m) => trimmed_range(s, m + 13, s.len() as int),
    }
}

/// The number of processes that the listing `out` gives: its number of lines,
/// the header included.
pub fn process_count(out: &str) -> (r: usize)
    ensures
        r == line_count(out@),
{
    let s = chars_of(out);
    count_lines(&s)
}

/// The uptime report `out` as the record holds it: trimmed, and otherwise verbatim.
pub fn uptime_from_text(out: &str) -> (r: String)
    ensures
        r@ == trimmed(out@),
{
    let s = chars_of(out);
    let (a, b) = trim_bounds(&s, 0, s.len());
    out.substring_char(a, b).to_owned()
}

/// The load averages that the uptime report `out` gives.
pub fn load_from_text(out: &str) -> (r: String)
    ensures
        r@ == load_of(out@),
{
    let s = chars_of(out);
    let marker: Vec<char> = vec!['l', 'o', 'a', 'd', ' ', 'a', 'v', 'e', 'r', 'a', 'g', 'e', ':'];
    assert(marker@ =~= load_marker());
    let n = s.len();
    match find(&s, &marker, 0) {
        None => String::new(),
        Some(m) => {
            let (a, b) = trim_bounds(&s, m + 13, n);
            out.substring_char(a, b).to_owned()
        },
    }
}

/// The load and process state of the machine at one instant.
pub struct SystemStatus {
    /// Lines in the process listing, its header included.
    pub processes: usize,
    /// The pretty uptime report, trimmed.
    pub uptime: String,
    /// The three load averages as the uptime report writes them.
    pub load: String,
    /// When the record was made, in RFC 3339; empty where chrono cannot write
    /// that instant.
    pub timestamp: String,
}

/// The record made of the process listing `listing`, the pretty uptime report
/// `pretty` and the plain uptime report `report`, stamped with `timestamp`.
pub fn system_status_from_text(listing: &str, pretty: &str, report: &str, timestamp: String) -> (r:
    SystemStatus)
    ensures
        r.processes == line_count(listing@),
        r.uptime@ == trimmed(pretty@),
        r.load@ == load_of(report@),
        r.timestamp == timestamp,
{
    SystemStatus {
        processes: process_count(listing),
        uptime: uptime_from_text(pretty),
        load: load_from_text(report),
        timestamp,
    }
}

/// The record made of what the process listing, the pretty uptime report and the
/// plain uptime report wrote, stamped with the instant it is made
/// (an empty timestamp where that instant is out of chrono's range).
pub fn system_status(listing: &[u8], pretty: &[u8], report: &[u8]) -> (r: SystemStatus)
    ensures
        r.processes == line_count(lossy_text(listing@)),
        r.uptime@ == trimmed(lossy_text(pretty@)),
        r.load@ == load_of(lossy_text(report@)),
        r.timestamp@.len() == 0 || is_utc_rfc3339(r.timestamp@),
{
    let listing = decode_lossy(listing);
    let pretty = decode_lossy(pretty);
    let report = decode_lossy(report);
    let timestamp = now_stamp();
    system_status_from_text(listing.as_str(), pretty.as_str(), report.as_str(), timestamp)
}

/// An uptime report whose first marker follows `pre` gives all that follows the
/// marker, `rest`, without its leading and trailing white space as its load
/// averages.
pub proof fn lemma_load_after_marker(pre: Seq<char>, rest: Seq<char>)
    requires
        find_from(pre + load_marker(), load_marker(), 0) == Some(pre.len() as int),
    ensures
        load_of(pre + load_marker() + rest) == trimmed(rest),
{
    let m = load_marker();
    let x = pre + m;
    let s = x + rest;
    assert(pre + m + rest =~= s);
    lemma_find_from_extend(x, rest, m, 0);
    assert(x.len() == pre.len() + 13);
    lemma_trimmed_range_shift(x, rest);
}

} // verus!
