use vstd::prelude::*;

verus! {

/// `s[i]` is a decimal digit.
pub open spec fn digit_at(s: Seq<char>, i: int) -> bool {
    0 <= i < s.len() && '0' <= s[i] <= '9'
}

/// The two digits at `s[i]` and `s[i + 1]` read as a number.
pub open spec fn two_digits(s: Seq<char>, i: int) -> int {
    (s[i] as int - '0' as int) * 10 + (s[i + 1] as int - '0' as int)
}

/// `s[i..i + 2]` is two digits that read as a number from `lo` to `hi`.
pub open spec fn field_in(s: Seq<char>, i: int, lo: int, hi: int) -> bool {
    digit_at(s, i) && digit_at(s, i + 1) && lo <= two_digits(s, i) <= hi
}

/// `y` is a year as chrono writes it: four digits; for a year past 9999, a `+`
/// and five or more; for a year before 0, a `-` and four or more.
pub open spec fn is_year(y: Seq<char>) -> bool {
    ||| y.len() == 4 && forall|i: int| 0 <= i < 4 ==> digit_at(y, i)
    ||| y.len() >= 6 && y[0] == '+' && forall|i: int| 1 <= i < y.len() ==> digit_at(y, i)
    ||| y.len() >= 5 && y[0] == '-' && forall|i: int| 1 <= i < y.len() ==> digit_at(y, i)
}

/// `f` is a fraction of a second as chrono writes it: none, or a point and 3, 6
/// or 9 digits.
pub open spec fn is_fraction(f: Seq<char>) -> bool {
    ||| f.len() == 0
    ||| (f.len() == 4 || f.len() == 7 || f.len() == 10) && f[0] == '.' && forall|i: int|
        1 <= i < f.len() ==> digit_at(f, i)
}

/// `d` is `-MM-DDTHH:MM:SS`, each field in its range (the second up to 60, for a
/// leap second).
pub open spec fn is_date_time_tail(d: Seq<char>) -> bool {
    &&& d.len() == 15
    &&& d[0] == '-' && field_in(d, 1, 1, 12)
    &&& d[3] == '-' && field_in(d, 4, 1, 31)
    &&& d[6] == 'T' && field_in(d, 7, 0, 23)
    &&& d[9] == ':' && field_in(d, 10, 0, 59)
    &&& d[12] == ':' && field_in(d, 13, 0, 60)
}

/// `s` is an instant in UTC written in RFC 3339 the way chrono writes it:
/// `YYYY-MM-DDTHH:MM:SS`, an optional fraction of a second, and `+00:00`.
pub open spec fn is_utc_rfc3339(s: Seq<char>) -> bool {
    exists|y: int, f: int|
        #![trigger is_year(s.subrange(0, y)), is_fraction(s.subrange(y + 15, f))]
        {
            &&& 0 <= y && y + 15 <= f && f + 6 == s.len()
            &&& is_year(s.subrange(0, y))
            &&& is_date_time_tail(s.subrange(y, y + 15))
            &&& is_fraction(s.subrange(y + 15, f))
            &&& s.subrange(f, s.len() as int) == seq!['+', '0', '0', ':', '0', '0']
        }
}

/// What chrono writes, in RFC 3339, for the instant `secs` seconds and `nanos`
/// nanoseconds after the Unix epoch; none where the instant is out of its range.
pub uninterp spec fn utc_rfc3339_text(secs: int, nanos: int) -> Option<Seq<char>>;

/// Relies on `chrono::DateTime::from_timestamp` and `DateTime::to_rfc3339`: the
/// instant `secs` seconds and `nanos` nanoseconds after the Unix epoch, written by
/// chrono's `write_rfc3339` with seconds in automatic precision and the offset
/// `+00:00`; `None` where `from_timestamp` finds the instant out of range. The
/// text depends on the arguments alone, and neither call panics.
#[verifier::external_body]
pub(crate) fn rfc3339_at(secs: i64, nanos: u32) -> (r: Option<String>)
    ensures
        match r {
            Some(t) => utc_rfc3339_text(secs as int, nanos as int) == Some(t@) && is_utc_rfc3339(
                t@,
            ),
            None => utc_rfc3339_text(secs as int, nanos as int) is None,
        },
{
    match chrono::DateTime::from_timestamp(secs, nanos) {
        Some(t) => Some(t.to_rfc3339()),
        None => None,
    }
}

/// Relies on `std::time::SystemTime::now` and `SystemTime::duration_since`: the
/// system clock's distance from the Unix epoch, in whole seconds and the
/// nanoseconds below a second, and whether the clock reads before the epoch (where
/// `duration_since` returns that distance as its error).
#[verifier::external_body]
pub(crate) fn clock_reading() -> (r: (bool, u64, u32))
    ensures
        r.2 < 1_000_000_000,
{
    match std::time::SystemTime::now().duration_since(std::time::UNIX_EPOCH) {
        Ok(d) => (false, d.as_secs(), d.subsec_nanos()),
        Err(e) => (true, e.duration().as_secs(), e.duration().subsec_nanos()),
    }
}

/// The instant a clock reading stands for, as whole seconds after the epoch and
/// the nanoseconds past them: `secs` seconds and `nanos` nanoseconds after the
/// epoch, or before it where `before` holds.
pub open spec fn epoch_instant(before: bool, secs: int, nanos: int) -> (int, int) {
    if !before {
        (secs, nanos)
    } else if nanos == 0 {
        (-secs, 0)
    } else {
        (-secs - 1, 1_000_000_000 - nanos)
    }
}

/// The timestamp that the clock reading `(before, secs, nanos)` gives: chrono's
/// RFC 3339 text of its instant, or empty where that instant is out of chrono's
/// range or of `i64`.
pub open spec fn stamp_of(before: bool, secs: int, nanos: int) -> Seq<char> {
    let (s, n) = epoch_instant(before, secs, nanos);
    if s < i64::MIN || s > i64::MAX {
        Seq::empty()
    } else {
        match utc_rfc3339_text(s, n) {
            Some(t) => t,
            None => Seq::empty(),
        }
    }
}

/// The timestamp of the clock reading `(before, secs, nanos)`.
pub fn timestamp_from_reading(before: bool, secs: u64, nanos: u32) -> (r: String)
    requires
        nanos < 1_000_000_000,
    ensures
        r@ == stamp_of(before, secs as int, nanos as int),
        r@.len() == 0 || is_utc_rfc3339(r@),
{
    let limit: u64 = 0x7fff_ffff_ffff_ffff;
    if secs > limit {
        if before && nanos == 0 && secs == limit + 1 {
            return match rfc3339_at(i64::MIN, 0) {
                Some(t) => t,
                None => String::new(),
            };
        }
        return String::new();
    }
    let whole = secs as i64;
    let (s, n): (i64, u32) = if !before {
        (whole, nanos)
    } else if nanos == 0 {
        (-whole, 0)
    } else {
        (-whole - 1, 1_000_000_000 - nanos)
    };
    match rfc3339_at(s, n) {
        Some(t) => t,
        None => String::new(),
    }
}

/// The timestamp of the current instant: chrono's RFC 3339 text of it, or empty
/// where it is out of chrono's range.
pub fn now_stamp() -> (r: String)
    ensures
        r@.len() == 0 || is_utc_rfc3339(r@),
{
    let (before, secs, nanos) = clock_reading();
    timestamp_from_reading(before, secs, nanos)
}

} // verus!
