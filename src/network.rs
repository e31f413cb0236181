use vstd::prelude::*;

use crate::clock::{is_utc_rfc3339, now_stamp};
use crate::text::{
    chars_of, copy_range, decode_lossy, find, find_from, is_space, is_space_char,
    lemma_find_from_extend, lemma_find_from_found, lemma_skip_space_stops, lossy_text, occurs,
    occurs_at, skip_space, skip_space_from,
};

verus! {

/// The marker that precedes the round-trip time in a reachability check's output.
pub open spec fn time_marker() -> Seq<char> {
    seq!['t', 'i', 'm', 'e', '=']
}

/// The end of the field that starts at `i`: the next line feed, the next marker,
/// or the end of `s`.
pub open spec fn field_end(s: Seq<char>, i: int) -> int
    decreases s.len() - i,
{
    if i < 0 || i >= s.len() || s[i] == '\n' || occurs_at(s, time_marker(), i) {
        i
    } else {
        field_end(s, i + 1)
    }
}

/// The end of the word that starts at `i`: the next white space before `hi`, or `hi`.
pub open spec fn word_end(s: Seq<char>, i: int, hi: int) -> int
    decreases hi - i,
{
    if i < 0 || i >= hi || is_space(s[i]) {
        i
    } else {
        word_end(s, i + 1, hi)
    }
}

/// The first word after the first marker on its line, if there is one.
pub open spec fn latency_token(s: Seq<char>) -> Option<Seq<char>> {
    match find_from(s, time_marker(), 0) {
        None => None,
        Some(m) => {
            let start = m + 5;
            let hi = field_end(s, start);
            let a = skip_space(s, start, hi);
            if a >= hi {
                None
            } else {
                Some(s.subrange(a, word_end(s, a, hi)))
            }
        },
    }
}

/// `c` is a decimal digit.
pub open spec fn is_digit(c: char) -> bool {
    '0' <= c <= '9'
}

/// Every character of `d` is a decimal digit.
pub open spec fn all_digits(d: Seq<char>) -> bool {
    forall|i: int| 0 <= i < d.len() ==> is_digit(#[trigger] d[i])
}

/// The number that the decimal digits `d` stand for.
pub open spec fn digits_value(d: Seq<char>) -> nat
    decreases d.len(),
{
    if d.len() == 0 {
        0
    } else {
        digits_value(d.drop_last()) * 10 + (d.last() as nat - '0' as nat) as nat
    }
}

/// `t` starts with a sign.
pub open spec fn has_sign(t: Seq<char>) -> bool {
    t.len() > 0 && (t[0] == '+' || t[0] == '-')
}

/// `t` without its sign.
pub open spec fn unsigned_part(t: Seq<char>) -> Seq<char> {
    if has_sign(t) {
        t.subrange(1, t.len() as int)
    } else {
        t
    }
}

/// Where the integer digits of `u` end: at its point, or at its end.
pub open spec fn point_index(u: Seq<char>) -> int {
    match find_from(u, seq!['.'], 0) {
        Some(p) => p,
        None => u.len() as int,
    }
}

/// The digits of `u` before its point.
pub open spec fn whole_digits(u: Seq<char>) -> Seq<char> {
    u.subrange(0, point_index(u))
}

/// The digits of `u` after its point.
pub open spec fn fraction_digits(u: Seq<char>) -> Seq<char> {
    if point_index(u) < u.len() {
        u.subrange(point_index(u) + 1, u.len() as int)
    } else {
        Seq::empty()
    }
}

/// The first index at or after `i` where `u` holds an exponent mark (`e` or `E`),
/// or its end.
pub open spec fn exponent_index(u: Seq<char>, i: int) -> int
    decreases u.len() - i,
{
    if i < 0 || i >= u.len() {
        u.len() as int
    } else if u[i] == 'e' || u[i] == 'E' {
        i
    } else {
        exponent_index(u, i + 1)
    }
}

/// `u` up to its exponent mark.
pub open spec fn mantissa(u: Seq<char>) -> Seq<char> {
    u.subrange(0, exponent_index(u, 0))
}

/// `u` holds an exponent mark.
pub open spec fn has_exponent(u: Seq<char>) -> bool {
    exponent_index(u, 0) < u.len()
}

/// What follows the exponent mark of `u`.
pub open spec fn exponent_text(u: Seq<char>) -> Seq<char> {
    u.subrange(exponent_index(u, 0) + 1, u.len() as int)
}

/// `x` is an exponent: an optional sign and one or more digits.
pub open spec fn is_exponent(x: Seq<char>) -> bool {
    unsigned_part(x).len() > 0 && all_digits(unsigned_part(x))
}

/// The exponent `x` as a number.
pub open spec fn exponent_value(x: Seq<char>) -> int {
    let v = digits_value(unsigned_part(x)) as int;
    if has_sign(x) && x[0] == '-' {
        -v
    } else {
        v
    }
}

/// The power of ten by which the exponent of `u` scales it; 0 without exponent.
pub open spec fn power(u: Seq<char>) -> int {
    if has_exponent(u) {
        exponent_value(exponent_text(u))
    } else {
        0
    }
}

/// `t` is a decimal number: an optional sign; digits, and optionally a point and
/// more digits, with at least one digit in all; and optionally an exponent mark
/// and an exponent.
pub open spec fn is_decimal(t: Seq<char>) -> bool {
    let u = unsigned_part(t);
    let m = mantissa(u);
    &&& all_digits(whole_digits(m))
    &&& all_digits(fraction_digits(m))
    &&& whole_digits(m).len() + fraction_digits(m).len() > 0
    &&& has_exponent(u) ==> is_exponent(exponent_text(u))
}

/// `k` zero digits.
pub open spec fn zeros(k: nat) -> Seq<char> {
    Seq::new(k, |i: int| '0')
}

/// The digits `d` times ten to the `k`, cut toward zero, written as digits.
pub open spec fn shifted_digits(d: Seq<char>, k: int) -> Seq<char> {
    if k >= 0 {
        d + zeros(k as nat)
    } else if d.len() + k > 0 {
        d.subrange(0, d.len() + k)
    } else {
        Seq::empty()
    }
}

/// The size of the decimal number `t` cut toward zero to a whole number.
pub open spec fn truncated_value(t: Seq<char>) -> nat {
    let u = unsigned_part(t);
    let m = mantissa(u);
    let f = fraction_digits(m);
    digits_value(shifted_digits(whole_digits(m) + f, power(u) - f.len()))
}

/// The decimal number `t` cut toward zero to a whole number, held to the range
/// of `i32`; none where `t` is no decimal number.
pub open spec fn millis_of(t: Seq<char>) -> Option<int> {
    if !is_decimal(t) {
        None
    } else {
        let v = truncated_value(t);
        if has_sign(t) && t[0] == '-' {
            Some(if v > 0x8000_0000 { -0x8000_0000 } else { -v })
        } else {
            Some(if v > 0x7fff_ffff { 0x7fff_ffff } else { v as int })
        }
    }
}

/// The round-trip time in whole milliseconds that the output `s` of a successful
/// check reports: the number after the first marker, cut to an integer; 0 where
/// there is no marker or no number after it.
pub open spec fn latency_of(s: Seq<char>) -> int {
    match latency_token(s) {
        Some(t) => match millis_of(t) {
            Some(v) => v,
            None => 0,
        },
        None => 0,
    }
}

/// Whether every character of `d` is a decimal digit.
pub fn digits_only(d: &Vec<char>) -> (r: bool)
    ensures
        r == all_digits(d@),
{
    let mut i: usize = 0;
    while i < d.len()
        invariant
            i <= d@.len(),
            forall|j: int| 0 <= j < i ==> is_digit(#[trigger] d@[j]),
        decreases d@.len() - i,
    {
        if !('0' <= d[i] && d[i] <= '9') {
            return false;
        }
        i = i + 1;
    }
    true
}

/// The number that the digits `d` stand for, or `cap` where it is larger.
pub fn capped_value(d: &Vec<char>, cap: u128) -> (r: u128)
    requires
        all_digits(d@),
        cap <= 0x1_0000_0000_0000_0000_0000_0000,
    ensures
        r == if digits_value(d@) > cap {
            cap as nat
        } else {
            digits_value(d@)
        },
{
    let mut acc: u128 = 0;
    let mut i: usize = 0;
    while i < d.len()
        invariant
            i <= d@.len(),
            all_digits(d@),
            cap <= 0x1_0000_0000_0000_0000_0000_0000,
            acc == if digits_value(d@.subrange(0, i as int)) > cap {
                cap as nat
            } else {
                digits_value(d@.subrange(0, i as int))
            },
        decreases d@.len() - i,
    {
        assert(d@.subrange(0, i + 1).drop_last() =~= d@.subrange(0, i as int));
        assert(is_digit(d@[i as int]));
        let digit = (d[i] as u128) - ('0' as u128);
        if acc < cap {
            let next = acc * 10 + digit;
            acc = if next > cap {
                cap
            } else {
                next
            };
        }
        i = i + 1;
    }
    assert(d@.subrange(0, d@.len() as int) =~= d@);
    acc
}

/// The first index at or after `i` of an exponent mark in `u`, or its end.
fn exponent_index_from(u: &Vec<char>, i: usize) -> (r: usize)
    requires
        i <= u@.len(),
    ensures
        r as int == exponent_index(u@, i as int),
        i <= r <= u@.len(),
{
    let mut j: usize = i;
    while j < u.len() && u[j] != 'e' && u[j] != 'E'
        invariant
            i <= j <= u@.len(),
            exponent_index(u@, i as int) == exponent_index(u@, j as int),
        decreases u@.len() - j,
    {
        j = j + 1;
    }
    j
}

/// `a` followed by `b`.
fn concat(a: &Vec<char>, b: &Vec<char>) -> (r: Vec<char>)
    ensures
        r@ == a@ + b@,
{
    let mut out = copy_range(a, 0, a.len());
    assert(out@ =~= a@);
    let mut i: usize = 0;
    while i < b.len()
        invariant
            i <= b@.len(),
            out@ == a@ + b@.subrange(0, i as int),
        decreases b@.len() - i,
    {
        out.push(b[i]);
        i = i + 1;
        assert(out@ =~= a@ + b@.subrange(0, i as int));
    }
    assert(b@.subrange(0, b@.len() as int) =~= b@);
    out
}

/// Ten to the `k`.
pub open spec fn pow10(k: nat) -> nat
    decreases k,
{
    if k == 0 {
        1
    } else {
        10 * pow10((k - 1) as nat)
    }
}

proof fn lemma_zeros_step(d: Seq<char>, k: nat)
    ensures
        digits_value(d + zeros(k + 1)) == 10 * digits_value(d + zeros(k)),
{
    assert((d + zeros(k + 1)).drop_last() =~= d + zeros(k));
    assert((d + zeros(k + 1)).last() == '0');
}

proof fn lemma_zeros_value(d: Seq<char>, k: nat)
    ensures
        digits_value(d + zeros(k)) == digits_value(d) * pow10(k),
    decreases k,
{
    if k == 0 {
        assert(d + zeros(0) =~= d);
        assert(pow10(0) == 1);
        assert(digits_value(d) * 1 == digits_value(d));
    } else {
        let j = (k - 1) as nat;
        lemma_zeros_value(d, j);
        lemma_zeros_step(d, j);
        assert(j + 1 == k);
        assert(digits_value(d + zeros(k)) == 10 * digits_value(d + zeros(j)));
        assert(pow10(k) == 10 * pow10(j));
        assert(digits_value(d) * pow10(k) == 10 * (digits_value(d) * pow10((k - 1) as nat)))
            by (nonlinear_arith)
            requires
                pow10(k) == 10 * pow10((k - 1) as nat),
        ;
    }
}

proof fn lemma_pow10_large(k: nat)
    requires
        k >= 10,
    ensures
        pow10(k) >= 10_000_000_000,
    decreases k,
{
    if k > 10 {
        lemma_pow10_large((k - 1) as nat);
    } else {
        reveal_with_fuel(pow10, 11);
    }
}

/// The digits `whole` and `fraction` of a number scaled by ten to the `e`, cut
/// toward zero, where `e` has the sign `negative` and the size `size`, held to
/// 2^100; the result is held to 2^31.
fn scaled_value(whole: &Vec<char>, fraction: &Vec<char>, negative: bool, size: u128, Ghost(e): Ghost<int>) -> (r: u128)
    requires
        all_digits(whole@),
        all_digits(fraction@),
        negative ==> e <= 0,
        !negative ==> e >= 0,
        size as int == if (if negative { -e } else { e }) > 0x1_0000_0000_0000_0000_0000_0000 {
            0x1_0000_0000_0000_0000_0000_0000
        } else {
            if negative { -e } else { e }
        },
    ensures
        r == if digits_value(shifted_digits(whole@ + fraction@, e - fraction@.len())) > 0x8000_0000 {
            0x8000_0000
        } else {
            digits_value(shifted_digits(whole@ + fraction@, e - fraction@.len()))
        },
{
    let cap: u128 = 0x8000_0000;
    let d = concat(whole, fraction);
    assert(all_digits(d@)) by {
        assert forall|i: int| 0 <= i < d@.len() implies is_digit(#[trigger] d@[i]) by {
            if i < whole@.len() {
                assert(d@[i] == whole@[i]);
            } else {
                assert(d@[i] == fraction@[i - whole@.len()]);
            }
        }
    }
    let wl = whole.len() as u128;
    let fl = fraction.len() as u128;
    let ghost k = e - fraction@.len();
    if !negative && size >= fl + 10 {
        proof {
            lemma_zeros_value(d@, k as nat);
            lemma_pow10_large(k as nat);
        }
        let v = capped_value(&d, cap);
        if v == 0 {
            assert(digits_value(d@) * pow10(k as nat) == 0) by (nonlinear_arith)
                requires
                    digits_value(d@) == 0,
            ;
            assert(digits_value(shifted_digits(d@, k)) == 0);
            0
        } else {
            assert(digits_value(d@) * pow10(k as nat) >= 10_000_000_000) by (nonlinear_arith)
                requires
                    digits_value(d@) >= 1,
                    pow10(k as nat) >= 10_000_000_000,
            ;
            assert(digits_value(shifted_digits(d@, k)) > 0x8000_0000);
            cap
        }
    } else if !negative && size >= fl {
        let steps = size - fl;
        let mut acc = capped_value(&d, cap);
        assert(d@ + zeros(0) =~= d@);
        let mut j: u128 = 0;
        while j < steps
            invariant
                j <= steps,
                steps < 10,
                cap == 0x8000_0000,
                acc == if digits_value(d@ + zeros(j as nat)) > cap {
                    cap as nat
                } else {
                    digits_value(d@ + zeros(j as nat))
                },
            decreases steps - j,
        {
            proof {
                lemma_zeros_step(d@, j as nat);
            }
            if acc < cap {
                acc = if acc * 10 > cap {
                    cap
                } else {
                    acc * 10
                };
            }
            j = j + 1;
        }
        assert(j == k);
        assert(shifted_digits(d@, k) == d@ + zeros(j as nat));
        acc
    } else {
        let keep: u128 = if negative {
            if size >= wl {
                0
            } else {
                wl - size
            }
        } else {
            wl + size
        };
        assert(d@.len() == wl + fl);
        assert(keep <= d@.len());
        assert(keep == if d@.len() + k > 0 { d@.len() + k } else { 0 });
        let dn: usize = d.len();
        assert(keep <= dn as u128);
        let keep_len = keep as usize;
        assert(keep_len as int == keep as int);
        let prefix = copy_range(&d, 0, keep_len);
        assert(all_digits(prefix@)) by {
            assert forall|i: int| 0 <= i < prefix@.len() implies is_digit(#[trigger] prefix@[i]) by {
                assert(prefix@[i] == d@[i]);
            }
        }
        proof {
            if k >= 0 {
                assert(keep == d@.len());
                assert(d@ + zeros(k as nat) =~= prefix@);
            } else if d@.len() + k <= 0 {
                assert(prefix@ =~= Seq::<char>::empty());
            }
        }
        assert(prefix@ == shifted_digits(d@, k));
        capped_value(&prefix, cap)
    }
}

/// Reads `t` as `millis_of` does.
pub fn parse_millis(t: &Vec<char>) -> (r: Option<i32>)
    ensures
        match r {
            Some(v) => millis_of(t@) == Some(v as int),
            None => millis_of(t@) is None,
        },
{
    let signed = t.len() > 0 && (t[0] == '+' || t[0] == '-');
    let negative = t.len() > 0 && t[0] == '-';
    let u = if signed {
        copy_range(t, 1, t.len())
    } else {
        copy_range(t, 0, t.len())
    };
    assert(t@.subrange(0, t@.len() as int) =~= t@);
    assert(u@ == unsigned_part(t@));
    let x = exponent_index_from(&u, 0);
    let m = copy_range(&u, 0, x);
    let point: Vec<char> = vec!['.'];
    assert(point@ =~= seq!['.']);
    let p = match find(&m, &point, 0) {
        Some(p) => p,
        None => m.len(),
    };
    assert(p as int == point_index(m@));
    let whole = copy_range(&m, 0, p);
    let frac = if p < m.len() {
        copy_range(&m, p + 1, m.len())
    } else {
        Vec::new()
    };
    assert(frac@ =~= fraction_digits(m@));
    if !digits_only(&whole) || !digits_only(&frac) || (whole.len() == 0 && frac.len() == 0) {
        return None;
    }
    let big: u128 = 0x1_0000_0000_0000_0000_0000_0000;
    let mut exp_negative = false;
    let mut size: u128 = 0;
    if x < u.len() {
        let ex = copy_range(&u, x + 1, u.len());
        let ex_signed = ex.len() > 0 && (ex[0] == '+' || ex[0] == '-');
        exp_negative = ex.len() > 0 && ex[0] == '-';
        let ed = if ex_signed {
            copy_range(&ex, 1, ex.len())
        } else {
            copy_range(&ex, 0, ex.len())
        };
        assert(ex@.subrange(0, ex@.len() as int) =~= ex@);
        assert(ed@ == unsigned_part(exponent_text(u@)));
        if ed.len() == 0 || !digits_only(&ed) {
            return None;
        }
        size = capped_value(&ed, big);
    }
    let ghost e = power(u@);
    let v = scaled_value(&whole, &frac, exp_negative, size, Ghost(e));
    assert(v == if truncated_value(t@) > 0x8000_0000 {
        0x8000_0000
    } else {
        truncated_value(t@)
    });
    if negative {
        Some(
            if v >= 0x8000_0000 {
                i32::MIN
            } else {
                -(v as i32)
            },
        )
    } else {
        Some(
            if v > 0x7fff_ffff {
                i32::MAX
            } else {
                v as i32
            },
        )
    }
}

fn field_end_from(s: &Vec<char>, marker: &Vec<char>, i: usize) -> (r: usize)
    requires
        i <= s@.len(),
        marker@ == time_marker(),
    ensures
        r as int == field_end(s@, i as int),
        i <= r <= s@.len(),
{
    let mut j: usize = i;
    while j < s.len() && s[j] != '\n' && !occurs(s, marker, j)
        invariant
            i <= j <= s@.len(),
            marker@ == time_marker(),
            field_end(s@, i as int) == field_end(s@, j as int),
        decreases s@.len() - j,
    {
        j = j + 1;
    }
    j
}

fn word_end_from(s: &Vec<char>, i: usize, hi: usize) -> (r: usize)
    requires
        i <= hi <= s@.len(),
    ensures
        r as int == word_end(s@, i as int, hi as int),
        i <= r <= hi,
{
    let mut j: usize = i;
    while j < hi && !is_space_char(s[j])
        invariant
            i <= j <= hi <= s@.len(),
            word_end(s@, i as int, hi as int) == word_end(s@, j as int, hi as int),
        decreases hi - j,
    {
        j = j + 1;
    }
    j
}

/// The round-trip time that the output `out` of a successful check reports.
pub fn latency_from_text(out: &str) -> (r: i32)
    ensures
        r as int == latency_of(out@),
{
    let s = chars_of(out);
    let marker: Vec<char> = vec!['t', 'i', 'm', 'e', '='];
    assert(marker@ =~= time_marker());
    match find(&s, &marker, 0) {
        None => 0,
        Some(m) => {
            let start = m + 5;
            let hi = field_end_from(&s, &marker, start);
            let a = skip_space_from(&s, start, hi);
            if a >= hi {
                0
            } else {
                let b = word_end_from(&s, a, hi);
                let token = copy_range(&s, a, b);
                match parse_millis(&token) {
                    Some(v) => v,
                    None => 0,
                }
            }
        },
    }
}

/// Whether the reachability check succeeded.
#[derive(Clone, Copy, Debug, PartialEq, Eq, Structural)]
pub enum LinkStatus {
    Connected,
    Disconnected,
}

impl LinkStatus {
    /// The status as the host shell shows it: `connected` or `disconnected`.
    pub fn as_str(&self) -> (r: &'static str)
        ensures
            *self == LinkStatus::Connected ==> r@ == "connected"@,
            *self == LinkStatus::Disconnected ==> r@ == "disconnected"@,
    {
        match self {
            LinkStatus::Connected => "connected",
            LinkStatus::Disconnected => "disconnected",
        }
    }
}

/// The result of one reachability check.
pub struct NetworkHealth {
    pub status: LinkStatus,
    /// Whole milliseconds; 0 when disconnected.
    pub latency: i32,
    /// When the record was made, in RFC 3339; empty where chrono cannot write
    /// that instant.
    pub timestamp: String,
}

/// The record of a check that `success` tells whether it succeeded and whose
/// output is `out`, stamped with `timestamp`.
pub fn network_health_from_text(success: bool, out: &str, timestamp: String) -> (r:
    NetworkHealth)
    ensures
        r.status == (if success {
            LinkStatus::Connected
        } else {
            LinkStatus::Disconnected
        }),
        r.latency == (if success {
            latency_of(out@)
        } else {
            0
        }),
        r.timestamp == timestamp,
{
    if success {
        NetworkHealth { status: LinkStatus::Connected, latency: latency_from_text(out), timestamp }
    } else {
        NetworkHealth { status: LinkStatus::Disconnected, latency: 0, timestamp }
    }
}

/// The record of a check that `success` tells whether it succeeded and that wrote
/// `stdout`, stamped with the instant it is made
/// (an empty timestamp where that instant is out of chrono's range).
pub fn network_health(success: bool, stdout: &[u8]) -> (r: NetworkHealth)
    ensures
        r.status == (if success {
            LinkStatus::Connected
        } else {
            LinkStatus::Disconnected
        }),
        r.latency == (if success {
            latency_of(lossy_text(stdout@))
        } else {
            0
        }),
        r.timestamp@.len() == 0 || is_utc_rfc3339(r.timestamp@),
{
    let out = decode_lossy(stdout);
    let timestamp = now_stamp();
    network_health_from_text(success, out.as_str(), timestamp)
}

proof fn lemma_field_end_step(s: Seq<char>, j: int)
    requires
        0 <= j < s.len(),
        s[j] != '\n',
        s[j] != 't',
    ensures
        field_end(s, j) == field_end(s, j + 1),
{
    if j + 5 <= s.len() {
        assert(s.subrange(j, j + 5)[0] == s[j]);
        assert(time_marker()[0] == 't');
    }
}

proof fn lemma_field_end_bounds(s: Seq<char>, i: int)
    requires
        0 <= i <= s.len(),
    ensures
        i <= field_end(s, i) <= s.len(),
    decreases s.len() - i,
{
    if !(i >= s.len() || s[i] == '\n' || occurs_at(s, time_marker(), i)) {
        lemma_field_end_bounds(s, i + 1);
    }
}

proof fn lemma_word_end_bounds(s: Seq<char>, i: int, hi: int)
    requires
        0 <= i <= hi <= s.len(),
    ensures
        i <= word_end(s, i, hi) <= hi,
    decreases hi - i,
{
    if !(i >= hi || is_space(s[i])) {
        lemma_word_end_bounds(s, i + 1, hi);
    }
}

proof fn lemma_field_end_run(s: Seq<char>, i: int, j: int)
    requires
        0 <= i <= j <= s.len(),
        forall|k: int| i <= k < j ==> s[k] != '\n' && s[k] != 't',
    ensures
        field_end(s, i) == field_end(s, j),
    decreases j - i,
{
    if i < j {
        lemma_field_end_step(s, i);
        lemma_field_end_run(s, i + 1, j);
    }
}

proof fn lemma_word_end_run(s: Seq<char>, i: int, j: int, hi: int)
    requires
        0 <= i <= j <= hi <= s.len(),
        forall|k: int| i <= k < j ==> !is_space(s[k]),
    ensures
        word_end(s, i, hi) == word_end(s, j, hi),
    decreases j - i,
{
    if i < j {
        lemma_word_end_run(s, i + 1, j, hi);
    }
}

proof fn lemma_find_point(u: Seq<char>, i: int, j: int)
    requires
        0 <= i <= j < u.len(),
        forall|k: int| i <= k < j ==> u[k] != '.',
        u[j] == '.',
    ensures
        find_from(u, seq!['.'], i) == Some(j),
    decreases j - i,
{
    let dot: Seq<char> = seq!['.'];
    if i < j {
        assert(u.subrange(i, i + 1)[0] == u[i]);
        lemma_find_point(u, i + 1, j);
    } else {
        assert(u.subrange(j, j + 1) =~= dot);
    }
}

/// After a first marker that follows `pre`, a word `r` that white space or the
/// end of the output ends is the latency token.
proof fn lemma_token_after_marker(pre: Seq<char>, r: Seq<char>, post: Seq<char>)
    requires
        find_from(pre + time_marker(), time_marker(), 0) == Some(pre.len() as int),
        r.len() > 0,
        forall|k: int| 0 <= k < r.len() ==> #[trigger] r[k] != '\n' && r[k] != 't' && !is_space(
            r[k],
        ),
        post.len() == 0 || is_space(post[0]),
    ensures
        latency_token(pre + time_marker() + r + post) == Some(r),
{
    let m = time_marker();
    let x = pre + m;
    let s = pre + m + r + post;
    assert(s =~= x + (r + post));
    lemma_find_from_extend(x, r + post, m, 0);
    let start = x.len() as int;
    let end = start + r.len();
    assert forall|k: int| start <= k < end implies #[trigger] s[k] != '\n' && s[k] != 't'
        && !is_space(s[k]) by {
        assert(s[k] == r[k - start]);
    }
    lemma_field_end_run(s, start, end);
    lemma_field_end_bounds(s, end);
    let hi = field_end(s, start);
    assert(end <= hi <= s.len());
    assert(!is_space(s[start]));
    assert(skip_space(s, start, hi) == start);
    assert(hi > end ==> s[end] == post[0]);
    assert(word_end(s, end, hi) == end);
    lemma_word_end_run(s, start, end, hi);
    assert(s.subrange(start, end) =~= r);
}

proof fn lemma_no_point(u: Seq<char>, i: int)
    requires
        0 <= i,
        forall|k: int| i <= k < u.len() ==> u[k] != '.',
    ensures
        find_from(u, seq!['.'], i) is None,
    decreases u.len() - i,
{
    if i < u.len() {
        assert(u.subrange(i, i + 1)[0] == u[i]);
        lemma_no_point(u, i + 1);
    }
}

proof fn lemma_exponent_index_bounds(u: Seq<char>, i: int)
    requires
        0 <= i <= u.len(),
    ensures
        i <= exponent_index(u, i) <= u.len(),
    decreases u.len() - i,
{
    if i < u.len() && !(u[i] == 'e' || u[i] == 'E') {
        lemma_exponent_index_bounds(u, i + 1);
    }
}

/// Digits and points hold no exponent mark: the mantissa is all, the power 0.
proof fn lemma_no_exponent(u: Seq<char>, i: int)
    requires
        0 <= i <= u.len(),
        forall|k: int| 0 <= k < u.len() ==> #[trigger] u[k] == '.' || is_digit(u[k]),
    ensures
        exponent_index(u, i) == u.len(),
    decreases u.len() - i,
{
    if i < u.len() {
        assert(u[i] == '.' || is_digit(u[i]));
        lemma_no_exponent(u, i + 1);
    }
}

/// A number of digits and points scales by no power of ten, and its whole part
/// is its value cut toward zero.
proof fn lemma_plain_value(r: Seq<char>, whole: Seq<char>, fraction: Seq<char>)
    requires
        forall|k: int| 0 <= k < r.len() ==> #[trigger] r[k] == '.' || is_digit(r[k]),
        whole_digits(mantissa(r)) == whole,
        fraction_digits(mantissa(r)) == fraction,
    ensures
        truncated_value(r) == digits_value(whole),
{
    lemma_no_exponent(r, 0);
    assert(mantissa(r) =~= r);
    assert(!has_exponent(r));
    let d = whole + fraction;
    let k = 0 - fraction.len();
    if fraction.len() == 0 {
        assert(d + zeros(0) =~= whole);
    } else if whole.len() == 0 {
        assert(shifted_digits(d, k) =~= Seq::<char>::empty());
    } else {
        assert(d.subrange(0, d.len() + k) =~= whole);
    }
}

/// A check whose first marker is followed by a decimal number `whole.fraction`,
/// and then by white space or the end of its output, reports the whole part of
/// that number (held to the range of `i32`): the fraction is cut off, not rounded.
pub proof fn lemma_latency_cuts_fraction(
    pre: Seq<char>,
    whole: Seq<char>,
    fraction: Seq<char>,
    post: Seq<char>,
)
    requires
        find_from(pre + time_marker(), time_marker(), 0) == Some(pre.len() as int),
        all_digits(whole),
        all_digits(fraction),
        post.len() == 0 || is_space(post[0]),
    ensures
        latency_of(pre + time_marker() + whole + seq!['.'] + fraction + post) == if digits_value(
            whole,
        ) > 0x7fff_ffff {
            0x7fff_ffff
        } else {
            digits_value(whole) as int
        },
{
    let r = whole + seq!['.'] + fraction;
    assert forall|k: int| 0 <= k < r.len() implies r[k] == '.' || is_digit(#[trigger] r[k]) by {
        if k < whole.len() {
            assert(r[k] == whole[k]);
        } else if k > whole.len() {
            assert(r[k] == fraction[k - whole.len() - 1]);
        }
    }
    lemma_token_after_marker(pre, r, post);
    assert(pre + time_marker() + whole + seq!['.'] + fraction + post =~= pre + time_marker() + r
        + post);
    let p = whole.len() as int;
    assert(r[p] == '.');
    assert forall|k: int| 0 <= k < p implies r[k] != '.' by {
        assert(r[k] == whole[k]);
        assert(is_digit(whole[k]));
    }
    lemma_find_point(r, 0, p);
    if has_sign(r) {
        assert(p > 0);
        assert(r[0] == whole[0]);
        assert(is_digit(whole[0]));
    }
    assert(unsigned_part(r) == r);
    assert(point_index(r) == p);
    assert(whole_digits(r) =~= whole);
    assert(fraction_digits(r) =~= fraction);
    lemma_no_exponent(r, 0);
    assert(mantissa(r) =~= r);
    assert(unsigned_part(r) =~= r);
    lemma_plain_value(r, whole, fraction);
    if whole.len() == 0 {
        assert(digits_value(whole) == 0);
    }
}

/// A check whose first marker is followed by a whole number of one or more
/// digits, and then by white
/// space or the end of its output, reports that number (held to the range of
/// `i32`).
pub proof fn lemma_latency_whole_number(pre: Seq<char>, whole: Seq<char>, post: Seq<char>)
    requires
        find_from(pre + time_marker(), time_marker(), 0) == Some(pre.len() as int),
        whole.len() > 0,
        all_digits(whole),
        post.len() == 0 || is_space(post[0]),
    ensures
        latency_of(pre + time_marker() + whole + post) == if digits_value(whole) > 0x7fff_ffff {
            0x7fff_ffff
        } else {
            digits_value(whole) as int
        },
{
    assert forall|k: int| 0 <= k < whole.len() implies #[trigger] whole[k] != '\n'
        && whole[k] != 't' && !is_space(whole[k]) && whole[k] != '.' by {
        assert(is_digit(whole[k]));
    }
    lemma_token_after_marker(pre, whole, post);
    lemma_no_point(whole, 0);
    assert(is_digit(whole[0]));
    assert(unsigned_part(whole) == whole);
    assert(point_index(whole) == whole.len());
    assert(whole_digits(whole) =~= whole);
    assert(fraction_digits(whole) =~= Seq::<char>::empty());
    assert forall|k: int| 0 <= k < whole.len() implies #[trigger] whole[k] == '.' || is_digit(
        whole[k],
    ) by {}
    lemma_no_exponent(whole, 0);
    assert(mantissa(whole) =~= whole);
    lemma_plain_value(whole, whole, Seq::<char>::empty());
}

/// A check whose first marker is followed by a word that begins with neither a
/// digit, a sign nor a point reports 0 milliseconds.
pub proof fn lemma_latency_non_numeric(s: Seq<char>)
    requires
        latency_token(s) matches Some(t) && !is_digit(t[0]) && t[0] != '+' && t[0] != '-'
            && t[0] != '.',
    ensures
        latency_of(s) == 0,
{
    let m = find_from(s, time_marker(), 0)->0;
    lemma_find_from_found(s, time_marker(), 0);
    let start = m + 5;
    lemma_field_end_bounds(s, start);
    let hi = field_end(s, start);
    lemma_skip_space_stops(s, start, hi);
    let a = skip_space(s, start, hi);
    lemma_word_end_bounds(s, a + 1, hi);
    assert(word_end(s, a, hi) > a);
    let t = latency_token(s)->0;
    assert(t.len() > 0);
    assert(t[0] == s[a]);
    assert(unsigned_part(t) == t);
    let dot: Seq<char> = seq!['.'];
    if t[0] == 'e' || t[0] == 'E' {
        assert(mantissa(t) =~= Seq::<char>::empty());
        assert(whole_digits(mantissa(t)).len() == 0);
    } else {
        lemma_exponent_index_bounds(t, 1);
        let mt = mantissa(t);
        assert(mt.len() >= 1 && mt[0] == t[0]);
        assert(mt.subrange(0, 1)[0] == mt[0]);
        assert(!occurs_at(mt, dot, 0));
        lemma_find_from_found(mt, dot, 1);
        assert(point_index(mt) >= 1);
        assert(whole_digits(mt)[0] == t[0]);
    }
    assert(!is_decimal(t));
}

} // verus!
