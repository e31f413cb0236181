use vstd::prelude::*;
use vstd::std_specs::iter::IteratorSpec;

verus! {

broadcast use vstd::string::axiom_spec_iter, vstd::string::next_postcondition;

/// The characters of `s`, in order, as a vector.
pub fn chars_of(s: &str) -> (r: Vec<char>)
    ensures
        r@ == s@,
{
    let mut out: Vec<char> = Vec::new();
    let mut it = s.chars();
    loop
        invariant
            IteratorSpec::remaining(&it) == s@.subrange(out@.len() as int, s@.len() as int),
            out@ == s@.subrange(0, out@.len() as int),
            out@.len() <= s@.len(),
        ensures
            out@ == s@,
        decreases s@.len() - out@.len(),
    {
        match it.next() {
            Some(c) => {
                out.push(c);
            },
            None => {
                break;
            },
        }
    }
    out
}


/// Whether `c` has the Unicode White_Space property, which is what
/// `char::is_whitespace`, `str::trim` and `str::split_whitespace` go by.
pub open spec fn is_space(c: char) -> bool {
    let u = c as u32;
    (0x9 <= u <= 0xd) || u == 0x20 || u == 0x85 || u == 0xa0 || u == 0x1680 || (0x2000 <= u
        <= 0x200a) || u == 0x2028 || u == 0x2029 || u == 0x202f || u == 0x205f || u == 0x3000
}

/// Whether `c` is white space, as `is_space` says.
pub fn is_space_char(c: char) -> (r: bool)
    ensures
        r == is_space(c),
{
    let u = c as u32;
    (0x9 <= u && u <= 0xd) || u == 0x20 || u == 0x85 || u == 0xa0 || u == 0x1680 || (0x2000 <= u
        && u <= 0x200a) || u == 0x2028 || u == 0x2029 || u == 0x202f || u == 0x205f || u == 0x3000
}

/// `p` occurs in `s` starting at index `i`.
pub open spec fn occurs_at(s: Seq<char>, p: Seq<char>, i: int) -> bool {
    0 <= i && i + p.len() <= s.len() && s.subrange(i, i + p.len()) == p
}

/// The first index at or after `i` where `p` occurs in `s`.
pub open spec fn find_from(s: Seq<char>, p: Seq<char>, i: int) -> Option<int>
    decreases s.len() - i,
{
    if i < 0 || i >= s.len() || i + p.len() > s.len() {
        None
    } else if occurs_at(s, p, i) {
        Some(i)
    } else {
        find_from(s, p, i + 1)
    }
}

/// The index of the first character at or after `lo` and before `hi` that is not
/// white space, or `hi` where there is none.
pub open spec fn skip_space(s: Seq<char>, lo: int, hi: int) -> int
    decreases hi - lo,
{
    if lo < hi && is_space(s[lo]) {
        skip_space(s, lo + 1, hi)
    } else {
        lo
    }
}

/// The end of `s[lo..hi]` once trailing white space is dropped.
pub open spec fn drop_trailing_space(s: Seq<char>, lo: int, hi: int) -> int
    decreases hi - lo,
{
    if lo < hi && is_space(s[hi - 1]) {
        drop_trailing_space(s, lo, hi - 1)
    } else {
        hi
    }
}

/// `s[lo..hi]` without leading and trailing white space.
pub open spec fn trimmed_range(s: Seq<char>, lo: int, hi: int) -> Seq<char> {
    let a = skip_space(s, lo, hi);
    s.subrange(a, drop_trailing_space(s, a, hi))
}

/// `s` without leading and trailing white space, as `str::trim` gives it.
pub open spec fn trimmed(s: Seq<char>) -> Seq<char> {
    trimmed_range(s, 0, s.len() as int)
}

/// How many times `c` occurs in `s`.
pub open spec fn count_of(s: Seq<char>, c: char) -> nat
    decreases s.len(),
{
    if s.len() == 0 {
        0
    } else {
        count_of(s.drop_last(), c) + if s.last() == c {
            1nat
        } else {
            0nat
        }
    }
}

/// The number of lines of `s`, as `str::lines` yields them: one per line feed,
/// and one more for a last line that no line feed ends.
pub open spec fn line_count(s: Seq<char>) -> nat {
    if s.len() == 0 {
        0
    } else if s.last() == '\n' {
        count_of(s, '\n')
    } else {
        count_of(s, '\n') + 1
    }
}

/// Whether `p` occurs in `s` starting at index `i`.
pub fn occurs(s: &Vec<char>, p: &Vec<char>, i: usize) -> (r: bool)
    ensures
        r == occurs_at(s@, p@, i as int),
{
    if i > s.len() || p.len() > s.len() - i {
        return false;
    }
    let mut k: usize = 0;
    while k < p.len()
        invariant
            i + p@.len() <= s@.len(),
            s@.len() <= usize::MAX,
            k <= p@.len(),
            forall|j: int| 0 <= j < k ==> s@[i + j] == p@[j],
        decreases p@.len() - k,
    {
        if s[i + k] != p[k] {
            assert(s@.subrange(i as int, i + p@.len())[k as int] != p@[k as int]);
            return false;
        }
        k = k + 1;
    }
    assert(s@.subrange(i as int, i + p@.len()) =~= p@);
    true
}

/// The first index at or after `from` where `p` occurs in `s`.
pub fn find(s: &Vec<char>, p: &Vec<char>, from: usize) -> (r: Option<usize>)
    ensures
        match r {
            Some(i) => find_from(s@, p@, from as int) == Some(i as int) && occurs_at(
                s@,
                p@,
                i as int,
            ) && from <= i && i + p@.len() <= s.len(),
            None => find_from(s@, p@, from as int) is None,
        },
{
    let mut i: usize = from;
    while i < s.len()
        invariant
            from <= i,
            find_from(s@, p@, from as int) == find_from(s@, p@, i as int),
        decreases s@.len() - i,
    {
        if p.len() > s.len() - i {
            return None;
        }
        if occurs(s, p, i) {
            return Some(i);
        }
        i = i + 1;
    }
    None
}

/// The first index at or after `lo` and before `hi` that holds no white space,
/// or `hi`.
pub fn skip_space_from(s: &Vec<char>, lo: usize, hi: usize) -> (r: usize)
    requires
        lo <= hi <= s@.len(),
    ensures
        r as int == skip_space(s@, lo as int, hi as int),
        lo <= r <= hi,
{
    let mut i: usize = lo;
    while i < hi && is_space_char(s[i])
        invariant
            lo <= i <= hi <= s@.len(),
            skip_space(s@, lo as int, hi as int) == skip_space(s@, i as int, hi as int),
        decreases hi - i,
    {
        i = i + 1;
    }
    i
}

/// The end of `s[lo..hi]` once trailing white space is dropped.
pub fn drop_trailing_space_from(s: &Vec<char>, lo: usize, hi: usize) -> (r: usize)
    requires
        lo <= hi <= s@.len(),
    ensures
        r as int == drop_trailing_space(s@, lo as int, hi as int),
        lo <= r <= hi,
{
    let mut j: usize = hi;
    while lo < j && is_space_char(s[j - 1])
        invariant
            lo <= j <= hi <= s@.len(),
            drop_trailing_space(s@, lo as int, hi as int) == drop_trailing_space(
                s@,
                lo as int,
                j as int,
            ),
        decreases j - lo,
    {
        j = j - 1;
    }
    j
}

/// The bounds of `s[lo..hi]` without its leading and trailing white space.
pub fn trim_bounds(s: &Vec<char>, lo: usize, hi: usize) -> (r: (usize, usize))
    requires
        lo <= hi <= s@.len(),
    ensures
        lo <= r.0 <= r.1 <= hi,
        s@.subrange(r.0 as int, r.1 as int) == trimmed_range(s@, lo as int, hi as int),
{
    let a = skip_space_from(s, lo, hi);
    let b = drop_trailing_space_from(s, a, hi);
    (a, b)
}

/// The number of lines of `s`, counted as `str::lines` yields them.
pub fn count_lines(s: &Vec<char>) -> (r: usize)
    ensures
        r == line_count(s@),
{
    let mut n: usize = 0;
    let mut i: usize = 0;
    while i < s.len()
        invariant
            i <= s@.len(),
            n == count_of(s@.subrange(0, i as int), '\n'),
            n + (if i > 0 && s@[i - 1] != '\n' {
                1int
            } else {
                0int
            }) <= i,
        decreases s@.len() - i,
    {
        assert(s@.subrange(0, i + 1).drop_last() =~= s@.subrange(0, i as int));
        if s[i] == '\n' {
            n = n + 1;
        }
        i = i + 1;
    }
    assert(s@.subrange(0, s@.len() as int) =~= s@);
    if s.len() == 0 || s[s.len() - 1] == '\n' {
        n
    } else {
        n + 1
    }
}

/// The characters of `s[lo..hi]`, as a vector.
pub fn copy_range(s: &Vec<char>, lo: usize, hi: usize) -> (r: Vec<char>)
    requires
        lo <= hi <= s@.len(),
    ensures
        r@ == s@.subrange(lo as int, hi as int),
{
    let mut out: Vec<char> = Vec::new();
    let mut i: usize = lo;
    while i < hi
        invariant
            lo <= i <= hi <= s@.len(),
            out@ == s@.subrange(lo as int, i as int),
        decreases hi - i,
    {
        out.push(s[i]);
        i = i + 1;
        assert(out@ =~= s@.subrange(lo as int, i as int));
    }
    out
}

/// The text that `String::from_utf8_lossy` makes of `b`.
pub uninterp spec fn lossy_text(b: Seq<u8>) -> Seq<char>;

/// Relies on `String::from_utf8_lossy`: the bytes read as UTF-8, each invalid
/// sequence replaced by U+FFFD; the text depends on the bytes alone, and no
/// bytes give no text.
#[verifier::external_body]
pub(crate) fn decode_lossy(b: &[u8]) -> (r: String)
    ensures
        r@ == lossy_text(b@),
        b@.len() == 0 ==> r@.len() == 0,
{
    String::from_utf8_lossy(b).into_owned()
}

/// What `find_from` finds lies at or after where the search starts, and is an
/// occurrence.
pub proof fn lemma_find_from_found(s: Seq<char>, p: Seq<char>, i: int)
    ensures
        find_from(s, p, i) matches Some(j) ==> i <= j && occurs_at(s, p, j),
    decreases s.len() - i,
{
    if !(i < 0 || i >= s.len() || i + p.len() > s.len()) && !occurs_at(s, p, i) {
        lemma_find_from_found(s, p, i + 1);
    }
}

/// An occurrence that `find_from` finds in `x` is still the first one once more
/// text follows `x`.
pub proof fn lemma_find_from_extend(x: Seq<char>, y: Seq<char>, p: Seq<char>, i: int)
    requires
        find_from(x, p, i) is Some,
    ensures
        find_from(x + y, p, i) == find_from(x, p, i),
    decreases x.len() - i,
{
    let s = x + y;
    assert(!(i < 0 || i >= x.len() || i + p.len() > x.len()));
    assert(s.subrange(i, i + p.len()) =~= x.subrange(i, i + p.len()));
    if !occurs_at(x, p, i) {
        lemma_find_from_extend(x, y, p, i + 1);
    }
}

/// Line feeds in a concatenation are those of its two parts.
pub proof fn lemma_count_of_concat(a: Seq<char>, b: Seq<char>, c: char)
    ensures
        count_of(a + b, c) == count_of(a, c) + count_of(b, c),
    decreases b.len(),
{
    if b.len() == 0 {
        assert(a + b =~= a);
    } else {
        assert((a + b).drop_last() =~= a + b.drop_last());
        lemma_count_of_concat(a, b.drop_last(), c);
    }
}

/// Text with no line feed holds none.
pub proof fn lemma_count_of_absent(s: Seq<char>, c: char)
    requires
        !s.contains(c),
    ensures
        count_of(s, c) == 0,
    decreases s.len(),
{
    if s.len() > 0 {
        assert(!s.drop_last().contains(c)) by {
            if s.drop_last().contains(c) {
                let k = choose|k: int| 0 <= k < s.drop_last().len() && s.drop_last()[k] == c;
                assert(s[k] == c);
            }
        }
        assert(s.last() != c) by {
            assert(s[s.len() - 1] == s.last());
        }
        lemma_count_of_absent(s.drop_last(), c);
    }
}

/// The lines `ls`, each ended by a line feed.
pub open spec fn terminated(ls: Seq<Seq<char>>) -> Seq<char>
    decreases ls.len(),
{
    if ls.len() == 0 {
        Seq::empty()
    } else {
        terminated(ls.drop_last()) + ls.last() + seq!['\n']
    }
}

proof fn lemma_terminated_count(ls: Seq<Seq<char>>)
    requires
        forall|k: int| 0 <= k < ls.len() ==> !(#[trigger] ls[k]).contains('\n'),
    ensures
        count_of(terminated(ls), '\n') == ls.len(),
    decreases ls.len(),
{
    if ls.len() > 0 {
        let init = ls.drop_last();
        assert forall|k: int| 0 <= k < init.len() implies !(#[trigger] init[k]).contains('\n') by {
            assert(init[k] == ls[k]);
        }
        lemma_terminated_count(init);
        assert(!ls[ls.len() - 1].contains('\n'));
        lemma_count_of_absent(ls.last(), '\n');
        lemma_count_of_concat(terminated(init), ls.last(), '\n');
        lemma_count_of_concat(terminated(init) + ls.last(), seq!['\n'], '\n');
        let nl: Seq<char> = seq!['\n'];
        assert(nl.drop_last() =~= Seq::<char>::empty());
        assert(nl.last() == '\n');
        assert(count_of(Seq::<char>::empty(), '\n') == 0);
        assert(count_of(nl, '\n') == 1);
    }
}

/// Text made of `ls.len()` lines, each ended by a line feed, has that many lines.
pub proof fn lemma_line_count_terminated(ls: Seq<Seq<char>>)
    requires
        forall|k: int| 0 <= k < ls.len() ==> !(#[trigger] ls[k]).contains('\n'),
    ensures
        line_count(terminated(ls)) == ls.len(),
{
    lemma_terminated_count(ls);
    if ls.len() > 0 {
        let s = terminated(ls);
        assert(s.last() == '\n');
    }
}

/// Text made of the lines `ls` each ended by a line feed, and a last line `last`
/// that is not empty and has none, has one line more than `ls`.
pub proof fn lemma_line_count_open_last(ls: Seq<Seq<char>>, last: Seq<char>)
    requires
        forall|k: int| 0 <= k < ls.len() ==> !(#[trigger] ls[k]).contains('\n'),
        last.len() > 0,
        !last.contains('\n'),
    ensures
        line_count(terminated(ls) + last) == ls.len() + 1,
{
    lemma_terminated_count(ls);
    lemma_count_of_absent(last, '\n');
    lemma_count_of_concat(terminated(ls), last, '\n');
    let s = terminated(ls) + last;
    assert(s.last() == last[last.len() - 1]);
}

/// Skipping white space in the second part of a concatenation skips it in that part.
pub proof fn lemma_skip_space_shift(x: Seq<char>, y: Seq<char>, i: int, j: int)
    requires
        0 <= i <= j <= y.len(),
    ensures
        skip_space(x + y, x.len() + i, x.len() + j) == x.len() + skip_space(y, i, j),
    decreases j - i,
{
    if i < j {
        assert((x + y)[x.len() + i] == y[i]);
        lemma_skip_space_shift(x, y, i + 1, j);
    }
}

/// Dropping trailing white space in the second part of a concatenation drops it in
/// that part.
pub proof fn lemma_drop_trailing_space_shift(x: Seq<char>, y: Seq<char>, i: int, j: int)
    requires
        0 <= i <= j <= y.len(),
    ensures
        drop_trailing_space(x + y, x.len() + i, x.len() + j) == x.len() + drop_trailing_space(
            y,
            i,
            j,
        ),
    decreases j - i,
{
    if i < j {
        assert((x + y)[x.len() + j - 1] == y[j - 1]);
        lemma_drop_trailing_space_shift(x, y, i, j - 1);
    }
}

/// Trimming the second part of a concatenation, in place, trims that part.
pub proof fn lemma_trimmed_range_shift(x: Seq<char>, y: Seq<char>)
    ensures
        trimmed_range(x + y, x.len() as int, (x + y).len() as int) == trimmed(y),
{
    let s = x + y;
    let n = x.len() as int;
    lemma_skip_space_shift(x, y, 0, y.len() as int);
    let a = skip_space(y, 0, y.len() as int);
    lemma_skip_space_stops(y, 0, y.len() as int);
    lemma_drop_trailing_space_shift(x, y, a, y.len() as int);
    let b = drop_trailing_space(y, a, y.len() as int);
    lemma_drop_trailing_space_bounds(y, a, y.len() as int);
    assert(s.subrange(n + a, n + b) =~= y.subrange(a, b));
}

/// Skipping white space stops within its range, on a character that is none.
pub proof fn lemma_skip_space_stops(s: Seq<char>, lo: int, hi: int)
    requires
        0 <= lo <= hi <= s.len(),
    ensures
        lo <= skip_space(s, lo, hi) <= hi,
        skip_space(s, lo, hi) < hi ==> !is_space(s[skip_space(s, lo, hi)]),
    decreases hi - lo,
{
    if lo < hi && is_space(s[lo]) {
        lemma_skip_space_stops(s, lo + 1, hi);
    }
}

proof fn lemma_drop_trailing_space_bounds(s: Seq<char>, lo: int, hi: int)
    requires
        0 <= lo <= hi <= s.len(),
    ensures
        lo <= drop_trailing_space(s, lo, hi) <= hi,
    decreases hi - lo,
{
    if lo < hi && is_space(s[hi - 1]) {
        lemma_drop_trailing_space_bounds(s, lo, hi - 1);
    }
}

} // verus!
