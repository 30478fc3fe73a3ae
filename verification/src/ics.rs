//! Reading the first event of an iCalendar (RFC 5545) text: its summary,
//! location,
//! start and end, and whether it lasts whole days.
//!
//! The event is the text between the first `BEGIN:VEVENT` line break and
//! the next line break followed by `END:VEVENT`; each of its lines, with
//! surrounding white space removed, is read as `NAME[;PARAMS]:VALUE`.
//! Start and end values are read as `YYYYMMDD` or `YYYYMMDDTHHMMSS`, on the
//! UTF-8 bytes of the value, where a cut between bytes that falls inside a
//! character is a fault of the value.
use vstd::prelude::*;
use vstd::string::StrSliceExecFns;
use vstd::utf8::{valid_utf8, is_char_boundary};
use crate::date::{Date, DateTime, valid_ymd, valid_hms};
use crate::event::{CalendarEvent, FILE_EVENT_COLOR};
use crate::label::{two_digits, lemma_digit_text, lemma_two_digits};

verus! {

/// The ASCII code of a decimal digit.
pub open spec fn is_digit_byte(b: u8) -> bool {
    0x30 <= b <= 0x39
}

/// The value of a run of decimal digits (`None` if a byte is not a digit).
pub open spec fn digits_value(ds: Seq<u8>) -> Option<int>
    decreases ds.len(),
{
    if ds.len() == 0 {
        Some(0)
    } else {
        match digits_value(ds.drop_last()) {
            Some(v) => if is_digit_byte(ds.last()) {
                Some(v * 10 + (ds.last() - 0x30))
            } else {
                None
            },
            None => None,
        }
    }
}

/// What Rust's `str::parse` makes of a short decimal integer: an optional
/// `+` (or, for a signed type, `-`) followed by at least one digit.
pub open spec fn std_parse_int(bs: Seq<u8>, signed: bool) -> Option<int> {
    if bs.len() == 0 {
        None
    } else if (bs[0] == 0x2b || bs[0] == 0x2d) && bs.len() == 1 {
        None
    } else if bs[0] == 0x2b {
        digits_value(bs.drop_first())
    } else if bs[0] == 0x2d && signed {
        match digits_value(bs.drop_first()) {
            Some(v) => Some(-v),
            None => None,
        }
    } else {
        digits_value(bs)
    }
}

/// A run of at most four digits has a value below 10^len.
proof fn lemma_digits_value_bound(ds: Seq<u8>)
    ensures
        digits_value(ds) matches Some(v) ==> 0 <= v < pow10(ds.len()),
    decreases ds.len(),
{
    if ds.len() > 0 {
        lemma_digits_value_bound(ds.drop_last());
    }
}

pub open spec fn pow10(n: nat) -> int
    decreases n,
{
    if n == 0 { 1 } else { 10 * pow10((n - 1) as nat) }
}

/// Parses bytes `from..to` of `b` as `str::parse::<i32>` (when `signed`)
/// or `str::parse::<u32>` would.
fn parse_small_int(b: &[u8], from: usize, to: usize, signed: bool) -> (r: Option<i32>)
    requires
        from <= to <= b@.len(),
        to - from <= 4,
    ensures
        r matches Some(v) ==> std_parse_int(b@.subrange(from as int, to as int), signed) == Some(v as int),
        r is None ==> std_parse_int(b@.subrange(from as int, to as int), signed) is None,
{
    let ghost bs = b@.subrange(from as int, to as int);
    if from == to {
        return None;
    }
    let first = b[from];
    if (first == 0x2b || first == 0x2d) && to - from == 1 {
        return None;
    }
    let negative = first == 0x2d && signed;
    let start = if first == 0x2b || negative { from + 1 } else { from };
    let ghost ds = b@.subrange(start as int, to as int);
    proof {
        if first == 0x2b || negative {
            assert(ds =~= bs.drop_first());
        } else {
            assert(ds =~= bs);
        }
        assert(first == bs[0]);
    }
    let mut v: i32 = 0;
    let mut i = start;
    while i < to
        invariant
            start <= i <= to,
            to <= b@.len(),
            to - start <= 4,
            ds == b@.subrange(start as int, to as int),
            bs == b@.subrange(from as int, to as int),
            digits_value(ds) is None ==> std_parse_int(bs, signed) is None,
            digits_value(ds) matches Some(x) ==> std_parse_int(bs, signed) == Some(
                if negative { -x } else { x },
            ),
            digits_value(b@.subrange(start as int, i as int)) == Some(v as int),
            0 <= v < pow10((i - start) as nat),
        decreases to - i,
    {
        let c = b[i];
        assert(b@.subrange(start as int, i + 1).drop_last() =~= b@.subrange(start as int, i as int));
        if c < 0x30 || c > 0x39 {
            proof {
                lemma_digits_none_extends(b@, start as int, i as int, to as int);
            }
            return None;
        }
        proof {
            assert(pow10((i + 1 - start) as nat) == 10 * pow10((i - start) as nat));
            assert(pow10(4) == 10000) by { reveal_with_fuel(pow10, 5); }
            lemma_pow10_monotonic((i + 1 - start) as nat, 4);
        }
        v = v * 10 + (c - 0x30) as i32;
        i = i + 1;
    }
    if negative {
        Some(-v)
    } else {
        Some(v)
    }
}

/// Powers of ten grow with the exponent.
proof fn lemma_pow10_monotonic(a: nat, b: nat)
    requires
        a <= b,
    ensures
        1 <= pow10(a) <= pow10(b),
    decreases b,
{
    lemma_pow10_positive(a);
    if a < b {
        lemma_pow10_monotonic(a, (b - 1) as nat);
        assert(pow10(b) == 10 * pow10((b - 1) as nat));
    }
}

proof fn lemma_pow10_positive(n: nat)
    ensures
        pow10(n) >= 1,
    decreases n,
{
    if n > 0 {
        lemma_pow10_positive((n - 1) as nat);
    }
}

/// Once a non-digit appears, no longer run has a value.
proof fn lemma_digits_none_extends(b: Seq<u8>, start: int, i: int, to: int)
    requires
        0 <= start <= i < to <= b.len(),
        !is_digit_byte(b[i]),
    ensures
        digits_value(b.subrange(start, to)) is None,
    decreases to - i,
{
    if to == i + 1 {
        assert(b.subrange(start, to).last() == b[i]);
    } else {
        lemma_digits_none_extends(b, start, i, to - 1);
        assert(b.subrange(start, to).drop_last() =~= b.subrange(start, to - 1));
    }
}


/// Bytes `from..to` of `b`, read as an `i32` or a `u32`.
pub open spec fn int_at(b: Seq<u8>, from: int, to: int, signed: bool) -> Option<int> {
    std_parse_int(b.subrange(from, to), signed)
}

/// Reading an iCalendar date-time cuts its bytes at 4, 6 and 8 and, for a
/// `T` at byte 8, at 9, 11, 13 and 15; a cut inside a UTF-8 character is a
/// fault. This holds when a cut that is reached falls inside a character.
pub open spec fn ics_dt_faults(b: Seq<u8>) -> bool {
    &&& b.len() >= 8
    &&& {
        ||| !is_char_boundary(b, 4)
        ||| int_at(b, 0, 4, true) is Some && !is_char_boundary(b, 6)
        ||| int_at(b, 0, 4, true) is Some && int_at(b, 4, 6, false) is Some && !is_char_boundary(b, 8)
        ||| int_at(b, 0, 4, true) is Some && int_at(b, 4, 6, false) is Some && int_at(b, 6, 8, false) is Some
            && b.len() >= 15 && b[8] == 0x54 && {
            ||| !is_char_boundary(b, 9)
            ||| !is_char_boundary(b, 11)
            ||| int_at(b, 9, 11, false) is Some && !is_char_boundary(b, 13)
            ||| int_at(b, 9, 11, false) is Some && int_at(b, 11, 13, false) is Some && !is_char_boundary(b, 15)
        }
    }
}

/// The date-time an iCalendar value denotes: `YYYYMMDD` (at midnight) or
/// `YYYYMMDDTHHMMSS`, where each field is read as `str::parse` reads it
/// and the date and time must exist; anything after these bytes is ignored.
pub open spec fn ics_dt_value(b: Seq<u8>) -> Option<DateTime> {
    if b.len() < 8 {
        None
    } else {
        match (int_at(b, 0, 4, true), int_at(b, 4, 6, false), int_at(b, 6, 8, false)) {
            (Some(y), Some(m), Some(d)) => if b.len() >= 15 && b[8] == 0x54 {
                match (int_at(b, 9, 11, false), int_at(b, 11, 13, false), int_at(b, 13, 15, false)) {
                    (Some(h), Some(mi), Some(sec)) => if valid_ymd(y, m, d) && valid_hms(h, mi, sec) {
                        Some(DateTime {
                            date: Date { year: y as i32, month: m as u32, day: d as u32 },
                            hour: h as u32,
                            minute: mi as u32,
                            second: sec as u32,
                            nanosecond: 0,
                        })
                    } else {
                        None
                    },
                    _ => None,
                }
            } else if valid_ymd(y, m, d) {
                Some(DateTime {
                    date: Date { year: y as i32, month: m as u32, day: d as u32 },
                    hour: 0,
                    minute: 0,
                    second: 0,
                    nanosecond: 0,
                })
            } else {
                None
            },
            _ => None,
        }
    }
}

/// Whether a byte index of valid UTF-8 starts a character (or ends the text).
fn char_boundary(b: &[u8], i: usize) -> (r: bool)
    requires
        valid_utf8(b@),
        i <= b@.len(),
    ensures
        r == is_char_boundary(b@, i as int),
{
    if i == b.len() {
        proof {
            vstd::utf8::is_char_boundary_start_end_of_seq(b@);
        }
        true
    } else {
        proof {
            vstd::utf8::is_char_boundary_iff_not_is_continuation_byte(b@, i as int);
        }
        !(0x80 <= b[i] && b[i] <= 0xbf)
    }
}

/// Reads an iCalendar date-time from its UTF-8 bytes: `Err` exactly where
/// a cut falls inside a character, and otherwise the value it denotes.
fn ics_dt_from_bytes(b: &[u8]) -> (r: Result<Option<DateTime>, ()>)
    requires
        valid_utf8(b@),
    ensures
        r is Err <==> ics_dt_faults(b@),
        r matches Ok(v) ==> v == ics_dt_value(b@),
{
    let n = b.len();
    if n < 8 {
        return Ok(None);
    }
    if !char_boundary(b, 4) {
        return Err(());
    }
    let year = match parse_small_int(b, 0, 4, true) {
        Some(v) => v,
        None => return Ok(None),
    };
    if !char_boundary(b, 6) {
        return Err(());
    }
    let month = match parse_small_int(b, 4, 6, false) {
        Some(v) => v,
        None => return Ok(None),
    };
    if !char_boundary(b, 8) {
        return Err(());
    }
    let day = match parse_small_int(b, 6, 8, false) {
        Some(v) => v,
        None => return Ok(None),
    };
    proof {
        lemma_digits_bounds(b@.subrange(0, 4), true);
        lemma_digits_bounds(b@.subrange(4, 6), false);
        lemma_digits_bounds(b@.subrange(6, 8), false);
    }
    if n >= 15 && b[8] == 0x54 {
        if !char_boundary(b, 9) || !char_boundary(b, 11) {
            return Err(());
        }
        let hour = match parse_small_int(b, 9, 11, false) {
            Some(v) => v,
            None => return Ok(None),
        };
        if !char_boundary(b, 13) {
            return Err(());
        }
        let minute = match parse_small_int(b, 11, 13, false) {
            Some(v) => v,
            None => return Ok(None),
        };
        if !char_boundary(b, 15) {
            return Err(());
        }
        let second = match parse_small_int(b, 13, 15, false) {
            Some(v) => v,
            None => return Ok(None),
        };
        proof {
            lemma_digits_bounds(b@.subrange(9, 11), false);
            lemma_digits_bounds(b@.subrange(11, 13), false);
            lemma_digits_bounds(b@.subrange(13, 15), false);
        }
        match Date::new(year, month as u32, day as u32) {
            Some(date) => Ok(date.and_hms_opt(hour as u32, minute as u32, second as u32)),
            None => Ok(None),
        }
    } else {
        match Date::new(year, month as u32, day as u32) {
            Some(date) => Ok(date.and_hms_opt(0, 0, 0)),
            None => Ok(None),
        }
    }
}

/// An unsigned reading is never negative; any reading of at most four
/// bytes lies within four digits.
proof fn lemma_digits_bounds(bs: Seq<u8>, signed: bool)
    requires
        bs.len() <= 4,
    ensures
        std_parse_int(bs, signed) matches Some(v) ==> -10000 < v < 10000,
        !signed ==> (std_parse_int(bs, signed) matches Some(v) ==> 0 <= v),
{
    lemma_digits_value_bound(bs);
    lemma_digits_value_bound(bs.drop_first());
    if bs.len() > 0 {
        lemma_pow10_monotonic(bs.len(), 4);
        lemma_pow10_monotonic(bs.drop_first().len(), 4);
        assert(pow10(4) == 10000) by {
            reveal_with_fuel(pow10, 5);
        }
    }
}


/// The characters of a text, in order.
fn chars_of(s: &str) -> (v: Vec<char>)
    ensures
        v@ == s@,
{
    broadcast use vstd::string::group_string_axioms;
    let mut v: Vec<char> = Vec::new();
    for c in it: s.chars()
        invariant
            it.seq() == s@,
            v@ == s@.take(it.index()),
    {
        assert(s@.take(it.index() + 1) =~= s@.take(it.index()).push(c));
        v.push(c);
    }
    assert(s@.take(s@.len() as int) =~= s@);
    v
}


/// White space as `char::is_whitespace` defines it (the Unicode
/// `White_Space` property).
pub open spec fn is_white_space(c: char) -> bool {
    ||| c == '\t' || c == '\n' || c == '\u{0B}' || c == '\u{0C}' || c == '\r' || c == ' '
    ||| c == '\u{85}' || c == '\u{A0}' || c == '\u{1680}'
    ||| '\u{2000}' <= c <= '\u{200A}'
    ||| c == '\u{2028}' || c == '\u{2029}' || c == '\u{202F}' || c == '\u{205F}' || c == '\u{3000}'
}

/// Whether a character is white space.
pub fn white_space(c: char) -> (r: bool)
    ensures
        r == is_white_space(c),
{
    c == '\t' || c == '\n' || c == '\u{0B}' || c == '\u{0C}' || c == '\r' || c == ' ' || c
        == '\u{85}' || c == '\u{A0}' || c == '\u{1680}' || ('\u{2000}' <= c && c <= '\u{200A}')
        || c == '\u{2028}' || c == '\u{2029}' || c == '\u{202F}' || c == '\u{205F}' || c
        == '\u{3000}'
}

/// The first index in `i..end` holding `c1` or `c2`.
pub open spec fn find_in(s: Seq<char>, i: int, end: int, c1: char, c2: char) -> Option<int>
    decreases end - i,
{
    if i >= end {
        None
    } else if s[i] == c1 || s[i] == c2 {
        Some(i)
    } else {
        find_in(s, i + 1, end, c1, c2)
    }
}

/// A found index lies in the range and holds one of the characters; none
/// before it does.
pub proof fn lemma_find_in(s: Seq<char>, i: int, end: int, c1: char, c2: char)
    ensures
        find_in(s, i, end, c1, c2) matches Some(k) ==> i <= k < end && (s[k] == c1 || s[k] == c2),
        find_in(s, i, end, c1, c2) matches Some(k) ==> forall|j: int| i <= j < k ==> s[j] != c1 && s[j] != c2,
        find_in(s, i, end, c1, c2) is None ==> forall|j: int| i <= j < end ==> s[j] != c1 && s[j] != c2,
    decreases end - i,
{
    if i < end {
        lemma_find_in(s, i + 1, end, c1, c2);
    }
}

/// Finds the first index in `from..to` holding `c1` or `c2`.
fn find_char(cs: &Vec<char>, from: usize, to: usize, c1: char, c2: char) -> (r: Option<usize>)
    requires
        from <= to <= cs@.len(),
    ensures
        match r {
            Some(k) => find_in(cs@, from as int, to as int, c1, c2) == Some(k as int),
            None => find_in(cs@, from as int, to as int, c1, c2) is None,
        },
{
    let mut i = from;
    while i < to
        invariant
            from <= i <= to <= cs@.len(),
            find_in(cs@, from as int, to as int, c1, c2) == find_in(cs@, i as int, to as int, c1, c2),
        decreases to - i,
    {
        if cs[i] == c1 || cs[i] == c2 {
            return Some(i);
        }
        i = i + 1;
    }
    None
}

/// Start of `s[a..b]` once leading white space is removed.
pub open spec fn trim_lo(s: Seq<char>, a: int, b: int) -> int
    decreases b - a,
{
    if a < b && is_white_space(s[a]) {
        trim_lo(s, a + 1, b)
    } else {
        a
    }
}

/// End of `s[a..b]` once trailing white space is removed.
pub open spec fn trim_hi(s: Seq<char>, a: int, b: int) -> int
    decreases b - a,
{
    if a < b && is_white_space(s[b - 1]) {
        trim_hi(s, a, b - 1)
    } else {
        b
    }
}

/// The span of `cs[from..to]` without its leading and trailing white space
/// (as `str::trim` removes it).
fn trim_span(cs: &Vec<char>, from: usize, to: usize) -> (r: (usize, usize))
    requires
        from <= to <= cs@.len(),
    ensures
        r.0 == trim_lo(cs@, from as int, to as int),
        r.1 == trim_hi(cs@, r.0 as int, to as int),
        from <= r.0 <= r.1 <= to,
{
    let mut a = from;
    while a < to && white_space(cs[a])
        invariant
            from <= a <= to <= cs@.len(),
            trim_lo(cs@, from as int, to as int) == trim_lo(cs@, a as int, to as int),
        decreases to - a,
    {
        a = a + 1;
    }
    let mut b = to;
    while b > a && white_space(cs[b - 1])
        invariant
            a <= b <= to <= cs@.len(),
            trim_hi(cs@, a as int, to as int) == trim_hi(cs@, a as int, b as int),
        decreases b - a,
    {
        b = b - 1;
    }
    (a, b)
}

/// `s` holds `pat` from index `i` on.
pub open spec fn has_at(s: Seq<char>, i: int, pat: Seq<char>) -> bool {
    0 <= i && i + pat.len() <= s.len() && s.subrange(i, i + pat.len()) == pat
}

/// Whether `cs` holds `pat` from index `i` on.
fn matches_at(cs: &Vec<char>, i: usize, pat: &[char]) -> (r: bool)
    ensures
        r == has_at(cs@, i as int, pat@),
{
    if i > cs.len() || pat.len() > cs.len() - i {
        return false;
    }
    let n = cs.len();
    let mut k: usize = 0;
    while k < pat.len()
        invariant
            k <= pat@.len(),
            cs@.len() == n,
            i + pat@.len() <= n,
            forall|j: int| 0 <= j < k ==> cs@[i + j] == pat@[j],
        decreases pat@.len() - k,
    {
        if cs[i + k] != pat[k] {
            assert(cs@.subrange(i as int, i + pat@.len())[k as int] != pat@[k as int]);
            return false;
        }
        k = k + 1;
    }
    assert(cs@.subrange(i as int, i + pat@.len()) =~= pat@);
    true
}

/// Whether `cs[from..to]` is exactly `pat`.
fn span_is(cs: &Vec<char>, from: usize, to: usize, pat: &[char]) -> (r: bool)
    requires
        from <= to <= cs@.len(),
    ensures
        r == (cs@.subrange(from as int, to as int) == pat@),
{
    if to - from != pat.len() {
        return false;
    }
    matches_at(cs, from, pat)
}

/// Whether `cs[from..to]` contains `c`.
fn span_contains(cs: &Vec<char>, from: usize, to: usize, c: char) -> (r: bool)
    requires
        from <= to <= cs@.len(),
    ensures
        r == cs@.subrange(from as int, to as int).contains(c),
{
    let r = find_char(cs, from, to, c, c);
    proof {
        lemma_find_in(cs@, from as int, to as int, c, c);
        let sub = cs@.subrange(from as int, to as int);
        if r is Some {
            let k = r->0 as int;
            assert(sub[k - from] == c);
        } else {
            assert forall|j: int| 0 <= j < sub.len() implies sub[j] != c by {
                assert(sub[j] == cs@[from + j]);
            }
        }
    }
    r.is_some()
}


pub open spec fn begin_marker() -> Seq<char> {
    seq!['B', 'E', 'G', 'I', 'N', ':', 'V', 'E', 'V', 'E', 'N', 'T']
}

pub open spec fn end_marker() -> Seq<char> {
    seq!['E', 'N', 'D', ':', 'V', 'E', 'V', 'E', 'N', 'T']
}

/// Length of `BEGIN:VEVENT` and the line break (`\r\n` or `\n`) that
/// follows it at index `i`, or 0 where there is no such header.
pub open spec fn header_length(s: Seq<char>, i: int) -> int {
    if has_at(s, i, begin_marker()) && has_at(s, i + 12, seq!['\r', '\n']) {
        14
    } else if has_at(s, i, begin_marker()) && has_at(s, i + 12, seq!['\n']) {
        13
    } else {
        0
    }
}

/// A line break (`\r\n` or `\n`) followed by `END:VEVENT` at index `q`.
pub open spec fn is_footer(s: Seq<char>, q: int) -> bool {
    has_at(s, q, seq!['\r', '\n'] + end_marker()) || has_at(s, q, seq!['\n'] + end_marker())
}

/// The first header at or after `i`.
pub open spec fn first_header_from(s: Seq<char>, i: int) -> Option<int>
    decreases s.len() - i,
{
    if i >= s.len() {
        None
    } else if header_length(s, i) > 0 {
        Some(i)
    } else {
        first_header_from(s, i + 1)
    }
}

/// The first footer at or after `q`.
pub open spec fn first_footer_from(s: Seq<char>, q: int) -> Option<int>
    decreases s.len() - q,
{
    if q >= s.len() {
        None
    } else if is_footer(s, q) {
        Some(q)
    } else {
        first_footer_from(s, q + 1)
    }
}

/// The span of the first event's lines: from after the first header to
/// the first footer that leaves at least one character between them (the
/// leftmost, shortest match of `(?s)BEGIN:VEVENT\r?\n(.+?)\r?\nEND:VEVENT`).
pub open spec fn event_body(s: Seq<char>) -> Option<(int, int)> {
    match first_header_from(s, 0) {
        Some(h) => {
            let p = h + header_length(s, h);
            match first_footer_from(s, p + 1) {
                Some(q) => Some((p, q)),
                None => None,
            }
        },
        None => None,
    }
}

proof fn lemma_first_footer(s: Seq<char>, q: int)
    requires
        0 <= q,
    ensures
        first_footer_from(s, q) matches Some(f) ==> q <= f < s.len(),
    decreases s.len() - q,
{
    if q < s.len() {
        lemma_first_footer(s, q + 1);
    }
}

/// The length of the event header at index `i` (0 if there is none).
fn header_length_at(cs: &Vec<char>, i: usize) -> (r: usize)
    ensures
        r == header_length(cs@, i as int),
        r > 0 ==> i + r <= cs@.len(),
{
    let begin: [char; 12] = ['B', 'E', 'G', 'I', 'N', ':', 'V', 'E', 'V', 'E', 'N', 'T'];
    let crlf: [char; 2] = ['\r', '\n'];
    let lf: [char; 1] = ['\n'];
    assert(begin@ =~= begin_marker());
    assert(crlf@ =~= seq!['\r', '\n']);
    assert(lf@ =~= seq!['\n']);
    let n = cs.len();
    if !matches_at(cs, i, &begin) {
        return 0;
    }
    assert(i + 12 <= n);
    if matches_at(cs, i + 12, &crlf) {
        14
    } else if matches_at(cs, i + 12, &lf) {
        13
    } else {
        0
    }
}

/// Whether an event footer starts at index `q`.
fn footer_at(cs: &Vec<char>, q: usize) -> (r: bool)
    ensures
        r == is_footer(cs@, q as int),
{
    let crlf_end: [char; 12] = ['\r', '\n', 'E', 'N', 'D', ':', 'V', 'E', 'V', 'E', 'N', 'T'];
    let lf_end: [char; 11] = ['\n', 'E', 'N', 'D', ':', 'V', 'E', 'V', 'E', 'N', 'T'];
    assert(crlf_end@ =~= seq!['\r', '\n'] + end_marker());
    assert(lf_end@ =~= seq!['\n'] + end_marker());
    matches_at(cs, q, &crlf_end) || matches_at(cs, q, &lf_end)
}

/// Finds the span of the first event's lines.
fn find_event_body(cs: &Vec<char>) -> (r: Option<(usize, usize)>)
    ensures
        match r {
            Some((p, q)) => event_body(cs@) == Some((p as int, q as int)) && p <= q <= cs@.len(),
            None => event_body(cs@) is None,
        },
{
    let n = cs.len();
    let mut h: usize = 0;
    while h < n && header_length_at(cs, h) == 0
        invariant
            n == cs@.len(),
            h <= n,
            first_header_from(cs@, 0) == first_header_from(cs@, h as int),
        decreases n - h,
    {
        h = h + 1;
    }
    if h >= n {
        return None;
    }
    let p = h + header_length_at(cs, h);
    if p >= n {
        proof {
            lemma_first_footer(cs@, p + 1);
        }
        return None;
    }
    let mut q = p + 1;
    while q < n && !footer_at(cs, q)
        invariant
            n == cs@.len(),
            p < q,
            p < n,
            first_footer_from(cs@, p + 1) == first_footer_from(cs@, q as int),
        decreases n - q,
    {
        q = q + 1;
    }
    if q >= n {
        None
    } else {
        Some((p, q))
    }
}


/// What the lines of an event have set so far.
pub struct IcsFields {
    pub summary: Seq<char>,
    pub location: Seq<char>,
    pub start: Option<DateTime>,
    pub end: Option<DateTime>,
    pub all_day: bool,
}

pub open spec fn no_fields() -> IcsFields {
    IcsFields { summary: Seq::empty(), location: Seq::empty(), start: None, end: None, all_day: false }
}

pub open spec fn summary_key() -> Seq<char> {
    seq!['S', 'U', 'M', 'M', 'A', 'R', 'Y']
}

pub open spec fn location_key() -> Seq<char> {
    seq!['L', 'O', 'C', 'A', 'T', 'I', 'O', 'N']
}

pub open spec fn dtstart_key() -> Seq<char> {
    seq!['D', 'T', 'S', 'T', 'A', 'R', 'T']
}

pub open spec fn dtend_key() -> Seq<char> {
    seq!['D', 'T', 'E', 'N', 'D']
}

/// A property line `s[lo..hi]` of the form `NAME[;PARAMS]:VALUE`, with a
/// non-empty name free of `:` and `;`: the end of the name and the start of
/// the value (just after the first `:`).
pub open spec fn property_split(s: Seq<char>, lo: int, hi: int) -> Option<(int, int)> {
    match (find_in(s, lo, hi, ':', ';'), find_in(s, lo, hi, ':', ':')) {
        (Some(i), Some(j)) => if i > lo { Some((i, j + 1)) } else { None },
        _ => None,
    }
}

/// The UTF-8 bytes of the value `s[vs..hi]` without surrounding white space.
pub open spec fn value_bytes(s: Seq<char>, vs: int, hi: int) -> Seq<u8> {
    let t0 = trim_lo(s, vs, hi);
    let t1 = trim_hi(s, t0, hi);
    vstd::utf8::encode_utf8(s.subrange(t0, t1))
}

/// The line `s[a..b]`, once trimmed, names a start or an end whose value
/// cannot be cut as a date-time.
pub open spec fn line_faults(s: Seq<char>, a: int, b: int) -> bool {
    let lo = trim_lo(s, a, b);
    let hi = trim_hi(s, lo, b);
    match property_split(s, lo, hi) {
        Some((ke, vs)) => {
            let key = s.subrange(lo, ke);
            (key == dtstart_key() || key == dtend_key()) && ics_dt_faults(value_bytes(s, vs, hi))
        },
        None => false,
    }
}

/// The fields once the line `s[a..b]` is read: `SUMMARY` sets the summary
/// to its value, `LOCATION` the location, `DTSTART` the start (and makes the event last whole days
/// when its value holds neither `T` nor `Z`), `DTEND` the end; other lines
/// change nothing.
pub open spec fn apply_line(s: Seq<char>, a: int, b: int, st: IcsFields) -> IcsFields {
    let lo = trim_lo(s, a, b);
    let hi = trim_hi(s, lo, b);
    match property_split(s, lo, hi) {
        Some((ke, vs)) => {
            let key = s.subrange(lo, ke);
            let value = s.subrange(vs, hi);
            if key == summary_key() {
                IcsFields { summary: value, location: st.location, start: st.start, end: st.end, all_day: st.all_day }
            } else if key == location_key() {
                IcsFields { summary: st.summary, location: value, start: st.start, end: st.end, all_day: st.all_day }
            } else if key == dtstart_key() {
                IcsFields {
                    summary: st.summary,
                    location: st.location,
                    start: ics_dt_value(value_bytes(s, vs, hi)),
                    end: st.end,
                    all_day: st.all_day || (!value.contains('T') && !value.contains('Z')),
                }
            } else if key == dtend_key() {
                IcsFields {
                    summary: st.summary,
                    location: st.location,
                    start: st.start,
                    end: ics_dt_value(value_bytes(s, vs, hi)),
                    all_day: st.all_day,
                }
            } else {
                st
            }
        },
        None => st,
    }
}

/// The fields once the lines of `s[ls..q]` (split at `\n`) are read in
/// order, from `st` on.
pub open spec fn scan_fields(s: Seq<char>, ls: int, q: int, st: IcsFields) -> IcsFields
    decreases q - ls,
{
    match find_in(s, ls, q, '\n', '\n') {
        Some(k) => {
            proof {
                lemma_find_in(s, ls, q, '\n', '\n');
            }
            scan_fields(s, k + 1, q, apply_line(s, ls, k, st))
        },
        None => apply_line(s, ls, q, st),
    }
}

/// Some line of `s[ls..q]` faults.
pub open spec fn scan_faults(s: Seq<char>, ls: int, q: int) -> bool
    decreases q - ls,
{
    match find_in(s, ls, q, '\n', '\n') {
        Some(k) => {
            proof {
                lemma_find_in(s, ls, q, '\n', '\n');
            }
            line_faults(s, ls, k) || scan_faults(s, k + 1, q)
        },
        None => line_faults(s, ls, q),
    }
}

/// The fields of the first event of an iCalendar text, if it has one.
pub open spec fn ics_fields(s: Seq<char>) -> Option<IcsFields> {
    match event_body(s) {
        Some((p, q)) => Some(scan_fields(s, p, q, no_fields())),
        None => None,
    }
}

/// Reading the first event of the text meets a start or end value that
/// cannot be cut as a date-time.
pub open spec fn ics_faults(s: Seq<char>) -> bool {
    match event_body(s) {
        Some((p, q)) => scan_faults(s, p, q),
        None => false,
    }
}

/// The fields read so far, with the summary held as a span of the text.
struct LineFields {
    summary_from: usize,
    summary_to: usize,
    location_from: usize,
    location_to: usize,
    start: Option<DateTime>,
    end: Option<DateTime>,
    all_day: bool,
}

impl LineFields {
    spec fn fields(self, s: Seq<char>) -> IcsFields {
        IcsFields {
            summary: s.subrange(self.summary_from as int, self.summary_to as int),
            location: s.subrange(self.location_from as int, self.location_to as int),
            start: self.start,
            end: self.end,
            all_day: self.all_day,
        }
    }

    spec fn within(self, len: int) -> bool {
        &&& self.summary_from <= self.summary_to <= len
        &&& self.location_from <= self.location_to <= len
    }
}

/// Reads the date-time value `cs[vs..hi]`.
fn value_date_time(content: &str, cs: &Vec<char>, vs: usize, hi: usize) -> (r: Result<Option<DateTime>, ()>)
    requires
        cs@ == content@,
        vs <= hi <= cs@.len(),
    ensures
        r is Err <==> ics_dt_faults(value_bytes(cs@, vs as int, hi as int)),
        r matches Ok(v) ==> v == ics_dt_value(value_bytes(cs@, vs as int, hi as int)),
{
    let (t0, t1) = trim_span(cs, vs, hi);
    let piece = content.substring_char(t0, t1);
    let bytes = piece.as_bytes();
    proof {
        vstd::utf8::encode_utf8_valid_utf8(piece@);
    }
    ics_dt_from_bytes(bytes)
}

/// Reads the line `cs[a..b]`: `Err` exactly when it faults.
fn read_line(content: &str, cs: &Vec<char>, a: usize, b: usize, st: LineFields) -> (r: Result<LineFields, ()>)
    requires
        cs@ == content@,
        a <= b <= cs@.len(),
        st.within(cs@.len() as int),
    ensures
        r is Err <==> line_faults(cs@, a as int, b as int),
        r matches Ok(n) ==> n.within(cs@.len() as int) && n.fields(cs@) == apply_line(cs@, a as int, b as int, st.fields(cs@)),
{
    let summary: [char; 7] = ['S', 'U', 'M', 'M', 'A', 'R', 'Y'];
    let dtstart: [char; 7] = ['D', 'T', 'S', 'T', 'A', 'R', 'T'];
    let dtend: [char; 5] = ['D', 'T', 'E', 'N', 'D'];
    let location: [char; 8] = ['L', 'O', 'C', 'A', 'T', 'I', 'O', 'N'];
    assert(summary@ =~= summary_key());
    assert(location@ =~= location_key());
    assert(dtstart@ =~= dtstart_key());
    assert(dtend@ =~= dtend_key());
    let (lo, hi) = trim_span(cs, a, b);
    let delim = find_char(cs, lo, hi, ':', ';');
    let colon = find_char(cs, lo, hi, ':', ':');
    proof {
        lemma_find_in(cs@, lo as int, hi as int, ':', ';');
        lemma_find_in(cs@, lo as int, hi as int, ':', ':');
    }
    let (ke, vs) = match (delim, colon) {
        (Some(i), Some(j)) => {
            if i > lo {
                (i, j + 1)
            } else {
                return Ok(st);
            }
        },
        _ => return Ok(st),
    };
    assert(property_split(cs@, lo as int, hi as int) == Some((ke as int, vs as int)));
    if span_is(cs, lo, ke, &summary) {
        Ok(LineFields {
            summary_from: vs,
            summary_to: hi,
            location_from: st.location_from,
            location_to: st.location_to,
            start: st.start,
            end: st.end,
            all_day: st.all_day,
        })
    } else if span_is(cs, lo, ke, &location) {
        Ok(LineFields {
            summary_from: st.summary_from,
            summary_to: st.summary_to,
            location_from: vs,
            location_to: hi,
            start: st.start,
            end: st.end,
            all_day: st.all_day,
        })
    } else if span_is(cs, lo, ke, &dtstart) {
        let has_t = span_contains(cs, vs, hi, 'T');
        let has_z = span_contains(cs, vs, hi, 'Z');
        let start = value_date_time(content, cs, vs, hi)?;
        Ok(LineFields {
            summary_from: st.summary_from,
            summary_to: st.summary_to,
            location_from: st.location_from,
            location_to: st.location_to,
            start,
            end: st.end,
            all_day: st.all_day || (!has_t && !has_z),
        })
    } else if span_is(cs, lo, ke, &dtend) {
        let end = value_date_time(content, cs, vs, hi)?;
        Ok(LineFields {
            summary_from: st.summary_from,
            summary_to: st.summary_to,
            location_from: st.location_from,
            location_to: st.location_to,
            start: st.start,
            end,
            all_day: st.all_day,
        })
    } else {
        Ok(st)
    }
}


/// `r` is what reading the first event of the text `s` gives: nothing when
/// the text has no event or the event has neither summary nor start, and
/// otherwise an event in the file colour with the fields its lines set.
pub open spec fn is_read_event(s: Seq<char>, r: Option<CalendarEvent>) -> bool {
    match ics_fields(s) {
        None => r is None,
        Some(f) => if f.summary.len() == 0 && f.start is None {
            r is None
        } else {
            &&& r matches Some(e)
            &&& e.summary@ == f.summary
            &&& e.location@ == f.location
            &&& e.start_time == f.start
            &&& e.end_time == f.end
            &&& e.all_day == f.all_day
            &&& e.color == FILE_EVENT_COLOR
        },
    }
}

/// Reads the first event of an iCalendar text: `Err` exactly when a start
/// or end value faults.
fn read_ics_event(content: &str) -> (r: Result<Option<CalendarEvent>, ()>)
    ensures
        r is Err <==> ics_faults(content@),
        r matches Ok(v) ==> is_read_event(content@, v),
{
    let cs = chars_of(content);
    let (p, q) = match find_event_body(&cs) {
        Some(span) => span,
        None => return Ok(None),
    };
    let ghost s = cs@;
    let mut st = LineFields {
        summary_from: 0,
        summary_to: 0,
        location_from: 0,
        location_to: 0,
        start: None,
        end: None,
        all_day: false,
    };
    assert(st.fields(s) == no_fields()) by {
        assert(s.subrange(0, 0) =~= Seq::<char>::empty());
    }
    let mut ls = p;
    let mut next = find_char(&cs, ls, q, '\n', '\n');
    while next.is_some()
        invariant
            s == cs@,
            cs@ == content@,
            event_body(s) == Some((p as int, q as int)),
            p <= ls <= q <= cs@.len(),
            st.within(cs@.len() as int),
            scan_fields(s, p as int, q as int, no_fields()) == scan_fields(s, ls as int, q as int, st.fields(s)),
            scan_faults(s, p as int, q as int) == scan_faults(s, ls as int, q as int),
            match next {
                Some(k) => find_in(s, ls as int, q as int, '\n', '\n') == Some(k as int),
                None => find_in(s, ls as int, q as int, '\n', '\n') is None,
            },
        decreases q - ls,
    {
        let k = next.unwrap();
        proof {
            lemma_find_in(s, ls as int, q as int, '\n', '\n');
        }
        st = match read_line(content, &cs, ls, k, st) {
            Ok(n) => n,
            Err(e) => {
                assert(scan_faults(s, ls as int, q as int));
                return Err(e);
            },
        };
        ls = k + 1;
        next = find_char(&cs, ls, q, '\n', '\n');
    }
    st = read_line(content, &cs, ls, q, st)?;
    if st.summary_from == st.summary_to && st.start.is_none() {
        return Ok(None);
    }
    let summary = content.substring_char(st.summary_from, st.summary_to).to_owned();
    let location = content.substring_char(st.location_from, st.location_to).to_owned();
    Ok(Some(CalendarEvent {
        summary,
        location,
        start_time: st.start,
        end_time: st.end,
        all_day: st.all_day,
        color: FILE_EVENT_COLOR,
    }))
}

/// Reads the first event of an iCalendar text (a calendar file, or an
/// object stored by the Evolution Data Server). The text must not hold a
/// start or end value that a date-time reading cuts inside a character.
pub fn parse_ics_event(content: &str) -> (r: Option<CalendarEvent>)
    requires
        !ics_faults(content@),
    ensures
        is_read_event(content@, r),
        r matches Some(e) ==> e.wf(),
{
    match read_ics_event(content) {
        Ok(v) => v,
        Err(_) => None,
    }
}

/// Whether reading the first event of the text meets a start or end value
/// that a date-time reading cuts inside a character (the one input on
/// which `parse_ics_event` may not be called).
pub fn ics_event_faults(content: &str) -> (r: bool)
    ensures
        r == ics_faults(content@),
{
    read_ics_event(content).is_err()
}

/// Reads an iCalendar date or date-time value, `YYYYMMDD` or
/// `YYYYMMDDTHHMMSS`, after removing surrounding white space. Its cuts must
/// not fall inside a character.
pub fn parse_ics_dt(dt_str: &str) -> (r: Option<DateTime>)
    requires
        !ics_dt_faults(value_bytes(dt_str@, 0, dt_str@.len() as int)),
    ensures
        r == ics_dt_value(value_bytes(dt_str@, 0, dt_str@.len() as int)),
        r matches Some(t) ==> t.is_valid(),
{
    let cs = chars_of(dt_str);
    match value_date_time(dt_str, &cs, 0, cs.len()) {
        Ok(v) => v,
        Err(_) => None,
    }
}

/// Whether reading the date-time value cuts it inside a character.
pub fn ics_dt_faults_in(dt_str: &str) -> (r: bool)
    ensures
        r == ics_dt_faults(value_bytes(dt_str@, 0, dt_str@.len() as int)),
{
    let cs = chars_of(dt_str);
    value_date_time(dt_str, &cs, 0, cs.len()).is_err()
}


/// A date written `YYYYMMDD` (for years of four digits).
pub open spec fn ics_date_stamp(d: Date) -> Seq<char> {
    two_digits(d.year as int / 100) + two_digits(d.year as int % 100) + two_digits(d.month as int)
        + two_digits(d.day as int)
}

/// A date-time written `YYYYMMDDTHHMMSS` (for years of four digits).
pub open spec fn ics_date_time_stamp(t: DateTime) -> Seq<char> {
    ics_date_stamp(t.date) + seq!['T'] + two_digits(t.hour as int) + two_digits(t.minute as int)
        + two_digits(t.second as int)
}

/// Two ASCII digits at `i` read as their value.
proof fn lemma_two_digit_field(b: Seq<u8>, i: int, v: int)
    requires
        0 <= v < 100,
        0 <= i,
        i + 2 <= b.len(),
        b[i] == 48 + v / 10,
        b[i + 1] == 48 + v % 10,
    ensures
        int_at(b, i, i + 2, false) == Some(v),
{
    let bs = b.subrange(i, i + 2);
    assert(bs.drop_last() =~= seq![b[i]]);
    assert(seq![b[i]].drop_last() =~= Seq::<u8>::empty());
    reveal_with_fuel(digits_value, 3);
}

/// Four ASCII digits at the start read as their value.
proof fn lemma_four_digit_field(b: Seq<u8>, v: int)
    requires
        1000 <= v < 10000,
        4 <= b.len(),
        b[0] == 48 + v / 1000,
        b[1] == 48 + v / 100 % 10,
        b[2] == 48 + v % 100 / 10,
        b[3] == 48 + v % 10,
    ensures
        int_at(b, 0, 4, true) == Some(v),
{
    let bs = b.subrange(0, 4);
    assert(bs.drop_last() =~= seq![b[0], b[1], b[2]]);
    assert(seq![b[0], b[1], b[2]].drop_last() =~= seq![b[0], b[1]]);
    assert(seq![b[0], b[1]].drop_last() =~= seq![b[0]]);
    assert(seq![b[0]].drop_last() =~= Seq::<u8>::empty());
    reveal_with_fuel(digits_value, 5);
}

/// The characters of a written date-time.
proof fn lemma_stamp_chars(t: DateTime)
    requires
        t.is_valid(),
        1000 <= t.date.year <= 9999,
    ensures
        ({
            let s = ics_date_time_stamp(t);
            let y = t.date.year as int;
            &&& s.len() == 15
            &&& ics_date_stamp(t.date) == s.subrange(0, 8)
            &&& s[0] as u8 == 48 + y / 1000
            &&& s[1] as u8 == 48 + y / 100 % 10
            &&& s[2] as u8 == 48 + y % 100 / 10
            &&& s[3] as u8 == 48 + y % 10
            &&& s[4] as u8 == 48 + t.date.month / 10
            &&& s[5] as u8 == 48 + t.date.month % 10
            &&& s[6] as u8 == 48 + t.date.day / 10
            &&& s[7] as u8 == 48 + t.date.day % 10
            &&& s[8] == 'T'
            &&& s[9] as u8 == 48 + t.hour / 10
            &&& s[10] as u8 == 48 + t.hour % 10
            &&& s[11] as u8 == 48 + t.minute / 10
            &&& s[12] as u8 == 48 + t.minute % 10
            &&& s[13] as u8 == 48 + t.second / 10
            &&& s[14] as u8 == 48 + t.second % 10
            &&& vstd::utf8::is_ascii_chars(s)
            &&& !is_white_space(s[0]) && !is_white_space(s[7]) && !is_white_space(s[14])
        }),
{
    let y = t.date.year as int;
    lemma_two_digits(y / 100);
    lemma_two_digits(y % 100);
    lemma_two_digits(t.date.month as int);
    lemma_two_digits(t.date.day as int);
    lemma_two_digits(t.hour as int);
    lemma_two_digits(t.minute as int);
    lemma_two_digits(t.second as int);
    lemma_digit_text(y / 100 / 10);
    lemma_digit_text(y / 100 % 10);
    lemma_digit_text(y % 100 / 10);
    lemma_digit_text(y % 100 % 10);
    lemma_digit_text(t.date.month as int / 10);
    lemma_digit_text(t.date.month as int % 10);
    lemma_digit_text(t.date.day as int / 10);
    lemma_digit_text(t.date.day as int % 10);
    lemma_digit_text(t.hour as int / 10);
    lemma_digit_text(t.hour as int % 10);
    lemma_digit_text(t.minute as int / 10);
    lemma_digit_text(t.minute as int % 10);
    lemma_digit_text(t.second as int / 10);
    lemma_digit_text(t.second as int % 10);
    assert(y / 100 / 10 == y / 1000 && y % 100 % 10 == y % 10);
    let s = ics_date_time_stamp(t);
    assert(ics_date_stamp(t.date) =~= s.subrange(0, 8));
    assert(vstd::utf8::is_ascii_chars(s));
}

/// The bytes of a written date-time (or of its date part, `n` = 8) are its
/// characters, untouched by trimming, and every index starts a character.
proof fn lemma_stamp_bytes(t: DateTime, s: Seq<char>, n: int)
    requires
        t.is_valid(),
        1000 <= t.date.year <= 9999,
        (n == 8 && s == ics_date_stamp(t.date)) || (n == 15 && s == ics_date_time_stamp(t)),
    ensures
        value_bytes(s, 0, n) == vstd::utf8::encode_utf8(s),
        vstd::utf8::encode_utf8(s).len() == n,
        forall|k: int| 0 <= k < n ==> vstd::utf8::encode_utf8(s)[k] == (#[trigger] ics_date_time_stamp(t)[k]) as u8,
        forall|k: int| 0 <= k <= n ==> #[trigger] is_char_boundary(vstd::utf8::encode_utf8(s), k),
{
    lemma_stamp_chars(t);
    assert(vstd::utf8::is_ascii_chars(s));
    vstd::utf8::is_ascii_chars_encode_utf8(s);
    vstd::utf8::encode_utf8_valid_utf8(s);
    let b = vstd::utf8::encode_utf8(s);
    assert(trim_lo(s, 0, n) == 0);
    assert(trim_hi(s, 0, n) == n);
    assert(s.subrange(0, n) =~= s);
    assert forall|k: int| 0 <= k <= n implies #[trigger] is_char_boundary(b, k) by {
        if k == n {
            vstd::utf8::is_char_boundary_start_end_of_seq(b);
        } else {
            vstd::utf8::is_char_boundary_iff_not_is_continuation_byte(b, k);
        }
    }
}

/// Reading back a written date-time gives it again: `YYYYMMDDTHHMMSS`
/// reads as that date-time, and `YYYYMMDD` as midnight of that day, for
/// years of four digits, without a fault.
pub proof fn law_ics_stamp_round_trip(t: DateTime)
    requires
        t.is_valid(),
        1000 <= t.date.year <= 9999,
        t.nanosecond == 0,
    ensures
        !ics_dt_faults(value_bytes(ics_date_time_stamp(t), 0, 15)),
        ics_dt_value(value_bytes(ics_date_time_stamp(t), 0, 15)) == Some(t),
        !ics_dt_faults(value_bytes(ics_date_stamp(t.date), 0, 8)),
        ics_dt_value(value_bytes(ics_date_stamp(t.date), 0, 8)) == Some(
            DateTime { date: t.date, hour: 0, minute: 0, second: 0, nanosecond: 0 },
        ),
{
    lemma_stamp_chars(t);
    lemma_stamp_bytes(t, ics_date_time_stamp(t), 15);
    lemma_stamp_bytes(t, ics_date_stamp(t.date), 8);
    let y = t.date.year as int;
    let b = value_bytes(ics_date_time_stamp(t), 0, 15);
    let b8 = value_bytes(ics_date_stamp(t.date), 0, 8);
    lemma_four_digit_field(b, y);
    lemma_two_digit_field(b, 4, t.date.month as int);
    lemma_two_digit_field(b, 6, t.date.day as int);
    lemma_two_digit_field(b, 9, t.hour as int);
    lemma_two_digit_field(b, 11, t.minute as int);
    lemma_two_digit_field(b, 13, t.second as int);
    lemma_four_digit_field(b8, y);
    lemma_two_digit_field(b8, 4, t.date.month as int);
    lemma_two_digit_field(b8, 6, t.date.day as int);
    assert(is_char_boundary(b, 4) && is_char_boundary(b, 6) && is_char_boundary(b, 8));
    assert(is_char_boundary(b, 9) && is_char_boundary(b, 11) && is_char_boundary(b, 13));
    assert(is_char_boundary(b, 15));
    assert(is_char_boundary(b8, 4) && is_char_boundary(b8, 6) && is_char_boundary(b8, 8));
}


/// A date-time value is read from its first fifteen bytes: when byte 8 is
/// `T`, whatever follows them (such as the UTC marker `Z`) does not change
/// the date-time it denotes.
pub proof fn law_ics_dt_first_fifteen_bytes(b: Seq<u8>)
    requires
        b.len() >= 15,
        b[8] == 0x54,
    ensures
        ics_dt_value(b) == ics_dt_value(b.subrange(0, 15)),
{
    let c = b.subrange(0, 15);
    assert(c.subrange(0, 4) =~= b.subrange(0, 4));
    assert(c.subrange(4, 6) =~= b.subrange(4, 6));
    assert(c.subrange(6, 8) =~= b.subrange(6, 8));
    assert(c.subrange(9, 11) =~= b.subrange(9, 11));
    assert(c.subrange(11, 13) =~= b.subrange(11, 13));
    assert(c.subrange(13, 15) =~= b.subrange(13, 15));
    assert(c[8] == b[8]);
}

/// A date value (no `T` at byte 8 of a value of fifteen bytes or more) is
/// read from its first eight bytes alone.
pub proof fn law_ics_dt_first_eight_bytes(b: Seq<u8>)
    requires
        b.len() >= 8,
        !(b.len() >= 15 && b[8] == 0x54),
    ensures
        ics_dt_value(b) == ics_dt_value(b.subrange(0, 8)),
{
    let c = b.subrange(0, 8);
    assert(c.subrange(0, 4) =~= b.subrange(0, 4));
    assert(c.subrange(4, 6) =~= b.subrange(4, 6));
    assert(c.subrange(6, 8) =~= b.subrange(6, 8));
}

/// A written date-time followed by one more character that is not white
/// space (such as the UTC marker `Z` of `20240301T100000Z`) still reads,
/// without a fault, as that date-time.
pub proof fn law_ics_stamp_with_marker(t: DateTime, marker: char)
    requires
        t.is_valid(),
        1000 <= t.date.year <= 9999,
        t.nanosecond == 0,
        marker <= '\u{7f}',
        !is_white_space(marker),
    ensures
        !ics_dt_faults(value_bytes(ics_date_time_stamp(t) + seq![marker], 0, 16)),
        ics_dt_value(value_bytes(ics_date_time_stamp(t) + seq![marker], 0, 16)) == Some(t),
{
    let st = ics_date_time_stamp(t);
    let s2 = st + seq![marker];
    lemma_stamp_chars(t);
    lemma_stamp_bytes(t, st, 15);
    law_ics_stamp_round_trip(t);
    assert(s2.len() == 16);
    assert(s2[0] == st[0] && s2[15] == marker);
    assert(trim_lo(s2, 0, 16) == 0);
    assert(trim_hi(s2, 0, 16) == 16);
    assert(s2.subrange(0, 16) =~= s2);
    assert(vstd::utf8::is_ascii_chars(s2)) by {
        assert forall|i: int| 0 <= i < s2.len() implies '\0' <= #[trigger] s2[i] <= '\u{7f}' by {
            if i < 15 {
                assert(s2[i] == st[i]);
            }
        }
    }
    vstd::utf8::is_ascii_chars_encode_utf8(s2);
    vstd::utf8::is_ascii_chars_encode_utf8(st);
    vstd::utf8::encode_utf8_valid_utf8(s2);
    let b = value_bytes(s2, 0, 16);
    assert(b == vstd::utf8::encode_utf8(s2));
    let b15 = value_bytes(st, 0, 15);
    assert(b.subrange(0, 15) =~= b15) by {
        assert forall|k: int| 0 <= k < 15 implies b.subrange(0, 15)[k] == b15[k] by {
            assert(s2[k] == st[k]);
            assert(b[k] == s2[k] as u8);
            assert(b15[k] == st[k] as u8);
        }
    }
    assert(b[8] == 0x54) by {
        assert(b[8] == s2[8] as u8);
        assert(s2[8] == st[8]);
    }
    law_ics_dt_first_fifteen_bytes(b);
    assert forall|k: int| 0 <= k <= 16 implies #[trigger] is_char_boundary(b, k) by {
        if k == 16 {
            vstd::utf8::is_char_boundary_start_end_of_seq(b);
        } else {
            vstd::utf8::is_char_boundary_iff_not_is_continuation_byte(b, k);
            assert(b[k] == s2[k] as u8);
        }
    }
    assert(is_char_boundary(b, 4) && is_char_boundary(b, 6) && is_char_boundary(b, 8));
    assert(is_char_boundary(b, 9) && is_char_boundary(b, 11) && is_char_boundary(b, 13));
    assert(is_char_boundary(b, 15));
}

} // verus!
