//! A small date-format language.
//!
//! Users write `YYYY-MM-DD` for a daily-note filename, not `%Y-%m-%d`. The
//! tokens below are the familiar ones from spreadsheet and note-taking tools,
//! implemented directly so the format string in settings means exactly what it
//! looks like and nothing else is reachable from it.
//!
//! ```text
//! YYYY  2026    MMMM  September   dddd  Thursday    HH  14
//! YY    26      MMM   Sep         ddd   Thu         mm  05
//! MM    09      DD    17          ww    38          ss  09
//! ```
use vstd::prelude::*;
use crate::strings::{decimal, push_char, push_decimal, push_str, to_chars};

verus! {

/// An instant read on the calendar of one UTC offset: everything a format
/// can print.
#[derive(Debug, Clone, Copy, PartialEq, Eq, Structural)]
pub struct DateParts {
    pub year: i32,
    /// 1 is January.
    pub month: u8,
    pub day: u8,
    /// Days since Monday, so Monday is 0.
    pub weekday: u8,
    pub hour: u8,
    pub minute: u8,
    pub second: u8,
    /// The ISO 8601 week number.
    pub iso_week: u8,
}

impl View for DateParts {
    type V = (i32, u8, u8, u8, u8, u8, u8, u8);

    open spec fn view(&self) -> (i32, u8, u8, u8, u8, u8, u8, u8) {
        (self.year, self.month, self.day, self.weekday, self.hour, self.minute, self.second, self.iso_week)
    }
}

impl DateParts {
    /// Every field within the range a calendar reading can take.
    pub open spec fn is_valid(self) -> bool {
        &&& 1 <= self.month <= 12
        &&& 1 <= self.day <= 31
        &&& self.weekday < 7
        &&& self.hour < 24
        &&& self.minute < 60
        &&& self.second < 60
        &&& 1 <= self.iso_week <= 53
    }
}

/// The fields of a calendar reading, back in a `DateParts`.
pub open spec fn parts_of(v: (i32, u8, u8, u8, u8, u8, u8, u8)) -> DateParts {
    DateParts {
        year: v.0,
        month: v.1,
        day: v.2,
        weekday: v.3,
        hour: v.4,
        minute: v.5,
        second: v.6,
        iso_week: v.7,
    }
}

/// The offsets `time::UtcOffset` can hold: up to 25:59:59 either side of
/// UTC.
pub open spec fn offset_in_range(offset_seconds: i32) -> bool {
    -93_599 <= offset_seconds <= 93_599
}

/// Whether the `time` crate can represent the instant `nanos` (nanoseconds
/// since the Unix epoch).
pub uninterp spec fn representable_instant(nanos: i128) -> bool;

/// Whether the instant `nanos` still falls within the `time` crate's years
/// once read on the calendar `offset_seconds` east of UTC.
pub uninterp spec fn representable_shift(nanos: i128, offset_seconds: i32) -> bool;

/// How the `time` crate reads the instant `nanos` on the calendar
/// `offset_seconds` east of UTC, for an instant, offset and shift it can
/// represent.
pub uninterp spec fn local_calendar(nanos: i128, offset_seconds: i32) -> (i32, u8, u8, u8, u8, u8, u8, u8);

/// Whether `OffsetDateTime::from_unix_timestamp_nanos` accepts `nanos`. The
/// epoch itself is accepted (the crate's documentation shows it).
#[verifier::external_body]
fn instant_fits(nanos: i128) -> (r: bool)
    ensures
        r == representable_instant(nanos),
        nanos == 0 ==> r,
{
    time::OffsetDateTime::from_unix_timestamp_nanos(nanos).is_ok()
}

/// Whether `OffsetDateTime::checked_to_offset` moves the instant to the
/// offset's calendar (`Some`) rather than past the last representable year.
/// The instant and the offset are built by `from_unix_timestamp_nanos` and
/// `UtcOffset::from_whole_seconds`, which the requirements make succeed. A
/// move to UTC, the offset the instant already has, always succeeds.
#[verifier::external_body]
fn shift_fits(nanos: i128, offset_seconds: i32) -> (r: bool)
    requires
        representable_instant(nanos),
        offset_in_range(offset_seconds),
    ensures
        r == representable_shift(nanos, offset_seconds),
        offset_seconds == 0 ==> r,
{
    let utc = time::OffsetDateTime::from_unix_timestamp_nanos(nanos).unwrap();
    let offset = time::UtcOffset::from_whole_seconds(offset_seconds).unwrap();
    utc.checked_to_offset(offset).is_some()
}

/// The calendar reading by the `time` crate: the instant from
/// `OffsetDateTime::from_unix_timestamp_nanos`, moved by `to_offset` to the
/// offset from `UtcOffset::from_whole_seconds`, and read by the date and
/// time getters. The requirements are the cases in which none of these
/// fails; the contract names the reading and claims only the field ranges
/// that `time` documents.
#[verifier::external_body]
fn read_calendar(nanos: i128, offset_seconds: i32) -> (r: DateParts)
    requires
        representable_instant(nanos),
        offset_in_range(offset_seconds),
        representable_shift(nanos, offset_seconds),
    ensures
        r@ == local_calendar(nanos, offset_seconds),
        r.is_valid(),
{
    let utc = time::OffsetDateTime::from_unix_timestamp_nanos(nanos).unwrap();
    let t = utc.to_offset(time::UtcOffset::from_whole_seconds(offset_seconds).unwrap());
    DateParts {
        year: t.year(),
        month: t.month() as u8,
        day: t.day(),
        weekday: t.weekday().number_days_from_monday(),
        hour: t.hour(),
        minute: t.minute(),
        second: t.second(),
        iso_week: t.iso_week(),
    }
}

/// The reading `at` gives: an instant `time` cannot represent reads as the
/// epoch, an offset beyond its range reads as UTC, and a shift past the last
/// representable year stays in UTC.
pub open spec fn reading_of(nanos: i128, offset_seconds: i32) -> (i32, u8, u8, u8, u8, u8, u8, u8) {
    let n = if representable_instant(nanos) {
        nanos
    } else {
        0
    };
    let o = if offset_in_range(offset_seconds) {
        offset_seconds
    } else {
        0
    };
    if representable_shift(n, o) {
        local_calendar(n, o)
    } else {
        local_calendar(n, 0)
    }
}

/// The instant `now_ms` (milliseconds since the Unix epoch) on the calendar
/// `offset_seconds` east of UTC.
pub fn at(now_ms: i64, offset_seconds: i32) -> (r: DateParts)
    ensures
        r@ == reading_of((now_ms * 1_000_000) as i128, offset_seconds),
        r.is_valid(),
{
    let nanos = now_ms as i128 * 1_000_000;
    let n: i128 = if instant_fits(nanos) {
        nanos
    } else {
        // The epoch is representable; the check's contract says so.
        let _epoch_fits = instant_fits(0);
        0
    };
    let o: i32 = if -93_599 <= offset_seconds && offset_seconds <= 93_599 {
        offset_seconds
    } else {
        0
    };
    if shift_fits(n, o) {
        read_calendar(n, o)
    } else {
        // Staying in UTC always succeeds; the check's contract says so.
        let _utc_fits = shift_fits(n, 0);
        read_calendar(n, 0)
    }
}

pub open spec fn month_name(m: int) -> Seq<char> {
    if m == 1 {
        "January"@
    } else if m == 2 {
        "February"@
    } else if m == 3 {
        "March"@
    } else if m == 4 {
        "April"@
    } else if m == 5 {
        "May"@
    } else if m == 6 {
        "June"@
    } else if m == 7 {
        "July"@
    } else if m == 8 {
        "August"@
    } else if m == 9 {
        "September"@
    } else if m == 10 {
        "October"@
    } else if m == 11 {
        "November"@
    } else {
        "December"@
    }
}

/// Weekday names, Monday first.
pub open spec fn weekday_name(d: int) -> Seq<char> {
    if d == 0 {
        "Monday"@
    } else if d == 1 {
        "Tuesday"@
    } else if d == 2 {
        "Wednesday"@
    } else if d == 3 {
        "Thursday"@
    } else if d == 4 {
        "Friday"@
    } else if d == 5 {
        "Saturday"@
    } else {
        "Sunday"@
    }
}

fn month_name_str(m: u8) -> (s: &'static str)
    requires
        1 <= m <= 12,
    ensures
        s@ == month_name(m as int),
{
    if m == 1 {
        "January"
    } else if m == 2 {
        "February"
    } else if m == 3 {
        "March"
    } else if m == 4 {
        "April"
    } else if m == 5 {
        "May"
    } else if m == 6 {
        "June"
    } else if m == 7 {
        "July"
    } else if m == 8 {
        "August"
    } else if m == 9 {
        "September"
    } else if m == 10 {
        "October"
    } else if m == 11 {
        "November"
    } else {
        "December"
    }
}

fn weekday_name_str(d: u8) -> (s: &'static str)
    requires
        d < 7,
    ensures
        s@ == weekday_name(d as int),
{
    if d == 0 {
        "Monday"
    } else if d == 1 {
        "Tuesday"
    } else if d == 2 {
        "Wednesday"
    } else if d == 3 {
        "Thursday"
    } else if d == 4 {
        "Friday"
    } else if d == 5 {
        "Saturday"
    } else {
        "Sunday"
    }
}

/// The first three characters, the short form of a name.
pub open spec fn abbreviated(s: Seq<char>) -> Seq<char> {
    if s.len() < 3 {
        s
    } else {
        s.take(3)
    }
}

pub open spec fn zeros(n: nat) -> Seq<char>
    decreases n,
{
    if n == 0 {
        Seq::<char>::empty()
    } else {
        zeros((n - 1) as nat).push('0')
    }
}

/// `format!("{:0width$}", n)`: the digits, led by zeros up to `width`.
pub open spec fn zero_padded(n: nat, width: nat) -> Seq<char> {
    let d = decimal(n);
    if d.len() < width {
        zeros((width - d.len()) as nat) + d
    } else {
        d
    }
}

/// The same for a signed number: the sign counts towards the width and the
/// zeros go after it.
pub open spec fn signed_padded(n: int, width: nat) -> Seq<char> {
    if n < 0 {
        seq!['-'] + zero_padded((-n) as nat, if width > 0 { (width - 1) as nat } else { 0 })
    } else {
        zero_padded(n as nat, width)
    }
}

/// `n % 100` as Rust computes it: the remainder takes the sign of `n`.
pub open spec fn last_two_digits(n: int) -> int {
    if n >= 0 {
        n % 100
    } else {
        -((-n) % 100)
    }
}

/// What a run of `run` copies of `c` prints.
pub open spec fn token(c: char, run: nat, d: DateParts) -> Seq<char> {
    if c == 'Y' && run == 4 {
        signed_padded(d.year as int, 4)
    } else if c == 'Y' && run == 2 {
        signed_padded(last_two_digits(d.year as int), 2)
    } else if c == 'M' && run == 4 {
        month_name(d.month as int)
    } else if c == 'M' && run == 3 {
        abbreviated(month_name(d.month as int))
    } else if c == 'M' && run == 2 {
        zero_padded(d.month as nat, 2)
    } else if c == 'M' && run == 1 {
        decimal(d.month as nat)
    } else if c == 'D' && run == 2 {
        zero_padded(d.day as nat, 2)
    } else if c == 'D' && run == 1 {
        decimal(d.day as nat)
    } else if c == 'd' && run == 4 {
        weekday_name(d.weekday as int)
    } else if c == 'd' && run == 3 {
        abbreviated(weekday_name(d.weekday as int))
    } else if c == 'H' && run == 2 {
        zero_padded(d.hour as nat, 2)
    } else if c == 'H' && run == 1 {
        decimal(d.hour as nat)
    } else if c == 'm' && run == 2 {
        zero_padded(d.minute as nat, 2)
    } else if c == 'm' && run == 1 {
        decimal(d.minute as nat)
    } else if c == 's' && run == 2 {
        zero_padded(d.second as nat, 2)
    } else if c == 's' && run == 1 {
        decimal(d.second as nat)
    } else if c == 'w' && run == 2 {
        zero_padded(d.iso_week as nat, 2)
    } else {
        Seq::new(run, |_k: int| c)
    }
}

/// How many copies of `p[i]` stand in a row from `i`.
pub open spec fn run_len(p: Seq<char>, i: int) -> nat
    decreases p.len() - i,
{
    if 0 <= i && i + 1 < p.len() && p[i + 1] == p[i] {
        1 + run_len(p, i + 1)
    } else {
        1
    }
}

pub proof fn lemma_run_len_bound(p: Seq<char>, i: int)
    requires
        0 <= i < p.len(),
    ensures
        i + run_len(p, i) <= p.len(),
    decreases p.len() - i,
{
    if i + 1 < p.len() && p[i + 1] == p[i] {
        lemma_run_len_bound(p, i + 1);
    }
}

proof fn lemma_run_len(p: Seq<char>, i: int, r: int)
    requires
        0 <= i,
        1 <= r,
        i + r <= p.len(),
        forall|k: int| i <= k < i + r ==> #[trigger] p[k] == p[i],
        i + r == p.len() || p[i + r] != p[i],
    ensures
        run_len(p, i) == r,
    decreases r,
{
    if r > 1 {
        assert(p[i + 1] == p[i]);
        assert forall|k: int| i + 1 <= k < i + 1 + (r - 1) implies #[trigger] p[k] == p[i + 1] by {
            assert(p[k] == p[i]);
        }
        lemma_run_len(p, i + 1, r - 1);
    }
}

/// The rendering of `p` from position `i` on, outside quotes.
pub open spec fn format_from(p: Seq<char>, i: int, d: DateParts) -> Seq<char>
    decreases p.len() - i, 1int,
{
    if i < 0 || i >= p.len() {
        Seq::<char>::empty()
    } else if p[i] == '\'' {
        literal_from(p, i + 1, d)
    } else {
        proof {
            lemma_run_len_bound(p, i);
        }
        let r = run_len(p, i);
        token(p[i], r, d) + format_from(p, i + r, d)
    }
}

/// The rendering from `j` on, inside quotes: copied up to the closing quote.
pub open spec fn literal_from(p: Seq<char>, j: int, d: DateParts) -> Seq<char>
    decreases p.len() - j, 0int,
{
    if j < 0 || j >= p.len() {
        Seq::<char>::empty()
    } else if p[j] == '\'' {
        format_from(p, j + 1, d)
    } else {
        seq![p[j]] + literal_from(p, j + 1, d)
    }
}

/// What `format` gives for the pattern `p`.
pub open spec fn format_spec(p: Seq<char>, d: DateParts) -> Seq<char> {
    format_from(p, 0, d)
}

/// Append `n` led by zeros up to `width`.
fn push_zero_padded(out: &mut String, n: u32, width: usize)
    ensures
        final(out)@ == old(out)@ + zero_padded(n as nat, width as nat),
{
    let mut digits = String::new();
    push_decimal(&mut digits, n as usize);
    assert(digits@ =~= decimal(n as nat));
    let len = digits.unicode_len();
    if len < width {
        let mut k: usize = 0;
        while k < width - len
            invariant
                k <= width - len,
                out@ == old(out)@ + zeros(k as nat),
            decreases width - len - k,
        {
            push_char(out, '0');
            k = k + 1;
        }
    }
    push_str(out, digits.as_str());
}

fn push_signed_padded(out: &mut String, n: i32, width: usize)
    ensures
        final(out)@ == old(out)@ + signed_padded(n as int, width as nat),
{
    if n < 0 {
        push_char(out, '-');
        let magnitude: u32 = (-(n as i64)) as u32;
        let w: usize = if width > 0 { width - 1 } else { 0 };
        push_zero_padded(out, magnitude, w);
    } else {
        push_zero_padded(out, n as u32, width);
    }
}

fn push_abbreviated(out: &mut String, name: &str)
    ensures
        final(out)@ == old(out)@ + abbreviated(name@),
{
    let v = to_chars(name);
    let end: usize = if v.len() < 3 { v.len() } else { 3 };
    crate::strings::push_chars(out, &v, 0, end);
    assert(v@.subrange(0, end as int) =~= abbreviated(name@));
}

/// Append what a run of `run` copies of `c` prints.
fn push_token(out: &mut String, c: char, run: usize, d: &DateParts)
    requires
        d.is_valid(),
    ensures
        final(out)@ == old(out)@ + token(c, run as nat, *d),
{
    if c == 'Y' && run == 4 {
        push_signed_padded(out, d.year, 4);
    } else if c == 'Y' && run == 2 {
        let two: i32 = if d.year >= 0 {
            d.year % 100
        } else {
            let m: i64 = (-(d.year as i64)) % 100;
            -(m as i32)
        };
        push_signed_padded(out, two, 2);
    } else if c == 'M' && run == 4 {
        push_str(out, month_name_str(d.month));
    } else if c == 'M' && run == 3 {
        push_abbreviated(out, month_name_str(d.month));
    } else if c == 'M' && run == 2 {
        push_zero_padded(out, d.month as u32, 2);
    } else if c == 'M' && run == 1 {
        push_decimal(out, d.month as usize);
    } else if c == 'D' && run == 2 {
        push_zero_padded(out, d.day as u32, 2);
    } else if c == 'D' && run == 1 {
        push_decimal(out, d.day as usize);
    } else if c == 'd' && run == 4 {
        push_str(out, weekday_name_str(d.weekday));
    } else if c == 'd' && run == 3 {
        push_abbreviated(out, weekday_name_str(d.weekday));
    } else if c == 'H' && run == 2 {
        push_zero_padded(out, d.hour as u32, 2);
    } else if c == 'H' && run == 1 {
        push_decimal(out, d.hour as usize);
    } else if c == 'm' && run == 2 {
        push_zero_padded(out, d.minute as u32, 2);
    } else if c == 'm' && run == 1 {
        push_decimal(out, d.minute as usize);
    } else if c == 's' && run == 2 {
        push_zero_padded(out, d.second as u32, 2);
    } else if c == 's' && run == 1 {
        push_decimal(out, d.second as usize);
    } else if c == 'w' && run == 2 {
        push_zero_padded(out, d.iso_week as u32, 2);
    } else {
        let mut k: usize = 0;
        while k < run
            invariant
                k <= run,
                out@ == old(out)@ + Seq::new(k as nat, |_i: int| c),
            decreases run - k,
        {
            push_char(out, c);
            k = k + 1;
            assert(out@ =~= old(out)@ + Seq::new(k as nat, |_i: int| c));
        }
    }
}

/// Expand a format string against a calendar reading.
///
/// Anything in single quotes is literal, so `'Week' ww` yields `Week 38`
/// rather than `Wednesdayeek 38`.
pub fn format(pattern: &str, at: &DateParts) -> (r: String)
    requires
        at.is_valid(),
    ensures
        r@ == format_spec(pattern@, *at),
{
    let chars = to_chars(pattern);
    let n = chars.len();
    let ghost p = chars@;
    let mut out = String::new();
    let mut index: usize = 0;
    assert(out@ + format_from(p, 0, *at) =~= format_from(p, 0, *at));
    while index < n
        invariant
            p == chars@,
            n == p.len(),
            index <= n,
            at.is_valid(),
            out@ + format_from(p, index as int, *at) == format_from(p, 0, *at),
        decreases n - index,
    {
        if chars[index] == '\'' {
            let ghost opening = index;
            index = index + 1;
            while index < n && chars[index] != '\''
                invariant
                    p == chars@,
                    n == p.len(),
                    opening < index <= n,
                    out@ + literal_from(p, index as int, *at) == format_from(p, 0, *at),
                decreases n - index,
            {
                let ghost before = out@;
                push_char(&mut out, chars[index]);
                assert(out@ + literal_from(p, index + 1, *at) =~= before + literal_from(p, index as int, *at));
                index = index + 1;
            }
            if index < n {
                assert(out@ + format_from(p, index + 1, *at) =~= out@ + literal_from(p, index as int, *at));
                index = index + 1;
            }
        } else {
            let c = chars[index];
            let mut run: usize = 1;
            while index + run < n && chars[index + run] == c
                invariant
                    p == chars@,
                    n == p.len(),
                    index < n,
                    c == p[index as int],
                    1 <= run,
                    index + run <= n,
                    forall|k: int| index <= k < index + run ==> #[trigger] p[k] == c,
                decreases n - index - run,
            {
                run = run + 1;
            }
            proof {
                lemma_run_len(p, index as int, run as int);
            }
            let ghost before = out@;
            push_token(&mut out, c, run, at);
            assert(out@ + format_from(p, index + run, *at) =~= before + format_from(p, index as int, *at));
            index = index + run;
        }
    }
    assert(out@ =~= out@ + format_from(p, index as int, *at));
    out
}

// ---------------------------------------------------------------------------
// Laws.

/// A character that starts a token or a quote.
pub open spec fn is_pattern_char(c: char) -> bool {
    c == 'Y' || c == 'M' || c == 'D' || c == 'd' || c == 'H' || c == 'm' || c == 's' || c == 'w' || c == '\''
}

proof fn lemma_run_chars(p: Seq<char>, i: int)
    requires
        0 <= i < p.len(),
    ensures
        forall|k: int| i <= k < i + run_len(p, i) ==> #[trigger] p[k] == p[i],
    decreases p.len() - i,
{
    if i + 1 < p.len() && p[i + 1] == p[i] {
        lemma_run_chars(p, i + 1);
    }
}

proof fn lemma_plain_from(p: Seq<char>, i: int, d: DateParts)
    requires
        0 <= i <= p.len(),
        forall|k: int| 0 <= k < p.len() ==> !is_pattern_char(#[trigger] p[k]),
    ensures
        format_from(p, i, d) == p.skip(i),
    decreases p.len() - i,
{
    if i < p.len() {
        lemma_run_len_bound(p, i);
        lemma_run_chars(p, i);
        let r = run_len(p, i);
        assert(!is_pattern_char(p[i]));
        lemma_plain_from(p, i + r, d);
        assert(token(p[i], r, d) =~= p.subrange(i, i + r));
        assert(p.skip(i) =~= p.subrange(i, i + r) + p.skip(i + r));
    } else {
        assert(p.skip(i) =~= Seq::<char>::empty());
    }
}

/// Separators and any other characters that are neither tokens nor quotes
/// pass through a format unchanged.
pub proof fn law_other_characters_pass_through(p: Seq<char>, d: DateParts)
    requires
        forall|k: int| 0 <= k < p.len() ==> !is_pattern_char(#[trigger] p[k]),
    ensures
        format_spec(p, d) == p,
{
    lemma_plain_from(p, 0, d);
    assert(p.skip(0) =~= p);
}

} // verus!
