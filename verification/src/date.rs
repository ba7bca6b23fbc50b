//! Calendar dates and ISO 8601 timestamps for the date-valued frontmatter
//! fields (`stale_after`, `generated.at`, `verified[].at`).
//!
//! A [`DateTime`] keeps its calendar fields, whether a time of day was
//! written, and the UTC offset if one was; timestamps compare as instants
//! (an offset-less one is read as UTC).
use vstd::prelude::*;
use crate::text::{chars_of, trim, trim_bounds};

verus! {

/// A calendar date.
#[derive(Clone, Copy, Debug, PartialEq, Eq, Structural)]
pub struct Date {
    pub year: i32,
    pub month: u8,
    pub day: u8,
}

/// A parsed timestamp.
#[derive(Clone, Copy, Debug, PartialEq, Eq, Structural)]
pub struct DateTime {
    pub date: Date,
    pub hour: u8,
    pub minute: u8,
    pub second: u8,
    /// Whether a time of day was written.
    pub has_time: bool,
    /// The written UTC offset in minutes, if any (`Z` is 0).
    pub offset_minutes: Option<i32>,
}

/// Whether `y` is a Gregorian leap year.
pub open spec fn is_leap(y: int) -> bool {
    (y % 4 == 0 && y % 100 != 0) || y % 400 == 0
}

/// Days in month `m` of year `y`.
pub open spec fn days_in_month(y: int, m: int) -> int {
    if m == 2 {
        if is_leap(y) { 29 } else { 28 }
    } else if m == 4 || m == 6 || m == 9 || m == 11 {
        30
    } else {
        31
    }
}

/// Days before month `m` in a year.
pub open spec fn days_before_month(y: int, m: int) -> int {
    let base: int = if m <= 1 { 0 } else if m == 2 { 31 } else if m == 3 { 59 } else if m == 4 { 90 }
        else if m == 5 { 120 } else if m == 6 { 151 } else if m == 7 { 181 } else if m == 8 { 212 }
        else if m == 9 { 243 } else if m == 10 { 273 } else if m == 11 { 304 } else { 334 };
    base + if m > 2 && is_leap(y) { 1int } else { 0int }
}

/// The day number of a date: days since 0000-01-01 in the proleptic
/// Gregorian calendar (years at least 1).
pub open spec fn day_number(y: int, m: int, d: int) -> int {
    let py = y - 1;
    365 * y + py / 4 - py / 100 + py / 400 + days_before_month(y, m) + d - 1
}

/// A timestamp's instant, in seconds, its offset removed (none means UTC).
pub open spec fn instant(t: DateTime) -> int {
    let off = match t.offset_minutes {
        Some(o) => o as int,
        None => 0,
    };
    day_number(t.date.year as int, t.date.month as int, t.date.day as int) * 86400 + t.hour
        * 3600 + t.minute * 60 + t.second - off * 60
}

/// The value of the ASCII digits `s[i..j]`.
pub open spec fn digits_value(s: Seq<char>, i: int, j: int) -> int
    decreases j - i,
{
    if j <= i {
        0
    } else {
        digits_value(s, i, j - 1) * 10 + (s[j - 1] as int - '0' as int)
    }
}

/// Whether `s[i..j]` are all ASCII digits.
pub open spec fn all_digits(s: Seq<char>, i: int, j: int) -> bool {
    0 <= i <= j <= s.len() && forall|k: int| i <= k < j ==> '0' <= #[trigger] s[k] <= '9'
}

/// A valid calendar date.
pub open spec fn valid_date(y: int, m: int, d: int) -> bool {
    1 <= y && 1 <= m <= 12 && 1 <= d <= days_in_month(y, m)
}

/// The optional UTC-offset suffix of a timestamp, starting at `i`.
pub open spec fn offset_spec(t: Seq<char>, i: int) -> Option<Option<int>> {
    if i == t.len() {
        Some(None)
    } else if i + 1 == t.len() && (t[i] == 'Z' || t[i] == 'z') {
        Some(Some(0))
    } else if i + 6 == t.len() && (t[i] == '+' || t[i] == '-') && all_digits(t, i + 1, i + 3)
        && t[i + 3] == ':' && all_digits(t, i + 4, i + 6) && digits_value(t, i + 1, i + 3) < 24
        && digits_value(t, i + 4, i + 6) < 60 {
        let mag = digits_value(t, i + 1, i + 3) * 60 + digits_value(t, i + 4, i + 6);
        Some(Some(if t[i] == '-' { -mag } else { mag }))
    } else {
        None
    }
}

/// `YYYY-MM-DD`, optionally followed by `T` (or `t`, or a space) and
/// `HH:MM` or `HH:MM:SS`, optionally followed by `Z` or `±HH:MM`. Leading and
/// trailing whitespace is ignored.
pub open spec fn parse_spec(s: Seq<char>) -> Option<DateTime> {
    let t = trim(s);
    if !(t.len() >= 10 && all_digits(t, 0, 4) && t[4] == '-' && all_digits(t, 5, 7) && t[7]
        == '-' && all_digits(t, 8, 10)) {
        None
    } else {
        let y = digits_value(t, 0, 4);
        let m = digits_value(t, 5, 7);
        let d = digits_value(t, 8, 10);
        if !valid_date(y, m, d) {
            None
        } else {
            let date = Date { year: y as i32, month: m as u8, day: d as u8 };
            if t.len() == 10 {
                Some(DateTime { date, hour: 0, minute: 0, second: 0, has_time: false, offset_minutes: None })
            } else if !(t.len() >= 16 && (t[10] == 'T' || t[10] == 't' || t[10] == ' ')
                && all_digits(t, 11, 13) && t[13] == ':' && all_digits(t, 14, 16)) {
                None
            } else {
                let hh = digits_value(t, 11, 13);
                let mm = digits_value(t, 14, 16);
                let has_sec = t.len() >= 19 && t[16] == ':' && all_digits(t, 17, 19);
                let ss = if has_sec { digits_value(t, 17, 19) } else { 0 };
                let rest = if has_sec { 19 } else { 16 };
                if hh >= 24 || mm >= 60 || ss >= 60 {
                    None
                } else {
                    match offset_spec(t, rest) {
                        None => None,
                        Some(off) => Some(DateTime {
                            date,
                            hour: hh as u8,
                            minute: mm as u8,
                            second: ss as u8,
                            has_time: true,
                            offset_minutes: match off { Some(o) => Some(o as i32), None => None },
                        }),
                    }
                }
            }
        }
    }
}

proof fn lemma_digits_bound(s: Seq<char>, i: int, j: int)
    requires
        all_digits(s, i, j),
    ensures
        0 <= digits_value(s, i, j),
        j - i <= 1 ==> digits_value(s, i, j) <= 9,
        j - i <= 2 ==> digits_value(s, i, j) <= 99,
        j - i <= 3 ==> digits_value(s, i, j) <= 999,
        j - i <= 4 ==> digits_value(s, i, j) <= 9999,
    decreases j - i,
{
    if j > i {
        assert(all_digits(s, i, j - 1));
        lemma_digits_bound(s, i, j - 1);
        assert('0' <= s[j - 1] <= '9');
    }
}

/// The value of the digits `t[i..j]` (at most four of them).
fn digits_exec(t: &[char], i: usize, j: usize) -> (r: i32)
    requires
        all_digits(t@, i as int, j as int),
        j - i <= 4,
    ensures
        r == digits_value(t@, i as int, j as int),
        0 <= r <= 9999,
{
    let mut v: i32 = 0;
    let mut k = i;
    while k < j
        invariant
            i <= k <= j <= t.len(),
            j - i <= 4,
            all_digits(t@, i as int, j as int),
            v == digits_value(t@, i as int, k as int),
        decreases j - k,
    {
        proof {
            lemma_digits_bound(t@, i as int, k as int);
            assert(all_digits(t@, i as int, k as int));
        }
        let dv = (t[k] as u32 - '0' as u32) as i32;
        v = v * 10 + dv;
        k += 1;
    }
    proof {
        lemma_digits_bound(t@, i as int, j as int);
    }
    v
}

/// Whether `t[i..j]` are all digits.
fn all_digits_exec(t: &[char], i: usize, j: usize) -> (r: bool)
    ensures
        r == all_digits(t@, i as int, j as int),
{
    if i > j || j > t.len() {
        return false;
    }
    let mut k = i;
    while k < j
        invariant
            i <= k <= j <= t.len(),
            forall|x: int| i <= x < k ==> '0' <= #[trigger] t@[x] <= '9',
        decreases j - k,
    {
        if !('0' <= t[k] && t[k] <= '9') {
            return false;
        }
        k += 1;
    }
    true
}

fn is_leap_exec(y: i32) -> (r: bool)
    requires
        0 <= y,
    ensures
        r == is_leap(y as int),
{
    let u = y as u32;
    (u % 4 == 0 && u % 100 != 0) || u % 400 == 0
}

fn days_in_month_exec(y: i32, m: i32) -> (r: i32)
    requires
        0 <= y,
    ensures
        r == days_in_month(y as int, m as int),
{
    if m == 2 {
        if is_leap_exec(y) { 29 } else { 28 }
    } else if m == 4 || m == 6 || m == 9 || m == 11 {
        30
    } else {
        31
    }
}

fn offset_exec(t: &[char], i: usize) -> (r: Option<Option<i32>>)
    requires
        i <= t.len(),
    ensures
        match r {
            None => offset_spec(t@, i as int) is None,
            Some(None) => offset_spec(t@, i as int) == Some(None::<int>),
            Some(Some(o)) => offset_spec(t@, i as int) == Some(Some(o as int)),
        },
{
    let n = t.len();
    if i == n {
        Some(None)
    } else if i + 1 == n && (t[i] == 'Z' || t[i] == 'z') {
        Some(Some(0))
    } else if n >= 6 && i == n - 6 && (t[i] == '+' || t[i] == '-') && all_digits_exec(t, i + 1, i + 3)
        && t[i + 3] == ':' && all_digits_exec(t, i + 4, i + 6) {
        let hh = digits_exec(t, i + 1, i + 3);
        let mm = digits_exec(t, i + 4, i + 6);
        if hh < 24 && mm < 60 {
            let mag = hh * 60 + mm;
            Some(Some(if t[i] == '-' { -mag } else { mag }))
        } else {
            None
        }
    } else {
        None
    }
}

impl DateTime {
    /// Parses an ISO 8601 date or timestamp (see [`parse_spec`]).
    pub fn parse(s: &str) -> (r: Option<DateTime>)
        ensures
            r == parse_spec(s@),
    {
        let v = chars_of(s);
        let (a, b) = trim_bounds(&v, 0, v.len());
        let mut t: Vec<char> = Vec::new();
        let mut k = a;
        while k < b
            invariant
                a <= k <= b <= v.len(),
                t@ == v@.subrange(a as int, k as int),
            decreases b - k,
        {
            t.push(v[k]);
            k += 1;
            proof {
                assert(t@ =~= v@.subrange(a as int, k as int));
            }
        }
        proof {
            assert(v@.subrange(0, v@.len() as int) =~= v@);
            assert(t@ == trim(s@));
        }
        let n = t.len();
        if !(n >= 10 && all_digits_exec(&t, 0, 4) && t[4] == '-' && all_digits_exec(&t, 5, 7)
            && t[7] == '-' && all_digits_exec(&t, 8, 10)) {
            return None;
        }
        let y = digits_exec(&t, 0, 4);
        let m = digits_exec(&t, 5, 7);
        let d = digits_exec(&t, 8, 10);
        if !(1 <= y && 1 <= m && m <= 12 && 1 <= d && d <= days_in_month_exec(y, m)) {
            return None;
        }
        let date = Date { year: y, month: m as u8, day: d as u8 };
        if n == 10 {
            return Some(
                DateTime { date, hour: 0, minute: 0, second: 0, has_time: false, offset_minutes: None },
            );
        }
        if !(n >= 16 && (t[10] == 'T' || t[10] == 't' || t[10] == ' ') && all_digits_exec(&t, 11, 13)
            && t[13] == ':' && all_digits_exec(&t, 14, 16)) {
            return None;
        }
        let hh = digits_exec(&t, 11, 13);
        let mm = digits_exec(&t, 14, 16);
        let has_sec = n >= 19 && t[16] == ':' && all_digits_exec(&t, 17, 19);
        let ss = if has_sec { digits_exec(&t, 17, 19) } else { 0 };
        let rest: usize = if has_sec { 19 } else { 16 };
        if hh >= 24 || mm >= 60 || ss >= 60 {
            return None;
        }
        match offset_exec(&t, rest) {
            None => None,
            Some(off) => Some(
                DateTime {
                    date,
                    hour: hh as u8,
                    minute: mm as u8,
                    second: ss as u8,
                    has_time: true,
                    offset_minutes: off,
                },
            ),
        }
    }

    /// This timestamp's instant in seconds (see [`instant`]).
    pub fn instant_seconds(&self) -> (r: i64)
        requires
            1 <= self.date.year <= 9999,
            1 <= self.date.month <= 12,
            1 <= self.date.day <= 31,
            self.hour < 24,
            self.minute < 60,
            self.second < 60,
            self.offset_minutes matches Some(o) ==> -1440 < o < 1440,
        ensures
            r == instant(*self),
    {
        let y = self.date.year as i64;
        let m = self.date.month as i64;
        let py = y - 1;
        let leap = is_leap_exec(self.date.year);
        let base: i64 = if m <= 1 { 0 } else if m == 2 { 31 } else if m == 3 { 59 } else if m == 4 { 90 }
            else if m == 5 { 120 } else if m == 6 { 151 } else if m == 7 { 181 } else if m == 8 { 212 }
            else if m == 9 { 243 } else if m == 10 { 273 } else if m == 11 { 304 } else { 334 };
        let before = base + if m > 2 && leap { 1 } else { 0 };
        let days = 365 * y + py / 4 - py / 100 + py / 400 + before + self.date.day as i64 - 1;
        let off: i64 = match self.offset_minutes {
            Some(o) => o as i64,
            None => 0,
        };
        days * 86400 + self.hour as i64 * 3600 + self.minute as i64 * 60 + self.second as i64 - off
            * 60
    }
}

/// Whether a timestamp came from [`DateTime::parse`]'s accepted ranges.
pub open spec fn well_formed(t: DateTime) -> bool {
    &&& 1 <= t.date.year <= 9999
    &&& 1 <= t.date.month <= 12
    &&& 1 <= t.date.day <= 31
    &&& t.hour < 24
    &&& t.minute < 60
    &&& t.second < 60
    &&& t.offset_minutes matches Some(o) ==> -1440 < o < 1440
}

/// Every parsed timestamp is well formed.
pub proof fn lemma_parse_well_formed(s: Seq<char>)
    ensures
        parse_spec(s) matches Some(t) ==> well_formed(t),
{
    let t = trim(s);
    if parse_spec(s) is Some {
        lemma_digits_bound(t, 0, 4);
        lemma_digits_bound(t, 5, 7);
        lemma_digits_bound(t, 8, 10);
        if t.len() > 10 {
            lemma_digits_bound(t, 11, 13);
            lemma_digits_bound(t, 14, 16);
            let has_sec = t.len() >= 19 && t[16] == ':' && all_digits(t, 17, 19);
            if has_sec {
                lemma_digits_bound(t, 17, 19);
            }
            let rest: int = if has_sec { 19 } else { 16 };
            if rest + 6 == t.len() && all_digits(t, rest + 1, rest + 3) && all_digits(t, rest + 4, rest + 6) {
                lemma_digits_bound(t, rest + 1, rest + 3);
                lemma_digits_bound(t, rest + 4, rest + 6);
            }
        }
    }
}

/// `a` is no later than `b`.
pub fn not_after(a: &DateTime, b: &DateTime) -> (r: bool)
    requires
        well_formed(*a),
        well_formed(*b),
    ensures
        r == (instant(*a) <= instant(*b)),
{
    a.instant_seconds() <= b.instant_seconds()
}

/// Midnight UTC at the start of `d`.
pub open spec fn midnight_utc(d: Date) -> DateTime {
    DateTime { date: d, hour: 0, minute: 0, second: 0, has_time: true, offset_minutes: Some(0) }
}

impl Date {
    /// Midnight UTC at the start of this date.
    pub fn to_utc_datetime(&self) -> (r: DateTime)
        ensures
            r == midnight_utc(*self),
    {
        DateTime { date: *self, hour: 0, minute: 0, second: 0, has_time: true, offset_minutes: Some(0) }
    }
}


/// The days in year `y`.
pub open spec fn year_len(y: int) -> int {
    if is_leap(y) { 366 } else { 365 }
}

/// A year's first day follows the previous year's days.
pub proof fn lemma_year_step(y: int)
    requires
        y >= 1,
    ensures
        day_number(y + 1, 1, 1) == day_number(y, 1, 1) + year_len(y),
{
    assert(y / 4 - (y - 1) / 4 == (if y % 4 == 0 { 1int } else { 0int }));
    assert(y / 100 - (y - 1) / 100 == (if y % 100 == 0 { 1int } else { 0int }));
    assert(y / 400 - (y - 1) / 400 == (if y % 400 == 0 { 1int } else { 0int }));
}

/// A month's first day follows the previous month's days.
pub proof fn lemma_month_step(y: int, m: int)
    requires
        1 <= m < 12,
    ensures
        days_before_month(y, m + 1) == days_before_month(y, m) + days_in_month(y, m),
        days_before_month(y, 12) + days_in_month(y, 12) == year_len(y),
{
}

/// The UTC timestamp `secs` seconds after 1970-01-01T00:00:00Z, when its
/// year is at most 9999.
pub open spec fn unix_epoch() -> int {
    day_number(1970, 1, 1) * 86400
}

/// Two decimal digits.
pub open spec fn two_digits(n: int) -> Seq<char> {
    seq![crate::text::digit_char(n / 10), crate::text::digit_char(n % 10)]
}

/// Four decimal digits.
pub open spec fn four_digits(n: int) -> Seq<char> {
    two_digits(n / 100) + two_digits(n % 100)
}

/// `YYYY-MM-DDTHH:MM:SSZ`.
pub open spec fn iso_text(t: DateTime) -> Seq<char> {
    four_digits(t.date.year as int) + seq!['-'] + two_digits(t.date.month as int) + seq!['-']
        + two_digits(t.date.day as int) + seq!['T'] + two_digits(t.hour as int) + seq![':']
        + two_digits(t.minute as int) + seq![':'] + two_digits(t.second as int) + seq!['Z']
}

/// Pushes the two digits of `n < 100`.
fn push_two(out: &mut Vec<char>, n: u32)
    requires
        n < 100,
    ensures
        final(out)@ == old(out)@ + two_digits(n as int),
{
    let a = char_digit(n / 10);
    let b = char_digit(n % 10);
    out.push(a);
    out.push(b);
    proof {
        assert(final(out)@ =~= old(out)@ + two_digits(n as int)) by {
            assert(two_digits(n as int) == seq![a, b]);
        }
    }
}

/// The ASCII digit for `d < 10`.
fn char_digit(d: u32) -> (c: char)
    requires
        d < 10,
    ensures
        c == crate::text::digit_char(d as int),
{
    let v: u8 = (d as u8) + 48;
    v as char
}

impl DateTime {
    /// The UTC timestamp `secs` seconds after the Unix epoch; `None` past
    /// the year 9999.
    pub fn from_unix(secs: u64) -> (r: Option<DateTime>)
        ensures
            match r {
                Some(t) => well_formed(t) && t.offset_minutes == Some(0i32) && t.has_time
                    && valid_date(t.date.year as int, t.date.month as int, t.date.day as int)
                    && instant(t) == unix_epoch() + secs,
                None => unix_epoch() + secs >= day_number(10000, 1, 1) * 86400,
            },
    {
        let days = secs / 86400;
        let rem = secs % 86400;
        let mut y: u32 = 1970;
        let mut left: u64 = days;
        while y <= 9999 && left >= year_len_exec(y)
            invariant
                1970 <= y <= 10000,
                day_number(y as int, 1, 1) + left == day_number(1970, 1, 1) + days,
            decreases left,
        {
            proof {
                lemma_year_step(y as int);
            }
            left = left - year_len_exec(y);
            y += 1;
        }
        if y > 9999 {
            proof {
                assert(days * 86400 + rem == secs) by (nonlinear_arith)
                    requires days == secs / 86400, rem == secs % 86400;
                assert(day_number(10000, 1, 1) <= day_number(1970, 1, 1) + days);
                assert(day_number(10000, 1, 1) * 86400 <= (day_number(1970, 1, 1) + days) * 86400) by (nonlinear_arith)
                    requires day_number(10000, 1, 1) <= day_number(1970, 1, 1) + days;
            }
            return None;
        }
        let mut m: u32 = 1;
        while m < 12 && left >= month_len_exec(y, m)
            invariant
                1970 <= y <= 9999,
                1 <= m <= 12,
                day_number(y as int, m as int, 1) + left == day_number(1970, 1, 1) + days,
                days_before_month(y as int, m as int) + left < year_len(y as int),
            decreases 12 - m,
        {
            proof {
                lemma_month_step(y as int, m as int);
            }
            left = left - month_len_exec(y, m);
            m += 1;
        }
        proof {
            lemma_month_step(y as int, 1);
            assert(left < days_in_month(y as int, m as int));
        }
        let day = (left + 1) as u8;
        let hour = (rem / 3600) as u8;
        let minute = ((rem % 3600) / 60) as u8;
        let second = (rem % 60) as u8;
        let t = DateTime {
            date: Date { year: y as i32, month: m as u8, day },
            hour,
            minute,
            second,
            has_time: true,
            offset_minutes: Some(0),
        };
        proof {
            assert(days * 86400 + rem == secs) by (nonlinear_arith)
                requires days == secs / 86400, rem == secs % 86400;
            assert(rem == (rem / 3600) * 3600 + ((rem % 3600) / 60) * 60 + rem % 60) by (nonlinear_arith)
                requires rem < 86400;
            assert(rem / 3600 < 24) by (nonlinear_arith)
                requires rem < 86400;
        }
        Some(t)
    }

    /// The timestamp as `YYYY-MM-DDTHH:MM:SSZ`, for a well-formed UTC one.
    pub fn to_iso_string(&self) -> (r: String)
        requires
            well_formed(*self),
        ensures
            r@ == iso_text(*self),
    {
        let mut out: Vec<char> = Vec::new();
        let y = self.date.year as u32;
        push_two(&mut out, y / 100);
        push_two(&mut out, y % 100);
        out.push('-');
        push_two(&mut out, self.date.month as u32);
        out.push('-');
        push_two(&mut out, self.date.day as u32);
        out.push('T');
        push_two(&mut out, self.hour as u32);
        out.push(':');
        push_two(&mut out, self.minute as u32);
        out.push(':');
        push_two(&mut out, self.second as u32);
        out.push('Z');
        proof {
            assert(out@ =~= iso_text(*self));
        }
        crate::text::string_of(&out)
    }
}

/// A date as `YYYY-MM-DD`.
pub open spec fn date_text(d: Date) -> Seq<char> {
    four_digits(d.year as int) + seq!['-'] + two_digits(d.month as int) + seq!['-'] + two_digits(d.day as int)
}

impl Date {
    /// The date as `YYYY-MM-DD`, for a year of at most four digits and a
    /// month and day of at most two.
    pub fn to_string(&self) -> (r: String)
        requires
            0 <= self.year <= 9999,
            self.month < 100,
            self.day < 100,
        ensures
            r@ == date_text(*self),
    {
        let mut out: Vec<char> = Vec::new();
        let y = self.year as u32;
        push_two(&mut out, y / 100);
        push_two(&mut out, y % 100);
        out.push('-');
        push_two(&mut out, self.month as u32);
        out.push('-');
        push_two(&mut out, self.day as u32);
        proof {
            assert(out@ =~= date_text(*self));
        }
        crate::text::string_of(&out)
    }
}

/// The days in year `y`, in exec form.
fn year_len_exec(y: u32) -> (r: u64)
    requires
        y <= 10000,
    ensures
        r == year_len(y as int),
{
    if is_leap_exec(y as i32) { 366 } else { 365 }
}

/// Days in month `m` of year `y`, in exec form.
fn month_len_exec(y: u32, m: u32) -> (r: u64)
    requires
        1 <= y <= 9999,
    ensures
        r == days_in_month(y as int, m as int),
{
    if m == 2 {
        if is_leap_exec(y as i32) { 29 } else { 28 }
    } else if m == 4 || m == 6 || m == 9 || m == 11 {
        30
    } else {
        31
    }
}

} // verus!
