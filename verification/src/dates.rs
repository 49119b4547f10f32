//! Backup dates: the `YYYY-MM-DD_HHMM_SS` name pattern, calendar validity,
//! and the conversion of a calendar date to a second count on one absolute
//! axis, so that dates order totally and gaps between them are plain
//! subtractions.
//!
//! Dates are read as UTC in the proleptic Gregorian calendar; the second
//! count is measured from the start of year 0.

use vstd::prelude::*;
use vstd::string::StrSliceExecFns;
use crate::human_size::digit_val;
use crate::human_size::is_digit_char;

verus! {

/// A calendar timestamp with second resolution, read as UTC.
#[derive(Clone, Copy, PartialEq, Eq, Structural, Debug)]
pub struct BackupDate {
    pub year: u16,
    pub month: u8,
    pub day: u8,
    pub hour: u8,
    pub minute: u8,
    pub second: u8,
}

pub open spec fn leap_year(y: int) -> bool {
    y % 4 == 0 && (y % 100 != 0 || y % 400 == 0)
}

pub open spec fn days_in_year(y: int) -> int {
    if leap_year(y) {
        366
    } else {
        365
    }
}

/// Days in the years of the axis before year `y`.
pub open spec fn days_before_year(y: nat) -> int
    decreases y,
{
    if y == 0 {
        0
    } else {
        days_before_year((y - 1) as nat) + days_in_year(y - 1)
    }
}

/// Days of year `y` that lie before month `m` (months are 1-based).
pub open spec fn days_before_month(y: int, m: int) -> int {
    let base: int = if m <= 1 {
        0
    } else if m == 2 {
        31
    } else if m == 3 {
        59
    } else if m == 4 {
        90
    } else if m == 5 {
        120
    } else if m == 6 {
        151
    } else if m == 7 {
        181
    } else if m == 8 {
        212
    } else if m == 9 {
        243
    } else if m == 10 {
        273
    } else if m == 11 {
        304
    } else if m == 12 {
        334
    } else {
        365
    };
    if m > 2 && leap_year(y) {
        base + 1
    } else {
        base
    }
}

pub open spec fn days_in_month(y: int, m: int) -> int {
    if m == 2 {
        if leap_year(y) {
            29
        } else {
            28
        }
    } else if m == 4 || m == 6 || m == 9 || m == 11 {
        30
    } else {
        31
    }
}

/// A date the calendar contains, within the four-digit-year range the name
/// pattern can write.
pub open spec fn valid_date(d: BackupDate) -> bool {
    &&& d.year <= 9999
    &&& 1 <= d.month <= 12
    &&& 1 <= d.day <= days_in_month(d.year as int, d.month as int)
    &&& d.hour <= 23
    &&& d.minute <= 59
    &&& d.second <= 59
}

/// Days on the axis before this date's day.
pub open spec fn day_index(d: BackupDate) -> int {
    days_before_year(d.year as nat) + days_before_month(d.year as int, d.month as int) + d.day - 1
}

/// Seconds on the axis before this date: the one total order on dates.
/// Opaque: callers order and subtract these values, they never look
/// inside; the lemmas below say everything the engine needs.
#[verifier::opaque]
pub open spec fn date_seconds_spec(d: BackupDate) -> int {
    day_index(d) * 86400 + d.hour * 3600 + d.minute * 60 + d.second
}

/// Field-by-field (lexicographic) order on dates.
pub open spec fn date_lex_lt(a: BackupDate, b: BackupDate) -> bool {
    ||| a.year < b.year
    ||| (a.year == b.year && a.month < b.month)
    ||| (a.year == b.year && a.month == b.month && a.day < b.day)
    ||| (a.year == b.year && a.month == b.month && a.day == b.day && a.hour < b.hour)
    ||| (a.year == b.year && a.month == b.month && a.day == b.day && a.hour == b.hour && a.minute
        < b.minute)
    ||| (a.year == b.year && a.month == b.month && a.day == b.day && a.hour == b.hour && a.minute
        == b.minute && a.second < b.second)
}

pub open spec fn max_date_seconds() -> int {
    days_before_year(10000) * 86400
}

impl BackupDate {
    /// Whether the calendar contains this date.
    pub fn is_valid(&self) -> (r: bool)
        ensures
            r == valid_date(*self),
    {
        self.year <= 9999 && 1 <= self.month && self.month <= 12 && 1 <= self.day && self.day
            <= days_in_month_exec(self.year, self.month) && self.hour <= 23 && self.minute <= 59
            && self.second <= 59
    }

    /// The date's position on the second axis.
    pub fn to_seconds(&self) -> (r: u64)
        requires
            valid_date(*self),
        ensures
            r == date_seconds_spec(*self),
            r < max_date_seconds(),
    {
        let mut y: u16 = 0;
        let mut days: u64 = 0;
        while y < self.year
            invariant
                y <= self.year <= 9999,
                days == days_before_year(y as nat),
                days <= 366 * (y as int),
            decreases self.year - y,
        {
            if is_leap_year(y) {
                days = days + 366;
            } else {
                days = days + 365;
            }
            y = y + 1;
        }
        let month_off: u64 = {
            let base: u64 = match self.month {
                1 => 0,
                2 => 31,
                3 => 59,
                4 => 90,
                5 => 120,
                6 => 151,
                7 => 181,
                8 => 212,
                9 => 243,
                10 => 273,
                11 => 304,
                _ => 334,
            };
            if self.month > 2 && is_leap_year(self.year) {
                base + 1
            } else {
                base
            }
        };
        let day_idx: u64 = days + month_off + (self.day as u64) - 1;
        proof {
            reveal(date_seconds_spec);
            lemma_day_within_year(*self);
            lemma_days_before_year_mono(self.year as nat + 1, 10000);
        }
        day_idx * 86400 + (self.hour as u64) * 3600 + (self.minute as u64) * 60 + (
        self.second as u64)
    }
}

/// Exec counterpart of `date_lex_lt`. For valid dates this decides the
/// chronological order (see `lemma_date_order`).
pub fn date_before(a: &BackupDate, b: &BackupDate) -> (r: bool)
    ensures
        r == date_lex_lt(*a, *b),
{
    if a.year != b.year {
        a.year < b.year
    } else if a.month != b.month {
        a.month < b.month
    } else if a.day != b.day {
        a.day < b.day
    } else if a.hour != b.hour {
        a.hour < b.hour
    } else if a.minute != b.minute {
        a.minute < b.minute
    } else {
        a.second < b.second
    }
}

/// Exec counterpart of `leap_year`.
pub fn is_leap_year(y: u16) -> (r: bool)
    ensures
        r == leap_year(y as int),
{
    y % 4 == 0 && (y % 100 != 0 || y % 400 == 0)
}

/// Exec counterpart of `days_in_month`.
pub fn days_in_month_exec(y: u16, m: u8) -> (r: u8)
    ensures
        r == days_in_month(y as int, m as int),
{
    match m {
        2 => if is_leap_year(y) {
            29
        } else {
            28
        },
        4 | 6 | 9 | 11 => 30,
        _ => 31,
    }
}

/// Within a valid date's year, the day's offset stays below the year's
/// length.
proof fn lemma_day_within_year(d: BackupDate)
    requires
        valid_date(d),
    ensures
        0 <= days_before_month(d.year as int, d.month as int) + d.day - 1 < days_in_year(
            d.year as int,
        ),
{
}

/// Day counts grow with the year.
proof fn lemma_days_before_year_mono(y1: nat, y2: nat)
    requires
        y1 <= y2,
    ensures
        days_before_year(y1) <= days_before_year(y2),
        days_before_year(y1) + 365 * (y2 - y1) <= days_before_year(y2),
    decreases y2,
{
    if y1 < y2 {
        lemma_days_before_year_mono(y1, (y2 - 1) as nat);
    }
}

/// A year count bounds its day count.
proof fn lemma_days_before_year_upper(y: nat)
    ensures
        0 <= days_before_year(y) <= 366 * y,
    decreases y,
{
    if y > 0 {
        lemma_days_before_year_upper((y - 1) as nat);
    }
}

/// Every valid date sits on the axis between zero and the end of the
/// calendar's range.
pub proof fn lemma_date_seconds_bound(d: BackupDate)
    requires
        valid_date(d),
    ensures
        0 <= date_seconds_spec(d) < 316224000000,
{
    reveal(date_seconds_spec);
    lemma_day_within_year(d);
    lemma_days_before_year_mono(0, d.year as nat);
    lemma_days_before_year_mono(d.year as nat + 1, 10000);
    lemma_days_before_year_upper(10000);
    assert(0 <= day_index(d) < days_before_year(10000));
}

/// One month later on the axis means one month's days further.
proof fn lemma_days_before_month_step(y: int, m: int)
    requires
        1 <= m <= 12,
    ensures
        days_before_month(y, m) + days_in_month(y, m) == days_before_month(y, m + 1),
{
}

/// Month offsets grow with the month, by at least each month's length.
proof fn lemma_days_before_month_mono(y: int, m1: int, m2: int)
    requires
        1 <= m1 < m2 <= 13,
    ensures
        days_before_month(y, m1) + days_in_month(y, m1) <= days_before_month(y, m2),
    decreases m2 - m1,
{
    lemma_days_before_month_step(y, m1);
    if m1 + 1 < m2 {
        lemma_days_before_month_mono(y, m1 + 1, m2);
        assert(days_in_month(y, m1 + 1) >= 0);
    }
}

/// The second axis orders valid dates exactly as their fields do: the
/// calendar arithmetic is strictly monotone, so distinct valid dates
/// never share a position on the axis.
pub proof fn lemma_date_order(a: BackupDate, b: BackupDate)
    requires
        valid_date(a),
        valid_date(b),
    ensures
        date_lex_lt(a, b) <==> date_seconds_spec(a) < date_seconds_spec(b),
        a == b <==> date_seconds_spec(a) == date_seconds_spec(b),
{
    lemma_date_order_one_way(a, b);
    lemma_date_order_one_way(b, a);
}

/// The forward direction of `lemma_date_order`.
proof fn lemma_date_order_one_way(a: BackupDate, b: BackupDate)
    requires
        valid_date(a),
        valid_date(b),
    ensures
        date_lex_lt(a, b) ==> date_seconds_spec(a) < date_seconds_spec(b),
{
    reveal(date_seconds_spec);
    if date_lex_lt(a, b) {
        lemma_day_within_year(a);
        lemma_day_within_year(b);
        if a.year < b.year {
            lemma_days_before_year_mono(a.year as nat + 1, b.year as nat);
            assert(day_index(a) < day_index(b));
        } else if a.month < b.month {
            lemma_days_before_month_mono(a.year as int, a.month as int, b.month as int);
            assert(day_index(a) < day_index(b));
        } else if a.year == b.year && a.month == b.month && a.day < b.day {
            assert(day_index(a) < day_index(b));
        }
        if day_index(a) < day_index(b) {
            assert(day_index(a) * 86400 + 86400 <= day_index(b) * 86400);
        } else {
            assert(day_index(a) == day_index(b));
        }
    }
}

/// What a directory leaf name denotes: a date, when the name matches the
/// `YYYY-MM-DD_HHMM_SS` pattern and the fields form a calendar date.
pub open spec fn parse_backup_name(s: Seq<char>) -> Option<BackupDate> {
    if s.len() == 18 && is_digit_char(s[0]) && is_digit_char(s[1]) && is_digit_char(s[2])
        && is_digit_char(s[3]) && s[4] == '-' && is_digit_char(s[5]) && is_digit_char(s[6]) && s[7]
        == '-' && is_digit_char(s[8]) && is_digit_char(s[9]) && s[10] == '_' && is_digit_char(
        s[11],
    ) && is_digit_char(s[12]) && is_digit_char(s[13]) && is_digit_char(s[14]) && s[15] == '_'
        && is_digit_char(s[16]) && is_digit_char(s[17]) {
        let d = BackupDate {
            year: (digit_val(s[0]) * 1000 + digit_val(s[1]) * 100 + digit_val(s[2]) * 10
                + digit_val(s[3])) as u16,
            month: (digit_val(s[5]) * 10 + digit_val(s[6])) as u8,
            day: (digit_val(s[8]) * 10 + digit_val(s[9])) as u8,
            hour: (digit_val(s[11]) * 10 + digit_val(s[12])) as u8,
            minute: (digit_val(s[13]) * 10 + digit_val(s[14])) as u8,
            second: (digit_val(s[16]) * 10 + digit_val(s[17])) as u8,
        };
        if valid_date(d) {
            Some(d)
        } else {
            None
        }
    } else {
        None
    }
}

/// Reads two decimal digits of `s` at `i`, or nothing if either character
/// is not a digit.
fn two_digits(s: &str, i: usize) -> (r: Option<u8>)
    requires
        i + 1 < s@.len() <= usize::MAX,
    ensures
        match r {
            Some(v) => is_digit_char(s@[i as int]) && is_digit_char(s@[i + 1]) && v == digit_val(
                s@[i as int],
            ) * 10 + digit_val(s@[i + 1]),
            None => !(is_digit_char(s@[i as int]) && is_digit_char(s@[i + 1])),
        },
{
    let c0 = s.get_char(i);
    let c1 = s.get_char(i + 1);
    if '0' <= c0 && c0 <= '9' && '0' <= c1 && c1 <= '9' {
        let d0 = (c0 as u32 as u8) - ('0' as u32 as u8);
        let d1 = (c1 as u32 as u8) - ('0' as u32 as u8);
        Some(d0 * 10 + d1)
    } else {
        None
    }
}

/// The date written in a snapshot directory's leaf name, when the name
/// matches the `YYYY-MM-DD_HHMM_SS` pattern; nothing otherwise.
pub fn creation_date_from_filename(name: &str) -> (r: Option<BackupDate>)
    ensures
        r == parse_backup_name(name@),
        r is Some ==> valid_date(r->0),
{
    if name.unicode_len() != 18 {
        return None;
    }
    if name.get_char(4) != '-' || name.get_char(7) != '-' || name.get_char(10) != '_'
        || name.get_char(15) != '_' {
        return None;
    }
    let y_hi = match two_digits(name, 0) {
        Some(v) => v,
        None => {
            return None;
        },
    };
    let y_lo = match two_digits(name, 2) {
        Some(v) => v,
        None => {
            return None;
        },
    };
    let month = match two_digits(name, 5) {
        Some(v) => v,
        None => {
            return None;
        },
    };
    let day = match two_digits(name, 8) {
        Some(v) => v,
        None => {
            return None;
        },
    };
    let hour = match two_digits(name, 11) {
        Some(v) => v,
        None => {
            return None;
        },
    };
    let minute = match two_digits(name, 13) {
        Some(v) => v,
        None => {
            return None;
        },
    };
    let second = match two_digits(name, 16) {
        Some(v) => v,
        None => {
            return None;
        },
    };
    let date = BackupDate {
        year: (y_hi as u16) * 100 + (y_lo as u16),
        month,
        day,
        hour,
        minute,
        second,
    };
    if date.is_valid() {
        Some(date)
    } else {
        None
    }
}

} // verus!
