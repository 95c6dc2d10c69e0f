//! The cutoff timestamp: a string in the exact literal pattern
//! `YYYY-MM-DD HH:MM:SS`, interpreted as an instant in UTC and converted to
//! seconds since the Unix epoch. A malformed string is a configuration error
//! detected before any filesystem work begins.

use vstd::prelude::*;

verus! {

/// Error reported for a malformed cutoff timestamp string; the run
/// terminates before the output file is created or the tree is touched.
#[derive(Clone, Copy, Debug, PartialEq, Eq, Structural)]
pub enum ConfigError {
    BadTimestamp,
}

pub open spec fn is_digit(b: u8) -> bool {
    48 <= b && b <= 57
}

/// Numeric value of an ASCII digit byte.
pub open spec fn dval(b: u8) -> int {
    b - 48
}

pub open spec fn two_digits(s: Seq<u8>, i: int) -> int {
    dval(s[i]) * 10 + dval(s[i + 1])
}

pub open spec fn year_of(s: Seq<u8>) -> int {
    dval(s[0]) * 1000 + dval(s[1]) * 100 + dval(s[2]) * 10 + dval(s[3])
}

pub open spec fn month_of(s: Seq<u8>) -> int {
    two_digits(s, 5)
}

pub open spec fn day_of(s: Seq<u8>) -> int {
    two_digits(s, 8)
}

pub open spec fn hour_of(s: Seq<u8>) -> int {
    two_digits(s, 11)
}

pub open spec fn minute_of(s: Seq<u8>) -> int {
    two_digits(s, 14)
}

pub open spec fn second_of(s: Seq<u8>) -> int {
    two_digits(s, 17)
}

/// The literal shape `YYYY-MM-DD HH:MM:SS`: ASCII digits in every field
/// position, `-` (45) at positions 4 and 7, a space (32) at position 10,
/// and `:` (58) at positions 13 and 16.
pub open spec fn timestamp_shape(s: Seq<u8>) -> bool {
    &&& s.len() == 19
    &&& is_digit(s[0])
    &&& is_digit(s[1])
    &&& is_digit(s[2])
    &&& is_digit(s[3])
    &&& s[4] == 45u8
    &&& is_digit(s[5])
    &&& is_digit(s[6])
    &&& s[7] == 45u8
    &&& is_digit(s[8])
    &&& is_digit(s[9])
    &&& s[10] == 32u8
    &&& is_digit(s[11])
    &&& is_digit(s[12])
    &&& s[13] == 58u8
    &&& is_digit(s[14])
    &&& is_digit(s[15])
    &&& s[16] == 58u8
    &&& is_digit(s[17])
    &&& is_digit(s[18])
}

pub open spec fn is_leap_year(y: int) -> bool {
    y % 4 == 0 && (y % 100 != 0 || y % 400 == 0)
}

pub open spec fn days_in_month(y: int, m: int) -> int {
    if m == 2 {
        if is_leap_year(y) {
            29
        } else {
            28
        }
    } else if m == 4 || m == 6 || m == 9 || m == 11 {
        30
    } else {
        31
    }
}

/// The calendar fields must denote a real date and time of day: the month in
/// 1..=12, the day within the month's length for that year, and the time
/// fields within a 24-hour clock.
pub open spec fn fields_in_range(s: Seq<u8>) -> bool {
    &&& 1 <= month_of(s) <= 12
    &&& 1 <= day_of(s) <= days_in_month(year_of(s), month_of(s))
    &&& hour_of(s) <= 23
    &&& minute_of(s) <= 59
    &&& second_of(s) <= 59
}

/// A byte string is a valid cutoff exactly when it has the literal
/// `YYYY-MM-DD HH:MM:SS` shape and its fields denote a real instant.
pub open spec fn valid_timestamp(s: Seq<u8>) -> bool {
    timestamp_shape(s) && fields_in_range(s)
}

/// Number of leap years in the proleptic Gregorian calendar among
/// `0, 1, ..., y - 1`.
pub open spec fn leap_count(y: int) -> int
    decreases y,
{
    if y <= 0 {
        0
    } else {
        leap_count(y - 1) + if is_leap_year(y - 1) {
            1int
        } else {
            0int
        }
    }
}

/// Days from 0000-01-01 to the start of year `y` (proleptic Gregorian).
pub open spec fn days_before_year(y: int) -> int {
    365 * y + leap_count(y)
}

/// Days from the start of year `y` to the start of month `m` of year `y`.
pub open spec fn days_before_month(y: int, m: int) -> int
    decreases m,
{
    if m <= 1 {
        0
    } else {
        days_before_month(y, m - 1) + days_in_month(y, m - 1)
    }
}

/// Days from 0000-01-01 to 1970-01-01.
pub open spec fn days_to_unix_epoch() -> int {
    719528
}

/// Days from 1970-01-01 to the date `y`-`m`-`d`; negative before the epoch.
pub open spec fn epoch_days(y: int, m: int, d: int) -> int {
    days_before_year(y) + days_before_month(y, m) + d - 1 - days_to_unix_epoch()
}

/// The instant a valid timestamp string denotes, in seconds since the
/// Unix epoch, at one-second resolution.
pub open spec fn epoch_seconds(s: Seq<u8>) -> int {
    epoch_days(year_of(s), month_of(s), day_of(s)) * 86400 + hour_of(s) * 3600 + minute_of(s) * 60
        + second_of(s)
}

fn digit(b: u8) -> (r: bool)
    ensures
        r == is_digit(b),
{
    48 <= b && b <= 57
}

fn digit_val(b: u8) -> (r: u64)
    requires
        is_digit(b),
    ensures
        r == dval(b),
{
    (b - 48) as u64
}

fn is_leap_year_x(y: u64) -> (r: bool)
    ensures
        r == is_leap_year(y as int),
{
    y % 4 == 0 && (y % 100 != 0 || y % 400 == 0)
}

fn leap_years_before(y: u64) -> (r: u64)
    requires
        y <= 9999,
    ensures
        r == leap_count(y as int),
        r <= y,
{
    let mut k: u64 = 0;
    let mut acc: u64 = 0;
    while k < y
        invariant
            k <= y <= 9999,
            acc == leap_count(k as int),
            acc <= k,
        decreases y - k,
    {
        if is_leap_year_x(k) {
            acc = acc + 1;
        }
        k = k + 1;
    }
    acc
}

fn days_in_month_x(y: u64, m: u64) -> (r: u64)
    requires
        1 <= m <= 12,
    ensures
        r == days_in_month(y as int, m as int),
        28 <= r <= 31,
{
    if m == 2 {
        if is_leap_year_x(y) {
            29
        } else {
            28
        }
    } else if m == 4 || m == 6 || m == 9 || m == 11 {
        30
    } else {
        31
    }
}

fn days_before_month_x(y: u64, m: u64) -> (r: u64)
    requires
        1 <= m <= 12,
    ensures
        r == days_before_month(y as int, m as int),
        r <= 366,
{
    let mut k: u64 = 1;
    let mut acc: u64 = 0;
    while k < m
        invariant
            1 <= k <= m <= 12,
            acc == days_before_month(y as int, k as int),
            acc <= 31 * (k - 1),
        decreases m - k,
    {
        acc = acc + days_in_month_x(y, k);
        k = k + 1;
    }
    acc
}

/// Parses the cutoff string: accepts exactly the byte strings with the
/// literal `YYYY-MM-DD HH:MM:SS` shape whose fields denote a real instant,
/// and returns that instant in seconds since the Unix epoch.
pub fn parse_last_modified(s: &[u8]) -> (r: Result<i64, ConfigError>)
    ensures
        r is Ok <==> valid_timestamp(s@),
        r is Ok ==> r->Ok_0 == epoch_seconds(s@),
        r is Err ==> r->Err_0 == ConfigError::BadTimestamp,
{
    if s.len() != 19 {
        return Err(ConfigError::BadTimestamp);
    }
    if s[4] != 45 || s[7] != 45 || s[10] != 32 || s[13] != 58 || s[16] != 58 {
        return Err(ConfigError::BadTimestamp);
    }
    let mut i: usize = 0;
    while i < 19
        invariant
            s@.len() == 19,
            i <= 19,
            forall|j: int|
                0 <= j < i && j != 4 && j != 7 && j != 10 && j != 13 && j != 16 ==> is_digit(
                    s@[j],
                ),
        decreases 19 - i,
    {
        if i != 4 && i != 7 && i != 10 && i != 13 && i != 16 {
            if !digit(s[i]) {
                return Err(ConfigError::BadTimestamp);
            }
        }
        i = i + 1;
    }
    let y: u64 = digit_val(s[0]) * 1000 + digit_val(s[1]) * 100 + digit_val(s[2]) * 10 + digit_val(
        s[3],
    );
    let mo: u64 = digit_val(s[5]) * 10 + digit_val(s[6]);
    let d: u64 = digit_val(s[8]) * 10 + digit_val(s[9]);
    let h: u64 = digit_val(s[11]) * 10 + digit_val(s[12]);
    let mi: u64 = digit_val(s[14]) * 10 + digit_val(s[15]);
    let sec: u64 = digit_val(s[17]) * 10 + digit_val(s[18]);
    if mo < 1 || mo > 12 {
        return Err(ConfigError::BadTimestamp);
    }
    if d < 1 || d > days_in_month_x(y, mo) {
        return Err(ConfigError::BadTimestamp);
    }
    if h > 23 || mi > 59 || sec > 59 {
        return Err(ConfigError::BadTimestamp);
    }
    let days: u64 = 365 * y + leap_years_before(y) + days_before_month_x(y, mo) + (d - 1);
    let total: u64 = days * 86400 + h * 3600 + mi * 60 + sec;
    let r: i64 = (total as i64) - 62167219200i64;
    assert(62167219200 == days_to_unix_epoch() * 86400);
    Ok(r)
}

} // verus!
