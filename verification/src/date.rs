//! Calendar conversion of Unix timestamps (seconds since 1970-01-01T00:00:00Z)
//! into proleptic Gregorian dates.
use vstd::prelude::*;
use crate::text::{decimal, push_char, push_decimal_padded, zero_pad};

verus! {

pub const SECS_PER_MIN: u64 = 60;
pub const SECS_PER_HOUR: u64 = 3600;
pub const SECS_PER_DAY: u64 = 86400;

/// Days in a 400-year Gregorian cycle.
pub const DAYS_PER_400Y: u64 = 146_097;
/// Days in a 100-year cycle within a 400-year cycle.
pub const DAYS_PER_100Y: u64 = 36_524;
/// Days in a 4-year leap cycle.
pub const DAYS_PER_4Y: u64 = 1_461;
/// Days in a common (non-leap) year.
pub const DAYS_PER_YEAR: u64 = 365;

// ---------------------------------------------------------------------------
// The Gregorian calendar, stated directly
// ---------------------------------------------------------------------------

pub open spec fn is_leap(y: int) -> bool {
    (y % 4 == 0 && y % 100 != 0) || y % 400 == 0
}

pub open spec fn year_length(y: int) -> int {
    if is_leap(y) { 366 } else { 365 }
}

/// Number of days in month `m` (1 = January) of year `y`.
pub open spec fn month_length(y: int, m: int) -> int {
    if m == 2 {
        if is_leap(y) { 29 } else { 28 }
    } else if m == 4 || m == 6 || m == 9 || m == 11 {
        30
    } else {
        31
    }
}

/// Days of year `y` that precede the first day of month `m`.
pub open spec fn days_before_month(y: int, m: int) -> int
    decreases m,
{
    if m <= 1 { 0 } else { days_before_month(y, m - 1) + month_length(y, m - 1) }
}

/// Days from 1970-01-01 to the first day of year `y` (`y >= 1970`).
pub open spec fn days_before_year(y: int) -> int
    decreases y - 1970,
{
    if y <= 1970 { 0 } else { days_before_year(y - 1) + year_length(y - 1) }
}

pub open spec fn is_valid_date(y: int, m: int, d: int) -> bool {
    &&& y >= 1970
    &&& 1 <= m <= 12
    &&& 1 <= d <= month_length(y, m)
}

/// Days elapsed from 1970-01-01 to the date `(y, m, d)`.
pub open spec fn day_number(y: int, m: int, d: int) -> int {
    days_before_year(y) + days_before_month(y, m) + d - 1
}

/// The calendar date that falls `n` days after 1970-01-01.
pub open spec fn date_of_day(n: int) -> (int, int, int) {
    choose|t: (int, int, int)| is_valid_date(t.0, t.1, t.2) && day_number(t.0, t.1, t.2) == n
}

pub open spec fn date_le(a: (int, int, int), b: (int, int, int)) -> bool {
    a.0 < b.0 || (a.0 == b.0 && (a.1 < b.1 || (a.1 == b.1 && a.2 <= b.2)))
}

// ---------------------------------------------------------------------------
// Lemmas about the calendar
// ---------------------------------------------------------------------------

/// Count of leap years in `1..=n`.
spec fn leaps_upto(n: int) -> int {
    n / 4 - n / 100 + n / 400
}

proof fn lemma_leaps_step(n: int)
    requires
        n >= 1,
    ensures
        leaps_upto(n) == leaps_upto(n - 1) + (if is_leap(n) { 1int } else { 0int }),
{
}

proof fn lemma_leaps_mono(a: int, b: int)
    requires
        1 <= a <= b,
    ensures
        leaps_upto(a) <= leaps_upto(b),
    decreases b - a,
{
    if a < b {
        lemma_leaps_mono(a, b - 1);
        lemma_leaps_step(b);
    }
}

proof fn lemma_days_before_year_closed(y: int)
    requires
        y >= 1970,
    ensures
        days_before_year(y) == 365 * (y - 1970) + leaps_upto(y - 1) - 477,
    decreases y - 1970,
{
    if y > 1970 {
        lemma_days_before_year_closed(y - 1);
        lemma_leaps_step(y - 1);
    }
}

proof fn lemma_days_before_month_table(y: int, m: int)
    requires
        1 <= m <= 13,
    ensures
        m >= 3 ==> days_before_month(y, m) == 59 + (if is_leap(y) { 1int } else { 0int }) + (153
            * (m - 3) + 2) / 5,
        m == 1 ==> days_before_month(y, m) == 0,
        m == 2 ==> days_before_month(y, m) == 31,
        days_before_month(y, m) + (if m <= 12 { month_length(y, m) } else { 0 })
            <= year_length(y),
{
    reveal_with_fuel(days_before_month, 13);
}

/// Within a year the day offset of a valid date is below the year's length.
proof fn lemma_day_in_year(y: int, m: int, d: int)
    requires
        is_valid_date(y, m, d),
    ensures
        0 <= days_before_month(y, m) + d - 1 < year_length(y),
{
    lemma_days_before_month_table(y, m);
}

proof fn lemma_days_before_year_mono(a: int, b: int)
    requires
        1970 <= a <= b,
    ensures
        days_before_year(a) + (if a < b { year_length(a) } else { 0 }) <= days_before_year(b),
    decreases b - a,
{
    if a < b {
        lemma_days_before_year_mono(a, b - 1);
    }
}

proof fn lemma_days_before_month_mono(y: int, a: int, b: int)
    requires
        1 <= a < b <= 12,
    ensures
        days_before_month(y, a) + month_length(y, a) <= days_before_month(y, b),
    decreases b - a,
{
    if a + 1 < b {
        lemma_days_before_month_mono(y, a, b - 1);
    }
}

/// Day numbers strictly increase with valid dates in calendar order.
pub proof fn lemma_day_number_strict(a: (int, int, int), b: (int, int, int))
    requires
        is_valid_date(a.0, a.1, a.2),
        is_valid_date(b.0, b.1, b.2),
        date_le(a, b),
        a != b,
    ensures
        day_number(a.0, a.1, a.2) < day_number(b.0, b.1, b.2),
{
    lemma_day_in_year(a.0, a.1, a.2);
    lemma_day_in_year(b.0, b.1, b.2);
    if a.0 < b.0 {
        lemma_days_before_year_mono(a.0, b.0);
    } else if a.1 < b.1 {
        lemma_days_before_month_mono(a.0, a.1, b.1);
    }
}

/// A day number determines its valid date: the date is `date_of_day` of it.
pub proof fn lemma_date_of_day_unique(y: int, m: int, d: int)
    requires
        is_valid_date(y, m, d),
    ensures
        date_of_day(day_number(y, m, d)) == (y, m, d),
{
    let n = day_number(y, m, d);
    let t = (y, m, d);
    assert(is_valid_date(t.0, t.1, t.2) && day_number(t.0, t.1, t.2) == n);
    let c = date_of_day(n);
    if c != t {
        if date_le(c, t) {
            lemma_day_number_strict(c, t);
        } else {
            lemma_day_number_strict(t, c);
        }
    }
}

/// Position of `doe` (a day within a 400-year era starting on a March 1st)
/// inside its March-based year.
spec fn era_year_start(k: int) -> int {
    365 * k + k / 4 - k / 100 + k / 400
}

#[verifier::rlimit(50)]
proof fn lemma_year_of_era(doe: int)
    requires
        0 <= doe < 146097,
    ensures
        ({
            let yoe = (doe - doe / 1460 + doe / 36524 - doe / 146096) / 365;
            &&& 0 <= yoe <= 399
            &&& era_year_start(yoe) <= doe < era_year_start(yoe + 1)
        }),
{
}

proof fn lemma_month_of_year(doy: int, len: int)
    requires
        0 <= doy < len,
        len == 365 || len == 366,
    ensures
        ({
            let mp = (5 * doy + 2) / 153;
            &&& 0 <= mp <= 11
            &&& (153 * mp + 2) / 5 <= doy
            &&& mp < 11 ==> doy < (153 * (mp + 1) + 2) / 5
        }),
{
}

/// March-based count of days from 0000-03-01 to the March 1st of year `y`.
spec fn march_year_start(y: int) -> int {
    365 * y + y / 4 - y / 100 + y / 400
}

proof fn lemma_march_year_start_era(era: int, yoe: int)
    requires
        era >= 0,
        0 <= yoe < 400,
    ensures
        march_year_start(400 * era + yoe) == 146097 * era + era_year_start(yoe),
        is_leap(400 * era + yoe + 1) == (era_year_start(yoe + 1) - era_year_start(yoe) == 366),
{
    let y = 400 * era + yoe;
    assert(y / 4 == 100 * era + yoe / 4);
    assert(y / 100 == 4 * era + yoe / 100);
    assert(y / 400 == era + yoe / 400);
    assert((y + 1) % 4 == (yoe + 1) % 4);
    assert((y + 1) % 100 == (yoe + 1) % 100);
    assert((y + 1) % 400 == (yoe + 1) % 400);
}

/// The civil date reached by the era/March-year decomposition of `n` days after 1970-01-01.
spec fn civil_alg(n: int) -> (int, int, int) {
    let z0 = n + 719468;
    let era = z0 / 146097;
    let doe = z0 % 146097;
    let yoe = (doe - doe / 1460 + doe / 36524 - doe / 146096) / 365;
    let yy = yoe + era * 400;
    let doy = doe - (365 * yoe + yoe / 4 - yoe / 100);
    let mp = (5 * doy + 2) / 153;
    let d = doy - (153 * mp + 2) / 5 + 1;
    let m = if mp < 10 { mp + 3 } else { mp - 9 };
    let y = if m <= 2 { yy + 1 } else { yy };
    (y, m, d)
}

#[verifier::rlimit(50)]
proof fn lemma_civil_alg_correct(n: int)
    requires
        n >= 0,
    ensures
        is_valid_date(civil_alg(n).0, civil_alg(n).1, civil_alg(n).2),
        day_number(civil_alg(n).0, civil_alg(n).1, civil_alg(n).2) == n,
        date_of_day(n) == civil_alg(n),
{
    let z0 = n + 719468;
    let era = z0 / 146097;
    let doe = z0 % 146097;
    let yoe = (doe - doe / 1460 + doe / 36524 - doe / 146096) / 365;
    let yy = yoe + era * 400;
    let doy = doe - (365 * yoe + yoe / 4 - yoe / 100);
    let mp = (5 * doy + 2) / 153;
    let d = doy - (153 * mp + 2) / 5 + 1;
    let m = if mp < 10 { mp + 3 } else { mp - 9 };
    let y = if m <= 2 { yy + 1 } else { yy };
    lemma_year_of_era(doe);
    lemma_march_year_start_era(era, yoe);
    let len = era_year_start(yoe + 1) - era_year_start(yoe);
    assert(len == 365 || len == 366);
    lemma_month_of_year(doy, len);
    assert(z0 == march_year_start(yy) + doy);
    assert(y >= 1970);
    lemma_days_before_year_closed(y);
    lemma_days_before_month_table(y, m);
    assert(leaps_upto(y) == march_year_start(y) - 365 * y);
    if m >= 3 {
        lemma_leaps_step(y);
    }
    assert(is_valid_date(y, m, d));
    assert(day_number(y, m, d) == n);
    lemma_date_of_day_unique(y, m, d);
}

// ---------------------------------------------------------------------------
// Conversions
// ---------------------------------------------------------------------------

/// The date of a Unix timestamp, with the year reduced to 32 bits as `u32` holds it.
pub open spec fn ymd_of_secs(secs: u64) -> (u32, u32, u32) {
    let t = date_of_day(secs as int / 86400);
    ((t.0 % 0x1_0000_0000) as u32, t.1 as u32, t.2 as u32)
}

/// Convert Unix seconds to `(year, month, day)` using the era / March-year decomposition.
pub fn unix_secs_to_ymd(secs: u64) -> (r: (u32, u32, u32))
    ensures
        r == ymd_of_secs(secs),
        is_valid_date(date_of_day(secs as int / 86400).0, r.1 as int, r.2 as int),
{
    let days_since_epoch = secs / SECS_PER_DAY;
    let z0 = days_since_epoch + 719_468;
    let era = z0 / DAYS_PER_400Y;
    let z = z0 % DAYS_PER_400Y;
    let yoe = (z - z / (DAYS_PER_4Y - 1) + z / DAYS_PER_100Y - z / (DAYS_PER_400Y - 1))
        / DAYS_PER_YEAR;
    let y = yoe + era * 400;
    let doy = z - (DAYS_PER_YEAR * yoe + yoe / 4 - yoe / 100);
    let mp = (5 * doy + 2) / 153;
    let d = doy - (153 * mp + 2) / 5 + 1;
    let m = if mp < 10 {
        mp + 3
    } else {
        mp - 9
    };
    let y = if m <= 2 {
        y + 1
    } else {
        y
    };
    proof {
        let n = days_since_epoch as int;
        lemma_civil_alg_correct(n);
        assert(civil_alg(n) == (y as int, m as int, d as int));
        assert((y as u32) as int == (y as int) % 0x1_0000_0000) by (bit_vector);
    }
    (y as u32, m as u32, d as u32)
}

/// Convert Unix seconds to `(year, month, day, hour, minute, second)`.
pub fn unix_secs_to_ymd_hms(secs: u64) -> (r: (u32, u32, u32, u32, u32, u32))
    ensures
        (r.0, r.1, r.2) == ymd_of_secs(secs),
        r.3 == (secs % 86400) / 3600,
        r.4 == (secs % 3600) / 60,
        r.5 == secs % 60,
{
    let sec = (secs % SECS_PER_MIN) as u32;
    let min = ((secs % SECS_PER_HOUR) / SECS_PER_MIN) as u32;
    let hour = ((secs % SECS_PER_DAY) / SECS_PER_HOUR) as u32;
    let (y, m, d) = unix_secs_to_ymd(secs);
    (y, m, d, hour, min, sec)
}

/// `YYYY-MM-DD`: each field in decimal, zero-padded to 4, 2 and 2 digits.
pub open spec fn date_text(y: u32, m: u32, d: u32) -> Seq<char> {
    zero_pad(decimal(y as nat), 4) + seq!['-'] + zero_pad(decimal(m as nat), 2) + seq!['-']
        + zero_pad(decimal(d as nat), 2)
}

/// Format Unix seconds as `YYYY-MM-DD`.
pub fn unix_secs_to_date_str(secs: u64) -> (s: String)
    ensures
        s@ == date_text(ymd_of_secs(secs).0, ymd_of_secs(secs).1, ymd_of_secs(secs).2),
{
    let (y, m, d) = unix_secs_to_ymd(secs);
    let mut s = String::new();
    push_decimal_padded(&mut s, y as u64, 4);
    push_char(&mut s, '-');
    push_decimal_padded(&mut s, m as u64, 2);
    push_char(&mut s, '-');
    push_decimal_padded(&mut s, d as u64, 2);
    proof {
        assert(s@ == date_text(y, m, d));
    }
    s
}

/// `(year, month, day, hour, minute, second)` of a Unix timestamp, with the
/// year in full.
pub open spec fn ymd_hms_of(secs: u64) -> (u64, u64, u64, u64, u64, u64) {
    let t = date_of_day(secs as int / 86400);
    (t.0 as u64, t.1 as u64, t.2 as u64, ((secs / 3600) % 24) as u64, ((secs / 60) % 60) as u64, secs % 60)
}

fn is_leap_year(year: u64) -> (b: bool)
    ensures
        b == is_leap(year as int),
{
    (year % 4 == 0 && year % 100 != 0) || year % 400 == 0
}

/// Calendar fields of a Unix timestamp, counting whole years and then whole
/// months off the day number.
pub fn epoch_to_ymd_hms(secs: u64) -> (r: (u64, u64, u64, u64, u64, u64))
    ensures
        r == ymd_hms_of(secs),
{
    let s = secs % 60;
    let total_min = secs / 60;
    let mi = total_min % 60;
    let total_hours = total_min / 60;
    let h = total_hours % 24;
    let mut days = total_hours / 24;
    let ghost n: int = secs as int / 86400;
    proof {
        assert(days == n) by (nonlinear_arith)
            requires days == ((secs / 60) / 60) / 24, n == secs as int / 86400;
        assert(mi == (secs / 60) % 60);
        assert(h == ((secs / 3600) % 24)) by (nonlinear_arith)
            requires h == ((secs / 60) / 60) % 24;
        assert(n <= u64::MAX / 86400) by (nonlinear_arith)
            requires n == secs as int / 86400, secs <= u64::MAX;
    }
    let mut year: u64 = 1970;
    loop
        invariant
            n <= u64::MAX / 86400,
            1970 <= year,
            year as int <= 1970 + n,
            0 <= n,
            days as int == n - days_before_year(year as int),
        ensures
            days < year_length(year as int),
            days as int == n - days_before_year(year as int),
            1970 <= year,
        decreases days,
    {
        let days_in_year: u64 = if is_leap_year(year) { 366 } else { 365 };
        if days < days_in_year {
            break;
        }
        days = days - days_in_year;
        proof {
            assert(days_before_year(year + 1) == days_before_year(year as int) + year_length(year as int));
            lemma_days_before_year_closed(year + 1);
            assert(leaps_upto(year as int) >= 477) by {
                lemma_leaps_mono(1969, year as int);
            }
            assert(year + 1 <= 1970 + n);
            assert(n <= u64::MAX / 86400);
        }
        year = year + 1;
    }
    let leap = is_leap_year(year);
    let mut month: u64 = 1;
    proof { lemma_days_before_month_table(year as int, 13); }
    loop
        invariant
            1 <= month <= 12,
            days as int == n - days_before_year(year as int) - days_before_month(year as int, month as int),
            days as int + days_before_month(year as int, month as int) < year_length(year as int),
            days_before_month(year as int, 13) == year_length(year as int),
            leap == is_leap(year as int),
            1970 <= year,
        ensures
            1 <= month <= 12,
            days < month_length(year as int, month as int),
            days as int == n - days_before_year(year as int) - days_before_month(year as int, month as int),
        decreases 12 - month,
    {
        let md: u64 = if month == 2 {
            if leap { 29 } else { 28 }
        } else if month == 4 || month == 6 || month == 9 || month == 11 {
            30
        } else {
            31
        };
        if days < md {
            break;
        }
        days = days - md;
        proof {
            assert(days_before_month(year as int, month + 1) == days_before_month(year as int, month as int) + month_length(year as int, month as int));
            if month == 12 {
                assert(days_before_month(year as int, 13) == days_before_month(year as int, 12) + month_length(year as int, 12));
            }
        }
        month = month + 1;
    }
    proof {
        assert(is_valid_date(year as int, month as int, days + 1));
        lemma_date_of_day_unique(year as int, month as int, days + 1);
        assert(day_number(year as int, month as int, days + 1) == n);
    }
    (year, month, days + 1, h, mi, s)
}

/// `YYYY-MM-DDTHH:MM:SSZ`, each field zero-padded.
pub open spec fn iso8601_text(secs: u64) -> Seq<char> {
    let t = ymd_hms_of(secs);
    zero_pad(decimal(t.0 as nat), 4) + seq!['-'] + zero_pad(decimal(t.1 as nat), 2) + seq!['-']
        + zero_pad(decimal(t.2 as nat), 2) + seq!['T'] + zero_pad(decimal(t.3 as nat), 2) + seq![':']
        + zero_pad(decimal(t.4 as nat), 2) + seq![':'] + zero_pad(decimal(t.5 as nat), 2) + seq!['Z']
}

/// Format a Unix timestamp as ISO 8601 UTC.
pub fn iso8601(secs: u64) -> (s: String)
    ensures
        s@ == iso8601_text(secs),
{
    let (y, mo, d, h, mi, sec) = epoch_to_ymd_hms(secs);
    let mut s = String::new();
    push_decimal_padded(&mut s, y, 4);
    push_char(&mut s, '-');
    push_decimal_padded(&mut s, mo, 2);
    push_char(&mut s, '-');
    push_decimal_padded(&mut s, d, 2);
    push_char(&mut s, 'T');
    push_decimal_padded(&mut s, h, 2);
    push_char(&mut s, ':');
    push_decimal_padded(&mut s, mi, 2);
    push_char(&mut s, ':');
    push_decimal_padded(&mut s, sec, 2);
    push_char(&mut s, 'Z');
    s
}

// ---------------------------------------------------------------------------
// Laws
// ---------------------------------------------------------------------------

/// Every day count from the epoch on names exactly one valid calendar date.
pub proof fn lemma_every_day_has_a_date(n: int)
    requires
        n >= 0,
    ensures
        is_valid_date(date_of_day(n).0, date_of_day(n).1, date_of_day(n).2),
        day_number(date_of_day(n).0, date_of_day(n).1, date_of_day(n).2) == n,
{
    lemma_civil_alg_correct(n);
}

/// Converted dates never run backwards: a later day count gives a date that is
/// the same or later in calendar order.
pub proof fn lemma_date_of_day_monotonic(n1: int, n2: int)
    requires
        0 <= n1 <= n2,
    ensures
        date_le(date_of_day(n1), date_of_day(n2)),
{
    lemma_civil_alg_correct(n1);
    lemma_civil_alg_correct(n2);
    let a = date_of_day(n1);
    let b = date_of_day(n2);
    if !date_le(a, b) {
        assert(date_le(b, a) && a != b);
        lemma_day_number_strict(b, a);
    }
}

/// A converted month lies in 1..=12 and a converted day lies within its month.
pub proof fn lemma_ymd_in_range(secs: u64)
    ensures
        1 <= ymd_of_secs(secs).1 <= 12,
        1 <= ymd_of_secs(secs).2 <= month_length(date_of_day(secs as int / 86400).0, ymd_of_secs(secs).1 as int),
        ymd_of_secs(secs).2 <= 31,
{
    lemma_civil_alg_correct(secs as int / 86400);
}

/// A converted time of day lies in range: hour below 24, minute and second below 60.
pub proof fn lemma_hms_in_range(secs: u64)
    ensures
        (secs % 86400) / 3600 < 24,
        (secs % 3600) / 60 < 60,
        secs % 60 < 60,
{
}

/// For timestamps below 2^40 (about 34,000 years) the year is never reduced, so
/// later timestamps give dates that are the same or later.
#[verifier::rlimit(40)]
pub proof fn lemma_ymd_monotonic(s1: u64, s2: u64)
    requires
        s1 <= s2 < 0x100_0000_0000,
    ensures
        date_le(
            (ymd_of_secs(s1).0 as int, ymd_of_secs(s1).1 as int, ymd_of_secs(s1).2 as int),
            (ymd_of_secs(s2).0 as int, ymd_of_secs(s2).1 as int, ymd_of_secs(s2).2 as int),
        ),
{
    let n1 = s1 as int / 86400;
    let n2 = s2 as int / 86400;
    lemma_civil_alg_correct(n1);
    lemma_civil_alg_correct(n2);
    lemma_date_of_day_monotonic(n1, n2);
    lemma_year_below(n2);
}

proof fn lemma_year_below(n: int)
    requires
        0 <= n < 0x100_0000_0000int / 86400 + 1,
    ensures
        date_of_day(n).0 < 0x1_0000_0000,
{
    lemma_civil_alg_correct(n);
}

} // verus!
