use vstd::prelude::*;
use std::time::{Duration, SystemTime};
use crate::text::{
    append_zero_padded, is_ascii_decimal_digit, lemma_decimal_len_bound, lemma_zero_padded_len,
    pow10, zero_padded,
};

verus! {

/// Leap years of the proleptic Gregorian calendar.
pub open spec fn is_leap_year(y: int) -> bool {
    y % 4 == 0 && (y % 100 != 0 || y % 400 == 0)
}

/// Length of month `m` (1 = January) of year `y`.
pub open spec fn days_in_month(y: int, m: int) -> int {
    if m == 2 {
        if is_leap_year(y) { 29 } else { 28 }
    } else if m == 4 || m == 6 || m == 9 || m == 11 {
        30
    } else {
        31
    }
}

/// Days of year `y` that lie before the first of month `m`.
pub open spec fn days_before_month(y: int, m: int) -> int {
    let common: int = if m <= 1 { 0 } else if m == 2 { 31 } else if m == 3 { 59 } else if m == 4 { 90 }
        else if m == 5 { 120 } else if m == 6 { 151 } else if m == 7 { 181 } else if m == 8 { 212 }
        else if m == 9 { 243 } else if m == 10 { 273 } else if m == 11 { 304 } else { 334 };
    if m > 2 && is_leap_year(y) { common + 1 } else { common }
}

/// Number of leap years among the years 1 ..= y - 1 (negative before year 1).
pub open spec fn leap_years_before(y: int) -> int {
    (y - 1) / 4 - (y - 1) / 100 + (y - 1) / 400
}

/// Days from 1970-01-01 to the date `y`-`m`-`d` (negative before it).
pub open spec fn days_from_unix_epoch(y: int, m: int, d: int) -> int {
    365 * (y - 1970) + (leap_years_before(y) - leap_years_before(1970)) + days_before_month(y, m) + d - 1
}

/// `y`-`m`-`d` names a day of the calendar.
pub open spec fn is_valid_date(y: int, m: int, d: int) -> bool {
    1 <= m <= 12 && 1 <= d <= days_in_month(y, m)
}

/// `t` = (year, month, day, hour, minute, second) is the UTC calendar time of the
/// instant `epoch` seconds after 1970-01-01T00:00:00Z (leap seconds ignored).
pub open spec fn is_utc_civil_time(epoch: int, t: (i64, u32, u32, u32, u32, u32)) -> bool {
    &&& is_valid_date(t.0 as int, t.1 as int, t.2 as int)
    &&& t.3 < 24
    &&& t.4 < 60
    &&& t.5 < 60
    &&& epoch == days_from_unix_epoch(t.0 as int, t.1 as int, t.2 as int) * 86400 + t.3 * 3600
        + t.4 * 60 + t.5
}

/// First day, counted from 1 March, of month index `mp` of a year that starts in March.
spec fn march_month_start(mp: int) -> int {
    if mp <= 0 { 0 } else if mp == 1 { 31 } else if mp == 2 { 61 } else if mp == 3 { 92 }
    else if mp == 4 { 122 } else if mp == 5 { 153 } else if mp == 6 { 184 } else if mp == 7 { 214 }
    else if mp == 8 { 245 } else if mp == 9 { 275 } else if mp == 10 { 306 } else { 337 }
}

/// Year of a 400-year era that starts on 1 March: an era is four centuries of 36524
/// days (the last one a day longer), a century 25 blocks of 1461 days, a block four
/// years of 365 days (the last one a day longer). Writing `doe` as `c` centuries,
/// `q` blocks, `r` years and `t` days shows that the formula picks year `100c + 4q + r`.
proof fn lemma_year_of_era(doe: int)
    requires
        0 <= doe <= 146096,
    ensures
        ({
            let yoe = (doe - doe / 1460 + doe / 36524 - doe / 146096) / 365;
            let start = 365 * yoe + yoe / 4 - yoe / 100;
            &&& 0 <= yoe <= 399
            &&& start <= doe
            &&& doe - start < 365 + (if is_leap_year(yoe + 1) { 1int } else { 0 })
        }),
{
    let c: int = if doe / 36524 < 3 { doe / 36524 } else { 3 };
    let rem1 = doe - 36524 * c;
    assert(0 <= rem1 <= 36524);
    assert(c < 3 ==> rem1 < 36524);
    let q = rem1 / 1461;
    assert(0 <= q <= 24);
    let rem2 = rem1 - 1461 * q;
    assert(0 <= rem2 <= 1460);
    let r: int = if rem2 / 365 < 3 { rem2 / 365 } else { 3 };
    let t = rem2 - 365 * r;
    assert(0 <= t <= 365);
    assert(t == 365 ==> r == 3 && rem2 == 1460);
    let k = 100 * c + 4 * q + r;
    assert(doe == 36524 * c + 1461 * q + 365 * r + t);
    assert(k / 4 == 25 * c + q);
    assert(k / 100 == c);
    let big = 24 * c + q + 365 * r + t;
    let x: int = if big >= 1460 { 1 } else { 0 };
    assert(doe == 1460 * (25 * c + q) + big);
    assert(doe / 1460 == 25 * c + q + x);
    assert(doe / 36524 - doe / 146096 == c);
    let g = doe - doe / 1460 + doe / 36524 - doe / 146096;
    assert(g == 365 * k + t - x);
    assert(x == 1 ==> t >= 1);
    assert(t == 365 ==> x == 1);
    assert(g / 365 == k);
    assert(t == 365 ==> is_leap_year(k + 1));
}

/// Month (counted from March) and its first day for day `doy` of a March-based year.
proof fn lemma_month_of_year(doy: int, leap: bool)
    requires
        0 <= doy < 365 + (if leap { 1int } else { 0 }),
    ensures
        ({
            let mp = (5 * doy + 2) / 153;
            &&& 0 <= mp <= 11
            &&& (153 * mp + 2) / 5 == march_month_start(mp)
            &&& march_month_start(mp) <= doy
            &&& doy < (if mp == 11 { 365 + (if leap { 1int } else { 0 }) } else { march_month_start(mp + 1) })
        }),
{
    let mp = (5 * doy + 2) / 153;
    assert(0 <= mp <= 11);
    assert(153 * mp <= 5 * doy + 2 < 153 * mp + 153);
}

proof fn lemma_leap_years_step(y: int)
    ensures
        leap_years_before(y) + (if is_leap_year(y) { 1int } else { 0 }) == y / 4 - y / 100 + y / 400,
        leap_years_before(y + 1) == y / 4 - y / 100 + y / 400,
{
    lemma_pred_div(y, 4);
    lemma_pred_div(y, 100);
    lemma_pred_div(y, 400);
    let a: int = if y % 4 == 0 { 1 } else { 0 };
    let b: int = if y % 100 == 0 { 1 } else { 0 };
    let c: int = if y % 400 == 0 { 1 } else { 0 };
    assert(leap_years_before(y) == y / 4 - y / 100 + y / 400 - a + b - c);
    lemma_divides_chain(y);
    assert((if is_leap_year(y) { 1int } else { 0 }) == a - b + c);
}

proof fn lemma_divides_chain(y: int)
    ensures
        y % 400 == 0 ==> y % 100 == 0,
        y % 100 == 0 ==> y % 4 == 0,
{
    if y % 400 == 0 {
        let k = y / 400;
        assert(y == 100 * (4 * k));
    }
    if y % 100 == 0 {
        let k = y / 100;
        assert(y == 4 * (25 * k));
    }
}

proof fn lemma_pred_div(y: int, n: int)
    requires
        n == 4 || n == 100 || n == 400,
    ensures
        (y - 1) / n == y / n - (if y % n == 0 { 1int } else { 0 }),
{
    let q = y / n;
    let r = y % n;
    assert(y == n * q + r && 0 <= r < n);
    if r == 0 {
        assert(y - 1 == n * (q - 1) + (n - 1));
    } else {
        assert(y - 1 == n * q + (r - 1));
    }
}

proof fn lemma_date_of_march_year(era: int, yoe: int, doy: int, days: int)
    requires
        0 <= yoe <= 399,
        0 <= doy < 365 + (if is_leap_year(yoe + 1) { 1int } else { 0 }),
        days == era * 146097 + (365 * yoe + yoe / 4 - yoe / 100) + doy - 719468,
    ensures
        ({
            let y = yoe + era * 400;
            let mp = (5 * doy + 2) / 153;
            let d = doy - (153 * mp + 2) / 5 + 1;
            let m = if mp < 10 { mp + 3 } else { mp - 9 };
            let year = if m <= 2 { y + 1 } else { y };
            &&& 0 <= mp <= 11
            &&& is_valid_date(year, m, d)
            &&& days_from_unix_epoch(year, m, d) == days
        }),
{
    let y = yoe + era * 400;
    let leap = is_leap_year(yoe + 1);
    lemma_month_of_year(doy, leap);
    let mp = (5 * doy + 2) / 153;
    let d = doy - (153 * mp + 2) / 5 + 1;
    let m = if mp < 10 { mp + 3 } else { mp - 9 };
    let year = if m <= 2 { y + 1 } else { y };
    lemma_shift_by_eras(era, yoe);
    assert(leap_years_before(1970) == 477);
    lemma_leap_years_step(y);
    let cycle = y / 4 - y / 100 + y / 400;
    assert(365 * y + cycle == era * 146097 + (365 * yoe + yoe / 4 - yoe / 100));
    if mp < 10 {
        assert(days_before_month(year, m) == march_month_start(mp) + 59 + (if is_leap_year(y) { 1int } else { 0 }));
        assert(is_valid_date(year, m, d));
    } else {
        assert(is_leap_year(year) == leap);
        assert(days_before_month(year, m) == march_month_start(mp) - 306);
        assert(is_valid_date(year, m, d));
    }
}

proof fn lemma_shift_by_eras(era: int, yoe: int)
    requires
        0 <= yoe <= 399,
    ensures
        (yoe + era * 400) / 4 == 100 * era + yoe / 4,
        (yoe + era * 400) / 100 == 4 * era + yoe / 100,
        (yoe + era * 400) / 400 == era,
        is_leap_year(yoe + era * 400 + 1) == is_leap_year(yoe + 1),
{
    let y = yoe + era * 400;
    assert(y == 4 * (100 * era + yoe / 4) + yoe % 4);
    assert(y == 100 * (4 * era + yoe / 100) + yoe % 100);
    assert(y + 1 == 4 * (100 * era) + (yoe + 1));
    assert((y + 1) % 4 == (yoe + 1) % 4);
    assert((y + 1) % 100 == (yoe + 1) % 100);
    assert((y + 1) % 400 == (yoe + 1) % 400);
}

/// The date that the era computation gives for a day count is valid and has that count.
proof fn lemma_days_of_day_count(days: int)
    ensures
        ({
            let z = days + 719468;
            let era = z / 146097;
            let doe = z - era * 146097;
            let yoe = (doe - doe / 1460 + doe / 36524 - doe / 146096) / 365;
            let y = yoe + era * 400;
            let doy = doe - (365 * yoe + yoe / 4 - yoe / 100);
            let mp = (5 * doy + 2) / 153;
            let d = doy - (153 * mp + 2) / 5 + 1;
            let m = if mp < 10 { mp + 3 } else { mp - 9 };
            let year = if m <= 2 { y + 1 } else { y };
            &&& 0 <= doe <= 146096
            &&& 0 <= yoe <= 399
            &&& 0 <= doy <= 365
            &&& 0 <= mp <= 11
            &&& is_valid_date(year, m, d)
            &&& days_from_unix_epoch(year, m, d) == days
        }),
{
    let z = days + 719468;
    let era = z / 146097;
    let doe = z - era * 146097;
    assert(0 <= doe <= 146096);
    lemma_year_of_era(doe);
    let yoe = (doe - doe / 1460 + doe / 36524 - doe / 146096) / 365;
    let doy = doe - (365 * yoe + yoe / 4 - yoe / 100);
    lemma_date_of_march_year(era, yoe, doy, days);
}

/// Converts seconds since 1970-01-01T00:00:00Z into the UTC calendar time
/// (year, month, day, hour, minute, second), leap seconds ignored.
pub fn civil_from_epoch(epoch_secs: i64) -> (t: (i64, u32, u32, u32, u32, u32))
    ensures
        is_utc_civil_time(epoch_secs as int, t),
{
    let days = epoch_secs.checked_div_euclid(86400).unwrap();
    let secs_of_day = epoch_secs.checked_rem_euclid(86400).unwrap();
    assert(epoch_secs == days * 86400 + secs_of_day && 0 <= secs_of_day < 86400);
    let hour = (secs_of_day / 3600) as u32;
    let min = ((secs_of_day % 3600) / 60) as u32;
    let sec = (secs_of_day % 60) as u32;
    assert(secs_of_day == hour * 3600 + min * 60 + sec);

    let z = days + 719468;
    let era = (if z >= 0 { z } else { z - 146096 }) / 146097;
    assert(era == z / 146097);
    proof {
        lemma_days_of_day_count(days as int);
    }
    let doe = z - era * 146097;
    let yoe = (doe - doe / 1460 + doe / 36524 - doe / 146096) / 365;
    let y = yoe + era * 400;
    let doy = doe - (365 * yoe + yoe / 4 - yoe / 100);
    let mp = (5 * doy + 2) / 153;
    let d = (doy - (153 * mp + 2) / 5 + 1) as u32;
    let m = (if mp < 10 { mp + 3 } else { mp - 9 }) as u32;
    let year = if m <= 2 { y + 1 } else { y };
    (year, m, d, hour, min, sec)
}

proof fn lemma_year_bounds(y: int, m: int, d: int)
    requires
        is_valid_date(y, m, d),
    ensures
        days_from_unix_epoch(y, 1, 1) <= days_from_unix_epoch(y, m, d) < days_from_unix_epoch(y + 1, 1, 1),
{
    lemma_leap_years_step(y);
}

proof fn lemma_year_starts_increase(y1: int, y2: int)
    requires
        y1 < y2,
    ensures
        days_from_unix_epoch(y1 + 1, 1, 1) <= days_from_unix_epoch(y2, 1, 1),
    decreases y2 - y1,
{
    if y1 + 1 < y2 {
        lemma_year_starts_increase(y1 + 1, y2);
        lemma_leap_years_step(y1 + 1);
    }
}

proof fn lemma_date_days_injective(y1: int, m1: int, d1: int, y2: int, m2: int, d2: int)
    requires
        is_valid_date(y1, m1, d1),
        is_valid_date(y2, m2, d2),
        days_from_unix_epoch(y1, m1, d1) == days_from_unix_epoch(y2, m2, d2),
    ensures
        y1 == y2 && m1 == m2 && d1 == d2,
{
    lemma_year_bounds(y1, m1, d1);
    lemma_year_bounds(y2, m2, d2);
    if y1 < y2 {
        lemma_year_starts_increase(y1, y2);
    } else if y2 < y1 {
        lemma_year_starts_increase(y2, y1);
    }
    assert(y1 == y2);
    assert(days_before_month(y1, m1) + d1 == days_before_month(y1, m2) + d2);
}

/// Every instant has exactly one UTC calendar time: two calendar times of the
/// same instant are the same.
pub proof fn lemma_utc_civil_time_unique(
    epoch: int,
    t1: (i64, u32, u32, u32, u32, u32),
    t2: (i64, u32, u32, u32, u32, u32),
)
    requires
        is_utc_civil_time(epoch, t1),
        is_utc_civil_time(epoch, t2),
    ensures
        t1 == t2,
{
    let days1 = days_from_unix_epoch(t1.0 as int, t1.1 as int, t1.2 as int);
    let days2 = days_from_unix_epoch(t2.0 as int, t2.1 as int, t2.2 as int);
    let s1 = t1.3 * 3600 + t1.4 * 60 + t1.5;
    let s2 = t2.3 * 3600 + t2.4 * 60 + t2.5;
    lemma_split_unique(days1, s1, days2, s2, 86400);
    lemma_date_days_injective(t1.0 as int, t1.1 as int, t1.2 as int, t2.0 as int, t2.1 as int, t2.2 as int);
    lemma_split_unique(t1.3 as int, t1.4 * 60 + t1.5, t2.3 as int, t2.4 * 60 + t2.5, 3600);
    lemma_split_unique(t1.4 as int, t1.5 as int, t2.4 as int, t2.5 as int, 60);
}

/// `t1` is no later than `t2` in calendar order.
pub open spec fn civil_le(
    t1: (i64, u32, u32, u32, u32, u32),
    t2: (i64, u32, u32, u32, u32, u32),
) -> bool {
    ||| t1.0 < t2.0
    ||| t1.0 == t2.0 && t1.1 < t2.1
    ||| t1.0 == t2.0 && t1.1 == t2.1 && t1.2 < t2.2
    ||| t1.0 == t2.0 && t1.1 == t2.1 && t1.2 == t2.2 && t1.3 < t2.3
    ||| t1.0 == t2.0 && t1.1 == t2.1 && t1.2 == t2.2 && t1.3 == t2.3 && t1.4 < t2.4
    ||| t1.0 == t2.0 && t1.1 == t2.1 && t1.2 == t2.2 && t1.3 == t2.3 && t1.4 == t2.4 && t1.5 <= t2.5
}

proof fn lemma_date_days_ordered(y1: int, m1: int, d1: int, y2: int, m2: int, d2: int)
    requires
        is_valid_date(y1, m1, d1),
        is_valid_date(y2, m2, d2),
        days_from_unix_epoch(y1, m1, d1) < days_from_unix_epoch(y2, m2, d2),
    ensures
        y1 < y2 || (y1 == y2 && (m1 < m2 || (m1 == m2 && d1 < d2))),
{
    lemma_year_bounds(y1, m1, d1);
    lemma_year_bounds(y2, m2, d2);
    if y2 < y1 {
        lemma_year_starts_increase(y2, y1);
    }
    assert(y1 <= y2);
}

/// Calendar time keeps the order of instants: a later instant never has an
/// earlier UTC calendar time.
pub proof fn lemma_utc_civil_time_monotone(
    e1: int,
    t1: (i64, u32, u32, u32, u32, u32),
    e2: int,
    t2: (i64, u32, u32, u32, u32, u32),
)
    requires
        e1 <= e2,
        is_utc_civil_time(e1, t1),
        is_utc_civil_time(e2, t2),
    ensures
        civil_le(t1, t2),
{
    let days1 = days_from_unix_epoch(t1.0 as int, t1.1 as int, t1.2 as int);
    let days2 = days_from_unix_epoch(t2.0 as int, t2.1 as int, t2.2 as int);
    let s1 = t1.3 * 3600 + t1.4 * 60 + t1.5;
    let s2 = t2.3 * 3600 + t2.4 * 60 + t2.5;
    assert(days1 <= days2);
    if days1 < days2 {
        lemma_date_days_ordered(
            t1.0 as int,
            t1.1 as int,
            t1.2 as int,
            t2.0 as int,
            t2.1 as int,
            t2.2 as int,
        );
    } else {
        lemma_date_days_injective(t1.0 as int, t1.1 as int, t1.2 as int, t2.0 as int, t2.1 as int, t2.2 as int);
        assert(s1 <= s2);
    }
}

proof fn lemma_split_unique(q1: int, r1: int, q2: int, r2: int, d: int)
    requires
        d > 0,
        0 <= r1 < d,
        0 <= r2 < d,
        q1 * d + r1 == q2 * d + r2,
    ensures
        q1 == q2 && r1 == r2,
{
    if q1 < q2 {
        assert(q1 * d + d <= q2 * d) by (nonlinear_arith)
            requires
                q1 < q2,
                d > 0,
        ;
    } else if q2 < q1 {
        assert(q2 * d + d <= q1 * d) by (nonlinear_arith)
            requires
                q2 < q1,
                d > 0,
        ;
    }
}

/// `v` in decimal with zeros in front up to `width` characters, a minus sign counted
/// in the width, as the format `{:0width$}` writes a signed integer.
pub open spec fn signed_zero_padded(v: int, width: nat) -> Seq<char> {
    if v < 0 {
        seq!['-'] + zero_padded((-v) as nat, (width - 1) as nat)
    } else {
        zero_padded(v as nat, width)
    }
}

/// `t` written as `YYYY-MM-DDTHH:MM:SSZ` (RFC 3339, UTC).
pub open spec fn rfc3339_text(t: (i64, u32, u32, u32, u32, u32)) -> Seq<char> {
    signed_zero_padded(t.0 as int, 4) + seq!['-'] + zero_padded(t.1 as nat, 2) + seq!['-']
        + zero_padded(t.2 as nat, 2) + seq!['T'] + zero_padded(t.3 as nat, 2) + seq![':']
        + zero_padded(t.4 as nat, 2) + seq![':'] + zero_padded(t.5 as nat, 2) + seq!['Z']
}


/// Writes the calendar time `t` as `YYYY-MM-DDTHH:MM:SSZ`.
pub fn format_rfc3339(t: (i64, u32, u32, u32, u32, u32)) -> (r: String)
    ensures
        r@ == rfc3339_text(t),
{
    let mut out = String::new();
    if t.0 < 0 {
        proof { reveal_strlit("-"); }
        out.append("-");
        let magnitude: u64 = ((-(t.0 + 1)) as u64) + 1;
        append_zero_padded(&mut out, magnitude, 3);
    } else {
        append_zero_padded(&mut out, t.0 as u64, 4);
    }
    proof {
        reveal_strlit("-");
        reveal_strlit("T");
        reveal_strlit(":");
        reveal_strlit("Z");
    }
    out.append("-");
    append_zero_padded(&mut out, t.1 as u64, 2);
    out.append("-");
    append_zero_padded(&mut out, t.2 as u64, 2);
    out.append("T");
    append_zero_padded(&mut out, t.3 as u64, 2);
    out.append(":");
    append_zero_padded(&mut out, t.4 as u64, 2);
    out.append(":");
    append_zero_padded(&mut out, t.5 as u64, 2);
    out.append("Z");
    out
}

/// The instant `epoch_secs` seconds after 1970-01-01T00:00:00Z as `YYYY-MM-DDTHH:MM:SSZ`.
pub fn rfc3339_from_epoch(epoch_secs: i64) -> (r: String)
    ensures
        exists|t: (i64, u32, u32, u32, u32, u32)|
            is_utc_civil_time(epoch_secs as int, t) && r@ == rfc3339_text(t),
        forall|t: (i64, u32, u32, u32, u32, u32)|
            is_utc_civil_time(epoch_secs as int, t) ==> r@ == rfc3339_text(t),
{
    let t = civil_from_epoch(epoch_secs);
    let r = format_rfc3339(t);
    assert forall|t2: (i64, u32, u32, u32, u32, u32)|
        is_utc_civil_time(epoch_secs as int, t2) implies r@ == rfc3339_text(t2) by {
        lemma_utc_civil_time_unique(epoch_secs as int, t, t2);
    }
    r
}

/// For the years 0 ..= 9999 the text has the fixed shape `YYYY-MM-DDTHH:MM:SSZ`:
/// 20 characters, ASCII digits where the pattern has digits, separators in their
/// places, ending in `Z`.
pub proof fn lemma_rfc3339_shape(t: (i64, u32, u32, u32, u32, u32))
    requires
        0 <= t.0 <= 9999,
        t.1 < 100,
        t.2 < 100,
        t.3 < 100,
        t.4 < 100,
        t.5 < 100,
    ensures
        rfc3339_text(t).len() == 20,
        rfc3339_text(t)[4] == '-',
        rfc3339_text(t)[7] == '-',
        rfc3339_text(t)[10] == 'T',
        rfc3339_text(t)[13] == ':',
        rfc3339_text(t)[16] == ':',
        rfc3339_text(t)[19] == 'Z',
        forall|i: int|
            0 <= i < 20 && i != 4 && i != 7 && i != 10 && i != 13 && i != 16 && i != 19
                ==> is_ascii_decimal_digit(#[trigger] rfc3339_text(t)[i]),
{
    reveal_with_fuel(pow10, 5);
    lemma_decimal_len_bound(t.0 as nat, 4);
    lemma_zero_padded_len(t.0 as nat, 4);
    lemma_decimal_len_bound(t.1 as nat, 2);
    lemma_zero_padded_len(t.1 as nat, 2);
    lemma_decimal_len_bound(t.2 as nat, 2);
    lemma_zero_padded_len(t.2 as nat, 2);
    lemma_decimal_len_bound(t.3 as nat, 2);
    lemma_zero_padded_len(t.3 as nat, 2);
    lemma_decimal_len_bound(t.4 as nat, 2);
    lemma_zero_padded_len(t.4 as nat, 2);
    lemma_decimal_len_bound(t.5 as nat, 2);
    lemma_zero_padded_len(t.5 as nat, 2);
}

/// std's `SystemTime`, carried through as an opaque value.
#[verifier::external_type_specification]
#[verifier::external_body]
pub struct ExSystemTime(SystemTime);

/// Calls `SystemTime::now`. What the clock reads is not stated.
#[verifier::external_body]
fn system_time_now() -> SystemTime {
    SystemTime::now()
}

/// Calls `SystemTime::duration_since` with `UNIX_EPOCH`, giving `None` where std
/// reports an error (a clock before 1970). The duration itself is not stated.
#[verifier::external_body]
fn duration_since_unix_epoch(t: &SystemTime) -> Option<Duration> {
    t.duration_since(std::time::UNIX_EPOCH).ok()
}

/// Calls `Duration::as_secs`. Nothing is stated of the seconds: a `Duration` is opaque here.
#[verifier::external_body]
fn duration_whole_secs(d: &Duration) -> u64 {
    d.as_secs()
}

/// The instant that a clock reading stands for: whole seconds since 1970 taken as
/// an `i64` (wrapping as `as` does), and 1970-01-01T00:00:00Z for a clock before 1970.
pub open spec fn reading_epoch(reading: Option<u64>) -> int {
    match reading {
        Some(secs) => (secs as i64) as int,
        None => 0,
    }
}

/// The clock reading `reading` (seconds since 1970, `None` before 1970) as
/// `YYYY-MM-DDTHH:MM:SSZ`.
pub fn rfc3339_from_reading(reading: Option<u64>) -> (r: String)
    ensures
        exists|t: (i64, u32, u32, u32, u32, u32)|
            is_utc_civil_time(reading_epoch(reading), t) && r@ == rfc3339_text(t),
        forall|t: (i64, u32, u32, u32, u32, u32)|
            is_utc_civil_time(reading_epoch(reading), t) ==> r@ == rfc3339_text(t),
{
    let epoch: i64 = match reading {
        Some(secs) => secs as i64,
        None => 0,
    };
    rfc3339_from_epoch(epoch)
}

/// The current UTC time as `YYYY-MM-DDTHH:MM:SSZ`; a clock before 1970 reads as 1970-01-01T00:00:00Z.
pub fn now_utc_rfc3339() -> (r: String)
    ensures
        exists|reading: Option<u64>, t: (i64, u32, u32, u32, u32, u32)|
            is_utc_civil_time(reading_epoch(reading), t) && r@ == rfc3339_text(t),
{
    let now = system_time_now();
    let reading: Option<u64> = match duration_since_unix_epoch(&now) {
        Some(d) => Some(duration_whole_secs(&d)),
        None => None,
    };
    rfc3339_from_reading(reading)
}

} // verus!
