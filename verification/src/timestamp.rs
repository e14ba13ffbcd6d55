//! UTC timestamps in RFC 3339 form with second precision, such as
//! `2026-07-30T11:42:07Z`.
//!
//! Each run is stamped with one, so that runs can be put in order and the time
//! between two of them can be told.
use vstd::prelude::*;
use vstd::string::*;
use vstd::arithmetic::div_mod::{
    lemma_fundamental_div_mod, lemma_fundamental_div_mod_converse, lemma_mod_multiples_vanish,
};
use vstd::arithmetic::power::pow;
use crate::decimal::{
    all_digits, digits_value, is_ascii_digit, lemma_integer_of_padded, lemma_padded_len,
    lemma_padded_order, padded, padded_text, read_i64,
};
use crate::order::{lemma_precedes_after_prefix, precedes};
use crate::text::{chars_of, slice_of};

verus! {

// ── Calendar ─────────────────────────────────────────────────────────────────

/// `y` is a leap year of the proleptic Gregorian calendar.
pub open spec fn leap_year(y: int) -> bool {
    y % 4 == 0 && (y % 100 != 0 || y % 400 == 0)
}

/// Length of month `m` of year `y`.
pub open spec fn month_days(y: int, m: int) -> int {
    if m == 2 {
        if leap_year(y) {
            29
        } else {
            28
        }
    } else if m == 4 || m == 6 || m == 9 || m == 11 {
        30
    } else {
        31
    }
}

/// Number of leap years among the years `1` to `y`.
pub open spec fn leaps_through(y: int) -> int {
    y / 4 - y / 100 + y / 400
}

/// Days from 1970-01-01 to the first of January of year `y`.
pub open spec fn year_start(y: int) -> int {
    365 * (y - 1970) + leaps_through(y - 1) - leaps_through(1969)
}

/// Days of year `y` in front of month `m`.
pub open spec fn days_before_month(y: int, m: int) -> int
    decreases m,
{
    if m <= 1 {
        0
    } else {
        days_before_month(y, m - 1) + month_days(y, m - 1)
    }
}

/// Days from 1970-01-01 to day `d` of month `m` of year `y`.
pub open spec fn day_number(y: int, m: int, d: int) -> int {
    year_start(y) + days_before_month(y, m) + d - 1
}

/// The calendar has a day `d` of month `m` in year `y`.
pub open spec fn valid_date(y: int, m: int, d: int) -> bool {
    1 <= m <= 12 && 1 <= d <= month_days(y, m)
}

/// The year, month and day that lie `days` days after 1970-01-01.
pub open spec fn date_of(days: int) -> (int, int, int) {
    choose|t: (int, int, int)|
        valid_date(t.0, t.1, t.2) && #[trigger] day_number(t.0, t.1, t.2) == days
}

proof fn lemma_month_table(y: int, m: int)
    requires
        1 <= m <= 12,
    ensures
        days_before_month(y, m) == (if m == 1 {
            0
        } else if m == 2 {
            31int
        } else {
            (153 * (m - 3) + 2) / 5 + 59 + (if leap_year(y) {
                1int
            } else {
                0
            })
        }),
{
    reveal_with_fuel(days_before_month, 13);
}

/// Counting on by one adds to the quotient exactly at a multiple.
proof fn lemma_div_step(y: int, k: int)
    requires
        k > 1,
    ensures
        y / k == (y - 1) / k + (if y % k == 0 {
            1int
        } else {
            0
        }),
{
    lemma_fundamental_div_mod(y, k);
    if y % k == 0 {
        assert(y - 1 == k * (y / k - 1) + (k - 1)) by (nonlinear_arith)
            requires
                y == k * (y / k) + y % k,
                y % k == 0,
        ;
        lemma_fundamental_div_mod_converse(y - 1, k, y / k - 1, k - 1);
    } else {
        assert(y - 1 == (y / k) * k + (y % k - 1)) by (nonlinear_arith)
            requires
                y == k * (y / k) + y % k,
        ;
        lemma_fundamental_div_mod_converse(y - 1, k, y / k, y % k - 1);
    }
}

/// A multiple of a multiple.
proof fn lemma_multiple(y: int, k: int, n: int)
    requires
        k > 1,
        n > 0,
        y % (k * n) == 0,
    ensures
        y % k == 0,
{
    assert(k * n > 0) by (nonlinear_arith)
        requires
            k > 1,
            n > 0,
    ;
    lemma_fundamental_div_mod(y, k * n);
    let q = y / (k * n);
    assert(y == k * (n * q) + 0) by (nonlinear_arith)
        requires
            y == (k * n) * q,
    ;
    lemma_fundamental_div_mod_converse(y, k, n * q, 0);
}

/// One more year adds a leap day exactly when it is a leap year.
proof fn lemma_leap_step(y: int)
    ensures
        leaps_through(y) == leaps_through(y - 1) + (if leap_year(y) {
            1int
        } else {
            0
        }),
{
    lemma_div_step(y, 4);
    lemma_div_step(y, 100);
    lemma_div_step(y, 400);
    if y % 400 == 0 {
        lemma_multiple(y, 100, 4);
    }
    if y % 100 == 0 {
        lemma_multiple(y, 4, 25);
    }
}

/// A later year starts after every day of an earlier one.
proof fn lemma_year_order(y1: int, y2: int)
    requires
        y1 < y2,
    ensures
        year_start(y1) + 365 + (if leap_year(y1) {
            1int
        } else {
            0
        }) <= year_start(y2),
    decreases y2 - y1,
{
    lemma_leap_step(y1);
    if y1 + 1 < y2 {
        lemma_year_order(y1 + 1, y2);
    }
}

proof fn lemma_month_order(y: int, m1: int, m2: int)
    requires
        1 <= m1 < m2 <= 12,
    ensures
        days_before_month(y, m1) + month_days(y, m1) <= days_before_month(y, m2),
    decreases m2 - m1,
{
    if m1 + 1 < m2 {
        lemma_month_order(y, m1, m2 - 1);
    }
}

proof fn lemma_day_number_differs(y1: int, m1: int, d1: int, y2: int, m2: int, d2: int)
    requires
        valid_date(y1, m1, d1),
        valid_date(y2, m2, d2),
        y1 < y2 || (y1 == y2 && m1 < m2) || (y1 == y2 && m1 == m2 && d1 < d2),
    ensures
        day_number(y1, m1, d1) < day_number(y2, m2, d2),
{
    lemma_month_table(y1, m1);
    lemma_month_table(y2, m2);
    if y1 < y2 {
        lemma_year_order(y1, y2);
    } else if m1 < m2 {
        lemma_month_order(y1, m1, m2);
    }
}

/// Calendar days in order have day numbers in order; in particular two
/// different days never share a number.
pub proof fn lemma_day_number_order(y1: int, m1: int, d1: int, y2: int, m2: int, d2: int)
    requires
        valid_date(y1, m1, d1),
        valid_date(y2, m2, d2),
    ensures
        day_number(y1, m1, d1) < day_number(y2, m2, d2) <==> (y1 < y2 || (y1 == y2 && (m1 < m2 || (
        m1 == m2 && d1 < d2)))),
{
    if y1 < y2 || (y1 == y2 && (m1 < m2 || (m1 == m2 && d1 < d2))) {
        lemma_day_number_differs(y1, m1, d1, y2, m2, d2);
    } else if y1 != y2 || m1 != m2 || d1 != d2 {
        lemma_day_number_differs(y2, m2, d2, y1, m1, d1);
    }
}

/// The day behind a day number is unique.
pub proof fn lemma_date_of(y: int, m: int, d: int)
    requires
        valid_date(y, m, d),
    ensures
        date_of(day_number(y, m, d)) == (y, m, d),
{
    let n = day_number(y, m, d);
    let t = (y, m, d);
    assert(valid_date(t.0, t.1, t.2) && day_number(t.0, t.1, t.2) == n);
    let c = date_of(n);
    assert(valid_date(c.0, c.1, c.2) && day_number(c.0, c.1, c.2) == n);
    lemma_day_number_order(c.0, c.1, c.2, y, m, d);
    lemma_day_number_order(y, m, d, c.0, c.1, c.2);
}

/// Where day `doe` of a span of 400 years that begins on a first of March
/// falls: `yoe` is the year within the span in which it lies.
proof fn lemma_year_of_era(doe: int, yoe: int)
    requires
        0 <= doe <= 146_096,
        yoe == (doe - doe / 1460 + doe / 36_524 - doe / 146_096) / 365,
    ensures
        0 <= yoe <= 399,
        365 * yoe + yoe / 4 - yoe / 100 <= doe,
        doe <= 365 * yoe + yoe / 4 - yoe / 100 + 365,
        doe == 365 * yoe + yoe / 4 - yoe / 100 + 365 ==> (yoe + 1) % 4 == 0 && ((yoe + 1) % 100 != 0
            || (yoe + 1) % 400 == 0),
{
    if doe == 146_096 {
        assert(yoe == 399);
    } else {
        let c = doe / 36_524;
        let r = doe - 36_524 * c;
        let t = (24 * c + r) / 1460;
        let k = (r - t) / 365;
        assert(0 <= c <= 3);
        assert(0 <= r < 36_524);
        assert(doe / 1460 == 25 * c + t);
        assert(doe / 146_096 == 0);
        assert(yoe == 100 * c + k);
        assert(0 <= t <= 25);
        assert(0 <= k <= 99);
        assert(yoe / 4 == 25 * c + k / 4);
        assert(yoe / 100 == c);
        assert(t >= k / 4);
        assert(4 * t <= k + 1);
        if r == 365 * k + k / 4 + 365 {
            assert((k + 1) % 4 == 0);
            assert(k != 99);
        }
    }
}

/// Where day `doy` of a year that begins on a first of March falls: `mp` counts
/// the months since March.
proof fn lemma_march_month(doy: int)
    requires
        0 <= doy <= 365,
    ensures
        ({
            let mp = (5 * doy + 2) / 153;
            let d = doy - (153 * mp + 2) / 5 + 1;
            &&& 0 <= mp <= 11
            &&& 1 <= d
            &&& mp != 11 ==> d <= (if mp == 1 || mp == 3 || mp == 6 || mp == 8 {
                30int
            } else {
                31
            })
            &&& mp == 11 ==> d == doy - 336
        }),
{
}

/// Leap years up to a year that lies `yoe` years into a span of 400.
proof fn lemma_leaps_split(era: int, yoe: int)
    requires
        0 <= yoe < 400,
    ensures
        leaps_through(400 * era + yoe) == 97 * era + yoe / 4 - yoe / 100,
{
    let y = 400 * era + yoe;
    assert(y / 4 == 100 * era + yoe / 4);
    assert(y / 100 == 4 * era + yoe / 100);
    assert(y / 400 == era);
}

/// Whether a year is a leap year depends on its place in the span of 400.
proof fn lemma_leap_split(era: int, n: int)
    ensures
        leap_year(400 * era + n) == leap_year(n),
{
    lemma_mod_multiples_vanish(100 * era, n, 4);
    lemma_mod_multiples_vanish(4 * era, n, 100);
    lemma_mod_multiples_vanish(era, n, 400);
}

/// The date that lies `doy` days into the year of `400 * era + yoe` that begins
/// on a first of March.
proof fn lemma_civil(era: int, yoe: int, doy: int)
    requires
        0 <= yoe <= 399,
        0 <= doy <= 365,
        doy == 365 ==> leap_year(yoe + 1),
    ensures
        ({
            let mp = (5 * doy + 2) / 153;
            let d = doy - (153 * mp + 2) / 5 + 1;
            let m = if mp < 10 {
                mp + 3
            } else {
                mp - 9
            };
            let y = 400 * era + yoe + (if m <= 2 {
                1int
            } else {
                0
            });
            &&& valid_date(y, m, d)
            &&& day_number(y, m, d) == era * 146_097 + 365 * yoe + yoe / 4 - yoe / 100 + doy
                - 719_468
        }),
{
    let mp = (5 * doy + 2) / 153;
    let d = doy - (153 * mp + 2) / 5 + 1;
    let m = if mp < 10 {
        mp + 3
    } else {
        mp - 9
    };
    let year = 400 * era + yoe;
    let y = year + (if m <= 2 {
        1int
    } else {
        0
    });
    lemma_march_month(doy);
    lemma_month_table(y, m);
    lemma_leaps_split(era, yoe);
    lemma_leap_split(era, yoe + 1);
    lemma_leap_step(year);
    assert(leaps_through(1969) == 477);
}

/// Quotient of `a` by `b`, rounded down.
fn floor_div(a: i64, b: i64) -> (r: i64)
    requires
        b > 0,
    ensures
        r == a as int / b as int,
{
    assert(i64::MIN <= a as int / b as int <= i64::MAX) by (nonlinear_arith)
        requires
            b > 0,
            i64::MIN <= a <= i64::MAX,
    ;
    match a.checked_div_euclid(b) {
        Some(q) => q,
        None => 0,
    }
}

/// Remainder of `a` by `b`, never negative.
fn floor_mod(a: i64, b: i64) -> (r: i64)
    requires
        b > 0,
    ensures
        r == a as int % b as int,
{
    match a.checked_rem_euclid(b) {
        Some(q) => q,
        None => 0,
    }
}

/// Days from 1970-01-01 to day `d` of month `m` of year `y`. A day past the end
/// of its month counts on into the next one.
pub fn days_from_civil(y: i64, m: u32, d: u32) -> (r: i64)
    requires
        1 <= m <= 12,
        1 <= d <= 31,
        -25_000_000_000_000_000 <= y <= 25_000_000_000_000_000,
    ensures
        r == day_number(y as int, m as int, d as int),
{
    let shifted: i64 = if m <= 2 { y - 1 } else { y };
    let era: i64 = floor_div(shifted, 400);
    let yoe: i64 = shifted - era * 400;
    let mp: i64 = if m > 2 { m as i64 - 3 } else { m as i64 + 9 };
    let doy: i64 = (153 * mp + 2) / 5 + d as i64 - 1;
    let doe: i64 = yoe * 365 + yoe / 4 - yoe / 100 + doy;
    proof {
        lemma_month_table(y as int, m as int);
        assert(shifted as int / 4 == 100 * era + yoe as int / 4);
        assert(shifted as int / 100 == 4 * era + yoe as int / 100);
        lemma_leap_step(y as int);
    }
    era * 146_097 + doe - 719_468
}

/// Year, month and day that lie `z` days after 1970-01-01.
pub fn civil_from_days(z: i64) -> (r: (i64, u32, u32))
    requires
        z <= i64::MAX - 719_468,
    ensures
        valid_date(r.0 as int, r.1 as int, r.2 as int),
        day_number(r.0 as int, r.1 as int, r.2 as int) == z,
{
    let shifted: i64 = z + 719_468;
    let era: i64 = floor_div(shifted, 146_097);
    let doe: i64 = shifted - era * 146_097;
    let yoe: i64 = (doe - doe / 1460 + doe / 36_524 - doe / 146_096) / 365;
    let year: i64 = yoe + era * 400;
    let doy: i64 = doe - (365 * yoe + yoe / 4 - yoe / 100);
    let mp: i64 = (5 * doy + 2) / 153;
    let day: i64 = doy - (153 * mp + 2) / 5 + 1;
    let month: i64 = if mp < 10 { mp + 3 } else { mp - 9 };
    let civil_year: i64 = if month <= 2 { year + 1 } else { year };
    proof {
        lemma_year_of_era(doe as int, yoe as int);
        lemma_march_month(doy as int);
        lemma_civil(era as int, yoe as int, doy as int);
    }
    (civil_year, month as u32, day as u32)
}

// ── Text form ────────────────────────────────────────────────────────────────

/// The timestamp of the second `epoch` seconds after 1970-01-01T00:00:00Z.
pub open spec fn rfc3339(epoch: int) -> Seq<char> {
    let date = date_of(epoch / 86_400);
    let secs = epoch % 86_400;
    padded(date.0, 4) + seq!['-'] + padded(date.1, 2) + seq!['-'] + padded(date.2, 2) + seq!['T']
        + padded(secs / 3600, 2) + seq![':'] + padded(secs % 3600 / 60, 2) + seq![':'] + padded(
        secs % 60,
        2,
    ) + seq!['Z']
}

/// The separators of a timestamp stand where they belong.
pub open spec fn stamp_shape(s: Seq<char>) -> bool {
    &&& s.len() == 20
    &&& s[4] == '-'
    &&& s[7] == '-'
    &&& s[10] == 'T'
    &&& s[13] == ':'
    &&& s[16] == ':'
    &&& s[19] == 'Z'
}

/// The number in a field of a timestamp, which consists of digits alone.
pub open spec fn field_value(s: Seq<char>) -> Option<int> {
    if all_digits(s) {
        Some(digits_value(s))
    } else {
        None
    }
}

/// The second that the timestamp `s` names, counted from 1970-01-01T00:00:00Z.
/// Each field consists of digits; month and day must lie between 1 and 12 and
/// between 1 and 31.
pub open spec fn instant(s: Seq<char>) -> Option<int> {
    if !stamp_shape(s) {
        None
    } else {
        match (
            field_value(s.subrange(0, 4)),
            field_value(s.subrange(5, 7)),
            field_value(s.subrange(8, 10)),
            field_value(s.subrange(11, 13)),
            field_value(s.subrange(14, 16)),
            field_value(s.subrange(17, 19)),
        ) {
            (Some(y), Some(m), Some(d), Some(h), Some(mi), Some(sec)) if 1 <= m <= 12 && 1 <= d
                <= 31 => Some(day_number(y, m, d) * 86_400 + h * 3600 + mi * 60 + sec),
            _ => None,
        }
    }
}

/// `SystemTime::elapsed` on the Unix epoch: the whole seconds that the system
/// clock shows since 1970-01-01T00:00:00Z, and `None` where the clock stands
/// before that. What the clock shows is not stated.
#[verifier::external_body]
fn clock_secs() -> (r: Option<u64>) {
    std::time::UNIX_EPOCH.elapsed().ok().map(|d| d.as_secs())
}

/// Current UTC time as a timestamp.
pub fn now_rfc3339() -> (r: String)
    ensures
        exists|epoch: int| i64::MIN <= epoch <= i64::MAX && r@ == #[trigger] rfc3339(epoch),
{
    let secs: i64 = match clock_secs() {
        Some(n) => #[verifier::truncate] (n as i64),
        None => 0,
    };
    format_epoch_secs(secs)
}

/// The timestamp `YYYY-MM-DDThh:mm:ssZ` of the second `epoch` seconds after
/// 1970-01-01T00:00:00Z.
pub fn format_epoch_secs(epoch: i64) -> (r: String)
    ensures
        r@ == rfc3339(epoch as int),
{
    let days: i64 = floor_div(epoch, 86_400);
    let secs_of_day: i64 = floor_mod(epoch, 86_400);
    let hour: i64 = secs_of_day / 3600;
    let minute: i64 = (secs_of_day % 3600) / 60;
    let second: i64 = secs_of_day % 60;
    let (year, month, day) = civil_from_days(days);
    proof {
        lemma_date_of(year as int, month as int, day as int);
    }
    let mut r = padded_text(year, 4);
    r.push('-');
    r.append(padded_text(month as i64, 2).as_str());
    r.push('-');
    r.append(padded_text(day as i64, 2).as_str());
    r.push('T');
    r.append(padded_text(hour, 2).as_str());
    r.push(':');
    r.append(padded_text(minute, 2).as_str());
    r.push(':');
    r.append(padded_text(second, 2).as_str());
    r.push('Z');
    assert(r@ =~= rfc3339(epoch as int));
    r
}

/// The number in `v[from..to]`, and its bound where it has at most four
/// characters.
fn field(v: &[char], from: usize, to: usize) -> (r: Option<i64>)
    requires
        from < to <= v@.len(),
        to - from <= 4,
    ensures
        match r {
            Some(n) => field_value(v@.subrange(from as int, to as int)) == Some(n as int) && 0 <= n
                <= 9999,
            None => field_value(v@.subrange(from as int, to as int)) == None::<int>,
        },
{
    let part = slice_of(v, from, to);
    proof {
        lemma_short_value(part@);
    }
    if !is_ascii_digit(part[0]) {
        return None;
    }
    read_i64(part.as_slice())
}

proof fn lemma_short_value(s: Seq<char>)
    requires
        s.len() <= 4,
    ensures
        all_digits(s) ==> 0 <= digits_value(s) <= 9999,
{
    if all_digits(s) {
        reveal_with_fuel(digits_value, 5);
        assert forall|i: int| 0 <= i < s.len() implies 0 <= #[trigger] s[i] as u32 - 0x30 <= 9 by {
        }
        if s.len() > 0 {
            let a = s.drop_last();
            assert(s.last() == s[s.len() - 1]);
            if a.len() > 0 {
                let b = a.drop_last();
                assert(a.last() == s[s.len() - 2]);
                if b.len() > 0 {
                    let c = b.drop_last();
                    assert(b.last() == s[s.len() - 3]);
                    if c.len() > 0 {
                        assert(c.last() == s[s.len() - 4]);
                    }
                }
            }
        }
    }
}

/// Read a `YYYY-MM-DDThh:mm:ssZ` timestamp back to seconds since
/// 1970-01-01T00:00:00Z; `None` for any other shape.
pub fn parse_rfc3339(s: &str) -> (r: Option<i64>)
    ensures
        match r {
            Some(n) => instant(s@) == Some(n as int) && -400_000_000_000 < n < 400_000_000_000,
            None => instant(s@) == None::<int>,
        },
{
    let v = chars_of(s);
    let b = v.as_slice();
    if b.len() != 20 || b[4] != '-' || b[7] != '-' || b[10] != 'T' || b[13] != ':' || b[16] != ':'
        || b[19] != 'Z' {
        return None;
    }
    let year = match field(b, 0, 4) {
        Some(n) => n,
        None => return None,
    };
    let month = match field(b, 5, 7) {
        Some(n) => n,
        None => return None,
    };
    let day = match field(b, 8, 10) {
        Some(n) => n,
        None => return None,
    };
    let hour = match field(b, 11, 13) {
        Some(n) => n,
        None => return None,
    };
    let minute = match field(b, 14, 16) {
        Some(n) => n,
        None => return None,
    };
    let second = match field(b, 17, 19) {
        Some(n) => n,
        None => return None,
    };
    if month < 1 || month > 12 || day < 1 || day > 31 {
        return None;
    }
    let days = days_from_civil(year, month as u32, day as u32);
    proof {
        lemma_month_table(year as int, month as int);
    }
    Some(days * 86_400 + hour * 3600 + minute * 60 + second)
}

// ── Laws ─────────────────────────────────────────────────────────────────────

proof fn lemma_small_pow()
    ensures
        pow(10, 2) == 100,
        pow(10, 3) == 1000,
        pow(10, 4) == 10_000,
{
    reveal_with_fuel(pow, 6);
}

/// The fields of a day's time of day.
proof fn lemma_time_fields(secs: int)
    requires
        0 <= secs < 86_400,
    ensures
        0 <= secs / 3600 <= 23,
        0 <= secs % 3600 / 60 <= 59,
        0 <= secs % 60 <= 59,
        secs == secs / 3600 * 3600 + secs % 3600 / 60 * 60 + secs % 60,
{
}

/// `date_of` names a day of the calendar, and the one with the given number.
pub proof fn lemma_date_of_exists(days: int)
    ensures
        ({
            let t = date_of(days);
            valid_date(t.0, t.1, t.2) && day_number(t.0, t.1, t.2) == days
        }),
{
    let shifted = days + 719_468;
    let era = shifted / 146_097;
    let doe = shifted % 146_097;
    let yoe = (doe - doe / 1460 + doe / 36_524 - doe / 146_096) / 365;
    let doy = doe - (365 * yoe + yoe / 4 - yoe / 100);
    lemma_year_of_era(doe, yoe);
    lemma_march_month(doy);
    lemma_civil(era, yoe, doy);
    let mp = (5 * doy + 2) / 153;
    let d = doy - (153 * mp + 2) / 5 + 1;
    let m = if mp < 10 {
        mp + 3
    } else {
        mp - 9
    };
    let y = 400 * era + yoe + (if m <= 2 {
        1int
    } else {
        0
    });
    let t = (y, m, d);
    assert(valid_date(t.0, t.1, t.2) && day_number(t.0, t.1, t.2) == days);
}

/// Reading a timestamp that was written gives the same second back. This holds
/// for the years that are written in four digits.
pub proof fn lemma_parse_of_format(epoch: int)
    requires
        0 <= date_of(epoch / 86_400).0 <= 9999,
    ensures
        instant(rfc3339(epoch)) == Some(epoch),
{
    let (y, m, d) = date_of(epoch / 86_400);
    let secs = epoch % 86_400;
    lemma_date_of_exists(epoch / 86_400);
    lemma_time_fields(secs);
    lemma_small_pow();
    let (h, mi, sec) = (secs / 3600, secs % 3600 / 60, secs % 60);
    let s = rfc3339(epoch);
    lemma_padded_len(y, 4);
    lemma_padded_len(m, 2);
    lemma_padded_len(d, 2);
    lemma_padded_len(h, 2);
    lemma_padded_len(mi, 2);
    lemma_padded_len(sec, 2);
    lemma_integer_of_padded(y, 4);
    lemma_integer_of_padded(m, 2);
    lemma_integer_of_padded(d, 2);
    lemma_integer_of_padded(h, 2);
    lemma_integer_of_padded(mi, 2);
    lemma_integer_of_padded(sec, 2);
    assert(s.len() == 20);
    assert(s.subrange(0, 4) =~= padded(y, 4));
    assert(s.subrange(5, 7) =~= padded(m, 2));
    assert(s.subrange(8, 10) =~= padded(d, 2));
    assert(s.subrange(11, 13) =~= padded(h, 2));
    assert(s.subrange(14, 16) =~= padded(mi, 2));
    assert(s.subrange(17, 19) =~= padded(sec, 2));
    assert(month_days(y, m) <= 31);
}

/// The fields of a timestamp joined by the separators `a` between the parts of
/// the date and `b` between the parts of the time.
pub open spec fn joined_fields(
    t: (int, int, int),
    secs: int,
    a: Seq<char>,
    b: Seq<char>,
    end: Seq<char>,
) -> Seq<char> {
    padded(t.0, 4) + (a + (padded(t.1, 2) + (a + (padded(t.2, 2) + (seq!['T'] + (padded(
        secs / 3600,
        2,
    ) + (b + (padded(secs % 3600 / 60, 2) + (b + (padded(secs % 60, 2) + end))))))))))
}

/// Timestamps of the years 0 to 9999 stand in the order of their times, with or
/// without the separators between the fields.
pub proof fn lemma_joined_fields_order(
    e1: int,
    e2: int,
    a: Seq<char>,
    b: Seq<char>,
    end: Seq<char>,
)
    requires
        e1 < e2,
        0 <= date_of(e1 / 86_400).0 <= 9999,
        0 <= date_of(e2 / 86_400).0 <= 9999,
    ensures
        precedes(
            joined_fields(date_of(e1 / 86_400), e1 % 86_400, a, b, end),
            joined_fields(date_of(e2 / 86_400), e2 % 86_400, a, b, end),
        ),
{
    let (t1, t2) = (date_of(e1 / 86_400), date_of(e2 / 86_400));
    let (s1, s2) = (e1 % 86_400, e2 % 86_400);
    lemma_date_of_exists(e1 / 86_400);
    lemma_date_of_exists(e2 / 86_400);
    lemma_day_number_order(t1.0, t1.1, t1.2, t2.0, t2.1, t2.2);
    lemma_day_number_order(t2.0, t2.1, t2.2, t1.0, t1.1, t1.2);
    lemma_time_fields(s1);
    lemma_time_fields(s2);
    lemma_small_pow();
    assert(month_days(t1.0, t1.1) <= 31 && month_days(t2.0, t2.1) <= 31);
    let (h1, h2) = (s1 / 3600, s2 / 3600);
    let (m1, m2) = (s1 % 3600 / 60, s2 % 3600 / 60);
    let (c1, c2) = (s1 % 60, s2 % 60);
    let x6 = padded(c1, 2) + end;
    let y6 = padded(c2, 2) + end;
    let x5 = padded(m1, 2) + (b + x6);
    let y5 = padded(m2, 2) + (b + y6);
    let x4 = padded(h1, 2) + (b + x5);
    let y4 = padded(h2, 2) + (b + y5);
    let x3 = padded(t1.2, 2) + (seq!['T'] + x4);
    let y3 = padded(t2.2, 2) + (seq!['T'] + y4);
    let x2 = padded(t1.1, 2) + (a + x3);
    let y2 = padded(t2.1, 2) + (a + y3);
    if t1.0 != t2.0 {
        lemma_padded_order(t1.0, t2.0, 4, a + x2, a + y2);
    } else {
        lemma_precedes_after_prefix(padded(t1.0, 4), a + x2, a + y2);
        lemma_precedes_after_prefix(a, x2, y2);
        if t1.1 != t2.1 {
            lemma_padded_order(t1.1, t2.1, 2, a + x3, a + y3);
        } else {
            lemma_precedes_after_prefix(padded(t1.1, 2), a + x3, a + y3);
            lemma_precedes_after_prefix(a, x3, y3);
            if t1.2 != t2.2 {
                lemma_padded_order(t1.2, t2.2, 2, seq!['T'] + x4, seq!['T'] + y4);
            } else {
                assert(e1 / 86_400 == e2 / 86_400);
                assert(s1 < s2);
                lemma_precedes_after_prefix(padded(t1.2, 2), seq!['T'] + x4, seq!['T'] + y4);
                lemma_precedes_after_prefix(seq!['T'], x4, y4);
                if h1 != h2 {
                    lemma_padded_order(h1, h2, 2, b + x5, b + y5);
                } else {
                    lemma_precedes_after_prefix(padded(h1, 2), b + x5, b + y5);
                    lemma_precedes_after_prefix(b, x5, y5);
                    if m1 != m2 {
                        lemma_padded_order(m1, m2, 2, b + x6, b + y6);
                    } else {
                        lemma_precedes_after_prefix(padded(m1, 2), b + x6, b + y6);
                        lemma_precedes_after_prefix(b, x6, y6);
                        lemma_padded_order(c1, c2, 2, end, end);
                    }
                }
            }
        }
    }
}

/// A timestamp is its fields with dashes and colons between them.
pub proof fn lemma_stamp_fields(e: int)
    ensures
        rfc3339(e) == joined_fields(
            date_of(e / 86_400),
            e % 86_400,
            seq!['-'],
            seq![':'],
            seq!['Z'],
        ),
{
    let t = date_of(e / 86_400);
    let secs = e % 86_400;
    let (a, b, end) = (seq!['-'], seq![':'], seq!['Z']);
    let (p0, p1, p2) = (padded(t.0, 4), padded(t.1, 2), padded(t.2, 2));
    let (p3, p4, p5) = (padded(secs / 3600, 2), padded(secs % 3600 / 60, 2), padded(secs % 60, 2));
    let x4 = p3 + (b + (p4 + (b + (p5 + end))));
    assert(p3 + b + p4 + b + p5 + end =~= x4);
    let head = p0 + a + p1 + a + p2 + seq!['T'];
    assert(rfc3339(e) =~= head + x4);
    assert(head + x4 =~= p0 + (a + (p1 + (a + (p2 + (seq!['T'] + x4))))));
}

/// Timestamps of the years 0 to 9999 sort as texts the way their times sort.
pub proof fn lemma_stamp_order(e1: int, e2: int)
    requires
        e1 < e2,
        0 <= date_of(e1 / 86_400).0 <= 9999,
        0 <= date_of(e2 / 86_400).0 <= 9999,
    ensures
        precedes(rfc3339(e1), rfc3339(e2)),
{
    lemma_joined_fields_order(e1, e2, seq!['-'], seq![':'], seq!['Z']);
    lemma_stamp_fields(e1);
    lemma_stamp_fields(e2);
}

/// The calendar counts on day by day, from the first of January 1970 on: from one
/// day to the next within a month, from the last day of a month to the first of the
/// next, and from the last day of a year to the first of the next. February has a
/// day more in every fourth year, except in those that a hundred divides and four
/// hundred does not.
pub proof fn lemma_calendar(y: int, m: int, d: int)
    requires
        1 <= m <= 12,
    ensures
        day_number(1970, 1, 1) == 0,
        day_number(y, m, d + 1) == day_number(y, m, d) + 1,
        m < 12 ==> day_number(y, m + 1, 1) == day_number(y, m, month_days(y, m)) + 1,
        day_number(y + 1, 1, 1) == day_number(y, 12, 31) + 1,
        m == 2 ==> month_days(y, m) == (if y % 4 == 0 && (y % 100 != 0 || y % 400 == 0) {
            29int
        } else {
            28
        }),
        m == 4 || m == 6 || m == 9 || m == 11 ==> month_days(y, m) == 30,
        m == 1 || m == 3 || m == 5 || m == 7 || m == 8 || m == 10 || m == 12 ==> month_days(y, m)
            == 31,
{
    lemma_leap_step(y);
    lemma_month_table(y, 12);
    assert(days_before_month(y, 1) == 0);
    assert(days_before_month(y + 1, 1) == 0);
    assert(days_before_month(1970, 1) == 0);
}

/// What is read as a timestamp: digits in six fields between fixed separators, a
/// month from 1 to 12 and a day from 1 to 31.
pub proof fn lemma_instant_accepted(s: Seq<char>)
    ensures
        instant(s) is Some <==> {
            &&& s.len() == 20
            &&& s[4] == '-' && s[7] == '-' && s[10] == 'T' && s[13] == ':' && s[16] == ':' && s[19]
                == 'Z'
            &&& all_digits(s.subrange(0, 4)) && all_digits(s.subrange(5, 7)) && all_digits(
                s.subrange(8, 10),
            )
            &&& all_digits(s.subrange(11, 13)) && all_digits(s.subrange(14, 16)) && all_digits(
                s.subrange(17, 19),
            )
            &&& 1 <= digits_value(s.subrange(5, 7)) <= 12
            &&& 1 <= digits_value(s.subrange(8, 10)) <= 31
        },
{
}

} // verus!
