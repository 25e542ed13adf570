//! Civil-calendar arithmetic over integer timestamps.
//!
//! A timestamp is a signed 64-bit count of `TimeUnit` steps since the epoch
//! 1970-01-01. Calendar components of a `Duration` (months) advance a
//! timestamp through its civil date, clamping the day-of-month into the
//! resulting month; physical components are fixed step counts added after.
//! Every calendar-derived date must stay inside the representable window of
//! calendar years 1386..=2554; values outside it are rejected, never wrapped.

use vstd::prelude::*;
use vstd::arithmetic::div_mod::{
    lemma_fundamental_div_mod, lemma_fundamental_div_mod_converse, lemma_div_is_ordered,
};
use vstd::arithmetic::mul::lemma_mul_inequality;
use crate::types::{TimeUnit, Duration, UpsampleError};

verus! {

// ---------------------------------------------------------------------------
// The civil calendar as a mathematical model.
// ---------------------------------------------------------------------------

pub open spec fn is_leap_year(y: int) -> bool {
    y % 4 == 0 && (y % 100 != 0 || y % 400 == 0)
}

pub open spec fn days_in_year(y: int) -> int {
    if is_leap_year(y) { 366 } else { 365 }
}

pub open spec fn days_in_month(y: int, m: int) -> int {
    if m == 2 {
        if is_leap_year(y) { 29 } else { 28 }
    } else if m == 4 || m == 6 || m == 9 || m == 11 {
        30
    } else {
        31
    }
}

/// Days of year `y` that lie strictly before month `m` (months are 1-based).
pub open spec fn days_before_month(y: int, m: int) -> int
    decreases m,
{
    if m <= 1 { 0 } else { days_before_month(y, m - 1) + days_in_month(y, m - 1) }
}

/// Days from 1386-01-01 up to `y`-01-01.
pub open spec fn days_before_year(y: int) -> int
    decreases y - 1386,
{
    if y <= 1386 { 0 } else { days_before_year(y - 1) + days_in_year(y - 1) }
}

/// Day offset of the civil date (y, m, d), counted from 1386-01-01.
pub open spec fn civil_to_offset(y: int, m: int, d: int) -> int {
    days_before_year(y) + days_before_month(y, m) + d - 1
}

/// A civil date inside the representable window.
pub open spec fn valid_civil(y: int, m: int, d: int) -> bool {
    1386 <= y <= 2554 && 1 <= m <= 12 && 1 <= d <= days_in_month(y, m)
}

proof fn lemma_month_days_sum(y: int)
    ensures
        days_before_month(y, 13) == days_in_year(y),
{
    reveal_with_fuel(days_before_month, 14);
}

proof fn lemma_dbm_mono(y: int, m1: int, m2: int)
    requires
        1 <= m1 < m2,
    ensures
        days_before_month(y, m1) + days_in_month(y, m1) <= days_before_month(y, m2),
    decreases m2 - m1,
{
    if m2 == m1 + 1 {
    } else {
        lemma_dbm_mono(y, m1, m2 - 1);
    }
}

proof fn lemma_dby_mono(y1: int, y2: int)
    requires
        y1 <= y2,
    ensures
        days_before_year(y1) <= days_before_year(y2),
        1386 <= y1 < y2 ==> days_before_year(y1) + days_in_year(y1) <= days_before_year(y2),
    decreases y2 - y1,
{
    if y1 < y2 {
        lemma_dby_mono(y1 + 1, y2);
    }
}

/// The day offset is strictly increasing in the lexicographic order of
/// (year, month, day) over valid dates.
proof fn lemma_civil_offset_lt(y1: int, m1: int, d1: int, y2: int, m2: int, d2: int)
    requires
        valid_civil(y1, m1, d1),
        valid_civil(y2, m2, d2),
        y1 < y2 || (y1 == y2 && m1 < m2) || (y1 == y2 && m1 == m2 && d1 < d2),
    ensures
        civil_to_offset(y1, m1, d1) < civil_to_offset(y2, m2, d2),
{
    if y1 == y2 && m1 == m2 {
    } else if y1 == y2 {
        lemma_dbm_mono(y1, m1, m2);
    } else {
        lemma_dbm_mono(y1, m1, 13);
        lemma_month_days_sum(y1);
        lemma_dby_mono(y1, y2);
        assert(days_before_month(y2, m2) >= 0) by {
            lemma_dbm_nonneg(y2, m2);
        }
    }
}

proof fn lemma_dbm_nonneg(y: int, m: int)
    ensures
        days_before_month(y, m) >= 0,
    decreases m,
{
    if m > 1 {
        lemma_dbm_nonneg(y, m - 1);
    }
}

/// A valid date's offset lies inside [0, days_before_year(2555)).
proof fn lemma_civil_offset_range(y: int, m: int, d: int)
    requires
        valid_civil(y, m, d),
    ensures
        days_before_year(y) <= civil_to_offset(y, m, d) < days_before_year(2555),
        0 <= civil_to_offset(y, m, d),
{
    lemma_dbm_nonneg(y, m);
    lemma_dbm_mono(y, m, 13);
    lemma_month_days_sum(y);
    lemma_dby_mono(1386, y);
    lemma_dby_mono(y + 1, 2555);
}

// ---------------------------------------------------------------------------
// Inverting the offset back into a civil date.
// ---------------------------------------------------------------------------

/// Walk years forward from `y` until the remaining day count fits in one year.
pub open spec fn year_of_offset(y: int, s: int) -> (int, int)
    decreases s,
{
    if s < days_in_year(y) { (y, s) } else { year_of_offset(y + 1, s - days_in_year(y)) }
}

/// Walk months forward from `m` until the remaining day count fits in one month.
pub open spec fn month_of_offset(y: int, m: int, s: int) -> (int, int)
    decreases 12 - m,
{
    if m >= 12 || s < days_in_month(y, m) {
        (m, s)
    } else {
        month_of_offset(y, m + 1, s - days_in_month(y, m))
    }
}

/// The civil date of a day offset counted from 1386-01-01.
pub open spec fn civil_of_offset(s: int) -> (int, int, int) {
    let (y, s1) = year_of_offset(1386, s);
    let (m, s2) = month_of_offset(y, 1, s1);
    (y, m, s2 + 1)
}

proof fn lemma_year_of_offset(y0: int, s: int)
    requires
        0 <= s,
        1386 <= y0,
    ensures
        ({
            let (y, r) = year_of_offset(y0, s);
            y0 <= y && 0 <= r < days_in_year(y)
                && days_before_year(y0) + s == days_before_year(y) + r
        }),
    decreases s,
{
    if s < days_in_year(y0) {
    } else {
        lemma_year_of_offset(y0 + 1, s - days_in_year(y0));
    }
}

proof fn lemma_month_of_offset(y: int, m: int, s: int)
    requires
        1 <= m <= 12,
        0 <= s,
        days_before_month(y, m) + s < days_in_year(y),
    ensures
        ({
            let (m2, r) = month_of_offset(y, m, s);
            m <= m2 <= 12 && 0 <= r < days_in_month(y, m2)
                && days_before_month(y, m2) + r == days_before_month(y, m) + s
        }),
    decreases 12 - m,
{
    lemma_month_days_sum(y);
    if m >= 12 || s < days_in_month(y, m) {
    } else {
        lemma_month_of_offset(y, m + 1, s - days_in_month(y, m));
    }
}

/// Any offset inside the window decomposes into a unique valid civil date.
proof fn lemma_civil_of_offset(s: int)
    requires
        0 <= s < days_before_year(2555),
    ensures
        ({
            let (y, m, d) = civil_of_offset(s);
            valid_civil(y, m, d) && civil_to_offset(y, m, d) == s
        }),
{
    lemma_year_of_offset(1386, s);
    let (y, s1) = year_of_offset(1386, s);
    assert(y <= 2554) by {
        if y >= 2555 {
            lemma_dby_mono(2555, y);
        }
    }
    lemma_month_of_offset(y, 1, s1);
}

// ---------------------------------------------------------------------------
// Timestamps.
// ---------------------------------------------------------------------------

pub open spec fn steps_per_day(tu: TimeUnit) -> int {
    match tu {
        TimeUnit::Milliseconds => 86_400_000,
        TimeUnit::Nanoseconds => 86_400_000_000_000,
    }
}

/// Whole days since the epoch (floor).
pub open spec fn ts_days(t: int, tu: TimeUnit) -> int {
    t / steps_per_day(tu)
}

/// Steps since midnight of the timestamp's day; always in [0, steps_per_day).
pub open spec fn ts_time_of_day(t: int, tu: TimeUnit) -> int {
    t % steps_per_day(tu)
}

/// Day offset from 1386-01-01 of the timestamp's day.
pub open spec fn ts_offset(t: int, tu: TimeUnit) -> int {
    ts_days(t, tu) + days_before_year(1970)
}

/// The calendar year of `t` lies within the window 1386..=2554.
pub open spec fn ts_in_window(t: int, tu: TimeUnit) -> bool {
    0 <= ts_offset(t, tu) < days_before_year(2555)
}

/// Euclidean division stays between the dividend and zero.
proof fn lemma_div_bounds(x: int, d: int)
    requires
        d >= 1,
    ensures
        x >= 0 ==> 0 <= x / d <= x,
        x < 0 ==> x <= x / d <= 0,
{
    lemma_fundamental_div_mod(x, d);
    let q = x / d;
    let r = x % d;
    assert(x >= 0 ==> 0 <= q <= x) by (nonlinear_arith)
        requires
            x == d * q + r,
            0 <= r < d,
            d >= 1,
    ;
    assert(x < 0 ==> x <= q <= 0) by (nonlinear_arith)
        requires
            x == d * q + r,
            0 <= r < d,
            d >= 1,
    ;
}

// ---------------------------------------------------------------------------
// Executable calendar helpers.
// ---------------------------------------------------------------------------

fn is_leap_year_x(y: i64) -> (r: bool)
    requires
        y >= 0,
    ensures
        r == is_leap_year(y as int),
{
    y % 4 == 0 && (y % 100 != 0 || y % 400 == 0)
}

fn days_in_year_x(y: i64) -> (r: i64)
    requires
        y >= 0,
    ensures
        r as int == days_in_year(y as int),
{
    if is_leap_year_x(y) { 366 } else { 365 }
}

fn days_in_month_x(y: i64, m: i64) -> (r: i64)
    requires
        y >= 0,
        1 <= m <= 12,
    ensures
        r as int == days_in_month(y as int, m as int),
{
    if m == 2 {
        if is_leap_year_x(y) { 29 } else { 28 }
    } else if m == 4 || m == 6 || m == 9 || m == 11 {
        30
    } else {
        31
    }
}

fn days_before_month_x(y: i64, m: i64) -> (r: i64)
    requires
        y >= 0,
        1 <= m <= 13,
    ensures
        r as int == days_before_month(y as int, m as int),
        0 <= r <= 366,
{
    let mut acc: i64 = 0;
    let mut i: i64 = 1;
    while i < m
        invariant
            1 <= i <= m <= 13,
            y >= 0,
            acc as int == days_before_month(y as int, i as int),
            0 <= acc <= 31 * (i - 1),
        decreases m - i,
    {
        acc = acc + days_in_month_x(y, i);
        i = i + 1;
    }
    proof {
        lemma_dbm_upper(y as int, m as int);
    }
    acc
}

proof fn lemma_dbm_upper(y: int, m: int)
    requires
        m <= 13,
    ensures
        days_before_month(y, m) <= 366,
{
    lemma_month_days_sum(y);
    if 1 <= m && m < 13 {
        lemma_dbm_mono(y, m, 13);
    }
}

fn days_before_year_x(y: i64) -> (r: i64)
    requires
        1386 <= y <= 2555,
    ensures
        r as int == days_before_year(y as int),
        0 <= r <= 366 * (y - 1386),
{
    let mut acc: i64 = 0;
    let mut i: i64 = 1386;
    while i < y
        invariant
            1386 <= i <= y <= 2555,
            acc as int == days_before_year(i as int),
            0 <= acc <= 366 * (i - 1386),
        decreases y - i,
    {
        acc = acc + days_in_year_x(i);
        i = i + 1;
    }
    acc
}

fn civil_to_offset_x(y: i64, m: i64, d: i64) -> (r: i64)
    requires
        valid_civil(y as int, m as int, d as int),
    ensures
        r as int == civil_to_offset(y as int, m as int, d as int),
        0 <= r < 428000,
{
    proof {
        lemma_civil_offset_range(y as int, m as int, d as int);
        lemma_dby_mono(y as int + 1, 2555);
    }
    days_before_year_x(y) + days_before_month_x(y, m) + d - 1
}

fn civil_of_offset_x(s: i64) -> (r: (i64, i64, i64))
    requires
        0 <= s < days_before_year(2555),
    ensures
        (r.0 as int, r.1 as int, r.2 as int) == civil_of_offset(s as int),
        valid_civil(r.0 as int, r.1 as int, r.2 as int),
        civil_to_offset(r.0 as int, r.1 as int, r.2 as int) == s as int,
{
    proof {
        lemma_civil_of_offset(s as int);
        lemma_year_of_offset(1386, s as int);
    }
    let mut y: i64 = 1386;
    let mut rem: i64 = s;
    let mut diy: i64 = days_in_year_x(y);
    while rem >= diy
        invariant
            1386 <= y <= 2554,
            0 <= rem <= s,
            diy as int == days_in_year(y as int),
            year_of_offset(y as int, rem as int) == year_of_offset(1386, s as int),
            days_before_year(y as int) + rem == s,
            s < days_before_year(2555),
        decreases rem,
    {
        rem = rem - diy;
        y = y + 1;
        proof {
            if y > 2554 {
                lemma_dby_mono(2555, y as int);
                assert(false);
            }
        }
        diy = days_in_year_x(y);
    }
    let ghost (sy, sr) = year_of_offset(1386, s as int);
    proof {
        assert(year_of_offset(y as int, rem as int) == (y as int, rem as int));
        lemma_month_of_offset(y as int, 1, rem as int);
    }
    let mut m: i64 = 1;
    let mut dim: i64 = days_in_month_x(y, m);
    while m < 12 && rem >= dim
        invariant
            1386 <= y <= 2554,
            1 <= m <= 12,
            0 <= rem,
            dim as int == days_in_month(y as int, m as int),
            month_of_offset(y as int, m as int, rem as int) == month_of_offset(sy, 1, sr),
            days_before_month(y as int, m as int) + rem == sr,
            y as int == sy,
            sr < days_in_year(y as int),
            rem < 428000,
        decreases 12 - m,
    {
        rem = rem - dim;
        m = m + 1;
        dim = days_in_month_x(y, m);
    }
    (y, m, rem + 1)
}

// ---------------------------------------------------------------------------
// Adding calendar months to a timestamp.
// ---------------------------------------------------------------------------

/// The civil date `n` months after (y, m, d), with the day clamped into the
/// resulting month.
pub open spec fn months_add_civil(y: int, m: int, d: int, n: int) -> (int, int, int) {
    let lin = y * 12 + (m - 1) + n;
    let y2 = lin / 12;
    let m2 = 1 + lin % 12;
    let d2 = if d <= days_in_month(y2, m2) { d } else { days_in_month(y2, m2) };
    (y2, m2, d2)
}

/// The timestamp `n` calendar months after `t`, keeping the time of day.
pub open spec fn months_add(t: int, n: int, tu: TimeUnit) -> int {
    let c = civil_of_offset(ts_offset(t, tu));
    let c2 = months_add_civil(c.0, c.1, c.2, n);
    (civil_to_offset(c2.0, c2.1, c2.2) - days_before_year(1970)) * steps_per_day(tu)
        + ts_time_of_day(t, tu)
}

/// Both the input date and the shifted date stay inside the window, and the
/// shifted timestamp is representable at day granularity.
pub open spec fn months_add_ok(t: int, n: int, tu: TimeUnit) -> bool {
    &&& ts_in_window(t, tu)
    &&& ({
        let c = civil_of_offset(ts_offset(t, tu));
        let lin = c.0 * 12 + (c.1 - 1) + n;
        1386 <= lin / 12 <= 2554
    })
    &&& ({
        let c = civil_of_offset(ts_offset(t, tu));
        let c2 = months_add_civil(c.0, c.1, c.2, n);
        let prod = (civil_to_offset(c2.0, c2.1, c2.2) - days_before_year(1970))
            * steps_per_day(tu);
        i64::MIN <= prod && prod + ts_time_of_day(t, tu) <= i64::MAX
    })
}

fn steps_per_day_x(tu: TimeUnit) -> (r: i64)
    ensures
        r as int == steps_per_day(tu),
        86_400_000 <= r,
{
    match tu {
        TimeUnit::Milliseconds => 86_400_000,
        TimeUnit::Nanoseconds => 86_400_000_000_000,
    }
}

pub(crate) fn div_euclid_x(a: i64, b: i64) -> (q: i64)
    requires
        b >= 1,
    ensures
        q as int == a as int / b as int,
{
    proof {
        lemma_div_bounds(a as int, b as int);
    }
    match a.checked_div_euclid(b) {
        Some(q) => q,
        None => {
            proof {
                assert(false);
            }
            0
        },
    }
}

fn rem_euclid_x(a: i64, b: i64) -> (r: i64)
    requires
        b >= 1,
    ensures
        r as int == a as int % b as int,
{
    proof {
        lemma_fundamental_div_mod(a as int, b as int);
    }
    match a.checked_rem_euclid(b) {
        Some(r) => r,
        None => {
            proof {
                assert(false);
            }
            0
        },
    }
}

fn add_months_x(t: i64, n: i64, tu: TimeUnit) -> (r: Result<i64, UpsampleError>)
    ensures
        r is Ok <==> months_add_ok(t as int, n as int, tu),
        r matches Ok(v) ==> v as int == months_add(t as int, n as int, tu),
        r matches Err(e) ==> e == UpsampleError::OutOfRepresentableRange,
{
    let spd = steps_per_day_x(tu);
    proof {
        lemma_div_bounds(t as int, spd as int);
        lemma_fundamental_div_mod(t as int, spd as int);
    }
    let days = div_euclid_x(t, spd);
    let tod = rem_euclid_x(t, spd);
    let anchor = days_before_year_x(1970);
    let bound = days_before_year_x(2555);
    let s = days + anchor;
    if s < 0 || s >= bound {
        return Err(UpsampleError::OutOfRepresentableRange);
    }
    let (y, m, d) = civil_of_offset_x(s);
    let lin0 = y * 12 + (m - 1);
    let ghost c = civil_of_offset(ts_offset(t as int, tu));
    proof {
        assert(c == (y as int, m as int, d as int));
    }
    let lin = match lin0.checked_add(n) {
        Some(l) => l,
        None => {
            proof {
                lemma_div_out_of_window(lin0 as int + n as int);
            }
            return Err(UpsampleError::OutOfRepresentableRange);
        },
    };
    proof {
        lemma_div_bounds(lin as int, 12);
        lemma_fundamental_div_mod(lin as int, 12);
    }
    let y2 = div_euclid_x(lin, 12);
    let m2 = rem_euclid_x(lin, 12) + 1;
    if y2 < 1386 || y2 > 2554 {
        return Err(UpsampleError::OutOfRepresentableRange);
    }
    let dim2 = days_in_month_x(y2, m2);
    let d2 = if d <= dim2 { d } else { dim2 };
    proof {
        assert(days_in_month(y2 as int, m2 as int) >= 28);
    }
    let off2 = civil_to_offset_x(y2, m2, d2);
    let days2 = off2 - anchor;
    let base = match days2.checked_mul(spd) {
        Some(b) => b,
        None => {
            return Err(UpsampleError::OutOfRepresentableRange);
        },
    };
    match base.checked_add(tod) {
        Some(v) => Ok(v),
        None => Err(UpsampleError::OutOfRepresentableRange),
    }
}

/// A linear month index beyond the i64 range divides to a year far outside
/// the window.
proof fn lemma_div_out_of_window(lin: int)
    requires
        lin < i64::MIN || lin > i64::MAX,
    ensures
        !(1386 <= lin / 12 <= 2554),
{
    if lin > i64::MAX {
        lemma_div_is_ordered(i64::MAX as int, lin, 12);
        assert(i64::MAX as int / 12 > 2554);
    } else {
        lemma_div_is_ordered(lin, i64::MIN as int, 12);
        assert(i64::MIN as int / 12 < 1386);
    }
}

// ---------------------------------------------------------------------------
// Adding a whole Duration to a timestamp.
// ---------------------------------------------------------------------------

/// The physical component resolved to steps of `tu`, with the sign applied.
pub open spec fn dur_phys_steps(dur: Duration, tu: TimeUnit) -> int {
    let steps = match tu {
        TimeUnit::Milliseconds => dur.nsecs / 1_000_000,
        TimeUnit::Nanoseconds => dur.nsecs as int,
    };
    if dur.negative { -steps } else { steps }
}

pub open spec fn dur_signed_months(dur: Duration) -> int {
    if dur.negative { -dur.months as int } else { dur.months as int }
}

/// The duration makes strictly forward progress at this resolution.
pub open spec fn dur_step_pos(dur: Duration, tu: TimeUnit) -> bool {
    !dur.negative && (dur.months > 0 || dur_phys_steps(dur, tu) > 0)
}

/// Adding the duration to `t` neither leaves the calendar window nor
/// overflows a 64-bit timestamp.
pub open spec fn add_dur_ok(dur: Duration, t: int, tu: TimeUnit) -> bool {
    if dur.months == 0 {
        i64::MIN <= t + dur_phys_steps(dur, tu) <= i64::MAX
    } else {
        months_add_ok(t, dur_signed_months(dur), tu)
            && i64::MIN <= months_add(t, dur_signed_months(dur), tu) + dur_phys_steps(dur, tu)
                <= i64::MAX
    }
}

/// The timestamp one duration after `t`: calendar months first, then the
/// physical component as a fixed offset.
pub open spec fn add_dur(dur: Duration, t: int, tu: TimeUnit) -> int {
    let base = if dur.months == 0 { t } else { months_add(t, dur_signed_months(dur), tu) };
    base + dur_phys_steps(dur, tu)
}

/// Apply a `Duration` to a timestamp of resolution `tu`.
pub fn add_duration(dur: Duration, t: i64, tu: TimeUnit) -> (r: Result<i64, UpsampleError>)
    requires
        dur.wf(),
    ensures
        r is Ok <==> add_dur_ok(dur, t as int, tu),
        r matches Ok(v) ==> v as int == add_dur(dur, t as int, tu),
        r matches Err(e) ==> e == UpsampleError::OutOfRepresentableRange,
{
    let base = if dur.months == 0 {
        t
    } else {
        let n = if dur.negative { -dur.months } else { dur.months };
        match add_months_x(t, n, tu) {
            Ok(b) => b,
            Err(e) => {
                return Err(e);
            },
        }
    };
    let steps = match tu {
        TimeUnit::Milliseconds => div_euclid_x(dur.nsecs, 1_000_000),
        TimeUnit::Nanoseconds => dur.nsecs,
    };
    proof {
        if tu is Milliseconds {
            lemma_div_bounds(dur.nsecs as int, 1_000_000);
        }
    }
    let r = if dur.negative { base.checked_sub(steps) } else { base.checked_add(steps) };
    match r {
        Some(v) => Ok(v),
        None => Err(UpsampleError::OutOfRepresentableRange),
    }
}

/// A positive-progress duration strictly advances every timestamp it can be
/// added to.
pub proof fn lemma_add_dur_increases(dur: Duration, t: int, tu: TimeUnit)
    requires
        dur.wf(),
        dur_step_pos(dur, tu),
        add_dur_ok(dur, t, tu),
    ensures
        add_dur(dur, t, tu) > t,
{
    if dur.months == 0 {
        assert(dur_phys_steps(dur, tu) > 0);
    } else {
        lemma_months_add_increases(t, dur.months as int, tu);
        assert(dur_phys_steps(dur, tu) >= 0) by {
            if tu is Milliseconds {
                lemma_div_bounds(dur.nsecs as int, 1_000_000);
            }
        }
    }
}

/// Adding a positive number of months strictly advances the timestamp.
proof fn lemma_months_add_increases(t: int, n: int, tu: TimeUnit)
    requires
        n > 0,
        months_add_ok(t, n, tu),
    ensures
        months_add(t, n, tu) > t,
{
    let spd = steps_per_day(tu);
    let s = ts_offset(t, tu);
    lemma_civil_of_offset(s);
    let (y, m, d) = civil_of_offset(s);
    let lin0 = y * 12 + (m - 1);
    let lin = lin0 + n;
    lemma_fundamental_div_mod_converse(lin0, 12, y, m - 1);
    lemma_fundamental_div_mod(lin, 12);
    let y2 = lin / 12;
    let m2 = 1 + lin % 12;
    lemma_div_is_ordered(lin0, lin, 12);
    assert(y2 > y || (y2 == y && m2 > m));
    let c2 = months_add_civil(y, m, d, n);
    assert(days_in_month(y2, m2) >= 28);
    assert(valid_civil(c2.0, c2.1, c2.2));
    lemma_civil_offset_lt(y, m, d, c2.0, c2.1, c2.2);
    let off2 = civil_to_offset(c2.0, c2.1, c2.2);
    assert(off2 >= s + 1);
    lemma_fundamental_div_mod(t, spd);
    let e = days_before_year(1970);
    assert(t == (s - e) * spd + ts_time_of_day(t, tu)) by (nonlinear_arith)
        requires
            t == spd * (t / spd) + t % spd,
            s == t / spd + e,
            ts_time_of_day(t, tu) == t % spd,
            spd == steps_per_day(tu),
    ;
    lemma_mul_inequality(s + 1 - e, off2 - e, spd);
    assert((s + 1 - e) * spd == (s - e) * spd + spd) by (nonlinear_arith);
    assert(ts_time_of_day(t, tu) < spd);
}

// ---------------------------------------------------------------------------
// The bounds guard.
// ---------------------------------------------------------------------------

/// True iff the calendar year of `t` lies in 1386..=2554 — the window that a
/// nanosecond-resolution calendar conversion may safely use. Out-of-window
/// values must be rejected, never silently wrapped.
pub fn in_nanoseconds_window(t: i64, tu: TimeUnit) -> (r: bool)
    ensures
        r == ts_in_window(t as int, tu),
{
    let spd = steps_per_day_x(tu);
    proof {
        lemma_div_bounds(t as int, spd as int);
    }
    let days = div_euclid_x(t, spd);
    let anchor = days_before_year_x(1970);
    let bound = days_before_year_x(2555);
    let s = days + anchor;
    0 <= s && s < bound
}

} // verus!
