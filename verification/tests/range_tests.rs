use upsample::calendar::{add_duration, in_nanoseconds_window};
use upsample::range::date_range;
use upsample::types::{ClosedWindow, DataType, Duration, TimeUnit, UpsampleError};

const MS_PER_DAY: i64 = 86_400_000;
const NS_PER_DAY: i64 = 86_400_000_000_000;
const MS_2021_01_31: i64 = 1_612_051_200_000;
const MS_2021_02_28: i64 = 1_614_470_400_000;
const MS_2021_03_28: i64 = 1_616_889_600_000;
const MS_2021_04_28: i64 = 1_619_568_000_000;
const MS_2021_04_30: i64 = 1_619_740_800_000;

fn day_ms() -> Duration {
    Duration::new(0, NS_PER_DAY, false)
}

fn range_values(start: i64, stop: i64, every: Duration, closed: ClosedWindow) -> Vec<Option<i64>> {
    let s = date_range("t", start, stop, every, closed, TimeUnit::Milliseconds).unwrap();
    assert_eq!(s.dtype, DataType::Datetime(TimeUnit::Milliseconds));
    s.values
}

#[test]
fn closed_both_includes_both_aligned_endpoints() {
    let v = range_values(0, 2 * MS_PER_DAY, day_ms(), ClosedWindow::Both);
    assert_eq!(v, vec![Some(0), Some(MS_PER_DAY), Some(2 * MS_PER_DAY)]);
}

#[test]
fn closed_left_excludes_the_stop_point() {
    let v = range_values(0, 2 * MS_PER_DAY, day_ms(), ClosedWindow::Left);
    assert_eq!(v, vec![Some(0), Some(MS_PER_DAY)]);
}

#[test]
fn closed_right_excludes_the_start_point() {
    let v = range_values(0, 2 * MS_PER_DAY, day_ms(), ClosedWindow::Right);
    assert_eq!(v, vec![Some(MS_PER_DAY), Some(2 * MS_PER_DAY)]);
}

#[test]
fn closed_neither_excludes_both_endpoints() {
    let v = range_values(0, 2 * MS_PER_DAY, day_ms(), ClosedWindow::Neither);
    assert_eq!(v, vec![Some(MS_PER_DAY)]);
}

#[test]
fn unaligned_stop_is_never_emitted() {
    // stop is half a day past the last aligned point.
    let stop = 2 * MS_PER_DAY + MS_PER_DAY / 2;
    let v = range_values(0, stop, day_ms(), ClosedWindow::Both);
    assert_eq!(v, vec![Some(0), Some(MS_PER_DAY), Some(2 * MS_PER_DAY)]);
}

#[test]
fn grid_is_strictly_increasing_with_constant_physical_step() {
    let v = range_values(0, 10 * MS_PER_DAY, day_ms(), ClosedWindow::Both);
    assert_eq!(v.len(), 11);
    for i in 0..v.len() - 1 {
        let a = v[i].unwrap();
        let b = v[i + 1].unwrap();
        assert!(a < b);
        assert_eq!(b - a, MS_PER_DAY);
    }
}

#[test]
fn monthly_steps_clamp_the_day_of_month() {
    // Jan 31 + 1mo = Feb 28 (2021 is no leap year); each further step starts
    // from the previous point, so the day stays clamped at 28.
    let v = range_values(MS_2021_01_31, MS_2021_04_30, Duration::new(1, 0, false),
        ClosedWindow::Both);
    assert_eq!(
        v,
        vec![
            Some(MS_2021_01_31),
            Some(MS_2021_02_28),
            Some(MS_2021_03_28),
            Some(MS_2021_04_28),
        ]
    );
}

#[test]
fn zero_magnitude_duration_fails_generation() {
    let r = date_range("t", 0, MS_PER_DAY, Duration::new(0, 0, false), ClosedWindow::Both,
        TimeUnit::Milliseconds);
    assert!(matches!(r, Err(UpsampleError::InvalidDuration)));
}

#[test]
fn add_duration_applies_months_before_nanoseconds() {
    // Jan 31 + (1mo and 1d): clamp to Feb 28 first, then add the day.
    let d = Duration::new(1, NS_PER_DAY, false);
    let r = add_duration(d, MS_2021_01_31, TimeUnit::Milliseconds).unwrap();
    assert_eq!(r, MS_2021_02_28 + MS_PER_DAY);
}

#[test]
fn add_duration_negative_goes_backwards() {
    let d = Duration::new(0, NS_PER_DAY, true);
    let r = add_duration(d, MS_2021_02_28, TimeUnit::Milliseconds).unwrap();
    assert_eq!(r, MS_2021_02_28 - MS_PER_DAY);
}

#[test]
fn nanosecond_window_brackets_the_year_range() {
    // 1386-01-01 is the first in-window instant at ms resolution …
    let first: i64 = -213_301 * MS_PER_DAY;
    assert!(in_nanoseconds_window(first, TimeUnit::Milliseconds));
    assert!(!in_nanoseconds_window(first - 1, TimeUnit::Milliseconds));
    // … and 2555-01-01 is the first instant past it.
    let past: i64 = 213_667 * MS_PER_DAY;
    assert!(!in_nanoseconds_window(past, TimeUnit::Milliseconds));
    assert!(in_nanoseconds_window(past - 1, TimeUnit::Milliseconds));
}

#[test]
fn every_nanosecond_timestamp_is_in_window() {
    assert!(in_nanoseconds_window(i64::MIN, TimeUnit::Nanoseconds));
    assert!(in_nanoseconds_window(i64::MAX, TimeUnit::Nanoseconds));
    assert!(in_nanoseconds_window(0, TimeUnit::Nanoseconds));
}

#[test]
fn nanosecond_resolution_grids_work_too() {
    let s = date_range("t", 0, 3, Duration::new(0, 1, false), ClosedWindow::Both,
        TimeUnit::Nanoseconds)
        .unwrap();
    assert_eq!(s.values, vec![Some(0), Some(1), Some(2), Some(3)]);
}

#[test]
fn monthly_step_works_at_nanosecond_resolution() {
    let jan31_ns = MS_2021_01_31 * 1_000_000;
    let feb28_ns = MS_2021_02_28 * 1_000_000;
    let r = add_duration(Duration::new(1, 0, false), jan31_ns, TimeUnit::Nanoseconds).unwrap();
    assert_eq!(r, feb28_ns);
}

#[test]
fn empty_range_when_start_is_past_stop() {
    let v = range_values(3 * MS_PER_DAY, MS_PER_DAY, day_ms(), ClosedWindow::Both);
    assert_eq!(v, Vec::<Option<i64>>::new());
}

#[test]
fn calendar_add_out_of_window_is_rejected() {
    // Calendar year far beyond 2554 at ms resolution.
    let t: i64 = 300_000 * MS_PER_DAY;
    let r = add_duration(Duration::new(1, 0, false), t, TimeUnit::Milliseconds);
    assert!(matches!(r, Err(UpsampleError::OutOfRepresentableRange)));
}
