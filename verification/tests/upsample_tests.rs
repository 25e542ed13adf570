use upsample::frame::{DataFrame, Series};
use upsample::types::{DataType, Duration, TimeUnit, UpsampleError};

const MS_2021_01_01: i64 = 1_609_459_200_000;
const MS_2021_01_02: i64 = 1_609_545_600_000;
const MS_2021_01_03: i64 = 1_609_632_000_000;
const MS_2021_01_05: i64 = 1_609_804_800_000;
const MS_2021_01_10: i64 = 1_610_236_800_000;
const MS_2021_01_11: i64 = 1_610_323_200_000;
const D_2021_01_01: i64 = 18_628;
const D_2021_01_03: i64 = 18_630;
const D_2021_01_05: i64 = 18_632;
const MS_PER_DAY: i64 = 86_400_000;
const NS_PER_DAY: i64 = 86_400_000_000_000;

fn one_day() -> Duration {
    Duration::new(0, NS_PER_DAY, false)
}

fn two_days() -> Duration {
    Duration::new(0, 2 * NS_PER_DAY, false)
}

fn zero() -> Duration {
    Duration::new(0, 0, false)
}

fn col(name: &str, dtype: DataType, values: Vec<Option<i64>>) -> Series {
    Series::new(name.to_string(), dtype, values)
}

fn ms_col(name: &str, values: Vec<Option<i64>>) -> Series {
    col(name, DataType::Datetime(TimeUnit::Milliseconds), values)
}

fn values_of(df: &DataFrame, name: &str) -> Vec<Option<i64>> {
    let i = df.find_column(name).expect("column must exist");
    df.columns[i].values.clone()
}

#[test]
fn ungrouped_daily_grid_fills_gap_with_nulls() {
    // Index [2021-01-01, 2021-01-03] at ms resolution, every 1d, offset 0,
    // no groups: grid is [01-01, 01-02, 01-03]; the middle row is all null.
    let df = DataFrame::new(vec![
        ms_col("time", vec![Some(MS_2021_01_01), Some(MS_2021_01_03)]),
        col("value", DataType::Other, vec![Some(10), Some(30)]),
    ]);
    let out = df.upsample(&vec![], "time", one_day(), zero()).unwrap();
    assert_eq!(out.columns.len(), 2);
    assert_eq!(
        values_of(&out, "time"),
        vec![Some(MS_2021_01_01), Some(MS_2021_01_02), Some(MS_2021_01_03)]
    );
    assert_eq!(values_of(&out, "value"), vec![Some(10), None, Some(30)]);
}

#[test]
fn date_column_round_trips_through_milliseconds() {
    // Date column [2021-01-01, 2021-01-05], every 2d: the internal grid is
    // [01-01, 01-03, 01-05] at ms resolution and the cast back to Date
    // reproduces exactly these three day values.
    let df = DataFrame::new(vec![
        col("day", DataType::Date, vec![Some(D_2021_01_01), Some(D_2021_01_05)]),
        col("value", DataType::Other, vec![Some(1), Some(5)]),
    ]);
    let out = df.upsample(&vec![], "day", two_days(), zero()).unwrap();
    let i = out.find_column("day").unwrap();
    assert_eq!(out.columns[i].dtype, DataType::Date);
    assert_eq!(
        values_of(&out, "day"),
        vec![Some(D_2021_01_01), Some(D_2021_01_03), Some(D_2021_01_05)]
    );
    assert_eq!(values_of(&out, "value"), vec![Some(1), None, Some(5)]);
}

#[test]
fn grouped_grids_span_only_their_own_partition() {
    // Two ids with disjoint date ranges: each id's grid spans only its own
    // min/max; the total row count is the sum of the per-group grid sizes.
    let df = DataFrame::new(vec![
        col("id", DataType::Other, vec![Some(1), Some(1), Some(2), Some(2)]),
        ms_col(
            "time",
            vec![
                Some(MS_2021_01_01),
                Some(MS_2021_01_03),
                Some(MS_2021_01_10),
                Some(MS_2021_01_11),
            ],
        ),
    ]);
    let by = vec!["id".to_string()];
    let out = df.upsample_stable(&by, "time", one_day(), zero()).unwrap();
    assert_eq!(
        values_of(&out, "time"),
        vec![
            Some(MS_2021_01_01),
            Some(MS_2021_01_02),
            Some(MS_2021_01_03),
            Some(MS_2021_01_10),
            Some(MS_2021_01_11),
        ]
    );
    assert_eq!(
        values_of(&out, "id"),
        vec![Some(1), None, Some(1), Some(2), Some(2)]
    );
}

#[test]
fn stable_and_unstable_agree() {
    // Interleaved keys: rows of id 2 and id 1 alternate. Both entry points
    // produce the same rows; the stable order puts id 2 (first occurrence)
    // before id 1.
    let df = DataFrame::new(vec![
        col("id", DataType::Other, vec![Some(2), Some(1), Some(2)]),
        ms_col(
            "time",
            vec![Some(MS_2021_01_01), Some(MS_2021_01_05), Some(MS_2021_01_03)],
        ),
    ]);
    let by = vec!["id".to_string()];
    let a = df.upsample(&by, "time", one_day(), zero()).unwrap();
    let b = df.upsample_stable(&by, "time", one_day(), zero()).unwrap();
    assert_eq!(a.columns.len(), b.columns.len());
    for c in 0..a.columns.len() {
        assert_eq!(a.columns[c].name, b.columns[c].name);
        assert_eq!(a.columns[c].dtype, b.columns[c].dtype);
        assert_eq!(a.columns[c].values, b.columns[c].values);
    }
    assert_eq!(
        values_of(&b, "time"),
        vec![
            Some(MS_2021_01_01),
            Some(MS_2021_01_02),
            Some(MS_2021_01_03),
            Some(MS_2021_01_05),
        ]
    );
    assert_eq!(values_of(&b, "id"), vec![Some(2), None, Some(2), Some(1)]);
}

#[test]
fn duplicate_timestamps_match_the_first_row() {
    // Two rows share the first grid timestamp: the output still has exactly
    // one row per grid point, filled from the first matching row.
    let df = DataFrame::new(vec![
        ms_col(
            "time",
            vec![Some(MS_2021_01_01), Some(MS_2021_01_01), Some(MS_2021_01_03)],
        ),
        col("value", DataType::Other, vec![Some(1), Some(99), Some(3)]),
    ]);
    let out = df.upsample(&vec![], "time", one_day(), zero()).unwrap();
    assert_eq!(
        values_of(&out, "time"),
        vec![Some(MS_2021_01_01), Some(MS_2021_01_02), Some(MS_2021_01_03)]
    );
    assert_eq!(values_of(&out, "value"), vec![Some(1), None, Some(3)]);
}

#[test]
fn single_point_domain_gives_one_row() {
    let df = DataFrame::new(vec![
        ms_col("time", vec![Some(MS_2021_01_03)]),
        col("value", DataType::Other, vec![Some(7)]),
    ]);
    let out = df.upsample(&vec![], "time", one_day(), zero()).unwrap();
    assert_eq!(values_of(&out, "time"), vec![Some(MS_2021_01_03)]);
    assert_eq!(values_of(&out, "value"), vec![Some(7)]);
}

#[test]
fn all_null_index_yields_empty_domain() {
    let df = DataFrame::new(vec![
        ms_col("time", vec![None, None]),
        col("value", DataType::Other, vec![Some(1), Some(2)]),
    ]);
    let r = df.upsample(&vec![], "time", one_day(), zero());
    assert!(matches!(r, Err(UpsampleError::EmptyDomain)));
}

#[test]
fn all_null_partition_yields_empty_domain() {
    // The first partition is fine, the second is entirely null: the whole
    // call aborts with EmptyDomain rather than skipping the partition.
    let df = DataFrame::new(vec![
        col("id", DataType::Other, vec![Some(1), Some(2)]),
        ms_col("time", vec![Some(MS_2021_01_01), None]),
    ]);
    let by = vec!["id".to_string()];
    let r = df.upsample(&by, "time", one_day(), zero());
    assert!(matches!(r, Err(UpsampleError::EmptyDomain)));
}

#[test]
fn zero_duration_is_invalid() {
    let df = DataFrame::new(vec![ms_col("time", vec![Some(MS_2021_01_01), Some(MS_2021_01_03)])]);
    let r = df.upsample(&vec![], "time", zero(), zero());
    assert!(matches!(r, Err(UpsampleError::InvalidDuration)));
}

#[test]
fn negative_duration_is_invalid() {
    let df = DataFrame::new(vec![ms_col("time", vec![Some(MS_2021_01_01), Some(MS_2021_01_03)])]);
    let r = df.upsample(&vec![], "time", Duration::new(0, NS_PER_DAY, true), zero());
    assert!(matches!(r, Err(UpsampleError::InvalidDuration)));
}

#[test]
fn sub_resolution_duration_is_invalid() {
    // One nanosecond makes no forward progress on a millisecond index.
    let df = DataFrame::new(vec![ms_col("time", vec![Some(MS_2021_01_01), Some(MS_2021_01_03)])]);
    let r = df.upsample(&vec![], "time", Duration::new(0, 1, false), zero());
    assert!(matches!(r, Err(UpsampleError::InvalidDuration)));
}

#[test]
fn non_temporal_index_is_rejected() {
    let df = DataFrame::new(vec![col("n", DataType::Other, vec![Some(1), Some(2)])]);
    let r = df.upsample(&vec![], "n", one_day(), zero());
    assert!(matches!(r, Err(UpsampleError::UnsupportedDtype(DataType::Other))));
}

#[test]
fn calendar_step_outside_window_is_rejected() {
    // Around calendar year 2791 at ms resolution: a monthly step must refuse
    // to run the calendar conversion outside the year window 1386..=2554.
    let t1: i64 = 300_000 * MS_PER_DAY;
    let t2: i64 = t1 + 100 * MS_PER_DAY;
    let df = DataFrame::new(vec![ms_col("time", vec![Some(t1), Some(t2)])]);
    let r = df.upsample(&vec![], "time", Duration::new(1, 0, false), zero());
    assert!(matches!(r, Err(UpsampleError::OutOfRepresentableRange)));
}

#[test]
fn offset_moves_only_the_grid_start() {
    // Offset +1d: the grid starts one day after the first observation but
    // still extends to the last observation.
    let df = DataFrame::new(vec![
        ms_col("time", vec![Some(MS_2021_01_01), Some(MS_2021_01_03)]),
        col("value", DataType::Other, vec![Some(10), Some(30)]),
    ]);
    let out = df.upsample(&vec![], "time", one_day(), one_day()).unwrap();
    assert_eq!(
        values_of(&out, "time"),
        vec![Some(MS_2021_01_02), Some(MS_2021_01_03)]
    );
    assert_eq!(values_of(&out, "value"), vec![None, Some(30)]);
}

#[test]
fn negative_offset_extends_before_first() {
    let df = DataFrame::new(vec![ms_col("time", vec![Some(MS_2021_01_02), Some(MS_2021_01_03)])]);
    let out = df
        .upsample(&vec![], "time", one_day(), Duration::new(0, NS_PER_DAY, true))
        .unwrap();
    assert_eq!(
        values_of(&out, "time"),
        vec![Some(MS_2021_01_01), Some(MS_2021_01_02), Some(MS_2021_01_03)]
    );
}

#[test]
fn join_keeps_every_grid_row_exactly_once() {
    // Rows off the grid are dropped; every grid row appears exactly once.
    let df = DataFrame::new(vec![
        ms_col(
            "time",
            vec![Some(MS_2021_01_01), Some(MS_2021_01_01 + 1), Some(MS_2021_01_03)],
        ),
        col("value", DataType::Other, vec![Some(1), Some(99), Some(3)]),
    ]);
    let out = df.upsample(&vec![], "time", one_day(), zero()).unwrap();
    assert_eq!(
        values_of(&out, "time"),
        vec![Some(MS_2021_01_01), Some(MS_2021_01_02), Some(MS_2021_01_03)]
    );
    // The off-grid row (one ms past midnight) is dropped.
    assert_eq!(values_of(&out, "value"), vec![Some(1), None, Some(3)]);
}

#[test]
fn missing_values_inside_index_survive() {
    // Nulls between the first and last non-null index values are ignored for
    // the domain but their rows are unreachable from the grid.
    let df = DataFrame::new(vec![
        ms_col("time", vec![None, Some(MS_2021_01_01), None, Some(MS_2021_01_02)]),
        col("value", DataType::Other, vec![Some(0), Some(1), Some(2), Some(3)]),
    ]);
    let out = df.upsample(&vec![], "time", one_day(), zero()).unwrap();
    assert_eq!(
        values_of(&out, "time"),
        vec![Some(MS_2021_01_01), Some(MS_2021_01_02)]
    );
    assert_eq!(values_of(&out, "value"), vec![Some(1), Some(3)]);
}
