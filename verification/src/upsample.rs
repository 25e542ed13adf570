//! The upsampling core: per-partition grid construction and the top-level
//! driver that normalizes dtypes and dispatches grouped or ungrouped work.

use vstd::prelude::*;
use crate::types::{TimeUnit, ClosedWindow, DataType, Duration, UpsampleError};
use crate::calendar::{add_dur, add_dur_ok, dur_step_pos, add_duration};
use crate::range::{grid_seq, grid_complete, range_seq, date_range_values};
use crate::frame::{Series, DataFrame, first_non_null, last_non_null, join_col};

verus! {

/// The columns of a table as a plain matrix of nullable values.
pub open spec fn df_mat(df: DataFrame) -> Seq<Seq<Option<i64>>> {
    df.columns@.map_values(|s: Series| s.values@)
}

/// What upsampling one partition returns, as a function of the partition's
/// value matrix: the index column must be a `Datetime`; its non-null values
/// give the domain (empty domains are rejected); the offset moves only the
/// grid's start; the grid spans up to and including the last index value; and
/// every column is left-joined onto the grid.
pub open spec fn upsample_single_vals(
    m: Seq<Seq<Option<i64>>>,
    dtype: DataType,
    idx: int,
    every: Duration,
    offset: Duration,
) -> Result<Seq<Seq<Option<i64>>>, UpsampleError> {
    match dtype {
        DataType::Datetime(tu) => {
            match (first_non_null(m[idx]), last_non_null(m[idx])) {
                (Some(first), Some(last)) => {
                    if !add_dur_ok(offset, first as int, tu) {
                        Err(UpsampleError::OutOfRepresentableRange)
                    } else {
                        let f2 = add_dur(offset, first as int, tu);
                        if !dur_step_pos(every, tu) {
                            Err(UpsampleError::InvalidDuration)
                        } else if !grid_complete(every, f2, last as int, tu) {
                            Err(UpsampleError::OutOfRepresentableRange)
                        } else {
                            let g = grid_seq(every, f2, last as int, tu, true);
                            Ok(Seq::new(m.len(), |c: int|
                                if c == idx {
                                    g.map_values(|x: int| Some(x as i64))
                                } else {
                                    join_col(g, m[idx], m[c])
                                }))
                        }
                    }
                },
                _ => Err(UpsampleError::EmptyDomain),
            }
        },
        dt => Err(UpsampleError::UnsupportedDtype(dt)),
    }
}

impl DataFrame {
    /// Upsample one partition: scan the non-null index values for the domain,
    /// shift only its start by `offset`, generate the grid with both
    /// endpoints included, and left-join the partition onto it.
    pub fn upsample_single_impl(&self, idx: usize, every: Duration, offset: Duration) -> (r:
        Result<DataFrame, UpsampleError>)
        requires
            self.wf(),
            idx < self.columns@.len(),
            every.wf(),
            offset.wf(),
        ensures
            ({
                let sv = upsample_single_vals(df_mat(*self), self.columns@[idx as int].dtype,
                    idx as int, every, offset);
                match r {
                    Ok(out) => {
                        &&& sv matches Ok(mm) && out.columns@.len() == self.columns@.len()
                            && forall|c: int|
                            0 <= c < out.columns@.len() ==> (#[trigger] out.columns@[c]).values@
                                == mm[c]
                        &&& out.wf()
                        &&& forall|c: int|
                            0 <= c < out.columns@.len() ==> (#[trigger] out.columns@[c]).name@
                                == self.columns@[c].name@ && out.columns@[c].dtype
                                == self.columns@[c].dtype
                    },
                    Err(e) => sv matches Err(e2) && e == e2,
                }
            }),
    {
        let ghost m = df_mat(*self);
        proof {
            assert(m[idx as int] == self.columns@[idx as int].values@);
        }
        let tu = match self.columns[idx].dtype {
            DataType::Datetime(u) => u,
            dt => {
                return Err(UpsampleError::UnsupportedDtype(dt));
            },
        };
        let bounds = crate::frame::non_null_bounds(&self.columns[idx].values);
        let (first, last) = match bounds {
            Some(p) => p,
            None => {
                return Err(UpsampleError::EmptyDomain);
            },
        };
        let new_first = match add_duration(offset, first, tu) {
            Ok(v) => v,
            Err(e) => {
                return Err(e);
            },
        };
        let grid = match date_range_values(new_first, last, every, ClosedWindow::Both, tu) {
            Ok(g) => g,
            Err(e) => {
                return Err(e);
            },
        };
        let ghost g = grid_seq(every, new_first as int, last as int, tu, true);
        proof {
            assert(range_seq(every, new_first as int, last as int, tu, ClosedWindow::Both) == g);
            assert(grid@.map_values(|x: i64| x as int) =~= g);
        }
        let out = self.left_join_on_grid(&grid, idx);
        proof {
            let sv = upsample_single_vals(m, self.columns@[idx as int].dtype, idx as int, every,
                offset);
            let mm = sv->Ok_0;
            assert forall|c: int| 0 <= c < out.columns@.len() implies (
                #[trigger] out.columns@[c]).values@ == mm[c] by {
                assert(m[c] == self.columns@[c].values@);
                if c == idx {
                    assert(out.columns@[c].values@ =~= g.map_values(|x: int| Some(x as i64)));
                } else {
                    assert(join_col(grid@.map_values(|x: i64| x as int), m[idx as int], m[c])
                        == join_col(g, m[idx as int], m[c]));
                }
            }
        }
        Ok(out)
    }
}

/// Join completeness: in a successful single-partition result every grid
/// point yields exactly one output row — the index column is non-null and
/// strictly increasing, so nothing is duplicated, and every column has
/// exactly one entry per grid point, so nothing is dropped.
pub proof fn lemma_join_completeness(
    m: Seq<Seq<Option<i64>>>,
    tu: TimeUnit,
    idx: int,
    every: Duration,
    offset: Duration,
)
    requires
        every.wf(),
        offset.wf(),
        0 <= idx < m.len(),
        upsample_single_vals(m, DataType::Datetime(tu), idx, every, offset) is Ok,
    ensures
        ({
            let mm = upsample_single_vals(m, DataType::Datetime(tu), idx, every, offset)->Ok_0;
            let gcol = mm[idx];
            &&& mm.len() == m.len()
            &&& forall|i: int| 0 <= i < gcol.len() ==> (#[trigger] gcol[i]) is Some
            &&& forall|i: int, j: int|
                0 <= i < j < gcol.len() ==> (#[trigger] gcol[i])->Some_0 < (
                #[trigger] gcol[j])->Some_0
            &&& forall|c: int| 0 <= c < mm.len() ==> (#[trigger] mm[c]).len() == gcol.len()
        }),
{
    let first = first_non_null(m[idx])->Some_0;
    let last = last_non_null(m[idx])->Some_0;
    let f2 = add_dur(offset, first as int, tu);
    let g = grid_seq(every, f2, last as int, tu, true);
    crate::range::lemma_grid_bounded(every, f2, last as int, tu, true);
    crate::range::lemma_grid_monotone(every, f2, last as int, tu, true);
    let mm = upsample_single_vals(m, DataType::Datetime(tu), idx, every, offset)->Ok_0;
    assert forall|i: int| 0 <= i < mm[idx].len() implies (#[trigger] mm[idx][i]) is Some by {
        assert(mm[idx][i] == Some(g[i] as i64));
    }
    assert forall|i: int, j: int| 0 <= i < j < mm[idx].len() implies (
        #[trigger] mm[idx][i])->Some_0 < (#[trigger] mm[idx][j])->Some_0 by {
        assert(mm[idx][i] == Some(g[i] as i64));
        assert(mm[idx][j] == Some(g[j] as i64));
        assert(g[i] < g[j]);
    }
}

/// Null-domain rejection: a `Datetime` partition is rejected with
/// `EmptyDomain` exactly when every one of its index values is null.
pub proof fn lemma_null_domain_rejection(
    m: Seq<Seq<Option<i64>>>,
    tu: TimeUnit,
    idx: int,
    every: Duration,
    offset: Duration,
)
    ensures
        (forall|k: int| 0 <= k < m[idx].len() ==> m[idx][k] is None) <==> upsample_single_vals(m,
            DataType::Datetime(tu), idx, every, offset) == Err::<Seq<Seq<Option<i64>>>,
            UpsampleError>(UpsampleError::EmptyDomain),
{
    if forall|k: int| 0 <= k < m[idx].len() ==> m[idx][k] is None {
        lemma_all_null_first(m[idx]);
        lemma_all_null_last_too(m[idx]);
    }
    if upsample_single_vals(m, DataType::Datetime(tu), idx, every, offset) == Err::<Seq<Seq<
        Option<i64>>>, UpsampleError>(UpsampleError::EmptyDomain) {
        if first_non_null(m[idx]) is Some && last_non_null(m[idx]) is Some {
            assert(false);
        }
        if first_non_null(m[idx]) is None {
            lemma_first_none_all_null_pub(m[idx]);
        } else {
            lemma_last_none_all_null(m[idx]);
        }
    }
}

proof fn lemma_all_null_first(vals: Seq<Option<i64>>)
    requires
        forall|k: int| 0 <= k < vals.len() ==> vals[k] is None,
    ensures
        first_non_null(vals) is None,
    decreases vals.len(),
{
    if vals.len() > 0 {
        lemma_all_null_first(vals.drop_first());
    }
}

proof fn lemma_all_null_last_too(vals: Seq<Option<i64>>)
    requires
        forall|k: int| 0 <= k < vals.len() ==> vals[k] is None,
    ensures
        last_non_null(vals) is None,
    decreases vals.len(),
{
    if vals.len() > 0 {
        lemma_all_null_last_too(vals.drop_last());
    }
}

proof fn lemma_first_none_all_null_pub(vals: Seq<Option<i64>>)
    requires
        first_non_null(vals) is None,
    ensures
        forall|k: int| 0 <= k < vals.len() ==> vals[k] is None,
    decreases vals.len(),
{
    if vals.len() > 0 {
        lemma_first_none_all_null_pub(vals.drop_first());
        assert forall|k: int| 0 <= k < vals.len() implies vals[k] is None by {
            if k > 0 {
                assert(vals[k] == vals.drop_first()[k - 1]);
            }
        }
    }
}

proof fn lemma_last_none_all_null(vals: Seq<Option<i64>>)
    requires
        last_non_null(vals) is None,
    ensures
        forall|k: int| 0 <= k < vals.len() ==> vals[k] is None,
    decreases vals.len(),
{
    if vals.len() > 0 {
        lemma_last_none_all_null(vals.drop_last());
        assert forall|k: int| 0 <= k < vals.len() implies vals[k] is None by {
            if k < vals.len() - 1 {
                assert(vals[k] == vals.drop_last()[k]);
            }
        }
    }
}

// ---------------------------------------------------------------------------
// Partitioning by key columns.
// ---------------------------------------------------------------------------

/// The key of row `r`: its values in the `by` columns, in order.
pub open spec fn mat_row_key(m: Seq<Seq<Option<i64>>>, by: Seq<int>, r: int) -> Seq<Option<i64>> {
    by.map_values(|c: int| m[c][r])
}

/// The distinct keys among the first `n` rows, in first-occurrence order.
pub open spec fn mat_group_keys(m: Seq<Seq<Option<i64>>>, by: Seq<int>, n: int) -> Seq<Seq<Option<
    i64>>>
    decreases n,
{
    if n <= 0 {
        Seq::empty()
    } else {
        let prev = mat_group_keys(m, by, n - 1);
        let k = mat_row_key(m, by, n - 1);
        if prev.contains(k) {
            prev
        } else {
            prev.push(k)
        }
    }
}

/// The rows among the first `n` whose key is `k`, in row order.
pub open spec fn mat_rows_with_key(m: Seq<Seq<Option<i64>>>, by: Seq<int>, k: Seq<Option<i64>>,
    n: int) -> Seq<int>
    decreases n,
{
    if n <= 0 {
        Seq::empty()
    } else {
        let prev = mat_rows_with_key(m, by, k, n - 1);
        if mat_row_key(m, by, n - 1) == k {
            prev.push(n - 1)
        } else {
            prev
        }
    }
}

/// The sub-matrix of the given rows, in the given order.
pub open spec fn mat_take(m: Seq<Seq<Option<i64>>>, rows: Seq<int>) -> Seq<Seq<Option<i64>>> {
    m.map_values(|col: Seq<Option<i64>>| rows.map_values(|r: int| col[r]))
}

/// Column-wise concatenation of two value matrices.
pub open spec fn mat_concat(a: Seq<Seq<Option<i64>>>, b: Seq<Seq<Option<i64>>>) -> Seq<Seq<Option<
    i64>>> {
    Seq::new(a.len(), |c: int| a[c] + b[c])
}

/// The key of row `r` as an owned vector.
fn row_key_of(df: &DataFrame, by: &Vec<usize>, r: usize) -> (k: Vec<Option<i64>>)
    requires
        df.wf(),
        forall|b: int| 0 <= b < by@.len() ==> #[trigger] by@[b] < df.columns@.len(),
        r < df.height(),
    ensures
        k@ == mat_row_key(df_mat(*df), by@.map_values(|x: usize| x as int), r as int),
{
    let ghost byi = by@.map_values(|x: usize| x as int);
    let mut k: Vec<Option<i64>> = Vec::new();
    let mut b: usize = 0;
    while b < by.len()
        invariant
            df.wf(),
            forall|q: int| 0 <= q < by@.len() ==> #[trigger] by@[q] < df.columns@.len(),
            r < df.height(),
            byi == by@.map_values(|x: usize| x as int),
            0 <= b <= by@.len(),
            k@.len() == b,
            forall|q: int|
                0 <= q < b ==> #[trigger] k@[q] == df.columns@[by@[q] as int].values@[r as int],
        decreases by@.len() - b,
    {
        let c = by[b];
        k.push(self_cell(df, c, r));
        b = b + 1;
    }
    proof {
        assert(k@ =~= mat_row_key(df_mat(*df), byi, r as int));
    }
    k
}

/// One cell of the table.
fn self_cell(df: &DataFrame, c: usize, r: usize) -> (v: Option<i64>)
    requires
        df.wf(),
        c < df.columns@.len(),
        r < df.height(),
    ensures
        v == df.columns@[c as int].values@[r as int],
{
    df.columns[c].values[r]
}

/// Element-wise equality of two keys.
fn keys_equal(a: &Vec<Option<i64>>, b: &Vec<Option<i64>>) -> (r: bool)
    ensures
        r == (a@ == b@),
{
    if a.len() != b.len() {
        return false;
    }
    let mut i: usize = 0;
    while i < a.len()
        invariant
            a@.len() == b@.len(),
            0 <= i <= a@.len(),
            forall|j: int| 0 <= j < i ==> a@[j] == b@[j],
        decreases a@.len() - i,
    {
        let same = match (a[i], b[i]) {
            (None, None) => true,
            (Some(x), Some(y)) => x == y,
            _ => false,
        };
        if !same {
            return false;
        }
        i = i + 1;
    }
    proof {
        assert(a@ =~= b@);
    }
    true
}

/// Split the table's rows into partitions: one group of row indices per
/// distinct key over the `by` columns, groups ordered by first occurrence,
/// rows within a group in row order.
fn partition_rows(df: &DataFrame, by: &Vec<usize>) -> (groups: Vec<Vec<usize>>)
    requires
        df.wf(),
        forall|b: int| 0 <= b < by@.len() ==> #[trigger] by@[b] < df.columns@.len(),
    ensures
        ({
            let m = df_mat(*df);
            let byi = by@.map_values(|x: usize| x as int);
            let n = df.height();
            let keys = mat_group_keys(m, byi, n);
            &&& groups@.len() == keys.len()
            &&& forall|g: int|
                0 <= g < groups@.len() ==> (#[trigger] groups@[g])@.map_values(|x: usize| x as int)
                    == mat_rows_with_key(m, byi, keys[g], n)
            &&& forall|g: int, q: int|
                0 <= g < groups@.len() && 0 <= q < groups@[g]@.len() ==> (#[trigger] groups@[g]@[q])
                    < df.height()
        }),
{
    let ghost m = df_mat(*df);
    let ghost byi = by@.map_values(|x: usize| x as int);
    let n = if df.columns.len() == 0 {
        0
    } else {
        df.columns[0].values.len()
    };
    proof {
        assert(n as int == df.height());
    }
    let mut reps: Vec<Vec<Option<i64>>> = Vec::new();
    let mut r: usize = 0;
    while r < n
        invariant
            df.wf(),
            forall|b: int| 0 <= b < by@.len() ==> #[trigger] by@[b] < df.columns@.len(),
            m == df_mat(*df),
            byi == by@.map_values(|x: usize| x as int),
            n as int == df.height(),
            0 <= r <= n,
            reps@.len() == mat_group_keys(m, byi, r as int).len(),
            forall|g: int|
                0 <= g < reps@.len() ==> (#[trigger] reps@[g])@ == mat_group_keys(m, byi,
                r as int)[g],
        decreases n - r,
    {
        let k = row_key_of(df, by, r);
        let mut found = false;
        let mut g: usize = 0;
        while !found && g < reps.len()
            invariant
                0 <= g <= reps@.len(),
                !found ==> forall|q: int| 0 <= q < g ==> (#[trigger] reps@[q])@ != k@,
                found ==> exists|q: int| 0 <= q < reps@.len() && (#[trigger] reps@[q])@ == k@,
            decreases (if found { 0int } else { 1int }), reps@.len() - g,
        {
            if keys_equal(&reps[g], &k) {
                found = true;
            } else {
                g = g + 1;
            }
        }
        let ghost keys_r = mat_group_keys(m, byi, r as int);
        proof {
            if found {
                let q = choose|q: int| 0 <= q < reps@.len() && (#[trigger] reps@[q])@ == k@;
                assert(keys_r[q] == k@);
                assert(keys_r.contains(k@));
            } else {
                if keys_r.contains(k@) {
                    let q = choose|q: int| 0 <= q < keys_r.len() && keys_r[q] == k@;
                    assert((reps@[q])@ == k@);
                    assert(false);
                }
            }
        }
        if !found {
            reps.push(k);
        }
        r = r + 1;
    }
    let mut groups: Vec<Vec<usize>> = Vec::new();
    let mut g: usize = 0;
    while g < reps.len()
        invariant
            df.wf(),
            forall|b: int| 0 <= b < by@.len() ==> #[trigger] by@[b] < df.columns@.len(),
            m == df_mat(*df),
            byi == by@.map_values(|x: usize| x as int),
            n as int == df.height(),
            reps@.len() == mat_group_keys(m, byi, n as int).len(),
            forall|q: int|
                0 <= q < reps@.len() ==> (#[trigger] reps@[q])@ == mat_group_keys(m, byi,
                n as int)[q],
            0 <= g <= reps@.len(),
            groups@.len() == g,
            forall|q: int|
                0 <= q < g ==> (#[trigger] groups@[q])@.map_values(|x: usize| x as int)
                    == mat_rows_with_key(m, byi, mat_group_keys(m, byi, n as int)[q], n as int),
            forall|q: int, w: int|
                0 <= q < g && 0 <= w < groups@[q]@.len() ==> (#[trigger] groups@[q]@[w]) < n,
        decreases reps@.len() - g,
    {
        let mut rows: Vec<usize> = Vec::new();
        let mut r: usize = 0;
        while r < n
            invariant
                df.wf(),
                forall|b: int| 0 <= b < by@.len() ==> #[trigger] by@[b] < df.columns@.len(),
                m == df_mat(*df),
                byi == by@.map_values(|x: usize| x as int),
                n as int == df.height(),
                g < reps@.len(),
                0 <= r <= n,
                rows@.map_values(|x: usize| x as int) == mat_rows_with_key(m, byi,
                    (reps@[g as int])@, r as int),
                forall|w: int| 0 <= w < rows@.len() ==> (#[trigger] rows@[w]) < n,
            decreases n - r,
        {
            let k = row_key_of(df, by, r);
            if keys_equal(&k, &reps[g]) {
                rows.push(r);
                proof {
                    assert(rows@.map_values(|x: usize| x as int) =~= mat_rows_with_key(m, byi,
                        (reps@[g as int])@, r as int + 1));
                }
            }
            r = r + 1;
        }
        groups.push(rows);
        g = g + 1;
    }
    groups
}

/// The sub-table holding exactly the given rows, in the given order.
fn take_rows(df: &DataFrame, rows: &Vec<usize>) -> (out: DataFrame)
    requires
        df.wf(),
        forall|w: int| 0 <= w < rows@.len() ==> (#[trigger] rows@[w]) < df.height(),
    ensures
        out.wf(),
        out.columns@.len() == df.columns@.len(),
        out.height() == rows@.len(),
        forall|c: int|
            0 <= c < out.columns@.len() ==> (#[trigger] out.columns@[c]).name@
                == df.columns@[c].name@ && out.columns@[c].dtype == df.columns@[c].dtype,
        df_mat(out) == mat_take(df_mat(*df), rows@.map_values(|x: usize| x as int)),
{
    let ghost rints = rows@.map_values(|x: usize| x as int);
    let mut cols: Vec<Series> = Vec::new();
    let mut c: usize = 0;
    while c < df.columns.len()
        invariant
            df.wf(),
            forall|w: int| 0 <= w < rows@.len() ==> (#[trigger] rows@[w]) < df.height(),
            rints == rows@.map_values(|x: usize| x as int),
            0 <= c <= df.columns@.len(),
            cols@.len() == c,
            forall|q: int|
                0 <= q < c ==> (#[trigger] cols@[q]).name@ == df.columns@[q].name@ && cols@[q].dtype
                    == df.columns@[q].dtype && cols@[q].values@ == rints.map_values(
                |r: int| df.columns@[q].values@[r]),
        decreases df.columns@.len() - c,
    {
        let mut cells: Vec<Option<i64>> = Vec::new();
        let mut w: usize = 0;
        while w < rows.len()
            invariant
                df.wf(),
                forall|v: int| 0 <= v < rows@.len() ==> (#[trigger] rows@[v]) < df.height(),
                c < df.columns@.len(),
                0 <= w <= rows@.len(),
                cells@.len() == w,
                forall|v: int|
                    0 <= v < w ==> #[trigger] cells@[v] == df.columns@[c as int].values@[rows@[v] as int],
            decreases rows@.len() - w,
        {
            cells.push(self_cell(df, c, rows[w]));
            w = w + 1;
        }
        let src = &df.columns[c];
        let col = Series { name: src.name.clone(), dtype: src.dtype, values: cells };
        proof {
            assert(col.values@ =~= rints.map_values(|r: int| df.columns@[c as int].values@[r]));
        }
        cols.push(col);
        c = c + 1;
    }
    let out = DataFrame { columns: cols };
    proof {
        if df.columns@.len() == 0 && rows@.len() > 0 {
            assert(rows@[0] < df.height());
            assert(false);
        }
        assert(df_mat(out) =~= mat_take(df_mat(*df), rints));
        assert forall|q: int| 0 <= q < out.columns@.len() implies (#[trigger] out.columns@[q]).wf()
            by {
            assert(df.columns@[q].wf());
        }
        assert(out.wf());
    }
    out
}

// ---------------------------------------------------------------------------
// Grouped upsampling.
// ---------------------------------------------------------------------------

/// Upsample every partition from group `g` on, in group order, and
/// concatenate the results column-wise; the first failing group's error wins.
pub open spec fn grouped_vals_from(
    m: Seq<Seq<Option<i64>>>,
    dtype: DataType,
    idx: int,
    every: Duration,
    offset: Duration,
    by: Seq<int>,
    n: int,
    g: int,
) -> Result<Seq<Seq<Option<i64>>>, UpsampleError>
    decreases mat_group_keys(m, by, n).len() - g,
{
    let keys = mat_group_keys(m, by, n);
    if g < 0 || g >= keys.len() {
        Ok(Seq::new(m.len(), |c: int| Seq::<Option<i64>>::empty()))
    } else {
        match upsample_single_vals(mat_take(m, mat_rows_with_key(m, by, keys[g], n)), dtype, idx,
            every, offset) {
            Err(e) => Err(e),
            Ok(part) => match grouped_vals_from(m, dtype, idx, every, offset, by, n, g + 1) {
                Err(e) => Err(e),
                Ok(rest) => Ok(mat_concat(part, rest)),
            },
        }
    }
}

/// A successful result always has one output column per input column.
proof fn lemma_grouped_width(
    m: Seq<Seq<Option<i64>>>,
    dtype: DataType,
    idx: int,
    every: Duration,
    offset: Duration,
    by: Seq<int>,
    n: int,
    g: int,
)
    ensures
        grouped_vals_from(m, dtype, idx, every, offset, by, n, g) matches Ok(mm) ==> mm.len()
            == m.len(),
    decreases mat_group_keys(m, by, n).len() - g,
{
    let keys = mat_group_keys(m, by, n);
    if 0 <= g < keys.len() {
        lemma_grouped_width(m, dtype, idx, every, offset, by, n, g + 1);
    }
}

proof fn lemma_mat_concat_assoc(a: Seq<Seq<Option<i64>>>, b: Seq<Seq<Option<i64>>>, c: Seq<Seq<
    Option<i64>>>)
    requires
        a.len() == b.len(),
    ensures
        mat_concat(mat_concat(a, b), c) == mat_concat(a, mat_concat(b, c)),
{
    assert forall|i: int| 0 <= i < a.len() implies mat_concat(mat_concat(a, b), c)[i] == mat_concat(
        a, mat_concat(b, c))[i] by {
        assert((a[i] + b[i]) + c[i] =~= a[i] + (b[i] + c[i]));
    }
    assert(mat_concat(mat_concat(a, b), c) =~= mat_concat(a, mat_concat(b, c)));
}

fn concat_cells(a: &Vec<Option<i64>>, b: &Vec<Option<i64>>) -> (out: Vec<Option<i64>>)
    ensures
        out@ == a@ + b@,
{
    let mut out: Vec<Option<i64>> = Vec::new();
    let mut i: usize = 0;
    while i < a.len()
        invariant
            0 <= i <= a@.len(),
            out@.len() == i,
            forall|j: int| 0 <= j < i ==> #[trigger] out@[j] == a@[j],
        decreases a@.len() - i,
    {
        out.push(a[i]);
        i = i + 1;
    }
    let mut j: usize = 0;
    while j < b.len()
        invariant
            0 <= j <= b@.len(),
            out@.len() == a@.len() + j,
            forall|q: int| 0 <= q < a@.len() ==> #[trigger] out@[q] == a@[q],
            forall|q: int| 0 <= q < j ==> #[trigger] out@[a@.len() + q] == b@[q],
        decreases b@.len() - j,
    {
        out.push(b[j]);
        j = j + 1;
    }
    proof {
        assert forall|k: int| 0 <= k < out@.len() implies out@[k] == (a@ + b@)[k] by {
            if k >= a@.len() {
                assert(out@[a@.len() + (k - a@.len())] == b@[k - a@.len()]);
            }
        }
        assert(out@ =~= a@ + b@);
    }
    out
}

/// Append `part`'s rows below `acc`'s; both must share one schema.
fn vstack(acc: &DataFrame, part: &DataFrame) -> (out: DataFrame)
    requires
        acc.wf(),
        part.wf(),
        acc.columns@.len() == part.columns@.len(),
        forall|c: int|
            0 <= c < acc.columns@.len() ==> (#[trigger] acc.columns@[c]).name@
                == part.columns@[c].name@ && acc.columns@[c].dtype == part.columns@[c].dtype,
    ensures
        out.wf(),
        out.columns@.len() == acc.columns@.len(),
        forall|c: int|
            0 <= c < out.columns@.len() ==> (#[trigger] out.columns@[c]).name@
                == acc.columns@[c].name@ && out.columns@[c].dtype == acc.columns@[c].dtype,
        df_mat(out) == mat_concat(df_mat(*acc), df_mat(*part)),
{
    let mut cols: Vec<Series> = Vec::new();
    let mut c: usize = 0;
    while c < acc.columns.len()
        invariant
            acc.wf(),
            part.wf(),
            acc.columns@.len() == part.columns@.len(),
            forall|q: int|
                0 <= q < acc.columns@.len() ==> (#[trigger] acc.columns@[q]).name@
                    == part.columns@[q].name@ && acc.columns@[q].dtype == part.columns@[q].dtype,
            0 <= c <= acc.columns@.len(),
            cols@.len() == c,
            forall|q: int|
                0 <= q < c ==> (#[trigger] cols@[q]).name@ == acc.columns@[q].name@
                    && cols@[q].dtype == acc.columns@[q].dtype && cols@[q].values@
                    == acc.columns@[q].values@ + part.columns@[q].values@,
        decreases acc.columns@.len() - c,
    {
        let cells = concat_cells(&acc.columns[c].values, &part.columns[c].values);
        let col = Series { name: acc.columns[c].name.clone(), dtype: acc.columns[c].dtype,
            values: cells };
        proof {
            assert(acc.columns@[c as int].wf());
            assert(part.columns@[c as int].wf());
        }
        cols.push(col);
        c = c + 1;
    }
    let out = DataFrame { columns: cols };
    proof {
        assert(df_mat(out) =~= mat_concat(df_mat(*acc), df_mat(*part)));
        assert forall|q: int| 0 <= q < out.columns@.len() implies (#[trigger] out.columns@[q]).wf()
            by {
            assert(acc.columns@[q].wf());
            assert(part.columns@[q].wf());
            assert forall|v: int|
                0 <= v < out.columns@[q].values@.len() && out.columns@[q].dtype
                    == DataType::Date implies ((#[trigger] out.columns@[q].values@[v])
                matches Some(x) ==> i32::MIN <= x <= i32::MAX) by {
                if v < acc.columns@[q].values@.len() {
                    assert(out.columns@[q].values@[v] == acc.columns@[q].values@[v]);
                } else {
                    assert(out.columns@[q].values@[v] == part.columns@[q].values@[v
                        - acc.columns@[q].values@.len()]);
                }
            }
        }
        assert(out.wf());
    }
    out
}

/// A table with this table's schema and no rows.
fn empty_like(df: &DataFrame) -> (out: DataFrame)
    requires
        df.wf(),
    ensures
        out.wf(),
        out.columns@.len() == df.columns@.len(),
        forall|c: int|
            0 <= c < out.columns@.len() ==> (#[trigger] out.columns@[c]).name@
                == df.columns@[c].name@ && out.columns@[c].dtype == df.columns@[c].dtype
                && out.columns@[c].values@.len() == 0,
{
    let mut cols: Vec<Series> = Vec::new();
    let mut c: usize = 0;
    while c < df.columns.len()
        invariant
            df.wf(),
            0 <= c <= df.columns@.len(),
            cols@.len() == c,
            forall|q: int|
                0 <= q < c ==> (#[trigger] cols@[q]).name@ == df.columns@[q].name@ && cols@[q].dtype
                    == df.columns@[q].dtype && cols@[q].values@.len() == 0,
        decreases df.columns@.len() - c,
    {
        let col = Series { name: df.columns[c].name.clone(), dtype: df.columns[c].dtype,
            values: Vec::new() };
        cols.push(col);
        c = c + 1;
    }
    let out = DataFrame { columns: cols };
    proof {
        assert(out.wf());
    }
    out
}

impl DataFrame {
    /// Upsample each partition of the `by` columns independently and stack
    /// the per-partition results in first-occurrence order of their keys.
    fn upsample_grouped(&self, by: &Vec<usize>, idx: usize, every: Duration, offset: Duration)
        -> (r: Result<DataFrame, UpsampleError>)
        requires
            self.wf(),
            idx < self.columns@.len(),
            forall|b: int| 0 <= b < by@.len() ==> #[trigger] by@[b] < self.columns@.len(),
            every.wf(),
            offset.wf(),
        ensures
            ({
                let gv = grouped_vals_from(df_mat(*self), self.columns@[idx as int].dtype,
                    idx as int, every, offset, by@.map_values(|x: usize| x as int), self.height(),
                    0);
                match r {
                    Ok(out) => {
                        &&& gv matches Ok(mm) && out.columns@.len() == self.columns@.len()
                            && forall|c: int|
                            0 <= c < out.columns@.len() ==> (#[trigger] out.columns@[c]).values@
                                == mm[c]
                        &&& out.wf()
                        &&& forall|c: int|
                            0 <= c < out.columns@.len() ==> (#[trigger] out.columns@[c]).name@
                                == self.columns@[c].name@ && out.columns@[c].dtype
                                == self.columns@[c].dtype
                    },
                    Err(e) => gv matches Err(e2) && e == e2,
                }
            }),
    {
        let ghost m = df_mat(*self);
        let ghost byi = by@.map_values(|x: usize| x as int);
        let ghost n = self.height();
        let ghost dt = self.columns@[idx as int].dtype;
        let groups = partition_rows(self, by);
        let mut acc = empty_like(self);
        proof {
            lemma_grouped_width(m, dt, idx as int, every, offset, byi, n, 0);
            let gv0 = grouped_vals_from(m, dt, idx as int, every, offset, byi, n, 0);
            if gv0 is Ok {
                let mm = gv0->Ok_0;
                assert(mat_concat(df_mat(acc), mm) =~~= mm) by {
                    assert forall|c: int| 0 <= c < m.len() implies mat_concat(df_mat(acc), mm)[c]
                        =~= mm[c] by {
                        assert(df_mat(acc)[c] == acc.columns@[c].values@);
                    }
                }
            }
        }
        let mut g: usize = 0;
        while g < groups.len()
            invariant
                self.wf(),
                idx < self.columns@.len(),
                forall|b: int| 0 <= b < by@.len() ==> #[trigger] by@[b] < self.columns@.len(),
                every.wf(),
                offset.wf(),
                m == df_mat(*self),
                byi == by@.map_values(|x: usize| x as int),
                n == self.height(),
                dt == self.columns@[idx as int].dtype,
                groups@.len() == mat_group_keys(m, byi, n).len(),
                forall|q: int|
                    0 <= q < groups@.len() ==> (#[trigger] groups@[q])@.map_values(
                    |x: usize| x as int) == mat_rows_with_key(m, byi, mat_group_keys(m, byi, n)[q],
                    n),
                forall|q: int, w: int|
                    0 <= q < groups@.len() && 0 <= w < groups@[q]@.len() ==> (
                    #[trigger] groups@[q]@[w]) < self.height(),
                0 <= g <= groups@.len(),
                acc.wf(),
                acc.columns@.len() == self.columns@.len(),
                forall|c: int|
                    0 <= c < acc.columns@.len() ==> (#[trigger] acc.columns@[c]).name@
                        == self.columns@[c].name@ && acc.columns@[c].dtype
                        == self.columns@[c].dtype,
                ({
                    let gv0 = grouped_vals_from(m, dt, idx as int, every, offset, byi, n, 0);
                    match grouped_vals_from(m, dt, idx as int, every, offset, byi, n, g as int) {
                        Ok(rest) => gv0 matches Ok(whole) && whole == mat_concat(df_mat(acc),
                        rest),
                        Err(e) => gv0 matches Err(e0) && e0 == e,
                    }
                }),
            decreases groups@.len() - g,
        {
            let sub = take_rows(self, &groups[g]);
            proof {
                assert(df_mat(sub) == mat_take(m, mat_rows_with_key(m, byi, mat_group_keys(m, byi,
                    n)[g as int], n)));
                assert(sub.columns@[idx as int].dtype == dt);
            }
            let part = match sub.upsample_single_impl(idx, every, offset) {
                Ok(p) => p,
                Err(e) => {
                    return Err(e);
                },
            };
            proof {
                let rest_r = grouped_vals_from(m, dt, idx as int, every, offset, byi, n,
                    g as int + 1);
                let pm = upsample_single_vals(df_mat(sub), dt, idx as int, every, offset)->Ok_0;
                assert(df_mat(part) =~= pm);
                if rest_r is Ok {
                    lemma_mat_concat_assoc(df_mat(acc), pm, rest_r->Ok_0);
                }
            }
            let new_acc = vstack(&acc, &part);
            acc = new_acc;
            g = g + 1;
        }
        proof {
            let gv0 = grouped_vals_from(m, dt, idx as int, every, offset, byi, n, 0);
            if gv0 is Ok {
                let whole = gv0->Ok_0;
                assert(whole == mat_concat(df_mat(acc), grouped_vals_from(m, dt, idx as int, every,
                    offset, byi, n, g as int)->Ok_0));
                assert(mat_concat(df_mat(acc), Seq::new(m.len(), |c: int| Seq::<Option<
                    i64>>::empty())) =~~= df_mat(acc)) by {
                    assert forall|c: int| 0 <= c < m.len() implies mat_concat(df_mat(acc),
                        Seq::new(m.len(), |q: int| Seq::<Option<i64>>::empty()))[c] =~= df_mat(
                        acc)[c] by {
                        assert(df_mat(acc)[c] == acc.columns@[c].values@);
                    }
                }
                assert forall|c: int| 0 <= c < acc.columns@.len() implies (
                    #[trigger] acc.columns@[c]).values@ == whole[c] by {
                    assert(df_mat(acc)[c] == acc.columns@[c].values@);
                }
            }
        }
        Ok(acc)
    }
}

// ---------------------------------------------------------------------------
// The orchestrator: dtype normalization and dispatch.
// ---------------------------------------------------------------------------

/// A day-count column cast to milliseconds since the epoch.
pub open spec fn cast_date_to_ms_col(col: Seq<Option<i64>>) -> Seq<Option<i64>> {
    col.map_values(|o: Option<i64>| match o {
        Some(d) => Some((d * 86_400_000) as i64),
        None => None,
    })
}

/// A millisecond column cast back to day counts (flooring).
pub open spec fn cast_ms_to_date_col(col: Seq<Option<i64>>) -> Seq<Option<i64>> {
    col.map_values(|o: Option<i64>| match o {
        Some(v) => Some((v / 86_400_000) as i64),
        None => None,
    })
}

/// Day values representable in a `Date` column.
pub open spec fn date_col_in_range(col: Seq<Option<i64>>) -> bool {
    forall|k: int|
        0 <= k < col.len() ==> ((#[trigger] col[k]) matches Some(v) ==> i32::MIN <= v <= i32::MAX)
}

/// Date round trip: casting a day count to milliseconds and flooring back
/// recovers the day count exactly.
pub proof fn lemma_date_roundtrip(d: int)
    ensures
        (d * 86_400_000) / 86_400_000 == d,
{
    vstd::arithmetic::div_mod::lemma_div_multiples_vanish(d, 86_400_000);
}

/// Date round trip at the column level: a whole `Date` column survives the
/// cast to `Datetime` milliseconds and back unchanged.
pub proof fn lemma_date_cast_roundtrip(col: Seq<Option<i64>>)
    requires
        date_col_in_range(col),
    ensures
        cast_ms_to_date_col(cast_date_to_ms_col(col)) == col,
{
    assert forall|k: int| 0 <= k < col.len() implies cast_ms_to_date_col(cast_date_to_ms_col(
        col))[k] == col[k] by {
        if col[k] is Some {
            let d = col[k]->Some_0;
            lemma_date_roundtrip(d as int);
        }
    }
    assert(cast_ms_to_date_col(cast_date_to_ms_col(col)) =~= col);
}

/// Dispatch: delegate directly when no `by` columns are given, upsample per
/// partition otherwise.
pub open spec fn upsample_core_vals(
    m: Seq<Seq<Option<i64>>>,
    dtype: DataType,
    idx: int,
    by: Seq<int>,
    n: int,
    every: Duration,
    offset: Duration,
) -> Result<Seq<Seq<Option<i64>>>, UpsampleError> {
    if by.len() == 0 {
        upsample_single_vals(m, dtype, idx, every, offset)
    } else {
        grouped_vals_from(m, dtype, idx, every, offset, by, n, 0)
    }
}

/// The whole upsampling pipeline as a function of the input matrix: a `Date`
/// index is normalized to `Datetime` milliseconds, processed, and cast back;
/// the result is independent of the stable/unstable mode requested.
pub open spec fn upsample_vals(
    m: Seq<Seq<Option<i64>>>,
    dtype: DataType,
    idx: int,
    by: Seq<int>,
    n: int,
    every: Duration,
    offset: Duration,
) -> Result<Seq<Seq<Option<i64>>>, UpsampleError> {
    if dtype == DataType::Date {
        let m2 = m.update(idx, cast_date_to_ms_col(m[idx]));
        match upsample_core_vals(m2, DataType::Datetime(TimeUnit::Milliseconds), idx, by, n, every,
            offset) {
            Ok(mm) => {
                let dcol = cast_ms_to_date_col(mm[idx]);
                if date_col_in_range(dcol) {
                    Ok(mm.update(idx, dcol))
                } else {
                    Err(UpsampleError::OutOfRepresentableRange)
                }
            },
            Err(e) => Err(e),
        }
    } else {
        upsample_core_vals(m, dtype, idx, by, n, every, offset)
    }
}

/// The position of the uniquely named column `name`.
pub open spec fn col_index_of(df: DataFrame, name: Seq<char>) -> int {
    choose|i: int| 0 <= i < df.columns@.len() && df.columns@[i].name@ == name
}

proof fn lemma_col_index_unique(df: DataFrame, name: Seq<char>, i: int)
    requires
        df.wf(),
        0 <= i < df.columns@.len(),
        df.columns@[i].name@ == name,
    ensures
        col_index_of(df, name) == i,
{
    let j = col_index_of(df, name);
    assert(0 <= j < df.columns@.len() && df.columns@[j].name@ == name);
}

fn cast_date_cells_to_ms(vals: &Vec<Option<i64>>) -> (out: Vec<Option<i64>>)
    requires
        date_col_in_range(vals@),
    ensures
        out@ == cast_date_to_ms_col(vals@),
{
    let mut out: Vec<Option<i64>> = Vec::new();
    let mut i: usize = 0;
    while i < vals.len()
        invariant
            date_col_in_range(vals@),
            0 <= i <= vals@.len(),
            out@.len() == i,
            forall|k: int| 0 <= k < i ==> #[trigger] out@[k] == cast_date_to_ms_col(vals@)[k],
        decreases vals@.len() - i,
    {
        let cell = match vals[i] {
            Some(d) => Some(d * 86_400_000),
            None => None,
        };
        out.push(cell);
        i = i + 1;
    }
    proof {
        assert(out@ =~= cast_date_to_ms_col(vals@));
    }
    out
}

fn cast_ms_cells_to_date(vals: &Vec<Option<i64>>) -> (out: Result<Vec<Option<i64>>,
    UpsampleError>)
    ensures
        out is Ok <==> date_col_in_range(cast_ms_to_date_col(vals@)),
        out matches Ok(o) ==> o@ == cast_ms_to_date_col(vals@),
        out matches Err(e) ==> e == UpsampleError::OutOfRepresentableRange,
{
    let ghost target = cast_ms_to_date_col(vals@);
    let mut out: Vec<Option<i64>> = Vec::new();
    let mut i: usize = 0;
    while i < vals.len()
        invariant
            target == cast_ms_to_date_col(vals@),
            0 <= i <= vals@.len(),
            out@.len() == i,
            forall|k: int| 0 <= k < i ==> #[trigger] out@[k] == target[k],
            forall|k: int|
                0 <= k < i ==> ((#[trigger] target[k]) matches Some(v) ==> i32::MIN <= v
                    <= i32::MAX),
        decreases vals@.len() - i,
    {
        let cell = match vals[i] {
            Some(v) => {
                let d = crate::calendar::div_euclid_x(v, 86_400_000);
                if d < i32::MIN as i64 || d > i32::MAX as i64 {
                    proof {
                        assert(target[i as int] matches Some(x) && !(i32::MIN <= x <= i32::MAX));
                    }
                    return Err(UpsampleError::OutOfRepresentableRange);
                }
                Some(d)
            },
            None => None,
        };
        out.push(cell);
        i = i + 1;
    }
    proof {
        assert(out@ =~= target);
    }
    Ok(out)
}

fn clone_cells(vals: &Vec<Option<i64>>) -> (out: Vec<Option<i64>>)
    ensures
        out@ == vals@,
{
    let mut out: Vec<Option<i64>> = Vec::new();
    let mut i: usize = 0;
    while i < vals.len()
        invariant
            0 <= i <= vals@.len(),
            out@.len() == i,
            forall|k: int| 0 <= k < i ==> #[trigger] out@[k] == vals@[k],
        decreases vals@.len() - i,
    {
        out.push(vals[i]);
        i = i + 1;
    }
    proof {
        assert(out@ =~= vals@);
    }
    out
}

/// This table with column `idx` replaced: same name, new dtype, new cells.
fn with_column_values(df: &DataFrame, idx: usize, dtype: DataType, cells: Vec<Option<i64>>) -> (
    out: DataFrame)
    requires
        df.wf(),
        idx < df.columns@.len(),
        cells@.len() == df.height(),
        dtype == DataType::Date ==> date_col_in_range(cells@),
    ensures
        out.wf(),
        out.columns@.len() == df.columns@.len(),
        out.height() == df.height(),
        forall|c: int|
            0 <= c < out.columns@.len() ==> (#[trigger] out.columns@[c]).name@
                == df.columns@[c].name@,
        forall|c: int|
            0 <= c < out.columns@.len() && c != idx ==> (#[trigger] out.columns@[c]).dtype
                == df.columns@[c].dtype && out.columns@[c].values@ == df.columns@[c].values@,
        out.columns@[idx as int].dtype == dtype,
        out.columns@[idx as int].values@ == cells@,
        df_mat(out) == df_mat(*df).update(idx as int, cells@),
{
    let mut cols: Vec<Series> = Vec::new();
    let mut c: usize = 0;
    while c < idx
        invariant
            df.wf(),
            idx < df.columns@.len(),
            0 <= c <= idx,
            cols@.len() == c,
            forall|q: int|
                0 <= q < c ==> (#[trigger] cols@[q]).name@ == df.columns@[q].name@ && cols@[q].dtype
                    == df.columns@[q].dtype && cols@[q].values@ == df.columns@[q].values@
                    && cols@[q].wf(),
        decreases idx - c,
    {
        let src = &df.columns[c];
        let col = Series { name: src.name.clone(), dtype: src.dtype, values: clone_cells(
            &src.values) };
        proof {
            assert(df.columns@[c as int].wf());
        }
        cols.push(col);
        c = c + 1;
    }
    let repl = Series { name: df.columns[idx].name.clone(), dtype, values: cells };
    cols.push(repl);
    let ncols = df.columns.len();
    let mut c2: usize = idx + 1;
    while c2 < ncols
        invariant
            df.wf(),
            idx < df.columns@.len(),
            ncols == df.columns@.len(),
            idx + 1 <= c2 <= df.columns@.len(),
            cols@.len() == c2,
            forall|q: int|
                0 <= q < c2 && q != idx ==> (#[trigger] cols@[q]).name@ == df.columns@[q].name@
                    && cols@[q].dtype == df.columns@[q].dtype && cols@[q].values@
                    == df.columns@[q].values@ && cols@[q].wf(),
            cols@[idx as int].name@ == df.columns@[idx as int].name@,
            cols@[idx as int].dtype == dtype,
            cols@[idx as int].values@ == cells@,
            cols@[idx as int].wf(),
        decreases df.columns@.len() - c2,
    {
        let src = &df.columns[c2];
        let col = Series { name: src.name.clone(), dtype: src.dtype, values: clone_cells(
            &src.values) };
        proof {
            assert(df.columns@[c2 as int].wf());
        }
        cols.push(col);
        c2 = c2 + 1;
    }
    let out = DataFrame { columns: cols };
    proof {
        assert(out.wf());
        assert(df_mat(out) =~= df_mat(*df).update(idx as int, cells@));
    }
    out
}

/// Shared contract of the two public entry points: the result is exactly
/// `upsample_vals` of the input, whichever group-order mode was requested.
pub open spec fn upsample_post(
    df: DataFrame,
    by: Seq<String>,
    index_column: Seq<char>,
    every: Duration,
    offset: Duration,
    r: Result<DataFrame, UpsampleError>,
) -> bool {
    let idx = col_index_of(df, index_column);
    let byi = by.map_values(|s: String| col_index_of(df, s@));
    let uv = upsample_vals(df_mat(df), df.columns@[idx].dtype, idx, byi, df.height(), every,
        offset);
    match r {
        Ok(out) => {
            &&& uv matches Ok(mm) && out.columns@.len() == df.columns@.len() && forall|c: int|
                0 <= c < out.columns@.len() ==> (#[trigger] out.columns@[c]).values@ == mm[c]
            &&& out.wf()
            &&& forall|c: int|
                0 <= c < out.columns@.len() ==> (#[trigger] out.columns@[c]).name@
                    == df.columns@[c].name@ && out.columns@[c].dtype == df.columns@[c].dtype
        },
        Err(e) => uv matches Err(e2) && e == e2,
    }
}

impl DataFrame {
    fn upsample_core(&self, byidx: &Vec<usize>, idx: usize, every: Duration, offset: Duration)
        -> (r: Result<DataFrame, UpsampleError>)
        requires
            self.wf(),
            idx < self.columns@.len(),
            forall|b: int| 0 <= b < byidx@.len() ==> #[trigger] byidx@[b] < self.columns@.len(),
            every.wf(),
            offset.wf(),
        ensures
            ({
                let cv = upsample_core_vals(df_mat(*self), self.columns@[idx as int].dtype,
                    idx as int, byidx@.map_values(|x: usize| x as int), self.height(), every,
                    offset);
                match r {
                    Ok(out) => {
                        &&& cv matches Ok(mm) && out.columns@.len() == self.columns@.len()
                            && forall|c: int|
                            0 <= c < out.columns@.len() ==> (#[trigger] out.columns@[c]).values@
                                == mm[c]
                        &&& out.wf()
                        &&& forall|c: int|
                            0 <= c < out.columns@.len() ==> (#[trigger] out.columns@[c]).name@
                                == self.columns@[c].name@ && out.columns@[c].dtype
                                == self.columns@[c].dtype
                    },
                    Err(e) => cv matches Err(e2) && e == e2,
                }
            }),
    {
        if byidx.len() == 0 {
            self.upsample_single_impl(idx, every, offset)
        } else {
            self.upsample_grouped(byidx, idx, every, offset)
        }
    }

    /// Upsample at a regular frequency given by `every`, shifting each grid's
    /// start by `offset`, optionally once per distinct key of the `by`
    /// columns. The index column must be `Date` or `Datetime`; a `Date`
    /// column is normalized through `Datetime` milliseconds and cast back.
    /// Groups always come in first-occurrence order of their keys, which
    /// serves the stable mode and is one valid unstable order, so both public
    /// entry points share this body and return identical tables.
    fn upsample_impl(&self, by: &Vec<String>, index_column: &str, every: Duration,
        offset: Duration) -> (r: Result<DataFrame, UpsampleError>)
        requires
            self.wf(),
            every.wf(),
            offset.wf(),
            exists|i: int|
                0 <= i < self.columns@.len() && (#[trigger] self.columns@[i].name@)
                    == index_column@,
            forall|b: int|
                0 <= b < by@.len() ==> exists|i: int|
                    0 <= i < self.columns@.len() && (#[trigger] self.columns@[i].name@) == (
                    #[trigger] by@[b])@,
        ensures
            upsample_post(*self, by@, index_column@, every, offset, r),
    {
        let ghost m = df_mat(*self);
        let idx = match self.find_column(index_column) {
            Some(i) => i,
            None => {
                proof {
                    assert(false);
                }
                return Err(UpsampleError::EmptyDomain);
            },
        };
        proof {
            lemma_col_index_unique(*self, index_column@, idx as int);
        }
        let ghost byi = by@.map_values(|s: String| col_index_of(*self, s@));
        let mut byidx: Vec<usize> = Vec::new();
        let mut b: usize = 0;
        while b < by.len()
            invariant
                self.wf(),
                forall|q: int|
                    0 <= q < by@.len() ==> exists|i: int|
                        0 <= i < self.columns@.len() && (#[trigger] self.columns@[i].name@) == (
                        #[trigger] by@[q])@,
                byi == by@.map_values(|s: String| col_index_of(*self, s@)),
                0 <= b <= by@.len(),
                byidx@.len() == b,
                forall|q: int|
                    0 <= q < b ==> #[trigger] byidx@[q] < self.columns@.len() && byidx@[q] as int
                        == byi[q],
            decreases by@.len() - b,
        {
            let bi = match self.find_column(by[b].as_str()) {
                Some(i) => i,
                None => {
                    proof {
                        assert(false);
                    }
                    return Err(UpsampleError::EmptyDomain);
                },
            };
            proof {
                lemma_col_index_unique(*self, by@[b as int]@, bi as int);
            }
            byidx.push(bi);
            b = b + 1;
        }
        proof {
            assert(byidx@.map_values(|x: usize| x as int) =~= byi);
        }
        let is_date = match self.columns[idx].dtype {
            DataType::Date => true,
            _ => false,
        };
        if is_date {
            let cast = cast_date_cells_to_ms(&self.columns[idx].values);
            proof {
                assert(self.columns@[idx as int].wf());
                assert(cast@.len() == self.height());
            }
            let df2 = with_column_values(self, idx, DataType::Datetime(TimeUnit::Milliseconds),
                cast);
            proof {
                assert(df_mat(df2) == m.update(idx as int, cast_date_to_ms_col(m[idx as int])));
                assert(m[idx as int] == self.columns@[idx as int].values@);
            }
            let out2 = match df2.upsample_core(&byidx, idx, every, offset) {
                Ok(o) => o,
                Err(e) => {
                    return Err(e);
                },
            };
            let back = match cast_ms_cells_to_date(&out2.columns[idx].values) {
                Ok(v) => v,
                Err(e) => {
                    return Err(e);
                },
            };
            proof {
                assert(back@.len() == out2.height()) by {
                    assert(out2.columns@[idx as int].values@.len() == out2.height());
                }
            }
            let out = with_column_values(&out2, idx, DataType::Date, back);
            proof {
                let cv = upsample_core_vals(df_mat(df2), DataType::Datetime(
                    TimeUnit::Milliseconds), idx as int, byi, self.height(), every, offset);
                let mm = cv->Ok_0;
                assert(out2.columns@[idx as int].values@ == mm[idx as int]);
                assert forall|c: int| 0 <= c < out.columns@.len() implies (
                    #[trigger] out.columns@[c]).values@ == mm.update(idx as int,
                    cast_ms_to_date_col(mm[idx as int]))[c] by {
                    if c != idx {
                        assert(out.columns@[c].values@ == out2.columns@[c].values@);
                    }
                }
            }
            Ok(out)
        } else {
            let r = self.upsample_core(&byidx, idx, every, offset);
            proof {
                assert(self.columns@[idx as int].dtype != DataType::Date);
            }
            r
        }
    }

    /// Upsample at a regular frequency, grouped by the `by` columns when any
    /// are given, with no promise about group order. This implementation
    /// orders groups by first occurrence — one valid unordered outcome — so
    /// the result coincides with `upsample_stable`.
    pub fn upsample(&self, by: &Vec<String>, time_column: &str, every: Duration, offset: Duration)
        -> (r: Result<DataFrame, UpsampleError>)
        requires
            self.wf(),
            every.wf(),
            offset.wf(),
            exists|i: int|
                0 <= i < self.columns@.len() && (#[trigger] self.columns@[i].name@)
                    == time_column@,
            forall|b: int|
                0 <= b < by@.len() ==> exists|i: int|
                    0 <= i < self.columns@.len() && (#[trigger] self.columns@[i].name@) == (
                    #[trigger] by@[b])@,
        ensures
            upsample_post(*self, by@, time_column@, every, offset, r),
    {
        self.upsample_impl(by, time_column, every, offset)
    }

    /// Upsample at a regular frequency with deterministic group order:
    /// groups appear in first-occurrence order of their keys.
    pub fn upsample_stable(&self, by: &Vec<String>, time_column: &str, every: Duration,
        offset: Duration) -> (r: Result<DataFrame, UpsampleError>)
        requires
            self.wf(),
            every.wf(),
            offset.wf(),
            exists|i: int|
                0 <= i < self.columns@.len() && (#[trigger] self.columns@[i].name@)
                    == time_column@,
            forall|b: int|
                0 <= b < by@.len() ==> exists|i: int|
                    0 <= i < self.columns@.len() && (#[trigger] self.columns@[i].name@) == (
                    #[trigger] by@[b])@,
        ensures
            upsample_post(*self, by@, time_column@, every, offset, r),
    {
        self.upsample_impl(by, time_column, every, offset)
    }
}

} // verus!
