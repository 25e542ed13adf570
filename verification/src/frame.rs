//! A minimal columnar table: ordered named columns sharing one row count,
//! each column independently nullable.

use vstd::prelude::*;
use crate::types::DataType;

verus! {

/// One named, typed, nullable column of 64-bit values. `Date` columns hold
/// day counts since the epoch, `Datetime` columns hold step counts of their
/// time unit since the epoch.
pub struct Series {
    pub name: String,
    pub dtype: DataType,
    pub values: Vec<Option<i64>>,
}

impl Series {
    /// Day values of a `Date` column stay within 32 bits, so casting them to
    /// milliseconds can never overflow.
    pub open spec fn wf(self) -> bool {
        self.dtype == DataType::Date ==> forall|i: int|
            0 <= i < self.values@.len() ==> ((#[trigger] self.values@[i]) matches Some(v) ==>
                i32::MIN <= v <= i32::MAX)
    }

    pub fn new(name: String, dtype: DataType, values: Vec<Option<i64>>) -> (s: Series)
        requires
            (Series { name, dtype, values }).wf(),
        ensures
            s == (Series { name, dtype, values }),
    {
        Series { name, dtype, values }
    }

    pub fn len(&self) -> (n: usize)
        ensures
            n == self.values@.len(),
    {
        self.values.len()
    }
}

/// An ordered collection of equally long, uniquely named columns.
pub struct DataFrame {
    pub columns: Vec<Series>,
}

impl DataFrame {
    /// Row count: every column shares it.
    pub open spec fn height(self) -> int {
        if self.columns@.len() == 0 {
            0
        } else {
            self.columns@[0].values@.len() as int
        }
    }

    pub open spec fn wf(self) -> bool {
        &&& forall|i: int|
            0 <= i < self.columns@.len() ==> (#[trigger] self.columns@[i]).values@.len()
                == self.height()
        &&& forall|i: int, j: int|
            0 <= i < j < self.columns@.len() ==> (#[trigger] self.columns@[i].name@)
                != (#[trigger] self.columns@[j].name@)
        &&& forall|i: int| 0 <= i < self.columns@.len() ==> (#[trigger] self.columns@[i]).wf()
    }

    pub fn new(columns: Vec<Series>) -> (df: DataFrame)
        requires
            (DataFrame { columns }).wf(),
        ensures
            df == (DataFrame { columns }),
    {
        DataFrame { columns }
    }

    /// Look a column up by name.
    pub fn find_column(&self, name: &str) -> (r: Option<usize>)
        requires
            self.wf(),
        ensures
            match r {
                Some(i) => 0 <= i < self.columns@.len() && self.columns@[i as int].name@ == name@,
                None => forall|i: int|
                    0 <= i < self.columns@.len() ==> (#[trigger] self.columns@[i].name@) != name@,
            },
    {
        let key: String = name.to_owned();
        let mut i: usize = 0;
        while i < self.columns.len()
            invariant
                0 <= i <= self.columns@.len(),
                key@ == name@,
                forall|j: int| 0 <= j < i ==> (#[trigger] self.columns@[j].name@) != name@,
            decreases self.columns@.len() - i,
        {
            if self.columns[i].name == key {
                return Some(i);
            }
            i = i + 1;
        }
        None
    }
}

// ---------------------------------------------------------------------------
// Scanning a nullable column.
// ---------------------------------------------------------------------------

/// The first non-null value of a column, in row order.
pub open spec fn first_non_null(vals: Seq<Option<i64>>) -> Option<i64>
    decreases vals.len(),
{
    if vals.len() == 0 {
        None
    } else if vals[0] is Some {
        vals[0]
    } else {
        first_non_null(vals.drop_first())
    }
}

/// The last non-null value of a column, in row order.
pub open spec fn last_non_null(vals: Seq<Option<i64>>) -> Option<i64>
    decreases vals.len(),
{
    if vals.len() == 0 {
        None
    } else if vals[vals.len() - 1] is Some {
        vals[vals.len() - 1]
    } else {
        last_non_null(vals.drop_last())
    }
}

/// Find the first and the last non-null value of a column; `None` when every
/// value is null.
pub fn non_null_bounds(vals: &Vec<Option<i64>>) -> (r: Option<(i64, i64)>)
    ensures
        match r {
            Some(p) => first_non_null(vals@) == Some(p.0) && last_non_null(vals@) == Some(p.1),
            None => first_non_null(vals@) is None && last_non_null(vals@) is None,
        },
{
    let n = vals.len();
    proof {
        assert(vals@.skip(0) =~= vals@);
    }
    let mut i: usize = 0;
    let mut first: Option<i64> = None;
    while first.is_none() && i < n
        invariant
            0 <= i <= n == vals@.len(),
            first is None ==> first_non_null(vals@) == first_non_null(vals@.skip(i as int)),
            first matches Some(v) ==> i < n && vals@[i as int] == Some(v) && first_non_null(vals@)
                == Some(v),
        decreases (if first is None { 1int } else { 0int }), n - i,
    {
        proof {
            assert(vals@.skip(i as int)[0] == vals@[i as int]);
            assert(vals@.skip(i as int).drop_first() =~= vals@.skip(i as int + 1));
        }
        match vals[i] {
            Some(v) => {
                first = Some(v);
            },
            None => {
                i = i + 1;
            },
        }
    }
    let fv = match first {
        Some(v) => v,
        None => {
            proof {
                assert(vals@.skip(vals@.len() as int) =~= Seq::<Option<i64>>::empty());
                lemma_first_none_all_null(vals@);
                lemma_all_null_last(vals@);
            }
            return None;
        },
    };
    let ghost fi = i as int;
    proof {
        assert(vals@.take(n as int) =~= vals@);
    }
    let mut j: usize = n;
    let mut last: Option<i64> = None;
    while last.is_none() && j > 0
        invariant
            0 <= j <= n == vals@.len(),
            0 <= fi < n,
            vals@[fi] is Some,
            last is None ==> fi < j && last_non_null(vals@) == last_non_null(vals@.take(j as int)),
            last matches Some(v) ==> last_non_null(vals@) == Some(v),
        decreases (if last is None { 1int } else { 0int }), j,
    {
        proof {
            assert(vals@.take(j as int)[j - 1] == vals@[j - 1]);
            assert(vals@.take(j as int).drop_last() =~= vals@.take(j as int - 1));
        }
        match vals[j - 1] {
            Some(v) => {
                last = Some(v);
            },
            None => {
                j = j - 1;
            },
        }
    }
    match last {
        Some(lv) => Some((fv, lv)),
        None => {
            proof {
                assert(false);
            }
            None
        },
    }
}

// ---------------------------------------------------------------------------
// The left equi-join of a table onto a grid column.
// ---------------------------------------------------------------------------

/// A column with no first non-null value is null everywhere.
proof fn lemma_first_none_all_null(vals: Seq<Option<i64>>)
    requires
        first_non_null(vals) is None,
    ensures
        forall|k: int| 0 <= k < vals.len() ==> vals[k] is None,
    decreases vals.len(),
{
    if vals.len() > 0 {
        lemma_first_none_all_null(vals.drop_first());
        assert forall|k: int| 0 <= k < vals.len() implies vals[k] is None by {
            if k > 0 {
                assert(vals[k] == vals.drop_first()[k - 1]);
            }
        }
    }
}

/// An all-null column has no last non-null value either.
proof fn lemma_all_null_last(vals: Seq<Option<i64>>)
    requires
        forall|k: int| 0 <= k < vals.len() ==> vals[k] is None,
    ensures
        last_non_null(vals) is None,
    decreases vals.len(),
{
    if vals.len() > 0 {
        lemma_all_null_last(vals.drop_last());
    }
}

/// The first row at or after `i` whose key equals `x`.
pub open spec fn first_match_from(keys: Seq<Option<i64>>, x: int, i: int) -> Option<int>
    decreases keys.len() - i,
{
    if i < 0 || i >= keys.len() {
        None
    } else if keys[i] matches Some(v) && v as int == x {
        Some(i)
    } else {
        first_match_from(keys, x, i + 1)
    }
}

proof fn lemma_first_match_bounds(keys: Seq<Option<i64>>, x: int, i: int)
    requires
        0 <= i,
    ensures
        first_match_from(keys, x, i) matches Some(j) ==> (i <= j < keys.len() && (keys[j]
            matches Some(v) && v as int == x)),
    decreases keys.len() - i,
{
    if i < keys.len() {
        lemma_first_match_bounds(keys, x, i + 1);
    }
}

/// One joined column: for each grid point, the value of the first table row
/// whose key equals it, null when no row matches.
pub open spec fn join_col(g: Seq<int>, keys: Seq<Option<i64>>, col: Seq<Option<i64>>) -> Seq<
    Option<i64>,
> {
    Seq::new(g.len(), |i: int| match first_match_from(keys, g[i], 0) {
        Some(j) => col[j],
        None => None,
    })
}

/// Scan for the first row whose key equals `x`.
fn find_first_match(keys: &Vec<Option<i64>>, x: i64) -> (r: Option<usize>)
    ensures
        match r {
            Some(j) => first_match_from(keys@, x as int, 0) == Some(j as int),
            None => first_match_from(keys@, x as int, 0) is None,
        },
{
    let n = keys.len();
    let mut i: usize = 0;
    while i < n
        invariant
            0 <= i <= n == keys@.len(),
            first_match_from(keys@, x as int, 0) == first_match_from(keys@, x as int, i as int),
        decreases n - i,
    {
        match keys[i] {
            Some(v) => {
                if v == x {
                    return Some(i);
                }
            },
            None => {},
        }
        i = i + 1;
    }
    None
}

/// For each grid value, the matching row index, if any.
fn match_indices(keys: &Vec<Option<i64>>, grid: &Vec<i64>) -> (r: Vec<Option<usize>>)
    ensures
        r@.len() == grid@.len(),
        forall|i: int|
            0 <= i < grid@.len() ==> match #[trigger] r@[i] {
                Some(j) => first_match_from(keys@, grid@[i] as int, 0) == Some(j as int),
                None => first_match_from(keys@, grid@[i] as int, 0) is None,
            },
{
    let mut out: Vec<Option<usize>> = Vec::new();
    let mut i: usize = 0;
    while i < grid.len()
        invariant
            0 <= i <= grid@.len(),
            out@.len() == i,
            forall|k: int|
                0 <= k < i ==> match #[trigger] out@[k] {
                    Some(j) => first_match_from(keys@, grid@[k] as int, 0) == Some(j as int),
                    None => first_match_from(keys@, grid@[k] as int, 0) is None,
                },
        decreases grid@.len() - i,
    {
        out.push(find_first_match(keys, grid[i]));
        i = i + 1;
    }
    out
}

impl DataFrame {
    /// Left-join this table onto `grid` by exact equality between the key
    /// column and the grid values: the output has one row per grid point, in
    /// grid order; a grid point without a matching row gets nulls in every
    /// other column; table rows absent from the grid are dropped.
    pub fn left_join_on_grid(&self, grid: &Vec<i64>, key_idx: usize) -> (out: DataFrame)
        requires
            self.wf(),
            key_idx < self.columns@.len(),
            !(self.columns@[key_idx as int].dtype is Date),
        ensures
            out.wf(),
            out.columns@.len() == self.columns@.len(),
            out.height() == grid@.len(),
            forall|c: int|
                0 <= c < out.columns@.len() ==> (#[trigger] out.columns@[c]).name@
                    == self.columns@[c].name@ && out.columns@[c].dtype == self.columns@[c].dtype
                    && out.columns@[c].values@.len() == grid@.len(),
            out.columns@[key_idx as int].values@ == grid@.map_values(|x: i64| Some(x)),
            forall|c: int|
                0 <= c < out.columns@.len() && c != key_idx ==> (#[trigger] out.columns@[c]).values@
                    == join_col(grid@.map_values(|x: i64| x as int),
                    self.columns@[key_idx as int].values@, self.columns@[c].values@),
    {
        let ghost gints = grid@.map_values(|x: i64| x as int);
        let ghost keys = self.columns@[key_idx as int].values@;
        let idxs = match_indices(&self.columns[key_idx].values, grid);
        let mut cols: Vec<Series> = Vec::new();
        let mut c: usize = 0;
        while c < self.columns.len()
            invariant
                self.wf(),
                key_idx < self.columns@.len(),
                !(self.columns@[key_idx as int].dtype is Date),
                gints == grid@.map_values(|x: i64| x as int),
                keys == self.columns@[key_idx as int].values@,
                idxs@.len() == grid@.len(),
                forall|i: int|
                    0 <= i < grid@.len() ==> match #[trigger] idxs@[i] {
                        Some(j) => first_match_from(keys, grid@[i] as int, 0) == Some(j as int),
                        None => first_match_from(keys, grid@[i] as int, 0) is None,
                    },
                0 <= c <= self.columns@.len(),
                cols@.len() == c,
                forall|k: int|
                    0 <= k < c ==> (#[trigger] cols@[k]).name@ == self.columns@[k].name@
                        && cols@[k].dtype == self.columns@[k].dtype && cols@[k].values@.len()
                        == grid@.len() && cols@[k].wf(),
                forall|k: int|
                    0 <= k < c && k == key_idx ==> (#[trigger] cols@[k]).values@ == grid@.map_values(
                    |x: i64| Some(x)),
                forall|k: int|
                    0 <= k < c && k != key_idx ==> (#[trigger] cols@[k]).values@ == join_col(gints,
                    keys, self.columns@[k].values@),
            decreases self.columns@.len() - c,
        {
            let src = &self.columns[c];
            let mut cells: Vec<Option<i64>> = Vec::new();
            let mut i: usize = 0;
            if c == key_idx {
                while i < grid.len()
                    invariant
                        0 <= i <= grid@.len(),
                        cells@.len() == i,
                        forall|k: int| 0 <= k < i ==> #[trigger] cells@[k] == Some(grid@[k]),
                    decreases grid@.len() - i,
                {
                    cells.push(Some(grid[i]));
                    i = i + 1;
                }
                proof {
                    assert(cells@ =~= grid@.map_values(|x: i64| Some(x)));
                }
            } else {
                while i < grid.len()
                    invariant
                        self.wf(),
                        key_idx < self.columns@.len(),
                        c < self.columns@.len(),
                        c != key_idx,
                        keys == self.columns@[key_idx as int].values@,
                        gints == grid@.map_values(|x: i64| x as int),
                        idxs@.len() == grid@.len(),
                        forall|k: int|
                            0 <= k < grid@.len() ==> match #[trigger] idxs@[k] {
                                Some(j) => first_match_from(keys, grid@[k] as int, 0) == Some(
                                j as int),
                                None => first_match_from(keys, grid@[k] as int, 0) is None,
                            },
                        0 <= i <= grid@.len(),
                        cells@.len() == i,
                        forall|k: int|
                            0 <= k < i ==> #[trigger] cells@[k] == join_col(gints, keys,
                            self.columns@[c as int].values@)[k],
                    decreases grid@.len() - i,
                {
                    proof {
                        lemma_first_match_bounds(keys, grid@[i as int] as int, 0);
                        assert(gints[i as int] == grid@[i as int] as int);
                        assert(keys.len() == self.height());
                        assert(self.columns@[c as int].values@.len() == self.height());
                    }
                    let cell = match idxs[i] {
                        Some(j) => self.columns[c].values[j],
                        None => None,
                    };
                    cells.push(cell);
                    i = i + 1;
                }
                proof {
                    assert(cells@ =~= join_col(gints, keys, self.columns@[c as int].values@));
                }
            }
            let col = Series { name: src.name.clone(), dtype: src.dtype, values: cells };
            proof {
                if col.dtype == crate::types::DataType::Date {
                    assert forall|k: int|
                        0 <= k < col.values@.len() implies ((#[trigger] col.values@[k])
                        matches Some(v) ==> i32::MIN <= v <= i32::MAX) by {
                        if c != key_idx {
                            lemma_first_match_bounds(keys, gints[k], 0);
                        }
                    }
                }
            }
            cols.push(col);
            c = c + 1;
        }
        let out = DataFrame { columns: cols };
        proof {
            assert(out.wf());
        }
        out
    }
}

} // verus!
