//! Grid generation: the ordered sequence of regularly spaced timestamps
//! between a start and a stop bound.

use vstd::prelude::*;
use vstd::arithmetic::div_mod::{lemma_basic_div, lemma_div_is_ordered, lemma_div_by_self};
use crate::types::{TimeUnit, ClosedWindow, DataType, Duration, UpsampleError};
use crate::calendar::{add_dur, add_dur_ok, dur_step_pos, add_duration, lemma_add_dur_increases};
use crate::frame::Series;

verus! {

/// The chain of grid points starting at `t`: each next point is one `every`
/// after the previous, and generation stops at the first point past `stop`
/// (past or at `stop` when `incl_end` is false). If an addition along the way
/// is not representable the chain ends early; `grid_complete` rules that out.
pub open spec fn grid_seq(every: Duration, t: int, stop: int, tu: TimeUnit, incl_end: bool)
    -> Seq<int>
    decreases (if t <= stop { stop - t } else { 0int })
        when every.wf() && dur_step_pos(every, tu)
{
    if t > stop || (!incl_end && t >= stop) {
        Seq::empty()
    } else if incl_end && t == stop {
        seq![t]
    } else if !add_dur_ok(every, t, tu) {
        seq![t]
    } else {
        proof {
            lemma_add_dur_increases(every, t, tu);
        }
        seq![t] + grid_seq(every, add_dur(every, t, tu), stop, tu, incl_end)
    }
}

/// Every addition along the chain from `t` stays representable, so the chain
/// genuinely reaches past `stop` instead of breaking off early.
pub open spec fn grid_complete(every: Duration, t: int, stop: int, tu: TimeUnit) -> bool
    decreases (if t <= stop { stop - t } else { 0int })
        when every.wf() && dur_step_pos(every, tu)
{
    if t >= stop {
        true
    } else if !add_dur_ok(every, t, tu) {
        false
    } else {
        proof {
            lemma_add_dur_increases(every, t, tu);
        }
        grid_complete(every, add_dur(every, t, tu), stop, tu)
    }
}

/// The first candidate grid point: `start` itself when the window includes
/// its left edge, one step past `start` otherwise.
pub open spec fn range_first(every: Duration, start: int, tu: TimeUnit, closed: ClosedWindow)
    -> int {
    match closed {
        ClosedWindow::Both | ClosedWindow::Left => start,
        ClosedWindow::Right | ClosedWindow::Neither => add_dur(every, start, tu),
    }
}

/// Whether a terminal point equal to `stop` is kept.
pub open spec fn range_incl_end(closed: ClosedWindow) -> bool {
    closed == ClosedWindow::Both || closed == ClosedWindow::Right
}

/// Generation succeeds: the first point exists and the chain is complete.
pub open spec fn range_ok(every: Duration, start: int, stop: int, tu: TimeUnit,
    closed: ClosedWindow) -> bool {
    match closed {
        ClosedWindow::Both | ClosedWindow::Left => grid_complete(every, start, stop, tu),
        ClosedWindow::Right | ClosedWindow::Neither => add_dur_ok(every, start, tu)
            && grid_complete(every, add_dur(every, start, tu), stop, tu),
    }
}

/// The generated grid.
pub open spec fn range_seq(every: Duration, start: int, stop: int, tu: TimeUnit,
    closed: ClosedWindow) -> Seq<int> {
    grid_seq(every, range_first(every, start, tu, closed), stop, tu, range_incl_end(closed))
}

/// Grid monotonicity: a generated chain is strictly increasing, starts at its
/// first candidate point, stays inside the window bounds, and consecutive
/// points differ by exactly one `every` step.
pub proof fn lemma_grid_monotone(every: Duration, t: int, stop: int, tu: TimeUnit, incl_end: bool)
    requires
        every.wf(),
        dur_step_pos(every, tu),
    ensures
        ({
            let g = grid_seq(every, t, stop, tu, incl_end);
            &&& forall|i: int|
                0 <= i < g.len() ==> t <= #[trigger] g[i] && g[i] <= stop && (!incl_end ==> g[i]
                    < stop)
            &&& forall|i: int|
                0 <= i < g.len() - 1 ==> add_dur_ok(every, #[trigger] g[i], tu) && g[i + 1]
                    == add_dur(every, g[i], tu)
            &&& forall|i: int, j: int| 0 <= i < j < g.len() ==> g[i] < g[j]
            &&& g.len() > 0 ==> g[0] == t
            &&& (g.len() == 0 <==> (t > stop || (!incl_end && t >= stop)))
        }),
    decreases (if t <= stop { stop - t } else { 0int }),
{
    let g = grid_seq(every, t, stop, tu, incl_end);
    if t > stop || (!incl_end && t >= stop) {
    } else if incl_end && t == stop {
    } else if !add_dur_ok(every, t, tu) {
    } else {
        lemma_add_dur_increases(every, t, tu);
        let next = add_dur(every, t, tu);
        lemma_grid_monotone(every, next, stop, tu, incl_end);
        let g2 = grid_seq(every, next, stop, tu, incl_end);
        assert(g == seq![t] + g2);
        assert(forall|i: int| 1 <= i < g.len() ==> g[i] == g2[i - 1]);
        assert forall|i: int, j: int| 0 <= i < j < g.len() implies g[i] < g[j] by {
            if i == 0 {
                assert(g[j] == g2[j - 1] >= next);
            }
        }
    }
}

/// Every point of a chain that starts at a representable timestamp is itself
/// representable.
pub proof fn lemma_grid_bounded(every: Duration, t: int, stop: int, tu: TimeUnit, incl_end: bool)
    requires
        every.wf(),
        dur_step_pos(every, tu),
        i64::MIN <= t <= i64::MAX,
    ensures
        ({
            let g = grid_seq(every, t, stop, tu, incl_end);
            forall|i: int| 0 <= i < g.len() ==> i64::MIN <= #[trigger] g[i] <= i64::MAX
        }),
    decreases (if t <= stop { stop - t } else { 0int }),
{
    let g = grid_seq(every, t, stop, tu, incl_end);
    if t > stop || (!incl_end && t >= stop) {
    } else if incl_end && t == stop {
    } else if !add_dur_ok(every, t, tu) {
    } else {
        lemma_add_dur_increases(every, t, tu);
        let next = add_dur(every, t, tu);
        lemma_grid_bounded(every, next, stop, tu, incl_end);
        let g2 = grid_seq(every, next, stop, tu, incl_end);
        assert(g == seq![t] + g2);
        assert(forall|i: int| 1 <= i < g.len() ==> g[i] == g2[i - 1]);
    }
}

/// A complete chain really exhausts the window: its last point is `stop`
/// itself, or one more step would land past the bound.
pub proof fn lemma_grid_terminal(every: Duration, t: int, stop: int, tu: TimeUnit, incl_end: bool)
    requires
        every.wf(),
        dur_step_pos(every, tu),
        grid_complete(every, t, stop, tu),
        grid_seq(every, t, stop, tu, incl_end).len() > 0,
    ensures
        ({
            let g = grid_seq(every, t, stop, tu, incl_end);
            let last = g[g.len() - 1];
            if incl_end {
                last == stop || (add_dur_ok(every, last, tu) && add_dur(every, last, tu) > stop)
            } else {
                add_dur_ok(every, last, tu) && add_dur(every, last, tu) >= stop
            }
        }),
    decreases (if t <= stop { stop - t } else { 0int }),
{
    let g = grid_seq(every, t, stop, tu, incl_end);
    if t > stop || (!incl_end && t >= stop) {
    } else if incl_end && t == stop {
    } else {
        lemma_add_dur_increases(every, t, tu);
        let next = add_dur(every, t, tu);
        let g2 = grid_seq(every, next, stop, tu, incl_end);
        assert(g == seq![t] + g2);
        if g2.len() > 0 {
            lemma_grid_terminal(every, next, stop, tu, incl_end);
            assert(g[g.len() - 1] == g2[g2.len() - 1]);
        }
    }
}

/// Closed-window correctness at the chain level: excluding the end removes
/// exactly a terminal point equal to `stop`, and nothing else.
pub proof fn lemma_closed_window_end(every: Duration, t: int, stop: int, tu: TimeUnit)
    requires
        every.wf(),
        dur_step_pos(every, tu),
    ensures
        ({
            let gi = grid_seq(every, t, stop, tu, true);
            let ge = grid_seq(every, t, stop, tu, false);
            ge == (if gi.len() > 0 && gi[gi.len() - 1] == stop {
                gi.drop_last()
            } else {
                gi
            })
        }),
    decreases (if t <= stop { stop - t } else { 0int }),
{
    let gi = grid_seq(every, t, stop, tu, true);
    let ge = grid_seq(every, t, stop, tu, false);
    if t > stop {
        assert(ge =~= gi);
    } else if t == stop {
        assert(gi =~= seq![t]);
        assert(ge =~= gi.drop_last());
    } else if !add_dur_ok(every, t, tu) {
        assert(ge =~= gi);
    } else {
        lemma_add_dur_increases(every, t, tu);
        let next = add_dur(every, t, tu);
        lemma_closed_window_end(every, next, stop, tu);
        let gi2 = grid_seq(every, next, stop, tu, true);
        let ge2 = grid_seq(every, next, stop, tu, false);
        assert(gi == seq![t] + gi2);
        assert(ge == seq![t] + ge2);
        if gi2.len() > 0 && gi2[gi2.len() - 1] == stop {
            assert(gi[gi.len() - 1] == stop);
            assert(ge =~= gi.drop_last());
        } else {
            assert(ge =~= gi);
            if gi.len() > 0 {
                assert(gi[gi.len() - 1] != stop);
            }
        }
    }
}

/// Closed-window correctness for the four policies: `Both` and `Left` differ
/// exactly by a terminal point equal to `stop`; so do `Right` and `Neither`;
/// `Both` and `Right` differ exactly by the leading `start`; `Right` and
/// `Neither` never contain `start`.
pub proof fn lemma_closed_window_correctness(every: Duration, start: int, stop: int, tu: TimeUnit)
    requires
        every.wf(),
        dur_step_pos(every, tu),
        add_dur_ok(every, start, tu),
    ensures
        ({
            let gb = range_seq(every, start, stop, tu, ClosedWindow::Both);
            let gl = range_seq(every, start, stop, tu, ClosedWindow::Left);
            let gr = range_seq(every, start, stop, tu, ClosedWindow::Right);
            let gn = range_seq(every, start, stop, tu, ClosedWindow::Neither);
            &&& gl == (if gb.len() > 0 && gb[gb.len() - 1] == stop {
                gb.drop_last()
            } else {
                gb
            })
            &&& gn == (if gr.len() > 0 && gr[gr.len() - 1] == stop {
                gr.drop_last()
            } else {
                gr
            })
            &&& (start <= stop ==> gb.len() > 0 && gb[0] == start && gb == seq![start] + gr)
            &&& (start > stop ==> gb.len() == 0 && gr.len() == 0)
            &&& forall|i: int| 0 <= i < gl.len() ==> #[trigger] gl[i] < stop
            &&& forall|i: int| 0 <= i < gn.len() ==> #[trigger] gn[i] < stop
            &&& forall|i: int| 0 <= i < gr.len() ==> #[trigger] gr[i] > start
            &&& forall|i: int| 0 <= i < gn.len() ==> #[trigger] gn[i] > start
        }),
{
    lemma_add_dur_increases(every, start, tu);
    let next = add_dur(every, start, tu);
    lemma_closed_window_end(every, start, stop, tu);
    lemma_closed_window_end(every, next, stop, tu);
    lemma_grid_monotone(every, start, stop, tu, false);
    lemma_grid_monotone(every, next, stop, tu, false);
    lemma_grid_monotone(every, next, stop, tu, true);
    let gb = range_seq(every, start, stop, tu, ClosedWindow::Both);
    let gr = range_seq(every, start, stop, tu, ClosedWindow::Right);
    if start <= stop {
        assert(gb == seq![start] + gr);
    }
}

/// Whether the duration makes forward progress at resolution `tu`.
pub fn dur_step_pos_x(every: Duration, tu: TimeUnit) -> (r: bool)
    requires
        every.wf(),
    ensures
        r == dur_step_pos(every, tu),
{
    proof {
        if every.nsecs >= 1_000_000 {
            lemma_div_is_ordered(1_000_000, every.nsecs as int, 1_000_000);
            lemma_div_by_self(1_000_000);
        } else if every.nsecs >= 0 {
            lemma_basic_div(every.nsecs as int, 1_000_000);
        }
    }
    !every.negative && (every.months > 0 || (match tu {
        TimeUnit::Milliseconds => every.nsecs >= 1_000_000,
        TimeUnit::Nanoseconds => every.nsecs > 0,
    }))
}

/// Generate the raw grid values from `start` to `stop`.
pub fn date_range_values(start: i64, stop: i64, every: Duration, closed: ClosedWindow,
    tu: TimeUnit) -> (r: Result<Vec<i64>, UpsampleError>)
    requires
        every.wf(),
    ensures
        r matches Err(UpsampleError::InvalidDuration) <==> !dur_step_pos(every, tu),
        dur_step_pos(every, tu) ==> (r is Ok <==> range_ok(every, start as int, stop as int, tu,
            closed)),
        r matches Err(e) ==> e == UpsampleError::InvalidDuration
            || e == UpsampleError::OutOfRepresentableRange,
        r matches Ok(v) ==> {
            let g = range_seq(every, start as int, stop as int, tu, closed);
            v@.len() == g.len() && forall|i: int| 0 <= i < g.len() ==> v@[i] as int == g[i]
        },
{
    if !dur_step_pos_x(every, tu) {
        return Err(UpsampleError::InvalidDuration);
    }
    let incl_end = match closed {
        ClosedWindow::Both | ClosedWindow::Right => true,
        ClosedWindow::Left | ClosedWindow::Neither => false,
    };
    let first = match closed {
        ClosedWindow::Both | ClosedWindow::Left => start,
        ClosedWindow::Right | ClosedWindow::Neither => {
            match add_duration(every, start, tu) {
                Ok(v) => v,
                Err(e) => {
                    return Err(e);
                },
            }
        },
    };
    let ghost gseq = grid_seq(every, first as int, stop as int, tu, incl_end);
    let mut out: Vec<i64> = Vec::new();
    let mut t = first;
    let mut done = false;
    while !done && ((incl_end && t <= stop) || (!incl_end && t < stop))
        invariant
            every.wf(),
            dur_step_pos(every, tu),
            gseq == grid_seq(every, first as int, stop as int, tu, incl_end),
            first as int == range_first(every, start as int, tu, closed),
            incl_end == range_incl_end(closed),
            range_ok(every, start as int, stop as int, tu, closed) == grid_complete(every,
                first as int, stop as int, tu),
            gseq == range_seq(every, start as int, stop as int, tu, closed),
            done ==> out@.len() == gseq.len() && grid_complete(every, first as int, stop as int,
                tu),
            !done ==> gseq == out@.map_values(|x: i64| x as int) + grid_seq(every, t as int,
                stop as int, tu, incl_end),
            !done ==> grid_complete(every, first as int, stop as int, tu) == grid_complete(every,
                t as int, stop as int, tu),
            forall|i: int| 0 <= i < out@.len() ==> out@[i] as int == gseq[i],
            out@.len() <= gseq.len(),
        decreases (if done { 0int } else { 1int }), (if stop - t >= 0 { stop - t } else { 0int }),
    {
        proof {
            assert(grid_seq(every, t as int, stop as int, tu, incl_end).len() > 0);
            assert(gseq[out@.len() as int] == t as int);
        }
        out.push(t);
        if incl_end && t == stop {
            done = true;
        } else {
            match add_duration(every, t, tu) {
                Ok(n) => {
                    proof {
                        lemma_add_dur_increases(every, t as int, tu);
                    }
                    t = n;
                },
                Err(e) => {
                    proof {
                        assert(!grid_complete(every, t as int, stop as int, tu));
                    }
                    return Err(e);
                },
            }
        }
    }
    proof {
        if !done {
            assert(grid_seq(every, t as int, stop as int, tu, incl_end) =~= Seq::<int>::empty());
        }
    }
    Ok(out)
}

/// Generate a named `Datetime(tu)` grid column from `start` to `stop`, step
/// `every`, honoring the closed-window policy.
pub fn date_range(name: &str, start: i64, stop: i64, every: Duration, closed: ClosedWindow,
    tu: TimeUnit) -> (r: Result<Series, UpsampleError>)
    requires
        every.wf(),
    ensures
        r matches Err(UpsampleError::InvalidDuration) <==> !dur_step_pos(every, tu),
        dur_step_pos(every, tu) ==> (r is Ok <==> range_ok(every, start as int, stop as int, tu,
            closed)),
        r matches Err(e) ==> e == UpsampleError::InvalidDuration
            || e == UpsampleError::OutOfRepresentableRange,
        r matches Ok(s) ==> {
            let g = range_seq(every, start as int, stop as int, tu, closed);
            &&& s.name@ == name@
            &&& s.dtype == DataType::Datetime(tu)
            &&& s.wf()
            &&& s.values@.len() == g.len()
            &&& forall|i: int|
                0 <= i < g.len() ==> ((#[trigger] s.values@[i]) matches Some(v) && v as int
                    == g[i])
        },
{
    let vals = match date_range_values(start, stop, every, closed, tu) {
        Ok(v) => v,
        Err(e) => {
            return Err(e);
        },
    };
    let mut cells: Vec<Option<i64>> = Vec::new();
    let mut i: usize = 0;
    while i < vals.len()
        invariant
            0 <= i <= vals@.len(),
            cells@.len() == i,
            forall|j: int|
                0 <= j < i ==> ((#[trigger] cells@[j]) matches Some(v) && v == vals@[j]),
        decreases vals@.len() - i,
    {
        cells.push(Some(vals[i]));
        i = i + 1;
    }
    Ok(Series { name: name.to_owned(), dtype: DataType::Datetime(tu), values: cells })
}

} // verus!
