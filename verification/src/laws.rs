//! Global properties of the tracer.
//!
//! The central one: on a valid grid whose rungs never claim one lane from
//! both sides in the same row, the tracer maps the top lanes onto the bottom
//! lanes one to one.  The validator checks each rung slot on its own, so it
//! does accept a row such as `|--|--|`, in which the middle lane carries a
//! rung on each side; on such a grid two top lanes can reach the same bottom
//! lane (the left-before-right priority sends both outer lanes of that row to
//! the middle), which is why the one-to-one statement carries the
//! `rungs_single_sided` premise.

use crate::grid::grid_wf;
use crate::trace::cell_or_space;
use crate::trace::lane_count;
use crate::trace::lemma_neighbors_shape;
use crate::trace::lemma_step_in_lanes;
use crate::trace::lemma_trace_in_lanes;
use crate::trace::solve_all_spec;
use crate::trace::step_col;
use crate::trace::trace_from;
use vstd::prelude::*;

verus! {

/// No lane carries a rung on both of its sides in the same connector row.
pub open spec fn rungs_single_sided(g: Seq<Seq<char>>) -> bool {
    forall|i: int, c: int|
        1 <= i < g.len() - 1 && 0 <= c < g[0].len() && c % 3 == 0 ==> !(#[trigger] cell_or_space(
            g,
            i,
            c - 1,
        ) == '-' && cell_or_space(g, i, c + 1) == '-')
}

/// One step of the descent is an involution on lane columns: stepping twice
/// from the same connector row leads back to the starting lane.
proof fn lemma_step_involution(g: Seq<Seq<char>>, row: int, col: int)
    requires
        grid_wf(g),
        rungs_single_sided(g),
        1 <= row <= g.len() - 2,
        col % 3 == 0,
        0 <= col < g[0].len(),
    ensures
        step_col(g, row, step_col(g, row, col)) == col,
{
    lemma_neighbors_shape(g, row, col);
    lemma_step_in_lanes(g, row, col);
    let s = step_col(g, row, col);
    lemma_neighbors_shape(g, row, s);
    let left = cell_or_space(g, row, col - 1);
    let right = cell_or_space(g, row, col + 1);
    if left == '-' {
        assert(s == col - 3);
        assert(cell_or_space(g, row, s + 1) == '-');
        assert(cell_or_space(g, row, s - 1) != '-');
    } else if right == '-' {
        assert(s == col + 3);
        assert(cell_or_space(g, row, s - 1) == '-');
    } else {
        assert(s == col);
    }
}

/// The descent from two different lanes of the same row ends at two different
/// columns.
proof fn lemma_trace_injective(g: Seq<Seq<char>>, row: int, c1: int, c2: int)
    requires
        grid_wf(g),
        rungs_single_sided(g),
        1 <= row <= g.len() - 1,
        c1 % 3 == 0,
        0 <= c1 < g[0].len(),
        c2 % 3 == 0,
        0 <= c2 < g[0].len(),
        c1 != c2,
    ensures
        trace_from(g, row, c1) != trace_from(g, row, c2),
    decreases g.len() - row,
{
    if row < g.len() - 1 {
        lemma_step_in_lanes(g, row, c1);
        lemma_step_in_lanes(g, row, c2);
        lemma_step_involution(g, row, c1);
        lemma_step_involution(g, row, c2);
        assert(step_col(g, row, c1) != step_col(g, row, c2));
        lemma_trace_injective(g, row + 1, step_col(g, row, c1), step_col(g, row, c2));
    }
}

/// The column from which the descent starting at row `row` reaches column
/// `col` of the bottom label row.
pub open spec fn trace_back(g: Seq<Seq<char>>, row: int, col: int) -> int
    decreases g.len() - row,
{
    if row >= g.len() - 1 {
        col
    } else {
        step_col(g, row, trace_back(g, row + 1, col))
    }
}

/// `trace_back` is a right inverse of the descent: it names a lane column
/// whose descent ends at the given bottom column.
proof fn lemma_trace_back(g: Seq<Seq<char>>, row: int, col: int)
    requires
        grid_wf(g),
        rungs_single_sided(g),
        1 <= row <= g.len() - 1,
        col % 3 == 0,
        0 <= col < g[0].len(),
    ensures
        trace_back(g, row, col) % 3 == 0,
        0 <= trace_back(g, row, col) < g[0].len(),
        trace_from(g, row, trace_back(g, row, col)) == col,
    decreases g.len() - row,
{
    if row < g.len() - 1 {
        lemma_trace_back(g, row + 1, col);
        let b = trace_back(g, row + 1, col);
        lemma_step_in_lanes(g, row, b);
        lemma_step_involution(g, row, b);
        assert(trace_from(g, row, step_col(g, row, b)) == trace_from(
            g,
            row + 1,
            step_col(g, row, step_col(g, row, b)),
        ));
    }
}

/// The bottom lane reached from top lane `k`.
pub open spec fn lane_target(g: Seq<Seq<char>>, k: int) -> int {
    trace_from(g, 1, 3 * k) / 3
}

/// The top lane from which bottom lane `j` is reached.
pub open spec fn lane_source(g: Seq<Seq<char>>, j: int) -> int {
    trace_back(g, 1, 3 * j) / 3
}

/// On a valid grid whose rungs never claim a lane from both sides at once,
/// the tracer's lane mapping is a permutation of the lanes: every top lane
/// reaches a bottom lane, no two top lanes reach the same one, and every
/// bottom lane is reached.
pub proof fn lemma_lane_bijection(g: Seq<Seq<char>>)
    requires
        grid_wf(g),
        rungs_single_sided(g),
    ensures
        forall|k: int| 0 <= k < lane_count(g) ==> 0 <= #[trigger] lane_target(g, k) < lane_count(g),
        forall|k1: int, k2: int|
            #![trigger lane_target(g, k1), lane_target(g, k2)]
            0 <= k1 < lane_count(g) && 0 <= k2 < lane_count(g) && k1 != k2 ==> lane_target(g, k1)
                != lane_target(g, k2),
        forall|j: int|
            0 <= j < lane_count(g) ==> 0 <= #[trigger] lane_source(g, j) < lane_count(g)
                && lane_target(g, lane_source(g, j)) == j,
{
    let n = lane_count(g);
    let width = g[0].len() as int;
    assert forall|k: int| 0 <= k < n implies 0 <= #[trigger] lane_target(g, k) < n by {
        assert(3 * k < width);
        lemma_trace_in_lanes(g, 1, 3 * k);
    }
    assert forall|k1: int, k2: int|
        #![trigger lane_target(g, k1), lane_target(g, k2)]
        0 <= k1 < n && 0 <= k2 < n && k1 != k2 implies lane_target(g, k1) != lane_target(
        g,
        k2,
    ) by {
        assert(3 * k1 < width && 3 * k2 < width);
        lemma_trace_in_lanes(g, 1, 3 * k1);
        lemma_trace_in_lanes(g, 1, 3 * k2);
        lemma_trace_injective(g, 1, 3 * k1, 3 * k2);
    }
    assert forall|j: int| 0 <= j < n implies 0 <= #[trigger] lane_source(g, j) < n
        && lane_target(g, lane_source(g, j)) == j by {
        assert(3 * j < width);
        lemma_trace_back(g, 1, 3 * j);
        let b = trace_back(g, 1, 3 * j);
        let kb = b / 3;
        assert(3 * kb == b);
        assert(0 <= kb < n);
        assert(lane_target(g, kb) == j);
    }
}

/// Tracing the same valid grid twice yields identical output: the result of
/// `solve_all` is a function of the grid alone.
pub proof fn lemma_trace_deterministic(
    g: Seq<Seq<char>>,
    r1: Seq<Seq<char>>,
    r2: Seq<Seq<char>>,
)
    requires
        r1 == solve_all_spec(g),
        r2 == solve_all_spec(g),
    ensures
        r1 == r2,
{
}

} // verus!
