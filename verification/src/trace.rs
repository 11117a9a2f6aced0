//! The path tracer.
//!
//! Starting at each lane of the top label row, the tracer descends through the
//! connector rows.  At each row it inspects the cell to the left, the cell
//! below and the cell to the right of the current position (off-grid cells
//! count as blanks).  A blank on both sides with a bar below means the path
//! goes straight down; a dash on the left means the path follows that rung one
//! lane to the left; otherwise a dash on the right sends it one lane to the
//! right.  The left side is inspected first, which settles any diagram in
//! which a lane is claimed by rungs on both sides at once.

use crate::grid::Graph;
use crate::grid::ParseError;
use crate::grid::grid_wf;
use crate::grid::lane_bars_ok;
use crate::grid::parse_result;
use crate::grid::push_char;
use crate::grid::rung_slots_ok;
use vstd::prelude::*;

verus! {

/// The character at row `r`, column `c`, where any position off the grid
/// counts as a blank.
pub open spec fn cell_or_space(g: Seq<Seq<char>>, r: int, c: int) -> char {
    if 0 <= r < g.len() && 0 <= c < g[r].len() {
        g[r][c]
    } else {
        ' '
    }
}

/// The column reached one row below when the path stands at connector row
/// `row`, column `col`.  Straight down between blanks, left along a left-hand
/// rung, right along a right-hand rung; the left side wins when both carry a
/// dash.  When no case applies, the path keeps its column (and the tracer
/// stops).
pub open spec fn step_col(g: Seq<Seq<char>>, row: int, col: int) -> int {
    let left = cell_or_space(g, row, col - 1);
    let down = cell_or_space(g, row + 1, col);
    let right = cell_or_space(g, row, col + 1);
    if left == ' ' && down == '|' && right == ' ' {
        col
    } else if left == '-' {
        col - 3
    } else if right == '-' {
        col + 3
    } else {
        col
    }
}

/// The column at the bottom label row reached by descending from row `row`,
/// column `col`, applying `step_col` at every connector row on the way.
pub open spec fn trace_from(g: Seq<Seq<char>>, row: int, col: int) -> int
    decreases g.len() - row,
{
    if row >= g.len() - 1 {
        col
    } else {
        trace_from(g, row + 1, step_col(g, row, col))
    }
}

/// On a valid grid, what surrounds a lane position in a connector row: each
/// side is a blank or a dash, a dash continues through its whole rung slot and
/// never points off the grid, and the cell below is a bar unless the next row
/// is the bottom label row.
pub proof fn lemma_neighbors_shape(g: Seq<Seq<char>>, row: int, col: int)
    requires
        grid_wf(g),
        1 <= row <= g.len() - 2,
        col % 3 == 0,
        0 <= col < g[0].len(),
    ensures
        cell_or_space(g, row, col - 1) == ' ' || cell_or_space(g, row, col - 1) == '-',
        cell_or_space(g, row, col + 1) == ' ' || cell_or_space(g, row, col + 1) == '-',
        cell_or_space(g, row, col - 1) == '-' ==> col >= 3 && cell_or_space(g, row, col - 2)
            == '-',
        cell_or_space(g, row, col + 1) == '-' ==> col + 3 < g[0].len() && cell_or_space(
            g,
            row,
            col + 2,
        ) == '-',
        row + 1 < g.len() - 1 ==> cell_or_space(g, row + 1, col) == '|',
{
    assert(g[row].len() == g[0].len());
    assert(rung_slots_ok(g[row]));
    assert(lane_bars_ok(g[row]));
    if col >= 1 {
        assert(col >= 3);
        assert((g[row][col - 2] == ' ' && g[row][col - 1] == ' ') || (g[row][col - 2] == '-'
            && g[row][col - 1] == '-')) by {
            assert((col - 2) % 3 == 1 && (col - 2) + 1 < g[row].len());
        }
    }
    if col + 1 < g[0].len() {
        assert(col + 2 < g[0].len()) by {
            assert(g[0].len() % 3 == 1);
            assert((col + 1) + 1 != g[0].len());
        }
        assert((g[row][col + 1] == ' ' && g[row][col + 2] == ' ') || (g[row][col + 1] == '-'
            && g[row][col + 2] == '-')) by {
            assert((col + 1) % 3 == 1 && (col + 1) + 1 < g[row].len());
        }
        assert(col + 3 < g[0].len()) by {
            assert(g[0].len() % 3 == 1);
            assert(col + 3 != g[0].len());
        }
    }
    if row + 1 < g.len() - 1 {
        assert(g[row + 1].len() == g[0].len());
        assert(lane_bars_ok(g[row + 1]));
        assert(g[row + 1][col] == '|');
    }
}

/// One step from a lane position on a valid grid lands on a lane position.
pub proof fn lemma_step_in_lanes(g: Seq<Seq<char>>, row: int, col: int)
    requires
        grid_wf(g),
        1 <= row <= g.len() - 2,
        col % 3 == 0,
        0 <= col < g[0].len(),
    ensures
        step_col(g, row, col) % 3 == 0,
        0 <= step_col(g, row, col) < g[0].len(),
{
    lemma_neighbors_shape(g, row, col);
}

/// The whole descent from a lane position on a valid grid ends on a lane
/// position of the bottom label row.
pub proof fn lemma_trace_in_lanes(g: Seq<Seq<char>>, row: int, col: int)
    requires
        grid_wf(g),
        1 <= row <= g.len() - 1,
        col % 3 == 0,
        0 <= col < g[0].len(),
    ensures
        trace_from(g, row, col) % 3 == 0,
        0 <= trace_from(g, row, col) < g[0].len(),
    decreases g.len() - row,
{
    if row < g.len() - 1 {
        lemma_step_in_lanes(g, row, col);
        lemma_trace_in_lanes(g, row + 1, step_col(g, row, col));
    }
}

/// How many lanes the grid has: one per lane column.
pub open spec fn lane_count(g: Seq<Seq<char>>) -> int {
    (g[0].len() - 1) / 3 + 1
}

/// The two-character answer for lane `k`: its top label followed by the bottom
/// label its path reaches.
pub open spec fn result_pair(g: Seq<Seq<char>>, k: int) -> Seq<char> {
    seq![g[0][3 * k], g[g.len() - 1][trace_from(g, 1, 3 * k)]]
}

/// The answers for all lanes, in left-to-right order of the top labels.
pub open spec fn solve_all_spec(g: Seq<Seq<char>>) -> Seq<Seq<char>> {
    Seq::new(lane_count(g) as nat, |k: int| result_pair(g, k))
}

impl Graph {
    /// The cells to the left of, below, and to the right of `position`
    /// (row, column), where off-grid cells count as blanks.
    pub fn neighbor_positions(&self, position: (usize, usize)) -> (r: (char, char, char))
        ensures
            r.0 == cell_or_space(self@, position.0 as int, position.1 as int - 1),
            r.1 == cell_or_space(self@, position.0 as int + 1, position.1 as int),
            r.2 == cell_or_space(self@, position.0 as int, position.1 as int + 1),
    {
        proof {
            self.lemma_size_bounds();
        }
        let left = if position.1 == 0 {
            ' '
        } else {
            match self.get((position.0, position.1 - 1)) {
                Some(c) => c,
                None => ' ',
            }
        };
        let down = if position.0 == usize::MAX {
            ' '
        } else {
            match self.get((position.0 + 1, position.1)) {
                Some(c) => c,
                None => ' ',
            }
        };
        let right = if position.1 == usize::MAX {
            ' '
        } else {
            match self.get((position.0, position.1 + 1)) {
                Some(c) => c,
                None => ' ',
            }
        };
        (left, down, right)
    }

    /// Descends the ladder from the top of lane column `column` and returns
    /// the character of the bottom label row at the column the path reaches.
    pub fn solve_from_column(&self, column: usize) -> (r: char)
        requires
            self.wf(),
            column % 3 == 0,
            column < self@[0].len(),
        ensures
            r == self@[self@.len() - 1][trace_from(self@, 1, column as int)],
    {
        let height = self.height();
        let width = self.width();
        let mut row: usize = 1;
        let mut col: usize = column;
        loop
            invariant
                self.wf(),
                height == self@.len(),
                width == self@[0].len(),
                1 <= row <= height - 1,
                col % 3 == 0,
                col < width,
                trace_from(self@, 1, column as int) == trace_from(self@, row as int, col as int),
            ensures
                row == self@.len() - 1,
                col < self@[0].len(),
                col == trace_from(self@, 1, column as int),
            decreases height - row,
        {
            if row >= height - 1 {
                break ;
            }
            proof {
                lemma_neighbors_shape(self@, row as int, col as int);
                lemma_step_in_lanes(self@, row as int, col as int);
            }
            let ghost prev_col = col as int;
            let ghost prev_row = row as int;
            let neighbors = self.neighbor_positions((row, col));
            let (left, down, right) = neighbors;
            if left == ' ' && down == '|' && right == ' ' {
                row = row + 1;
            } else if left == '-' {
                row = row + 1;
                col = col - 3;
            } else if right == '-' {
                row = row + 1;
                col = col + 3;
            } else {
                proof {
                    assert(cell_or_space(self@, prev_row + 1, prev_col) != '|');
                    assert(prev_row + 1 == self@.len() - 1);
                    assert(step_col(self@, prev_row, prev_col) == prev_col);
                    assert(trace_from(self@, prev_row, prev_col) == trace_from(
                        self@,
                        prev_row + 1,
                        prev_col,
                    ));
                }
                row = row + 1;
                break ;
            }
            proof {
                assert(col as int == step_col(self@, prev_row, prev_col));
                assert(trace_from(self@, prev_row, prev_col) == trace_from(
                    self@,
                    prev_row + 1,
                    col as int,
                ));
            }
        }
        match self.get((row, col)) {
            Some(c) => c,
            None => {
                proof {
                    assert(false);
                }
                ' '
            },
        }
    }

    /// The answer for every lane, top label first: one two-character string
    /// per lane column, left to right.
    pub fn solve_all(&self) -> (r: Vec<String>)
        requires
            self.wf(),
        ensures
            r.deep_view() == solve_all_spec(self@),
    {
        let width = self.width();
        let n = (width - 1) / 3 + 1;
        proof {
            assert(n == lane_count(self@));
        }
        let labels = self.top_labels();
        let mut results: Vec<String> = Vec::new();
        let mut k: usize = 0;
        proof {
            assert(results.deep_view() =~= solve_all_spec(self@).take(0));
        }
        while k < n
            invariant
                self.wf(),
                width == self@[0].len(),
                n == lane_count(self@),
                labels@ == self@[0],
                k <= n,
                results.deep_view() == solve_all_spec(self@).take(k as int),
            decreases n - k,
        {
            proof {
                assert((width - 1) % 3 == 0);
                assert(3 * (k as int) <= 3 * ((width - 1) as int / 3));
            }
            let col = 3 * k;
            let label = labels[col];
            let glyph = self.solve_from_column(col);
            let mut pair = String::new();
            push_char(&mut pair, label);
            push_char(&mut pair, glyph);
            proof {
                assert(pair@ =~= result_pair(self@, k as int));
            }
            let ghost prev = results.deep_view();
            results.push(pair);
            k = k + 1;
            proof {
                assert(results.deep_view() =~~= prev.push(pair@));
                assert(solve_all_spec(self@).take(k as int) =~~= prev.push(pair@));
            }
        }
        proof {
            assert(solve_all_spec(self@).take(n as int) =~~= solve_all_spec(self@));
        }
        results
    }
}

/// The whole run on one diagram: build and validate the grid from `s`, hold
/// it against the declared width `w` and height `h` and the allowed envelope,
/// and trace every lane.  On any rejection no output is produced.
pub fn solve_puzzle(w: usize, h: usize, s: &str) -> (r: Result<Vec<String>, ParseError>)
    ensures
        (match parse_result(s@) {
            Ok(rows) => {
                if w >= 3 && h <= 100 && rows.len() == h && rows[0].len() == w {
                    r is Ok && r->Ok_0.deep_view() == solve_all_spec(rows)
                } else {
                    r == Err::<Vec<String>, ParseError>(ParseError::DimensionMismatch)
                }
            },
            Err(e) => r == Err::<Vec<String>, ParseError>(e),
        }),
{
    let g = match Graph::from_str(s) {
        Ok(g) => g,
        Err(e) => {
            return Err(e);
        },
    };
    if w < 3 || h > 100 || !g.is_valid(h, w) {
        return Err(ParseError::DimensionMismatch);
    }
    Ok(g.solve_all())
}

} // verus!
