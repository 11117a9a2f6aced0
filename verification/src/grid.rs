//! The grid model and its builder/validator.
//!
//! A diagram is a rectangular grid of characters.  Row 0 and the last row are
//! label rows; every row in between is a connector row.  Columns repeat with
//! period 3: columns at indices divisible by 3 are lane columns (a `|` in
//! connector rows, a label glyph in label rows), and the two columns between
//! consecutive lane columns form a rung slot, which in a connector row holds
//! either two blanks (no rung) or two dashes (a rung joining the two lanes).

use vstd::prelude::*;
use vstd::std_specs::iter::IteratorSpec;

verus! {

/// Index of the first newline in `s`, or `s.len()` if `s` holds none.
pub open spec fn first_newline(s: Seq<char>) -> int
    decreases s.len(),
{
    if s.len() == 0 {
        0
    } else if s[0] == '\n' {
        0
    } else {
        1 + first_newline(s.drop_first())
    }
}

/// `first_newline` lies between 0 and `s.len()`, every character before it is
/// not a newline, and it points at a newline whenever it is below `s.len()`.
pub proof fn lemma_first_newline(s: Seq<char>)
    ensures
        0 <= first_newline(s) <= s.len(),
        forall|j: int| 0 <= j < first_newline(s) ==> s[j] != '\n',
        first_newline(s) < s.len() ==> s[first_newline(s)] == '\n',
    decreases s.len(),
{
    if s.len() != 0 && s[0] != '\n' {
        lemma_first_newline(s.drop_first());
        assert forall|j: int| 0 <= j < first_newline(s) implies s[j] != '\n' by {
            if j >= 1 {
                assert(s.drop_first()[j - 1] != '\n');
            }
        }
    }
}

/// The lines of a text block: segments between newlines, where a trailing
/// newline does not open a final empty line.
pub open spec fn line_seqs(s: Seq<char>) -> Seq<Seq<char>>
    decreases s.len(),
    via line_seqs_decreases
{
    if s.len() == 0 {
        Seq::empty()
    } else {
        let i = first_newline(s);
        if i == s.len() {
            seq![s]
        } else {
            seq![s.take(i)] + line_seqs(s.skip(i + 1))
        }
    }
}

#[via_fn]
proof fn line_seqs_decreases(s: Seq<char>) {
    lemma_first_newline(s);
}

/// If nothing before position `i` is a newline and position `i` is one (or is
/// the end), then `i` is the first newline.
proof fn lemma_first_newline_at(t: Seq<char>, i: int)
    requires
        0 <= i <= t.len(),
        forall|j: int| 0 <= j < i ==> t[j] != '\n',
        i < t.len() ==> t[i] == '\n',
    ensures
        first_newline(t) == i,
    decreases t.len(),
{
    if t.len() != 0 && t[0] != '\n' {
        assert forall|j: int| 0 <= j < i - 1 implies t.drop_first()[j] != '\n' by {
            assert(t[j + 1] != '\n');
        }
        lemma_first_newline_at(t.drop_first(), i - 1);
    }
}

/// Splitting a text that starts with a newline-free segment, a newline and a
/// rest yields that segment as the first line, followed by the rest's lines.
proof fn lemma_line_seqs_step(cur: Seq<char>, rest: Seq<char>)
    requires
        forall|j: int| 0 <= j < cur.len() ==> cur[j] != '\n',
    ensures
        line_seqs(cur + seq!['\n'] + rest) == seq![cur] + line_seqs(rest),
{
    let t = cur + seq!['\n'] + rest;
    lemma_first_newline_at(t, cur.len() as int);
    assert(t.take(cur.len() as int) =~= cur);
    assert(t.skip(cur.len() as int + 1) =~= rest);
}

/// A newline-free text is a single line, or no line at all if it is empty.
proof fn lemma_line_seqs_last(cur: Seq<char>)
    requires
        forall|j: int| 0 <= j < cur.len() ==> cur[j] != '\n',
    ensures
        line_seqs(cur) == (if cur.len() == 0 {
            Seq::<Seq<char>>::empty()
        } else {
            seq![cur]
        }),
{
    if cur.len() != 0 {
        lemma_first_newline_at(cur, cur.len() as int);
    }
}

/// Every lane column of a connector row carries a vertical bar.
pub open spec fn lane_bars_ok(row: Seq<char>) -> bool {
    forall|c: int| 0 <= c < row.len() && c % 3 == 0 ==> row[c] == '|'
}

/// Every rung slot of a connector row is exactly two blanks or two dashes.
pub open spec fn rung_slots_ok(row: Seq<char>) -> bool {
    forall|c: int|
        0 <= c && c % 3 == 1 && c + 1 < row.len() ==> ((#[trigger] row[c] == ' ' && row[c + 1]
            == ' ') || (row[c] == '-' && row[c + 1] == '-'))
}

/// A label row carries non-space glyphs only at lane columns.
pub open spec fn label_row_ok(row: Seq<char>) -> bool {
    forall|c: int| 0 <= c < row.len() && c % 3 != 0 ==> row[c] == ' '
}

/// All the invariants of a valid grid: at least three rows, a width congruent
/// to 1 modulo 3 shared by every row, bars and whole rung slots in every
/// connector row, and blanks at the rung-slot columns of both label rows.
pub open spec fn grid_wf(g: Seq<Seq<char>>) -> bool {
    &&& g.len() >= 3
    &&& g[0].len() % 3 == 1
    &&& forall|i: int| 0 <= i < g.len() ==> (#[trigger] g[i]).len() == g[0].len()
    &&& forall|i: int|
        1 <= i < g.len() - 1 ==> lane_bars_ok(#[trigger] g[i]) && rung_slots_ok(g[i])
    &&& label_row_ok(g[0])
    &&& label_row_ok(g[g.len() - 1])
}

/// Everything the builder can reject a diagram for, one variant per violated
/// constraint.  `DimensionMismatch` is raised by the acceptance gate, not by
/// the builder itself: it covers a grid whose actual size disagrees with the
/// declared one, and a declared size outside the allowed envelope
/// (width below 3 or height above 100).
#[derive(Debug, Clone, Copy, PartialEq, Eq, Structural)]
pub enum ParseError {
    /// Fewer than 3 lines were supplied.
    TooFewRows,
    /// The first row's character count is not congruent to 1 modulo 3.
    InvalidWidth,
    /// Some row's character count differs from the first row's.
    InconsistentWidth,
    /// A connector row lacks `|` at a lane column.
    MissingLaneBar,
    /// A connector row's rung slot is neither two blanks nor two dashes.
    InvalidRungSlot,
    /// A label row has a non-space glyph at a rung-slot column.
    InvalidLabelRow,
    /// The grid's actual size disagrees with the declared one, or the declared
    /// size lies outside the allowed envelope.
    DimensionMismatch,
}

/// The first constraint row `i` of `rows` violates, in the order the builder
/// checks them, or `None` if the row is acceptable.  Row 0 fixes the width;
/// any later row must match it.
pub open spec fn row_error(rows: Seq<Seq<char>>, i: int) -> Option<ParseError> {
    if i == 0 {
        if rows[0].len() % 3 != 1 {
            Some(ParseError::InvalidWidth)
        } else if !label_row_ok(rows[0]) {
            Some(ParseError::InvalidLabelRow)
        } else {
            None
        }
    } else if rows[i].len() != rows[0].len() {
        Some(ParseError::InconsistentWidth)
    } else if i < rows.len() - 1 {
        if !lane_bars_ok(rows[i]) {
            Some(ParseError::MissingLaneBar)
        } else if !rung_slots_ok(rows[i]) {
            Some(ParseError::InvalidRungSlot)
        } else {
            None
        }
    } else {
        if !label_row_ok(rows[i]) {
            Some(ParseError::InvalidLabelRow)
        } else {
            None
        }
    }
}

/// The first row error at row `i` or later, scanning rows in order.
pub open spec fn first_error_from(rows: Seq<Seq<char>>, i: int) -> Option<ParseError>
    decreases rows.len() - i,
{
    if i < 0 || i >= rows.len() {
        None
    } else if row_error(rows, i) is Some {
        row_error(rows, i)
    } else {
        first_error_from(rows, i + 1)
    }
}

/// What building a grid from the text block `s` yields: the grid's rows, or
/// the first error the row-by-row scan meets.
pub open spec fn parse_result(s: Seq<char>) -> Result<Seq<Seq<char>>, ParseError> {
    let rows = line_seqs(s);
    if rows.len() < 3 {
        Err(ParseError::TooFewRows)
    } else {
        match first_error_from(rows, 0) {
            Some(e) => Err(e),
            None => Ok(rows),
        }
    }
}

/// While every row before `i` is acceptable, the scan of the whole block and
/// the scan from row `i` on find the same first error.
proof fn lemma_first_error_skip(rows: Seq<Seq<char>>, i: int)
    requires
        0 <= i <= rows.len(),
        forall|j: int| 0 <= j < i ==> row_error(rows, j) is None,
    ensures
        first_error_from(rows, 0) == first_error_from(rows, i),
    decreases i,
{
    if i > 0 {
        lemma_first_error_skip(rows, i - 1);
    }
}

/// The row-by-row scan accepts every row exactly when the grid invariants all
/// hold (given at least three rows).
pub proof fn lemma_rows_ok_iff_wf(rows: Seq<Seq<char>>)
    requires
        rows.len() >= 3,
    ensures
        (forall|i: int| 0 <= i < rows.len() ==> row_error(rows, i) is None) <==> grid_wf(rows),
{
    if forall|i: int| 0 <= i < rows.len() ==> row_error(rows, i) is None {
        assert(row_error(rows, 0) is None);
        assert(row_error(rows, rows.len() - 1) is None);
        assert forall|i: int| 0 <= i < rows.len() implies (#[trigger] rows[i]).len()
            == rows[0].len() by {
            assert(row_error(rows, i) is None);
        }
        assert forall|i: int| 1 <= i < rows.len() - 1 implies lane_bars_ok(#[trigger] rows[i])
            && rung_slots_ok(rows[i]) by {
            assert(row_error(rows, i) is None);
        }
    }
}

/// The characters of `s`, split at newlines into lines.
fn split_lines(s: &str) -> (r: Vec<Vec<char>>)
    ensures
        r.deep_view() == line_seqs(s@),
{
    let mut acc: Vec<Vec<char>> = Vec::new();
    let mut cur: Vec<char> = Vec::new();
    let mut it = s.chars();
    proof {
        assert(acc.deep_view() =~= Seq::<Seq<char>>::empty());
        assert(cur@ + it.remaining() =~= s@);
    }
    loop
        invariant
            it.obeys_prophetic_iter_laws(),
            it.decrease() is Some,
            forall|j: int| 0 <= j < cur@.len() ==> cur@[j] != '\n',
            line_seqs(s@) == acc.deep_view() + line_seqs(cur@ + it.remaining()),
        ensures
            forall|j: int| 0 <= j < cur@.len() ==> cur@[j] != '\n',
            line_seqs(s@) == acc.deep_view() + line_seqs(cur@),
        decreases it.decrease()->0,
    {
        let ghost prev_cur = cur@;
        let ghost prev_acc = acc.deep_view();
        let ghost prev_rem = it.remaining();
        match it.next() {
            None => {
                proof {
                    assert(cur@ + it.remaining() =~= cur@);
                }
                break ;
            },
            Some(c) => {
                proof {
                    assert(prev_rem.len() > 0);
                    assert(c == prev_rem[0]);
                    assert(it.remaining() == prev_rem.drop_first());
                }
                if c == '\n' {
                    proof {
                        assert(prev_cur + prev_rem =~= prev_cur + seq!['\n'] + it.remaining());
                        lemma_line_seqs_step(prev_cur, it.remaining());
                    }
                    acc.push(cur);
                    cur = Vec::new();
                    proof {
                        assert(acc.deep_view() =~~= prev_acc.push(prev_cur));
                        assert(cur@ + it.remaining() =~= it.remaining());
                        assert(prev_acc + (seq![prev_cur] + line_seqs(it.remaining()))
                            =~= acc.deep_view() + line_seqs(cur@ + it.remaining()));
                    }
                } else {
                    cur.push(c);
                    proof {
                        assert(cur@ + it.remaining() =~= prev_cur + prev_rem);
                    }
                }
            },
        }
    }
    let ghost last_line = cur@;
    let ghost prev_acc = acc.deep_view();
    proof {
        lemma_line_seqs_last(last_line);
    }
    if cur.len() > 0 {
        acc.push(cur);
        proof {
            assert(acc.deep_view() =~~= prev_acc + seq![last_line]);
        }
    } else {
        proof {
            assert(last_line =~= Seq::<char>::empty());
            assert(prev_acc + line_seqs(last_line) =~= prev_acc);
        }
    }
    acc
}

/// Every lane column of `row` carries a vertical bar.
fn lane_bars_hold(row: &Vec<char>) -> (r: bool)
    ensures
        r == lane_bars_ok(row@),
{
    let mut c: usize = 0;
    while c < row.len()
        invariant
            c <= row@.len(),
            forall|j: int| 0 <= j < c && j % 3 == 0 ==> row@[j] == '|',
        decreases row@.len() - c,
    {
        if c % 3 == 0 && row[c] != '|' {
            return false;
        }
        c = c + 1;
    }
    true
}

/// Every rung slot of `row` is exactly two blanks or two dashes.
fn rung_slots_hold(row: &Vec<char>) -> (r: bool)
    ensures
        r == rung_slots_ok(row@),
{
    let mut c: usize = 0;
    while c < row.len()
        invariant
            c <= row@.len(),
            forall|j: int|
                0 <= j < c && j % 3 == 1 && j + 1 < row@.len() ==> ((#[trigger] row@[j] == ' '
                    && row@[j + 1] == ' ') || (row@[j] == '-' && row@[j + 1] == '-')),
        decreases row@.len() - c,
    {
        if c % 3 == 1 && c + 1 < row.len() {
            let a = row[c];
            let b = row[c + 1];
            if !((a == ' ' && b == ' ') || (a == '-' && b == '-')) {
                return false;
            }
        }
        c = c + 1;
    }
    true
}

/// `row` carries non-space glyphs only at lane columns.
fn label_row_holds(row: &Vec<char>) -> (r: bool)
    ensures
        r == label_row_ok(row@),
{
    let mut c: usize = 0;
    while c < row.len()
        invariant
            c <= row@.len(),
            forall|j: int| 0 <= j < c && j % 3 != 0 ==> row@[j] == ' ',
        decreases row@.len() - c,
    {
        if c % 3 != 0 && row[c] != ' ' {
            return false;
        }
        c = c + 1;
    }
    true
}

/// Relies on `String::push`: appends the given character at the end of the
/// string.
#[verifier::external_body]
pub(crate) fn push_char(s: &mut String, c: char)
    ensures
        final(s)@ == old(s)@.push(c),
{
    s.push(c)
}

/// The canonical text form of a grid: its rows in order, each followed by a
/// newline.
pub open spec fn render(g: Seq<Seq<char>>) -> Seq<char>
    decreases g.len(),
{
    if g.len() == 0 {
        Seq::empty()
    } else {
        g[0] + seq!['\n'] + render(g.drop_first())
    }
}

/// Splitting the canonical text form of newline-free rows recovers the rows.
proof fn lemma_line_seqs_render(g: Seq<Seq<char>>)
    requires
        forall|i: int, j: int|
            0 <= i < g.len() && 0 <= j < g[i].len() ==> #[trigger] g[i][j] != '\n',
    ensures
        line_seqs(render(g)) == g,
    decreases g.len(),
{
    if g.len() == 0 {
        assert(line_seqs(render(g)) =~= g);
    } else {
        let rest = g.drop_first();
        assert forall|i: int, j: int|
            0 <= i < rest.len() && 0 <= j < rest[i].len() implies #[trigger] rest[i][j]
            != '\n' by {
            assert(g[i + 1][j] != '\n');
        }
        lemma_line_seqs_render(rest);
        assert forall|j: int| 0 <= j < g[0].len() implies g[0][j] != '\n' by {}
        lemma_line_seqs_step(g[0], render(rest));
        assert(seq![g[0]] + rest =~= g);
    }
}

/// No line produced by splitting a text holds a newline character.
pub proof fn lemma_lines_no_newline(s: Seq<char>)
    ensures
        forall|i: int, j: int|
            0 <= i < line_seqs(s).len() && 0 <= j < line_seqs(s)[i].len() ==> #[trigger] line_seqs(
                s,
            )[i][j] != '\n',
    decreases s.len(),
{
    lemma_first_newline(s);
    if s.len() != 0 {
        let k = first_newline(s);
        if k == s.len() {
            assert forall|i: int, j: int|
                0 <= i < line_seqs(s).len() && 0 <= j < line_seqs(s)[i].len() implies #[trigger] line_seqs(
                s,
            )[i][j] != '\n' by {
                assert(line_seqs(s)[i] == s);
            }
        } else {
            lemma_lines_no_newline(s.skip(k + 1));
            assert forall|i: int, j: int|
                0 <= i < line_seqs(s).len() && 0 <= j < line_seqs(s)[i].len() implies #[trigger] line_seqs(
                s,
            )[i][j] != '\n' by {
                if i == 0 {
                    assert(line_seqs(s)[0] == s.take(k));
                    assert(s.take(k)[j] == s[j]);
                } else {
                    assert(line_seqs(s)[i] == line_seqs(s.skip(k + 1))[i - 1]);
                }
            }
        }
    }
}

/// Re-parsing the canonical text form of a valid grid yields that very grid.
/// (A grid parsed from text never holds a newline character, which is what
/// the second premise asks.)
pub proof fn lemma_parse_render_round_trip(g: Seq<Seq<char>>)
    requires
        grid_wf(g),
        forall|i: int, j: int|
            0 <= i < g.len() && 0 <= j < g[i].len() ==> #[trigger] g[i][j] != '\n',
    ensures
        parse_result(render(g)) == Ok::<Seq<Seq<char>>, ParseError>(g),
{
    lemma_line_seqs_render(g);
    lemma_rows_ok_iff_wf(g);
    lemma_first_error_skip(g, g.len() as int);
    assert(first_error_from(g, g.len() as int) is None);
}

/// Parsing is idempotent: whenever a text block parses into a grid, the
/// grid's canonical text form parses back into that very grid.
pub proof fn lemma_parse_idempotent(s: Seq<char>)
    requires
        parse_result(s) is Ok,
    ensures
        parse_result(render(parse_result(s)->Ok_0)) == parse_result(s),
{
    let rows = parse_result(s)->Ok_0;
    assert(rows == line_seqs(s));
    lemma_lines_no_newline(s);
    lemma_rows_ok_iff_wf(rows);
    assert(first_error_from(rows, 0) is None);
    assert forall|i: int| 0 <= i < rows.len() implies row_error(rows, i) is None by {
        lemma_first_error_none_step(rows, 0, i);
    }
    lemma_parse_render_round_trip(rows);
}

/// If the scan from row `lo` finds no error, no row from `lo` on has one.
proof fn lemma_first_error_none_step(rows: Seq<Seq<char>>, lo: int, i: int)
    requires
        0 <= lo <= i < rows.len(),
        first_error_from(rows, lo) is None,
    ensures
        row_error(rows, i) is None,
    decreases i - lo,
{
    if lo < i {
        lemma_first_error_none_step(rows, lo + 1, i);
    }
}

/// A validated stick-path diagram: rows of characters satisfying `grid_wf`.
#[derive(Debug, PartialEq, Eq)]
pub struct Graph(Vec<Vec<char>>);

impl View for Graph {
    type V = Seq<Seq<char>>;

    closed spec fn view(&self) -> Seq<Seq<char>> {
        self.0.deep_view()
    }
}

impl Graph {
    /// The grid's rows satisfy every validity constraint.
    pub open spec fn wf(&self) -> bool {
        grid_wf(self@)
    }

    /// Builds a grid from a text block, validating every constraint, or
    /// reports the first violated one in scan order.
    pub fn from_str(s: &str) -> (r: Result<Graph, ParseError>)
        ensures
            (match r {
                Ok(g) => parse_result(s@) == Ok::<Seq<Seq<char>>, ParseError>(g@) && g.wf(),
                Err(e) => parse_result(s@) == Err::<Seq<Seq<char>>, ParseError>(e),
            }),
            r is Ok <==> grid_wf(line_seqs(s@)),
    {
        let rows = split_lines(s);
        let ghost lines = line_seqs(s@);
        proof {
            assert(rows@.len() == lines.len());
            if lines.len() >= 3 {
                lemma_rows_ok_iff_wf(lines);
            }
        }
        if rows.len() < 3 {
            return Err(ParseError::TooFewRows);
        }
        let width = rows[0].len();
        proof {
            assert(rows@[0]@ =~= lines[0]);
        }
        if width % 3 != 1 {
            proof {
                assert(row_error(lines, 0) == Some(ParseError::InvalidWidth));
            }
            return Err(ParseError::InvalidWidth);
        }
        let mut i: usize = 0;
        while i < rows.len()
            invariant
                lines == line_seqs(s@),
                rows.deep_view() == lines,
                lines.len() >= 3,
                i <= lines.len(),
                width == lines[0].len(),
                width % 3 == 1,
                forall|j: int| 0 <= j < i ==> row_error(lines, j) is None,
                (forall|j: int| 0 <= j < lines.len() ==> row_error(lines, j) is None)
                    <==> grid_wf(lines),
            decreases lines.len() - i,
        {
            let row = &rows[i];
            proof {
                assert(row@ =~= lines[i as int]);
                lemma_first_error_skip(lines, i as int);
            }
            if i > 0 && row.len() != width {
                proof {
                    assert(row_error(lines, i as int) == Some(ParseError::InconsistentWidth));
                }
                return Err(ParseError::InconsistentWidth);
            }
            if i > 0 && i < rows.len() - 1 {
                if !lane_bars_hold(row) {
                    proof {
                        assert(row_error(lines, i as int) == Some(ParseError::MissingLaneBar));
                    }
                    return Err(ParseError::MissingLaneBar);
                }
                if !rung_slots_hold(row) {
                    proof {
                        assert(row_error(lines, i as int) == Some(ParseError::InvalidRungSlot));
                    }
                    return Err(ParseError::InvalidRungSlot);
                }
            } else {
                if !label_row_holds(row) {
                    proof {
                        assert(row_error(lines, i as int) == Some(ParseError::InvalidLabelRow));
                    }
                    return Err(ParseError::InvalidLabelRow);
                }
            }
            proof {
                assert(row_error(lines, i as int) is None);
            }
            i = i + 1;
        }
        proof {
            lemma_first_error_skip(lines, lines.len() as int);
            assert(first_error_from(lines, lines.len() as int) is None);
            assert(grid_wf(lines));
        }
        Ok(Graph(rows))
    }

    /// The grid is held in vectors, so its row count and every row's length
    /// fit in `usize`.
    pub proof fn lemma_size_bounds(&self)
        ensures
            self@.len() <= usize::MAX,
            forall|i: int| 0 <= i < self@.len() ==> (#[trigger] self@[i]).len() <= usize::MAX,
    {
        assert(self.0.len() == self.0@.len());
        assert forall|i: int| 0 <= i < self@.len() implies (#[trigger] self@[i]).len()
            <= usize::MAX by {
            assert(self.0@[i].len() == self.0@[i]@.len());
            assert(self@[i] =~= self.0@[i]@);
        }
    }

    /// The character at `position` (row, column), or `None` off the grid.
    pub fn get(&self, position: (usize, usize)) -> (r: Option<char>)
        ensures
            r == (if position.0 < self@.len() && (position.1 as int)
                < self@[position.0 as int].len() {
                Some(self@[position.0 as int][position.1 as int])
            } else {
                None::<char>
            }),
    {
        if position.0 < self.0.len() {
            let row = &self.0[position.0];
            if position.1 < row.len() {
                Some(row[position.1])
            } else {
                None
            }
        } else {
            None
        }
    }

    /// The number of rows.
    pub fn height(&self) -> (r: usize)
        ensures
            r == self@.len(),
    {
        self.0.len()
    }

    /// The number of characters in each row.
    pub fn width(&self) -> (r: usize)
        requires
            self@.len() > 0,
        ensures
            r == self@[0].len(),
    {
        self.0[0].len()
    }

    /// The canonical text form of the grid: each row followed by a newline.
    pub fn to_text(&self) -> (r: String)
        ensures
            r@ == render(self@),
    {
        let mut r = String::new();
        let mut i: usize = 0;
        proof {
            assert(self@.skip(0) =~= self@);
            assert(r@ + render(self@.skip(0)) =~= render(self@));
        }
        while i < self.0.len()
            invariant
                i <= self@.len(),
                self@.len() == self.0@.len(),
                self@ == self.0.deep_view(),
                r@ + render(self@.skip(i as int)) == render(self@),
            decreases self@.len() - i,
        {
            let row = &self.0[i];
            let ghost prefix = r@;
            proof {
                assert(row@ =~= self@[i as int]);
            }
            let mut j: usize = 0;
            while j < row.len()
                invariant
                    j <= row@.len(),
                    i < self.0@.len(),
                    row@ == self.0@[i as int]@,
                    r@ == prefix + row@.take(j as int),
                decreases row@.len() - j,
            {
                push_char(&mut r, row[j]);
                proof {
                    assert(r@ =~= prefix + row@.take(j as int + 1));
                }
                j = j + 1;
            }
            push_char(&mut r, '\n');
            proof {
                assert(row@.take(row@.len() as int) =~= row@);
                assert(self@.skip(i as int).drop_first() =~= self@.skip(i as int + 1));
                assert(self@.skip(i as int)[0] == self@[i as int]);
                assert(render(self@.skip(i as int)) == self@[i as int] + seq!['\n'] + render(
                    self@.skip(i as int + 1),
                ));
                assert(r@ =~= prefix + row@ + seq!['\n']);
                assert(r@ + render(self@.skip(i as int + 1)) =~= prefix + render(
                    self@.skip(i as int),
                ));
            }
            i = i + 1;
        }
        proof {
            assert(self@.skip(i as int) =~= Seq::<Seq<char>>::empty());
            assert(r@ + render(self@.skip(i as int)) =~= r@);
        }
        r
    }

    /// The acceptance gate's size check: the grid has exactly `h` rows and its
    /// first row has exactly `w` characters.
    pub fn is_valid(&self, h: usize, w: usize) -> (r: bool)
        requires
            self@.len() > 0,
        ensures
            r == (self@.len() == h && self@[0].len() == w),
    {
        self.0.len() == h && self.0[0].len() == w
    }

    /// A copy of the top label row.
    pub fn top_labels(&self) -> (r: Vec<char>)
        requires
            self@.len() > 0,
        ensures
            r@ == self@[0],
    {
        let row0 = &self.0[0];
        let mut r: Vec<char> = Vec::new();
        let mut j: usize = 0;
        while j < row0.len()
            invariant
                j <= row0@.len(),
                row0@ == self.0@[0]@,
                self@.len() > 0,
                r@ == self@[0].take(j as int),
            decreases row0@.len() - j,
        {
            r.push(row0[j]);
            j = j + 1;
        }
        assert(self@[0].take(j as int) =~= self@[0]);
        r
    }
}

} // verus!
