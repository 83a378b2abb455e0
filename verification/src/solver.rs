//! The deduction engine.
//!
//! Full solving is [`Solver::solve`]; stepping and hints are
//! [`Solver::next_step`] and [`Solver::hint`]. For interactive use see
//! [`crate::Session`].
use vstd::prelude::*;
use crate::analysis::{
    LineAnalysis, BlockInfo, consistent, covered, covers, valid_arrangement, line_ok, is_segments_of, settled,
    left_start, right_end,
};
use crate::clue::{Clues, LineId, clue_fits};
use crate::grid::{
    CellState, Color, Grid, GridMismatch, color_state, is_solution, agrees, board_line, has_runs,
    black_flags, board_unconfirmed, keeps_confirmed, lemma_board_unconfirmed_update,
    lemma_board_unconfirmed_le, board_complete, board_chars, board_lines, lines_text, state_char,
    render_board, cell_char, push_char,
};
use crate::rules::{
    Deduction, Reason, deduction_ok, emits_ok, range_sound, black_if_overlap, black_if_bounded,
    black_if_left_bounded, black_if_right_bounded, white_if_segment_complete, white_if_too_long,
    white_if_too_short, white_if_no_block_covers, run_rule, run_all_rules, RULE_COUNT, all_reports,
    rule_reports, rule_of,
};
use std::collections::VecDeque;
use std::ops::Range;

verus! {

/// The result of deducing as far as possible. Both are normal results: the
/// rules ran out without a contradiction. Not being able to solve a puzzle
/// uniquely is not an error.
#[derive(Clone, Copy, PartialEq, Eq, Debug, Structural)]
pub enum Outcome {
    /// Every cell was confirmed.
    Solved,
    /// No contradiction, but nothing more can be confirmed (there may be
    /// several solutions). The cells confirmed so far are in
    /// [`Solver::grid`].
    Stuck,
}

/// A contradiction found while deducing: the clues have no solution that
/// agrees with the board. Coordinates are board coordinates.
#[derive(Clone, Copy, PartialEq, Eq, Debug, Structural)]
pub enum Contradiction {
    /// A deduction on `line`, for `reason`, tried to paint cell
    /// `(row, col)` `attempted`, but it already holds the other colour
    /// `current`.
    CellConflict {
        /// The row of the cell.
        row: usize,
        /// The column of the cell.
        col: usize,
        /// The state the cell already had.
        current: CellState,
        /// The colour the deduction tried to paint.
        attempted: Color,
        /// The line whose deduction it was.
        line: LineId,
        /// The reason of that deduction.
        reason: Reason,
    },
    /// Block `block` of `line` fits nowhere on that line. This is a
    /// contradiction of the whole line, not of one cell.
    NoPlacement {
        /// The line.
        line: LineId,
        /// The block that does not fit (zero-based).
        block: usize,
    },
}

/// One painting step: the line it happened on, the deduction, and the cells
/// that it painted for the first time.
#[derive(PartialEq, Eq, Debug)]
pub struct Step {
    /// The line of the deduction.
    pub line: LineId,
    /// The deduction (range within the line, colour, reason).
    pub deduction: Deduction,
    /// The offsets within `deduction.range` of the cells that the step
    /// paints (those that did not have the colour yet), in order.
    pub changed: Vec<usize>,
}

/// The placement range and the size of one block, at the snapshot a hint was
/// computed from.
#[derive(PartialEq, Eq, Debug)]
pub struct HintBlock {
    /// The length of the block (the value in the clue).
    pub size: usize,
    /// The half-open range in which the whole block can lie.
    pub possible_placement: Range<usize>,
}

/// A hint that explains itself: the next step and the line context from the
/// same snapshot.
#[derive(PartialEq, Eq, Debug)]
pub struct Hint {
    /// The step that [`Solver::next_step`] takes next.
    pub step: Step,
    /// For each cell of `step.deduction.range`, in order, the range of blocks
    /// that could cover it.
    pub candidates: Vec<Range<usize>>,
    /// Every block of `step.line`, in the order of the clue.
    pub blocks: Vec<HintBlock>,
}

/// The rule-based engine: takes clues (and optionally a seed board) and
/// deduces. It offers no way to change the board from outside; use
/// [`crate::Session`] for interactive use.
pub struct Solver {
    clues: Clues,
    grid: Grid,
    /// Lines that may have more to deduce.
    dirty: VecDeque<LineId>,
    /// Whether a line is in `dirty` (indexed by [`Solver::ordinal`]).
    in_queue: Vec<bool>,
    steps: usize,
}

impl Clone for HintBlock {
    fn clone(&self) -> (res: Self)
        ensures
            res == *self,
    {
        HintBlock {
            size: self.size,
            possible_placement: self.possible_placement.start..self.possible_placement.end,
        }
    }
}

impl Clone for Step {
    fn clone(&self) -> (res: Self)
        ensures
            res.line == self.line,
            res.deduction == self.deduction,
            res.changed@ == self.changed@,
    {
        let mut changed: Vec<usize> = Vec::new();
        let mut i: usize = 0;
        while i < self.changed.len()
            invariant
                i <= self.changed@.len(),
                changed@ =~= self.changed@.take(i as int),
            decreases self.changed@.len() - i,
        {
            changed.push(self.changed[i]);
            i += 1;
        }
        Step { line: self.line, deduction: self.deduction.clone(), changed }
    }
}

impl Clone for Hint {
    fn clone(&self) -> (res: Self)
        ensures
            res.step.line == self.step.line,
            res.step.deduction == self.step.deduction,
            res.step.changed@ == self.step.changed@,
            res.candidates@ == self.candidates@,
            res.blocks@ == self.blocks@,
    {
        let mut candidates: Vec<Range<usize>> = Vec::new();
        let mut i: usize = 0;
        while i < self.candidates.len()
            invariant
                i <= self.candidates@.len(),
                candidates@ =~= self.candidates@.take(i as int),
            decreases self.candidates@.len() - i,
        {
            candidates.push(self.candidates[i].start..self.candidates[i].end);
            i += 1;
        }
        let mut blocks: Vec<HintBlock> = Vec::new();
        let mut i: usize = 0;
        while i < self.blocks.len()
            invariant
                i <= self.blocks@.len(),
                blocks@ =~= self.blocks@.take(i as int),
            decreases self.blocks@.len() - i,
        {
            blocks.push(self.blocks[i].clone());
            i += 1;
        }
        Hint { step: self.step.clone(), candidates, blocks }
    }
}

// ---------------------------------------------------------------------------
// Board-level facts

/// The cell `(r, c)` is cell `o` of `line` for some `o` in `range`.
pub open spec fn on_range(line: LineId, range: Range<usize>, r: int, c: int) -> bool {
    match line {
        LineId::Row(i) => r == i && range.start <= c < range.end,
        LineId::Col(j) => c == j && range.start <= r < range.end,
    }
}

/// `board` with the unconfirmed cells of `range` of `line` painted `color`.
pub open spec fn paint_range(
    board: Seq<Seq<CellState>>,
    line: LineId,
    range: Range<usize>,
    color: Color,
) -> Seq<Seq<CellState>> {
    Seq::new(
        board.len(),
        |r: int|
            Seq::new(
                board[r].len(),
                |c: int|
                    if on_range(line, range, r, c) && board[r][c] == CellState::Unconfirmed {
                        color_state(color)
                    } else {
                        board[r][c]
                    },
            ),
    )
}

/// The solution `board` has colour `color` on `range` of `line`.
pub open spec fn board_matches(board: Seq<Seq<CellState>>, width: nat, line: LineId, range: Range<usize>, color: Color) -> bool {
    forall|o: int| range.start <= o < range.end ==> #[trigger] board_line(board, width, line)[o] == color_state(color)
}

/// No solution of `clues` agrees with `grid`.
pub open spec fn unsolvable(clues: Clues, grid: Seq<Seq<CellState>>) -> bool {
    forall|board: Seq<Seq<CellState>>| #[trigger] is_solution(clues, board) ==> !agrees(board, grid)
}

/// Every solution of `clues` that agrees with `before` agrees with `after`.
pub open spec fn solutions_kept(clues: Clues, before: Seq<Seq<CellState>>, after: Seq<Seq<CellState>>) -> bool {
    forall|board: Seq<Seq<CellState>>|
        #[trigger] is_solution(clues, board) && agrees(board, before) ==> agrees(board, after)
}

/// The analysis `a` is the analysis of `line` of `grid` under `clues`: the
/// one that [`LineAnalysis::compute`] makes of it.
pub open spec fn analysis_of(a: LineAnalysis, clues: Clues, grid: Grid, line: LineId) -> bool {
    let sizes = clues.line_blocks(line);
    let cells = grid.line_view(line);
    &&& a.wf()
    &&& a.cells@ == cells
    &&& a.sizes() == sizes
    &&& a.candidates@ == settled(sizes, cells)
    &&& forall|id: int|
        0 <= id < sizes.len() ==> (#[trigger] a.blocks@[id]).possible_placement.start == left_start(
            sizes,
            cells,
            settled(sizes, cells),
            id,
        ) && a.blocks@[id].possible_placement.end == right_end(sizes, cells, settled(sizes, cells), id)
}

/// No rule deduces anything on `line` of `grid`: some analysis of the line
/// makes every rule report nothing.
pub open spec fn line_quiet(clues: Clues, grid: Grid, line: LineId) -> bool {
    exists|a: LineAnalysis| #[trigger] analysis_of(a, clues, grid, line) && all_reports(a).len() == 0
}

/// The rules have nothing more to deduce on any line of `grid`.
pub open spec fn rules_exhausted(clues: Clues, grid: Grid) -> bool {
    forall|line: LineId| #[trigger] clues.valid_line(line) ==> line_quiet(clues, grid, line)
}

/// A line whose cells did not change stays quiet.
proof fn lemma_quiet_same_view(clues: Clues, g1: Grid, g2: Grid, line: LineId)
    requires
        line_quiet(clues, g1, line),
        g2.line_view(line) == g1.line_view(line),
    ensures
        line_quiet(clues, g2, line),
{
    let a = choose|a: LineAnalysis| #[trigger] analysis_of(a, clues, g1, line) && all_reports(a).len() == 0;
    assert(analysis_of(a, clues, g2, line));
}

/// The solution `board` gives an arrangement of the blocks of `line` that
/// agrees with the cells of `grid` on that line and covers exactly the
/// black cells of the solution.
pub proof fn lemma_solution_line(clues: Clues, board: Seq<Seq<CellState>>, grid: Grid, line: LineId) -> (s: Seq<int>)
    requires
        is_solution(clues, board),
        grid.wf(),
        grid.spec_height() == clues.spec_height(),
        grid.spec_width() == clues.spec_width(),
        agrees(board, grid@),
        clues.valid_line(line),
    ensures
        consistent(clues.line_blocks(line), grid.line_view(line), s),
        grid.line_view(line).len() == board_line(board, clues.spec_width(), line).len(),
        forall|o: int|
            0 <= o < grid.line_view(line).len() ==> (#[trigger] covered(clues.line_blocks(line), s, o)
                <==> board_line(board, clues.spec_width(), line)[o] == CellState::Black),
{
    grid.lemma_view();
    let w = clues.spec_width();
    let bl = board_line(board, w, line);
    let gl = grid.line_view(line);
    let sizes = clues.line_blocks(line);
    let f = black_flags(bl);
    assert(has_runs(bl, sizes));
    let segs = choose|segs: Seq<(usize, usize)>|
        #![trigger is_segments_of(black_flags(bl), segs)]
        is_segments_of(black_flags(bl), segs) && segs.len() == sizes.len() && forall|k: int|
            0 <= k < segs.len() ==> #[trigger] sizes[k] == segs[k].1 - segs[k].0;
    let s = Seq::new(sizes.len(), |i: int| segs[i].0 as int);
    assert(gl.len() == bl.len());
    assert forall|i: int| 0 <= i < s.len() implies 0 <= #[trigger] s[i] && s[i] + sizes[i] <= gl.len() by {
        assert(sizes[i] == segs[i].1 - segs[i].0);
        assert(segs[i].0 < segs[i].1 <= f.len());
    }
    assert forall|x: int, y: int| 0 <= x < y < s.len() implies #[trigger] s[x] + sizes[x] < #[trigger] s[y] by {
        assert(sizes[x] == segs[x].1 - segs[x].0);
        assert(segs[x].1 < segs[y].0);
    }
    assert(valid_arrangement(sizes, gl.len() as int, s));
    assert forall|o: int| 0 <= o < gl.len() implies (#[trigger] covered(sizes, s, o) <==> bl[o] == CellState::Black) by {
        if covered(sizes, s, o) {
            let i = choose|i: int| 0 <= i < sizes.len() && #[trigger] covers(sizes, s, i, o);
            assert(sizes[i] == segs[i].1 - segs[i].0);
            assert(f[o]);
        }
        if bl[o] == CellState::Black {
            assert(f[o]);
            let k = choose|k: int| 0 <= k < segs.len() && (#[trigger] segs[k]).0 <= o < segs[k].1;
            assert(sizes[k] == segs[k].1 - segs[k].0);
            assert(covers(sizes, s, k, o));
        }
    }
    assert forall|id: int, j: int|
        0 <= id < sizes.len() && 0 <= j < gl.len() && #[trigger] covers(sizes, s, id, j) implies gl[j]
            != CellState::White by {
        assert(covered(sizes, s, j));
        assert(bl[j] == CellState::Black);
        match line {
            LineId::Row(i) => {
                assert(gl[j] == grid@[i as int][j]);
                assert(bl[j] == board[i as int][j]);
            },
            LineId::Col(c) => {
                assert(gl[j] == grid@[j][c as int]);
                assert(bl[j] == board[j][c as int]);
            },
        }
    }
    assert forall|j: int| #![trigger gl[j]] 0 <= j < gl.len() && gl[j] == CellState::Black implies covered(sizes, s, j) by {
        match line {
            LineId::Row(i) => {
                assert(gl[j] == grid@[i as int][j]);
                assert(bl[j] == board[i as int][j]);
            },
            LineId::Col(c) => {
                assert(gl[j] == grid@[j][c as int]);
                assert(bl[j] == board[j][c as int]);
            },
        }
    }
    s
}

/// A deduction on the analysis of a line holds in every solution that agrees
/// with the board.
pub proof fn lemma_deduction_holds(
    clues: Clues,
    board: Seq<Seq<CellState>>,
    grid: Grid,
    line: LineId,
    a: LineAnalysis,
    d: Deduction,
)
    requires
        is_solution(clues, board),
        grid.wf(),
        grid.spec_height() == clues.spec_height(),
        grid.spec_width() == clues.spec_width(),
        agrees(board, grid@),
        clues.valid_line(line),
        analysis_of(a, clues, grid, line),
        deduction_ok(a, d),
    ensures
        board_matches(board, clues.spec_width(), line, d.range, d.color),
{
    let s = lemma_solution_line(clues, board, grid, line);
    let w = clues.spec_width();
    assert forall|o: int| d.range.start <= o < d.range.end implies #[trigger] board_line(board, w, line)[o]
        == color_state(d.color) by {
        assert(covered(a.sizes(), s, o) == (d.color == Color::Black));
        assert(covered(clues.line_blocks(line), s, o) <==> board_line(board, w, line)[o] == CellState::Black);
        match line {
            LineId::Row(i) => {
                assert(board_line(board, w, line)[o] == board[i as int][o]);
                assert(board_complete(board));
                assert(board[i as int][o] != CellState::Unconfirmed);
            },
            LineId::Col(c) => {
                assert(board_line(board, w, line)[o] == board[o][c as int]);
                assert(board_complete(board));
                assert(board[o][c as int] != CellState::Unconfirmed);
            },
        }
    }
}

/// No solution agrees with a board one of whose lines has no arrangement.
pub proof fn lemma_no_arrangement_unsolvable(clues: Clues, grid: Grid, line: LineId)
    requires
        grid.wf(),
        grid.spec_height() == clues.spec_height(),
        grid.spec_width() == clues.spec_width(),
        clues.valid_line(line),
        forall|s: Seq<int>| !consistent(clues.line_blocks(line), grid.line_view(line), s),
    ensures
        unsolvable(clues, grid@),
{
    assert forall|board: Seq<Seq<CellState>>| #[trigger] is_solution(clues, board) implies !agrees(board, grid@) by {
        if agrees(board, grid@) {
            let s = lemma_solution_line(clues, board, grid, line);
        }
    }
}

/// A complete board reached without losing a solution is that solution.
///
/// When a solution agrees with the board a solve started from, and the
/// solve ended on a complete board (`Solved`), the final board is that very
/// solution: it satisfies the clues, and no other solution agrees with the
/// start.
pub proof fn law_complete_board_is_the_solution(
    clues: Clues,
    before: Seq<Seq<CellState>>,
    after: Grid,
    board: Seq<Seq<CellState>>,
)
    requires
        after.wf(),
        after.spec_height() == clues.spec_height(),
        after.spec_width() == clues.spec_width(),
        after.spec_complete(),
        solutions_kept(clues, before, after@),
        is_solution(clues, board),
        agrees(board, before),
    ensures
        board == after@,
        is_solution(clues, after@),
{
    after.lemma_view();
    assert(agrees(board, after@));
    assert forall|r: int| 0 <= r < board.len() implies #[trigger] board[r] == after@[r] by {
        assert forall|c: int| 0 <= c < board[r].len() implies board[r][c] == after@[r][c] by {
            assert(after@[r][c] != CellState::Unconfirmed);
        }
        assert(board[r] =~= after@[r]);
    }
    assert(board =~= after@);
}


// ---------------------------------------------------------------------------
// The solver

/// The place of `line` among all lines: rows are `0..height`, columns
/// `height..height + width`.
pub open spec fn line_ordinal(clues: Clues, line: LineId) -> int {
    match line {
        LineId::Row(i) => i as int,
        LineId::Col(j) => clues.spec_height() + j,
    }
}

/// Every line of the board is at its ordinal in the list of all lines.
proof fn lemma_line_ordinal(clues: Clues, line: LineId)
    requires
        clues.valid_line(line),
    ensures
        0 <= line_ordinal(clues, line) < clues.spec_lines().len(),
        clues.spec_lines()[line_ordinal(clues, line)] == line,
{
}

// ---------------------------------------------------------------------------
// The course of a solve
//
// `solve` looks at the lines on its list one after the other. The spec
// functions below follow that course step by step over plain values, so
// that the contract of `solve` can say exactly where it ends: on which
// board, with which list, and with which contradiction if any.

/// What a solver holds while it solves: the board, the list of lines still
/// to look at, which lines are on that list (by [`line_ordinal`]), and the
/// number of steps applied.
#[verifier::ext_equal]
pub struct Progress {
    /// The board, row by row.
    pub grid: Seq<Seq<CellState>>,
    /// The lines still to look at, in order.
    pub dirty: Seq<LineId>,
    /// Whether the line of each ordinal is on the list.
    pub in_queue: Seq<bool>,
    /// The steps applied so far.
    pub steps: nat,
}

/// `p` with `line` put at the end of the list, unless it is on it already.
pub open spec fn mark_line(clues: Clues, p: Progress, line: LineId) -> Progress {
    let k = line_ordinal(clues, line);
    if p.in_queue[k] {
        p
    } else {
        Progress { dirty: p.dirty.push(line), in_queue: p.in_queue.update(k, true), ..p }
    }
}

/// Painting deduction `d` on `line` from offset `offset` on, where `changed`
/// tells whether a cell was painted before `offset`. Each cell that was
/// unconfirmed is painted and its crossing line put on the list; a cell of
/// the other colour stops the painting with a conflict there. When a cell
/// was painted, the step is counted and `line` put on the list.
pub open spec fn paint_from(
    clues: Clues,
    p: Progress,
    line: LineId,
    d: Deduction,
    offset: int,
    changed: bool,
) -> (Result<bool, Contradiction>, Progress)
    decreases d.range.end - offset,
{
    if offset >= d.range.end {
        if changed {
            (Ok(true), mark_line(clues, Progress { steps: p.steps + 1, ..p }, line))
        } else {
            (Ok(false), p)
        }
    } else {
        let r = line.cell_at(offset).0 as int;
        let c = line.cell_at(offset).1 as int;
        let current = p.grid[r][c];
        if current == CellState::Unconfirmed {
            let painted = Progress { grid: p.grid.update(r, p.grid[r].update(c, color_state(d.color))), ..p };
            paint_from(clues, mark_line(clues, painted, line.crossing(offset)), line, d, offset + 1, true)
        } else if current == color_state(d.color) {
            paint_from(clues, p, line, d, offset + 1, changed)
        } else {
            (
                Err(
                    Contradiction::CellConflict {
                        row: r as usize,
                        col: c as usize,
                        current,
                        attempted: d.color,
                        line,
                        reason: d.reason,
                    },
                ),
                p,
            )
        }
    }
}

/// Applying deduction `d` to `line`.
pub open spec fn apply_step(clues: Clues, p: Progress, line: LineId, d: Deduction) -> (
    Result<bool, Contradiction>,
    Progress,
) {
    paint_from(clues, p, line, d, d.range.start as int, false)
}

/// Applying deductions `ds[i..]` to `line` in order, stopping at the first
/// conflict.
pub open spec fn apply_from(clues: Clues, p: Progress, line: LineId, ds: Seq<Deduction>, i: int) -> (
    Result<(), Contradiction>,
    Progress,
)
    decreases ds.len() - i,
{
    if i >= ds.len() {
        (Ok(()), p)
    } else {
        let (r, q) = apply_step(clues, p, line, ds[i]);
        match r {
            Err(e) => (Err(e), q),
            Ok(_) => apply_from(clues, q, line, ds, i + 1),
        }
    }
}

/// `a` is the analysis of a line with clue `sizes` and cells `cells`
/// (as [`analysis_of`] says of a line of a board).
pub open spec fn analysis_matches(a: LineAnalysis, sizes: Seq<usize>, cells: Seq<CellState>) -> bool {
    &&& a.wf()
    &&& a.cells@ == cells
    &&& a.sizes() == sizes
    &&& a.candidates@ == settled(sizes, cells)
    &&& forall|id: int|
        0 <= id < sizes.len() ==> (#[trigger] a.blocks@[id]).possible_placement.start == left_start(
            sizes,
            cells,
            settled(sizes, cells),
            id,
        ) && a.blocks@[id].possible_placement.end == right_end(sizes, cells, settled(sizes, cells), id)
}

/// What looking at `line` of the board `g` gives: the deductions of all
/// rules in order, or the first block that fits nowhere.
pub open spec fn line_outcome(clues: Clues, g: Seq<Seq<CellState>>, line: LineId) -> Result<Seq<Deduction>, usize> {
    let sizes = clues.line_blocks(line);
    let cells = board_line(g, clues.spec_width(), line);
    if line_analyzable(sizes, cells) {
        Ok(all_reports(choose|a: LineAnalysis| analysis_matches(a, sizes, cells)))
    } else {
        Err((choose|b: int| first_unfit(sizes, cells, b)) as usize)
    }
}

/// `p` with the first line of its list taken off.
pub open spec fn take_line(clues: Clues, p: Progress) -> Progress {
    Progress {
        dirty: p.dirty.drop_first(),
        in_queue: p.in_queue.update(line_ordinal(clues, p.dirty[0]), false),
        ..p
    }
}

/// One round of a solve: take the first line off the list, look at it, and
/// apply what the rules deduce on it.
pub open spec fn solve_round(clues: Clues, p: Progress) -> (Result<(), Contradiction>, Progress) {
    let line = p.dirty[0];
    let q = take_line(clues, p);
    match line_outcome(clues, q.grid, line) {
        Err(block) => (Err(Contradiction::NoPlacement { line, block }), q),
        Ok(ds) => apply_from(clues, q, line, ds, 0),
    }
}

/// At most `n` rounds from `p`: the result so far, where it stands, and
/// whether the solve is over (the list ran empty, or a contradiction came).
pub open spec fn solve_rounds(clues: Clues, p: Progress, n: nat) -> (Result<(), Contradiction>, Progress, bool)
    decreases n,
{
    if p.dirty.len() == 0 {
        (Ok(()), p, true)
    } else if n == 0 {
        (Ok(()), p, false)
    } else {
        let (r, q) = solve_round(clues, p);
        match r {
            Err(e) => (Err(e), q, true),
            Ok(_) => solve_rounds(clues, q, (n - 1) as nat),
        }
    }
}

/// A solve from `p` ends with result `r` at `q`.
pub open spec fn solve_ends(clues: Clues, p: Progress, r: Result<(), Contradiction>, q: Progress) -> bool {
    exists|n: nat| #[trigger] solve_rounds(clues, p, n) == (r, q, true)
}

/// Whether a solve succeeded, without its outcome.
pub open spec fn solve_status(res: Result<Outcome, Contradiction>) -> Result<(), Contradiction> {
    match res {
        Ok(_) => Ok(()),
        Err(e) => Err(e),
    }
}

/// Where a solver for `clues` seeded with the board `g` starts: every line
/// on the list, rows first, and no step counted.
pub open spec fn fresh_progress(clues: Clues, g: Seq<Seq<CellState>>) -> Progress {
    Progress {
        grid: g,
        dirty: clues.spec_lines(),
        in_queue: Seq::new(clues.spec_lines().len(), |i: int| true),
        steps: 0,
    }
}

/// Once a solve is over, more rounds change nothing.
proof fn lemma_rounds_stable(clues: Clues, p: Progress, n: nat, m: nat)
    requires
        solve_rounds(clues, p, n).2,
        n <= m,
    ensures
        solve_rounds(clues, p, m) == solve_rounds(clues, p, n),
    decreases n,
{
    if p.dirty.len() != 0 && n != 0 {
        let (r, q) = solve_round(clues, p);
        if r is Ok {
            lemma_rounds_stable(clues, q, (n - 1) as nat, (m - 1) as nat);
        }
    }
}

/// A solve from a given state ends in one way only: its course is
/// determined by where it starts.
pub proof fn law_solve_end_unique(
    clues: Clues,
    p: Progress,
    r1: Result<(), Contradiction>,
    q1: Progress,
    r2: Result<(), Contradiction>,
    q2: Progress,
)
    requires
        solve_ends(clues, p, r1, q1),
        solve_ends(clues, p, r2, q2),
    ensures
        r1 == r2,
        q1 == q2,
{
    let n1 = choose|n: nat| #[trigger] solve_rounds(clues, p, n) == (r1, q1, true);
    let n2 = choose|n: nat| #[trigger] solve_rounds(clues, p, n) == (r2, q2, true);
    if n1 <= n2 {
        lemma_rounds_stable(clues, p, n1, n2);
    } else {
        lemma_rounds_stable(clues, p, n2, n1);
    }
}

/// A solve from the board `start` on a fresh solver for `clues` ends on the
/// board `board` without a contradiction.
pub open spec fn solves_to(clues: Clues, start: Seq<Seq<CellState>>, board: Seq<Seq<CellState>>) -> bool {
    exists|p: Progress| #[trigger] solve_ends(clues, fresh_progress(clues, start), Ok(()), p) && p.grid == board
}

/// A solve from the board `start` on a fresh solver for `clues` ends with
/// the contradiction `e`.
pub open spec fn solve_fails_with(clues: Clues, start: Seq<Seq<CellState>>, e: Contradiction) -> bool {
    exists|p: Progress| #[trigger] solve_ends(clues, fresh_progress(clues, start), Err(e), p)
}

proof fn lemma_paint_same_clues(
    c1: Clues,
    c2: Clues,
    p: Progress,
    line: LineId,
    d: Deduction,
    offset: int,
    changed: bool,
)
    requires
        c1.row_clues() == c2.row_clues(),
        c1.col_clues() == c2.col_clues(),
    ensures
        paint_from(c1, p, line, d, offset, changed) == paint_from(c2, p, line, d, offset, changed),
    decreases d.range.end - offset,
{
    if offset < d.range.end {
        let r = line.cell_at(offset).0 as int;
        let c = line.cell_at(offset).1 as int;
        let painted = Progress { grid: p.grid.update(r, p.grid[r].update(c, color_state(d.color))), ..p };
        assert(mark_line(c1, painted, line.crossing(offset)) == mark_line(c2, painted, line.crossing(offset)));
        lemma_paint_same_clues(c1, c2, mark_line(c1, painted, line.crossing(offset)), line, d, offset + 1, true);
        lemma_paint_same_clues(c1, c2, p, line, d, offset + 1, changed);
    }
}

proof fn lemma_apply_same_clues(c1: Clues, c2: Clues, p: Progress, line: LineId, ds: Seq<Deduction>, i: int)
    requires
        c1.row_clues() == c2.row_clues(),
        c1.col_clues() == c2.col_clues(),
    ensures
        apply_from(c1, p, line, ds, i) == apply_from(c2, p, line, ds, i),
    decreases ds.len() - i,
{
    if i < ds.len() {
        lemma_paint_same_clues(c1, c2, p, line, ds[i], ds[i].range.start as int, false);
        let (r, q) = apply_step(c1, p, line, ds[i]);
        lemma_apply_same_clues(c1, c2, q, line, ds, i + 1);
    }
}

/// The course of a solve depends on the clues only through their rows and
/// columns.
pub proof fn lemma_rounds_same_clues(c1: Clues, c2: Clues, p: Progress, n: nat)
    requires
        c1.row_clues() == c2.row_clues(),
        c1.col_clues() == c2.col_clues(),
    ensures
        solve_rounds(c1, p, n) == solve_rounds(c2, p, n),
        fresh_progress(c1, p.grid) == fresh_progress(c2, p.grid),
    decreases n,
{
    if p.dirty.len() != 0 && n != 0 {
        let line = p.dirty[0];
        let q = take_line(c1, p);
        assert(q == take_line(c2, p));
        assert(line_outcome(c1, q.grid, line) == line_outcome(c2, q.grid, line));
        if let Ok(ds) = line_outcome(c1, q.grid, line) {
            lemma_apply_same_clues(c1, c2, q, line, ds, 0);
        }
        let (r, q2) = solve_round(c1, p);
        lemma_rounds_same_clues(c1, c2, q2, (n - 1) as nat);
    }
}

/// Where a solve from `p` ends does not depend on which copy of the same
/// clues it runs with.
pub proof fn lemma_ends_same_clues(c1: Clues, c2: Clues, p: Progress, r: Result<(), Contradiction>, q: Progress)
    requires
        c1.row_clues() == c2.row_clues(),
        c1.col_clues() == c2.col_clues(),
        solve_ends(c2, p, r, q),
    ensures
        solve_ends(c1, p, r, q),
{
    let n = choose|n: nat| #[trigger] solve_rounds(c2, p, n) == (r, q, true);
    lemma_rounds_same_clues(c1, c2, p, n);
}

/// Looking at a line that analyses gives exactly the reports of its
/// analysis.
proof fn lemma_outcome_ok(clues: Clues, grid: Grid, line: LineId, a: LineAnalysis)
    requires
        analysis_of(a, clues, grid, line),
        grid.spec_width() == clues.spec_width(),
    ensures
        line_outcome(clues, grid@, line) == Ok::<Seq<Deduction>, usize>(all_reports(a)),
{
    let sizes = clues.line_blocks(line);
    let cells = board_line(grid@, clues.spec_width(), line);
    assert(analysis_matches(a, sizes, cells));
    assert forall|id: int| 0 <= id < sizes.len() implies left_start(sizes, cells, settled(sizes, cells), id)
        + sizes[id] <= #[trigger] right_end(sizes, cells, settled(sizes, cells), id) by {
        assert(a.sizes()[id] == a.blocks@[id].size);
        assert(a.blocks@[id].possible_placement.start + a.blocks@[id].size <= a.blocks@[id].possible_placement.end);
    }
    let b = choose|b: LineAnalysis| analysis_matches(b, sizes, cells);
    assert(analysis_of(b, clues, grid, line));
    lemma_analysis_unique(a, b, clues, grid, line);
    crate::rules::lemma_reports_same(a, b);
}

/// Looking at a line that does not analyse gives its first block that fits
/// nowhere.
proof fn lemma_outcome_err(clues: Clues, grid: Grid, line: LineId, block: usize)
    requires
        !line_analyzable(clues.line_blocks(line), grid.line_view(line)),
        first_unfit(clues.line_blocks(line), grid.line_view(line), block as int),
        grid.spec_width() == clues.spec_width(),
    ensures
        line_outcome(clues, grid@, line) == Err::<Seq<Deduction>, usize>(block),
{
    let sizes = clues.line_blocks(line);
    let cells = grid.line_view(line);
    let b = choose|b: int| first_unfit(sizes, cells, b);
    assert(first_unfit(sizes, cells, b));
    if b < block {
        assert(left_start(sizes, cells, settled(sizes, cells), b) + sizes[b] <= right_end(
            sizes,
            cells,
            settled(sizes, cells),
            b,
        ));
    } else if block < b {
        assert(left_start(sizes, cells, settled(sizes, cells), block as int) + sizes[block as int] <= right_end(
            sizes,
            cells,
            settled(sizes, cells),
            block as int,
        ));
    }
}

/// Rounds over a board where no rule deduces anything take every line off
/// the list and change nothing else that counts.
proof fn lemma_quiet_rounds(clues: Clues, p: Progress, grid: Grid)
    requires
        p.grid == grid@,
        grid.spec_width() == clues.spec_width(),
        rules_exhausted(clues, grid),
        forall|i: int| 0 <= i < p.dirty.len() ==> clues.valid_line(#[trigger] p.dirty[i]),
    ensures
        solve_rounds(clues, p, p.dirty.len()).0 == Ok::<(), Contradiction>(()),
        solve_rounds(clues, p, p.dirty.len()).1.grid == grid@,
        solve_rounds(clues, p, p.dirty.len()).2,
    decreases p.dirty.len(),
{
    if p.dirty.len() > 0 {
        let line = p.dirty[0];
        assert(clues.valid_line(line));
        assert(line_quiet(clues, grid, line));
        let a = choose|a: LineAnalysis| #[trigger] analysis_of(a, clues, grid, line) && all_reports(a).len() == 0;
        lemma_outcome_ok(clues, grid, line, a);
        let q = take_line(clues, p);
        assert(apply_from(clues, q, line, all_reports(a), 0) == (Ok::<(), Contradiction>(()), q));
        assert(solve_round(clues, p) == (Ok::<(), Contradiction>(()), q));
        assert forall|i: int| 0 <= i < q.dirty.len() implies clues.valid_line(#[trigger] q.dirty[i]) by {
            assert(q.dirty[i] == p.dirty[i + 1]);
        }
        lemma_quiet_rounds(clues, q, grid);
        assert(solve_rounds(clues, p, p.dirty.len()) == solve_rounds(clues, q, q.dirty.len()));
    }
}

/// A solve leaves alone a board where no rule deduces anything, such as
/// the board that stepping with [`Solver::next_step`] stops at; and
/// stepping takes no step on the board where a solve from a new solver
/// ends (by the contract of `solve`). Each of the two ways of solving stops
/// on the board where the other one stops.
pub proof fn law_solve_keeps_quiet_board(clues: Clues, grid: Grid)
    requires
        clues.wf(),
        clues.fits_machine(),
        grid.wf(),
        grid.spec_height() == clues.spec_height(),
        grid.spec_width() == clues.spec_width(),
        rules_exhausted(clues, grid),
    ensures
        solves_to(clues, grid@, grid@),
{
    let p = fresh_progress(clues, grid@);
    assert forall|i: int| 0 <= i < p.dirty.len() implies clues.valid_line(#[trigger] p.dirty[i]) by {}
    lemma_quiet_rounds(clues, p, grid);
    let r = solve_rounds(clues, p, p.dirty.len());
    assert(solve_ends(clues, p, Ok(()), r.1));
}

/// After a round that went through, the course from the start goes on as
/// the course from where the round ended.
proof fn lemma_rounds_shift(clues: Clues, p0: Progress, k: nat, p: Progress, q: Progress)
    requires
        p.dirty.len() > 0,
        solve_round(clues, p) == (Ok::<(), Contradiction>(()), q),
        forall|m: nat| #[trigger] solve_rounds(clues, p, m) == solve_rounds(clues, p0, k + m),
    ensures
        forall|m: nat| #[trigger] solve_rounds(clues, q, m) == solve_rounds(clues, p0, (k + 1) + m),
{
    assert forall|m: nat| #[trigger] solve_rounds(clues, q, m) == solve_rounds(clues, p0, (k + 1) + m) by {
        assert(solve_rounds(clues, p, (m + 1) as nat) == solve_rounds(clues, q, m));
        assert(k + (m + 1) == (k + 1) + m);
    }
}

impl Solver {
    /// The clues.
    pub closed spec fn spec_clues(self) -> Clues {
        self.clues
    }

    /// The board.
    pub closed spec fn spec_grid(self) -> Grid {
        self.grid
    }

    /// The number of steps applied so far.
    pub closed spec fn spec_steps(self) -> nat {
        self.steps as nat
    }

    /// Where the solver stands: its board, its list of lines to look at,
    /// and its step count.
    pub closed spec fn model(self) -> Progress {
        Progress { grid: self.grid@, dirty: self.dirty@, in_queue: self.in_queue@, steps: self.steps as nat }
    }

    /// The clues are valid, the board has their dimensions, and every line
    /// still to be looked at lies on the board.
    pub closed spec fn wf(self) -> bool {
        let h = self.clues.spec_height();
        let w = self.clues.spec_width();
        &&& self.clues.wf()
        &&& self.clues.fits_machine()
        &&& self.grid.wf()
        &&& self.grid.spec_height() == h
        &&& self.grid.spec_width() == w
        &&& self.in_queue@.len() == h + w
        &&& forall|i: int| 0 <= i < self.dirty@.len() ==> self.clues.valid_line(#[trigger] self.dirty@[i])
        &&& forall|l: LineId|
            #![trigger line_ordinal(self.clues, l)]
            self.clues.valid_line(l) && self.in_queue@[line_ordinal(self.clues, l)] ==> self.dirty@.contains(l)
        &&& self.steps + board_unconfirmed(self.grid@) <= h * w
    }

    /// Every line is still on the list of lines to look at, or no rule
    /// deduces anything on it. A new solver starts so, and every call that
    /// succeeds keeps it so.
    pub closed spec fn queue_complete(self) -> bool {
        forall|l: LineId|
            #[trigger] self.clues.valid_line(l) ==> self.dirty@.contains(l) || line_quiet(self.clues, self.grid, l)
    }

    /// What the well-formedness of a solver gives its users.
    pub proof fn lemma_parts(self)
        requires
            self.wf(),
        ensures
            self.spec_clues().wf(),
            self.spec_clues().fits_machine(),
            self.spec_grid().wf(),
            self.spec_grid().spec_height() == self.spec_clues().spec_height(),
            self.spec_grid().spec_width() == self.spec_clues().spec_width(),
            self.model().grid == self.spec_grid()@,
            self.model().steps == self.spec_steps(),
    {
    }

    /// A solver for `clues` with every cell unconfirmed.
    ///
    /// The clues were validated by [`Clues::new`], so this cannot fail.
    pub fn new(clues: Clues) -> (res: Self)
        requires
            clues.wf(),
            clues.fits_machine(),
        ensures
            res.wf(),
            res.spec_clues() == clues,
            res.spec_steps() == 0,
            res.queue_complete(),
            res.model().dirty == clues.spec_lines(),
            res.model() == fresh_progress(clues, res.spec_grid()@),
            res.spec_grid().spec_height() == clues.spec_height(),
            res.spec_grid().spec_width() == clues.spec_width(),
            forall|r: int, c: int|
                0 <= r < clues.spec_height() && 0 <= c < clues.spec_width() ==> #[trigger] res.spec_grid().at(r, c)
                    == CellState::Unconfirmed,
    {
        let grid = Grid::new(clues.height(), clues.width());
        Self::from_parts(clues, grid)
    }

    /// A solver seeded with a board whose confirmed cells are taken as
    /// given.
    ///
    /// Checks that the board has the height and then the width of the
    /// clues. Whether the seed contradicts the clues is not checked here:
    /// [`Solver::solve`] and [`Solver::hint`] find that out.
    pub fn with_grid(clues: Clues, grid: Grid) -> (res: Result<Self, GridMismatch>)
        requires
            clues.wf(),
            clues.fits_machine(),
            grid.wf(),
        ensures
            match res {
                Ok(s) => {
                    &&& grid.spec_height() == clues.spec_height()
                    &&& grid.spec_width() == clues.spec_width()
                    &&& s.wf()
                    &&& s.spec_clues() == clues
                    &&& s.spec_grid() == grid
                    &&& s.spec_steps() == 0
                    &&& s.queue_complete()
                    &&& s.model() == fresh_progress(clues, grid@)
                },
                Err(e) => if grid.spec_height() != clues.spec_height() {
                    e == (GridMismatch::HeightMismatch {
                        expected: clues.spec_height() as usize,
                        actual: grid.spec_height() as usize,
                    })
                } else {
                    &&& grid.spec_width() != clues.spec_width()
                    &&& e == (GridMismatch::WidthMismatch {
                        expected: clues.spec_width() as usize,
                        actual: grid.spec_width() as usize,
                    })
                },
            },
    {
        if grid.height() != clues.height() {
            return Err(GridMismatch::HeightMismatch { expected: clues.height(), actual: grid.height() });
        }
        if grid.width() != clues.width() {
            return Err(GridMismatch::WidthMismatch { expected: clues.width(), actual: grid.width() });
        }
        Ok(Self::from_parts(clues, grid))
    }

    /// Starts with every line to be looked at, so that the first pass also
    /// takes in the seed board.
    fn from_parts(clues: Clues, grid: Grid) -> (res: Self)
        requires
            clues.wf(),
            clues.fits_machine(),
            grid.wf(),
            grid.spec_height() == clues.spec_height(),
            grid.spec_width() == clues.spec_width(),
        ensures
            res.wf(),
            res.spec_clues() == clues,
            res.spec_grid() == grid,
            res.spec_steps() == 0,
            res.queue_complete(),
            res.model() == fresh_progress(clues, grid@),
    {
        let lines = clues.lines();
        let mut dirty: VecDeque<LineId> = VecDeque::new();
        let mut k: usize = 0;
        while k < lines.len()
            invariant
                lines@ == clues.spec_lines(),
                k <= lines@.len(),
                dirty@ =~= lines@.take(k as int),
            decreases lines@.len() - k,
        {
            dirty.push_back(lines[k]);
            k += 1;
        }
        let total = clues.height() + clues.width();
        let mut in_queue: Vec<bool> = Vec::new();
        let mut k: usize = 0;
        while k < total
            invariant
                k <= total,
                in_queue@.len() == k,
                forall|i: int| 0 <= i < k ==> in_queue@[i],
            decreases total - k,
        {
            in_queue.push(true);
            k += 1;
        }
        proof {
            grid.lemma_view();
            lemma_board_unconfirmed_le(grid@, grid.spec_width());
            assert forall|i: int| 0 <= i < dirty@.len() implies clues.valid_line(#[trigger] dirty@[i]) by {
                assert(dirty@[i] == lines@[i]);
            }
            assert forall|l: LineId| #[trigger] clues.valid_line(l) implies dirty@.contains(l) by {
                lemma_line_ordinal(clues, l);
                assert(dirty@[line_ordinal(clues, l)] == l);
            }
        }
        let res = Solver { clues, grid, dirty, in_queue, steps: 0 };
        proof {
            assert(res.model() =~= fresh_progress(clues, grid@));
        }
        res
    }

    /// The index of `line` in `in_queue`: rows are `0..height`, columns
    /// `height..height + width`.
    fn ordinal(&self, line: LineId) -> (res: usize)
        requires
            self.clues.fits_machine(),
            self.in_queue@.len() == self.clues.spec_height() + self.clues.spec_width(),
            self.clues.valid_line(line),
        ensures
            res < self.in_queue@.len(),
            res == line_ordinal(self.clues, line),
    {
        match line {
            LineId::Row(i) => i,
            LineId::Col(j) => self.clues.height() + j,
        }
    }

    fn mark_dirty(&mut self, line: LineId)
        requires
            old(self).wf(),
            old(self).clues.valid_line(line),
        ensures
            final(self).wf(),
            final(self).clues == old(self).clues,
            final(self).grid == old(self).grid,
            final(self).steps == old(self).steps,
            final(self).dirty@.contains(line),
            forall|l: LineId| old(self).dirty@.contains(l) ==> #[trigger] final(self).dirty@.contains(l),
            final(self).model() == mark_line(old(self).clues, old(self).model(), line),
    {
        let ordinal = self.ordinal(line);
        if !self.in_queue[ordinal] {
            let ghost d0 = self.dirty@;
            let ghost q0 = self.in_queue@;
            self.in_queue.set(ordinal, true);
            self.dirty.push_back(line);
            proof {
                assert(self.dirty@ == d0.push(line));
                assert(self.in_queue@ == q0.update(ordinal as int, true));
                assert(self.model() =~= mark_line(self.clues, old(self).model(), line));
                assert(self.dirty@[d0.len() as int] == line);
                assert forall|l: LineId| d0.contains(l) implies #[trigger] self.dirty@.contains(l) by {
                    let i = choose|i: int| 0 <= i < d0.len() && d0[i] == l;
                    assert(self.dirty@[i] == l);
                }
                assert forall|l: LineId|
                    #![trigger line_ordinal(self.clues, l)]
                    self.clues.valid_line(l) && self.in_queue@[line_ordinal(self.clues, l)] implies self.dirty@.contains(l) by {
                    if l != line {
                        assert(line_ordinal(self.clues, l) != line_ordinal(self.clues, line));
                        assert(d0.contains(l));
                    }
                }
            }
        }
    }

    /// Applies deduction `d` to `line`. Each newly painted cell puts the
    /// crossing line back on the list; when a cell was painted, so is
    /// `line` itself (its own analysis may narrow further). A cell of the
    /// other colour stops it there: the cells before it stay painted, the
    /// step is not counted, and the conflict names that cell.
    #[verifier::spinoff_prover]
    #[verifier::rlimit(60)]
    fn apply(&mut self, line: LineId, d: &Deduction) -> (res: Result<bool, Contradiction>)
        requires
            old(self).wf(),
            old(self).clues.valid_line(line),
            d.range.end <= old(self).clues.spec_line_len(line),
        ensures
            final(self).wf(),
            final(self).clues == old(self).clues,
            keeps_confirmed(old(self).grid@, final(self).grid@),
            (res, final(self).model()) == apply_step(old(self).clues, old(self).model(), line, *d),
            match res {
                Ok(changed) => {
                    &&& final(self).grid@ == paint_range(old(self).grid@, line, d.range, d.color)
                    &&& forall|r: int, c: int|
                        on_range(line, d.range, r, c) && 0 <= r < old(self).clues.spec_height() && 0 <= c
                            < old(self).clues.spec_width() && #[trigger] old(self).grid@[r][c]
                            != CellState::Unconfirmed ==> old(self).grid@[r][c] == color_state(d.color)
                    &&& changed ==> board_unconfirmed(final(self).grid@) < board_unconfirmed(
                        old(self).grid@,
                    )
                    &&& changed ==> final(self).steps == old(self).steps + 1
                    &&& !changed ==> final(self).grid@ == old(self).grid@ && final(self).dirty@
                        == old(self).dirty@ && final(self).steps == old(self).steps
                    &&& changed ==> final(self).dirty@.contains(line)
                    &&& forall|l: LineId| old(self).dirty@.contains(l) ==> #[trigger] final(self).dirty@.contains(l)
                    &&& forall|l: LineId|
                        #[trigger] old(self).clues.valid_line(l) ==> final(self).dirty@.contains(l)
                            || final(self).grid.line_view(l) == old(self).grid.line_view(l)
                },
                Err(e) => {
                    &&& exists|r: int, c: int|
                        #![trigger old(self).grid@[r][c]]
                        {
                            &&& on_range(line, d.range, r, c)
                            &&& 0 <= r < old(self).clues.spec_height()
                            &&& 0 <= c < old(self).clues.spec_width()
                            &&& old(self).grid@[r][c] != CellState::Unconfirmed
                            &&& old(self).grid@[r][c] != color_state(d.color)
                            &&& e == (Contradiction::CellConflict {
                                row: r as usize,
                                col: c as usize,
                                current: old(self).grid@[r][c],
                                attempted: d.color,
                                line,
                                reason: d.reason,
                            })
                        }
                    // the conflict is the first one of the range: the cells
                    // before it are painted, the later ones untouched
                    &&& exists|o: int|
                        #![trigger conflict_at(old(self).grid@, line, *d, e, o)]
                        {
                            &&& conflict_at(old(self).grid@, line, *d, e, o)
                            &&& final(self).grid@ == paint_range(
                                old(self).grid@,
                                line,
                                d.range.start..o as usize,
                                d.color,
                            )
                        }
                    &&& final(self).steps == old(self).steps
                },
            },
    {
        let ghost g0 = self.grid@;
        let ghost h = self.clues.spec_height();
        let ghost w = self.clues.spec_width();
        proof {
            self.grid.lemma_view();
        }
        let mut changed = false;
        let mut offset = d.range.start;
        assert(paint_range(g0, line, d.range.start..offset, d.color) =~~= g0);
        while offset < d.range.end
            invariant
                self.wf(),
                self.clues == old(self).clues,
                self.steps == old(self).steps,
                h == self.clues.spec_height(),
                w == self.clues.spec_width(),
                g0 == old(self).grid@,
                g0.len() == h,
                forall|r: int| 0 <= r < h ==> (#[trigger] g0[r]).len() == w,
                self.clues.valid_line(line),
                d.range.end <= self.clues.spec_line_len(line),
                d.range.start <= offset,
                offset <= d.range.end || offset == d.range.start,
                self.grid@ == paint_range(g0, line, d.range.start..offset, d.color),
                forall|r: int, c: int|
                    on_range(line, d.range.start..offset, r, c) && 0 <= r < h && 0 <= c < w
                        && #[trigger] g0[r][c] != CellState::Unconfirmed ==> g0[r][c] == color_state(d.color),
                changed ==> board_unconfirmed(self.grid@) < board_unconfirmed(g0),
                !changed ==> self.grid@ == g0 && self.dirty@ == old(self).dirty@,
                paint_from(self.clues, self.model(), line, *d, offset as int, changed) == apply_step(
                    self.clues,
                    old(self).model(),
                    line,
                    *d,
                ),
                !changed ==> forall|o: int|
                    d.range.start <= o < offset ==> #[trigger] line_cell_state(g0, line, o) != CellState::Unconfirmed,
                forall|o: int|
                    d.range.start <= o < offset && #[trigger] line_cell_state(g0, line, o) == CellState::Unconfirmed
                        ==> self.dirty@.contains(line.crossing(o)),
                forall|l: LineId| old(self).dirty@.contains(l) ==> #[trigger] self.dirty@.contains(l),
            decreases d.range.end - offset,
        {
            let (row, col) = line.cell(offset);
            let ghost prev = self.grid@;
            proof {
                self.grid.lemma_view();
                assert(prev[row as int][col as int] == g0[row as int][col as int]);
            }
            proof {
                assert(line_cell_state(g0, line, offset as int) == g0[row as int][col as int]);
            }
            let ghost pm = self.model();
            let ghost pchanged = changed;
            match self.grid.paint(row, col, d.color) {
                Ok(true) => {
                    proof {
                        lemma_board_unconfirmed_update(prev, row as int, col as int, color_state(d.color));
                        assert(self.grid@ =~~= paint_range(g0, line, d.range.start..(offset + 1) as usize, d.color));
                        assert(self.model() =~= Progress {
                            grid: pm.grid.update(row as int, pm.grid[row as int].update(col as int, color_state(d.color))),
                            ..pm
                        });
                    }
                    changed = true;
                    let ghost dprev = self.dirty@;
                    self.mark_dirty(line.orthogonal_at(offset));
                    proof {
                        assert forall|o: int|
                            d.range.start <= o < offset + 1 && #[trigger] line_cell_state(g0, line, o) == CellState::Unconfirmed
                                implies self.dirty@.contains(line.crossing(o)) by {
                            if o < offset {
                                assert(dprev.contains(line.crossing(o)));
                            }
                        }
                    }
                },
                Ok(false) => {
                    proof {
                        assert(self.grid@ =~~= paint_range(g0, line, d.range.start..(offset + 1) as usize, d.color));
                    }
                },
                Err(current) => {
                    proof {
                        assert(on_range(line, d.range, row as int, col as int));
                        assert(g0[row as int][col as int] == current);
                        assert(self.model() == pm);
                        assert(line_cell_state(g0, line, offset as int) == current);
                        assert forall|o2: int|
                            d.range.start <= o2 < offset implies #[trigger] line_cell_state(g0, line, o2)
                                == CellState::Unconfirmed || line_cell_state(g0, line, o2) == color_state(d.color) by {
                            let (r2, c2) = line.cell_at(o2);
                            assert(on_range(line, d.range.start..offset, r2 as int, c2 as int));
                        }
                    }
                    let e = Contradiction::CellConflict {
                        row,
                        col,
                        current,
                        attempted: d.color,
                        line,
                        reason: d.reason,
                    };
                    proof {
                        assert(conflict_at(g0, line, *d, e, offset as int));
                    }
                    return Err(e);
                },
            }
            offset += 1;
        }
        proof {
            if d.range.start >= d.range.end {
                assert(paint_range(g0, line, d.range.start..offset, d.color) =~~= paint_range(g0, line, d.range, d.color));
                assert forall|r: int, c: int|
                    on_range(line, d.range, r, c) && 0 <= r < h && 0 <= c < w && #[trigger] g0[r][c]
                        != CellState::Unconfirmed implies g0[r][c] == color_state(d.color) by {
                }
            } else {
                assert(offset == d.range.end);
            }
            assert(self.grid@ =~~= paint_range(g0, line, d.range, d.color));
        }
        let ghost before_mark = self.dirty@;
        let ghost pm_end = self.model();
        if changed {
            self.steps = self.steps + 1;
            proof {
                assert(self.model() =~= Progress { steps: pm_end.steps + 1, ..pm_end });
            }
            self.mark_dirty(line);
        }
        proof {
            assert forall|l: LineId|
                #[trigger] old(self).clues.valid_line(l) implies self.dirty@.contains(l)
                    || self.grid.line_view(l) == old(self).grid.line_view(l) by {
                if !self.dirty@.contains(l) {
                    if l == line {
                        assert(!changed);
                    } else {
                        assert forall|o: int|
                            d.range.start <= o < d.range.end && line.crossing(o) == l implies line_cell_state(g0, line, o)
                                != CellState::Unconfirmed by {
                            if line_cell_state(g0, line, o) == CellState::Unconfirmed {
                                assert(before_mark.contains(line.crossing(o)));
                            }
                        }
                        lemma_paint_other_line(g0, h, w, line, d.range, d.color, l);
                    }
                }
            }
        }
        Ok(changed)
    }

    /// Analyses `line` of the current board.
    fn analyze(&self, line: LineId, buf: &mut Vec<CellState>) -> (res: Result<LineAnalysis, Contradiction>)
        requires
            self.wf(),
            self.clues.valid_line(line),
        ensures
            match res {
                Ok(a) => analysis_of(a, self.clues, self.grid, line),
                Err(e) => {
                    &&& e matches Contradiction::NoPlacement { line: l, block } && l == line && block
                        < self.clues.line_blocks(line).len()
                    &&& forall|s: Seq<int>| !consistent(self.clues.line_blocks(line), self.grid.line_view(line), s)
                    &&& unsolvable(self.clues, self.grid@)
                    &&& !line_analyzable(self.clues.line_blocks(line), self.grid.line_view(line))
                    &&& e matches Contradiction::NoPlacement { block, .. } && first_unfit(
                        self.clues.line_blocks(line),
                        self.grid.line_view(line),
                        block as int,
                    )
                },
            },
    {
        self.grid.line_cells(line, buf);
        let blocks = self.clues.blocks(line);
        proof {
            self.grid.lemma_view();
            assert(clue_fits(self.clues.line_blocks(line), self.clues.spec_line_len(line) as int));
        }
        match LineAnalysis::compute(blocks, buf.as_slice()) {
            Ok(a) => Ok(a),
            Err(block) => {
                proof {
                    lemma_no_arrangement_unsolvable(self.clues, self.grid, line);
                }
                Err(Contradiction::NoPlacement { line, block })
            },
        }
    }
}


/// The state of the `o`-th cell of `line` on the board `g`.
pub open spec fn line_cell_state(g: Seq<Seq<CellState>>, line: LineId, o: int) -> CellState {
    g[line.cell_at(o).0 as int][line.cell_at(o).1 as int]
}

/// Painting a range of `line` leaves another line `l` as it was, when the
/// cell where `l` crosses the range (if it does) was already confirmed.
proof fn lemma_paint_other_line(
    g: Seq<Seq<CellState>>,
    h: nat,
    w: nat,
    line: LineId,
    range: Range<usize>,
    color: Color,
    l: LineId,
)
    requires
        g.len() == h,
        forall|r: int| 0 <= r < h ==> (#[trigger] g[r]).len() == w,
        l != line,
        match l {
            LineId::Row(i) => i < h,
            LineId::Col(j) => j < w,
        },
        forall|o: int|
            range.start <= o < range.end && line.crossing(o) == l ==> line_cell_state(g, line, o)
                != CellState::Unconfirmed,
    ensures
        board_line(paint_range(g, line, range, color), w, l) == board_line(g, w, l),
{
    let p = paint_range(g, line, range, color);
    match l {
        LineId::Row(i) => {
            assert forall|c: int| 0 <= c < w implies #[trigger] p[i as int][c] == g[i as int][c] by {
                if on_range(line, range, i as int, c) && g[i as int][c] == CellState::Unconfirmed {
                    match line {
                        LineId::Row(i2) => {},
                        LineId::Col(j2) => {
                            assert(line.crossing(i as int) == l);
                            assert(line_cell_state(g, line, i as int) == g[i as int][c]);
                        },
                    }
                }
            }
            assert(board_line(p, w, l) =~= board_line(g, w, l));
        },
        LineId::Col(j) => {
            assert forall|r: int| 0 <= r < h implies #[trigger] p[r][j as int] == g[r][j as int] by {
                if on_range(line, range, r, j as int) && g[r][j as int] == CellState::Unconfirmed {
                    match line {
                        LineId::Row(i2) => {
                            assert(line.crossing(j as int) == l);
                            assert(line_cell_state(g, line, j as int) == g[r][j as int]);
                        },
                        LineId::Col(j2) => {},
                    }
                }
            }
            assert(board_line(p, w, l) =~= board_line(g, w, l));
        },
    }
}

/// Keeping the confirmed cells is transitive.
proof fn lemma_keeps_trans(a: Seq<Seq<CellState>>, b: Seq<Seq<CellState>>, c: Seq<Seq<CellState>>)
    requires
        keeps_confirmed(a, b),
        keeps_confirmed(b, c),
    ensures
        keeps_confirmed(a, c),
{
    assert forall|r: int, col: int|
        0 <= r < a.len() && 0 <= col < a[r].len() && #[trigger] a[r][col] != CellState::Unconfirmed implies c[r][col]
            == a[r][col] by {
        assert(b[r][col] == a[r][col]);
    }
}

/// A solution that agrees with a board and has colour `color` on a range of
/// a line agrees with the board with that range painted.
proof fn lemma_agrees_paint(
    board: Seq<Seq<CellState>>,
    g: Seq<Seq<CellState>>,
    w: nat,
    line: LineId,
    range: Range<usize>,
    color: Color,
)
    requires
        agrees(board, g),
        board_matches(board, w, line, range, color),
        forall|r: int| 0 <= r < g.len() ==> (#[trigger] g[r]).len() == w,
        board.len() == g.len(),
    ensures
        agrees(board, paint_range(g, line, range, color)),
{
    let p = paint_range(g, line, range, color);
    assert forall|r: int, c: int|
        0 <= r < p.len() && 0 <= c < p[r].len() && #[trigger] p[r][c] != CellState::Unconfirmed implies board[r][c]
            == p[r][c] by {
        if on_range(line, range, r, c) && g[r][c] == CellState::Unconfirmed {
            match line {
                LineId::Row(i) => {
                    assert(board_line(board, w, line)[c] == board[r][c]);
                },
                LineId::Col(j) => {
                    assert(board_line(board, w, line)[r] == board[r][c]);
                },
            }
        }
    }
}

/// The offsets of `range` whose cells in `cells` do not have colour `color`
/// yet, in increasing order.
pub open spec fn new_offsets(cells: Seq<CellState>, range: Range<usize>, color: Color, changed: Seq<usize>) -> bool {
    &&& forall|i: int|
        0 <= i < changed.len() ==> range.start <= #[trigger] changed[i] < range.end && cells[changed[i] as int]
            != color_state(color)
    &&& forall|i: int, j: int| 0 <= i < j < changed.len() ==> #[trigger] changed[i] < #[trigger] changed[j]
    &&& forall|o: int| range.start <= o < range.end && #[trigger] cells[o] != color_state(color) ==> changed.contains(o as usize)
}

/// `h` is a hint computed from the analysis `a` of its line: its deduction
/// is a deduction of the rules on `a`, `changed` lists exactly the cells
/// that it paints, and the context is that of `a`.
pub open spec fn hint_from(a: LineAnalysis, h: Hint) -> bool {
    let d = h.step.deduction;
    &&& deduction_ok(a, d)
    &&& new_offsets(a.cells@, d.range, d.color, h.step.changed@)
    &&& h.candidates@.len() == d.range.end - d.range.start
    &&& forall|i: int| 0 <= i < h.candidates@.len() ==> #[trigger] h.candidates@[i] == a.candidates@[d.range.start + i]
    &&& h.blocks@.len() == a.blocks@.len()
    &&& forall|id: int|
        0 <= id < h.blocks@.len() ==> (#[trigger] h.blocks@[id]).size == a.blocks@[id].size
            && h.blocks@[id].possible_placement == a.blocks@[id].possible_placement
}

/// A hint for `clues` on board `grid`: on a line of the board, computed from
/// the analysis of that line, and right in every solution that agrees with
/// the board.
pub open spec fn valid_hint(clues: Clues, grid: Grid, h: Hint) -> bool {
    &&& clues.valid_line(h.step.line)
    &&& exists|a: LineAnalysis| #[trigger] analysis_of(a, clues, grid, h.step.line) && hint_from(a, h)
    &&& forall|board: Seq<Seq<CellState>>|
        #[trigger] is_solution(clues, board) && agrees(board, grid@) ==> board_matches(
            board,
            clues.spec_width(),
            h.step.line,
            h.step.deduction.range,
            h.step.deduction.color,
        )
}

/// `an` are analyses of the first `an.len()` lines of the board, in the
/// order of [`Clues::lines`].
pub open spec fn analyses_of(an: Seq<LineAnalysis>, clues: Clues, grid: Grid) -> bool {
    &&& an.len() <= clues.spec_lines().len()
    &&& forall|k: int| 0 <= k < an.len() ==> #[trigger] analysis_of(an[k], clues, grid, clues.spec_lines()[k])
}

/// Trying the rules in order, each on every line in turn (rows from the
/// top, then columns from the left), on the analyses `an` of the
/// `n_lines` lines, the first that reports anything is rule `rule` on line
/// number `k`.
pub open spec fn first_report_at(an: Seq<LineAnalysis>, n_lines: int, rule: int, k: int) -> bool {
    &&& 0 <= rule < RULE_COUNT
    &&& 0 <= k < an.len()
    &&& (rule > 0 ==> an.len() == n_lines)
    &&& rule_reports(rule, an[k]).len() > 0
    &&& forall|r2: int, k2: int|
        #![trigger rule_reports(r2, an[k2])]
        ((0 <= r2 < rule && 0 <= k2 < n_lines) || (r2 == rule && 0 <= k2 < k)) ==> rule_reports(r2, an[k2]).len()
            == 0
}

/// `h` is the hint that the rules give first on `grid`: the first report of
/// [`first_report_at`], on its line, with the context of that line.
pub open spec fn first_hint(clues: Clues, grid: Grid, h: Hint) -> bool {
    exists|an: Seq<LineAnalysis>, rule: int, k: int|
        #![trigger first_report_at(an, clues.spec_lines().len() as int, rule, k)]
        {
            &&& analyses_of(an, clues, grid)
            &&& first_report_at(an, clues.spec_lines().len() as int, rule, k)
            &&& h.step.line == clues.spec_lines()[k]
            &&& h.step.deduction == rule_reports(rule, an[k])[0]
            &&& hint_from(an[k], h)
        }
}

/// When no rule reports anything, all of them together report nothing.
proof fn lemma_all_reports_empty(a: LineAnalysis, k: int)
    requires
        forall|r: int| 0 <= r < k ==> #[trigger] rule_reports(r, a).len() == 0,
    ensures
        crate::rules::gather(k, |index: int| rule_reports(index, a)).len() == 0,
    decreases k,
{
    if k > 0 {
        lemma_all_reports_empty(a, k - 1);
        assert(rule_reports(k - 1, a).len() == 0);
    }
}

/// The analysis of a line is unique.
proof fn lemma_analysis_unique(a: LineAnalysis, b: LineAnalysis, clues: Clues, grid: Grid, line: LineId)
    requires
        analysis_of(a, clues, grid, line),
        analysis_of(b, clues, grid, line),
    ensures
        crate::rules::same_analysis(a, b),
{
    let sizes = clues.line_blocks(line);
    assert(a.blocks@.len() == sizes.len() && b.blocks@.len() == sizes.len()) by {
        assert(a.sizes().len() == a.blocks@.len());
        assert(b.sizes().len() == b.blocks@.len());
    }
    assert forall|id: int| 0 <= id < a.blocks@.len() implies a.blocks@[id] == b.blocks@[id] by {
        assert(a.sizes()[id] == a.blocks@[id].size);
        assert(b.sizes()[id] == b.blocks@[id].size);
        assert(a.blocks@[id].possible_placement == b.blocks@[id].possible_placement);
    }
    assert(a.blocks@ =~= b.blocks@);
    crate::analysis::lemma_segments_unique(
        crate::analysis::class_flags(a.cells@, CellState::Black, true),
        a.black_segments@,
        b.black_segments@,
    );
    crate::analysis::lemma_segments_unique(
        crate::analysis::class_flags(a.cells@, CellState::White, false),
        a.non_white_segments@,
        b.non_white_segments@,
    );
    crate::analysis::lemma_segments_unique(
        crate::analysis::class_flags(a.cells@, CellState::Unconfirmed, true),
        a.unconfirmed_segments@,
        b.unconfirmed_segments@,
    );
}

/// Two increasing sequences with the same elements are equal.
proof fn lemma_increasing_unique(x: Seq<usize>, y: Seq<usize>)
    requires
        forall|i: int, j: int| 0 <= i < j < x.len() ==> #[trigger] x[i] < #[trigger] x[j],
        forall|i: int, j: int| 0 <= i < j < y.len() ==> #[trigger] y[i] < #[trigger] y[j],
        forall|v: usize| x.contains(v) <==> y.contains(v),
    ensures
        x == y,
    decreases x.len(),
{
    if x.len() == 0 {
        if y.len() > 0 {
            assert(y.contains(y[0]));
        }
        assert(x =~= y);
    } else {
        assert(x.contains(x[0]));
        let i = choose|i: int| 0 <= i < y.len() && y[i] == x[0];
        assert(y.contains(y[0]));
        let j = choose|j: int| 0 <= j < x.len() && x[j] == y[0];
        if j > 0 {
            assert(x[0] < x[j]);
        }
        if i > 0 {
            assert(y[0] < y[i]);
        }
        assert(x[0] == y[0]);
        let x1 = x.drop_first();
        let y1 = y.drop_first();
        assert forall|v: usize| x1.contains(v) <==> y1.contains(v) by {
            if x1.contains(v) {
                let p = choose|p: int| 0 <= p < x1.len() && x1[p] == v;
                assert(x[p + 1] == v);
                assert(x[0] < x[p + 1]);
                assert(x.contains(v));
                let q = choose|q: int| 0 <= q < y.len() && y[q] == v;
                assert(q != 0);
                assert(y1[q - 1] == v);
            }
            if y1.contains(v) {
                let p = choose|p: int| 0 <= p < y1.len() && y1[p] == v;
                assert(y[p + 1] == v);
                assert(y[0] < y[p + 1]);
                assert(y.contains(v));
                let q = choose|q: int| 0 <= q < x.len() && x[q] == v;
                assert(q != 0);
                assert(x1[q - 1] == v);
            }
        }
        assert forall|a: int, b: int| 0 <= a < b < x1.len() implies #[trigger] x1[a] < #[trigger] x1[b] by {
            assert(x[a + 1] < x[b + 1]);
        }
        assert forall|a: int, b: int| 0 <= a < b < y1.len() implies #[trigger] y1[a] < #[trigger] y1[b] by {
            assert(y[a + 1] < y[b + 1]);
        }
        lemma_increasing_unique(x1, y1);
        assert(x =~= y) by {
            assert forall|t: int| 0 <= t < x.len() implies x[t] == y[t] by {
                if t > 0 {
                    assert(x[t] == x1[t - 1]);
                    assert(y[t] == y1[t - 1]);
                }
            }
        }
    }
}

/// Nothing gathered means nothing from any of the items.
proof fn lemma_gather_empty(k: int, f: spec_fn(int) -> Seq<Deduction>, i: int)
    requires
        crate::rules::gather(k, f).len() == 0,
        0 <= i < k,
    ensures
        f(i).len() == 0,
    decreases k,
{
    if i < k - 1 {
        lemma_gather_empty(k - 1, f, i);
    }
}

/// There is at most one first hint on a board: the step that
/// [`Solver::next_step`] takes is the step of the hint that [`Solver::hint`]
/// returns on the same solver, with the same context.
pub proof fn law_first_hint_unique(clues: Clues, grid: Grid, h1: Hint, h2: Hint)
    requires
        first_hint(clues, grid, h1),
        first_hint(clues, grid, h2),
    ensures
        h1.step.line == h2.step.line,
        h1.step.deduction == h2.step.deduction,
        h1.step.changed@ == h2.step.changed@,
        h1.candidates@ == h2.candidates@,
        h1.blocks@ == h2.blocks@,
{
    let n = clues.spec_lines().len() as int;
    let (an1, r1, k1) = choose|an: Seq<LineAnalysis>, rule: int, k: int|
        #![trigger first_report_at(an, n, rule, k)]
        {
            &&& analyses_of(an, clues, grid)
            &&& first_report_at(an, n, rule, k)
            &&& h1.step.line == clues.spec_lines()[k]
            &&& h1.step.deduction == rule_reports(rule, an[k])[0]
            &&& hint_from(an[k], h1)
        };
    let (an2, r2, k2) = choose|an: Seq<LineAnalysis>, rule: int, k: int|
        #![trigger first_report_at(an, n, rule, k)]
        {
            &&& analyses_of(an, clues, grid)
            &&& first_report_at(an, n, rule, k)
            &&& h2.step.line == clues.spec_lines()[k]
            &&& h2.step.deduction == rule_reports(rule, an[k])[0]
            &&& hint_from(an[k], h2)
        };
    assert forall|i: int| 0 <= i < an1.len() && 0 <= i < an2.len() implies crate::rules::same_analysis(an1[i], an2[i]) by {
        lemma_analysis_unique(an1[i], an2[i], clues, grid, clues.spec_lines()[i]);
    }
    assert forall|r: int, i: int|
        0 <= i < an1.len() && 0 <= i < an2.len() implies #[trigger] rule_reports(r, an1[i]) == rule_reports(r, an2[i]) by {
        crate::rules::lemma_reports_same(an1[i], an2[i]);
    }
    if r1 < r2 || (r1 == r2 && k1 < k2) {
        assert(rule_reports(r1, an2[k1]).len() == 0);
        assert(rule_reports(r1, an1[k1]) == rule_reports(r1, an2[k1]));
        assert(false);
    }
    if r2 < r1 || (r1 == r2 && k2 < k1) {
        assert(rule_reports(r2, an1[k2]).len() == 0);
        assert(rule_reports(r2, an1[k2]) == rule_reports(r2, an2[k2]));
        assert(false);
    }
    assert(r1 == r2 && k1 == k2);
    let a1 = an1[k1];
    let a2 = an2[k1];
    assert(crate::rules::same_analysis(a1, a2));
    assert(rule_reports(r1, a1) == rule_reports(r1, a2));
    let d = h1.step.deduction;
    assert forall|v: usize| h1.step.changed@.contains(v) <==> h2.step.changed@.contains(v) by {
        if h1.step.changed@.contains(v) {
            let p = choose|p: int| 0 <= p < h1.step.changed@.len() && h1.step.changed@[p] == v;
            assert(d.range.start <= h1.step.changed@[p] < d.range.end);
            assert(a1.cells@[v as int] != color_state(d.color));
            assert(a2.cells@[v as int] != color_state(d.color));
        }
        if h2.step.changed@.contains(v) {
            let p = choose|p: int| 0 <= p < h2.step.changed@.len() && h2.step.changed@[p] == v;
            assert(d.range.start <= h2.step.changed@[p] < d.range.end);
            assert(a2.cells@[v as int] != color_state(d.color));
            assert(a1.cells@[v as int] != color_state(d.color));
        }
    }
    lemma_increasing_unique(h1.step.changed@, h2.step.changed@);
    assert(h1.candidates@ =~= h2.candidates@) by {
        assert forall|i: int| 0 <= i < h1.candidates@.len() implies h1.candidates@[i] == h2.candidates@[i] by {
            assert(h1.candidates@[i] == a1.candidates@[d.range.start + i]);
            assert(h2.candidates@[i] == a2.candidates@[d.range.start + i]);
        }
    }
    assert(h1.blocks@ =~= h2.blocks@) by {
        assert forall|id: int| 0 <= id < h1.blocks@.len() implies h1.blocks@[id] == h2.blocks@[id] by {
            assert(h1.blocks@[id].size == a1.blocks@[id].size);
            assert(h2.blocks@[id].size == a2.blocks@[id].size);
            assert(h1.blocks@[id].possible_placement == h2.blocks@[id].possible_placement);
        }
    }
}

/// The reason of a hint names the rule it came from: trying the rules in
/// order, each on every line in turn, the first report is made by rule
/// number `rule_of(reason)` on the line of the hint, and it is the first
/// deduction of that rule there.
pub proof fn law_hint_reason_names_rule(clues: Clues, grid: Grid, h: Hint)
    requires
        first_hint(clues, grid, h),
    ensures
        exists|an: Seq<LineAnalysis>, k: int|
            #![trigger first_report_at(an, clues.spec_lines().len() as int, rule_of(h.step.deduction.reason), k)]
            {
                &&& analyses_of(an, clues, grid)
                &&& first_report_at(an, clues.spec_lines().len() as int, rule_of(h.step.deduction.reason), k)
                &&& h.step.line == clues.spec_lines()[k]
                &&& h.step.deduction == rule_reports(rule_of(h.step.deduction.reason), an[k])[0]
            },
{
    let n = clues.spec_lines().len() as int;
    let (an, r, k) = choose|an: Seq<LineAnalysis>, rule: int, k: int|
        #![trigger first_report_at(an, n, rule, k)]
        {
            &&& analyses_of(an, clues, grid)
            &&& first_report_at(an, n, rule, k)
            &&& h.step.line == clues.spec_lines()[k]
            &&& h.step.deduction == rule_reports(rule, an[k])[0]
            &&& hint_from(an[k], h)
        };
    crate::rules::law_reason_names_rule(r, an[k]);
    assert(rule_of(rule_reports(r, an[k])[0].reason) == r);
    assert(first_report_at(an, n, rule_of(h.step.deduction.reason), k));
}

/// A board with a first hint is not one where the rules have nothing more
/// to deduce: [`Solver::hint`] returns nothing exactly when
/// [`Solver::next_step`] takes no step.
pub proof fn law_hint_or_exhausted(clues: Clues, grid: Grid, h: Hint)
    requires
        first_hint(clues, grid, h),
    ensures
        !rules_exhausted(clues, grid),
{
    let n = clues.spec_lines().len() as int;
    let (an, r, k) = choose|an: Seq<LineAnalysis>, rule: int, k: int|
        #![trigger first_report_at(an, n, rule, k)]
        {
            &&& analyses_of(an, clues, grid)
            &&& first_report_at(an, n, rule, k)
            &&& h.step.line == clues.spec_lines()[k]
            &&& h.step.deduction == rule_reports(rule, an[k])[0]
            &&& hint_from(an[k], h)
        };
    let line = clues.spec_lines()[k];
    if rules_exhausted(clues, grid) {
        assert(clues.valid_line(line));
        assert(line_quiet(clues, grid, line));
        let a = choose|a: LineAnalysis| #[trigger] analysis_of(a, clues, grid, line) && all_reports(a).len() == 0;
        lemma_analysis_unique(a, an[k], clues, grid, line);
        crate::rules::lemma_reports_same(a, an[k]);
        lemma_gather_empty(RULE_COUNT as int, |index: int| rule_reports(index, a), r);
        assert(rule_reports(r, a).len() == 0);
    }
}

/// A line that has an analysis is analysable, and then no block of it is
/// the first that fits nowhere.
proof fn lemma_analysis_fits(a: LineAnalysis, clues: Clues, grid: Grid, line: LineId, block: int)
    requires
        analysis_of(a, clues, grid, line),
    ensures
        line_analyzable(clues.line_blocks(line), grid.line_view(line)),
        !first_unfit(clues.line_blocks(line), grid.line_view(line), block),
{
    let sizes = clues.line_blocks(line);
    let cells = grid.line_view(line);
    assert forall|id: int| 0 <= id < sizes.len() implies left_start(sizes, cells, settled(sizes, cells), id)
        + sizes[id] <= #[trigger] right_end(sizes, cells, settled(sizes, cells), id) by {
        assert(a.sizes()[id] == a.blocks@[id].size);
        assert(a.blocks@[id].possible_placement.start + a.blocks@[id].size <= a.blocks@[id].possible_placement.end);
    }
    if 0 <= block < sizes.len() {
        assert(left_start(sizes, cells, settled(sizes, cells), block) + sizes[block] <= right_end(
            sizes,
            cells,
            settled(sizes, cells),
            block,
        ));
    }
}

/// [`Solver::hint`] reports one contradiction only: there is at most one
/// first failure on a board.
pub proof fn law_first_failure_unique(clues: Clues, grid: Grid, e1: Contradiction, e2: Contradiction)
    requires
        first_failure(clues, grid, e1),
        first_failure(clues, grid, e2),
    ensures
        e1 == e2,
{
    let an1 = choose|an: Seq<LineAnalysis>|
        #![trigger analyses_of(an, clues, grid)]
        {
            let k = an.len() as int;
            let line = clues.spec_lines()[k];
            &&& analyses_of(an, clues, grid)
            &&& k < clues.spec_lines().len()
            &&& forall|k2: int| 0 <= k2 < k ==> #[trigger] rule_reports(0, an[k2]).len() == 0
            &&& e1 matches Contradiction::NoPlacement { line: l, block } && l == line && first_unfit(
                clues.line_blocks(line),
                grid.line_view(line),
                block as int,
            )
        };
    let an2 = choose|an: Seq<LineAnalysis>|
        #![trigger analyses_of(an, clues, grid)]
        {
            let k = an.len() as int;
            let line = clues.spec_lines()[k];
            &&& analyses_of(an, clues, grid)
            &&& k < clues.spec_lines().len()
            &&& forall|k2: int| 0 <= k2 < k ==> #[trigger] rule_reports(0, an[k2]).len() == 0
            &&& e2 matches Contradiction::NoPlacement { line: l, block } && l == line && first_unfit(
                clues.line_blocks(line),
                grid.line_view(line),
                block as int,
            )
        };
    let k1 = an1.len() as int;
    let k2 = an2.len() as int;
    let b1 = e1->NoPlacement_block as int;
    let b2 = e2->NoPlacement_block as int;
    if k1 < k2 {
        lemma_analysis_fits(an2[k1], clues, grid, clues.spec_lines()[k1], b1);
    } else if k2 < k1 {
        lemma_analysis_fits(an1[k2], clues, grid, clues.spec_lines()[k2], b2);
    } else {
        let line = clues.spec_lines()[k1];
        let sizes = clues.line_blocks(line);
        let cells = grid.line_view(line);
        if b1 < b2 {
            assert(left_start(sizes, cells, settled(sizes, cells), b1) + sizes[b1] <= right_end(
                sizes,
                cells,
                settled(sizes, cells),
                b1,
            ));
        } else if b2 < b1 {
            assert(left_start(sizes, cells, settled(sizes, cells), b2) + sizes[b2] <= right_end(
                sizes,
                cells,
                settled(sizes, cells),
                b2,
            ));
        }
    }
}

/// A board with a first failure has no first hint and is not one where the
/// rules have nothing more to deduce: when [`Solver::hint`] fails,
/// [`Solver::next_step`] takes no step and fails too.
pub proof fn law_failure_excludes_hint(clues: Clues, grid: Grid, e: Contradiction, h: Hint)
    requires
        first_failure(clues, grid, e),
    ensures
        !first_hint(clues, grid, h),
        !rules_exhausted(clues, grid),
{
    let an = choose|an: Seq<LineAnalysis>|
        #![trigger analyses_of(an, clues, grid)]
        {
            let k = an.len() as int;
            let line = clues.spec_lines()[k];
            &&& analyses_of(an, clues, grid)
            &&& k < clues.spec_lines().len()
            &&& forall|k2: int| 0 <= k2 < k ==> #[trigger] rule_reports(0, an[k2]).len() == 0
            &&& e matches Contradiction::NoPlacement { line: l, block } && l == line && first_unfit(
                clues.line_blocks(line),
                grid.line_view(line),
                block as int,
            )
        };
    let k = an.len() as int;
    let line = clues.spec_lines()[k];
    let b = e->NoPlacement_block as int;
    let n = clues.spec_lines().len() as int;
    if first_hint(clues, grid, h) {
        let (an2, r, kh) = choose|an2: Seq<LineAnalysis>, rule: int, kh: int|
            #![trigger first_report_at(an2, n, rule, kh)]
            {
                &&& analyses_of(an2, clues, grid)
                &&& first_report_at(an2, n, rule, kh)
                &&& h.step.line == clues.spec_lines()[kh]
                &&& h.step.deduction == rule_reports(rule, an2[kh])[0]
                &&& hint_from(an2[kh], h)
            };
        if k < an2.len() {
            lemma_analysis_fits(an2[k], clues, grid, line, b);
        } else {
            assert(r == 0);
            assert(kh < k);
            let lh = clues.spec_lines()[kh];
            assert(analysis_of(an[kh], clues, grid, lh));
            assert(analysis_of(an2[kh], clues, grid, lh));
            lemma_analysis_unique(an[kh], an2[kh], clues, grid, lh);
            crate::rules::lemma_reports_same(an[kh], an2[kh]);
            assert(rule_reports(0, an[kh]).len() == 0);
        }
    }
    if rules_exhausted(clues, grid) {
        assert(clues.valid_line(line));
        assert(line_quiet(clues, grid, line));
        let a = choose|a: LineAnalysis| #[trigger] analysis_of(a, clues, grid, line) && all_reports(a).len() == 0;
        lemma_analysis_fits(a, clues, grid, line, b);
    }
}

/// Builds the hint for the first deduction `d` of the analysis `a` of
/// `line`.
fn make_hint(line: LineId, a: &LineAnalysis, d: &Deduction) -> (h: Hint)
    requires
        a.wf(),
        deduction_ok(*a, *d),
    ensures
        h.step.line == line,
        h.step.deduction == *d,
        hint_from(*a, h),
{
    let deduction = d.clone();
    let target = crate::grid::state_of(d.color);
    let mut changed: Vec<usize> = Vec::new();
    let mut candidates: Vec<Range<usize>> = Vec::new();
    let mut j = d.range.start;
    while j < d.range.end
        invariant
            a.wf(),
            deduction_ok(*a, *d),
            target == color_state(d.color),
            d.range.start <= j <= d.range.end,
            candidates@.len() == j - d.range.start,
            forall|i: int| 0 <= i < candidates@.len() ==> #[trigger] candidates@[i] == a.candidates@[d.range.start + i],
            forall|i: int|
                0 <= i < changed@.len() ==> d.range.start <= #[trigger] changed@[i] < j && a.cells@[changed@[i] as int]
                    != target,
            forall|i: int, k: int| 0 <= i < k < changed@.len() ==> #[trigger] changed@[i] < #[trigger] changed@[k],
            forall|o: int| d.range.start <= o < j && #[trigger] a.cells@[o] != target ==> changed@.contains(o as usize),
        decreases d.range.end - j,
    {
        if a.cells[j] != target {
            let ghost before = changed@;
            changed.push(j);
            proof {
                assert forall|o: int| d.range.start <= o < j + 1 && #[trigger] a.cells@[o] != target implies changed@.contains(o as usize) by {
                    if o < j {
                        let i = choose|i: int| 0 <= i < before.len() && before[i] == o as usize;
                        assert(changed@[i] == o as usize);
                    } else {
                        assert(changed@[changed@.len() - 1] == j);
                    }
                }
            }
        }
        let c = a.candidates[j].start..a.candidates[j].end;
        candidates.push(c);
        j += 1;
    }
    let mut blocks: Vec<HintBlock> = Vec::new();
    let mut id: usize = 0;
    while id < a.blocks.len()
        invariant
            id <= a.blocks@.len(),
            blocks@.len() == id,
            forall|i: int|
                0 <= i < id ==> (#[trigger] blocks@[i]).size == a.blocks@[i].size
                    && blocks@[i].possible_placement == a.blocks@[i].possible_placement,
        decreases a.blocks@.len() - id,
    {
        let b = &a.blocks[id];
        blocks.push(HintBlock { size: b.size, possible_placement: b.possible_placement.start..b.possible_placement.end });
        id += 1;
    }
    Hint { step: Step { line, deduction, changed }, candidates, blocks }
}

impl Solver {
    /// Deduces as far as the rules allow.
    ///
    /// `Ok(Solved)` when every cell is confirmed, `Ok(Stuck)` when the rules
    /// run out without a contradiction while cells are still unconfirmed
    /// (the board is then in [`Solver::grid`]), `Err` on a contradiction.
    /// Every cell it confirms has that colour in every solution that agrees
    /// with the board it started from, and it only fails when there is no
    /// such solution. On success no rule deduces anything more on any line,
    /// provided every line was still to be looked at or quiet when it began
    /// (as for a new solver and after every call that succeeded; a
    /// contradiction leaves the line it was found on off the list).
    ///
    /// Its course is exact: it takes the lines off its list one by one,
    /// looks at each and applies all that the rules deduce on it, as
    /// [`solve_rounds`] describes; where that course ends (the board, the
    /// list, the step count, and the first contradiction met) is where
    /// `solve` ends.
    #[verifier::spinoff_prover]
    #[verifier::rlimit(80)]
    pub fn solve(&mut self) -> (res: Result<Outcome, Contradiction>)
        requires
            old(self).wf(),
        ensures
            final(self).wf(),
            final(self).spec_clues() == old(self).spec_clues(),
            keeps_confirmed(old(self).spec_grid()@, final(self).spec_grid()@),
            solutions_kept(old(self).spec_clues(), old(self).spec_grid()@, final(self).spec_grid()@),
            solve_ends(old(self).spec_clues(), old(self).model(), solve_status(res), final(self).model()),
            old(self).spec_steps() <= final(self).spec_steps(),
            match res {
                Ok(o) => {
                    &&& old(self).spec_steps() <= final(self).spec_steps()
                    &&& final(self).spec_steps() - old(self).spec_steps() <= board_unconfirmed(old(self).spec_grid()@)
                        - board_unconfirmed(final(self).spec_grid()@)
                    &&& (final(self).spec_steps() == old(self).spec_steps()) == (final(self).spec_grid()@ == old(
                        self,
                    ).spec_grid()@)
                    &&& o == (if final(self).spec_grid().spec_complete() {
                        Outcome::Solved
                    } else {
                        Outcome::Stuck
                    })
                    &&& old(self).queue_complete() ==> rules_exhausted(final(self).spec_clues(), final(self).spec_grid())
                    &&& old(self).queue_complete() ==> final(self).queue_complete()
                },
                Err(e) => {
                    &&& unsolvable(old(self).spec_clues(), old(self).spec_grid()@)
                    &&& on_board(old(self).spec_clues(), e)
                },
            },
    {
        let mut buf: Vec<CellState> = Vec::new();
        let mut deductions: Vec<Deduction> = Vec::new();
        let ghost qc = old(self).queue_complete();
        let ghost g0 = self.grid@;
        let ghost w = self.clues.spec_width();
        let ghost p0 = self.model();
        let ghost mut rounds: nat = 0;
        let mut more = true;
        while more
            invariant
                self.wf(),
                p0 == old(self).model(),
                forall|m: nat| #[trigger] solve_rounds(self.clues, self.model(), m) == solve_rounds(self.clues, p0, rounds + m),
                self.clues == old(self).clues,
                g0 == old(self).grid@,
                w == self.clues.spec_width(),
                keeps_confirmed(g0, self.grid@),
                solutions_kept(self.clues, g0, self.grid@),
                qc == old(self).queue_complete(),
                qc ==> self.queue_complete(),
                !more ==> self.dirty@.len() == 0,
                old(self).steps <= self.steps,
                self.steps - old(self).steps <= board_unconfirmed(g0) - board_unconfirmed(self.grid@),
                self.steps == old(self).steps ==> self.grid@ == g0,
            decreases board_unconfirmed(self.grid@), self.dirty@.len() + (if more {
                1int
            } else {
                0int
            }),
        {
            let ghost c0 = board_unconfirmed(self.grid@);
            let ghost l0 = self.dirty@.len();
            let ghost d0 = self.dirty@;
            let ghost pstart = self.model();
            match self.dirty.pop_front() {
                None => {
                    more = false;
                },
                Some(line) => {
                    assert(self.clues.valid_line(line)) by {
                        assert(line == d0[0]);
                    }
                    let ordinal = self.ordinal(line);
                    self.in_queue.set(ordinal, false);
                    let ghost q0 = self.model();
                    proof {
                        assert(q0 =~= take_line(self.clues, pstart));
                    }
                    proof {
                        assert forall|l: LineId| d0.contains(l) && l != line implies #[trigger] self.dirty@.contains(l) by {
                            let i = choose|i: int| 0 <= i < d0.len() && d0[i] == l;
                            assert(i != 0);
                            assert(self.dirty@[i - 1] == l);
                        }
                        assert forall|l: LineId|
                            #![trigger line_ordinal(self.clues, l)]
                            self.clues.valid_line(l) && self.in_queue@[line_ordinal(self.clues, l)] implies self.dirty@.contains(l) by {
                            if l != line {
                                assert(line_ordinal(self.clues, l) != line_ordinal(self.clues, line));
                                assert(d0.contains(l));
                            }
                        }
                        assert forall|i: int| 0 <= i < self.dirty@.len() implies self.clues.valid_line(#[trigger] self.dirty@[i]) by {
                            assert(self.dirty@[i] == d0[i + 1]);
                        }
                    }
                    let ghost popped_grid = self.grid;
                    let analysis = match self.analyze(line, &mut buf) {
                        Ok(a) => a,
                        Err(e) => {
                            proof {
                                let block = e->NoPlacement_block;
                                lemma_outcome_err(self.clues, self.grid, line, block);
                                assert(solve_rounds(self.clues, pstart, 1) == (
                                    Err::<(), Contradiction>(e),
                                    self.model(),
                                    true,
                                ));
                                assert(solve_rounds(self.clues, p0, rounds + 1) == solve_rounds(self.clues, pstart, 1));
                                assert(solve_ends(self.clues, p0, Err(e), self.model()));
                                assert forall|board: Seq<Seq<CellState>>| #[trigger] is_solution(self.clues, board) implies !agrees(board, g0) by {
                                    if agrees(board, g0) {
                                        assert(agrees(board, self.grid@));
                                    }
                                }
                            }
                            return Err(e);
                        },
                    };
                    deductions.clear();
                    run_all_rules(&analysis, &mut deductions);
                    let ghost snap = self.grid;
                    proof {
                        assert(deductions@ =~= all_reports(analysis));
                        lemma_outcome_ok(self.clues, self.grid, line, analysis);
                        assert(solve_round(self.clues, pstart) == apply_from(self.clues, q0, line, deductions@, 0));
                        snap.lemma_view();
                        assert(analysis.cells@.len() == self.clues.spec_line_len(line));
                        assert forall|board: Seq<Seq<CellState>>|
                            #[trigger] is_solution(self.clues, board) && agrees(board, g0) implies forall|k: int|
                                0 <= k < deductions@.len() ==> board_matches(
                                    board,
                                    w,
                                    line,
                                    (#[trigger] deductions@[k]).range,
                                    deductions@[k].color,
                                ) by {
                            assert(agrees(board, snap@));
                            assert forall|k: int| 0 <= k < deductions@.len() implies board_matches(
                                board,
                                w,
                                line,
                                (#[trigger] deductions@[k]).range,
                                deductions@[k].color,
                            ) by {
                                assert(deduction_ok(analysis, deductions@[k]));
                                lemma_deduction_holds(self.clues, board, snap, line, analysis, deductions@[k]);
                            }
                        }
                    }
                    let mut i: usize = 0;
                    while i < deductions.len()
                        invariant
                            self.wf(),
                            self.clues == old(self).clues,
                            g0 == old(self).grid@,
                            w == self.clues.spec_width(),
                            self.clues.valid_line(line),
                            analysis_of(analysis, self.clues, snap, line),
                            analysis.cells@.len() == self.clues.spec_line_len(line),
                            emits_ok(analysis, Seq::<Deduction>::empty(), deductions@),
                            keeps_confirmed(g0, self.grid@),
                            solutions_kept(self.clues, g0, self.grid@),
                            forall|board: Seq<Seq<CellState>>|
                                #[trigger] is_solution(self.clues, board) && agrees(board, g0) ==> forall|k: int|
                                    0 <= k < deductions@.len() ==> board_matches(
                                        board,
                                        w,
                                        line,
                                        (#[trigger] deductions@[k]).range,
                                        deductions@[k].color,
                                    ),
                            board_unconfirmed(self.grid@) < c0 || (board_unconfirmed(self.grid@) == c0
                                && self.dirty@.len() + 1 == l0),
                            deductions@ == all_reports(analysis),
                            i <= deductions@.len(),
                            qc ==> forall|l: LineId|
                                #[trigger] self.clues.valid_line(l) ==> self.dirty@.contains(l) || line_quiet(
                                    self.clues,
                                    self.grid,
                                    l,
                                ) || (l == line && i == 0 && self.grid@ == snap@),
                            self.grid.spec_width() == snap.spec_width(),
                            old(self).steps <= self.steps,
                            self.steps - old(self).steps <= board_unconfirmed(g0) - board_unconfirmed(self.grid@),
                            self.steps == old(self).steps ==> self.grid@ == g0,
                            p0 == old(self).model(),
                            pstart.dirty.len() > 0,
                            solve_round(self.clues, pstart) == apply_from(self.clues, q0, line, deductions@, 0),
                            apply_from(self.clues, self.model(), line, deductions@, i as int) == apply_from(
                                self.clues,
                                q0,
                                line,
                                deductions@,
                                0,
                            ),
                            forall|m: nat| #[trigger] solve_rounds(self.clues, pstart, m) == solve_rounds(self.clues, p0, rounds + m),
                        decreases deductions@.len() - i,
                    {
                        let ghost gbefore = self.grid@;
                        let ghost grid_before = self.grid;
                        let ghost dbefore = self.dirty@;
                        proof {
                            self.grid.lemma_view();
                        }
                        assert(deduction_ok(analysis, deductions@[i as int]));
                        let ghost pbefore = self.model();
                        match self.apply(line, &deductions[i]) {
                            Ok(changed) => {
                                proof {
                                    assert(apply_from(self.clues, pbefore, line, deductions@, i as int) == apply_from(
                                        self.clues,
                                        self.model(),
                                        line,
                                        deductions@,
                                        i + 1,
                                    ));
                                    let d = deductions@[i as int];
                                    if qc && i == 0 && gbefore == snap@ {
                                        // the first deduction is new on the analysed cells, and
                                        // no conflict arose: it painted an unconfirmed cell
                                        assert(crate::rules::is_new(analysis.cells@, d.range, d.color));
                                        let o = choose|o: int|
                                            d.range.start <= o < d.range.end && #[trigger] analysis.cells@[o]
                                                != color_state(d.color);
                                        let (r, c) = line.cell_at(o);
                                        assert(on_range(line, d.range, r as int, c as int));
                                        assert(analysis.cells@[o] == snap.line_view(line)[o]);
                                        assert(snap.line_view(line)[o] == gbefore[r as int][c as int]);
                                        if !changed {
                                            assert(self.grid@[r as int][c as int] == gbefore[r as int][c as int]);
                                        }
                                        assert(changed);
                                    }
                                    assert forall|l: LineId|
                                        qc && #[trigger] self.clues.valid_line(l) implies self.dirty@.contains(l) || line_quiet(
                                            self.clues,
                                            self.grid,
                                            l,
                                        ) || (l == line && i + 1 == 0 && self.grid@ == snap@) by {
                                        if !self.dirty@.contains(l) {
                                            assert(!dbefore.contains(l));
                                            if !(l == line && i == 0 && gbefore == snap@) {
                                                assert(line_quiet(self.clues, grid_before, l));
                                                assert(self.grid.line_view(l) == grid_before.line_view(l));
                                                lemma_quiet_same_view(self.clues, grid_before, self.grid, l);
                                            }
                                        }
                                    }
                                    lemma_keeps_trans(g0, gbefore, self.grid@);
                                    self.grid.lemma_view();
                                    assert forall|board: Seq<Seq<CellState>>|
                                        #[trigger] is_solution(self.clues, board) && agrees(board, g0) implies agrees(board, self.grid@) by {
                                        assert(agrees(board, gbefore));
                                        assert(board_matches(board, w, line, d.range, d.color));
                                        lemma_agrees_paint(board, gbefore, w, line, d.range, d.color);
                                    }
                                }
                            },
                            Err(e) => {
                                proof {
                                    assert(apply_from(self.clues, pbefore, line, deductions@, i as int) == (
                                        Err::<(), Contradiction>(e),
                                        self.model(),
                                    ));
                                    assert(solve_rounds(self.clues, pstart, 1) == (
                                        Err::<(), Contradiction>(e),
                                        self.model(),
                                        true,
                                    ));
                                    assert(solve_rounds(self.clues, p0, rounds + 1) == solve_rounds(self.clues, pstart, 1));
                                    assert(solve_ends(self.clues, p0, Err(e), self.model()));
                                    let d = deductions@[i as int];
                                    assert forall|board: Seq<Seq<CellState>>| #[trigger] is_solution(self.clues, board) implies !agrees(board, g0) by {
                                        if agrees(board, g0) {
                                            assert(agrees(board, gbefore));
                                            assert(board_matches(board, w, line, d.range, d.color));
                                            let (r, c) = choose|r: int, c: int|
                                                #![trigger gbefore[r][c]]
                                                {
                                                    &&& on_range(line, d.range, r, c)
                                                    &&& 0 <= r < self.clues.spec_height()
                                                    &&& 0 <= c < self.clues.spec_width()
                                                    &&& gbefore[r][c] != CellState::Unconfirmed
                                                    &&& gbefore[r][c] != color_state(d.color)
                                                    &&& e == (Contradiction::CellConflict {
                                                        row: r as usize,
                                                        col: c as usize,
                                                        current: gbefore[r][c],
                                                        attempted: d.color,
                                                        line,
                                                        reason: d.reason,
                                                    })
                                                };
                                            match line {
                                                LineId::Row(li) => {
                                                    assert(board_line(board, w, line)[c] == board[r][c]);
                                                },
                                                LineId::Col(lj) => {
                                                    assert(board_line(board, w, line)[r] == board[r][c]);
                                                },
                                            }
                                        }
                                    }
                                }
                                return Err(e);
                            },
                        }
                        i += 1;
                    }
                    proof {
                        assert forall|l: LineId|
                            qc && #[trigger] self.clues.valid_line(l) implies self.dirty@.contains(l) || line_quiet(
                                self.clues,
                                self.grid,
                                l,
                            ) by {
                            if l == line && i == 0 && self.grid@ == snap@ && !self.dirty@.contains(l) {
                                assert(deductions@.len() == 0);
                                assert(self.grid.line_view(l) == snap.line_view(l));
                                assert(analysis_of(analysis, self.clues, self.grid, l));
                            }
                        }
                    }
                    proof {
                        assert(apply_from(self.clues, self.model(), line, deductions@, i as int) == (
                            Ok::<(), Contradiction>(()),
                            self.model(),
                        ));
                        lemma_rounds_shift(self.clues, p0, rounds, pstart, self.model());
                        rounds = rounds + 1;
                    }
                },
            }
        }
        proof {
            assert forall|l: LineId| qc && #[trigger] self.clues.valid_line(l) implies line_quiet(self.clues, self.grid, l) by {
                assert(!self.dirty@.contains(l));
            }
        }
        proof {
            if self.grid@ == g0 {
                assert(self.steps == old(self).steps);
            }
            assert(solve_rounds(self.clues, self.model(), 0) == (Ok::<(), Contradiction>(()), self.model(), true));
            assert(solve_rounds(self.clues, p0, rounds + 0) == solve_rounds(self.clues, self.model(), 0));
            assert(solve_ends(self.clues, p0, Ok(()), self.model()));
        }
        if self.grid.is_complete() {
            Ok(Outcome::Solved)
        } else {
            Ok(Outcome::Stuck)
        }
    }
}


impl Solver {
    /// The next step and the reason for it, without changing anything.
    ///
    /// Tries the rules cheapest first; each rule on every line in turn
    /// (`Row 0..`, then `Col 0..`); returns the first deduction found.
    /// `Ok(None)` when nothing more can be deduced; `Err` when the analysis
    /// finds a contradiction. The step of the hint is what
    /// [`Solver::next_step`] does next.
    pub fn hint(&self) -> (res: Result<Option<Hint>, Contradiction>)
        requires
            self.wf(),
        ensures
            match res {
                Ok(Some(h)) => {
                    &&& valid_hint(self.spec_clues(), self.spec_grid(), h)
                    &&& first_hint(self.spec_clues(), self.spec_grid(), h)
                },
                Ok(None) => rules_exhausted(self.spec_clues(), self.spec_grid()),
                Err(e) => {
                    &&& e is NoPlacement
                    &&& unsolvable(self.spec_clues(), self.spec_grid()@)
                    &&& first_failure(self.spec_clues(), self.spec_grid(), e)
                },
            },
    {
        let lines = self.clues.lines();
        let ghost n = lines@.len() as int;
        let mut analyses: Vec<LineAnalysis> = Vec::new();
        let mut buf: Vec<CellState> = Vec::new();
        let mut deductions: Vec<Deduction> = Vec::new();
        let mut k: usize = 0;
        while k < lines.len()
            invariant
                self.wf(),
                lines@ == self.clues.spec_lines(),
                n == lines@.len(),
                k <= lines@.len(),
                analyses@.len() == k,
                analyses_of(analyses@, self.clues, self.grid),
                forall|k2: int| 0 <= k2 < k ==> #[trigger] rule_reports(0, analyses@[k2]).len() == 0,
            decreases lines@.len() - k,
        {
            let line = lines[k];
            assert(self.clues.valid_line(line)) by {
                assert(line == self.clues.spec_lines()[k as int]);
            }
            let a = match self.analyze(line, &mut buf) {
                Ok(a) => a,
                Err(e) => {
                    proof {
                        assert(analyses_of(analyses@, self.clues, self.grid));
                        assert(analyses@.len() == k);
                    }
                    return Err(e);
                },
            };
            deductions.clear();
            run_rule(0, &a, &mut deductions);
            assert(deductions@ =~= rule_reports(0, a));
            if deductions.len() > 0 {
                let h = make_hint(line, &a, &deductions[0]);
                proof {
                    self.lemma_hint_valid(a, h);
                    let an = analyses@.push(a);
                    assert(an[k as int] == a);
                    assert forall|k2: int| 0 <= k2 < an.len() implies #[trigger] analysis_of(an[k2], self.clues, self.grid, self.clues.spec_lines()[k2]) by {
                        if k2 < k {
                            assert(an[k2] == analyses@[k2]);
                        }
                    }
                    assert forall|r2: int, k2: int|
                        #![trigger rule_reports(r2, an[k2])]
                        ((0 <= r2 < 0 && 0 <= k2 < n) || (r2 == 0 && 0 <= k2 < k)) implies rule_reports(r2, an[k2]).len() == 0 by {
                        assert(an[k2] == analyses@[k2]);
                    }
                    assert(first_report_at(an, n, 0, k as int));
                }
                return Ok(Some(h));
            }
            analyses.push(a);
            proof {
                assert forall|k2: int| 0 <= k2 < analyses@.len() implies #[trigger] analysis_of(analyses@[k2], self.clues, self.grid, self.clues.spec_lines()[k2]) by {
                }
            }
            k += 1;
        }
        let mut rule: usize = 1;
        while rule < RULE_COUNT
            invariant
                self.wf(),
                lines@ == self.clues.spec_lines(),
                n == lines@.len(),
                analyses@.len() == lines@.len(),
                analyses_of(analyses@, self.clues, self.grid),
                1 <= rule <= RULE_COUNT,
                forall|r2: int, k2: int|
                    #![trigger rule_reports(r2, analyses@[k2])]
                    0 <= r2 < rule && 0 <= k2 < n ==> rule_reports(r2, analyses@[k2]).len() == 0,
            decreases RULE_COUNT - rule,
        {
            let mut k: usize = 0;
            while k < lines.len()
                invariant
                    self.wf(),
                    lines@ == self.clues.spec_lines(),
                    n == lines@.len(),
                    analyses@.len() == lines@.len(),
                    analyses_of(analyses@, self.clues, self.grid),
                    1 <= rule < RULE_COUNT,
                    k <= lines@.len(),
                    forall|r2: int, k2: int|
                        #![trigger rule_reports(r2, analyses@[k2])]
                        (0 <= r2 < rule && 0 <= k2 < n) || (r2 == rule && 0 <= k2 < k) ==> rule_reports(r2, analyses@[k2]).len()
                            == 0,
                decreases lines@.len() - k,
            {
                let line = lines[k];
                assert(self.clues.valid_line(line)) by {
                    assert(line == self.clues.spec_lines()[k as int]);
                }
                assert(analysis_of(analyses@[k as int], self.clues, self.grid, lines@[k as int]));
                deductions.clear();
                run_rule(rule, &analyses[k], &mut deductions);
                assert(deductions@ =~= rule_reports(rule as int, analyses@[k as int]));
                if deductions.len() > 0 {
                    let h = make_hint(line, &analyses[k], &deductions[0]);
                    proof {
                        self.lemma_hint_valid(analyses@[k as int], h);
                        assert(first_report_at(analyses@, n, rule as int, k as int));
                    }
                    return Ok(Some(h));
                }
                k += 1;
            }
            rule += 1;
        }
        proof {
            assert forall|line: LineId| #[trigger] self.clues.valid_line(line) implies line_quiet(self.clues, self.grid, line) by {
                lemma_line_ordinal(self.clues, line);
                let k = line_ordinal(self.clues, line);
                let a = analyses@[k];
                assert(analysis_of(a, self.clues, self.grid, self.clues.spec_lines()[k]));
                assert forall|r: int| 0 <= r < RULE_COUNT implies #[trigger] rule_reports(r, a).len() == 0 by {
                    assert(rule_reports(r, analyses@[k]).len() == 0);
                }
                lemma_all_reports_empty(a, RULE_COUNT as int);
                assert(all_reports(a).len() == 0);
            }
        }
        Ok(None)
    }

    proof fn lemma_hint_valid(self, a: LineAnalysis, h: Hint)
        requires
            self.wf(),
            self.clues.valid_line(h.step.line),
            analysis_of(a, self.clues, self.grid, h.step.line),
            hint_from(a, h),
        ensures
            valid_hint(self.spec_clues(), self.spec_grid(), h),
    {
        assert forall|board: Seq<Seq<CellState>>|
            #[trigger] is_solution(self.clues, board) && agrees(board, self.grid@) implies board_matches(
                board,
                self.clues.spec_width(),
                h.step.line,
                h.step.deduction.range,
                h.step.deduction.color,
            ) by {
            lemma_deduction_holds(self.clues, board, self.grid, h.step.line, a, h.step.deduction);
        }
    }

    /// Takes the cheapest step: applies the deduction that [`Solver::hint`]
    /// returns and returns its step. `Ok(None)` when nothing more can be
    /// deduced.
    #[verifier::spinoff_prover]
    #[verifier::rlimit(80)]
    pub fn next_step(&mut self) -> (res: Result<Option<Step>, Contradiction>)
        requires
            old(self).wf(),
        ensures
            final(self).wf(),
            final(self).spec_clues() == old(self).spec_clues(),
            keeps_confirmed(old(self).spec_grid()@, final(self).spec_grid()@),
            solutions_kept(old(self).spec_clues(), old(self).spec_grid()@, final(self).spec_grid()@),
            match res {
                Ok(Some(step)) => {
                    &&& exists|h: Hint|
                        #![trigger valid_hint(old(self).spec_clues(), old(self).spec_grid(), h)]
                        valid_hint(old(self).spec_clues(), old(self).spec_grid(), h) && first_hint(
                            old(self).spec_clues(),
                            old(self).spec_grid(),
                            h,
                        ) && h.step == step
                    &&& final(self).spec_grid()@ == paint_range(
                        old(self).spec_grid()@,
                        step.line,
                        step.deduction.range,
                        step.deduction.color,
                    )
                    &&& forall|o: int|
                        step.deduction.range.start <= o < step.deduction.range.end ==> #[trigger] line_cell_state(
                            old(self).spec_grid()@,
                            step.line,
                            o,
                        ) == CellState::Unconfirmed || line_cell_state(old(self).spec_grid()@, step.line, o)
                            == color_state(step.deduction.color)
                    &&& final(self).spec_steps() == old(self).spec_steps() + 1
                },
                Ok(None) => {
                    &&& final(self).spec_grid() == old(self).spec_grid()
                    &&& rules_exhausted(old(self).spec_clues(), old(self).spec_grid())
                },
                Err(e) => {
                    &&& unsolvable(old(self).spec_clues(), old(self).spec_grid()@)
                    &&& on_board(old(self).spec_clues(), e)
                    &&& final(self).spec_steps() == old(self).spec_steps()
                    &&& (first_failure(old(self).spec_clues(), old(self).spec_grid(), e) || exists|h: Hint|
                        #![trigger first_hint(old(self).spec_clues(), old(self).spec_grid(), h)]
                        first_hint(old(self).spec_clues(), old(self).spec_grid(), h) && conflict_of(
                            old(self).spec_grid()@,
                            e,
                            h,
                        ))
                },
            },
            res is Ok ==> (old(self).queue_complete() ==> final(self).queue_complete()),
    {
        let h = match self.hint() {
            Ok(Some(h)) => h,
            Ok(None) => {
                return Ok(None);
            },
            Err(e) => {
                return Err(e);
            },
        };
        let ghost g0 = self.grid@;
        let ghost w = self.clues.spec_width();
        proof {
            self.grid.lemma_view();
            let a = choose|a: LineAnalysis| #[trigger] analysis_of(a, self.clues, self.grid, h.step.line) && hint_from(a, h);
            assert(a.cells@.len() == self.clues.spec_line_len(h.step.line));
        }
        let ghost grid_before = self.grid;
        let ghost dirty_before = self.dirty@;
        match self.apply(h.step.line, &h.step.deduction) {
            Ok(changed) => {
                proof {
                    if old(self).queue_complete() {
                        assert forall|l: LineId|
                            #[trigger] self.clues.valid_line(l) implies self.dirty@.contains(l) || line_quiet(self.clues, self.grid, l) by {
                            if !self.dirty@.contains(l) {
                                assert(!dirty_before.contains(l));
                                assert(line_quiet(self.clues, grid_before, l));
                                lemma_quiet_same_view(self.clues, grid_before, self.grid, l);
                            }
                        }
                    }
                    let d = h.step.deduction;
                    let a = choose|a: LineAnalysis| #[trigger] analysis_of(a, self.clues, old(self).grid, h.step.line) && hint_from(a, h);
                    assert(crate::rules::is_new(a.cells@, d.range, d.color));
                    let o = choose|o: int| d.range.start <= o < d.range.end && #[trigger] a.cells@[o] != color_state(d.color);
                    // the new cell is unconfirmed (it has no colour yet and no
                    // conflict arose), so the step changed the board
                    let (r, c) = h.step.line.cell_at(o);
                    assert(on_range(h.step.line, d.range, r as int, c as int));
                    assert(a.cells@[o] == g0[r as int][c as int]);
                    if !changed {
                        assert(self.grid@[r as int][c as int] == g0[r as int][c as int]);
                    }
                    assert(changed);
                    assert forall|board: Seq<Seq<CellState>>|
                        #[trigger] is_solution(self.clues, board) && agrees(board, g0) implies agrees(board, self.grid@) by {
                        lemma_agrees_paint(board, g0, w, h.step.line, d.range, d.color);
                    }
                }
            },
            Err(e) => {
                proof {
                    let d = h.step.deduction;
                    assert forall|board: Seq<Seq<CellState>>| #[trigger] is_solution(self.clues, board) implies !agrees(board, g0) by {
                        if agrees(board, g0) {
                            assert(board_matches(board, w, h.step.line, d.range, d.color));
                            let (r, c) = choose|r: int, c: int|
                                #![trigger g0[r][c]]
                                {
                                    &&& on_range(h.step.line, d.range, r, c)
                                    &&& 0 <= r < self.clues.spec_height()
                                    &&& 0 <= c < self.clues.spec_width()
                                    &&& g0[r][c] != CellState::Unconfirmed
                                    &&& g0[r][c] != color_state(d.color)
                                    &&& e == (Contradiction::CellConflict {
                                        row: r as usize,
                                        col: c as usize,
                                        current: g0[r][c],
                                        attempted: d.color,
                                        line: h.step.line,
                                        reason: d.reason,
                                    })
                                };
                            match h.step.line {
                                LineId::Row(li) => {
                                    assert(board_line(board, w, h.step.line)[c] == board[r][c]);
                                },
                                LineId::Col(lj) => {
                                    assert(board_line(board, w, h.step.line)[r] == board[r][c]);
                                },
                            }
                        }
                    }
                }
                return Err(e);
            },
        }
        Ok(Some(h.step))
    }

    /// The clues.
    pub fn clues(&self) -> (res: &Clues)
        ensures
            *res == self.spec_clues(),
    {
        &self.clues
    }

    /// The current board.
    pub fn grid(&self) -> (res: &Grid)
        ensures
            *res == self.spec_grid(),
    {
        &self.grid
    }

    /// The state of cell `(row, col)` (the same as
    /// `self.grid().get(row, col)`).
    pub fn state(&self, row: usize, col: usize) -> (res: CellState)
        requires
            self.wf(),
            row < self.spec_clues().spec_height(),
            col < self.spec_clues().spec_width(),
        ensures
            res == self.spec_grid().at(row as int, col as int),
    {
        self.grid.get(row, col)
    }

    /// The board satisfies every clue ([`Grid::satisfies`]).
    pub fn judge(&self) -> (res: bool)
        requires
            self.wf(),
        ensures
            res == is_solution(self.spec_clues(), self.spec_grid()@),
    {
        self.grid.satisfies(&self.clues)
    }

    /// The number of steps so far that changed the board (counted by
    /// [`Solver::solve`] and [`Solver::next_step`]).
    pub fn steps_applied(&self) -> (res: usize)
        ensures
            res == self.spec_steps(),
    {
        self.steps
    }
}


// ---------------------------------------------------------------------------
// Text

/// The digit of `d`, for `d` below ten.
pub open spec fn digit_char(d: usize) -> char {
    if d == 0 { '0' } else if d == 1 { '1' } else if d == 2 { '2' } else if d == 3 { '3' }
    else if d == 4 { '4' } else if d == 5 { '5' } else if d == 6 { '6' } else if d == 7 { '7' }
    else if d == 8 { '8' } else { '9' }
}

/// The mark of a black cell whose only possible block is `id`: the digit
/// below ten, `#` from ten on, `o` when more than one block is possible.
pub open spec fn id_mark(id: Option<usize>) -> char {
    match id {
        Some(d) => if d < 10 {
            digit_char(d)
        } else {
            '#'
        },
        None => 'o',
    }
}

fn id_char(id: Option<usize>) -> (res: char)
    ensures
        res == id_mark(id),
{
    match id {
        Some(d) => {
            if d == 0 { '0' } else if d == 1 { '1' } else if d == 2 { '2' } else if d == 3 { '3' }
            else if d == 4 { '4' } else if d == 5 { '5' } else if d == 6 { '6' } else if d == 7 { '7' }
            else if d == 8 { '8' } else if d == 9 { '9' } else { '#' }
        },
        None => 'o',
    }
}

/// In every arrangement of the blocks of sizes `sizes` that agrees with
/// `cells`, block `d` is the only block that can cover cell `j`.
pub open spec fn only_block(sizes: Seq<usize>, cells: Seq<CellState>, j: int, d: usize) -> bool {
    forall|s: Seq<int>|
        #[trigger] consistent(sizes, cells, s) ==> forall|x: int|
            0 <= x < sizes.len() && #[trigger] covers(sizes, s, x, j) ==> x == d
}

/// Every block of the settled analysis of a line with clue `sizes` and
/// cells `cells` fits in its range: [`LineAnalysis::compute`] succeeds.
pub open spec fn line_analyzable(sizes: Seq<usize>, cells: Seq<CellState>) -> bool {
    forall|id: int|
        0 <= id < sizes.len() ==> left_start(sizes, cells, settled(sizes, cells), id) + sizes[id]
            <= #[trigger] right_end(sizes, cells, settled(sizes, cells), id)
}

/// Block `block` is the first block of the settled analysis of a line with
/// clue `sizes` and cells `cells` that does not fit in its range: the block
/// that [`LineAnalysis::compute`] reports.
pub open spec fn first_unfit(sizes: Seq<usize>, cells: Seq<CellState>, block: int) -> bool {
    &&& 0 <= block < sizes.len()
    &&& left_start(sizes, cells, settled(sizes, cells), block) + sizes[block] > right_end(
        sizes,
        cells,
        settled(sizes, cells),
        block,
    )
    &&& forall|i: int|
        0 <= i < block ==> left_start(sizes, cells, settled(sizes, cells), i) + sizes[i]
            <= #[trigger] right_end(sizes, cells, settled(sizes, cells), i)
}

/// The contradiction that [`Solver::hint`] reports on `grid`: trying the
/// first rule line by line, the first line that cannot be analysed, with
/// its first block that fits nowhere.
pub open spec fn first_failure(clues: Clues, grid: Grid, e: Contradiction) -> bool {
    exists|an: Seq<LineAnalysis>|
        #![trigger analyses_of(an, clues, grid)]
        {
            let k = an.len() as int;
            let line = clues.spec_lines()[k];
            &&& analyses_of(an, clues, grid)
            &&& k < clues.spec_lines().len()
            &&& forall|k2: int| 0 <= k2 < k ==> #[trigger] rule_reports(0, an[k2]).len() == 0
            &&& e matches Contradiction::NoPlacement { line: l, block } && l == line && first_unfit(
                clues.line_blocks(line),
                grid.line_view(line),
                block as int,
            )
        }
}

/// The contradiction `e` lies on the board of `clues`, in board
/// coordinates: a block of a line of the board that fits nowhere, or a
/// cell of the line of the deduction that holds the other colour.
pub open spec fn on_board(clues: Clues, e: Contradiction) -> bool {
    match e {
        Contradiction::NoPlacement { line, block } => clues.valid_line(line) && block < clues.line_blocks(line).len(),
        Contradiction::CellConflict { row, col, current, attempted, line, .. } => {
            &&& clues.valid_line(line)
            &&& row < clues.spec_height()
            &&& col < clues.spec_width()
            &&& match line {
                LineId::Row(i) => i == row,
                LineId::Col(j) => j == col,
            }
            &&& current != CellState::Unconfirmed
            &&& current != color_state(attempted)
        },
    }
}

/// Painting deduction `d` on `line` of the board `g` first runs into a
/// cell of the other colour at offset `o`, and `e` reports that cell: the
/// cells of the range before `o` are unconfirmed or of the colour of `d`.
pub open spec fn conflict_at(g: Seq<Seq<CellState>>, line: LineId, d: Deduction, e: Contradiction, o: int) -> bool {
    &&& d.range.start <= o < d.range.end
    &&& line_cell_state(g, line, o) != CellState::Unconfirmed
    &&& line_cell_state(g, line, o) != color_state(d.color)
    &&& forall|o2: int|
        d.range.start <= o2 < o ==> #[trigger] line_cell_state(g, line, o2) == CellState::Unconfirmed
            || line_cell_state(g, line, o2) == color_state(d.color)
    &&& e == (Contradiction::CellConflict {
        row: line.cell_at(o).0,
        col: line.cell_at(o).1,
        current: line_cell_state(g, line, o),
        attempted: d.color,
        line,
        reason: d.reason,
    })
}

/// `e` is the conflict that painting the step of `h` on the board `g` runs
/// into first.
pub open spec fn conflict_of(g: Seq<Seq<CellState>>, e: Contradiction, h: Hint) -> bool {
    exists|o: int| #[trigger] conflict_at(g, h.step.line, h.step.deduction, e, o)
}

/// The only block of a candidate range, if it holds exactly one.
pub open spec fn only_candidate(c: Range<usize>) -> Option<usize> {
    if c.start < c.end && c.end - c.start == 1 {
        Some(c.start)
    } else {
        None
    }
}

/// The mark of cell `o` of `line` in the debug display: a black cell shows
/// the only candidate block that the analysis of the line leaves it (`o`
/// when several are left, or when the line cannot be analysed); other cells
/// show their state.
pub open spec fn line_mark(clues: Clues, grid: Grid, line: LineId, o: int) -> char {
    let sizes = clues.line_blocks(line);
    let cells = grid.line_view(line);
    if cells[o] != CellState::Black {
        state_char(cells[o])
    } else if line_analyzable(sizes, cells) {
        id_mark(only_candidate(settled(sizes, cells)[o]))
    } else {
        'o'
    }
}

/// `ids` is what the debug display reads of `line`: the only candidate
/// block of each cell when the line can be analysed, nothing otherwise.
pub open spec fn ids_of_line(clues: Clues, grid: Grid, line: LineId, ids: Option<Vec<Option<usize>>>) -> bool {
    let sizes = clues.line_blocks(line);
    let cells = grid.line_view(line);
    match ids {
        Some(v) => {
            &&& line_analyzable(sizes, cells)
            &&& v@.len() == cells.len()
            &&& forall|j: int| 0 <= j < v@.len() ==> #[trigger] v@[j] == only_candidate(settled(sizes, cells)[j])
        },
        None => !line_analyzable(sizes, cells),
    }
}

/// `mark` is the mark of cell `o` of `line`.
pub open spec fn line_mark_ok(clues: Clues, grid: Grid, line: LineId, o: int, mark: char) -> bool {
    mark == line_mark(clues, grid, line, o)
}

/// The boards of marks by rows and by columns of the debug display.
pub open spec fn debug_marks_ok(clues: Clues, grid: Grid, by_rows: Seq<Seq<char>>, by_cols: Seq<Seq<char>>) -> bool {
    let h = clues.spec_height();
    let w = clues.spec_width();
    &&& by_rows.len() == h
    &&& by_cols.len() == h
    &&& forall|r: int| 0 <= r < h ==> (#[trigger] by_rows[r]).len() == w && by_cols[r].len() == w
    &&& forall|r: int, c: int|
        0 <= r < h && 0 <= c < w ==> line_mark_ok(clues, grid, LineId::Row(r as usize), c, #[trigger] by_rows[r][c])
    &&& forall|r: int, c: int|
        0 <= r < h && 0 <= c < w ==> line_mark_ok(clues, grid, LineId::Col(c as usize), r, #[trigger] by_cols[r][c])
}

/// Three texts of lines side by side, two spaces apart, as many lines as
/// the shortest has, each followed by a newline.
pub open spec fn side_by_side(a: Seq<Seq<char>>, b: Seq<Seq<char>>, c: Seq<Seq<char>>, n: int) -> Seq<char>
    decreases n,
{
    if n <= 0 {
        Seq::empty()
    } else {
        side_by_side(a, b, c, n - 1) + a[n - 1] + seq![' ', ' '] + b[n - 1] + seq![' ', ' '] + c[n - 1] + seq!['\n']
    }
}

impl Solver {
    /// For each cell of `line`, the only block that can cover it, if one;
    /// `None` when the line has no arrangement at all.
    fn confirmed_ids(&self, line: LineId) -> (res: Option<Vec<Option<usize>>>)
        requires
            self.wf(),
            self.clues.valid_line(line),
        ensures
            match res {
                Some(ids) => {
                    &&& line_analyzable(self.clues.line_blocks(line), self.grid.line_view(line))
                    &&& ids@.len() == self.grid.line_view(line).len()
                    &&& forall|j: int|
                        0 <= j < ids@.len() ==> #[trigger] ids@[j] == only_candidate(
                            settled(self.clues.line_blocks(line), self.grid.line_view(line))[j],
                        )
                    &&& forall|j: int|
                        0 <= j < ids@.len() ==> (#[trigger] ids@[j] matches Some(d) ==> only_block(
                            self.clues.line_blocks(line),
                            self.grid.line_view(line),
                            j,
                            d,
                        ))
                },
                None => !line_analyzable(self.clues.line_blocks(line), self.grid.line_view(line)),
            },
            ids_of_line(self.clues, self.grid, line, res),
    {
        let mut buf: Vec<CellState> = Vec::new();
        let a = match self.analyze(line, &mut buf) {
            Ok(a) => a,
            Err(_) => {
                return None;
            },
        };
        proof {
            let sizes = self.clues.line_blocks(line);
            let cells = self.grid.line_view(line);
            assert forall|id: int| 0 <= id < sizes.len() implies left_start(sizes, cells, settled(sizes, cells), id)
                + sizes[id] <= #[trigger] right_end(sizes, cells, settled(sizes, cells), id) by {
                assert(a.blocks@[id].possible_placement.start + a.blocks@[id].size <= a.blocks@[id].possible_placement.end);
                assert(a.sizes()[id] == a.blocks@[id].size);
            }
        }
        let mut ids: Vec<Option<usize>> = Vec::new();
        let mut j: usize = 0;
        while j < a.n()
            invariant
                analysis_of(a, self.clues, self.grid, line),
                j <= a.cells@.len(),
                ids@.len() == j,
                forall|t: int|
                    0 <= t < j ==> #[trigger] ids@[t] == only_candidate(
                        settled(self.clues.line_blocks(line), self.grid.line_view(line))[t],
                    ),
                forall|t: int|
                    0 <= t < j ==> (#[trigger] ids@[t] matches Some(d) ==> only_block(
                        self.clues.line_blocks(line),
                        self.grid.line_view(line),
                        t,
                        d,
                    )),
            decreases a.cells@.len() - j,
        {
            let id = a.confirmed_id(j);
            proof {
                if let Some(d) = id {
                    let sz = a.sizes();
                    assert forall|s: Seq<int>|
                        #[trigger] consistent(sz, a.cells@, s) implies forall|x: int|
                            0 <= x < sz.len() && #[trigger] covers(sz, s, x, j as int) ==> x == d by {
                        assert forall|x: int| 0 <= x < sz.len() && #[trigger] covers(sz, s, x, j as int) implies x == d by {
                            crate::analysis::lemma_cover_in_cand(sz, a.candidates@, s, x, j as int);
                        }
                    }
                }
            }
            ids.push(id);
            j += 1;
        }
        Some(ids)
    }

    /// The board as text, as [`Grid::to_text`] gives it.
    pub fn to_text(&self) -> (res: String)
        requires
            self.wf(),
        ensures
            res@ == lines_text(board_lines(board_chars(self.spec_grid()@), self.spec_grid().spec_width())),
    {
        self.grid.to_text()
    }

    /// A debugging view of three boards side by side: the plain board; the
    /// board with each black cell showing the only block its row allows
    /// (one digit, `#` from ten on, `o` when several blocks are possible);
    /// and the same by columns.
    #[verifier::spinoff_prover]
    #[verifier::rlimit(30)]
    pub fn debug_display(&self) -> (res: String)
        requires
            self.wf(),
        ensures
            exists|by_rows: Seq<Seq<char>>, by_cols: Seq<Seq<char>>|
                #[trigger] debug_marks_ok(self.spec_clues(), self.spec_grid(), by_rows, by_cols) && res@
                    == side_by_side(
                    board_lines(board_chars(self.spec_grid()@), self.spec_grid().spec_width()),
                    board_lines(by_rows, self.spec_grid().spec_width()),
                    board_lines(by_cols, self.spec_grid().spec_width()),
                    board_lines(by_rows, self.spec_grid().spec_width()).len() as int,
                ),
    {
        let h = self.grid.height();
        let w = self.grid.width();
        proof {
            self.grid.lemma_view();
        }
        let mut by_rows: Vec<Option<Vec<Option<usize>>>> = Vec::new();
        let mut i: usize = 0;
        while i < h
            invariant
                self.wf(),
                h == self.clues.spec_height(),
                w == self.clues.spec_width(),
                i <= h,
                by_rows@.len() == i,
                forall|r: int| 0 <= r < i ==> ids_of_line(self.clues, self.grid, LineId::Row(r as usize), #[trigger] by_rows@[r]),
            decreases h - i,
        {
            by_rows.push(self.confirmed_ids(LineId::Row(i)));
            i += 1;
        }
        let mut by_cols: Vec<Option<Vec<Option<usize>>>> = Vec::new();
        let mut j: usize = 0;
        while j < w
            invariant
                self.wf(),
                h == self.clues.spec_height(),
                w == self.clues.spec_width(),
                j <= w,
                by_cols@.len() == j,
                forall|c: int| 0 <= c < j ==> ids_of_line(self.clues, self.grid, LineId::Col(c as usize), #[trigger] by_cols@[c]),
            decreases w - j,
        {
            proof {
                self.grid.lemma_view();
            }
            by_cols.push(self.confirmed_ids(LineId::Col(j)));
            j += 1;
        }
        let plain = self.grid.chars();
        let mut rmarks: Vec<Vec<char>> = Vec::new();
        let mut cmarks: Vec<Vec<char>> = Vec::new();
        let mut r: usize = 0;
        while r < h
            invariant
                self.wf(),
                h == self.clues.spec_height(),
                w == self.clues.spec_width(),
                r <= h,
                by_rows@.len() == h,
                by_cols@.len() == w,
                forall|rr: int| 0 <= rr < h ==> ids_of_line(self.clues, self.grid, LineId::Row(rr as usize), #[trigger] by_rows@[rr]),
                forall|cc: int| 0 <= cc < w ==> ids_of_line(self.clues, self.grid, LineId::Col(cc as usize), #[trigger] by_cols@[cc]),
                rmarks@.len() == r,
                cmarks@.len() == r,
                forall|k: int| 0 <= k < r ==> (#[trigger] rmarks@[k])@.len() == w && cmarks@[k]@.len() == w,
                forall|k: int, c: int|
                    0 <= k < r && 0 <= c < w ==> line_mark_ok(
                        self.clues,
                        self.grid,
                        LineId::Row(k as usize),
                        c,
                        #[trigger] rmarks@[k]@[c],
                    ),
                forall|k: int, c: int|
                    0 <= k < r && 0 <= c < w ==> line_mark_ok(
                        self.clues,
                        self.grid,
                        LineId::Col(c as usize),
                        k,
                        #[trigger] cmarks@[k]@[c],
                    ),
            decreases h - r,
        {
            let mut rrow: Vec<char> = Vec::new();
            let mut crow: Vec<char> = Vec::new();
            let mut c: usize = 0;
            while c < w
                invariant
                    self.wf(),
                    h == self.clues.spec_height(),
                    w == self.clues.spec_width(),
                    r < h,
                    c <= w,
                    by_rows@.len() == h,
                    by_cols@.len() == w,
                    forall|rr: int| 0 <= rr < h ==> ids_of_line(self.clues, self.grid, LineId::Row(rr as usize), #[trigger] by_rows@[rr]),
                    forall|cc: int| 0 <= cc < w ==> ids_of_line(self.clues, self.grid, LineId::Col(cc as usize), #[trigger] by_cols@[cc]),
                    rrow@.len() == c,
                    crow@.len() == c,
                    forall|k: int|
                        0 <= k < c ==> line_mark_ok(self.clues, self.grid, LineId::Row(r as usize), k, #[trigger] rrow@[k]),
                    forall|k: int|
                        0 <= k < c ==> line_mark_ok(self.clues, self.grid, LineId::Col(k as usize), r as int, #[trigger] crow@[k]),
                decreases w - c,
            {
                proof {
                    self.grid.lemma_view();
                }
                let st = self.grid.get(r, c);
                let ghost rl = self.grid.line_view(LineId::Row(r));
                let ghost cl = self.grid.line_view(LineId::Col(c));
                assert(rl[c as int] == st);
                assert(cl[r as int] == st);
                if st == CellState::Black {
                    let rid = match &by_rows[r] {
                        Some(ids) => ids[c],
                        None => None,
                    };
                    let cid = match &by_cols[c] {
                        Some(ids) => ids[r],
                        None => None,
                    };
                    let rm = id_char(rid);
                    let cm = id_char(cid);
                    proof {
                        assert(rm == id_mark(rid));
                        assert(cm == id_mark(cid));
                    }
                    rrow.push(rm);
                    crow.push(cm);
                } else {
                    rrow.push(cell_char(st));
                    crow.push(cell_char(st));
                }
                c += 1;
            }
            rmarks.push(rrow);
            cmarks.push(crow);
            r += 1;
        }
        let a = render_board(&plain, w);
        let b = render_board(&rmarks, w);
        let cc = render_board(&cmarks, w);
        let ghost av = a@.map_values(|l: String| l@);
        let ghost bv = b@.map_values(|l: String| l@);
        let ghost cv = cc@.map_values(|l: String| l@);
        let ghost rv = rmarks@.map_values(|r: Vec<char>| r@);
        let ghost cmv = cmarks@.map_values(|r: Vec<char>| r@);
        proof {
            assert(debug_marks_ok(self.clues, self.grid, rv, cmv)) by {
                assert forall|r: int| 0 <= r < h implies (#[trigger] rv[r]).len() == w && cmv[r].len() == w by {
                    assert(rv[r] == rmarks@[r]@);
                    assert(cmv[r] == cmarks@[r]@);
                }
                assert forall|r: int, c: int|
                    0 <= r < h && 0 <= c < w implies line_mark_ok(self.clues, self.grid, LineId::Row(r as usize), c, #[trigger] rv[r][c]) by {
                    assert(rv[r] == rmarks@[r]@);
                }
                assert forall|r: int, c: int|
                    0 <= r < h && 0 <= c < w implies line_mark_ok(self.clues, self.grid, LineId::Col(c as usize), r, #[trigger] cmv[r][c]) by {
                    assert(cmv[r] == cmarks@[r]@);
                }
            }
        }
        let n = if a.len() < b.len() {
            if a.len() < cc.len() { a.len() } else { cc.len() }
        } else {
            if b.len() < cc.len() { b.len() } else { cc.len() }
        };
        let mut out = String::new();
        let mut k: usize = 0;
        while k < n
            invariant
                n <= a@.len(),
                n <= b@.len(),
                n <= cc@.len(),
                av == a@.map_values(|l: String| l@),
                bv == b@.map_values(|l: String| l@),
                cv == cc@.map_values(|l: String| l@),
                k <= n,
                out@ == side_by_side(av, bv, cv, k as int),
            decreases n - k,
        {
            out.append(a[k].as_str());
            out.append("  ");
            out.append(b[k].as_str());
            out.append("  ");
            out.append(cc[k].as_str());
            push_char(&mut out, '\n');
            proof {
                reveal_strlit("  ");
                assert(out@ =~= side_by_side(av, bv, cv, k + 1));
            }
            k += 1;
        }
        proof {
            assert(av.len() == bv.len() && bv.len() == cv.len()) by {
                crate::grid::lemma_board_lines_len(board_chars(self.grid@), w as nat);
                crate::grid::lemma_board_lines_len(rv, w as nat);
                crate::grid::lemma_board_lines_len(cmv, w as nat);
            }
            assert(self.grid@.len() == h);
            assert(board_chars(self.grid@).len() == h);
            assert(debug_marks_ok(self.clues, self.grid, rv, cmv));
            assert(av == board_lines(board_chars(self.grid@), w as nat));
            assert(bv == board_lines(rv, w as nat));
            assert(cv == board_lines(cmv, w as nat));
            assert(n == bv.len());
            assert(out@ == side_by_side(
                board_lines(board_chars(self.spec_grid()@), self.spec_grid().spec_width()),
                board_lines(rv, self.spec_grid().spec_width()),
                board_lines(cmv, self.spec_grid().spec_width()),
                board_lines(rv, self.spec_grid().spec_width()).len() as int,
            ));
            assert(debug_marks_ok(self.spec_clues(), self.spec_grid(), rv, cmv));
        }
        out
    }
}

} // verus!
