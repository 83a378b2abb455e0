//! Interaction: a thin layer that holds only the user's board and history of
//! edits as its truth.
//!
//! A [`Session`] keeps no solver state. Each time it is asked for a hint, a
//! deduction or mistakes, it builds a fresh [`Solver`] from the current
//! board, so that no deduction state can outlive an edit (such as going back
//! to unconfirmed).
use vstd::prelude::*;
use crate::clue::Clues;
use crate::grid::{CellState, Grid, blank_board, is_solution, agrees, keeps_confirmed, lemma_solution_same_clues};
use crate::solver::{
    Contradiction, Hint, Solver, valid_hint, unsolvable, solutions_kept, first_hint, rules_exhausted, line_quiet,
    analysis_of, analyses_of, first_report_at, first_failure, on_board, fresh_progress, solves_to,
    solve_fails_with, solve_status, solve_ends, lemma_ends_same_clues, lemma_rounds_same_clues,
};
use crate::analysis::LineAnalysis;
use crate::rules::all_reports;

verus! {

/// One call of [`Session::set`], replayed by undo and rollback.
#[derive(Clone, Copy, Debug)]
struct Edit {
    row: usize,
    col: usize,
    state: CellState,
}

/// The board of `height` x `width` cells after the edits `edits`, in order,
/// on a blank board.
pub open spec fn replay(height: nat, width: nat, edits: Seq<(usize, usize, CellState)>) -> Seq<Seq<CellState>>
    decreases edits.len(),
{
    if edits.len() == 0 {
        blank_board(height, width)
    } else {
        let b = replay(height, width, edits.drop_last());
        let (r, c, st) = edits.last();
        b.update(r as int, b[r as int].update(c as int, st))
    }
}

proof fn lemma_kept_transfer(c1: Clues, c2: Clues, before: Seq<Seq<CellState>>, after: Seq<Seq<CellState>>)
    requires
        c1.row_clues() == c2.row_clues(),
        c1.col_clues() == c2.col_clues(),
        solutions_kept(c2, before, after),
    ensures
        solutions_kept(c1, before, after),
{
    assert forall|board: Seq<Seq<CellState>>|
        #[trigger] is_solution(c1, board) && agrees(board, before) implies agrees(board, after) by {
        lemma_solution_same_clues(c1, c2, board);
    }
}

proof fn lemma_unsolvable_transfer(c1: Clues, c2: Clues, g: Seq<Seq<CellState>>)
    requires
        c1.row_clues() == c2.row_clues(),
        c1.col_clues() == c2.col_clues(),
        unsolvable(c2, g),
    ensures
        unsolvable(c1, g),
{
    assert forall|board: Seq<Seq<CellState>>| #[trigger] is_solution(c1, board) implies !agrees(board, g) by {
        lemma_solution_same_clues(c1, c2, board);
    }
}

/// The rules have nothing more to deduce under clues that are the same
/// as clues under which they have nothing more to deduce.
proof fn lemma_exhausted_transfer(c1: Clues, c2: Clues, g1: Grid, g2: Grid)
    requires
        c1.row_clues() == c2.row_clues(),
        c1.col_clues() == c2.col_clues(),
        g1@ == g2@,
        g1.spec_width() == g2.spec_width(),
        rules_exhausted(c2, g2),
    ensures
        rules_exhausted(c1, g1),
{
    assert forall|line: crate::clue::LineId| #[trigger] c1.valid_line(line) implies line_quiet(c1, g1, line) by {
        assert(c2.valid_line(line));
        let a = choose|a: LineAnalysis| #[trigger] analysis_of(a, c2, g2, line) && all_reports(a).len() == 0;
        assert(analysis_of(a, c1, g1, line));
    }
}

/// The first hint under clues that are the same as other clues is the
/// first hint under those.
proof fn lemma_first_hint_transfer(c1: Clues, c2: Clues, g1: Grid, g2: Grid, h: Hint)
    requires
        c1.row_clues() == c2.row_clues(),
        c1.col_clues() == c2.col_clues(),
        g1@ == g2@,
        g1.spec_width() == g2.spec_width(),
        first_hint(c2, g2, h),
    ensures
        first_hint(c1, g1, h),
{
    let (an, rule, k) = choose|an: Seq<LineAnalysis>, rule: int, k: int|
        #![trigger first_report_at(an, c2.spec_lines().len() as int, rule, k)]
        {
            &&& analyses_of(an, c2, g2)
            &&& first_report_at(an, c2.spec_lines().len() as int, rule, k)
            &&& h.step.line == c2.spec_lines()[k]
            &&& h.step.deduction == crate::rules::rule_reports(rule, an[k])[0]
            &&& crate::solver::hint_from(an[k], h)
        };
    assert(c1.spec_lines() == c2.spec_lines());
    assert forall|i: int| 0 <= i < an.len() implies #[trigger] analysis_of(an[i], c1, g1, c1.spec_lines()[i]) by {
        assert(analysis_of(an[i], c2, g2, c2.spec_lines()[i]));
    }
    assert(analyses_of(an, c1, g1));
    assert(first_report_at(an, c1.spec_lines().len() as int, rule, k));
}

/// The first failure under clues that are the same as other clues is the
/// first failure under those.
proof fn lemma_first_failure_transfer(c1: Clues, c2: Clues, g1: Grid, g2: Grid, e: Contradiction)
    requires
        c1.row_clues() == c2.row_clues(),
        c1.col_clues() == c2.col_clues(),
        g1@ == g2@,
        g1.spec_width() == g2.spec_width(),
        first_failure(c2, g2, e),
    ensures
        first_failure(c1, g1, e),
{
    let an = choose|an: Seq<LineAnalysis>|
        #![trigger analyses_of(an, c2, g2)]
        {
            let k = an.len() as int;
            let line = c2.spec_lines()[k];
            &&& analyses_of(an, c2, g2)
            &&& k < c2.spec_lines().len()
            &&& forall|k2: int| 0 <= k2 < k ==> #[trigger] crate::rules::rule_reports(0, an[k2]).len() == 0
            &&& e matches Contradiction::NoPlacement { line: l, block } && l == line && crate::solver::first_unfit(
                c2.line_blocks(line),
                g2.line_view(line),
                block as int,
            )
        };
    assert(c1.spec_lines() == c2.spec_lines());
    assert forall|i: int| 0 <= i < an.len() implies #[trigger] analysis_of(an[i], c1, g1, c1.spec_lines()[i]) by {
        assert(analysis_of(an[i], c2, g2, c2.spec_lines()[i]));
    }
    assert(analyses_of(an, c1, g1));
}

/// The dimensions of a replayed board.
pub proof fn lemma_replay_dims(height: nat, width: nat, edits: Seq<(usize, usize, CellState)>)
    requires
        forall|i: int| 0 <= i < edits.len() ==> (#[trigger] edits[i]).0 < height && edits[i].1 < width,
    ensures
        replay(height, width, edits).len() == height,
        forall|r: int| 0 <= r < height ==> (#[trigger] replay(height, width, edits)[r]).len() == width,
    decreases edits.len(),
{
    if edits.len() > 0 {
        assert forall|i: int| 0 <= i < edits.drop_last().len() implies (#[trigger] edits.drop_last()[i]).0 < height
            && edits.drop_last()[i].1 < width by {
            assert(edits.drop_last()[i] == edits[i]);
        }
        lemma_replay_dims(height, width, edits.drop_last());
        assert(edits.last() == edits[edits.len() - 1]);
    }
}

/// The cell `(row, col)` is a mistake: the user confirmed it, the answer
/// confirmed it, and they differ.
pub open spec fn is_mistake(user: Seq<Seq<CellState>>, answer: Seq<Seq<CellState>>, row: int, col: int) -> bool {
    &&& user[row][col] != CellState::Unconfirmed
    &&& answer[row][col] != CellState::Unconfirmed
    &&& user[row][col] != answer[row][col]
}

/// `cells` are the mistakes of `user` against `answer`, boards of `height`
/// x `width` cells, in row-major order.
pub open spec fn mistakes_are(
    user: Seq<Seq<CellState>>,
    answer: Seq<Seq<CellState>>,
    height: nat,
    width: nat,
    cells: Seq<(usize, usize)>,
) -> bool {
    &&& forall|i: int|
        0 <= i < cells.len() ==> (#[trigger] cells[i]).0 < height && cells[i].1 < width && is_mistake(
            user,
            answer,
            cells[i].0 as int,
            cells[i].1 as int,
        )
    &&& forall|i: int, j: int|
        0 <= i < j < cells.len() ==> (#[trigger] cells[i]).0 < (#[trigger] cells[j]).0 || (cells[i].0
            == cells[j].0 && cells[i].1 < cells[j].1)
    &&& forall|r: int, c: int|
        0 <= r < height && 0 <= c < width && #[trigger] is_mistake(user, answer, r, c) ==> cells.contains(
            (r as usize, c as usize),
        )
}

/// The interactive layer: clues, the user's board and the history of edits;
/// no solver state.
pub struct Session {
    clues: Clues,
    grid: Grid,
    history: Vec<Edit>,
}

impl Session {
    /// The clues.
    pub closed spec fn spec_clues(self) -> Clues {
        self.clues
    }

    /// The user's board.
    pub closed spec fn spec_grid(self) -> Grid {
        self.grid
    }

    /// The edits so far, in order.
    pub closed spec fn edits(self) -> Seq<(usize, usize, CellState)> {
        self.history@.map_values(|e: Edit| (e.row, e.col, e.state))
    }

    /// The board is the replay of the edits, and lies on the board of the
    /// clues.
    pub closed spec fn wf(self) -> bool {
        &&& self.clues.wf()
        &&& self.clues.fits_machine()
        &&& self.grid.wf()
        &&& self.grid.spec_height() == self.clues.spec_height()
        &&& self.grid.spec_width() == self.clues.spec_width()
        &&& forall|i: int|
            0 <= i < self.history@.len() ==> (#[trigger] self.history@[i]).row < self.clues.spec_height()
                && self.history@[i].col < self.clues.spec_width()
        &&& self.grid@ == replay(self.clues.spec_height(), self.clues.spec_width(), self.edits())
    }

    /// What the well-formedness of a session gives its users: valid clues,
    /// a board of their dimensions, and the board being the replay of the
    /// edits.
    pub proof fn lemma_parts(self)
        requires
            self.wf(),
        ensures
            self.spec_clues().wf(),
            self.spec_clues().fits_machine(),
            self.spec_grid().wf(),
            self.spec_grid().spec_height() == self.spec_clues().spec_height(),
            self.spec_grid().spec_width() == self.spec_clues().spec_width(),
            self.spec_grid()@ == replay(
                self.spec_clues().spec_height(),
                self.spec_clues().spec_width(),
                self.edits(),
            ),
    {
    }

    /// A session on a blank board. The clues were validated by
    /// [`Clues::new`], so this cannot fail.
    pub fn new(clues: Clues) -> (res: Self)
        requires
            clues.wf(),
            clues.fits_machine(),
        ensures
            res.wf(),
            res.spec_clues() == clues,
            res.edits().len() == 0,
            res.spec_grid()@ == blank_board(clues.spec_height(), clues.spec_width()),
    {
        let grid = Grid::new(clues.height(), clues.width());
        proof {
            grid.lemma_blank();
        }
        let s = Session { clues, grid, history: Vec::new() };
        assert(s.edits() =~= Seq::<(usize, usize, CellState)>::empty());
        s
    }

    /// The clues.
    pub fn clues(&self) -> (res: &Clues)
        ensures
            *res == self.spec_clues(),
    {
        &self.clues
    }

    /// The user's board.
    pub fn grid(&self) -> (res: &Grid)
        ensures
            *res == self.spec_grid(),
    {
        &self.grid
    }

    /// Sets cell `(row, col)` of the board to `state` and records the edit.
    /// Going back to [`CellState::Unconfirmed`] is a plain edit too.
    pub fn set(&mut self, row: usize, col: usize, state: CellState)
        requires
            old(self).wf(),
            row < old(self).spec_clues().spec_height(),
            col < old(self).spec_clues().spec_width(),
        ensures
            final(self).wf(),
            final(self).spec_clues() == old(self).spec_clues(),
            final(self).edits() == old(self).edits().push((row, col, state)),
            final(self).spec_grid()@ == old(self).spec_grid()@.update(
                row as int,
                old(self).spec_grid()@[row as int].update(col as int, state),
            ),
    {
        self.grid.set(row, col, state);
        let ghost before = self.edits();
        self.history.push(Edit { row, col, state });
        proof {
            assert(self.edits() =~= before.push((row, col, state)));
            assert(self.edits().drop_last() =~= before);
        }
    }

    /// The state of cell `(row, col)`.
    pub fn state(&self, row: usize, col: usize) -> (res: CellState)
        requires
            self.wf(),
            row < self.spec_clues().spec_height(),
            col < self.spec_clues().spec_width(),
        ensures
            res == self.spec_grid().at(row as int, col as int),
    {
        self.grid.get(row, col)
    }

    /// A fresh solver seeded with the current board. The board always has
    /// the dimensions of the clues, so this cannot fail.
    fn solver(&self) -> (res: Solver)
        requires
            self.wf(),
        ensures
            res.wf(),
            res.spec_clues().row_clues() == self.clues.row_clues(),
            res.spec_clues().col_clues() == self.clues.col_clues(),
            res.spec_grid()@ == self.grid@,
            res.spec_grid().spec_height() == self.grid.spec_height(),
            res.spec_grid().spec_width() == self.grid.spec_width(),
            res.queue_complete(),
            res.model() == fresh_progress(res.spec_clues(), self.grid@),
    {
        let clues = self.clues.duplicate();
        let grid = self.grid.duplicate();
        proof {
            assert(clues.wf()) by {
                assert forall|line| #[trigger] clues.valid_line(line) implies crate::clue::clue_fits(
                    clues.line_blocks(line),
                    clues.spec_line_len(line) as int,
                ) by {
                    assert(self.clues.valid_line(line));
                }
            }
        }
        match Solver::with_grid(clues, grid) {
            Ok(s) => s,
            Err(_) => {
                proof {
                    assert(false);
                }
                Solver::new(self.clues.duplicate())
            },
        }
    }
}


impl Session {
    /// The next step and the reason for it, from the current board, without
    /// changing anything. A fresh solver is built every time, so earlier
    /// calls leave no trace.
    pub fn hint(&self) -> (res: Result<Option<Hint>, Contradiction>)
        requires
            self.wf(),
        ensures
            match res {
                Ok(Some(h)) => {
                    &&& valid_hint(self.spec_clues(), self.spec_grid(), h)
                    &&& first_hint(self.spec_clues(), self.spec_grid(), h)
                },
                Ok(None) => rules_exhausted(self.spec_clues(), self.spec_grid()),
                Err(e) => {
                    &&& unsolvable(self.spec_clues(), self.spec_grid()@)
                    &&& first_failure(self.spec_clues(), self.spec_grid(), e)
                },
            },
    {
        let solver = self.solver();
        let res = solver.hint();
        proof {
            match &res {
                Ok(Some(h)) => {
                    lemma_first_hint_transfer(self.clues, solver.spec_clues(), self.grid, solver.spec_grid(), *h);
                    let a = choose|a: crate::analysis::LineAnalysis|
                        #[trigger] crate::solver::analysis_of(a, solver.spec_clues(), solver.spec_grid(), h.step.line)
                            && crate::solver::hint_from(a, *h);
                    assert(crate::solver::analysis_of(a, self.clues, self.grid, h.step.line));
                    assert forall|board: Seq<Seq<CellState>>|
                        #[trigger] is_solution(self.clues, board) && agrees(board, self.grid@) implies crate::solver::board_matches(
                            board,
                            self.clues.spec_width(),
                            h.step.line,
                            h.step.deduction.range,
                            h.step.deduction.color,
                        ) by {
                        lemma_solution_same_clues(self.clues, solver.spec_clues(), board);
                    }
                },
                Ok(None) => {
                    lemma_exhausted_transfer(self.clues, solver.spec_clues(), self.grid, solver.spec_grid());
                },
                Err(e) => {
                    lemma_unsolvable_transfer(self.clues, solver.spec_clues(), self.grid@);
                    lemma_first_failure_transfer(self.clues, solver.spec_clues(), self.grid, solver.spec_grid(), *e);
                },
            }
        }
        res
    }

    /// The board after deducing as far as the rules allow from the current
    /// board. The session itself (board and history) is unchanged. When the
    /// puzzle cannot be solved uniquely the partial board is returned too
    /// ([`Grid::is_complete`] tells); the only error is a contradiction.
    pub fn deduce(&self) -> (res: Result<Grid, Contradiction>)
        requires
            self.wf(),
        ensures
            match res {
                Ok(g) => {
                    &&& g.wf()
                    &&& g.spec_height() == self.spec_grid().spec_height()
                    &&& g.spec_width() == self.spec_grid().spec_width()
                    &&& keeps_confirmed(self.spec_grid()@, g@)
                    &&& solutions_kept(self.spec_clues(), self.spec_grid()@, g@)
                    &&& rules_exhausted(self.spec_clues(), g)
                    &&& solves_to(self.spec_clues(), self.spec_grid()@, g@)
                },
                Err(e) => {
                    &&& unsolvable(self.spec_clues(), self.spec_grid()@)
                    &&& on_board(self.spec_clues(), e)
                    &&& solve_fails_with(self.spec_clues(), self.spec_grid()@, e)
                },
            },
    {
        let mut solver = self.solver();
        let ghost c0 = solver.spec_clues();
        let ghost start = solver.model();
        proof {
            lemma_rounds_same_clues(self.clues, c0, start, 0);
        }
        let r = solver.solve();
        proof {
            lemma_ends_same_clues(self.clues, c0, start, solve_status(r), solver.model());
        }
        match r {
            Ok(_) => {
                proof {
                    solver.lemma_parts();
                    lemma_kept_transfer(self.clues, c0, self.grid@, solver.spec_grid()@);
                }
                let g = solver.grid().duplicate();
                proof {
                    lemma_exhausted_transfer(self.clues, c0, g, solver.spec_grid());
                    assert(solve_ends(self.clues, fresh_progress(self.clues, self.grid@), Ok(()), solver.model()));
                }
                Ok(g)
            },
            Err(e) => {
                proof {
                    lemma_unsolvable_transfer(self.clues, c0, self.grid@);
                    assert(solve_ends(self.clues, fresh_progress(self.clues, self.grid@), Err(e), solver.model()));
                }
                Err(e)
            },
        }
    }

    /// The board satisfies every clue ([`Grid::satisfies`]).
    pub fn judge(&self) -> (res: bool)
        requires
            self.wf(),
        ensures
            res == is_solution(self.spec_clues(), self.spec_grid()@),
    {
        self.grid.satisfies(&self.clues)
    }

    /// The cells where the board contradicts `answer`, in row-major order.
    fn mistakes_against(&self, answer: &Grid) -> (res: Vec<(usize, usize)>)
        requires
            self.wf(),
            answer.wf(),
            answer.spec_height() == self.grid.spec_height(),
            answer.spec_width() == self.grid.spec_width(),
        ensures
            mistakes_are(self.grid@, answer@, self.grid.spec_height(), self.grid.spec_width(), res@),
    {
        let h = self.grid.height();
        let w = self.grid.width();
        let ghost user = self.grid@;
        let ghost ans = answer@;
        let mut out: Vec<(usize, usize)> = Vec::new();
        let mut row: usize = 0;
        while row < h
            invariant
                self.wf(),
                answer.wf(),
                h == self.grid.spec_height(),
                w == self.grid.spec_width(),
                answer.spec_height() == h,
                answer.spec_width() == w,
                user == self.grid@,
                ans == answer@,
                row <= h,
                forall|i: int|
                    0 <= i < out@.len() ==> (#[trigger] out@[i]).0 < row && out@[i].1 < w && is_mistake(
                        user,
                        ans,
                        out@[i].0 as int,
                        out@[i].1 as int,
                    ),
                forall|i: int, j: int|
                    0 <= i < j < out@.len() ==> (#[trigger] out@[i]).0 < (#[trigger] out@[j]).0 || (out@[i].0
                        == out@[j].0 && out@[i].1 < out@[j].1),
                forall|r: int, c: int|
                    0 <= r < row && 0 <= c < w && #[trigger] is_mistake(user, ans, r, c) ==> out@.contains(
                        (r as usize, c as usize),
                    ),
            decreases h - row,
        {
            let mut col: usize = 0;
            while col < w
                invariant
                    self.wf(),
                    answer.wf(),
                    h == self.grid.spec_height(),
                    w == self.grid.spec_width(),
                    answer.spec_height() == h,
                    answer.spec_width() == w,
                    user == self.grid@,
                    ans == answer@,
                    row < h,
                    col <= w,
                    forall|i: int|
                        0 <= i < out@.len() ==> ((#[trigger] out@[i]).0 < row || (out@[i].0 == row
                            && out@[i].1 < col)) && out@[i].1 < w && is_mistake(
                            user,
                            ans,
                            out@[i].0 as int,
                            out@[i].1 as int,
                        ),
                    forall|i: int, j: int|
                        0 <= i < j < out@.len() ==> (#[trigger] out@[i]).0 < (#[trigger] out@[j]).0 || (out@[i].0
                            == out@[j].0 && out@[i].1 < out@[j].1),
                    forall|r: int, c: int|
                        0 <= r < h && 0 <= c < w && (r < row || (r == row && c < col)) && #[trigger] is_mistake(
                            user,
                            ans,
                            r,
                            c,
                        ) ==> out@.contains((r as usize, c as usize)),
                decreases w - col,
            {
                let u = self.grid.get(row, col);
                let c = answer.get(row, col);
                if u != CellState::Unconfirmed && c != CellState::Unconfirmed && u != c {
                    let ghost before = out@;
                    out.push((row, col));
                    proof {
                        assert forall|r: int, cc: int|
                            0 <= r < h && 0 <= cc < w && (r < row || (r == row && cc < col + 1)) && #[trigger] is_mistake(
                                user,
                                ans,
                                r,
                                cc,
                            ) implies out@.contains((r as usize, cc as usize)) by {
                            if r == row && cc == col {
                                assert(out@[out@.len() - 1] == (row, col));
                            } else {
                                let i = choose|i: int| 0 <= i < before.len() && before[i] == (r as usize, cc as usize);
                                assert(out@[i] == before[i]);
                            }
                        }
                    }
                }
                col += 1;
            }
            row += 1;
        }
        out
    }

    /// The cells where the board contradicts the answer found from the
    /// clues alone, in row-major order.
    ///
    /// [`Session::hint`] and [`Session::deduce`] start from the user's board,
    /// so a wrong black cell of the user becomes a premise there. This
    /// starts from the clues alone instead. Only cells that the user filled
    /// in and that the clues alone confirm are compared; when the clues do
    /// not determine every cell, the cells that they do determine are still
    /// checked. `Err` when the clues themselves have no solution.
    pub fn mistakes(&self) -> (res: Result<Vec<(usize, usize)>, Contradiction>)
        requires
            self.wf(),
        ensures
            match res {
                Ok(cells) => exists|answer: Grid| #[trigger] self.mistakes_against_answer(answer, cells@),
                Err(e) => {
                    &&& unsolvable(
                        self.spec_clues(),
                        blank_board(self.spec_clues().spec_height(), self.spec_clues().spec_width()),
                    )
                    &&& on_board(self.spec_clues(), e)
                    &&& solve_fails_with(
                        self.spec_clues(),
                        blank_board(self.spec_clues().spec_height(), self.spec_clues().spec_width()),
                        e,
                    )
                },
            },
    {
        let clues = self.clues.duplicate();
        proof {
            assert(clues.wf()) by {
                assert forall|line| #[trigger] clues.valid_line(line) implies crate::clue::clue_fits(
                    clues.line_blocks(line),
                    clues.spec_line_len(line) as int,
                ) by {
                    assert(self.clues.valid_line(line));
                }
            }
        }
        let ghost c0 = clues;
        let mut solver = Solver::new(clues);
        proof {
            solver.lemma_parts();
            solver.spec_grid().lemma_blank();
        }
        let ghost blank = solver.spec_grid()@;
        let ghost start = solver.model();
        proof {
            lemma_rounds_same_clues(self.clues, c0, start, 0);
            assert(blank == blank_board(self.clues.spec_height(), self.clues.spec_width()));
        }
        let r = solver.solve();
        proof {
            lemma_ends_same_clues(self.clues, c0, start, solve_status(r), solver.model());
        }
        match r {
            Ok(_) => {},
            Err(e) => {
                proof {
                    lemma_unsolvable_transfer(self.clues, c0, blank);
                    assert(solve_ends(self.clues, fresh_progress(self.clues, blank), Err(e), solver.model()));
                }
                return Err(e);
            },
        }
        proof {
            solver.lemma_parts();
            assert(solve_ends(self.clues, fresh_progress(self.clues, blank), Ok(()), solver.model()));
        }
        proof {
            solver.lemma_parts();
            lemma_kept_transfer(self.clues, c0, blank, solver.spec_grid()@);
            lemma_exhausted_transfer(self.clues, c0, solver.spec_grid(), solver.spec_grid());
        }
        let answer = solver.grid();
        proof {
            answer.lemma_view();
            self.grid.lemma_view();
        }
        let cells = self.mistakes_against(answer);
        proof {
            let h = self.clues.spec_height();
            let w = self.clues.spec_width();
            assert(blank == blank_board(h, w));
            assert(self.mistakes_against_answer(*answer, cells@));
        }
        let res: Result<Vec<(usize, usize)>, Contradiction> = Ok(cells);
        assert(self.mistakes_against_answer(*answer, res->Ok_0@));
        res
    }

    /// `answer` has the dimensions of the clues and agrees with every
    /// solution of the clues, and `cells` are the mistakes of the board
    /// against it.
    pub open spec fn mistakes_against_answer(self, answer: Grid, cells: Seq<(usize, usize)>) -> bool {
        let h = self.spec_clues().spec_height();
        let w = self.spec_clues().spec_width();
        &&& answer.wf()
        &&& answer.spec_height() == h
        &&& answer.spec_width() == w
        &&& solutions_kept(self.spec_clues(), blank_board(h, w), answer@)
        &&& rules_exhausted(self.spec_clues(), answer)
        &&& solves_to(self.spec_clues(), blank_board(h, w), answer@)
        &&& mistakes_are(self.spec_grid()@, answer@, h, w, cells)
    }

    /// The number of calls of [`Session::set`] so far (the length of the
    /// history), the reference for [`Session::rollback`].
    pub fn turn(&self) -> (res: usize)
        ensures
            res == self.edits().len(),
    {
        self.history.len()
    }

    /// Takes back the last [`Session::set`].
    pub fn undo(&mut self)
        requires
            old(self).wf(),
        ensures
            final(self).wf(),
            final(self).spec_clues() == old(self).spec_clues(),
            final(self).edits() == (if old(self).edits().len() > 0 {
                old(self).edits().drop_last()
            } else {
                old(self).edits()
            }),
            final(self).spec_grid()@ == replay(
                final(self).spec_clues().spec_height(),
                final(self).spec_clues().spec_width(),
                final(self).edits(),
            ),
    {
        let ghost before = self.edits();
        self.history.pop();
        proof {
            if before.len() > 0 {
                assert(self.edits() =~= before.drop_last());
            } else {
                assert(self.edits() =~= before);
            }
        }
        self.rebuild_grid();
    }

    /// Keeps the first `t` edits of the history and rebuilds the board from
    /// them. Nothing happens when `t` is at least [`Session::turn`] (as with
    /// `Vec::truncate`).
    pub fn rollback(&mut self, t: usize)
        requires
            old(self).wf(),
        ensures
            final(self).wf(),
            final(self).spec_clues() == old(self).spec_clues(),
            final(self).edits() == (if t < old(self).edits().len() {
                old(self).edits().take(t as int)
            } else {
                old(self).edits()
            }),
            final(self).spec_grid()@ == replay(
                final(self).spec_clues().spec_height(),
                final(self).spec_clues().spec_width(),
                final(self).edits(),
            ),
    {
        let ghost before = self.edits();
        self.history.truncate(t);
        proof {
            if t < before.len() {
                assert(self.edits() =~= before.take(t as int));
            } else {
                assert(self.edits() =~= before);
            }
        }
        self.rebuild_grid();
    }

    fn rebuild_grid(&mut self)
        requires
            old(self).clues.wf(),
            old(self).clues.fits_machine(),
            forall|i: int|
                0 <= i < old(self).history@.len() ==> (#[trigger] old(self).history@[i]).row
                    < old(self).clues.spec_height() && old(self).history@[i].col < old(self).clues.spec_width(),
        ensures
            final(self).wf(),
            final(self).clues == old(self).clues,
            final(self).history == old(self).history,
    {
        let h = self.clues.height();
        let w = self.clues.width();
        let mut grid = Grid::new(h, w);
        proof {
            grid.lemma_blank();
            assert(self.edits().take(0) =~= Seq::<(usize, usize, CellState)>::empty());
        }
        let mut i: usize = 0;
        while i < self.history.len()
            invariant
                h == self.clues.spec_height(),
                w == self.clues.spec_width(),
                grid.wf(),
                grid.spec_height() == h,
                grid.spec_width() == w,
                i <= self.history@.len(),
                forall|k: int|
                    0 <= k < self.history@.len() ==> (#[trigger] self.history@[k]).row < h
                        && self.history@[k].col < w,
                grid@ == replay(h as nat, w as nat, self.edits().take(i as int)),
            decreases self.history@.len() - i,
        {
            let e = self.history[i];
            let ghost prev = grid@;
            grid.set(e.row, e.col, e.state);
            proof {
                let t = self.edits().take(i + 1);
                assert(t.drop_last() =~= self.edits().take(i as int));
                assert(t.last() == (e.row, e.col, e.state));
            }
            i += 1;
        }
        proof {
            assert(self.edits().take(i as int) =~= self.edits());
        }
        self.grid = grid;
    }
}

/// Every cell that [`Session::mistakes`] reports is wrong in every solution
/// of the clues: the user's state there differs from the solution's.
pub proof fn lemma_mistakes_are_wrong(
    clues: Clues,
    user: Seq<Seq<CellState>>,
    answer: Seq<Seq<CellState>>,
    cells: Seq<(usize, usize)>,
    board: Seq<Seq<CellState>>,
    i: int,
)
    requires
        answer.len() == clues.spec_height(),
        forall|r: int| 0 <= r < answer.len() ==> (#[trigger] answer[r]).len() == clues.spec_width(),
        solutions_kept(clues, blank_board(clues.spec_height(), clues.spec_width()), answer),
        mistakes_are(user, answer, clues.spec_height(), clues.spec_width(), cells),
        is_solution(clues, board),
        0 <= i < cells.len(),
    ensures
        board[cells[i].0 as int][cells[i].1 as int] != user[cells[i].0 as int][cells[i].1 as int],
{
    let blank = blank_board(clues.spec_height(), clues.spec_width());
    assert(agrees(board, blank));
    assert(agrees(board, answer));
    let (r, c) = cells[i];
    assert(is_mistake(user, answer, r as int, c as int));
    assert(answer[r as int][c as int] != CellState::Unconfirmed);
}

/// Undoing a [`Session::set`] gives back the board from before it: the
/// board is a function of the history, and undo takes back exactly the last
/// edit.
pub proof fn law_undo_restores_board(
    before: Session,
    after_set: Session,
    after_undo: Session,
    edit: (usize, usize, CellState),
)
    requires
        before.wf(),
        after_set.wf(),
        after_undo.wf(),
        after_set.spec_clues() == before.spec_clues(),
        after_undo.spec_clues() == before.spec_clues(),
        after_set.edits() == before.edits().push(edit),
        after_undo.edits() == after_set.edits().drop_last(),
    ensures
        after_undo.spec_grid()@ == before.spec_grid()@,
{
    assert(after_undo.edits() =~= before.edits());
}

/// Rolling back to turn `t` gives back the board as it stood after the
/// first `t` edits, whatever was done after them.
pub proof fn law_rollback_restores_board(earlier: Session, later: Session, rolled: Session, t: nat)
    requires
        earlier.wf(),
        later.wf(),
        rolled.wf(),
        later.spec_clues() == earlier.spec_clues(),
        rolled.spec_clues() == earlier.spec_clues(),
        t == earlier.edits().len(),
        t <= later.edits().len(),
        later.edits().take(t as int) == earlier.edits(),
        rolled.edits() == (if t < later.edits().len() {
            later.edits().take(t as int)
        } else {
            later.edits()
        }),
    ensures
        rolled.spec_grid()@ == earlier.spec_grid()@,
{
    if t == later.edits().len() {
        assert(later.edits().take(t as int) =~= later.edits());
    }
}

/// A board on the way to a solution has no mistakes: when some solution of
/// the clues agrees with every cell the user confirmed, the cells that
/// [`Session::mistakes`] reports are none.
pub proof fn law_no_mistakes_on_a_solution(
    clues: Clues,
    user: Seq<Seq<CellState>>,
    answer: Seq<Seq<CellState>>,
    cells: Seq<(usize, usize)>,
    board: Seq<Seq<CellState>>,
)
    requires
        user.len() == clues.spec_height(),
        forall|r: int| 0 <= r < user.len() ==> (#[trigger] user[r]).len() == clues.spec_width(),
        answer.len() == clues.spec_height(),
        forall|r: int| 0 <= r < answer.len() ==> (#[trigger] answer[r]).len() == clues.spec_width(),
        solutions_kept(clues, blank_board(clues.spec_height(), clues.spec_width()), answer),
        mistakes_are(user, answer, clues.spec_height(), clues.spec_width(), cells),
        is_solution(clues, board),
        agrees(board, user),
    ensures
        cells.len() == 0,
{
    if cells.len() > 0 {
        lemma_mistakes_are_wrong(clues, user, answer, cells, board, 0);
        let (r, c) = cells[0];
        assert(is_mistake(user, answer, r as int, c as int));
        assert(user[r as int][c as int] != CellState::Unconfirmed);
    }
}

} // verus!
