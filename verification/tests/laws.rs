//! Concrete cases of the properties that the library proves, of its text
//! output and of each of its errors.
use illu_logi_solver_super::analysis::LineAnalysis;
use illu_logi_solver_super::grid::render_board;
use illu_logi_solver_super::rules::emit;
use illu_logi_solver_super::{
    CellState, Clues, Color, Contradiction, Grid, GridMismatch, LineId, Outcome, Reason, Session,
    Solver,
};

fn readme_clues() -> Clues {
    Clues::new(
        vec![vec![2, 1], vec![3], vec![2, 2], vec![1, 2], vec![1, 1]],
        vec![vec![3, 1], vec![4], vec![1, 1], vec![2], vec![1, 2]],
    )
    .unwrap()
}

fn board_from(rows: &[&str]) -> Grid {
    Grid::from_rows(
        rows.iter()
            .map(|row| {
                row.chars()
                    .map(|c| match c {
                        'o' => CellState::Black,
                        'x' => CellState::White,
                        _ => CellState::Unconfirmed,
                    })
                    .collect()
            })
            .collect(),
    )
    .unwrap()
}

#[test]
fn crossing_lines_meet_at_the_same_cell() {
    for line in [LineId::Row(2), LineId::Col(4)] {
        let index = match line {
            LineId::Row(i) | LineId::Col(i) => i,
        };
        for offset in 0..6 {
            let crossing = line.orthogonal_at(offset);
            assert_eq!(crossing.cell(index), line.cell(offset));
            assert_eq!(crossing.orthogonal_at(index), line);
        }
    }
}

#[test]
fn clue_dimensions_and_lines() {
    let clues = Clues::new(vec![vec![3], vec![]], vec![vec![1], vec![1], vec![1]]).unwrap();
    assert_eq!((clues.height(), clues.width()), (2, 3));
    assert_eq!(clues.line_len(LineId::Row(1)), 3);
    assert_eq!(clues.line_len(LineId::Col(2)), 2);
    assert_eq!(clues.blocks(LineId::Row(0)).to_vec(), vec![3]);
    assert_eq!(clues.blocks(LineId::Row(1)).to_vec(), Vec::<usize>::new());
    assert_eq!(clues.blocks(LineId::Col(1)).to_vec(), vec![1]);
}

#[test]
fn solved_board_is_the_solution() {
    let mut solver = Solver::new(readme_clues());
    assert_eq!(solver.solve(), Ok(Outcome::Solved));
    assert!(solver.judge());
    let solution = board_from(&["ooxxo", "oooxx", "ooxoo", "xoxoo", "oxoxx"]);
    assert_eq!(solver.grid(), &solution);
    assert!(solution.satisfies(solver.clues()));
    assert_eq!(solver.state(0, 0), CellState::Black);
    // the rules have nothing more to say
    assert_eq!(solver.hint(), Ok(None));
    assert_eq!(solver.next_step(), Ok(None));
}

#[test]
fn next_step_applies_the_hint() {
    let mut solver = Solver::new(readme_clues());
    let hint = solver.hint().unwrap().unwrap();
    let before = solver.grid().clone();
    let step = solver.next_step().unwrap().unwrap();
    assert_eq!(step, hint.step);
    assert_eq!(solver.steps_applied(), 1);
    let target: CellState = step.deduction.color.into();
    for offset in step.deduction.range.clone() {
        let (row, col) = step.line.cell(offset);
        assert_eq!(solver.state(row, col), target);
        if step.changed.contains(&offset) {
            assert_eq!(before.get(row, col), CellState::Unconfirmed);
        } else {
            assert_eq!(before.get(row, col), target);
        }
    }
    assert!(!step.changed.is_empty());
}

#[test]
fn stepping_keeps_confirmed_cells() {
    let mut solver = Solver::new(readme_clues());
    let mut steps = 0;
    loop {
        let before = solver.grid().clone();
        match solver.next_step().unwrap() {
            Some(_) => steps += 1,
            None => break,
        }
        for r in 0..5 {
            for c in 0..5 {
                if before.get(r, c) != CellState::Unconfirmed {
                    assert_eq!(solver.state(r, c), before.get(r, c));
                }
            }
        }
    }
    assert_eq!(solver.steps_applied(), steps);
    assert!(solver.judge());
}

#[test]
fn undo_after_set_restores_the_board() {
    let mut session = Session::new(readme_clues());
    session.set(0, 0, CellState::Black);
    session.set(2, 3, CellState::White);
    let before = session.grid().clone();
    let turn = session.turn();
    session.set(4, 4, CellState::Black);
    assert_eq!(session.turn(), turn + 1);
    session.undo();
    assert_eq!(session.grid(), &before);
    assert_eq!(session.turn(), turn);
    // undo on an empty history changes nothing
    let mut fresh = Session::new(readme_clues());
    fresh.undo();
    assert_eq!(fresh.grid(), &Grid::new(5, 5));
}

#[test]
fn rollback_to_a_turn_restores_that_board() {
    let mut session = Session::new(readme_clues());
    session.set(1, 1, CellState::Black);
    session.set(1, 3, CellState::White);
    let at_two = session.grid().clone();
    session.set(1, 1, CellState::White);
    session.set(3, 0, CellState::Black);
    session.rollback(2);
    assert_eq!(session.grid(), &at_two);
    assert_eq!(session.turn(), 2);
    // rolling back to the current turn or beyond changes nothing
    session.rollback(7);
    assert_eq!(session.grid(), &at_two);
    assert_eq!(session.turn(), 2);
}

#[test]
fn no_mistakes_on_the_way_to_the_solution() {
    let mut session = Session::new(readme_clues());
    session.set(0, 0, CellState::Black);
    session.set(3, 0, CellState::White);
    session.set(4, 2, CellState::Black);
    assert_eq!(session.mistakes(), Ok(Vec::new()));
    session.set(3, 2, CellState::Black);
    session.set(1, 4, CellState::Black);
    assert_eq!(session.mistakes(), Ok(vec![(1, 4), (3, 2)]));
}

#[test]
fn session_deduce_leaves_the_session_alone() {
    let mut session = Session::new(readme_clues());
    session.set(0, 0, CellState::Black);
    let deduced = session.deduce().unwrap();
    assert!(deduced.is_complete());
    assert_eq!(session.state(1, 0), CellState::Unconfirmed);
    assert_eq!(session.turn(), 1);
    assert!(!session.judge());
}

#[test]
fn seed_without_placement_is_reported() {
    // the block of 2 of row 0 fits nowhere between the two white cells
    let clues = Clues::new(vec![vec![2]], vec![vec![1], vec![1], vec![]]).unwrap();
    let seed = board_from(&["x.x"]);
    let mut solver = Solver::with_grid(clues, seed).unwrap();
    assert_eq!(
        solver.solve(),
        Err(Contradiction::NoPlacement {
            line: LineId::Row(0),
            block: 0
        })
    );
}

#[test]
fn hint_reports_the_first_line_without_placement() {
    let clues = Clues::new(vec![vec![2]], vec![vec![1], vec![1], vec![]]).unwrap();
    let solver = Solver::with_grid(clues.clone(), board_from(&["x.x"])).unwrap();
    assert_eq!(
        solver.hint(),
        Err(Contradiction::NoPlacement {
            line: LineId::Row(0),
            block: 0
        })
    );
    let mut session = Session::new(clues);
    session.set(0, 0, CellState::White);
    session.set(0, 2, CellState::White);
    assert_eq!(
        session.hint(),
        Err(Contradiction::NoPlacement {
            line: LineId::Row(0),
            block: 0
        })
    );
}

#[test]
fn seed_with_a_black_cell_on_an_empty_line_conflicts() {
    // row 1 must be all white, but the seed has black cells there
    let clues = Clues::new(vec![vec![], vec![]], vec![vec![], vec![]]).unwrap();
    let seed = board_from(&[".x", "oo"]);
    let mut solver = Solver::with_grid(clues, seed).unwrap();
    assert_eq!(
        solver.solve(),
        Err(Contradiction::CellConflict {
            row: 1,
            col: 0,
            current: CellState::Black,
            attempted: Color::White,
            line: LineId::Row(1),
            reason: Reason::WhiteIfNoBlockCovers(0, 2),
        })
    );
    // row 0 was painted before the contradiction was found
    assert_eq!(solver.state(0, 0), CellState::White);
    // that painting counted as a step; the conflicting deduction counted none
    // and left the cell after the conflict as it was
    assert_eq!(solver.steps_applied(), 1);
    assert_eq!(solver.state(1, 1), CellState::Black);
}

#[test]
fn small_clues_fit_the_machine() {
    assert!(readme_clues().fits_in_machine());
    let empty = Clues::new(vec![], vec![]).unwrap();
    assert!(empty.fits_in_machine());
}

#[test]
fn deduce_is_what_a_fresh_solve_gives() {
    let mut session = Session::new(readme_clues());
    session.set(0, 0, CellState::Black);
    let deduced = session.deduce().unwrap();
    let mut solver = Solver::with_grid(readme_clues(), session.grid().clone()).unwrap();
    solver.solve().unwrap();
    assert_eq!(solver.grid(), &deduced);
}

#[test]
fn mistakes_pass_on_the_contradiction_of_the_clues() {
    // one black cell in the row, but no column has a block
    let clues = Clues::new(vec![vec![1]], vec![vec![], vec![]]).unwrap();
    let expected = Solver::new(clues.clone()).solve().unwrap_err();
    let session = Session::new(clues);
    assert_eq!(session.mistakes(), Err(expected));
}

#[test]
fn board_dimensions_are_checked() {
    let clues = Clues::new(vec![vec![1], vec![]], vec![vec![1]]).unwrap();
    assert_eq!(
        Solver::with_grid(clues.clone(), Grid::new(3, 1)).err(),
        Some(GridMismatch::HeightMismatch {
            expected: 2,
            actual: 3
        })
    );
    assert_eq!(
        Solver::with_grid(clues, Grid::new(2, 4)).err(),
        Some(GridMismatch::WidthMismatch {
            expected: 1,
            actual: 4
        })
    );
    assert!(Grid::from_rows(Vec::new()).is_ok());
}

#[test]
fn paint_reports_the_conflicting_state() {
    let mut grid = Grid::new(1, 2);
    grid.set(0, 0, CellState::White);
    assert_eq!(grid.paint(0, 0, Color::Black), Err(CellState::White));
    assert_eq!(grid.paint(0, 1, Color::White), Ok(true));
    assert_eq!(grid.get(0, 0), CellState::White);
}

#[test]
fn emit_reports_only_new_cells() {
    let cells = vec![CellState::Black, CellState::Black, CellState::Unconfirmed];
    let analysis = LineAnalysis::compute(&[3], &cells).unwrap();
    let mut out = Vec::new();
    emit(&analysis, &mut out, 0..2, Color::Black, Reason::BlackIfBounded(0, 2));
    assert!(out.is_empty());
    emit(&analysis, &mut out, 1..1, Color::Black, Reason::BlackIfBounded(1, 1));
    assert!(out.is_empty());
    emit(&analysis, &mut out, 0..3, Color::Black, Reason::BlackIfBounded(0, 3));
    assert_eq!(out.len(), 1);
    assert_eq!(out[0].range, 0..3);
    assert_eq!(out[0].reason, Reason::BlackIfBounded(0, 3));
}

#[test]
fn text_of_a_board_marks_every_fifth_row_and_column() {
    let grid = board_from(&["oooooo", "xxxxxx", "......", "o.x.o.", "xxxxxx", "oooooo"]);
    assert_eq!(
        grid.to_text(),
        "ooooo|o\nxxxxx|x\n.....|.\no.x.o|.\nxxxxx|x\n----- -\nooooo|o\n"
    );
    let rows = vec![vec!['a', 'b'], vec!['c', 'd']];
    assert_eq!(render_board(&rows, 2), vec!["ab".to_string(), "cd".to_string()]);
}

#[test]
fn solver_text_shows_the_board_and_block_ids() {
    let clues = Clues::new(vec![vec![2], vec![]], vec![vec![1], vec![1]]).unwrap();
    let mut solver = Solver::new(clues);
    assert_eq!(solver.to_text(), "..\n..\n");
    assert_eq!(solver.solve(), Ok(Outcome::Solved));
    assert_eq!(solver.to_text(), "oo\nxx\n");
    assert_eq!(solver.debug_display(), "oo  00  00\nxx  xx  xx\n");
}

#[test]
fn next_step_fails_as_the_hint_does() {
    let clues = Clues::new(vec![vec![2]], vec![vec![1], vec![1], vec![]]).unwrap();
    let mut solver = Solver::with_grid(clues, board_from(&["x.x"])).unwrap();
    let hinted = solver.hint();
    assert!(hinted.is_err());
    assert_eq!(solver.next_step().map(|s| s.is_some()), hinted.map(|h| h.is_some()));
    assert_eq!(solver.steps_applied(), 0);
}

#[test]
fn a_solution_has_the_runs_of_its_clues() {
    let clues = Clues::new(vec![vec![], vec![]], vec![vec![], vec![]]).unwrap();
    assert!(!Grid::new(2, 2).satisfies(&clues));
    let white = board_from(&["xx", "xx"]);
    assert!(white.satisfies(&clues));
    for line in clues.lines() {
        assert_eq!(white.runs(line), clues.blocks(line).to_vec());
    }
}

#[test]
fn an_impossible_line_stops_at_its_first_conflict() {
    // row 0 has no block but two black cells: the rules on it first paint
    // the row black, then the white deduction over the whole row runs into
    // its first cell and stops there
    let clues = Clues::new(vec![vec![]], vec![vec![], vec![], vec![1], vec![], vec![1]]).unwrap();
    let mut solver = Solver::with_grid(clues, board_from(&["..o.o"])).unwrap();
    assert_eq!(
        solver.solve(),
        Err(Contradiction::CellConflict {
            row: 0,
            col: 0,
            current: CellState::Black,
            attempted: Color::White,
            line: LineId::Row(0),
            reason: Reason::WhiteIfNoBlockCovers(0, 5),
        })
    );
    assert_eq!(solver.grid(), &board_from(&["ooooo"]));
    // the black painting counted as a step, the stopped one did not
    assert_eq!(solver.steps_applied(), 1);
}

#[test]
fn next_step_conflicts_where_the_hint_meets_the_other_colour() {
    let clues = Clues::new(vec![vec![]], vec![vec![]]).unwrap();
    let mut solver = Solver::with_grid(clues, board_from(&["o"])).unwrap();
    let hint = solver.hint().unwrap().unwrap();
    assert_eq!(hint.step.deduction.color, Color::White);
    assert_eq!(
        solver.next_step(),
        Err(Contradiction::CellConflict {
            row: 0,
            col: 0,
            current: CellState::Black,
            attempted: Color::White,
            line: hint.step.line,
            reason: hint.step.deduction.reason,
        })
    );
    assert_eq!(solver.steps_applied(), 0);
}

#[test]
fn the_first_hint_comes_from_the_first_rule_that_reports() {
    // block 4 of column 1 overlaps itself whatever its place: the overlap
    // rule, tried first, reports
    let solver = Solver::new(readme_clues());
    let hint = solver.hint().unwrap().unwrap();
    assert!(matches!(hint.step.deduction.reason, Reason::BlackIfOverlap { .. }));
}

#[test]
fn solving_the_stepped_board_changes_nothing() {
    let mut stepper = Solver::new(readme_clues());
    while stepper.next_step().unwrap().is_some() {}
    let mut again = Solver::with_grid(readme_clues(), stepper.grid().clone()).unwrap();
    again.solve().unwrap();
    assert_eq!(again.grid(), stepper.grid());
    let mut solved = Solver::new(readme_clues());
    solved.solve().unwrap();
    assert_eq!(solved.grid(), stepper.grid());
}
