//! Tests of the public interface: full solves of real puzzles, the shape of
//! contradictions and refused input (coordinates are board coordinates),
//! hint against next_step, solve against stepping, and the session.
use illu_logi_solver_super::{
    CellState, ClueError, Clues, Contradiction, Grid, GridMismatch, LineId, Outcome, Session, Solver,
};
use std::time::Instant;

fn clues_for_10x10() -> Clues {
    Clues::new(
        vec![
            vec![5, 1],
            vec![2, 3],
            vec![2, 2, 1],
            vec![3, 2, 2],
            vec![1, 3, 1],
            vec![2, 3],
            vec![1, 3, 1],
            vec![1, 1, 2, 2],
            vec![1, 6, 1],
            vec![5, 2],
        ],
        vec![
            vec![1, 2, 2],
            vec![7],
            vec![2, 1, 1, 2],
            vec![1, 1, 4],
            vec![2, 1, 1, 2],
            vec![9],
            vec![3, 1, 3],
            vec![3, 1],
            vec![1, 1, 1, 1],
            vec![2, 3],
        ],
    )
    .unwrap()
}

fn clues_for_15x15() -> Clues {
    Clues::new(
        vec![
            vec![2, 4, 5],
            vec![4, 1, 1],
            vec![3, 3, 1],
            vec![8, 1],
            vec![1, 3, 1, 5],
            vec![2, 2, 4],
            vec![1, 1, 1, 2, 1, 2],
            vec![1, 7, 2],
            vec![1, 1, 3],
            vec![5, 1, 2, 1, 1],
            vec![3, 4, 1],
            vec![1, 1, 1, 1, 1],
            vec![2, 6],
            vec![10, 1],
            vec![7, 2],
        ],
        vec![
            vec![1, 3, 2, 1],
            vec![1, 2, 1, 3, 2],
            vec![3, 2, 2, 2],
            vec![4, 1, 4],
            vec![2, 4, 1, 3],
            vec![2, 1, 2, 1, 2],
            vec![2, 1, 2, 2, 2],
            vec![4, 2, 1, 1],
            vec![3, 4, 2],
            vec![1, 1, 1, 1, 3],
            vec![1, 4, 3],
            vec![2, 3, 3, 1],
            vec![1, 1, 3, 1, 2],
            vec![1, 1, 3, 1],
            vec![2, 1, 1, 5],
        ],
    )
    .unwrap()
}

fn clues_for_30x30() -> Clues {
    Clues::new(
        vec![
            vec![1, 1, 2, 3, 1, 3, 1],
            vec![1, 2, 1, 1, 1, 1, 2, 2, 2],
            vec![4, 3, 1, 2, 2, 1, 5, 1, 1],
            vec![2, 1, 1, 1, 2, 4, 1, 1, 1],
            vec![1, 3, 1, 2, 1, 1, 2],
            vec![1, 2, 6, 3, 1, 1, 7],
            vec![2, 1, 1, 1, 1, 3, 1, 2],
            vec![1, 1, 2, 3, 1, 1, 1, 2],
            vec![6, 7, 2, 4, 1, 2],
            vec![2, 1, 6, 2, 1, 3, 1, 1, 2],
            vec![1, 2, 7, 1, 1, 1, 1, 2, 1],
            vec![2, 1, 1, 1, 2, 2, 1, 1, 1, 3],
            vec![1, 1, 2, 3, 1, 1, 6],
            vec![1, 2, 3, 2, 1, 2, 4],
            vec![2, 4, 1, 4, 4, 1],
            vec![1, 1, 3, 6, 1, 2, 2, 2],
            vec![2, 3, 1, 3, 3, 1, 3, 1, 1],
            vec![1, 2, 1, 1, 1, 1, 1, 3, 1],
            vec![1, 1, 1, 1, 2, 2, 2, 1, 1, 1],
            vec![2, 3, 10, 1, 1, 2],
            vec![1, 9, 1, 5, 1, 3],
            vec![3, 5, 2, 8, 2, 3],
            vec![1, 1, 2, 1, 1, 1, 3, 2, 1],
            vec![2, 3, 3, 4, 1, 4],
            vec![5, 1, 1, 1, 1, 1, 3, 1],
            vec![1, 1, 6, 1, 1, 2, 2, 2],
            vec![3, 1, 1, 3, 1, 5, 3],
            vec![1, 1, 1, 1, 1, 1, 8, 2],
            vec![1, 1, 2, 2, 1, 1, 2, 1, 2, 1],
            vec![5, 3, 1, 1, 4, 1, 2, 1],
        ],
        vec![
            vec![1, 1, 2, 1, 1, 1, 2, 4, 1, 1, 1],
            vec![3, 2, 1, 1, 1, 1, 6, 2],
            vec![2, 1, 4, 3, 1, 2, 2, 1],
            vec![1, 4, 1, 1, 1, 3, 2],
            vec![1, 1, 1, 2, 1, 2, 1, 3, 1, 1, 1],
            vec![2, 2, 1, 1, 4, 5, 1],
            vec![1, 3, 3, 12, 2, 2],
            vec![1, 2, 1, 1, 2, 3, 2, 1, 1, 3],
            vec![2, 6, 7, 2, 1],
            vec![1, 1, 3, 2, 1, 3, 1, 1],
            vec![2, 5, 4, 2, 2, 1, 1],
            vec![4, 5, 2, 2, 3, 2, 1, 1],
            vec![1, 2, 1, 3, 2, 2, 1, 2],
            vec![1, 2, 1, 2, 2, 2, 2, 2, 2],
            vec![4, 1, 5, 3, 1, 1, 1, 1],
            vec![2, 1, 4, 2, 2, 1],
            vec![4, 4, 5, 1, 1, 5],
            vec![1, 4, 1, 4, 1, 4, 1, 1],
            vec![2, 1, 1, 1, 3, 4],
            vec![2, 1, 4, 1, 6, 1],
            vec![1, 2, 3, 2, 2, 4],
            vec![4, 1, 2, 1, 1, 1, 2, 4],
            vec![2, 2, 1, 2, 1, 1, 1, 1, 2, 1],
            vec![1, 1, 1, 1, 4, 2, 2, 1, 1],
            vec![1, 4, 6, 4, 2, 1],
            vec![3, 1, 2, 3, 3, 2, 3, 1, 1],
            vec![1, 2, 1, 1, 2, 1, 1, 2, 1],
            vec![1, 1, 1, 1, 3, 8, 1, 1],
            vec![2, 6, 2, 1, 1, 1, 3],
            vec![4, 1, 1, 3, 1, 3, 1, 2, 2],
        ],
    )
    .unwrap()
}

#[test]
fn test_10x10() {
    let mut solver = Solver::new(clues_for_10x10());
    assert_eq!(solver.solve(), Ok(Outcome::Solved));
    assert!(solver.judge());
}

#[test]
fn test_15x15() {
    let mut solver = Solver::new(clues_for_15x15());
    assert_eq!(solver.solve(), Ok(Outcome::Solved));
    assert!(solver.judge());
}

#[test]
fn test_30x30() {
    let mut solver = Solver::new(clues_for_30x30());
    let start = Instant::now();
    assert_eq!(solver.solve(), Ok(Outcome::Solved));
    let elapsed = start.elapsed();
    assert!(solver.judge());
    // A tripwire for the speed of the hot path of solve (debug builds).
    let limit_ms = 2_000;
    println!("30x30 solve: {elapsed:?}");
    assert!(
        elapsed.as_millis() < limit_ms,
        "30x30 solve took {elapsed:?} (limit {limit_ms}ms)"
    );
}

#[test]
fn test_indeterminate_puzzle_is_stuck_not_error() {
    // Two solutions: not solving uniquely is Stuck, not an error
    let clues = Clues::new(vec![vec![1], vec![1]], vec![vec![1], vec![1]]).unwrap();
    let mut solver = Solver::new(clues);
    assert_eq!(solver.solve(), Ok(Outcome::Stuck));
    assert!(!solver.grid().is_complete());
    assert!(!solver.judge());
}

#[test]
fn test_no_solution() {
    let mut solver = Solver::new(
        Clues::new(
            vec![vec![], vec![3, 1], vec![], vec![], vec![]],
            vec![vec![1, 3], vec![], vec![], vec![], vec![]],
        )
        .unwrap(),
    );
    assert!(matches!(
        solver.solve(),
        Err(Contradiction::CellConflict { .. } | Contradiction::NoPlacement { .. })
    ));

    let mut solver = Solver::new(
        Clues::new(
            vec![vec![5], vec![1], vec![], vec![], vec![]],
            vec![vec![5], vec![], vec![], vec![], vec![]],
        )
        .unwrap(),
    );
    assert!(matches!(
        solver.solve(),
        Err(Contradiction::CellConflict { .. } | Contradiction::NoPlacement { .. })
    ));
}

// Contradictions are reported in board coordinates (not transposed).
//
// The clue [1, 3] of column 0 fills the column exactly (black, white, three
// blacks), but rows 0 and 2 to 4 are empty (all white): it fits nowhere.
#[test]
fn test_contradiction_coordinates_are_not_transposed() {
    let mut solver = Solver::new(
        Clues::new(
            vec![vec![], vec![3, 1], vec![], vec![], vec![]],
            vec![vec![1, 3], vec![], vec![], vec![], vec![]],
        )
        .unwrap(),
    );
    match solver.solve() {
        Err(Contradiction::NoPlacement { line, .. }) => {
            assert_eq!(line, LineId::Col(0));
        }
        Err(Contradiction::CellConflict { row: _, col, .. }) => {
            // as a cell conflict, the cell lies in column 0 (board coordinates)
            assert_eq!(col, 0);
        }
        other => panic!("expected a contradiction, got {other:?}"),
    }
}

#[test]
fn test_invalid_clues_are_rejected() {
    // a block of size 0 is refused
    assert_eq!(
        Clues::new(vec![vec![0]], vec![vec![1]]),
        Err(ClueError::ZeroBlock {
            line: LineId::Row(0)
        })
    );
    // sum + gaps > length is refused
    assert_eq!(
        Clues::new(
            vec![vec![3, 1], vec![], vec![]],
            vec![vec![], vec![], vec![]],
        ),
        Err(ClueError::TooLong {
            line: LineId::Row(0),
            len: 3
        })
    );
    // with_grid checks the dimensions of the board against the clues
    let clues = Clues::new(vec![vec![1]], vec![vec![1]]).unwrap();
    assert_eq!(
        Solver::with_grid(clues.clone(), Grid::new(2, 1)).err(),
        Some(GridMismatch::HeightMismatch {
            expected: 1,
            actual: 2
        })
    );
    assert_eq!(
        Solver::with_grid(clues, Grid::new(1, 2)).err(),
        Some(GridMismatch::WidthMismatch {
            expected: 1,
            actual: 2
        })
    );
}

#[test]
fn test_hint_is_self_consistent() {
    let clues = Clues::new(
        vec![vec![2, 1], vec![3], vec![2, 2], vec![1, 2], vec![1, 1]],
        vec![vec![3, 1], vec![4], vec![1, 1], vec![2], vec![1, 2]],
    )
    .unwrap();
    let mut solver = Solver::new(clues.clone());
    let hint = solver.hint().unwrap().expect("a hint should be available");
    // the candidates follow the painted range, one non-empty range per cell
    assert_eq!(hint.candidates.len(), hint.step.deduction.range.len());
    assert!(hint.candidates.iter().all(|ids| !ids.is_empty()));
    // the blocks are those of the clue of step.line, with their sizes
    let expected_sizes = clues.blocks(hint.step.line);
    assert_eq!(
        hint.blocks.iter().map(|b| b.size).collect::<Vec<_>>(),
        expected_sizes
    );
    assert!(
        hint.blocks
            .iter()
            .all(|b| b.possible_placement.start <= b.possible_placement.end)
    );
    // a hint always paints something new
    assert!(!hint.step.changed.is_empty());
    solver.solve().unwrap();
    assert!(solver.hint().unwrap().is_none());
}

struct XorShift(u64);
impl XorShift {
    fn next(&mut self) -> u64 {
        self.0 ^= self.0 << 13;
        self.0 ^= self.0 >> 7;
        self.0 ^= self.0 << 17;
        self.0
    }
}

fn random_clues(height: usize, width: usize, rng: &mut XorShift) -> Clues {
    let grid: Vec<Vec<bool>> = (0..height)
        .map(|_| {
            let bits = rng.next();
            (0..width).map(|x| bits >> x & 1 == 1).collect()
        })
        .collect();
    let runs = |cells: &mut dyn Iterator<Item = bool>| -> Vec<usize> {
        let mut v = Vec::new();
        let mut run = 0;
        for cell in cells {
            if cell {
                run += 1;
            } else if run > 0 {
                v.push(run);
                run = 0;
            }
        }
        if run > 0 {
            v.push(run);
        }
        v
    };
    Clues::new(
        (0..height)
            .map(|y| runs(&mut (0..width).map(|x| grid[y][x])))
            .collect(),
        (0..width)
            .map(|x| runs(&mut (0..height).map(|y| grid[y][x])))
            .collect(),
    )
    .unwrap()
}

// hint() is always the step that next_step() takes next
#[test]
fn property_hint_equals_next_step() {
    let mut rng = XorShift(0x0123456789ABCDEF);
    let mut fixtures = vec![clues_for_10x10()];
    for _ in 0..30 {
        fixtures.push(random_clues(7, 7, &mut rng));
        fixtures.push(random_clues(5, 8, &mut rng));
    }
    for clues in fixtures {
        let mut solver = Solver::new(clues);
        for iteration in 0.. {
            assert!(iteration < 10_000, "stepping did not terminate");
            let hint = solver.hint().unwrap();
            let step = solver.next_step().unwrap();
            assert_eq!(hint.map(|h| h.step), step);
            if step.is_none() {
                break;
            }
        }
    }
}

// solve() and stepping with next_step() end on the same board
#[test]
fn property_solve_equals_stepwise_closure() {
    let mut rng = XorShift(0xFEDCBA9876543210);
    let mut fixtures = vec![clues_for_10x10()];
    for _ in 0..30 {
        fixtures.push(random_clues(7, 7, &mut rng));
        fixtures.push(random_clues(5, 8, &mut rng));
    }
    for clues in fixtures {
        let mut batch = Solver::new(clues.clone());
        let batch_outcome = batch.solve().unwrap();

        let mut stepwise = Solver::new(clues);
        for iteration in 0.. {
            assert!(iteration < 10_000, "stepping did not terminate");
            if stepwise.next_step().unwrap().is_none() {
                break;
            }
        }
        assert_eq!(batch.grid(), stepwise.grid());
        assert_eq!(
            batch_outcome == Outcome::Solved,
            stepwise.grid().is_complete()
        );
    }
}

// with_grid: deduction goes on from the confirmed cells of the seed
#[test]
fn test_with_grid_seeds_are_used() {
    let clues = Clues::new(vec![vec![1], vec![1]], vec![vec![1], vec![1]]).unwrap();
    let mut grid = Grid::new(2, 2);
    grid.set(0, 0, CellState::Black);
    let mut solver = Solver::with_grid(clues, grid).unwrap();
    assert_eq!(solver.solve(), Ok(Outcome::Solved));
    assert_eq!(solver.state(0, 1), CellState::White);
    assert_eq!(solver.state(1, 0), CellState::White);
    assert_eq!(solver.state(1, 1), CellState::Black);
}

#[test]
fn test_session_rollback() {
    // set values taken from the solution
    let mut solved = Solver::new(clues_for_10x10());
    solved.solve().unwrap();
    let correct = |i: usize, j: usize| solved.state(i, j);

    let mut session = Session::new(clues_for_10x10());
    session.set(0, 0, correct(0, 0));
    session.set(0, 1, correct(0, 1));
    session.set(1, 1, correct(1, 1));
    assert_eq!(session.state(1, 1), correct(1, 1));

    // keeping the first edit takes back the later ones
    session.rollback(1);
    assert_eq!(session.state(0, 0), correct(0, 0));
    assert_eq!(session.state(0, 1), CellState::Unconfirmed);
    assert_eq!(session.state(1, 1), CellState::Unconfirmed);

    // after the rollback, deduce works from the current board
    let grid = session.deduce().expect("this 10x10 solves uniquely");
    assert_eq!(grid, solved.grid().clone());
}

// Black, then unconfirmed, then white: with the solution set afterwards,
// judge holds (going back leaves no trace)
#[test]
fn test_session_judge_after_unconfirmed_rollback() {
    let clues = Clues::new(vec![vec![1], vec![1]], vec![vec![1], vec![1]]).unwrap();
    let mut session = Session::new(clues);
    session.set(0, 0, CellState::Black);
    session.set(0, 0, CellState::Unconfirmed);
    session.set(0, 0, CellState::White);
    session.set(0, 1, CellState::Black);
    session.set(1, 1, CellState::White);
    session.set(1, 0, CellState::Black);
    assert!(session.judge());
}

// An edit made after a deduce is taken into account by the next deduce
#[test]
fn test_session_set_after_deduce_propagates() {
    let clues = Clues::new(vec![vec![1], vec![1]], vec![vec![1], vec![1]]).unwrap();
    let mut session = Session::new(clues);
    // two solutions: nothing is confirmed, and deduce returns the partial board
    let grid = session.deduce().unwrap();
    assert!(!grid.is_complete());

    session.set(0, 0, CellState::Black); // tell one of the solutions
    let grid = session.deduce().unwrap();
    assert_eq!(grid.get(0, 0), CellState::Black);
    assert_eq!(grid.get(0, 1), CellState::White);
    assert_eq!(grid.get(1, 0), CellState::White);
    assert_eq!(grid.get(1, 1), CellState::Black);
}

// Session::mistakes
//
// A 2x2 with one solution: row 0 = [2] (both black), row 1 = [] (both white)
fn clues_for_deterministic_2x2() -> Clues {
    Clues::new(vec![vec![2], vec![]], vec![vec![1], vec![1]]).unwrap()
}

#[test]
fn test_mistakes_no_mistakes_when_grid_matches_clues() {
    let mut session = Session::new(clues_for_deterministic_2x2());
    session.set(0, 0, CellState::Black);
    session.set(0, 1, CellState::Black);
    session.set(1, 0, CellState::White);
    // (1, 1) is left blank
    assert_eq!(session.mistakes().unwrap(), Vec::new());
}

#[test]
fn test_mistakes_detects_wrong_cells() {
    let mut session = Session::new(clues_for_deterministic_2x2());
    session.set(0, 0, CellState::White); // wrong: the clues make it black
    session.set(0, 1, CellState::Black); // right
    session.set(1, 0, CellState::Black); // wrong: the clues make it white
    assert_eq!(session.mistakes().unwrap(), vec![(0, 0), (1, 0)]);
}

#[test]
fn test_mistakes_ignores_unfilled_cells() {
    let session = Session::new(clues_for_deterministic_2x2());
    // a blank board has no mistakes
    assert_eq!(session.mistakes().unwrap(), Vec::new());
}

// When the clues alone confirm nothing, no entry is reported as a mistake
// (see Session::mistakes)
#[test]
fn test_mistakes_reports_nothing_when_clues_alone_are_fully_ambiguous() {
    let clues = Clues::new(vec![vec![1], vec![1]], vec![vec![1], vec![1]]).unwrap();
    let mut session = Session::new(clues);
    session.set(0, 0, CellState::Black);
    session.set(1, 1, CellState::Black);
    assert_eq!(session.mistakes().unwrap(), Vec::new());
}

// Clues that cannot be satisfied make mistakes fail
#[test]
fn test_mistakes_propagates_error_when_clues_are_unsatisfiable() {
    let session = Session::new(
        Clues::new(
            vec![vec![], vec![3, 1], vec![], vec![], vec![]],
            vec![vec![1, 3], vec![], vec![], vec![], vec![]],
        )
        .unwrap(),
    );
    assert!(session.mistakes().is_err());
}

// Session::hint works from the current board, the user's entries included
#[test]
fn test_session_hint_reflects_user_grid() {
    let clues = Clues::new(vec![vec![1], vec![1]], vec![vec![1], vec![1]]).unwrap();
    let mut session = Session::new(clues);
    // nothing can be deduced on the blank board
    assert!(session.hint().unwrap().is_none());
    // with one cell given there is a next step
    session.set(0, 0, CellState::Black);
    let hint = session.hint().unwrap().expect("hint should be available");
    assert!(!hint.step.changed.is_empty());
}
