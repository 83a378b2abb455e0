//! How complete the rules are: deduction by the line rules is compared with
//! complete line solving (the fixpoint over all arrangements of each line).
//! A gap is a board that complete line solving solves while the solver is
//! stuck; the counts must not grow. The gaps come from holding the
//! candidates of each cell as one range, which cannot express how the
//! candidates of different cells depend on each other.
//!
//! The bound of each test was measured on the fixed `XorShift` seeds here.
use illu_logi_solver_super::{CellState, Clues, Outcome, Solver};

// Enumerates every arrangement consistent with `states` and the clue, and
// returns (cells that can be black, cells that can be white) as masks; None
// when there is no such arrangement.
fn line_masks(states: &[CellState], blocks: &[usize]) -> Option<(u64, u64)> {
    let mut can_black = 0u64;
    let mut can_white = 0u64;
    let mut found = false;
    // rec(i, k, mask): place blocks k.. in cells i..
    #[allow(clippy::too_many_arguments)]
    fn rec(
        i: usize,
        k: usize,
        mask: u64,
        states: &[CellState],
        blocks: &[usize],
        can_black: &mut u64,
        can_white: &mut u64,
        found: &mut bool,
    ) {
        let n = states.len();
        if k == blocks.len() {
            if (i..n).any(|j| states[j] == CellState::Black) {
                return;
            }
            *found = true;
            *can_black |= mask;
            *can_white |= !mask & ((1u64 << n) - 1);
            return;
        }
        let b = blocks[k];
        let mut start = i;
        loop {
            if start + b > n {
                return;
            }
            // can start..start+b be black
            let ok_black = (start..start + b).all(|j| states[j] != CellState::White);
            // can the next cell be white
            let ok_gap = start + b == n || states[start + b] != CellState::Black;
            if ok_black && ok_gap {
                let next = if start + b == n { n } else { start + b + 1 };
                let mut m = mask;
                for j in start..start + b {
                    m |= 1 << j;
                }
                rec(next, k + 1, m, states, blocks, can_black, can_white, found);
            }
            // make start white and go on (not possible when it is black)
            if states[start] == CellState::Black {
                return;
            }
            start += 1;
        }
    }
    rec(
        0,
        0,
        0,
        states,
        blocks,
        &mut can_black,
        &mut can_white,
        &mut found,
    );
    found.then_some((can_black, can_white))
}

// The fixpoint of complete line solving: Some(true) when every cell is
// confirmed, Some(false) when it stops before, None on a contradiction.
#[allow(clippy::needless_range_loop)]
fn dp_fixpoint(rows: &[Vec<usize>], cols: &[Vec<usize>]) -> Option<bool> {
    let n = rows.len();
    let mut grid = vec![vec![CellState::Unconfirmed; n]; n];
    loop {
        let mut changed = false;
        for axis in 0..2 {
            for i in 0..n {
                let states: Vec<CellState> = (0..n)
                    .map(|j| if axis == 0 { grid[i][j] } else { grid[j][i] })
                    .collect();
                let blocks = if axis == 0 { &rows[i] } else { &cols[i] };
                let (cb, cw) = line_masks(&states, blocks)?;
                for j in 0..n {
                    let b = cb >> j & 1 == 1;
                    let w = cw >> j & 1 == 1;
                    let new = match (b, w) {
                        (true, false) => CellState::Black,
                        (false, true) => CellState::White,
                        (true, true) => continue,
                        (false, false) => return None,
                    };
                    let cell = if axis == 0 {
                        &mut grid[i][j]
                    } else {
                        &mut grid[j][i]
                    };
                    if *cell != new {
                        *cell = new;
                        changed = true;
                    }
                }
            }
        }
        if !changed {
            let solved = grid
                .iter()
                .all(|row| row.iter().all(|&s| s != CellState::Unconfirmed));
            return Some(solved);
        }
    }
}

fn clue_lists_of(grid: &[Vec<bool>]) -> (Vec<Vec<usize>>, Vec<Vec<usize>>) {
    let n = grid.len();
    let runs = |cells: &mut dyn Iterator<Item = bool>| -> Vec<usize> {
        let mut v = Vec::new();
        let mut run = 0;
        for cell in cells {
            if cell {
                run += 1;
            } else if run > 0 {
                v.push(run);
                run = 0;
            }
        }
        if run > 0 {
            v.push(run);
        }
        v
    };
    (
        (0..n)
            .map(|y| runs(&mut (0..n).map(|x| grid[y][x])))
            .collect(),
        (0..n)
            .map(|x| runs(&mut (0..n).map(|y| grid[y][x])))
            .collect(),
    )
}

struct XorShift(u64);
impl XorShift {
    fn next(&mut self) -> u64 {
        self.0 ^= self.0 << 13;
        self.0 ^= self.0 >> 7;
        self.0 ^= self.0 << 17;
        self.0
    }
}

fn run_experiment(grids: impl Iterator<Item = Vec<Vec<bool>>>, label: &str, max_gap: u64) {
    let mut total = 0u64;
    let mut solver_ok = 0u64;
    let mut both_stuck = 0u64; // complete line solving is stuck too
    let mut gap = 0u64; // complete line solving solves it, the rules do not
    for grid in grids {
        total += 1;
        let (rows, cols) = clue_lists_of(&grid);
        let mut solver = Solver::new(Clues::new(rows.clone(), cols.clone()).unwrap());
        match solver.solve() {
            Ok(Outcome::Solved) => solver_ok += 1,
            Ok(Outcome::Stuck) => match dp_fixpoint(&rows, &cols) {
                Some(true) => gap += 1,
                Some(false) => both_stuck += 1,
                None => panic!("dp contradiction on solvable grid: {grid:?}"),
            },
            Err(e) => panic!("contradiction on solvable grid: {grid:?}\n{e:?}"),
        }
    }
    println!("{label}: total={total} solver_ok={solver_ok} both_stuck={both_stuck} gap={gap}");
    assert!(
        gap <= max_gap,
        "{label}: gap={gap} > {max_gap}: more boards that complete line solving solves are missed"
    );
}

#[test]
fn completeness_4x4_exhaustive() {
    let n = 4;
    run_experiment(
        (0u64..1 << (n * n)).map(|bits| {
            (0..n)
                .map(|y| (0..n).map(|x| bits >> (y * n + x) & 1 == 1).collect())
                .collect()
        }),
        "4x4 exhaustive",
        0,
    );
}

#[test]
fn completeness_5x5_random() {
    let mut rng = XorShift(0x243F6A8885A308D3);
    run_experiment(
        (0..20_000).map(move |_| {
            (0..5)
                .map(|_| {
                    let bits = rng.next();
                    (0..5).map(|x| bits >> x & 1 == 1).collect()
                })
                .collect()
        }),
        "5x5 random",
        0,
    );
}

#[test]
fn completeness_7x7_random() {
    let mut rng = XorShift(0x9E3779B97F4A7C15);
    run_experiment(
        (0..10_000).map(move |_| {
            (0..7)
                .map(|_| {
                    let bits = rng.next();
                    (0..7).map(|x| bits >> x & 1 == 1).collect()
                })
                .collect()
        }),
        "7x7 random",
        2,
    );
}
