//! Unit tests of the line analysis, the clues, the board, the line rules and
//! the session history.
use illu_logi_solver_super::analysis::{segments_of, LineAnalysis};
use illu_logi_solver_super::rules::{
    black_if_bounded, black_if_left_bounded, black_if_overlap, black_if_right_bounded,
    white_if_no_block_covers, white_if_segment_complete, white_if_too_long, white_if_too_short,
};
use illu_logi_solver_super::{
    CellState, ClueError, Clues, Color, Deduction, Grid, GridMismatch, LineId, Session,
};

type Rule = fn(&LineAnalysis, &mut Vec<Deduction>);

const RULES: [Rule; 8] = [
    black_if_overlap,
    black_if_bounded,
    black_if_left_bounded,
    black_if_right_bounded,
    white_if_segment_complete,
    white_if_too_long,
    white_if_too_short,
    white_if_no_block_covers,
];

fn cells_from(pattern: &str) -> Vec<CellState> {
    pattern
        .chars()
        .filter(|&c| c != '|')
        .map(|c| match c {
            '.' => CellState::Unconfirmed,
            'x' => CellState::White,
            'o' => CellState::Black,
            _ => panic!("unknown cell char {c:?}"),
        })
        .collect()
}

fn flags(cells: &[CellState], pred: impl Fn(CellState) -> bool) -> Vec<bool> {
    cells.iter().map(|&s| pred(s)).collect()
}

// ---------------------------------------------------------------------------
// analysis

#[test]
fn test_segments_of() {
    let cells = cells_from("oo.xo");
    assert_eq!(
        segments_of(&flags(&cells, |s| s == CellState::Black)),
        vec![(0, 2), (4, 5)]
    );
    assert_eq!(
        segments_of(&flags(&cells, |s| s != CellState::White)),
        vec![(0, 3), (4, 5)]
    );
    assert_eq!(
        segments_of(&flags(&cells, |s| s == CellState::Unconfirmed)),
        vec![(2, 3)]
    );
    assert_eq!(segments_of(&[]), vec![]);
}

#[test]
fn test_confirmed_ids() {
    let cells = cells_from("xxooo|ooxxx|...xo|xoxxo");
    let analysis = LineAnalysis::compute(&[5, 1, 1, 1], &cells).unwrap();
    for j in 0..20 {
        match j {
            2..=6 => assert_eq!(analysis.confirmed_id(j), Some(0)),
            14 => assert_eq!(analysis.confirmed_id(j), Some(1)),
            16 => assert_eq!(analysis.confirmed_id(j), Some(2)),
            19 => assert_eq!(analysis.confirmed_id(j), Some(3)),
            _ => assert_eq!(analysis.confirmed_id(j), None, "j={j}"),
        }
    }
}

#[test]
fn test_no_placement() {
    // A block of 2 no longer fits once whites close the line to one cell.
    let cells = cells_from("x.x");
    assert!(matches!(LineAnalysis::compute(&[2], &cells), Err(0)));
}

// ---------------------------------------------------------------------------
// clues

#[test]
fn line_id_is_the_single_transposition_point() {
    assert_eq!(LineId::Row(3).cell(7), (3, 7));
    assert_eq!(LineId::Col(3).cell(7), (7, 3));
    assert_eq!(LineId::Row(3).orthogonal_at(7), LineId::Col(7));
    assert_eq!(LineId::Col(3).orthogonal_at(7), LineId::Row(7));
    // the crossing line meets this one at the same cell
    let line = LineId::Row(3);
    let (r, c) = line.cell(7);
    assert_eq!(line.orthogonal_at(7).cell(3), (r, c));
}

#[test]
fn validation() {
    // a block of size 0 is refused
    assert_eq!(
        Clues::new(vec![vec![0]], vec![vec![1]]),
        Err(ClueError::ZeroBlock {
            line: LineId::Row(0)
        })
    );
    // sum(blocks) + (blocks.len() - 1) > length is refused (3 + 1 + 1 = 5 > 3)
    assert_eq!(
        Clues::new(
            vec![vec![3, 1], vec![], vec![]],
            vec![vec![], vec![], vec![]],
        ),
        Err(ClueError::TooLong {
            line: LineId::Row(0),
            len: 3
        })
    );
    // an exact fit is accepted (3 + 1 + 1 = 5 <= 5)
    assert!(Clues::new(vec![vec![3, 1]; 5], vec![vec![]; 5]).is_ok());
    // different numbers of rows and columns make a rectangle
    assert!(Clues::new(vec![vec![1]], vec![vec![1]; 2]).is_ok());
    // columns are checked too (the length of a column is the height)
    assert_eq!(
        Clues::new(vec![vec![]], vec![vec![2]]),
        Err(ClueError::TooLong {
            line: LineId::Col(0),
            len: 1
        })
    );
}

#[test]
fn lines_enumerates_rows_then_cols() {
    let clues = Clues::new(vec![vec![]; 2], vec![vec![]; 3]).unwrap();
    assert_eq!(
        clues.lines().into_iter().collect::<Vec<_>>(),
        vec![
            LineId::Row(0),
            LineId::Row(1),
            LineId::Col(0),
            LineId::Col(1),
            LineId::Col(2),
        ]
    );
}

// ---------------------------------------------------------------------------
// board

#[test]
fn paint_detects_conflicts() {
    let mut grid = Grid::new(2, 3);
    assert_eq!(grid.paint(0, 1, Color::Black), Ok(true));
    assert_eq!(grid.paint(0, 1, Color::Black), Ok(false));
    assert_eq!(grid.paint(0, 1, Color::White), Err(CellState::Black));
    assert_eq!(grid.get(0, 1), CellState::Black);
}

#[test]
fn line_cells_and_runs_respect_orientation() {
    // 2x3: rows and columns read transposed, checked on a non-square board
    let grid = Grid::from_rows(vec![
        vec![CellState::Black, CellState::White, CellState::Black],
        vec![CellState::Black, CellState::Black, CellState::White],
    ])
    .unwrap();
    let mut buf = Vec::new();
    grid.line_cells(LineId::Row(1), &mut buf);
    assert_eq!(
        buf,
        vec![CellState::Black, CellState::Black, CellState::White]
    );
    grid.line_cells(LineId::Col(0), &mut buf);
    assert_eq!(buf, vec![CellState::Black, CellState::Black]);
    assert_eq!(grid.runs(LineId::Row(0)), vec![1, 1]);
    assert_eq!(grid.runs(LineId::Col(2)), vec![1]);
}

#[test]
fn satisfies_requires_completeness() {
    let clues = Clues::new(vec![vec![], vec![]], vec![vec![], vec![]]).unwrap();
    let mut grid = Grid::new(2, 2);
    // the runs match the clues (all empty), but unconfirmed cells remain
    assert!(!grid.satisfies(&clues));
    for r in 0..2 {
        for c in 0..2 {
            grid.set(r, c, CellState::White);
        }
    }
    assert!(grid.satisfies(&clues));
}

#[test]
fn from_rows_rejects_ragged_rows() {
    let result = Grid::from_rows(vec![
        vec![CellState::Unconfirmed; 2],
        vec![CellState::Unconfirmed; 3],
    ]);
    assert_eq!(
        result,
        Err(GridMismatch::RaggedRows {
            row: 1,
            expected: 2,
            actual: 3
        })
    );
}

// ---------------------------------------------------------------------------
// rules

/// One line with its clue: `run` analyses it, runs the given rules and
/// paints what they deduce.
struct Fixture {
    blocks: Vec<usize>,
    cells: Vec<CellState>,
}

impl Fixture {
    fn new(blocks: Vec<usize>, pattern: &str) -> Self {
        Self {
            blocks,
            cells: cells_from(pattern),
        }
    }
    fn analysis(&self) -> LineAnalysis {
        LineAnalysis::compute(&self.blocks, &self.cells).unwrap()
    }
    fn run(&mut self, rules: &[Rule]) {
        let analysis = self.analysis();
        let mut deductions = Vec::new();
        for rule in rules {
            rule(&analysis, &mut deductions);
        }
        for d in deductions {
            for j in d.range {
                assert_ne!(
                    self.cells[j],
                    match d.color {
                        Color::White => CellState::Black,
                        Color::Black => CellState::White,
                    },
                    "rule deduced a contradiction at {j}"
                );
                self.cells[j] = d.color.into();
            }
        }
    }
    fn assert_cells(&self, pattern: &str) {
        assert_eq!(self.cells, cells_from(pattern));
    }
    fn confirmed_id(&self, j: usize) -> Option<usize> {
        self.analysis().confirmed_id(j)
    }
}

#[test]
fn test_black_if_overlap() {
    let mut f = Fixture::new(vec![4], ".....");
    f.run(&[black_if_overlap]);
    f.assert_cells(".ooo.");
    assert_eq!(f.confirmed_id(1), Some(0));
    assert_eq!(f.confirmed_id(2), Some(0));
    assert_eq!(f.confirmed_id(3), Some(0));

    let mut f = Fixture::new(vec![3, 1], ".....");
    f.run(&[black_if_overlap]);
    f.assert_cells("ooo.o");
    assert_eq!(f.confirmed_id(0), Some(0));
    assert_eq!(f.confirmed_id(1), Some(0));
    assert_eq!(f.confirmed_id(2), Some(0));
    assert_eq!(f.confirmed_id(4), Some(1));

    // block 0 (size 1) fits only at cell 0, which is black then
    let mut f = Fixture::new(vec![1, 2], ".xoo.");
    f.run(&[black_if_overlap]);
    f.assert_cells("oxoo.");

    let mut f = Fixture::new(vec![3, 2, 2], "..........");
    f.run(&[black_if_overlap]);
    f.assert_cells(".oo..o..o.");
    assert_eq!(f.confirmed_id(1), Some(0));
    assert_eq!(f.confirmed_id(2), Some(0));
    assert_eq!(f.confirmed_id(5), Some(1));
    assert_eq!(f.confirmed_id(8), Some(2));

    let mut f = Fixture::new(vec![1, 2, 5, 1, 1], "....xoo.oo....x..x..");
    for _ in 0..2 {
        f.run(&[black_if_overlap]);
        f.assert_cells("....xoo.oo....x..x..");
        assert_eq!(f.confirmed_id(5), None);
        assert_eq!(f.confirmed_id(6), None);
        assert_eq!(f.confirmed_id(8), Some(2));
        assert_eq!(f.confirmed_id(9), Some(2));
    }
}

#[test]
fn test_white_if_segment_complete() {
    let mut f = Fixture::new(vec![2, 2], "....oo....");
    f.run(&[white_if_segment_complete]);
    f.assert_cells("...xoox...");

    // a run whose neighbours are white already is skipped
    let mut f = Fixture::new(vec![2, 2], "xoox.....");
    f.run(&[white_if_segment_complete]);
    f.assert_cells("xoox.....");
}

#[test]
fn test_white_if_no_block_covers() {
    let mut f = Fixture::new(vec![2, 2], ".o......o.");
    f.run(&[black_if_overlap, white_if_no_block_covers]);
    f.assert_cells(".o.xxxx.o.");
    assert_eq!(f.confirmed_id(1), Some(0));
    assert_eq!(f.confirmed_id(8), Some(1));
}

#[test]
fn test_black_if_left_bounded() {
    let mut f = Fixture::new(vec![2, 2], "....xo....");
    f.run(&[black_if_left_bounded]);
    f.assert_cells("....xoo...");
    assert_eq!(f.confirmed_id(5), None);
    assert_eq!(f.confirmed_id(6), None);

    let mut f = Fixture::new(vec![2, 6, 5, 2, 1], "oox......x..o.................");
    f.run(&[black_if_overlap, black_if_left_bounded]);
    f.assert_cells("oox......x..ooo...............");
    assert_eq!(f.confirmed_id(0), Some(0));
    assert_eq!(f.confirmed_id(1), Some(0));
    assert_eq!(f.confirmed_id(12), None);
    assert_eq!(f.confirmed_id(13), None);
    assert_eq!(f.confirmed_id(14), None);

    let mut f = Fixture::new(vec![1, 2, 5, 1, 1], "....xoo.oo....x..x..");
    f.run(&[black_if_overlap, black_if_overlap, black_if_left_bounded]);
    f.assert_cells("....xoo.oo....x..x..");
    assert_eq!(f.confirmed_id(5), None);
    assert_eq!(f.confirmed_id(6), None);
    assert_eq!(f.confirmed_id(8), Some(2));
    assert_eq!(f.confirmed_id(9), Some(2));
}

#[test]
fn test_black_if_right_bounded() {
    let mut f = Fixture::new(vec![2, 2], "....ox....");
    f.run(&[black_if_right_bounded]);
    f.assert_cells("...oox....");
    assert_eq!(f.confirmed_id(3), None);
    assert_eq!(f.confirmed_id(4), None);

    let mut f = Fixture::new(vec![2, 2], ".ox.......");
    f.run(&[black_if_right_bounded]);
    f.assert_cells("oox.......");
    assert_eq!(f.confirmed_id(0), Some(0));
    assert_eq!(f.confirmed_id(1), Some(0));
}

#[test]
fn test_black_if_bounded() {
    let mut f = Fixture::new(vec![3, 3], "...x.o.x...");
    f.run(&[black_if_bounded]);
    f.assert_cells("...xooox...");
    assert_eq!(f.confirmed_id(4), None);
    assert_eq!(f.confirmed_id(5), None);
    assert_eq!(f.confirmed_id(6), None);
}

#[test]
fn test_white_if_too_long() {
    let mut f = Fixture::new(vec![1, 2], "..o.......");
    f.run(&[white_if_too_long]);
    f.assert_cells(".xo.......");
    assert_eq!(f.confirmed_id(2), None);
}

#[test]
fn test_white_if_too_short() {
    let mut f = Fixture::new(vec![1, 2, 2], ".....ox.x......");
    f.run(&[white_if_too_short]);
    f.assert_cells(".....oxxx......");
    assert_eq!(f.confirmed_id(5), None);
}

// Deductions that are painted already are not reported again; otherwise
// hint and next_step would keep returning the same step.
#[test]
fn rules_do_not_reemit_applied_deductions() {
    let mut f = Fixture::new(vec![4], ".....");
    f.run(&RULES);
    f.assert_cells(".ooo.");
    // second round: the line no longer changes, so nothing new is deduced
    let analysis = f.analysis();
    let mut deductions = Vec::new();
    for rule in RULES {
        rule(&analysis, &mut deductions);
    }
    assert_eq!(deductions, vec![]);
}

// ---------------------------------------------------------------------------
// session

#[test]
fn undo_and_rollback_replay_history() {
    let clues = Clues::new(vec![vec![1], vec![1]], vec![vec![1], vec![1]]).unwrap();
    let mut session = Session::new(clues);
    session.set(0, 0, CellState::Black);
    session.set(0, 1, CellState::White);
    session.set(1, 0, CellState::White);

    session.undo();
    assert_eq!(session.state(1, 0), CellState::Unconfirmed);
    assert_eq!(session.state(0, 0), CellState::Black);

    session.set(1, 0, CellState::White);
    session.set(1, 1, CellState::Black);
    assert!(session.judge());

    session.rollback(1);
    assert_eq!(session.state(0, 0), CellState::Black);
    assert_eq!(session.state(0, 1), CellState::Unconfirmed);
    assert_eq!(session.state(1, 0), CellState::Unconfirmed);
    assert_eq!(session.state(1, 1), CellState::Unconfirmed);
}
