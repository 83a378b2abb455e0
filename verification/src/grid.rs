//! The board: a plain value that holds the state of every cell.
//!
//! Lines of the board are read through [`crate::LineId`].
use vstd::prelude::*;
use crate::clue::{Clues, LineId};
use crate::analysis::{is_segments_of, segments_of, flags_where, class_flags};

verus! {

/// The state of one cell.
#[derive(Clone, Copy, PartialEq, Eq, Debug, Structural)]
pub enum CellState {
    /// Neither black nor white yet.
    Unconfirmed,
    /// Confirmed white (not painted).
    White,
    /// Confirmed black (painted).
    Black,
}

/// A colour that a deduction writes: white or black, never unconfirmed.
#[derive(Clone, Copy, PartialEq, Eq, Debug, Structural)]
pub enum Color {
    /// White (not painted).
    White,
    /// Black (painted).
    Black,
}

/// The cell state that holds the colour `color`.
pub open spec fn color_state(color: Color) -> CellState {
    match color {
        Color::White => CellState::White,
        Color::Black => CellState::Black,
    }
}

/// The cell state that holds `color`.
pub fn state_of(color: Color) -> (res: CellState)
    ensures
        res == color_state(color),
{
    match color {
        Color::White => CellState::White,
        Color::Black => CellState::Black,
    }
}

impl From<Color> for CellState {
    fn from(color: Color) -> (res: CellState) {
        state_of(color)
    }
}

impl vstd::std_specs::convert::FromSpecImpl<Color> for CellState {
    open spec fn obeys_from_spec() -> bool {
        true
    }

    open spec fn from_spec(color: Color) -> CellState {
        color_state(color)
    }
}

/// Why a board does not have the expected shape.
#[derive(Debug, Clone, Copy, PartialEq, Eq, Structural)]
pub enum GridMismatch {
    /// Row `row` given to [`Grid::from_rows`] has `actual` cells, but row 0
    /// has `expected`.
    RaggedRows {
        /// The first row whose length differs from that of row 0.
        row: usize,
        /// The length of row 0.
        expected: usize,
        /// The length of row `row`.
        actual: usize,
    },
    /// The board has `actual` rows but the clues expect `expected`.
    HeightMismatch {
        /// The height of the clues.
        expected: usize,
        /// The height of the board.
        actual: usize,
    },
    /// The board has `actual` columns but the clues expect `expected`.
    WidthMismatch {
        /// The width of the clues.
        expected: usize,
        /// The width of the board.
        actual: usize,
    },
}

/// A `height` x `width` board. Plain data: it holds no solver state.
#[derive(Clone, PartialEq, Eq, Debug)]
pub struct Grid {
    height: usize,
    width: usize,
    rows: Vec<Vec<CellState>>,
}

/// All cells of a board given row by row are confirmed.
pub open spec fn board_complete(board: Seq<Seq<CellState>>) -> bool {
    forall|r: int, c: int|
        0 <= r < board.len() && 0 <= c < board[r].len() ==> #[trigger] board[r][c]
            != CellState::Unconfirmed
}

/// The black cells of `cells`, as flags.
pub open spec fn black_flags(cells: Seq<CellState>) -> Seq<bool> {
    cells.map_values(|c: CellState| c == CellState::Black)
}

/// `runs` are the lengths, in order, of the maximal runs of black cells of
/// `cells`.
pub open spec fn has_runs(cells: Seq<CellState>, runs: Seq<usize>) -> bool {
    exists|segs: Seq<(usize, usize)>|
        #![trigger is_segments_of(black_flags(cells), segs)]
        is_segments_of(black_flags(cells), segs) && segs.len() == runs.len() && forall|k: int|
            0 <= k < segs.len() ==> #[trigger] runs[k] == segs[k].1 - segs[k].0
}

/// The cells of `line` of a `height` x `width` board given row by row.
pub open spec fn board_line(board: Seq<Seq<CellState>>, width: nat, line: LineId) -> Seq<
    CellState,
> {
    match line {
        LineId::Row(i) => Seq::new(width, |c: int| board[i as int][c]),
        LineId::Col(j) => Seq::new(board.len(), |r: int| board[r][j as int]),
    }
}

impl View for Grid {
    type V = Seq<Seq<CellState>>;

    closed spec fn view(&self) -> Seq<Seq<CellState>> {
        self.rows@.map_values(|row: Vec<CellState>| row@)
    }
}

impl Grid {
    /// The number of rows.
    pub closed spec fn spec_height(self) -> nat {
        self.height as nat
    }

    /// The number of columns.
    pub closed spec fn spec_width(self) -> nat {
        self.width as nat
    }

    /// The stored rows match the dimensions.
    pub closed spec fn wf(self) -> bool {
        &&& self.rows@.len() == self.height
        &&& forall|r: int| 0 <= r < self.rows@.len() ==> (#[trigger] self.rows@[r])@.len() == self.width
    }

    /// The dimensions of the view are those of the board.
    pub proof fn lemma_view(self)
        requires
            self.wf(),
        ensures
            self@.len() == self.spec_height(),
            forall|r: int| 0 <= r < self.spec_height() ==> (#[trigger] self@[r]).len() == self.spec_width(),
    {
    }

    /// The state of cell `(row, col)`.
    pub open spec fn at(self, row: int, col: int) -> CellState {
        self@[row][col]
    }

    /// The cells of `line`, in order.
    pub open spec fn line_view(self, line: LineId) -> Seq<CellState> {
        board_line(self@, self.spec_width(), line)
    }

    /// `line` lies on this board.
    pub open spec fn has_line(self, line: LineId) -> bool {
        match line {
            LineId::Row(i) => i < self.spec_height(),
            LineId::Col(j) => j < self.spec_width(),
        }
    }

    /// Every cell is confirmed.
    pub open spec fn spec_complete(self) -> bool {
        board_complete(self@)
    }

    /// A board of `height` x `width` cells, all unconfirmed.
    pub fn new(height: usize, width: usize) -> (res: Self)
        ensures
            res.wf(),
            res.spec_height() == height,
            res.spec_width() == width,
            forall|r: int, c: int|
                0 <= r < height && 0 <= c < width ==> #[trigger] res.at(r, c)
                    == CellState::Unconfirmed,
    {
        let mut rows: Vec<Vec<CellState>> = Vec::new();
        let mut r: usize = 0;
        while r < height
            invariant
                r <= height,
                rows@.len() == r,
                forall|i: int| 0 <= i < r ==> (#[trigger] rows@[i])@.len() == width,
                forall|i: int, c: int|
                    0 <= i < r && 0 <= c < width ==> #[trigger] rows@[i]@[c]
                        == CellState::Unconfirmed,
            decreases height - r,
        {
            let mut row: Vec<CellState> = Vec::new();
            let mut c: usize = 0;
            while c < width
                invariant
                    c <= width,
                    row@.len() == c,
                    forall|k: int| 0 <= k < c ==> #[trigger] row@[k] == CellState::Unconfirmed,
                decreases width - c,
            {
                row.push(CellState::Unconfirmed);
                c += 1;
            }
            rows.push(row);
            r += 1;
        }
        let g = Grid { height, width, rows };
        assert forall|r: int, c: int|
            0 <= r < height && 0 <= c < width implies #[trigger] g.at(r, c) == CellState::Unconfirmed by {
            assert(g@[r] == g.rows@[r]@);
        }
        g
    }

    /// A board from its rows of cells. All rows must have the length of row
    /// 0; the first row that does not is reported.
    pub fn from_rows(rows: Vec<Vec<CellState>>) -> (res: Result<Self, GridMismatch>)
        ensures
            match res {
                Ok(g) => {
                    &&& g.wf()
                    &&& g@ == rows@.map_values(|row: Vec<CellState>| row@)
                    &&& g.spec_height() == rows@.len()
                    &&& g.spec_width() == (if rows@.len() == 0 { 0 } else { rows@[0]@.len() })
                },
                Err(e) => exists|k: int|
                    #![trigger rows@[k]]
                    0 < k < rows@.len() && rows@[k]@.len() != rows@[0]@.len() && (forall|i: int|
                        0 <= i < k ==> (#[trigger] rows@[i])@.len() == rows@[0]@.len()) && e
                        == (GridMismatch::RaggedRows {
                        row: k as usize,
                        expected: rows@[0]@.len() as usize,
                        actual: rows@[k]@.len() as usize,
                    }),
            },
    {
        let height = rows.len();
        let width = if height == 0 {
            0
        } else {
            rows[0].len()
        };
        let mut k: usize = 0;
        while k < height
            invariant
                height == rows@.len(),
                height > 0 ==> width == rows@[0]@.len(),
                k <= height,
                forall|i: int| 0 <= i < k ==> (#[trigger] rows@[i])@.len() == width,
            decreases height - k,
        {
            if rows[k].len() != width {
                return Err(GridMismatch::RaggedRows { row: k, expected: width, actual: rows[k].len() });
            }
            k += 1;
        }
        Ok(Grid { height, width, rows })
    }

    /// The height of the board.
    pub fn height(&self) -> (res: usize)
        ensures
            res == self.spec_height(),
    {
        self.height
    }

    /// The width of the board.
    pub fn width(&self) -> (res: usize)
        ensures
            res == self.spec_width(),
    {
        self.width
    }

    /// The state of cell `(row, col)`.
    pub fn get(&self, row: usize, col: usize) -> (res: CellState)
        requires
            self.wf(),
            row < self.spec_height(),
            col < self.spec_width(),
        ensures
            res == self.at(row as int, col as int),
    {
        self.rows[row][col]
    }

    /// Sets cell `(row, col)` to `state` (going back to
    /// [`CellState::Unconfirmed`] is allowed too).
    pub fn set(&mut self, row: usize, col: usize, state: CellState)
        requires
            old(self).wf(),
            row < old(self).spec_height(),
            col < old(self).spec_width(),
        ensures
            final(self).wf(),
            final(self).spec_height() == old(self).spec_height(),
            final(self).spec_width() == old(self).spec_width(),
            final(self)@ == old(self)@.update(row as int, old(self)@[row as int].update(col as int, state)),
    {
        let mut line: Vec<CellState> = Vec::new();
        std::mem::swap(&mut line, &mut self.rows[row]);
        line.set(col, state);
        self.rows.set(row, line);
        assert(self@ =~= old(self)@.update(row as int, old(self)@[row as int].update(col as int, state)));
    }
}


/// A board is a solution of `clues` exactly when it has their dimensions,
/// every cell is confirmed, and the runs of every line (`runs`, as
/// [`Grid::runs`] finds them) are the clue of that line.
pub proof fn law_solution_by_runs(clues: Clues, board: Seq<Seq<CellState>>, runs: spec_fn(LineId) -> Seq<usize>)
    requires
        forall|line: LineId|
            #[trigger] clues.valid_line(line) ==> has_runs(board_line(board, clues.spec_width(), line), runs(line)),
    ensures
        is_solution(clues, board) <==> {
            &&& board.len() == clues.spec_height()
            &&& forall|r: int| 0 <= r < board.len() ==> (#[trigger] board[r]).len() == clues.spec_width()
            &&& board_complete(board)
            &&& forall|line: LineId| #[trigger] clues.valid_line(line) ==> runs(line) == clues.line_blocks(line)
        },
{
    if is_solution(clues, board) {
        assert forall|line: LineId| #[trigger] clues.valid_line(line) implies runs(line) == clues.line_blocks(line) by {
            lemma_runs_unique(board_line(board, clues.spec_width(), line), runs(line), clues.line_blocks(line));
        }
    }
}

/// The run lengths of a line are unique.
pub proof fn lemma_runs_unique(cells: Seq<CellState>, r1: Seq<usize>, r2: Seq<usize>)
    requires
        has_runs(cells, r1),
        has_runs(cells, r2),
    ensures
        r1 == r2,
{
    let f = black_flags(cells);
    let s1 = choose|segs: Seq<(usize, usize)>|
        #![trigger is_segments_of(black_flags(cells), segs)]
        is_segments_of(f, segs) && segs.len() == r1.len() && forall|k: int|
            0 <= k < segs.len() ==> #[trigger] r1[k] == segs[k].1 - segs[k].0;
    let s2 = choose|segs: Seq<(usize, usize)>|
        #![trigger is_segments_of(black_flags(cells), segs)]
        is_segments_of(f, segs) && segs.len() == r2.len() && forall|k: int|
            0 <= k < segs.len() ==> #[trigger] r2[k] == segs[k].1 - segs[k].0;
    crate::analysis::lemma_segments_unique(f, s1, s2);
    assert forall|k: int| 0 <= k < r1.len() implies r1[k] == r2[k] by {
        assert(r1[k] == s1[k].1 - s1[k].0);
        assert(r2[k] == s2[k].1 - s2[k].0);
    }
    assert(r1 =~= r2);
}

/// The number of unconfirmed cells of a row.
pub open spec fn row_unconfirmed(row: Seq<CellState>) -> nat
    decreases row.len(),
{
    if row.len() == 0 {
        0
    } else {
        row_unconfirmed(row.drop_last()) + (if row.last() == CellState::Unconfirmed {
            1nat
        } else {
            0nat
        })
    }
}

/// The number of unconfirmed cells of a board given row by row.
pub open spec fn board_unconfirmed(board: Seq<Seq<CellState>>) -> nat
    decreases board.len(),
{
    if board.len() == 0 {
        0
    } else {
        board_unconfirmed(board.drop_last()) + row_unconfirmed(board.last())
    }
}

proof fn lemma_row_unconfirmed_update(row: Seq<CellState>, c: int, x: CellState)
    requires
        0 <= c < row.len(),
        row[c] == CellState::Unconfirmed,
        x != CellState::Unconfirmed,
    ensures
        row_unconfirmed(row.update(c, x)) + 1 == row_unconfirmed(row),
    decreases row.len(),
{
    let u = row.update(c, x);
    if c == row.len() - 1 {
        assert(u.drop_last() =~= row.drop_last());
    } else {
        lemma_row_unconfirmed_update(row.drop_last(), c, x);
        assert(u.drop_last() =~= row.drop_last().update(c, x));
    }
}

/// Confirming one unconfirmed cell lowers the count of unconfirmed cells by
/// one.
pub proof fn lemma_board_unconfirmed_update(board: Seq<Seq<CellState>>, r: int, c: int, x: CellState)
    requires
        0 <= r < board.len(),
        0 <= c < board[r].len(),
        board[r][c] == CellState::Unconfirmed,
        x != CellState::Unconfirmed,
    ensures
        board_unconfirmed(board.update(r, board[r].update(c, x))) + 1 == board_unconfirmed(board),
    decreases board.len(),
{
    let u = board.update(r, board[r].update(c, x));
    if r == board.len() - 1 {
        assert(u.drop_last() =~= board.drop_last());
        lemma_row_unconfirmed_update(board[r], c, x);
    } else {
        lemma_board_unconfirmed_update(board.drop_last(), r, c, x);
        assert(u.drop_last() =~= board.drop_last().update(r, board[r].update(c, x)));
    }
}

proof fn lemma_row_unconfirmed_le(row: Seq<CellState>)
    ensures
        row_unconfirmed(row) <= row.len(),
    decreases row.len(),
{
    if row.len() > 0 {
        lemma_row_unconfirmed_le(row.drop_last());
    }
}

/// A board of `h` rows of `w` cells has at most `h * w` unconfirmed cells.
pub proof fn lemma_board_unconfirmed_le(board: Seq<Seq<CellState>>, w: nat)
    requires
        forall|r: int| 0 <= r < board.len() ==> (#[trigger] board[r]).len() == w,
    ensures
        board_unconfirmed(board) <= board.len() * w,
    decreases board.len(),
{
    if board.len() > 0 {
        lemma_board_unconfirmed_le(board.drop_last(), w);
        lemma_row_unconfirmed_le(board.last());
        let h = board.len();
        assert((h - 1) * w + w == h * w) by (nonlinear_arith);
    }
}

/// `board`, a solution, agrees with every confirmed cell of `grid`.
pub open spec fn agrees(board: Seq<Seq<CellState>>, grid: Seq<Seq<CellState>>) -> bool {
    forall|r: int, c: int|
        0 <= r < grid.len() && 0 <= c < grid[r].len() && #[trigger] grid[r][c] != CellState::Unconfirmed
            ==> board[r][c] == grid[r][c]
}

/// `board` has the dimensions of `clues`, every cell of it is confirmed and
/// every line has the runs that its clue asks for.
pub open spec fn is_solution(clues: Clues, board: Seq<Seq<CellState>>) -> bool {
    &&& board.len() == clues.spec_height()
    &&& forall|r: int| 0 <= r < board.len() ==> (#[trigger] board[r]).len() == clues.spec_width()
    &&& board_complete(board)
    &&& forall|line: LineId|
        #[trigger] clues.valid_line(line) ==> has_runs(
            board_line(board, clues.spec_width(), line),
            clues.line_blocks(line),
        )
}

/// `after` keeps every confirmed cell of `before`.
pub open spec fn keeps_confirmed(before: Seq<Seq<CellState>>, after: Seq<Seq<CellState>>) -> bool {
    &&& after.len() == before.len()
    &&& forall|r: int| 0 <= r < before.len() ==> (#[trigger] after[r]).len() == before[r].len()
    &&& forall|r: int, c: int|
        0 <= r < before.len() && 0 <= c < before[r].len() && #[trigger] before[r][c]
            != CellState::Unconfirmed ==> after[r][c] == before[r][c]
}

impl Grid {
    /// Writes the colour `color` of a deduction into cell `(row, col)`.
    ///
    /// `Ok(true)`: the cell was unconfirmed and now has `color`;
    /// `Ok(false)`: it already had `color`; `Err(current)`: it holds the
    /// other colour, a contradiction, and the board is unchanged.
    pub fn paint(&mut self, row: usize, col: usize, color: Color) -> (res: Result<bool, CellState>)
        requires
            old(self).wf(),
            row < old(self).spec_height(),
            col < old(self).spec_width(),
        ensures
            final(self).wf(),
            final(self).spec_height() == old(self).spec_height(),
            final(self).spec_width() == old(self).spec_width(),
            match res {
                Ok(true) => {
                    &&& old(self).at(row as int, col as int) == CellState::Unconfirmed
                    &&& final(self)@ == old(self)@.update(
                        row as int,
                        old(self)@[row as int].update(col as int, color_state(color)),
                    )
                },
                Ok(false) => {
                    &&& old(self).at(row as int, col as int) == color_state(color)
                    &&& final(self)@ == old(self)@
                },
                Err(current) => {
                    &&& current == old(self).at(row as int, col as int)
                    &&& current != CellState::Unconfirmed
                    &&& current != color_state(color)
                    &&& final(self)@ == old(self)@
                },
            },
    {
        let current = self.get(row, col);
        let target = state_of(color);
        if current == CellState::Unconfirmed {
            self.set(row, col, target);
            Ok(true)
        } else if current == target {
            Ok(false)
        } else {
            Err(current)
        }
    }

    /// Reads the cells of `line`, in order, into `buf` (cleared first; the
    /// buffer is the caller's so that it can be reused).
    pub fn line_cells(&self, line: LineId, buf: &mut Vec<CellState>)
        requires
            self.wf(),
            self.has_line(line),
        ensures
            final(buf)@ == self.line_view(line),
    {
        buf.clear();
        let len = match line {
            LineId::Row(_) => self.width,
            LineId::Col(_) => self.height,
        };
        let mut offset: usize = 0;
        while offset < len
            invariant
                self.wf(),
                self.has_line(line),
                len == self.line_view(line).len(),
                offset <= len,
                buf@ =~= self.line_view(line).take(offset as int),
            decreases len - offset,
        {
            let (row, col) = line.cell(offset);
            buf.push(self.get(row, col));
            offset += 1;
        }
    }

    /// Every cell is confirmed (no cell is unconfirmed).
    pub fn is_complete(&self) -> (res: bool)
        requires
            self.wf(),
        ensures
            res == self.spec_complete(),
    {
        let mut r: usize = 0;
        while r < self.height
            invariant
                self.wf(),
                r <= self.spec_height(),
                forall|i: int, c: int|
                    0 <= i < r && 0 <= c < self@[i].len() ==> #[trigger] self@[i][c] != CellState::Unconfirmed,
            decreases self.spec_height() - r,
        {
            let mut c: usize = 0;
            while c < self.width
                invariant
                    self.wf(),
                    r < self.spec_height(),
                    c <= self.spec_width(),
                    forall|k: int| 0 <= k < c ==> #[trigger] self@[r as int][k] != CellState::Unconfirmed,
                decreases self.spec_width() - c,
            {
                if self.rows[r][c] == CellState::Unconfirmed {
                    return false;
                }
                c += 1;
            }
            r += 1;
        }
        true
    }

    /// The lengths of the runs of black cells of `line`, in order.
    pub fn runs(&self, line: LineId) -> (res: Vec<usize>)
        requires
            self.wf(),
            self.has_line(line),
        ensures
            has_runs(self.line_view(line), res@),
    {
        let mut cells: Vec<CellState> = Vec::new();
        self.line_cells(line, &mut cells);
        let black = flags_where(cells.as_slice(), CellState::Black, true);
        let segs = segments_of(black.as_slice());
        let mut out: Vec<usize> = Vec::new();
        let mut k: usize = 0;
        while k < segs.len()
            invariant
                k <= segs@.len(),
                out@.len() == k,
                is_segments_of(black@, segs@),
                forall|i: int| 0 <= i < k ==> #[trigger] out@[i] == segs@[i].1 - segs@[i].0,
            decreases segs@.len() - k,
        {
            assert(segs@[k as int].0 < segs@[k as int].1);
            out.push(segs[k].1 - segs[k].0);
            k += 1;
        }
        assert(black@ =~= black_flags(cells@));
        assert(is_segments_of(black_flags(self.line_view(line)), segs@));
        out
    }

    /// This board satisfies `clues`: it has their dimensions, every cell is
    /// confirmed, and every line has the runs of black cells that its clue
    /// asks for. A board with an unconfirmed cell never satisfies them, even
    /// when its black runs happen to match.
    pub fn satisfies(&self, clues: &Clues) -> (res: bool)
        requires
            self.wf(),
            clues.spec_height() + clues.spec_width() <= usize::MAX,
        ensures
            res == (self.spec_height() == clues.spec_height() && self.spec_width() == clues.spec_width()
                && is_solution(*clues, self@)),
    {
        if self.height != clues.height() || self.width != clues.width() {
            return false;
        }
        if !self.is_complete() {
            return false;
        }
        let lines = clues.lines();
        let mut k: usize = 0;
        while k < lines.len()
            invariant
                self.wf(),
                self.spec_height() == clues.spec_height(),
                self.spec_width() == clues.spec_width(),
                lines@ == clues.spec_lines(),
                k <= lines@.len(),
                forall|i: int|
                    0 <= i < k ==> has_runs(
                        self.line_view(#[trigger] lines@[i]),
                        clues.line_blocks(lines@[i]),
                    ),
            decreases lines@.len() - k,
        {
            let line = lines[k];
            let runs = self.runs(line);
            let blocks = clues.blocks(line);
            let mut same = runs.len() == blocks.len();
            let mut i: usize = 0;
            while same && i < runs.len()
                invariant
                    runs@.len() == blocks@.len() || !same,
                    i <= runs@.len(),
                    same ==> forall|t: int| 0 <= t < i ==> runs@[t] == blocks@[t],
                    !same ==> runs@ != blocks@,
                decreases runs@.len() - i,
            {
                if runs[i] != blocks[i] {
                    assert(runs@[i as int] != blocks@[i as int]);
                    same = false;
                }
                i += 1;
            }
            if !same {
                proof {
                    assert(!has_runs(self.line_view(line), clues.line_blocks(line)) || runs@ =~= blocks@) by {
                        // the runs of a line are unique
                        if has_runs(self.line_view(line), clues.line_blocks(line)) {
                            lemma_runs_unique(self.line_view(line), runs@, clues.line_blocks(line));
                        }
                    }
                    assert(clues.valid_line(line));
                }
                return false;
            }
            assert(runs@ =~= blocks@);
            k += 1;
        }
        proof {
            assert forall|line: LineId| #[trigger] clues.valid_line(line) implies has_runs(
                self.line_view(line),
                clues.line_blocks(line),
            ) by {
                let i = match line {
                    LineId::Row(r) => r as int,
                    LineId::Col(c) => clues.spec_height() + c,
                };
                assert(lines@[i] == line);
            }
        }
        true
    }
}


/// A `height` x `width` board with every cell unconfirmed.
pub open spec fn blank_board(height: nat, width: nat) -> Seq<Seq<CellState>> {
    Seq::new(height, |r: int| Seq::new(width, |c: int| CellState::Unconfirmed))
}

impl Grid {
    /// A copy of this board.
    pub fn duplicate(&self) -> (res: Self)
        requires
            self.wf(),
        ensures
            res.wf(),
            res@ == self@,
            res.spec_height() == self.spec_height(),
            res.spec_width() == self.spec_width(),
    {
        let mut rows: Vec<Vec<CellState>> = Vec::new();
        let mut r: usize = 0;
        while r < self.height
            invariant
                self.wf(),
                r <= self.spec_height(),
                rows@.len() == r,
                forall|k: int| 0 <= k < r ==> (#[trigger] rows@[k])@ == self.rows@[k]@,
            decreases self.spec_height() - r,
        {
            let mut row: Vec<CellState> = Vec::new();
            let mut c: usize = 0;
            while c < self.width
                invariant
                    self.wf(),
                    r < self.spec_height(),
                    c <= self.spec_width(),
                    row@ =~= self.rows@[r as int]@.take(c as int),
                decreases self.spec_width() - c,
            {
                row.push(self.rows[r][c]);
                c += 1;
            }
            rows.push(row);
            r += 1;
        }
        let g = Grid { height: self.height, width: self.width, rows };
        assert(g@ =~= self@);
        g
    }

    /// The view of a board that [`Grid::new`] made.
    pub proof fn lemma_blank(self)
        requires
            self.wf(),
            forall|r: int, c: int|
                0 <= r < self.spec_height() && 0 <= c < self.spec_width() ==> #[trigger] self.at(r, c)
                    == CellState::Unconfirmed,
        ensures
            self@ == blank_board(self.spec_height(), self.spec_width()),
    {
        let b = blank_board(self.spec_height(), self.spec_width());
        assert forall|r: int| 0 <= r < self@.len() implies #[trigger] self@[r] =~= b[r] by {
            assert forall|c: int| 0 <= c < self@[r].len() implies self@[r][c] == b[r][c] by {
                assert(self.at(r, c) == CellState::Unconfirmed);
            }
        }
        assert(self@ =~= b);
    }
}


/// Whether a board is a solution depends only on the clue lists.
pub proof fn lemma_solution_same_clues(c1: Clues, c2: Clues, board: Seq<Seq<CellState>>)
    requires
        c1.row_clues() == c2.row_clues(),
        c1.col_clues() == c2.col_clues(),
    ensures
        is_solution(c1, board) == is_solution(c2, board),
{
    if is_solution(c1, board) {
        assert forall|line: LineId| #[trigger] c2.valid_line(line) implies has_runs(
            board_line(board, c2.spec_width(), line),
            c2.line_blocks(line),
        ) by {
            assert(c1.valid_line(line));
        }
    }
    if is_solution(c2, board) {
        assert forall|line: LineId| #[trigger] c1.valid_line(line) implies has_runs(
            board_line(board, c1.spec_width(), line),
            c1.line_blocks(line),
        ) by {
            assert(c2.valid_line(line));
        }
    }
}


// ---------------------------------------------------------------------------
// Text

/// Appends `c` to `s`.
///
/// Wraps `String::push`, which appends one character to a string; the
/// contract states just that.
#[verifier::external_body]
pub(crate) fn push_char(s: &mut String, c: char)
    ensures
        final(s)@ == old(s)@.push(c),
{
    s.push(c);
}

/// `cells`, one character each, with `mark` before every fifth character
/// after the first group.
pub open spec fn group_text(cells: Seq<char>, mark: char) -> Seq<char>
    decreases cells.len(),
{
    if cells.len() == 0 {
        Seq::empty()
    } else {
        let k = cells.len() - 1;
        group_text(cells.drop_last(), mark) + (if k > 0 && k % 5 == 0 {
            seq![mark]
        } else {
            Seq::empty()
        }) + seq![cells.last()]
    }
}

/// The separator line of a board `width` cells wide.
pub open spec fn separator_text(width: nat) -> Seq<char> {
    group_text(Seq::new(width, |i: int| '-'), ' ')
}

/// The text lines of a board of characters `rows`, `width` wide: a
/// separator line before every fifth row after the first group, and `|`
/// before every fifth column after the first group.
pub open spec fn board_lines(rows: Seq<Seq<char>>, width: nat) -> Seq<Seq<char>>
    decreases rows.len(),
{
    if rows.len() == 0 {
        Seq::empty()
    } else {
        let k = rows.len() - 1;
        board_lines(rows.drop_last(), width) + (if k > 0 && k % 5 == 0 {
            seq![separator_text(width)]
        } else {
            Seq::empty()
        }) + seq![group_text(rows.last(), '|')]
    }
}

/// The text of a row of `cells`: every cell in order, with `mark` before
/// each cell at a positive multiple of 5. Cell `c` stands at `c + c / 5`,
/// and the mark before cell `c` (for `c` a positive multiple of 5) just
/// before it; nothing else is in the text.
pub proof fn law_group_text(cells: Seq<char>, mark: char)
    ensures
        group_text(cells, mark).len() == cells.len() + (if cells.len() == 0 {
            0
        } else {
            (cells.len() - 1) / 5
        }),
        forall|c: int| 0 <= c < cells.len() ==> #[trigger] group_text(cells, mark)[c + c / 5] == cells[c],
        forall|c: int|
            0 < c < cells.len() && c % 5 == 0 ==> #[trigger] group_text(cells, mark)[c + c / 5 - 1] == mark,
    decreases cells.len(),
{
    if cells.len() > 0 {
        let init = cells.drop_last();
        law_group_text(init, mark);
        let k = cells.len() - 1;
        let g = group_text(init, mark);
        let m: Seq<char> = if k > 0 && k % 5 == 0 {
            seq![mark]
        } else {
            Seq::empty()
        };
        let t = g + m + seq![cells.last()];
        assert(group_text(cells, mark) == t);
        assert(g.len() + m.len() == k + k / 5);
        assert forall|c: int| 0 <= c < cells.len() implies #[trigger] t[c + c / 5] == cells[c] by {
            if c < k {
                assert(c + c / 5 < g.len());
                assert(g[c + c / 5] == init[c]);
            }
        }
        assert forall|c: int| 0 < c < cells.len() && c % 5 == 0 implies #[trigger] t[c + c / 5 - 1] == mark by {
            if c < k {
                assert(c + c / 5 - 1 < g.len());
                assert(g[c + c / 5 - 1] == mark);
            } else {
                assert(c + c / 5 - 1 == g.len());
            }
        }
    }
}

/// The text lines of a board: row `i` is line `i + i / 5`, and before each
/// row at a positive multiple of 5 stands the separator line.
pub proof fn law_board_lines(rows: Seq<Seq<char>>, width: nat)
    ensures
        board_lines(rows, width).len() == rows.len() + (if rows.len() == 0 {
            0
        } else {
            (rows.len() - 1) / 5
        }),
        forall|i: int|
            0 <= i < rows.len() ==> #[trigger] board_lines(rows, width)[i + i / 5] == group_text(rows[i], '|'),
        forall|i: int|
            0 < i < rows.len() && i % 5 == 0 ==> #[trigger] board_lines(rows, width)[i + i / 5 - 1]
                == separator_text(width),
    decreases rows.len(),
{
    if rows.len() > 0 {
        let init = rows.drop_last();
        law_board_lines(init, width);
        let k = rows.len() - 1;
        let g = board_lines(init, width);
        let m: Seq<Seq<char>> = if k > 0 && k % 5 == 0 {
            seq![separator_text(width)]
        } else {
            Seq::empty()
        };
        let t = g + m + seq![group_text(rows.last(), '|')];
        assert(board_lines(rows, width) == t);
        assert(g.len() + m.len() == k + k / 5);
        assert forall|i: int| 0 <= i < rows.len() implies #[trigger] t[i + i / 5] == group_text(rows[i], '|') by {
            if i < k {
                assert(i + i / 5 < g.len());
                assert(g[i + i / 5] == group_text(init[i], '|'));
            }
        }
        assert forall|i: int| 0 < i < rows.len() && i % 5 == 0 implies #[trigger] t[i + i / 5 - 1] == separator_text(
            width,
        ) by {
            if i < k {
                assert(i + i / 5 - 1 < g.len());
                assert(g[i + i / 5 - 1] == separator_text(width));
            } else {
                assert(i + i / 5 - 1 == g.len());
            }
        }
    }
}

/// The number of text lines of a board depends only on its number of rows.
pub proof fn lemma_board_lines_len(rows: Seq<Seq<char>>, width: nat)
    ensures
        board_lines(rows, width).len() == rows.len() + (if rows.len() == 0 {
            0
        } else {
            (rows.len() - 1) / 5
        }),
    decreases rows.len(),
{
    if rows.len() > 0 {
        lemma_board_lines_len(rows.drop_last(), width);
    }
}

/// Lines joined into one text, each followed by a newline.
pub open spec fn lines_text(lines: Seq<Seq<char>>) -> Seq<char>
    decreases lines.len(),
{
    if lines.len() == 0 {
        Seq::empty()
    } else {
        lines_text(lines.drop_last()) + lines.last() + seq!['\n']
    }
}

/// The character of a cell: `.` unconfirmed, `x` white, `o` black.
pub open spec fn state_char(state: CellState) -> char {
    match state {
        CellState::Unconfirmed => '.',
        CellState::White => 'x',
        CellState::Black => 'o',
    }
}

/// The characters of a board.
pub open spec fn board_chars(board: Seq<Seq<CellState>>) -> Seq<Seq<char>> {
    board.map_values(|row: Seq<CellState>| row.map_values(|c: CellState| state_char(c)))
}

/// The character of a cell: `.` unconfirmed, `x` white, `o` black.
pub fn cell_char(state: CellState) -> (res: char)
    ensures
        res == state_char(state),
{
    match state {
        CellState::Unconfirmed => '.',
        CellState::White => 'x',
        CellState::Black => 'o',
    }
}

fn group_line(cells: &Vec<char>, mark: char) -> (res: String)
    ensures
        res@ == group_text(cells@, mark),
{
    let mut s = String::new();
    let mut c: usize = 0;
    while c < cells.len()
        invariant
            c <= cells@.len(),
            s@ == group_text(cells@.take(c as int), mark),
        decreases cells@.len() - c,
    {
        proof {
            assert(cells@.take(c + 1).drop_last() =~= cells@.take(c as int));
        }
        if c > 0 && c % 5 == 0 {
            push_char(&mut s, mark);
        }
        push_char(&mut s, cells[c]);
        proof {
            assert(cells@.take(c + 1).last() == cells@[c as int]);
        }
        c += 1;
    }
    assert(cells@.take(c as int) =~= cells@);
    s
}

/// Renders a board of characters as text lines, with a separator line
/// before every fifth row and a `|` before every fifth column (after the
/// first group of each).
pub fn render_board(rows: &Vec<Vec<char>>, width: usize) -> (res: Vec<String>)
    ensures
        res@.map_values(|l: String| l@) == board_lines(rows@.map_values(|r: Vec<char>| r@), width as nat),
{
    let mut dashes: Vec<char> = Vec::new();
    let mut i: usize = 0;
    while i < width
        invariant
            i <= width,
            dashes@ =~= Seq::new(i as nat, |k: int| '-'),
        decreases width - i,
    {
        dashes.push('-');
        i += 1;
    }
    let separator = group_line(&dashes, ' ');
    let ghost rv = rows@.map_values(|r: Vec<char>| r@);
    let mut lines: Vec<String> = Vec::new();
    let mut r: usize = 0;
    while r < rows.len()
        invariant
            r <= rows@.len(),
            rv == rows@.map_values(|r: Vec<char>| r@),
            separator@ == separator_text(width as nat),
            lines@.map_values(|l: String| l@) == board_lines(rv.take(r as int), width as nat),
        decreases rows@.len() - r,
    {
        let ghost before = lines@.map_values(|l: String| l@);
        proof {
            assert(rv.take(r + 1).drop_last() =~= rv.take(r as int));
            assert(rv.take(r + 1).last() == rows@[r as int]@);
        }
        if r > 0 && r % 5 == 0 {
            lines.push(separator.clone());
        }
        lines.push(group_line(&rows[r], '|'));
        proof {
            assert(lines@.map_values(|l: String| l@) =~= board_lines(rv.take(r + 1), width as nat));
        }
        r += 1;
    }
    assert(rv.take(r as int) =~= rv);
    lines
}

/// Lines joined into one text, each followed by a newline.
fn join_lines(lines: &Vec<String>) -> (res: String)
    ensures
        res@ == lines_text(lines@.map_values(|l: String| l@)),
{
    let ghost lv = lines@.map_values(|l: String| l@);
    let mut s = String::new();
    let mut i: usize = 0;
    while i < lines.len()
        invariant
            i <= lines@.len(),
            lv == lines@.map_values(|l: String| l@),
            s@ == lines_text(lv.take(i as int)),
        decreases lines@.len() - i,
    {
        proof {
            assert(lv.take(i + 1).drop_last() =~= lv.take(i as int));
            assert(lv.take(i + 1).last() == lines@[i as int]@);
        }
        s.append(lines[i].as_str());
        push_char(&mut s, '\n');
        i += 1;
    }
    assert(lv.take(i as int) =~= lv);
    s
}

impl Grid {
    /// The characters of the cells, row by row.
    pub(crate) fn chars(&self) -> (res: Vec<Vec<char>>)
        requires
            self.wf(),
        ensures
            res@.map_values(|r: Vec<char>| r@) == board_chars(self@),
            forall|r: int| 0 <= r < res@.len() ==> (#[trigger] res@[r])@.len() == self.spec_width(),
    {
        let mut out: Vec<Vec<char>> = Vec::new();
        let mut r: usize = 0;
        while r < self.height
            invariant
                self.wf(),
                r <= self.spec_height(),
                out@.len() == r,
                forall|k: int| 0 <= k < r ==> (#[trigger] out@[k])@ == self@[k].map_values(|c: CellState| state_char(c)),
            decreases self.spec_height() - r,
        {
            let mut row: Vec<char> = Vec::new();
            let mut c: usize = 0;
            while c < self.width
                invariant
                    self.wf(),
                    r < self.spec_height(),
                    c <= self.spec_width(),
                    row@ =~= self@[r as int].map_values(|c: CellState| state_char(c)).take(c as int),
                decreases self.spec_width() - c,
            {
                row.push(cell_char(self.rows[r][c]));
                c += 1;
            }
            proof {
                assert(self@[r as int].len() == self.spec_width());
                assert(row@ =~= self@[r as int].map_values(|c: CellState| state_char(c)));
            }
            out.push(row);
            r += 1;
        }
        assert(out@.map_values(|r: Vec<char>| r@) =~= board_chars(self@));
        out
    }

    /// The board as text: `.` unconfirmed, `x` white, `o` black, one line
    /// per row, with separators every five rows and columns.
    pub fn to_text(&self) -> (res: String)
        requires
            self.wf(),
        ensures
            res@ == lines_text(board_lines(board_chars(self@), self.spec_width())),
    {
        let chars = self.chars();
        let lines = render_board(&chars, self.width);
        join_lines(&lines)
    }
}

} // verus!
