//! Puzzle clues (the run lengths of every row and column) and line identifiers.
//!
//! Input is turned into validated [`Clues`] by [`Clues::new`]; that check is
//! the only place where a puzzle can be refused.
use vstd::prelude::*;

verus! {

/// One line of the board: `Row(i)` is the `i`-th row from the top and
/// `Col(j)` the `j`-th column from the left (both zero-based).
#[derive(Clone, Copy, PartialEq, Eq, Hash, Debug, Structural)]
pub enum LineId {
    /// A row, counted from the top.
    Row(usize),
    /// A column, counted from the left.
    Col(usize),
}

impl LineId {
    /// Board coordinates of the `offset`-th cell of this line.
    pub open spec fn cell_at(self, offset: int) -> (usize, usize) {
        match self {
            LineId::Row(i) => (i, offset as usize),
            LineId::Col(j) => (offset as usize, j),
        }
    }

    /// The line that crosses this one at its `offset`-th cell.
    pub open spec fn crossing(self, offset: int) -> LineId {
        match self {
            LineId::Row(_) => LineId::Col(offset as usize),
            LineId::Col(_) => LineId::Row(offset as usize),
        }
    }

    /// Board coordinates `(row, col)` of the `offset`-th cell of this line.
    pub fn cell(self, offset: usize) -> (res: (usize, usize))
        ensures
            res == self.cell_at(offset as int),
    {
        match self {
            LineId::Row(i) => (i, offset),
            LineId::Col(j) => (offset, j),
        }
    }

    /// The line orthogonal to this one that crosses it at its `offset`-th cell.
    pub fn orthogonal_at(self, offset: usize) -> (res: LineId)
        ensures
            res == self.crossing(offset as int),
    {
        match self {
            LineId::Row(_) => LineId::Col(offset),
            LineId::Col(_) => LineId::Row(offset),
        }
    }

    /// The number of this line among lines of its kind.
    pub open spec fn index(self) -> usize {
        match self {
            LineId::Row(i) => i,
            LineId::Col(j) => j,
        }
    }
}

/// The two lines that meet at a cell agree on it: the `offset`-th cell of
/// `line` is the cell of the crossing line at the position of `line`, and
/// crossing back leads to `line` again.
pub proof fn law_crossing_lines_meet(line: LineId, offset: usize)
    ensures
        line.crossing(offset as int).cell_at(line.index() as int) == line.cell_at(offset as int),
        line.crossing(offset as int).crossing(line.index() as int) == line,
        line.crossing(offset as int).index() == offset,
{
}

/// Why [`Clues::new`] refused its input.
#[derive(Debug, Clone, Copy, PartialEq, Eq, Structural)]
pub enum ClueError {
    /// The clue of `line` holds a block of size zero.
    ZeroBlock {
        /// The offending line.
        line: LineId,
    },
    /// The clue of `line` needs more than the `len` cells that the line has
    /// (`sum(blocks) + (blocks.len() - 1) > len`).
    TooLong {
        /// The offending line.
        line: LineId,
        /// The number of cells of that line.
        len: usize,
    },
}

/// The sum of a sequence of block sizes.
pub open spec fn seq_sum(s: Seq<usize>) -> int
    decreases s.len(),
{
    if s.len() == 0 {
        0
    } else {
        seq_sum(s.drop_last()) + s.last()
    }
}

/// The fewest cells that the blocks `blocks` fit in: their sizes plus one
/// white cell between neighbours.
pub open spec fn min_line_len(blocks: Seq<usize>) -> int {
    if blocks.len() == 0 {
        0
    } else {
        seq_sum(blocks) + blocks.len() - 1
    }
}

/// A clue that is accepted for a line of `len` cells: no block of size zero,
/// and all blocks fit.
pub open spec fn clue_fits(blocks: Seq<usize>, len: int) -> bool {
    &&& forall|i: int| 0 <= i < blocks.len() ==> #[trigger] blocks[i] > 0
    &&& min_line_len(blocks) <= len
}

/// The error that the clue `blocks` of `line`, a line of `len` cells, is
/// refused with, if any.
pub open spec fn clue_error(line: LineId, blocks: Seq<usize>, len: usize) -> Option<ClueError> {
    if blocks.contains(0) {
        Some(ClueError::ZeroBlock { line })
    } else if min_line_len(blocks) > len {
        Some(ClueError::TooLong { line, len })
    } else {
        None
    }
}

/// All lines of a `height` x `width` board: rows from the top, then columns
/// from the left.
pub open spec fn line_order(height: nat, width: nat) -> Seq<LineId> {
    Seq::new(
        height + width,
        |k: int|
            if k < height {
                LineId::Row(k as usize)
            } else {
                LineId::Col((k - height) as usize)
            },
    )
}

/// Validated puzzle clues.
///
/// Height (the number of rows) and width (the number of columns) are
/// independent, so rectangular boards are fine. Every block has size at
/// least one and every clue fits in its line.
#[derive(Clone, PartialEq, Eq, Debug)]
pub struct Clues {
    rows: Vec<Vec<usize>>,
    cols: Vec<Vec<usize>>,
}

impl Clues {
    /// The row clues, from the top.
    pub closed spec fn row_clues(self) -> Seq<Seq<usize>> {
        self.rows@.map_values(|r: Vec<usize>| r@)
    }

    /// The column clues, from the left.
    pub closed spec fn col_clues(self) -> Seq<Seq<usize>> {
        self.cols@.map_values(|c: Vec<usize>| c@)
    }

    /// The number of rows.
    pub open spec fn spec_height(self) -> nat {
        self.row_clues().len()
    }

    /// The number of columns.
    pub open spec fn spec_width(self) -> nat {
        self.col_clues().len()
    }

    /// `line` lies on the board.
    pub open spec fn valid_line(self, line: LineId) -> bool {
        match line {
            LineId::Row(i) => i < self.spec_height(),
            LineId::Col(j) => j < self.spec_width(),
        }
    }

    /// The clue of `line`.
    pub open spec fn line_blocks(self, line: LineId) -> Seq<usize> {
        match line {
            LineId::Row(i) => self.row_clues()[i as int],
            LineId::Col(j) => self.col_clues()[j as int],
        }
    }

    /// The number of cells of `line`.
    pub open spec fn spec_line_len(self, line: LineId) -> nat {
        match line {
            LineId::Row(_) => self.spec_width(),
            LineId::Col(_) => self.spec_height(),
        }
    }

    /// All lines in the order rows first, then columns.
    pub open spec fn spec_lines(self) -> Seq<LineId> {
        line_order(self.spec_height(), self.spec_width())
    }

    /// Every clue was accepted.
    pub open spec fn wf(self) -> bool {
        forall|line: LineId|
            #[trigger] self.valid_line(line) ==> clue_fits(
                self.line_blocks(line),
                self.spec_line_len(line) as int,
            )
    }

    /// The board of these clues fits in memory with room for the index
    /// arithmetic of the solver.
    pub open spec fn fits_machine(self) -> bool {
        &&& self.spec_height() * self.spec_width() <= usize::MAX
        &&& 4 * (self.spec_height() + self.spec_width()) + 4 <= usize::MAX
    }
}

/// The first error, in the order of [`line_order`] from the `k`-th line on,
/// that the clues `rows` / `cols` are refused with.
pub open spec fn first_clue_error(rows: Seq<Seq<usize>>, cols: Seq<Seq<usize>>, k: int) -> Option<
    ClueError,
>
    decreases rows.len() + cols.len() - k,
{
    if k < 0 || k >= rows.len() + cols.len() {
        None
    } else {
        let err = if k < rows.len() {
            clue_error(LineId::Row(k as usize), rows[k], cols.len() as usize)
        } else {
            clue_error(LineId::Col((k - rows.len()) as usize), cols[k - rows.len()], rows.len() as usize)
        };
        match err {
            Some(e) => Some(e),
            None => first_clue_error(rows, cols, k + 1),
        }
    }
}

proof fn lemma_no_error_fits(blocks: Seq<usize>, line: LineId, len: usize)
    requires
        clue_error(line, blocks, len) is None,
    ensures
        clue_fits(blocks, len as int),
{
    assert forall|i: int| 0 <= i < blocks.len() implies #[trigger] blocks[i] > 0 by {
        if blocks[i] == 0 {
            assert(blocks.contains(0));
        }
    }
}

proof fn lemma_sum_push(s: Seq<usize>, x: usize)
    ensures
        seq_sum(s.push(x)) == seq_sum(s) + x,
{
    assert(s.push(x).drop_last() =~= s);
}

/// Checks one clue; `None` when it is accepted.
fn check_clue(line: LineId, blocks: &Vec<usize>, len: usize) -> (res: Option<ClueError>)
    ensures
        res == clue_error(line, blocks@, len),
{
    let mut i: usize = 0;
    while i < blocks.len()
        invariant
            i <= blocks.len(),
            forall|k: int| 0 <= k < i ==> blocks@[k] != 0,
        decreases blocks.len() - i,
    {
        if blocks[i] == 0 {
            assert(blocks@.contains(0));
            return Some(ClueError::ZeroBlock { line });
        }
        i += 1;
    }
    assert(!blocks@.contains(0));
    if blocks.len() == 0 {
        return None;
    }
    // the running minimal length, stopping as soon as it exceeds `len`
    proof {
        assert(blocks@.take(1).drop_last() =~= Seq::<usize>::empty());
        assert(seq_sum(Seq::<usize>::empty()) == 0);
        assert(blocks@.take(1).last() == blocks@[0]);
        assert(seq_sum(blocks@.take(1)) == blocks@[0]);
        lemma_sum_prefix_le(blocks@, 1);
    }
    if blocks[0] > len {
        return Some(ClueError::TooLong { line, len });
    }
    let mut need: usize = blocks[0];
    let mut i: usize = 1;
    while i < blocks.len()
        invariant
            1 <= i <= blocks.len(),
            need == seq_sum(blocks@.take(i as int)) + i - 1,
            need <= len,
            !blocks@.contains(0),
        decreases blocks.len() - i,
    {
        proof {
            lemma_sum_push(blocks@.take(i as int), blocks@[i as int]);
            assert(blocks@.take(i as int).push(blocks@[i as int]) =~= blocks@.take(i + 1));
            lemma_sum_prefix_le(blocks@, i + 1);
        }
        if blocks[i] >= len - need {
            return Some(ClueError::TooLong { line, len });
        }
        need = need + 1 + blocks[i];
        i += 1;
    }
    assert(blocks@.take(i as int) =~= blocks@);
    if need > len {
        Some(ClueError::TooLong { line, len })
    } else {
        None
    }
}

/// A prefix of a sequence of sizes sums to no more than the whole.
pub proof fn lemma_sum_prefix_le(s: Seq<usize>, i: int)
    requires
        0 <= i <= s.len(),
    ensures
        seq_sum(s.take(i)) <= seq_sum(s),
    decreases s.len() - i,
{
    if i < s.len() {
        lemma_sum_prefix_le(s, i + 1);
        lemma_sum_push(s.take(i), s[i]);
        assert(s.take(i).push(s[i]) =~= s.take(i + 1));
    } else {
        assert(s.take(i) =~= s);
    }
}

impl Clues {
    /// Validates the row clues (from the top) and the column clues (from the
    /// left) and builds the clues.
    ///
    /// Lines are checked rows first, then columns; the first line whose clue
    /// holds a zero or does not fit gives the error. An empty clue means
    /// that the line is all white.
    pub fn new(rows: Vec<Vec<usize>>, cols: Vec<Vec<usize>>) -> (res: Result<Self, ClueError>)
        ensures
            match res {
                Ok(clues) => {
                    &&& first_clue_error(
                        rows@.map_values(|r: Vec<usize>| r@),
                        cols@.map_values(|c: Vec<usize>| c@),
                        0,
                    ) is None
                    &&& clues.row_clues() == rows@.map_values(|r: Vec<usize>| r@)
                    &&& clues.col_clues() == cols@.map_values(|c: Vec<usize>| c@)
                    &&& clues.wf()
                },
                Err(e) => first_clue_error(
                    rows@.map_values(|r: Vec<usize>| r@),
                    cols@.map_values(|c: Vec<usize>| c@),
                    0,
                ) == Some(e),
            },
    {
        let ghost rs = rows@.map_values(|r: Vec<usize>| r@);
        let ghost cs = cols@.map_values(|c: Vec<usize>| c@);
        let height = rows.len();
        let width = cols.len();
        let mut k: usize = 0;
        while k < height
            invariant
                height == rows.len(),
                width == cols.len(),
                rs == rows@.map_values(|r: Vec<usize>| r@),
                cs == cols@.map_values(|c: Vec<usize>| c@),
                k <= height,
                first_clue_error(rs, cs, 0) == first_clue_error(rs, cs, k as int),
                forall|i: int|
                    0 <= i < k ==> clue_fits(#[trigger] rs[i], width as int),
            decreases height - k,
        {
            let e = check_clue(LineId::Row(k), &rows[k], width);
            if let Some(e) = e {
                return Err(e);
            }
            proof {
                lemma_no_error_fits(rs[k as int], LineId::Row(k), width);
            }
            k += 1;
        }
        let mut k: usize = 0;
        while k < width
            invariant
                height == rows.len(),
                width == cols.len(),
                rs == rows@.map_values(|r: Vec<usize>| r@),
                cs == cols@.map_values(|c: Vec<usize>| c@),
                k <= width,
                first_clue_error(rs, cs, 0) == first_clue_error(rs, cs, height + k),
                forall|i: int| 0 <= i < height ==> clue_fits(#[trigger] rs[i], width as int),
                forall|i: int| 0 <= i < k ==> clue_fits(#[trigger] cs[i], height as int),
            decreases width - k,
        {
            let e = check_clue(LineId::Col(k), &cols[k], height);
            if let Some(e) = e {
                return Err(e);
            }
            proof {
                lemma_no_error_fits(cs[k as int], LineId::Col(k), height);
            }
            k += 1;
        }
        let clues = Clues { rows, cols };
        assert(clues.row_clues() == rs);
        assert(clues.col_clues() == cs);
        Ok(clues)
    }

    /// The height of the board (the number of rows).
    pub fn height(&self) -> (res: usize)
        ensures
            res == self.spec_height(),
    {
        self.rows.len()
    }

    /// The width of the board (the number of columns).
    pub fn width(&self) -> (res: usize)
        ensures
            res == self.spec_width(),
    {
        self.cols.len()
    }

    /// Whether the board of these clues fits in memory with room for the
    /// index arithmetic of the solver ([`Clues::fits_machine`]), which
    /// [`crate::Solver::new`] and [`crate::Session::new`] ask for.
    pub fn fits_in_machine(&self) -> (res: bool)
        ensures
            res == self.fits_machine(),
    {
        let h = self.height();
        let w = self.width();
        if h.checked_mul(w).is_none() {
            return false;
        }
        match h.checked_add(w) {
            None => false,
            Some(sum) => match sum.checked_mul(4) {
                None => false,
                Some(t) => t.checked_add(4).is_some(),
            },
        }
    }

    /// The clue of `line`: its run lengths of black cells, in order.
    pub fn blocks(&self, line: LineId) -> (res: &[usize])
        requires
            self.valid_line(line),
        ensures
            res@ == self.line_blocks(line),
    {
        match line {
            LineId::Row(i) => self.rows[i].as_slice(),
            LineId::Col(j) => self.cols[j].as_slice(),
        }
    }

    /// The number of cells of `line` (the width for a row, the height for a
    /// column).
    pub fn line_len(&self, line: LineId) -> (res: usize)
        ensures
            res == self.spec_line_len(line),
    {
        match line {
            LineId::Row(_) => self.width(),
            LineId::Col(_) => self.height(),
        }
    }

    /// All lines: `Row(0..height)`, then `Col(0..width)`.
    pub fn lines(&self) -> (res: Vec<LineId>)
        requires
            self.spec_height() + self.spec_width() <= usize::MAX,
        ensures
            res@ == self.spec_lines(),
    {
        let height = self.height();
        let width = self.width();
        let mut out: Vec<LineId> = Vec::new();
        let mut i: usize = 0;
        while i < height
            invariant
                height == self.spec_height(),
                width == self.spec_width(),
                i <= height,
                out@ =~= line_order(height as nat, width as nat).take(i as int),
            decreases height - i,
        {
            out.push(LineId::Row(i));
            i += 1;
        }
        let mut j: usize = 0;
        while j < width
            invariant
                height == self.spec_height(),
                width == self.spec_width(),
                height + width <= usize::MAX,
                j <= width,
                out@ =~= line_order(height as nat, width as nat).take(height + j),
            decreases width - j,
        {
            out.push(LineId::Col(j));
            j += 1;
        }
        out
    }
}


fn copy_clue_lists(lists: &Vec<Vec<usize>>) -> (res: Vec<Vec<usize>>)
    ensures
        res@.map_values(|r: Vec<usize>| r@) == lists@.map_values(|r: Vec<usize>| r@),
{
    let mut out: Vec<Vec<usize>> = Vec::new();
    let mut i: usize = 0;
    while i < lists.len()
        invariant
            i <= lists@.len(),
            out@.len() == i,
            forall|k: int| 0 <= k < i ==> (#[trigger] out@[k])@ == lists@[k]@,
        decreases lists@.len() - i,
    {
        let mut row: Vec<usize> = Vec::new();
        let mut j: usize = 0;
        while j < lists[i].len()
            invariant
                i < lists@.len(),
                j <= lists@[i as int]@.len(),
                row@ =~= lists@[i as int]@.take(j as int),
            decreases lists@[i as int]@.len() - j,
        {
            row.push(lists[i][j]);
            j += 1;
        }
        out.push(row);
        i += 1;
    }
    assert(out@.map_values(|r: Vec<usize>| r@) =~= lists@.map_values(|r: Vec<usize>| r@));
    out
}

impl Clues {
    /// A copy of these clues.
    pub fn duplicate(&self) -> (res: Self)
        ensures
            res == *self || (res.row_clues() == self.row_clues() && res.col_clues() == self.col_clues()),
            res.row_clues() == self.row_clues(),
            res.col_clues() == self.col_clues(),
    {
        Clues { rows: copy_clue_lists(&self.rows), cols: copy_clue_lists(&self.cols) }
    }
}

} // verus!
