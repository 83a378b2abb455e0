//! The eight rules of deduction within one line.
//!
//! Each rule reads the analysis of a line ([`LineAnalysis`]) and reports the
//! paintings ([`Deduction`]) that follow from it; none of them changes the
//! board or the line. Every reported painting holds in every arrangement of
//! the blocks that agrees with the analysed cells, and paints at least one
//! cell that does not have its colour yet.
use vstd::prelude::*;
use crate::analysis::{
    LineAnalysis, consistent, covered, covers, starts_placed, ends_placed, valid_arrangement,
    lemma_cover_in_cand, lemma_order, lemma_black_cover, lemma_run_in_one_block, covers_range,
    min_size_in, max_size_in, lemma_min_size_le, lemma_max_size_ge, class_flags, reach_left,
    reach_right, lemma_reach_left, lemma_reach_right, is_segments_of, cand_sound, segments_of,
    lemma_segments_unique,
};
use crate::grid::{CellState, Color, color_state};
use std::ops::Range;

verus! {

/// Why a deduction holds: which of the eight line rules gave it.
///
/// The payload is the evidence (an interval or a block), not necessarily the
/// painted range itself.
#[derive(Clone, Copy, PartialEq, Eq, Debug, Structural)]
pub enum Reason {
    /// Block `id`, pushed to the left end or to the right end of its range,
    /// always covers `[l, r)`.
    BlackIfOverlap {
        /// The left end of the overlap.
        l: usize,
        /// The right end of the overlap (exclusive).
        r: usize,
        /// The block (zero-based).
        id: usize,
    },
    /// The non-white run `[l, r)` is closed at both ends and every block that
    /// could cover one of its cells is at least as long: it is all black.
    BlackIfBounded(usize, usize),
    /// The non-white run holding a black cell starts at `l`, so black goes on
    /// to `r`, by the smallest block that can lie there.
    BlackIfLeftBounded(usize, usize),
    /// The non-white run holding a black cell ends at `r`, so black goes
    /// back to `l`, by the smallest block that can lie there.
    BlackIfRightBounded(usize, usize),
    /// The black run `[l, r)` is as long as the longest block that can cover
    /// it, so its neighbours are white.
    WhiteIfSegmentComplete(usize, usize),
    /// Painting cell `j` black would make the only block that can cover it,
    /// block `id`, too long.
    WhiteIfTooLong {
        /// The cell that is white.
        j: usize,
        /// The only block that could cover it.
        id: usize,
    },
    /// The unconfirmed run `[l, r)`, closed by white at both ends, is shorter
    /// than every block that could cover one of its cells: it is all white.
    WhiteIfTooShort(usize, usize),
    /// No block can cover `[l, r)`: it is all white.
    WhiteIfNoBlockCovers(usize, usize),
}

/// One deduction: which range of a line to paint, in which colour, and why.
/// Offsets are within the line ([`crate::LineId::cell`] turns them into
/// board coordinates).
#[derive(PartialEq, Eq, Debug)]
pub struct Deduction {
    /// The half-open range of cells to paint.
    pub range: Range<usize>,
    /// The colour to paint them.
    pub color: Color,
    /// Why they have that colour.
    pub reason: Reason,
}

impl Clone for Deduction {
    fn clone(&self) -> (res: Self)
        ensures
            res == *self,
    {
        Deduction { range: self.range.start..self.range.end, color: self.color, reason: self.reason }
    }
}

/// In every arrangement that agrees with `cells`, the cells of `range` are
/// covered exactly when `color` is black.
pub open spec fn range_sound(sizes: Seq<usize>, cells: Seq<CellState>, range: Range<usize>, color: Color) -> bool {
    forall|s: Seq<int>|
        #[trigger] consistent(sizes, cells, s) ==> forall|j: int|
            range.start <= j < range.end ==> #[trigger] covered(sizes, s, j) == (color
                == Color::Black)
}

/// Some cell of `range` does not have colour `color` yet.
pub open spec fn is_new(cells: Seq<CellState>, range: Range<usize>, color: Color) -> bool {
    exists|j: int| range.start <= j < range.end && #[trigger] cells[j] != color_state(color)
}

/// A deduction on the line of analysis `a`: a non-empty range of the line,
/// right in every arrangement that agrees with the cells, and new.
pub open spec fn deduction_ok(a: LineAnalysis, d: Deduction) -> bool {
    &&& d.range.start < d.range.end <= a.cells@.len()
    &&& range_sound(a.sizes(), a.cells@, d.range, d.color)
    &&& is_new(a.cells@, d.range, d.color)
}

/// `after` is `before` followed by deductions on the line of `a`.
pub open spec fn emits_ok(a: LineAnalysis, before: Seq<Deduction>, after: Seq<Deduction>) -> bool {
    &&& before.len() <= after.len()
    &&& forall|i: int| 0 <= i < before.len() ==> #[trigger] after[i] == before[i]
    &&& forall|i: int| before.len() <= i < after.len() ==> deduction_ok(a, #[trigger] after[i])
}

/// What [`emit`] reports for `range`, `color` and `reason` on a line with
/// cells `cells`: the deduction when its range is not empty and paints some
/// cell anew, nothing otherwise.
pub open spec fn emitted(cells: Seq<CellState>, range: Range<usize>, color: Color, reason: Reason) -> Seq<Deduction> {
    if range.start < range.end && is_new(cells, range, color) {
        seq![Deduction { range, color, reason }]
    } else {
        Seq::empty()
    }
}

/// The reports of items `0..k`, in order, where `f(i)` is what item `i`
/// reports.
pub open spec fn gather(k: int, f: spec_fn(int) -> Seq<Deduction>) -> Seq<Deduction>
    decreases k,
{
    if k <= 0 {
        Seq::empty()
    } else {
        gather(k - 1, f) + f(k - 1)
    }
}

/// Appending the reports of one more item.
proof fn lemma_gather_next(base: Seq<Deduction>, k: int, f: spec_fn(int) -> Seq<Deduction>)
    requires
        0 <= k,
    ensures
        (base + gather(k, f)) + f(k) == base + gather(k + 1, f),
{
    assert(gather(k + 1, f) == gather(k, f) + f(k));
    assert((base + gather(k, f)) + f(k) =~= base + (gather(k, f) + f(k)));
}

proof fn lemma_emits_trans(a: LineAnalysis, x: Seq<Deduction>, y: Seq<Deduction>, z: Seq<Deduction>)
    requires
        emits_ok(a, x, y),
        emits_ok(a, y, z),
    ensures
        emits_ok(a, x, z),
{
    assert forall|i: int| 0 <= i < x.len() implies #[trigger] z[i] == x[i] by {
        assert(z[i] == y[i]);
    }
    assert forall|i: int| x.len() <= i < z.len() implies deduction_ok(a, #[trigger] z[i]) by {
        if i < y.len() {
            assert(z[i] == y[i]);
        }
    }
}

/// Reports a deduction unless it is empty or paints nothing new.
///
/// Every rule reports through here: a rule that reports something must make
/// progress, or stepping would repeat the same deduction forever.
pub fn emit(a: &LineAnalysis, out: &mut Vec<Deduction>, range: Range<usize>, color: Color, reason: Reason)
    requires
        a.wf(),
        range.start < range.end ==> range.end <= a.cells@.len(),
    ensures
        final(out)@ == old(out)@ + emitted(a.cells@, range, color, reason),
        range_sound(a.sizes(), a.cells@, range, color) ==> emits_ok(*a, old(out)@, final(out)@),
{
    if range.start >= range.end {
        assert(out@ =~= old(out)@ + emitted(a.cells@, range, color, reason));
        return;
    }
    let target = crate::grid::state_of(color);
    let mut j = range.start;
    let mut all_done = true;
    while j < range.end
        invariant
            range.start <= j <= range.end,
            range.end <= a.cells@.len(),
            target == color_state(color),
            all_done <==> forall|t: int| range.start <= t < j ==> a.cells@[t] == target,
        decreases range.end - j,
    {
        if a.cells[j] != target {
            all_done = false;
        }
        j += 1;
    }
    if all_done {
        assert(out@ =~= old(out)@ + emitted(a.cells@, range, color, reason));
        return;
    }
    let ghost before = out@;
    out.push(Deduction { range, color, reason });
    proof {
        if range_sound(a.sizes(), a.cells@, range, color) {
            assert(deduction_ok(*a, out@[before.len() as int]));
        }
        assert(out@ =~= old(out)@ + emitted(a.cells@, range, color, reason));
    }
}

/// What [`black_if_overlap`] reports for block `id`: the overlap of its
/// pushed-left and pushed-right placements, black.
pub open spec fn overlap_report(a: LineAnalysis, id: int) -> Seq<Deduction> {
    let b = a.blocks@[id];
    let l = b.possible_placement.start;
    let r = b.possible_placement.end;
    if r < l + b.size {
        Seq::empty()
    } else {
        let ol = (r - b.size) as usize;
        let or = (l + b.size) as usize;
        emitted(a.cells@, Range { start: ol, end: or }, Color::Black, Reason::BlackIfOverlap { l: ol, r: or, id: id as usize })
    }
}

/// What [`black_if_overlap`] reports for blocks `0..k`.
pub open spec fn overlap_reports(a: LineAnalysis, k: int) -> Seq<Deduction> {
    gather(k, |id: int| overlap_report(a, id))
}

/// The pushed-left and the pushed-right placements of a block overlap: the
/// overlap is black.
pub fn black_if_overlap(a: &LineAnalysis, out: &mut Vec<Deduction>)
    requires
        a.wf(),
    ensures
        emits_ok(*a, old(out)@, final(out)@),
        final(out)@ == old(out)@ + overlap_reports(*a, a.blocks@.len() as int),
{
    let k = a.blocks.len();
    let mut id: usize = 0;
    assert(old(out)@ + overlap_reports(*a, 0) =~= old(out)@);
    while id < k
        invariant
            a.wf(),
            k == a.blocks@.len(),
            id <= k,
            emits_ok(*a, old(out)@, out@),
            out@ == old(out)@ + overlap_reports(*a, id as int),
        decreases k - id,
    {
        let l = a.blocks[id].possible_placement.start;
        let r = a.blocks[id].possible_placement.end;
        let size = a.blocks[id].size;
        if r >= l + size {
            let (ol, or) = (r - size, l + size);
            proof {
                let sz = a.sizes();
                assert(sz[id as int] == size);
                assert forall|s: Seq<int>|
                    #[trigger] consistent(sz, a.cells@, s) implies forall|j: int|
                        ol <= j < or ==> #[trigger] covered(sz, s, j) == (Color::Black == Color::Black) by {
                    assert(starts_placed(a.blocks@, s) && ends_placed(a.blocks@, s));
                    assert(a.blocks@[id as int].possible_placement.start <= s[id as int]);
                    assert(s[id as int] + a.blocks@[id as int].size <= a.blocks@[id as int].possible_placement.end);
                    assert forall|j: int| ol <= j < or implies #[trigger] covered(sz, s, j) by {
                        assert(covers(sz, s, id as int, j));
                    }
                }
            }
            let ghost before = out@;
            emit(a, out, ol..or, Color::Black, Reason::BlackIfOverlap { l: ol, r: or, id });
            proof {
                lemma_emits_trans(*a, old(out)@, before, out@);
                assert(overlap_report(*a, id as int) == emitted(a.cells@, ol..or, Color::Black, Reason::BlackIfOverlap { l: ol, r: or, id }));
                lemma_gather_next(old(out)@, id as int, |i: int| overlap_report(*a, i));
            }
        } else {
            proof {
                assert(overlap_report(*a, id as int) == Seq::<Deduction>::empty());
                lemma_gather_next(old(out)@, id as int, |i: int| overlap_report(*a, i));
                assert(out@ + Seq::<Deduction>::empty() =~= out@);
            }
        }
        id += 1;
    }
}

/// Flags of the cells that no block can cover (empty candidate range).
pub open spec fn uncovered_flags(a: LineAnalysis) -> Seq<bool> {
    a.candidates@.map_values(|c: Range<usize>| c.start >= c.end)
}

/// The maximal runs of cells that no block can cover, left to right.
pub open spec fn uncovered_runs(a: LineAnalysis) -> Seq<(usize, usize)> {
    choose|segs: Seq<(usize, usize)>| is_segments_of(uncovered_flags(a), segs)
}

/// What [`white_if_no_block_covers`] reports for the `q`-th run `segs[q]`
/// of cells that no block can cover: the run, white.
pub open spec fn no_cover_report(a: LineAnalysis, segs: Seq<(usize, usize)>, q: int) -> Seq<Deduction> {
    emitted(
        a.cells@,
        Range { start: segs[q].0, end: segs[q].1 },
        Color::White,
        Reason::WhiteIfNoBlockCovers(segs[q].0, segs[q].1),
    )
}

/// What [`white_if_no_block_covers`] reports for the first `k` runs of
/// `segs`.
pub open spec fn no_cover_reports(a: LineAnalysis, segs: Seq<(usize, usize)>, k: int) -> Seq<Deduction> {
    gather(k, |q: int| no_cover_report(a, segs, q))
}

/// No block can cover the cells: they are white.
pub fn white_if_no_block_covers(a: &LineAnalysis, out: &mut Vec<Deduction>)
    requires
        a.wf(),
    ensures
        emits_ok(*a, old(out)@, final(out)@),
        final(out)@ == old(out)@ + no_cover_reports(*a, uncovered_runs(*a), uncovered_runs(*a).len() as int),
{
    let n = a.n();
    let mut flags: Vec<bool> = Vec::new();
    let mut j: usize = 0;
    while j < n
        invariant
            a.wf(),
            n == a.cells@.len(),
            j <= n,
            flags@ =~= uncovered_flags(*a).take(j as int),
        decreases n - j,
    {
        flags.push(a.candidates[j].start >= a.candidates[j].end);
        j += 1;
    }
    let segs = segments_of(flags.as_slice());
    proof {
        assert(flags@ =~= uncovered_flags(*a));
        lemma_segments_unique(uncovered_flags(*a), segs@, uncovered_runs(*a));
    }
    let ghost f = uncovered_flags(*a);
    assert(old(out)@ + no_cover_reports(*a, segs@, 0) =~= old(out)@);
    let mut q: usize = 0;
    while q < segs.len()
        invariant
            a.wf(),
            n == a.cells@.len(),
            f == uncovered_flags(*a),
            is_segments_of(f, segs@),
            q <= segs@.len(),
            emits_ok(*a, old(out)@, out@),
            out@ == old(out)@ + no_cover_reports(*a, segs@, q as int),
        decreases segs@.len() - q,
    {
        let (start, r) = segs[q];
        assert(segs@[q as int] == (start, r));
        proof {
            let sz = a.sizes();
            assert forall|s: Seq<int>|
                #[trigger] consistent(sz, a.cells@, s) implies forall|t: int|
                    start <= t < r ==> #[trigger] covered(sz, s, t) == (Color::White == Color::Black) by {
                assert forall|t: int| start <= t < r implies !#[trigger] covered(sz, s, t) by {
                    assert(f[t]);
                    assert(a.candidates@[t].start >= a.candidates@[t].end);
                    if covered(sz, s, t) {
                        let id = choose|id: int| 0 <= id < sz.len() && #[trigger] covers(sz, s, id, t);
                        lemma_cover_in_cand(sz, a.candidates@, s, id, t);
                    }
                }
            }
        }
        let ghost before = out@;
        emit(a, out, start..r, Color::White, Reason::WhiteIfNoBlockCovers(start, r));
        proof {
            lemma_emits_trans(*a, old(out)@, before, out@);
            assert(no_cover_report(*a, segs@, q as int) == emitted(a.cells@, start..r, Color::White, Reason::WhiteIfNoBlockCovers(start, r)));
            lemma_gather_next(old(out)@, q as int, |i: int| no_cover_report(*a, segs@, i));
        }
        q += 1;
    }
}


/// A block that covers a cell of `l..r`, a stretch closed by white cells (or
/// the ends of the line), lies within it.
proof fn lemma_block_within(
    sizes: Seq<usize>,
    cells: Seq<CellState>,
    s: Seq<int>,
    x: int,
    p: int,
    l: int,
    r: int,
)
    requires
        consistent(sizes, cells, s),
        0 <= x < sizes.len(),
        covers(sizes, s, x, p),
        0 <= l <= p < r <= cells.len(),
        l == 0 || cells[l - 1] == CellState::White,
        r == cells.len() || cells[r] == CellState::White,
    ensures
        l <= s[x],
        s[x] + sizes[x] <= r,
{
    if s[x] < l {
        assert(covers(sizes, s, x, l - 1));
    }
    if s[x] + sizes[x] > r {
        assert(s[x] + sizes[x] <= cells.len());
        assert(covers(sizes, s, x, r));
    }
}

/// The smallest size of the blocks that could cover cell `j`, or 0 when no
/// block can.
pub open spec fn min_size_or_zero(a: LineAnalysis, j: int) -> int {
    match min_size_in(a.sizes(), a.candidates@[j].start as int, a.candidates@[j].end as int) {
        Some(m) => m as int,
        None => 0,
    }
}

/// A block that covers cell `j` is at least as long as the smallest
/// candidate of `j`.
proof fn lemma_cover_min(a: LineAnalysis, s: Seq<int>, x: int, j: int)
    requires
        a.wf(),
        consistent(a.sizes(), a.cells@, s),
        0 <= x < a.sizes().len(),
        0 <= j < a.cells@.len(),
        covers(a.sizes(), s, x, j),
    ensures
        min_size_in(a.sizes(), a.candidates@[j].start as int, a.candidates@[j].end as int) is Some,
        min_size_or_zero(a, j) <= a.sizes()[x],
{
    lemma_cover_in_cand(a.sizes(), a.candidates@, s, x, j);
    lemma_min_size_le(a.sizes(), a.candidates@[j].start as int, a.candidates@[j].end as int, x);
}

fn min_or_zero(a: &LineAnalysis, j: usize) -> (res: usize)
    requires
        a.wf(),
        j < a.cells@.len(),
    ensures
        res == min_size_or_zero(*a, j as int),
{
    match a.min_possible_size(j) {
        Some(m) => m,
        None => 0,
    }
}

/// No block that could cover cell `j` is shorter than `size` (or no block
/// can cover it).
pub open spec fn long_enough(a: LineAnalysis, j: int, size: int) -> bool {
    match min_size_in(a.sizes(), a.candidates@[j].start as int, a.candidates@[j].end as int) {
        Some(m) => m >= size,
        None => true,
    }
}

/// What [`black_if_bounded`] reports for the `q`-th run of non-white cells
/// `l..r`: the whole run, black, when it holds a confirmed cell and no block
/// that could cover one of its cells is shorter than the run.
pub open spec fn bounded_report(a: LineAnalysis, q: int) -> Seq<Deduction> {
    let l = a.non_white_segments@[q].0;
    let r = a.non_white_segments@[q].1;
    if forall|j: int| l <= j < r ==> #[trigger] a.cells@[j] == CellState::Unconfirmed {
        Seq::empty()
    } else if forall|j: int| l <= j < r ==> #[trigger] long_enough(a, j, r - l) {
        emitted(a.cells@, Range { start: l, end: r }, Color::Black, Reason::BlackIfBounded(l, r))
    } else {
        Seq::empty()
    }
}

/// What [`black_if_bounded`] reports for the first `k` runs of non-white
/// cells.
pub open spec fn bounded_reports(a: LineAnalysis, k: int) -> Seq<Deduction> {
    gather(k, |q: int| bounded_report(a, q))
}

/// A non-white run closed at both ends that holds a black cell, where every
/// block that could cover one of its cells is at least as long as the run,
/// is all black.
pub fn black_if_bounded(a: &LineAnalysis, out: &mut Vec<Deduction>)
    requires
        a.wf(),
    ensures
        emits_ok(*a, old(out)@, final(out)@),
        final(out)@ == old(out)@ + bounded_reports(*a, a.non_white_segments@.len() as int),
{
    assert(old(out)@ + bounded_reports(*a, 0) =~= old(out)@);
    let n = a.n();
    let ghost cs = a.cells@;
    let ghost sz = a.sizes();
    let ghost f = class_flags(cs, CellState::White, false);
    let mut q: usize = 0;
    while q < a.non_white_segments.len()
        invariant
            a.wf(),
            n == cs.len(),
            cs == a.cells@,
            sz == a.sizes(),
            f == class_flags(cs, CellState::White, false),
            emits_ok(*a, old(out)@, out@),
            q <= a.non_white_segments@.len(),
            out@ == old(out)@ + bounded_reports(*a, q as int),
        decreases a.non_white_segments@.len() - q,
    {
        let (l, r) = a.non_white_segments[q];
        assert(a.non_white_segments@[q as int] == (l, r));
        assert(is_segments_of(f, a.non_white_segments@));
        let mut all_unconfirmed = true;
        let ghost mut p: int = 0;
        let mut j = l;
        while j < r
            invariant
                a.wf(),
                n == cs.len(),
                cs == a.cells@,
                l <= j <= r <= n,
                !all_unconfirmed ==> l <= p < r && cs[p] != CellState::Unconfirmed,
                all_unconfirmed ==> forall|t: int| l <= t < j ==> #[trigger] cs[t] == CellState::Unconfirmed,
            decreases r - j,
        {
            if a.cells[j] != CellState::Unconfirmed {
                all_unconfirmed = false;
                proof {
                    p = j as int;
                }
            }
            j += 1;
        }
        if !all_unconfirmed {
            let size = r - l;
            let mut fits = true;
            let mut j = l;
            while j < r
                invariant
                    a.wf(),
                    n == cs.len(),
                    cs == a.cells@,
                    l <= j <= r <= n,
                    size == r - l,
                    fits <==> forall|t: int| l <= t < j ==> #[trigger] long_enough(*a, t, size as int),
                decreases r - j,
            {
                match a.min_possible_size(j) {
                    Some(m) => {
                        if m < size {
                            fits = false;
                        }
                    },
                    None => {},
                }
                proof {
                    assert forall|t: int| l <= t < j + 1 && fits implies #[trigger] long_enough(*a, t, size as int) by {
                        if t < j {
                            assert(long_enough(*a, t, size as int));
                        }
                    }
                    if !fits {
                        assert(!long_enough(*a, j as int, size as int) || exists|t: int| l <= t < j && !#[trigger] long_enough(*a, t, size as int));
                    }
                }
                j += 1;
            }
            if fits {
                proof {
                    assert(f[p]);
                    assert(cs[p] == CellState::Black);
                    assert forall|s: Seq<int>|
                        #[trigger] consistent(sz, cs, s) implies forall|t: int|
                            l <= t < r ==> #[trigger] covered(sz, s, t) == (Color::Black == Color::Black) by {
                        let x = lemma_black_cover(sz, cs, s, p);
                        lemma_cover_min(*a, s, x, p);
                        assert(long_enough(*a, p, size as int));
                        assert(min_size_or_zero(*a, p) >= size);
                        if l > 0 {
                            assert(!f[l - 1]);
                        }
                        if r < n {
                            assert(!f[r as int]);
                        }
                        lemma_block_within(sz, cs, s, x, p, l as int, r as int);
                        assert forall|t: int| l <= t < r implies #[trigger] covered(sz, s, t) by {
                            assert(covers(sz, s, x, t));
                        }
                    }
                }
                let ghost before = out@;
                emit(a, out, l..r, Color::Black, Reason::BlackIfBounded(l, r));
                proof {
                    lemma_emits_trans(*a, old(out)@, before, out@);
                    assert(bounded_report(*a, q as int) == emitted(a.cells@, l..r, Color::Black, Reason::BlackIfBounded(l, r)));
                    lemma_gather_next(old(out)@, q as int, |i: int| bounded_report(*a, i));
                }
            } else {
                proof {
                    assert(!forall|t: int| l <= t < r ==> #[trigger] long_enough(*a, t, size as int));
                    assert(bounded_report(*a, q as int) == Seq::<Deduction>::empty());
                    lemma_gather_next(old(out)@, q as int, |i: int| bounded_report(*a, i));
                    assert(out@ + Seq::<Deduction>::empty() =~= out@);
                }
            }
        } else {
            proof {
                assert(bounded_report(*a, q as int) == Seq::<Deduction>::empty());
                lemma_gather_next(old(out)@, q as int, |i: int| bounded_report(*a, i));
                assert(out@ + Seq::<Deduction>::empty() =~= out@);
            }
        }
        q += 1;
    }
}


/// Every cell of `l..=r` could only be covered by blocks longer than
/// `r - l` (or by none).
pub open spec fn long_from_left(a: LineAnalysis, l: int, r: int) -> bool {
    forall|x: int| l <= x <= r ==> #[trigger] min_size_or_zero(a, x) > r - l
}

/// Every cell of `l..r` could only be covered by blocks longer than
/// `r - l` (or by none).
pub open spec fn long_from_right(a: LineAnalysis, l: int, r: int) -> bool {
    forall|x: int| l <= x < r ==> #[trigger] min_size_or_zero(a, x) > r - l
}

/// Where black reaches from the left end `l` of a non-white run that ends
/// at `r_max`, searching on from `r`: the first position at or after `r`
/// that is the end of the run or where some cell of `l..=` it could be
/// covered by a block no longer than its distance from `l`.
pub open spec fn left_reach(a: LineAnalysis, l: int, r: int, r_max: int) -> int
    decreases r_max - r,
{
    if r < r_max && long_from_left(a, l, r) {
        left_reach(a, l, r + 1, r_max)
    } else {
        r
    }
}

/// What [`black_if_left_bounded`] reports for the `q`-th run of black
/// cells, which starts at `j` inside the non-white run `l..r_max`: black
/// from `j` up to [`left_reach`].
pub open spec fn left_bounded_report(a: LineAnalysis, q: int) -> Seq<Deduction> {
    let j = a.black_segments@[q].0;
    let fw = class_flags(a.cells@, CellState::White, false);
    let l = reach_left(fw, j as int);
    let r = left_reach(a, l, j as int, reach_right(fw, j as int));
    emitted(
        a.cells@,
        Range { start: j, end: r as usize },
        Color::Black,
        Reason::BlackIfLeftBounded(l as usize, r as usize),
    )
}

/// What [`black_if_left_bounded`] reports for the first `k` runs of black
/// cells.
pub open spec fn left_bounded_reports(a: LineAnalysis, k: int) -> Seq<Deduction> {
    gather(k, |q: int| left_bounded_report(a, q))
}

/// The non-white run that holds a black run starts at `l`: black goes on at
/// least as far as the shortest block that can lie there reaches.
pub fn black_if_left_bounded(a: &LineAnalysis, out: &mut Vec<Deduction>)
    requires
        a.wf(),
    ensures
        emits_ok(*a, old(out)@, final(out)@),
        final(out)@ == old(out)@ + left_bounded_reports(*a, a.black_segments@.len() as int),
{
    assert(old(out)@ + left_bounded_reports(*a, 0) =~= old(out)@);
    let n = a.n();
    let ghost cs = a.cells@;
    let ghost sz = a.sizes();
    let ghost fw = class_flags(cs, CellState::White, false);
    let ghost fb = class_flags(cs, CellState::Black, true);
    let mut q: usize = 0;
    while q < a.black_segments.len()
        invariant
            a.wf(),
            n == cs.len(),
            cs == a.cells@,
            sz == a.sizes(),
            fw == class_flags(cs, CellState::White, false),
            fb == class_flags(cs, CellState::Black, true),
            emits_ok(*a, old(out)@, out@),
            q <= a.black_segments@.len(),
            out@ == old(out)@ + left_bounded_reports(*a, q as int),
        decreases a.black_segments@.len() - q,
    {
        let (j, _) = a.black_segments[q];
        assert(a.black_segments@[q as int].0 == j);
        assert(is_segments_of(fb, a.black_segments@));
        assert(fb[j as int]);
        let l = a.non_white_left(j);
        let r_max = a.non_white_right(j);
        proof {
            lemma_reach_left(fw, j as int);
            lemma_reach_right(fw, j as int);
        }
        let mut min = min_or_zero(a, l);
        let ghost mut wit: int = l as int;
        let mut x = l + 1;
        while x <= j
            invariant
                a.wf(),
                n == cs.len(),
                cs == a.cells@,
                l <= j < n,
                l + 1 <= x <= j + 1,
                forall|t: int| l <= t < x ==> min <= #[trigger] min_size_or_zero(*a, t),
                l <= wit < x,
                min == min_size_or_zero(*a, wit),
            decreases j + 1 - x,
        {
            let m = min_or_zero(a, x);
            if m < min {
                min = m;
                proof {
                    wit = x as int;
                }
            }
            x += 1;
        }
        let mut r = j;
        let mut going = true;
        let ghost r_max_i = r_max as int;
        while going
            invariant
                a.wf(),
                n == cs.len(),
                cs == a.cells@,
                l <= j <= r <= r_max <= n,
                r_max_i == r_max,
                forall|t: int| l <= t && (t <= j || t < r) ==> min <= #[trigger] min_size_or_zero(*a, t),
                forall|r2: int| j <= r2 < r ==> #[trigger] long_from_left(*a, l as int, r2),
                l <= wit <= r,
                min == min_size_or_zero(*a, wit),
                left_reach(*a, l as int, r as int, r_max_i) == left_reach(*a, l as int, j as int, r_max_i),
                !going ==> left_reach(*a, l as int, r as int, r_max_i) == r,
            decreases r_max - r + (if going {
                1int
            } else {
                0int
            }),
        {
            if r < r_max {
                let m = min_or_zero(a, r);
                if m < min {
                    min = m;
                    proof {
                        wit = r as int;
                    }
                }
                if min > r - l {
                    proof {
                        assert forall|t: int| l <= t <= r implies #[trigger] min_size_or_zero(*a, t) > r - l by {
                            assert(min <= min_size_or_zero(*a, t));
                        }
                        assert(long_from_left(*a, l as int, r as int));
                    }
                    r += 1;
                } else {
                    proof {
                        assert(!long_from_left(*a, l as int, r as int)) by {
                            assert(min_size_or_zero(*a, wit) <= r - l);
                        }
                    }
                    going = false;
                }
            } else {
                going = false;
            }
        }
        proof {
            assert forall|s: Seq<int>|
                #[trigger] consistent(sz, cs, s) implies forall|t: int|
                    j <= t < r ==> #[trigger] covered(sz, s, t) == (Color::Black == Color::Black) by {
                let xb = lemma_black_cover(sz, cs, s, j as int);
                if l > 0 {
                    assert(!fw[l - 1]);
                }
                if r_max < n {
                    assert(!fw[r_max as int]);
                }
                lemma_block_within(sz, cs, s, xb, j as int, l as int, r_max as int);
                let e = s[xb] + sz[xb];
                if e < r {
                    assert(long_from_left(*a, l as int, e));
                    assert(covers(sz, s, xb, e - 1));
                    lemma_cover_min(*a, s, xb, e - 1);
                    assert(min_size_or_zero(*a, e - 1) > e - l);
                }
                assert forall|t: int| j <= t < r implies #[trigger] covered(sz, s, t) by {
                    assert(covers(sz, s, xb, t));
                }
            }
        }
        let ghost before = out@;
        emit(a, out, j..r, Color::Black, Reason::BlackIfLeftBounded(l, r));
        proof {
            lemma_emits_trans(*a, old(out)@, before, out@);
            assert(left_bounded_report(*a, q as int) == emitted(a.cells@, j..r, Color::Black, Reason::BlackIfLeftBounded(l, r)));
            lemma_gather_next(old(out)@, q as int, |i: int| left_bounded_report(*a, i));
        }
        q += 1;
    }
}

/// Where black reaches back from the right end `r` of a non-white run that
/// starts at `l_min`, searching on from `l`: the first position at or
/// before `l` that is the start of the run or where some cell of `..r`
/// from it could be covered by a block no longer than its distance to `r`.
pub open spec fn right_reach(a: LineAnalysis, l: int, r: int, l_min: int) -> int
    decreases l - l_min,
{
    if l > l_min && long_from_right(a, l, r) {
        right_reach(a, l - 1, r, l_min)
    } else {
        l
    }
}

/// What [`black_if_right_bounded`] reports for the `q`-th run of black
/// cells, whose last cell `j` lies in the non-white run `l_min..r`: black
/// from [`right_reach`] up to `j`.
pub open spec fn right_bounded_report(a: LineAnalysis, q: int) -> Seq<Deduction> {
    let j = a.black_segments@[q].1 - 1;
    let fw = class_flags(a.cells@, CellState::White, false);
    let r = reach_right(fw, j);
    let l = right_reach(a, j, r, reach_left(fw, j));
    emitted(
        a.cells@,
        Range { start: l as usize, end: j as usize },
        Color::Black,
        Reason::BlackIfRightBounded(l as usize, r as usize),
    )
}

/// What [`black_if_right_bounded`] reports for the first `k` runs of black
/// cells.
pub open spec fn right_bounded_reports(a: LineAnalysis, k: int) -> Seq<Deduction> {
    gather(k, |q: int| right_bounded_report(a, q))
}

/// The non-white run that holds a black run ends at `r`: black goes back at
/// least as far as the shortest block that can lie there reaches.
pub fn black_if_right_bounded(a: &LineAnalysis, out: &mut Vec<Deduction>)
    requires
        a.wf(),
    ensures
        emits_ok(*a, old(out)@, final(out)@),
        final(out)@ == old(out)@ + right_bounded_reports(*a, a.black_segments@.len() as int),
{
    assert(old(out)@ + right_bounded_reports(*a, 0) =~= old(out)@);
    let n = a.n();
    let ghost cs = a.cells@;
    let ghost sz = a.sizes();
    let ghost fw = class_flags(cs, CellState::White, false);
    let ghost fb = class_flags(cs, CellState::Black, true);
    let mut q: usize = 0;
    while q < a.black_segments.len()
        invariant
            a.wf(),
            n == cs.len(),
            cs == a.cells@,
            sz == a.sizes(),
            fw == class_flags(cs, CellState::White, false),
            fb == class_flags(cs, CellState::Black, true),
            emits_ok(*a, old(out)@, out@),
            q <= a.black_segments@.len(),
            out@ == old(out)@ + right_bounded_reports(*a, q as int),
        decreases a.black_segments@.len() - q,
    {
        let (seg_l, seg_r) = a.black_segments[q];
        assert(a.black_segments@[q as int] == (seg_l, seg_r));
        assert(is_segments_of(fb, a.black_segments@));
        let j = seg_r - 1;
        assert(fb[j as int]);
        let r = a.non_white_right(j);
        let l_min = a.non_white_left(j);
        proof {
            lemma_reach_left(fw, j as int);
            lemma_reach_right(fw, j as int);
            assert(fw[j as int]);
        }
        let mut min = min_or_zero(a, j);
        let ghost mut wit: int = j as int;
        let mut x = j + 1;
        while x < r
            invariant
                a.wf(),
                n == cs.len(),
                cs == a.cells@,
                j < r <= n,
                j + 1 <= x <= r,
                forall|t: int| j <= t < x ==> min <= #[trigger] min_size_or_zero(*a, t),
                j <= wit < x,
                min == min_size_or_zero(*a, wit),
            decreases r - x,
        {
            let m = min_or_zero(a, x);
            if m < min {
                min = m;
                proof {
                    wit = x as int;
                }
            }
            x += 1;
        }
        let mut l = j;
        let mut going = true;
        let ghost l_min_i = l_min as int;
        while going
            invariant
                a.wf(),
                n == cs.len(),
                cs == a.cells@,
                l_min <= l <= j < r <= n,
                l_min_i == l_min,
                forall|t: int| (l < t || j <= t) && t < r ==> min <= #[trigger] min_size_or_zero(*a, t),
                forall|l2: int| l < l2 <= j ==> #[trigger] long_from_right(*a, l2, r as int),
                l <= wit < r,
                min == min_size_or_zero(*a, wit),
                right_reach(*a, l as int, r as int, l_min_i) == right_reach(*a, j as int, r as int, l_min_i),
                !going ==> right_reach(*a, l as int, r as int, l_min_i) == l,
            decreases l + (if going {
                1int
            } else {
                0int
            }),
        {
            if l > l_min {
                let m = min_or_zero(a, l);
                if m < min {
                    min = m;
                    proof {
                        wit = l as int;
                    }
                }
                if min > r - l {
                    proof {
                        assert forall|t: int| l <= t < r implies #[trigger] min_size_or_zero(*a, t) > r - l by {
                            assert(min <= min_size_or_zero(*a, t));
                        }
                        assert(long_from_right(*a, l as int, r as int));
                    }
                    l -= 1;
                } else {
                    proof {
                        assert(!long_from_right(*a, l as int, r as int)) by {
                            assert(min_size_or_zero(*a, wit) <= r - l);
                        }
                    }
                    going = false;
                }
            } else {
                going = false;
            }
        }
        proof {
            assert forall|s: Seq<int>|
                #[trigger] consistent(sz, cs, s) implies forall|t: int|
                    l <= t < j ==> #[trigger] covered(sz, s, t) == (Color::Black == Color::Black) by {
                let xb = lemma_black_cover(sz, cs, s, j as int);
                if l_min > 0 {
                    assert(!fw[l_min - 1]);
                }
                if r < n {
                    assert(!fw[r as int]);
                }
                lemma_block_within(sz, cs, s, xb, j as int, l_min as int, r as int);
                let st = s[xb];
                if st > l {
                    assert(long_from_right(*a, st, r as int));
                    assert(covers(sz, s, xb, st));
                    lemma_cover_min(*a, s, xb, st);
                    assert(min_size_or_zero(*a, st) > r - st);
                }
                assert forall|t: int| l <= t < j implies #[trigger] covered(sz, s, t) by {
                    assert(covers(sz, s, xb, t));
                }
            }
        }
        let ghost before = out@;
        emit(a, out, l..j, Color::Black, Reason::BlackIfRightBounded(l, r));
        proof {
            lemma_emits_trans(*a, old(out)@, before, out@);
            assert(right_bounded_report(*a, q as int) == emitted(a.cells@, l..j, Color::Black, Reason::BlackIfRightBounded(l, r)));
            lemma_gather_next(old(out)@, q as int, |i: int| right_bounded_report(*a, i));
        }
        q += 1;
    }
}

/// The largest size among the blocks that could cover cell `j`.
pub open spec fn max_at(a: LineAnalysis, j: int) -> Option<usize> {
    max_size_in(a.sizes(), a.candidates@[j].start as int, a.candidates@[j].end as int)
}

/// What [`white_if_segment_complete`] reports for the `q`-th run of black
/// cells `l..r`: when a neighbour of the run is not white yet and some cell
/// of it can only be covered by blocks no longer than the run, the
/// neighbours, white (left one first).
pub open spec fn segment_complete_report(a: LineAnalysis, q: int) -> Seq<Deduction> {
    let l = a.black_segments@[q].0;
    let r = a.black_segments@[q].1;
    let n = a.cells@.len();
    if (l == 0 || a.cells@[l - 1] == CellState::White) && (r == n || a.cells@[r as int] == CellState::White) {
        Seq::empty()
    } else if exists|j: int| l <= j < r && #[trigger] max_at(a, j) == Some((r - l) as usize) {
        (if l > 0 {
            emitted(
                a.cells@,
                Range { start: (l - 1) as usize, end: l },
                Color::White,
                Reason::WhiteIfSegmentComplete(l, r),
            )
        } else {
            Seq::empty()
        }) + (if r < n {
            emitted(
                a.cells@,
                Range { start: r, end: (r + 1) as usize },
                Color::White,
                Reason::WhiteIfSegmentComplete(l, r),
            )
        } else {
            Seq::empty()
        })
    } else {
        Seq::empty()
    }
}

/// What [`white_if_segment_complete`] reports for the first `k` runs of
/// black cells.
pub open spec fn segment_complete_reports(a: LineAnalysis, k: int) -> Seq<Deduction> {
    gather(k, |q: int| segment_complete_report(a, q))
}

/// A black run as long as the longest block that can cover it has white
/// neighbours.
pub fn white_if_segment_complete(a: &LineAnalysis, out: &mut Vec<Deduction>)
    requires
        a.wf(),
    ensures
        emits_ok(*a, old(out)@, final(out)@),
        final(out)@ == old(out)@ + segment_complete_reports(*a, a.black_segments@.len() as int),
{
    let n = a.n();
    let ghost cs = a.cells@;
    let ghost sz = a.sizes();
    let ghost fb = class_flags(cs, CellState::Black, true);
    assert(old(out)@ + segment_complete_reports(*a, 0) =~= old(out)@);
    let mut q: usize = 0;
    while q < a.black_segments.len()
        invariant
            a.wf(),
            n == cs.len(),
            cs == a.cells@,
            sz == a.sizes(),
            fb == class_flags(cs, CellState::Black, true),
            emits_ok(*a, old(out)@, out@),
            q <= a.black_segments@.len(),
            out@ == old(out)@ + segment_complete_reports(*a, q as int),
        decreases a.black_segments@.len() - q,
    {
        let (l, r) = a.black_segments[q];
        assert(a.black_segments@[q as int] == (l, r));
        assert(is_segments_of(fb, a.black_segments@));
        let ghost before_q = out@;
        if (l == 0 || a.cells[l - 1] == CellState::White) && (r == n || a.cells[r] == CellState::White) {
            proof {
                assert(segment_complete_report(*a, q as int) == Seq::<Deduction>::empty());
                lemma_gather_next(old(out)@, q as int, |i: int| segment_complete_report(*a, i));
                assert(out@ + Seq::<Deduction>::empty() =~= out@);
            }
            q += 1;
            continue;
        }
        let size = r - l;
        let mut j = l;
        let mut found = false;
        while j < r && !found
            invariant
                a.wf(),
                n == cs.len(),
                cs == a.cells@,
                l <= j <= r <= n,
                l < r,
                size == r - l,
                found ==> j < r && max_at(*a, j as int) == Some(size),
                forall|t: int| l <= t < j ==> #[trigger] max_at(*a, t) != Some(size),
            decreases r - j + (if found {
                0int
            } else {
                1int
            }),
        {
            if a.max_possible_size(j) == Some(size) {
                found = true;
            } else {
                j += 1;
            }
        }
        if found {
            proof {
                assert forall|s: Seq<int>| #[trigger] consistent(sz, cs, s) implies (s[0] == s[0] && !covered(sz, s, l - 1)
                    && !covered(sz, s, r as int)) by {
                    assert forall|t: int| l <= t < r implies #[trigger] cs[t] == CellState::Black by {
                        assert(fb[t]);
                    }
                    let xb = lemma_run_in_one_block(sz, cs, s, l as int, r as int);
                    assert(covers(sz, s, xb, j as int));
                    lemma_cover_in_cand(sz, a.candidates@, s, xb, j as int);
                    lemma_max_size_ge(sz, a.candidates@[j as int].start as int, a.candidates@[j as int].end as int, xb);
                    assert(covers(sz, s, xb, l as int));
                    assert(covers(sz, s, xb, r - 1));
                    assert forall|y: int| 0 <= y < sz.len() implies !#[trigger] covers(sz, s, y, l - 1) && !covers(sz, s, y, r as int) by {
                        if y < xb {
                            lemma_order(sz, n as int, s, y, xb);
                        } else if y > xb {
                            lemma_order(sz, n as int, s, xb, y);
                        }
                    }
                }
            }
            if l > 0 {
                let ghost before = out@;
                emit(a, out, (l - 1)..l, Color::White, Reason::WhiteIfSegmentComplete(l, r));
                proof {
                    lemma_emits_trans(*a, old(out)@, before, out@);
                }
            }
            let ghost mid = out@;
            if r < n {
                let ghost before = out@;
                emit(a, out, r..(r + 1), Color::White, Reason::WhiteIfSegmentComplete(l, r));
                proof {
                    lemma_emits_trans(*a, old(out)@, before, out@);
                }
            }
            proof {
                let left = if l > 0 {
                    emitted(cs, Range { start: (l - 1) as usize, end: l }, Color::White, Reason::WhiteIfSegmentComplete(l, r))
                } else {
                    Seq::<Deduction>::empty()
                };
                let right = if r < n {
                    emitted(cs, Range { start: r, end: (r + 1) as usize }, Color::White, Reason::WhiteIfSegmentComplete(l, r))
                } else {
                    Seq::<Deduction>::empty()
                };
                assert(mid =~= before_q + left);
                assert(out@ =~= mid + right);
                assert(max_at(*a, j as int) == Some((r - l) as usize));
                assert(segment_complete_report(*a, q as int) == left + right);
                assert(out@ =~= before_q + (left + right));
                lemma_gather_next(old(out)@, q as int, |i: int| segment_complete_report(*a, i));
            }
        } else {
            proof {
                assert(!exists|t: int| l <= t < r && #[trigger] max_at(*a, t) == Some((r - l) as usize));
                assert(segment_complete_report(*a, q as int) == Seq::<Deduction>::empty());
                lemma_gather_next(old(out)@, q as int, |i: int| segment_complete_report(*a, i));
                assert(out@ + Seq::<Deduction>::empty() =~= out@);
            }
        }
        q += 1;
    }
}


/// Two blocks that cover neighbouring cells are the same block.
proof fn lemma_neighbours_same_block(sizes: Seq<usize>, n: int, s: Seq<int>, x: int, y: int, j: int)
    requires
        valid_arrangement(sizes, n, s),
        0 <= x < sizes.len(),
        0 <= y < sizes.len(),
        covers(sizes, s, x, j),
        covers(sizes, s, y, j + 1),
    ensures
        x == y,
{
    if x < y {
        lemma_order(sizes, n, s, x, y);
    } else if y < x {
        lemma_order(sizes, n, s, y, x);
    }
}

/// The length of the black run that painting cell `j` black would make: the
/// cell together with the black runs next to it.
pub open spec fn joined_run(a: LineAnalysis, j: int) -> int {
    let fb = class_flags(a.cells@, CellState::Black, true);
    let n = a.cells@.len();
    1 + (if j > 0 && a.cells@[j - 1] == CellState::Black {
        reach_right(fb, j - 1) - reach_left(fb, j - 1)
    } else {
        0
    }) + (if j + 1 < n && a.cells@[j + 1] == CellState::Black {
        reach_right(fb, j + 1) - reach_left(fb, j + 1)
    } else {
        0
    })
}

/// What [`white_if_too_long`] reports for cell `j`: the cell, white, when it
/// is unconfirmed, exactly one block could cover it, and the run that
/// painting it black would make is longer than that block.
pub open spec fn too_long_report(a: LineAnalysis, j: int) -> Seq<Deduction> {
    let c = a.candidates@[j];
    if a.cells@[j] == CellState::Unconfirmed && c.start < c.end && c.end - c.start == 1 && joined_run(a, j)
        > a.blocks@[c.start as int].size {
        emitted(
            a.cells@,
            Range { start: j as usize, end: (j + 1) as usize },
            Color::White,
            Reason::WhiteIfTooLong { j: j as usize, id: c.start },
        )
    } else {
        Seq::empty()
    }
}

/// What [`white_if_too_long`] reports for cells `0..k`.
pub open spec fn too_long_reports(a: LineAnalysis, k: int) -> Seq<Deduction> {
    gather(k, |j: int| too_long_report(a, j))
}

/// Painting cell `j` black would join it with its black neighbours into a
/// run longer than the only block that could cover it: it is white.
pub fn white_if_too_long(a: &LineAnalysis, out: &mut Vec<Deduction>)
    requires
        a.wf(),
    ensures
        emits_ok(*a, old(out)@, final(out)@),
        final(out)@ == old(out)@ + too_long_reports(*a, a.cells@.len() as int),
{
    let n = a.n();
    let ghost cs = a.cells@;
    let ghost sz = a.sizes();
    let ghost fb = class_flags(cs, CellState::Black, true);
    assert(old(out)@ + too_long_reports(*a, 0) =~= old(out)@);
    let mut j: usize = 0;
    while j < n
        invariant
            a.wf(),
            n == cs.len(),
            cs == a.cells@,
            sz == a.sizes(),
            fb == class_flags(cs, CellState::Black, true),
            j <= n,
            emits_ok(*a, old(out)@, out@),
            out@ == old(out)@ + too_long_reports(*a, j as int),
        decreases n - j,
    {
        let ghost before_j = out@;
        let lo = a.candidates[j].start;
        let hi = a.candidates[j].end;
        if a.cells[j] == CellState::Unconfirmed && lo < hi && hi - lo == 1 {
            let id = lo;
            let mut size: usize = 1;
            let ghost mut left: int = j as int;
            let ghost mut right: int = j + 1;
            if j > 0 && a.cells[j - 1] == CellState::Black {
                let run = a.black_run_size(j - 1);
                proof {
                    lemma_reach_left(fb, j - 1);
                    lemma_reach_right(fb, j - 1);
                    assert(fb[j - 1]);
                    assert(!fb[j as int]);
                    left = reach_left(fb, j - 1);
                }
                size = size + run;
            }
            assert(size == right - left);
            assert(0 <= left <= j);
            assert(forall|t: int| left <= t < j ==> #[trigger] fb[t]);
            if j + 1 < n && a.cells[j + 1] == CellState::Black {
                let run = a.black_run_size(j + 1);
                proof {
                    lemma_reach_left(fb, j + 1);
                    lemma_reach_right(fb, j + 1);
                    assert(fb[j + 1]);
                    assert(!fb[j as int]);
                    right = reach_right(fb, j + 1);
                }
                size = size + run;
            }
            assert(size == right - left);
            if size > a.blocks[id].size {
                proof {
                    assert forall|s: Seq<int>|
                        #[trigger] consistent(sz, cs, s) implies forall|t: int|
                            j <= t < j + 1 ==> #[trigger] covered(sz, s, t) == (Color::White == Color::Black) by {
                        if covered(sz, s, j as int) {
                            let x = choose|x: int| 0 <= x < sz.len() && #[trigger] covers(sz, s, x, j as int);
                            lemma_cover_in_cand(sz, a.candidates@, s, x, j as int);
                            assert(x == id);
                            if left < j {
                                assert forall|t: int| left <= t < j implies #[trigger] cs[t] == CellState::Black by {
                                    assert(fb[t]);
                                }
                                let y = lemma_run_in_one_block(sz, cs, s, left, j as int);
                                assert(covers(sz, s, y, j - 1));
                                lemma_neighbours_same_block(sz, n as int, s, y, x, j - 1);
                                assert(covers(sz, s, x, left));
                            }
                            if right > j + 1 {
                                assert forall|t: int| j + 1 <= t < right implies #[trigger] cs[t] == CellState::Black by {
                                    assert(fb[t]);
                                }
                                let y = lemma_run_in_one_block(sz, cs, s, j + 1, right);
                                assert(covers(sz, s, y, j + 1));
                                lemma_neighbours_same_block(sz, n as int, s, x, y, j as int);
                                assert(covers(sz, s, x, right - 1));
                            }
                            assert(s[x] <= left);
                            assert(s[x] + sz[x] >= right);
                        }
                        assert forall|t: int| j <= t < j + 1 implies !#[trigger] covered(sz, s, t) by {
                            assert(t == j);
                        }
                    }
                }
                let ghost before = out@;
                emit(a, out, j..(j + 1), Color::White, Reason::WhiteIfTooLong { j, id });
                proof {
                    lemma_emits_trans(*a, old(out)@, before, out@);
                }
            }
            proof {
                assert(size == joined_run(*a, j as int));
            }
        }
        proof {
            assert(out@ == before_j + too_long_report(*a, j as int)) by {
                if !(a.cells@[j as int] == CellState::Unconfirmed && lo < hi && hi - lo == 1) {
                    assert(too_long_report(*a, j as int) == Seq::<Deduction>::empty());
                    assert(out@ =~= before_j + Seq::<Deduction>::empty());
                } else if !(joined_run(*a, j as int) > a.blocks@[lo as int].size) {
                    assert(too_long_report(*a, j as int) == Seq::<Deduction>::empty());
                    assert(out@ =~= before_j + Seq::<Deduction>::empty());
                }
            }
            lemma_gather_next(old(out)@, j as int, |i: int| too_long_report(*a, i));
        }
        j += 1;
    }
}

/// Moving block `z` of a consistent arrangement to start at `ns` keeps it
/// consistent when the block stays, before and after, inside `l..r`, a
/// stretch of unconfirmed cells, and keeps its distance from its neighbours.
proof fn lemma_shift_block(
    sizes: Seq<usize>,
    cells: Seq<CellState>,
    s: Seq<int>,
    z: int,
    ns: int,
    l: int,
    r: int,
)
    requires
        consistent(sizes, cells, s),
        0 <= z < sizes.len(),
        0 <= l <= r <= cells.len(),
        forall|t: int| l <= t < r ==> #[trigger] cells[t] == CellState::Unconfirmed,
        l <= s[z],
        s[z] + sizes[z] <= r,
        l <= ns,
        ns + sizes[z] <= r,
        z > 0 ==> s[z - 1] + sizes[z - 1] < ns,
        z + 1 < sizes.len() ==> ns + sizes[z] < s[z + 1],
    ensures
        consistent(sizes, cells, s.update(z, ns)),
{
    let n = cells.len() as int;
    let s2 = s.update(z, ns);
    assert forall|x: int, y: int| 0 <= x < y < s2.len() implies #[trigger] s2[x] + sizes[x] < #[trigger] s2[y] by {
        if x == z {
            lemma_order(sizes, n, s, z + 1, y);
        } else if y == z {
            lemma_order(sizes, n, s, x, z - 1);
        } else {
            assert(s[x] + sizes[x] < s[y]);
        }
    }
    assert forall|id: int| 0 <= id < s2.len() implies 0 <= #[trigger] s2[id] && s2[id] + sizes[id] <= n by {
        assert(s[id] >= 0 && s[id] + sizes[id] <= n);
    }
    assert forall|id: int, j: int|
        0 <= id < sizes.len() && 0 <= j < cells.len() && #[trigger] covers(sizes, s2, id, j) implies cells[j]
            != CellState::White by {
        if id != z {
            assert(covers(sizes, s, id, j));
        } else {
            assert(cells[j] == CellState::Unconfirmed);
        }
    }
    assert forall|j: int| 0 <= j < cells.len() && cells[j] == CellState::Black implies covered(sizes, s2, j) by {
        let x = lemma_black_cover(sizes, cells, s, j);
        if x == z {
            assert(cells[j] == CellState::Unconfirmed);
        }
        assert(covers(sizes, s2, x, j));
    }
}

/// An unconfirmed stretch closed by white at both ends, one of whose cells
/// only blocks longer than the stretch could cover, holds no block at all.
proof fn lemma_too_short(a: LineAnalysis, s: Seq<int>, l: int, r: int, j0: int)
    requires
        a.wf(),
        consistent(a.sizes(), a.cells@, s),
        0 <= l <= j0 < r <= a.cells@.len(),
        forall|t: int| l <= t < r ==> #[trigger] a.cells@[t] == CellState::Unconfirmed,
        l == 0 || a.cells@[l - 1] == CellState::White,
        r == a.cells@.len() || a.cells@[r] == CellState::White,
        min_size_or_zero(a, j0) > r - l,
    ensures
        forall|t: int| l <= t < r ==> !#[trigger] covered(a.sizes(), s, t),
{
    let sz = a.sizes();
    let cs = a.cells@;
    let n = cs.len() as int;
    let cand = a.candidates@;
    let c0 = cand[j0].start as int;
    let c1 = cand[j0].end as int;
    assert(c0 < c1);
    assert(c1 <= sz.len());
    let m = min_size_or_zero(a, j0);
    assert forall|id: int| c0 <= id < c1 implies #[trigger] sz[id] >= m by {
        lemma_min_size_le(sz, c0, c1, id);
    }
    assert(cand_sound(sz, cand, s));
    // no block lies inside the stretch
    assert forall|y: int| 0 <= y < sz.len() && l <= s[y] && s[y] + sz[y] <= r implies !(c0 <= y < c1) by {
    }
    // cell j0 is not covered
    assert forall|y: int| 0 <= y < sz.len() implies !#[trigger] covers(sz, s, y, j0) by {
        if covers(sz, s, y, j0) {
            lemma_block_within(sz, cs, s, y, j0, l, r);
            lemma_cover_in_cand(sz, cand, s, y, j0);
        }
    }
    assert forall|t: int| l <= t < r implies !#[trigger] covered(sz, s, t) by {
        if covered(sz, s, t) {
            let y = choose|y: int| 0 <= y < sz.len() && #[trigger] covers(sz, s, y, t);
            lemma_block_within(sz, cs, s, y, t, l, r);
            assert(!(c0 <= y < c1));
            if y < c0 {
                let z = c0 - 1;
                let w = c0;
                lemma_order(sz, n, s, y, z);
                assert(cand[j0] == cand[j0] && s[z] == s[z]);
                assert(s[z] + sz[z] <= j0);
                lemma_order(sz, n, s, z, w);
                if s[w] <= j0 {
                    assert(!covers(sz, s, w, j0));
                    assert(covers(sz, s, w, s[w]));
                    lemma_block_within(sz, cs, s, w, s[w], l, r);
                    assert(false);
                } else if s[w] == j0 + 1 {
                    assert(covers(sz, s, w, j0 + 1));
                    if j0 + 1 == r {
                        assert(cs[r] == CellState::White);
                    } else {
                        lemma_block_within(sz, cs, s, w, j0 + 1, l, r);
                    }
                    assert(false);
                } else {
                    let ns = j0 + 1 - sz[z];
                    if z > 0 {
                        lemma_order(sz, n, s, z - 1, z);
                    }
                    lemma_shift_block(sz, cs, s, z, ns, l, r);
                    let s2 = s.update(z, ns);
                    assert(cand_sound(sz, cand, s2));
                    assert(cand[j0] == cand[j0] && s2[z] == s2[z]);
                    assert(false);
                }
            } else {
                let z = c1;
                let w = c1 - 1;
                lemma_order(sz, n, s, z, y);
                assert(cand[j0] == cand[j0] && s[z] == s[z]);
                assert(j0 < s[z]);
                lemma_order(sz, n, s, w, z);
                if s[w] + sz[w] > j0 {
                    assert(!covers(sz, s, w, j0));
                    assert(covers(sz, s, w, s[w]));
                    lemma_block_within(sz, cs, s, w, s[w], l, r);
                    assert(false);
                } else if s[w] + sz[w] == j0 {
                    assert(covers(sz, s, w, j0 - 1));
                    if j0 == l {
                        assert(cs[l - 1] == CellState::White);
                    } else {
                        lemma_block_within(sz, cs, s, w, j0 - 1, l, r);
                    }
                    assert(false);
                } else {
                    let ns = j0;
                    if z + 1 < sz.len() {
                        lemma_order(sz, n, s, z, z + 1);
                    }
                    lemma_shift_block(sz, cs, s, z, ns, l, r);
                    let s2 = s.update(z, ns);
                    assert(cand_sound(sz, cand, s2));
                    assert(cand[j0] == cand[j0] && s2[z] == s2[z]);
                    assert(false);
                }
            }
        }
    }
}

/// What [`white_if_too_short`] reports for the `q`-th run of unconfirmed
/// cells `l..r`: when white (or an end of the line) closes it on both sides
/// and some cell of it could only be covered by blocks longer than the run,
/// the whole run, white.
pub open spec fn too_short_report(a: LineAnalysis, q: int) -> Seq<Deduction> {
    let l = a.unconfirmed_segments@[q].0;
    let r = a.unconfirmed_segments@[q].1;
    let n = a.cells@.len();
    if (l > 0 && a.cells@[l - 1] != CellState::White) || (r < n && a.cells@[r as int] != CellState::White) {
        Seq::empty()
    } else if exists|j: int| l <= j < r && #[trigger] min_size_or_zero(a, j) > r - l {
        emitted(a.cells@, Range { start: l, end: r }, Color::White, Reason::WhiteIfTooShort(l, r))
    } else {
        Seq::empty()
    }
}

/// What [`white_if_too_short`] reports for the first `k` runs of
/// unconfirmed cells.
pub open spec fn too_short_reports(a: LineAnalysis, k: int) -> Seq<Deduction> {
    gather(k, |q: int| too_short_report(a, q))
}

/// An unconfirmed stretch closed by white at both ends that is shorter than
/// every block that could cover one of its cells is white.
pub fn white_if_too_short(a: &LineAnalysis, out: &mut Vec<Deduction>)
    requires
        a.wf(),
    ensures
        emits_ok(*a, old(out)@, final(out)@),
        final(out)@ == old(out)@ + too_short_reports(*a, a.unconfirmed_segments@.len() as int),
{
    assert(old(out)@ + too_short_reports(*a, 0) =~= old(out)@);
    let n = a.n();
    let ghost cs = a.cells@;
    let ghost sz = a.sizes();
    let ghost fu = class_flags(cs, CellState::Unconfirmed, true);
    let mut q: usize = 0;
    while q < a.unconfirmed_segments.len()
        invariant
            a.wf(),
            n == cs.len(),
            cs == a.cells@,
            sz == a.sizes(),
            fu == class_flags(cs, CellState::Unconfirmed, true),
            emits_ok(*a, old(out)@, out@),
            q <= a.unconfirmed_segments@.len(),
            out@ == old(out)@ + too_short_reports(*a, q as int),
        decreases a.unconfirmed_segments@.len() - q,
    {
        let (l, r) = a.unconfirmed_segments[q];
        assert(a.unconfirmed_segments@[q as int] == (l, r));
        assert(is_segments_of(fu, a.unconfirmed_segments@));
        if (l > 0 && a.cells[l - 1] != CellState::White) || (r < n && a.cells[r] != CellState::White) {
            proof {
                assert(too_short_report(*a, q as int) == Seq::<Deduction>::empty());
                lemma_gather_next(old(out)@, q as int, |i: int| too_short_report(*a, i));
                assert(out@ + Seq::<Deduction>::empty() =~= out@);
            }
            q += 1;
            continue;
        }
        let mut found = false;
        let ghost mut j0: int = l as int;
        let mut j = l;
        while j < r
            invariant
                a.wf(),
                n == cs.len(),
                cs == a.cells@,
                l <= j <= r <= n,
                found ==> l <= j0 < r && min_size_or_zero(*a, j0) > r - l,
                !found ==> forall|t: int| l <= t < j ==> #[trigger] min_size_or_zero(*a, t) <= r - l,
            decreases r - j,
        {
            if min_or_zero(a, j) > r - l {
                found = true;
                proof {
                    j0 = j as int;
                }
            }
            j += 1;
        }
        if found {
            proof {
                assert forall|t: int| l <= t < r implies #[trigger] cs[t] == CellState::Unconfirmed by {
                    assert(fu[t]);
                }
                assert forall|s: Seq<int>|
                    #[trigger] consistent(sz, cs, s) implies forall|t: int|
                        l <= t < r ==> #[trigger] covered(sz, s, t) == (Color::White == Color::Black) by {
                    lemma_too_short(*a, s, l as int, r as int, j0);
                }
            }
            let ghost before = out@;
            emit(a, out, l..r, Color::White, Reason::WhiteIfTooShort(l, r));
            proof {
                lemma_emits_trans(*a, old(out)@, before, out@);
                assert(min_size_or_zero(*a, j0) > r - l);
                assert(too_short_report(*a, q as int) == emitted(a.cells@, l..r, Color::White, Reason::WhiteIfTooShort(l, r)));
                lemma_gather_next(old(out)@, q as int, |i: int| too_short_report(*a, i));
            }
        } else {
            proof {
                assert(!exists|t: int| l <= t < r && #[trigger] min_size_or_zero(*a, t) > r - l);
                assert(too_short_report(*a, q as int) == Seq::<Deduction>::empty());
                lemma_gather_next(old(out)@, q as int, |i: int| too_short_report(*a, i));
                assert(out@ + Seq::<Deduction>::empty() =~= out@);
            }
        }
        q += 1;
    }
}


/// The number of line rules.
pub const RULE_COUNT: usize = 8;

/// What rule number `index` reports on the line of analysis `a`.
pub open spec fn rule_reports(index: int, a: LineAnalysis) -> Seq<Deduction> {
    if index == 0 {
        overlap_reports(a, a.blocks@.len() as int)
    } else if index == 1 {
        bounded_reports(a, a.non_white_segments@.len() as int)
    } else if index == 2 {
        left_bounded_reports(a, a.black_segments@.len() as int)
    } else if index == 3 {
        right_bounded_reports(a, a.black_segments@.len() as int)
    } else if index == 4 {
        segment_complete_reports(a, a.black_segments@.len() as int)
    } else if index == 5 {
        too_long_reports(a, a.cells@.len() as int)
    } else if index == 6 {
        too_short_reports(a, a.unconfirmed_segments@.len() as int)
    } else {
        no_cover_reports(a, uncovered_runs(a), uncovered_runs(a).len() as int)
    }
}

/// What all rules report on the line of analysis `a`, rule by rule.
pub open spec fn all_reports(a: LineAnalysis) -> Seq<Deduction> {
    gather(RULE_COUNT as int, |index: int| rule_reports(index, a))
}

/// The number of the rule that reports with reason `reason`, in the order
/// in which [`run_rule`] numbers the rules.
pub open spec fn rule_of(reason: Reason) -> int {
    match reason {
        Reason::BlackIfOverlap { .. } => 0,
        Reason::BlackIfBounded(..) => 1,
        Reason::BlackIfLeftBounded(..) => 2,
        Reason::BlackIfRightBounded(..) => 3,
        Reason::WhiteIfSegmentComplete(..) => 4,
        Reason::WhiteIfTooLong { .. } => 5,
        Reason::WhiteIfTooShort(..) => 6,
        Reason::WhiteIfNoBlockCovers(..) => 7,
    }
}

/// Every deduction of `ds` gives a reason of rule number `index`.
pub open spec fn reasons_of_rule(ds: Seq<Deduction>, index: int) -> bool {
    forall|i: int| 0 <= i < ds.len() ==> rule_of(#[trigger] ds[i].reason) == index
}

proof fn lemma_gather_reasons(k: int, f: spec_fn(int) -> Seq<Deduction>, index: int)
    requires
        forall|j: int| 0 <= j < k ==> reasons_of_rule(#[trigger] f(j), index),
    ensures
        reasons_of_rule(gather(k, f), index),
    decreases k,
{
    if k > 0 {
        lemma_gather_reasons(k - 1, f, index);
        let g = gather(k - 1, f);
        let x = f(k - 1);
        assert(reasons_of_rule(x, index));
        assert forall|i: int| 0 <= i < (g + x).len() implies rule_of(#[trigger] (g + x)[i].reason) == index by {
            if i >= g.len() {
                assert((g + x)[i] == x[i - g.len()]);
            }
        }
    }
}

/// Each rule gives its own reason: every deduction that rule number
/// `index` reports names that rule by the variant of its reason.
pub proof fn law_reason_names_rule(index: int, a: LineAnalysis)
    requires
        0 <= index < RULE_COUNT,
    ensures
        reasons_of_rule(rule_reports(index, a), index),
{
    if index == 0 {
        lemma_gather_reasons(a.blocks@.len() as int, |id: int| overlap_report(a, id), 0);
    } else if index == 1 {
        lemma_gather_reasons(a.non_white_segments@.len() as int, |q: int| bounded_report(a, q), 1);
    } else if index == 2 {
        lemma_gather_reasons(a.black_segments@.len() as int, |q: int| left_bounded_report(a, q), 2);
    } else if index == 3 {
        lemma_gather_reasons(a.black_segments@.len() as int, |q: int| right_bounded_report(a, q), 3);
    } else if index == 4 {
        assert forall|q: int| 0 <= q < a.black_segments@.len() implies reasons_of_rule(
            #[trigger] segment_complete_report(a, q),
            4,
        ) by {
            let s = segment_complete_report(a, q);
            assert forall|i: int| 0 <= i < s.len() implies rule_of(#[trigger] s[i].reason) == 4 by {}
        }
        lemma_gather_reasons(a.black_segments@.len() as int, |q: int| segment_complete_report(a, q), 4);
    } else if index == 5 {
        lemma_gather_reasons(a.cells@.len() as int, |j: int| too_long_report(a, j), 5);
    } else if index == 6 {
        lemma_gather_reasons(a.unconfirmed_segments@.len() as int, |q: int| too_short_report(a, q), 6);
    } else {
        let segs = uncovered_runs(a);
        lemma_gather_reasons(segs.len() as int, |q: int| no_cover_report(a, segs, q), 7);
    }
}

/// What the reason of deduction `d` on the line of analysis `a` says, and
/// how it places the painted range:
/// - overlap: block `id` has its leftmost and its rightmost placement both
///   covering `l..r`, which is the range, black;
/// - bounded: `l..r`, the range, is a whole run of non-white cells, black;
/// - left-bounded: the run of non-white cells holding the range starts at
///   `l` (after a white cell or at the border), the range starts on a black
///   cell and ends at `r`, black;
/// - right-bounded: the same seen from the right: the run ends at `r`, the
///   range starts at `l` and ends on the cell before a black one, black;
/// - segment complete: `l..r` is a whole run of black cells, and the range is
///   the cell just before it or just after it, white;
/// - too long: the range is cell `j`, unconfirmed, whose only candidate is
///   block `id`, white;
/// - too short: `l..r`, the range, is a run of unconfirmed cells between
///   white cells or borders, white;
/// - no block covers: the range is `l..r`, white.
pub open spec fn reason_fits(a: LineAnalysis, d: Deduction) -> bool {
    let cells = a.cells@;
    let n = cells.len() as int;
    match d.reason {
        Reason::BlackIfOverlap { l, r, id } => {
            &&& d.color == Color::Black
            &&& id < a.blocks@.len()
            &&& l + a.blocks@[id as int].size == a.blocks@[id as int].possible_placement.end
            &&& r == a.blocks@[id as int].possible_placement.start + a.blocks@[id as int].size
            &&& d.range.start == l && d.range.end == r
        },
        Reason::BlackIfBounded(l, r) => {
            &&& d.color == Color::Black
            &&& d.range.start == l && d.range.end == r
            &&& r <= n
            &&& (l == 0 || cells[l - 1] == CellState::White)
            &&& (r == n || cells[r as int] == CellState::White)
            &&& forall|t: int| l <= t < r ==> #[trigger] cells[t] != CellState::White
        },
        Reason::BlackIfLeftBounded(l, r) => {
            &&& d.color == Color::Black
            &&& d.range.end == r
            &&& l <= d.range.start < n
            &&& cells[d.range.start as int] == CellState::Black
            &&& (l == 0 || cells[l - 1] == CellState::White)
            &&& forall|t: int| l <= t < d.range.start ==> #[trigger] cells[t] != CellState::White
        },
        Reason::BlackIfRightBounded(l, r) => {
            &&& d.color == Color::Black
            &&& d.range.start == l
            &&& d.range.end < r <= n
            &&& cells[d.range.end as int] == CellState::Black
            &&& (r == n || cells[r as int] == CellState::White)
            &&& forall|t: int| d.range.end <= t < r ==> #[trigger] cells[t] != CellState::White
        },
        Reason::WhiteIfSegmentComplete(l, r) => {
            &&& d.color == Color::White
            &&& l < r <= n
            &&& forall|t: int| l <= t < r ==> #[trigger] cells[t] == CellState::Black
            &&& (l == 0 || cells[l - 1] != CellState::Black)
            &&& (r == n || cells[r as int] != CellState::Black)
            &&& ((l > 0 && d.range.start + 1 == l && d.range.end == l) || (r < n && d.range.start == r
                && d.range.end == r + 1))
        },
        Reason::WhiteIfTooLong { j, id } => {
            &&& d.color == Color::White
            &&& d.range.start == j && d.range.end == j + 1
            &&& j < n
            &&& cells[j as int] == CellState::Unconfirmed
            &&& a.candidates@[j as int].start == id && a.candidates@[j as int].end == id + 1
        },
        Reason::WhiteIfTooShort(l, r) => {
            &&& d.color == Color::White
            &&& d.range.start == l && d.range.end == r
            &&& r <= n
            &&& (l == 0 || cells[l - 1] == CellState::White)
            &&& (r == n || cells[r as int] == CellState::White)
            &&& forall|t: int| l <= t < r ==> #[trigger] cells[t] == CellState::Unconfirmed
        },
        Reason::WhiteIfNoBlockCovers(l, r) => {
            &&& d.color == Color::White
            &&& d.range.start == l && d.range.end == r
        },
    }
}

/// Every deduction of `ds` has a reason that fits it.
pub open spec fn reasons_fit(a: LineAnalysis, ds: Seq<Deduction>) -> bool {
    forall|i: int| 0 <= i < ds.len() ==> reason_fits(a, #[trigger] ds[i])
}

proof fn lemma_gather_fit(a: LineAnalysis, k: int, f: spec_fn(int) -> Seq<Deduction>)
    requires
        forall|j: int| 0 <= j < k ==> reasons_fit(a, #[trigger] f(j)),
    ensures
        reasons_fit(a, gather(k, f)),
    decreases k,
{
    if k > 0 {
        lemma_gather_fit(a, k - 1, f);
        let g = gather(k - 1, f);
        let x = f(k - 1);
        assert(reasons_fit(a, x));
        assert forall|i: int| 0 <= i < (g + x).len() implies reason_fits(a, #[trigger] (g + x)[i]) by {
            if i >= g.len() {
                assert((g + x)[i] == x[i - g.len()]);
            }
        }
    }
}

/// The reason of every deduction says where it comes from: for each rule,
/// the evidence in the reason (the block, the run and its ends) lies on the
/// line as [`reason_fits`] describes, and places the painted range.
pub proof fn law_reasons_fit(index: int, a: LineAnalysis)
    requires
        a.wf(),
        0 <= index < RULE_COUNT,
    ensures
        reasons_fit(a, rule_reports(index, a)),
{
    let cs = a.cells@;
    let n = cs.len() as int;
    let fb = class_flags(cs, CellState::Black, true);
    let fw = class_flags(cs, CellState::White, false);
    let fu = class_flags(cs, CellState::Unconfirmed, true);
    if index == 0 {
        assert forall|id: int| 0 <= id < a.blocks@.len() implies reasons_fit(a, #[trigger] overlap_report(a, id)) by {
            let b = a.blocks@[id];
            assert(b.possible_placement.end <= n);
            assert(a.blocks@.len() == a.blocks.len());
            let l = b.possible_placement.start;
            let r = b.possible_placement.end;
            if r >= l + b.size {
                let ol = (r - b.size) as usize;
                let or = (l + b.size) as usize;
                assert(ol == r - b.size);
                assert(or == l + b.size);
                assert((id as usize) as int == id);
                let d = Deduction {
                    range: Range { start: ol, end: or },
                    color: Color::Black,
                    reason: Reason::BlackIfOverlap { l: ol, r: or, id: id as usize },
                };
                assert(reason_fits(a, d));
                let s = overlap_report(a, id);
                assert forall|i: int| 0 <= i < s.len() implies reason_fits(a, #[trigger] s[i]) by {
                    assert(s[i] == d);
                }
            }
        }
        lemma_gather_fit(a, a.blocks@.len() as int, |id: int| overlap_report(a, id));
    } else if index == 1 {
        let segs = a.non_white_segments@;
        assert forall|q: int| 0 <= q < segs.len() implies reasons_fit(a, #[trigger] bounded_report(a, q)) by {
            let (l, r) = segs[q];
            assert(segs[q].0 < segs[q].1 <= n);
            assert(l == 0 || !fw[l - 1]);
            assert(r == n || !fw[r as int]);
            assert forall|t: int| l <= t < r implies #[trigger] cs[t] != CellState::White by {
                assert(fw[t]);
            }
        }
        lemma_gather_fit(a, segs.len() as int, |q: int| bounded_report(a, q));
    } else if index == 2 {
        let segs = a.black_segments@;
        assert forall|q: int| 0 <= q < segs.len() implies reasons_fit(a, #[trigger] left_bounded_report(a, q)) by {
            let j = segs[q].0 as int;
            assert(segs[q].0 < segs[q].1 <= n);
            assert(fb[j]);
            lemma_reach_left(fw, j);
            let l = reach_left(fw, j);
            assert forall|t: int| l <= t < j implies #[trigger] cs[t] != CellState::White by {
                assert(fw[t]);
            }
            assert(l == 0 || !fw[l - 1]);
        }
        lemma_gather_fit(a, segs.len() as int, |q: int| left_bounded_report(a, q));
    } else if index == 3 {
        let segs = a.black_segments@;
        assert forall|q: int| 0 <= q < segs.len() implies reasons_fit(a, #[trigger] right_bounded_report(a, q)) by {
            let j = segs[q].1 - 1;
            assert(segs[q].0 < segs[q].1 <= n);
            assert(fb[j]);
            assert(fw[j]);
            lemma_reach_right(fw, j);
            let r = reach_right(fw, j);
            assert forall|t: int| j <= t < r implies #[trigger] cs[t] != CellState::White by {
                assert(fw[t]);
            }
            assert(r == n || !fw[r]);
        }
        lemma_gather_fit(a, segs.len() as int, |q: int| right_bounded_report(a, q));
    } else if index == 4 {
        let segs = a.black_segments@;
        assert forall|q: int| 0 <= q < segs.len() implies reasons_fit(a, #[trigger] segment_complete_report(a, q)) by {
            let (l, r) = segs[q];
            assert(segs[q].0 < segs[q].1 <= n);
            assert(l == 0 || !fb[l - 1]);
            assert(r == n || !fb[r as int]);
            assert forall|t: int| l <= t < r implies #[trigger] cs[t] == CellState::Black by {
                assert(fb[t]);
            }
            let s = segment_complete_report(a, q);
            assert forall|i: int| 0 <= i < s.len() implies reason_fits(a, #[trigger] s[i]) by {}
        }
        lemma_gather_fit(a, segs.len() as int, |q: int| segment_complete_report(a, q));
    } else if index == 5 {
        lemma_gather_fit(a, n, |j: int| too_long_report(a, j));
    } else if index == 6 {
        let segs = a.unconfirmed_segments@;
        assert forall|q: int| 0 <= q < segs.len() implies reasons_fit(a, #[trigger] too_short_report(a, q)) by {
            let (l, r) = segs[q];
            assert(segs[q].0 < segs[q].1 <= n);
            assert forall|t: int| l <= t < r implies #[trigger] cs[t] == CellState::Unconfirmed by {
                assert(fu[t]);
            }
        }
        lemma_gather_fit(a, segs.len() as int, |q: int| too_short_report(a, q));
    } else {
        let segs = uncovered_runs(a);
        lemma_gather_fit(a, segs.len() as int, |q: int| no_cover_report(a, segs, q));
    }
}

/// Every cell that the deductions `ds` paint has no candidate block in
/// `cand`.
pub open spec fn paints_uncovered(ds: Seq<Deduction>, cand: Seq<Range<usize>>) -> bool {
    forall|i: int, t: int|
        #![trigger ds[i], cand[t]]
        0 <= i < ds.len() && ds[i].range.start <= t < ds[i].range.end ==> cand[t].start >= cand[t].end
}

/// Every cell that the no-cover rule (rule number 7) paints white is one
/// that no block is a candidate for.
pub proof fn law_no_cover_cells(a: LineAnalysis)
    requires
        a.wf(),
        exists|segs: Seq<(usize, usize)>| is_segments_of(uncovered_flags(a), segs),
    ensures
        paints_uncovered(rule_reports(7, a), a.candidates@),
{
    let segs = uncovered_runs(a);
    let f = uncovered_flags(a);
    assert(is_segments_of(f, segs));
    let g = |q: int| no_cover_report(a, segs, q);
    assert forall|q: int| 0 <= q < segs.len() implies paints_uncovered(#[trigger] g(q), a.candidates@) by {
        assert forall|i: int, t: int|
            #![trigger g(q)[i], a.candidates@[t]]
            0 <= i < g(q).len() && g(q)[i].range.start <= t < g(q)[i].range.end implies a.candidates@[t].start
                >= a.candidates@[t].end by {
            assert(g(q)[i].range == Range { start: segs[q].0, end: segs[q].1 });
            assert(segs[q].1 <= f.len());
            assert(f[t]);
        }
    }
    lemma_gather_cells(segs.len() as int, g, a.candidates@);
}

proof fn lemma_gather_cells(k: int, f: spec_fn(int) -> Seq<Deduction>, cand: Seq<Range<usize>>)
    requires
        forall|q: int| 0 <= q < k ==> paints_uncovered(#[trigger] f(q), cand),
    ensures
        paints_uncovered(gather(k, f), cand),
    decreases k,
{
    if k > 0 {
        lemma_gather_cells(k - 1, f, cand);
        let g = gather(k - 1, f);
        let x = f(k - 1);
        assert(paints_uncovered(x, cand));
        assert(gather(k, f) == g + x);
        assert forall|i: int, t: int|
            #![trigger (g + x)[i], cand[t]]
            0 <= i < (g + x).len() && (g + x)[i].range.start <= t < (g + x)[i].range.end implies cand[t].start
                >= cand[t].end by {
            if i >= g.len() {
                assert((g + x)[i] == x[i - g.len()]);
            } else {
                assert((g + x)[i] == g[i]);
            }
        }
    }
}

/// Runs rule number `index`. Rules are numbered cheapest and most obvious
/// first: overlap, bounded, left-bounded, right-bounded, segment complete,
/// too long, too short, no block covers; [`crate::Solver::hint`] tries them
/// in this order.
pub fn run_rule(index: usize, a: &LineAnalysis, out: &mut Vec<Deduction>)
    requires
        a.wf(),
        index < RULE_COUNT,
    ensures
        emits_ok(*a, old(out)@, final(out)@),
        final(out)@ == old(out)@ + rule_reports(index as int, *a),
{
    match index {
        0 => black_if_overlap(a, out),
        1 => black_if_bounded(a, out),
        2 => black_if_left_bounded(a, out),
        3 => black_if_right_bounded(a, out),
        4 => white_if_segment_complete(a, out),
        5 => white_if_too_long(a, out),
        6 => white_if_too_short(a, out),
        _ => white_if_no_block_covers(a, out),
    }
}

/// `a` and `b` hold the same analysis.
pub open spec fn same_analysis(a: LineAnalysis, b: LineAnalysis) -> bool {
    &&& a.cells@ == b.cells@
    &&& a.blocks@ == b.blocks@
    &&& a.candidates@ == b.candidates@
    &&& a.black_segments@ == b.black_segments@
    &&& a.non_white_segments@ == b.non_white_segments@
    &&& a.unconfirmed_segments@ == b.unconfirmed_segments@
}

proof fn lemma_left_reach_same(a: LineAnalysis, b: LineAnalysis, l: int, r: int, r_max: int)
    requires
        forall|l2: int, r2: int| #[trigger] long_from_left(a, l2, r2) == long_from_left(b, l2, r2),
    ensures
        left_reach(a, l, r, r_max) == left_reach(b, l, r, r_max),
    decreases r_max - r,
{
    if r < r_max && long_from_left(a, l, r) {
        lemma_left_reach_same(a, b, l, r + 1, r_max);
    }
}

proof fn lemma_right_reach_same(a: LineAnalysis, b: LineAnalysis, l: int, r: int, l_min: int)
    requires
        forall|l2: int, r2: int| #[trigger] long_from_right(a, l2, r2) == long_from_right(b, l2, r2),
    ensures
        right_reach(a, l, r, l_min) == right_reach(b, l, r, l_min),
    decreases l - l_min,
{
    if l > l_min && long_from_right(a, l, r) {
        lemma_right_reach_same(a, b, l - 1, r, l_min);
    }
}

/// Two values that hold the same analysis make the rules report the same.
pub proof fn lemma_reports_same(a: LineAnalysis, b: LineAnalysis)
    requires
        same_analysis(a, b),
    ensures
        forall|index: int| #[trigger] rule_reports(index, a) == rule_reports(index, b),
        all_reports(a) == all_reports(b),
{
    assert(a.sizes() =~= b.sizes());
    assert forall|j: int| #[trigger] min_size_or_zero(a, j) == min_size_or_zero(b, j) by {}
    assert forall|j: int, x: int| #[trigger] long_enough(a, j, x) == long_enough(b, j, x) by {}
    assert forall|j: int| #[trigger] max_at(a, j) == max_at(b, j) by {}
    assert forall|j: int| #[trigger] joined_run(a, j) == joined_run(b, j) by {}
    assert forall|l2: int, r2: int| #[trigger] long_from_left(a, l2, r2) == long_from_left(b, l2, r2) by {
        if long_from_left(a, l2, r2) {
            assert forall|x: int| l2 <= x <= r2 implies #[trigger] min_size_or_zero(b, x) > r2 - l2 by {
                assert(min_size_or_zero(a, x) > r2 - l2);
            }
        }
        if long_from_left(b, l2, r2) {
            assert forall|x: int| l2 <= x <= r2 implies #[trigger] min_size_or_zero(a, x) > r2 - l2 by {
                assert(min_size_or_zero(b, x) > r2 - l2);
            }
        }
    }
    assert forall|l2: int, r2: int| #[trigger] long_from_right(a, l2, r2) == long_from_right(b, l2, r2) by {
        if long_from_right(a, l2, r2) {
            assert forall|x: int| l2 <= x < r2 implies #[trigger] min_size_or_zero(b, x) > r2 - l2 by {
                assert(min_size_or_zero(a, x) > r2 - l2);
            }
        }
        if long_from_right(b, l2, r2) {
            assert forall|x: int| l2 <= x < r2 implies #[trigger] min_size_or_zero(a, x) > r2 - l2 by {
                assert(min_size_or_zero(b, x) > r2 - l2);
            }
        }
    }
    assert forall|l2: int, r2: int, m: int| #[trigger] left_reach(a, l2, r2, m) == left_reach(b, l2, r2, m) by {
        lemma_left_reach_same(a, b, l2, r2, m);
    }
    assert forall|l2: int, r2: int, m: int| #[trigger] right_reach(a, l2, r2, m) == right_reach(b, l2, r2, m) by {
        lemma_right_reach_same(a, b, l2, r2, m);
    }
    assert((|id: int| overlap_report(a, id)) =~= (|id: int| overlap_report(b, id)));
    assert((|q: int| bounded_report(a, q)) =~= (|q: int| bounded_report(b, q))) by {
        assert forall|q: int| #[trigger] bounded_report(a, q) == bounded_report(b, q) by {
            let l = a.non_white_segments@[q].0;
            let r = a.non_white_segments@[q].1;
            assert((forall|j: int| l <= j < r ==> #[trigger] a.cells@[j] == CellState::Unconfirmed) == (forall|j: int|
                l <= j < r ==> #[trigger] b.cells@[j] == CellState::Unconfirmed));
            if forall|j: int| l <= j < r ==> #[trigger] long_enough(a, j, r - l) {
                assert forall|j: int| l <= j < r implies #[trigger] long_enough(b, j, r - l) by {
                    assert(long_enough(a, j, r - l));
                }
            }
            if forall|j: int| l <= j < r ==> #[trigger] long_enough(b, j, r - l) {
                assert forall|j: int| l <= j < r implies #[trigger] long_enough(a, j, r - l) by {
                    assert(long_enough(b, j, r - l));
                }
            }
        }
    }
    assert((|q: int| left_bounded_report(a, q)) =~= (|q: int| left_bounded_report(b, q)));
    assert((|q: int| right_bounded_report(a, q)) =~= (|q: int| right_bounded_report(b, q)));
    assert((|q: int| segment_complete_report(a, q)) =~= (|q: int| segment_complete_report(b, q))) by {
        assert forall|q: int| #[trigger] segment_complete_report(a, q) == segment_complete_report(b, q) by {
            let l = a.black_segments@[q].0;
            let r = a.black_segments@[q].1;
            if exists|j: int| l <= j < r && #[trigger] max_at(a, j) == Some((r - l) as usize) {
                let j = choose|j: int| l <= j < r && #[trigger] max_at(a, j) == Some((r - l) as usize);
                assert(max_at(b, j) == Some((r - l) as usize));
            }
            if exists|j: int| l <= j < r && #[trigger] max_at(b, j) == Some((r - l) as usize) {
                let j = choose|j: int| l <= j < r && #[trigger] max_at(b, j) == Some((r - l) as usize);
                assert(max_at(a, j) == Some((r - l) as usize));
            }
        }
    }
    assert((|j: int| too_long_report(a, j)) =~= (|j: int| too_long_report(b, j)));
    assert((|q: int| too_short_report(a, q)) =~= (|q: int| too_short_report(b, q))) by {
        assert forall|q: int| #[trigger] too_short_report(a, q) == too_short_report(b, q) by {
            let l = a.unconfirmed_segments@[q].0;
            let r = a.unconfirmed_segments@[q].1;
            if exists|j: int| l <= j < r && #[trigger] min_size_or_zero(a, j) > r - l {
                let j = choose|j: int| l <= j < r && #[trigger] min_size_or_zero(a, j) > r - l;
                assert(min_size_or_zero(b, j) > r - l);
            }
            if exists|j: int| l <= j < r && #[trigger] min_size_or_zero(b, j) > r - l {
                let j = choose|j: int| l <= j < r && #[trigger] min_size_or_zero(b, j) > r - l;
                assert(min_size_or_zero(a, j) > r - l);
            }
        }
    }
    assert(uncovered_flags(a) =~= uncovered_flags(b));
    assert((|q: int| no_cover_report(a, uncovered_runs(a), q)) =~= (|q: int| no_cover_report(b, uncovered_runs(b), q)));
    assert forall|index: int| #[trigger] rule_reports(index, a) == rule_reports(index, b) by {}
    assert((|index: int| rule_reports(index, a)) =~= (|index: int| rule_reports(index, b)));
}

/// Runs every rule, in order, appending their deductions to `out`.
pub fn run_all_rules(a: &LineAnalysis, out: &mut Vec<Deduction>)
    requires
        a.wf(),
    ensures
        emits_ok(*a, old(out)@, final(out)@),
        final(out)@ == old(out)@ + all_reports(*a),
{
    assert(old(out)@ + gather(0, |i: int| rule_reports(i, *a)) =~= old(out)@);
    let mut index: usize = 0;
    while index < RULE_COUNT
        invariant
            a.wf(),
            index <= RULE_COUNT,
            emits_ok(*a, old(out)@, out@),
            out@ == old(out)@ + gather(index as int, |i: int| rule_reports(i, *a)),
        decreases RULE_COUNT - index,
    {
        let ghost before = out@;
        run_rule(index, a, out);
        proof {
            lemma_emits_trans(*a, old(out)@, before, out@);
            lemma_gather_next(old(out)@, index as int, |i: int| rule_reports(i, *a));
        }
        index += 1;
    }
}

} // verus!
