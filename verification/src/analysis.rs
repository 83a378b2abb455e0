//! Pure analysis of one row or column.
//!
//! [`LineAnalysis::compute`] takes only the clue of a line (its block sizes)
//! and the current states of its cells, and narrows, until nothing changes,
//! the range in which each block can lie and, for each cell, the range of
//! blocks that could cover it.
use vstd::prelude::*;
use crate::grid::CellState;
use crate::clue::{clue_fits, min_line_len, seq_sum, lemma_sum_prefix_le};
use std::ops::Range;

verus! {

// ---------------------------------------------------------------------------
// Maximal segments

/// `segs` are the maximal runs of `true` in `f[0..len)`, left to right,
/// as half-open intervals.
pub open spec fn segments_within(f: Seq<bool>, len: int, segs: Seq<(usize, usize)>) -> bool {
    &&& forall|k: int| 0 <= k < segs.len() ==> (#[trigger] segs[k]).0 < segs[k].1 <= len
    &&& forall|k: int, j: int|
        #![trigger segs[k], f[j]]
        0 <= k < segs.len() && segs[k].0 <= j < segs[k].1 ==> f[j]
    &&& forall|k: int| 0 <= k < segs.len() ==> ((#[trigger] segs[k]).0 == 0 || !f[segs[k].0 - 1])
    &&& forall|k: int| 0 <= k < segs.len() ==> ((#[trigger] segs[k]).1 == len || !f[segs[k].1 as int])
    &&& forall|a: int, b: int|
        0 <= a < b < segs.len() ==> (#[trigger] segs[a]).1 < (#[trigger] segs[b]).0
    &&& forall|j: int|
        0 <= j < len && #[trigger] f[j] ==> exists|k: int|
            0 <= k < segs.len() && (#[trigger] segs[k]).0 <= j < segs[k].1
}

/// `segs` are the maximal runs of `true` in `f`, left to right.
pub open spec fn is_segments_of(f: Seq<bool>, segs: Seq<(usize, usize)>) -> bool {
    segments_within(f, f.len() as int, segs)
}

/// The maximal runs of `true` in `flags`, left to right, as half-open
/// intervals `(start, end)`.
pub fn segments_of(flags: &[bool]) -> (res: Vec<(usize, usize)>)
    ensures
        is_segments_of(flags@, res@),
{
    let n = flags.len();
    let ghost f = flags@;
    let mut segs: Vec<(usize, usize)> = Vec::new();
    let mut l: usize = 0;
    while l < n
        invariant
            n == f.len(),
            f == flags@,
            l <= n,
            segments_within(f, l as int, segs@),
            0 < l < n ==> !f[l - 1] || !f[l as int],
        decreases n - l,
    {
        if !flags[l] {
            proof {
                assert forall|j: int| 0 <= j < l + 1 && #[trigger] f[j] implies exists|k: int|
                    0 <= k < segs@.len() && (#[trigger] segs@[k]).0 <= j < segs@[k].1 by {
                    assert(j != l);
                }
            }
            l += 1;
            continue;
        }
        let mut r: usize = l + 1;
        while r < n && flags[r]
            invariant
                n == f.len(),
                f == flags@,
                l < r <= n,
                forall|j: int| l <= j < r ==> #[trigger] f[j],
            decreases n - r,
        {
            r += 1;
        }
        let ghost old_segs = segs@;
        segs.push((l, r));
        proof {
            let ns = segs@;
            assert(ns.last() == (l, r));
            assert forall|j: int| 0 <= j < r && #[trigger] f[j] implies exists|k: int|
                0 <= k < ns.len() && (#[trigger] ns[k]).0 <= j < ns[k].1 by {
                if j < l {
                    let k = choose|k: int| 0 <= k < old_segs.len() && (#[trigger] old_segs[k]).0 <= j < old_segs[k].1;
                    assert(ns[k] == old_segs[k]);
                } else {
                    assert(ns[ns.len() - 1] == (l, r));
                }
            }
            assert forall|a: int, b: int|
                0 <= a < b < ns.len() implies (#[trigger] ns[a]).1 < (#[trigger] ns[b]).0 by {
                if b == ns.len() - 1 {
                    assert(ns[a] == old_segs[a]);
                    // the old segment ends at most at `l`; it cannot end exactly at `l`
                    // because then `f[l - 1]` and `f[l]` would both hold
                    if ns[a].1 == l {
                        assert(f[l - 1]);
                    }
                }
            }
            assert forall|k: int, j: int|
                #![trigger ns[k], f[j]]
                0 <= k < ns.len() && ns[k].0 <= j < ns[k].1 implies f[j] by {
                if k < ns.len() - 1 {
                    assert(ns[k] == old_segs[k]);
                    assert(f[j]);
                }
            }
            assert forall|k: int| 0 <= k < ns.len() implies ((#[trigger] ns[k]).0 == 0 || !f[ns[k].0 - 1]) by {
                if k < ns.len() - 1 {
                    assert(ns[k] == old_segs[k]);
                }
            }
            assert forall|k: int| 0 <= k < ns.len() implies ((#[trigger] ns[k]).1 == r || !f[ns[k].1 as int]) by {
                if k < ns.len() - 1 {
                    assert(ns[k] == old_segs[k]);
                    if ns[k].1 == l {
                        assert(f[l - 1]);
                    }
                }
            }
            assert(segments_within(f, r as int, ns));
        }
        l = r;
    }
    segs
}

proof fn lemma_segments_prefix_eq(f: Seq<bool>, s1: Seq<(usize, usize)>, s2: Seq<(usize, usize)>, k: int)
    requires
        is_segments_of(f, s1),
        is_segments_of(f, s2),
        0 <= k <= s1.len(),
        k <= s2.len(),
    ensures
        forall|i: int| 0 <= i < k ==> #[trigger] s1[i] == s2[i],
    decreases k,
{
    if k > 0 {
        lemma_segments_prefix_eq(f, s1, s2, k - 1);
        let i = k - 1;
        assert(s1[i].0 < s1[i].1 && s2[i].0 < s2[i].1);
        if s1[i].0 < s2[i].0 {
            let j = s1[i].0 as int;
            assert(f[j]);
            let k2 = choose|k2: int| 0 <= k2 < s2.len() && (#[trigger] s2[k2]).0 <= j < s2[k2].1;
            if k2 < i {
                assert(s2[k2] == s1[k2]);
                assert(s1[k2].1 < s1[i].0);
            } else if k2 > i {
                assert(s2[i].1 < s2[k2].0);
            }
        }
        if s2[i].0 < s1[i].0 {
            let j = s2[i].0 as int;
            assert(f[j]);
            let k2 = choose|k2: int| 0 <= k2 < s1.len() && (#[trigger] s1[k2]).0 <= j < s1[k2].1;
            if k2 < i {
                assert(s2[k2] == s1[k2]);
                assert(s2[k2].1 < s2[i].0);
            } else if k2 > i {
                assert(s1[i].1 < s1[k2].0);
            }
        }
        if s1[i].1 < s2[i].1 {
            assert(f[s1[i].1 as int]);
        }
        if s2[i].1 < s1[i].1 {
            assert(f[s2[i].1 as int]);
        }
        assert(s1[i] == s2[i]);
    }
}

/// The maximal runs of `true` of a sequence of flags are unique.
pub proof fn lemma_segments_unique(f: Seq<bool>, s1: Seq<(usize, usize)>, s2: Seq<(usize, usize)>)
    requires
        is_segments_of(f, s1),
        is_segments_of(f, s2),
    ensures
        s1 == s2,
{
    if s1.len() > s2.len() {
        let m = s2.len() as int;
        lemma_segments_prefix_eq(f, s1, s2, m);
        let j = s1[m].0 as int;
        assert(f[j]);
        let k2 = choose|k2: int| 0 <= k2 < s2.len() && (#[trigger] s2[k2]).0 <= j < s2[k2].1;
        assert(s2[k2] == s1[k2]);
        assert(s1[k2].1 < s1[m].0);
    } else if s2.len() > s1.len() {
        let m = s1.len() as int;
        lemma_segments_prefix_eq(f, s1, s2, m);
        let j = s2[m].0 as int;
        assert(f[j]);
        let k2 = choose|k2: int| 0 <= k2 < s1.len() && (#[trigger] s1[k2]).0 <= j < s1[k2].1;
        assert(s2[k2] == s1[k2]);
        assert(s2[k2].1 < s2[m].0);
    } else {
        lemma_segments_prefix_eq(f, s1, s2, s1.len() as int);
        assert(s1 =~= s2);
    }
}

/// Flags of the cells of `cells` that equal `target` (or, when `equal` is
/// false, that differ from it).
pub open spec fn class_flags(cells: Seq<CellState>, target: CellState, equal: bool) -> Seq<bool> {
    Seq::new(cells.len(), |j: int| (cells[j] == target) == equal)
}

/// The flags of [`class_flags`].
pub fn flags_where(cells: &[CellState], target: CellState, equal: bool) -> (res: Vec<bool>)
    ensures
        res@ == class_flags(cells@, target, equal),
{
    let mut out: Vec<bool> = Vec::new();
    let mut j: usize = 0;
    while j < cells.len()
        invariant
            j <= cells@.len(),
            out@ =~= class_flags(cells@, target, equal).take(j as int),
        decreases cells@.len() - j,
    {
        out.push((cells[j] == target) == equal);
        j += 1;
    }
    out
}


// ---------------------------------------------------------------------------
// The line model: arrangements of blocks

/// Block `id` of arrangement `s` covers cell `j`.
pub open spec fn covers(sizes: Seq<usize>, s: Seq<int>, id: int, j: int) -> bool {
    s[id] <= j && j < s[id] + sizes[id]
}

/// `s` gives a start to every block of sizes `sizes` so that the blocks lie,
/// in order and with at least one cell between neighbours, in a line of `n`
/// cells.
pub open spec fn valid_arrangement(sizes: Seq<usize>, n: int, s: Seq<int>) -> bool {
    &&& s.len() == sizes.len()
    &&& forall|id: int| 0 <= id < s.len() ==> 0 <= #[trigger] s[id] && s[id] + sizes[id] <= n
    &&& forall|a: int, b: int| 0 <= a < b < s.len() ==> #[trigger] s[a] + sizes[a] < #[trigger] s[b]
}

/// Some block of `s` covers cell `j`.
pub open spec fn covered(sizes: Seq<usize>, s: Seq<int>, j: int) -> bool {
    exists|id: int| 0 <= id < sizes.len() && #[trigger] covers(sizes, s, id, j)
}

/// Arrangement `s` agrees with the confirmed cells of `cells`: no block
/// covers a white cell and every black cell is covered.
pub open spec fn consistent(sizes: Seq<usize>, cells: Seq<CellState>, s: Seq<int>) -> bool {
    &&& valid_arrangement(sizes, cells.len() as int, s)
    &&& forall|id: int, j: int|
        0 <= id < sizes.len() && 0 <= j < cells.len() && #[trigger] covers(sizes, s, id, j)
            ==> cells[j] != CellState::White
    &&& forall|j: int|
        #![trigger cells[j]]
        0 <= j < cells.len() && cells[j] == CellState::Black ==> covered(sizes, s, j)
}

/// For arrangement `s`, cell `j` lies after the end of every block before
/// `cand[j].start` and before the start of every block from `cand[j].end`
/// on. In particular a block that covers cell `j` lies in `cand[j]`.
pub open spec fn cand_sound(sizes: Seq<usize>, cand: Seq<Range<usize>>, s: Seq<int>) -> bool {
    forall|j: int, id: int|
        #![trigger cand[j], s[id]]
        0 <= j < cand.len() && 0 <= id < sizes.len() ==> (id < cand[j].start ==> s[id]
            + sizes[id] <= j) && (cand[j].end <= id ==> j < s[id])
}

/// The candidate ranges `cand` hold for every arrangement that agrees with
/// `cells`.
pub open spec fn sound_cands(sizes: Seq<usize>, cells: Seq<CellState>, cand: Seq<Range<usize>>) -> bool {
    forall|s: Seq<int>| #[trigger] consistent(sizes, cells, s) ==> cand_sound(sizes, cand, s)
}

/// Every candidate range lies in `0..k`.
pub open spec fn cand_bounded(cand: Seq<Range<usize>>, k: int) -> bool {
    forall|j: int| 0 <= j < cand.len() ==> (#[trigger] cand[j]).start <= k && cand[j].end <= k
}

/// A termination measure: the candidate ranges only ever shrink.
pub open spec fn cand_measure(cand: Seq<Range<usize>>, k: int) -> int
    decreases cand.len(),
{
    if cand.len() == 0 {
        0
    } else {
        cand_measure(cand.drop_last(), k) + cand.last().end + (k - cand.last().start)
    }
}

/// The line has room for the index arithmetic of the analysis, and its clue
/// fits it.
pub open spec fn line_ok(sizes: Seq<usize>, n: int) -> bool {
    &&& clue_fits(sizes, n)
    &&& 4 * n + 4 <= usize::MAX
}

proof fn lemma_measure_update(cand: Seq<Range<usize>>, k: int, j: int, new: Range<usize>)
    requires
        0 <= j < cand.len(),
    ensures
        cand_measure(cand.update(j, new), k) == cand_measure(cand, k) - (cand[j].end + k
            - cand[j].start) + (new.end + k - new.start),
    decreases cand.len(),
{
    let u = cand.update(j, new);
    if j == cand.len() - 1 {
        assert(u.drop_last() =~= cand.drop_last());
    } else {
        lemma_measure_update(cand.drop_last(), k, j, new);
        assert(u.drop_last() =~= cand.drop_last().update(j, new));
    }
}

proof fn lemma_measure_nonneg(cand: Seq<Range<usize>>, k: int)
    requires
        cand_bounded(cand, k),
    ensures
        cand_measure(cand, k) >= 0,
    decreases cand.len(),
{
    if cand.len() > 0 {
        assert(cand_bounded(cand.drop_last(), k)) by {
            assert forall|j: int| 0 <= j < cand.drop_last().len() implies (#[trigger] cand.drop_last()[j]).start <= k
                && cand.drop_last()[j].end <= k by {
                assert(cand.drop_last()[j] == cand[j]);
            }
        }
        lemma_measure_nonneg(cand.drop_last(), k);
        assert(cand.last() == cand[cand.len() - 1]);
    }
}

/// Blocks of an arrangement keep their order: starts and ends grow with the
/// block number.
pub(crate) proof fn lemma_order(sizes: Seq<usize>, n: int, s: Seq<int>, a: int, b: int)
    requires
        valid_arrangement(sizes, n, s),
        0 <= a <= b < s.len(),
    ensures
        s[a] <= s[b],
        s[a] + sizes[a] <= s[b] + sizes[b],
        a < b ==> s[a] + sizes[a] < s[b],
{
    if a < b {
        assert(s[a] + sizes[a] < s[b]);
    }
}

/// A black cell is covered by some block.
pub(crate) proof fn lemma_black_cover(sizes: Seq<usize>, cells: Seq<CellState>, s: Seq<int>, j: int) -> (id: int)
    requires
        consistent(sizes, cells, s),
        0 <= j < cells.len(),
        cells[j] == CellState::Black,
    ensures
        0 <= id < sizes.len(),
        covers(sizes, s, id, j),
{
    assert(covered(sizes, s, j));
    choose|id: int| 0 <= id < sizes.len() && #[trigger] covers(sizes, s, id, j)
}

/// A block that covers a cell lies in the candidate range of that cell.
pub(crate) proof fn lemma_cover_in_cand(
    sizes: Seq<usize>,
    cand: Seq<Range<usize>>,
    s: Seq<int>,
    id: int,
    j: int,
)
    requires
        cand_sound(sizes, cand, s),
        0 <= j < cand.len(),
        0 <= id < sizes.len(),
        covers(sizes, s, id, j),
    ensures
        cand[j].start <= id < cand[j].end,
{
    assert(cand[j] == cand[j] && s[id] == s[id]);
}

/// Lowering the end of the candidate range of cell `j` to `e` stays sound
/// when every arrangement starts block `e` (hence every later block) after
/// `j`.
proof fn lemma_tighten_end(
    sizes: Seq<usize>,
    cells: Seq<CellState>,
    cand: Seq<Range<usize>>,
    j: int,
    e: usize,
)
    requires
        sound_cands(sizes, cells, cand),
        0 <= j < cand.len(),
        e < sizes.len(),
        forall|s: Seq<int>| #[trigger] consistent(sizes, cells, s) ==> j < s[e as int],
    ensures
        sound_cands(sizes, cells, cand.update(j, cand[j].start..e)),
{
    let u = cand.update(j, cand[j].start..e);
    assert forall|s: Seq<int>| #[trigger] consistent(sizes, cells, s) implies cand_sound(sizes, u, s) by {
        assert forall|jj: int, id: int|
            #![trigger u[jj], s[id]]
            0 <= jj < u.len() && 0 <= id < sizes.len() implies (id < u[jj].start ==> s[id] + sizes[id]
                <= jj) && (u[jj].end <= id ==> jj < s[id]) by {
            assert(cand[jj] == cand[jj] && s[id] == s[id]);
            if jj == j && e <= id {
                lemma_order(sizes, cells.len() as int, s, e as int, id);
            }
        }
    }
}

/// Raising the start of the candidate range of cell `j` to `b + 1` stays
/// sound when every arrangement ends block `b` (hence every earlier block)
/// at or before `j`.
proof fn lemma_tighten_start(
    sizes: Seq<usize>,
    cells: Seq<CellState>,
    cand: Seq<Range<usize>>,
    j: int,
    b: usize,
)
    requires
        sound_cands(sizes, cells, cand),
        0 <= j < cand.len(),
        b < sizes.len(),
        b < usize::MAX,
        forall|s: Seq<int>| #[trigger] consistent(sizes, cells, s) ==> s[b as int] + sizes[b as int] <= j,
    ensures
        sound_cands(sizes, cells, cand.update(j, (b + 1) as usize..cand[j].end)),
{
    let u = cand.update(j, (b + 1) as usize..cand[j].end);
    assert forall|s: Seq<int>| #[trigger] consistent(sizes, cells, s) implies cand_sound(sizes, u, s) by {
        assert forall|jj: int, id: int|
            #![trigger u[jj], s[id]]
            0 <= jj < u.len() && 0 <= id < sizes.len() implies (id < u[jj].start ==> s[id] + sizes[id]
                <= jj) && (u[jj].end <= id ==> jj < s[id]) by {
            assert(cand[jj] == cand[jj] && s[id] == s[id]);
            if jj == j && id <= b {
                lemma_order(sizes, cells.len() as int, s, id, b as int);
            }
        }
    }
}

// ---------------------------------------------------------------------------
// Searches used by the analysis

/// The largest `j` in `1..=hi` whose cell `j - 1` is black with candidates
/// ending at or before `bound`; 0 when there is none.
pub open spec fn last_black_ending(cells: Seq<CellState>, cand: Seq<Range<usize>>, bound: int, hi: int) -> int
    decreases hi,
{
    if hi <= 0 {
        0
    } else if cells[hi - 1] == CellState::Black && cand[hi - 1].end <= bound {
        hi
    } else {
        last_black_ending(cells, cand, bound, hi - 1)
    }
}

/// The largest `j` in `1..=hi` whose cell `j - 1` has candidates ending at
/// or before `bound`; 0 when there is none.
pub open spec fn last_ending(cand: Seq<Range<usize>>, bound: int, hi: int) -> int
    decreases hi,
{
    if hi <= 0 {
        0
    } else if cand[hi - 1].end <= bound {
        hi
    } else {
        last_ending(cand, bound, hi - 1)
    }
}

/// The smallest `j` in `lo..` whose cell is black with candidates starting
/// at or after `bound`; the length of the line when there is none.
pub open spec fn first_black_starting(cells: Seq<CellState>, cand: Seq<Range<usize>>, bound: int, lo: int) -> int
    decreases cells.len() - lo,
{
    if lo >= cells.len() {
        cells.len() as int
    } else if cells[lo] == CellState::Black && cand[lo].start >= bound {
        lo
    } else {
        first_black_starting(cells, cand, bound, lo + 1)
    }
}

/// The smallest `j` in `lo..` whose candidates start after `bound`; the
/// length of the line when there is none.
pub open spec fn first_start_after(cand: Seq<Range<usize>>, bound: int, lo: int) -> int
    decreases cand.len() - lo,
{
    if lo >= cand.len() {
        cand.len() as int
    } else if cand[lo].start > bound {
        lo
    } else {
        first_start_after(cand, bound, lo + 1)
    }
}

/// The last white cell in `l..r`, if any.
pub open spec fn last_white(cells: Seq<CellState>, l: int, r: int) -> Option<int>
    decreases r - l,
{
    if r <= l {
        None
    } else if cells[r - 1] == CellState::White {
        Some(r - 1)
    } else {
        last_white(cells, l, r - 1)
    }
}

/// The first white cell in `l..r`, if any.
pub open spec fn first_white(cells: Seq<CellState>, l: int, r: int) -> Option<int>
    decreases r - l,
{
    if r <= l {
        None
    } else if cells[l] == CellState::White {
        Some(l)
    } else {
        first_white(cells, l + 1, r)
    }
}

/// What [`last_white`] finds is a white cell of the range, and when it
/// finds nothing the range has no white cell.
pub proof fn lemma_last_white(cells: Seq<CellState>, l: int, r: int)
    ensures
        match last_white(cells, l, r) {
            Some(w) => l <= w < r && cells[w] == CellState::White,
            None => forall|j: int| l <= j < r ==> cells[j] != CellState::White,
        },
    decreases r - l,
{
    if r > l && cells[r - 1] != CellState::White {
        lemma_last_white(cells, l, r - 1);
    }
}

/// What [`first_white`] finds is a white cell of the range, and when it
/// finds nothing the range has no white cell.
pub proof fn lemma_first_white(cells: Seq<CellState>, l: int, r: int)
    ensures
        match first_white(cells, l, r) {
            Some(w) => l <= w < r && cells[w] == CellState::White,
            None => forall|j: int| l <= j < r ==> cells[j] != CellState::White,
        },
    decreases r - l,
{
    if r > l && cells[l] != CellState::White {
        lemma_first_white(cells, l + 1, r);
    }
}

/// Searching with a weaker bound from where the search with a stronger one
/// stopped finds the same as searching from the end.
proof fn lemma_last_black_ending_chain(cells: Seq<CellState>, cand: Seq<Range<usize>>, b1: int, b2: int, hi: int)
    requires
        b1 <= b2,
    ensures
        last_black_ending(cells, cand, b1, last_black_ending(cells, cand, b2, hi)) == last_black_ending(cells, cand, b1, hi),
    decreases hi,
{
    if hi > 0 && !(cells[hi - 1] == CellState::Black && cand[hi - 1].end <= b2) {
        lemma_last_black_ending_chain(cells, cand, b1, b2, hi - 1);
    }
}

proof fn lemma_last_ending_chain(cand: Seq<Range<usize>>, b1: int, b2: int, hi: int)
    requires
        b1 <= b2,
    ensures
        last_ending(cand, b1, last_ending(cand, b2, hi)) == last_ending(cand, b1, hi),
    decreases hi,
{
    if hi > 0 && !(cand[hi - 1].end <= b2) {
        lemma_last_ending_chain(cand, b1, b2, hi - 1);
    }
}

proof fn lemma_first_black_starting_chain(cells: Seq<CellState>, cand: Seq<Range<usize>>, b1: int, b2: int, lo: int)
    requires
        b1 <= b2,
        0 <= lo,
    ensures
        first_black_starting(cells, cand, b2, first_black_starting(cells, cand, b1, lo)) == first_black_starting(cells, cand, b2, lo),
    decreases cells.len() - lo,
{
    if lo < cells.len() && !(cells[lo] == CellState::Black && cand[lo].start >= b1) {
        lemma_first_black_starting_chain(cells, cand, b1, b2, lo + 1);
    }
}

proof fn lemma_first_starting_after_chain(cand: Seq<Range<usize>>, b1: int, b2: int, lo: int)
    requires
        b1 <= b2,
        0 <= lo,
    ensures
        first_start_after(cand, b2, first_start_after(cand, b1, lo)) == first_start_after(cand, b2, lo),
    decreases cand.len() - lo,
{
    if lo < cand.len() && !(cand[lo].start > b1) {
        lemma_first_starting_after_chain(cand, b1, b2, lo + 1);
    }
}

/// The largest `j` in `1..=hi` whose cell `j - 1` is black with candidates
/// ending at or before `bound`; 0 when there is none.
fn last_black_ending_by(cells: &[CellState], cand: &Vec<Range<usize>>, hi: usize, bound: usize) -> (j: usize)
    requires
        hi <= cells@.len(),
        cells@.len() == cand@.len(),
    ensures
        j <= hi,
        j > 0 ==> cells@[j - 1] == CellState::Black && cand@[j - 1].end <= bound,
        j == last_black_ending(cells@, cand@, bound as int, hi as int),
{
    let mut j = hi;
    while j > 0 && !(cells[j - 1] == CellState::Black && cand[j - 1].end <= bound)
        invariant
            j <= hi,
            hi <= cells@.len(),
            cells@.len() == cand@.len(),
            last_black_ending(cells@, cand@, bound as int, j as int) == last_black_ending(cells@, cand@, bound as int, hi as int),
        decreases j,
    {
        j -= 1;
    }
    j
}

/// The largest `j` in `1..=hi` whose cell `j - 1` has candidates ending at
/// or before `bound`; 0 when there is none.
fn last_ending_by(cand: &Vec<Range<usize>>, hi: usize, bound: usize) -> (j: usize)
    requires
        hi <= cand@.len(),
    ensures
        j <= hi,
        j > 0 ==> cand@[j - 1].end <= bound,
        j == last_ending(cand@, bound as int, hi as int),
{
    let mut j = hi;
    while j > 0 && !(cand[j - 1].end <= bound)
        invariant
            j <= hi,
            hi <= cand@.len(),
            last_ending(cand@, bound as int, j as int) == last_ending(cand@, bound as int, hi as int),
        decreases j,
    {
        j -= 1;
    }
    j
}

/// The smallest `j` in `lo..n` whose cell is black with candidates starting
/// at or after `bound`; `n` when there is none.
fn first_black_starting_from(cells: &[CellState], cand: &Vec<Range<usize>>, lo: usize, bound: usize) -> (j: usize)
    requires
        cells@.len() == cand@.len(),
    ensures
        lo <= j || j == cells@.len(),
        j <= cells@.len() || j == lo,
        j < cells@.len() ==> cells@[j as int] == CellState::Black && cand@[j as int].start >= bound,
        j == first_black_starting(cells@, cand@, bound as int, lo as int),
{
    let n = cells.len();
    let mut j = lo;
    while j < n && !(cells[j] == CellState::Black && cand[j].start >= bound)
        invariant
            n == cells@.len(),
            cells@.len() == cand@.len(),
            lo <= j,
            j <= n || j == lo,
            first_black_starting(cells@, cand@, bound as int, j as int) == first_black_starting(cells@, cand@, bound as int, lo as int),
        decreases n - j,
    {
        j += 1;
    }
    if j >= n {
        n
    } else {
        j
    }
}

/// The smallest `j` in `lo..n` whose candidates start after `bound`; `n`
/// when there is none.
fn first_starting_after(cand: &Vec<Range<usize>>, lo: usize, bound: usize) -> (j: usize)
    ensures
        lo <= j || j == cand@.len(),
        j <= cand@.len(),
        j < cand@.len() ==> cand@[j as int].start > bound,
        j == first_start_after(cand@, bound as int, lo as int),
{
    let n = cand.len();
    let mut j = lo;
    while j < n && !(cand[j].start > bound)
        invariant
            n == cand@.len(),
            lo <= j,
            first_start_after(cand@, bound as int, j as int) == first_start_after(cand@, bound as int, lo as int),
        decreases n - j,
    {
        j += 1;
    }
    if j >= n {
        n
    } else {
        j
    }
}

/// The last white cell in `l..r`, if any.
fn last_white_in(cells: &[CellState], l: usize, r: usize) -> (res: Option<usize>)
    requires
        r <= cells@.len(),
    ensures
        match res {
            Some(w) => l <= w < r && cells@[w as int] == CellState::White,
            None => forall|j: int| l <= j < r ==> cells@[j] != CellState::White,
        },
        res == (match last_white(cells@, l as int, r as int) {
            Some(w) => Some(w as usize),
            None => None::<usize>,
        }),
{
    let mut j = r;
    while j > l
        invariant
            r <= cells@.len(),
            l <= j || r < l,
            j <= r,
            forall|t: int| j <= t < r ==> cells@[t] != CellState::White,
            r >= l ==> last_white(cells@, l as int, j as int) == last_white(cells@, l as int, r as int),
        decreases j,
    {
        if cells[j - 1] == CellState::White {
            return Some(j - 1);
        }
        j -= 1;
    }
    None
}

/// The first white cell in `l..r`, if any.
fn first_white_in(cells: &[CellState], l: usize, r: usize) -> (res: Option<usize>)
    requires
        r <= cells@.len(),
    ensures
        match res {
            Some(w) => l <= w < r && cells@[w as int] == CellState::White,
            None => forall|j: int| l <= j < r ==> cells@[j] != CellState::White,
        },
        res == (match first_white(cells@, l as int, r as int) {
            Some(w) => Some(w as usize),
            None => None::<usize>,
        }),
{
    let mut j = l;
    while j < r
        invariant
            r <= cells@.len(),
            l <= j,
            j <= r || j == l,
            forall|t: int| l <= t < j ==> cells@[t] != CellState::White,
            j <= r ==> first_white(cells@, j as int, r as int) == first_white(cells@, l as int, r as int),
        decreases r - j,
    {
        if cells[j] == CellState::White {
            return Some(j);
        }
        j += 1;
    }
    assert(first_white(cells@, l as int, r as int) == None::<int>) by {
        if l <= r {
            assert(first_white(cells@, j as int, r as int) == None::<int>);
        }
    }
    None
}


// ---------------------------------------------------------------------------
// Pushing blocks to the left and to the right

/// The analysis of one block: its size, as the clue gives it, and the range
/// of cells in which the whole block can lie.
#[derive(Debug)]
pub struct BlockInfo {
    /// The length of the block (the value in the clue).
    pub size: usize,
    /// The half-open range in which the whole block (`size` cells) can lie;
    /// its first cell can be anywhere in `start..=end - size`.
    pub possible_placement: Range<usize>,
}

/// `blocks` describe the blocks of sizes `sizes`, in order.
pub open spec fn blocks_match(blocks: Seq<BlockInfo>, sizes: Seq<usize>) -> bool {
    &&& blocks.len() == sizes.len()
    &&& forall|id: int| 0 <= id < blocks.len() ==> (#[trigger] blocks[id]).size == sizes[id]
}

/// In arrangement `s` every block starts at or after the start of its range.
pub open spec fn starts_placed(blocks: Seq<BlockInfo>, s: Seq<int>) -> bool {
    forall|id: int| 0 <= id < blocks.len() ==> (#[trigger] blocks[id]).possible_placement.start <= s[id]
}

/// In arrangement `s` every block ends at or before the end of its range.
pub open spec fn ends_placed(blocks: Seq<BlockInfo>, s: Seq<int>) -> bool {
    forall|id: int|
        0 <= id < blocks.len() ==> s[id] + (#[trigger] blocks[id]).size
            <= blocks[id].possible_placement.end
}

/// The prefix sums of a sequence of sizes.
proof fn lemma_sum_take_push(s: Seq<usize>, i: int)
    requires
        0 <= i < s.len(),
    ensures
        seq_sum(s.take(i + 1)) == seq_sum(s.take(i)) + s[i],
{
    assert(s.take(i + 1).drop_last() =~= s.take(i));
}

proof fn lemma_sum_nonneg(s: Seq<usize>)
    ensures
        seq_sum(s) >= 0,
    decreases s.len(),
{
    if s.len() > 0 {
        lemma_sum_nonneg(s.drop_last());
    }
}

/// The blocks of a fitting clue, with one cell after each, take at most
/// `n + 1` cells.
proof fn lemma_prefix_room(sizes: Seq<usize>, n: int, i: int)
    requires
        clue_fits(sizes, n),
        0 <= i <= sizes.len(),
    ensures
        0 <= seq_sum(sizes.take(i)) + i <= n + 1,
{
    lemma_sum_prefix_le(sizes, i);
    lemma_sum_nonneg(sizes.take(i));
}

/// Every block of a fitting clue fits in the line.
proof fn lemma_size_le(sizes: Seq<usize>, n: int, id: int)
    requires
        clue_fits(sizes, n),
        0 <= id < sizes.len(),
    ensures
        sizes[id] <= n,
{
    lemma_prefix_room(sizes, n, id + 1);
    lemma_sum_take_push(sizes, id);
    lemma_sum_nonneg(sizes.take(id));
}

/// A black cell whose candidates end at or before `id + 1` must be covered
/// by block `id` or an earlier one, so block `id` ends after it.
proof fn lemma_black_pushes_end(
    sizes: Seq<usize>,
    cells: Seq<CellState>,
    cand: Seq<Range<usize>>,
    s: Seq<int>,
    p: int,
    id: int,
)
    requires
        consistent(sizes, cells, s),
        cand_sound(sizes, cand, s),
        cand.len() == cells.len(),
        0 <= p < cells.len(),
        cells[p] == CellState::Black,
        cand[p].end <= id + 1,
        0 <= id < sizes.len(),
    ensures
        p + 1 <= s[id] + sizes[id],
{
    let x = lemma_black_cover(sizes, cells, s, p);
    lemma_cover_in_cand(sizes, cand, s, x, p);
    lemma_order(sizes, cells.len() as int, s, x, id);
}

/// A black cell whose candidates start at or after `id` must be covered by
/// block `id` or a later one, so block `id` starts at or before it.
proof fn lemma_black_pulls_start(
    sizes: Seq<usize>,
    cells: Seq<CellState>,
    cand: Seq<Range<usize>>,
    s: Seq<int>,
    p: int,
    id: int,
)
    requires
        consistent(sizes, cells, s),
        cand_sound(sizes, cand, s),
        cand.len() == cells.len(),
        0 <= p < cells.len(),
        cells[p] == CellState::Black,
        cand[p].start >= id,
        0 <= id < sizes.len(),
    ensures
        s[id] <= p,
{
    let x = lemma_black_cover(sizes, cells, s, p);
    lemma_cover_in_cand(sizes, cand, s, x, p);
    lemma_order(sizes, cells.len() as int, s, id, x);
}

/// The lower bound on the start of block `id` from the black cells: before
/// the end of the last black cell that only blocks up to `id` can cover
/// there must be room for the block.
pub open spec fn black_start_bound(sizes: Seq<usize>, cells: Seq<CellState>, cand: Seq<Range<usize>>, id: int) -> int {
    let j1 = last_black_ending(cells, cand, id + 1, cells.len() as int);
    if j1 > sizes[id] {
        j1 - sizes[id]
    } else {
        0
    }
}

/// Where block `id` can start at the earliest, from the black cells and
/// the candidates: after [`black_start_bound`], and after the last cell
/// that only earlier blocks can cover.
pub open spec fn min_start(sizes: Seq<usize>, cells: Seq<CellState>, cand: Seq<Range<usize>>, id: int) -> int {
    let b1 = black_start_bound(sizes, cells, cand, id);
    let j2 = last_ending(cand, id, cells.len() as int);
    if b1 < j2 {
        j2
    } else {
        b1
    }
}

/// Lower bounds on the start of each block from the black cells and the
/// candidate ranges (the first half of pushing the blocks to the left).
fn left_min_starts(sizes: &[usize], cells: &[CellState], cand: &Vec<Range<usize>>) -> (ms: Vec<usize>)
    requires
        line_ok(sizes@, cells@.len() as int),
        cand@.len() == cells@.len(),
        sound_cands(sizes@, cells@, cand@),
    ensures
        ms@.len() == sizes@.len(),
        forall|id: int| 0 <= id < ms@.len() ==> #[trigger] ms@[id] <= cells@.len(),
        forall|s: Seq<int>|
            #[trigger] consistent(sizes@, cells@, s) ==> forall|id: int|
                0 <= id < ms@.len() ==> #[trigger] ms@[id] <= s[id],
        forall|id: int| 0 <= id < ms@.len() ==> #[trigger] ms@[id] == min_start(sizes@, cells@, cand@, id),
{
    let n = cells.len();
    let k = sizes.len();
    let mut ms: Vec<usize> = Vec::new();
    let mut i: usize = 0;
    while i < k
        invariant
            i <= k,
            k == sizes@.len(),
            ms@.len() == i,
            forall|id: int| 0 <= id < i ==> #[trigger] ms@[id] == 0,
        decreases k - i,
    {
        ms.push(0);
        i += 1;
    }
    assert forall|s: Seq<int>|
        #[trigger] consistent(sizes@, cells@, s) implies forall|id: int|
            0 <= id < ms@.len() ==> #[trigger] ms@[id] <= s[id] by {
        assert forall|id: int| 0 <= id < ms@.len() implies #[trigger] ms@[id] <= s[id] by {
            assert(s[id] >= 0);
        }
    }
    // a black cell that only a block up to `id` can cover
    let mut j = n;
    let mut idx = k;
    while idx > 0
        invariant
            n == cells@.len(),
            k == sizes@.len(),
            line_ok(sizes@, n as int),
            cand@.len() == n,
            sound_cands(sizes@, cells@, cand@),
            idx <= k,
            j <= n,
            ms@.len() == k,
            forall|id: int| 0 <= id < k ==> #[trigger] ms@[id] <= n,
            forall|s: Seq<int>|
                #[trigger] consistent(sizes@, cells@, s) ==> forall|id: int|
                    0 <= id < k ==> #[trigger] ms@[id] <= s[id],
            j == (if idx == k {
                n as int
            } else {
                last_black_ending(cells@, cand@, idx + 1, n as int)
            }),
            forall|id: int| 0 <= id < idx ==> #[trigger] ms@[id] == 0,
            forall|id: int| idx <= id < k ==> #[trigger] ms@[id] == black_start_bound(sizes@, cells@, cand@, id),
        decreases idx,
    {
        let id = idx - 1;
        proof {
            if idx < k {
                lemma_last_black_ending_chain(cells@, cand@, id + 1, id + 2, n as int);
            }
        }
        j = last_black_ending_by(cells, cand, j, id + 1);
        if j > sizes[id] {
            let bound = j - sizes[id];
            if ms[id] < bound {
                proof {
                    assert forall|s: Seq<int>| #[trigger] consistent(sizes@, cells@, s) implies bound <= s[id as int] by {
                        lemma_black_pushes_end(sizes@, cells@, cand@, s, j - 1, id as int);
                    }
                }
                let ghost prev = ms@;
                ms.set(id, bound);
                proof {
                    assert forall|s: Seq<int>|
                        #[trigger] consistent(sizes@, cells@, s) implies forall|i: int|
                            0 <= i < k ==> #[trigger] ms@[i] <= s[i] by {
                        assert forall|i: int| 0 <= i < k implies #[trigger] ms@[i] <= s[i] by {
                            if i != id {
                                assert(ms@[i] == prev[i]);
                            }
                        }
                    }
                }
            }
        }
        idx -= 1;
    }
    assert forall|id: int| 0 <= id < k implies #[trigger] ms@[id] == black_start_bound(sizes@, cells@, cand@, id) by {
    }
    // a cell that neither block `id` nor a later block can cover
    let mut j = n;
    let mut idx = k;
    while idx > 0
        invariant
            n == cells@.len(),
            k == sizes@.len(),
            line_ok(sizes@, n as int),
            cand@.len() == n,
            sound_cands(sizes@, cells@, cand@),
            idx <= k,
            j <= n,
            ms@.len() == k,
            forall|id: int| 0 <= id < k ==> #[trigger] ms@[id] <= n,
            forall|s: Seq<int>|
                #[trigger] consistent(sizes@, cells@, s) ==> forall|id: int|
                    0 <= id < k ==> #[trigger] ms@[id] <= s[id],
            j == (if idx == k {
                n as int
            } else {
                last_ending(cand@, idx as int, n as int)
            }),
            forall|id: int| 0 <= id < idx ==> #[trigger] ms@[id] == black_start_bound(sizes@, cells@, cand@, id),
            forall|id: int| idx <= id < k ==> #[trigger] ms@[id] == min_start(sizes@, cells@, cand@, id),
        decreases idx,
    {
        let id = idx - 1;
        proof {
            if idx < k {
                lemma_last_ending_chain(cand@, id as int, id + 1, n as int);
            }
        }
        j = last_ending_by(cand, j, id);
        if ms[id] < j {
            proof {
                assert forall|s: Seq<int>| #[trigger] consistent(sizes@, cells@, s) implies j <= s[id as int] by {
                    assert(cand_sound(sizes@, cand@, s));
                    assert(cand@[j - 1] == cand@[j - 1] && s[id as int] == s[id as int]);
                }
            }
            let ghost prev = ms@;
            ms.set(id, j);
            proof {
                assert forall|s: Seq<int>|
                    #[trigger] consistent(sizes@, cells@, s) implies forall|i: int|
                        0 <= i < k ==> #[trigger] ms@[i] <= s[i] by {
                    assert forall|i: int| 0 <= i < k implies #[trigger] ms@[i] <= s[i] by {
                        if i != id {
                            assert(ms@[i] == prev[i]);
                        }
                    }
                }
            }
        }
        idx -= 1;
    }
    ms
}


/// The start of a window of `size` cells without white cells, searched from
/// `l` to the right, jumping past the last white cell of each window in the
/// way; once a window would pass the end of the line, the position reached.
pub open spec fn fit_left(cells: Seq<CellState>, l: int, size: int) -> int
    decreases cells.len() - l,
{
    if l + size > cells.len() {
        l
    } else {
        match last_white(cells, l, l + size) {
            None => l,
            Some(w) => {
                proof {
                    lemma_last_white(cells, l, l + size);
                }
                fit_left(cells, w + 1, size)
            },
        }
    }
}

/// Where block `id` starts at the earliest when the blocks are pushed to
/// the left in order: at or after [`min_start`] and one cell past the end
/// of the previous block, at the first window that fits ([`fit_left`]).
pub open spec fn left_start(sizes: Seq<usize>, cells: Seq<CellState>, cand: Seq<Range<usize>>, id: int) -> int
    decreases id,
{
    let prev = if id <= 0 {
        0
    } else {
        left_start(sizes, cells, cand, id - 1) + sizes[id - 1] + 1
    };
    let ms = min_start(sizes, cells, cand, id);
    fit_left(cells, if prev < ms { ms } else { prev }, sizes[id] as int)
}

/// The end of the candidates of cell `j` after ruling blocks `0..lim` out
/// of the cells before their earliest start: the first of those blocks
/// that must start after `j`, or the old end if it is smaller.
pub open spec fn left_end_upto(sizes: Seq<usize>, cells: Seq<CellState>, cand: Seq<Range<usize>>, j: int, lim: int) -> int
    decreases lim,
{
    if lim <= 0 {
        cand[j].end as int
    } else {
        let e = left_end_upto(sizes, cells, cand, j, lim - 1);
        if j < left_start(sizes, cells, cand, lim - 1) && lim - 1 < e {
            lim - 1
        } else {
            e
        }
    }
}

/// The candidates after pushing the blocks to the left.
pub open spec fn pushed_left(sizes: Seq<usize>, cells: Seq<CellState>, cand: Seq<Range<usize>>) -> Seq<Range<usize>> {
    Seq::new(
        cand.len(),
        |j: int|
            Range {
                start: cand[j].start,
                end: left_end_upto(sizes, cells, cand, j, sizes.len() as int) as usize,
            },
    )
}

/// Pushes every block as far left as the cells allow, recording where each
/// block can start at the earliest and ruling the blocks out of the cells
/// before that. Returns whether a candidate range shrank.
fn push_left(
    sizes: &[usize],
    cells: &[CellState],
    cand: &mut Vec<Range<usize>>,
    blocks: &mut Vec<BlockInfo>,
) -> (changed: bool)
    requires
        line_ok(sizes@, cells@.len() as int),
        old(cand)@.len() == cells@.len(),
        cand_bounded(old(cand)@, sizes@.len() as int),
        sound_cands(sizes@, cells@, old(cand)@),
        blocks_match(old(blocks)@, sizes@),
    ensures
        final(cand)@.len() == cells@.len(),
        cand_bounded(final(cand)@, sizes@.len() as int),
        sound_cands(sizes@, cells@, final(cand)@),
        blocks_match(final(blocks)@, sizes@),
        forall|id: int|
            0 <= id < sizes@.len() ==> (#[trigger] final(blocks)@[id]).possible_placement.end
                == old(blocks)@[id].possible_placement.end,
        forall|id: int|
            0 <= id < sizes@.len() ==> (#[trigger] final(blocks)@[id]).possible_placement.start <= 2
                * cells@.len() + 1,
        forall|s: Seq<int>| #[trigger] consistent(sizes@, cells@, s) ==> starts_placed(final(blocks)@, s),
        cand_measure(final(cand)@, sizes@.len() as int) + (if changed {
            1int
        } else {
            0int
        }) <= cand_measure(old(cand)@, sizes@.len() as int),
        forall|id: int|
            0 <= id < sizes@.len() ==> (#[trigger] final(blocks)@[id]).possible_placement.start == left_start(
                sizes@,
                cells@,
                old(cand)@,
                id,
            ),
        final(cand)@ == pushed_left(sizes@, cells@, old(cand)@),
        changed <==> final(cand)@ != old(cand)@,
{
    let n = cells.len();
    let k = sizes.len();
    let ghost sz = sizes@;
    let ghost cs = cells@;
    let ghost c0 = cand@;
    let ms = left_min_starts(sizes, cells, cand);
    let mut changed = false;
    let mut l: usize = 0;
    let mut id: usize = 0;
    while id < k
        invariant
            c0 == old(cand)@,
            c0.len() == n,
            forall|i: int| 0 <= i < k ==> #[trigger] ms@[i] == min_start(sz, cs, c0, i),
            l == (if id == 0 {
                0
            } else {
                left_start(sz, cs, c0, id - 1) + sz[id - 1] + 1
            }),
            forall|i: int| 0 <= i < id ==> (#[trigger] blocks@[i]).possible_placement.start == left_start(sz, cs, c0, i),
            forall|j: int|
                0 <= j < n ==> (#[trigger] cand@[j]).start == c0[j].start && cand@[j].end == left_end_upto(
                    sz,
                    cs,
                    c0,
                    j,
                    id as int,
                ),
            !changed ==> cand@ == c0,
            changed ==> exists|j: int| 0 <= j < n && #[trigger] cand@[j].end < c0[j].end,
            forall|j: int| 0 <= j < n ==> #[trigger] cand@[j].end <= c0[j].end,
            n == cs.len(),
            k == sz.len(),
            sz == sizes@,
            cs == cells@,
            line_ok(sz, n as int),
            ms@.len() == k,
            forall|i: int| 0 <= i < k ==> #[trigger] ms@[i] <= n,
            forall|s: Seq<int>|
                #[trigger] consistent(sz, cs, s) ==> forall|i: int|
                    0 <= i < k ==> #[trigger] ms@[i] <= s[i],
            id <= k,
            l <= n + seq_sum(sz.take(id as int)) + id,
            forall|s: Seq<int>| #[trigger] consistent(sz, cs, s) ==> (id < k ==> l <= s[id as int]),
            cand@.len() == n,
            cand_bounded(cand@, k as int),
            sound_cands(sz, cs, cand@),
            blocks_match(blocks@, sz),
            forall|i: int|
                0 <= i < k ==> (#[trigger] blocks@[i]).possible_placement.end
                    == old(blocks)@[i].possible_placement.end,
            forall|i: int| 0 <= i < id ==> (#[trigger] blocks@[i]).possible_placement.start <= 2 * n + 1,
            forall|s: Seq<int>|
                #[trigger] consistent(sz, cs, s) ==> forall|i: int|
                    0 <= i < id ==> (#[trigger] blocks@[i]).possible_placement.start <= s[i],
            cand_measure(cand@, k as int) + (if changed {
                1int
            } else {
                0int
            }) <= cand_measure(old(cand)@, k as int),
        decreases k - id,
    {
        proof {
            lemma_prefix_room(sz, n as int, id as int);
            lemma_prefix_room(sz, n as int, id + 1);
            lemma_sum_take_push(sz, id as int);
        }
        if l < ms[id] {
            l = ms[id];
        }
        let size = sizes[id];
        assert(size <= n) by {
            lemma_sum_take_push(sz, id as int);
            lemma_sum_nonneg(sz.take(id as int));
        }
        proof {
            lemma_sum_nonneg(sz.take(id as int));
        }
        let ghost target = fit_left(cs, l as int, size as int);
        assert(target == left_start(sz, cs, c0, id as int));
        let mut r = l + size;
        let mut searching = r <= n;
        while searching
            invariant
                n == cs.len(),
                cs == cells@,
                sz == sizes@,
                k == sz.len(),
                id < k,
                size == sz[id as int],
                size <= n,
                line_ok(sz, n as int),
                r == l + size,
                searching ==> r <= n,
                fit_left(cs, l as int, size as int) == target,
                !searching ==> target == l,
                seq_sum(sz.take(id as int)) >= 0,
                l <= n + seq_sum(sz.take(id as int)) + id,
                forall|s: Seq<int>| #[trigger] consistent(sz, cs, s) ==> l <= s[id as int],
            decreases (if searching {
                n + 2 - l
            } else {
                0
            }),
        {
            let found = last_white_in(cells, l, r);
            proof {
                lemma_last_white(cs, l as int, r as int);
            }
            match found {
                Some(w) => {
                    proof {
                        assert forall|s: Seq<int>| #[trigger] consistent(sz, cs, s) implies w + 1 <= s[id as int] by {
                            if s[id as int] <= w {
                                assert(covers(sz, s, id as int, w as int));
                            }
                        }
                        assert(last_white(cs, l as int, r as int) == Some(w as int));
                        assert(fit_left(cs, l as int, size as int) == fit_left(cs, w + 1, size as int));
                    }
                    l = w + 1;
                    r = l + size;
                    if r > n {
                        searching = false;
                        proof {
                            assert(fit_left(cs, l as int, size as int) == l);
                        }
                    }
                },
                None => {
                    proof {
                        assert(last_white(cs, l as int, r as int) == None::<int>);
                        assert(fit_left(cs, l as int, size as int) == l);
                    }
                    searching = false;
                },
            }
        }
        let end = blocks[id].possible_placement.end;
        let ghost prev_blocks = blocks@;
        blocks.set(id, BlockInfo { size, possible_placement: l..end });
        let stop = if l < n {
            l
        } else {
            n
        };
        let ghost cand_before = cand@;
        let ghost changed_before = changed;
        let mut j: usize = 0;
        while j < stop
            invariant
                n == cs.len(),
                cs == cells@,
                sz == sizes@,
                k == sz.len(),
                id < k,
                stop <= n,
                stop <= l,
                stop == (if l < n { l } else { n }),
                l == left_start(sz, cs, c0, id as int),
                c0 == old(cand)@,
                c0.len() == n,
                cand_before.len() == n,
                changed_before ==> exists|jj: int| 0 <= jj < n && #[trigger] cand_before[jj].end < c0[jj].end,
                forall|jj: int| 0 <= jj < n ==> #[trigger] cand_before[jj].end <= c0[jj].end,
                !changed_before ==> cand_before == c0,
                forall|jj: int|
                    0 <= jj < n ==> (#[trigger] cand_before[jj]).start == c0[jj].start && cand_before[jj].end
                        == left_end_upto(sz, cs, c0, jj, id as int),
                forall|jj: int|
                    0 <= jj < j ==> (#[trigger] cand@[jj]).start == c0[jj].start && cand@[jj].end == left_end_upto(
                        sz,
                        cs,
                        c0,
                        jj,
                        id + 1,
                    ),
                forall|jj: int| j <= jj < n ==> #[trigger] cand@[jj] == cand_before[jj],
                !changed ==> cand@ == cand_before && !changed_before,
                changed ==> changed_before || exists|jj: int| 0 <= jj < n && #[trigger] cand@[jj].end < cand_before[jj].end,
                forall|jj: int| 0 <= jj < n ==> #[trigger] cand@[jj].end <= cand_before[jj].end,
                forall|s: Seq<int>| #[trigger] consistent(sz, cs, s) ==> l <= s[id as int],
                cand@.len() == n,
                cand_bounded(cand@, k as int),
                sound_cands(sz, cs, cand@),
                cand_measure(cand@, k as int) + (if changed {
                    1int
                } else {
                    0int
                }) <= cand_measure(old(cand)@, k as int),
            decreases stop - j,
        {
            if cand[j].end > id {
                let st = cand[j].start;
                proof {
                    lemma_tighten_end(sz, cs, cand@, j as int, id);
                    lemma_measure_update(cand@, k as int, j as int, st..id);
                }
                let ghost before_set = cand@;
                cand.set(j, st..id);
                changed = true;
                proof {
                    assert(cand@[j as int].end < cand_before[j as int].end);
                    assert forall|jj: int| j + 1 <= jj < n implies #[trigger] cand@[jj] == cand_before[jj] by {
                        assert(cand@[jj] == before_set[jj]);
                    }
                    assert forall|jj: int| 0 <= jj < j implies (#[trigger] cand@[jj]).start == c0[jj].start
                        && cand@[jj].end == left_end_upto(sz, cs, c0, jj, id + 1) by {
                        assert(cand@[jj] == before_set[jj]);
                    }
                }
            }
            j += 1;
        }
        proof {
            assert forall|jj: int|
                0 <= jj < n implies (#[trigger] cand@[jj]).start == c0[jj].start && cand@[jj].end == left_end_upto(
                    sz,
                    cs,
                    c0,
                    jj,
                    id + 1,
                ) by {
                if jj >= j {
                    assert(cand@[jj] == cand_before[jj]);
                    assert(!(jj < l));
                }
            }
            if changed && !changed_before {
                let jj = choose|jj: int| 0 <= jj < n && #[trigger] cand@[jj].end < cand_before[jj].end;
                assert(cand@[jj].end < c0[jj].end);
            }
            if changed_before {
                let jj = choose|jj: int| 0 <= jj < n && #[trigger] cand_before[jj].end < c0[jj].end;
                assert(cand@[jj].end <= cand_before[jj].end);
                assert(cand@[jj].end < c0[jj].end);
            }
            assert forall|jj: int| 0 <= jj < n implies #[trigger] cand@[jj].end <= c0[jj].end by {
                assert(cand@[jj].end <= cand_before[jj].end);
            }
        }
        proof {
            assert forall|s: Seq<int>| #[trigger] consistent(sz, cs, s) implies (id + 1 < k ==> r + 1 <= s[id + 1]) by {
                if id + 1 < k {
                    lemma_order(sz, n as int, s, id as int, id + 1);
                }
            }
            assert forall|s: Seq<int>|
                #[trigger] consistent(sz, cs, s) implies forall|i: int|
                    0 <= i < id + 1 ==> (#[trigger] blocks@[i]).possible_placement.start <= s[i] by {
                assert forall|i: int| 0 <= i < id + 1 implies (#[trigger] blocks@[i]).possible_placement.start <= s[i] by {
                    if i < id {
                        assert(blocks@[i] == prev_blocks[i]);
                    }
                }
            }
        }
        l = r + 1;
        id += 1;
    }
    proof {
        assert(cand@ =~= pushed_left(sz, cs, c0));
        if changed {
            let jj = choose|jj: int| 0 <= jj < n && #[trigger] cand@[jj].end < c0[jj].end;
            assert(cand@[jj] != c0[jj]);
        }
    }
    changed
}


/// The upper bound on the end of block `id` from the black cells: the
/// first black cell that only blocks from `id` on can cover must be within
/// the block's reach.
pub open spec fn black_end_bound(sizes: Seq<usize>, cells: Seq<CellState>, cand: Seq<Range<usize>>, id: int) -> int {
    let n = cells.len() as int;
    let j1 = first_black_starting(cells, cand, id, 0);
    if j1 < n && j1 + sizes[id] <= n {
        j1 + sizes[id]
    } else {
        n
    }
}

/// Where block `id` can end at the latest, from the black cells and the
/// candidates: within [`black_end_bound`], and before the first cell that
/// only later blocks can cover.
pub open spec fn max_end(sizes: Seq<usize>, cells: Seq<CellState>, cand: Seq<Range<usize>>, id: int) -> int {
    let b1 = black_end_bound(sizes, cells, cand, id);
    let j2 = first_start_after(cand, id, 0);
    if j2 < b1 {
        j2
    } else {
        b1
    }
}

/// Upper bounds on the end of each block from the black cells and the
/// candidate ranges (the first half of pushing the blocks to the right).
fn right_max_ends(sizes: &[usize], cells: &[CellState], cand: &Vec<Range<usize>>) -> (me: Vec<usize>)
    requires
        line_ok(sizes@, cells@.len() as int),
        cand@.len() == cells@.len(),
        sound_cands(sizes@, cells@, cand@),
    ensures
        me@.len() == sizes@.len(),
        forall|id: int| 0 <= id < me@.len() ==> #[trigger] me@[id] <= cells@.len(),
        forall|s: Seq<int>|
            #[trigger] consistent(sizes@, cells@, s) ==> forall|id: int|
                0 <= id < me@.len() ==> s[id] + sizes@[id] <= #[trigger] me@[id],
        forall|id: int| 0 <= id < me@.len() ==> #[trigger] me@[id] == max_end(sizes@, cells@, cand@, id),
{
    let n = cells.len();
    let k = sizes.len();
    let mut me: Vec<usize> = Vec::new();
    let mut i: usize = 0;
    while i < k
        invariant
            i <= k,
            k == sizes@.len(),
            n == cells@.len(),
            me@.len() == i,
            forall|id: int| 0 <= id < i ==> #[trigger] me@[id] == n,
        decreases k - i,
    {
        me.push(n);
        i += 1;
    }
    assert forall|s: Seq<int>|
        #[trigger] consistent(sizes@, cells@, s) implies forall|id: int|
            0 <= id < me@.len() ==> s[id] + sizes@[id] <= #[trigger] me@[id] by {
        assert forall|id: int| 0 <= id < me@.len() implies s[id] + sizes@[id] <= #[trigger] me@[id] by {
            assert(s[id] + sizes@[id] <= n);
        }
    }
    // a black cell that only block `id` or a later one can cover
    let mut j: usize = 0;
    let mut id: usize = 0;
    while id < k
        invariant
            n == cells@.len(),
            k == sizes@.len(),
            line_ok(sizes@, n as int),
            cand@.len() == n,
            sound_cands(sizes@, cells@, cand@),
            id <= k,
            j <= n,
            me@.len() == k,
            forall|i: int| 0 <= i < k ==> #[trigger] me@[i] <= n,
            forall|s: Seq<int>|
                #[trigger] consistent(sizes@, cells@, s) ==> forall|i: int|
                    0 <= i < k ==> s[i] + sizes@[i] <= #[trigger] me@[i],
            j == (if id == 0 {
                0
            } else {
                first_black_starting(cells@, cand@, id - 1, 0)
            }),
            forall|i: int| id <= i < k ==> #[trigger] me@[i] == n,
            forall|i: int| 0 <= i < id ==> #[trigger] me@[i] == black_end_bound(sizes@, cells@, cand@, i),
        decreases k - id,
    {
        proof {
            if id > 0 {
                lemma_first_black_starting_chain(cells@, cand@, id - 1, id as int, 0);
            }
        }
        j = first_black_starting_from(cells, cand, j, id);
        proof {
            lemma_size_le(sizes@, n as int, id as int);
        }
        if j < n && j + sizes[id] <= n {
            let bound = j + sizes[id];
            if bound < me[id] {
                proof {
                    assert forall|s: Seq<int>| #[trigger] consistent(sizes@, cells@, s) implies s[id as int] + sizes@[id as int] <= bound by {
                        lemma_black_pulls_start(sizes@, cells@, cand@, s, j as int, id as int);
                    }
                }
                let ghost prev = me@;
                me.set(id, bound);
                proof {
                    assert forall|s: Seq<int>|
                        #[trigger] consistent(sizes@, cells@, s) implies forall|i: int|
                            0 <= i < k ==> s[i] + sizes@[i] <= #[trigger] me@[i] by {
                        assert forall|i: int| 0 <= i < k implies s[i] + sizes@[i] <= #[trigger] me@[i] by {
                            if i != id {
                                assert(me@[i] == prev[i]);
                            }
                        }
                    }
                }
            }
        }
        id += 1;
    }
    // a cell that neither block `id` nor an earlier block can cover
    let mut j: usize = 0;
    let mut id: usize = 0;
    while id < k
        invariant
            n == cells@.len(),
            k == sizes@.len(),
            line_ok(sizes@, n as int),
            cand@.len() == n,
            sound_cands(sizes@, cells@, cand@),
            id <= k,
            j <= n,
            me@.len() == k,
            forall|i: int| 0 <= i < k ==> #[trigger] me@[i] <= n,
            forall|s: Seq<int>|
                #[trigger] consistent(sizes@, cells@, s) ==> forall|i: int|
                    0 <= i < k ==> s[i] + sizes@[i] <= #[trigger] me@[i],
            j == (if id == 0 {
                0
            } else {
                first_start_after(cand@, id - 1, 0)
            }),
            forall|i: int| id <= i < k ==> #[trigger] me@[i] == black_end_bound(sizes@, cells@, cand@, i),
            forall|i: int| 0 <= i < id ==> #[trigger] me@[i] == max_end(sizes@, cells@, cand@, i),
        decreases k - id,
    {
        proof {
            if id > 0 {
                lemma_first_starting_after_chain(cand@, id - 1, id as int, 0);
            }
        }
        j = first_starting_after(cand, j, id);
        if j < me[id] {
            proof {
                assert forall|s: Seq<int>| #[trigger] consistent(sizes@, cells@, s) implies s[id as int] + sizes@[id as int] <= j by {
                    assert(cand_sound(sizes@, cand@, s));
                    assert(cand@[j as int] == cand@[j as int] && s[id as int] == s[id as int]);
                }
            }
            let ghost prev = me@;
            me.set(id, j);
            proof {
                assert forall|s: Seq<int>|
                    #[trigger] consistent(sizes@, cells@, s) implies forall|i: int|
                        0 <= i < k ==> s[i] + sizes@[i] <= #[trigger] me@[i] by {
                    assert forall|i: int| 0 <= i < k implies s[i] + sizes@[i] <= #[trigger] me@[i] by {
                        if i != id {
                            assert(me@[i] == prev[i]);
                        }
                    }
                }
            }
        }
        id += 1;
    }
    me
}

/// The end of a window of `size` cells without white cells, searched from
/// `r` to the left, jumping before the first white cell of each window in
/// the way; once a window would pass the start of the line, the position
/// reached.
pub open spec fn fit_right(cells: Seq<CellState>, r: int, size: int) -> int
    decreases r,
{
    if size > r {
        r
    } else {
        match first_white(cells, r - size, r) {
            None => r,
            Some(w) => {
                proof {
                    lemma_first_white(cells, r - size, r);
                }
                if 0 <= w < r {
                    fit_right(cells, w, size)
                } else {
                    r
                }
            },
        }
    }
}

/// The window that [`fit_left`] finds is not left of where the search
/// starts, and when it lies on the line it holds no white cell.
proof fn lemma_fit_left(cells: Seq<CellState>, l: int, size: int)
    ensures
        l <= fit_left(cells, l, size),
        fit_left(cells, l, size) + size <= cells.len() ==> forall|t: int|
            fit_left(cells, l, size) <= t < fit_left(cells, l, size) + size ==> #[trigger] cells[t]
                != CellState::White,
    decreases cells.len() - l,
{
    if l + size <= cells.len() {
        lemma_last_white(cells, l, l + size);
        if let Some(w) = last_white(cells, l, l + size) {
            lemma_fit_left(cells, w + 1, size);
        }
    }
}

/// The window that [`fit_right`] finds is not right of where the search
/// starts, and when it lies on the line it holds no white cell.
proof fn lemma_fit_right(cells: Seq<CellState>, r: int, size: int)
    requires
        0 <= size,
    ensures
        fit_right(cells, r, size) <= r,
        fit_right(cells, r, size) - size >= 0 ==> forall|t: int|
            fit_right(cells, r, size) - size <= t < fit_right(cells, r, size) ==> #[trigger] cells[t]
                != CellState::White,
    decreases r,
{
    if size <= r {
        lemma_first_white(cells, r - size, r);
        if let Some(w) = first_white(cells, r - size, r) {
            lemma_fit_right(cells, w, size);
        }
    }
}

/// The placements of blocks after the narrowing: the leftmost and the
/// rightmost window of every block hold no white cell, and the blocks keep
/// their order with a gap between neighbours.
pub proof fn law_placements(sizes: Seq<usize>, cells: Seq<CellState>, cand: Seq<Range<usize>>, id: int)
    requires
        0 <= id < sizes.len(),
        forall|i: int|
            0 <= i < sizes.len() ==> left_start(sizes, cells, cand, i) + sizes[i] <= #[trigger] right_end(
                sizes,
                cells,
                cand,
                i,
            ),
        forall|i: int| 0 <= i < sizes.len() ==> #[trigger] right_end(sizes, cells, cand, i) <= cells.len(),
    ensures
        forall|t: int|
            left_start(sizes, cells, cand, id) <= t < left_start(sizes, cells, cand, id) + sizes[id] ==> #[trigger] cells[t]
                != CellState::White,
        forall|t: int|
            right_end(sizes, cells, cand, id) - sizes[id] <= t < right_end(sizes, cells, cand, id) ==> #[trigger] cells[t]
                != CellState::White,
        id + 1 < sizes.len() ==> left_start(sizes, cells, cand, id) + sizes[id] + 1 <= left_start(
            sizes,
            cells,
            cand,
            id + 1,
        ),
        id + 1 < sizes.len() ==> right_end(sizes, cells, cand, id) + sizes[id + 1] + 1 <= right_end(
            sizes,
            cells,
            cand,
            id + 1,
        ),
{
    let s = left_start(sizes, cells, cand, id);
    let e = right_end(sizes, cells, cand, id);
    let prev = if id <= 0 {
        0
    } else {
        left_start(sizes, cells, cand, id - 1) + sizes[id - 1] + 1
    };
    let ms = min_start(sizes, cells, cand, id);
    lemma_fit_left(cells, if prev < ms { ms } else { prev }, sizes[id] as int);
    assert(s + sizes[id] <= e);
    assert(e <= cells.len());
    let n = cells.len() as int;
    let next = if id + 1 >= sizes.len() || id < 0 {
        n
    } else {
        let e1 = right_end(sizes, cells, cand, id + 1);
        let s1 = sizes[id + 1] as int;
        if s1 <= e1 && e1 - s1 > 0 {
            e1 - s1 - 1
        } else {
            n
        }
    };
    let me = max_end(sizes, cells, cand, id);
    let start_r = if me < next { me } else { next };
    assert(e == fit_right(cells, start_r, sizes[id] as int));
    lemma_fit_right(cells, start_r, sizes[id] as int);
    if id + 1 < sizes.len() {
        let s2 = left_start(sizes, cells, cand, id + 1);
        let ms2 = min_start(sizes, cells, cand, id + 1);
        let p2 = s + sizes[id] + 1;
        lemma_fit_left(cells, if p2 < ms2 { ms2 } else { p2 }, sizes[id + 1] as int);
        let e1 = right_end(sizes, cells, cand, id + 1);
        assert(s2 + sizes[id + 1] <= e1);
    }
}

/// Where block `id` ends at the latest when the blocks are pushed to the
/// right in order from the last one: at or before [`max_end`] and one cell
/// before the start of the next block, at the first window that fits
/// ([`fit_right`]).
pub open spec fn right_end(sizes: Seq<usize>, cells: Seq<CellState>, cand: Seq<Range<usize>>, id: int) -> int
    decreases sizes.len() - id,
{
    let n = cells.len() as int;
    let next = if id + 1 >= sizes.len() || id < 0 {
        n
    } else {
        let e = right_end(sizes, cells, cand, id + 1);
        let s1 = sizes[id + 1] as int;
        if s1 <= e && e - s1 > 0 {
            e - s1 - 1
        } else {
            n
        }
    };
    let me = max_end(sizes, cells, cand, id);
    fit_right(cells, if me < next { me } else { next }, sizes[id] as int)
}

/// The start of the candidates of cell `j` after ruling blocks `id..` out
/// of the cells from their latest end on: one past the last of those blocks
/// that must end at or before `j`, or the old start if it is larger.
pub open spec fn right_start_from(sizes: Seq<usize>, cells: Seq<CellState>, cand: Seq<Range<usize>>, j: int, id: int) -> int
    decreases sizes.len() - id,
{
    if id >= sizes.len() || id < 0 {
        cand[j].start as int
    } else {
        let st = right_start_from(sizes, cells, cand, j, id + 1);
        if right_end(sizes, cells, cand, id) <= j && st < id + 1 {
            id + 1
        } else {
            st
        }
    }
}

/// The candidates after pushing the blocks to the right.
pub open spec fn pushed_right(sizes: Seq<usize>, cells: Seq<CellState>, cand: Seq<Range<usize>>) -> Seq<Range<usize>> {
    Seq::new(
        cand.len(),
        |j: int|
            Range {
                start: right_start_from(sizes, cells, cand, j, 0) as usize,
                end: cand[j].end,
            },
    )
}

/// Pushes every block as far right as the cells allow, recording where each
/// block can end at the latest and ruling the blocks out of the cells after
/// that. Returns whether a candidate range shrank.
fn push_right(
    sizes: &[usize],
    cells: &[CellState],
    cand: &mut Vec<Range<usize>>,
    blocks: &mut Vec<BlockInfo>,
) -> (changed: bool)
    requires
        line_ok(sizes@, cells@.len() as int),
        old(cand)@.len() == cells@.len(),
        cand_bounded(old(cand)@, sizes@.len() as int),
        sound_cands(sizes@, cells@, old(cand)@),
        blocks_match(old(blocks)@, sizes@),
    ensures
        final(cand)@.len() == cells@.len(),
        cand_bounded(final(cand)@, sizes@.len() as int),
        sound_cands(sizes@, cells@, final(cand)@),
        blocks_match(final(blocks)@, sizes@),
        forall|id: int|
            0 <= id < sizes@.len() ==> (#[trigger] final(blocks)@[id]).possible_placement.start
                == old(blocks)@[id].possible_placement.start,
        forall|id: int|
            0 <= id < sizes@.len() ==> (#[trigger] final(blocks)@[id]).possible_placement.end
                <= cells@.len(),
        forall|s: Seq<int>| #[trigger] consistent(sizes@, cells@, s) ==> ends_placed(final(blocks)@, s),
        cand_measure(final(cand)@, sizes@.len() as int) + (if changed {
            1int
        } else {
            0int
        }) <= cand_measure(old(cand)@, sizes@.len() as int),
        forall|id: int|
            0 <= id < sizes@.len() ==> (#[trigger] final(blocks)@[id]).possible_placement.end == right_end(
                sizes@,
                cells@,
                old(cand)@,
                id,
            ),
        final(cand)@ == pushed_right(sizes@, cells@, old(cand)@),
        changed <==> final(cand)@ != old(cand)@,
{
    let n = cells.len();
    let k = sizes.len();
    let ghost sz = sizes@;
    let ghost cs = cells@;
    let ghost c0 = cand@;
    let me = right_max_ends(sizes, cells, cand);
    let mut changed = false;
    let mut r: usize = n;
    let mut idx: usize = k;
    while idx > 0
        invariant
            c0 == old(cand)@,
            c0.len() == n,
            forall|i: int| 0 <= i < k ==> #[trigger] me@[i] == max_end(sz, cs, c0, i),
            r == (if idx == k {
                n as int
            } else {
                let e = right_end(sz, cs, c0, idx as int);
                let s1 = sz[idx as int] as int;
                if s1 <= e && e - s1 > 0 {
                    e - s1 - 1
                } else {
                    n as int
                }
            }),
            forall|i: int| idx <= i < k ==> (#[trigger] blocks@[i]).possible_placement.end == right_end(sz, cs, c0, i),
            forall|j: int|
                0 <= j < n ==> (#[trigger] cand@[j]).end == c0[j].end && cand@[j].start == right_start_from(
                    sz,
                    cs,
                    c0,
                    j,
                    idx as int,
                ),
            !changed ==> cand@ == c0,
            changed ==> exists|j: int| 0 <= j < n && #[trigger] cand@[j].start > c0[j].start,
            forall|j: int| 0 <= j < n ==> #[trigger] cand@[j].start >= c0[j].start,
            n == cs.len(),
            k == sz.len(),
            sz == sizes@,
            cs == cells@,
            line_ok(sz, n as int),
            me@.len() == k,
            forall|i: int| 0 <= i < k ==> #[trigger] me@[i] <= n,
            forall|s: Seq<int>|
                #[trigger] consistent(sz, cs, s) ==> forall|i: int|
                    0 <= i < k ==> s[i] + sz[i] <= #[trigger] me@[i],
            idx <= k,
            r <= n,
            forall|s: Seq<int>|
                #[trigger] consistent(sz, cs, s) ==> (idx > 0 ==> s[idx - 1] + sz[idx - 1] <= r),
            cand@.len() == n,
            cand_bounded(cand@, k as int),
            sound_cands(sz, cs, cand@),
            blocks_match(blocks@, sz),
            forall|i: int|
                0 <= i < k ==> (#[trigger] blocks@[i]).possible_placement.start
                    == old(blocks)@[i].possible_placement.start,
            forall|i: int| idx <= i < k ==> (#[trigger] blocks@[i]).possible_placement.end <= n,
            forall|s: Seq<int>|
                #[trigger] consistent(sz, cs, s) ==> forall|i: int|
                    idx <= i < k ==> s[i] + sz[i] <= (#[trigger] blocks@[i]).possible_placement.end,
            cand_measure(cand@, k as int) + (if changed {
                1int
            } else {
                0int
            }) <= cand_measure(old(cand)@, k as int),
        decreases idx,
    {
        let id = idx - 1;
        if me[id] < r {
            r = me[id];
        }
        let size = sizes[id];
        let ghost target = fit_right(cs, r as int, size as int);
        assert(target == right_end(sz, cs, c0, id as int));
        let mut l: usize = 0;
        let mut fits = size <= r;
        if fits {
            l = r - size;
            let mut searching = true;
            while searching
                invariant
                    n == cs.len(),
                    cs == cells@,
                    sz == sizes@,
                    k == sz.len(),
                    id < k,
                    size == sz[id as int],
                    r <= n,
                    fits ==> l + size == r,
                    !fits ==> !searching,
                    forall|s: Seq<int>| #[trigger] consistent(sz, cs, s) ==> s[id as int] + size <= r,
                    fits == (size <= r),
                    fit_right(cs, r as int, size as int) == target,
                    !searching ==> target == r,
                decreases (if searching {
                    r + 1
                } else {
                    0
                }),
            {
                let found = first_white_in(cells, l, r);
                proof {
                    lemma_first_white(cs, l as int, r as int);
                }
                match found {
                    Some(w) => {
                        proof {
                            assert forall|s: Seq<int>| #[trigger] consistent(sz, cs, s) implies s[id as int] + size <= w by {
                                if s[id as int] + size > w {
                                    assert(covers(sz, s, id as int, w as int));
                                }
                            }
                            assert(first_white(cs, l as int, r as int) == Some(w as int));
                            assert(fit_right(cs, r as int, size as int) == fit_right(cs, w as int, size as int));
                        }
                        r = w;
                        if size <= r {
                            l = r - size;
                        } else {
                            fits = false;
                            searching = false;
                            proof {
                                assert(fit_right(cs, r as int, size as int) == r);
                            }
                        }
                    },
                    None => {
                        proof {
                            assert(first_white(cs, l as int, r as int) == None::<int>);
                            assert(fit_right(cs, r as int, size as int) == r);
                        }
                        searching = false;
                    },
                }
            }
        }
        assert(r == target);
        let start = blocks[id].possible_placement.start;
        let ghost prev_blocks = blocks@;
        blocks.set(id, BlockInfo { size, possible_placement: start..r });
        let ghost cand_before = cand@;
        let ghost changed_before = changed;
        let mut j: usize = r;
        while j < n
            invariant
                n == cs.len(),
                cs == cells@,
                sz == sizes@,
                k == sz.len(),
                id < k,
                r <= j,
                r == right_end(sz, cs, c0, id as int),
                c0 == old(cand)@,
                c0.len() == n,
                cand_before.len() == n,
                forall|jj: int|
                    0 <= jj < n ==> (#[trigger] cand_before[jj]).end == c0[jj].end && cand_before[jj].start
                        == right_start_from(sz, cs, c0, jj, id + 1),
                forall|jj: int|
                    r <= jj < j ==> (#[trigger] cand@[jj]).end == c0[jj].end && cand@[jj].start == right_start_from(
                        sz,
                        cs,
                        c0,
                        jj,
                        id as int,
                    ),
                forall|jj: int| (0 <= jj < r || j <= jj < n) ==> #[trigger] cand@[jj] == cand_before[jj],
                changed_before ==> exists|jj: int| 0 <= jj < n && #[trigger] cand_before[jj].start > c0[jj].start,
                forall|jj: int| 0 <= jj < n ==> #[trigger] cand_before[jj].start >= c0[jj].start,
                !changed_before ==> cand_before == c0,
                !changed ==> cand@ == cand_before && !changed_before,
                changed ==> changed_before || exists|jj: int| 0 <= jj < n && #[trigger] cand@[jj].start > cand_before[jj].start,
                forall|jj: int| 0 <= jj < n ==> #[trigger] cand@[jj].start >= cand_before[jj].start,
                forall|s: Seq<int>| #[trigger] consistent(sz, cs, s) ==> s[id as int] + sz[id as int] <= r,
                cand@.len() == n,
                cand_bounded(cand@, k as int),
                sound_cands(sz, cs, cand@),
                cand_measure(cand@, k as int) + (if changed {
                    1int
                } else {
                    0int
                }) <= cand_measure(old(cand)@, k as int),
            decreases n - j,
        {
            if cand[j].start < id + 1 {
                let en = cand[j].end;
                proof {
                    lemma_tighten_start(sz, cs, cand@, j as int, id);
                    lemma_measure_update(cand@, k as int, j as int, ((id + 1) as usize)..en);
                }
                let ghost before_set = cand@;
                cand.set(j, (id + 1)..en);
                changed = true;
                proof {
                    assert(cand@[j as int].start > cand_before[j as int].start);
                    assert forall|jj: int| (0 <= jj < r || j + 1 <= jj < n) implies #[trigger] cand@[jj] == cand_before[jj] by {
                        assert(cand@[jj] == before_set[jj]);
                    }
                    assert forall|jj: int| r <= jj < j implies (#[trigger] cand@[jj]).end == c0[jj].end
                        && cand@[jj].start == right_start_from(sz, cs, c0, jj, id as int) by {
                        assert(cand@[jj] == before_set[jj]);
                    }
                }
            }
            j += 1;
        }
        proof {
            assert forall|jj: int|
                0 <= jj < n implies (#[trigger] cand@[jj]).end == c0[jj].end && cand@[jj].start == right_start_from(
                    sz,
                    cs,
                    c0,
                    jj,
                    id as int,
                ) by {
                if jj < r {
                    assert(cand@[jj] == cand_before[jj]);
                    assert(!(right_end(sz, cs, c0, id as int) <= jj));
                }
            }
            if changed && !changed_before {
                let jj = choose|jj: int| 0 <= jj < n && #[trigger] cand@[jj].start > cand_before[jj].start;
                assert(cand@[jj].start > c0[jj].start);
            }
            if changed_before {
                let jj = choose|jj: int| 0 <= jj < n && #[trigger] cand_before[jj].start > c0[jj].start;
                assert(cand@[jj].start >= cand_before[jj].start);
                assert(cand@[jj].start > c0[jj].start);
            }
            assert forall|jj: int| 0 <= jj < n implies #[trigger] cand@[jj].start >= c0[jj].start by {
                assert(cand@[jj].start >= cand_before[jj].start);
            }
        }
        proof {
            assert forall|s: Seq<int>|
                #[trigger] consistent(sz, cs, s) implies forall|i: int|
                    id <= i < k ==> s[i] + sz[i] <= (#[trigger] blocks@[i]).possible_placement.end by {
                assert forall|i: int| id <= i < k implies s[i] + sz[i] <= (#[trigger] blocks@[i]).possible_placement.end by {
                    if i > id {
                        assert(blocks@[i] == prev_blocks[i]);
                    }
                }
            }
        }
        let next_r = if fits && l > 0 {
            l - 1
        } else {
            n
        };
        proof {
            assert forall|s: Seq<int>| #[trigger] consistent(sz, cs, s) implies (id > 0 ==> s[id - 1] + sz[id - 1] <= next_r) by {
                if id > 0 {
                    lemma_order(sz, n as int, s, id - 1, id as int);
                }
            }
        }
        r = next_r;
        idx -= 1;
    }
    proof {
        assert(cand@ =~= pushed_right(sz, cs, c0));
        if changed {
            let jj = choose|jj: int| 0 <= jj < n && #[trigger] cand@[jj].start > c0[jj].start;
            assert(cand@[jj] != c0[jj]);
        }
    }
    changed
}

/// Every cell in `l..r` is covered by block `id`.
pub open spec fn covers_range(sizes: Seq<usize>, s: Seq<int>, id: int, l: int, r: int) -> bool {
    forall|t: int| l <= t < r ==> #[trigger] covers(sizes, s, id, t)
}

/// A run of black cells lies within a single block.
pub(crate) proof fn lemma_run_in_one_block(sizes: Seq<usize>, cells: Seq<CellState>, s: Seq<int>, l: int, r: int) -> (id: int)
    requires
        consistent(sizes, cells, s),
        0 <= l < r <= cells.len(),
        forall|t: int| l <= t < r ==> #[trigger] cells[t] == CellState::Black,
    ensures
        0 <= id < sizes.len(),
        covers_range(sizes, s, id, l, r),
    decreases r - l,
{
    if r == l + 1 {
        let id = lemma_black_cover(sizes, cells, s, l);
        assert forall|t: int| l <= t < r implies #[trigger] covers(sizes, s, id, t) by {
            assert(t == l);
        }
        id
    } else {
        let id = lemma_run_in_one_block(sizes, cells, s, l, r - 1);
        assert(cells[r - 1] == CellState::Black);
        let x = lemma_black_cover(sizes, cells, s, r - 1);
        assert(covers(sizes, s, id, l));
        assert(covers(sizes, s, id, r - 2));
        if x < id {
            lemma_order(sizes, cells.len() as int, s, x, id);
        } else if x > id {
            lemma_order(sizes, cells.len() as int, s, id, x);
        }
        assert(x == id);
        assert forall|t: int| l <= t < r implies #[trigger] covers(sizes, s, id, t) by {
            if t < r - 1 {
                assert(covers(sizes, s, id, t));
            }
        }
        id
    }
}

/// Narrowing the candidates of a cell of a black run to bounds `lo..hi`
/// that hold for the block covering the whole run stays sound.
proof fn lemma_tighten_in_run(
    sizes: Seq<usize>,
    cells: Seq<CellState>,
    cand: Seq<Range<usize>>,
    j: int,
    l: int,
    r: int,
    lo: usize,
    hi: usize,
)
    requires
        sound_cands(sizes, cells, cand),
        cand.len() == cells.len(),
        0 <= l <= j < r <= cells.len(),
        forall|t: int| l <= t < r ==> #[trigger] cells[t] == CellState::Black,
        forall|s: Seq<int>|
            #[trigger] consistent(sizes, cells, s) ==> forall|id: int|
                0 <= id < sizes.len() && #[trigger] covers_range(sizes, s, id, l, r) ==> lo <= id < hi,
    ensures
        sound_cands(
            sizes,
            cells,
            cand.update(
                j,
                (if cand[j].start < lo {
                    lo
                } else {
                    cand[j].start
                })..(if hi < cand[j].end {
                    hi
                } else {
                    cand[j].end
                }),
            ),
        ),
{
    let nr = (if cand[j].start < lo {
        lo
    } else {
        cand[j].start
    })..(if hi < cand[j].end {
        hi
    } else {
        cand[j].end
    });
    let u = cand.update(j, nr);
    assert forall|s: Seq<int>| #[trigger] consistent(sizes, cells, s) implies cand_sound(sizes, u, s) by {
        let top = lemma_run_in_one_block(sizes, cells, s, l, r);
        assert(covers_range(sizes, s, top, l, r));
        assert(lo <= top < hi);
        assert(covers(sizes, s, top, j));
        assert forall|jj: int, id: int|
            #![trigger u[jj], s[id]]
            0 <= jj < u.len() && 0 <= id < sizes.len() implies (id < u[jj].start ==> s[id] + sizes[id]
                <= jj) && (u[jj].end <= id ==> jj < s[id]) by {
            assert(cand[jj] == cand[jj] && s[id] == s[id]);
            if jj == j {
                if id < top {
                    lemma_order(sizes, cells.len() as int, s, id, top);
                }
                if id > top {
                    lemma_order(sizes, cells.len() as int, s, top, id);
                }
            }
        }
    }
}

/// The largest start of the candidates of cells `l..r` (0 for no cells).
pub open spec fn run_lo(cand: Seq<Range<usize>>, l: int, r: int) -> int
    decreases r - l,
{
    if r <= l {
        0
    } else {
        let m = run_lo(cand, l, r - 1);
        if m < cand[r - 1].start {
            cand[r - 1].start as int
        } else {
            m
        }
    }
}

/// The smallest end of the candidates of cells `l..r` (`k` for no cells).
pub open spec fn run_hi(cand: Seq<Range<usize>>, l: int, r: int, k: int) -> int
    decreases r - l,
{
    if r <= l {
        k
    } else {
        let m = run_hi(cand, l, r - 1, k);
        if cand[r - 1].end < m {
            cand[r - 1].end as int
        } else {
            m
        }
    }
}

/// The candidates after narrowing those of every run of black cells to the
/// blocks that are candidates of all its cells.
pub open spec fn aligned(k: int, cells: Seq<CellState>, cand: Seq<Range<usize>>) -> Seq<Range<usize>> {
    let fb = class_flags(cells, CellState::Black, true);
    Seq::new(
        cand.len(),
        |j: int|
            if cells[j] == CellState::Black {
                let lo = run_lo(cand, reach_left(fb, j), reach_right(fb, j));
                let hi = run_hi(cand, reach_left(fb, j), reach_right(fb, j), k);
                Range {
                    start: (if cand[j].start < lo { lo } else { cand[j].start as int }) as usize,
                    end: (if hi < cand[j].end { hi } else { cand[j].end as int }) as usize,
                }
            } else {
                cand[j]
            },
    )
}

/// The left end of a run of `true` that holds `j` is where the run starts.
proof fn lemma_reach_left_at(f: Seq<bool>, j: int, l: int)
    requires
        0 <= l <= j <= f.len(),
        forall|t: int| l <= t < j ==> #[trigger] f[t],
        l == 0 || !f[l - 1],
    ensures
        reach_left(f, j) == l,
    decreases j - l,
{
    if j > l {
        lemma_reach_left_at(f, j - 1, l);
    }
}

/// The right end of a run of `true` that holds `j` is where the run ends.
proof fn lemma_reach_right_at(f: Seq<bool>, j: int, r: int)
    requires
        0 <= j <= r <= f.len(),
        forall|t: int| j <= t < r ==> #[trigger] f[t],
        r == f.len() || !f[r],
    ensures
        reach_right(f, j) == r,
    decreases r - j,
{
    if j < r {
        lemma_reach_right_at(f, j + 1, r);
    }
}

/// Narrows the candidates of every run of black cells to the blocks that
/// can cover all of the run. Returns whether a candidate range shrank.
fn align_runs(
    sizes: &[usize],
    cells: &[CellState],
    runs: &Vec<(usize, usize)>,
    cand: &mut Vec<Range<usize>>,
) -> (changed: bool)
    requires
        line_ok(sizes@, cells@.len() as int),
        is_segments_of(class_flags(cells@, CellState::Black, true), runs@),
        old(cand)@.len() == cells@.len(),
        cand_bounded(old(cand)@, sizes@.len() as int),
        sound_cands(sizes@, cells@, old(cand)@),
    ensures
        final(cand)@.len() == cells@.len(),
        cand_bounded(final(cand)@, sizes@.len() as int),
        sound_cands(sizes@, cells@, final(cand)@),
        cand_measure(final(cand)@, sizes@.len() as int) + (if changed {
            1int
        } else {
            0int
        }) <= cand_measure(old(cand)@, sizes@.len() as int),
        final(cand)@ == aligned(sizes@.len() as int, cells@, old(cand)@),
        changed <==> final(cand)@ != old(cand)@,
{
    let n = cells.len();
    let k = sizes.len();
    let ghost sz = sizes@;
    let ghost cs = cells@;
    let ghost f = class_flags(cells@, CellState::Black, true);
    let ghost c0 = cand@;
    let ghost al = aligned(k as int, cs, c0);
    let mut changed = false;
    let mut q: usize = 0;
    while q < runs.len()
        invariant
            c0 == old(cand)@,
            c0.len() == n,
            al == aligned(k as int, cs, c0),
            q <= runs@.len(),
            forall|j: int|
                0 <= j < n ==> #[trigger] cand@[j] == (if q < runs@.len() && runs@[q as int].0 <= j {
                    c0[j]
                } else {
                    al[j]
                }),
            !changed ==> cand@ == c0,
            changed ==> exists|j: int| 0 <= j < n && #[trigger] cand@[j] != c0[j],
            n == cs.len(),
            k == sz.len(),
            sz == sizes@,
            cs == cells@,
            f == class_flags(cs, CellState::Black, true),
            line_ok(sz, n as int),
            is_segments_of(f, runs@),
            cand@.len() == n,
            cand_bounded(cand@, k as int),
            sound_cands(sz, cs, cand@),
            cand_measure(cand@, k as int) + (if changed {
                1int
            } else {
                0int
            }) <= cand_measure(old(cand)@, k as int),
        decreases runs@.len() - q,
    {
        let (l, r) = runs[q];
        assert(runs@[q as int] == (l, r));
        assert forall|t: int| l <= t < r implies #[trigger] cs[t] == CellState::Black by {
            assert(f[t]);
        }
        let ghost cq = cand@;
        proof {
            assert forall|t: int| l <= t < r implies #[trigger] cq[t] == c0[t] by {
            }
            if changed {
                let t = choose|t: int| 0 <= t < n && #[trigger] cand@[t] != c0[t];
                assert(cq[t] != c0[t]);
            }
        }
        let mut lo: usize = 0;
        let mut hi: usize = k;
        let mut j: usize = l;
        while j < r
            invariant
                n == cs.len(),
                k == sz.len(),
                cs == cells@,
                sz == sizes@,
                l <= j <= r <= n,
                cand@ == cq,
                cq.len() == n,
                lo == run_lo(cq, l as int, j as int),
                hi == run_hi(cq, l as int, j as int, k as int),
                cand@.len() == n,
                cand_bounded(cand@, k as int),
                sound_cands(sz, cs, cand@),
                lo <= k,
                hi <= k,
                forall|t: int| l <= t < r ==> #[trigger] cs[t] == CellState::Black,
                forall|s: Seq<int>|
                    #[trigger] consistent(sz, cs, s) ==> forall|id: int|
                        0 <= id < k && #[trigger] covers_range(sz, s, id, l as int, r as int) ==> lo
                            <= id < hi,
            decreases r - j,
        {
            proof {
                assert forall|s: Seq<int>|
                    #[trigger] consistent(sz, cs, s) implies forall|id: int|
                        0 <= id < k && #[trigger] covers_range(sz, s, id, l as int, r as int)
                            ==> cand@[j as int].start <= id < cand@[j as int].end by {
                    assert forall|id: int|
                        0 <= id < k && #[trigger] covers_range(sz, s, id, l as int, r as int)
                            implies cand@[j as int].start <= id < cand@[j as int].end by {
                        assert(covers(sz, s, id, j as int));
                        lemma_cover_in_cand(sz, cand@, s, id, j as int);
                    }
                }
            }
            if lo < cand[j].start {
                lo = cand[j].start;
            }
            if cand[j].end < hi {
                hi = cand[j].end;
            }
            j += 1;
        }
        proof {
            assert forall|t: int| l <= t < r implies reach_left(f, t) == l && reach_right(f, t) == r by {
                assert forall|u: int| l <= u < t implies #[trigger] f[u] by {
                    assert(cs[u] == CellState::Black);
                }
                assert forall|u: int| t <= u < r implies #[trigger] f[u] by {
                    assert(cs[u] == CellState::Black);
                }
                lemma_reach_left_at(f, t, l as int);
                lemma_reach_right_at(f, t, r as int);
            }
            lemma_run_bounds_same(cq, c0, l as int, r as int, k as int);
        }
        let ghost changed_q = changed;
        let mut j: usize = l;
        while j < r
            invariant
                n == cs.len(),
                k == sz.len(),
                cs == cells@,
                sz == sizes@,
                l <= j <= r <= n,
                cq.len() == n,
                c0.len() == n,
                al == aligned(k as int, cs, c0),
                forall|t: int| l <= t < r ==> #[trigger] cq[t] == c0[t],
                forall|t: int| l <= t < r ==> reach_left(f, t) == l && reach_right(f, t) == r,
                f == class_flags(cs, CellState::Black, true),
                lo == run_lo(c0, l as int, r as int),
                hi == run_hi(c0, l as int, r as int, k as int),
                forall|t: int| 0 <= t < n && !(l <= t < j) ==> #[trigger] cand@[t] == cq[t],
                forall|t: int| l <= t < j ==> #[trigger] cand@[t] == al[t],
                !changed ==> cand@ == cq && !changed_q,
                changed ==> changed_q || exists|t: int| l <= t < j && #[trigger] cand@[t] != cq[t],
                cand@.len() == n,
                cand_bounded(cand@, k as int),
                sound_cands(sz, cs, cand@),
                lo <= k,
                hi <= k,
                forall|t: int| l <= t < r ==> #[trigger] cs[t] == CellState::Black,
                forall|s: Seq<int>|
                    #[trigger] consistent(sz, cs, s) ==> forall|id: int|
                        0 <= id < k && #[trigger] covers_range(sz, s, id, l as int, r as int) ==> lo
                            <= id < hi,
                cand_measure(cand@, k as int) + (if changed {
                    1int
                } else {
                    0int
                }) <= cand_measure(old(cand)@, k as int),
            decreases r - j,
        {
            let st = cand[j].start;
            let en = cand[j].end;
            if st < lo || hi < en {
                let nst = if st < lo {
                    lo
                } else {
                    st
                };
                let nen = if hi < en {
                    hi
                } else {
                    en
                };
                proof {
                    lemma_tighten_in_run(sz, cs, cand@, j as int, l as int, r as int, lo, hi);
                    lemma_measure_update(cand@, k as int, j as int, nst..nen);
                }
                cand.set(j, nst..nen);
                changed = true;
                proof {
                    assert(cand@[j as int] != cq[j as int]);
                }
            }
            proof {
                assert(cs[j as int] == CellState::Black);
                assert(cand@[j as int] == al[j as int]);
            }
            j += 1;
        }
        proof {
            let nq = q + 1;
            assert forall|t: int|
                0 <= t < n implies #[trigger] cand@[t] == (if nq < runs@.len() && runs@[nq].0 <= t {
                    c0[t]
                } else {
                    al[t]
                }) by {
                if l <= t < r {
                } else if t < l {
                    assert(cand@[t] == cq[t]);
                    if cs[t] == CellState::Black {
                        // a black cell before this run lies in an earlier run
                        assert(f[t]);
                        let qq = choose|qq: int| 0 <= qq < runs@.len() && (#[trigger] runs@[qq]).0 <= t < runs@[qq].1;
                        if qq >= q {
                            if qq > q {
                                assert(runs@[q as int].1 < runs@[qq].0);
                            }
                        }
                    }
                } else {
                    assert(cand@[t] == cq[t]);
                    if nq < runs@.len() {
                        assert(runs@[q as int].1 < runs@[nq].0);
                    }
                    if !(nq < runs@.len() && runs@[nq].0 <= t) {
                        // no run after this one reaches `t`: the cell is not black
                        if cs[t] == CellState::Black {
                            assert(f[t]);
                            let qq = choose|qq: int| 0 <= qq < runs@.len() && (#[trigger] runs@[qq]).0 <= t < runs@[qq].1;
                            if qq <= q {
                                if qq < q {
                                    assert(runs@[qq].1 < runs@[q as int].0);
                                }
                            } else if qq > nq {
                                assert(runs@[nq].1 < runs@[qq].0);
                            }
                        }
                        assert(al[t] == c0[t]);
                    }
                }
            }
            if changed && !changed_q {
                let t = choose|t: int| l <= t < r && #[trigger] cand@[t] != cq[t];
                assert(cq[t] == c0[t]);
            }
            if changed_q {
                let t = choose|t: int| 0 <= t < n && #[trigger] cq[t] != c0[t];
                assert(!(l <= t < r));
                assert(cand@[t] == cq[t]);
            }
        }
        q += 1;
    }
    proof {
        assert(cand@ =~= al);
        if changed {
            let t = choose|t: int| 0 <= t < n && #[trigger] cand@[t] != c0[t];
        }
    }
    changed
}

/// The bounds of a run are the same on candidates that agree on the run.
proof fn lemma_run_bounds_same(a: Seq<Range<usize>>, b: Seq<Range<usize>>, l: int, r: int, k: int)
    requires
        forall|t: int| l <= t < r ==> #[trigger] a[t] == b[t],
    ensures
        run_lo(a, l, r) == run_lo(b, l, r),
        run_hi(a, l, r, k) == run_hi(b, l, r, k),
    decreases r - l,
{
    if r > l {
        lemma_run_bounds_same(a, b, l, r - 1, k);
    }
}


// ---------------------------------------------------------------------------
// The analysis of a line

/// One round of narrowing from `cand`: the candidates after pushing the
/// blocks to the left, then to the right, then aligning the runs of black
/// cells.
pub open spec fn narrow_round(sizes: Seq<usize>, cells: Seq<CellState>, cand: Seq<Range<usize>>) -> (
    Seq<Range<usize>>,
    Seq<Range<usize>>,
    Seq<Range<usize>>,
) {
    let c1 = pushed_left(sizes, cells, cand);
    let c2 = pushed_right(sizes, cells, c1);
    (c1, c2, aligned(sizes.len() as int, cells, c2))
}

/// Rounds of narrowing from `cand`, until a round changes nothing or
/// `fuel` rounds have run.
pub open spec fn settle(sizes: Seq<usize>, cells: Seq<CellState>, cand: Seq<Range<usize>>, fuel: nat) -> Seq<
    Range<usize>,
>
    decreases fuel,
{
    let (c1, c2, c3) = narrow_round(sizes, cells, cand);
    if fuel == 0 || (c1 == cand && c2 == c1 && c3 == c2) {
        cand
    } else {
        settle(sizes, cells, c3, (fuel - 1) as nat)
    }
}

/// Every cell may be covered by every block.
pub open spec fn all_candidates(n: int, k: int) -> Seq<Range<usize>> {
    Seq::new(n as nat, |j: int| Range { start: 0usize, end: k as usize })
}

/// The candidates of a line with clue `sizes` and cells `cells` once the
/// narrowing has settled: rounds from [`all_candidates`] until a round
/// changes nothing (every round that changes something shrinks a range, so
/// the measure of the start bounds their number).
pub open spec fn settled(sizes: Seq<usize>, cells: Seq<CellState>) -> Seq<Range<usize>> {
    let full = all_candidates(cells.len() as int, sizes.len() as int);
    settle(sizes, cells, full, (cand_measure(full, sizes.len() as int) + 1) as nat)
}

/// The analysis of one row or column at one snapshot of its cells.
///
/// Built only by [`LineAnalysis::compute`]. The line rules only read it.
#[derive(Debug)]
pub struct LineAnalysis {
    /// The states of the cells that were analysed.
    pub cells: Vec<CellState>,
    /// The analysis of each block, in the order of the clue.
    pub blocks: Vec<BlockInfo>,
    /// For each cell, the half-open range of blocks that could cover it.
    /// An empty range means that no block can: the cell is white.
    pub candidates: Vec<Range<usize>>,
    /// The maximal runs of black cells.
    pub black_segments: Vec<(usize, usize)>,
    /// The maximal runs of cells that are not white.
    pub non_white_segments: Vec<(usize, usize)>,
    /// The maximal runs of unconfirmed cells.
    pub unconfirmed_segments: Vec<(usize, usize)>,
}

/// The smallest size among blocks `lo..hi`; `None` for an empty range.
pub open spec fn min_size_in(sizes: Seq<usize>, lo: int, hi: int) -> Option<usize>
    decreases hi - lo,
{
    if hi <= lo {
        None
    } else {
        match min_size_in(sizes, lo, hi - 1) {
            None => Some(sizes[hi - 1]),
            Some(m) => Some(
                if sizes[hi - 1] < m {
                    sizes[hi - 1]
                } else {
                    m
                },
            ),
        }
    }
}

/// The largest size among blocks `lo..hi`; `None` for an empty range.
pub open spec fn max_size_in(sizes: Seq<usize>, lo: int, hi: int) -> Option<usize>
    decreases hi - lo,
{
    if hi <= lo {
        None
    } else {
        match max_size_in(sizes, lo, hi - 1) {
            None => Some(sizes[hi - 1]),
            Some(m) => Some(
                if sizes[hi - 1] > m {
                    sizes[hi - 1]
                } else {
                    m
                },
            ),
        }
    }
}

/// The smallest size bounds every size of the range from below.
pub proof fn lemma_min_size_le(sizes: Seq<usize>, lo: int, hi: int, id: int)
    requires
        lo <= id < hi,
    ensures
        min_size_in(sizes, lo, hi) is Some,
        min_size_in(sizes, lo, hi)->0 <= sizes[id],
    decreases hi - lo,
{
    if id < hi - 1 {
        lemma_min_size_le(sizes, lo, hi - 1, id);
    }
}

/// The largest size bounds every size of the range from above.
pub proof fn lemma_max_size_ge(sizes: Seq<usize>, lo: int, hi: int, id: int)
    requires
        lo <= id < hi,
    ensures
        max_size_in(sizes, lo, hi) is Some,
        max_size_in(sizes, lo, hi)->0 >= sizes[id],
    decreases hi - lo,
{
    if id < hi - 1 {
        lemma_max_size_ge(sizes, lo, hi - 1, id);
    }
}

/// Every cell of `l..r` has its candidates within `run_lo..run_hi` of the
/// run.
proof fn lemma_run_bounds_cover(cand: Seq<Range<usize>>, l: int, r: int, k: int, j: int)
    requires
        l <= j < r,
    ensures
        cand[j].start <= run_lo(cand, l, r),
        run_hi(cand, l, r, k) <= cand[j].end,
    decreases r - l,
{
    if j < r - 1 {
        lemma_run_bounds_cover(cand, l, r - 1, k, j);
    }
}

/// Cells of one run of black cells belong to one block: once a round of
/// narrowing changes nothing, every two cells of a run of black cells have
/// the same candidate blocks.
pub proof fn law_black_run_shares_candidates(
    sizes: Seq<usize>,
    cells: Seq<CellState>,
    cand: Seq<Range<usize>>,
    j1: int,
    j2: int,
)
    requires
        cand.len() == cells.len(),
        narrow_round(sizes, cells, cand) == (cand, cand, cand),
        0 <= j1 <= j2 < cells.len(),
        forall|t: int| j1 <= t <= j2 ==> #[trigger] cells[t] == CellState::Black,
    ensures
        cand[j1] == cand[j2],
{
    let k = sizes.len() as int;
    let fb = class_flags(cells, CellState::Black, true);
    lemma_reach_left(fb, j1);
    lemma_reach_right(fb, j2);
    let l = reach_left(fb, j1);
    let r = reach_right(fb, j2);
    assert(fb[j2]);
    assert(r > j2);
    lemma_reach_left_at(fb, j2, l);
    lemma_reach_right_at(fb, j1, r);
    assert(aligned(k, cells, cand) == cand);
    let lo = run_lo(cand, l, r);
    let hi = run_hi(cand, l, r, k);
    lemma_run_bounds_cover(cand, l, r, k, j1);
    lemma_run_bounds_cover(cand, l, r, k, j2);
    assert(aligned(k, cells, cand)[j1] == cand[j1]);
    assert(aligned(k, cells, cand)[j2] == cand[j2]);
}

/// The start of the run of `true` in `f` that ends just before `j`.
pub open spec fn reach_left(f: Seq<bool>, j: int) -> int
    decreases j,
{
    if j <= 0 || !f[j - 1] {
        j
    } else {
        reach_left(f, j - 1)
    }
}

/// The end of the run of `true` in `f` that starts at `j`.
pub open spec fn reach_right(f: Seq<bool>, j: int) -> int
    decreases f.len() - j,
{
    if j >= f.len() || !f[j] {
        j
    } else {
        reach_right(f, j + 1)
    }
}

/// [`reach_left`] goes back over a run of `true` to its start.
pub proof fn lemma_reach_left(f: Seq<bool>, j: int)
    requires
        0 <= j <= f.len(),
    ensures
        0 <= reach_left(f, j) <= j,
        reach_left(f, j) == 0 || !f[reach_left(f, j) - 1],
        forall|t: int| reach_left(f, j) <= t < j ==> #[trigger] f[t],
    decreases j,
{
    if j > 0 && f[j - 1] {
        lemma_reach_left(f, j - 1);
    }
}

/// [`reach_right`] goes over a run of `true` to its end.
pub proof fn lemma_reach_right(f: Seq<bool>, j: int)
    requires
        0 <= j <= f.len(),
    ensures
        j <= reach_right(f, j) <= f.len(),
        reach_right(f, j) == f.len() || !f[reach_right(f, j)],
        forall|t: int| j <= t < reach_right(f, j) ==> #[trigger] f[t],
    decreases f.len() - j,
{
    if j < f.len() && f[j] {
        lemma_reach_right(f, j + 1);
    }
}

impl LineAnalysis {
    /// The block sizes of the analysed clue.
    pub open spec fn sizes(self) -> Seq<usize> {
        self.blocks@.map_values(|b: BlockInfo| b.size)
    }

    /// The analysis is complete and holds for every arrangement of the
    /// blocks that agrees with the analysed cells.
    pub open spec fn wf(self) -> bool {
        let n = self.cells@.len();
        let sz = self.sizes();
        &&& line_ok(sz, n as int)
        &&& self.candidates@.len() == n
        &&& cand_bounded(self.candidates@, sz.len() as int)
        &&& forall|id: int|
            0 <= id < sz.len() ==> (#[trigger] self.blocks@[id]).possible_placement.start
                + self.blocks@[id].size <= self.blocks@[id].possible_placement.end
                && self.blocks@[id].possible_placement.end <= n
        &&& is_segments_of(class_flags(self.cells@, CellState::Black, true), self.black_segments@)
        &&& is_segments_of(class_flags(self.cells@, CellState::White, false), self.non_white_segments@)
        &&& is_segments_of(
            class_flags(self.cells@, CellState::Unconfirmed, true),
            self.unconfirmed_segments@,
        )
        &&& forall|s: Seq<int>|
            #[trigger] consistent(sz, self.cells@, s) ==> {
                &&& cand_sound(sz, self.candidates@, s)
                &&& starts_placed(self.blocks@, s)
                &&& ends_placed(self.blocks@, s)
            }
    }

    /// Analyses a line with clue `block_sizes` and cells `cells`.
    ///
    /// Narrows, until nothing changes any more, the range in which each
    /// block can lie and the range of blocks that can cover each cell. When
    /// some block fits nowhere, returns its number as the error: then no
    /// arrangement of the blocks agrees with the cells.
    pub fn compute(block_sizes: &[usize], cells: &[CellState]) -> (res: Result<Self, usize>)
        requires
            line_ok(block_sizes@, cells@.len() as int),
        ensures
            match res {
                Ok(a) => {
                    &&& a.wf()
                    &&& a.cells@ == cells@
                    &&& a.sizes() == block_sizes@
                    &&& a.candidates@ == settled(block_sizes@, cells@)
                    &&& narrow_round(block_sizes@, cells@, a.candidates@) == (a.candidates@, a.candidates@, a.candidates@)
                    &&& forall|j1: int, j2: int|
                        0 <= j1 <= j2 < cells@.len() && (forall|t: int|
                            j1 <= t <= j2 ==> #[trigger] cells@[t] == CellState::Black) ==> #[trigger] a.candidates@[j1]
                            == #[trigger] a.candidates@[j2]
                    &&& forall|id: int, t: int|
                        0 <= id < block_sizes@.len() && (#[trigger] a.blocks@[id]).possible_placement.start <= t
                            < a.blocks@[id].possible_placement.start + a.blocks@[id].size ==> #[trigger] cells@[t]
                            != CellState::White
                    &&& forall|id: int, t: int|
                        0 <= id < block_sizes@.len() && (#[trigger] a.blocks@[id]).possible_placement.end
                            - a.blocks@[id].size <= t < a.blocks@[id].possible_placement.end ==> #[trigger] cells@[t]
                            != CellState::White
                    &&& forall|id: int|
                        0 <= id && id + 1 < block_sizes@.len() ==> (#[trigger] a.blocks@[id]).possible_placement.start
                            + a.blocks@[id].size + 1 <= a.blocks@[id + 1].possible_placement.start
                            && a.blocks@[id].possible_placement.end + a.blocks@[id + 1].size + 1
                            <= a.blocks@[id + 1].possible_placement.end
                    &&& forall|id: int|
                        0 <= id < block_sizes@.len() ==> (#[trigger] a.blocks@[id]).possible_placement.start
                            == left_start(block_sizes@, cells@, settled(block_sizes@, cells@), id)
                            && a.blocks@[id].possible_placement.end == right_end(
                            block_sizes@,
                            cells@,
                            settled(block_sizes@, cells@),
                            id,
                        )
                },
                Err(id) => {
                    &&& id < block_sizes@.len()
                    &&& forall|s: Seq<int>| !consistent(block_sizes@, cells@, s)
                    &&& narrow_round(block_sizes@, cells@, settled(block_sizes@, cells@)) == (
                        settled(block_sizes@, cells@),
                        settled(block_sizes@, cells@),
                        settled(block_sizes@, cells@),
                    )
                    &&& left_start(block_sizes@, cells@, settled(block_sizes@, cells@), id as int)
                        + block_sizes@[id as int] > right_end(
                        block_sizes@,
                        cells@,
                        settled(block_sizes@, cells@),
                        id as int,
                    )
                    &&& forall|i: int|
                        0 <= i < id ==> left_start(block_sizes@, cells@, settled(block_sizes@, cells@), i)
                            + block_sizes@[i] <= #[trigger] right_end(
                            block_sizes@,
                            cells@,
                            settled(block_sizes@, cells@),
                            i,
                        )
                },
            },
    {
        let n = cells.len();
        let k = block_sizes.len();
        let ghost sz = block_sizes@;
        let ghost cs = cells@;
        let mut candidates: Vec<Range<usize>> = Vec::new();
        let mut j: usize = 0;
        while j < n
            invariant
                j <= n,
                candidates@.len() == j,
                forall|t: int| 0 <= t < j ==> #[trigger] candidates@[t] == (0..k),
            decreases n - j,
        {
            candidates.push(0..k);
            j += 1;
        }
        assert forall|s: Seq<int>| #[trigger] consistent(sz, cs, s) implies cand_sound(sz, candidates@, s) by {
            assert forall|t: int, id: int|
                #![trigger candidates@[t], s[id]]
                0 <= t < candidates@.len() && 0 <= id < sz.len() implies (id < candidates@[t].start
                    ==> s[id] + sz[id] <= t) && (candidates@[t].end <= id ==> t < s[id]) by {
                assert(candidates@[t] == (0..k));
            }
        }
        let mut blocks: Vec<BlockInfo> = Vec::new();
        let mut id: usize = 0;
        while id < k
            invariant
                k == sz.len(),
                sz == block_sizes@,
                id <= k,
                blocks@.len() == id,
                forall|i: int|
                    0 <= i < id ==> (#[trigger] blocks@[i]).size == sz[i]
                        && blocks@[i].possible_placement == (0..n),
            decreases k - id,
        {
            blocks.push(BlockInfo { size: block_sizes[id], possible_placement: 0..n });
            id += 1;
        }
        let black = flags_where(cells, CellState::Black, true);
        let black_segments = segments_of(black.as_slice());
        let ghost full = all_candidates(n as int, k as int);
        proof {
            assert(candidates@ =~= full);
            lemma_measure_nonneg(full, k as int);
        }
        let ghost fuel: int = cand_measure(full, k as int) + 1;
        let ghost rounds: int = 0;
        let mut again = true;
        while again
            invariant
                n == cs.len(),
                k == sz.len(),
                sz == block_sizes@,
                cs == cells@,
                line_ok(sz, n as int),
                full == all_candidates(n as int, k as int),
                fuel == cand_measure(full, k as int) + 1,
                0 <= rounds,
                cand_measure(candidates@, k as int) + rounds <= cand_measure(full, k as int),
                settle(sz, cs, candidates@, (fuel - rounds) as nat) == settled(sz, cs),
                !again ==> candidates@ == settled(sz, cs),
                !again ==> narrow_round(sz, cs, candidates@) == (candidates@, candidates@, candidates@),
                !again ==> forall|i: int|
                    0 <= i < k ==> (#[trigger] blocks@[i]).possible_placement.start == left_start(sz, cs, candidates@, i)
                        && blocks@[i].possible_placement.end == right_end(sz, cs, candidates@, i),
                is_segments_of(class_flags(cs, CellState::Black, true), black_segments@),
                candidates@.len() == n,
                cand_bounded(candidates@, k as int),
                sound_cands(sz, cs, candidates@),
                blocks_match(blocks@, sz),
                forall|i: int| 0 <= i < k ==> (#[trigger] blocks@[i]).possible_placement.end <= n,
                forall|i: int| 0 <= i < k ==> (#[trigger] blocks@[i]).possible_placement.start <= 2 * n + 1,
                forall|s: Seq<int>|
                    #[trigger] consistent(sz, cs, s) ==> starts_placed(blocks@, s) && ends_placed(blocks@, s),
            decreases cand_measure(candidates@, k as int) + (if again {
                1int
            } else {
                0int
            }),
        {
            let ghost before = candidates@;
            let ghost prev_blocks = blocks@;
            let c1 = push_left(block_sizes, cells, &mut candidates, &mut blocks);
            proof {
                assert forall|s: Seq<int>| #[trigger] consistent(sz, cs, s) implies ends_placed(blocks@, s) by {
                    assert(ends_placed(prev_blocks, s));
                    assert forall|i: int| 0 <= i < blocks@.len() implies s[i] + (#[trigger] blocks@[i]).size
                        <= blocks@[i].possible_placement.end by {
                        assert(s[i] + prev_blocks[i].size <= prev_blocks[i].possible_placement.end);
                    }
                }
            }
            let ghost mid_blocks = blocks@;
            let c2 = push_right(block_sizes, cells, &mut candidates, &mut blocks);
            proof {
                assert forall|s: Seq<int>| #[trigger] consistent(sz, cs, s) implies starts_placed(blocks@, s) by {
                    assert(starts_placed(mid_blocks, s));
                    assert forall|i: int| 0 <= i < blocks@.len() implies (#[trigger] blocks@[i]).possible_placement.start
                        <= s[i] by {
                        assert(mid_blocks[i].possible_placement.start <= s[i]);
                    }
                }
            }
            let c3 = align_runs(block_sizes, cells, &black_segments, &mut candidates);
            again = c1 || c2 || c3;
            proof {
                lemma_measure_nonneg(candidates@, k as int);
                lemma_measure_nonneg(before, k as int);
                let (r1, r2, r3) = narrow_round(sz, cs, before);
                assert(r3 == candidates@);
                if again {
                    assert(!(r1 == before && r2 == r1 && r3 == r2));
                    assert(fuel - rounds >= 1);
                    assert(settle(sz, cs, before, (fuel - rounds) as nat) == settle(sz, cs, r3, (fuel - rounds - 1) as nat));
                    rounds = rounds + 1;
                } else {
                    assert(r1 == before && r2 == r1 && r3 == r2);
                    assert(settle(sz, cs, before, (fuel - rounds) as nat) == before);
                    assert(candidates@ == before);
                }
            }
        }
        let mut id: usize = 0;
        while id < k
            invariant
                n == cs.len(),
                k == sz.len(),
                sz == block_sizes@,
                cs == cells@,
                line_ok(sz, n as int),
                blocks_match(blocks@, sz),
                id <= k,
                forall|i: int| 0 <= i < k ==> (#[trigger] blocks@[i]).possible_placement.end <= n,
                forall|i: int| 0 <= i < k ==> (#[trigger] blocks@[i]).possible_placement.start <= 2 * n + 1,
                forall|i: int|
                    0 <= i < id ==> (#[trigger] blocks@[i]).possible_placement.start + blocks@[i].size
                        <= blocks@[i].possible_placement.end,
                forall|s: Seq<int>|
                    #[trigger] consistent(sz, cs, s) ==> starts_placed(blocks@, s) && ends_placed(blocks@, s),
                candidates@ == settled(sz, cs),
                narrow_round(sz, cs, candidates@) == (candidates@, candidates@, candidates@),
                forall|i: int|
                    0 <= i < k ==> (#[trigger] blocks@[i]).possible_placement.start == left_start(sz, cs, candidates@, i)
                        && blocks@[i].possible_placement.end == right_end(sz, cs, candidates@, i),
            decreases k - id,
        {
            proof {
                lemma_size_le(sz, n as int, id as int);
            }
            if blocks[id].possible_placement.start + blocks[id].size > blocks[id].possible_placement.end {
                proof {
                    assert forall|s: Seq<int>| !consistent(sz, cs, s) by {
                        if consistent(sz, cs, s) {
                            assert(starts_placed(blocks@, s) && ends_placed(blocks@, s));
                            assert(blocks@[id as int].possible_placement.start <= s[id as int]);
                            assert(s[id as int] + blocks@[id as int].size <= blocks@[id as int].possible_placement.end);
                        }
                    }
                    assert(blocks@[id as int].size == sz[id as int]);
                    assert forall|i: int| 0 <= i < id implies left_start(sz, cs, settled(sz, cs), i) + sz[i]
                        <= #[trigger] right_end(sz, cs, settled(sz, cs), i) by {
                        assert(blocks@[i].possible_placement.start + blocks@[i].size <= blocks@[i].possible_placement.end);
                    }
                }
                return Err(id);
            }
            id += 1;
        }
        let non_white = flags_where(cells, CellState::White, false);
        let unconfirmed = flags_where(cells, CellState::Unconfirmed, true);
        let non_white_segments = segments_of(non_white.as_slice());
        let unconfirmed_segments = segments_of(unconfirmed.as_slice());
        let a = LineAnalysis {
            cells: vstd::slice::slice_to_vec(cells),
            blocks,
            candidates,
            black_segments,
            non_white_segments,
            unconfirmed_segments,
        };
        assert(a.sizes() =~= sz);
        proof {
            assert forall|j1: int, j2: int|
                0 <= j1 <= j2 < cells@.len() && (forall|t: int|
                    j1 <= t <= j2 ==> #[trigger] cells@[t] == CellState::Black) implies #[trigger] a.candidates@[j1]
                    == #[trigger] a.candidates@[j2] by {
                law_black_run_shares_candidates(sz, cs, a.candidates@, j1, j2);
            }
            let c = settled(sz, cs);
            assert forall|i: int|
                0 <= i < sz.len() implies left_start(sz, cs, c, i) + sz[i] <= #[trigger] right_end(sz, cs, c, i)
                && right_end(sz, cs, c, i) <= cs.len() by {
                assert(a.blocks@[i].size == sz[i]);
                assert(a.blocks@[i].possible_placement.start + a.blocks@[i].size <= a.blocks@[i].possible_placement.end);
            }
            assert forall|id: int| 0 <= id < sz.len() implies (#[trigger] a.blocks@[id]).size == sz[id] by {
                assert(a.sizes()[id] == a.blocks@[id].size);
            }
            assert forall|id: int, t: int|
                0 <= id < sz.len() && (#[trigger] a.blocks@[id]).possible_placement.start <= t
                    < a.blocks@[id].possible_placement.start + a.blocks@[id].size implies #[trigger] cs[t]
                    != CellState::White by {
                law_placements(sz, cs, c, id);
            }
            assert forall|id: int, t: int|
                0 <= id < sz.len() && (#[trigger] a.blocks@[id]).possible_placement.end - a.blocks@[id].size <= t
                    < a.blocks@[id].possible_placement.end implies #[trigger] cs[t] != CellState::White by {
                law_placements(sz, cs, c, id);
            }
            assert forall|id: int|
                0 <= id && id + 1 < sz.len() implies (#[trigger] a.blocks@[id]).possible_placement.start
                    + a.blocks@[id].size + 1 <= a.blocks@[id + 1].possible_placement.start
                    && a.blocks@[id].possible_placement.end + a.blocks@[id + 1].size + 1
                    <= a.blocks@[id + 1].possible_placement.end by {
                law_placements(sz, cs, c, id);
                assert(a.blocks@[id + 1].size == sz[id + 1]);
            }
        }
        Ok(a)
    }
}


impl LineAnalysis {
    /// The number of cells of the line.
    pub fn n(&self) -> (res: usize)
        ensures
            res == self.cells@.len(),
    {
        self.cells.len()
    }

    /// The smallest size among the blocks that could cover cell `j`;
    /// `None` when no block can.
    pub fn min_possible_size(&self, j: usize) -> (res: Option<usize>)
        requires
            self.wf(),
            j < self.cells@.len(),
        ensures
            res == min_size_in(
                self.sizes(),
                self.candidates@[j as int].start as int,
                self.candidates@[j as int].end as int,
            ),
    {
        let lo = self.candidates[j].start;
        let hi = self.candidates[j].end;
        let mut best: Option<usize> = None;
        let mut id = lo;
        while id < hi
            invariant
                self.wf(),
                j < self.cells@.len(),
                lo == self.candidates@[j as int].start,
                hi == self.candidates@[j as int].end,
                hi <= self.blocks@.len(),
                lo <= id,
                id <= hi || id == lo,
                best == min_size_in(self.sizes(), lo as int, id as int),
            decreases hi - id,
        {
            let size = self.blocks[id].size;
            best = match best {
                None => Some(size),
                Some(m) => Some(if size < m { size } else { m }),
            };
            id += 1;
        }
        best
    }

    /// The largest size among the blocks that could cover cell `j`;
    /// `None` when no block can.
    pub fn max_possible_size(&self, j: usize) -> (res: Option<usize>)
        requires
            self.wf(),
            j < self.cells@.len(),
        ensures
            res == max_size_in(
                self.sizes(),
                self.candidates@[j as int].start as int,
                self.candidates@[j as int].end as int,
            ),
    {
        let lo = self.candidates[j].start;
        let hi = self.candidates[j].end;
        let mut best: Option<usize> = None;
        let mut id = lo;
        while id < hi
            invariant
                self.wf(),
                j < self.cells@.len(),
                lo == self.candidates@[j as int].start,
                hi == self.candidates@[j as int].end,
                hi <= self.blocks@.len(),
                lo <= id,
                id <= hi || id == lo,
                best == max_size_in(self.sizes(), lo as int, id as int),
            decreases hi - id,
        {
            let size = self.blocks[id].size;
            best = match best {
                None => Some(size),
                Some(m) => Some(if size > m { size } else { m }),
            };
            id += 1;
        }
        best
    }

    /// The only block that could cover cell `j`, if there is exactly one.
    pub fn confirmed_id(&self, j: usize) -> (res: Option<usize>)
        requires
            self.wf(),
            j < self.cells@.len(),
        ensures
            res == (if self.candidates@[j as int].start < self.candidates@[j as int].end
                && self.candidates@[j as int].end - self.candidates@[j as int].start == 1 {
                Some(self.candidates@[j as int].start)
            } else {
                None
            }),
    {
        let lo = self.candidates[j].start;
        let hi = self.candidates[j].end;
        if lo < hi && hi - lo == 1 {
            Some(lo)
        } else {
            None
        }
    }

    /// The left end of the run of non-white cells that ends just before
    /// cell `j` (the run holding `j` when `j` is not white).
    pub fn non_white_left(&self, j: usize) -> (res: usize)
        requires
            j <= self.cells@.len(),
        ensures
            res == reach_left(class_flags(self.cells@, CellState::White, false), j as int),
    {
        let ghost f = class_flags(self.cells@, CellState::White, false);
        let mut l = j;
        while l > 0 && self.cells[l - 1] != CellState::White
            invariant
                l <= j <= self.cells@.len(),
                f == class_flags(self.cells@, CellState::White, false),
                reach_left(f, l as int) == reach_left(f, j as int),
            decreases l,
        {
            l -= 1;
        }
        l
    }

    /// The right end (exclusive) of the run of non-white cells that starts
    /// at cell `j`.
    pub fn non_white_right(&self, j: usize) -> (res: usize)
        requires
            j <= self.cells@.len(),
        ensures
            res == reach_right(class_flags(self.cells@, CellState::White, false), j as int),
    {
        let ghost f = class_flags(self.cells@, CellState::White, false);
        let mut r = j;
        while r < self.n() && self.cells[r] != CellState::White
            invariant
                j <= r <= self.cells@.len(),
                f == class_flags(self.cells@, CellState::White, false),
                reach_right(f, r as int) == reach_right(f, j as int),
            decreases self.cells@.len() - r,
        {
            r += 1;
        }
        r
    }

    /// The length of the run of black cells around cell `j` (for a black
    /// cell `j`, the run that holds it).
    pub fn black_run_size(&self, j: usize) -> (res: usize)
        requires
            j <= self.cells@.len(),
        ensures
            res == reach_right(class_flags(self.cells@, CellState::Black, true), j as int) - reach_left(
                class_flags(self.cells@, CellState::Black, true),
                j as int,
            ),
    {
        let ghost f = class_flags(self.cells@, CellState::Black, true);
        let mut l = j;
        while l > 0 && self.cells[l - 1] == CellState::Black
            invariant
                l <= j <= self.cells@.len(),
                f == class_flags(self.cells@, CellState::Black, true),
                reach_left(f, l as int) == reach_left(f, j as int),
            decreases l,
        {
            l -= 1;
        }
        let mut r = j;
        while r < self.n() && self.cells[r] == CellState::Black
            invariant
                l <= j <= r <= self.cells@.len(),
                f == class_flags(self.cells@, CellState::Black, true),
                reach_right(f, r as int) == reach_right(f, j as int),
                reach_left(f, j as int) == l,
            decreases self.cells@.len() - r,
        {
            r += 1;
        }
        r - l
    }
}

} // verus!
