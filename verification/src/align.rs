//! Full-matrix local alignment of two oriented-segment paths, and the
//! driver that partitions a reference/query pair into inversion
//! subproblems and aligns each.
//!
//! Scores are length-weighted: matching a segment earns its length in
//! base pairs, consuming a segment without a match costs its length.

use std::collections::HashMap;
use std::collections::HashSet;
use vstd::prelude::*;

use crate::matrix::{
    grid_dims, score_cells, score_grid_argmax, score_grid_get, score_grid_set, score_grid_zeros,
    trace_cells, trace_grid_get, trace_grid_set, trace_grid_zeros, ScoreGrid, TraceGrid,
};
use crate::{
    abs_seg, amax, argmax, argmax4, entries_absable, lengths_positive, max4, path_covered,
    prefix_len, seg_len_of, total_len, InversionError,
};

verus! {

broadcast use vstd::std_specs::hash::group_hash_axioms;

/// A local alignment of a region of `path1` against a region of `path2`.
pub struct Alignment {
    /// segments aligned in path1
    pub alignment_path1: Vec<i32>,

    /// segments aligned in path2
    pub alignment_path2: Vec<i32>,

    /// start index of alignment in path1
    pub path1_start_index: i32,

    /// end index of alignment in path1
    pub path1_end_index: i32,
}

/// The dynamic-programming score of cell `(i, j)`.  Cells of the first
/// row and column use `-1` placeholders for missing predecessors and add
/// their own cell score after taking the maximum, mirroring the boundary
/// fill.
pub open spec fn score_at(p1: Seq<i32>, p2: Seq<i32>, sl: Map<i32, i32>, i: int, j: int) -> int
    decreases crate::max2(i, 0) + crate::max2(j, 0),
{
    if i <= 0 && j <= 0 {
        if p1[0] == p2[0] {
            seg_len_of(sl, p1[0])
        } else {
            -seg_len_of(sl, p1[0]) - seg_len_of(sl, p2[0])
        }
    } else if j <= 0 {
        max4(0, -1, score_at(p1, p2, sl, i - 1, j), -1) + (if p1[i] == p2[0] {
            seg_len_of(sl, p1[i])
        } else {
            -seg_len_of(sl, p1[i])
        })
    } else if i <= 0 {
        max4(0, -1, -1, score_at(p1, p2, sl, i, j - 1)) + (if p2[j] == p1[0] {
            seg_len_of(sl, p2[j])
        } else {
            -seg_len_of(sl, p2[j])
        })
    } else {
        let li = seg_len_of(sl, p1[i]);
        let lj = seg_len_of(sl, p2[j]);
        let d = score_at(p1, p2, sl, i - 1, j - 1);
        let u = score_at(p1, p2, sl, i - 1, j);
        let l = score_at(p1, p2, sl, i, j - 1);
        if p1[i] == p2[j] {
            max4(li, d + li, u + li, l + li)
        } else {
            max4(-li - lj, d - li - lj, u - li, l - lj)
        }
    }
}

/// The four candidate scores of cell `(i, j)`, indexed by the traceback
/// alphabet: start here, from the diagonal, from above, from the left.
/// `score_at(i, j)` is their maximum (plus the cell's own score on the
/// first row and column).
pub open spec fn cands_at(
    p1: Seq<i32>,
    p2: Seq<i32>,
    sl: Map<i32, i32>,
    i: int,
    j: int,
) -> (int, int, int, int) {
    if j <= 0 {
        (0, -1, score_at(p1, p2, sl, i - 1, j), -1)
    } else if i <= 0 {
        (0, -1, -1, score_at(p1, p2, sl, i, j - 1))
    } else {
        let li = seg_len_of(sl, p1[i]);
        let lj = seg_len_of(sl, p2[j]);
        let d = score_at(p1, p2, sl, i - 1, j - 1);
        let u = score_at(p1, p2, sl, i - 1, j);
        let l = score_at(p1, p2, sl, i, j - 1);
        if p1[i] == p2[j] {
            (li, d + li, u + li, l + li)
        } else {
            (-li - lj, d - li - lj, u - li, l - lj)
        }
    }
}

/// The traceback code of cell `(i, j)`: the lowest-index maximum of the
/// cell's candidates; the corner starts an alignment.
pub open spec fn tb_at(p1: Seq<i32>, p2: Seq<i32>, sl: Map<i32, i32>, i: int, j: int) -> int {
    if i <= 0 && j <= 0 {
        0
    } else {
        let c = cands_at(p1, p2, sl, i, j);
        argmax4(c.0, c.1, c.2, c.3)
    }
}

/// The traceback function of the full matrix, as a spec closure.
pub open spec fn full_tb_fn(p1: Seq<i32>, p2: Seq<i32>, sl: Map<i32, i32>) -> spec_fn(
    int,
    int,
) -> int {
    |i: int, j: int| tb_at(p1, p2, sl, i, j)
}

/// Scores lie within the summed lengths of the path prefixes they cover.
pub proof fn lemma_score_bound(p1: Seq<i32>, p2: Seq<i32>, sl: Map<i32, i32>, i: int, j: int)
    requires
        path_covered(p1, sl),
        path_covered(p2, sl),
        lengths_positive(sl),
        0 <= i < p1.len(),
        0 <= j < p2.len(),
    ensures
        -(prefix_len(p1, sl, i + 1) + prefix_len(p2, sl, j + 1)) <= score_at(p1, p2, sl, i, j)
            <= prefix_len(p1, sl, i + 1) + prefix_len(p2, sl, j + 1),
    decreases i + j,
{
    crate::lemma_prefix_len_nonneg(p1, sl, i);
    crate::lemma_prefix_len_nonneg(p2, sl, j);
    assert(sl.dom().contains(abs_seg(p1[i])));
    assert(sl.dom().contains(abs_seg(p2[j])));
    if i > 0 {
        lemma_score_bound(p1, p2, sl, i - 1, j);
        crate::lemma_prefix_len_monotonic(p2, sl, j, j + 1);
    }
    if j > 0 {
        lemma_score_bound(p1, p2, sl, i, j - 1);
        crate::lemma_prefix_len_monotonic(p1, sl, i, i + 1);
    }
    if i > 0 && j > 0 {
        lemma_score_bound(p1, p2, sl, i - 1, j - 1);
    }
}

/// Traceback codes only point at cells that exist: code 1 needs a
/// diagonal predecessor, code 2 a row above, code 3 a column to the left.
pub proof fn lemma_tb_valid(p1: Seq<i32>, p2: Seq<i32>, sl: Map<i32, i32>, i: int, j: int)
    requires
        0 <= i,
        0 <= j,
    ensures
        0 <= tb_at(p1, p2, sl, i, j) <= 3,
        tb_at(p1, p2, sl, i, j) == 1 ==> i > 0 && j > 0,
        tb_at(p1, p2, sl, i, j) == 2 ==> i > 0,
        tb_at(p1, p2, sl, i, j) == 3 ==> j > 0,
{
}

/// The cell reached from `(i, j)` by the traceback code `c`; a cell that
/// starts an alignment, or a code that would leave the matrix, maps to
/// the cell itself.
pub open spec fn walk_next(c: int, i: int, j: int) -> (int, int) {
    if c == 1 && i > 0 && j > 0 {
        (i - 1, j - 1)
    } else if c == 2 && i > 0 {
        (i - 1, j)
    } else if c == 3 && j > 0 {
        (i, j - 1)
    } else {
        (i, j)
    }
}

/// True when the traceback walk stops at `(i, j)`.
pub open spec fn walk_stops(tb: spec_fn(int, int) -> int, i: int, j: int) -> bool {
    walk_next(tb(i, j), i, j) == (i, j)
}

/// The cell where the traceback walk from `(i, j)` terminates.
pub open spec fn walk_end(tb: spec_fn(int, int) -> int, i: int, j: int) -> (int, int)
    decreases i + j,
    when 0 <= i && 0 <= j
{
    if walk_stops(tb, i, j) {
        (i, j)
    } else {
        walk_end(tb, walk_next(tb(i, j), i, j).0, walk_next(tb(i, j), i, j).1)
    }
}

/// The values seen along the traceback walk from `(i, j)`, in visit order
/// (from the walk's origin back to where it stops).  `vals` picks the
/// value a cell contributes: `p1[i]` for the first path, `p2[j]` for the
/// second.
pub open spec fn walk_vals(
    vals: spec_fn(int, int) -> i32,
    tb: spec_fn(int, int) -> int,
    i: int,
    j: int,
) -> Seq<i32>
    decreases i + j,
    when 0 <= i && 0 <= j
{
    if walk_stops(tb, i, j) {
        seq![vals(i, j)]
    } else {
        seq![vals(i, j)] + walk_vals(
            vals,
            tb,
            walk_next(tb(i, j), i, j).0,
            walk_next(tb(i, j), i, j).1,
        )
    }
}

/// The value `p1[i]` of a cell, as a spec closure.
pub open spec fn p1_vals(p1: Seq<i32>) -> spec_fn(int, int) -> i32 {
    |i: int, j: int| p1[i]
}

/// The value `p2[j]` of a cell, as a spec closure.
pub open spec fn p2_vals(p2: Seq<i32>) -> spec_fn(int, int) -> i32 {
    |i: int, j: int| p2[j]
}

/// Traceback functions that agree on every cell at or below `(i, j)`
/// drive the walk from `(i, j)` to the same terminal over the same
/// values.
pub(crate) proof fn lemma_walk_agree(
    vals: spec_fn(int, int) -> i32,
    tb1: spec_fn(int, int) -> int,
    tb2: spec_fn(int, int) -> int,
    i: int,
    j: int,
)
    requires
        0 <= i,
        0 <= j,
        forall|a: int, b: int| 0 <= a <= i && 0 <= b <= j ==> #[trigger] tb1(a, b) == tb2(a, b),
    ensures
        walk_end(tb1, i, j) == walk_end(tb2, i, j),
        walk_vals(vals, tb1, i, j) == walk_vals(vals, tb2, i, j),
    decreases i + j,
{
    assert(tb1(i, j) == tb2(i, j));
    if !walk_stops(tb1, i, j) {
        let nxt = walk_next(tb1(i, j), i, j);
        lemma_walk_agree(vals, tb1, tb2, nxt.0, nxt.1);
    }
}

/// `s` with each element that repeats its predecessor removed.
pub open spec fn dedup_adjacent(s: Seq<i32>) -> Seq<i32>
    decreases s.len(),
{
    if s.len() == 0 {
        Seq::<i32>::empty()
    } else {
        let r = dedup_adjacent(s.drop_last());
        if r.len() > 0 && r.last() == s.last() {
            r
        } else {
            r.push(s.last())
        }
    }
}

/// `idx` witnesses that `a` is a subsequence of `p` picked from positions
/// between `lo` and `hi` inclusive.
pub open spec fn picks_from(a: Seq<i32>, p: Seq<i32>, idx: Seq<int>, lo: int, hi: int) -> bool {
    &&& idx.len() == a.len()
    &&& forall|k: int|
        0 <= k < a.len() ==> lo <= #[trigger] idx[k] <= hi && 0 <= idx[k] < p.len() && p[idx[k]]
            == a[k]
    &&& forall|k: int| 1 <= k < a.len() ==> idx[k - 1] < #[trigger] idx[k]
}

/// `a` is a subsequence of `p` picked from positions between `lo` and
/// `hi` inclusive.
pub open spec fn is_subseq_within(a: Seq<i32>, p: Seq<i32>, lo: int, hi: int) -> bool {
    exists|idx: Seq<int>| picks_from(a, p, idx, lo, hi)
}

/// `s` has no two consecutive equal entries.
pub open spec fn no_adjacent_repeat(s: Seq<i32>) -> bool {
    forall|k: int| 1 <= k < s.len() ==> s[k - 1] != #[trigger] s[k]
}

/// One step of the traceback walk: where the walk does not stop at
/// `(i, j)`, the walked values from `(i, j)` are the cell's own value
/// followed by the values from the next cell, and the walk's terminal
/// cell is unchanged.
pub(crate) proof fn lemma_walk_step(
    vals: spec_fn(int, int) -> i32,
    tb: spec_fn(int, int) -> int,
    i: int,
    j: int,
    pre: Seq<i32>,
)
    requires
        0 <= i,
        0 <= j,
        !walk_stops(tb, i, j),
    ensures
        walk_end(tb, i, j) == walk_end(tb, walk_next(tb(i, j), i, j).0, walk_next(tb(i, j), i, j).1),
        pre.push(vals(i, j)) + walk_vals(
            vals,
            tb,
            walk_next(tb(i, j), i, j).0,
            walk_next(tb(i, j), i, j).1,
        ) == pre + walk_vals(vals, tb, i, j),
{
    assert(pre.push(vals(i, j)) + walk_vals(
        vals,
        tb,
        walk_next(tb(i, j), i, j).0,
        walk_next(tb(i, j), i, j).1,
    ) =~= pre + (seq![vals(i, j)] + walk_vals(
        vals,
        tb,
        walk_next(tb(i, j), i, j).0,
        walk_next(tb(i, j), i, j).1,
    )));
}

/// The last step of the traceback walk: where the walk stops at
/// `(i, j)`, it yields the cell's own value alone and terminates there.
pub(crate) proof fn lemma_walk_last(
    vals: spec_fn(int, int) -> i32,
    tb: spec_fn(int, int) -> int,
    i: int,
    j: int,
    pre: Seq<i32>,
)
    requires
        0 <= i,
        0 <= j,
        walk_stops(tb, i, j),
    ensures
        walk_end(tb, i, j) == (i, j),
        pre + walk_vals(vals, tb, i, j) == pre.push(vals(i, j)),
{
    assert(pre + walk_vals(vals, tb, i, j) =~= pre.push(vals(i, j)));
}

/// Appending an element to a sequence extends its collapsed form exactly
/// when the element differs from the last collapsed entry.
pub(crate) proof fn lemma_dedup_push(s: Seq<i32>, x: i32)
    ensures
        dedup_adjacent(s).len() > 0 && dedup_adjacent(s).last() == x ==> dedup_adjacent(s.push(x))
            == dedup_adjacent(s),
        !(dedup_adjacent(s).len() > 0 && dedup_adjacent(s).last() == x) ==> dedup_adjacent(
            s.push(x),
        ) == dedup_adjacent(s).push(x),
{
    assert(s.push(x).drop_last() =~= s);
}

/// `(oi, oj)` is the cell holding the maximum score, the lexicographically
/// smallest such cell in a row-major scan.
pub open spec fn is_first_score_max(
    p1: Seq<i32>,
    p2: Seq<i32>,
    sl: Map<i32, i32>,
    oi: int,
    oj: int,
) -> bool {
    &&& 0 <= oi < p1.len()
    &&& 0 <= oj < p2.len()
    &&& forall|a: int, b: int|
        0 <= a < p1.len() && 0 <= b < p2.len() ==> #[trigger] score_at(p1, p2, sl, a, b)
            <= score_at(p1, p2, sl, oi, oj)
    &&& forall|a: int, b: int|
        0 <= a < p1.len() && 0 <= b < p2.len() && (a < oi || (a == oi && b < oj))
            ==> #[trigger] score_at(p1, p2, sl, a, b) < score_at(p1, p2, sl, oi, oj)
}

/// Looks up the length of segment `s`, which the map is known to cover.
pub(crate) fn seg_length(segment_lengths: &HashMap<i32, i32>, s: i32) -> (l: i32)
    requires
        s != i32::MIN,
        segment_lengths@.dom().contains(abs_seg(s)),
        lengths_positive(segment_lengths@),
    ensures
        l as int == seg_len_of(segment_lengths@, s),
        l >= 1,
{
    let a: i32 = if s < 0 {
        -s
    } else {
        s
    };
    match segment_lengths.get(&a) {
        Some(l) => *l,
        None => vstd::pervasive::unreached(),
    }
}

/// Characterizes the results of `amax` and `argmax` on a four-entry
/// tuple: they are `max4` and `argmax4`.
pub(crate) proof fn lemma_max_argmax4(s: Seq<i32>, m: i32, r: int)
    requires
        s.len() == 4,
        exists|k: int| 0 <= k < 4 && s[k] == m,
        forall|k: int| 0 <= k < 4 ==> #[trigger] s[k] <= m,
        0 <= r < 4,
        forall|k: int| 0 <= k < 4 ==> #[trigger] s[k] <= s[r],
        forall|k: int| 0 <= k < r ==> #[trigger] s[k] < s[r],
    ensures
        m as int == max4(s[0] as int, s[1] as int, s[2] as int, s[3] as int),
        r == argmax4(s[0] as int, s[1] as int, s[2] as int, s[3] as int),
{
    assert(s[0] <= m && s[1] <= m && s[2] <= m && s[3] <= m);
    assert(s[0] == m || s[1] == m || s[2] == m || s[3] == m);
}

/// Reads one cell of a score matrix.
pub fn score_cell(g: &ScoreGrid, i: usize, j: usize) -> (v: i32)
    requires
        i < score_cells(*g).len(),
        j < score_cells(*g)[i as int].len(),
    ensures
        v == score_cells(*g)[i as int][j as int],
{
    score_grid_get(g, i, j)
}

/// Reads one cell of a traceback matrix.
pub fn traceback_cell(g: &TraceGrid, i: usize, j: usize) -> (v: i8)
    requires
        i < trace_cells(*g).len(),
        j < trace_cells(*g)[i as int].len(),
    ensures
        v == trace_cells(*g)[i as int][j as int],
{
    trace_grid_get(g, i, j)
}

/// Create alignment matrices with edges filled.
///
/// The returned score and traceback matrices have the first row and
/// column filled according to the boundary rule (missing predecessors are
/// `-1` placeholders that a larger real score displaces) and zeros
/// everywhere else.  Traceback codes: 0 starts an alignment here, 1 comes
/// from the diagonal, 2 from above, 3 from the left.
pub fn create_matrices(
    path1: &[i32],
    path2: &[i32],
    segment_lengths: &HashMap<i32, i32>,
) -> (r: (ScoreGrid, TraceGrid))
    requires
        0 < path1@.len(),
        0 < path2@.len(),
        entries_absable(path1@),
        entries_absable(path2@),
        path_covered(path1@, segment_lengths@),
        path_covered(path2@, segment_lengths@),
        lengths_positive(segment_lengths@),
        total_len(path1@, segment_lengths@) + total_len(path2@, segment_lengths@) <= i32::MAX,
    ensures
        grid_dims(score_cells(r.0), path1@.len() as int, path2@.len() as int),
        grid_dims(trace_cells(r.1), path1@.len() as int, path2@.len() as int),
        forall|i: int|
            0 <= i < path1@.len() ==> #[trigger] score_cells(r.0)[i][0] as int == score_at(
                path1@,
                path2@,
                segment_lengths@,
                i,
                0,
            ),
        forall|j: int|
            0 <= j < path2@.len() ==> #[trigger] score_cells(r.0)[0][j] as int == score_at(
                path1@,
                path2@,
                segment_lengths@,
                0,
                j,
            ),
        forall|i: int|
            0 <= i < path1@.len() ==> #[trigger] trace_cells(r.1)[i][0] as int == tb_at(
                path1@,
                path2@,
                segment_lengths@,
                i,
                0,
            ),
        forall|j: int|
            0 <= j < path2@.len() ==> #[trigger] trace_cells(r.1)[0][j] as int == tb_at(
                path1@,
                path2@,
                segment_lengths@,
                0,
                j,
            ),
        forall|i: int, j: int|
            1 <= i < path1@.len() && 1 <= j < path2@.len() ==> #[trigger] score_cells(r.0)[i][j]
                == 0i32,
        forall|i: int, j: int|
            1 <= i < path1@.len() && 1 <= j < path2@.len() ==> #[trigger] trace_cells(r.1)[i][j]
                == 0i8,
{
    let n: usize = path1.len();
    let m: usize = path2.len();
    let ghost p1 = path1@;
    let ghost p2 = path2@;
    let ghost sl = segment_lengths@;
    proof {
        crate::lemma_prefix_len_nonneg(p1, sl, p1.len() as int);
        crate::lemma_prefix_len_nonneg(p2, sl, p2.len() as int);
        assert(n as int * m as int <= 0x7fff_ffff_ffff_ffff) by (nonlinear_arith)
            requires
                0 < n <= 0x7fff_ffff,
                0 < m <= 0x7fff_ffff,
        ;
    }
    let mut score_matrix = score_grid_zeros(n, m);
    let mut traceback_matrix = trace_grid_zeros(n, m);

    // fill in the corner
    let l1: i32 = seg_length(segment_lengths, path1[0]);
    let l2: i32 = seg_length(segment_lengths, path2[0]);
    proof {
        assert(prefix_len(p1, sl, 0) == 0);
        assert(prefix_len(p2, sl, 0) == 0);
        assert(prefix_len(p1, sl, 1) == seg_len_of(sl, p1[0]));
        assert(prefix_len(p2, sl, 1) == seg_len_of(sl, p2[0]));
        crate::lemma_prefix_len_monotonic(p1, sl, 1, p1.len() as int);
        crate::lemma_prefix_len_monotonic(p2, sl, 1, p2.len() as int);
    }
    let corner: i32 = if path1[0] == path2[0] {
        l1
    } else {
        -l1 - l2
    };
    score_grid_set(&mut score_matrix, 0, 0, corner);

    // fill in the first column
    let mut i: usize = 1;
    while i < n
        invariant
            1 <= i <= n,
            n == p1.len(),
            m == p2.len(),
            0 < n,
            0 < m,
            path1@ == p1,
            path2@ == p2,
            segment_lengths@ == sl,
            entries_absable(p1),
            entries_absable(p2),
            path_covered(p1, sl),
            path_covered(p2, sl),
            lengths_positive(sl),
            total_len(p1, sl) + total_len(p2, sl) <= i32::MAX,
            grid_dims(score_cells(score_matrix), n as int, m as int),
            grid_dims(trace_cells(traceback_matrix), n as int, m as int),
            forall|k: int|
                0 <= k < i ==> #[trigger] score_cells(score_matrix)[k][0] as int == score_at(
                    p1,
                    p2,
                    sl,
                    k,
                    0,
                ),
            forall|k: int|
                0 <= k < i ==> #[trigger] trace_cells(traceback_matrix)[k][0] as int == tb_at(
                    p1,
                    p2,
                    sl,
                    k,
                    0,
                ),
            forall|a: int, b: int|
                0 <= a < n && 1 <= b < m ==> #[trigger] score_cells(score_matrix)[a][b] == 0i32,
            forall|a: int, b: int|
                0 <= a < n && 1 <= b < m ==> #[trigger] trace_cells(traceback_matrix)[a][b]
                    == 0i8,
            forall|a: int| i <= a < n ==> #[trigger] score_cells(score_matrix)[a][0] == 0i32,
            forall|a: int|
                i <= a < n ==> #[trigger] trace_cells(traceback_matrix)[a][0] == 0i8,
        decreases n - i,
    {
        let li: i32 = seg_length(segment_lengths, path1[i]);
        let this_cell_score: i32 = if path1[i] == path2[0] {
            li
        } else {
            -li
        };
        let prev: i32 = score_grid_get(&score_matrix, i - 1, 0);
        let possible_scores: [i32; 4] = [0, -1, prev, -1];
        let mx: i32 = amax(&possible_scores);
        let am: i32 = argmax(&possible_scores);
        proof {
            lemma_max_argmax4(possible_scores@, mx, am as int);
            lemma_score_bound(p1, p2, sl, i as int - 1, 0);
            lemma_score_bound(p1, p2, sl, i as int, 0);
            crate::lemma_prefix_len_monotonic(p1, sl, i as int + 1, p1.len() as int);
            crate::lemma_prefix_len_monotonic(p2, sl, 1, p2.len() as int);
            crate::lemma_prefix_len_nonneg(p1, sl, i as int);
            crate::lemma_prefix_len_nonneg(p2, sl, 1);
        }
        let cell: i32 = mx + this_cell_score;
        score_grid_set(&mut score_matrix, i, 0, cell);
        #[allow(clippy::cast_possible_truncation)]
        let code: i8 = am as i8;
        trace_grid_set(&mut traceback_matrix, i, 0, code);
        proof {
            assert(score_cells(score_matrix)[i as int][0] as int == score_at(
                p1,
                p2,
                sl,
                i as int,
                0,
            ));
            assert(trace_cells(traceback_matrix)[i as int][0] as int == tb_at(
                p1,
                p2,
                sl,
                i as int,
                0,
            ));
        }
        i = i + 1;
    }

    // fill in the first row
    let mut j: usize = 1;
    while j < m
        invariant
            1 <= j <= m,
            n == p1.len(),
            m == p2.len(),
            0 < n,
            0 < m,
            path1@ == p1,
            path2@ == p2,
            segment_lengths@ == sl,
            entries_absable(p1),
            entries_absable(p2),
            path_covered(p1, sl),
            path_covered(p2, sl),
            lengths_positive(sl),
            total_len(p1, sl) + total_len(p2, sl) <= i32::MAX,
            grid_dims(score_cells(score_matrix), n as int, m as int),
            grid_dims(trace_cells(traceback_matrix), n as int, m as int),
            forall|k: int|
                0 <= k < n ==> #[trigger] score_cells(score_matrix)[k][0] as int == score_at(
                    p1,
                    p2,
                    sl,
                    k,
                    0,
                ),
            forall|k: int|
                0 <= k < n ==> #[trigger] trace_cells(traceback_matrix)[k][0] as int == tb_at(
                    p1,
                    p2,
                    sl,
                    k,
                    0,
                ),
            forall|k: int|
                1 <= k < j ==> #[trigger] score_cells(score_matrix)[0][k] as int == score_at(
                    p1,
                    p2,
                    sl,
                    0,
                    k,
                ),
            forall|k: int|
                1 <= k < j ==> #[trigger] trace_cells(traceback_matrix)[0][k] as int == tb_at(
                    p1,
                    p2,
                    sl,
                    0,
                    k,
                ),
            forall|a: int, b: int|
                1 <= a < n && 1 <= b < m ==> #[trigger] score_cells(score_matrix)[a][b] == 0i32,
            forall|a: int, b: int|
                1 <= a < n && 1 <= b < m ==> #[trigger] trace_cells(traceback_matrix)[a][b]
                    == 0i8,
            forall|b: int| j <= b < m ==> #[trigger] score_cells(score_matrix)[0][b] == 0i32,
            forall|b: int|
                j <= b < m ==> #[trigger] trace_cells(traceback_matrix)[0][b] == 0i8,
        decreases m - j,
    {
        let lj: i32 = seg_length(segment_lengths, path2[j]);
        let this_cell_score: i32 = if path2[j] == path1[0] {
            lj
        } else {
            -lj
        };
        let prev: i32 = score_grid_get(&score_matrix, 0, j - 1);
        let possible_scores: [i32; 4] = [0, -1, -1, prev];
        let mx: i32 = amax(&possible_scores);
        let am: i32 = argmax(&possible_scores);
        proof {
            lemma_max_argmax4(possible_scores@, mx, am as int);
            lemma_score_bound(p1, p2, sl, 0, j as int - 1);
            lemma_score_bound(p1, p2, sl, 0, j as int);
            crate::lemma_prefix_len_monotonic(p2, sl, j as int + 1, p2.len() as int);
            crate::lemma_prefix_len_monotonic(p1, sl, 1, p1.len() as int);
            crate::lemma_prefix_len_nonneg(p1, sl, 1);
            crate::lemma_prefix_len_nonneg(p2, sl, j as int);
        }
        let cell: i32 = mx + this_cell_score;
        score_grid_set(&mut score_matrix, 0, j, cell);
        #[allow(clippy::cast_possible_truncation)]
        let code: i8 = am as i8;
        trace_grid_set(&mut traceback_matrix, 0, j, code);
        proof {
            assert(score_cells(score_matrix)[0][j as int] as int == score_at(
                p1,
                p2,
                sl,
                0,
                j as int,
            ));
            assert(trace_cells(traceback_matrix)[0][j as int] as int == tb_at(
                p1,
                p2,
                sl,
                0,
                j as int,
            ));
        }
        j = j + 1;
    }

    (score_matrix, traceback_matrix)
}

/// Everything `alignment_from_walk` guarantees about an alignment built
/// by walking the traceback function `tb` from the origin cell
/// `(oi, oj)`: the recorded indices delimit the walk, both paths are the
/// walk's values with consecutive duplicates collapsed (in matrix order),
/// and each is a subsequence of its path restricted to the walked range.
pub open spec fn alignment_from_walk(
    al: Alignment,
    p1: Seq<i32>,
    p2: Seq<i32>,
    tb: spec_fn(int, int) -> int,
    oi: int,
    oj: int,
) -> bool {
    let term = walk_end(tb, oi, oj);
    &&& al.path1_end_index == oi
    &&& al.path1_start_index == term.0
    &&& 0 <= term.0 <= oi < p1.len()
    &&& 0 <= term.1 <= oj < p2.len()
    &&& al.alignment_path1@ == dedup_adjacent(walk_vals(p1_vals(p1), tb, oi, oj)).reverse()
    &&& al.alignment_path2@ == dedup_adjacent(walk_vals(p2_vals(p2), tb, oi, oj)).reverse()
    &&& al.alignment_path1@.len() > 0
    &&& al.alignment_path2@.len() > 0
    &&& no_adjacent_repeat(al.alignment_path1@)
    &&& no_adjacent_repeat(al.alignment_path2@)
    &&& is_subseq_within(al.alignment_path1@, p1, term.0, oi)
    &&& is_subseq_within(al.alignment_path2@, p2, term.1, oj)
}

/// A `Vec` with the elements of `v` in reverse order.
pub(crate) fn reversed_vec(v: &Vec<i32>) -> (r: Vec<i32>)
    ensures
        r@ == v@.reverse(),
{
    let mut r: Vec<i32> = Vec::new();
    let mut k: usize = v.len();
    while k > 0
        invariant
            k <= v@.len(),
            r@.len() == v@.len() - k,
            forall|t: int| 0 <= t < r@.len() ==> r@[t] == v@[v@.len() - 1 - t],
        decreases k,
    {
        k = k - 1;
        r.push(v[k]);
    }
    proof {
        assert(r@ =~= v@.reverse());
    }
    r
}

/// Walks the traceback matrix back from the score matrix's maximum,
/// collecting the aligned segments of both paths.
#[verifier::rlimit(100)]
fn traceback(
    path1: &[i32],
    path2: &[i32],
    score_matrix: &ScoreGrid,
    traceback_matrix: &TraceGrid,
    Ghost(sl): Ghost<Map<i32, i32>>,
) -> (r: Alignment)
    requires
        0 < path1@.len() <= i32::MAX,
        0 < path2@.len() <= i32::MAX,
        grid_dims(score_cells(*score_matrix), path1@.len() as int, path2@.len() as int),
        grid_dims(trace_cells(*traceback_matrix), path1@.len() as int, path2@.len() as int),
        forall|a: int, b: int|
            0 <= a < path1@.len() && 0 <= b < path2@.len() ==> #[trigger] score_cells(
                *score_matrix,
            )[a][b] as int == score_at(path1@, path2@, sl, a, b),
        forall|a: int, b: int|
            0 <= a < path1@.len() && 0 <= b < path2@.len() ==> #[trigger] trace_cells(
                *traceback_matrix,
            )[a][b] as int == tb_at(path1@, path2@, sl, a, b),
    ensures
        exists|oi: int, oj: int|
            is_first_score_max(path1@, path2@, sl, oi, oj) && alignment_from_walk(
                r,
                path1@,
                path2@,
                full_tb_fn(path1@, path2@, sl),
                oi,
                oj,
            ),
{
    let ghost p1 = path1@;
    let ghost p2 = path2@;
    let ghost tbf = full_tb_fn(p1, p2, sl);
    let n: usize = path1.len();
    let m: usize = path2.len();

    let (oi, oj) = score_grid_argmax(score_matrix);
    proof {
        assert forall|a: int, b: int| 0 <= a < p1.len() && 0 <= b < p2.len() implies #[trigger] score_at(
            p1,
            p2,
            sl,
            a,
            b,
        ) <= score_at(p1, p2, sl, oi as int, oj as int) by {
            assert(score_cells(*score_matrix)[a][b] as int == score_at(p1, p2, sl, a, b));
            assert(score_cells(*score_matrix)[oi as int][oj as int] as int == score_at(
                p1,
                p2,
                sl,
                oi as int,
                oj as int,
            ));
        }
        assert forall|a: int, b: int|
            0 <= a < p1.len() && 0 <= b < p2.len() && (a < oi || (a == oi && b
                < oj)) implies #[trigger] score_at(p1, p2, sl, a, b) < score_at(
            p1,
            p2,
            sl,
            oi as int,
            oj as int,
        ) by {
            assert(score_cells(*score_matrix)[a][b] as int == score_at(p1, p2, sl, a, b));
            assert(score_cells(*score_matrix)[oi as int][oj as int] as int == score_at(
                p1,
                p2,
                sl,
                oi as int,
                oj as int,
            ));
        }
        assert(is_first_score_max(p1, p2, sl, oi as int, oj as int));
    }
    let path1_end_index: usize = oi;
    let mut i: usize = oi;
    let mut j: usize = oj;
    let mut alignment_end_reached: bool = false;
    let mut alignment_path1: Vec<i32> = Vec::new();
    let mut alignment_path2: Vec<i32> = Vec::new();
    let ghost mut visited1: Seq<i32> = Seq::empty();
    let ghost mut visited2: Seq<i32> = Seq::empty();
    let ghost mut w1: Seq<int> = Seq::empty();
    let ghost mut w2: Seq<int> = Seq::empty();

    while !alignment_end_reached
        invariant
            0 <= i <= oi < n,
            0 <= j <= oj < m,
            n == p1.len(),
            m == p2.len(),
            path1@ == p1,
            path2@ == p2,
            tbf == full_tb_fn(p1, p2, sl),
            grid_dims(trace_cells(*traceback_matrix), n as int, m as int),
            forall|a: int, b: int|
                0 <= a < n && 0 <= b < m ==> #[trigger] trace_cells(*traceback_matrix)[a][b] as int
                    == tb_at(p1, p2, sl, a, b),
            !alignment_end_reached ==> walk_vals(p1_vals(p1), tbf, oi as int, oj as int)
                == visited1 + walk_vals(p1_vals(p1), tbf, i as int, j as int),
            !alignment_end_reached ==> walk_vals(p2_vals(p2), tbf, oi as int, oj as int)
                == visited2 + walk_vals(p2_vals(p2), tbf, i as int, j as int),
            !alignment_end_reached ==> walk_end(tbf, oi as int, oj as int) == walk_end(
                tbf,
                i as int,
                j as int,
            ),
            alignment_end_reached ==> walk_vals(p1_vals(p1), tbf, oi as int, oj as int)
                == visited1,
            alignment_end_reached ==> walk_vals(p2_vals(p2), tbf, oi as int, oj as int)
                == visited2,
            alignment_end_reached ==> walk_end(tbf, oi as int, oj as int) == (i as int, j as int),
            alignment_path1@ == dedup_adjacent(visited1),
            alignment_path2@ == dedup_adjacent(visited2),
            no_adjacent_repeat(alignment_path1@),
            no_adjacent_repeat(alignment_path2@),
            w1.len() == alignment_path1@.len(),
            w2.len() == alignment_path2@.len(),
            forall|k: int|
                0 <= k < w1.len() ==> i <= #[trigger] w1[k] <= oi && p1[w1[k]]
                    == alignment_path1@[k],
            forall|k: int|
                0 <= k < w2.len() ==> j <= #[trigger] w2[k] <= oj && p2[w2[k]]
                    == alignment_path2@[k],
            forall|k: int| 1 <= k < w1.len() ==> #[trigger] w1[k] < w1[k - 1],
            forall|k: int| 1 <= k < w2.len() ==> #[trigger] w2[k] < w2[k - 1],
        decreases i + j + (if alignment_end_reached {
            0int
        } else {
            1int
        }),
    {
        let segment_path1: i32 = path1[i];
        let segment_path2: i32 = path2[j];
        let push1: bool = alignment_path1.len() == 0 || alignment_path1[alignment_path1.len() - 1]
            != segment_path1;
        if push1 {
            alignment_path1.push(segment_path1);
            proof {
                w1 = w1.push(i as int);
            }
        }
        let push2: bool = alignment_path2.len() == 0 || alignment_path2[alignment_path2.len() - 1]
            != segment_path2;
        if push2 {
            alignment_path2.push(segment_path2);
            proof {
                w2 = w2.push(j as int);
            }
        }
        let code: i8 = trace_grid_get(traceback_matrix, i, j);
        proof {
            lemma_tb_valid(p1, p2, sl, i as int, j as int);
            assert(tbf(i as int, j as int) == tb_at(p1, p2, sl, i as int, j as int));
            lemma_dedup_push(visited1, segment_path1);
            lemma_dedup_push(visited2, segment_path2);
            if code == 0 {
                lemma_walk_last(p1_vals(p1), tbf, i as int, j as int, visited1);
                lemma_walk_last(p2_vals(p2), tbf, i as int, j as int, visited2);
            } else {
                lemma_walk_step(p1_vals(p1), tbf, i as int, j as int, visited1);
                lemma_walk_step(p2_vals(p2), tbf, i as int, j as int, visited2);
            }
            visited1 = visited1.push(segment_path1);
            visited2 = visited2.push(segment_path2);
        }
        if code == 1 {
            i = i - 1;
            j = j - 1;
        } else if code == 2 {
            i = i - 1;
        } else if code == 3 {
            j = j - 1;
        } else {
            alignment_end_reached = true;
        }
    }
    let path1_start_index: usize = i;
    let r1: Vec<i32> = reversed_vec(&alignment_path1);
    let r2: Vec<i32> = reversed_vec(&alignment_path2);
    proof {
        assert(no_adjacent_repeat(r1@));
        assert(no_adjacent_repeat(r2@));
        assert(picks_from(r1@, p1, w1.reverse(), i as int, oi as int));
        assert(picks_from(r2@, p2, w2.reverse(), j as int, oj as int));
    }
    Alignment {
        alignment_path1: r1,
        alignment_path2: r2,
        path1_start_index: path1_start_index as i32,
        path1_end_index: path1_end_index as i32,
    }
}

/// Aligns two paths whose segments are all covered by the length map:
/// fills the score and traceback matrices and walks back from the score
/// maximum.
pub(crate) fn align_subproblem_checked(
    path1: &[i32],
    path2: &[i32],
    segment_lengths: &HashMap<i32, i32>,
) -> (r: Alignment)
    requires
        0 < path1@.len(),
        0 < path2@.len(),
        entries_absable(path1@),
        entries_absable(path2@),
        path_covered(path1@, segment_lengths@),
        path_covered(path2@, segment_lengths@),
        lengths_positive(segment_lengths@),
        total_len(path1@, segment_lengths@) + total_len(path2@, segment_lengths@) <= i32::MAX,
    ensures
        exists|oi: int, oj: int|
            is_first_score_max(path1@, path2@, segment_lengths@, oi, oj) && alignment_from_walk(
                r,
                path1@,
                path2@,
                full_tb_fn(path1@, path2@, segment_lengths@),
                oi,
                oj,
            ),
{
    let ghost p1 = path1@;
    let ghost p2 = path2@;
    let ghost sl = segment_lengths@;
    let n: usize = path1.len();
    let m: usize = path2.len();
    proof {
        crate::lemma_prefix_len_nonneg(p1, sl, n as int);
        crate::lemma_prefix_len_nonneg(p2, sl, m as int);
    }
    let (mut score_matrix, mut traceback_matrix) = create_matrices(path1, path2, segment_lengths);

    let mut i: usize = 1;
    while i < n
        invariant
            1 <= i <= n,
            n == p1.len(),
            m == p2.len(),
            0 < n <= i32::MAX,
            0 < m <= i32::MAX,
            path1@ == p1,
            path2@ == p2,
            segment_lengths@ == sl,
            entries_absable(p1),
            entries_absable(p2),
            path_covered(p1, sl),
            path_covered(p2, sl),
            lengths_positive(sl),
            total_len(p1, sl) + total_len(p2, sl) <= i32::MAX,
            grid_dims(score_cells(score_matrix), n as int, m as int),
            grid_dims(trace_cells(traceback_matrix), n as int, m as int),
            forall|a: int, b: int|
                (0 <= a < i && 0 <= b < m) || (0 <= a < n && b == 0) ==> #[trigger] score_cells(
                    score_matrix,
                )[a][b] as int == score_at(p1, p2, sl, a, b),
            forall|a: int, b: int|
                (0 <= a < i && 0 <= b < m) || (0 <= a < n && b == 0) ==> #[trigger] trace_cells(
                    traceback_matrix,
                )[a][b] as int == tb_at(p1, p2, sl, a, b),
        decreases n - i,
    {
        let li: i32 = seg_length(segment_lengths, path1[i]);
        let mut j: usize = 1;
        while j < m
            invariant
                1 <= i < n,
                1 <= j <= m,
                n == p1.len(),
                m == p2.len(),
                0 < n <= i32::MAX,
                0 < m <= i32::MAX,
                path1@ == p1,
                path2@ == p2,
                segment_lengths@ == sl,
                entries_absable(p1),
                entries_absable(p2),
                path_covered(p1, sl),
                path_covered(p2, sl),
                lengths_positive(sl),
                total_len(p1, sl) + total_len(p2, sl) <= i32::MAX,
                li as int == seg_len_of(sl, p1[i as int]),
                li >= 1,
                grid_dims(score_cells(score_matrix), n as int, m as int),
                grid_dims(trace_cells(traceback_matrix), n as int, m as int),
                forall|a: int, b: int|
                    (0 <= a < i && 0 <= b < m) || (0 <= a < n && b == 0) || (a == i && 1 <= b < j)
                        ==> #[trigger] score_cells(score_matrix)[a][b] as int == score_at(
                        p1,
                        p2,
                        sl,
                        a,
                        b,
                    ),
                forall|a: int, b: int|
                    (0 <= a < i && 0 <= b < m) || (0 <= a < n && b == 0) || (a == i && 1 <= b < j)
                        ==> #[trigger] trace_cells(traceback_matrix)[a][b] as int == tb_at(
                        p1,
                        p2,
                        sl,
                        a,
                        b,
                    ),
            decreases m - j,
        {
            let lj: i32 = seg_length(segment_lengths, path2[j]);
            let d: i32 = score_grid_get(&score_matrix, i - 1, j - 1);
            let u: i32 = score_grid_get(&score_matrix, i - 1, j);
            let l: i32 = score_grid_get(&score_matrix, i, j - 1);
            proof {
                lemma_score_bound(p1, p2, sl, i as int - 1, j as int - 1);
                lemma_score_bound(p1, p2, sl, i as int - 1, j as int);
                lemma_score_bound(p1, p2, sl, i as int, j as int - 1);
                crate::lemma_prefix_len_nonneg(p1, sl, i as int - 1);
                crate::lemma_prefix_len_nonneg(p2, sl, j as int - 1);
                crate::lemma_prefix_len_monotonic(p1, sl, i as int + 1, n as int);
                crate::lemma_prefix_len_monotonic(p2, sl, j as int + 1, m as int);
                crate::lemma_prefix_len_nonneg(p1, sl, n as int);
                crate::lemma_prefix_len_nonneg(p2, sl, m as int);
                assert(prefix_len(p1, sl, i as int + 1) == prefix_len(p1, sl, i as int)
                    + seg_len_of(sl, p1[i as int]));
                assert(prefix_len(p2, sl, j as int + 1) == prefix_len(p2, sl, j as int)
                    + seg_len_of(sl, p2[j as int]));
            }
            let possible_scores: [i32; 4] = if path1[i] == path2[j] {
                [li, d + li, u + li, l + li]
            } else {
                [-li - lj, d - li - lj, u - li, l - lj]
            };
            let mx: i32 = amax(&possible_scores);
            let am: i32 = argmax(&possible_scores);
            proof {
                lemma_max_argmax4(possible_scores@, mx, am as int);
                assert(mx as int == score_at(p1, p2, sl, i as int, j as int));
                assert(am as int == tb_at(p1, p2, sl, i as int, j as int));
            }
            score_grid_set(&mut score_matrix, i, j, mx);
            #[allow(clippy::cast_possible_truncation)]
            let code: i8 = am as i8;
            trace_grid_set(&mut traceback_matrix, i, j, code);
            j = j + 1;
        }
        i = i + 1;
    }

    traceback(path1, path2, &score_matrix, &traceback_matrix, Ghost(sl))
}

/// Perform an alignment subproblem.
///
/// An alignment subproblem is one where neither of the paths contains a
/// segment that is present in opposite orientations in the two paths.
/// Returns the single best local alignment of `path1` against `path2`,
/// with indices relative to `path1`; fails with `SegmentNotFound` exactly
/// when a segment of either path has no entry in the length map.
pub fn align_paths_subproblem(
    path1: &[i32],
    path2: &[i32],
    segment_lengths: &HashMap<i32, i32>,
) -> (r: Result<Alignment, InversionError>)
    requires
        0 < path1@.len(),
        0 < path2@.len(),
        entries_absable(path1@),
        entries_absable(path2@),
        lengths_positive(segment_lengths@),
        path_covered(path1@, segment_lengths@) && path_covered(path2@, segment_lengths@)
            ==> total_len(path1@, segment_lengths@) + total_len(path2@, segment_lengths@)
            <= i32::MAX,
    ensures
        r is Ok <==> path_covered(path1@, segment_lengths@) && path_covered(
            path2@,
            segment_lengths@,
        ),
        r matches Ok(al) ==> exists|oi: int, oj: int|
            is_first_score_max(path1@, path2@, segment_lengths@, oi, oj) && alignment_from_walk(
                al,
                path1@,
                path2@,
                full_tb_fn(path1@, path2@, segment_lengths@),
                oi,
                oj,
            ),
        r matches Err(e) ==> (e matches InversionError::SegmentNotFound(id) && !segment_lengths@.dom().contains(
            id,
        ) && exists|k: int|
            0 <= k < path1@.len() + path2@.len() && #[trigger] seg_at_concat(path1@, path2@, k)
                == id && (forall|k2: int|
                0 <= k2 < k ==> segment_lengths@.dom().contains(
                    #[trigger] seg_at_concat(path1@, path2@, k2),
                ))),
{
    match first_missing_segment(path1, path2, segment_lengths) {
        Some(id) => Err(InversionError::SegmentNotFound(id)),
        None => Ok(align_subproblem_checked(path1, path2, segment_lengths)),
    }
}

/// The negation of a segment encoding: the same segment on the other
/// strand.
pub open spec fn neg_seg(s: i32) -> i32 {
    (-(s as int)) as i32
}

/// The reverse complement of a path: the segments in reverse order, each
/// with its orientation flipped.
pub open spec fn rc_seq(p: Seq<i32>) -> Seq<i32> {
    Seq::new(p.len(), |k: int| neg_seg(p[p.len() - 1 - k]))
}

/// Negation of a segment that is not `i32::MIN` keeps the absolute value
/// and undoes itself.
pub proof fn lemma_neg_seg(x: i32)
    requires
        x != i32::MIN,
    ensures
        neg_seg(x) != i32::MIN,
        abs_seg(neg_seg(x)) == abs_seg(x),
        neg_seg(neg_seg(x)) == x,
{
}

/// Reverse-complementing a path twice yields the original path.
pub proof fn lemma_rc_involution(p: Seq<i32>)
    requires
        entries_absable(p),
    ensures
        rc_seq(rc_seq(p)) == p,
{
    assert forall|k: int| 0 <= k < p.len() implies rc_seq(rc_seq(p))[k] == p[k] by {
        lemma_neg_seg(p[k]);
    }
    assert(rc_seq(rc_seq(p)) =~= p);
}

/// The reverse complement has the same length, representable absolute
/// values, coverage, and total length as the original path.
pub proof fn lemma_rc_props(p: Seq<i32>, sl: Map<i32, i32>)
    requires
        entries_absable(p),
    ensures
        rc_seq(p).len() == p.len(),
        entries_absable(rc_seq(p)),
        path_covered(p, sl) ==> path_covered(rc_seq(p), sl),
        total_len(rc_seq(p), sl) == total_len(p, sl),
{
    assert forall|k: int| 0 <= k < p.len() implies rc_seq(p)[k] != i32::MIN && abs_seg(
        rc_seq(p)[k],
    ) == abs_seg(p[p.len() - 1 - k]) by {
        lemma_neg_seg(p[p.len() - 1 - k]);
    }
    lemma_prefix_len_rev(p, rc_seq(p), sl, p.len() as int);
    assert(prefix_len(p, sl, 0) == 0);
}

/// The prefix sums of a sequence whose segment lengths mirror those of
/// `p` are suffix sums of `p`.
proof fn lemma_prefix_len_rev(p: Seq<i32>, q: Seq<i32>, sl: Map<i32, i32>, t: int)
    requires
        q.len() == p.len(),
        forall|k: int|
            0 <= k < p.len() ==> seg_len_of(sl, #[trigger] q[k]) == seg_len_of(
                sl,
                p[p.len() - 1 - k],
            ),
        0 <= t <= p.len(),
    ensures
        prefix_len(q, sl, t) == prefix_len(p, sl, p.len() as int) - prefix_len(
            p,
            sl,
            p.len() - t,
        ),
    decreases t,
{
    if t > 0 {
        lemma_prefix_len_rev(p, q, sl, t - 1);
        assert(prefix_len(p, sl, p.len() - t + 1) == prefix_len(p, sl, p.len() - t) + seg_len_of(
            sl,
            p[p.len() - t],
        ));
    }
}

/// The prefix sums of a subrange are differences of prefix sums of the
/// whole path.
proof fn lemma_subrange_prefix(p: Seq<i32>, sl: Map<i32, i32>, a: int, b: int, k: int)
    requires
        0 <= a <= b <= p.len(),
        0 <= k <= b - a,
    ensures
        prefix_len(p.subrange(a, b), sl, k) == prefix_len(p, sl, a + k) - prefix_len(p, sl, a),
    decreases k,
{
    if k > 0 {
        lemma_subrange_prefix(p, sl, a, b, k - 1);
        assert(prefix_len(p, sl, a + k) == prefix_len(p, sl, a + k - 1) + seg_len_of(
            sl,
            p[a + k - 1],
        ));
    }
}

/// A subrange of a covered path is covered and no longer than the whole.
pub proof fn lemma_subrange_props(p: Seq<i32>, sl: Map<i32, i32>, a: int, b: int)
    requires
        0 <= a <= b <= p.len(),
        entries_absable(p),
        path_covered(p, sl),
        lengths_positive(sl),
    ensures
        entries_absable(p.subrange(a, b)),
        path_covered(p.subrange(a, b), sl),
        total_len(p.subrange(a, b), sl) <= total_len(p, sl),
        b - a <= total_len(p.subrange(a, b), sl),
{
    lemma_subrange_prefix(p, sl, a, b, b - a);
    crate::lemma_prefix_len_monotonic(p, sl, b, p.len() as int);
    crate::lemma_prefix_len_nonneg(p, sl, a);
    crate::lemma_prefix_len_nonneg(p, sl, p.len() as int);
    crate::lemma_prefix_len_nonneg(p.subrange(a, b), sl, b - a);
}

/// Segment identity `a` is conflicting: some signed segment with that
/// identity is traversed in the same direction by both paths.
pub open spec fn is_conflicting(p1: Seq<i32>, p2: Seq<i32>, a: i32) -> bool {
    exists|s: i32| #[trigger] p1.contains(s) && p2.contains(s) && abs_seg(s) == a
}

/// Segment identity `a` is a candidate inversion anchor: some signed
/// segment with that identity is traversed in opposite directions by the
/// two paths, and `a` is not conflicting.
pub open spec fn is_candidate(p1: Seq<i32>, p2: Seq<i32>, a: i32) -> bool {
    (exists|s: i32| #[trigger] p1.contains(s) && rc_seq(p2).contains(s) && abs_seg(s) == a)
        && !is_conflicting(p1, p2, a)
}

/// A candidate anchor that `p1` traverses is present, with the same
/// orientation, in the reverse-complemented second path.
proof fn lemma_candidate_in_rc(p1: Seq<i32>, p2: Seq<i32>, x: i32)
    requires
        is_candidate(p1, p2, abs_seg(x)),
        p1.contains(x),
        x != i32::MIN,
        entries_absable(p2),
    ensures
        rc_seq(p2).contains(x),
{
    let s = choose|s: i32|
        #[trigger] p1.contains(s) && rc_seq(p2).contains(s) && abs_seg(s) == abs_seg(x);
    if s != x {
        assert(s == neg_seg(x));
        let k = choose|k: int| 0 <= k < rc_seq(p2).len() && rc_seq(p2)[k] == s;
        lemma_neg_seg(p2[p2.len() - 1 - k]);
        assert(p2[p2.len() - 1 - k] == x);
        assert(p2.contains(x));
        assert(is_conflicting(p1, p2, abs_seg(x)));
    }
}

/// The set of segment identities an alignment touches, in either path.
pub open spec fn alignment_ids(al: Alignment) -> Set<i32> {
    Set::new(
        |a: i32|
            (exists|k: int|
                0 <= k < al.alignment_path1@.len() && abs_seg(#[trigger] al.alignment_path1@[k])
                    == a) || (exists|k: int|
                0 <= k < al.alignment_path2@.len() && abs_seg(#[trigger] al.alignment_path2@[k])
                    == a),
    )
}

/// The shape every alignment returned by the driver has: indices inside
/// the reference path, nonempty collapsed paths without adjacent
/// repeats, the first path a subsequence of the reference between its
/// indices, the second path drawn from the query, and inverted
/// orientation wherever the two paths share a segment identity.
pub open spec fn driver_alignment_wf(al: Alignment, p1: Seq<i32>, p2: Seq<i32>) -> bool {
    &&& 0 <= al.path1_start_index <= al.path1_end_index < p1.len()
    &&& al.alignment_path1@.len() > 0
    &&& al.alignment_path2@.len() > 0
    &&& no_adjacent_repeat(al.alignment_path1@)
    &&& no_adjacent_repeat(al.alignment_path2@)
    &&& is_subseq_within(
        al.alignment_path1@,
        p1,
        al.path1_start_index as int,
        al.path1_end_index as int,
    )
    &&& forall|b: int|
        0 <= b < al.alignment_path2@.len() ==> p2.contains(#[trigger] al.alignment_path2@[b])
    &&& is_subseq_within(al.alignment_path2@, p2, 0, p2.len() - 1)
    &&& forall|a: int, b: int|
        0 <= a < al.alignment_path1@.len() && 0 <= b < al.alignment_path2@.len() && abs_seg(
            #[trigger] al.alignment_path1@[a],
        ) == abs_seg(#[trigger] al.alignment_path2@[b]) ==> al.alignment_path2@[b] == neg_seg(
            al.alignment_path1@[a],
        )
    &&& entries_absable(al.alignment_path1@)
    &&& entries_absable(al.alignment_path2@)
}

/// The driver built `al` from the subproblem with reference range
/// `[s, e1)` and reverse-complemented-query range `[j0, e2)`: some
/// verbatim result of the dispatched aligner on those subranges gives
/// `al` after shifting its indices by `s` and re-expressing its second
/// path in the original query orientation.
pub open spec fn driver_alignment_exact(
    al: Alignment,
    p1: Seq<i32>,
    p2: Seq<i32>,
    sl: Map<i32, i32>,
    maxhm: int,
    drop: int,
    s: int,
    e1: int,
    j0: int,
    e2: int,
) -> bool {
    exists|oi: int, oj: int, inner: Alignment|
        {
            &&& #[trigger] subproblem_result_at(
                inner,
                p1,
                p2,
                sl,
                maxhm,
                drop,
                s,
                e1,
                j0,
                e2,
                oi,
                oj,
            )
            &&& al.alignment_path1@ == inner.alignment_path1@
            &&& al.alignment_path2@ == rc_seq(inner.alignment_path2@)
            &&& al.path1_start_index == s + inner.path1_start_index
            &&& al.path1_end_index == s + inner.path1_end_index
        }
}

/// The least reference index at or after `i` whose segment identity is
/// a candidate anchor, or `-1` if there is none.
pub open spec fn first_anchor(p1: Seq<i32>, p2: Seq<i32>, i: int) -> int
    decreases p1.len() - i,
    when 0 <= i <= p1.len()
{
    if i >= p1.len() {
        -1
    } else if is_candidate(p1, p2, abs_seg(p1[i])) {
        i
    } else {
        first_anchor(p1, p2, i + 1)
    }
}

/// The end of the run of segments of `p` starting at `k` that are
/// neither conflicting nor in the used set.
pub open spec fn free_extent_used(
    p: Seq<i32>,
    p1: Seq<i32>,
    p2: Seq<i32>,
    used: Set<i32>,
    k: int,
) -> int
    decreases p.len() - k,
    when 0 <= k <= p.len()
{
    if k >= p.len() {
        k
    } else if is_conflicting(p1, p2, abs_seg(p[k])) || used.contains(abs_seg(p[k])) {
        k
    } else {
        free_extent_used(p, p1, p2, used, k + 1)
    }
}

/// The end of the run of non-conflicting segments of `p` that starts at
/// `k`, before any segment has been used.
pub open spec fn free_extent(p: Seq<i32>, p1: Seq<i32>, p2: Seq<i32>, k: int) -> int {
    free_extent_used(p, p1, p2, Set::empty(), k)
}

/// The least index at or after `j` where `q` holds the value `x`, or
/// `-1` if there is none.
pub open spec fn first_match(q: Seq<i32>, x: i32, j: int) -> int
    decreases q.len() - j,
    when 0 <= j <= q.len()
{
    if j >= q.len() {
        -1
    } else if q[j] == x {
        j
    } else {
        first_match(q, x, j + 1)
    }
}

/// The subproblem cut around the first anchor, before anything is used,
/// is small enough for one of the two aligners.
pub open spec fn first_subproblem_dispatchable(
    p1: Seq<i32>,
    p2: Seq<i32>,
    maxhm: int,
    maxpath: int,
) -> bool {
    anchor_dispatchable(p1, p2, Set::empty(), first_anchor(p1, p2, 0), maxhm, maxpath)
}

/// What the first-anchor scan knows: the anchor is a candidate, nothing
/// before it is, and a negative result means no candidate at all.
proof fn lemma_first_anchor_props(p1: Seq<i32>, p2: Seq<i32>, i: int)
    requires
        0 <= i <= p1.len(),
    ensures
        first_anchor(p1, p2, i) == -1 ==> (forall|k: int|
            i <= k < p1.len() ==> !is_candidate(p1, p2, abs_seg(#[trigger] p1[k]))),
        first_anchor(p1, p2, i) != -1 ==> i <= first_anchor(p1, p2, i) < p1.len()
            && is_candidate(p1, p2, abs_seg(p1[first_anchor(p1, p2, i)])) && (forall|k: int|
            i <= k < first_anchor(p1, p2, i) ==> !is_candidate(
                p1,
                p2,
                abs_seg(#[trigger] p1[k]),
            )),
    decreases p1.len() - i,
{
    if i < p1.len() && !is_candidate(p1, p2, abs_seg(p1[i])) {
        lemma_first_anchor_props(p1, p2, i + 1);
    }
}

/// `free_extent_used` is characterized by what the extension scan
/// knows: nothing in the run is conflicting or used, and the run stops
/// at a conflicting or used segment or the end.
proof fn lemma_free_extent_used_is(
    p: Seq<i32>,
    p1: Seq<i32>,
    p2: Seq<i32>,
    used: Set<i32>,
    from: int,
    e: int,
)
    requires
        0 <= from <= e <= p.len(),
        forall|k: int|
            from <= k < e ==> !is_conflicting(p1, p2, abs_seg(#[trigger] p[k]))
                && !used.contains(abs_seg(p[k])),
        e < p.len() ==> is_conflicting(p1, p2, abs_seg(p[e])) || used.contains(abs_seg(p[e])),
    ensures
        free_extent_used(p, p1, p2, used, from) == e,
    decreases e - from,
{
    if from < e {
        lemma_free_extent_used_is(p, p1, p2, used, from + 1, e);
    }
}

/// `first_match` is characterized by what the position scan knows.
proof fn lemma_first_match_is(q: Seq<i32>, x: i32, j: int)
    requires
        0 <= j < q.len(),
        forall|t: int| 0 <= t < j ==> q[t] != x,
        q[j] == x,
    ensures
        first_match(q, x, 0) == j,
{
    lemma_first_match_from(q, x, 0, j);
}

/// Helper for `lemma_first_match_is`, scanning from an arbitrary start.
proof fn lemma_first_match_from(q: Seq<i32>, x: i32, from: int, j: int)
    requires
        0 <= from <= j < q.len(),
        forall|t: int| from <= t < j ==> q[t] != x,
        q[j] == x,
    ensures
        first_match(q, x, from) == j,
    decreases j - from,
{
    if from < j {
        lemma_first_match_from(q, x, from + 1, j);
    }
}

/// The subproblem ranges the scan cuts around the anchor at `s` when
/// the used set is `used`: the reference run end, the anchor's first
/// position in the reverse-complemented query, and that run's end.
pub open spec fn anchor_ranges(p1: Seq<i32>, p2: Seq<i32>, used: Set<i32>, s: int) -> (
    int,
    int,
    int,
) {
    let e1 = free_extent_used(p1, p1, p2, used, s);
    let j0 = first_match(rc_seq(p2), p1[s], 0);
    let e2 = free_extent_used(rc_seq(p2), p1, p2, used, j0);
    (e1, j0, e2)
}

/// The subproblem cut around the anchor at `s` fits one of the two
/// aligners.
pub open spec fn anchor_dispatchable(
    p1: Seq<i32>,
    p2: Seq<i32>,
    used: Set<i32>,
    s: int,
    maxhm: int,
    maxpath: int,
) -> bool {
    let r = anchor_ranges(p1, p2, used, s);
    (r.0 - s < maxhm && r.2 - r.1 < maxhm) || (r.0 - s < maxpath && r.2 - r.1 < maxpath)
}

/// The segment identities used after accepting the first `c` alignments
/// of `out`.
pub open spec fn used_after(out: Seq<Alignment>, c: int) -> Set<i32>
    decreases c,
{
    if c <= 0 {
        Set::empty()
    } else {
        used_after(out, c - 1).union(alignment_ids(out[c - 1]))
    }
}

/// The enumeration protocol: scanning the reference from index `i` with
/// `c` alignments already accepted, `out` holds exactly the accepted
/// alignments in scan order.  At each unused candidate anchor the scan
/// cuts the subproblem under the used set accumulated so far; if the
/// subproblem fits an aligner, the next alignment of `out` is that
/// aligner's exact result and its identities become used, and otherwise
/// the subproblem contributes nothing.
pub open spec fn driver_scan_ok(
    out: Seq<Alignment>,
    p1: Seq<i32>,
    p2: Seq<i32>,
    sl: Map<i32, i32>,
    maxhm: int,
    drop: int,
    maxpath: int,
    i: int,
    c: int,
) -> bool
    decreases p1.len() - i,
    when 0 <= i <= p1.len()
{
    if i >= p1.len() {
        c == out.len()
    } else {
        let used = used_after(out, c);
        if is_candidate(p1, p2, abs_seg(p1[i])) && !used.contains(abs_seg(p1[i])) {
            if anchor_dispatchable(p1, p2, used, i, maxhm, maxpath) {
                let r = anchor_ranges(p1, p2, used, i);
                &&& 0 <= c < out.len()
                &&& driver_alignment_exact(out[c], p1, p2, sl, maxhm, drop, i, r.0, r.1, r.2)
                &&& driver_scan_ok(out, p1, p2, sl, maxhm, drop, maxpath, i + 1, c + 1)
            } else {
                driver_scan_ok(out, p1, p2, sl, maxhm, drop, maxpath, i + 1, c)
            }
        } else {
            driver_scan_ok(out, p1, p2, sl, maxhm, drop, maxpath, i + 1, c)
        }
    }
}

/// The used set after `c` alignments reads only those alignments.
proof fn lemma_used_after_frame(out1: Seq<Alignment>, out2: Seq<Alignment>, c: int)
    requires
        0 <= c <= out1.len(),
        c <= out2.len(),
        forall|k: int| 0 <= k < c ==> #[trigger] out1[k] == out2[k],
    ensures
        used_after(out1, c) == used_after(out2, c),
    decreases c,
{
    if c > 0 {
        lemma_used_after_frame(out1, out2, c - 1);
        assert(out1[c - 1] == out2[c - 1]);
    }
}

/// A scan step over a reference index that triggers no subproblem: the
/// index holds no candidate anchor, or its anchor is already used.
proof fn lemma_scan_skip(
    out: Seq<Alignment>,
    p1: Seq<i32>,
    p2: Seq<i32>,
    sl: Map<i32, i32>,
    maxhm: int,
    drop: int,
    maxpath: int,
    i: int,
    c: int,
)
    requires
        0 <= i < p1.len(),
        !(is_candidate(p1, p2, abs_seg(p1[i])) && !used_after(out, c).contains(
            abs_seg(p1[i]),
        )),
    ensures
        driver_scan_ok(out, p1, p2, sl, maxhm, drop, maxpath, i, c) == driver_scan_ok(
            out,
            p1,
            p2,
            sl,
            maxhm,
            drop,
            maxpath,
            i + 1,
            c,
        ),
{
}

/// A scan step over an anchor whose subproblem fits neither aligner.
proof fn lemma_scan_oversize(
    out: Seq<Alignment>,
    p1: Seq<i32>,
    p2: Seq<i32>,
    sl: Map<i32, i32>,
    maxhm: int,
    drop: int,
    maxpath: int,
    i: int,
    c: int,
)
    requires
        0 <= i < p1.len(),
        is_candidate(p1, p2, abs_seg(p1[i])),
        !used_after(out, c).contains(abs_seg(p1[i])),
        !anchor_dispatchable(p1, p2, used_after(out, c), i, maxhm, maxpath),
    ensures
        driver_scan_ok(out, p1, p2, sl, maxhm, drop, maxpath, i, c) == driver_scan_ok(
            out,
            p1,
            p2,
            sl,
            maxhm,
            drop,
            maxpath,
            i + 1,
            c,
        ),
{
}

/// A scan step over an anchor whose subproblem is dispatched: the next
/// alignment of `out` is the dispatched aligner's exact result.
proof fn lemma_scan_accept(
    out: Seq<Alignment>,
    p1: Seq<i32>,
    p2: Seq<i32>,
    sl: Map<i32, i32>,
    maxhm: int,
    drop: int,
    maxpath: int,
    i: int,
    c: int,
)
    requires
        0 <= i < p1.len(),
        is_candidate(p1, p2, abs_seg(p1[i])),
        !used_after(out, c).contains(abs_seg(p1[i])),
        anchor_dispatchable(p1, p2, used_after(out, c), i, maxhm, maxpath),
        0 <= c < out.len(),
        ({
            let r = anchor_ranges(p1, p2, used_after(out, c), i);
            driver_alignment_exact(out[c], p1, p2, sl, maxhm, drop, i, r.0, r.1, r.2)
        }),
    ensures
        driver_scan_ok(out, p1, p2, sl, maxhm, drop, maxpath, i, c) == driver_scan_ok(
            out,
            p1,
            p2,
            sl,
            maxhm,
            drop,
            maxpath,
            i + 1,
            c + 1,
        ),
{
}

/// `al` was built exactly from some subproblem of the two paths.
pub open spec fn driver_alignment_from_some(
    al: Alignment,
    p1: Seq<i32>,
    p2: Seq<i32>,
    sl: Map<i32, i32>,
    maxhm: int,
    drop: int,
) -> bool {
    exists|s2: int, e12: int, j02: int, e22: int|
        0 <= s2 < e12 <= p1.len() && 0 <= j02 < e22 <= p2.len()
            && #[trigger] driver_alignment_exact(al, p1, p2, sl, maxhm, drop, s2, e12, j02, e22)
}

/// The absolute segment value at position `k` of the two paths laid end
/// to end.
pub open spec fn seg_at_concat(p1: Seq<i32>, p2: Seq<i32>, k: int) -> i32 {
    if k < p1.len() {
        abs_seg(p1[k])
    } else {
        abs_seg(p2[k - p1.len()])
    }
}

/// The absolute value of a segment encoding.
fn abs_i32(s: i32) -> (r: i32)
    requires
        s != i32::MIN,
    ensures
        r == abs_seg(s),
{
    if s < 0 {
        -s
    } else {
        s
    }
}

/// The reverse complement of a path: the segments in reverse order, each
/// negated.
pub fn reverse_complement(path: &[i32]) -> (r: Vec<i32>)
    requires
        entries_absable(path@),
    ensures
        r@ == rc_seq(path@),
{
    let mut r: Vec<i32> = Vec::new();
    let mut k: usize = path.len();
    while k > 0
        invariant
            k <= path@.len(),
            entries_absable(path@),
            r@.len() == path@.len() - k,
            forall|t: int| 0 <= t < r@.len() ==> r@[t] == neg_seg(path@[path@.len() - 1 - t]),
        decreases k,
    {
        k = k - 1;
        r.push(-path[k]);
    }
    proof {
        assert(r@ =~= rc_seq(path@));
    }
    r
}

/// True when the segment at `idx` of `p` is neither conflicting nor
/// already used, so a subproblem may extend across it.
fn segment_free(
    p: &[i32],
    idx: usize,
    conflicting_segments: &HashSet<i32>,
    used_segments: &HashSet<i32>,
) -> (r: bool)
    requires
        idx < p@.len(),
        p@[idx as int] != i32::MIN,
    ensures
        r == (!conflicting_segments@.contains(abs_seg(p@[idx as int]))
            && !used_segments@.contains(abs_seg(p@[idx as int]))),
{
    let a: i32 = abs_i32(p[idx]);
    !conflicting_segments.contains(&a) && !used_segments.contains(&a)
}

/// Cuts the subproblem around the unused candidate anchor at
/// `anchor_index`, aligns it if it fits one of the two aligners, and
/// accepts the resulting alignment.  Returns whether an alignment was
/// accepted, which happens exactly when the subproblem is dispatchable.
#[verifier::rlimit(100)]
fn process_anchor(
    path1: &[i32],
    path2: &[i32],
    path2_rev: &Vec<i32>,
    segment_lengths: &HashMap<i32, i32>,
    max_highmem_length: usize,
    max_lowmem_drop: usize,
    max_path_length: usize,
    anchor_index: usize,
    conflicting_segments: &HashSet<i32>,
    used_segments: &mut HashSet<i32>,
    alignments: &mut Vec<Alignment>,
) -> (pushed: bool)
    requires
        0 < path1@.len(),
        0 < path2@.len(),
        anchor_index < path1@.len(),
        path2_rev@ == rc_seq(path2@),
        entries_absable(path1@),
        entries_absable(path2@),
        path_covered(path1@, segment_lengths@),
        path_covered(path2@, segment_lengths@),
        lengths_positive(segment_lengths@),
        total_len(path1@, segment_lengths@) + total_len(path2@, segment_lengths@) <= i32::MAX,
        max_lowmem_drop as int + path1@.len() + path2@.len() <= usize::MAX,
        forall|a: i32|
            conflicting_segments@.contains(a) <==> is_conflicting(path1@, path2@, a),
        is_candidate(path1@, path2@, abs_seg(path1@[anchor_index as int])),
        !old(used_segments)@.contains(abs_seg(path1@[anchor_index as int])),
        forall|k: int|
            0 <= k < old(alignments)@.len() ==> driver_alignment_wf(
                #[trigger] old(alignments)@[k],
                path1@,
                path2@,
            ),
        forall|k: int, a: i32|
            0 <= k < old(alignments)@.len() && #[trigger] alignment_ids(
                old(alignments)@[k],
            ).contains(a) ==> old(used_segments)@.contains(a),
        forall|k1: int, k2: int, a: i32|
            #![trigger alignment_ids(old(alignments)@[k1]).contains(a), alignment_ids(old(alignments)@[k2]).contains(a)]
            0 <= k1 < k2 < old(alignments)@.len() ==> !(alignment_ids(
                old(alignments)@[k1],
            ).contains(a) && alignment_ids(old(alignments)@[k2]).contains(a)),
    ensures
        pushed == anchor_dispatchable(
            path1@,
            path2@,
            old(used_segments)@,
            anchor_index as int,
            max_highmem_length as int,
            max_path_length as int,
        ),
        !pushed ==> final(alignments)@ == old(alignments)@ && final(used_segments)@ == old(
            used_segments,
        )@,
        pushed ==> final(alignments)@.len() == old(alignments)@.len() + 1,
        pushed ==> (forall|k: int|
            0 <= k < old(alignments)@.len() ==> #[trigger] final(alignments)@[k] == old(
                alignments,
            )@[k]),
        pushed ==> final(alignments)@.last().path1_start_index >= anchor_index,
        pushed ==> ({
            let r = anchor_ranges(path1@, path2@, old(used_segments)@, anchor_index as int);
            &&& anchor_index < r.0 <= path1@.len()
            &&& 0 <= r.1 < r.2 <= path2@.len()
            &&& driver_alignment_exact(
                final(alignments)@.last(),
                path1@,
                path2@,
                segment_lengths@,
                max_highmem_length as int,
                max_lowmem_drop as int,
                anchor_index as int,
                r.0,
                r.1,
                r.2,
            )
        }),
        pushed ==> final(used_segments)@ == old(used_segments)@.union(
            alignment_ids(final(alignments)@.last()),
        ),
        forall|x: i32| old(used_segments)@.contains(x) ==> final(used_segments)@.contains(x),
        forall|k: int|
            0 <= k < final(alignments)@.len() ==> driver_alignment_wf(
                #[trigger] final(alignments)@[k],
                path1@,
                path2@,
            ),
        forall|k: int, a: i32|
            0 <= k < final(alignments)@.len() && #[trigger] alignment_ids(
                final(alignments)@[k],
            ).contains(a) ==> final(used_segments)@.contains(a),
        forall|k1: int, k2: int, a: i32|
            #![trigger alignment_ids(final(alignments)@[k1]).contains(a), alignment_ids(final(alignments)@[k2]).contains(a)]
            0 <= k1 < k2 < final(alignments)@.len() ==> !(alignment_ids(
                final(alignments)@[k1],
            ).contains(a) && alignment_ids(final(alignments)@[k2]).contains(a)),
{
    let ghost p1 = path1@;
    let ghost p2 = path2@;
    let ghost sl = segment_lengths@;
    let ghost u0 = used_segments@;
    let n: usize = path1.len();
    let s: usize = anchor_index;
    let mut subproblem1_end: usize = s;
    while subproblem1_end < n && segment_free(
        path1,
        subproblem1_end,
        &conflicting_segments,
        &used_segments,
    )
        invariant
            s <= subproblem1_end <= n,
            n == p1.len(),
            path1@ == p1,
            entries_absable(p1),
            forall|a: i32|
                conflicting_segments@.contains(a) <==> is_conflicting(p1, p2, a),
            forall|idx: int|
                s <= idx < subproblem1_end ==> !is_conflicting(
                    p1,
                    p2,
                    abs_seg(#[trigger] p1[idx]),
                ) && !used_segments@.contains(abs_seg(p1[idx])),
        decreases n - subproblem1_end,
    {
        subproblem1_end = subproblem1_end + 1;
    }
    let e1: usize = subproblem1_end;
    proof {
        assert(is_candidate(p1, p2, abs_seg(p1[s as int])));
        assert(e1 > s);
    }

    proof {
        lemma_candidate_in_rc(p1, p2, p1[s as int]);
    }
    let mut subproblem2_start: usize = 0;
    while subproblem2_start < path2_rev.len() && path2_rev[subproblem2_start]
        != path1[s]
        invariant
            subproblem2_start <= rc_seq(p2).len(),
            s < p1.len(),
            path1@ == p1,
            path2_rev@ == rc_seq(p2),
            forall|t: int|
                0 <= t < subproblem2_start ==> #[trigger] rc_seq(p2)[t] != p1[s as int],
        decreases rc_seq(p2).len() - subproblem2_start,
    {
        subproblem2_start = subproblem2_start + 1;
    }
    let j0: usize = subproblem2_start;
    proof {
        if j0 == rc_seq(p2).len() {
            let t = choose|t: int|
                0 <= t < rc_seq(p2).len() && #[trigger] rc_seq(p2)[t] == p1[s as int];
            assert(false);
        }
        assert(rc_seq(p2)[j0 as int] == p1[s as int]);
    }

    let mut subproblem2_end: usize = j0;
    while subproblem2_end < path2_rev.len() && segment_free(
        path2_rev.as_slice(),
        subproblem2_end,
        &conflicting_segments,
        &used_segments,
    )
        invariant
            j0 <= subproblem2_end <= rc_seq(p2).len(),
            path2_rev@ == rc_seq(p2),
            entries_absable(p2),
            entries_absable(rc_seq(p2)),
            forall|a: i32|
                conflicting_segments@.contains(a) <==> is_conflicting(p1, p2, a),
            forall|idx: int|
                j0 <= idx < subproblem2_end ==> !is_conflicting(
                    p1,
                    p2,
                    abs_seg(#[trigger] rc_seq(p2)[idx]),
                ) && !used_segments@.contains(abs_seg(rc_seq(p2)[idx])),
        decreases rc_seq(p2).len() - subproblem2_end,
    {
        subproblem2_end = subproblem2_end + 1;
    }
    let e2: usize = subproblem2_end;
    proof {
        assert(used_segments@ == u0);
        lemma_free_extent_used_is(p1, p1, p2, u0, s as int, e1 as int);
        lemma_first_match_is(rc_seq(p2), p1[s as int], j0 as int);
        lemma_free_extent_used_is(rc_seq(p2), p1, p2, u0, j0 as int, e2 as int);
        assert(anchor_ranges(p1, p2, u0, s as int) == (e1 as int, j0 as int, e2 as int));
        lemma_neg_seg(p2[p2.len() - 1 - j0 as int]);
        assert(abs_seg(rc_seq(p2)[j0 as int]) == abs_seg(p1[s as int]));
        assert(e2 > j0);
        lemma_rc_props(p2, sl);
        lemma_subrange_props(p1, sl, s as int, e1 as int);
        lemma_subrange_props(rc_seq(p2), sl, j0 as int, e2 as int);
        crate::lemma_prefix_len_nonneg(p1, sl, p1.len() as int);
        crate::lemma_prefix_len_nonneg(p2, sl, p2.len() as int);
        assert(total_len(p1.subrange(s as int, e1 as int), sl) + total_len(
            rc_seq(p2).subrange(j0 as int, e2 as int),
            sl,
        ) <= i32::MAX);
    }

    let path1_subproblem: &[i32] = vstd::slice::slice_subrange(path1, s, e1);
    let path2_subproblem: &[i32] = vstd::slice::slice_subrange(
        path2_rev.as_slice(),
        j0,
        e2,
    );

    // choose the alignment algorithm by subproblem size
    let ghost mut gorigin: (int, int) = (0, 0);
    let alignment_option: Option<Alignment> = if path1_subproblem.len()
        < max_highmem_length && path2_subproblem.len() < max_highmem_length {
        let al = align_subproblem_checked(
            path1_subproblem,
            path2_subproblem,
            segment_lengths,
        );
        proof {
            gorigin = choose|oi: int, oj: int|
                is_first_score_max(path1_subproblem@, path2_subproblem@, sl, oi, oj)
                    && alignment_from_walk(
                    al,
                    path1_subproblem@,
                    path2_subproblem@,
                    full_tb_fn(path1_subproblem@, path2_subproblem@, sl),
                    oi,
                    oj,
                );
            lemma_result_at_full(
                al,
                p1,
                p2,
                sl,
                max_highmem_length as int,
                max_lowmem_drop as int,
                s as int,
                e1 as int,
                j0 as int,
                e2 as int,
                gorigin.0,
                gorigin.1,
            );
        }
        Some(al)
    } else if path1_subproblem.len() < max_path_length && path2_subproblem.len()
        < max_path_length {
        let al = crate::lowmem::align_subproblem_lowmem_checked(
            path1_subproblem,
            path2_subproblem,
            segment_lengths,
            max_lowmem_drop,
        );
        proof {
            let rdv = crate::lowmem::row_drop(
                max_lowmem_drop as int,
                path1_subproblem@.len() as int,
                path2_subproblem@.len() as int,
            );
            let cdv = crate::lowmem::col_drop(
                max_lowmem_drop as int,
                path1_subproblem@.len() as int,
                path2_subproblem@.len() as int,
            );
            gorigin = choose|oi: int, oj: int|
                crate::lowmem::is_first_lscore_max(
                    path1_subproblem@,
                    path2_subproblem@,
                    sl,
                    rdv,
                    cdv,
                    oi,
                    oj,
                ) && alignment_from_walk(
                    al,
                    path1_subproblem@,
                    path2_subproblem@,
                    crate::lowmem::lowmem_tb_fn(
                        path1_subproblem@,
                        path2_subproblem@,
                        sl,
                        rdv,
                        cdv,
                    ),
                    oi,
                    oj,
                );
            lemma_result_at_lowmem(
                al,
                p1,
                p2,
                sl,
                max_highmem_length as int,
                max_lowmem_drop as int,
                s as int,
                e1 as int,
                j0 as int,
                e2 as int,
                gorigin.0,
                gorigin.1,
            );
        }
        Some(al)
    } else {
        None
    };

    let ghost dispatched = alignment_option is Some;
    proof {
        assert(dispatched == anchor_dispatchable(
            p1,
            p2,
            u0,
            anchor_index as int,
            max_highmem_length as int,
            max_path_length as int,
        ));
    }
    if let Some(alignment) = alignment_option {
        proof {
            crate::lemma_prefix_len_nonneg(p1, sl, n as int);
            crate::lemma_prefix_len_nonneg(p2, sl, p2.len() as int);
        }
        accept_alignment(
            alignment,
            Ghost(p1),
            Ghost(p2),
            Ghost(sl),
            Ghost(gorigin),
            s,
            e1,
            j0,
            e2,
            max_highmem_length,
            max_lowmem_drop,
            used_segments,
            alignments,
        );
        true
    } else {
        false
    }
}

/// Aligns a query path to a reference path, reporting the inverted
/// regions.
///
/// The reference is scanned left to right for candidate anchors:
/// segment identities that the query traverses only in the opposite
/// orientation.  Around each unused anchor a maximal pair of subranges
/// free of conflicting or already-reported segments is cut out of the
/// reference and the reverse-complemented query, and aligned by the
/// full-matrix aligner when both subranges are shorter than
/// `max_highmem_length`, by the banded aligner when both are shorter
/// than `max_path_length`, and not at all otherwise.  Each accepted
/// alignment's segments are marked used, its second path is
/// re-expressed in the query's own orientation, and its indices are
/// translated to the full reference path.  Fails with `SegmentNotFound`
/// exactly when a segment of either path has no entry in the length
/// map.
#[verifier::rlimit(100)]
pub fn align_paths(
    path1: &[i32],
    path2: &[i32],
    segment_lengths: &HashMap<i32, i32>,
    max_highmem_length: usize,
    max_lowmem_drop: usize,
    max_path_length: usize,
) -> (r: Result<Vec<Alignment>, InversionError>)
    requires
        0 < path1@.len(),
        0 < path2@.len(),
        entries_absable(path1@),
        entries_absable(path2@),
        lengths_positive(segment_lengths@),
        path_covered(path1@, segment_lengths@) && path_covered(path2@, segment_lengths@)
            ==> total_len(path1@, segment_lengths@) + total_len(path2@, segment_lengths@)
            <= i32::MAX,
        max_lowmem_drop as int + path1@.len() + path2@.len() <= usize::MAX,
    ensures
        r is Ok <==> path_covered(path1@, segment_lengths@) && path_covered(
            path2@,
            segment_lengths@,
        ),
        r matches Err(e) ==> (e matches InversionError::SegmentNotFound(id)
            && !segment_lengths@.dom().contains(id) && exists|k: int|
            0 <= k < path1@.len() + path2@.len() && #[trigger] seg_at_concat(path1@, path2@, k)
                == id && (forall|k2: int|
                0 <= k2 < k ==> segment_lengths@.dom().contains(
                    #[trigger] seg_at_concat(path1@, path2@, k2),
                ))),
        r matches Ok(out) ==> {
            &&& forall|k: int|
                0 <= k < out@.len() ==> driver_alignment_wf(#[trigger] out@[k], path1@, path2@)
            &&& forall|k1: int, k2: int, a: i32|
                #![trigger alignment_ids(out@[k1]).contains(a), alignment_ids(out@[k2]).contains(a)]
                0 <= k1 < k2 < out@.len() ==> !(alignment_ids(out@[k1]).contains(a)
                    && alignment_ids(out@[k2]).contains(a))
            &&& forall|k: int|
                0 <= k < out@.len() ==> #[trigger] driver_alignment_from_some(
                    out@[k],
                    path1@,
                    path2@,
                    segment_lengths@,
                    max_highmem_length as int,
                    max_lowmem_drop as int,
                )
            &&& exists|anchors: Seq<int>|
                #![trigger anchors.len()]
                anchors.len() == out@.len() && (forall|k: int|
                    0 <= k < anchors.len() ==> 0 <= #[trigger] anchors[k]
                        <= out@[k].path1_start_index) && (forall|k: int|
                    1 <= k < anchors.len() ==> anchors[k - 1] < #[trigger] anchors[k])
            &&& out@.len() > 0 ==> exists|a: i32| is_candidate(path1@, path2@, a)
            &&& driver_scan_ok(
                out@,
                path1@,
                path2@,
                segment_lengths@,
                max_highmem_length as int,
                max_lowmem_drop as int,
                max_path_length as int,
                0,
                0,
            )
            &&& first_anchor(path1@, path2@, 0) == -1 ==> out@.len() == 0
            &&& (first_anchor(path1@, path2@, 0) != -1 && first_subproblem_dispatchable(
                path1@,
                path2@,
                max_highmem_length as int,
                max_path_length as int,
            )) ==> out@.len() > 0 && driver_alignment_exact(
                out@[0],
                path1@,
                path2@,
                segment_lengths@,
                max_highmem_length as int,
                max_lowmem_drop as int,
                first_anchor(path1@, path2@, 0),
                free_extent(path1@, path1@, path2@, first_anchor(path1@, path2@, 0)),
                first_match(rc_seq(path2@), path1@[first_anchor(path1@, path2@, 0)], 0),
                free_extent(
                    rc_seq(path2@),
                    path1@,
                    path2@,
                    first_match(rc_seq(path2@), path1@[first_anchor(path1@, path2@, 0)], 0),
                ),
            )
        },
{
    let ghost p1 = path1@;
    let ghost p2 = path2@;
    let ghost sl = segment_lengths@;
    if let Some(id) = first_missing_segment(path1, path2, segment_lengths) {
        return Err(InversionError::SegmentNotFound(id));
    }
    let n: usize = path1.len();

    // reverse-complemented version of path2
    let path2_rev: Vec<i32> = reverse_complement(path2);
    proof {
        lemma_rc_props(p2, sl);
    }

    let mut path2_set: HashSet<i32> = HashSet::new();
    let mut k2: usize = 0;
    while k2 < path2.len()
        invariant
            k2 <= p2.len(),
            path2@ == p2,
            forall|x: i32|
                path2_set@.contains(x) <==> exists|t: int| 0 <= t < k2 && #[trigger] p2[t] == x,
        decreases p2.len() - k2,
    {
        path2_set.insert(path2[k2]);
        k2 = k2 + 1;
    }

    let mut path2_rev_set: HashSet<i32> = HashSet::new();
    let mut k3: usize = 0;
    while k3 < path2_rev.len()
        invariant
            k3 <= path2_rev@.len(),
            path2_rev@ == rc_seq(p2),
            forall|x: i32|
                path2_rev_set@.contains(x) <==> exists|t: int|
                    0 <= t < k3 && #[trigger] rc_seq(p2)[t] == x,
        decreases path2_rev@.len() - k3,
    {
        path2_rev_set.insert(path2_rev[k3]);
        k3 = k3 + 1;
    }

    // all segments traversed in the same direction by path1 and path2
    let mut conflicting_segments: HashSet<i32> = HashSet::new();
    let mut k4: usize = 0;
    while k4 < path1.len()
        invariant
            k4 <= p1.len(),
            path1@ == p1,
            path2@ == p2,
            entries_absable(p1),
            forall|x: i32|
                path2_set@.contains(x) <==> exists|t: int|
                    0 <= t < p2.len() && #[trigger] p2[t] == x,
            forall|a: i32|
                conflicting_segments@.contains(a) <==> exists|t: int|
                    0 <= t < k4 && p2.contains(#[trigger] p1[t]) && abs_seg(p1[t]) == a,
        decreases p1.len() - k4,
    {
        if path2_set.contains(&path1[k4]) {
            let a: i32 = abs_i32(path1[k4]);
            conflicting_segments.insert(a);
        }
        k4 = k4 + 1;
    }
    proof {
        assert forall|a: i32| conflicting_segments@.contains(a) <==> is_conflicting(
            p1,
            p2,
            a,
        ) by {
            if conflicting_segments@.contains(a) {
                let t = choose|t: int|
                    0 <= t < p1.len() && p2.contains(#[trigger] p1[t]) && abs_seg(p1[t]) == a;
                assert(p1.contains(p1[t]));
            }
            if is_conflicting(p1, p2, a) {
                let s = choose|s: i32|
                    #[trigger] p1.contains(s) && p2.contains(s) && abs_seg(s) == a;
                let t = choose|t: int| 0 <= t < p1.len() && p1[t] == s;
            }
        }
    }

    // all segments traversed in opposite directions by path1 and path2,
    // and NOT also traversed in the same direction by the two paths
    // somewhere else
    let mut common_segments: HashSet<i32> = HashSet::new();
    let mut k5: usize = 0;
    while k5 < path1.len()
        invariant
            k5 <= p1.len(),
            path1@ == p1,
            path2@ == p2,
            entries_absable(p1),
            forall|x: i32|
                path2_rev_set@.contains(x) <==> exists|t: int|
                    0 <= t < rc_seq(p2).len() && #[trigger] rc_seq(p2)[t] == x,
            forall|a: i32| conflicting_segments@.contains(a) <==> is_conflicting(p1, p2, a),
            forall|a: i32|
                common_segments@.contains(a) <==> (exists|t: int|
                    0 <= t < k5 && rc_seq(p2).contains(#[trigger] p1[t]) && abs_seg(p1[t]) == a)
                    && !is_conflicting(p1, p2, a),
        decreases p1.len() - k5,
    {
        if path2_rev_set.contains(&path1[k5]) {
            let a: i32 = abs_i32(path1[k5]);
            if !conflicting_segments.contains(&a) {
                common_segments.insert(a);
            }
        }
        k5 = k5 + 1;
    }
    proof {
        assert forall|a: i32| common_segments@.contains(a) <==> is_candidate(p1, p2, a) by {
            if common_segments@.contains(a) {
                let t = choose|t: int|
                    0 <= t < p1.len() && rc_seq(p2).contains(#[trigger] p1[t]) && abs_seg(p1[t])
                        == a;
                assert(p1.contains(p1[t]));
            }
            if is_candidate(p1, p2, a) {
                let s = choose|s: i32|
                    #[trigger] p1.contains(s) && rc_seq(p2).contains(s) && abs_seg(s) == a;
                let t = choose|t: int| 0 <= t < p1.len() && p1[t] == s;
            }
        }
    }

    let mut used_segments: HashSet<i32> = HashSet::new();
    let mut alignments: Vec<Alignment> = Vec::new();
    let ghost mut anchors: Seq<int> = Seq::empty();

    proof {
        lemma_first_anchor_props(p1, p2, 0);
        assert(used_segments@ == used_after(alignments@, 0));
    }
    let mut subproblem1_start: usize = 0;
    while subproblem1_start < n
        invariant
            subproblem1_start <= n,
            n == p1.len(),
            0 < n,
            0 < p2.len(),
            path1@ == p1,
            path2@ == p2,
            segment_lengths@ == sl,
            path2_rev@ == rc_seq(p2),
            entries_absable(p1),
            entries_absable(p2),
            path_covered(p1, sl),
            path_covered(p2, sl),
            lengths_positive(sl),
            total_len(p1, sl) + total_len(p2, sl) <= i32::MAX,
            max_lowmem_drop as int + p1.len() + p2.len() <= usize::MAX,
            forall|a: i32| conflicting_segments@.contains(a) <==> is_conflicting(p1, p2, a),
            forall|a: i32| common_segments@.contains(a) <==> is_candidate(p1, p2, a),
            forall|k: int|
                0 <= k < alignments@.len() ==> driver_alignment_wf(
                    #[trigger] alignments@[k],
                    p1,
                    p2,
                ),
            forall|k: int, a: i32|
                0 <= k < alignments@.len() && #[trigger] alignment_ids(alignments@[k]).contains(a)
                    ==> used_segments@.contains(a),
            forall|k1: int, k2: int, a: i32|
                #![trigger alignment_ids(alignments@[k1]).contains(a), alignment_ids(alignments@[k2]).contains(a)]
                0 <= k1 < k2 < alignments@.len() ==> !(alignment_ids(alignments@[k1]).contains(a)
                    && alignment_ids(alignments@[k2]).contains(a)),
            forall|k: int|
                0 <= k < alignments@.len() ==> #[trigger] driver_alignment_from_some(
                    alignments@[k],
                    p1,
                    p2,
                    sl,
                    max_highmem_length as int,
                    max_lowmem_drop as int,
                ),
            anchors.len() == alignments@.len(),
            forall|k: int|
                0 <= k < anchors.len() ==> 0 <= #[trigger] anchors[k]
                    <= alignments@[k].path1_start_index,
            forall|k: int| 1 <= k < anchors.len() ==> anchors[k - 1] < #[trigger] anchors[k],
            forall|k: int| 0 <= k < anchors.len() ==> #[trigger] anchors[k] < subproblem1_start,
            alignments@.len() > 0 ==> exists|a: i32| is_candidate(p1, p2, a),
            used_segments@ == used_after(alignments@, alignments@.len() as int),
            forall|rest: Seq<Alignment>|
                #![trigger driver_scan_ok(
                    rest,
                    p1,
                    p2,
                    sl,
                    max_highmem_length as int,
                    max_lowmem_drop as int,
                    max_path_length as int,
                    subproblem1_start as int,
                    alignments@.len() as int,
                )]
                rest.len() >= alignments@.len() && (forall|k: int|
                    0 <= k < alignments@.len() ==> #[trigger] rest[k] == alignments@[k])
                    && driver_scan_ok(
                    rest,
                    p1,
                    p2,
                    sl,
                    max_highmem_length as int,
                    max_lowmem_drop as int,
                    max_path_length as int,
                    subproblem1_start as int,
                    alignments@.len() as int,
                ) ==> driver_scan_ok(
                    rest,
                    p1,
                    p2,
                    sl,
                    max_highmem_length as int,
                    max_lowmem_drop as int,
                    max_path_length as int,
                    0,
                    0,
                ),
            (first_anchor(p1, p2, 0) == -1 || subproblem1_start <= first_anchor(p1, p2, 0))
                ==> alignments@.len() == 0 && used_segments@ == Set::<i32>::empty(),
            (first_anchor(p1, p2, 0) != -1 && subproblem1_start > first_anchor(p1, p2, 0)
                && first_subproblem_dispatchable(
                p1,
                p2,
                max_highmem_length as int,
                max_path_length as int,
            )) ==> alignments@.len() > 0 && driver_alignment_exact(
                alignments@[0],
                p1,
                p2,
                sl,
                max_highmem_length as int,
                max_lowmem_drop as int,
                first_anchor(p1, p2, 0),
                free_extent(p1, p1, p2, first_anchor(p1, p2, 0)),
                first_match(rc_seq(p2), p1[first_anchor(p1, p2, 0)], 0),
                free_extent(rc_seq(p2), p1, p2, first_match(rc_seq(p2), p1[first_anchor(p1, p2, 0)], 0)),
            ),
        decreases n - subproblem1_start,
    {
        let anchor: i32 = abs_i32(path1[subproblem1_start]);
        proof {
            lemma_first_anchor_props(p1, p2, 0);
        }
        let ghost used_at = used_segments@;
        let ghost aligns_at = alignments@;
        let ghost c_old = alignments@.len() as int;
        let ghost i_cur = subproblem1_start as int;
        if common_segments.contains(&anchor) && !used_segments.contains(&anchor) {
            let pushed: bool = process_anchor(
                path1,
                path2,
                &path2_rev,
                segment_lengths,
                max_highmem_length,
                max_lowmem_drop,
                max_path_length,
                subproblem1_start,
                &conflicting_segments,
                &mut used_segments,
                &mut alignments,
            );
            if pushed {
                proof {
                    anchors = anchors.push(subproblem1_start as int);
                }
            }
            proof {
                let maxhm = max_highmem_length as int;
                let dropv = max_lowmem_drop as int;
                let maxpath = max_path_length as int;
                if pushed {
                    let r = anchor_ranges(p1, p2, used_at, i_cur);
                    // the exactly-built frame for the whole list
                    lemma_exact_frame(
                        aligns_at,
                        alignments@,
                        p1,
                        p2,
                        sl,
                        maxhm,
                        dropv,
                        i_cur,
                        r.0,
                        r.1,
                        r.2,
                    );
                    // the used-set model follows the accepted alignment
                    lemma_used_after_frame(aligns_at, alignments@, c_old);
                    assert(alignments@[c_old] == alignments@.last());
                    assert(used_after(alignments@, c_old + 1) == used_after(
                        alignments@,
                        c_old,
                    ).union(alignment_ids(alignments@[c_old])));
                    assert(used_segments@ == used_after(alignments@, alignments@.len() as int));
                    // one accepted scan step
                    assert forall|rest: Seq<Alignment>|
                        rest.len() >= alignments@.len() && (forall|k: int|
                            0 <= k < alignments@.len() ==> #[trigger] rest[k] == alignments@[k])
                            && driver_scan_ok(
                            rest,
                            p1,
                            p2,
                            sl,
                            maxhm,
                            dropv,
                            maxpath,
                            i_cur + 1,
                            c_old + 1,
                        ) implies driver_scan_ok(rest, p1, p2, sl, maxhm, dropv, maxpath, 0, 0) by {
                        lemma_used_after_frame(alignments@, rest, c_old);
                        assert(used_after(rest, c_old) == used_at);
                        assert(rest[c_old] == alignments@[c_old]);
                        lemma_scan_accept(rest, p1, p2, sl, maxhm, dropv, maxpath, i_cur, c_old);
                        assert(driver_scan_ok(rest, p1, p2, sl, maxhm, dropv, maxpath, i_cur, c_old));
                        assert forall|k: int| 0 <= k < aligns_at.len() implies #[trigger] rest[k]
                            == aligns_at[k] by {
                            assert(rest[k] == alignments@[k]);
                        }
                    }
                } else {
                    // the subproblem was too large for either aligner
                    assert(alignments@ == aligns_at);
                    assert(used_segments@ == used_at);
                    assert forall|rest: Seq<Alignment>|
                        rest.len() >= alignments@.len() && (forall|k: int|
                            0 <= k < alignments@.len() ==> #[trigger] rest[k] == alignments@[k])
                            && driver_scan_ok(
                            rest,
                            p1,
                            p2,
                            sl,
                            maxhm,
                            dropv,
                            maxpath,
                            i_cur + 1,
                            c_old,
                        ) implies driver_scan_ok(rest, p1, p2, sl, maxhm, dropv, maxpath, 0, 0) by {
                        lemma_used_after_frame(alignments@, rest, c_old);
                        assert(used_after(rest, c_old) == used_at);
                        lemma_scan_oversize(rest, p1, p2, sl, maxhm, dropv, maxpath, i_cur, c_old);
                        assert(driver_scan_ok(rest, p1, p2, sl, maxhm, dropv, maxpath, i_cur, c_old));
                    }
                }
                // the pre-anchor prefix and the first dispatched subproblem
                if first_anchor(p1, p2, 0) == i_cur {
                    assert(used_at == Set::<i32>::empty());
                    assert(aligns_at.len() == 0);
                    if pushed {
                        assert(alignments@[0] == alignments@.last());
                    }
                }
            }
        } else {
            proof {
                let maxhm = max_highmem_length as int;
                let dropv = max_lowmem_drop as int;
                let maxpath = max_path_length as int;
                assert forall|rest: Seq<Alignment>|
                    rest.len() >= alignments@.len() && (forall|k: int|
                        0 <= k < alignments@.len() ==> #[trigger] rest[k] == alignments@[k])
                        && driver_scan_ok(
                        rest,
                        p1,
                        p2,
                        sl,
                        maxhm,
                        dropv,
                        maxpath,
                        i_cur + 1,
                        c_old,
                    ) implies driver_scan_ok(rest, p1, p2, sl, maxhm, dropv, maxpath, 0, 0) by {
                    lemma_used_after_frame(alignments@, rest, c_old);
                    assert(used_after(rest, c_old) == used_at);
                    lemma_scan_skip(rest, p1, p2, sl, maxhm, dropv, maxpath, i_cur, c_old);
                    assert(driver_scan_ok(rest, p1, p2, sl, maxhm, dropv, maxpath, i_cur, c_old));
                }
                if first_anchor(p1, p2, 0) == i_cur {
                    assert(false);
                }
            }
        }
        subproblem1_start = subproblem1_start + 1;
    }
    proof {
        lemma_first_anchor_props(p1, p2, 0);
        assert(driver_scan_ok(
            alignments@,
            p1,
            p2,
            sl,
            max_highmem_length as int,
            max_lowmem_drop as int,
            max_path_length as int,
            n as int,
            alignments@.len() as int,
        ));
        assert(driver_scan_ok(
            alignments@,
            p1,
            p2,
            sl,
            max_highmem_length as int,
            max_lowmem_drop as int,
            max_path_length as int,
            0,
            0,
        ));
    }

    Ok(alignments)
}


/// `al` is the verbatim result, with traceback origin `(oi, oj)`, of
/// the aligner that the driver's size dispatch selects for the
/// subproblem with reference range `[s, e1)` and
/// reverse-complemented-query range `[j0, e2)`.
pub open spec fn subproblem_result_at(
    al: Alignment,
    p1: Seq<i32>,
    p2: Seq<i32>,
    sl: Map<i32, i32>,
    maxhm: int,
    drop: int,
    s: int,
    e1: int,
    j0: int,
    e2: int,
    oi: int,
    oj: int,
) -> bool {
    let p1s = p1.subrange(s, e1);
    let p2s = rc_seq(p2).subrange(j0, e2);
    let small = e1 - s < maxhm && e2 - j0 < maxhm;
    &&& (small ==> is_first_score_max(p1s, p2s, sl, oi, oj) && alignment_from_walk(
        al,
        p1s,
        p2s,
        full_tb_fn(p1s, p2s, sl),
        oi,
        oj,
    ))
    &&& (!small ==> crate::lowmem::is_first_lscore_max(
        p1s,
        p2s,
        sl,
        crate::lowmem::row_drop(drop, e1 - s, e2 - j0),
        crate::lowmem::col_drop(drop, e1 - s, e2 - j0),
        oi,
        oj,
    ) && alignment_from_walk(
        al,
        p1s,
        p2s,
        crate::lowmem::lowmem_tb_fn(
            p1s,
            p2s,
            sl,
            crate::lowmem::row_drop(drop, e1 - s, e2 - j0),
            crate::lowmem::col_drop(drop, e1 - s, e2 - j0),
        ),
        oi,
        oj,
    ))
}


/// A full-matrix aligner result for a small subproblem satisfies the
/// dispatched-result predicate.
proof fn lemma_result_at_full(
    al: Alignment,
    p1: Seq<i32>,
    p2: Seq<i32>,
    sl: Map<i32, i32>,
    maxhm: int,
    drop: int,
    s: int,
    e1: int,
    j0: int,
    e2: int,
    oi: int,
    oj: int,
)
    requires
        e1 - s < maxhm,
        e2 - j0 < maxhm,
        is_first_score_max(p1.subrange(s, e1), rc_seq(p2).subrange(j0, e2), sl, oi, oj),
        alignment_from_walk(
            al,
            p1.subrange(s, e1),
            rc_seq(p2).subrange(j0, e2),
            full_tb_fn(p1.subrange(s, e1), rc_seq(p2).subrange(j0, e2), sl),
            oi,
            oj,
        ),
    ensures
        subproblem_result_at(al, p1, p2, sl, maxhm, drop, s, e1, j0, e2, oi, oj),
{
    assert(e1 - s < maxhm && e2 - j0 < maxhm);
}

/// A banded aligner result for a large subproblem satisfies the
/// dispatched-result predicate.
proof fn lemma_result_at_lowmem(
    al: Alignment,
    p1: Seq<i32>,
    p2: Seq<i32>,
    sl: Map<i32, i32>,
    maxhm: int,
    drop: int,
    s: int,
    e1: int,
    j0: int,
    e2: int,
    oi: int,
    oj: int,
)
    requires
        !(e1 - s < maxhm && e2 - j0 < maxhm),
        crate::lowmem::is_first_lscore_max(
            p1.subrange(s, e1),
            rc_seq(p2).subrange(j0, e2),
            sl,
            crate::lowmem::row_drop(drop, e1 - s, e2 - j0),
            crate::lowmem::col_drop(drop, e1 - s, e2 - j0),
            oi,
            oj,
        ),
        alignment_from_walk(
            al,
            p1.subrange(s, e1),
            rc_seq(p2).subrange(j0, e2),
            crate::lowmem::lowmem_tb_fn(
                p1.subrange(s, e1),
                rc_seq(p2).subrange(j0, e2),
                sl,
                crate::lowmem::row_drop(drop, e1 - s, e2 - j0),
                crate::lowmem::col_drop(drop, e1 - s, e2 - j0),
            ),
            oi,
            oj,
        ),
    ensures
        subproblem_result_at(al, p1, p2, sl, maxhm, drop, s, e1, j0, e2, oi, oj),
{
    assert(!(e1 - s < maxhm && e2 - j0 < maxhm));
    assert(alignment_from_walk(
        al,
        p1.subrange(s, e1),
        rc_seq(p2).subrange(j0, e2),
        crate::lowmem::lowmem_tb_fn(
            p1.subrange(s, e1),
            rc_seq(p2).subrange(j0, e2),
            sl,
            crate::lowmem::row_drop(drop, e1 - s, e2 - j0),
            crate::lowmem::col_drop(drop, e1 - s, e2 - j0),
        ),
        oi,
        oj,
    ));
}

/// Appending an exactly-built alignment keeps every entry of the list
/// exactly built.
proof fn lemma_exact_frame(
    pre: Seq<Alignment>,
    cur: Seq<Alignment>,
    p1: Seq<i32>,
    p2: Seq<i32>,
    sl: Map<i32, i32>,
    maxhm: int,
    drop: int,
    s: int,
    e1: int,
    j0: int,
    e2: int,
)
    requires
        cur.len() == pre.len() + 1,
        forall|k: int| 0 <= k < pre.len() ==> #[trigger] cur[k] == pre[k],
        forall|k: int|
            0 <= k < pre.len() ==> #[trigger] driver_alignment_from_some(
                pre[k],
                p1,
                p2,
                sl,
                maxhm,
                drop,
            ),
        driver_alignment_exact(cur.last(), p1, p2, sl, maxhm, drop, s, e1, j0, e2),
        0 <= s < e1 <= p1.len(),
        0 <= j0 < e2 <= p2.len(),
    ensures
        forall|k: int|
            0 <= k < cur.len() ==> #[trigger] driver_alignment_from_some(
                cur[k],
                p1,
                p2,
                sl,
                maxhm,
                drop,
            ),
{
    assert forall|k: int|
        0 <= k < cur.len() implies #[trigger] driver_alignment_from_some(
        cur[k],
        p1,
        p2,
        sl,
        maxhm,
        drop,
    ) by {
        if k < pre.len() {
            assert(cur[k] == pre[k]);
            assert(driver_alignment_from_some(pre[k], p1, p2, sl, maxhm, drop));
        } else {
            assert(cur[k] == cur.last());
            assert(driver_alignment_exact(cur[k], p1, p2, sl, maxhm, drop, s, e1, j0, e2));
        }
    }
}

/// The paths of a subproblem result use representable segment values
/// and its indices lie inside the subproblem.
proof fn lemma_subproblem_absable(
    al: Alignment,
    p1: Seq<i32>,
    p2: Seq<i32>,
    sl: Map<i32, i32>,
    maxhm: int,
    drop: int,
    s: int,
    e1: int,
    j0: int,
    e2: int,
    oi: int,
    oj: int,
)
    requires
        entries_absable(p1),
        entries_absable(p2),
        0 <= s < e1 <= p1.len(),
        0 <= j0 < e2 <= rc_seq(p2).len(),
        subproblem_result_at(al, p1, p2, sl, maxhm, drop, s, e1, j0, e2, oi, oj),
    ensures
        entries_absable(al.alignment_path1@),
        entries_absable(al.alignment_path2@),
        0 <= al.path1_start_index <= al.path1_end_index < e1 - s,
        al.alignment_path1@.len() > 0,
        al.alignment_path2@.len() > 0,
{
    let p1s = p1.subrange(s, e1);
    let p2s = rc_seq(p2).subrange(j0, e2);
    lemma_rc_entries(p2);
    let small = e1 - s < maxhm && e2 - j0 < maxhm;
    let tbfn = if small {
        full_tb_fn(p1s, p2s, sl)
    } else {
        crate::lowmem::lowmem_tb_fn(
            p1s,
            p2s,
            sl,
            crate::lowmem::row_drop(drop, e1 - s, e2 - j0),
            crate::lowmem::col_drop(drop, e1 - s, e2 - j0),
        )
    };
    assert(alignment_from_walk(al, p1s, p2s, tbfn, oi, oj));
    let term = walk_end(tbfn, oi, oj);
    let idx1 = choose|idx: Seq<int>| picks_from(al.alignment_path1@, p1s, idx, term.0, oi);
    let idx2 = choose|idx: Seq<int>| picks_from(al.alignment_path2@, p2s, idx, term.1, oj);
    assert forall|k: int| 0 <= k < al.alignment_path1@.len() implies #[trigger] al.alignment_path1@[k]
        != i32::MIN by {
        assert(al.alignment_path1@[k] == p1s[idx1[k]]);
    }
    assert forall|k: int| 0 <= k < al.alignment_path2@.len() implies #[trigger] al.alignment_path2@[k]
        != i32::MIN by {
        assert(al.alignment_path2@[k] == p2s[idx2[k]]);
    }
}

/// The entries of a reverse complement are representable whenever those
/// of the path are.
proof fn lemma_rc_entries(p: Seq<i32>)
    requires
        entries_absable(p),
    ensures
        entries_absable(rc_seq(p)),
{
    assert forall|k: int| 0 <= k < rc_seq(p).len() implies #[trigger] rc_seq(p)[k]
        != i32::MIN by {
        lemma_neg_seg(p[p.len() - 1 - k]);
    }
}

/// Re-orienting the second path of a subproblem result: its values are
/// the negated values of the walk in reverse order, they all occur in
/// the query path, adjacent entries still differ, and in this order
/// they form a subsequence of the query path.
proof fn lemma_reoriented_path(
    inner2: Seq<i32>,
    a2: Seq<i32>,
    p2: Seq<i32>,
    idx2: Seq<int>,
    j0: int,
    e2: int,
)
    requires
        0 <= j0 < e2 <= rc_seq(p2).len(),
        0 < p2.len(),
        entries_absable(p2),
        a2 == rc_seq(inner2),
        idx2.len() == inner2.len(),
        forall|k: int|
            0 <= k < inner2.len() ==> 0 <= #[trigger] idx2[k] && j0 + idx2[k] < e2 && inner2[k]
                == rc_seq(p2)[j0 + idx2[k]],
        forall|k: int| 1 <= k < inner2.len() ==> idx2[k - 1] < #[trigger] idx2[k],
        no_adjacent_repeat(inner2),
    ensures
        forall|b: int|
            0 <= b < a2.len() ==> #[trigger] a2[b] == neg_seg(inner2[a2.len() - 1 - b]) && a2[b]
                != i32::MIN && abs_seg(a2[b]) == abs_seg(inner2[a2.len() - 1 - b])
                && p2.contains(a2[b]),
        no_adjacent_repeat(a2),
        is_subseq_within(a2, p2, 0, p2.len() - 1),
{
    assert forall|b: int|
        0 <= b < a2.len() implies #[trigger] a2[b] == neg_seg(inner2[a2.len() - 1 - b]) && a2[b]
        != i32::MIN && abs_seg(a2[b]) == abs_seg(inner2[a2.len() - 1 - b]) && p2.contains(
        a2[b],
    ) by {
        let orig = inner2[a2.len() - 1 - b];
        let pos = j0 + idx2[a2.len() - 1 - b];
        assert(orig == rc_seq(p2)[pos]);
        lemma_neg_seg(p2[p2.len() - 1 - pos]);
        assert(a2[b] == p2[p2.len() - 1 - pos]);
    }
    assert(no_adjacent_repeat(a2)) by {
        assert forall|k: int| #![trigger a2[k]] 1 <= k < a2.len() implies a2[k - 1] != a2[k] by {
            let pos1 = j0 + idx2[a2.len() - 1 - k];
            let pos2 = j0 + idx2[a2.len() - k];
            lemma_neg_seg(p2[p2.len() - 1 - pos1]);
            lemma_neg_seg(p2[p2.len() - 1 - pos2]);
            assert(inner2[a2.len() - 1 - k] == rc_seq(p2)[pos1]);
            assert(inner2[a2.len() - k] == rc_seq(p2)[pos2]);
            lemma_neg_seg(inner2[a2.len() - 1 - k]);
            lemma_neg_seg(inner2[a2.len() - k]);
        }
    }
    let idx2s = Seq::new(a2.len(), |b: int| p2.len() - 1 - (j0 + idx2[a2.len() - 1 - b]));
    assert(picks_from(a2, p2, idx2s, 0, p2.len() - 1)) by {
        assert forall|b: int| 0 <= b < a2.len() implies 0 <= #[trigger] idx2s[b] <= p2.len() - 1
            && p2[idx2s[b]] == a2[b] by {
            let pos = j0 + idx2[a2.len() - 1 - b];
            assert(j0 <= pos < e2);
            lemma_neg_seg(p2[p2.len() - 1 - pos]);
        }
        assert forall|b: int| 1 <= b < a2.len() implies idx2s[b - 1] < #[trigger] idx2s[b] by {
            assert(idx2[a2.len() - 1 - b] < idx2[a2.len() - b]);
        }
    }
    assert(is_subseq_within(a2, p2, 0, p2.len() - 1));
}

/// Translating a subproblem result by the subproblem offset and
/// re-orienting its second path yields a well-formed driver alignment
/// whose segment identities were all unused when the subproblem was cut.
#[verifier::rlimit(100)]
proof fn lemma_accept_alignment(
    al: Alignment,
    new_al: Alignment,
    p1: Seq<i32>,
    p2: Seq<i32>,
    sl: Map<i32, i32>,
    maxhm: int,
    drop: int,
    s: int,
    e1: int,
    j0: int,
    e2: int,
    oi: int,
    oj: int,
    used_before: Set<i32>,
)
    requires
        0 < p1.len() <= i32::MAX,
        0 < p2.len(),
        entries_absable(p1),
        entries_absable(p2),
        0 <= s < e1 <= p1.len(),
        0 <= j0 < e2 <= rc_seq(p2).len(),
        forall|idx: int|
            s <= idx < e1 ==> !is_conflicting(p1, p2, abs_seg(#[trigger] p1[idx]))
                && !used_before.contains(abs_seg(p1[idx])),
        forall|idx: int|
            j0 <= idx < e2 ==> !is_conflicting(p1, p2, abs_seg(#[trigger] rc_seq(p2)[idx]))
                && !used_before.contains(abs_seg(rc_seq(p2)[idx])),
        subproblem_result_at(al, p1, p2, sl, maxhm, drop, s, e1, j0, e2, oi, oj),
        new_al.alignment_path1@ == al.alignment_path1@,
        new_al.alignment_path2@ == rc_seq(al.alignment_path2@),
        new_al.path1_start_index == s + al.path1_start_index,
        new_al.path1_end_index == s + al.path1_end_index,
    ensures
        driver_alignment_wf(new_al, p1, p2),
        driver_alignment_exact(new_al, p1, p2, sl, maxhm, drop, s, e1, j0, e2),
        new_al.path1_start_index >= s,
        forall|x: i32| #[trigger] alignment_ids(new_al).contains(x) ==> !used_before.contains(x),
        forall|x: i32|
            #[trigger] alignment_ids(new_al).contains(x) ==> ((exists|t: int|
                0 <= t < new_al.alignment_path1@.len() && abs_seg(new_al.alignment_path1@[t])
                    == x) || (exists|t: int|
                0 <= t < new_al.alignment_path2@.len() && abs_seg(new_al.alignment_path2@[t])
                    == x)),
{
    let p1s = p1.subrange(s, e1);
    let p2s = rc_seq(p2).subrange(j0, e2);
    let small = e1 - s < maxhm && e2 - j0 < maxhm;
    let rdv = crate::lowmem::row_drop(drop, e1 - s, e2 - j0);
    let cdv = crate::lowmem::col_drop(drop, e1 - s, e2 - j0);
    let tbfn = if small {
        full_tb_fn(p1s, p2s, sl)
    } else {
        crate::lowmem::lowmem_tb_fn(p1s, p2s, sl, rdv, cdv)
    };
    assert(alignment_from_walk(al, p1s, p2s, tbfn, oi, oj));
    let term = walk_end(tbfn, oi, oj);
    let idx1 = choose|idx: Seq<int>| picks_from(al.alignment_path1@, p1s, idx, term.0, oi);
    let idx2 = choose|idx: Seq<int>| picks_from(al.alignment_path2@, p2s, idx, term.1, oj);
    assert(picks_from(al.alignment_path1@, p1s, idx1, term.0, oi));
    assert(picks_from(al.alignment_path2@, p2s, idx2, term.1, oj));
    assert forall|k: int|
        0 <= k < al.alignment_path1@.len() implies #[trigger] al.alignment_path1@[k] == p1[s
        + idx1[k]] && s <= s + idx1[k] < e1 by {
        assert(p1s[idx1[k]] == p1[s + idx1[k]]);
    }
    assert forall|k: int|
        0 <= k < al.alignment_path2@.len() implies #[trigger] al.alignment_path2@[k] == rc_seq(
        p2,
    )[j0 + idx2[k]] && j0 <= j0 + idx2[k] < e2 by {
        assert(p2s[idx2[k]] == rc_seq(p2)[j0 + idx2[k]]);
    }
    assert(entries_absable(al.alignment_path1@));
    assert(entries_absable(al.alignment_path2@));
    let a1 = new_al.alignment_path1@;
    let a2 = new_al.alignment_path2@;
    lemma_reoriented_path(al.alignment_path2@, a2, p2, idx2, j0, e2);
    // inversion directionality
    lemma_directionality(
        a1,
        a2,
        al.alignment_path2@,
        p1,
        p2,
        idx1,
        idx2,
        s,
        e1,
        j0,
        e2,
    );
    // the first path is a subsequence of the reference range
    let idx1s = Seq::new(idx1.len(), |k: int| idx1[k] + s);
    assert(picks_from(
        a1,
        p1,
        idx1s,
        new_al.path1_start_index as int,
        new_al.path1_end_index as int,
    ));
    assert(driver_alignment_wf(new_al, p1, p2));
    // every identity the alignment touches was free when the subproblem
    // was cut
    assert forall|x: i32| #[trigger] alignment_ids(new_al).contains(x) implies !used_before.contains(
        x,
    ) && ((exists|t: int|
        0 <= t < a1.len() && abs_seg(a1[t]) == x) || (exists|t: int|
        0 <= t < a2.len() && abs_seg(a2[t]) == x)) by {
        if exists|k: int| 0 <= k < a1.len() && abs_seg(#[trigger] a1[k]) == x {
            let k = choose|k: int| 0 <= k < a1.len() && abs_seg(#[trigger] a1[k]) == x;
            assert(!used_before.contains(abs_seg(p1[s + idx1[k]])));
        } else {
            let k = choose|k: int| 0 <= k < a2.len() && abs_seg(#[trigger] a2[k]) == x;
            assert(abs_seg(al.alignment_path2@[a2.len() - 1 - k]) == x);
            assert(!used_before.contains(abs_seg(rc_seq(p2)[j0 + idx2[a2.len() - 1 - k]])));
        }
    }
    // the exact-subproblem witness
    assert(driver_alignment_exact(new_al, p1, p2, sl, maxhm, drop, s, e1, j0, e2)) by {
        assert(subproblem_result_at(al, p1, p2, sl, maxhm, drop, s, e1, j0, e2, oi, oj));
    }
}

/// Inverted orientation: wherever the two returned paths share a
/// segment identity, the query-side entry is the exact negation of the
/// reference-side entry, because a same-orientation pairing would make
/// the identity conflicting and conflicting identities never enter a
/// subproblem.
proof fn lemma_directionality(
    a1: Seq<i32>,
    a2: Seq<i32>,
    inner2: Seq<i32>,
    p1: Seq<i32>,
    p2: Seq<i32>,
    idx1: Seq<int>,
    idx2: Seq<int>,
    s: int,
    e1: int,
    j0: int,
    e2: int,
)
    requires
        0 <= s < e1 <= p1.len(),
        0 <= j0 < e2 <= rc_seq(p2).len(),
        entries_absable(p1),
        entries_absable(p2),
        idx1.len() == a1.len(),
        forall|a: int|
            0 <= a < a1.len() ==> #[trigger] a1[a] == p1[s + idx1[a]] && s <= s + idx1[a] < e1,
        idx2.len() == inner2.len(),
        a2.len() == inner2.len(),
        forall|k: int|
            0 <= k < inner2.len() ==> #[trigger] inner2[k] == rc_seq(p2)[j0 + idx2[k]] && j0 <= j0
                + idx2[k] < e2,
        forall|b: int|
            0 <= b < a2.len() ==> #[trigger] a2[b] == neg_seg(inner2[a2.len() - 1 - b]) && a2[b]
                != i32::MIN && abs_seg(a2[b]) == abs_seg(inner2[a2.len() - 1 - b]),
        forall|idx: int|
            s <= idx < e1 ==> !is_conflicting(p1, p2, abs_seg(#[trigger] p1[idx])),
    ensures
        forall|a: int, b: int|
            0 <= a < a1.len() && 0 <= b < a2.len() && abs_seg(#[trigger] a1[a]) == abs_seg(
                #[trigger] a2[b],
            ) ==> a2[b] == neg_seg(a1[a]),
{
    assert forall|a: int, b: int|
        0 <= a < a1.len() && 0 <= b < a2.len() && abs_seg(#[trigger] a1[a]) == abs_seg(
            #[trigger] a2[b],
        ) implies a2[b] == neg_seg(a1[a]) by {
        let x = a1[a];
        let y = a2[b];
        let yorig = inner2[a2.len() - 1 - b];
        if y != neg_seg(x) {
            lemma_neg_seg(x);
            lemma_neg_seg(yorig);
            assert(y == x);
            assert(yorig == neg_seg(x));
            let pos = j0 + idx2[a2.len() - 1 - b];
            assert(rc_seq(p2)[pos] == neg_seg(x));
            lemma_neg_seg(p2[p2.len() - 1 - pos]);
            assert(p2[p2.len() - 1 - pos] == x);
            assert(p2.contains(x));
            assert(p1.contains(x)) by {
                assert(x == p1[s + idx1[a]]);
            }
            assert(is_conflicting(p1, p2, abs_seg(x)));
            assert(!is_conflicting(p1, p2, abs_seg(p1[s + idx1[a]])));
            assert(false);
        }
    }
}

/// A set reached from `before` by adding exactly the absolute values of
/// the segments of both paths of `al` is `before` joined with `al`'s
/// identity set.
proof fn lemma_used_set_union(u: Set<i32>, before: Set<i32>, al: Alignment)
    requires
        forall|x: i32| before.contains(x) ==> u.contains(x),
        forall|t: int|
            0 <= t < al.alignment_path1@.len() ==> u.contains(
                abs_seg(#[trigger] al.alignment_path1@[t]),
            ),
        forall|t: int|
            0 <= t < al.alignment_path2@.len() ==> u.contains(
                abs_seg(#[trigger] al.alignment_path2@[t]),
            ),
        forall|x: i32|
            u.contains(x) ==> before.contains(x) || (exists|t: int|
                0 <= t < al.alignment_path1@.len() && abs_seg(
                    #[trigger] al.alignment_path1@[t],
                ) == x) || (exists|t: int|
                0 <= t < al.alignment_path2@.len() && abs_seg(
                    #[trigger] al.alignment_path2@[t],
                ) == x),
    ensures
        u == before.union(alignment_ids(al)),
        forall|x: i32| #[trigger] alignment_ids(al).contains(x) ==> u.contains(x),
{
    assert forall|x: i32|
        #[trigger] alignment_ids(al).contains(x) implies u.contains(x) by {
        if exists|t: int|
            0 <= t < al.alignment_path1@.len() && abs_seg(
                #[trigger] al.alignment_path1@[t],
            ) == x {
            let t = choose|t: int|
                0 <= t < al.alignment_path1@.len() && abs_seg(
                    #[trigger] al.alignment_path1@[t],
                ) == x;
            assert(u.contains(abs_seg(al.alignment_path1@[t])));
        } else {
            let t = choose|t: int|
                0 <= t < al.alignment_path2@.len() && abs_seg(
                    #[trigger] al.alignment_path2@[t],
                ) == x;
            assert(u.contains(abs_seg(al.alignment_path2@[t])));
        }
    }
    assert forall|x: i32| u.contains(x) implies before.union(alignment_ids(al)).contains(
        x,
    ) by {
        if !before.contains(x) {
            if exists|t: int|
                0 <= t < al.alignment_path1@.len() && abs_seg(
                    #[trigger] al.alignment_path1@[t],
                ) == x {
                let t = choose|t: int|
                    0 <= t < al.alignment_path1@.len() && abs_seg(
                        #[trigger] al.alignment_path1@[t],
                    ) == x;
                assert(abs_seg(al.alignment_path1@[t]) == x);
            } else {
                let t = choose|t: int|
                    0 <= t < al.alignment_path2@.len() && abs_seg(
                        #[trigger] al.alignment_path2@[t],
                    ) == x;
                assert(abs_seg(al.alignment_path2@[t]) == x);
            }
            assert(alignment_ids(al).contains(x));
        }
    }
    assert forall|x: i32| before.union(alignment_ids(al)).contains(x) implies u.contains(
        x,
    ) by {
        if !before.contains(x) {
            assert(alignment_ids(al).contains(x));
        }
    }
    assert(u =~= before.union(alignment_ids(al)));
}

/// Accepts a subproblem's alignment: marks its segments used, restores
/// the second path to the query's own orientation, translates the
/// indices to the full reference path, and appends the result.
#[verifier::rlimit(100)]
fn accept_alignment(
    alignment: Alignment,
    Ghost(p1): Ghost<Seq<i32>>,
    Ghost(p2): Ghost<Seq<i32>>,
    Ghost(sl): Ghost<Map<i32, i32>>,
    Ghost(origin): Ghost<(int, int)>,
    s: usize,
    e1: usize,
    j0: usize,
    e2: usize,
    max_highmem_length: usize,
    max_lowmem_drop: usize,
    used_segments: &mut HashSet<i32>,
    alignments: &mut Vec<Alignment>,
)
    requires
        0 < p1.len() <= i32::MAX,
        0 < p2.len(),
        entries_absable(p1),
        entries_absable(p2),
        s < e1 <= p1.len(),
        j0 < e2 <= rc_seq(p2).len(),
        forall|idx: int|
            s <= idx < e1 ==> !is_conflicting(p1, p2, abs_seg(#[trigger] p1[idx])) && !old(
                used_segments,
            )@.contains(abs_seg(p1[idx])),
        forall|idx: int|
            j0 <= idx < e2 ==> !is_conflicting(p1, p2, abs_seg(#[trigger] rc_seq(p2)[idx]))
                && !old(used_segments)@.contains(abs_seg(rc_seq(p2)[idx])),
        subproblem_result_at(
            alignment,
            p1,
            p2,
            sl,
            max_highmem_length as int,
            max_lowmem_drop as int,
            s as int,
            e1 as int,
            j0 as int,
            e2 as int,
            origin.0,
            origin.1,
        ),
        forall|k: int|
            0 <= k < old(alignments)@.len() ==> driver_alignment_wf(
                #[trigger] old(alignments)@[k],
                p1,
                p2,
            ),
        forall|k: int, a: i32|
            0 <= k < old(alignments)@.len() && #[trigger] alignment_ids(
                old(alignments)@[k],
            ).contains(a) ==> old(used_segments)@.contains(a),
        forall|k1: int, k2: int, a: i32|
            #![trigger alignment_ids(old(alignments)@[k1]).contains(a), alignment_ids(old(alignments)@[k2]).contains(a)]
            0 <= k1 < k2 < old(alignments)@.len() ==> !(alignment_ids(
                old(alignments)@[k1],
            ).contains(a) && alignment_ids(old(alignments)@[k2]).contains(a)),
    ensures
        final(alignments)@.len() == old(alignments)@.len() + 1,
        forall|k: int|
            0 <= k < old(alignments)@.len() ==> #[trigger] final(alignments)@[k] == old(
                alignments,
            )@[k],
        final(alignments)@.last().path1_start_index >= s,
        driver_alignment_exact(
            final(alignments)@.last(),
            p1,
            p2,
            sl,
            max_highmem_length as int,
            max_lowmem_drop as int,
            s as int,
            e1 as int,
            j0 as int,
            e2 as int,
        ),
        forall|x: i32| old(used_segments)@.contains(x) ==> final(used_segments)@.contains(x),
        final(used_segments)@ == old(used_segments)@.union(
            alignment_ids(final(alignments)@.last()),
        ),
        forall|k: int|
            0 <= k < final(alignments)@.len() ==> driver_alignment_wf(
                #[trigger] final(alignments)@[k],
                p1,
                p2,
            ),
        forall|k: int, a: i32|
            0 <= k < final(alignments)@.len() && #[trigger] alignment_ids(
                final(alignments)@[k],
            ).contains(a) ==> final(used_segments)@.contains(a),
        forall|k1: int, k2: int, a: i32|
            #![trigger alignment_ids(final(alignments)@[k1]).contains(a), alignment_ids(final(alignments)@[k2]).contains(a)]
            0 <= k1 < k2 < final(alignments)@.len() ==> !(alignment_ids(
                final(alignments)@[k1],
            ).contains(a) && alignment_ids(final(alignments)@[k2]).contains(a)),
{
    let ghost p1s = p1.subrange(s as int, e1 as int);
    let ghost p2s = rc_seq(p2).subrange(j0 as int, e2 as int);
    let ghost used_before = used_segments@;
    proof {
        lemma_subproblem_absable(
            alignment,
            p1,
            p2,
            sl,
            max_highmem_length as int,
            max_lowmem_drop as int,
            s as int,
            e1 as int,
            j0 as int,
            e2 as int,
            origin.0,
            origin.1,
        );
    }
    let new_path2: Vec<i32> = reverse_complement(alignment.alignment_path2.as_slice());
    #[allow(clippy::cast_possible_truncation)]
    let start_offset: i32 = s as i32;
    let ghost al_snap = alignment;
    let new_alignment = Alignment {
        alignment_path1: alignment.alignment_path1,
        alignment_path2: new_path2,
        path1_start_index: start_offset + alignment.path1_start_index,
        path1_end_index: start_offset + alignment.path1_end_index,
    };
    proof {
        lemma_accept_alignment(
            al_snap,
            new_alignment,
            p1,
            p2,
            sl,
            max_highmem_length as int,
            max_lowmem_drop as int,
            s as int,
            e1 as int,
            j0 as int,
            e2 as int,
            origin.0,
            origin.1,
            used_before,
        );
    }

    // record every aligned segment as used
    let mut t1: usize = 0;
    while t1 < new_alignment.alignment_path1.len()
        invariant
            t1 <= new_alignment.alignment_path1@.len(),
            entries_absable(new_alignment.alignment_path1@),
            forall|x: i32| used_before.contains(x) ==> used_segments@.contains(x),
            forall|t: int|
                0 <= t < t1 ==> used_segments@.contains(
                    abs_seg(#[trigger] new_alignment.alignment_path1@[t]),
                ),
            forall|x: i32|
                used_segments@.contains(x) ==> used_before.contains(x) || (exists|t: int|
                    0 <= t < t1 && abs_seg(#[trigger] new_alignment.alignment_path1@[t]) == x),
        decreases new_alignment.alignment_path1@.len() - t1,
    {
        let ghost used_head = used_segments@;
        let a: i32 = abs_i32(new_alignment.alignment_path1[t1]);
        used_segments.insert(a);
        proof {
            assert(used_segments@ == used_head.insert(a));
            assert forall|x: i32|
                used_segments@.contains(x) implies used_before.contains(x) || (exists|t: int|
                    0 <= t < t1 + 1 && abs_seg(
                        #[trigger] new_alignment.alignment_path1@[t],
                    ) == x) by {
                if x == a {
                    assert(abs_seg(new_alignment.alignment_path1@[t1 as int]) == x);
                } else {
                    assert(used_head.contains(x));
                }
            }
        }
        t1 = t1 + 1;
    }
    let mut t2: usize = 0;
    while t2 < new_alignment.alignment_path2.len()
        invariant
            t2 <= new_alignment.alignment_path2@.len(),
            entries_absable(new_alignment.alignment_path2@),
            forall|x: i32| used_before.contains(x) ==> used_segments@.contains(x),
            forall|t: int|
                0 <= t < new_alignment.alignment_path1@.len() ==> used_segments@.contains(
                    abs_seg(#[trigger] new_alignment.alignment_path1@[t]),
                ),
            forall|t: int|
                0 <= t < t2 ==> used_segments@.contains(
                    abs_seg(#[trigger] new_alignment.alignment_path2@[t]),
                ),
            forall|x: i32|
                used_segments@.contains(x) ==> used_before.contains(x) || (exists|t: int|
                    0 <= t < new_alignment.alignment_path1@.len() && abs_seg(
                        #[trigger] new_alignment.alignment_path1@[t],
                    ) == x) || (exists|t: int|
                    0 <= t < t2 && abs_seg(#[trigger] new_alignment.alignment_path2@[t]) == x),
        decreases new_alignment.alignment_path2@.len() - t2,
    {
        let ghost used_head = used_segments@;
        let a: i32 = abs_i32(new_alignment.alignment_path2[t2]);
        used_segments.insert(a);
        proof {
            assert(used_segments@ == used_head.insert(a));
            assert forall|x: i32|
                used_segments@.contains(x) implies used_before.contains(x) || (exists|t: int|
                    0 <= t < new_alignment.alignment_path1@.len() && abs_seg(
                        #[trigger] new_alignment.alignment_path1@[t],
                    ) == x) || (exists|t: int|
                    0 <= t < t2 + 1 && abs_seg(
                        #[trigger] new_alignment.alignment_path2@[t],
                    ) == x) by {
                if x == a {
                    assert(abs_seg(new_alignment.alignment_path2@[t2 as int]) == x);
                } else {
                    assert(used_head.contains(x));
                }
            }
        }
        t2 = t2 + 1;
    }
    proof {
        lemma_used_set_union(used_segments@, used_before, new_alignment);
    }

    let ghost alignments_before = alignments@;
    alignments.push(new_alignment);
    proof {
        assert(alignments@.last() == new_alignment);
        assert forall|k: int, a: i32|
            0 <= k < alignments@.len() && #[trigger] alignment_ids(alignments@[k]).contains(
                a,
            ) implies used_segments@.contains(a) by {
            if k < alignments_before.len() {
                assert(alignment_ids(alignments_before[k]).contains(a));
            }
        }
        assert forall|k1: int, k2: int, a: i32|
            #![trigger alignment_ids(alignments@[k1]).contains(a), alignment_ids(alignments@[k2]).contains(a)]
            0 <= k1 < k2 < alignments@.len() implies !(alignment_ids(alignments@[k1]).contains(a)
            && alignment_ids(alignments@[k2]).contains(a)) by {
            if k2 == alignments_before.len() {
                if alignment_ids(alignments@[k1]).contains(a) {
                    assert(alignment_ids(alignments_before[k1]).contains(a));
                    assert(used_before.contains(a));
                }
            } else {
                assert(alignment_ids(alignments_before[k1]).contains(a) == alignment_ids(
                    alignments@[k1],
                ).contains(a));
            }
        }
    }
}

/// Scans both paths in order and returns the absolute value of the first
/// segment that the length map does not cover.
pub(crate) fn first_missing_segment(
    path1: &[i32],
    path2: &[i32],
    segment_lengths: &HashMap<i32, i32>,
) -> (r: Option<i32>)
    requires
        entries_absable(path1@),
        entries_absable(path2@),
    ensures
        r is None <==> path_covered(path1@, segment_lengths@) && path_covered(
            path2@,
            segment_lengths@,
        ),
        r matches Some(id) ==> !segment_lengths@.dom().contains(id) && exists|k: int|
            0 <= k < path1@.len() + path2@.len() && #[trigger] seg_at_concat(path1@, path2@, k)
                == id && (forall|k2: int|
                0 <= k2 < k ==> segment_lengths@.dom().contains(
                    #[trigger] seg_at_concat(path1@, path2@, k2),
                )),
{
    let ghost p1 = path1@;
    let ghost p2 = path2@;
    let mut i: usize = 0;
    while i < path1.len()
        invariant
            0 <= i <= p1.len(),
            path1@ == p1,
            path2@ == p2,
            entries_absable(p1),
            forall|k: int|
                0 <= k < i ==> segment_lengths@.dom().contains(#[trigger] abs_seg(p1[k])),
        decreases p1.len() - i,
    {
        let s: i32 = path1[i];
        let a: i32 = if s < 0 {
            -s
        } else {
            s
        };
        if !segment_lengths.contains_key(&a) {
            proof {
                assert(seg_at_concat(p1, p2, i as int) == a);
                assert(forall|k2: int|
                    0 <= k2 < i ==> segment_lengths@.dom().contains(
                        #[trigger] seg_at_concat(p1, p2, k2),
                    ));
            }
            return Some(a);
        }
        i = i + 1;
    }
    let mut j: usize = 0;
    while j < path2.len()
        invariant
            0 <= j <= p2.len(),
            path1@ == p1,
            path2@ == p2,
            entries_absable(p2),
            path_covered(p1, segment_lengths@),
            forall|k: int|
                0 <= k < j ==> segment_lengths@.dom().contains(#[trigger] abs_seg(p2[k])),
        decreases p2.len() - j,
    {
        let s: i32 = path2[j];
        let a: i32 = if s < 0 {
            -s
        } else {
            s
        };
        if !segment_lengths.contains_key(&a) {
            proof {
                assert(seg_at_concat(p1, p2, p1.len() + j) == a);
                assert(forall|k2: int|
                    0 <= k2 < p1.len() + j ==> segment_lengths@.dom().contains(
                        #[trigger] seg_at_concat(p1, p2, k2),
                    ));
            }
            return Some(a);
        }
        j = j + 1;
    }
    None
}

} // verus!
