//! Banded, memory-efficient variant of the path aligner for long
//! subproblems: two score rows instead of a full matrix, and a sparse
//! traceback table keyed by packed cell coordinates, where an absent
//! entry encodes the "start alignment here" code.

use std::collections::HashMap;
use vstd::prelude::*;

use crate::align::{
    alignment_from_walk, no_adjacent_repeat, p1_vals, p2_vals, picks_from, walk_end, walk_vals,
    Alignment,
};
use crate::{
    abs_seg, amax, argmax, argmax4, entries_absable, lengths_positive, max4, path_covered,
    prefix_len, seg_len_of, total_len, InversionError,
};

verus! {

broadcast use vstd::std_specs::hash::group_hash_axioms;

/// True when cell `(i, j)` lies within the band: no more than
/// `max_row_drop` below the diagonal and no more than `max_col_drop`
/// above it.
pub open spec fn in_band(max_row_drop: int, max_col_drop: int, i: int, j: int) -> bool {
    !((i > j && i - j > max_row_drop) || (j > i && j - i > max_col_drop))
}

/// The banded dynamic-programming score of cell `(i, j)`.  The first row
/// and column follow the boundary rule of the full matrix; an interior
/// cell outside the band is scored as if a fresh alignment started there;
/// interior cells in the band follow the full recurrence over banded
/// neighbours.
pub open spec fn lscore_at(
    p1: Seq<i32>,
    p2: Seq<i32>,
    sl: Map<i32, i32>,
    rd: int,
    cd: int,
    i: int,
    j: int,
) -> int
    decreases crate::max2(i, 0) + crate::max2(j, 0),
{
    if i <= 0 && j <= 0 {
        if p1[0] == p2[0] {
            seg_len_of(sl, p1[0])
        } else {
            -seg_len_of(sl, p1[0]) - seg_len_of(sl, p2[0])
        }
    } else if j <= 0 {
        max4(0, -1, lscore_at(p1, p2, sl, rd, cd, i - 1, j), -1) + (if p1[i] == p2[0] {
            seg_len_of(sl, p1[i])
        } else {
            -seg_len_of(sl, p1[i])
        })
    } else if i <= 0 {
        max4(0, -1, -1, lscore_at(p1, p2, sl, rd, cd, i, j - 1)) + (if p2[j] == p1[0] {
            seg_len_of(sl, p2[j])
        } else {
            -seg_len_of(sl, p2[j])
        })
    } else if !in_band(rd, cd, i, j) {
        if p1[i] == p2[j] {
            seg_len_of(sl, p1[i])
        } else {
            -seg_len_of(sl, p1[i]) - seg_len_of(sl, p2[j])
        }
    } else {
        let li = seg_len_of(sl, p1[i]);
        let lj = seg_len_of(sl, p2[j]);
        let d = lscore_at(p1, p2, sl, rd, cd, i - 1, j - 1);
        let u = lscore_at(p1, p2, sl, rd, cd, i - 1, j);
        let l = lscore_at(p1, p2, sl, rd, cd, i, j - 1);
        if p1[i] == p2[j] {
            max4(li, d + li, u + li, l + li)
        } else {
            max4(-li - lj, d - li - lj, u - li, l - lj)
        }
    }
}

/// The banded traceback code of cell `(i, j)`: out-of-band cells and the
/// corner start an alignment; the others take the lowest-index maximum of
/// their candidates.
pub open spec fn ltb_at(
    p1: Seq<i32>,
    p2: Seq<i32>,
    sl: Map<i32, i32>,
    rd: int,
    cd: int,
    i: int,
    j: int,
) -> int {
    if i <= 0 && j <= 0 {
        0
    } else if j <= 0 {
        argmax4(0, -1, lscore_at(p1, p2, sl, rd, cd, i - 1, j), -1)
    } else if i <= 0 {
        argmax4(0, -1, -1, lscore_at(p1, p2, sl, rd, cd, i, j - 1))
    } else if !in_band(rd, cd, i, j) {
        0
    } else {
        let li = seg_len_of(sl, p1[i]);
        let lj = seg_len_of(sl, p2[j]);
        let d = lscore_at(p1, p2, sl, rd, cd, i - 1, j - 1);
        let u = lscore_at(p1, p2, sl, rd, cd, i - 1, j);
        let l = lscore_at(p1, p2, sl, rd, cd, i, j - 1);
        if p1[i] == p2[j] {
            argmax4(li, d + li, u + li, l + li)
        } else {
            argmax4(-li - lj, d - li - lj, u - li, l - lj)
        }
    }
}

/// The banded traceback function, as a spec closure.
pub open spec fn lowmem_tb_fn(
    p1: Seq<i32>,
    p2: Seq<i32>,
    sl: Map<i32, i32>,
    rd: int,
    cd: int,
) -> spec_fn(int, int) -> int {
    |i: int, j: int| ltb_at(p1, p2, sl, rd, cd, i, j)
}

/// Banded scores lie within the summed lengths of the path prefixes they
/// cover.
pub proof fn lemma_lscore_bound(
    p1: Seq<i32>,
    p2: Seq<i32>,
    sl: Map<i32, i32>,
    rd: int,
    cd: int,
    i: int,
    j: int,
)
    requires
        path_covered(p1, sl),
        path_covered(p2, sl),
        lengths_positive(sl),
        0 <= i < p1.len(),
        0 <= j < p2.len(),
    ensures
        -(prefix_len(p1, sl, i + 1) + prefix_len(p2, sl, j + 1)) <= lscore_at(
            p1,
            p2,
            sl,
            rd,
            cd,
            i,
            j,
        ) <= prefix_len(p1, sl, i + 1) + prefix_len(p2, sl, j + 1),
    decreases i + j,
{
    crate::lemma_prefix_len_nonneg(p1, sl, i);
    crate::lemma_prefix_len_nonneg(p2, sl, j);
    assert(sl.dom().contains(abs_seg(p1[i])));
    assert(sl.dom().contains(abs_seg(p2[j])));
    if i > 0 {
        lemma_lscore_bound(p1, p2, sl, rd, cd, i - 1, j);
        crate::lemma_prefix_len_monotonic(p2, sl, j, j + 1);
    }
    if j > 0 {
        lemma_lscore_bound(p1, p2, sl, rd, cd, i, j - 1);
        crate::lemma_prefix_len_monotonic(p1, sl, i, i + 1);
    }
    if i > 0 && j > 0 {
        lemma_lscore_bound(p1, p2, sl, rd, cd, i - 1, j - 1);
    }
}

/// Banded traceback codes only point at cells that exist.
pub proof fn lemma_ltb_valid(
    p1: Seq<i32>,
    p2: Seq<i32>,
    sl: Map<i32, i32>,
    rd: int,
    cd: int,
    i: int,
    j: int,
)
    requires
        0 <= i,
        0 <= j,
    ensures
        0 <= ltb_at(p1, p2, sl, rd, cd, i, j) <= 3,
        ltb_at(p1, p2, sl, rd, cd, i, j) == 1 ==> i > 0 && j > 0,
        ltb_at(p1, p2, sl, rd, cd, i, j) == 2 ==> i > 0,
        ltb_at(p1, p2, sl, rd, cd, i, j) == 3 ==> j > 0,
{
}

/// The packed sparse-table key of cell `(i, j)`.
pub open spec fn tb_key(i: int, j: int) -> u64 {
    (i * 0x1_0000_0000 + j) as u64
}

/// Packed keys are injective for cells with coordinates below `2^32`.
proof fn lemma_tb_key_injective(i1: int, j1: int, i2: int, j2: int)
    requires
        0 <= i1 < 0x1_0000_0000,
        0 <= j1 < 0x1_0000_0000,
        0 <= i2 < 0x1_0000_0000,
        0 <= j2 < 0x1_0000_0000,
    ensures
        tb_key(i1, j1) == tb_key(i2, j2) ==> i1 == i2 && j1 == j2,
{
    assert(i1 * 0x1_0000_0000 + j1 == i2 * 0x1_0000_0000 + j2 ==> i1 == i2 && j1 == j2)
        by (nonlinear_arith)
        requires
            0 <= i1 < 0x1_0000_0000,
            0 <= j1 < 0x1_0000_0000,
            0 <= i2 < 0x1_0000_0000,
            0 <= j2 < 0x1_0000_0000,
    ;
    assert(0 <= i1 * 0x1_0000_0000 + j1 < 0x1_0000_0000_0000_0000) by (nonlinear_arith)
        requires
            0 <= i1 < 0x1_0000_0000,
            0 <= j1 < 0x1_0000_0000,
    ;
    assert(0 <= i2 * 0x1_0000_0000 + j2 < 0x1_0000_0000_0000_0000) by (nonlinear_arith)
        requires
            0 <= i2 < 0x1_0000_0000,
            0 <= j2 < 0x1_0000_0000,
    ;
}

/// The sparse traceback table describes the banded traceback codes of
/// every cell of the region with rows `0 .. rows_done` plus the cells
/// `(rows_done, 0 .. cols_done)`: a nonzero code is stored under the
/// cell's packed key, a zero code is absent, and the key of a cell of
/// the `n` by `m` matrix outside the region is absent too.
pub open spec fn tb_map_matches(
    tbm: Map<u64, i8>,
    p1: Seq<i32>,
    p2: Seq<i32>,
    sl: Map<i32, i32>,
    rd: int,
    cd: int,
    n: int,
    m: int,
    rows_done: int,
    cols_done: int,
) -> bool {
    &&& forall|a: int, b: int|
        #![trigger tb_key(a, b)]
        (0 <= a < rows_done && 0 <= b < m) || (a == rows_done && 0 <= b < cols_done) ==> {
            if ltb_at(p1, p2, sl, rd, cd, a, b) == 0 {
                !tbm.dom().contains(tb_key(a, b))
            } else {
                tbm.dom().contains(tb_key(a, b)) && tbm[tb_key(a, b)] as int == ltb_at(
                    p1,
                    p2,
                    sl,
                    rd,
                    cd,
                    a,
                    b,
                )
            }
        }
    &&& forall|a: int, b: int|
        #![trigger tb_key(a, b)]
        0 <= a < n && 0 <= b < m && !((0 <= a < rows_done && 0 <= b < m) || (a == rows_done && 0
            <= b < cols_done)) ==> !tbm.dom().contains(tb_key(a, b))
}

/// Returns the maximum of a list together with the index of its first
/// occurrence.
pub(crate) fn max_and_argmax(a: &[i32]) -> (r: (i32, i32))
    requires
        0 < a@.len() <= i32::MAX,
    ensures
        0 <= r.1 < a@.len(),
        a@[r.1 as int] == r.0,
        forall|k: int| 0 <= k < a@.len() ==> a@[k] <= r.0,
        forall|k: int| 0 <= k < r.1 ==> a@[k] < r.0,
{
    let mut max: i32 = a[0];
    let mut arg: usize = 0;
    let mut i: usize = 1;
    while i < a.len()
        invariant
            1 <= i <= a@.len(),
            a@.len() <= i32::MAX,
            0 <= arg < i,
            a@[arg as int] == max,
            forall|k: int| 0 <= k < i ==> a@[k] <= max,
            forall|k: int| 0 <= k < arg ==> a@[k] < max,
        decreases a@.len() - i,
    {
        if a[i] > max {
            max = a[i];
            arg = i;
        }
        i = i + 1;
    }
    #[allow(clippy::unnecessary_cast)]
    let r = (max, arg as i32);
    r
}

/// The row band width for a `path1` of length `n` against a `path2` of
/// length `m` with heuristic drop `d`.
pub open spec fn row_drop(d: int, n: int, m: int) -> int {
    if n > m {
        d + n - m
    } else {
        d
    }
}

/// The column band width for a `path1` of length `n` against a `path2`
/// of length `m` with heuristic drop `d`.
pub open spec fn col_drop(d: int, n: int, m: int) -> int {
    if n > m {
        d
    } else {
        d + m - n
    }
}

/// `(oi, oj)` is the cell holding the maximum banded score, the
/// lexicographically smallest such cell.
pub open spec fn is_first_lscore_max(
    p1: Seq<i32>,
    p2: Seq<i32>,
    sl: Map<i32, i32>,
    rd: int,
    cd: int,
    oi: int,
    oj: int,
) -> bool {
    &&& 0 <= oi < p1.len()
    &&& 0 <= oj < p2.len()
    &&& forall|a: int, b: int|
        0 <= a < p1.len() && 0 <= b < p2.len() ==> #[trigger] lscore_at(p1, p2, sl, rd, cd, a, b)
            <= lscore_at(p1, p2, sl, rd, cd, oi, oj)
    &&& forall|a: int, b: int|
        0 <= a < p1.len() && 0 <= b < p2.len() && (a < oi || (a == oi && b < oj))
            ==> #[trigger] lscore_at(p1, p2, sl, rd, cd, a, b) < lscore_at(
            p1,
            p2,
            sl,
            rd,
            cd,
            oi,
            oj,
        )
}

/// Packs the coordinates of a cell into its sparse-table key.
fn pack_key(i: usize, j: usize) -> (k: u64)
    requires
        i < 0x1_0000_0000,
        j < 0x1_0000_0000,
    ensures
        k == tb_key(i as int, j as int),
{
    proof {
        assert((i as int) * 0x1_0000_0000 + (j as int) < 0x1_0000_0000_0000_0000) by (nonlinear_arith)
            requires
                0 <= i < 0x1_0000_0000,
                0 <= j < 0x1_0000_0000,
        ;
    }
    (i as u64) * 0x1_0000_0000u64 + (j as u64)
}

/// The two score rows, the sparse traceback table, and the running
/// maximum after the first row of the banded matrix has been filled.
pub(crate) struct InitializeMatricesLowmemResult {
    pub(crate) score_row_previous: Vec<i32>,
    pub(crate) score_row_current: Vec<i32>,
    pub(crate) traceback_matrix: HashMap<u64, i8>,
    pub(crate) max_score: i32,
    pub(crate) argmax_score: (i32, i32),
}

/// Fills the first score row, seeds the sparse traceback table with its
/// nonzero codes, and records the row's running maximum.
pub(crate) fn initialize_matrices_lowmem(
    path1: &[i32],
    path2: &[i32],
    segment_lengths: &HashMap<i32, i32>,
    Ghost(rd): Ghost<int>,
    Ghost(cd): Ghost<int>,
) -> (r: InitializeMatricesLowmemResult)
    requires
        0 < path1@.len() <= i32::MAX,
        0 < path2@.len() <= i32::MAX,
        entries_absable(path1@),
        entries_absable(path2@),
        path_covered(path1@, segment_lengths@),
        path_covered(path2@, segment_lengths@),
        lengths_positive(segment_lengths@),
        total_len(path1@, segment_lengths@) + total_len(path2@, segment_lengths@) <= i32::MAX,
    ensures
        r.score_row_previous@.len() == path2@.len(),
        r.score_row_current@.len() == path2@.len(),
        forall|b: int| 0 <= b < path2@.len() ==> #[trigger] r.score_row_current@[b] == 0i32,
        forall|b: int|
            0 <= b < path2@.len() ==> #[trigger] r.score_row_previous@[b] as int == lscore_at(
                path1@,
                path2@,
                segment_lengths@,
                rd,
                cd,
                0,
                b,
            ),
        tb_map_matches(
            r.traceback_matrix@,
            path1@,
            path2@,
            segment_lengths@,
            rd,
            cd,
            path1@.len() as int,
            path2@.len() as int,
            0,
            path2@.len() as int,
        ),
        0 == r.argmax_score.0,
        0 <= r.argmax_score.1 < path2@.len(),
        r.max_score as int == lscore_at(
            path1@,
            path2@,
            segment_lengths@,
            rd,
            cd,
            0,
            r.argmax_score.1 as int,
        ),
        forall|b: int|
            0 <= b < path2@.len() ==> #[trigger] lscore_at(
                path1@,
                path2@,
                segment_lengths@,
                rd,
                cd,
                0,
                b,
            ) <= r.max_score,
        forall|b: int|
            0 <= b < r.argmax_score.1 ==> #[trigger] lscore_at(
                path1@,
                path2@,
                segment_lengths@,
                rd,
                cd,
                0,
                b,
            ) < r.max_score,
{
    let ghost p1 = path1@;
    let ghost p2 = path2@;
    let ghost sl = segment_lengths@;
    let m: usize = path2.len();
    let mut score_row_previous: Vec<i32> = Vec::new();
    let mut traceback_matrix: HashMap<u64, i8> = HashMap::new();

    // fill in the corner
    let l1: i32 = crate::align::seg_length(segment_lengths, path1[0]);
    let l2: i32 = crate::align::seg_length(segment_lengths, path2[0]);
    proof {
        assert(prefix_len(p1, sl, 0) == 0);
        assert(prefix_len(p2, sl, 0) == 0);
        assert(prefix_len(p1, sl, 1) == seg_len_of(sl, p1[0]));
        assert(prefix_len(p2, sl, 1) == seg_len_of(sl, p2[0]));
        crate::lemma_prefix_len_monotonic(p1, sl, 1, p1.len() as int);
        crate::lemma_prefix_len_monotonic(p2, sl, 1, p2.len() as int);
        crate::lemma_prefix_len_nonneg(p1, sl, p1.len() as int);
        crate::lemma_prefix_len_nonneg(p2, sl, p2.len() as int);
    }
    let corner: i32 = if path1[0] == path2[0] {
        l1
    } else {
        -l1 - l2
    };
    score_row_previous.push(corner);
    proof {
        lemma_tb_map_step(
            traceback_matrix@,
            traceback_matrix@,
            p1,
            p2,
            sl,
            rd,
            cd,
            p1.len() as int,
            m as int,
            0,
            0,
            0,
        );
    }

    // fill in the rest of the first row
    let mut j: usize = 1;
    while j < m
        invariant
            1 <= j <= m,
            m == p2.len(),
            0 < p1.len() <= i32::MAX,
            0 < m <= i32::MAX,
            path1@ == p1,
            path2@ == p2,
            segment_lengths@ == sl,
            entries_absable(p1),
            entries_absable(p2),
            path_covered(p1, sl),
            path_covered(p2, sl),
            lengths_positive(sl),
            total_len(p1, sl) + total_len(p2, sl) <= i32::MAX,
            score_row_previous@.len() == j,
            forall|b: int|
                0 <= b < j ==> #[trigger] score_row_previous@[b] as int == lscore_at(
                    p1,
                    p2,
                    sl,
                    rd,
                    cd,
                    0,
                    b,
                ),
            tb_map_matches(traceback_matrix@, p1, p2, sl, rd, cd, p1.len() as int, m as int, 0, j as int),
        decreases m - j,
    {
        let lj: i32 = crate::align::seg_length(segment_lengths, path2[j]);
        let this_cell_score: i32 = if path2[j] == path1[0] {
            lj
        } else {
            -lj
        };
        let prev: i32 = score_row_previous[j - 1];
        let possible_scores: [i32; 4] = [0, -1, -1, prev];
        let mx: i32 = amax(&possible_scores);
        let am: i32 = argmax(&possible_scores);
        proof {
            crate::align::lemma_max_argmax4(possible_scores@, mx, am as int);
            lemma_lscore_bound(p1, p2, sl, rd, cd, 0, j as int - 1);
            lemma_lscore_bound(p1, p2, sl, rd, cd, 0, j as int);
            crate::lemma_prefix_len_monotonic(p2, sl, j as int + 1, p2.len() as int);
            crate::lemma_prefix_len_monotonic(p1, sl, 1, p1.len() as int);
            crate::lemma_prefix_len_nonneg(p1, sl, 1);
            crate::lemma_prefix_len_nonneg(p2, sl, j as int);
            crate::lemma_prefix_len_nonneg(p1, sl, p1.len() as int);
            crate::lemma_prefix_len_nonneg(p2, sl, p2.len() as int);
        }
        let cell: i32 = mx + this_cell_score;
        score_row_previous.push(cell);
        #[allow(clippy::cast_possible_truncation)]
        let traceback_value: i8 = am as i8;
        if traceback_value != 0 {
            let key: u64 = pack_key(0, j);
            let ghost before = traceback_matrix@;
            traceback_matrix.insert(key, traceback_value);
            proof {
                lemma_tb_map_step(
                    before,
                    traceback_matrix@,
                    p1,
                    p2,
                    sl,
                    rd,
                    cd,
                    p1.len() as int,
                    m as int,
                    0,
                    j as int,
                    traceback_value,
                );
            }
        } else {
            proof {
                lemma_tb_map_step(
                    traceback_matrix@,
                    traceback_matrix@,
                    p1,
                    p2,
                    sl,
                    rd,
                    cd,
                    p1.len() as int,
                    m as int,
                    0,
                    j as int,
                    traceback_value,
                );
            }
        }
        j = j + 1;
    }

    let pr: (i32, i32) = max_and_argmax(score_row_previous.as_slice());
    proof {
        assert(score_row_previous@[pr.1 as int] as int == lscore_at(
            p1,
            p2,
            sl,
            rd,
            cd,
            0,
            pr.1 as int,
        ));
        assert forall|b: int| 0 <= b < m implies #[trigger] lscore_at(p1, p2, sl, rd, cd, 0, b)
            <= pr.0 by {
            assert(score_row_previous@[b] as int == lscore_at(p1, p2, sl, rd, cd, 0, b));
        }
        assert forall|b: int| 0 <= b < pr.1 implies #[trigger] lscore_at(p1, p2, sl, rd, cd, 0, b)
            < pr.0 by {
            assert(score_row_previous@[b] as int == lscore_at(p1, p2, sl, rd, cd, 0, b));
        }
    }
    let max_score: i32 = pr.0;
    let argmax_score_j: i32 = pr.1;
    let argmax_score: (i32, i32) = (0, argmax_score_j);

    let mut score_row_current: Vec<i32> = Vec::new();
    let mut k: usize = 0;
    while k < m
        invariant
            score_row_current@.len() == k,
            k <= m,
            forall|t: int| 0 <= t < k ==> #[trigger] score_row_current@[t] == 0i32,
        decreases m - k,
    {
        score_row_current.push(0);
        k = k + 1;
    }

    InitializeMatricesLowmemResult {
        score_row_previous,
        score_row_current,
        traceback_matrix,
        max_score,
        argmax_score,
    }
}

/// Processing one more cell keeps the sparse traceback table faithful:
/// a nonzero code is inserted under the cell's key, a zero code leaves
/// the table unchanged.
proof fn lemma_tb_map_step(
    old_m: Map<u64, i8>,
    new_m: Map<u64, i8>,
    p1: Seq<i32>,
    p2: Seq<i32>,
    sl: Map<i32, i32>,
    rd: int,
    cd: int,
    n: int,
    m: int,
    i: int,
    j: int,
    v: i8,
)
    requires
        tb_map_matches(old_m, p1, p2, sl, rd, cd, n, m, i, j),
        0 <= i < n,
        0 <= j < m,
        n <= 0x1_0000_0000,
        m <= 0x1_0000_0000,
        v as int == ltb_at(p1, p2, sl, rd, cd, i, j),
        v == 0 ==> new_m == old_m,
        v != 0 ==> new_m == old_m.insert(tb_key(i, j), v),
    ensures
        tb_map_matches(new_m, p1, p2, sl, rd, cd, n, m, i, j + 1),
{
    assert forall|a: int, b: int|
        #![trigger tb_key(a, b)]
        0 <= a < n && 0 <= b < m implies (tb_key(a, b) == tb_key(i, j) ==> (a == i && b
        == j)) by {
        lemma_tb_key_injective(a, b, i, j);
    }
}

/// A table that is faithful for all of row `i` is faithful for the
/// region that starts row `i + 1`.
proof fn lemma_tb_map_rollover(
    tbm: Map<u64, i8>,
    p1: Seq<i32>,
    p2: Seq<i32>,
    sl: Map<i32, i32>,
    rd: int,
    cd: int,
    n: int,
    m: int,
    i: int,
)
    requires
        tb_map_matches(tbm, p1, p2, sl, rd, cd, n, m, i, m),
    ensures
        tb_map_matches(tbm, p1, p2, sl, rd, cd, n, m, i + 1, 0),
{
}


/// With bands at least as wide as the paths, no cell is outside the
/// band, so the banded recurrence computes the full-matrix scores and
/// traceback codes.
proof fn lemma_banded_cells_match(
    p1: Seq<i32>,
    p2: Seq<i32>,
    sl: Map<i32, i32>,
    rd: int,
    cd: int,
    i: int,
    j: int,
)
    requires
        rd >= p1.len() - 1,
        cd >= p2.len() - 1,
        0 <= i < p1.len(),
        0 <= j < p2.len(),
    ensures
        lscore_at(p1, p2, sl, rd, cd, i, j) == crate::align::score_at(p1, p2, sl, i, j),
        ltb_at(p1, p2, sl, rd, cd, i, j) == crate::align::tb_at(p1, p2, sl, i, j),
    decreases i + j,
{
    assert(in_band(rd, cd, i, j));
    if i > 0 {
        lemma_banded_cells_match(p1, p2, sl, rd, cd, i - 1, j);
    }
    if j > 0 {
        lemma_banded_cells_match(p1, p2, sl, rd, cd, i, j - 1);
    }
    if i > 0 && j > 0 {
        lemma_banded_cells_match(p1, p2, sl, rd, cd, i - 1, j - 1);
    }
}

/// Banded equivalence: when the band covers both path lengths — as it
/// does whenever the banded aligner's drop is at least the longer
/// length — the banded aligner's result, walked from its tracked first
/// maximum, equals the full-matrix aligner's result walked from the
/// score matrix's first maximum.
pub proof fn lemma_banded_matches_full(
    full: Alignment,
    banded: Alignment,
    p1: Seq<i32>,
    p2: Seq<i32>,
    sl: Map<i32, i32>,
    rd: int,
    cd: int,
    foi: int,
    foj: int,
    boi: int,
    boj: int,
)
    requires
        0 < p1.len(),
        0 < p2.len(),
        rd >= p1.len() - 1,
        cd >= p2.len() - 1,
        crate::align::is_first_score_max(p1, p2, sl, foi, foj),
        alignment_from_walk(full, p1, p2, crate::align::full_tb_fn(p1, p2, sl), foi, foj),
        is_first_lscore_max(p1, p2, sl, rd, cd, boi, boj),
        alignment_from_walk(banded, p1, p2, lowmem_tb_fn(p1, p2, sl, rd, cd), boi, boj),
    ensures
        full.alignment_path1@ == banded.alignment_path1@,
        full.alignment_path2@ == banded.alignment_path2@,
        full.path1_start_index == banded.path1_start_index,
        full.path1_end_index == banded.path1_end_index,
{
    assert forall|a: int, b: int|
        0 <= a < p1.len() && 0 <= b < p2.len() implies #[trigger] lscore_at(
        p1,
        p2,
        sl,
        rd,
        cd,
        a,
        b,
    ) == crate::align::score_at(p1, p2, sl, a, b) by {
        lemma_banded_cells_match(p1, p2, sl, rd, cd, a, b);
    }
    assert forall|a: int, b: int|
        0 <= a < p1.len() && 0 <= b < p2.len() implies #[trigger] ltb_at(p1, p2, sl, rd, cd, a, b)
        == crate::align::tb_at(p1, p2, sl, a, b) by {
        lemma_banded_cells_match(p1, p2, sl, rd, cd, a, b);
    }
    // the two trackers pick the same cell: each is the strictly first
    // maximum of the same score function
    assert(crate::align::is_first_score_max(p1, p2, sl, boi, boj)) by {
        assert forall|a: int, b: int|
            0 <= a < p1.len() && 0 <= b < p2.len() implies #[trigger] crate::align::score_at(
            p1,
            p2,
            sl,
            a,
            b,
        ) <= crate::align::score_at(p1, p2, sl, boi, boj) by {
            assert(lscore_at(p1, p2, sl, rd, cd, a, b) <= lscore_at(p1, p2, sl, rd, cd, boi, boj));
        }
        assert forall|a: int, b: int|
            0 <= a < p1.len() && 0 <= b < p2.len() && (a < boi || (a == boi && b
                < boj)) implies #[trigger] crate::align::score_at(p1, p2, sl, a, b)
            < crate::align::score_at(p1, p2, sl, boi, boj) by {
            assert(lscore_at(p1, p2, sl, rd, cd, a, b) < lscore_at(p1, p2, sl, rd, cd, boi, boj));
        }
    }
    if (boi, boj) != (foi, foj) {
        if boi < foi || (boi == foi && boj < foj) {
            assert(crate::align::score_at(p1, p2, sl, boi, boj) < crate::align::score_at(
                p1,
                p2,
                sl,
                foi,
                foj,
            ));
            assert(crate::align::score_at(p1, p2, sl, foi, foj) <= crate::align::score_at(
                p1,
                p2,
                sl,
                boi,
                boj,
            ));
            assert(false);
        } else {
            assert(crate::align::score_at(p1, p2, sl, foi, foj) < crate::align::score_at(
                p1,
                p2,
                sl,
                boi,
                boj,
            ));
            assert(crate::align::score_at(p1, p2, sl, boi, boj) <= crate::align::score_at(
                p1,
                p2,
                sl,
                foi,
                foj,
            ));
            assert(false);
        }
    }
    // the walks agree cell for cell
    let ftb = crate::align::full_tb_fn(p1, p2, sl);
    let btb = lowmem_tb_fn(p1, p2, sl, rd, cd);
    assert forall|a: int, b: int| 0 <= a <= foi && 0 <= b <= foj implies #[trigger] ftb(a, b)
        == btb(a, b) by {
        lemma_banded_cells_match(p1, p2, sl, rd, cd, a, b);
    }
    crate::align::lemma_walk_agree(p1_vals(p1), ftb, btb, foi, foj);
    crate::align::lemma_walk_agree(p2_vals(p2), ftb, btb, foi, foj);
}

/// Aligns two covered paths with the banded two-row dynamic program and
/// walks the sparse traceback table back from the running maximum.
#[verifier::rlimit(100)]
pub(crate) fn align_subproblem_lowmem_checked(
    path1: &[i32],
    path2: &[i32],
    segment_lengths: &HashMap<i32, i32>,
    drop: usize,
) -> (r: Alignment)
    requires
        0 < path1@.len() <= i32::MAX,
        0 < path2@.len() <= i32::MAX,
        entries_absable(path1@),
        entries_absable(path2@),
        path_covered(path1@, segment_lengths@),
        path_covered(path2@, segment_lengths@),
        lengths_positive(segment_lengths@),
        total_len(path1@, segment_lengths@) + total_len(path2@, segment_lengths@) <= i32::MAX,
        drop as int + path1@.len() + path2@.len() <= usize::MAX,
    ensures
        exists|oi: int, oj: int|
            is_first_lscore_max(
                path1@,
                path2@,
                segment_lengths@,
                row_drop(drop as int, path1@.len() as int, path2@.len() as int),
                col_drop(drop as int, path1@.len() as int, path2@.len() as int),
                oi,
                oj,
            ) && alignment_from_walk(
                r,
                path1@,
                path2@,
                lowmem_tb_fn(
                    path1@,
                    path2@,
                    segment_lengths@,
                    row_drop(drop as int, path1@.len() as int, path2@.len() as int),
                    col_drop(drop as int, path1@.len() as int, path2@.len() as int),
                ),
                oi,
                oj,
            ),
{
    let ghost p1 = path1@;
    let ghost p2 = path2@;
    let ghost sl = segment_lengths@;
    let n: usize = path1.len();
    let m: usize = path2.len();
    let band: (usize, usize) = if path1.len() > path2.len() {
        (drop + (path1.len() - path2.len()), drop)
    } else {
        (drop, drop + (path2.len() - path1.len()))
    };
    let max_row_drop: usize = band.0;
    let max_col_drop: usize = band.1;
    let ghost rd = row_drop(drop as int, n as int, m as int);
    let ghost cd = col_drop(drop as int, n as int, m as int);
    proof {
        assert(max_row_drop as int == rd);
        assert(max_col_drop as int == cd);
    }

    let init = initialize_matrices_lowmem(path1, path2, segment_lengths, Ghost(rd), Ghost(cd));
    let mut score_row_previous: Vec<i32> = init.score_row_previous;
    let mut score_row_current: Vec<i32> = init.score_row_current;
    let mut traceback_matrix: HashMap<u64, i8> = init.traceback_matrix;
    let mut max_score: i32 = init.max_score;
    let mut argmax_score: (i32, i32) = init.argmax_score;
    proof {
        lemma_tb_map_rollover(traceback_matrix@, p1, p2, sl, rd, cd, n as int, m as int, 0);
    }

    let mut i: usize = 1;
    while i < n
        invariant
            1 <= i <= n,
            n == p1.len(),
            m == p2.len(),
            0 < n <= i32::MAX,
            0 < m <= i32::MAX,
            path1@ == p1,
            path2@ == p2,
            segment_lengths@ == sl,
            entries_absable(p1),
            entries_absable(p2),
            path_covered(p1, sl),
            path_covered(p2, sl),
            lengths_positive(sl),
            total_len(p1, sl) + total_len(p2, sl) <= i32::MAX,
            max_row_drop as int == rd,
            max_col_drop as int == cd,
            score_row_previous@.len() == m,
            score_row_current@.len() == m,
            forall|b: int|
                0 <= b < m ==> #[trigger] score_row_previous@[b] as int == lscore_at(
                    p1,
                    p2,
                    sl,
                    rd,
                    cd,
                    i as int - 1,
                    b,
                ),
            tb_map_matches(traceback_matrix@, p1, p2, sl, rd, cd, n as int, m as int, i as int, 0),
            0 <= argmax_score.0 < i,
            0 <= argmax_score.1 < m,
            max_score as int == lscore_at(
                p1,
                p2,
                sl,
                rd,
                cd,
                argmax_score.0 as int,
                argmax_score.1 as int,
            ),
            forall|a: int, b: int|
                0 <= a < i && 0 <= b < m ==> #[trigger] lscore_at(p1, p2, sl, rd, cd, a, b)
                    <= max_score,
            forall|a: int, b: int|
                0 <= a < i && 0 <= b < m && (a < argmax_score.0 || (a == argmax_score.0 && b
                    < argmax_score.1)) ==> #[trigger] lscore_at(p1, p2, sl, rd, cd, a, b)
                    < max_score,
        decreases n - i,
    {
        // fill in first column of this row
        let li: i32 = crate::align::seg_length(segment_lengths, path1[i]);
        let this_cell_score: i32 = if path1[i] == path2[0] {
            li
        } else {
            -li
        };
        let prev0: i32 = score_row_previous[0];
        let possible_scores: [i32; 4] = [0, -1, prev0, -1];
        let mx0: i32 = amax(&possible_scores);
        let am0: i32 = argmax(&possible_scores);
        proof {
            crate::align::lemma_max_argmax4(possible_scores@, mx0, am0 as int);
            lemma_lscore_bound(p1, p2, sl, rd, cd, i as int - 1, 0);
            lemma_lscore_bound(p1, p2, sl, rd, cd, i as int, 0);
            crate::lemma_prefix_len_monotonic(p1, sl, i as int + 1, n as int);
            crate::lemma_prefix_len_monotonic(p2, sl, 1, m as int);
            crate::lemma_prefix_len_nonneg(p1, sl, i as int);
            crate::lemma_prefix_len_nonneg(p2, sl, 1);
            crate::lemma_prefix_len_nonneg(p1, sl, n as int);
            crate::lemma_prefix_len_nonneg(p2, sl, m as int);
        }
        let cell0: i32 = mx0 + this_cell_score;
        score_row_current[0] = cell0;
        #[allow(clippy::cast_possible_truncation)]
        let traceback_value0: i8 = am0 as i8;
        if traceback_value0 != 0 {
            let key: u64 = pack_key(i, 0);
            let ghost before = traceback_matrix@;
            traceback_matrix.insert(key, traceback_value0);
            proof {
                lemma_tb_map_step(
                    before,
                    traceback_matrix@,
                    p1,
                    p2,
                    sl,
                    rd,
                    cd,
                    n as int,
                    m as int,
                    i as int,
                    0,
                    traceback_value0,
                );
            }
        } else {
            proof {
                lemma_tb_map_step(
                    traceback_matrix@,
                    traceback_matrix@,
                    p1,
                    p2,
                    sl,
                    rd,
                    cd,
                    n as int,
                    m as int,
                    i as int,
                    0,
                    traceback_value0,
                );
            }
        }

        // fill in the rest of this row
        let mut j: usize = 1;
        while j < m
            invariant
                1 <= i < n,
                1 <= j <= m,
                n == p1.len(),
                m == p2.len(),
                0 < n <= i32::MAX,
                0 < m <= i32::MAX,
                path1@ == p1,
                path2@ == p2,
                segment_lengths@ == sl,
                entries_absable(p1),
                entries_absable(p2),
                path_covered(p1, sl),
                path_covered(p2, sl),
                lengths_positive(sl),
                total_len(p1, sl) + total_len(p2, sl) <= i32::MAX,
                max_row_drop as int == rd,
                max_col_drop as int == cd,
                li as int == seg_len_of(sl, p1[i as int]),
                li >= 1,
                score_row_previous@.len() == m,
                score_row_current@.len() == m,
                forall|b: int|
                    0 <= b < m ==> #[trigger] score_row_previous@[b] as int == lscore_at(
                        p1,
                        p2,
                        sl,
                        rd,
                        cd,
                        i as int - 1,
                        b,
                    ),
                forall|b: int|
                    0 <= b < j ==> #[trigger] score_row_current@[b] as int == lscore_at(
                        p1,
                        p2,
                        sl,
                        rd,
                        cd,
                        i as int,
                        b,
                    ),
                tb_map_matches(
                    traceback_matrix@,
                    p1,
                    p2,
                    sl,
                    rd,
                    cd,
                    n as int,
                    m as int,
                    i as int,
                    j as int,
                ),
            decreases m - j,
        {
            let lj: i32 = crate::align::seg_length(segment_lengths, path2[j]);
            proof {
                lemma_lscore_bound(p1, p2, sl, rd, cd, i as int - 1, j as int - 1);
                lemma_lscore_bound(p1, p2, sl, rd, cd, i as int - 1, j as int);
                lemma_lscore_bound(p1, p2, sl, rd, cd, i as int, j as int - 1);
                crate::lemma_prefix_len_nonneg(p1, sl, i as int - 1);
                crate::lemma_prefix_len_nonneg(p2, sl, j as int - 1);
                crate::lemma_prefix_len_monotonic(p1, sl, i as int + 1, n as int);
                crate::lemma_prefix_len_monotonic(p2, sl, j as int + 1, m as int);
                crate::lemma_prefix_len_nonneg(p1, sl, n as int);
                crate::lemma_prefix_len_nonneg(p2, sl, m as int);
                assert(prefix_len(p1, sl, i as int + 1) == prefix_len(p1, sl, i as int)
                    + seg_len_of(sl, p1[i as int]));
                assert(prefix_len(p2, sl, j as int + 1) == prefix_len(p2, sl, j as int)
                    + seg_len_of(sl, p2[j as int]));
            }

            // heuristic: if we are too far from the diagonal, leave the
            // traceback as the implicit 0 and score the cell as if an
            // alignment started here, whatever is in the cells nearby
            if ((i > j) && (i - j > max_row_drop)) || ((j > i) && (j - i > max_col_drop)) {
                score_row_current[j] = if path1[i] == path2[j] {
                    li
                } else {
                    -li - lj
                };
                proof {
                    assert(!in_band(rd, cd, i as int, j as int));
                    assert(ltb_at(p1, p2, sl, rd, cd, i as int, j as int) == 0);
                    lemma_tb_map_step(
                        traceback_matrix@,
                        traceback_matrix@,
                        p1,
                        p2,
                        sl,
                        rd,
                        cd,
                        n as int,
                        m as int,
                        i as int,
                        j as int,
                        0,
                    );
                }
            } else {
                proof {
                    assert(in_band(rd, cd, i as int, j as int));
                }
                let d: i32 = score_row_previous[j - 1];
                let u: i32 = score_row_previous[j];
                let l: i32 = score_row_current[j - 1];
                let possible_scores: [i32; 4] = if path1[i] == path2[j] {
                    [li, d + li, u + li, l + li]
                } else {
                    [-li - lj, d - li - lj, u - li, l - lj]
                };
                let mx: i32 = amax(&possible_scores);
                let am: i32 = argmax(&possible_scores);
                proof {
                    crate::align::lemma_max_argmax4(possible_scores@, mx, am as int);
                    assert(mx as int == lscore_at(p1, p2, sl, rd, cd, i as int, j as int));
                    assert(am as int == ltb_at(p1, p2, sl, rd, cd, i as int, j as int));
                }
                score_row_current[j] = mx;
                #[allow(clippy::cast_possible_truncation)]
                let traceback_value: i8 = am as i8;
                if traceback_value != 0 {
                    let key: u64 = pack_key(i, j);
                    let ghost before = traceback_matrix@;
                    traceback_matrix.insert(key, traceback_value);
                    proof {
                        lemma_tb_map_step(
                            before,
                            traceback_matrix@,
                            p1,
                            p2,
                            sl,
                            rd,
                            cd,
                            n as int,
                            m as int,
                            i as int,
                            j as int,
                            traceback_value,
                        );
                    }
                } else {
                    proof {
                        lemma_tb_map_step(
                            traceback_matrix@,
                            traceback_matrix@,
                            p1,
                            p2,
                            sl,
                            rd,
                            cd,
                            n as int,
                            m as int,
                            i as int,
                            j as int,
                            traceback_value,
                        );
                    }
                }
            }
            j = j + 1;
        }

        // update max/argmax of the score matrix
        let row: (i32, i32) = max_and_argmax(score_row_current.as_slice());
        proof {
            assert(score_row_current@[row.1 as int] as int == lscore_at(
                p1,
                p2,
                sl,
                rd,
                cd,
                i as int,
                row.1 as int,
            ));
            assert forall|b: int| 0 <= b < m implies #[trigger] lscore_at(
                p1,
                p2,
                sl,
                rd,
                cd,
                i as int,
                b,
            ) <= row.0 by {
                assert(score_row_current@[b] as int == lscore_at(p1, p2, sl, rd, cd, i as int, b));
            }
            assert forall|b: int| 0 <= b < row.1 implies #[trigger] lscore_at(
                p1,
                p2,
                sl,
                rd,
                cd,
                i as int,
                b,
            ) < row.0 by {
                assert(score_row_current@[b] as int == lscore_at(p1, p2, sl, rd, cd, i as int, b));
            }
        }
        if row.0 > max_score {
            max_score = row.0;
            #[allow(clippy::unnecessary_cast)]
            let arg = (i as i32, row.1);
            argmax_score = arg;
        }
        proof {
            lemma_tb_map_rollover(traceback_matrix@, p1, p2, sl, rd, cd, n as int, m as int, i as int);
        }
        // now, switch rows: faster than reallocating memory
        let score_row_tmp: Vec<i32> = score_row_previous;
        score_row_previous = score_row_current;
        score_row_current = score_row_tmp;
        i = i + 1;
    }

    proof {
        assert(is_first_lscore_max(
            p1,
            p2,
            sl,
            rd,
            cd,
            argmax_score.0 as int,
            argmax_score.1 as int,
        ));
    }
    traceback_lowmem(
        path1,
        path2,
        argmax_score,
        &traceback_matrix,
        Ghost(sl),
        Ghost(rd),
        Ghost(cd),
    )
}

/// Walks the sparse traceback table back from the tracked score maximum,
/// collecting the aligned segments of both paths; an absent key stops
/// the walk.
#[verifier::rlimit(100)]
fn traceback_lowmem(
    path1: &[i32],
    path2: &[i32],
    argmax_score: (i32, i32),
    traceback_matrix: &HashMap<u64, i8>,
    Ghost(sl): Ghost<Map<i32, i32>>,
    Ghost(rd): Ghost<int>,
    Ghost(cd): Ghost<int>,
) -> (r: Alignment)
    requires
        0 < path1@.len() <= i32::MAX,
        0 < path2@.len() <= i32::MAX,
        0 <= argmax_score.0 < path1@.len(),
        0 <= argmax_score.1 < path2@.len(),
        tb_map_matches(
            traceback_matrix@,
            path1@,
            path2@,
            sl,
            rd,
            cd,
            path1@.len() as int,
            path2@.len() as int,
            path1@.len() as int,
            0,
        ),
    ensures
        alignment_from_walk(
            r,
            path1@,
            path2@,
            lowmem_tb_fn(path1@, path2@, sl, rd, cd),
            argmax_score.0 as int,
            argmax_score.1 as int,
        ),
{
    let ghost p1 = path1@;
    let ghost p2 = path2@;
    let ghost tbf = lowmem_tb_fn(p1, p2, sl, rd, cd);
    let n: usize = path1.len();
    let m: usize = path2.len();

    #[allow(clippy::cast_sign_loss)]
    let oi: usize = argmax_score.0 as usize;
    #[allow(clippy::cast_sign_loss)]
    let oj: usize = argmax_score.1 as usize;
    let path1_end_index: usize = oi;
    let mut i: usize = oi;
    let mut j: usize = oj;
    let mut alignment_end_reached: bool = false;
    let mut alignment_path1: Vec<i32> = Vec::new();
    let mut alignment_path2: Vec<i32> = Vec::new();
    let ghost mut visited1: Seq<i32> = Seq::empty();
    let ghost mut visited2: Seq<i32> = Seq::empty();
    let ghost mut w1: Seq<int> = Seq::empty();
    let ghost mut w2: Seq<int> = Seq::empty();

    while !alignment_end_reached
        invariant
            0 <= i <= oi < n,
            0 <= j <= oj < m,
            n == p1.len(),
            m == p2.len(),
            path1@ == p1,
            path2@ == p2,
            tbf == lowmem_tb_fn(p1, p2, sl, rd, cd),
            0 < n <= i32::MAX,
            0 < m <= i32::MAX,
            tb_map_matches(traceback_matrix@, p1, p2, sl, rd, cd, n as int, m as int, n as int, 0),
            !alignment_end_reached ==> walk_vals(p1_vals(p1), tbf, oi as int, oj as int)
                == visited1 + walk_vals(p1_vals(p1), tbf, i as int, j as int),
            !alignment_end_reached ==> walk_vals(p2_vals(p2), tbf, oi as int, oj as int)
                == visited2 + walk_vals(p2_vals(p2), tbf, i as int, j as int),
            !alignment_end_reached ==> walk_end(tbf, oi as int, oj as int) == walk_end(
                tbf,
                i as int,
                j as int,
            ),
            alignment_end_reached ==> walk_vals(p1_vals(p1), tbf, oi as int, oj as int)
                == visited1,
            alignment_end_reached ==> walk_vals(p2_vals(p2), tbf, oi as int, oj as int)
                == visited2,
            alignment_end_reached ==> walk_end(tbf, oi as int, oj as int) == (i as int, j as int),
            alignment_path1@ == crate::align::dedup_adjacent(visited1),
            alignment_path2@ == crate::align::dedup_adjacent(visited2),
            no_adjacent_repeat(alignment_path1@),
            no_adjacent_repeat(alignment_path2@),
            w1.len() == alignment_path1@.len(),
            w2.len() == alignment_path2@.len(),
            forall|k: int|
                0 <= k < w1.len() ==> i <= #[trigger] w1[k] <= oi && p1[w1[k]]
                    == alignment_path1@[k],
            forall|k: int|
                0 <= k < w2.len() ==> j <= #[trigger] w2[k] <= oj && p2[w2[k]]
                    == alignment_path2@[k],
            forall|k: int| 1 <= k < w1.len() ==> #[trigger] w1[k] < w1[k - 1],
            forall|k: int| 1 <= k < w2.len() ==> #[trigger] w2[k] < w2[k - 1],
        decreases i + j + (if alignment_end_reached {
            0int
        } else {
            1int
        }),
    {
        let segment_path1: i32 = path1[i];
        let segment_path2: i32 = path2[j];
        let push1: bool = alignment_path1.len() == 0 || alignment_path1[alignment_path1.len() - 1]
            != segment_path1;
        if push1 {
            alignment_path1.push(segment_path1);
            proof {
                w1 = w1.push(i as int);
            }
        }
        let push2: bool = alignment_path2.len() == 0 || alignment_path2[alignment_path2.len() - 1]
            != segment_path2;
        if push2 {
            alignment_path2.push(segment_path2);
            proof {
                w2 = w2.push(j as int);
            }
        }
        let key: u64 = pack_key(i, j);
        let code: i8 = match traceback_matrix.get(&key) {
            Some(c) => *c,
            None => 0,
        };
        proof {
            lemma_ltb_valid(p1, p2, sl, rd, cd, i as int, j as int);
            assert(code as int == ltb_at(p1, p2, sl, rd, cd, i as int, j as int));
            assert(tbf(i as int, j as int) == ltb_at(p1, p2, sl, rd, cd, i as int, j as int));
            crate::align::lemma_dedup_push(visited1, segment_path1);
            crate::align::lemma_dedup_push(visited2, segment_path2);
            if code == 0 {
                crate::align::lemma_walk_last(p1_vals(p1), tbf, i as int, j as int, visited1);
                crate::align::lemma_walk_last(p2_vals(p2), tbf, i as int, j as int, visited2);
            } else {
                crate::align::lemma_walk_step(p1_vals(p1), tbf, i as int, j as int, visited1);
                crate::align::lemma_walk_step(p2_vals(p2), tbf, i as int, j as int, visited2);
            }
            visited1 = visited1.push(segment_path1);
            visited2 = visited2.push(segment_path2);
        }
        if code == 1 {
            i = i - 1;
            j = j - 1;
        } else if code == 2 {
            i = i - 1;
        } else if code == 3 {
            j = j - 1;
        } else {
            alignment_end_reached = true;
        }
    }
    let path1_start_index: usize = i;
    let r1: Vec<i32> = crate::align::reversed_vec(&alignment_path1);
    let r2: Vec<i32> = crate::align::reversed_vec(&alignment_path2);
    proof {
        assert(no_adjacent_repeat(r1@));
        assert(no_adjacent_repeat(r2@));
        assert(picks_from(r1@, p1, w1.reverse(), i as int, oi as int));
        assert(picks_from(r2@, p2, w2.reverse(), j as int, oj as int));
    }
    Alignment {
        alignment_path1: r1,
        alignment_path2: r2,
        path1_start_index: path1_start_index as i32,
        path1_end_index: path1_end_index as i32,
    }
}

/// Perform an alignment subproblem with the banded low-memory algorithm.
///
/// Equivalent to the full-matrix aligner except that cells further than
/// the drop heuristic from the diagonal are treated as fresh alignment
/// starts.  Fails with `SegmentNotFound` exactly when a segment of
/// either path has no entry in the length map.
pub fn align_paths_subproblem_lowmem(
    path1: &[i32],
    path2: &[i32],
    segment_lengths: &HashMap<i32, i32>,
    drop: usize,
) -> (r: Result<Alignment, InversionError>)
    requires
        0 < path1@.len() <= i32::MAX,
        0 < path2@.len() <= i32::MAX,
        entries_absable(path1@),
        entries_absable(path2@),
        lengths_positive(segment_lengths@),
        path_covered(path1@, segment_lengths@) && path_covered(path2@, segment_lengths@)
            ==> total_len(path1@, segment_lengths@) + total_len(path2@, segment_lengths@)
            <= i32::MAX,
        drop as int + path1@.len() + path2@.len() <= usize::MAX,
    ensures
        r is Ok <==> path_covered(path1@, segment_lengths@) && path_covered(
            path2@,
            segment_lengths@,
        ),
        r matches Ok(al) ==> exists|oi: int, oj: int|
            is_first_lscore_max(
                path1@,
                path2@,
                segment_lengths@,
                row_drop(drop as int, path1@.len() as int, path2@.len() as int),
                col_drop(drop as int, path1@.len() as int, path2@.len() as int),
                oi,
                oj,
            ) && alignment_from_walk(
                al,
                path1@,
                path2@,
                lowmem_tb_fn(
                    path1@,
                    path2@,
                    segment_lengths@,
                    row_drop(drop as int, path1@.len() as int, path2@.len() as int),
                    col_drop(drop as int, path1@.len() as int, path2@.len() as int),
                ),
                oi,
                oj,
            ),
        r matches Err(e) ==> (e matches InversionError::SegmentNotFound(id)
            && !segment_lengths@.dom().contains(id) && exists|k: int|
            0 <= k < path1@.len() + path2@.len() && #[trigger] crate::align::seg_at_concat(
                path1@,
                path2@,
                k,
            ) == id && (forall|k2: int|
                0 <= k2 < k ==> segment_lengths@.dom().contains(
                    #[trigger] crate::align::seg_at_concat(path1@, path2@, k2),
                ))),
{
    match crate::align::first_missing_segment(path1, path2, segment_lengths) {
        Some(id) => Err(InversionError::SegmentNotFound(id)),
        None => Ok(align_subproblem_lowmem_checked(path1, path2, segment_lengths, drop)),
    }
}

} // verus!
