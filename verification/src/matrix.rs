//! Dense score and traceback matrices for the full-matrix aligner.
//!
//! The matrices are `ndarray` two-dimensional arrays.  Verus cannot read
//! `ndarray::ArrayBase` (its type declaration is refused), so each array is
//! held in a private field of an opaque struct, its contents are named by
//! an uninterpreted sequence-of-rows function, and the few operations the
//! aligner needs are trusted wrappers whose contracts state what the
//! `ndarray` and `ndarray-stats` sources show.

use ndarray_stats::QuantileExt;
use vstd::prelude::*;

verus! {

/// A dense matrix of 32-bit alignment scores.
#[verifier::external_body]
pub struct ScoreGrid {
    cells: ndarray::Array2<i32>,
}

/// A dense matrix of 8-bit traceback codes.
#[verifier::external_body]
pub struct TraceGrid {
    cells: ndarray::Array2<i8>,
}

/// The contents of a score matrix, row by row.
pub uninterp spec fn score_cells(g: ScoreGrid) -> Seq<Seq<i32>>;

/// The contents of a traceback matrix, row by row.
pub uninterp spec fn trace_cells(g: TraceGrid) -> Seq<Seq<i8>>;

/// True when `m` has `rows` rows of `cols` entries each.
pub open spec fn grid_dims<T>(m: Seq<Seq<T>>, rows: int, cols: int) -> bool {
    m.len() == rows && (forall|i: int| 0 <= i < rows ==> (#[trigger] m[i]).len() == cols)
}

/// Relies on `ndarray::Array2::zeros`: a freshly allocated matrix holds
/// zero in every cell.  `zeros` panics when `rows * cols` exceeds
/// `isize::MAX`.
#[verifier::external_body]
pub(crate) fn score_grid_zeros(rows: usize, cols: usize) -> (g: ScoreGrid)
    requires
        rows as int * cols as int <= 0x7fff_ffff_ffff_ffff,
    ensures
        grid_dims(score_cells(g), rows as int, cols as int),
        forall|i: int, j: int|
            0 <= i < rows && 0 <= j < cols ==> #[trigger] score_cells(g)[i][j] == 0i32,
{
    ScoreGrid { cells: ndarray::Array2::zeros((rows, cols)) }
}

/// Relies on `ndarray::Array2::zeros`: a freshly allocated matrix holds
/// zero in every cell.  `zeros` panics when `rows * cols` exceeds
/// `isize::MAX`.
#[verifier::external_body]
pub(crate) fn trace_grid_zeros(rows: usize, cols: usize) -> (g: TraceGrid)
    requires
        rows as int * cols as int <= 0x7fff_ffff_ffff_ffff,
    ensures
        grid_dims(trace_cells(g), rows as int, cols as int),
        forall|i: int, j: int|
            0 <= i < rows && 0 <= j < cols ==> #[trigger] trace_cells(g)[i][j] == 0i8,
{
    TraceGrid { cells: ndarray::Array2::zeros((rows, cols)) }
}

/// Relies on `ndarray`'s `Index` impl for `Array2`: reads the cell at
/// `(i, j)`; indexing panics out of bounds.
#[verifier::external_body]
pub(crate) fn score_grid_get(g: &ScoreGrid, i: usize, j: usize) -> (v: i32)
    requires
        i < score_cells(*g).len(),
        j < score_cells(*g)[i as int].len(),
    ensures
        v == score_cells(*g)[i as int][j as int],
{
    g.cells[[i, j]]
}

/// Relies on `ndarray`'s `IndexMut` impl for `Array2`: writes the cell at
/// `(i, j)` and leaves every other cell unchanged; indexing panics out of
/// bounds.
#[verifier::external_body]
pub(crate) fn score_grid_set(g: &mut ScoreGrid, i: usize, j: usize, v: i32)
    requires
        i < score_cells(*old(g)).len(),
        j < score_cells(*old(g))[i as int].len(),
    ensures
        score_cells(*final(g)).len() == score_cells(*old(g)).len(),
        forall|a: int|
            0 <= a < score_cells(*old(g)).len() ==> (#[trigger] score_cells(*final(g))[a]).len()
                == score_cells(*old(g))[a].len(),
        score_cells(*final(g))[i as int][j as int] == v,
        forall|a: int, b: int|
            0 <= a < score_cells(*old(g)).len() && 0 <= b < score_cells(*old(g))[a].len() && !(a
                == i && b == j) ==> #[trigger] score_cells(*final(g))[a][b] == score_cells(
                *old(g),
            )[a][b],
{
    g.cells[[i, j]] = v;
}

/// Relies on `ndarray`'s `Index` impl for `Array2`: reads the cell at
/// `(i, j)`; indexing panics out of bounds.
#[verifier::external_body]
pub(crate) fn trace_grid_get(g: &TraceGrid, i: usize, j: usize) -> (v: i8)
    requires
        i < trace_cells(*g).len(),
        j < trace_cells(*g)[i as int].len(),
    ensures
        v == trace_cells(*g)[i as int][j as int],
{
    g.cells[[i, j]]
}

/// Relies on `ndarray`'s `IndexMut` impl for `Array2`: writes the cell at
/// `(i, j)` and leaves every other cell unchanged; indexing panics out of
/// bounds.
#[verifier::external_body]
pub(crate) fn trace_grid_set(g: &mut TraceGrid, i: usize, j: usize, v: i8)
    requires
        i < trace_cells(*old(g)).len(),
        j < trace_cells(*old(g))[i as int].len(),
    ensures
        trace_cells(*final(g)).len() == trace_cells(*old(g)).len(),
        forall|a: int|
            0 <= a < trace_cells(*old(g)).len() ==> (#[trigger] trace_cells(*final(g))[a]).len()
                == trace_cells(*old(g))[a].len(),
        trace_cells(*final(g))[i as int][j as int] == v,
        forall|a: int, b: int|
            0 <= a < trace_cells(*old(g)).len() && 0 <= b < trace_cells(*old(g))[a].len() && !(a
                == i && b == j) ==> #[trigger] trace_cells(*final(g))[a][b] == trace_cells(
                *old(g),
            )[a][b],
{
    g.cells[[i, j]] = v;
}

/// Relies on `ndarray_stats::QuantileExt::argmax`: over a nonempty
/// integer matrix it returns `Ok` of the position of the maximum cell,
/// scanning by `indexed_iter` in row-major order and replacing the
/// running maximum only on strictly greater cells, so ties keep the
/// lexicographically smallest position.  The matrices of this crate are
/// built by `Array2::zeros`, which uses standard (row-major) layout.
#[verifier::external_body]
pub(crate) fn score_grid_argmax(g: &ScoreGrid) -> (r: (usize, usize))
    requires
        score_cells(*g).len() > 0,
        score_cells(*g)[0].len() > 0,
        forall|i: int|
            0 <= i < score_cells(*g).len() ==> (#[trigger] score_cells(*g)[i]).len()
                == score_cells(*g)[0].len(),
    ensures
        r.0 < score_cells(*g).len(),
        r.1 < score_cells(*g)[0].len(),
        forall|i: int, j: int|
            0 <= i < score_cells(*g).len() && 0 <= j < score_cells(*g)[0].len()
                ==> #[trigger] score_cells(*g)[i][j] <= score_cells(*g)[r.0 as int][r.1 as int],
        forall|i: int, j: int|
            0 <= i < score_cells(*g).len() && 0 <= j < score_cells(*g)[0].len() && (i < r.0 || (i
                == r.0 && j < r.1)) ==> #[trigger] score_cells(*g)[i][j] < score_cells(
                *g,
            )[r.0 as int][r.1 as int],
{
    g.cells.argmax().unwrap()
}

} // verus!
