//! The two-dimensional store of squares.
//!
//! The squares live in an `ndarray` array. Verus cannot look inside that
//! array, so this module names what it holds ([`grid_cells`], [`lane_cells`])
//! and states, for each `ndarray` operation the puzzle needs, what that
//! operation does to those contents. Nothing in this file is proved: every
//! function below is a statement about `ndarray` that the rest of the crate
//! relies on.

use vstd::prelude::*;

verus! {

/// One cell of the grid: `None` is a blocked square, `Some(c)` an open square
/// holding the letter `c`.
pub type Square = Option<char>;

/// An owned, rectangular array of squares (`ndarray::Array2`).
#[verifier::external_body]
pub struct Grid {
    cells: ndarray::Array2<Square>,
}

/// A borrowed, one-dimensional run of squares inside a [`Grid`]
/// (`ndarray::ArrayView1`): a row, a column, or a part of one.
#[verifier::external_body]
pub struct Lane<'a> {
    cells: ndarray::ArrayView1<'a, Square>,
}

/// The squares of a grid, row by row.
pub uninterp spec fn grid_cells(g: Grid) -> Seq<Seq<Square>>;

/// The squares of a lane, in order.
pub uninterp spec fn lane_cells(l: Lane) -> Seq<Square>;

/// The largest number of squares an array may hold: `ndarray` refuses a shape
/// whose axis lengths, or their product, exceed `isize::MAX`.
pub open spec fn shape_fits(nrows: int, ncols: int) -> bool {
    &&& 0 <= nrows <= isize::MAX
    &&& 0 <= ncols <= isize::MAX
    &&& nrows * ncols <= isize::MAX
}

/// `ndarray::Array2::from_elem((nrows, ncols), elem)`: a grid of `nrows` rows
/// with `ncols` squares each, every one of them equal to `elem`. The call
/// panics when the product of the non-zero axis lengths overflows `isize`,
/// which `shape_fits` rules out.
#[verifier::external_body]
pub(crate) fn grid_from_elem(nrows: usize, ncols: usize, elem: Square) -> (g: Grid)
    requires
        shape_fits(nrows as int, ncols as int),
    ensures
        grid_cells(g) == Seq::new(nrows as nat, |i: int| Seq::new(ncols as nat, |j: int| elem)),
{
    Grid { cells: ndarray::Array2::from_elem((nrows, ncols), elem) }
}

/// `ArrayBase::nrows`: the number of rows.
#[verifier::external_body]
pub(crate) fn grid_nrows(g: &Grid) -> (n: usize)
    ensures
        n == grid_cells(*g).len(),
{
    g.cells.nrows()
}

/// `ArrayBase::ncols`: the length that every row of the array has.
#[verifier::external_body]
pub(crate) fn grid_ncols(g: &Grid) -> (n: usize)
    ensures
        forall|i: int| 0 <= i < grid_cells(*g).len() ==> (#[trigger] grid_cells(*g)[i]).len() == n,
{
    g.cells.ncols()
}

/// `IndexMut` on the array, `g[[row, col]] = value`: that one square changes
/// and no other. The call panics on an index out of bounds.
#[verifier::external_body]
pub(crate) fn grid_set(g: &mut Grid, row: usize, col: usize, value: Square)
    requires
        row < grid_cells(*old(g)).len(),
        col < grid_cells(*old(g))[row as int].len(),
    ensures
        grid_cells(*final(g)) == grid_cells(*old(g)).update(
            row as int,
            grid_cells(*old(g))[row as int].update(col as int, value),
        ),
{
    g.cells[[row, col]] = value;
}

/// `Clone` on the array: an independent array with the same squares.
#[verifier::external_body]
pub(crate) fn grid_clone(g: &Grid) -> (copy: Grid)
    ensures
        grid_cells(copy) == grid_cells(*g),
{
    Grid { cells: g.cells.clone() }
}

/// `ArrayBase::row(k)`: a view of row `k`. The call panics when `k` is not a
/// row of the array.
#[verifier::external_body]
pub(crate) fn grid_row<'a>(g: &'a Grid, k: usize) -> (lane: Lane<'a>)
    requires
        k < grid_cells(*g).len(),
    ensures
        lane_cells(lane) == grid_cells(*g)[k as int],
{
    Lane { cells: g.cells.row(k) }
}

/// `ArrayBase::column(k)`: a view of column `k`, top to bottom. The call
/// panics when `k` is not a column of the array.
#[verifier::external_body]
pub(crate) fn grid_column<'a>(g: &'a Grid, k: usize) -> (lane: Lane<'a>)
    requires
        0 < grid_cells(*g).len(),
        k < grid_cells(*g)[0].len(),
    ensures
        lane_cells(lane) == Seq::new(grid_cells(*g).len(), |i: int| grid_cells(*g)[i][k as int]),
{
    Lane { cells: g.cells.column(k) }
}

/// `ArrayBase::len` on a one-dimensional view: the number of squares in it.
#[verifier::external_body]
pub(crate) fn lane_len(lane: &Lane) -> (n: usize)
    ensures
        n == lane_cells(*lane).len(),
{
    lane.cells.len()
}

/// `Index` on a one-dimensional view, `lane[i]`: the square at position `i`.
/// The call panics on an index out of bounds.
#[verifier::external_body]
pub(crate) fn lane_get(lane: &Lane, i: usize) -> (square: Square)
    requires
        i < lane_cells(*lane).len(),
    ensures
        square == lane_cells(*lane)[i as int],
{
    lane.cells[i]
}

/// `ArrayBase::slice_axis_move` along the only axis, with the range
/// `start..stop` and step one: the view narrowed to those positions. The call
/// panics when the range reaches past the end of the view.
#[verifier::external_body]
pub(crate) fn lane_slice<'a>(lane: Lane<'a>, start: usize, stop: usize) -> (part: Lane<'a>)
    requires
        start <= stop <= lane_cells(lane).len(),
    ensures
        lane_cells(part) == lane_cells(lane).subrange(start as int, stop as int),
{
    Lane { cells: lane.cells.slice_axis_move(ndarray::Axis(0), ndarray::Slice::from(start..stop)) }
}

} // verus!
