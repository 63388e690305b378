use vstd::prelude::*;

verus! {

/// One square of the maze grid: still solid, or carved out.
///
/// A cell is only ever changed from `Wall` to `Empty`; carving never puts a
/// wall back.
#[derive(Clone, Copy, PartialEq, Eq, Structural, Debug)]
pub enum Cell {
    Wall,
    Empty,
}

/// Largest accepted number of rows or columns. Keeps every coordinate well
/// inside `isize` and the cell count of a grid well inside `isize::MAX`
/// bytes on every platform, so allocation and indexing arithmetic cannot
/// overflow.
pub const MAX_DIM: usize = 0x4000;

/// Dense two-dimensional cell buffer, stored row-major in an
/// `ndarray::Array2`. The array is opaque to the verifier; what it holds is
/// abstracted by [`grid_cells`], and every use goes through the trusted
/// accessors below, whose contracts state their effect on that abstraction.
#[verifier::external_body]
pub struct Grid {
    inner: ndarray::Array2<Cell>,
}

/// The cells held by a grid, row by row.
pub uninterp spec fn grid_cells(g: Grid) -> Seq<Seq<Cell>>;

/// Relies on `ndarray::Array2::from_elem`: builds a `rows` by `cols` array
/// (row-major) with every element a copy of the given one. It panics only
/// when the product of the axis lengths overflows `isize`, which the bound
/// on the dimensions rules out.
#[verifier::external_body]
pub(crate) fn grid_new(rows: usize, cols: usize) -> (g: Grid)
    requires
        1 <= rows <= MAX_DIM,
        1 <= cols <= MAX_DIM,
    ensures
        grid_cells(g).len() == rows,
        forall|i: int| 0 <= i < rows ==> #[trigger] grid_cells(g)[i].len() == cols,
        forall|i: int, j: int|
            0 <= i < rows && 0 <= j < cols ==> #[trigger] grid_cells(g)[i][j] == Cell::Wall,
{
    Grid { inner: ndarray::Array2::from_elem((rows, cols), Cell::Wall) }
}

/// Relies on ndarray's `Index` implementation for `ArrayBase` with an
/// `[row, col]` index: returns the element at that position, and panics
/// only out of bounds, which the precondition rules out.
#[verifier::external_body]
pub(crate) fn grid_get(g: &Grid, row: usize, col: usize) -> (c: Cell)
    requires
        row < grid_cells(*g).len(),
        col < grid_cells(*g)[row as int].len(),
    ensures
        c == grid_cells(*g)[row as int][col as int],
{
    g.inner[[row, col]]
}

/// Relies on ndarray's `IndexMut` implementation for `ArrayBase` with an
/// `[row, col]` index: overwrites the element at that position and leaves
/// every other element and the shape unchanged; panics only out of bounds,
/// which the precondition rules out.
#[verifier::external_body]
pub(crate) fn grid_set(g: &mut Grid, row: usize, col: usize, c: Cell)
    requires
        row < grid_cells(*old(g)).len(),
        col < grid_cells(*old(g))[row as int].len(),
    ensures
        grid_cells(*final(g)) == grid_cells(*old(g)).update(
            row as int,
            grid_cells(*old(g))[row as int].update(col as int, c),
        ),
{
    g.inner[[row, col]] = c;
}

} // verus!
