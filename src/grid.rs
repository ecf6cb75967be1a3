//! The square grid a puzzle board lives in: `pathfinding`'s `Matrix`, seen
//! through three names (its cells in row-major order, its row count and its
//! column count) and a wrapper for each of its methods that the board calls.
use pathfinding::matrix::{Matrix, MatrixFormatError};
use vstd::prelude::*;

verus! {

#[verifier::external_type_specification]
#[verifier::external_body]
#[verifier::reject_recursive_types(C)]
pub struct ExMatrix<C>(Matrix<C>);

#[verifier::external_type_specification]
#[verifier::external_body]
pub struct ExMatrixFormatError(MatrixFormatError);

/// A cell of the board: a tile label, or `None` for the blank.
pub type Cell = Option<u8>;

/// The cells of a matrix, first row first.
pub uninterp spec fn grid_cells(m: Matrix<Option<u8>>) -> Seq<Option<u8>>;

/// The number of rows of a matrix.
pub uninterp spec fn grid_rows(m: Matrix<Option<u8>>) -> nat;

/// The number of columns of a matrix.
pub uninterp spec fn grid_columns(m: Matrix<Option<u8>>) -> nat;

/// The row-major index of cell `(r, c)` in a grid with `columns` columns.
pub open spec fn flat_index(pos: (usize, usize), columns: nat) -> int {
    pos.0 * columns + pos.1
}

/// The cells orthogonally adjacent to `(r, c)` inside a `rows` x `columns`
/// grid, in the order up, left, right, down; none if `(r, c)` is outside.
pub open spec fn adjacent_cells(pos: (usize, usize), rows: nat, columns: nat) -> Seq<(usize, usize)> {
    let (r, c) = pos;
    if r < rows && c < columns {
        let up = if r > 0 { seq![((r - 1) as usize, c)] } else { seq![] };
        let left = if c > 0 { seq![(r, (c - 1) as usize)] } else { seq![] };
        let right = if c + 1 < columns { seq![(r, (c + 1) as usize)] } else { seq![] };
        let down = if r + 1 < rows { seq![((r + 1) as usize, c)] } else { seq![] };
        up + left + right + down
    } else {
        seq![]
    }
}

/// Relies on `Matrix::square_from_vec`: it succeeds exactly when the length
/// is a perfect square `k * k`, and then keeps the values in order in a
/// `k` x `k` matrix.
#[verifier::external_body]
pub(crate) fn square_from_vec(values: Vec<Option<u8>>) -> (r: Result<Matrix<Option<u8>>, MatrixFormatError>)
    ensures
        (r matches Ok(m) ==> grid_cells(m) == values@ && grid_rows(m) == grid_columns(m)
            && grid_rows(m) * grid_rows(m) == values@.len()),
        forall|k: nat| #[trigger] (k * k) == values@.len() ==> r is Ok,
{
    Matrix::square_from_vec(values)
}

/// Relies on `Matrix::neighbours` without diagonals: the in-bounds cells
/// orthogonally adjacent to `pos`, in the order it yields them.
#[verifier::external_body]
pub(crate) fn neighbours(m: &Matrix<Option<u8>>, pos: (usize, usize)) -> (r: Vec<(usize, usize)>)
    ensures
        r@ == adjacent_cells(pos, grid_rows(*m), grid_columns(*m)),
{
    m.neighbours(pos, false).collect()
}

/// Relies on `Matrix::swap`: exchanges the two cells; panics outside the grid.
#[verifier::external_body]
pub(crate) fn swap(m: &mut Matrix<Option<u8>>, a: (usize, usize), b: (usize, usize))
    requires
        a.0 < grid_rows(*old(m)),
        a.1 < grid_columns(*old(m)),
        b.0 < grid_rows(*old(m)),
        b.1 < grid_columns(*old(m)),
    ensures
        grid_rows(*final(m)) == grid_rows(*old(m)),
        grid_columns(*final(m)) == grid_columns(*old(m)),
        grid_cells(*final(m)) == grid_cells(*old(m)).update(
            flat_index(a, grid_columns(*old(m))),
            grid_cells(*old(m))[flat_index(b, grid_columns(*old(m)))],
        ).update(
            flat_index(b, grid_columns(*old(m))),
            grid_cells(*old(m))[flat_index(a, grid_columns(*old(m)))],
        ),
{
    m.swap(a, b)
}

/// Relies on `Matrix`'s derived `Clone`: same shape, same cells.
#[verifier::external_body]
pub(crate) fn clone_grid(m: &Matrix<Option<u8>>) -> (r: Matrix<Option<u8>>)
    ensures
        grid_cells(r) == grid_cells(*m),
        grid_rows(r) == grid_rows(*m),
        grid_columns(r) == grid_columns(*m),
{
    m.clone()
}

/// Relies on `Matrix::items`: each cell with its `(row, column)`, first row
/// first. Its length is `rows * columns`, the length of the cells.
#[verifier::external_body]
pub(crate) fn items(m: &Matrix<Option<u8>>) -> (r: Vec<((usize, usize), Option<u8>)>)
    ensures
        r@.len() == grid_cells(*m).len(),
        r@.len() == grid_rows(*m) * grid_columns(*m),
        forall|i: int|
            0 <= i < r@.len() ==> #[trigger] r@[i] == (
                ((i / grid_columns(*m) as int) as usize, (i % grid_columns(*m) as int) as usize),
                grid_cells(*m)[i],
            ),
{
    m.items().map(|(pos, v)| (pos, *v)).collect()
}

/// Relies on `Matrix::rows`, the public field holding the row count.
#[verifier::external_body]
pub(crate) fn row_count(m: &Matrix<Option<u8>>) -> (r: usize)
    ensures
        r == grid_rows(*m),
{
    m.rows
}

} // verus!
