//! Trusted interface to the grid storage.
//!
//! The board's cells live in an `ndarray` two-dimensional array. The array
//! type cannot be declared to the verifier, so it is held in an opaque struct;
//! `grid_cells` and `grid_dims` name its contents and shape, and the three
//! functions below are the trusted operations the rest of the crate is
//! verified against.

use vstd::prelude::*;
use crate::kinds::Cell;

verus! {

/// Grid storage backed by an `ndarray::Array2`. Opaque to the verifier.
#[verifier::external_body]
pub struct CellGrid {
    inner: ndarray::Array2<Cell>,
}

/// The cells the grid holds, keyed by (x, y).
pub uninterp spec fn grid_cells(g: CellGrid) -> Map<(int, int), Cell>;

/// The grid's shape: extent in x, extent in y.
pub uninterp spec fn grid_dims(g: CellGrid) -> (int, int);

/// Relies on ndarray::Array2::from_elem: a fresh nx-by-ny array with every
/// element equal to `fill`.
#[verifier::external_body]
pub fn grid_filled(nx: usize, ny: usize, fill: Cell) -> (g: CellGrid)
    requires
        nx <= 256,
        ny <= 256,
    ensures
        grid_dims(g) == (nx as int, ny as int),
        forall|k: (int, int)| grid_cells(g).dom().contains(k) <==> (0 <= k.0 < nx && 0 <= k.1 < ny),
        forall|k: (int, int)| grid_cells(g).dom().contains(k) ==> grid_cells(g)[k] == fill,
{
    CellGrid { inner: ndarray::Array2::from_elem((nx, ny), fill) }
}

/// Relies on ndarray's Index implementation: the element at (x, y).
#[verifier::external_body]
pub fn grid_at(g: &CellGrid, x: usize, y: usize) -> (c: Cell)
    requires
        0 <= x < grid_dims(*g).0,
        0 <= y < grid_dims(*g).1,
    ensures
        c == grid_cells(*g)[(x as int, y as int)],
{
    g.inner[[x, y]]
}

/// Relies on ndarray's IndexMut implementation: writes the element at (x, y).
#[verifier::external_body]
pub fn grid_put(g: &mut CellGrid, x: usize, y: usize, c: Cell)
    requires
        0 <= x < grid_dims(*old(g)).0,
        0 <= y < grid_dims(*old(g)).1,
    ensures
        grid_dims(*final(g)) == grid_dims(*old(g)),
        grid_cells(*final(g)) == grid_cells(*old(g)).insert((x as int, y as int), c),
{
    g.inner[[x, y]] = c;
}

} // verus!
