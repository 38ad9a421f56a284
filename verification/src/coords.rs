//! Mapping between continuous world positions and discrete hex cells.
//!
//! Cells are addressed in offset coordinates under a flat-top layout:
//! column centers sit `COLUMN_SPACING` apart horizontally, cell centers
//! within a column sit `ROW_SPACING` apart vertically, and the centers of
//! even-numbered columns are shifted by `HALF_ROW`. World positions are
//! whole render-space units. The mapper rounds to the nearest column and
//! then to the nearest row within that column, so it is exact at cell
//! centers and gameplay-grade (not pixel-exact) near cell edges, where
//! rounding can pick a neighboring cell instead of the true nearest
//! hexagon. Rounding ties go toward positive infinity, which in
//! particular places the origin in cell `(0, 0)`.

use vstd::arithmetic::div_mod::{
    lemma_fundamental_div_mod, lemma_fundamental_div_mod_converse, lemma_div_is_ordered,
    lemma_mod_division_less_than_divisor,
};
use vstd::prelude::*;

verus! {

/// Horizontal distance between the centers of adjacent hex columns.
pub const COLUMN_SPACING: i64 = 186;

/// Vertical distance between the centers of adjacent cells in one column.
pub const ROW_SPACING: i64 = 214;

/// Half of `ROW_SPACING`: the vertical shift of even-numbered columns.
pub const HALF_ROW: i64 = 107;

/// Bound on the magnitude of the world coordinates the mapper accepts.
pub const MAX_WORLD: i64 = 300_000_000_000;

/// Bound on the magnitude of both components of every cell the mapper
/// returns for an accepted position.
pub const MAX_CELL: i64 = 1_700_000_000;

/// A position in the host's continuous render space, in whole units.
#[derive(Clone, Copy, PartialEq, Eq, Structural, Debug)]
pub struct WorldPosition {
    pub x: i64,
    pub y: i64,
}

/// One hexagonal cell, addressed by `(column, row)` offset coordinates.
/// A plain value: equality is structural, and there is exactly one zero,
/// so no normalization of signed zeroes is ever needed downstream.
#[derive(Clone, Copy, PartialEq, Eq, Structural, Debug)]
pub struct HexCell {
    pub col: i64,
    pub row: i64,
}

/// The pair of integers addressing `cell`.
pub open spec fn cell_key(cell: HexCell) -> (int, int) {
    (cell.col as int, cell.row as int)
}

/// The quotient `n / d` rounded to the nearest integer, ties toward
/// positive infinity. Division on `int` is Euclidean, so for `d > 0` the
/// outer division floors.
pub open spec fn rounded_div(n: int, d: int) -> int
    recommends
        2 <= d,
        d % 2 == 0,
{
    (n + d / 2) / d
}

/// The column whose center line is nearest to world x-coordinate `x`.
pub open spec fn spec_col(x: int) -> int {
    rounded_div(x, COLUMN_SPACING as int)
}

/// The vertical shift of the centers of cells in column `col`.
pub open spec fn spec_offset(col: int) -> int {
    if col % 2 == 0 {
        HALF_ROW as int
    } else {
        0
    }
}

/// The row of column `col` whose center is nearest to world y-coordinate `y`.
pub open spec fn spec_row(y: int, col: int) -> int {
    rounded_div(y - spec_offset(col), ROW_SPACING as int)
}

/// The cell containing the world position `(x, y)`: the nearest column,
/// then the nearest row within that column.
pub open spec fn spec_cell(x: int, y: int) -> (int, int) {
    (spec_col(x), spec_row(y, spec_col(x)))
}

/// World x-coordinate of the centers of cells in column `col`.
pub open spec fn spec_center_x(col: int) -> int {
    COLUMN_SPACING * col
}

/// World y-coordinate of the center of the cell at `(col, row)`.
pub open spec fn spec_center_y(col: int, row: int) -> int {
    ROW_SPACING * row + spec_offset(col)
}

/// Negating an integer preserves its parity.
proof fn lemma_parity_of_negation(c: int)
    ensures
        ((-c) % 2 == 0) <==> (c % 2 == 0),
{
    lemma_fundamental_div_mod(c, 2);
    lemma_mod_division_less_than_divisor(c, 2);
    let q: int = c / 2;
    let r: int = c % 2;
    if r == 0 {
        lemma_fundamental_div_mod_converse(-c, 2, -q, 0);
    } else {
        lemma_fundamental_div_mod_converse(-c, 2, -q - 1, 2 - r);
    }
}

/// Rounds `n / d` to the nearest integer, ties toward positive infinity.
fn round_to_nearest(n: i64, d: i64) -> (q: i64)
    requires
        2 <= d <= ROW_SPACING,
        d % 2 == 0,
        -MAX_WORLD - HALF_ROW <= n <= MAX_WORLD + HALF_ROW,
    ensures
        q == rounded_div(n as int, d as int),
{
    let m: i64 = n + d / 2;
    if m >= 0 {
        m / d
    } else {
        let t: i64 = (-m + d - 1) / d;
        proof {
            let mm: int = m as int;
            let dd: int = d as int;
            let x: int = -mm + dd - 1;
            lemma_fundamental_div_mod(x, dd);
            lemma_mod_division_less_than_divisor(x, dd);
            let r: int = x % dd;
            assert(x == dd * (t as int) + r);
            assert(mm == (-(t as int)) * dd + (dd - 1 - r)) by (nonlinear_arith)
                requires
                    x == dd * (t as int) + r,
                    mm == -x + dd - 1,
            ;
            lemma_fundamental_div_mod_converse(mm, dd, -(t as int), dd - 1 - r);
        }
        -t
    }
}

/// The vertical shift of the centers of cells in column `col`.
fn column_offset(col: i64) -> (off: i64)
    ensures
        off == spec_offset(col as int),
{
    proof {
        lemma_parity_of_negation(col as int);
    }
    if col % 2 == 0 {
        HALF_ROW
    } else {
        0
    }
}

/// The hex cell containing the world position `pos`.
///
/// The result is pinned down exactly: the column is the one whose center
/// line is nearest to `pos.x`, and the row is the one whose center is
/// nearest to `pos.y` within that column, ties toward positive infinity.
pub fn cell_for(pos: WorldPosition) -> (cell: HexCell)
    requires
        -MAX_WORLD <= pos.x <= MAX_WORLD,
        -MAX_WORLD <= pos.y <= MAX_WORLD,
    ensures
        cell_key(cell) == spec_cell(pos.x as int, pos.y as int),
        -MAX_CELL <= cell.col <= MAX_CELL,
        -MAX_CELL <= cell.row <= MAX_CELL,
{
    let col: i64 = round_to_nearest(pos.x, COLUMN_SPACING);
    proof {
        lemma_div_is_ordered(pos.x + 93, MAX_WORLD + 93, COLUMN_SPACING as int);
        lemma_div_is_ordered(-MAX_WORLD + 93, pos.x + 93, COLUMN_SPACING as int);
        lemma_fundamental_div_mod_converse(MAX_WORLD + 93, 186, 1_612_903_226, 57);
        lemma_fundamental_div_mod_converse(-MAX_WORLD + 93, 186, -1_612_903_226, 129);
    }
    let offset: i64 = column_offset(col);
    let row: i64 = round_to_nearest(pos.y - offset, ROW_SPACING);
    proof {
        let yo: int = pos.y - offset;
        lemma_div_is_ordered(yo + 107, MAX_WORLD + 107, ROW_SPACING as int);
        lemma_div_is_ordered(-MAX_WORLD - 107 + 107, yo + 107, ROW_SPACING as int);
        lemma_fundamental_div_mod_converse(MAX_WORLD + 107, 214, 1_401_869_159, 81);
        lemma_fundamental_div_mod_converse(-MAX_WORLD, 214, -1_401_869_159, 26);
    }
    HexCell { col, row }
}

/// The world-space center of `cell`: the exact algebraic inverse of the
/// column and row spacing applied by the mapper.
pub fn cell_center(cell: HexCell) -> (pos: WorldPosition)
    requires
        -2 * MAX_CELL <= cell.col <= 2 * MAX_CELL,
        -2 * MAX_CELL <= cell.row <= 2 * MAX_CELL,
    ensures
        pos.x == spec_center_x(cell.col as int),
        pos.y == spec_center_y(cell.col as int, cell.row as int),
{
    let x: i64 = COLUMN_SPACING * cell.col;
    let offset: i64 = column_offset(cell.col);
    let y: i64 = ROW_SPACING * cell.row + offset;
    WorldPosition { x, y }
}

/// The mapping from positions to cells is a function of the position
/// alone: equal positions always yield the same cell, so applying the
/// mapper twice to one input yields the same cell both times.
pub proof fn lemma_cell_for_deterministic(x1: int, y1: int, x2: int, y2: int)
    requires
        x1 == x2,
        y1 == y2,
    ensures
        spec_cell(x1, y1) == spec_cell(x2, y2),
{
}

/// Round trip: the exact center of any cell maps back to that cell.
pub proof fn lemma_center_round_trip(col: int, row: int)
    ensures
        spec_cell(spec_center_x(col), spec_center_y(col, row)) == (col, row),
{
    lemma_fundamental_div_mod_converse(186 * col + 93, 186, col, 93);
    lemma_fundamental_div_mod_converse(214 * row + 107, 214, row, 107);
}

/// The origin maps to the cell `(0, 0)`. Cell addresses are integer
/// pairs with a single zero, so no component of the result can be a
/// negative zero that fails an equality test against `(0, 0)`.
pub proof fn lemma_origin_cell()
    ensures
        spec_cell(0, 0) == (0int, 0int),
{
    assert(spec_col(0) == 93int / 186);
    assert(93int / 186 == 0) by {
        lemma_fundamental_div_mod_converse(93, 186, 0, 93);
    }
    assert(spec_row(0, 0) == 0int / 214);
    assert(0int / 214 == 0) by {
        lemma_fundamental_div_mod_converse(0, 214, 0, 0);
    }
}

} // verus!
