//! Positions of the grid and the 27 regions they belong to.
//!
//! Position `i` (0 to 80) lies in row `i / 9` and column `i % 9`; the boxes are
//! numbered row by row, box `b` covering rows `3 * (b / 3) ..` and columns
//! `3 * (b % 3) ..`. The `k`-th cell of a region is counted in row-major order.
use vstd::prelude::*;

verus! {

pub open spec fn row_of(i: int) -> int {
    i / 9
}

pub open spec fn col_of(i: int) -> int {
    i % 9
}

pub open spec fn box_of(i: int) -> int {
    (i / 27) * 3 + (i % 9) / 3
}

/// Where position `i` stands inside its box.
pub open spec fn box_pos(i: int) -> int {
    ((i / 9) % 3) * 3 + (i % 9) % 3
}

/// Two positions share a row, a column or a box.
pub open spec fn same_region(i: int, j: int) -> bool {
    row_of(i) == row_of(j) || col_of(i) == col_of(j) || box_of(i) == box_of(j)
}

/// The `k`-th position of row `r`.
pub open spec fn row_cell(r: int, k: int) -> int {
    r * 9 + k
}

/// The `k`-th position of column `c`.
pub open spec fn col_cell(c: int, k: int) -> int {
    k * 9 + c
}

/// The `k`-th position of box `b`.
pub open spec fn box_cell(b: int, k: int) -> int {
    ((b / 3) * 3 + k / 3) * 9 + (b % 3) * 3 + k % 3
}

/// The positions of row `r`, in order.
pub open spec fn row_positions(r: int) -> Seq<int> {
    Seq::new(9, |k: int| row_cell(r, k))
}

/// The positions of column `c`, in order.
pub open spec fn col_positions(c: int) -> Seq<int> {
    Seq::new(9, |k: int| col_cell(c, k))
}

/// The positions of box `b`, in order.
pub open spec fn box_positions(b: int) -> Seq<int> {
    Seq::new(9, |k: int| box_cell(b, k))
}

/// Every position is the cell of its row, its column and its box at its place in each.
pub proof fn lemma_position_decomposes(i: int)
    requires
        0 <= i < 81,
    ensures
        0 <= row_of(i) < 9,
        0 <= col_of(i) < 9,
        0 <= box_of(i) < 9,
        0 <= box_pos(i) < 9,
        row_cell(row_of(i), col_of(i)) == i,
        col_cell(col_of(i), row_of(i)) == i,
        box_cell(box_of(i), box_pos(i)) == i,
{
    assert(box_cell(box_of(i), box_pos(i)) == i) by (nonlinear_arith)
        requires
            0 <= i < 81,
    ;
}

/// The cells of a row lie in that row, at distinct places.
pub proof fn lemma_row_cell(r: int, k: int)
    requires
        0 <= r < 9,
        0 <= k < 9,
    ensures
        0 <= row_cell(r, k) < 81,
        row_of(row_cell(r, k)) == r,
        col_of(row_cell(r, k)) == k,
{
}

/// The cells of a column lie in that column, at distinct places.
pub proof fn lemma_col_cell(c: int, k: int)
    requires
        0 <= c < 9,
        0 <= k < 9,
    ensures
        0 <= col_cell(c, k) < 81,
        col_of(col_cell(c, k)) == c,
        row_of(col_cell(c, k)) == k,
{
}

/// The cells of a box lie in that box, at distinct places.
pub proof fn lemma_box_cell(b: int, k: int)
    requires
        0 <= b < 9,
        0 <= k < 9,
    ensures
        0 <= box_cell(b, k) < 81,
        box_of(box_cell(b, k)) == b,
        box_pos(box_cell(b, k)) == k,
{
    assert(0 <= box_cell(b, k) < 81 && box_of(box_cell(b, k)) == b && box_pos(box_cell(b, k))
        == k) by (nonlinear_arith)
        requires
            0 <= b < 9,
            0 <= k < 9,
    ;
}

} // verus!
