//! Positions in the grid as it is displayed, and rectangles of them.
//!
//! A cell of the displayed grid is addressed either by its visible row and visible
//! column, or by one number, its linear index `row * ncol + col`, where `ncol` is the
//! number of visible columns. A selection is a rectangle given by the linear indices
//! of its top-left and bottom-right cells.

use vstd::prelude::*;
use vstd::arithmetic::div_mod::{lemma_fundamental_div_mod, lemma_fundamental_div_mod_converse};
use vstd::arithmetic::mul::{lemma_mul_inequality, lemma_mul_is_commutative};

verus! {

/// Row-major index of a cell of the displayed grid.
#[derive(Clone, Copy, Debug, Default, PartialEq, Eq, Hash, PartialOrd, Ord, Structural)]
pub struct VisLinearIdx(pub usize);

/// A rectangle of displayed cells: its top-left and its bottom-right corner.
#[derive(Clone, Copy, Debug, Default, PartialEq, Eq, Hash, PartialOrd, Ord, Structural)]
pub struct VisSelection(pub VisLinearIdx, pub VisLinearIdx);

/// Index of a row snapshot inside a clipboard or a command.
#[derive(Clone, Copy, Debug, Default, PartialEq, Eq, Hash, PartialOrd, Ord, Structural)]
pub struct RowSlabIndex(pub usize);

/// Position of a row in the row store.
#[derive(Clone, Copy, Debug, Default, PartialEq, Eq, Hash, PartialOrd, Ord, Structural)]
pub struct RowIdx(pub usize);

/// Position of a row among the displayed rows.
#[derive(Clone, Copy, Debug, Default, PartialEq, Eq, Hash, PartialOrd, Ord, Structural)]
pub struct VisRowPos(pub usize);

/// Distance in displayed rows from the top of a copied selection.
#[derive(Clone, Copy, Debug, Default, PartialEq, Eq, Hash, PartialOrd, Ord, Structural)]
pub struct VisRowOffset(pub usize);

/// Position of a column among the displayed columns.
#[derive(Clone, Copy, Debug, Default, PartialEq, Eq, Hash, PartialOrd, Ord, Structural)]
pub struct VisColumnPos(pub usize);

/// Direction of a sort key: `true` for ascending.
#[derive(Clone, Copy, Debug, Default, PartialEq, Eq, Hash, PartialOrd, Ord, Structural)]
pub struct IsAscending(pub bool);

/// Index of a column as the viewer numbers them.
#[derive(Clone, Copy, Debug, Default, PartialEq, Eq, Hash, PartialOrd, Ord, Structural)]
pub struct ColumnIdx(pub usize);

/// Linear index of the cell at `row`, `col` in a grid of `ncol` columns.
pub open spec fn linear(ncol: int, row: int, col: int) -> int {
    row * ncol + col
}

/// In a grid of `ncol` columns, a cell left of the last column splits back into the
/// row and column it was flattened from.
pub proof fn lemma_linear_row_col(ncol: int, row: int, col: int)
    requires
        ncol > 0,
        0 <= col < ncol,
    ensures
        linear(ncol, row, col) / ncol == row,
        linear(ncol, row, col) % ncol == col,
{
    lemma_mul_is_commutative(row, ncol);
    lemma_fundamental_div_mod_converse(linear(ncol, row, col), ncol, row, col);
}

/// Flattening the row and column of a linear index gives the index back.
pub proof fn lemma_row_col_linear(ncol: int, idx: int)
    requires
        ncol > 0,
    ensures
        linear(ncol, idx / ncol, idx % ncol) == idx,
{
    lemma_fundamental_div_mod(idx, ncol);
    lemma_mul_is_commutative(idx / ncol, ncol);
}

/// A cell of a lower or equal row and a lower or equal column has a lower or equal
/// linear index.
pub proof fn lemma_linear_monotonic(ncol: int, r1: int, c1: int, r2: int, c2: int)
    requires
        ncol >= 0,
        r1 <= r2,
        c1 <= c2,
    ensures
        linear(ncol, r1, c1) <= linear(ncol, r2, c2),
{
    lemma_mul_inequality(r1, r2, ncol);
}

impl VisLinearIdx {
    /// Visible row of this cell in a grid of `ncol` columns.
    pub open spec fn row(self, ncol: usize) -> int {
        self.0 as int / ncol as int
    }

    /// Visible column of this cell in a grid of `ncol` columns.
    pub open spec fn col(self, ncol: usize) -> int {
        self.0 as int % ncol as int
    }

    /// Splits the index into visible row and visible column.
    pub fn row_col(&self, ncol: usize) -> (rc: (VisRowPos, VisColumnPos))
        requires
            ncol > 0,
        ensures
            rc.0.0 == self.row(ncol),
            rc.1.0 == self.col(ncol),
            rc.1.0 < ncol,
            linear(ncol as int, rc.0.0 as int, rc.1.0 as int) == self.0,
    {
        proof {
            lemma_row_col_linear(ncol as int, self.0 as int);
        }
        let (row, col) = (self.0 / ncol, self.0 % ncol);
        (VisRowPos(row), VisColumnPos(col))
    }
}

impl VisRowPos {
    /// Linear index of the cell of this row at column `col`.
    pub fn linear_index(&self, ncol: usize, col: VisColumnPos) -> (idx: VisLinearIdx)
        requires
            linear(ncol as int, self.0 as int, col.0 as int) <= usize::MAX,
        ensures
            idx.0 == linear(ncol as int, self.0 as int, col.0 as int),
    {
        assert(self.0 * ncol <= self.0 * ncol + col.0);
        VisLinearIdx(self.0 * ncol + col.0)
    }
}

impl VisSelection {
    /// Row of the top edge.
    pub open spec fn top(self, ncol: usize) -> int {
        self.0.row(ncol)
    }

    /// Column of the left edge.
    pub open spec fn left(self, ncol: usize) -> int {
        self.0.col(ncol)
    }

    /// Row of the bottom edge.
    pub open spec fn bottom(self, ncol: usize) -> int {
        self.1.row(ncol)
    }

    /// Column of the right edge.
    pub open spec fn right(self, ncol: usize) -> int {
        self.1.col(ncol)
    }

    /// The cell at `row`, `col` lies inside the rectangle, edges included.
    pub open spec fn covers(self, ncol: usize, row: int, col: int) -> bool {
        &&& self.top(ncol) <= row <= self.bottom(ncol)
        &&& self.left(ncol) <= col <= self.right(ncol)
    }

    /// Every edge of `other` lies inside this rectangle.
    pub open spec fn covers_rect(self, ncol: usize, other: Self) -> bool {
        &&& self.top(ncol) <= other.top(ncol)
        &&& other.bottom(ncol) <= self.bottom(ncol)
        &&& self.left(ncol) <= other.left(ncol)
        &&& other.right(ncol) <= self.right(ncol)
    }

    /// The rectangle with the given edges.
    pub open spec fn with_edges(ncol: usize, top: int, left: int, bottom: int, right: int) -> Self {
        VisSelection(
            VisLinearIdx(linear(ncol as int, top, left) as usize),
            VisLinearIdx(linear(ncol as int, bottom, right) as usize),
        )
    }

    /// The smallest rectangle that holds the cells `a` and `b`.
    pub open spec fn spanning(ncol: usize, a: VisLinearIdx, b: VisLinearIdx) -> Self {
        Self::with_edges(
            ncol,
            vstd::math::min(a.row(ncol), b.row(ncol)),
            vstd::math::min(a.col(ncol), b.col(ncol)),
            vstd::math::max(a.row(ncol), b.row(ncol)),
            vstd::math::max(a.col(ncol), b.col(ncol)),
        )
    }

    /// The smallest rectangle that holds both `self` and `other`.
    pub open spec fn joined(self, ncol: usize, other: Self) -> Self {
        Self::with_edges(
            ncol,
            vstd::math::min(self.top(ncol), other.top(ncol)),
            vstd::math::min(self.left(ncol), other.left(ncol)),
            vstd::math::max(self.bottom(ncol), other.bottom(ncol)),
            vstd::math::max(self.right(ncol), other.right(ncol)),
        )
    }

    /// The bottom-right cell of the rectangle with the given bottom row fits a `usize`
    /// whatever its right column is.
    pub open spec fn row_fits(ncol: usize, bottom: int) -> bool {
        linear(ncol as int, bottom, ncol as int - 1) <= usize::MAX
    }

    /// Whether the cell at `row`, `col` lies inside the rectangle.
    pub fn contains(&self, ncol: usize, row: VisRowPos, col: VisColumnPos) -> (b: bool)
        requires
            ncol > 0,
        ensures
            b == self.covers(ncol, row.0 as int, col.0 as int),
    {
        let (top, left) = self.0.row_col(ncol);
        let (bottom, right) = self.1.row_col(ncol);

        row.0 >= top.0 && row.0 <= bottom.0 && col.0 >= left.0 && col.0 <= right.0
    }

    /// Whether `other` lies inside the rectangle.
    pub fn contains_rect(&self, ncol: usize, other: Self) -> (b: bool)
        requires
            ncol > 0,
        ensures
            b == self.covers_rect(ncol, other),
    {
        let (top, left) = self.0.row_col(ncol);
        let (bottom, right) = self.1.row_col(ncol);

        let (other_top, other_left) = other.0.row_col(ncol);
        let (other_bottom, other_right) = other.1.row_col(ncol);

        other_top.0 >= top.0 && other_bottom.0 <= bottom.0 && other_left.0 >= left.0
            && other_right.0 <= right.0
    }

    /// The smallest rectangle that holds the two cells, whichever corners they are.
    pub fn from_points(ncol: usize, a: VisLinearIdx, b: VisLinearIdx) -> (sel: Self)
        requires
            ncol > 0,
            Self::row_fits(ncol, vstd::math::max(a.row(ncol), b.row(ncol))),
        ensures
            sel == Self::spanning(ncol, a, b),
            sel.top(ncol) == vstd::math::min(a.row(ncol), b.row(ncol)),
            sel.left(ncol) == vstd::math::min(a.col(ncol), b.col(ncol)),
            sel.bottom(ncol) == vstd::math::max(a.row(ncol), b.row(ncol)),
            sel.right(ncol) == vstd::math::max(a.col(ncol), b.col(ncol)),
    {
        let (a_r, a_c) = a.row_col(ncol);
        let (b_r, b_c) = b.row_col(ncol);

        let top: usize = if a_r.0 <= b_r.0 { a_r.0 } else { b_r.0 };
        let bottom: usize = if a_r.0 <= b_r.0 { b_r.0 } else { a_r.0 };
        let left: usize = if a_c.0 <= b_c.0 { a_c.0 } else { b_c.0 };
        let right: usize = if a_c.0 <= b_c.0 { b_c.0 } else { a_c.0 };

        proof {
            let n = ncol as int;
            lemma_linear_monotonic(n, top as int, left as int, bottom as int, right as int);
            lemma_linear_monotonic(n, bottom as int, right as int, bottom as int, n - 1);
            lemma_linear_monotonic(n, 0, 0, top as int, left as int);
            lemma_linear_monotonic(n, 0, 0, top as int, 0);
            lemma_linear_monotonic(n, 0, 0, bottom as int, 0);
            lemma_linear_monotonic(n, top as int, 0, bottom as int, 0);
            lemma_linear_row_col(n, top as int, left as int);
            lemma_linear_row_col(n, bottom as int, right as int);
        }
        Self(VisLinearIdx(top * ncol + left), VisLinearIdx(bottom * ncol + right))
    }

    /// Whether the rectangle is a single cell.
    pub fn is_point(&self) -> (b: bool)
        ensures
            b == (self.0 == self.1),
    {
        self.0 == self.1
    }

    /// The smallest rectangle that holds both rectangles.
    pub fn union(&self, ncol: usize, other: Self) -> (sel: Self)
        requires
            ncol > 0,
            Self::row_fits(ncol, vstd::math::max(self.bottom(ncol), other.bottom(ncol))),
        ensures
            sel == self.joined(ncol, other),
            sel.top(ncol) == vstd::math::min(self.top(ncol), other.top(ncol)),
            sel.left(ncol) == vstd::math::min(self.left(ncol), other.left(ncol)),
            sel.bottom(ncol) == vstd::math::max(self.bottom(ncol), other.bottom(ncol)),
            sel.right(ncol) == vstd::math::max(self.right(ncol), other.right(ncol)),
    {
        let (top, left) = self.0.row_col(ncol);
        let (bottom, right) = self.1.row_col(ncol);

        let (other_top, other_left) = other.0.row_col(ncol);
        let (other_bottom, other_right) = other.1.row_col(ncol);

        let top: usize = if top.0 <= other_top.0 { top.0 } else { other_top.0 };
        let left: usize = if left.0 <= other_left.0 { left.0 } else { other_left.0 };
        let bottom: usize = if bottom.0 >= other_bottom.0 { bottom.0 } else { other_bottom.0 };
        let right: usize = if right.0 >= other_right.0 { right.0 } else { other_right.0 };

        proof {
            let n = ncol as int;
            lemma_linear_monotonic(n, bottom as int, right as int, bottom as int, n - 1);
            lemma_linear_monotonic(n, 0, 0, top as int, left as int);
            lemma_linear_monotonic(n, 0, 0, top as int, 0);
            lemma_linear_monotonic(n, 0, 0, bottom as int, 0);
            lemma_linear_row_col(n, top as int, left as int);
            lemma_linear_row_col(n, bottom as int, right as int);
            if top <= bottom {
                lemma_linear_monotonic(n, top as int, 0, bottom as int, 0);
            }
        }
        Self(VisLinearIdx(top * ncol + left), VisLinearIdx(bottom * ncol + right))
    }

    /// The single cell at `r`, `c`.
    pub fn _from_row_col(ncol: usize, r: VisRowPos, c: VisColumnPos) -> (sel: Self)
        requires
            linear(ncol as int, r.0 as int, c.0 as int) <= usize::MAX,
        ensures
            sel.0.0 == linear(ncol as int, r.0 as int, c.0 as int),
            sel.1 == sel.0,
    {
        let idx = r.linear_index(ncol, c);
        Self(idx, idx)
    }
}

} // verus!
