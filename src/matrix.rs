//! A rectangular grid of cells stored in row-major order, used both for the
//! alignment scores and for the traceback moves.

use vstd::prelude::*;
use vstd::arithmetic::div_mod::lemma_fundamental_div_mod;

use crate::errors::{AlignError, ERR_OUT_OF_BOUNDS};

verus! {

/// A cell value that a grid can rank, so that its largest cell can be found.
pub trait Ranked: Copy {
    /// The place of the value in the order.
    spec fn rank(self) -> int;

    /// Whether `self` ranks strictly above `other`.
    fn outranks(&self, other: &Self) -> (r: bool)
        ensures
            r == (self.rank() > other.rank()),
    ;
}

impl Ranked for i32 {
    open spec fn rank(self) -> int {
        self as int
    }

    fn outranks(&self, other: &i32) -> (r: bool) {
        *self > *other
    }
}

impl Ranked for usize {
    open spec fn rank(self) -> int {
        self as int
    }

    fn outranks(&self, other: &usize) -> (r: bool) {
        *self > *other
    }
}

/// A 2-D grid of `width` columns and `height` rows; cell `(row, col)` is
/// stored at position `row * width + col`.
#[derive(Debug)]
pub struct Matrix<T> {
    /// The cells, row after row.
    values: Vec<T>,
    /// Number of columns.
    width: usize,
    /// Number of rows.
    height: usize,
}

impl<T> View for Matrix<T> {
    type V = Seq<T>;

    /// The cells in row-major order.
    closed spec fn view(&self) -> Seq<T> {
        self.values@
    }
}

impl<T> Matrix<T> {
    /// Number of columns.
    pub closed spec fn width(&self) -> nat {
        self.width as nat
    }

    /// Number of rows.
    pub closed spec fn height(&self) -> nat {
        self.height as nat
    }

    /// The storage holds exactly one cell per (row, column) pair.
    pub open spec fn wf(&self) -> bool {
        self@.len() == self.width() * self.height()
    }

    /// Whether `(row, col)` names a cell of the grid.
    pub open spec fn in_grid(&self, row: int, col: int) -> bool {
        0 <= row < self.height() && 0 <= col < self.width()
    }

    /// The storage position that the address `(row, col)` computes to.
    pub open spec fn flat(&self, row: int, col: int) -> int {
        row * self.width() + col
    }

    /// The value of cell `(row, col)`.
    pub open spec fn at(&self, row: int, col: int) -> T {
        self@[self.flat(row, col)]
    }

    /// Number of cells in the storage.
    pub fn len(&self) -> (r: usize)
        ensures
            r == self@.len(),
    {
        self.values.len()
    }

    /// Storage position of `(row, col)`, or `None` when computing it overflows.
    fn index(&self, row: usize, col: usize) -> (r: Option<usize>)
        ensures
            r matches Some(k) ==> k == self.flat(row as int, col as int),
            r is None ==> self.flat(row as int, col as int) > usize::MAX,
    {
        match row.checked_mul(self.width) {
            Some(base) => base.checked_add(col),
            None => {
                proof {
                    assert(row * self.width + col >= row * self.width) by (nonlinear_arith)
                        requires
                            col >= 0,
                    ;
                }
                None
            },
        }
    }
}

impl<T: Copy + Default> Matrix<T> {
    /// A grid of `width` columns and `height` rows, every cell holding the
    /// default value of `T`.
    pub fn new(width: usize, height: usize) -> (r: Self)
        requires
            width * height <= usize::MAX,
        ensures
            r.wf(),
            r.width() == width,
            r.height() == height,
            forall|k: int| 0 <= k < r@.len() ==> call_ensures(T::default, (), #[trigger] r@[k]),
            forall|k: int, l: int| 0 <= k < r@.len() && 0 <= l < r@.len() ==> #[trigger] r@[k] == #[trigger] r@[l],
    {
        let n: usize = width * height;
        let fill = T::default();
        let mut values: Vec<T> = Vec::new();
        let mut k: usize = 0;
        while k < n
            invariant
                k <= n,
                values@.len() == k,
                call_ensures(T::default, (), fill),
                forall|l: int| 0 <= l < k ==> values@[l] == fill,
            decreases n - k,
        {
            values.push(fill);
            k = k + 1;
        }
        Matrix { values, width, height }
    }

    /// The value at `(row, col)`, or `OutOfBounds` when the computed storage
    /// position lies outside the storage.
    pub fn get(&self, row: usize, col: usize) -> (r: Result<&T, AlignError>)
        ensures
            r is Ok <==> self.flat(row as int, col as int) < self@.len(),
            r matches Ok(v) ==> *v == self.at(row as int, col as int),
            r matches Err(e) ==> e == AlignError::OutOfBounds,
    {
        let len = self.values.len();
        match self.index(row, col) {
            Some(k) => {
                if k < len {
                    Ok(&self.values[k])
                } else {
                    Err(ERR_OUT_OF_BOUNDS)
                }
            },
            None => Err(ERR_OUT_OF_BOUNDS),
        }
    }

    /// Overwrites the value at `(row, col)` with `new`, or fails with
    /// `OutOfBounds` as `get` does, leaving the grid unchanged.
    pub fn set(&mut self, row: usize, col: usize, new: T) -> (r: Result<(), AlignError>)
        ensures
            final(self).width() == old(self).width(),
            final(self).height() == old(self).height(),
            r is Ok <==> old(self).flat(row as int, col as int) < old(self)@.len(),
            r is Ok ==> final(self)@ == old(self)@.update(old(self).flat(row as int, col as int), new),
            r matches Err(e) ==> e == AlignError::OutOfBounds && final(self)@ == old(self)@,
            old(self).wf() && old(self).in_grid(row as int, col as int) ==> forall|i: int, j: int|
                #[trigger] final(self).in_grid(i, j) ==> final(self).at(i, j) == (if i == row && j == col {
                    new
                } else {
                    old(self).at(i, j)
                }),
    {
        let len = self.values.len();
        proof {
            if self.wf() && self.in_grid(row as int, col as int) {
                lemma_flat_in_range(self.width() as int, self.height() as int, row as int, col as int);
            }
        }
        match self.index(row, col) {
            Some(k) => {
                if k < len {
                    self.values.set(k, new);
                    proof {
                        if old(self).wf() && old(self).in_grid(row as int, col as int) {
                            assert forall|i: int, j: int| #[trigger] self.in_grid(i, j) implies self.at(i, j) == (if i == row && j == col {
                                new
                            } else {
                                old(self).at(i, j)
                            }) by {
                                lemma_flat_order(self.width() as int, i, j, row as int, col as int);
                                lemma_flat_in_range(self.width() as int, self.height() as int, i, j);
                            }
                        }
                    }
                    Ok(())
                } else {
                    Err(ERR_OUT_OF_BOUNDS)
                }
            },
            None => Err(ERR_OUT_OF_BOUNDS),
        }
    }
}

impl<T: Ranked> Matrix<T> {
    /// The (row, column) of the largest cell; among equal largest cells, the
    /// first in row-major order.
    pub fn max_index(&self) -> (r: (usize, usize))
        requires
            self.wf(),
            self@.len() > 0,
        ensures
            self.in_grid(r.0 as int, r.1 as int),
            forall|i: int, j: int| #[trigger] self.in_grid(i, j) ==> self.at(i, j).rank() <= self.at(r.0 as int, r.1 as int).rank(),
            forall|i: int, j: int| #[trigger] self.in_grid(i, j) && (i < r.0 || (i == r.0 && j < r.1))
                ==> self.at(i, j).rank() < self.at(r.0 as int, r.1 as int).rank(),
    {
        let n = self.values.len();
        let mut best: usize = 0;
        let mut k: usize = 1;
        while k < n
            invariant
                n == self@.len(),
                1 <= k <= n,
                best < k,
                forall|l: int| 0 <= l < k ==> #[trigger] self@[l].rank() <= self@[best as int].rank(),
                forall|l: int| 0 <= l < best ==> #[trigger] self@[l].rank() < self@[best as int].rank(),
            decreases n - k,
        {
            if self.values[k].outranks(&self.values[best]) {
                best = k;
            }
            k = k + 1;
        }
        let w = self.width;
        proof {
            if w == 0 {
                assert(self.width() * self.height() == 0) by (nonlinear_arith)
                    requires
                        self.width() == 0,
                ;
            }
            lemma_fundamental_div_mod(best as int, w as int);
            lemma_row_below_height(w as int, self.height() as int, best as int);
            assert forall|i: int, j: int| #[trigger] self.in_grid(i, j) implies
                self.at(i, j).rank() <= self.at((best / w) as int, (best % w) as int).rank()
                && ((i < best / w || (i == best / w && j < best % w))
                    ==> self.at(i, j).rank() < self.at((best / w) as int, (best % w) as int).rank()) by {
                lemma_flat_in_range(w as int, self.height() as int, i, j);
                lemma_flat_order(w as int, i, j, (best / w) as int, (best % w) as int);
            }
        }
        (best / w, best % w)
    }
}

/// Every cell of a well-formed grid has its own position in the storage.
pub proof fn lemma_cell_in_storage<T>(m: &Matrix<T>, row: int, col: int)
    requires
        m.wf(),
        m.in_grid(row, col),
    ensures
        0 <= m.flat(row, col) < m@.len(),
{
    lemma_flat_in_range(m.width() as int, m.height() as int, row, col);
}

/// Every storage position of a well-formed grid is the position of a cell.
pub proof fn lemma_storage_cell<T>(m: &Matrix<T>, k: int)
    requires
        m.wf(),
        0 <= k < m@.len(),
    ensures
        m.in_grid(k / (m.width() as int), k % (m.width() as int)),
        m.flat(k / (m.width() as int), k % (m.width() as int)) == k,
{
    let w = m.width() as int;
    if w == 0 {
        assert(m.width() * m.height() == 0) by (nonlinear_arith)
            requires
                m.width() == 0,
        ;
    }
    lemma_fundamental_div_mod(k, w);
    lemma_row_below_height(w, m.height() as int, k);
    assert(0 <= k / w) by (nonlinear_arith)
        requires
            0 <= k,
            0 < w,
    ;
}

/// Two well-formed grids of one shape that agree on every cell have the same storage.
pub proof fn lemma_same_cells<T>(m1: &Matrix<T>, m2: &Matrix<T>)
    requires
        m1.wf(),
        m2.wf(),
        m1.width() == m2.width(),
        m1.height() == m2.height(),
        forall|i: int, j: int| #[trigger] m1.in_grid(i, j) ==> m1.at(i, j) == m2.at(i, j),
    ensures
        m1@ == m2@,
{
    assert forall|k: int| 0 <= k < m1@.len() implies m1@[k] == m2@[k] by {
        lemma_storage_cell(m1, k);
    }
    assert(m1@ =~= m2@);
}

/// A cell's storage position lies inside a storage of `width * height`.
proof fn lemma_flat_in_range(width: int, height: int, row: int, col: int)
    requires
        0 <= row < height,
        0 <= col < width,
    ensures
        0 <= row * width + col < width * height,
{
    assert(row * width + col < width * height) by (nonlinear_arith)
        requires 0 <= row < height, 0 <= col < width;
    assert(0 <= row * width) by (nonlinear_arith)
        requires 0 <= row, 0 <= width;
}

/// Within one width, storage order is row-major order of the addresses.
proof fn lemma_flat_order(width: int, row: int, col: int, row2: int, col2: int)
    requires
        0 <= row,
        0 <= row2,
        0 <= col < width,
        0 <= col2 < width,
    ensures
        row * width + col < row2 * width + col2 <==> (row < row2 || (row == row2 && col < col2)),
        row * width + col == row2 * width + col2 <==> (row == row2 && col == col2),
{
    if row < row2 {
        assert(row * width + col < row2 * width + col2) by (nonlinear_arith)
            requires row < row2, 0 <= col < width, 0 <= col2;
    } else if row2 < row {
        assert(row2 * width + col2 < row * width + col) by (nonlinear_arith)
            requires row2 < row, 0 <= col2 < width, 0 <= col;
    }
}

/// The row of a storage position inside the storage is below the height.
proof fn lemma_row_below_height(width: int, height: int, k: int)
    requires
        0 <= k < width * height,
        0 < width,
    ensures
        k / width < height,
{
    lemma_fundamental_div_mod(k, width);
    assert(k / width < height) by (nonlinear_arith)
        requires
            0 <= k < width * height,
            0 < width,
            k == width * (k / width) + k % width,
            0 <= k % width;
}

} // verus!
