use vstd::prelude::*;

use crate::fuzzy_eq::FuzzyEq;

verus! {

/// A square grid of `D` by `D` entries, addressed by row and then column.
///
/// The structure of the grid (building, reading, writing, transposing and
/// cutting out minors) is independent of what the entries are.
#[derive(Clone, Copy, PartialEq, Eq, Debug)]
pub struct Matrix<T, const D: usize>(pub [[T; D]; D]);

/// The index, in the larger grid, of the `i`th row (or column) of a minor
/// that leaves out row (or column) `k`.
pub open spec fn skip_index(i: int, k: int) -> int {
    if i >= k {
        i + 1
    } else {
        i
    }
}

/// The index in the larger grid of the `i`th index of the smaller one.
fn skip_to(i: usize, k: usize) -> (r: usize)
    requires
        i < usize::MAX,
    ensures
        r == skip_index(i as int, k as int),
{
    if i >= k {
        i + 1
    } else {
        i
    }
}

impl<T: Copy, const D: usize> Matrix<T, D> {
    /// The entry at `row`, `col`.
    pub open spec fn entry(&self, row: int, col: int) -> T {
        self.0[row][col]
    }

    /// A grid whose every entry is `value`.
    pub fn new(value: T) -> (m: Self)
        ensures
            forall|r: int, c: int| 0 <= r < D && 0 <= c < D ==> #[trigger] m.entry(r, c) == value,
    {
        let row: [T; D] = [value; D];
        Matrix([row; D])
    }

    /// The number of rows, which is also the number of columns.
    pub fn size(&self) -> (n: usize)
        ensures
            n == D,
    {
        D
    }

    /// The entry at `row`, `col`.
    pub fn at(&self, row: usize, col: usize) -> (v: T)
        requires
            row < D,
            col < D,
        ensures
            v == self.entry(row as int, col as int),
    {
        let r: [T; D] = self.0[row];
        r[col]
    }

    /// Replaces the entry at `row`, `col` and keeps every other.
    pub fn set(&mut self, row: usize, col: usize, value: T)
        requires
            row < D,
            col < D,
        ensures
            final(self).entry(row as int, col as int) == value,
            forall|r: int, c: int|
                0 <= r < D && 0 <= c < D && (r != row || c != col) ==> #[trigger] final(self).entry(r, c) == old(self).entry(r, c),
    {
        let mut r: [T; D] = self.0[row];
        r[col] = value;
        self.0[row] = r;
    }

    /// The grid mirrored across its main diagonal.
    pub fn transpose(&self) -> (m: Self)
        ensures
            forall|r: int, c: int|
                0 <= r < D && 0 <= c < D ==> #[trigger] m.entry(r, c) == self.entry(c, r),
    {
        let mut m = *self;
        let mut row: usize = 0;
        while row < D
            invariant
                row <= D,
                forall|r: int, c: int|
                    0 <= r < D && 0 <= c < row ==> #[trigger] m.entry(r, c) == self.entry(c, r),
            decreases D - row,
        {
            let mut col: usize = 0;
            while col < D
                invariant
                    row < D,
                    col <= D,
                    forall|r: int, c: int|
                        0 <= r < D && 0 <= c < row ==> #[trigger] m.entry(r, c) == self.entry(
                            c,
                            r,
                        ),
                    forall|r: int| 0 <= r < col ==> #[trigger] m.entry(r, row as int) == self.entry(row as int, r),
                decreases D - col,
            {
                let v = self.at(row, col);
                m.set(col, row, v);
                col = col + 1;
            }
            row = row + 1;
        }
        m
    }
}

impl<T: Copy> Matrix<T, 3> {
    /// The 2 by 2 grid left when `row` and `col` are taken out.
    pub fn submatrix(&self, row: usize, col: usize) -> (m: Matrix<T, 2>)
        requires
            row < 3,
            col < 3,
        ensures
            forall|r: int, c: int|
                0 <= r < 2 && 0 <= c < 2 ==> #[trigger] m.entry(r, c) == self.entry(
                    skip_index(r, row as int),
                    skip_index(c, col as int),
                ),
    {
        let mut m: Matrix<T, 2> = Matrix::new(self.at(0, 0));
        let mut r: usize = 0;
        while r < 2
            invariant
                r <= 2,
                row < 3,
                col < 3,
                forall|i: int, j: int|
                    0 <= i < r && 0 <= j < 2 ==> #[trigger] m.entry(i, j) == self.entry(
                        skip_index(i, row as int),
                        skip_index(j, col as int),
                    ),
            decreases 2 - r,
        {
            let mut c: usize = 0;
            while c < 2
                invariant
                    r < 2,
                    c <= 2,
                    row < 3,
                    col < 3,
                    forall|i: int, j: int|
                        0 <= i < r && 0 <= j < 2 ==> #[trigger] m.entry(i, j) == self.entry(
                            skip_index(i, row as int),
                            skip_index(j, col as int),
                        ),
                    forall|j: int|
                        0 <= j < c ==> #[trigger] m.entry(r as int, j) == self.entry(
                            skip_index(r as int, row as int),
                            skip_index(j, col as int),
                        ),
                decreases 2 - c,
            {
                let v = self.at(skip_to(r, row), skip_to(c, col));
                m.set(r, c, v);
                c = c + 1;
            }
            r = r + 1;
        }
        m
    }
}

impl<T: Copy> Matrix<T, 4> {
    /// The 3 by 3 grid left when `row` and `col` are taken out.
    pub fn submatrix(&self, row: usize, col: usize) -> (m: Matrix<T, 3>)
        requires
            row < 4,
            col < 4,
        ensures
            forall|r: int, c: int|
                0 <= r < 3 && 0 <= c < 3 ==> #[trigger] m.entry(r, c) == self.entry(
                    skip_index(r, row as int),
                    skip_index(c, col as int),
                ),
    {
        let mut m: Matrix<T, 3> = Matrix::new(self.at(0, 0));
        let mut r: usize = 0;
        while r < 3
            invariant
                r <= 3,
                row < 4,
                col < 4,
                forall|i: int, j: int|
                    0 <= i < r && 0 <= j < 3 ==> #[trigger] m.entry(i, j) == self.entry(
                        skip_index(i, row as int),
                        skip_index(j, col as int),
                    ),
            decreases 3 - r,
        {
            let mut c: usize = 0;
            while c < 3
                invariant
                    r < 3,
                    c <= 3,
                    row < 4,
                    col < 4,
                    forall|i: int, j: int|
                        0 <= i < r && 0 <= j < 3 ==> #[trigger] m.entry(i, j) == self.entry(
                            skip_index(i, row as int),
                            skip_index(j, col as int),
                        ),
                    forall|j: int|
                        0 <= j < c ==> #[trigger] m.entry(r as int, j) == self.entry(
                            skip_index(r as int, row as int),
                            skip_index(j, col as int),
                        ),
                decreases 3 - c,
            {
                let v = self.at(skip_to(r, row), skip_to(c, col));
                m.set(r, c, v);
                c = c + 1;
            }
            r = r + 1;
        }
        m
    }
}

impl<T: Copy + FuzzyEq<T>, const D: usize> FuzzyEq<Matrix<T, D>> for Matrix<T, D> {
    /// Entry by entry.
    fn fuzzy_eq(&self, other: &Matrix<T, D>) -> bool {
        let mut row: usize = 0;
        while row < D
            invariant
                row <= D,
            decreases D - row,
        {
            let mut col: usize = 0;
            while col < D
                invariant
                    row < D,
                    col <= D,
                decreases D - col,
            {
                if !self.at(row, col).fuzzy_eq(&other.at(row, col)) {
                    return false;
                }
                col = col + 1;
            }
            row = row + 1;
        }
        true
    }
}

} // verus!
