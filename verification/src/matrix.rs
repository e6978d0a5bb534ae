use crate::fill::{clone_keeps_value, flood_fill, CellGrid};
use crate::region::{flood_filled, set_cell};
use vstd::laws_eq::obeys_concrete_eq;
use vstd::prelude::*;
use vstd::std_specs::cmp::{PartialEqSpec, PartialEqSpecImpl};

verus! {

/// A dense grid of `row() * col()` cells, stored row by row.
///
/// The view is the grid as a sequence of rows: `m@[i][j]` is the cell in
/// row `i`, column `j`.
#[derive(Debug)]
pub struct Matrix<T> {
    m_row: usize,
    m_col: usize,
    m_data: Vec<T>,
}

/// The linear position of cell `(i, j)` lies inside the storage.
pub(crate) proof fn lemma_cell_index_in_range(i: int, j: int, row: int, col: int)
    by (nonlinear_arith)
    requires
        0 <= i < row,
        0 <= j < col,
    ensures
        0 <= i * col,
        i * col + j < row * col,
{
}

/// A cell of row `r` lies before, inside or after the stretch of row `i`
/// according to whether `r` is below, equal to or above `i`.
proof fn lemma_cell_index_rows_apart(r: int, c: int, i: int, col: int)
    by (nonlinear_arith)
    requires
        0 <= c < col,
    ensures
        r < i ==> r * col + c < i * col,
        r == i ==> r * col + c == i * col + c,
        r > i ==> r * col + c >= i * col + col,
{
}

/// Row `i` occupies the positions from `i * col` up to `i * col + col`.
proof fn lemma_row_in_range(i: int, row: int, col: int)
    by (nonlinear_arith)
    requires
        0 <= i < row,
        0 <= col,
    ensures
        0 <= i * col,
        i * col + col <= row * col,
{
}

/// Two cells share a linear position only if they are the same cell.
pub(crate) proof fn lemma_cell_index_injective(i1: int, j1: int, i2: int, j2: int, col: int)
    by (nonlinear_arith)
    requires
        0 <= j1 < col,
        0 <= j2 < col,
        i1 * col + j1 == i2 * col + j2,
    ensures
        i1 == i2,
        j1 == j2,
{
}

/// The rows that a row-by-row storage `data` of `row * col` cells holds.
pub open spec fn grid_of<T>(data: Seq<T>, row: nat, col: nat) -> Seq<Seq<T>> {
    Seq::new(row, |i: int| Seq::new(col, |j: int| data[i * col + j]))
}

/// Writing one storage position changes exactly the cell that lives there.
proof fn lemma_grid_of_update<T>(data: Seq<T>, row: nat, col: nat, i: int, j: int, v: T)
    requires
        data.len() == row * col,
        0 <= i < row,
        0 <= j < col,
    ensures
        0 <= i * col + j < data.len(),
        grid_of(data.update(i * col + j, v), row, col) == set_cell(
            grid_of(data, row, col),
            i,
            j,
            v,
        ),
{
    lemma_cell_index_in_range(i, j, row as int, col as int);
    let a = grid_of(data.update(i * col + j, v), row, col);
    let b = set_cell(grid_of(data, row, col), i, j, v);
    assert forall|r: int| 0 <= r < row implies #[trigger] a[r] =~= b[r] by {
        assert forall|c: int| 0 <= c < col implies #[trigger] a[r][c] == b[r][c] by {
            lemma_cell_index_in_range(r, c, row as int, col as int);
            if r * col + c == i * col + j {
                lemma_cell_index_injective(r, c, i, j, col as int);
            }
        }
    }
    assert(a =~= b);
}

/// Replacing the stretch of storage that holds row `i` replaces that row.
proof fn lemma_grid_of_row_update<T>(data: Seq<T>, row: nat, col: nat, i: int, s: Seq<T>)
    requires
        data.len() == row * col,
        0 <= i < row,
        s.len() == col,
    ensures
        0 <= i * col,
        i * col + col <= data.len(),
        grid_of(
            data.subrange(0, i * col) + s + data.subrange(i * col + col, data.len() as int),
            row,
            col,
        ) == grid_of(data, row, col).update(i, s),
{
    lemma_row_in_range(i, row as int, col as int);
    let d = data.subrange(0, i * col) + s + data.subrange(i * col + col, data.len() as int);
    let a = grid_of(d, row, col);
    let b = grid_of(data, row, col).update(i, s);
    assert forall|r: int| 0 <= r < row implies #[trigger] a[r] =~= b[r] by {
        assert forall|c: int| 0 <= c < col implies #[trigger] a[r][c] == b[r][c] by {
            lemma_cell_index_in_range(r, c, row as int, col as int);
            lemma_cell_index_rows_apart(r, c, i, col as int);
        }
    }
    assert(a =~= b);
}

/// Exchanges two elements of a vector.
fn swap_elements<T>(v: &mut Vec<T>, a: usize, b: usize)
    requires
        a < old(v).len(),
        b < old(v).len(),
    ensures
        final(v)@ == old(v)@.update(a as int, old(v)@[b as int]).update(b as int, old(v)@[a as int]),
{
    if a != b {
        let (lo, hi) = if a < b {
            (a, b)
        } else {
            (b, a)
        };
        let ghost before = v@;
        let whole = v.as_mut_slice();
        let (left, right) = whole.split_at_mut(hi);
        core::mem::swap(&mut left[lo], &mut right[0]);
        assert(v@ =~= before.update(a as int, before[b as int]).update(b as int, before[a as int]));
    } else {
        assert(v@ =~= old(v)@.update(a as int, old(v)@[b as int]).update(b as int, old(v)@[a as int]));
    }
}

impl<T> View for Matrix<T> {
    type V = Seq<Seq<T>>;

    /// The grid as rows of cells.
    open spec fn view(&self) -> Seq<Seq<T>> {
        grid_of(self.data()@, self.row() as nat, self.col() as nat)
    }
}

impl<T> Matrix<T> {
    pub closed spec fn spec_row(&self) -> usize {
        self.m_row
    }

    pub closed spec fn spec_col(&self) -> usize {
        self.m_col
    }

    pub closed spec fn spec_data(&self) -> &Vec<T> {
        &self.m_data
    }

    /// The storage holds exactly one element per cell.
    pub open spec fn wf(&self) -> bool {
        self.data()@.len() == self.row() * self.col()
    }

    /// Creates a matrix of `row` rows and `col` columns whose cells are all
    /// clones of `value`.
    pub fn new(row: usize, col: usize, value: T) -> (m: Self) where T: Clone
        requires
            row * col <= usize::MAX,
        ensures
            m.wf(),
            m.row() == row,
            m.col() == col,
            forall|i: int, j: int|
                0 <= i < row && 0 <= j < col ==> cloned(value, #[trigger] m@[i][j]),
            clone_keeps_value::<T>() ==> forall|i: int, j: int|
                0 <= i < row && 0 <= j < col ==> #[trigger] m@[i][j] == value,
    {
        let m = Matrix { m_row: row, m_col: col, m_data: vec![value; row * col] };
        proof {
            assert forall|i: int, j: int| 0 <= i < row && 0 <= j < col implies cloned(
                value,
                #[trigger] m@[i][j],
            ) by {
                lemma_cell_index_in_range(i, j, row as int, col as int);
            }
        }
        m
    }

    /// Number of rows.
    #[verifier::when_used_as_spec(spec_row)]
    pub fn row(&self) -> (r: usize)
        ensures
            r == self.row(),
    {
        self.m_row
    }

    /// Number of columns.
    #[verifier::when_used_as_spec(spec_col)]
    pub fn col(&self) -> (c: usize)
        ensures
            c == self.col(),
    {
        self.m_col
    }

    /// The cells of row `i`, left to right.
    pub fn row_at(&self, i: usize) -> (r: &[T])
        requires
            self.wf(),
            i < self.row(),
        ensures
            r@ == self@[i as int],
    {
        proof {
            lemma_row_in_range(i as int, self.m_row as int, self.m_col as int);
            assert(self.m_data.len() == self.m_row * self.m_col);
        }
        let start = i * self.m_col;
        let end = start + self.m_col;
        let r = &self.m_data[start..end];
        assert(r@ =~= self@[i as int]);
        r
    }

    /// The cell in row `i`, column `j`.
    pub fn at(&self, i: usize, j: usize) -> (e: &T)
        requires
            self.wf(),
            i < self.row(),
            j < self.col(),
        ensures
            *e == self@[i as int][j as int],
    {
        proof {
            lemma_cell_index_in_range(i as int, j as int, self.m_row as int, self.m_col as int);
            assert(self.m_data.len() == self.m_row * self.m_col);
        }
        let coord = i * self.m_col + j;
        &self.m_data[coord]
    }

    /// The cell in row `i`, column `j`, for writing. Nothing else changes.
    pub fn at_mut(&mut self, i: usize, j: usize) -> (e: &mut T)
        requires
            old(self).wf(),
            i < old(self).row(),
            j < old(self).col(),
        ensures
            *e == old(self)@[i as int][j as int],
            final(self).wf(),
            final(self).row() == old(self).row(),
            final(self).col() == old(self).col(),
            final(self)@ == set_cell(old(self)@, i as int, j as int, *final(e)),
    {
        proof {
            lemma_cell_index_in_range(i as int, j as int, self.m_row as int, self.m_col as int);
            assert(self.m_data.len() == self.m_row * self.m_col);
        }
        let coord = i * self.m_col + j;
        proof {
            assert forall|v: T|
                grid_of(
                    #[trigger] self.m_data@.update(coord as int, v),
                    self.m_row as nat,
                    self.m_col as nat,
                ) == set_cell(self@, i as int, j as int, v) by {
                lemma_grid_of_update(
                    self.m_data@,
                    self.m_row as nat,
                    self.m_col as nat,
                    i as int,
                    j as int,
                    v,
                );
            }
        }
        &mut self.m_data[coord]
    }

    /// The cells of row `i`, for writing. The other rows do not change.
    pub fn row_at_mut(&mut self, i: usize) -> (r: &mut [T])
        requires
            old(self).wf(),
            i < old(self).row(),
        ensures
            r@ == old(self)@[i as int],
            final(self).row() == old(self).row(),
            final(self).col() == old(self).col(),
            final(r)@.len() == old(self).col() ==> final(self).wf() && final(self)@ == old(
                self,
            )@.update(i as int, final(r)@),
    {
        proof {
            lemma_row_in_range(i as int, self.m_row as int, self.m_col as int);
            assert(self.m_data.len() == self.m_row * self.m_col);
        }
        let start = i * self.m_col;
        let ghost before = self.m_data@;
        let ghost row = self.m_row as nat;
        let ghost col = self.m_col as nat;
        let ghost head = before.subrange(0, start as int);
        let ghost rest = before.subrange(start as int, before.len() as int).subrange(
            col as int,
            before.len() - start,
        );
        proof {
            assert forall|s: Seq<T>| s.len() == col implies grid_of(
                #[trigger] (head + (s + rest)),
                row,
                col,
            ) == grid_of(before, row, col).update(i as int, s) by {
                lemma_grid_of_row_update(before, row, col, i as int, s);
                assert(head + (s + rest) =~= before.subrange(0, start as int) + s
                    + before.subrange(start + col, before.len() as int));
            }
        }
        let whole = self.m_data.as_mut_slice();
        let (_, tail) = whole.split_at_mut(start);
        let (r, _) = tail.split_at_mut(self.m_col);
        assert(r@ =~= before.subrange(start as int, start + col));
        assert(r@ =~= grid_of(before, row, col)[i as int]);
        r
    }

    /// Exchanges the cells `(i1, j1)` and `(i2, j2)`. Nothing else changes.
    pub fn swap(&mut self, i1: usize, j1: usize, i2: usize, j2: usize)
        requires
            old(self).wf(),
            i1 < old(self).row(),
            i2 < old(self).row(),
            j1 < old(self).col(),
            j2 < old(self).col(),
        ensures
            final(self).wf(),
            final(self).row() == old(self).row(),
            final(self).col() == old(self).col(),
            final(self)@ == set_cell(
                set_cell(old(self)@, i1 as int, j1 as int, old(self)@[i2 as int][j2 as int]),
                i2 as int,
                j2 as int,
                old(self)@[i1 as int][j1 as int],
            ),
    {
        proof {
            lemma_cell_index_in_range(i1 as int, j1 as int, self.m_row as int, self.m_col as int);
            lemma_cell_index_in_range(i2 as int, j2 as int, self.m_row as int, self.m_col as int);
            assert(self.m_data.len() == self.m_row * self.m_col);
        }
        let coord1 = i1 * self.m_col + j1;
        let coord2 = i2 * self.m_col + j2;
        let ghost before = self.m_data@;
        let ghost row = self.m_row as nat;
        let ghost col = self.m_col as nat;
        swap_elements(&mut self.m_data, coord1, coord2);
        proof {
            let x = before[coord1 as int];
            let y = before[coord2 as int];
            lemma_grid_of_update(before, row, col, i1 as int, j1 as int, y);
            lemma_grid_of_update(before.update(coord1 as int, y), row, col, i2 as int, j2 as int, x);
        }
    }

    /// The cells in storage order: row 0 first, each row left to right.
    #[verifier::when_used_as_spec(spec_data)]
    pub fn data(&self) -> (d: &Vec<T>)
        ensures
            d == self.data(),
    {
        &self.m_data
    }
}

impl<T: Clone> Clone for Matrix<T> {
    /// A matrix of the same size whose cells are clones of this one's cells.
    fn clone(&self) -> (res: Self)
        ensures
            res.row() == self.row(),
            res.col() == self.col(),
            res.data()@.len() == self.data()@.len(),
            forall|k: int|
                0 <= k < self.data()@.len() ==> cloned(self.data()@[k], #[trigger] res.data()@[k]),
            clone_keeps_value::<T>() ==> res.data()@ == self.data()@,
    {
        let res = Matrix { m_row: self.m_row, m_col: self.m_col, m_data: self.m_data.clone() };
        proof {
            if clone_keeps_value::<T>() {
                assert(res.m_data@ =~= self.m_data@);
            }
        }
        res
    }
}

impl<T: PartialEq> PartialEq for Matrix<T> {
    /// The same size and, cell by cell, equal contents.
    fn eq(&self, other: &Self) -> (same: bool) {
        if self.m_row != other.m_row || self.m_col != other.m_col || self.m_data.len()
            != other.m_data.len() {
            return false;
        }
        let mut k: usize = 0;
        while k < self.m_data.len()
            invariant
                k <= self.m_data@.len(),
                self.m_data@.len() == other.m_data@.len(),
                T::obeys_eq_spec() ==> forall|i: int|
                    0 <= i < k ==> (#[trigger] self.m_data@[i]).eq_spec(&other.m_data@[i]),
            decreases self.m_data@.len() - k,
        {
            if self.m_data[k] != other.m_data[k] {
                return false;
            }
            k += 1;
        }
        true
    }
}

impl<T: PartialEq> PartialEqSpecImpl for Matrix<T> {
    open spec fn obeys_eq_spec() -> bool {
        T::obeys_eq_spec()
    }

    open spec fn eq_spec(&self, other: &Self) -> bool {
        &&& self.row() == other.row()
        &&& self.col() == other.col()
        &&& self.data()@.len() == other.data()@.len()
        &&& forall|i: int|
            0 <= i < self.data()@.len() ==> (#[trigger] self.data()@[i]).eq_spec(&other.data()@[i])
    }
}

impl<T: Eq> Eq for Matrix<T> {

}

impl<T> IntoIterator for Matrix<T> {
    type Item = T;

    type IntoIter = std::vec::IntoIter<T>;

    /// Hands the cells out in storage order.
    fn into_iter(self) -> (iter: Self::IntoIter)
        ensures
            iter == vstd::std_specs::vec::spec_into_iter(*self.data()),
    {
        self.m_data.into_iter()
    }
}

impl<T> CellGrid<T> for Matrix<T> {
    open spec fn cells(&self) -> Seq<Seq<T>> {
        self@
    }

    open spec fn grid_wf(&self) -> bool {
        self.wf()
    }

    fn n_rows(&self) -> (n: usize) {
        self.m_row
    }

    fn n_cols(&self) -> (n: usize) {
        self.m_col
    }

    fn read(&self, r: usize, c: usize) -> (v: &T) {
        self.at(r, c)
    }

    fn write(&mut self, r: usize, c: usize, v: T) {
        *self.at_mut(r, c) = v;
    }
}

/// Recolours the region of cell `(i, j)` of `matrix` with `new_e`: the cells
/// that a walk from `(i, j)` reaches over edge-sharing cells holding the value
/// of `(i, j)`. Every other cell stays as it was.
pub fn flood_fill_matrix<T: Eq + Clone>(matrix: &mut Matrix<T>, i: usize, j: usize, new_e: T)
    requires
        old(matrix).wf(),
        i < old(matrix).row(),
        j < old(matrix).col(),
        obeys_concrete_eq::<T>(),
        clone_keeps_value::<T>(),
    ensures
        final(matrix).wf(),
        final(matrix).row() == old(matrix).row(),
        final(matrix).col() == old(matrix).col(),
        final(matrix)@ == flood_filled(old(matrix)@, (i as int, j as int), new_e),
{
    flood_fill(matrix, i, j, new_e);
    proof {
        assert(matrix@.len() == old(matrix)@.len());
        assert(matrix@[0].len() == old(matrix)@[0].len());
    }
}

} // verus!
