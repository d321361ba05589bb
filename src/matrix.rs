//! A dense, row-major matrix over an element type `T`.
use vstd::prelude::*;

use vstd::arithmetic::div_mod::lemma_fundamental_div_mod_converse;

use crate::scalar_fn::{call1, call2, lemma_call1, lemma_call2, pure1, pure2};

verus! {

/// The failures of matrix and network operations.
#[derive(Debug, Clone, Copy, PartialEq, Eq, Structural)]
pub enum MatrixError {
    /// The shapes of the operands do not fit the operation.
    DimensionMismatch,
    /// A row or column index lies outside the matrix.
    IndexOutOfBounds,
    /// A matrix literal could not be read.
    ParseError,
}

/// The mathematical value of a matrix: its shape and its cells in row-major
/// order.
pub struct MatrixModel<T> {
    pub rows: nat,
    pub cols: nat,
    pub cells: Seq<T>,
}

impl<T> MatrixModel<T> {
    /// The number of cells agrees with the shape.
    pub open spec fn wf(self) -> bool {
        self.cells.len() == self.rows * self.cols
    }

    /// The cell in row `r` and column `c`.
    pub open spec fn at(self, r: int, c: int) -> T {
        self.cells[r * self.cols + c]
    }

    pub open spec fn same_shape(self, other: MatrixModel<T>) -> bool {
        self.rows == other.rows && self.cols == other.cols
    }

    /// Each cell combined with the cell at the same place in `other` by `f`.
    pub open spec fn zip_with<F: Fn(T, T) -> T>(self, other: MatrixModel<T>, f: F) -> MatrixModel<T> {
        MatrixModel {
            rows: self.rows,
            cols: self.cols,
            cells: Seq::new(self.cells.len(), |i: int| call2(f, self.cells[i], other.cells[i])),
        }
    }

    /// Each cell replaced by `f` of it.
    pub open spec fn map_cells<F: Fn(T) -> T>(self, f: F) -> MatrixModel<T> {
        MatrixModel {
            rows: self.rows,
            cols: self.cols,
            cells: Seq::new(self.cells.len(), |i: int| call1(f, self.cells[i])),
        }
    }

    /// Each cell replaced by `f` of it and of its row-major index.
    pub open spec fn map_cells_indexed<F: Fn(T, usize) -> T>(self, f: F) -> MatrixModel<T> {
        MatrixModel {
            rows: self.rows,
            cols: self.cols,
            cells: Seq::new(self.cells.len(), |i: int| call2(f, self.cells[i], i as usize)),
        }
    }

    /// The sum of the first `n` products of row `i` of `self` and column `k`
    /// of `other`, accumulated from `zero` in ascending order of the
    /// contraction index by `plus(acc, times(self[i, j], other[j, k]))`.
    pub open spec fn partial_dot<P: Fn(T, T) -> T, M: Fn(T, T) -> T>(
        self,
        other: MatrixModel<T>,
        i: int,
        k: int,
        n: nat,
        zero: T,
        plus: P,
        times: M,
    ) -> T
        decreases n,
    {
        if n == 0 {
            zero
        } else {
            let j = n - 1;
            call2(
                plus,
                self.partial_dot(other, i, k, j as nat, zero, plus, times),
                call2(times, self.at(i, j), other.at(j, k)),
            )
        }
    }

    /// The cell in row `i` and column `k` of the product of `self` and `other`.
    pub open spec fn product_cell<P: Fn(T, T) -> T, M: Fn(T, T) -> T>(
        self,
        other: MatrixModel<T>,
        i: int,
        k: int,
        zero: T,
        plus: P,
        times: M,
    ) -> T {
        self.partial_dot(other, i, k, self.cols, zero, plus, times)
    }

    /// The matrix product of `self` and `other`.
    pub open spec fn product<P: Fn(T, T) -> T, M: Fn(T, T) -> T>(self, other: MatrixModel<T>, zero: T, plus: P, times: M) -> MatrixModel<T> {
        MatrixModel {
            rows: self.rows,
            cols: other.cols,
            cells: Seq::new(
                self.rows * other.cols,
                |p: int| self.product_cell(other, p / other.cols as int, p % other.cols as int, zero, plus, times),
            ),
        }
    }

    /// The transpose of `self`.
    pub open spec fn transposed(self) -> MatrixModel<T> {
        MatrixModel {
            rows: self.cols,
            cols: self.rows,
            cells: Seq::new(self.rows * self.cols, |p: int| self.at(p % self.rows as int, p / self.rows as int)),
        }
    }
}

/// The column vector with the entries of `v`.
pub open spec fn column<T>(v: Seq<T>) -> MatrixModel<T> {
    MatrixModel { rows: v.len(), cols: 1, cells: v }
}

/// The models of a sequence of matrices.
pub open spec fn models<T>(v: Seq<Matrix<T>>) -> Seq<MatrixModel<T>> {
    v.map_values(|m: Matrix<T>| m@)
}

/// The cell `(r, c)` of a `rows` by `cols` matrix lies inside its storage.
pub proof fn lemma_cell_index(r: int, c: int, rows: int, cols: int)
    requires
        0 <= r < rows,
        0 <= c < cols,
    ensures
        0 <= r * cols + c < rows * cols,
{
    assert(0 <= r * cols + c < rows * cols) by (nonlinear_arith)
        requires
            0 <= r < rows,
            0 <= c < cols,
    ;
}

/// Subtracting `b` after adding it gives back `a`, cell by cell, whenever
/// `minus` undoes `plus` on every pair of elements.
pub proof fn lemma_add_then_subtract<T, P: Fn(T, T) -> T, M: Fn(T, T) -> T>(
    a: MatrixModel<T>,
    b: MatrixModel<T>,
    plus: P,
    minus: M,
)
    requires
        a.wf(),
        b.wf(),
        a.same_shape(b),
        forall|x: T, y: T| #[trigger] call2(minus, call2(plus, x, y), y) == x,
    ensures
        a.zip_with(b, plus).same_shape(b),
        a.zip_with(b, plus).zip_with(b, minus) == a,
{
    let s = a.zip_with(b, plus);
    assert(s.zip_with(b, minus).cells =~= a.cells) by {
        assert forall|i: int| 0 <= i < a.cells.len() implies #[trigger] s.zip_with(b, minus).cells[i] == a.cells[i] by {
            assert(call2(minus, call2(plus, a.cells[i], b.cells[i]), b.cells[i]) == a.cells[i]);
        }
    }
}

/// The product of an `m` x `n` and an `n` x `p` matrix is a well-formed
/// `m` x `p` matrix.
pub proof fn lemma_product_shape<T, P: Fn(T, T) -> T, M: Fn(T, T) -> T>(a: MatrixModel<T>, b: MatrixModel<T>, zero: T, plus: P, times: M)
    requires
        a.cols == b.rows,
    ensures
        a.product(b, zero, plus, times).rows == a.rows,
        a.product(b, zero, plus, times).cols == b.cols,
        a.product(b, zero, plus, times).wf(),
{
}

/// A dense matrix with row-major storage: the cell in row `r` and column `c`
/// is stored at index `r * cols + c`.
pub struct Matrix<T> {
    data: Vec<T>,
    rows_count: usize,
    cols_count: usize,
}

impl<T> View for Matrix<T> {
    type V = MatrixModel<T>;

    closed spec fn view(&self) -> MatrixModel<T> {
        MatrixModel { rows: self.rows_count as nat, cols: self.cols_count as nat, cells: self.data@ }
    }
}

impl<T: Copy> Matrix<T> {
    /// The empty 0 x 0 matrix.
    pub fn new() -> (r: Matrix<T>)
        ensures
            r@.rows == 0,
            r@.cols == 0,
            r@.cells.len() == 0,
    {
        Matrix { data: Vec::new(), rows_count: 0, cols_count: 0 }
    }

    /// A `rows_count` x `cols_count` matrix holding a copy of `data`.
    pub fn from_vec(data: &Vec<T>, rows_count: usize, cols_count: usize) -> (r: Matrix<T>)
        requires
            data.len() == rows_count * cols_count,
        ensures
            r@.rows == rows_count,
            r@.cols == cols_count,
            r@.cells == data@,
            r@.wf(),
    {
        Matrix { data: copy_vec(data), rows_count, cols_count }
    }

    /// A `rows_count` x `cols_count` matrix holding `data` as its cells,
    /// whether or not their number agrees with the shape.
    pub(crate) fn from_parts(data: Vec<T>, rows_count: usize, cols_count: usize) -> (r: Matrix<T>)
        ensures
            r@ == (MatrixModel { rows: rows_count as nat, cols: cols_count as nat, cells: data@ }),
    {
        Matrix { data, rows_count, cols_count }
    }

    /// The cell in row `row` and column `col`.
    pub fn get_at_index(&self, row: usize, col: usize) -> (r: Result<T, MatrixError>)
        requires
            self@.wf(),
        ensures
            row < self@.rows && col < self@.cols ==> r == Ok::<T, MatrixError>(self@.at(row as int, col as int)),
            !(row < self@.rows && col < self@.cols) ==> r == Err::<T, MatrixError>(MatrixError::IndexOutOfBounds),
    {
        if row >= self.rows_count || col >= self.cols_count {
            return Err(MatrixError::IndexOutOfBounds);
        }
        let len = self.data.len();
        proof {
            assert(len == self.rows_count * self.cols_count);
            lemma_cell_index(row as int, col as int, self.rows_count as int, self.cols_count as int);
        }
        Ok(self.data[row * self.cols_count + col])
    }

    /// Replaces the cell in row `row` and column `col` by `value`.
    pub fn set_at_index(&mut self, row: usize, col: usize, value: T) -> (r: Result<(), MatrixError>)
        requires
            old(self)@.wf(),
        ensures
            final(self)@.wf(),
            row < old(self)@.rows && col < old(self)@.cols ==> {
                &&& r == Ok::<(), MatrixError>(())
                &&& final(self)@ == (MatrixModel {
                    cells: old(self)@.cells.update(row * old(self)@.cols + col, value),
                    ..old(self)@
                })
            },
            !(row < old(self)@.rows && col < old(self)@.cols) ==> {
                &&& r == Err::<(), MatrixError>(MatrixError::IndexOutOfBounds)
                &&& final(self)@ == old(self)@
            },
    {
        if row >= self.rows_count || col >= self.cols_count {
            return Err(MatrixError::IndexOutOfBounds);
        }
        let len = self.data.len();
        proof {
            assert(len == self.rows_count * self.cols_count);
            lemma_cell_index(row as int, col as int, self.rows_count as int, self.cols_count as int);
        }
        self.data.set(row * self.cols_count + col, value);
        Ok(())
    }

    /// Makes `self` a `rows_count` x `cols_count` matrix whose every cell is
    /// `zero`.
    pub fn zero_fill(&mut self, rows_count: usize, cols_count: usize, zero: T)
        requires
            rows_count * cols_count <= usize::MAX,
        ensures
            final(self)@.rows == rows_count,
            final(self)@.cols == cols_count,
            final(self)@.cells == Seq::new((rows_count * cols_count) as nat, |i: int| zero),
            final(self)@.wf(),
    {
        self.clear();
        let n: usize = rows_count * cols_count;
        let mut data: Vec<T> = Vec::with_capacity(n);
        let mut i: usize = 0;
        while i < n
            invariant
                i <= n,
                data@ == Seq::new(i as nat, |j: int| zero),
            decreases n - i,
        {
            data.push(zero);
            i += 1;
            assert(data@ =~= Seq::new(i as nat, |j: int| zero));
        }
        self.data = data;
        self.rows_count = rows_count;
        self.cols_count = cols_count;
    }

    /// Makes `self` the empty 0 x 0 matrix.
    pub fn clear(&mut self)
        ensures
            final(self)@.rows == 0,
            final(self)@.cols == 0,
            final(self)@.cells.len() == 0,
    {
        self.data.clear();
        self.rows_count = 0;
        self.cols_count = 0;
    }

    /// The shape `(rows, cols)`.
    pub fn size(&self) -> (r: (usize, usize))
        ensures
            r.0 == self@.rows,
            r.1 == self@.cols,
    {
        (self.rows_count, self.cols_count)
    }

    /// A copy of the cells in row-major order.
    pub fn as_vec(&self) -> (r: Vec<T>)
        ensures
            r@ == self@.cells,
    {
        copy_vec(&self.data)
    }

    /// An independent copy of `self`.
    pub fn clone(&self) -> (r: Matrix<T>)
        ensures
            r@ == self@,
    {
        Matrix { data: copy_vec(&self.data), rows_count: self.rows_count, cols_count: self.cols_count }
    }
}

impl<T: Copy> Matrix<T> {
    /// The cell-by-cell sum of `self` and `other`, each pair of cells added
    /// by `plus`.
    pub fn add<F: Fn(T, T) -> T>(&self, other: &Matrix<T>, plus: F) -> (r: Result<Matrix<T>, MatrixError>)
        requires
            self@.wf(),
            other@.wf(),
            pure2(plus),
        ensures
            match r {
                Ok(m) => self@.same_shape(other@) && m@ == self@.zip_with(other@, plus) && forall|i: int|
                    0 <= i < m@.cells.len() ==> plus.ensures((self@.cells[i], other@.cells[i]), #[trigger] m@.cells[i]),
                Err(e) => !self@.same_shape(other@) && e == MatrixError::DimensionMismatch,
            },
    {
        self.combine(other, plus)
    }

    /// The cell-by-cell difference of `self` and `other`, each pair of cells
    /// subtracted by `minus`.
    pub fn subtract<F: Fn(T, T) -> T>(&self, other: &Matrix<T>, minus: F) -> (r: Result<Matrix<T>, MatrixError>)
        requires
            self@.wf(),
            other@.wf(),
            pure2(minus),
        ensures
            match r {
                Ok(m) => self@.same_shape(other@) && m@ == self@.zip_with(other@, minus) && forall|i: int|
                    0 <= i < m@.cells.len() ==> minus.ensures((self@.cells[i], other@.cells[i]), #[trigger] m@.cells[i]),
                Err(e) => !self@.same_shape(other@) && e == MatrixError::DimensionMismatch,
            },
    {
        self.combine(other, minus)
    }

    fn combine<F: Fn(T, T) -> T>(&self, other: &Matrix<T>, f: F) -> (r: Result<Matrix<T>, MatrixError>)
        requires
            self@.wf(),
            other@.wf(),
            pure2(f),
        ensures
            match r {
                Ok(m) => self@.same_shape(other@) && m@ == self@.zip_with(other@, f) && forall|i: int|
                    0 <= i < m@.cells.len() ==> f.ensures((self@.cells[i], other@.cells[i]), #[trigger] m@.cells[i]),
                Err(e) => !self@.same_shape(other@) && e == MatrixError::DimensionMismatch,
            },
    {
        if self.rows_count != other.rows_count || self.cols_count != other.cols_count {
            return Err(MatrixError::DimensionMismatch);
        }
        let n = self.data.len();
        let mut data: Vec<T> = Vec::with_capacity(n);
        let mut i: usize = 0;
        while i < n
            invariant
                n == self.data@.len(),
                n == other.data@.len(),
                pure2(f),
                i <= n,
                data@ == Seq::new(i as nat, |p: int| call2(f, self.data@[p], other.data@[p])),
                forall|p: int| 0 <= p < i ==> f.ensures((self.data@[p], other.data@[p]), #[trigger] data@[p]),
            decreases n - i,
        {
            let x = f(self.data[i], other.data[i]);
            proof {
                lemma_call2(f, self.data@[i as int], other.data@[i as int], x);
            }
            data.push(x);
            i += 1;
            assert(data@ =~= Seq::new(i as nat, |p: int| call2(f, self.data@[p], other.data@[p])));
        }
        let m = Matrix { data, rows_count: self.rows_count, cols_count: self.cols_count };
        assert(m@.cells =~= self@.zip_with(other@, f).cells);
        Ok(m)
    }

    /// The matrix product of `self` and `other`. Each cell is accumulated
    /// from `zero` as `plus(acc, times(self[i, j], other[j, k]))` for `j`
    /// ascending.
    pub fn dot_prod<P: Fn(T, T) -> T, M: Fn(T, T) -> T>(&self, other: &Matrix<T>, zero: T, plus: P, times: M) -> (r: Result<Matrix<T>, MatrixError>)
        requires
            self@.wf(),
            other@.wf(),
            pure2(plus),
            pure2(times),
            self@.rows * other@.cols <= usize::MAX,
        ensures
            match r {
                Ok(m) => self@.cols == other@.rows && m@ == self@.product(other@, zero, plus, times),
                Err(e) => self@.cols != other@.rows && e == MatrixError::DimensionMismatch,
            },
    {
        if self.cols_count != other.rows_count {
            return Err(MatrixError::DimensionMismatch);
        }
        let rows = self.rows_count;
        let inner = self.cols_count;
        let cols = other.cols_count;
        let ghost a = self@;
        let ghost b = other@;
        let a_len = self.data.len();
        let b_len = other.data.len();
        let mut data: Vec<T> = Vec::new();
        let mut i: usize = 0;
        while i < rows
            invariant
                a == self@,
                b == other@,
                a.wf(),
                b.wf(),
                a_len == a.cells.len(),
                b_len == b.cells.len(),
                pure2(plus),
            pure2(times),
                rows == a.rows,
                inner == a.cols,
                inner == b.rows,
                cols == b.cols,
                rows * cols <= usize::MAX,
                i <= rows,
                data@ == Seq::new(
                    (i * cols) as nat,
                    |p: int| a.product_cell(b, p / cols as int, p % cols as int, zero, plus, times),
                ),
            decreases rows - i,
        {
            let mut k: usize = 0;
            while k < cols
                invariant
                    a == self@,
                    b == other@,
                    a.wf(),
                    b.wf(),
                    a_len == a.cells.len(),
                    b_len == b.cells.len(),
                    pure2(plus),
            pure2(times),
                    rows == a.rows,
                    inner == a.cols,
                    inner == b.rows,
                    cols == b.cols,
                    rows * cols <= usize::MAX,
                    i < rows,
                    k <= cols,
                    data@ == Seq::new(
                        (i * cols + k) as nat,
                        |p: int| a.product_cell(b, p / cols as int, p % cols as int, zero, plus, times),
                    ),
                decreases cols - k,
            {
                let mut acc = zero;
                let mut j: usize = 0;
                while j < inner
                    invariant
                        a == self@,
                        b == other@,
                        a.wf(),
                        b.wf(),
                        a_len == a.cells.len(),
                        b_len == b.cells.len(),
                        pure2(plus),
            pure2(times),
                        rows == a.rows,
                        inner == a.cols,
                        inner == b.rows,
                        cols == b.cols,
                        i < rows,
                        k < cols,
                        j <= inner,
                        acc == a.partial_dot(b, i as int, k as int, j as nat, zero, plus, times),
                    decreases inner - j,
                {
                    proof {
                        lemma_cell_index(i as int, j as int, rows as int, inner as int);
                        lemma_cell_index(j as int, k as int, inner as int, cols as int);
                    }
                    let x = self.data[i * inner + j];
                    let y = other.data[j * cols + k];
                    let product = times(x, y);
                    let next = plus(acc, product);
                    proof {
                        lemma_call2(times, x, y, product);
                        lemma_call2(plus, acc, product, next);
                    }
                    acc = next;
                    j += 1;
                }
                proof {
                    lemma_cell_index(i as int, k as int, rows as int, cols as int);
                    lemma_fundamental_div_mod_converse(i * cols + k, cols as int, i as int, k as int);
                }
                data.push(acc);
                k += 1;
                assert(data@ =~= Seq::new(
                    (i * cols + k) as nat,
                    |p: int| a.product_cell(b, p / cols as int, p % cols as int, zero, plus, times),
                ));
            }
            assert((i + 1) * cols == i * cols + cols) by (nonlinear_arith);
            i += 1;
        }
        Ok(Matrix { data, rows_count: rows, cols_count: cols })
    }

    /// The transpose of `self`: rows and columns swapped.
    pub fn transpose(&self) -> (r: Matrix<T>)
        requires
            self@.wf(),
        ensures
            r@ == self@.transposed(),
            r@.wf(),
    {
        let rows = self.rows_count;
        let cols = self.cols_count;
        let ghost a = self@;
        let a_len = self.data.len();
        let mut data: Vec<T> = Vec::with_capacity(a_len);
        let mut j: usize = 0;
        while j < cols
            invariant
                a == self@,
                a.wf(),
                a_len == a.cells.len(),
                rows == a.rows,
                cols == a.cols,
                j <= cols,
                data@ == Seq::new((j * rows) as nat, |p: int| a.at(p % rows as int, p / rows as int)),
            decreases cols - j,
        {
            let mut i: usize = 0;
            while i < rows
                invariant
                    a == self@,
                    a.wf(),
                    a_len == a.cells.len(),
                    rows == a.rows,
                    cols == a.cols,
                    j < cols,
                    i <= rows,
                    data@ == Seq::new((j * rows + i) as nat, |p: int| a.at(p % rows as int, p / rows as int)),
                decreases rows - i,
            {
                proof {
                    lemma_cell_index(i as int, j as int, rows as int, cols as int);
                    lemma_fundamental_div_mod_converse(j * rows + i, rows as int, j as int, i as int);
                }
                data.push(self.data[i * cols + j]);
                i += 1;
                assert(data@ =~= Seq::new((j * rows + i) as nat, |p: int| a.at(p % rows as int, p / rows as int)));
            }
            assert((j + 1) * rows == j * rows + rows) by (nonlinear_arith);
            j += 1;
        }
        assert(cols * rows == rows * cols) by (nonlinear_arith);
        Matrix { data, rows_count: cols, cols_count: rows }
    }

    /// Replaces every cell by `f` of it.
    pub fn map<F: Fn(T) -> T>(&mut self, f: F)
        requires
            old(self)@.wf(),
            pure1(f),
        ensures
            final(self)@ == old(self)@.map_cells(f),
            final(self)@.wf(),
            forall|i: int| 0 <= i < final(self)@.cells.len() ==> f.ensures((old(self)@.cells[i],), #[trigger] final(self)@.cells[i]),
    {
        let ghost start = self@;
        let n = self.data.len();
        let mut i: usize = 0;
        while i < n
            invariant
                pure1(f),
                start.wf(),
                n == start.cells.len(),
                self@.rows == start.rows,
                self@.cols == start.cols,
                self@.cells.len() == n,
                i <= n,
                forall|p: int| 0 <= p < i ==> #[trigger] self@.cells[p] == call1(f, start.cells[p]),
                forall|p: int| 0 <= p < i ==> f.ensures((start.cells[p],), #[trigger] self@.cells[p]),
                forall|p: int| i <= p < n ==> #[trigger] self@.cells[p] == start.cells[p],
            decreases n - i,
        {
            let x = f(self.data[i]);
            proof {
                lemma_call1(f, start.cells[i as int], x);
            }
            self.data.set(i, x);
            i += 1;
        }
        assert(self@.cells =~= start.map_cells(f).cells);
    }

    /// Replaces every cell by `f` of it and of its row-major index.
    pub fn map_with_index<F: Fn(T, usize) -> T>(&mut self, f: F)
        requires
            old(self)@.wf(),
            pure2(f),
        ensures
            final(self)@ == old(self)@.map_cells_indexed(f),
            final(self)@.wf(),
            forall|i: int| 0 <= i < final(self)@.cells.len() ==> f.ensures((old(self)@.cells[i], i as usize), #[trigger] final(self)@.cells[i]),
    {
        let ghost start = self@;
        let n = self.data.len();
        let mut i: usize = 0;
        while i < n
            invariant
                pure2(f),
                start.wf(),
                n == start.cells.len(),
                self@.rows == start.rows,
                self@.cols == start.cols,
                self@.cells.len() == n,
                i <= n,
                forall|p: int| 0 <= p < i ==> #[trigger] self@.cells[p] == call2(f, start.cells[p], p as usize),
                forall|p: int| 0 <= p < i ==> f.ensures((start.cells[p], p as usize), #[trigger] self@.cells[p]),
                forall|p: int| i <= p < n ==> #[trigger] self@.cells[p] == start.cells[p],
            decreases n - i,
        {
            let x = f(self.data[i], i);
            proof {
                lemma_call2(f, start.cells[i as int], i, x);
            }
            self.data.set(i, x);
            i += 1;
        }
        assert(self@.cells =~= start.map_cells_indexed(f).cells);
    }
}

/// A fresh vector with the elements of `v`.
fn copy_vec<T: Copy>(v: &Vec<T>) -> (r: Vec<T>)
    ensures
        r@ == v@,
{
    let mut r: Vec<T> = Vec::with_capacity(v.len());
    let mut i: usize = 0;
    while i < v.len()
        invariant
            i <= v.len(),
            r@ == v@.subrange(0, i as int),
        decreases v.len() - i,
    {
        r.push(v[i]);
        i += 1;
        assert(r@ =~= v@.subrange(0, i as int));
    }
    assert(r@ =~= v@);
    r
}

} // verus!
