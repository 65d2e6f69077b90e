use vstd::prelude::*;

verus! {

/// Errors reported by matrix operations.
#[derive(Clone, Copy, Debug, PartialEq, Eq, Structural)]
pub enum MatrixError {
    /// Construction input was empty or ragged.
    Shape,
    /// Multiplication operands have incompatible shapes.
    DimensionMismatch,
    /// A row or column index exceeded the declared bounds.
    IndexOutOfRange,
}

/// A dense matrix stored as one flat vector in row-major order: the element
/// at row `r`, column `c` lives at flat index `r * cols + c`.
#[derive(Debug)]
pub struct Matrix<T> {
    pub rows: usize,
    pub cols: usize,
    pub data: Vec<T>,
}

/// The element of a row-major flat sequence with `cols` columns at row `r`,
/// column `c`.
pub open spec fn flat_entry<T>(s: Seq<T>, cols: int, r: int, c: int) -> T {
    s[r * cols + c]
}

impl<T> Matrix<T> {
    /// Well-formedness: the backing vector holds exactly `rows * cols`
    /// elements.
    pub open spec fn wf(&self) -> bool {
        self.data@.len() == self.rows * self.cols
    }

    /// The element at row `r`, column `c`.
    pub open spec fn entry(&self, r: int, c: int) -> T {
        flat_entry(self.data@, self.cols as int, r, c)
    }

    /// Row `r` as a sequence, in column order.
    pub open spec fn row_seq(&self, r: int) -> Seq<T> {
        Seq::new(self.cols as nat, |c: int| self.entry(r, c))
    }

    /// Column `c` as a sequence, in row order.
    pub open spec fn col_seq(&self, c: int) -> Seq<T> {
        Seq::new(self.rows as nat, |r: int| self.entry(r, c))
    }
}

/// An in-range position maps to a flat index below `rows * cols`.
pub proof fn lemma_flat_index_bound(r: int, c: int, rows: int, cols: int)
    by (nonlinear_arith)
    requires
        0 <= r < rows,
        0 <= c < cols,
    ensures
        0 <= r * cols + c < rows * cols,
{
}

/// Flat indices grow strictly with the row: any position in a row before
/// `r2` lies below the start of row `r2`.
pub proof fn lemma_flat_index_row_order(r1: int, c1: int, r2: int, cols: int)
    by (nonlinear_arith)
    requires
        0 <= r1 < r2,
        0 <= c1 < cols,
    ensures
        r1 * cols + c1 < r2 * cols,
{
}

impl<T: Copy> Matrix<T> {
    /// Builds a `rows` by `cols` matrix with every cell equal to `value`.
    /// A zero `rows` or `cols` yields a valid empty matrix.
    #[verifier::loop_isolation(false)]
    pub fn new(rows: usize, cols: usize, value: T) -> (m: Matrix<T>)
        requires
            rows * cols <= usize::MAX,
        ensures
            m.wf(),
            m.rows == rows,
            m.cols == cols,
            forall|i: int| 0 <= i < m.data@.len() ==> #[trigger] m.data@[i] == value,
    {
        let mut data: Vec<T> = Vec::new();
        for r in 0..rows
            invariant
                data@.len() == r * cols,
                forall|i: int| 0 <= i < data@.len() ==> #[trigger] data@[i] == value,
        {
            for c in 0..cols
                invariant
                    data@.len() == r * cols + c,
                    forall|i: int| 0 <= i < data@.len() ==> #[trigger] data@[i] == value,
            {
                data.push(value);
            }
            proof {
                assert((r + 1) * cols == r * cols + cols) by (nonlinear_arith);
            }
        }
        Matrix { rows, cols, data }
    }
}

impl<T> Matrix<T> {
    /// Read-only access to the element at (`row`, `col`); rejects
    /// out-of-range indices.
    pub fn get(&self, row: usize, col: usize) -> (r: Result<&T, MatrixError>)
        requires
            self.wf(),
        ensures
            row < self.rows && col < self.cols <==> r is Ok,
            r matches Ok(v) ==> *v == self.entry(row as int, col as int),
            r matches Err(e) ==> e == MatrixError::IndexOutOfRange,
    {
        if row >= self.rows || col >= self.cols {
            return Err(MatrixError::IndexOutOfRange);
        }
        let n = self.data.len();
        proof {
            lemma_flat_index_bound(row as int, col as int, self.rows as int, self.cols as int);
            assert(row * self.cols + col < n);
        }
        Ok(&self.data[row * self.cols + col])
    }

    /// Replaces the element at (`row`, `col`) in place; rejects
    /// out-of-range indices and then leaves the matrix unchanged.
    pub fn set(&mut self, row: usize, col: usize, value: T) -> (r: Result<(), MatrixError>)
        requires
            old(self).wf(),
        ensures
            final(self).wf(),
            final(self).rows == old(self).rows,
            final(self).cols == old(self).cols,
            row < old(self).rows && col < old(self).cols <==> r is Ok,
            r is Ok ==> final(self).data@ == old(self).data@.update(
                row * old(self).cols + col,
                value,
            ),
            r matches Err(e) ==> e == MatrixError::IndexOutOfRange && *final(self) == *old(self),
    {
        if row >= self.rows || col >= self.cols {
            return Err(MatrixError::IndexOutOfRange);
        }
        let n = self.data.len();
        proof {
            lemma_flat_index_bound(row as int, col as int, self.rows as int, self.cols as int);
            assert(row * self.cols + col < n);
        }
        let idx = row * self.cols + col;
        self.data.set(idx, value);
        Ok(())
    }
}

/// A non-empty collection of rows is rectangular when every row has the
/// length of the first.
pub open spec fn rectangular<T>(rs: Seq<Vec<T>>) -> bool {
    &&& rs.len() > 0
    &&& forall|i: int| 0 <= i < rs.len() ==> (#[trigger] rs[i])@.len() == rs[0]@.len()
}

impl<T: Copy> Matrix<T> {
    /// Builds a matrix from nested rows, flattening them in row-major
    /// order; rejects an empty or ragged input.
    #[verifier::loop_isolation(false)]
    pub fn from(data: Vec<Vec<T>>) -> (r: Result<Matrix<T>, MatrixError>)
        ensures
            rectangular(data@) <==> r is Ok,
            r matches Ok(m) ==> {
                &&& m.wf()
                &&& m.rows == data@.len()
                &&& m.cols == data@[0]@.len()
                &&& forall|i: int, j: int|
                    0 <= i < m.rows && 0 <= j < m.cols ==> #[trigger] m.entry(i, j) == data@[i]@[j]
            },
            r matches Err(e) ==> e == MatrixError::Shape,
    {
        let rows = data.len();
        if rows == 0 {
            return Err(MatrixError::Shape);
        }
        let cols = data[0].len();
        let mut flat: Vec<T> = Vec::new();
        proof {
            assert(0 * (cols as int) == 0);
        }
        for i in 0..rows
            invariant
                cols == data@[0]@.len(),
                forall|i2: int| 0 <= i2 < i ==> (#[trigger] data@[i2])@.len() == cols,
                flat@.len() == i * cols,
                forall|i2: int, j: int|
                    0 <= i2 < i && 0 <= j < cols ==> #[trigger] flat_entry(
                        flat@,
                        cols as int,
                        i2,
                        j,
                    ) == data@[i2]@[j],
        {
            let row = &data[i];
            if row.len() != cols {
                return Err(MatrixError::Shape);
            }
            for j in 0..cols
                invariant
                    row@ == data@[i as int]@,
                    flat@.len() == i * cols + j,
                    forall|i2: int, j2: int|
                        0 <= i2 < i && 0 <= j2 < cols ==> #[trigger] flat_entry(
                            flat@,
                            cols as int,
                            i2,
                            j2,
                        ) == data@[i2]@[j2],
                    forall|j2: int|
                        0 <= j2 < j ==> #[trigger] flat_entry(flat@, cols as int, i as int, j2)
                            == data@[i as int]@[j2],
            {
                let ghost pre = flat@;
                flat.push(row[j]);
                proof {
                    assert forall|i2: int, j2: int|
                        0 <= i2 < i && 0 <= j2 < cols implies #[trigger] flat_entry(
                        flat@,
                        cols as int,
                        i2,
                        j2,
                    ) == data@[i2]@[j2] by {
                        lemma_flat_index_row_order(i2, j2, i as int, cols as int);
                        assert(flat_entry(pre, cols as int, i2, j2) == data@[i2]@[j2]);
                        assert(flat@[i2 * (cols as int) + j2] == pre[i2 * (cols as int) + j2]);
                    }
                    assert forall|j2: int|
                        0 <= j2 < j + 1 implies #[trigger] flat_entry(
                        flat@,
                        cols as int,
                        i as int,
                        j2,
                    ) == data@[i as int]@[j2] by {
                        if j2 < j {
                            assert(flat_entry(pre, cols as int, i as int, j2) == data@[i as int]@[j2]);
                            assert(flat@[i * (cols as int) + j2] == pre[i * (cols as int) + j2]);
                        } else {
                            assert(flat@[i * (cols as int) + j2] == row@[j2]);
                        }
                    }
                }
            }
            proof {
                assert((i + 1) * cols == i * cols + cols) by (nonlinear_arith);
            }
        }
        let m = Matrix { rows, cols, data: flat };
        proof {
            assert forall|i: int, j: int|
                0 <= i < m.rows && 0 <= j < m.cols implies #[trigger] m.entry(i, j)
                == data@[i]@[j] by {
                assert(flat_entry(m.data@, cols as int, i, j) == data@[i]@[j]);
            }
        }
        Ok(m)
    }

    /// A duplicated copy of row `row`, in column order; rejects an
    /// out-of-range row.
    #[verifier::loop_isolation(false)]
    pub fn get_row(&self, row: usize) -> (r: Result<Vec<T>, MatrixError>)
        requires
            self.wf(),
        ensures
            row < self.rows <==> r is Ok,
            r matches Ok(v) ==> v@ == self.row_seq(row as int),
            r matches Err(e) ==> e == MatrixError::IndexOutOfRange,
    {
        if row >= self.rows {
            return Err(MatrixError::IndexOutOfRange);
        }
        let n = self.data.len();
        let mut out: Vec<T> = Vec::new();
        for c in 0..self.cols
            invariant
                out@.len() == c,
                forall|j: int| 0 <= j < c ==> #[trigger] out@[j] == self.entry(row as int, j),
        {
            proof {
                lemma_flat_index_bound(row as int, c as int, self.rows as int, self.cols as int);
                assert(row * self.cols + c < n);
            }
            out.push(self.data[row * self.cols + c]);
        }
        proof {
            assert(out@ =~= self.row_seq(row as int));
        }
        Ok(out)
    }

    /// A duplicated copy of column `col`, visiting rows in order; rejects
    /// an out-of-range column.
    #[verifier::loop_isolation(false)]
    pub fn get_column(&self, col: usize) -> (r: Result<Vec<T>, MatrixError>)
        requires
            self.wf(),
        ensures
            col < self.cols <==> r is Ok,
            r matches Ok(v) ==> v@ == self.col_seq(col as int),
            r matches Err(e) ==> e == MatrixError::IndexOutOfRange,
    {
        if col >= self.cols {
            return Err(MatrixError::IndexOutOfRange);
        }
        let n = self.data.len();
        let mut out: Vec<T> = Vec::new();
        for i in 0..self.rows
            invariant
                out@.len() == i,
                forall|r2: int| 0 <= r2 < i ==> #[trigger] out@[r2] == self.entry(r2, col as int),
        {
            proof {
                lemma_flat_index_bound(i as int, col as int, self.rows as int, self.cols as int);
                assert(i * self.cols + col < n);
            }
            out.push(self.data[i * self.cols + col]);
        }
        proof {
            assert(out@ =~= self.col_seq(col as int));
        }
        Ok(out)
    }
}

impl PartialEq for Matrix<i64> {
    /// Two matrices are equal when both shapes and both flattened data
    /// sequences agree.
    #[verifier::loop_isolation(false)]
    fn eq(&self, other: &Matrix<i64>) -> (r: bool) {
        if self.rows != other.rows || self.cols != other.cols {
            return false;
        }
        if self.data.len() != other.data.len() {
            return false;
        }
        for k in 0..self.data.len()
            invariant
                forall|k2: int| 0 <= k2 < k ==> #[trigger] self.data@[k2] == other.data@[k2],
        {
            if self.data[k] != other.data[k] {
                return false;
            }
        }
        proof {
            assert(self.data@ =~= other.data@);
        }
        true
    }
}

impl vstd::std_specs::cmp::PartialEqSpecImpl for Matrix<i64> {
    open spec fn obeys_eq_spec() -> bool {
        true
    }

    open spec fn eq_spec(&self, other: &Matrix<i64>) -> bool {
        &&& self.rows == other.rows
        &&& self.cols == other.cols
        &&& self.data@ == other.data@
    }
}

/// Round-trip law: a matrix built from a rectangular collection of rows —
/// one whose shape and entries agree with the collection, as `from`
/// guarantees — reproduces each of those rows exactly when they are read
/// back, as `get_row` reads them.
pub proof fn lemma_row_round_trip<T>(m: Matrix<T>, rs: Seq<Vec<T>>)
    requires
        rectangular(rs),
        m.wf(),
        m.rows == rs.len(),
        m.cols == rs[0]@.len(),
        forall|i: int, j: int|
            0 <= i < m.rows && 0 <= j < m.cols ==> #[trigger] m.entry(i, j) == rs[i]@[j],
    ensures
        forall|i: int| 0 <= i < m.rows ==> #[trigger] m.row_seq(i) == rs[i]@,
{
    assert forall|i: int| 0 <= i < m.rows implies #[trigger] m.row_seq(i) == rs[i]@ by {
        assert forall|j: int| 0 <= j < m.cols implies m.row_seq(i)[j] == rs[i]@[j] by {
            assert(m.entry(i, j) == rs[i]@[j]);
        }
        assert(m.row_seq(i) =~= rs[i]@);
    }
}

} // verus!
