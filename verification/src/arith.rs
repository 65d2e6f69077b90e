use vstd::prelude::*;
use crate::matrix::{Matrix, MatrixError, flat_entry, lemma_flat_index_bound,
    lemma_flat_index_row_order};

verus! {

/// The sum of `f(0) + f(1) + ... + f(n - 1)`.
pub open spec fn sum(n: int, f: spec_fn(int) -> int) -> int
    decreases n,
{
    if n <= 0 {
        0
    } else {
        sum(n - 1, f) + f(n - 1)
    }
}

/// One term of the dot product behind entry (`i`, `j`) of a matrix
/// product: the element of `a` at (`i`, `k`) times the element of `b` at
/// (`k`, `j`).
pub open spec fn product_term(a: &Matrix<i64>, b: &Matrix<i64>, i: int, j: int, k: int) -> int {
    a.entry(i, k) * b.entry(k, j)
}

/// The dot product of the first `n` elements of row `i` of `a` with
/// column `j` of `b`.
pub open spec fn dot(a: &Matrix<i64>, b: &Matrix<i64>, i: int, j: int, n: int) -> int {
    sum(n, |k: int| product_term(a, b, i, j, k))
}

/// `m` is the matrix product of `a` and `b`: its shape is
/// `a.rows` by `b.cols` and each entry is the full dot product of the
/// matching row of `a` and column of `b`.
pub open spec fn is_product(a: &Matrix<i64>, b: &Matrix<i64>, m: &Matrix<i64>) -> bool {
    &&& m.wf()
    &&& m.rows == a.rows
    &&& m.cols == b.cols
    &&& forall|i: int, j: int|
        0 <= i < m.rows && 0 <= j < m.cols ==> #[trigger] m.entry(i, j) == dot(
            a,
            b,
            i,
            j,
            a.cols as int,
        )
}

/// Every term and every partial sum of the multiplication `a * b` fits in
/// the element type, so the accumulation never overflows.
pub open spec fn product_fits(a: &Matrix<i64>, b: &Matrix<i64>) -> bool {
    &&& forall|i: int, j: int, k: int|
        0 <= i < a.rows && 0 <= j < b.cols && 0 <= k < a.cols ==> i64::MIN <= #[trigger]
            product_term(a, b, i, j, k) <= i64::MAX
    &&& forall|i: int, j: int, k: int|
        0 <= i < a.rows && 0 <= j < b.cols && 0 <= k <= a.cols ==> i64::MIN <= #[trigger] dot(
            a,
            b,
            i,
            j,
            k,
        ) <= i64::MAX
}

impl Matrix<i64> {
    /// Matrix multiplication by triple nested accumulation in row-major
    /// output order; rejects operands whose shapes are incompatible under
    /// `self.cols == rhs.rows`.
    #[verifier::loop_isolation(false)]
    pub fn multiply(&self, rhs: &Matrix<i64>) -> (r: Result<Matrix<i64>, MatrixError>)
        requires
            self.wf(),
            rhs.wf(),
            self.cols == rhs.rows ==> product_fits(self, rhs),
            self.cols == rhs.rows ==> self.rows * rhs.cols <= usize::MAX,
        ensures
            self.cols == rhs.rows <==> r is Ok,
            r matches Ok(m) ==> is_product(self, rhs, &m),
            r matches Err(e) ==> e == MatrixError::DimensionMismatch,
    {
        if self.cols != rhs.rows {
            return Err(MatrixError::DimensionMismatch);
        }
        let na = self.data.len();
        let nb = rhs.data.len();
        let p = rhs.cols;
        let mut out: Vec<i64> = Vec::new();
        for i in 0..self.rows
            invariant
                out@.len() == i * p,
                forall|i2: int, j2: int|
                    0 <= i2 < i && 0 <= j2 < p ==> #[trigger] flat_entry(out@, p as int, i2, j2)
                        == dot(self, rhs, i2, j2, self.cols as int),
        {
            for j in 0..p
                invariant
                    out@.len() == i * p + j,
                    forall|i2: int, j2: int|
                        0 <= i2 < i && 0 <= j2 < p ==> #[trigger] flat_entry(out@, p as int, i2, j2)
                            == dot(self, rhs, i2, j2, self.cols as int),
                    forall|j2: int|
                        0 <= j2 < j ==> #[trigger] flat_entry(out@, p as int, i as int, j2) == dot(
                            self,
                            rhs,
                            i as int,
                            j2,
                            self.cols as int,
                        ),
            {
                let mut total: i64 = 0;
                for k in 0..self.cols
                    invariant
                        total == dot(self, rhs, i as int, j as int, k as int),
                {
                    proof {
                        lemma_flat_index_bound(i as int, k as int, self.rows as int, self.cols as int);
                        lemma_flat_index_bound(k as int, j as int, rhs.rows as int, rhs.cols as int);
                        assert(i * self.cols + k < na);
                        assert(k * rhs.cols + j < nb);
                    }
                    let va = self.data[i * self.cols + k];
                    let vb = rhs.data[k * rhs.cols + j];
                    proof {
                        assert(va == self.entry(i as int, k as int));
                        assert(vb == rhs.entry(k as int, j as int));
                        assert(va * vb == product_term(self, rhs, i as int, j as int, k as int));
                        assert(dot(self, rhs, i as int, j as int, k + 1) == dot(
                            self,
                            rhs,
                            i as int,
                            j as int,
                            k as int,
                        ) + product_term(self, rhs, i as int, j as int, k as int));
                    }
                    total = total + va * vb;
                }
                let ghost pre = out@;
                out.push(total);
                proof {
                    assert forall|i2: int, j2: int|
                        0 <= i2 < i && 0 <= j2 < p implies #[trigger] flat_entry(
                        out@,
                        p as int,
                        i2,
                        j2,
                    ) == dot(self, rhs, i2, j2, self.cols as int) by {
                        lemma_flat_index_row_order(i2, j2, i as int, p as int);
                        assert(flat_entry(pre, p as int, i2, j2) == dot(
                            self,
                            rhs,
                            i2,
                            j2,
                            self.cols as int,
                        ));
                        assert(out@[i2 * (p as int) + j2] == pre[i2 * (p as int) + j2]);
                    }
                    assert forall|j2: int|
                        0 <= j2 < j + 1 implies #[trigger] flat_entry(out@, p as int, i as int, j2)
                        == dot(self, rhs, i as int, j2, self.cols as int) by {
                        if j2 < j {
                            assert(flat_entry(pre, p as int, i as int, j2) == dot(
                                self,
                                rhs,
                                i as int,
                                j2,
                                self.cols as int,
                            ));
                            assert(out@[i * (p as int) + j2] == pre[i * (p as int) + j2]);
                        } else {
                            assert(out@[i * (p as int) + j2] == total);
                        }
                    }
                }
            }
            proof {
                assert((i + 1) * p == i * p + p) by (nonlinear_arith);
            }
        }
        let m = Matrix { rows: self.rows, cols: p, data: out };
        proof {
            assert forall|i: int, j: int|
                0 <= i < m.rows && 0 <= j < m.cols implies #[trigger] m.entry(i, j) == dot(
                self,
                rhs,
                i,
                j,
                self.cols as int,
            ) by {
                assert(flat_entry(m.data@, p as int, i, j) == dot(self, rhs, i, j, self.cols as int));
            }
        }
        Ok(m)
    }

    /// Scalar multiplication: a new matrix of the same shape with every
    /// element replaced by `element * factor`, visiting elements in
    /// storage order.
    #[verifier::loop_isolation(false)]
    pub fn scale(&self, factor: i64) -> (m: Matrix<i64>)
        requires
            self.wf(),
            forall|idx: int|
                0 <= idx < self.data@.len() ==> i64::MIN <= (#[trigger] self.data@[idx]) * factor
                    <= i64::MAX,
        ensures
            m.wf(),
            m.rows == self.rows,
            m.cols == self.cols,
            forall|idx: int|
                0 <= idx < self.data@.len() ==> #[trigger] m.data@[idx] == self.data@[idx] * factor,
    {
        let mut out: Vec<i64> = Vec::new();
        let n = self.data.len();
        for idx in 0..n
            invariant
                out@.len() == idx,
                forall|k: int| 0 <= k < idx ==> #[trigger] out@[k] == self.data@[k] * factor,
        {
            out.push(self.data[idx] * factor);
        }
        Matrix { rows: self.rows, cols: self.cols, data: out }
    }
}

/// A sum of terms that are all zero is zero.
proof fn lemma_sum_zero(n: int, f: spec_fn(int) -> int)
    requires
        forall|k: int| 0 <= k < n ==> #[trigger] f(k) == 0,
    ensures
        sum(n, f) == 0,
    decreases n,
{
    if n > 0 {
        lemma_sum_zero(n - 1, f);
    }
}

/// Sums of pointwise equal term functions are equal.
proof fn lemma_sum_ext(n: int, f: spec_fn(int) -> int, g: spec_fn(int) -> int)
    requires
        forall|k: int| 0 <= k < n ==> #[trigger] f(k) == g(k),
    ensures
        sum(n, f) == sum(n, g),
    decreases n,
{
    if n > 0 {
        lemma_sum_ext(n - 1, f, g);
    }
}

/// A sum of pointwise sums splits into two sums.
proof fn lemma_sum_split(n: int, f: spec_fn(int) -> int, g: spec_fn(int) -> int, h: spec_fn(
    int,
) -> int)
    requires
        forall|k: int| 0 <= k < n ==> #[trigger] h(k) == f(k) + g(k),
    ensures
        sum(n, h) == sum(n, f) + sum(n, g),
    decreases n,
{
    if n > 0 {
        lemma_sum_split(n - 1, f, g, h);
    }
}

/// A constant left factor distributes out of a sum.
proof fn lemma_sum_mul_left(n: int, f: spec_fn(int) -> int, g: spec_fn(int) -> int, c: int)
    requires
        forall|k: int| 0 <= k < n ==> #[trigger] g(k) == c * f(k),
    ensures
        sum(n, g) == c * sum(n, f),
    decreases n,
{
    if n <= 0 {
        assert(c * sum(n, f) == 0);
    } else {
        lemma_sum_mul_left(n - 1, f, g, c);
        assert(c * (sum(n - 1, f) + f(n - 1)) == c * sum(n - 1, f) + c * f(n - 1))
            by (nonlinear_arith);
    }
}

/// A constant right factor distributes out of a sum.
proof fn lemma_sum_mul_right(n: int, f: spec_fn(int) -> int, g: spec_fn(int) -> int, c: int)
    requires
        forall|k: int| 0 <= k < n ==> #[trigger] g(k) == f(k) * c,
    ensures
        sum(n, g) == sum(n, f) * c,
    decreases n,
{
    if n <= 0 {
        assert(sum(n, f) * c == 0);
    } else {
        lemma_sum_mul_right(n - 1, f, g, c);
        assert((sum(n - 1, f) + f(n - 1)) * c == sum(n - 1, f) * c + f(n - 1) * c)
            by (nonlinear_arith);
    }
}

/// The order of a finite double sum can be exchanged.
proof fn lemma_sum_swap(n: int, m: int, f: spec_fn(int, int) -> int)
    ensures
        sum(n, |i: int| sum(m, |j: int| f(i, j))) == sum(m, |j: int| sum(n, |i: int| f(i, j))),
    decreases n,
{
    let rows_first = |i: int| sum(m, |j: int| f(i, j));
    let cols_first = |j: int| sum(n, |i: int| f(i, j));
    if n <= 0 {
        assert forall|j: int| 0 <= j < m implies #[trigger] cols_first(j) == 0 by {
            assert(sum(n, |i: int| f(i, j)) == 0);
        }
        lemma_sum_zero(m, cols_first);
    } else {
        let cols_rest = |j: int| sum(n - 1, |i: int| f(i, j));
        let last_row = |j: int| f(n - 1, j);
        let combined = |j: int| sum(n - 1, |i: int| f(i, j)) + f(n - 1, j);
        lemma_sum_swap(n - 1, m, f);
        lemma_sum_split(m, cols_rest, last_row, combined);
        assert forall|j: int| 0 <= j < m implies #[trigger] combined(j) == cols_first(j) by {
            assert(sum(n, |i: int| f(i, j)) == sum(n - 1, |i: int| f(i, j)) + f(n - 1, j));
        }
        lemma_sum_ext(m, combined, cols_first);
        assert(sum(n, rows_first) == sum(n - 1, rows_first) + rows_first(n - 1));
    }
}

/// Associativity law: for matrices of compatible shapes, the two ways of
/// multiplying three matrices agree entry by entry (and so as flat data),
/// provided each of the four intermediate products is exact.
pub proof fn lemma_multiply_associative(
    a: &Matrix<i64>,
    b: &Matrix<i64>,
    c: &Matrix<i64>,
    ab: &Matrix<i64>,
    bc: &Matrix<i64>,
    left: &Matrix<i64>,
    right: &Matrix<i64>,
)
    requires
        a.wf(),
        b.wf(),
        c.wf(),
        a.cols == b.rows,
        b.cols == c.rows,
        is_product(a, b, ab),
        is_product(ab, c, left),
        is_product(b, c, bc),
        is_product(a, bc, right),
    ensures
        left.rows == right.rows,
        left.cols == right.cols,
        left.data@ == right.data@,
        forall|i: int, j: int|
            0 <= i < left.rows && 0 <= j < left.cols ==> #[trigger] left.entry(i, j)
                == #[trigger] right.entry(i, j),
{
    let n = a.cols as int;
    let p = b.cols as int;
    assert forall|i: int, j: int|
        0 <= i < left.rows && 0 <= j < left.cols implies #[trigger] left.entry(i, j)
        == #[trigger] right.entry(i, j) by {
        let g = |l: int, k: int| (a.entry(i, k) * b.entry(k, l)) * c.entry(l, j);
        let left_outer = |l: int| product_term(ab, c, i, j, l);
        let left_inner = |l: int| sum(n, |k: int| g(l, k));
        assert forall|l: int| 0 <= l < p implies #[trigger] left_outer(l) == left_inner(l) by {
            assert(ab.entry(i, l) == dot(a, b, i, l, n));
            lemma_sum_mul_right(
                n,
                |k: int| product_term(a, b, i, l, k),
                |k: int| g(l, k),
                c.entry(l, j) as int,
            );
        }
        lemma_sum_ext(p, left_outer, left_inner);
        assert(left.entry(i, j) == dot(ab, c, i, j, p));
        assert(dot(ab, c, i, j, p) == sum(p, left_outer));
        lemma_sum_swap(p, n, g);
        let right_outer = |k: int| product_term(a, bc, i, j, k);
        let right_inner = |k: int| sum(p, |l: int| g(l, k));
        assert forall|k: int| 0 <= k < n implies #[trigger] right_outer(k) == right_inner(k) by {
            assert(bc.entry(k, j) == dot(b, c, k, j, p));
            let scaled = |l: int| a.entry(i, k) * product_term(b, c, k, j, l);
            lemma_sum_mul_left(
                p,
                |l: int| product_term(b, c, k, j, l),
                scaled,
                a.entry(i, k) as int,
            );
            assert forall|l: int| 0 <= l < p implies #[trigger] scaled(l) == g(l, k) by {
                let x = a.entry(i, k) as int;
                let y = b.entry(k, l) as int;
                let z = c.entry(l, j) as int;
                assert(x * (y * z) == (x * y) * z) by (nonlinear_arith);
            }
            lemma_sum_ext(p, scaled, |l: int| g(l, k));
        }
        lemma_sum_ext(n, right_outer, right_inner);
        assert(right.entry(i, j) == dot(a, bc, i, j, n));
        assert(dot(a, bc, i, j, n) == sum(n, right_outer));
        assert(sum(p, |l: int| sum(n, |k: int| g(l, k))) == sum(
            n,
            |k: int| sum(p, |l: int| g(l, k)),
        ));
        assert(sum(p, left_inner) == sum(p, |l: int| sum(n, |k: int| g(l, k)))) by {
            lemma_sum_ext(p, left_inner, |l: int| sum(n, |k: int| g(l, k)));
        }
        assert(sum(n, right_inner) == sum(n, |k: int| sum(p, |l: int| g(l, k)))) by {
            lemma_sum_ext(n, right_inner, |k: int| sum(p, |l: int| g(l, k)));
        }
    }
    assert forall|idx: int| 0 <= idx < left.data@.len() implies left.data@[idx]
        == right.data@[idx] by {
        let cs = left.cols as int;
        assert(0 <= idx / cs && idx / cs < left.rows as int && 0 <= idx % cs && idx % cs < cs && (
        idx / cs) * cs + (idx % cs) == idx) by (nonlinear_arith)
            requires
                0 <= idx,
                idx < (left.rows as int) * cs,
                0 <= cs,
        ;
        let ci = idx / cs;
        let cj = idx % cs;
        assert(left.data@[idx] == left.entry(ci, cj));
        assert(right.data@[idx] == right.entry(ci, cj));
    }
    assert(left.data@ =~= right.data@);
}

} // verus!
