//! Matrices over a commutative ring with a conjugation: what products, adjoints
//! and identities are, whatever computes them.

use vstd::prelude::*;

verus! {

/// The scalars of a matrix and what is done with them.
#[verifier::reject_recursive_types(D)]
pub struct Ring<D> {
    pub zero: D,
    pub one: D,
    pub plus: spec_fn(D, D) -> D,
    pub times: spec_fn(D, D) -> D,
    pub star: spec_fn(D) -> D,
}

impl<D> Ring<D> {
    /// The sum of two scalars.
    pub open spec fn sum(self, a: D, b: D) -> D {
        (self.plus)(a, b)
    }

    /// The product of two scalars.
    pub open spec fn product(self, a: D, b: D) -> D {
        (self.times)(a, b)
    }

    /// The conjugate of a scalar.
    pub open spec fn conj(self, a: D) -> D {
        (self.star)(a)
    }

    /// Sums and products commute and associate, products distribute over sums,
    /// zero and one are neutral, zero annihilates, and the conjugation is an
    /// involution that respects all of it.
    #[verifier::opaque]
    pub open spec fn is_ring(self) -> bool {
        &&& forall|a: D, b: D| #[trigger] self.sum(a, b) == self.sum(b, a)
        &&& forall|a: D, b: D, c: D|
            #[trigger] self.sum(self.sum(a, b), c) == self.sum(a, self.sum(b, c))
        &&& forall|a: D| #[trigger] self.sum(a, self.zero) == a
        &&& forall|a: D, b: D| #[trigger] self.product(a, b) == self.product(b, a)
        &&& forall|a: D, b: D, c: D|
            #[trigger] self.product(self.product(a, b), c) == self.product(
                a,
                self.product(b, c),
            )
        &&& forall|a: D| #[trigger] self.product(a, self.one) == a
        &&& forall|a: D| #[trigger] self.product(a, self.zero) == self.zero
        &&& forall|a: D, b: D, c: D|
            #[trigger] self.product(a, self.sum(b, c)) == self.sum(
                self.product(a, b),
                self.product(a, c),
            )
        &&& forall|a: D, b: D|
            #[trigger] self.conj(self.sum(a, b)) == self.sum(self.conj(a), self.conj(b))
        &&& forall|a: D, b: D|
            #[trigger] self.conj(self.product(a, b)) == self.product(self.conj(a), self.conj(b))
        &&& forall|a: D| #[trigger] self.conj(self.conj(a)) == a
        &&& self.conj(self.zero) == self.zero
        &&& self.conj(self.one) == self.one
    }

    pub proof fn sum_commutes(self, a: D, b: D)
        requires
            self.is_ring(),
        ensures
            self.sum(a, b) == self.sum(b, a),
    {
        reveal(Ring::is_ring);
    }

    pub proof fn sum_associates(self, a: D, b: D, c: D)
        requires
            self.is_ring(),
        ensures
            self.sum(self.sum(a, b), c) == self.sum(a, self.sum(b, c)),
    {
        reveal(Ring::is_ring);
    }

    pub proof fn sum_with_zero(self, a: D)
        requires
            self.is_ring(),
        ensures
            self.sum(a, self.zero) == a,
            self.sum(self.zero, a) == a,
    {
        reveal(Ring::is_ring);
        assert(self.sum(self.zero, a) == self.sum(a, self.zero));
    }

    pub proof fn product_commutes(self, a: D, b: D)
        requires
            self.is_ring(),
        ensures
            self.product(a, b) == self.product(b, a),
    {
        reveal(Ring::is_ring);
    }

    pub proof fn product_associates(self, a: D, b: D, c: D)
        requires
            self.is_ring(),
        ensures
            self.product(self.product(a, b), c) == self.product(a, self.product(b, c)),
    {
        reveal(Ring::is_ring);
    }

    pub proof fn product_with_one(self, a: D)
        requires
            self.is_ring(),
        ensures
            self.product(a, self.one) == a,
            self.product(self.one, a) == a,
    {
        reveal(Ring::is_ring);
        assert(self.product(self.one, a) == self.product(a, self.one));
    }

    pub proof fn product_with_zero(self, a: D)
        requires
            self.is_ring(),
        ensures
            self.product(a, self.zero) == self.zero,
            self.product(self.zero, a) == self.zero,
    {
        reveal(Ring::is_ring);
        assert(self.product(self.zero, a) == self.product(a, self.zero));
    }

    pub proof fn product_distributes(self, a: D, b: D, c: D)
        requires
            self.is_ring(),
        ensures
            self.product(a, self.sum(b, c)) == self.sum(self.product(a, b), self.product(a, c)),
            self.product(self.sum(b, c), a) == self.sum(self.product(b, a), self.product(c, a)),
    {
        self.product_commutes(a, self.sum(b, c));
        self.product_commutes(a, b);
        self.product_commutes(a, c);
        assert(self.product(a, self.sum(b, c)) == self.sum(
            self.product(a, b),
            self.product(a, c),
        )) by {
            reveal(Ring::is_ring);
        }
    }

    pub proof fn conj_of_sum(self, a: D, b: D)
        requires
            self.is_ring(),
        ensures
            self.conj(self.sum(a, b)) == self.sum(self.conj(a), self.conj(b)),
    {
        reveal(Ring::is_ring);
    }

    pub proof fn conj_of_product(self, a: D, b: D)
        requires
            self.is_ring(),
        ensures
            self.conj(self.product(a, b)) == self.product(self.conj(a), self.conj(b)),
    {
        reveal(Ring::is_ring);
    }

    pub proof fn conj_twice(self, a: D)
        requires
            self.is_ring(),
        ensures
            self.conj(self.conj(a)) == a,
    {
        reveal(Ring::is_ring);
    }

    pub proof fn conj_of_constants(self)
        requires
            self.is_ring(),
        ensures
            self.conj(self.zero) == self.zero,
            self.conj(self.one) == self.one,
    {
        reveal(Ring::is_ring);
    }

    /// `(a + b) + (c + d) == (a + c) + (b + d)`.
    pub proof fn sums_interchange(self, a: D, b: D, c: D, d: D)
        requires
            self.is_ring(),
        ensures
            self.sum(self.sum(a, b), self.sum(c, d)) == self.sum(
                self.sum(a, c),
                self.sum(b, d),
            ),
    {
        self.sum_associates(a, b, self.sum(c, d));
        self.sum_associates(b, c, d);
        self.sum_commutes(b, c);
        self.sum_associates(c, b, d);
        self.sum_associates(a, c, self.sum(b, d));
    }

    /// The first `count` terms, added in order.
    pub open spec fn total(self, terms: spec_fn(int) -> D, count: int) -> D
        decreases count,
    {
        if count <= 0 {
            self.zero
        } else {
            self.sum(self.total(terms, count - 1), terms(count - 1))
        }
    }

    pub proof fn total_same(self, f: spec_fn(int) -> D, g: spec_fn(int) -> D, count: int)
        requires
            forall|k: int| 0 <= k < count ==> #[trigger] f(k) == g(k),
        ensures
            self.total(f, count) == self.total(g, count),
        decreases count,
    {
        if count > 0 {
            self.total_same(f, g, count - 1);
            assert(f(count - 1) == g(count - 1));
        }
    }

    /// The total of sums is the sum of the totals.
    pub proof fn total_of_sums(
        self,
        h: spec_fn(int) -> D,
        f: spec_fn(int) -> D,
        g: spec_fn(int) -> D,
        count: int,
    )
        requires
            self.is_ring(),
            forall|k: int| 0 <= k < count ==> #[trigger] h(k) == self.sum(f(k), g(k)),
        ensures
            self.total(h, count) == self.sum(self.total(f, count), self.total(g, count)),
        decreases count,
    {
        if count > 0 {
            self.total_of_sums(h, f, g, count - 1);
            assert(h(count - 1) == self.sum(f(count - 1), g(count - 1)));
            self.sums_interchange(
                self.total(f, count - 1),
                self.total(g, count - 1),
                f(count - 1),
                g(count - 1),
            );
        } else {
            self.sum_with_zero(self.zero);
        }
    }

    /// A common factor can be drawn out of a total.
    pub proof fn total_of_multiples(
        self,
        h: spec_fn(int) -> D,
        c: D,
        f: spec_fn(int) -> D,
        count: int,
    )
        requires
            self.is_ring(),
            forall|k: int| 0 <= k < count ==> #[trigger] h(k) == self.product(c, f(k)),
        ensures
            self.total(h, count) == self.product(c, self.total(f, count)),
        decreases count,
    {
        if count > 0 {
            self.total_of_multiples(h, c, f, count - 1);
            assert(h(count - 1) == self.product(c, f(count - 1)));
            self.product_distributes(c, self.total(f, count - 1), f(count - 1));
        } else {
            self.product_with_zero(c);
        }
    }

    pub proof fn total_of_conjugates(
        self,
        h: spec_fn(int) -> D,
        f: spec_fn(int) -> D,
        count: int,
    )
        requires
            self.is_ring(),
            forall|k: int| 0 <= k < count ==> #[trigger] h(k) == self.conj(f(k)),
        ensures
            self.total(h, count) == self.conj(self.total(f, count)),
        decreases count,
    {
        if count > 0 {
            self.total_of_conjugates(h, f, count - 1);
            assert(h(count - 1) == self.conj(f(count - 1)));
            self.conj_of_sum(self.total(f, count - 1), f(count - 1));
        } else {
            self.conj_of_constants();
        }
    }

    pub proof fn total_of_zeros(self, f: spec_fn(int) -> D, count: int)
        requires
            self.is_ring(),
            forall|k: int| 0 <= k < count ==> #[trigger] f(k) == self.zero,
        ensures
            self.total(f, count) == self.zero,
        decreases count,
    {
        if count > 0 {
            self.total_of_zeros(f, count - 1);
            assert(f(count - 1) == self.zero);
            self.sum_with_zero(self.zero);
        }
    }

    /// A total with one term that is not zero.
    pub proof fn total_of_one(self, f: spec_fn(int) -> D, at: int, count: int)
        requires
            self.is_ring(),
            0 <= at < count,
            forall|k: int| 0 <= k < count && k != at ==> #[trigger] f(k) == self.zero,
        ensures
            self.total(f, count) == f(at),
        decreases count,
    {
        if at == count - 1 {
            self.total_of_zeros(f, count - 1);
            self.sum_with_zero(f(at));
        } else {
            self.total_of_one(f, at, count - 1);
            assert(f(count - 1) == self.zero);
            self.sum_with_zero(f(at));
        }
    }

    /// The order of two totals can be exchanged.
    pub proof fn totals_exchange(self, f: spec_fn(int, int) -> D, n: int, m: int)
        requires
            self.is_ring(),
        ensures
            self.total(|i: int| self.total(|j: int| f(i, j), m), n) == self.total(
                |j: int| self.total(|i: int| f(i, j), n),
                m,
            ),
        decreases n,
    {
        let rows = |i: int| self.total(|j: int| f(i, j), m);
        let cols = |j: int| self.total(|i: int| f(i, j), n);
        if n > 0 {
            self.totals_exchange(f, n - 1, m);
            let shorter = |j: int| self.total(|i: int| f(i, j), n - 1);
            let last = |j: int| f(n - 1, j);
            assert forall|j: int| 0 <= j < m implies #[trigger] cols(j) == self.sum(
                shorter(j),
                last(j),
            ) by {
                let column = |i: int| f(i, j);
                assert(self.total(column, n) == self.sum(self.total(column, n - 1), column(n - 1)));
            }
            self.total_of_sums(cols, shorter, last, m);
            assert(rows(n - 1) == self.total(last, m)) by {
                self.total_same(|j: int| f(n - 1, j), last, m);
            }
        } else {
            assert forall|j: int| 0 <= j < m implies #[trigger] cols(j) == self.zero by {}
            self.total_of_zeros(cols, m);
        }
    }
}

/// A matrix with its cells in column-major order.
pub struct Matrix<D> {
    pub rows: int,
    pub cols: int,
    pub cells: Seq<D>,
}

impl<D> Matrix<D> {
    /// There is a cell for every row and column.
    pub open spec fn shaped(self) -> bool {
        &&& 0 <= self.rows
        &&& 0 <= self.cols
        &&& self.cells.len() == self.rows * self.cols
    }

    /// The cell in this row and column.
    pub open spec fn at(self, row: int, col: int) -> D {
        self.cells[row + self.rows * col]
    }
}

/// A matrix with these cells.
pub open spec fn matrix<D>(rows: int, cols: int, cells: Seq<D>) -> Matrix<D> {
    Matrix { rows, cols, cells }
}

/// The matrix whose cells are given by row and column.
pub open spec fn tabulated<D>(rows: int, cols: int, cell: spec_fn(int, int) -> D) -> Matrix<D> {
    Matrix {
        rows,
        cols,
        cells: Seq::new((rows * cols) as nat, |n: int| cell(n % rows, n / rows)),
    }
}

/// Every row and column has a place of its own.
pub proof fn lemma_place(rows: int, cols: int, row: int, col: int)
    requires
        0 <= row < rows,
        0 <= col < cols,
    ensures
        0 <= row + rows * col < rows * cols,
        (row + rows * col) % rows == row,
        (row + rows * col) / rows == col,
{
    assert(0 <= rows * col) by (nonlinear_arith)
        requires
            0 <= rows,
            0 <= col,
    ;
    assert(rows * col + rows <= rows * cols) by (nonlinear_arith)
        requires
            0 <= rows,
            col + 1 <= cols,
    ;
    vstd::arithmetic::div_mod::lemma_fundamental_div_mod_converse(
        row + rows * col,
        rows,
        col,
        row,
    );
}

/// Every place belongs to a row and a column.
pub proof fn lemma_place_of(rows: int, cols: int, n: int)
    requires
        0 <= rows,
        0 <= cols,
        0 <= n < rows * cols,
    ensures
        0 <= n % rows < rows,
        0 <= n / rows < cols,
        n == n % rows + rows * (n / rows),
{
    assert(rows > 0) by (nonlinear_arith)
        requires
            0 <= rows,
            0 < rows * cols,
    ;
    vstd::arithmetic::div_mod::lemma_fundamental_div_mod(n, rows);
    let q = n / rows;
    let rest = n % rows;
    assert(q < cols) by (nonlinear_arith)
        requires
            n == rows * q + rest,
            0 <= rest,
            n < rows * cols,
            rows > 0,
    ;
    assert(0 <= q) by (nonlinear_arith)
        requires
            n == rows * q + rest,
            rest < rows,
            0 <= n,
            rows > 0,
    ;
}

pub proof fn lemma_tabulated<D>(rows: int, cols: int, cell: spec_fn(int, int) -> D)
    requires
        0 <= rows,
        0 <= cols,
    ensures
        tabulated(rows, cols, cell).shaped(),
        forall|i: int, j: int|
            0 <= i < rows && 0 <= j < cols ==> #[trigger] tabulated(rows, cols, cell).at(i, j)
                == cell(i, j),
{
    assert(0 <= rows * cols) by (nonlinear_arith)
        requires
            0 <= rows,
            0 <= cols,
    ;
    assert forall|i: int, j: int| 0 <= i < rows && 0 <= j < cols implies #[trigger] tabulated(
        rows,
        cols,
        cell,
    ).at(i, j) == cell(i, j) by {
        lemma_place(rows, cols, i, j);
    }
}

/// Matrices that agree in every cell are equal.
pub proof fn lemma_same_cells<D>(a: Matrix<D>, b: Matrix<D>)
    requires
        a.shaped(),
        b.shaped(),
        a.rows == b.rows,
        a.cols == b.cols,
        forall|i: int, j: int|
            0 <= i < a.rows && 0 <= j < a.cols ==> #[trigger] a.at(i, j) == b.at(i, j),
    ensures
        a == b,
{
    assert forall|n: int| 0 <= n < a.cells.len() implies a.cells[n] == b.cells[n] by {
        lemma_place_of(a.rows, a.cols, n);
        assert(a.at(n % a.rows, n / a.rows) == b.at(n % a.rows, n / a.rows));
    }
    assert(a.cells =~= b.cells);
}

impl<D> Ring<D> {
    /// The matrix product: row times column.
    pub open spec fn mul(self, a: Matrix<D>, b: Matrix<D>) -> Matrix<D> {
        tabulated(
            a.rows,
            b.cols,
            |i: int, j: int| self.total(|k: int| self.product(a.at(i, k), b.at(k, j)), a.cols),
        )
    }

    /// The sum of two matrices.
    pub open spec fn add(self, a: Matrix<D>, b: Matrix<D>) -> Matrix<D> {
        tabulated(a.rows, a.cols, |i: int, j: int| self.sum(a.at(i, j), b.at(i, j)))
    }

    /// A multiple of a matrix.
    pub open spec fn scale(self, c: D, a: Matrix<D>) -> Matrix<D> {
        tabulated(a.rows, a.cols, |i: int, j: int| self.product(c, a.at(i, j)))
    }

    /// The matrix with these values on its diagonal.
    pub open spec fn diagonal(self, values: Seq<D>) -> Matrix<D> {
        tabulated(
            values.len() as int,
            values.len() as int,
            |i: int, j: int|
                if i == j {
                    values[i]
                } else {
                    self.zero
                },
        )
    }

    /// The identity matrix.
    pub open spec fn identity(self, order: int) -> Matrix<D> {
        tabulated(
            order,
            order,
            |i: int, j: int|
                if i == j {
                    self.one
                } else {
                    self.zero
                },
        )
    }

    /// The conjugate transpose.
    pub open spec fn adjoint(self, a: Matrix<D>) -> Matrix<D> {
        tabulated(a.cols, a.rows, |i: int, j: int| self.conj(a.at(j, i)))
    }

    pub proof fn mul_cells(self, a: Matrix<D>, b: Matrix<D>)
        requires
            a.shaped(),
            b.shaped(),
        ensures
            self.mul(a, b).shaped(),
            self.mul(a, b).rows == a.rows,
            self.mul(a, b).cols == b.cols,
            forall|i: int, j: int|
                0 <= i < a.rows && 0 <= j < b.cols ==> #[trigger] self.mul(a, b).at(i, j)
                    == self.total(|k: int| self.product(a.at(i, k), b.at(k, j)), a.cols),
    {
        lemma_tabulated(
            a.rows,
            b.cols,
            |i: int, j: int| self.total(|k: int| self.product(a.at(i, k), b.at(k, j)), a.cols),
        );
    }

    pub proof fn add_cells(self, a: Matrix<D>, b: Matrix<D>)
        requires
            a.shaped(),
        ensures
            self.add(a, b).shaped(),
            self.add(a, b).rows == a.rows,
            self.add(a, b).cols == a.cols,
            forall|i: int, j: int|
                0 <= i < a.rows && 0 <= j < a.cols ==> #[trigger] self.add(a, b).at(i, j)
                    == self.sum(a.at(i, j), b.at(i, j)),
    {
        lemma_tabulated(a.rows, a.cols, |i: int, j: int| self.sum(a.at(i, j), b.at(i, j)));
    }

    pub proof fn scale_cells(self, c: D, a: Matrix<D>)
        requires
            a.shaped(),
        ensures
            self.scale(c, a).shaped(),
            self.scale(c, a).rows == a.rows,
            self.scale(c, a).cols == a.cols,
            forall|i: int, j: int|
                0 <= i < a.rows && 0 <= j < a.cols ==> #[trigger] self.scale(c, a).at(i, j)
                    == self.product(c, a.at(i, j)),
    {
        lemma_tabulated(a.rows, a.cols, |i: int, j: int| self.product(c, a.at(i, j)));
    }

    pub proof fn diagonal_cells(self, values: Seq<D>)
        ensures
            self.diagonal(values).shaped(),
            self.diagonal(values).rows == values.len(),
            self.diagonal(values).cols == values.len(),
            forall|i: int, j: int|
                0 <= i < values.len() && 0 <= j < values.len() ==> #[trigger] self.diagonal(
                    values,
                ).at(i, j) == if i == j {
                    values[i]
                } else {
                    self.zero
                },
    {
        lemma_tabulated(
            values.len() as int,
            values.len() as int,
            |i: int, j: int|
                if i == j {
                    values[i]
                } else {
                    self.zero
                },
        );
    }

    pub proof fn identity_cells(self, order: int)
        requires
            0 <= order,
        ensures
            self.identity(order).shaped(),
            self.identity(order).rows == order,
            self.identity(order).cols == order,
            forall|i: int, j: int|
                0 <= i < order && 0 <= j < order ==> #[trigger] self.identity(order).at(i, j)
                    == if i == j {
                    self.one
                } else {
                    self.zero
                },
    {
        lemma_tabulated(
            order,
            order,
            |i: int, j: int|
                if i == j {
                    self.one
                } else {
                    self.zero
                },
        );
    }

    pub proof fn adjoint_cells(self, a: Matrix<D>)
        requires
            a.shaped(),
        ensures
            self.adjoint(a).shaped(),
            self.adjoint(a).rows == a.cols,
            self.adjoint(a).cols == a.rows,
            forall|i: int, j: int|
                0 <= i < a.cols && 0 <= j < a.rows ==> #[trigger] self.adjoint(a).at(i, j)
                    == self.conj(a.at(j, i)),
    {
        lemma_tabulated(a.cols, a.rows, |i: int, j: int| self.conj(a.at(j, i)));
    }

    /// Products of matrices associate.
    pub proof fn mul_associates(self, a: Matrix<D>, b: Matrix<D>, c: Matrix<D>)
        requires
            self.is_ring(),
            a.shaped(),
            b.shaped(),
            c.shaped(),
            a.cols == b.rows,
            b.cols == c.rows,
        ensures
            self.mul(self.mul(a, b), c) == self.mul(a, self.mul(b, c)),
            self.mul(a, self.mul(b, c)).shaped(),
    {
        let ab = self.mul(a, b);
        let bc = self.mul(b, c);
        self.mul_cells(a, b);
        self.mul_cells(b, c);
        self.mul_cells(ab, c);
        self.mul_cells(a, bc);
        let left = self.mul(ab, c);
        let right = self.mul(a, bc);
        assert forall|i: int, j: int| 0 <= i < left.rows && 0 <= j < left.cols implies
            #[trigger] left.at(i, j) == right.at(i, j) by {
            let term = |k: int, l: int|
                self.product(self.product(a.at(i, k), b.at(k, l)), c.at(l, j));
            let by_l = |l: int| self.total(|k: int| term(k, l), a.cols);
            let by_k = |k: int| self.total(|l: int| term(k, l), b.cols);
            let on_left = |l: int| self.product(ab.at(i, l), c.at(l, j));
            let on_right = |k: int| self.product(a.at(i, k), bc.at(k, j));
            assert forall|l: int| 0 <= l < b.cols implies #[trigger] on_left(l) == by_l(l) by {
                let inner = |k: int| self.product(a.at(i, k), b.at(k, l));
                let column = |k: int| term(k, l);
                assert(ab.at(i, l) == self.total(inner, a.cols));
                assert forall|k: int| 0 <= k < a.cols implies #[trigger] column(k)
                    == self.product(c.at(l, j), inner(k)) by {
                    self.product_commutes(inner(k), c.at(l, j));
                }
                self.total_of_multiples(column, c.at(l, j), inner, a.cols);
                self.product_commutes(ab.at(i, l), c.at(l, j));
            }
            assert forall|k: int| 0 <= k < a.cols implies #[trigger] on_right(k) == by_k(k) by {
                let inner = |l: int| self.product(b.at(k, l), c.at(l, j));
                let row = |l: int| term(k, l);
                assert(bc.at(k, j) == self.total(inner, b.cols));
                assert forall|l: int| 0 <= l < b.cols implies #[trigger] row(l) == self.product(
                    a.at(i, k),
                    inner(l),
                ) by {
                    self.product_associates(a.at(i, k), b.at(k, l), c.at(l, j));
                }
                self.total_of_multiples(row, a.at(i, k), inner, b.cols);
            }
            self.total_same(on_left, by_l, b.cols);
            self.total_same(on_right, by_k, a.cols);
            self.totals_exchange(term, a.cols, b.cols);
            assert(left.at(i, j) == self.total(on_left, ab.cols));
            assert(right.at(i, j) == self.total(on_right, a.cols));
        }
        lemma_same_cells(left, right);
    }

    /// The identity is neutral.
    pub proof fn mul_with_identity(self, a: Matrix<D>)
        requires
            self.is_ring(),
            a.shaped(),
        ensures
            self.mul(a, self.identity(a.cols)) == a,
            self.mul(self.identity(a.rows), a) == a,
    {
        let right = self.identity(a.cols);
        let left = self.identity(a.rows);
        self.identity_cells(a.cols);
        self.identity_cells(a.rows);
        self.mul_cells(a, right);
        self.mul_cells(left, a);
        assert forall|i: int, j: int| 0 <= i < a.rows && 0 <= j < a.cols implies
            #[trigger] self.mul(a, right).at(i, j) == a.at(i, j) by {
            let term = |k: int| self.product(a.at(i, k), right.at(k, j));
            assert forall|k: int| 0 <= k < a.cols && k != j implies #[trigger] term(k)
                == self.zero by {
                self.product_with_zero(a.at(i, k));
            }
            self.total_of_one(term, j, a.cols);
            self.product_with_one(a.at(i, j));
        }
        lemma_same_cells(self.mul(a, right), a);
        assert forall|i: int, j: int| 0 <= i < a.rows && 0 <= j < a.cols implies
            #[trigger] self.mul(left, a).at(i, j) == a.at(i, j) by {
            let term = |k: int| self.product(left.at(i, k), a.at(k, j));
            assert forall|k: int| 0 <= k < a.rows && k != i implies #[trigger] term(k)
                == self.zero by {
                self.product_with_zero(a.at(k, j));
            }
            self.total_of_one(term, i, a.rows);
            self.product_with_one(a.at(i, j));
        }
        lemma_same_cells(self.mul(left, a), a);
    }

    /// A diagonal on the left multiplies the rows.
    pub proof fn diagonal_times(self, values: Seq<D>, a: Matrix<D>)
        requires
            self.is_ring(),
            a.shaped(),
            a.rows == values.len(),
        ensures
            self.mul(self.diagonal(values), a).shaped(),
            forall|i: int, j: int|
                0 <= i < a.rows && 0 <= j < a.cols ==> #[trigger] self.mul(
                    self.diagonal(values),
                    a,
                ).at(i, j) == self.product(values[i], a.at(i, j)),
    {
        let d = self.diagonal(values);
        self.diagonal_cells(values);
        self.mul_cells(d, a);
        assert forall|i: int, j: int| 0 <= i < a.rows && 0 <= j < a.cols implies
            #[trigger] self.mul(d, a).at(i, j) == self.product(values[i], a.at(i, j)) by {
            let term = |k: int| self.product(d.at(i, k), a.at(k, j));
            assert forall|k: int| 0 <= k < a.rows && k != i implies #[trigger] term(k)
                == self.zero by {
                self.product_with_zero(a.at(k, j));
            }
            self.total_of_one(term, i, a.rows);
        }
    }

    /// A diagonal on the right multiplies the columns.
    pub proof fn times_diagonal(self, a: Matrix<D>, values: Seq<D>)
        requires
            self.is_ring(),
            a.shaped(),
            a.cols == values.len(),
        ensures
            self.mul(a, self.diagonal(values)).shaped(),
            forall|i: int, j: int|
                0 <= i < a.rows && 0 <= j < a.cols ==> #[trigger] self.mul(
                    a,
                    self.diagonal(values),
                ).at(i, j) == self.product(a.at(i, j), values[j]),
    {
        let d = self.diagonal(values);
        self.diagonal_cells(values);
        self.mul_cells(a, d);
        assert forall|i: int, j: int| 0 <= i < a.rows && 0 <= j < a.cols implies
            #[trigger] self.mul(a, d).at(i, j) == self.product(a.at(i, j), values[j]) by {
            let term = |k: int| self.product(a.at(i, k), d.at(k, j));
            assert forall|k: int| 0 <= k < a.cols && k != j implies #[trigger] term(k)
                == self.zero by {
                self.product_with_zero(a.at(i, k));
            }
            self.total_of_one(term, j, a.cols);
        }
    }

    /// The product of two diagonals.
    pub proof fn diagonals_multiply(self, a: Seq<D>, b: Seq<D>)
        requires
            self.is_ring(),
            a.len() == b.len(),
        ensures
            self.mul(self.diagonal(a), self.diagonal(b)) == self.diagonal(
                Seq::new(a.len(), |k: int| self.product(a[k], b[k])),
            ),
    {
        let c = Seq::new(a.len(), |k: int| self.product(a[k], b[k]));
        self.diagonal_cells(b);
        self.diagonal_cells(c);
        self.diagonal_times(a, self.diagonal(b));
        let m = self.mul(self.diagonal(a), self.diagonal(b));
        assert forall|i: int, j: int| 0 <= i < m.rows && 0 <= j < m.cols implies
            #[trigger] m.at(i, j) == self.diagonal(c).at(i, j) by {
            self.product_with_zero(a[i]);
        }
        lemma_same_cells(m, self.diagonal(c));
    }

    /// The adjoint of a product is the product of the adjoints in reverse.
    pub proof fn adjoint_of_product(self, a: Matrix<D>, b: Matrix<D>)
        requires
            self.is_ring(),
            a.shaped(),
            b.shaped(),
            a.cols == b.rows,
        ensures
            self.adjoint(self.mul(a, b)) == self.mul(self.adjoint(b), self.adjoint(a)),
    {
        self.mul_cells(a, b);
        self.adjoint_cells(a);
        self.adjoint_cells(b);
        self.adjoint_cells(self.mul(a, b));
        self.mul_cells(self.adjoint(b), self.adjoint(a));
        let left = self.adjoint(self.mul(a, b));
        let right = self.mul(self.adjoint(b), self.adjoint(a));
        assert forall|i: int, j: int| 0 <= i < left.rows && 0 <= j < left.cols implies
            #[trigger] left.at(i, j) == right.at(i, j) by {
            let term = |k: int| self.product(a.at(j, k), b.at(k, i));
            let other = |k: int| self.product(self.adjoint(b).at(i, k), self.adjoint(a).at(k, j));
            assert forall|k: int| 0 <= k < a.cols implies #[trigger] other(k) == self.conj(
                term(k),
            ) by {
                self.conj_of_product(a.at(j, k), b.at(k, i));
                self.product_commutes(self.conj(a.at(j, k)), self.conj(b.at(k, i)));
            }
            self.total_of_conjugates(other, term, a.cols);
        }
        lemma_same_cells(left, right);
    }

    pub proof fn adjoint_twice(self, a: Matrix<D>)
        requires
            self.is_ring(),
            a.shaped(),
        ensures
            self.adjoint(self.adjoint(a)) == a,
            self.adjoint(a).shaped(),
    {
        self.adjoint_cells(a);
        self.adjoint_cells(self.adjoint(a));
        let twice = self.adjoint(self.adjoint(a));
        assert forall|i: int, j: int| 0 <= i < a.rows && 0 <= j < a.cols implies
            #[trigger] twice.at(i, j) == a.at(i, j) by {
            assert(self.adjoint(a).at(j, i) == self.conj(a.at(i, j)));
            self.conj_twice(a.at(i, j));
        }
        lemma_same_cells(twice, a);
    }

    /// A real diagonal is its own adjoint.
    pub proof fn adjoint_of_diagonal(self, values: Seq<D>)
        requires
            self.is_ring(),
            forall|k: int| 0 <= k < values.len() ==> self.conj(#[trigger] values[k]) == values[k],
        ensures
            self.adjoint(self.diagonal(values)) == self.diagonal(values),
    {
        self.diagonal_cells(values);
        self.adjoint_cells(self.diagonal(values));
        self.conj_of_constants();
        let d = self.diagonal(values);
        assert forall|i: int, j: int| 0 <= i < d.rows && 0 <= j < d.cols implies
            #[trigger] self.adjoint(d).at(i, j) == d.at(i, j) by {
            assert(d.at(j, i) == if i == j {
                values[j]
            } else {
                self.zero
            });
        }
        lemma_same_cells(self.adjoint(d), d);
    }

    pub proof fn adjoint_of_identity(self, order: int)
        requires
            self.is_ring(),
            0 <= order,
        ensures
            self.adjoint(self.identity(order)) == self.identity(order),
    {
        self.identity_cells(order);
        self.adjoint_cells(self.identity(order));
        self.conj_of_constants();
        let d = self.identity(order);
        assert forall|i: int, j: int| 0 <= i < d.rows && 0 <= j < d.cols implies
            #[trigger] self.adjoint(d).at(i, j) == d.at(i, j) by {
            assert(d.at(j, i) == if i == j {
                self.one
            } else {
                self.zero
            });
        }
        lemma_same_cells(self.adjoint(d), d);
    }

    /// Products distribute over sums of matrices.
    pub proof fn mul_distributes(self, a: Matrix<D>, b: Matrix<D>, c: Matrix<D>)
        requires
            self.is_ring(),
            a.shaped(),
            b.shaped(),
            c.shaped(),
            a.cols == b.rows,
            b.rows == c.rows,
            b.cols == c.cols,
        ensures
            self.mul(a, self.add(b, c)) == self.add(self.mul(a, b), self.mul(a, c)),
    {
        self.add_cells(b, c);
        self.mul_cells(a, b);
        self.mul_cells(a, c);
        self.mul_cells(a, self.add(b, c));
        self.add_cells(self.mul(a, b), self.mul(a, c));
        let left = self.mul(a, self.add(b, c));
        let right = self.add(self.mul(a, b), self.mul(a, c));
        assert forall|i: int, j: int| 0 <= i < left.rows && 0 <= j < left.cols implies
            #[trigger] left.at(i, j) == right.at(i, j) by {
            let h = |k: int| self.product(a.at(i, k), self.add(b, c).at(k, j));
            let f = |k: int| self.product(a.at(i, k), b.at(k, j));
            let g = |k: int| self.product(a.at(i, k), c.at(k, j));
            assert forall|k: int| 0 <= k < a.cols implies #[trigger] h(k) == self.sum(
                f(k),
                g(k),
            ) by {
                self.product_distributes(a.at(i, k), b.at(k, j), c.at(k, j));
            }
            self.total_of_sums(h, f, g, a.cols);
            assert(self.mul(a, b).at(i, j) == self.total(f, a.cols));
            assert(self.mul(a, c).at(i, j) == self.total(g, a.cols));
        }
        lemma_same_cells(left, right);
    }

    /// A multiple can be drawn out of a product.
    pub proof fn mul_of_multiple(self, a: Matrix<D>, c: D, b: Matrix<D>)
        requires
            self.is_ring(),
            a.shaped(),
            b.shaped(),
            a.cols == b.rows,
        ensures
            self.mul(a, self.scale(c, b)) == self.scale(c, self.mul(a, b)),
    {
        self.scale_cells(c, b);
        self.mul_cells(a, b);
        self.mul_cells(a, self.scale(c, b));
        self.scale_cells(c, self.mul(a, b));
        let left = self.mul(a, self.scale(c, b));
        let right = self.scale(c, self.mul(a, b));
        assert forall|i: int, j: int| 0 <= i < left.rows && 0 <= j < left.cols implies
            #[trigger] left.at(i, j) == right.at(i, j) by {
            let h = |k: int| self.product(a.at(i, k), self.scale(c, b).at(k, j));
            let f = |k: int| self.product(a.at(i, k), b.at(k, j));
            assert forall|k: int| 0 <= k < a.cols implies #[trigger] h(k) == self.product(
                c,
                f(k),
            ) by {
                self.product_associates(a.at(i, k), c, b.at(k, j));
                self.product_commutes(a.at(i, k), c);
                self.product_associates(c, a.at(i, k), b.at(k, j));
            }
            self.total_of_multiples(h, c, f, a.cols);
            assert(self.mul(a, b).at(i, j) == self.total(f, a.cols));
        }
        lemma_same_cells(left, right);
    }
}

} // verus!
