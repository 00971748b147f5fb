//! Backends that compute exactly, and what the parts of a factorization are then
//! in terms of matrices.

use vstd::prelude::*;

use crate::dense::adjoint_matrix;
use crate::error::OperationError;
use crate::gauge_laws::{is_strided, lemma_scale_strided, strided};
use crate::matrix_functions::hermitian_part;
use crate::ring::{lemma_place, lemma_same_cells, matrix, Ring};
use crate::spectrum::{combined, image};
use crate::svd_stage::{cols_scaled, rows_scaled};

verus! {

/// The function adds in the ring.
pub open spec fn adds_in<D, A: Fn(D, D) -> D>(ring: Ring<D>, plus: A) -> bool {
    forall|a: D, b: D| #[trigger] combined(plus, a, b) == ring.sum(a, b)
}

/// The function multiplies in the ring.
pub open spec fn multiplies_in<D, G: Fn(D, D) -> D>(ring: Ring<D>, multiply: G) -> bool {
    forall|a: D, b: D| #[trigger] combined(multiply, a, b) == ring.product(a, b)
}

/// The function conjugates in the ring.
pub open spec fn conjugates_in<D, C: Fn(D) -> D>(ring: Ring<D>, conjugate: C) -> bool {
    forall|a: D| #[trigger] image(conjugate, a) == ring.conj(a)
}

/// Products that the backend gives are matrix products.
pub open spec fn multiplies_exactly<
    D,
    M: Fn(&[D], usize, usize, &[D], usize) -> Result<Vec<D>, OperationError>,
>(ring: Ring<D>, matmul: M) -> bool {
    forall|x: &[D], rows: usize, inner: usize, y: &[D], cols: usize, product: Vec<D>| #[trigger]
        call_ensures(
            matmul,
            (x, rows, inner, y, cols),
            Ok::<Vec<D>, OperationError>(product),
        ) ==> matrix(rows as int, cols as int, product@) == ring.mul(
            matrix(rows as int, inner as int, x@),
            matrix(inner as int, cols as int, y@),
        )
}

/// Solutions that the backend gives solve their systems.
pub open spec fn solves_exactly<
    D,
    S: Fn(&[D], usize, &[D], usize) -> Result<Vec<D>, OperationError>,
>(ring: Ring<D>, solve: S) -> bool {
    forall|x: &[D], order: usize, y: &[D], cols: usize, solution: Vec<D>| #[trigger]
        call_ensures(
            solve,
            (x, order, y, cols),
            Ok::<Vec<D>, OperationError>(solution),
        ) ==> {
            &&& solution@.len() == order * cols
            &&& ring.mul(
                matrix(order as int, order as int, x@),
                matrix(order as int, cols as int, solution@),
            ) == matrix(order as int, cols as int, y@)
        }
}

/// The adjoint of a buffer is the conjugate transpose of the matrix in it: cell
/// `(j, i)` holds the conjugate of cell `(i, j)`.
pub proof fn lemma_adjoint_is_adjoint<D, C: Fn(D) -> D>(
    ring: Ring<D>,
    conjugate: C,
    data: Seq<D>,
    rows: int,
    cols: int,
)
    requires
        conjugates_in(ring, conjugate),
        0 <= rows,
        0 <= cols,
        data.len() == rows * cols,
    ensures
        matrix(cols, rows, adjoint_matrix(conjugate, data, rows, cols)) == ring.adjoint(
            matrix(rows, cols, data),
        ),
        matrix(cols, rows, adjoint_matrix(conjugate, data, rows, cols)).shaped(),
{
    let a = matrix(rows, cols, data);
    let found = matrix(cols, rows, adjoint_matrix(conjugate, data, rows, cols));
    assert(rows * cols == cols * rows) by (nonlinear_arith);
    ring.adjoint_cells(a);
    assert forall|i: int, j: int| 0 <= i < cols && 0 <= j < rows implies #[trigger] found.at(i, j)
        == ring.adjoint(a).at(i, j) by {
        lemma_place(cols, rows, i, j);
        assert(ring.adjoint(a).at(i, j) == ring.conj(a.at(j, i)));
    }
    lemma_same_cells(found, ring.adjoint(a));
}

/// Scaling the rows of a matrix multiplies it by a diagonal from the left.
pub proof fn lemma_rows_scaled<D, G: Fn(D, D) -> D>(
    ring: Ring<D>,
    multiply: G,
    data: Seq<D>,
    rows: int,
    cols: int,
    factors: Seq<D>,
)
    requires
        ring.is_ring(),
        multiplies_in(ring, multiply),
        0 <= cols,
        data.len() == rows * cols,
        factors.len() == rows,
    ensures
        matrix(rows, cols, rows_scaled(data, cols, rows, factors, multiply, rows)) == ring.mul(
            ring.diagonal(factors),
            matrix(rows, cols, data),
        ),
        rows_scaled(data, cols, rows, factors, multiply, rows).len() == data.len(),
{
    let a = matrix(rows, cols, data);
    let found = matrix(rows, cols, rows_scaled(data, cols, rows, factors, multiply, rows));
    lemma_scaled_rows(multiply, data, rows, cols, factors, rows);
    ring.diagonal_times(factors, a);
    ring.diagonal_cells(factors);
    ring.mul_cells(ring.diagonal(factors), a);
    let expected = ring.mul(ring.diagonal(factors), a);
    assert forall|i: int, j: int| 0 <= i < rows && 0 <= j < cols implies #[trigger] found.at(i, j)
        == expected.at(i, j) by {
        ring.product_commutes(factors[i], a.at(i, j));
    }
    lemma_same_cells(found, expected);
}

proof fn lemma_scaled_rows<D, G: Fn(D, D) -> D>(
    multiply: G,
    data: Seq<D>,
    rows: int,
    cols: int,
    factors: Seq<D>,
    count: int,
)
    requires
        0 <= cols,
        0 <= count <= rows,
        data.len() == rows * cols,
        factors.len() == rows,
    ensures
        rows_scaled(data, cols, rows, factors, multiply, count).len() == data.len(),
        forall|i: int, j: int|
            0 <= i < rows && 0 <= j < cols ==> #[trigger] matrix(
                rows,
                cols,
                rows_scaled(data, cols, rows, factors, multiply, count),
            ).at(i, j) == if i < count {
                combined(multiply, data[i + rows * j], factors[i])
            } else {
                data[i + rows * j]
            },
    decreases count,
{
    if count > 0 {
        lemma_scaled_rows(multiply, data, rows, cols, factors, count - 1);
        let before = rows_scaled(data, cols, rows, factors, multiply, count - 1);
        let after = rows_scaled(data, cols, rows, factors, multiply, count);
        let row = count - 1;
        if cols > 0 {
            lemma_place(rows, cols, row, cols - 1);
        }
        lemma_scale_strided(before, row, rows, factors[row], multiply, cols);
        assert forall|i: int, j: int| 0 <= i < rows && 0 <= j < cols implies #[trigger] matrix(
            rows,
            cols,
            after,
        ).at(i, j) == if i < count {
            combined(multiply, data[i + rows * j], factors[i])
        } else {
            data[i + rows * j]
        } by {
            lemma_place(rows, cols, i, j);
            let q = i + rows * j;
            assert(matrix(rows, cols, before).at(i, j) == before[q]);
            if i == row {
                assert(strided(row, rows, j) == q);
            } else {
                if is_strided(row, rows, cols, q) {
                    let k = choose|k: int| 0 <= k < cols && #[trigger] strided(row, rows, k) == q;
                    lemma_place(rows, cols, row, k);
                }
            }
        }
    } else {
        assert(rows_scaled(data, cols, rows, factors, multiply, count) == data);
    }
}

/// Scaling the columns of a matrix multiplies it by a diagonal from the right.
pub proof fn lemma_cols_scaled<D, G: Fn(D, D) -> D>(
    ring: Ring<D>,
    multiply: G,
    data: Seq<D>,
    rows: int,
    cols: int,
    factors: Seq<D>,
)
    requires
        ring.is_ring(),
        multiplies_in(ring, multiply),
        0 <= rows,
        data.len() == rows * cols,
        factors.len() == cols,
    ensures
        matrix(rows, cols, cols_scaled(data, rows, factors, multiply, cols)) == ring.mul(
            matrix(rows, cols, data),
            ring.diagonal(factors),
        ),
        cols_scaled(data, rows, factors, multiply, cols).len() == data.len(),
{
    let a = matrix(rows, cols, data);
    let found = matrix(rows, cols, cols_scaled(data, rows, factors, multiply, cols));
    lemma_scaled_cols(multiply, data, rows, cols, factors, cols);
    ring.times_diagonal(a, factors);
    ring.diagonal_cells(factors);
    ring.mul_cells(a, ring.diagonal(factors));
    let expected = ring.mul(a, ring.diagonal(factors));
    assert forall|i: int, j: int| 0 <= i < rows && 0 <= j < cols implies #[trigger] found.at(i, j)
        == expected.at(i, j) by {}
    lemma_same_cells(found, expected);
}

proof fn lemma_scaled_cols<D, G: Fn(D, D) -> D>(
    multiply: G,
    data: Seq<D>,
    rows: int,
    cols: int,
    factors: Seq<D>,
    count: int,
)
    requires
        0 <= rows,
        0 <= count <= cols,
        data.len() == rows * cols,
        factors.len() == cols,
    ensures
        cols_scaled(data, rows, factors, multiply, count).len() == data.len(),
        forall|i: int, j: int|
            0 <= i < rows && 0 <= j < cols ==> #[trigger] matrix(
                rows,
                cols,
                cols_scaled(data, rows, factors, multiply, count),
            ).at(i, j) == if j < count {
                combined(multiply, data[i + rows * j], factors[j])
            } else {
                data[i + rows * j]
            },
    decreases count,
{
    if count > 0 {
        lemma_scaled_cols(multiply, data, rows, cols, factors, count - 1);
        let before = cols_scaled(data, rows, factors, multiply, count - 1);
        let after = cols_scaled(data, rows, factors, multiply, count);
        let col = count - 1;
        if rows > 0 {
            lemma_place(rows, cols, rows - 1, col);
            lemma_place(rows, cols, 0, col);
        }
        assert(0 <= rows * col) by (nonlinear_arith)
            requires
                0 <= rows,
                0 <= col,
        ;
        lemma_scale_strided(before, rows * col, 1, factors[col], multiply, rows);
        assert forall|i: int, j: int| 0 <= i < rows && 0 <= j < cols implies #[trigger] matrix(
            rows,
            cols,
            after,
        ).at(i, j) == if j < count {
            combined(multiply, data[i + rows * j], factors[j])
        } else {
            data[i + rows * j]
        } by {
            lemma_place(rows, cols, i, j);
            let q = i + rows * j;
            assert(matrix(rows, cols, before).at(i, j) == before[q]);
            if j == col {
                assert(strided(rows * col, 1, i) == q);
            } else {
                if is_strided(rows * col, 1, rows, q) {
                    let k = choose|k: int|
                        0 <= k < rows && #[trigger] strided(rows * col, 1, k) == q;
                    lemma_place(rows, cols, k, col);
                }
            }
        }
    } else {
        assert(cols_scaled(data, rows, factors, multiply, count) == data);
    }
}

/// The Hermitian part of a matrix is half the sum of the matrix and its adjoint.
pub proof fn lemma_hermitian_part_is_mean<
    D,
    A: Fn(D, D) -> D,
    G: Fn(D, D) -> D,
    C: Fn(D) -> D,
>(ring: Ring<D>, data: Seq<D>, n: int, half: D, plus: A, multiply: G, conjugate: C)
    requires
        ring.is_ring(),
        adds_in(ring, plus),
        multiplies_in(ring, multiply),
        conjugates_in(ring, conjugate),
        ring.conj(half) == half,
        0 <= n,
        data.len() == n * n,
    ensures
        ({
            let a = matrix(n, n, data);
            matrix(n, n, hermitian_part(data, n, half, plus, multiply, conjugate)) == ring.scale(
                half,
                ring.add(a, ring.adjoint(a)),
            )
        }),
{
    let a = matrix(n, n, data);
    let found = matrix(n, n, hermitian_part(data, n, half, plus, multiply, conjugate));
    ring.adjoint_cells(a);
    ring.add_cells(a, ring.adjoint(a));
    ring.scale_cells(half, ring.add(a, ring.adjoint(a)));
    let expected = ring.scale(half, ring.add(a, ring.adjoint(a)));
    assert forall|i: int, j: int| 0 <= i < n && 0 <= j < n implies #[trigger] found.at(i, j)
        == expected.at(i, j) by {
        lemma_place(n, n, i, j);
        lemma_place(n, n, j, i);
        let sum = ring.sum(a.at(i, j), ring.conj(a.at(j, i)));
        assert(ring.adjoint(a).at(i, j) == ring.conj(a.at(j, i)));
        assert(ring.add(a, ring.adjoint(a)).at(i, j) == sum);
        assert(expected.at(i, j) == ring.product(half, sum));
        ring.product_commutes(half, sum);
        if i < j {
            assert(found.at(i, j) == ring.product(sum, half));
        } else {
            let other = ring.sum(a.at(j, i), ring.conj(a.at(i, j)));
            assert(found.at(i, j) == ring.conj(ring.product(other, half)));
            ring.conj_of_product(other, half);
            ring.conj_of_sum(a.at(j, i), ring.conj(a.at(i, j)));
            ring.conj_twice(a.at(i, j));
            ring.sum_commutes(ring.conj(a.at(j, i)), a.at(i, j));
        }
    }
    lemma_same_cells(found, expected);
}

/// The Hermitian part of a Hermitian matrix is the matrix.
pub proof fn lemma_hermitian_part_of_hermitian<
    D,
    A: Fn(D, D) -> D,
    G: Fn(D, D) -> D,
    C: Fn(D) -> D,
>(ring: Ring<D>, data: Seq<D>, n: int, half: D, plus: A, multiply: G, conjugate: C)
    requires
        ring.is_ring(),
        adds_in(ring, plus),
        multiplies_in(ring, multiply),
        conjugates_in(ring, conjugate),
        ring.conj(half) == half,
        ring.sum(half, half) == ring.one,
        0 <= n,
        data.len() == n * n,
        ring.adjoint(matrix(n, n, data)) == matrix(n, n, data),
    ensures
        hermitian_part(data, n, half, plus, multiply, conjugate) == data,
{
    let a = matrix(n, n, data);
    lemma_hermitian_part_is_mean(ring, data, n, half, plus, multiply, conjugate);
    ring.add_cells(a, a);
    ring.scale_cells(half, ring.add(a, a));
    let mean = ring.scale(half, ring.add(a, a));
    assert forall|i: int, j: int| 0 <= i < n && 0 <= j < n implies #[trigger] mean.at(i, j)
        == a.at(i, j) by {
        let x = a.at(i, j);
        assert(ring.add(a, a).at(i, j) == ring.sum(x, x));
        ring.product_distributes(half, x, x);
        ring.product_distributes(x, half, half);
        ring.product_with_one(x);
    }
    lemma_same_cells(mean, a);
}

} // verus!
