//! What full and adjoint factorizations are, with exact arithmetic: their factors
//! multiply to the matrix, and their bases are orthonormal.

use vstd::prelude::*;

use crate::completion::{
    beside_identity, completes, completes_right, full_qr, full_svd, lq_of, QrStage,
};
use crate::dense::adjoint_matrix;
use crate::dense_calls::factors_to;
use crate::error::OperationError;
use crate::exact::{conjugates_in, lemma_adjoint_is_adjoint};
use crate::factor::FactorPlacement;
use crate::factor_routes::smaller;
use crate::full::{is_oriented, FullSvdStage};
use crate::ring::{lemma_place, lemma_same_cells, matrix, Matrix, Ring};
use crate::stages::BondExtent;
use crate::svd_laws::{are_real, is_svd_of};
use crate::svd_stage::SvdStage;
use crate::tensor_laws::{as_scalars, decomposes_exactly};

verus! {

/// `q` has orthonormal columns, `r` is upper triangular, and `q r` is the matrix.
pub open spec fn is_qr_of<D>(ring: Ring<D>, a: Matrix<D>, q: Matrix<D>, r: Matrix<D>) -> bool {
    &&& q.shaped()
    &&& r.shaped()
    &&& q.rows == a.rows
    &&& q.cols == r.rows
    &&& r.cols == a.cols
    &&& ring.mul(q, r) == a
    &&& ring.mul(ring.adjoint(q), q) == ring.identity(q.cols)
    &&& forall|i: int, j: int|
        0 <= j < i < r.rows && j < r.cols ==> #[trigger] r.at(i, j) == ring.zero
}

/// QRs that the backend gives are QRs, over a bond of this extent.
pub open spec fn factors_exactly<
    D,
    F: Fn(&[D], usize, usize) -> Result<QrStage<D>, OperationError>,
>(ring: Ring<D>, qr: F, bond: BondExtent) -> bool {
    forall|x: &[D], rows: usize, cols: usize, stage: QrStage<D>| #[trigger]
        call_ensures(qr, (x, rows, cols), Ok::<QrStage<D>, OperationError>(stage)) ==> is_qr_of(
            ring,
            matrix(rows as int, cols as int, x@),
            matrix(rows as int, bond.spec_of(rows, cols) as int, stage.q@),
            matrix(bond.spec_of(rows, cols) as int, cols as int, stage.r@),
        )
}

/// The LQ of a matrix multiplies to it: `l q` is the matrix, and the rows of `q`
/// are orthonormal.
pub proof fn lemma_lq_multiplies<
    D,
    C: Fn(D) -> D,
    F: Fn(&[D], usize, usize) -> Result<QrStage<D>, OperationError>,
>(
    ring: Ring<D>,
    factors: crate::direct::RouteFactors<D>,
    data: Seq<D>,
    rows: usize,
    cols: usize,
    bond: BondExtent,
    conjugate: C,
    qr: F,
)
    requires
        ring.is_ring(),
        conjugates_in(ring, conjugate),
        factors_exactly(ring, qr, bond),
        data.len() == rows * cols,
        lq_of(Ok(factors), data, rows, cols, bond, conjugate, qr),
    ensures
        ({
            let kept = bond.spec_of(cols, rows) as int;
            let l = matrix(rows as int, kept, factors.left@);
            let q = matrix(kept, cols as int, factors.right@);
            &&& ring.mul(l, q) == matrix(rows as int, cols as int, data)
            &&& ring.mul(q, ring.adjoint(q)) == ring.identity(kept)
            &&& forall|i: int, j: int|
                0 <= i < j < kept && i < rows ==> #[trigger] l.at(i, j) == ring.zero
        }),
{
    let (r, c) = (rows as int, cols as int);
    let kept = bond.spec_of(cols, rows) as int;
    let a = matrix(r, c, data);
    let star = adjoint_matrix(conjugate, data, r, c);
    lemma_adjoint_is_adjoint(ring, conjugate, data, r, c);
    let answer = choose|answer: Result<QrStage<D>, OperationError>|
        {
            &&& #[trigger] factors_to(qr, star, cols, rows, answer)
            &&& answer is Ok
            &&& factors.left@ == adjoint_matrix(conjugate, answer->Ok_0.r@, kept, r)
            &&& factors.right@ == adjoint_matrix(conjugate, answer->Ok_0.q@, c, kept)
        };
    let stage = answer->Ok_0;
    let x = choose|x: &[D]|
        x@ == star && #[trigger] call_ensures(qr, (x, cols, rows), answer);
    assert(call_ensures(qr, (x, cols, rows), Ok::<QrStage<D>, OperationError>(stage)));
    let q = matrix(c, kept, stage.q@);
    let t = matrix(kept, r, stage.r@);
    lemma_adjoint_is_adjoint(ring, conjugate, stage.r@, kept, r);
    lemma_adjoint_is_adjoint(ring, conjugate, stage.q@, c, kept);
    ring.adjoint_of_product(q, t);
    ring.adjoint_twice(a);
    ring.adjoint_twice(q);
    let l = ring.adjoint(t);
    ring.adjoint_cells(t);
    ring.conj_of_constants();
    assert forall|i: int, j: int| 0 <= i < j < kept && i < rows implies #[trigger] l.at(i, j)
        == ring.zero by {
        assert(l.at(i, j) == ring.conj(t.at(j, i)));
    }
}

/// The cells of a matrix with an identity beside it.
proof fn lemma_beside_identity<D>(ring: Ring<D>, data: Seq<D>, rows: int, cols: int)
    requires
        0 <= rows,
        0 <= cols,
        data.len() == rows * cols,
    ensures
        ({
            let wide = matrix(rows, cols + rows, beside_identity(data, rows, ring.zero, ring.one));
            &&& wide.shaped()
            &&& forall|i: int, j: int|
                0 <= i < rows && 0 <= j < cols ==> #[trigger] wide.at(i, j) == matrix(
                    rows,
                    cols,
                    data,
                ).at(i, j)
        }),
{
    let wide = matrix(rows, cols + rows, beside_identity(data, rows, ring.zero, ring.one));
    assert(0 <= rows * rows) by (nonlinear_arith);
    assert(rows * (cols + rows) == rows * cols + rows * rows) by (nonlinear_arith);
    assert forall|i: int, j: int| 0 <= i < rows && 0 <= j < cols implies #[trigger] wide.at(i, j)
        == matrix(rows, cols, data).at(i, j) by {
        lemma_place(rows, cols, i, j);
    }
}

/// The full QR of a matrix: `q` is square with orthonormal columns, `r` is upper
/// triangular, and `q r` is the matrix.
pub proof fn lemma_full_qr_multiplies<
    D,
    F: Fn(&[D], usize, usize) -> Result<QrStage<D>, OperationError>,
>(
    ring: Ring<D>,
    stage: QrStage<D>,
    input: Seq<D>,
    rows: usize,
    cols: usize,
    qr: F,
)
    requires
        ring.is_ring(),
        factors_exactly(ring, qr, BondExtent::Compact),
        input.len() == rows * cols,
        rows > cols ==> cols + rows <= usize::MAX,
        full_qr(Ok(stage), input, rows, cols, ring.zero, ring.one, qr),
    ensures
        is_qr_of(
            ring,
            matrix(rows as int, cols as int, input),
            matrix(rows as int, rows as int, stage.q@),
            matrix(rows as int, cols as int, stage.r@),
        ),
{
    let (n, c) = (rows as int, cols as int);
    let a = matrix(n, c, input);
    if rows <= cols {
        let x = choose|x: &[D]|
            x@ == input && #[trigger] call_ensures(
                qr,
                (x, rows, cols),
                Ok::<QrStage<D>, OperationError>(stage),
            );
    } else {
        let width = (cols + rows) as usize;
        let given = beside_identity(input, n, ring.zero, ring.one);
        let answer = choose|answer: Result<QrStage<D>, OperationError>|
            {
                &&& #[trigger] factors_to(qr, given, rows, width, answer)
                &&& answer is Ok
                &&& stage.q == answer->Ok_0.q
                &&& stage.r@ == answer->Ok_0.r@.take(rows * cols)
            };
        let work = answer->Ok_0;
        let x = choose|x: &[D]|
            x@ == given && #[trigger] call_ensures(qr, (x, rows, width), answer);
        assert(call_ensures(qr, (x, rows, width), Ok::<QrStage<D>, OperationError>(work)));
        let q = matrix(n, n, stage.q@);
        let long = matrix(n, c + n, work.r@);
        let r = matrix(n, c, stage.r@);
        lemma_beside_identity(ring, input, n, c);
        assert(n * (c + n) == n * c + n * n) by (nonlinear_arith);
        assert(0 <= n * n) by (nonlinear_arith);
        assert(0 <= n * c) by (nonlinear_arith)
            requires
                0 <= n,
                0 <= c,
        ;
        ring.mul_cells(q, long);
        ring.mul_cells(q, r);
        assert forall|i: int, j: int| 0 <= i < n && 0 <= j < c implies #[trigger] r.at(i, j)
            == long.at(i, j) by {
            lemma_place(n, c, i, j);
        }
        assert forall|i: int, j: int| 0 <= i < n && 0 <= j < c implies #[trigger] ring.mul(
            q,
            r,
        ).at(i, j) == a.at(i, j) by {
            let f = |k: int| ring.product(q.at(i, k), r.at(k, j));
            let g = |k: int| ring.product(q.at(i, k), long.at(k, j));
            assert forall|k: int| 0 <= k < n implies #[trigger] f(k) == g(k) by {
                assert(r.at(k, j) == long.at(k, j));
            }
            ring.total_same(f, g, n);
            assert(ring.mul(q, long).at(i, j) == ring.total(g, n));
            assert(matrix(n, c + n, given).at(i, j) == a.at(i, j));
        }
        lemma_same_cells(ring.mul(q, r), a);
        assert forall|i: int, j: int| 0 <= j < i < n && j < c implies #[trigger] r.at(i, j)
            == ring.zero by {
            assert(long.at(i, j) == ring.zero);
        }
    }
}

/// A completed basis begins with the columns that were there, and is orthonormal
/// where these are.
pub proof fn lemma_completion_is_orthonormal<
    D,
    F: Fn(&[D], usize, usize) -> Result<QrStage<D>, OperationError>,
>(
    ring: Ring<D>,
    full: Vec<D>,
    thin: Seq<D>,
    rows: usize,
    rank: usize,
    qr: F,
)
    requires
        ring.is_ring(),
        factors_exactly(ring, qr, BondExtent::Compact),
        thin.len() == rows * rank,
        rank <= rows,
        rank < rows ==> rank + rows <= usize::MAX,
        ring.mul(
            ring.adjoint(matrix(rows as int, rank as int, thin)),
            matrix(rows as int, rank as int, thin),
        ) == ring.identity(rank as int),
        completes(Ok(full), thin, rows, rank, ring.zero, ring.one, qr),
    ensures
        ({
            let basis = matrix(rows as int, rows as int, full@);
            &&& basis.shaped()
            &&& forall|i: int, j: int|
                0 <= i < rows && 0 <= j < rank ==> #[trigger] basis.at(i, j) == matrix(
                    rows as int,
                    rank as int,
                    thin,
                ).at(i, j)
            &&& ring.mul(ring.adjoint(basis), basis) == ring.identity(rows as int)
        }),
{
    let (n, m) = (rows as int, rank as int);
    let basis = matrix(n, n, full@);
    let t = matrix(n, m, thin);
    if rank < rows {
        let width = (rank + rows) as usize;
        let given = beside_identity(thin, n, ring.zero, ring.one);
        let answer = choose|answer: Result<QrStage<D>, OperationError>|
            {
                &&& #[trigger] factors_to(qr, given, rows, width, answer)
                &&& answer is Ok
                &&& full@ == thin + answer->Ok_0.q@.subrange(rows * rank, rows * rows)
            };
        let work = answer->Ok_0;
        let x = choose|x: &[D]|
            x@ == given && #[trigger] call_ensures(qr, (x, rows, width), answer);
        assert(call_ensures(qr, (x, rows, width), Ok::<QrStage<D>, OperationError>(work)));
        let q = matrix(n, n, work.q@);
        let r = matrix(n, m + n, work.r@);
        let wide = matrix(n, m + n, given);
        lemma_beside_identity(ring, thin, n, m);
        assert(n * m <= n * n) by (nonlinear_arith)
            requires
                0 <= n,
                m <= n,
        ;
        assert(basis.shaped());
        assert forall|i: int, j: int| 0 <= i < n && 0 <= j < m implies #[trigger] basis.at(i, j)
            == t.at(i, j) by {
            lemma_place(n, m, i, j);
        }
        assert forall|i: int, j: int| 0 <= i < n && m <= j < n implies #[trigger] basis.at(i, j)
            == q.at(i, j) by {
            lemma_place(n, n, i, j);
            assert(n * m <= n * j) by (nonlinear_arith)
                requires
                    m <= j,
                    0 <= n,
            ;
        }
        // q^H (q r) = r
        let qh = ring.adjoint(q);
        ring.adjoint_cells(q);
        ring.mul_associates(qh, q, r);
        ring.mul_with_identity(r);
        assert(ring.mul(qh, wide) == r);
        ring.mul_cells(qh, wide);
        ring.mul_cells(qh, q);
        ring.identity_cells(n);
        ring.identity_cells(m);
        ring.adjoint_cells(basis);
        ring.adjoint_cells(t);
        ring.mul_cells(ring.adjoint(t), t);
        let gram = ring.mul(ring.adjoint(basis), basis);
        ring.mul_cells(ring.adjoint(basis), basis);
        assert forall|i: int, j: int| 0 <= i < n && 0 <= j < n implies #[trigger] gram.at(i, j)
            == ring.identity(n).at(i, j) by {
            let bh = ring.adjoint(basis);
            let f = |k: int| ring.product(bh.at(i, k), basis.at(k, j));
            assert(gram.at(i, j) == ring.total(f, n));
            if i < m && j < m {
                let g = |k: int| ring.product(ring.adjoint(t).at(i, k), t.at(k, j));
                assert forall|k: int| 0 <= k < n implies #[trigger] f(k) == g(k) by {
                    assert(bh.at(i, k) == ring.conj(basis.at(k, i)));
                    assert(ring.adjoint(t).at(i, k) == ring.conj(t.at(k, i)));
                    assert(basis.at(k, i) == t.at(k, i));
                    assert(basis.at(k, j) == t.at(k, j));
                }
                ring.total_same(f, g, n);
                assert(ring.mul(ring.adjoint(t), t).at(i, j) == ring.identity(m).at(i, j));
            } else if m <= i && m <= j {
                let g = |k: int| ring.product(qh.at(i, k), q.at(k, j));
                assert forall|k: int| 0 <= k < n implies #[trigger] f(k) == g(k) by {
                    assert(bh.at(i, k) == ring.conj(basis.at(k, i)));
                    assert(qh.at(i, k) == ring.conj(q.at(k, i)));
                    assert(basis.at(k, i) == q.at(k, i));
                    assert(basis.at(k, j) == q.at(k, j));
                }
                ring.total_same(f, g, n);
                assert(ring.mul(qh, q).at(i, j) == ring.identity(n).at(i, j));
            } else if m <= i {
                lemma_cross(ring, basis, q, qh, wide, t, r, n, m, i, j);
                let g = |k: int| ring.product(ring.conj(q.at(k, i)), t.at(k, j));
                assert forall|k: int| 0 <= k < n implies #[trigger] f(k) == g(k) by {
                    assert(bh.at(i, k) == ring.conj(basis.at(k, i)));
                    assert(basis.at(k, i) == q.at(k, i));
                    assert(basis.at(k, j) == t.at(k, j));
                }
                ring.total_same(f, g, n);
            } else {
                lemma_cross(ring, basis, q, qh, wide, t, r, n, m, j, i);
                let g = |k: int| ring.product(ring.conj(q.at(k, j)), t.at(k, i));
                assert forall|k: int| 0 <= k < n implies #[trigger] f(k) == ring.conj(g(k)) by {
                    assert(bh.at(i, k) == ring.conj(basis.at(k, i)));
                    assert(basis.at(k, i) == t.at(k, i));
                    assert(basis.at(k, j) == q.at(k, j));
                    ring.conj_of_product(ring.conj(q.at(k, j)), t.at(k, i));
                    ring.conj_twice(q.at(k, j));
                    ring.product_commutes(q.at(k, j), ring.conj(t.at(k, i)));
                }
                ring.total_of_conjugates(f, g, n);
                ring.conj_of_constants();
            }
        }
        lemma_same_cells(gram, ring.identity(n));
    }
}

/// A trailing column of `q` is orthogonal to the columns that were there.
proof fn lemma_cross<D>(
    ring: Ring<D>,
    basis: Matrix<D>,
    q: Matrix<D>,
    qh: Matrix<D>,
    wide: Matrix<D>,
    t: Matrix<D>,
    r: Matrix<D>,
    n: int,
    m: int,
    i: int,
    j: int,
)
    requires
        ring.is_ring(),
        0 <= j < m <= i < n,
        q.shaped(),
        q.rows == n,
        q.cols == n,
        wide.shaped(),
        wide.rows == n,
        wide.cols == m + n,
        t.rows == n,
        t.cols == m,
        qh == ring.adjoint(q),
        ring.mul(qh, wide) == r,
        r.rows == n,
        r.cols == m + n,
        forall|a: int, b: int|
            0 <= b < a < r.rows && b < r.cols ==> #[trigger] r.at(a, b) == ring.zero,
        forall|a: int, b: int|
            0 <= a < n && 0 <= b < m ==> #[trigger] wide.at(a, b) == t.at(a, b),
    ensures
        ring.total(|k: int| ring.product(ring.conj(q.at(k, i)), t.at(k, j)), n) == ring.zero,
{
    ring.adjoint_cells(q);
    ring.mul_cells(qh, wide);
    let f = |k: int| ring.product(qh.at(i, k), wide.at(k, j));
    let g = |k: int| ring.product(ring.conj(q.at(k, i)), t.at(k, j));
    assert forall|k: int| 0 <= k < n implies #[trigger] f(k) == g(k) by {
        assert(qh.at(i, k) == ring.conj(q.at(k, i)));
        assert(wide.at(k, j) == t.at(k, j));
    }
    ring.total_same(f, g, n);
    assert(r.at(i, j) == ring.total(f, n));
    assert(r.at(i, j) == ring.zero);
}

/// A matrix is the sum of its singular values between the leading columns of a
/// square `u` and the leading rows of a square `vh`, both with orthonormal
/// columns and rows.
pub open spec fn is_full_svd_of<D>(
    ring: Ring<D>,
    a: Matrix<D>,
    u: Matrix<D>,
    sigma: Seq<D>,
    vh: Matrix<D>,
) -> bool {
    &&& u.shaped()
    &&& vh.shaped()
    &&& u.rows == a.rows
    &&& u.cols == a.rows
    &&& vh.rows == a.cols
    &&& vh.cols == a.cols
    &&& are_real(ring, sigma)
    &&& ring.mul(ring.adjoint(u), u) == ring.identity(a.rows)
    &&& ring.mul(vh, ring.adjoint(vh)) == ring.identity(a.cols)
    &&& forall|i: int, j: int|
        0 <= i < a.rows && 0 <= j < a.cols ==> #[trigger] a.at(i, j) == ring.total(
            |k: int| ring.product(u.at(i, k), ring.product(sigma[k], vh.at(k, j))),
            sigma.len() as int,
        )
}

/// The full SVD of a matrix over a compact one: the outer factors are square and
/// orthonormal, and with the singular values they give the matrix back.
pub proof fn lemma_full_svd_multiplies<
    D,
    V,
    C: Fn(D) -> D,
    S: Fn(&[D], usize, usize) -> Result<SvdStage<D, V>, OperationError>,
    F: Fn(&[D], usize, usize) -> Result<QrStage<D>, OperationError>,
>(
    ring: Ring<D>,
    to_scalar: spec_fn(V) -> D,
    found: SvdStage<D, V>,
    data: Seq<D>,
    rows: usize,
    cols: usize,
    conjugate: C,
    svd: S,
    qr: F,
)
    requires
        ring.is_ring(),
        conjugates_in(ring, conjugate),
        decomposes_exactly(ring, svd, to_scalar),
        factors_exactly(ring, qr, BondExtent::Compact),
        data.len() == rows * cols,
        rows + cols <= usize::MAX,
        full_svd(Ok(found), data, rows, cols, ring.zero, ring.one, conjugate, svd, qr),
    ensures
        is_full_svd_of(
            ring,
            matrix(rows as int, cols as int, data),
            matrix(rows as int, rows as int, found.u@),
            as_scalars(found.values@, to_scalar),
            matrix(cols as int, cols as int, found.vt@),
        ),
{
    let rank = smaller(rows, cols);
    let (r, c, n) = (rows as int, cols as int, rank as int);
    let a = matrix(r, c, data);
    let answer = choose|answer: Result<SvdStage<D, V>, OperationError>|
        {
            &&& #[trigger] factors_to(svd, data, rows, cols, answer)
            &&& answer is Ok
            &&& exists|left: Result<Vec<D>, OperationError>|
                {
                    &&& #[trigger] completes(
                        left,
                        answer->Ok_0.u@,
                        rows,
                        rank,
                        ring.zero,
                        ring.one,
                        qr,
                    )
                    &&& left is Ok
                    &&& completes_right(
                        Ok(found),
                        answer->Ok_0,
                        left->Ok_0,
                        cols,
                        rank,
                        ring.zero,
                        ring.one,
                        conjugate,
                        qr,
                    )
                }
        };
    let stage = answer->Ok_0;
    let left = choose|left: Result<Vec<D>, OperationError>|
        {
            &&& #[trigger] completes(left, stage.u@, rows, rank, ring.zero, ring.one, qr)
            &&& left is Ok
            &&& completes_right(
                Ok(found),
                stage,
                left->Ok_0,
                cols,
                rank,
                ring.zero,
                ring.one,
                conjugate,
                qr,
            )
        };
    let thin = adjoint_matrix(conjugate, stage.vt@, n, c);
    let right = choose|right: Result<Vec<D>, OperationError>|
        {
            &&& #[trigger] completes(right, thin, cols, rank, ring.zero, ring.one, qr)
            &&& right is Ok
            &&& found.u == left->Ok_0
            &&& found.values == stage.values
            &&& found.vt@ == adjoint_matrix(conjugate, right->Ok_0@, c, c)
        };
    let x = choose|x: &[D]| x@ == data && #[trigger] call_ensures(svd, (x, rows, cols), answer);
    assert(call_ensures(svd, (x, rows, cols), Ok::<SvdStage<D, V>, OperationError>(stage)));
    let sigma = as_scalars(stage.values@, to_scalar);
    let u = matrix(r, n, stage.u@);
    let vh = matrix(n, c, stage.vt@);
    assert(is_svd_of(ring, a, u, sigma, vh));
    lemma_completion_is_orthonormal(ring, left->Ok_0, stage.u@, rows, rank, qr);
    // the right basis
    lemma_adjoint_is_adjoint(ring, conjugate, stage.vt@, n, c);
    let v = matrix(c, n, thin);
    ring.adjoint_twice(vh);
    lemma_completion_is_orthonormal(ring, right->Ok_0, thin, cols, rank, qr);
    let big = matrix(c, c, right->Ok_0@);
    lemma_adjoint_is_adjoint(ring, conjugate, right->Ok_0@, c, c);
    let full_vh = matrix(c, c, found.vt@);
    let full_u = matrix(r, r, found.u@);
    assert(full_vh == ring.adjoint(big));
    ring.adjoint_twice(big);
    ring.adjoint_cells(big);
    ring.adjoint_cells(vh);
    // cells
    ring.diagonal_cells(sigma);
    ring.diagonal_times(sigma, vh);
    let sv = ring.mul(ring.diagonal(sigma), vh);
    ring.mul_cells(ring.diagonal(sigma), vh);
    ring.mul_cells(u, sv);
    assert forall|i: int, j: int| 0 <= i < r && 0 <= j < c implies #[trigger] a.at(i, j)
        == ring.total(
        |k: int| ring.product(full_u.at(i, k), ring.product(sigma[k], full_vh.at(k, j))),
        sigma.len() as int,
    ) by {
        let f = |k: int| ring.product(u.at(i, k), sv.at(k, j));
        let g = |k: int|
            ring.product(full_u.at(i, k), ring.product(sigma[k], full_vh.at(k, j)));
        assert forall|k: int| 0 <= k < n implies #[trigger] f(k) == g(k) by {
            assert(full_u.at(i, k) == u.at(i, k));
            assert(full_vh.at(k, j) == ring.conj(big.at(j, k)));
            assert(big.at(j, k) == v.at(j, k));
            assert(ring.adjoint(vh).at(j, k) == ring.conj(vh.at(k, j)));
            ring.conj_twice(vh.at(k, j));
        }
        ring.total_same(f, g, n);
        assert(a.at(i, j) == ring.total(f, n));
    }
}

/// The oriented factors of a full SVD are those of the matrix, or of its adjoint
/// where the adjoint was asked for.
pub proof fn lemma_oriented_svd_is_full_svd<D, C: Fn(D) -> D>(
    ring: Ring<D>,
    a: Matrix<D>,
    u: Seq<D>,
    vh: Seq<D>,
    sigma: Seq<D>,
    rows: int,
    cols: int,
    conjugate: C,
)
    requires
        ring.is_ring(),
        conjugates_in(ring, conjugate),
        a.shaped(),
        a.rows == rows,
        a.cols == cols,
        sigma.len() <= rows,
        sigma.len() <= cols,
        is_full_svd_of(ring, a, matrix(rows, rows, u), sigma, matrix(cols, cols, vh)),
    ensures
        is_full_svd_of(
            ring,
            ring.adjoint(a),
            matrix(cols, cols, adjoint_matrix(conjugate, vh, cols, cols)),
            sigma,
            matrix(rows, rows, adjoint_matrix(conjugate, u, rows, rows)),
        ),
{
    let um = matrix(rows, rows, u);
    let vm = matrix(cols, cols, vh);
    lemma_adjoint_is_adjoint(ring, conjugate, u, rows, rows);
    lemma_adjoint_is_adjoint(ring, conjugate, vh, cols, cols);
    let left = ring.adjoint(vm);
    let right = ring.adjoint(um);
    ring.adjoint_twice(um);
    ring.adjoint_twice(vm);
    ring.adjoint_cells(a);
    ring.adjoint_cells(um);
    ring.adjoint_cells(vm);
    let star = ring.adjoint(a);
    assert forall|i: int, j: int| 0 <= i < cols && 0 <= j < rows implies #[trigger] star.at(i, j)
        == ring.total(
        |k: int| ring.product(left.at(i, k), ring.product(sigma[k], right.at(k, j))),
        sigma.len() as int,
    ) by {
        let f = |k: int| ring.product(um.at(j, k), ring.product(sigma[k], vm.at(k, i)));
        let g = |k: int| ring.product(left.at(i, k), ring.product(sigma[k], right.at(k, j)));
        let n = sigma.len() as int;
        assert forall|k: int| 0 <= k < n implies #[trigger] g(k) == ring.conj(f(k)) by {
            let p = um.at(j, k);
            let q = vm.at(k, i);
            let s = sigma[k];
            assert(left.at(i, k) == ring.conj(q));
            assert(right.at(k, j) == ring.conj(p));
            ring.conj_of_product(p, ring.product(s, q));
            ring.conj_of_product(s, q);
            // conj p (s conj q) = conj q (s conj p)
            ring.product_commutes(ring.conj(p), ring.product(s, ring.conj(q)));
            ring.product_commutes(s, ring.conj(q));
            ring.product_associates(ring.conj(q), s, ring.conj(p));
        }
        ring.total_of_conjugates(g, f, n);
        assert(a.at(j, i) == ring.total(f, n));
        assert(star.at(i, j) == ring.conj(a.at(j, i)));
    }
}

/// The oriented stage of a full SVD holds the full SVD of the matrix, or of its
/// adjoint where the adjoint was asked for.
pub proof fn lemma_oriented_stage_is_full_svd<D, V, C: Fn(D) -> D>(
    ring: Ring<D>,
    to_scalar: spec_fn(V) -> D,
    a: Matrix<D>,
    stage: FullSvdStage<D, V>,
    u: Vec<D>,
    rows: usize,
    vh: Vec<D>,
    cols: usize,
    singular_values: Vec<V>,
    placement: FactorPlacement,
    conjugate: C,
)
    requires
        ring.is_ring(),
        conjugates_in(ring, conjugate),
        a.shaped(),
        a.rows == rows,
        a.cols == cols,
        singular_values@.len() == smaller(rows, cols),
        is_full_svd_of(
            ring,
            a,
            matrix(rows as int, rows as int, u@),
            as_scalars(singular_values@, to_scalar),
            matrix(cols as int, cols as int, vh@),
        ),
        is_oriented(stage, u, rows, vh, cols, singular_values, placement, conjugate),
    ensures
        is_full_svd_of(
            ring,
            match placement {
                FactorPlacement::Direct => a,
                FactorPlacement::Adjoint => ring.adjoint(a),
            },
            matrix(stage.left_rows as int, stage.left_rows as int, stage.left@),
            as_scalars(stage.singular_values@, to_scalar),
            matrix(stage.right_leading as int, stage.right_leading as int, stage.right@),
        ),
{
    if placement == FactorPlacement::Adjoint {
        lemma_oriented_svd_is_full_svd(
            ring,
            a,
            u@,
            vh@,
            as_scalars(singular_values@, to_scalar),
            rows as int,
            cols as int,
            conjugate,
        );
    }
}

} // verus!
