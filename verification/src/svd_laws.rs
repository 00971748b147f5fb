//! What a pseudo-inverse and a polar decomposition are: with exact arithmetic
//! they solve the equations that define them.

use vstd::prelude::*;

use crate::dense::adjoint_matrix;
use crate::dense_calls::multiplies_to;
use crate::error::OperationError;
use crate::exact::{
    adds_in, conjugates_in, lemma_adjoint_is_adjoint, lemma_cols_scaled,
    lemma_hermitian_part_of_hermitian, lemma_rows_scaled, multiplies_exactly, multiplies_in,
};
use crate::factor_routes::smaller;
use crate::matrix_functions::hermitian_part;
use crate::pinv_drive::inverts_sector;
use crate::polar::PolarDirection;
use crate::polar_drive::{polar_factors, positive_order, squares_to};
use crate::ring::{matrix, Matrix, Ring};
use crate::svd_stage::{cols_scaled, rows_scaled, SvdStage};

verus! {

/// `a` is the product of an isometry, a real diagonal and a coisometry.
pub open spec fn is_svd_of<D>(
    ring: Ring<D>,
    a: Matrix<D>,
    u: Matrix<D>,
    sigma: Seq<D>,
    vh: Matrix<D>,
) -> bool {
    &&& u.shaped()
    &&& vh.shaped()
    &&& u.rows == a.rows
    &&& u.cols == sigma.len()
    &&& vh.rows == sigma.len()
    &&& vh.cols == a.cols
    &&& a == ring.mul(u, ring.mul(ring.diagonal(sigma), vh))
    &&& ring.mul(ring.adjoint(u), u) == ring.identity(sigma.len() as int)
    &&& ring.mul(vh, ring.adjoint(vh)) == ring.identity(sigma.len() as int)
    &&& are_real(ring, sigma)
}

/// Every value is its own conjugate.
pub open spec fn are_real<D>(ring: Ring<D>, values: Seq<D>) -> bool {
    forall|k: int| 0 <= k < values.len() ==> ring.conj(#[trigger] values[k]) == values[k]
}

/// Every factor is the reciprocal of its value, or both vanish together.
pub open spec fn are_reciprocals<D>(ring: Ring<D>, sigma: Seq<D>, factors: Seq<D>) -> bool {
    &&& factors.len() == sigma.len()
    &&& forall|k: int|
        0 <= k < sigma.len() ==> {
            let s = #[trigger] sigma[k];
            let f = factors[k];
            &&& ring.product(ring.product(s, f), s) == s
            &&& ring.product(ring.product(f, s), f) == f
        }
}

/// The four equations that define the pseudo-inverse.
pub open spec fn is_pseudo_inverse<D>(ring: Ring<D>, a: Matrix<D>, x: Matrix<D>) -> bool {
    let ax = ring.mul(a, x);
    let xa = ring.mul(x, a);
    &&& x.rows == a.cols
    &&& x.cols == a.rows
    &&& ring.mul(ax, a) == a
    &&& ring.mul(xa, x) == x
    &&& ring.adjoint(ax) == ax
    &&& ring.adjoint(xa) == xa
}

/// `(a b)(c d)` is `a d` where `b c` is the identity.
pub proof fn lemma_cancel<D>(
    ring: Ring<D>,
    a: Matrix<D>,
    b: Matrix<D>,
    c: Matrix<D>,
    d: Matrix<D>,
)
    requires
        ring.is_ring(),
        a.shaped(),
        b.shaped(),
        c.shaped(),
        d.shaped(),
        a.cols == b.rows,
        b.cols == c.rows,
        c.cols == d.rows,
        ring.mul(b, c) == ring.identity(d.rows),
        b.rows == d.rows,
    ensures
        ring.mul(ring.mul(a, b), ring.mul(c, d)) == ring.mul(a, d),
{
    ring.mul_cells(c, d);
    ring.mul_associates(a, b, ring.mul(c, d));
    ring.mul_associates(b, c, d);
    ring.mul_with_identity(d);
}

/// A product around a Hermitian matrix, `a h a^H`, is Hermitian.
pub proof fn lemma_conjugation_is_hermitian<D>(ring: Ring<D>, a: Matrix<D>, h: Matrix<D>)
    requires
        ring.is_ring(),
        a.shaped(),
        h.shaped(),
        h.rows == h.cols,
        a.cols == h.rows,
        ring.adjoint(h) == h,
    ensures
        ring.adjoint(ring.mul(a, ring.mul(h, ring.adjoint(a)))) == ring.mul(
            a,
            ring.mul(h, ring.adjoint(a)),
        ),
{
    let star = ring.adjoint(a);
    ring.adjoint_cells(a);
    ring.mul_cells(h, star);
    ring.adjoint_of_product(a, ring.mul(h, star));
    ring.adjoint_of_product(h, star);
    ring.adjoint_twice(a);
    ring.mul_associates(a, h, star);
}

/// The adjoint of a right factor, its rows scaled by reciprocals, times the
/// adjoint of the left one is the pseudo-inverse.
pub proof fn lemma_svd_inverts<D>(
    ring: Ring<D>,
    a: Matrix<D>,
    u: Matrix<D>,
    sigma: Seq<D>,
    vh: Matrix<D>,
    factors: Seq<D>,
)
    requires
        ring.is_ring(),
        is_svd_of(ring, a, u, sigma, vh),
        are_real(ring, factors),
        are_reciprocals(ring, sigma, factors),
    ensures
        is_pseudo_inverse(
            ring,
            a,
            ring.mul(ring.adjoint(ring.mul(ring.diagonal(factors), vh)), ring.adjoint(u)),
        ),
{
    let s = ring.diagonal(sigma);
    let f = ring.diagonal(factors);
    let uh = ring.adjoint(u);
    let v = ring.adjoint(vh);
    ring.diagonal_cells(sigma);
    ring.diagonal_cells(factors);
    ring.adjoint_cells(u);
    ring.adjoint_cells(vh);
    ring.mul_cells(s, vh);
    ring.mul_cells(u, s);
    ring.mul_cells(f, uh);
    ring.mul_cells(f, s);
    ring.mul_cells(s, f);
    ring.adjoint_of_diagonal(factors);
    ring.adjoint_of_product(f, vh);
    let vf = ring.mul(v, f);
    ring.mul_cells(v, f);
    let x = ring.mul(vf, uh);
    assert(x == ring.mul(ring.adjoint(ring.mul(f, vh)), uh));
    ring.mul_cells(vf, uh);
    ring.mul_associates(v, f, uh);
    ring.mul_associates(u, s, vh);
    let us = ring.mul(u, s);
    let sv = ring.mul(s, vh);
    let fu = ring.mul(f, uh);
    // a x = (u s)(f u^H), and x a = (v f)(s v^H)
    lemma_cancel(ring, us, vh, v, fu);
    lemma_cancel(ring, vf, uh, u, sv);
    let ax = ring.mul(a, x);
    let xa = ring.mul(x, a);
    assert(ax == ring.mul(us, fu));
    assert(xa == ring.mul(vf, sv));
    // their middles are real diagonals
    let sf = Seq::new(sigma.len(), |k: int| ring.product(sigma[k], factors[k]));
    let fs = Seq::new(sigma.len(), |k: int| ring.product(factors[k], sigma[k]));
    ring.diagonals_multiply(sigma, factors);
    ring.diagonals_multiply(factors, sigma);
    assert(are_real(ring, sf) && are_real(ring, fs)) by {
        assert forall|k: int| 0 <= k < sf.len() implies ring.conj(#[trigger] sf[k]) == sf[k] by {
            ring.conj_of_product(sigma[k], factors[k]);
        }
        assert forall|k: int| 0 <= k < fs.len() implies ring.conj(#[trigger] fs[k]) == fs[k] by {
            ring.conj_of_product(factors[k], sigma[k]);
        }
    }
    ring.adjoint_of_diagonal(sf);
    ring.adjoint_of_diagonal(fs);
    ring.diagonal_cells(sf);
    ring.diagonal_cells(fs);
    let m = ring.mul(s, f);
    let n = ring.mul(f, s);
    // a x = u (s f) u^H
    ring.mul_associates(u, s, fu);
    ring.mul_associates(s, f, uh);
    ring.mul_cells(m, uh);
    lemma_conjugation_is_hermitian(ring, u, m);
    assert(ax == ring.mul(u, ring.mul(m, uh)));
    // x a = v (f s) v^H
    ring.mul_associates(v, f, sv);
    ring.mul_associates(f, s, vh);
    ring.mul_cells(n, vh);
    ring.adjoint_twice(vh);
    lemma_conjugation_is_hermitian(ring, v, n);
    assert(xa == ring.mul(v, ring.mul(n, vh)));
    // a x a = u (s f) u^H u s v^H = u (s f s) v^H
    ring.mul_cells(u, m);
    ring.mul_associates(u, m, uh);
    lemma_cancel(ring, ring.mul(u, m), uh, u, sv);
    ring.mul_associates(u, m, sv);
    ring.mul_associates(m, s, vh);
    ring.diagonals_multiply(sf, sigma);
    assert(Seq::new(sf.len(), |k: int| ring.product(sf[k], sigma[k])) =~= sigma);
    assert(ring.mul(m, s) == s);
    assert(ring.mul(ax, a) == a);
    // x a x = v (f s) v^H v f u^H = v (f s f) u^H
    ring.mul_cells(v, n);
    ring.mul_associates(v, n, vh);
    lemma_cancel(ring, ring.mul(v, n), vh, v, fu);
    ring.mul_associates(v, n, fu);
    ring.mul_associates(n, f, uh);
    ring.diagonals_multiply(fs, factors);
    assert(Seq::new(fs.len(), |k: int| ring.product(fs[k], factors[k])) =~= factors) by {
        assert forall|k: int| 0 <= k < fs.len() implies ring.product(fs[k], factors[k])
            == factors[k] by {
            assert(sigma[k] == sigma[k]);
        }
    }
    assert(ring.mul(n, f) == f);
    assert(ring.mul(xa, x) == x);
}

/// The image of a sector under the pseudo-inverse solves the four equations that
/// define it, where the backend's SVD, its product and the scalars are exact.
pub proof fn lemma_inverted_sector_is_pseudo_inverse<
    D,
    V,
    C: Fn(D) -> D,
    G: Fn(D, D) -> D,
    M: Fn(&[D], usize, usize, &[D], usize) -> Result<Vec<D>, OperationError>,
>(
    ring: Ring<D>,
    a: Seq<D>,
    stage: SvdStage<D, V>,
    sigma: Seq<D>,
    factors: Seq<D>,
    rows: usize,
    cols: usize,
    conjugate: C,
    multiply: G,
    matmul: M,
    image: Vec<D>,
)
    requires
        ring.is_ring(),
        conjugates_in(ring, conjugate),
        multiplies_in(ring, multiply),
        multiplies_exactly(ring, matmul),
        is_svd_of(
            ring,
            matrix(rows as int, cols as int, a),
            matrix(rows as int, smaller(rows, cols) as int, stage.u@),
            sigma,
            matrix(smaller(rows, cols) as int, cols as int, stage.vt@),
        ),
        are_real(ring, factors),
        are_reciprocals(ring, sigma, factors),
        inverts_sector(stage, factors, rows, cols, conjugate, multiply, matmul, Ok(image)),
    ensures
        is_pseudo_inverse(
            ring,
            matrix(rows as int, cols as int, a),
            matrix(cols as int, rows as int, image@),
        ),
{
    let rank = smaller(rows, cols);
    let (r, c, n) = (rows as int, cols as int, rank as int);
    let scaled = rows_scaled(stage.vt@, c, n, factors, multiply, n);
    lemma_rows_scaled(ring, multiply, stage.vt@, n, c, factors);
    lemma_adjoint_is_adjoint(ring, conjugate, scaled, n, c);
    lemma_adjoint_is_adjoint(ring, conjugate, stage.u@, r, n);
    let left = adjoint_matrix(conjugate, scaled, n, c);
    let right = adjoint_matrix(conjugate, stage.u@, r, n);
    let (x, y) = choose|x: &[D], y: &[D]|
        x@ == left && y@ == right && #[trigger] call_ensures(
            matmul,
            (x, cols, rank, y, rows),
            Ok::<Vec<D>, OperationError>(image),
        );
    assert(matrix(c, r, image@) == ring.mul(matrix(c, n, left), matrix(n, r, right)));
    lemma_svd_inverts(ring, matrix(r, c, a), matrix(r, n, stage.u@), sigma, matrix(n, c, stage.vt@), factors);
}

/// Every root squares to its value.
pub open spec fn are_roots<D>(ring: Ring<D>, sigma: Seq<D>, roots: Seq<D>) -> bool {
    &&& roots.len() == sigma.len()
    &&& forall|k: int|
        0 <= k < sigma.len() ==> ring.product(#[trigger] roots[k], roots[k]) == sigma[k]
}

/// `vh^H s vh` in terms of a factor scaled by roots.
proof fn lemma_square_of_rows<D>(ring: Ring<D>, sigma: Seq<D>, roots: Seq<D>, vh: Matrix<D>)
    requires
        ring.is_ring(),
        are_real(ring, roots),
        are_roots(ring, sigma, roots),
        vh.shaped(),
        vh.rows == sigma.len(),
    ensures
        ({
            let x = ring.mul(ring.diagonal(roots), vh);
            ring.mul(ring.adjoint(x), x) == ring.mul(
                ring.adjoint(vh),
                ring.mul(ring.diagonal(sigma), vh),
            )
        }),
{
    let q = ring.diagonal(roots);
    let s = ring.diagonal(sigma);
    let v = ring.adjoint(vh);
    let x = ring.mul(q, vh);
    ring.diagonal_cells(roots);
    ring.diagonal_cells(sigma);
    ring.adjoint_cells(vh);
    ring.mul_cells(q, vh);
    ring.adjoint_of_product(q, vh);
    ring.adjoint_of_diagonal(roots);
    ring.mul_associates(v, q, x);
    ring.mul_associates(q, q, vh);
    ring.diagonals_multiply(roots, roots);
    assert(Seq::new(roots.len(), |k: int| ring.product(roots[k], roots[k])) =~= sigma);
}

/// `u s u^H` in terms of a factor scaled by roots.
proof fn lemma_square_of_cols<D>(ring: Ring<D>, sigma: Seq<D>, roots: Seq<D>, u: Matrix<D>)
    requires
        ring.is_ring(),
        are_real(ring, roots),
        are_roots(ring, sigma, roots),
        u.shaped(),
        u.cols == sigma.len(),
    ensures
        ({
            let x = ring.mul(u, ring.diagonal(roots));
            ring.mul(x, ring.adjoint(x)) == ring.mul(
                ring.mul(u, ring.diagonal(sigma)),
                ring.adjoint(u),
            )
        }),
{
    let q = ring.diagonal(roots);
    let s = ring.diagonal(sigma);
    let uh = ring.adjoint(u);
    let x = ring.mul(u, q);
    ring.diagonal_cells(roots);
    ring.diagonal_cells(sigma);
    ring.adjoint_cells(u);
    ring.mul_cells(u, q);
    ring.adjoint_of_product(u, q);
    ring.adjoint_of_diagonal(roots);
    ring.mul_associates(x, q, uh);
    ring.mul_associates(u, q, q);
    ring.diagonals_multiply(roots, roots);
    assert(Seq::new(roots.len(), |k: int| ring.product(roots[k], roots[k])) =~= sigma);
}

/// What the two factors of a polar decomposition are: their product, with the
/// isometry on the left or on the right, is the matrix, and the positive factor
/// is Hermitian.
pub open spec fn is_polar_of<D>(
    ring: Ring<D>,
    a: Matrix<D>,
    w: Matrix<D>,
    p: Matrix<D>,
    direction: PolarDirection,
) -> bool {
    &&& w.rows == a.rows
    &&& w.cols == a.cols
    &&& ring.adjoint(p) == p
    &&& match direction {
        PolarDirection::Left => ring.mul(w, p) == a,
        PolarDirection::Right => ring.mul(p, w) == a,
    }
}

/// The factors of a sector are its polar decomposition, where the backend's SVD,
/// its products and the scalars are exact: `w p` (or `p w`) gives the sector
/// back, `p` is Hermitian, and `p` squared is `a^H a` (or `a a^H`).
pub proof fn lemma_polar_factors_multiply_to_sector<
    D,
    V,
    A: Fn(D, D) -> D,
    G: Fn(D, D) -> D,
    C: Fn(D) -> D,
    M: Fn(&[D], usize, usize, &[D], usize) -> Result<Vec<D>, OperationError>,
>(
    ring: Ring<D>,
    a: Seq<D>,
    stage: SvdStage<D, V>,
    sigma: Seq<D>,
    rows: usize,
    cols: usize,
    roots: Seq<D>,
    direction: PolarDirection,
    half: D,
    plus: A,
    multiply: G,
    conjugate: C,
    matmul: M,
    w: Vec<D>,
    p: Vec<D>,
)
    requires
        ring.is_ring(),
        adds_in(ring, plus),
        multiplies_in(ring, multiply),
        conjugates_in(ring, conjugate),
        multiplies_exactly(ring, matmul),
        ring.conj(half) == half,
        ring.sum(half, half) == ring.one,
        is_svd_of(
            ring,
            matrix(rows as int, cols as int, a),
            matrix(rows as int, smaller(rows, cols) as int, stage.u@),
            sigma,
            matrix(smaller(rows, cols) as int, cols as int, stage.vt@),
        ),
        are_real(ring, roots),
        are_roots(ring, sigma, roots),
        polar_factors(
            Ok::<(Vec<D>, Vec<D>), OperationError>((w, p)),
            stage,
            rows,
            cols,
            roots,
            direction,
            half,
            plus,
            multiply,
            conjugate,
            matmul,
        ),
    ensures
        ({
            let sector = matrix(rows as int, cols as int, a);
            let order = match direction {
                PolarDirection::Left => cols as int,
                PolarDirection::Right => rows as int,
            };
            let positive = matrix(order, order, p@);
            &&& is_polar_of(
                ring,
                sector,
                matrix(rows as int, cols as int, w@),
                positive,
                direction,
            )
            &&& ring.mul(positive, positive) == match direction {
                PolarDirection::Left => ring.mul(ring.adjoint(sector), sector),
                PolarDirection::Right => ring.mul(sector, ring.adjoint(sector)),
            }
        }),
{
    let rank = smaller(rows, cols);
    let (r, c, n) = (rows as int, cols as int, rank as int);
    let sector = matrix(r, c, a);
    let u = matrix(r, n, stage.u@);
    let vh = matrix(n, c, stage.vt@);
    let s = ring.diagonal(sigma);
    let uh = ring.adjoint(u);
    let v = ring.adjoint(vh);
    ring.diagonal_cells(sigma);
    ring.diagonal_cells(roots);
    ring.adjoint_cells(u);
    ring.adjoint_cells(vh);
    ring.mul_cells(s, vh);
    ring.mul_cells(u, s);
    ring.mul_cells(u, vh);
    ring.mul_associates(u, s, vh);
    ring.adjoint_of_diagonal(sigma);
    ring.adjoint_twice(u);
    ring.adjoint_twice(vh);
    let found = choose|found: Result<Vec<D>, OperationError>|
        {
            &&& #[trigger] multiplies_to(matmul, stage.u@, rows, rank, stage.vt@, cols, found)
            &&& found is Ok
            &&& found->Ok_0 == w
            &&& exists|raw: Result<Vec<D>, OperationError>|
                {
                    &&& #[trigger] squares_to(
                        stage,
                        rows,
                        cols,
                        roots,
                        direction,
                        multiply,
                        conjugate,
                        matmul,
                        raw,
                    )
                    &&& raw is Ok
                    &&& p@ == hermitian_part(
                        raw->Ok_0@,
                        positive_order(rows, cols, direction) as int,
                        half,
                        plus,
                        multiply,
                        conjugate,
                    )
                }
        };
    let raw = choose|raw: Result<Vec<D>, OperationError>|
        {
            &&& #[trigger] squares_to(
                stage,
                rows,
                cols,
                roots,
                direction,
                multiply,
                conjugate,
                matmul,
                raw,
            )
            &&& raw is Ok
            &&& p@ == hermitian_part(
                raw->Ok_0@,
                positive_order(rows, cols, direction) as int,
                half,
                plus,
                multiply,
                conjugate,
            )
        };
    let (x, y) = choose|x: &[D], y: &[D]|
        x@ == stage.u@ && y@ == stage.vt@ && #[trigger] call_ensures(
            matmul,
            (x, rows, rank, y, cols),
            found,
        );
    assert(call_ensures(matmul, (x, rows, rank, y, cols), Ok::<Vec<D>, OperationError>(w)));
    let isometry = matrix(r, c, w@);
    assert(isometry == ring.mul(u, vh));
    let product = raw->Ok_0;
    let sv = ring.mul(s, vh);
    let us = ring.mul(u, s);
    match direction {
        PolarDirection::Left => {
            let scaled = rows_scaled(stage.vt@, c, n, roots, multiply, n);
            let star = adjoint_matrix(conjugate, scaled, n, c);
            lemma_rows_scaled(ring, multiply, stage.vt@, n, c, roots);
            lemma_adjoint_is_adjoint(ring, conjugate, scaled, n, c);
            let (x, y) = choose|x: &[D], y: &[D]|
                x@ == star && y@ == scaled && #[trigger] call_ensures(
                    matmul,
                    (x, cols, rank, y, cols),
                    raw,
                );
            assert(call_ensures(
                matmul,
                (x, cols, rank, y, cols),
                Ok::<Vec<D>, OperationError>(product),
            ));
            let positive = matrix(c, c, product@);
            assert(positive == ring.mul(matrix(c, n, star), matrix(n, c, scaled)));
            lemma_square_of_rows(ring, sigma, roots, vh);
            assert(positive == ring.mul(v, sv));
            ring.mul_cells(v, sv);
            lemma_conjugation_is_hermitian(ring, v, s);
            lemma_hermitian_part_of_hermitian(
                ring,
                product@,
                c,
                half,
                plus,
                multiply,
                conjugate,
            );
            assert(p@ == product@);
            // w p = u v^H v s v^H = u s v^H
            lemma_cancel(ring, u, vh, v, sv);
            // p p = v s v^H v s v^H = v s u^H u s v^H = a^H a
            ring.mul_cells(v, s);
            ring.mul_associates(v, s, vh);
            lemma_cancel(ring, ring.mul(v, s), vh, v, sv);
            ring.adjoint_of_product(u, sv);
            ring.adjoint_of_product(s, vh);
            lemma_cancel(ring, ring.mul(v, s), uh, u, sv);
        },
        PolarDirection::Right => {
            let scaled = cols_scaled(stage.u@, r, roots, multiply, n);
            let star = adjoint_matrix(conjugate, scaled, r, n);
            lemma_cols_scaled(ring, multiply, stage.u@, r, n, roots);
            lemma_adjoint_is_adjoint(ring, conjugate, scaled, r, n);
            let (x, y) = choose|x: &[D], y: &[D]|
                x@ == scaled && y@ == star && #[trigger] call_ensures(
                    matmul,
                    (x, rows, rank, y, rows),
                    raw,
                );
            assert(call_ensures(
                matmul,
                (x, rows, rank, y, rows),
                Ok::<Vec<D>, OperationError>(product),
            ));
            let positive = matrix(r, r, product@);
            assert(positive == ring.mul(matrix(r, n, scaled), matrix(n, r, star)));
            lemma_square_of_cols(ring, sigma, roots, u);
            assert(positive == ring.mul(us, uh));
            ring.mul_cells(us, uh);
            ring.mul_associates(u, s, uh);
            lemma_conjugation_is_hermitian(ring, u, s);
            lemma_hermitian_part_of_hermitian(
                ring,
                product@,
                r,
                half,
                plus,
                multiply,
                conjugate,
            );
            assert(p@ == product@);
            // p w = u s u^H u v^H = u s v^H
            lemma_cancel(ring, us, uh, u, vh);
            // p p = u s u^H u s u^H = u s v^H v s u^H = a a^H
            ring.mul_cells(s, uh);
            lemma_cancel(ring, us, uh, u, ring.mul(s, uh));
            ring.adjoint_of_product(us, vh);
            ring.adjoint_of_product(u, s);
            lemma_cancel(ring, us, vh, v, ring.mul(s, uh));
        },
    }
}

} // verus!
