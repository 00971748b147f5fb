//! Full QR and SVD factors from economy factorizations.

use vstd::prelude::*;

use crate::dense::adjoint_matrix;
use crate::dense_calls::{factors_to, takes_matrices};
use crate::direct::RouteFactors;
use crate::error::OperationError;
use crate::factor_routes::smaller;
use crate::full::{augment_with_identity, completed_basis, leading_columns};
use crate::solve_routes::identity_matrix;
use crate::spectrum::is_function;
use crate::stages::BondExtent;
use crate::svd_stage::{adjoint_of, is_svd, stage_is_shaped, SvdStage};

verus! {

/// The factors of a QR: `q` has the rows of the matrix, `r` its columns.
#[derive(Clone, Debug, PartialEq, Eq)]
pub struct QrStage<D> {
    pub q: Vec<D>,
    pub r: Vec<D>,
}

/// A QR whose bond has this extent takes any matrix, and the factors have all
/// their elements.
pub open spec fn is_qr_on<D, F: Fn(&[D], usize, usize) -> Result<QrStage<D>, OperationError>>(
    qr: F,
    bond: BondExtent,
) -> bool {
    &&& takes_matrices(qr)
    &&& forall|x: &[D], rows: usize, cols: usize, stage: QrStage<D>| #[trigger]
        call_ensures(qr, (x, rows, cols), Ok::<QrStage<D>, OperationError>(stage)) ==> {
            &&& stage.q@.len() == rows * bond.spec_of(rows, cols)
            &&& stage.r@.len() == bond.spec_of(rows, cols) * cols
        }
}

/// An economy QR.
pub open spec fn is_qr<D, F: Fn(&[D], usize, usize) -> Result<QrStage<D>, OperationError>>(
    qr: F,
) -> bool {
    is_qr_on(qr, BondExtent::Compact)
}

/// A matrix with an identity beside it.
pub open spec fn beside_identity<D>(matrix: Seq<D>, rows: int, zero: D, one: D) -> Seq<D> {
    matrix + identity_matrix(rows, zero, one)
}

/// An orthonormal basis of `rank` columns completed to a square one: the
/// trailing columns come from the QR of the basis beside an identity, and the
/// columns that were there stay unchanged.
pub open spec fn completes<
    D,
    F: Fn(&[D], usize, usize) -> Result<QrStage<D>, OperationError>,
>(
    result: Result<Vec<D>, OperationError>,
    thin: Seq<D>,
    rows: usize,
    rank: usize,
    zero: D,
    one: D,
    qr: F,
) -> bool {
    if rank == rows {
        result is Ok && result->Ok_0@ == thin
    } else {
        exists|answer: Result<QrStage<D>, OperationError>|
            {
                &&& #[trigger] factors_to(
                    qr,
                    beside_identity(thin, rows as int, zero, one),
                    rows,
                    (rank + rows) as usize,
                    answer,
                )
                &&& match (answer, result) {
                    (Err(error), _) => result == Err::<Vec<D>, OperationError>(error),
                    (Ok(stage), Ok(full)) => full@ == thin + stage.q@.subrange(
                        rows * rank,
                        rows * rows,
                    ),
                    (Ok(_), Err(_)) => false,
                }
            }
    }
}

/// Hands a matrix with an identity beside it to the backend.
fn qr_beside_identity<D: Copy, F: Fn(&[D], usize, usize) -> Result<QrStage<D>, OperationError>>(
    matrix: &[D],
    rows: usize,
    cols: usize,
    zero: D,
    one: D,
    qr: &F,
) -> (answer: Result<QrStage<D>, OperationError>)
    requires
        matrix@.len() == rows * cols,
        cols + rows <= usize::MAX,
        rows * (cols + rows) <= usize::MAX,
        is_qr(qr),
    ensures
        factors_to(
            qr,
            beside_identity(matrix@, rows as int, zero, one),
            rows,
            (cols + rows) as usize,
            answer,
        ),
        answer is Ok ==> {
            &&& answer->Ok_0.q@.len() == rows * rows
            &&& answer->Ok_0.r@.len() == rows * (cols + rows)
        },
{
    proof {
        assert(rows * (cols + rows) == rows * cols + rows * rows) by (nonlinear_arith);
        assert(rows * cols >= 0 && rows * rows >= 0) by (nonlinear_arith)
            requires
                rows >= 0,
                cols >= 0,
        ;
    }
    let augmented = augment_with_identity(matrix, rows, cols, zero, one);
    let x = augmented.as_slice();
    let width: usize = cols + rows;
    let answer = qr(x, rows, width);
    proof {
        assert(call_ensures(qr, (x, rows, width), answer));
        if answer is Ok {
            assert(call_ensures(
                qr,
                (x, rows, width),
                Ok::<QrStage<D>, OperationError>(answer->Ok_0),
            ));
        }
    }
    answer
}

/// Completes orthonormal columns to a square basis.
pub fn orthonormal_completion<
    D: Copy,
    F: Fn(&[D], usize, usize) -> Result<QrStage<D>, OperationError>,
>(thin: &[D], rows: usize, rank: usize, zero: D, one: D, qr: &F) -> (result: Result<
    Vec<D>,
    OperationError,
>)
    requires
        rank <= rows,
        thin@.len() == rows * rank,
        rank < rows ==> rank + rows <= usize::MAX && rows * (rank + rows) <= usize::MAX,
        is_qr(qr),
    ensures
        completes(result, thin@, rows, rank, zero, one, qr),
        result is Ok ==> result->Ok_0@.len() == rows * rows && result->Ok_0@.subrange(
            0,
            rows * rank,
        ) == thin@,
{
    if rank == rows {
        let full: Vec<D> = vstd::slice::slice_to_vec(thin);
        assert(full@.subrange(0, rows * rank) =~= thin@);
        return Ok(full);
    }
    proof {
        assert(rows * rank <= rows * rows) by (nonlinear_arith)
            requires
                rank <= rows,
        ;
    }
    match qr_beside_identity(thin, rows, rank, zero, one, qr) {
        Err(error) => Err(error),
        Ok(stage) => Ok(completed_basis(thin, stage.q.as_slice(), rows, rank)),
    }
}

/// A square `q` and an `r` of the matrix's shape. Where the matrix has more
/// rows than columns, both come from the QR of the matrix beside an identity.
pub open spec fn full_qr<D, F: Fn(&[D], usize, usize) -> Result<QrStage<D>, OperationError>>(
    result: Result<QrStage<D>, OperationError>,
    input: Seq<D>,
    rows: usize,
    cols: usize,
    zero: D,
    one: D,
    qr: F,
) -> bool {
    if rows <= cols {
        factors_to(qr, input, rows, cols, result)
    } else {
        exists|answer: Result<QrStage<D>, OperationError>|
            {
                &&& #[trigger] factors_to(
                    qr,
                    beside_identity(input, rows as int, zero, one),
                    rows,
                    (cols + rows) as usize,
                    answer,
                )
                &&& match (answer, result) {
                    (Err(error), _) => result == Err::<QrStage<D>, OperationError>(error),
                    (Ok(work), Ok(stage)) => stage.q == work.q && stage.r@ == work.r@.take(
                        rows * cols,
                    ),
                    (Ok(_), Err(_)) => false,
                }
            }
    }
}

/// The full QR of a matrix, before its diagonal is made positive.
pub fn full_qr_numerical_stage<
    D: Copy,
    F: Fn(&[D], usize, usize) -> Result<QrStage<D>, OperationError>,
>(input: &[D], rows: usize, cols: usize, zero: D, one: D, qr: &F) -> (result: Result<
    QrStage<D>,
    OperationError,
>)
    requires
        input@.len() == rows * cols,
        rows > cols ==> cols + rows <= usize::MAX && rows * (cols + rows) <= usize::MAX,
        is_qr(qr),
    ensures
        full_qr(result, input@, rows, cols, zero, one, qr),
        result is Ok ==> result->Ok_0.q@.len() == rows * rows && result->Ok_0.r@.len() == rows
            * cols,
{
    if rows <= cols {
        let answer = qr(input, rows, cols);
        proof {
            assert(call_ensures(qr, (input, rows, cols), answer));
            if answer is Ok {
                assert(call_ensures(
                    qr,
                    (input, rows, cols),
                    Ok::<QrStage<D>, OperationError>(answer->Ok_0),
                ));
            }
        }
        return answer;
    }
    match qr_beside_identity(input, rows, cols, zero, one, qr) {
        Err(error) => Err(error),
        Ok(work) => {
            proof {
                assert(rows * cols <= rows * (cols + rows)) by (nonlinear_arith);
                assert(rows * cols >= 0) by (nonlinear_arith);
            }
            let r = leading_columns(work.r.as_slice(), rows, cols);
            Ok(QrStage { q: work.q, r })
        },
    }
}

/// The square factors of a full SVD from a compact one: both thin bases are
/// completed, the left one first.
pub open spec fn full_svd<
    D,
    V,
    C: Fn(D) -> D,
    S: Fn(&[D], usize, usize) -> Result<SvdStage<D, V>, OperationError>,
    F: Fn(&[D], usize, usize) -> Result<QrStage<D>, OperationError>,
>(
    result: Result<SvdStage<D, V>, OperationError>,
    matrix: Seq<D>,
    rows: usize,
    cols: usize,
    zero: D,
    one: D,
    conjugate: C,
    svd: S,
    qr: F,
) -> bool {
    let rank = smaller(rows, cols);
    exists|answer: Result<SvdStage<D, V>, OperationError>|
        {
            &&& #[trigger] factors_to(svd, matrix, rows, cols, answer)
            &&& match answer {
                Err(error) => result == Err::<SvdStage<D, V>, OperationError>(error),
                Ok(stage) => exists|left: Result<Vec<D>, OperationError>|
                    {
                        &&& #[trigger] completes(left, stage.u@, rows, rank, zero, one, qr)
                        &&& match left {
                            Err(error) => result == Err::<SvdStage<D, V>, OperationError>(error),
                            Ok(u) => completes_right(
                                result,
                                stage,
                                u,
                                cols,
                                rank,
                                zero,
                                one,
                                conjugate,
                                qr,
                            ),
                        }
                    },
            }
        }
}

/// The right basis of a full SVD: the adjoint of `vt` is completed, and its
/// adjoint is the new `vt`.
pub open spec fn completes_right<
    D,
    V,
    C: Fn(D) -> D,
    F: Fn(&[D], usize, usize) -> Result<QrStage<D>, OperationError>,
>(
    result: Result<SvdStage<D, V>, OperationError>,
    stage: SvdStage<D, V>,
    u: Vec<D>,
    cols: usize,
    rank: usize,
    zero: D,
    one: D,
    conjugate: C,
    qr: F,
) -> bool {
    exists|right: Result<Vec<D>, OperationError>|
        {
            &&& #[trigger] completes(
                right,
                adjoint_matrix(conjugate, stage.vt@, rank as int, cols as int),
                cols,
                rank,
                zero,
                one,
                qr,
            )
            &&& match (right, result) {
                (Err(error), _) => result == Err::<SvdStage<D, V>, OperationError>(error),
                (Ok(v), Ok(full)) => {
                    &&& full.u == u
                    &&& full.values == stage.values
                    &&& full.vt@ == adjoint_matrix(conjugate, v@, cols as int, cols as int)
                },
                (Ok(_), Err(_)) => false,
            }
        }
}

/// The full SVD of a matrix over a backend that has only the compact one.
pub fn full_svd_numerical_stage<
    D: Copy,
    V,
    C: Fn(D) -> D,
    S: Fn(&[D], usize, usize) -> Result<SvdStage<D, V>, OperationError>,
    F: Fn(&[D], usize, usize) -> Result<QrStage<D>, OperationError>,
>(
    matrix: &[D],
    rows: usize,
    cols: usize,
    zero: D,
    one: D,
    conjugate: &C,
    svd: &S,
    qr: &F,
) -> (result: Result<SvdStage<D, V>, OperationError>)
    requires
        matrix@.len() == rows * cols,
        rows > cols ==> cols + rows <= usize::MAX && rows * (cols + rows) <= usize::MAX,
        cols > rows ==> rows + cols <= usize::MAX && cols * (rows + cols) <= usize::MAX,
        is_function(conjugate),
        is_svd(svd),
        is_qr(qr),
    ensures
        full_svd(result, matrix@, rows, cols, zero, one, conjugate, svd, qr),
        result is Ok ==> {
            &&& result->Ok_0.u@.len() == rows * rows
            &&& result->Ok_0.vt@.len() == cols * cols
            &&& result->Ok_0.values@.len() == smaller(rows, cols)
        },
{
    let rank: usize = if rows <= cols {
        rows
    } else {
        cols
    };
    let answer = svd(matrix, rows, cols);
    proof {
        assert(call_ensures(svd, (matrix, rows, cols), answer));
        assert(factors_to(svd, matrix@, rows, cols, answer));
        if answer is Ok {
            assert(call_ensures(
                svd,
                (matrix, rows, cols),
                Ok::<SvdStage<D, V>, OperationError>(answer->Ok_0),
            ));
        }
    }
    let stage = match answer {
        Err(error) => {
            return Err(error);
        },
        Ok(stage) => stage,
    };
    assert(stage_is_shaped(stage, rows, cols));
    let u = match orthonormal_completion(stage.u.as_slice(), rows, rank, zero, one, qr) {
        Err(error) => {
            assert(completes(
                Err::<Vec<D>, OperationError>(error),
                stage.u@,
                rows,
                rank,
                zero,
                one,
                qr,
            ));
            return Err(error);
        },
        Ok(u) => u,
    };
    assert(completes(
        Ok::<Vec<D>, OperationError>(u),
        stage.u@,
        rows,
        rank,
        zero,
        one,
        qr,
    ));
    let thin = adjoint_of(stage.vt.as_slice(), rank, cols, conjugate);
    assert(rank * cols == cols * rank) by (nonlinear_arith);
    match orthonormal_completion(thin.as_slice(), cols, rank, zero, one, qr) {
        Err(error) => {
            assert(completes(
                Err::<Vec<D>, OperationError>(error),
                thin@,
                cols,
                rank,
                zero,
                one,
                qr,
            ));
            Err(error)
        },
        Ok(v) => {
            assert(completes(
                Ok::<Vec<D>, OperationError>(v),
                thin@,
                cols,
                rank,
                zero,
                one,
                qr,
            ));
            let vt = adjoint_of(v.as_slice(), cols, cols, conjugate);
            Ok(SvdStage { u, values: stage.values, vt })
        },
    }
}

/// The factors of an LQ: the adjoints of the factors of the QR of the adjoint,
/// in the other order.
pub open spec fn lq_of<
    D,
    C: Fn(D) -> D,
    F: Fn(&[D], usize, usize) -> Result<QrStage<D>, OperationError>,
>(
    result: Result<RouteFactors<D>, OperationError>,
    matrix: Seq<D>,
    rows: usize,
    cols: usize,
    bond: BondExtent,
    conjugate: C,
    qr: F,
) -> bool {
    let kept = bond.spec_of(cols, rows) as int;
    exists|answer: Result<QrStage<D>, OperationError>|
        {
            &&& #[trigger] factors_to(
                qr,
                adjoint_matrix(conjugate, matrix, rows as int, cols as int),
                cols,
                rows,
                answer,
            )
            &&& match (answer, result) {
                (Err(error), _) => result == Err::<RouteFactors<D>, OperationError>(error),
                (Ok(stage), Ok(factors)) => {
                    &&& factors.left@ == adjoint_matrix(conjugate, stage.r@, kept, rows as int)
                    &&& factors.right@ == adjoint_matrix(conjugate, stage.q@, cols as int, kept)
                },
                (Ok(_), Err(_)) => false,
            }
        }
}

/// The LQ of a matrix, through the QR of its adjoint.
pub fn lq_by_adjoint<
    D: Copy,
    C: Fn(D) -> D,
    F: Fn(&[D], usize, usize) -> Result<QrStage<D>, OperationError>,
>(
    matrix: &[D],
    rows: usize,
    cols: usize,
    bond: BondExtent,
    conjugate: &C,
    qr: &F,
) -> (result: Result<RouteFactors<D>, OperationError>)
    requires
        matrix@.len() == rows * cols,
        is_function(conjugate),
        is_qr_on(qr, bond),
    ensures
        lq_of(result, matrix@, rows, cols, bond, conjugate, qr),
        result is Ok ==> {
            let kept = bond.spec_of(cols, rows);
            &&& result->Ok_0.left@.len() == rows * kept
            &&& result->Ok_0.right@.len() == kept * cols
        },
{
    let kept: usize = bond.of(cols, rows);
    let adjoint = adjoint_of(matrix, rows, cols, conjugate);
    let x = adjoint.as_slice();
    proof {
        assert(rows * cols == cols * rows) by (nonlinear_arith);
        assert(rows * kept == kept * rows) by (nonlinear_arith);
        assert(cols * kept == kept * cols) by (nonlinear_arith);
    }
    let answer = qr(x, cols, rows);
    proof {
        assert(call_ensures(qr, (x, cols, rows), answer));
        assert(factors_to(qr, adjoint@, cols, rows, answer));
    }
    match answer {
        Err(error) => Err(error),
        Ok(stage) => {
            assert(call_ensures(
                qr,
                (x, cols, rows),
                Ok::<QrStage<D>, OperationError>(stage),
            ));
            let left = adjoint_of(stage.r.as_slice(), kept, rows, conjugate);
            let right = adjoint_of(stage.q.as_slice(), cols, kept, conjugate);
            Ok(RouteFactors { left, right })
        },
    }
}

} // verus!
