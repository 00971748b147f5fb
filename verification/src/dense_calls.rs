//! What a dense backend is asked for and what it may answer.
//!
//! A backend is a function that the caller hands in. Nothing is known of the
//! numbers in its answers, so contracts say what it was asked and what became of
//! whatever it answered.

use vstd::prelude::*;

use crate::error::OperationError;

verus! {

/// The backend may answer the product of a `rows x inner` and an `inner x cols`
/// matrix in this way.
pub open spec fn multiplies_to<
    D,
    F: Fn(&[D], usize, usize, &[D], usize) -> Result<Vec<D>, OperationError>,
>(
    matmul: F,
    left: Seq<D>,
    rows: usize,
    inner: usize,
    right: Seq<D>,
    cols: usize,
    answer: Result<Vec<D>, OperationError>,
) -> bool {
    exists|x: &[D], y: &[D]|
        x@ == left && y@ == right && #[trigger] call_ensures(
            matmul,
            (x, rows, inner, y, cols),
            answer,
        )
}

/// The backend takes any two matrices that can be multiplied, and a product has
/// all its elements.
pub open spec fn is_product<
    D,
    F: Fn(&[D], usize, usize, &[D], usize) -> Result<Vec<D>, OperationError>,
>(matmul: F) -> bool {
    &&& forall|x: &[D], rows: usize, inner: usize, y: &[D], cols: usize|
        x@.len() == rows * inner && y@.len() == inner * cols ==> #[trigger] call_requires(
            matmul,
            (x, rows, inner, y, cols),
        )
    &&& forall|x: &[D], rows: usize, inner: usize, y: &[D], cols: usize, product: Vec<D>|
        #[trigger] call_ensures(
            matmul,
            (x, rows, inner, y, cols),
            Ok::<Vec<D>, OperationError>(product),
        ) ==> product@.len() == rows * cols
}

/// The backend may answer the solution of `matrix * x = rhs`, for an
/// `order x order` matrix and `cols` right-hand sides, in this way.
pub open spec fn solves_to<
    D,
    F: Fn(&[D], usize, &[D], usize) -> Result<Vec<D>, OperationError>,
>(
    solve: F,
    matrix: Seq<D>,
    order: usize,
    rhs: Seq<D>,
    cols: usize,
    answer: Result<Vec<D>, OperationError>,
) -> bool {
    exists|x: &[D], y: &[D]|
        x@ == matrix && y@ == rhs && #[trigger] call_ensures(solve, (x, order, y, cols), answer)
}

/// The backend takes any square system, and a solution has all its elements.
pub open spec fn is_solver<D, F: Fn(&[D], usize, &[D], usize) -> Result<Vec<D>, OperationError>>(
    solve: F,
) -> bool {
    &&& forall|x: &[D], order: usize, y: &[D], cols: usize|
        x@.len() == order * order && y@.len() == order * cols ==> #[trigger] call_requires(
            solve,
            (x, order, y, cols),
        )
    &&& forall|x: &[D], order: usize, y: &[D], cols: usize, solution: Vec<D>| #[trigger]
        call_ensures(
            solve,
            (x, order, y, cols),
            Ok::<Vec<D>, OperationError>(solution),
        ) ==> solution@.len() == order * cols
}

/// The backend may answer for a `rows x cols` matrix in this way.
pub open spec fn factors_to<D, T, F: Fn(&[D], usize, usize) -> Result<T, OperationError>>(
    factorize: F,
    matrix: Seq<D>,
    rows: usize,
    cols: usize,
    answer: Result<T, OperationError>,
) -> bool {
    exists|x: &[D]| x@ == matrix && #[trigger] call_ensures(factorize, (x, rows, cols), answer)
}

/// The backend takes any matrix.
pub open spec fn takes_matrices<D, T, F: Fn(&[D], usize, usize) -> Result<T, OperationError>>(
    factorize: F,
) -> bool {
    forall|x: &[D], rows: usize, cols: usize|
        x@.len() == rows * cols ==> #[trigger] call_requires(factorize, (x, rows, cols))
}

} // verus!
