//! Compact SVDs of single sectors, and what is made of their factors.

use vstd::prelude::*;

use crate::dense::{adjoint_col_major, adjoint_matrix, lemma_adjoint_matrix};
use crate::dense_calls::takes_matrices;
use crate::error::OperationError;
use crate::factor_routes::smaller;
use crate::gauge::{scale_col, scale_row, scaled_col, scaled_row};
use crate::spectrum::{is_function, is_operation};

verus! {

/// The factors of one sector: `u` has its rows, `vt` its columns.
#[derive(Clone, Debug, PartialEq, Eq)]
pub struct SvdStage<D, V> {
    pub u: Vec<D>,
    pub values: Vec<V>,
    pub vt: Vec<D>,
}

/// The factors of a `rows x cols` matrix have all their elements.
pub open spec fn stage_is_shaped<D, V>(stage: SvdStage<D, V>, rows: usize, cols: usize) -> bool {
    &&& stage.values@.len() == smaller(rows, cols)
    &&& stage.u@.len() == rows * smaller(rows, cols)
    &&& stage.vt@.len() == smaller(rows, cols) * cols
}

/// The backend takes any matrix, and the factors have all their elements.
pub open spec fn is_svd<
    D,
    V,
    F: Fn(&[D], usize, usize) -> Result<SvdStage<D, V>, OperationError>,
>(svd: F) -> bool {
    &&& takes_matrices(svd)
    &&& forall|x: &[D], rows: usize, cols: usize, stage: SvdStage<D, V>| #[trigger]
        call_ensures(
            svd,
            (x, rows, cols),
            Ok::<SvdStage<D, V>, OperationError>(stage),
        ) ==> stage_is_shaped(stage, rows, cols)
}

/// A matrix whose first `count` rows were each multiplied by their factor.
pub open spec fn rows_scaled<D, G: Fn(D, D) -> D>(
    data: Seq<D>,
    cols: int,
    leading: int,
    factors: Seq<D>,
    multiply: G,
    count: int,
) -> Seq<D>
    decreases count,
{
    if count <= 0 {
        data
    } else {
        scaled_row(
            rows_scaled(data, cols, leading, factors, multiply, count - 1),
            cols,
            leading,
            count - 1,
            factors[count - 1],
            multiply,
        )
    }
}

/// A matrix whose first `count` columns were each multiplied by their factor.
pub open spec fn cols_scaled<D, G: Fn(D, D) -> D>(
    data: Seq<D>,
    rows: int,
    factors: Seq<D>,
    multiply: G,
    count: int,
) -> Seq<D>
    decreases count,
{
    if count <= 0 {
        data
    } else {
        scaled_col(
            cols_scaled(data, rows, factors, multiply, count - 1),
            rows,
            rows,
            count - 1,
            factors[count - 1],
            multiply,
        )
    }
}

/// Multiplies every row of a matrix by its factor.
pub fn scale_rows<D: Copy, G: Fn(D, D) -> D>(
    data: Vec<D>,
    rows: usize,
    cols: usize,
    factors: &[D],
    multiply: &G,
) -> (scaled: Vec<D>)
    requires
        is_operation(multiply),
        data@.len() == rows * cols,
        factors@.len() == rows,
    ensures
        scaled@.len() == data@.len(),
        scaled@ == rows_scaled(
            data@,
            cols as int,
            rows as int,
            factors@,
            multiply,
            rows as int,
        ),
{
    let ghost before = data@;
    let mut scaled: Vec<D> = data;
    let mut row: usize = 0;
    while row < rows
        invariant
            row <= rows,
            is_operation(multiply),
            before.len() == rows * cols,
            factors@.len() == rows,
            scaled@.len() == before.len(),
            scaled@ == rows_scaled(
                before,
                cols as int,
                rows as int,
                factors@,
                multiply,
                row as int,
            ),
        decreases rows - row,
    {
        proof {
            if cols > 0 {
                assert(row + rows * (cols - 1) < rows * cols) by (nonlinear_arith)
                    requires
                        row < rows,
                        cols > 0,
                ;
            }
        }
        scale_row(scaled.as_mut_slice(), cols, rows, row, factors[row], multiply);
        row += 1;
    }
    scaled
}

/// Multiplies every column of a matrix by its factor.
pub fn scale_cols<D: Copy, G: Fn(D, D) -> D>(
    data: Vec<D>,
    rows: usize,
    cols: usize,
    factors: &[D],
    multiply: &G,
) -> (scaled: Vec<D>)
    requires
        is_operation(multiply),
        data@.len() == rows * cols,
        factors@.len() == cols,
    ensures
        scaled@.len() == data@.len(),
        scaled@ == cols_scaled(data@, rows as int, factors@, multiply, cols as int),
{
    let ghost before = data@;
    let mut scaled: Vec<D> = data;
    let mut col: usize = 0;
    while col < cols
        invariant
            col <= cols,
            is_operation(multiply),
            before.len() == rows * cols,
            factors@.len() == cols,
            scaled@.len() == before.len(),
            scaled@ == cols_scaled(before, rows as int, factors@, multiply, col as int),
        decreases cols - col,
    {
        proof {
            assert(rows * col + rows <= rows * cols) by (nonlinear_arith)
                requires
                    col < cols,
                    rows >= 0,
            ;
        }
        scale_col(scaled.as_mut_slice(), rows, rows, col, factors[col], multiply);
        col += 1;
    }
    scaled
}

/// The conjugate transpose under a function.
pub fn adjoint_of<D: Copy, F: Fn(D) -> D>(
    data: &[D],
    rows: usize,
    cols: usize,
    conjugate: &F,
) -> (adjoint: Vec<D>)
    requires
        is_function(conjugate),
        data@.len() == rows * cols,
    ensures
        adjoint@ == adjoint_matrix(conjugate, data@, rows as int, cols as int),
        adjoint@.len() == data@.len(),
{
    let adjoint = adjoint_col_major(data, rows, cols, conjugate);
    proof {
        lemma_adjoint_matrix(conjugate, data@, rows as int, cols as int, adjoint@);
    }
    adjoint
}

} // verus!
