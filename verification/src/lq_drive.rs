//! LQ factorizations, through the QR of every sector's adjoint.

use vstd::prelude::*;

use crate::bond::{bond_of_pairs, BondDimensions};
use crate::compact_drive::{
    compact_spaces_take, factors_are_sized, input_geometries, labelled_layouts_take,
    publish_compact_pairs, sector_pairs,
};
use crate::completion::{is_qr_on, lq_by_adjoint, lq_of, QrStage};
use crate::dense_calls::{factors_to, takes_matrices};
use crate::direct::RouteFactors;
use crate::error::OperationError;
use crate::factor::{FactorPair, FactorPlacement};
use crate::full_drive::{full_spaces_take, publish_on_bond, published_on_bond};
use crate::geometry::sectors_distinct;
use crate::input::InputMatricizations;
use crate::pair_drive::{labelled_spaces_take, labels_published, publish_labelled_pair};
use crate::shapes::{are_sized_pairs, FactorShape};
use crate::sides::{sides_published, takes_legs, DriveError, FactorsOnSpaces, Publication};
use crate::space::{MapSpace, SectorLeg};
use crate::spectrum::is_function;
use crate::stages::{factored_until, input_holds, is_bond_pair, sector_input, BondExtent};

verus! {

/// The bond of a matrix's adjoint.
pub open spec fn adjoint_extent(bond: BondExtent) -> BondExtent {
    match bond {
        BondExtent::Compact => BondExtent::Compact,
        BondExtent::Rows => BondExtent::Cols,
        BondExtent::Cols => BondExtent::Rows,
    }
}

/// The LQs of the first sectors, each from the QR that the backend gave for the
/// adjoint of the sector's own matrix, and the failure that ended them.
pub open spec fn lqs_until<
    D,
    C: Fn(D) -> D,
    F: Fn(&[D], usize, usize) -> Result<QrStage<D>, OperationError>,
>(
    stages: Seq<RouteFactors<D>>,
    failure: Option<OperationError>,
    input: InputMatricizations<'_, D>,
    bond: BondExtent,
    conjugate: C,
    qr: F,
) -> bool {
    &&& stages.len() <= input.spec_len()
    &&& forall|k: int|
        0 <= k < stages.len() ==> match sector_input(input, k) {
            Ok(matrix) => lq_of(
                Ok(#[trigger] stages[k]),
                matrix.data,
                matrix.rows,
                matrix.cols,
                adjoint_extent(bond),
                conjugate,
                qr,
            ),
            Err(_) => false,
        }
    &&& match failure {
        None => stages.len() == input.spec_len(),
        Some(error) => stages.len() < input.spec_len() && match sector_input(
            input,
            stages.len() as int,
        ) {
            Ok(matrix) => lq_of(
                Err(error),
                matrix.data,
                matrix.rows,
                matrix.cols,
                adjoint_extent(bond),
                conjugate,
                qr,
            ),
            Err(refusal) => error == refusal,
        },
    }
}

/// The pairs of all sectors over a bond, with the LQs of their own matrices.
pub open spec fn lq_pairs_found<
    D,
    C: Fn(D) -> D,
    F: Fn(&[D], usize, usize) -> Result<QrStage<D>, OperationError>,
>(
    pairs: Seq<FactorPair<D>>,
    input: InputMatricizations<'_, D>,
    bond: BondExtent,
    conjugate: C,
    qr: F,
) -> bool {
    exists|stages: Seq<RouteFactors<D>>|
        {
            &&& #[trigger] lqs_until(stages, None, input, bond, conjugate, qr)
            &&& pairs.len() == stages.len()
            &&& forall|k: int|
                0 <= k < pairs.len() ==> is_bond_pair(
                    #[trigger] pairs[k],
                    input_geometries(input)[k],
                    stages[k],
                    bond,
                )
        }
}

/// The backend failed on a sector's adjoint, after it gave QRs for those before.
pub open spec fn lq_failed<
    D,
    C: Fn(D) -> D,
    F: Fn(&[D], usize, usize) -> Result<QrStage<D>, OperationError>,
>(
    error: OperationError,
    input: InputMatricizations<'_, D>,
    bond: BondExtent,
    conjugate: C,
    qr: F,
) -> bool {
    exists|stages: Seq<RouteFactors<D>>| #[trigger]
        lqs_until(stages, Some(error), input, bond, conjugate, qr)
}

/// What a function gives whose every answer is an LQ are LQs.
proof fn lemma_lqs_until<
    D,
    C: Fn(D) -> D,
    F: Fn(&[D], usize, usize) -> Result<QrStage<D>, OperationError>,
    W: Fn(&[D], usize, usize) -> Result<RouteFactors<D>, OperationError>,
>(
    stages: Seq<RouteFactors<D>>,
    failure: Option<OperationError>,
    input: InputMatricizations<'_, D>,
    bond: BondExtent,
    conjugate: C,
    qr: F,
    work: W,
)
    requires
        factored_until(stages, failure, input, work),
        forall|
            x: &[D],
            rows: usize,
            cols: usize,
            answer: Result<RouteFactors<D>, OperationError>,
        | #[trigger]
            call_ensures(work, (x, rows, cols), answer) ==> lq_of(
                answer,
                x@,
                rows,
                cols,
                adjoint_extent(bond),
                conjugate,
                qr,
            ),
    ensures
        lqs_until(stages, failure, input, bond, conjugate, qr),
{
    assert forall|k: int| 0 <= k < stages.len() implies match sector_input(input, k) {
        Ok(matrix) => lq_of(
            Ok(#[trigger] stages[k]),
            matrix.data,
            matrix.rows,
            matrix.cols,
            adjoint_extent(bond),
            conjugate,
            qr,
        ),
        Err(_) => false,
    } by {
        let found = stages[k];
    }
    if let Some(error) = failure {
        if let Ok(matrix) = sector_input(input, stages.len() as int) {
            assert(factors_to(
                work,
                matrix.data,
                matrix.rows,
                matrix.cols,
                Err::<RouteFactors<D>, OperationError>(error),
            ));
            assert(lq_of(
                Err(error),
                matrix.data,
                matrix.rows,
                matrix.cols,
                adjoint_extent(bond),
                conjugate,
                qr,
            ));
        }
    }
}

/// The LQ of every sector, through the QR of its adjoint.
fn lq_pairs<
    D: Copy,
    C: Fn(D) -> D,
    F: Fn(&[D], usize, usize) -> Result<QrStage<D>, OperationError>,
>(
    input: &InputMatricizations<'_, D>,
    bond: BondExtent,
    conjugate: &C,
    qr: &F,
) -> (result: Result<Vec<FactorPair<D>>, OperationError>)
    requires
        input_holds(*input),
        is_function(conjugate),
        is_qr_on(qr, adjoint_extent(bond)),
    ensures
        match result {
            Ok(pairs) => {
                &&& lq_pairs_found(pairs@, *input, bond, conjugate, qr)
                &&& are_sized_pairs(pairs@, input_geometries(*input), FactorShape::Bond(bond))
            },
            Err(error) => lq_failed(error, *input, bond, conjugate, qr),
        },
{
    let other = match bond {
        BondExtent::Compact => BondExtent::Compact,
        BondExtent::Rows => BondExtent::Cols,
        BondExtent::Cols => BondExtent::Rows,
    };
    let work = |matrix: &[D], rows: usize, cols: usize| -> (answer: Result<
        RouteFactors<D>,
        OperationError,
    >)
        requires
            matrix@.len() == rows * cols,
        ensures
            lq_of(answer, matrix@, rows, cols, adjoint_extent(bond), conjugate, qr),
            answer is Ok ==> factors_are_sized(answer->Ok_0, rows, cols, bond),
        { lq_by_adjoint(matrix, rows, cols, other, conjugate, qr) };
    assert(takes_matrices(&work));
    let result = sector_pairs(input, &work, bond);
    proof {
        if result is Ok {
            let pairs = result->Ok_0;
            let stages = choose|stages: Seq<RouteFactors<D>>|
                {
                    &&& #[trigger] factored_until(stages, None, *input, &work)
                    &&& pairs@.len() == stages.len()
                    &&& forall|k: int|
                        0 <= k < pairs@.len() ==> is_bond_pair(
                            #[trigger] pairs@[k],
                            input_geometries(*input)[k],
                            stages[k],
                            bond,
                        )
                };
            lemma_lqs_until(stages, None, *input, bond, conjugate, qr, &work);
        } else {
            let error = result->Err_0;
            let stages = choose|stages: Seq<RouteFactors<D>>| #[trigger]
                factored_until(stages, Some(error), *input, &work);
            lemma_lqs_until(stages, Some(error), *input, bond, conjugate, qr, &work);
        }
    }
    result
}

/// The full LQ of all sectors: the first failure of the backend, or the LQs of
/// the sectors' own matrices, published on the bond that is given when they are
/// there.
pub open spec fn full_lqs_published<
    D,
    X,
    C: Fn(D) -> D,
    F: Fn(&[D], usize, usize) -> Result<QrStage<D>, OperationError>,
    B: Fn() -> Result<BondDimensions, X>,
    G: Fn(&SectorLeg) -> Result<MapSpace, X>,
    H: Fn(&SectorLeg) -> Result<MapSpace, X>,
>(
    result: Result<FactorsOnSpaces<D>, DriveError<X>>,
    input: InputMatricizations<'_, D>,
    conjugate: C,
    qr: F,
    dimensions: B,
    left_layout: G,
    right_layout: H,
    zero: D,
    one: D,
) -> bool {
    ||| exists|error: OperationError|
        {
            &&& #[trigger] lq_failed(error, input, BondExtent::Cols, conjugate, qr)
            &&& result == Err::<FactorsOnSpaces<D>, DriveError<X>>(DriveError::Operation(error))
        }
    ||| exists|pairs: Seq<FactorPair<D>>|
        {
            &&& #[trigger] lq_pairs_found(pairs, input, BondExtent::Cols, conjugate, qr)
            &&& published_on_bond(
                result,
                input_geometries(input),
                pairs,
                dimensions,
                left_layout,
                right_layout,
                zero,
                one,
            )
        }
}

/// The full LQ over the bond of all columns: the adjoint of every matrix is
/// given to the backend, the bond is asked for, and the factors are laid out and
/// published on it, the left one before the right one.
pub fn lq_full_by_sector<
    D: Copy,
    X,
    C: Fn(D) -> D,
    F: Fn(&[D], usize, usize) -> Result<QrStage<D>, OperationError>,
    B: Fn() -> Result<BondDimensions, X>,
    G: Fn(&SectorLeg) -> Result<MapSpace, X>,
    H: Fn(&SectorLeg) -> Result<MapSpace, X>,
>(
    input: &InputMatricizations<'_, D>,
    conjugate: &C,
    qr: &F,
    dimensions: &B,
    left_layout: &G,
    right_layout: &H,
    zero: D,
    one: D,
) -> (result: Result<FactorsOnSpaces<D>, DriveError<X>>)
    requires
        input_holds(*input),
        sectors_distinct(input_geometries(*input)),
        is_function(conjugate),
        is_qr_on(qr, BondExtent::Rows),
        takes_legs(left_layout),
        takes_legs(right_layout),
        full_spaces_take::<D, X, &B, &G, &H>(
            dimensions,
            left_layout,
            right_layout,
            input_geometries(*input),
            BondExtent::Cols,
            zero,
            one,
        ),
    ensures
        full_lqs_published(
            result,
            *input,
            conjugate,
            qr,
            dimensions,
            left_layout,
            right_layout,
            zero,
            one,
        ),
{
    match lq_pairs(input, BondExtent::Cols, conjugate, qr) {
        Ok(pairs) => {
            assert(lq_pairs_found(pairs@, *input, BondExtent::Cols, conjugate, qr));
            publish_on_bond(
                input,
                pairs,
                BondExtent::Cols,
                dimensions,
                left_layout,
                right_layout,
                zero,
                one,
            )
        },
        Err(error) => Err(DriveError::Operation(error)),
    }
}

/// The compact LQ of all sectors: the first failure of the backend, or the LQs of
/// the sectors' own matrices, published on spaces that were given for their
/// bond.
pub open spec fn lqs_published<
    D,
    X,
    C: Fn(D) -> D,
    F: Fn(&[D], usize, usize) -> Result<QrStage<D>, OperationError>,
    G: Fn(&SectorLeg) -> Result<MapSpace, X>,
    H: Fn(&SectorLeg) -> Result<MapSpace, X>,
>(
    result: Result<FactorsOnSpaces<D>, DriveError<X>>,
    input: InputMatricizations<'_, D>,
    conjugate: C,
    qr: F,
    left_layout: G,
    right_layout: H,
    zero: D,
    one: D,
) -> bool {
    ||| exists|error: OperationError|
        {
            &&& #[trigger] lq_failed(error, input, BondExtent::Compact, conjugate, qr)
            &&& result == Err::<FactorsOnSpaces<D>, DriveError<X>>(DriveError::Operation(error))
        }
    ||| exists|pairs: Seq<FactorPair<D>>|
        {
            &&& #[trigger] lq_pairs_found(pairs, input, BondExtent::Compact, conjugate, qr)
            &&& sides_published(
                result,
                left_layout,
                right_layout,
                input_geometries(input),
                pairs,
                bond_of_pairs(pairs),
                bond_of_pairs(pairs),
                Publication::Plain(FactorPlacement::Direct),
                zero,
                one,
            )
        }
}

/// The compact LQ: the adjoint of every matrix is given to the backend, and the
/// factors are laid out on the bond of what it gave and published there, the
/// left one before the right one.
pub fn lq_compact_by_sector<
    D: Copy,
    X,
    C: Fn(D) -> D,
    F: Fn(&[D], usize, usize) -> Result<QrStage<D>, OperationError>,
    G: Fn(&SectorLeg) -> Result<MapSpace, X>,
    H: Fn(&SectorLeg) -> Result<MapSpace, X>,
>(
    input: &InputMatricizations<'_, D>,
    conjugate: &C,
    qr: &F,
    left_layout: &G,
    right_layout: &H,
    zero: D,
    one: D,
) -> (result: Result<FactorsOnSpaces<D>, DriveError<X>>)
    requires
        input_holds(*input),
        sectors_distinct(input_geometries(*input)),
        is_function(conjugate),
        is_qr_on(qr, BondExtent::Compact),
        takes_legs(left_layout),
        takes_legs(right_layout),
        compact_spaces_take::<D, X, &G, &H>(
            left_layout,
            right_layout,
            input_geometries(*input),
            zero,
            one,
        ),
    ensures
        lqs_published(result, *input, conjugate, qr, left_layout, right_layout, zero, one),
{
    let pairs = match lq_pairs(input, BondExtent::Compact, conjugate, qr) {
        Ok(pairs) => pairs,
        Err(error) => {
            return Err(DriveError::Operation(error));
        },
    };
    assert(lq_pairs_found(pairs@, *input, BondExtent::Compact, conjugate, qr));
    publish_compact_pairs(input, pairs, left_layout, right_layout, zero, one)
}

/// The LQ of all sectors over a bond: the first failure of the backend, or the
/// LQs of the sectors' own matrices, published on spaces that were given for
/// their bond and whose labels were checked.
pub open spec fn labelled_lqs_published<
    D,
    X,
    C: Fn(D) -> D,
    F: Fn(&[D], usize, usize) -> Result<QrStage<D>, OperationError>,
    G: Fn(&SectorLeg) -> Result<MapSpace, X>,
    H: Fn(&SectorLeg) -> Result<MapSpace, X>,
>(
    result: Result<FactorsOnSpaces<D>, DriveError<X>>,
    input: InputMatricizations<'_, D>,
    bond: BondExtent,
    conjugate: C,
    qr: F,
    left_layout: G,
    right_layout: H,
    zero: D,
) -> bool {
    ||| exists|error: OperationError|
        {
            &&& #[trigger] lq_failed(error, input, bond, conjugate, qr)
            &&& result == Err::<FactorsOnSpaces<D>, DriveError<X>>(DriveError::Operation(error))
        }
    ||| exists|pairs: Seq<FactorPair<D>>|
        {
            &&& #[trigger] lq_pairs_found(pairs, input, bond, conjugate, qr)
            &&& labels_published(
                result,
                left_layout,
                right_layout,
                input_geometries(input),
                pairs,
                zero,
            )
        }
}

/// The LQ over a compact bond or that of all columns, where the labels of both
/// outputs are checked against the source before anything is published, those
/// of the left one before the right one is laid out.
pub fn lq_by_sector_checked<
    D: Copy,
    X,
    C: Fn(D) -> D,
    F: Fn(&[D], usize, usize) -> Result<QrStage<D>, OperationError>,
    G: Fn(&SectorLeg) -> Result<MapSpace, X>,
    H: Fn(&SectorLeg) -> Result<MapSpace, X>,
>(
    input: &InputMatricizations<'_, D>,
    bond: BondExtent,
    conjugate: &C,
    qr: &F,
    left_layout: &G,
    right_layout: &H,
    zero: D,
) -> (result: Result<FactorsOnSpaces<D>, DriveError<X>>)
    requires
        input_holds(*input),
        sectors_distinct(input_geometries(*input)),
        is_function(conjugate),
        is_qr_on(qr, adjoint_extent(bond)),
        takes_legs(left_layout),
        takes_legs(right_layout),
        labelled_layouts_take::<D, X, &G, &H>(
            left_layout,
            right_layout,
            input_geometries(*input),
            bond,
        ),
    ensures
        labelled_lqs_published(
            result,
            *input,
            bond,
            conjugate,
            qr,
            left_layout,
            right_layout,
            zero,
        ),
{
    let pairs = match lq_pairs(input, bond, conjugate, qr) {
        Ok(pairs) => pairs,
        Err(error) => {
            return Err(DriveError::Operation(error));
        },
    };
    proof {
        assert(lq_pairs_found(pairs@, *input, bond, conjugate, qr));
        assert(labelled_spaces_take::<D, X, &G, &H>(
            left_layout,
            right_layout,
            input_geometries(*input),
            pairs@,
        ));
    }
    match input {
        InputMatricizations::Regions { regions, .. } => publish_labelled_pair(
            regions.as_slice(),
            pairs,
            left_layout,
            right_layout,
            zero,
        ),
        InputMatricizations::Packed(matrices) => publish_labelled_pair(
            matrices.as_slice(),
            pairs,
            left_layout,
            right_layout,
            zero,
        ),
    }
}

} // verus!
