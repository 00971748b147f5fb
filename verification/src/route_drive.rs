//! Compact factorizations from the regions of a tensor to the regions of its
//! factors.

use vstd::prelude::*;

use crate::compact_drive::{factors_are_shaped, is_factorizer, CompactSvdData};
use crate::completion::{is_qr, QrStage};
use crate::dense::adjoint_matrix;
use crate::dense_calls::{factors_to, takes_matrices};
use crate::direct::{
    eigh_full_direct_regions, fills_left_regions, lq_compact_direct_regions, lq_routes,
    lq_shapes_fit, qr_compact_direct_regions, region_slots, route_spectra, routes_within,
    svd_compact_direct_regions, vector_slots, LqData, RouteFactors,
};
use crate::eigen_full::EigenStage;
use crate::error::OperationError;
use crate::factor::{concatenated, first_fits};
use crate::factor_routes::{smaller, CompactFactorRoute};
use crate::geometry::CoupledSectorRegion;
use crate::layout::FactorSide;
use crate::publish::zeros;
use crate::sector_drive::{region_matrix, regions_hold};
use crate::spectrum::{is_function, SectorSpectrum};
use crate::stages::{
    found_along, is_split, route_stages, routes_factored, split_stages, BondExtent,
};
use crate::svd_stage::{adjoint_of, is_svd, stage_is_shaped, SvdStage};
use crate::truncate::spectra;

verus! {

/// Every route of nonzero rank names a region of the source.
pub open spec fn sources_named(
    routes: Seq<CompactFactorRoute>,
    source: Seq<CoupledSectorRegion>,
) -> bool {
    forall|k: int|
        0 <= k < routes.len() && (#[trigger] routes[k]).rank != 0 ==> routes[k].source_region
            < source.len()
}

/// Factors along the routes with the shapes of compact factors, whatever their
/// elements; a route of rank zero has none.
pub open spec fn are_shaped_factors<D>(
    factors: Seq<RouteFactors<D>>,
    routes: Seq<CompactFactorRoute>,
    source: Seq<CoupledSectorRegion>,
) -> bool {
    &&& factors.len() == routes.len()
    &&& forall|k: int|
        0 <= k < factors.len() ==> {
            let region = source[routes[k].source_region as int];
            if routes[k].rank == 0 {
                (#[trigger] factors[k]).left@.len() == 0 && factors[k].right@.len() == 0
            } else {
                factors_are_shaped(factors[k], region.rows, region.cols)
            }
        }
}

/// The first compact factor of each side fits its output, whatever the
/// elements.
pub open spec fn compact_regions_fit<D>(
    routes: Seq<CompactFactorRoute>,
    source: Seq<CoupledSectorRegion>,
    left_regions: int,
    right_regions: int,
    left_len: int,
    right_len: int,
) -> bool {
    forall|factors: Seq<RouteFactors<D>>| #[trigger]
        are_shaped_factors(factors, routes, source) ==> {
            &&& first_fits(
                region_slots(
                    routes,
                    factors,
                    FactorSide::Left,
                    left_regions,
                    routes.len() as int,
                ),
                left_len,
            )
            &&& first_fits(
                region_slots(
                    routes,
                    factors,
                    FactorSide::Right,
                    right_regions,
                    routes.len() as int,
                ),
                right_len,
            )
        }
}

/// The factors that were found along the routes, and none where the rank is
/// zero.
pub open spec fn are_route_factors<D>(
    factors: Seq<RouteFactors<D>>,
    stages: Seq<Option<RouteFactors<D>>>,
) -> bool {
    &&& factors.len() == stages.len()
    &&& forall|k: int|
        0 <= k < factors.len() ==> match stages[k] {
            Some(stage) => #[trigger] factors[k] == stage,
            None => factors[k].left@.len() == 0 && factors[k].right@.len() == 0,
        }
}

/// The work along the routes failed.
pub open spec fn route_failed<D, T, F: Fn(&[D], usize, usize) -> Result<T, OperationError>>(
    error: OperationError,
    routes: Seq<CompactFactorRoute>,
    source: Seq<CoupledSectorRegion>,
    data: Seq<D>,
    factorize: F,
) -> bool {
    routes_factored(
        Err::<Vec<Option<T>>, OperationError>(error),
        routes,
        source,
        data,
        factorize,
    )
}

/// The factors that the backend gave for the regions' own matrices, joined in
/// the order of the output regions, or the first refusal or failure.
pub open spec fn factors_joined<
    D,
    F: Fn(&[D], usize, usize) -> Result<RouteFactors<D>, OperationError>,
>(
    result: Result<(Vec<D>, Vec<D>), OperationError>,
    routes: Seq<CompactFactorRoute>,
    source: Seq<CoupledSectorRegion>,
    data: Seq<D>,
    left_regions: int,
    right_regions: int,
    factorize: F,
) -> bool {
    let count = routes.len() as int;
    match result {
        Err(error) => route_failed::<D, RouteFactors<D>, F>(
            error,
            routes,
            source,
            data,
            factorize,
        ),
        Ok((left, right)) => exists|
            stages: Seq<Option<RouteFactors<D>>>,
            factors: Seq<RouteFactors<D>>,
        |
            {
                &&& #[trigger] found_along(stages, routes, source, data, factorize)
                &&& stages.len() == routes.len()
                &&& #[trigger] are_route_factors(factors, stages)
                &&& left@ == concatenated(
                    region_slots(routes, factors, FactorSide::Left, left_regions, count),
                )
                &&& right@ == concatenated(
                    region_slots(routes, factors, FactorSide::Right, right_regions, count),
                )
            },
    }
}

/// Takes the factors of all routes out of what was found; a route that was
/// passed over has none.
fn route_factors<D>(stages: Vec<Option<RouteFactors<D>>>) -> (factors: Vec<RouteFactors<D>>)
    ensures
        are_route_factors(factors@, stages@),
{
    let ghost given = stages@;
    let mut factors: Vec<RouteFactors<D>> = Vec::with_capacity(stages.len());
    for stage in iter: stages
        invariant
            iter.seq() == given,
            factors@.len() == iter.index(),
            forall|k: int|
                0 <= k < factors@.len() ==> match given[k] {
                    Some(stage) => #[trigger] factors@[k] == stage,
                    None => factors@[k].left@.len() == 0 && factors@[k].right@.len() == 0,
                },
    {
        match stage {
            Some(stage) => {
                factors.push(stage);
            },
            None => {
                factors.push(RouteFactors { left: Vec::new(), right: Vec::new() });
            },
        }
    }
    factors
}

/// A compact factorization into two factors, region by region.
pub fn factor_compact_by_route<
    D,
    F: Fn(&[D], usize, usize) -> Result<RouteFactors<D>, OperationError>,
>(
    routes: &[CompactFactorRoute],
    source: &[CoupledSectorRegion],
    data: &[D],
    left_regions: usize,
    right_regions: usize,
    left_len: usize,
    right_len: usize,
    factorize: &F,
) -> (result: Result<(Vec<D>, Vec<D>), OperationError>)
    requires
        regions_hold(source@),
        sources_named(routes@, source@),
        routes_within(routes@, left_regions as int, right_regions as int),
        is_factorizer(factorize, BondExtent::Compact),
        compact_regions_fit::<D>(
            routes@,
            source@,
            left_regions as int,
            right_regions as int,
            left_len as int,
            right_len as int,
        ),
    ensures
        factors_joined(
            result,
            routes@,
            source@,
            data@,
            left_regions as int,
            right_regions as int,
            factorize,
        ),
{
    let stages = match route_stages(routes, source, data, factorize) {
        Ok(stages) => stages,
        Err(error) => {
            return Err(error);
        },
    };
    let ghost found = stages@;
    let factors = route_factors(stages);
    let ghost all = factors@;
    proof {
        assert(found_along(found, routes@, source@, data@, factorize));
        assert forall|k: int| 0 <= k < all.len() implies {
            let region = source@[routes@[k].source_region as int];
            if routes@[k].rank == 0 {
                (#[trigger] all[k]).left@.len() == 0 && all[k].right@.len() == 0
            } else {
                factors_are_shaped(all[k], region.rows, region.cols)
            }
        } by {
            assert(found[k] is Some || found[k] is None);
        }
        assert(are_shaped_factors(all, routes@, source@));
    }
    Ok(
        qr_compact_direct_regions(
            routes,
            factors,
            left_regions,
            right_regions,
            left_len,
            right_len,
        ),
    )
}

/// The outer factors and the singular values of all routes.
pub open spec fn are_split_stages<D, V>(
    factors: Seq<RouteFactors<D>>,
    values: Seq<Vec<V>>,
    stages: Seq<Option<SvdStage<D, V>>>,
) -> bool {
    &&& factors.len() == stages.len()
    &&& values.len() == stages.len()
    &&& forall|k: int|
        0 <= k < stages.len() ==> is_split(stages[k], #[trigger] factors[k], values[k])
}

/// The outer factors that the backend gave for the regions' own matrices, joined
/// in the order of the output regions, with the singular values in the order of
/// the routes, or the first refusal or failure.
pub open spec fn svds_joined<
    D,
    V,
    F: Fn(&[D], usize, usize) -> Result<SvdStage<D, V>, OperationError>,
>(
    result: Result<CompactSvdData<D, V>, OperationError>,
    routes: Seq<CompactFactorRoute>,
    source: Seq<CoupledSectorRegion>,
    data: Seq<D>,
    left_regions: int,
    right_regions: int,
    svd: F,
) -> bool {
    let count = routes.len() as int;
    match result {
        Err(error) => route_failed::<D, SvdStage<D, V>, F>(error, routes, source, data, svd),
        Ok(joined) => exists|
            stages: Seq<Option<SvdStage<D, V>>>,
            factors: Seq<RouteFactors<D>>,
            values: Seq<Vec<V>>,
        |
            {
                &&& #[trigger] found_along(stages, routes, source, data, svd)
                &&& stages.len() == routes.len()
                &&& #[trigger] are_split_stages(factors, values, stages)
                &&& joined.u@ == concatenated(
                    region_slots(routes, factors, FactorSide::Left, left_regions, count),
                )
                &&& joined.vh@ == concatenated(
                    region_slots(routes, factors, FactorSide::Right, right_regions, count),
                )
                &&& spectra(joined.singular_values@) == route_spectra(routes, values, count)
            },
    }
}

/// The compact SVD, region by region.
pub fn svd_compact_by_route<
    D,
    V,
    F: Fn(&[D], usize, usize) -> Result<SvdStage<D, V>, OperationError>,
>(
    routes: &[CompactFactorRoute],
    source: &[CoupledSectorRegion],
    data: &[D],
    left_regions: usize,
    right_regions: usize,
    left_len: usize,
    right_len: usize,
    svd: &F,
) -> (result: Result<CompactSvdData<D, V>, OperationError>)
    requires
        regions_hold(source@),
        sources_named(routes@, source@),
        routes_within(routes@, left_regions as int, right_regions as int),
        is_svd(svd),
        compact_regions_fit::<D>(
            routes@,
            source@,
            left_regions as int,
            right_regions as int,
            left_len as int,
            right_len as int,
        ),
    ensures
        svds_joined(
            result,
            routes@,
            source@,
            data@,
            left_regions as int,
            right_regions as int,
            svd,
        ),
{
    let stages = match route_stages(routes, source, data, svd) {
        Ok(stages) => stages,
        Err(error) => {
            return Err(error);
        },
    };
    let ghost found = stages@;
    let (factors, values) = split_stages(stages);
    let ghost all = factors@;
    proof {
        assert(found_along(found, routes@, source@, data@, svd));
        assert forall|k: int| 0 <= k < found.len() implies is_split(
            found[k],
            #[trigger] all[k],
            values@[k],
        ) by {}
        assert(are_split_stages(all, values@, found));
        assert forall|k: int| 0 <= k < all.len() implies {
            let region = source@[routes@[k].source_region as int];
            if routes@[k].rank == 0 {
                (#[trigger] all[k]).left@.len() == 0 && all[k].right@.len() == 0
            } else {
                factors_are_shaped(all[k], region.rows, region.cols)
            }
        } by {
            assert(is_split(found[k], all[k], values@[k]));
            if let Some(stage) = found[k] {
                let region = source@[routes@[k].source_region as int];
                assert(stage_is_shaped(stage, region.rows, region.cols));
            }
        }
        assert(are_shaped_factors(all, routes@, source@));
    }
    let (u, vh, singular_values) = svd_compact_direct_regions(
        routes,
        factors,
        values,
        left_regions,
        right_regions,
        left_len,
        right_len,
    );
    Ok(CompactSvdData { u, vh, singular_values })
}

/// Routes of an LQ whose ranks are those of their regions, with room for the
/// factors in both outputs.
pub open spec fn lq_regions_fit(
    routes: Seq<CompactFactorRoute>,
    source: Seq<CoupledSectorRegion>,
    left: Seq<CoupledSectorRegion>,
    right: Seq<CoupledSectorRegion>,
    left_len: int,
    right_len: int,
) -> bool {
    &&& routes_within(routes, left.len() as int, right.len() as int)
    &&& forall|k: int|
        0 <= k < routes.len() && (#[trigger] routes[k]).rank != 0 ==> {
            let from = source[routes[k].source_region as int];
            &&& routes[k].source_region < source.len()
            &&& routes[k].rank == smaller(from.rows, from.cols)
            &&& left[routes[k].left_region->0 as int].start + routes[k].rank * from.rows
                <= left_len
            &&& right[routes[k].right_region->0 as int].start + from.cols * routes[k].rank
                <= right_len
        }
}

/// The QR of the adjoint of a `rows x cols` matrix: its triangular factor on the
/// left, its isometry on the right.
pub open spec fn adjoint_qr_of<
    D,
    C: Fn(D) -> D,
    F: Fn(&[D], usize, usize) -> Result<QrStage<D>, OperationError>,
>(
    answer: Result<RouteFactors<D>, OperationError>,
    matrix: Seq<D>,
    rows: usize,
    cols: usize,
    conjugate: C,
    qr: F,
) -> bool {
    let adjoint = adjoint_matrix(conjugate, matrix, rows as int, cols as int);
    match answer {
        Err(error) => factors_to(qr, adjoint, cols, rows, Err::<QrStage<D>, OperationError>(error)),
        Ok(factors) => factors_to(
            qr,
            adjoint,
            cols,
            rows,
            Ok::<QrStage<D>, OperationError>(QrStage { q: factors.right, r: factors.left }),
        ),
    }
}

fn adjoint_qr<
    D: Copy,
    C: Fn(D) -> D,
    F: Fn(&[D], usize, usize) -> Result<QrStage<D>, OperationError>,
>(matrix: &[D], rows: usize, cols: usize, conjugate: &C, qr: &F) -> (answer: Result<
    RouteFactors<D>,
    OperationError,
>)
    requires
        matrix@.len() == rows * cols,
        is_function(conjugate),
        is_qr(qr),
    ensures
        adjoint_qr_of(answer, matrix@, rows, cols, conjugate, qr),
        answer is Ok ==> {
            &&& answer->Ok_0.left@.len() == smaller(rows, cols) * rows
            &&& answer->Ok_0.right@.len() == cols * smaller(rows, cols)
        },
{
    let adjoint = adjoint_of(matrix, rows, cols, conjugate);
    let x = adjoint.as_slice();
    proof {
        assert(rows * cols == cols * rows) by (nonlinear_arith);
    }
    let given = qr(x, cols, rows);
    proof {
        assert(call_ensures(qr, (x, cols, rows), given));
        assert(factors_to(qr, adjoint@, cols, rows, given));
    }
    match given {
        Err(error) => Err(error),
        Ok(stage) => {
            assert(call_ensures(
                qr,
                (x, cols, rows),
                Ok::<QrStage<D>, OperationError>(stage),
            ));
            let factors = RouteFactors { left: stage.r, right: stage.q };
            assert(stage == (QrStage { q: factors.right, r: factors.left }));
            Ok(factors)
        },
    }
}

/// What the QRs of the adjoint matrices along the first routes gave; a route of
/// rank zero is passed over.
pub open spec fn adjoint_qrs_found<
    D,
    C: Fn(D) -> D,
    F: Fn(&[D], usize, usize) -> Result<QrStage<D>, OperationError>,
>(
    stages: Seq<Option<RouteFactors<D>>>,
    routes: Seq<CompactFactorRoute>,
    source: Seq<CoupledSectorRegion>,
    data: Seq<D>,
    conjugate: C,
    qr: F,
) -> bool {
    &&& stages.len() <= routes.len()
    &&& forall|k: int|
        0 <= k < stages.len() ==> {
            let region = source[routes[k].source_region as int];
            match #[trigger] stages[k] {
                None => routes[k].rank == 0,
                Some(stage) => routes[k].rank != 0 && region.end <= data.len() && adjoint_qr_of(
                    Ok(stage),
                    region_matrix(data, region),
                    region.rows,
                    region.cols,
                    conjugate,
                    qr,
                ),
            }
        }
}

/// The compact LQ, region by region: the adjoint factors of the QR of every
/// region's adjoint matrix stand where the output regions start, or the first
/// refusal or failure is returned.
pub open spec fn lqs_placed<
    D,
    C: Fn(D) -> D,
    F: Fn(&[D], usize, usize) -> Result<QrStage<D>, OperationError>,
>(
    result: Result<(Vec<D>, Vec<D>), OperationError>,
    routes: Seq<CompactFactorRoute>,
    source: Seq<CoupledSectorRegion>,
    data: Seq<D>,
    left: Seq<CoupledSectorRegion>,
    right: Seq<CoupledSectorRegion>,
    empty: LqData<D>,
    conjugate: C,
    qr: F,
) -> bool {
    exists|stages: Seq<Option<RouteFactors<D>>>|
        {
            &&& #[trigger] adjoint_qrs_found(stages, routes, source, data, conjugate, qr)
            &&& match result {
                Err(error) => {
                    let route = routes[stages.len() as int];
                    let region = source[route.source_region as int];
                    &&& stages.len() < routes.len()
                    &&& route.rank != 0
                    &&& if region.end <= data.len() {
                        adjoint_qr_of(
                            Err(error),
                            region_matrix(data, region),
                            region.rows,
                            region.cols,
                            conjugate,
                            qr,
                        )
                    } else {
                        error == OperationError::ElementCountMismatch {
                            expected: region.end,
                            actual: data.len() as usize,
                        }
                    }
                },
                Ok((l, q)) => stages.len() == routes.len() && exists|
                    factors: Seq<RouteFactors<D>>,
                |
                    {
                        let placed = lq_routes(
                            routes,
                            factors,
                            source,
                            left,
                            right,
                            empty,
                            conjugate,
                            routes.len() as int,
                        );
                        &&& #[trigger] are_route_factors(factors, stages)
                        &&& l@ == placed.left
                        &&& q@ == placed.right
                    },
            }
        }
}

/// The compact LQ, region by region.
pub fn lq_compact_by_route<
    D: Copy,
    C: Fn(D) -> D,
    F: Fn(&[D], usize, usize) -> Result<QrStage<D>, OperationError>,
>(
    routes: &[CompactFactorRoute],
    source: &[CoupledSectorRegion],
    data: &[D],
    left: &[CoupledSectorRegion],
    right: &[CoupledSectorRegion],
    left_len: usize,
    right_len: usize,
    conjugate: &C,
    qr: &F,
    zero: D,
) -> (result: Result<(Vec<D>, Vec<D>), OperationError>)
    requires
        regions_hold(source@),
        is_function(conjugate),
        is_qr(qr),
        lq_regions_fit(
            routes@,
            source@,
            left@,
            right@,
            left_len as int,
            right_len as int,
        ),
    ensures
        lqs_placed(
            result,
            routes@,
            source@,
            data@,
            left@,
            right@,
            (LqData {
                left: zeros(zero, left_len as int),
                right: zeros(zero, right_len as int),
            }),
            conjugate,
            qr,
        ),
{
    let work = |matrix: &[D], rows: usize, cols: usize| -> (answer: Result<
        RouteFactors<D>,
        OperationError,
    >)
        requires
            matrix@.len() == rows * cols,
        ensures
            adjoint_qr_of(answer, matrix@, rows, cols, conjugate, qr),
            answer is Ok ==> {
                &&& answer->Ok_0.left@.len() == smaller(rows, cols) * rows
                &&& answer->Ok_0.right@.len() == cols * smaller(rows, cols)
            },
        { adjoint_qr(matrix, rows, cols, conjugate, qr) };
    assert(takes_matrices(&work));
    let outcome = route_stages(routes, source, data, &work);
    proof {
        let stages = choose|stages: Seq<Option<RouteFactors<D>>>|
            {
                &&& #[trigger] found_along(stages, routes@, source@, data@, &work)
                &&& match outcome {
                    Ok(found) => found@ == stages && stages.len() == routes@.len(),
                    Err(error) => {
                        let route = routes@[stages.len() as int];
                        let region = source@[route.source_region as int];
                        &&& stages.len() < routes@.len()
                        &&& route.rank != 0
                        &&& if region.end <= data@.len() {
                            factors_to(
                                &work,
                                region_matrix(data@, region),
                                region.rows,
                                region.cols,
                                Err::<RouteFactors<D>, OperationError>(error),
                            )
                        } else {
                            error == OperationError::ElementCountMismatch {
                                expected: region.end,
                                actual: data@.len() as usize,
                            }
                        }
                    },
                }
            };
        assert(adjoint_qrs_found(stages, routes@, source@, data@, conjugate, qr));
    }
    let stages = match outcome {
        Ok(stages) => stages,
        Err(error) => {
            return Err(error);
        },
    };
    let ghost found = stages@;
    let factors = route_factors(stages);
    proof {
        assert(found_along(found, routes@, source@, data@, &work));
        assert(adjoint_qrs_found(found, routes@, source@, data@, conjugate, qr));
        assert forall|k: int|
            0 <= k < routes@.len() && (#[trigger] routes@[k]).rank != 0 implies
            routes@[k].source_region < source@.len() && lq_shapes_fit(
            routes@[k],
            factors@[k],
            source@[routes@[k].source_region as int],
            left@[routes@[k].left_region->0 as int],
            right@[routes@[k].right_region->0 as int],
            left_len as int,
            right_len as int,
        ) by {
            assert(found[k] is Some);
            let region = source@[routes@[k].source_region as int];
            assert(factors_to(
                &work,
                region_matrix(data@, region),
                region.rows,
                region.cols,
                Ok::<RouteFactors<D>, OperationError>(found[k]->0),
            ));
            assert(factors@[k] == found[k]->0);
        }
    }
    Ok(
        lq_compact_direct_regions(
            routes,
            factors.as_slice(),
            source,
            left,
            right,
            left_len,
            right_len,
            conjugate,
            zero,
        ),
    )
}

/// The backend takes any square matrix, and gives as many eigenvectors of as many
/// elements.
pub open spec fn is_eigensolver<
    D,
    E,
    V,
    F: Fn(&[D], usize, usize) -> Result<EigenStage<E, V>, OperationError>,
>(eigen: F) -> bool {
    &&& takes_matrices(eigen)
    &&& forall|x: &[D], rows: usize, cols: usize, stage: EigenStage<E, V>| #[trigger]
        call_ensures(
            eigen,
            (x, rows, cols),
            Ok::<EigenStage<E, V>, OperationError>(stage),
        ) ==> stage.vectors@.len() == rows * rows
}

/// Eigenvectors along the routes with the shapes of square matrices, whatever
/// their elements.
pub open spec fn are_shaped_vectors<D>(
    vectors: Seq<Vec<D>>,
    routes: Seq<CompactFactorRoute>,
    source: Seq<CoupledSectorRegion>,
) -> bool {
    &&& vectors.len() == routes.len()
    &&& forall|k: int|
        0 <= k < vectors.len() ==> {
            let rows = source[routes[k].source_region as int].rows;
            (#[trigger] vectors[k])@.len() == if routes[k].rank == 0 {
                0
            } else {
                rows * rows
            }
        }
}

/// The first eigenvectors fit the output, whatever their elements.
pub open spec fn eigen_regions_fit<D>(
    routes: Seq<CompactFactorRoute>,
    source: Seq<CoupledSectorRegion>,
    regions: int,
    len: int,
) -> bool {
    forall|vectors: Seq<Vec<D>>| #[trigger]
        are_shaped_vectors(vectors, routes, source) ==> first_fits(
            vector_slots(routes, vectors, regions, routes.len() as int),
            len,
        )
}

/// The eigenvectors and eigenvalues of one route, or of none.
pub open spec fn is_eigen_part<D, V>(
    stage: Option<EigenStage<D, V>>,
    vectors: Vec<D>,
    values: Vec<V>,
) -> bool {
    match stage {
        Some(stage) => vectors == stage.vectors && values == stage.values,
        None => vectors@.len() == 0 && values@.len() == 0,
    }
}

/// The eigenvectors and eigenvalues of all routes; a route that was passed over
/// has none.
pub open spec fn are_eigen_parts<D, V>(
    vectors: Seq<Vec<D>>,
    values: Seq<Vec<V>>,
    stages: Seq<Option<EigenStage<D, V>>>,
) -> bool {
    &&& vectors.len() == stages.len()
    &&& values.len() == stages.len()
    &&& forall|k: int|
        0 <= k < stages.len() ==> is_eigen_part(stages[k], #[trigger] vectors[k], values[k])
}

fn eigen_parts<D, V>(stages: Vec<Option<EigenStage<D, V>>>) -> (parts: (Vec<Vec<D>>, Vec<Vec<V>>))
    ensures
        are_eigen_parts(parts.0@, parts.1@, stages@),
{
    let ghost given = stages@;
    let mut vectors: Vec<Vec<D>> = Vec::with_capacity(stages.len());
    let mut values: Vec<Vec<V>> = Vec::with_capacity(stages.len());
    for stage in iter: stages
        invariant
            iter.seq() == given,
            vectors@.len() == iter.index(),
            values@.len() == iter.index(),
            forall|k: int|
                0 <= k < vectors@.len() ==> is_eigen_part(
                    given[k],
                    #[trigger] vectors@[k],
                    values@[k],
                ),
    {
        let ghost at = iter.index() as int;
        let ghost before = (vectors@, values@);
        match stage {
            Some(stage) => {
                vectors.push(stage.vectors);
                values.push(stage.values);
            },
            None => {
                vectors.push(Vec::new());
                values.push(Vec::new());
            },
        }
        assert forall|k: int| 0 <= k < vectors@.len() implies is_eigen_part(
            given[k],
            #[trigger] vectors@[k],
            values@[k],
        ) by {
            if k < at {
                assert(vectors@[k] == before.0[k] && values@[k] == before.1[k]);
            }
        }
    }
    (vectors, values)
}

/// The eigenvectors that the backend gave for the regions' own matrices, joined
/// in the order of the output regions, with the eigenvalues in the order of the
/// routes, or the first refusal or failure.
pub open spec fn eigenvectors_joined<
    D,
    V,
    F: Fn(&[D], usize, usize) -> Result<EigenStage<D, V>, OperationError>,
>(
    result: Result<(Vec<D>, Vec<SectorSpectrum<V>>), OperationError>,
    routes: Seq<CompactFactorRoute>,
    source: Seq<CoupledSectorRegion>,
    data: Seq<D>,
    regions: int,
    eigen: F,
) -> bool {
    let count = routes.len() as int;
    match result {
        Err(error) => route_failed::<D, EigenStage<D, V>, F>(error, routes, source, data, eigen),
        Ok((joined, found)) => exists|
            stages: Seq<Option<EigenStage<D, V>>>,
            vectors: Seq<Vec<D>>,
            values: Seq<Vec<V>>,
        |
            {
                &&& #[trigger] found_along(stages, routes, source, data, eigen)
                &&& stages.len() == routes.len()
                &&& #[trigger] are_eigen_parts(vectors, values, stages)
                &&& joined@ == concatenated(vector_slots(routes, vectors, regions, count))
                &&& spectra(found@) == route_spectra(routes, values, count)
            },
    }
}

/// The Hermitian eigendecomposition, region by region.
pub fn eigh_full_by_route<
    D,
    V,
    F: Fn(&[D], usize, usize) -> Result<EigenStage<D, V>, OperationError>,
>(
    routes: &[CompactFactorRoute],
    source: &[CoupledSectorRegion],
    data: &[D],
    left: &[CoupledSectorRegion],
    left_len: usize,
    eigen: &F,
) -> (result: Result<(Vec<D>, Vec<SectorSpectrum<V>>), OperationError>)
    requires
        regions_hold(source@),
        sources_named(routes@, source@),
        fills_left_regions(routes@, left@),
        is_eigensolver(eigen),
        eigen_regions_fit::<D>(routes@, source@, left@.len() as int, left_len as int),
    ensures
        eigenvectors_joined(result, routes@, source@, data@, left@.len() as int, eigen),
{
    let stages = match route_stages(routes, source, data, eigen) {
        Ok(stages) => stages,
        Err(error) => {
            return Err(error);
        },
    };
    let ghost found = stages@;
    let (vectors, values) = eigen_parts(stages);
    proof {
        assert(found_along(found, routes@, source@, data@, eigen));
        assert(are_eigen_parts(vectors@, values@, found));
        assert forall|k: int| 0 <= k < vectors@.len() implies {
            let rows = source@[routes@[k].source_region as int].rows;
            (#[trigger] vectors@[k])@.len() == if routes@[k].rank == 0 {
                0
            } else {
                rows * rows
            }
        } by {
            assert(found[k] is Some || found[k] is None);
        }
        assert(are_shaped_vectors(vectors@, routes@, source@));
    }
    Ok(eigh_full_direct_regions(routes, vectors, values, left, left_len))
}

} // verus!
