//! Polar decompositions, sector by sector.

use vstd::prelude::*;

use crate::dense::adjoint_matrix;
use crate::dense_calls::{factors_to, is_product, multiplies_to};
use crate::error::OperationError;
use crate::factor_routes::{
    polar_p, polar_route, polar_routes, polar_w, smaller, PolarRegionRoute,
};
use crate::geometry::{geometries, lemma_sector_position, CoupledSectorRegion, SectorGeometry};
use crate::matrix_functions::{hermitian_part, project_hermitian_col_major};
use crate::outcome::lemma_all_ok_values;
use crate::polar::{plan_polar, polar_plan, PolarDirection};
use crate::publish::zeros;
use crate::route_laws::lemma_polar_routes_preserve_layout;
use crate::sector_drive::{region_matrix, regions_hold};
use crate::sector_solve::{images_fit, publish_region_images, region_images};
use crate::solve_drive::holds_matrices;
use crate::space::MapSpace;
use crate::spectrum::{is_function, is_operation};
use crate::svd_stage::{
    adjoint_of, cols_scaled, is_svd, rows_scaled, scale_cols, scale_rows,
    stage_is_shaped, SvdStage,
};

verus! {

/// The order of the positive factor.
pub open spec fn positive_order(rows: usize, cols: usize, direction: PolarDirection) -> usize {
    match direction {
        PolarDirection::Left => cols,
        PolarDirection::Right => rows,
    }
}

/// The backend may answer for the positive factor of one sector in this way:
/// the product of a factor scaled by the roots with its own adjoint.
pub open spec fn squares_to<
    D,
    V,
    G: Fn(D, D) -> D,
    C: Fn(D) -> D,
    M: Fn(&[D], usize, usize, &[D], usize) -> Result<Vec<D>, OperationError>,
>(
    stage: SvdStage<D, V>,
    rows: usize,
    cols: usize,
    roots: Seq<D>,
    direction: PolarDirection,
    multiply: G,
    conjugate: C,
    matmul: M,
    answer: Result<Vec<D>, OperationError>,
) -> bool {
    let rank = smaller(rows, cols);
    match direction {
        PolarDirection::Left => {
            let x = rows_scaled(
                stage.vt@,
                cols as int,
                rank as int,
                roots,
                multiply,
                rank as int,
            );
            let adjoint = adjoint_matrix(conjugate, x, rank as int, cols as int);
            multiplies_to(matmul, adjoint, cols, rank, x, cols, answer)
        },
        PolarDirection::Right => {
            let x = cols_scaled(stage.u@, rows as int, roots, multiply, rank as int);
            let adjoint = adjoint_matrix(conjugate, x, rows as int, rank as int);
            multiplies_to(matmul, x, rows, rank, adjoint, rows, answer)
        },
    }
}

/// The two factors of one sector: the product of `u` and `vt`, and the
/// Hermitian part of the positive factor; the first failure is handed on.
pub open spec fn polar_factors<
    D,
    V,
    A: Fn(D, D) -> D,
    G: Fn(D, D) -> D,
    C: Fn(D) -> D,
    M: Fn(&[D], usize, usize, &[D], usize) -> Result<Vec<D>, OperationError>,
>(
    result: Result<(Vec<D>, Vec<D>), OperationError>,
    stage: SvdStage<D, V>,
    rows: usize,
    cols: usize,
    roots: Seq<D>,
    direction: PolarDirection,
    half: D,
    plus: A,
    multiply: G,
    conjugate: C,
    matmul: M,
) -> bool {
    exists|w: Result<Vec<D>, OperationError>|
        {
            &&& #[trigger] multiplies_to(
                matmul,
                stage.u@,
                rows,
                smaller(rows, cols),
                stage.vt@,
                cols,
                w,
            )
            &&& match w {
                Err(error) => result == Err::<(Vec<D>, Vec<D>), OperationError>(error),
                Ok(w) => exists|p: Result<Vec<D>, OperationError>|
                    {
                        &&& #[trigger] squares_to(
                            stage,
                            rows,
                            cols,
                            roots,
                            direction,
                            multiply,
                            conjugate,
                            matmul,
                            p,
                        )
                        &&& match (p, result) {
                            (Err(error), _) => result == Err::<
                                (Vec<D>, Vec<D>),
                                OperationError,
                            >(error),
                            (Ok(p), Ok((first, second))) => first == w && second@
                                == hermitian_part(
                                p@,
                                positive_order(rows, cols, direction) as int,
                                half,
                                plus,
                                multiply,
                                conjugate,
                            ),
                            (Ok(_), Err(_)) => false,
                        }
                    },
            }
        }
}

/// The isometry and the positive factor of one sector, from its SVD and the
/// square roots of its singular values.
pub fn checked_generic_polar_products<
    D: Copy,
    V,
    A: Fn(D, D) -> D,
    G: Fn(D, D) -> D,
    C: Fn(D) -> D,
    M: Fn(&[D], usize, usize, &[D], usize) -> Result<Vec<D>, OperationError>,
>(
    stage: &SvdStage<D, V>,
    rows: usize,
    cols: usize,
    roots: &[D],
    direction: PolarDirection,
    half: D,
    plus: &A,
    multiply: &G,
    conjugate: &C,
    matmul: &M,
) -> (result: Result<(Vec<D>, Vec<D>), OperationError>)
    requires
        stage_is_shaped(*stage, rows, cols),
        roots@.len() == smaller(rows, cols),
        is_operation(plus),
        is_operation(multiply),
        is_function(conjugate),
        is_product(matmul),
    ensures
        polar_factors(
            result,
            *stage,
            rows,
            cols,
            roots@,
            direction,
            half,
            plus,
            multiply,
            conjugate,
            matmul,
        ),
        result is Ok ==> {
            let order = positive_order(rows, cols, direction);
            &&& result->Ok_0.0@.len() == rows * cols
            &&& result->Ok_0.1@.len() == order * order
        },
{
    let rank: usize = if rows <= cols {
        rows
    } else {
        cols
    };
    let (u, vt) = (stage.u.as_slice(), stage.vt.as_slice());
    let first = matmul(u, rows, rank, vt, cols);
    proof {
        assert(call_ensures(matmul, (u, rows, rank, vt, cols), first));
        assert(multiplies_to(matmul, stage.u@, rows, rank, stage.vt@, cols, first));
    }
    let w = match first {
        Ok(w) => {
            assert(call_ensures(
                matmul,
                (u, rows, rank, vt, cols),
                Ok::<Vec<D>, OperationError>(w),
            ));
            w
        },
        Err(error) => {
            return Err(error);
        },
    };
    let ghost order = positive_order(rows, cols, direction);
    let second = match direction {
        PolarDirection::Left => {
            let x = scale_rows(vstd::slice::slice_to_vec(vt), rank, cols, roots, multiply);
            let adjoint = adjoint_of(x.as_slice(), rank, cols, conjugate);
            let (left, right) = (adjoint.as_slice(), x.as_slice());
            assert(rank * cols == cols * rank) by (nonlinear_arith);
            let answer = matmul(left, cols, rank, right, cols);
            proof {
                assert(call_ensures(matmul, (left, cols, rank, right, cols), answer));
                if answer is Ok {
                    assert(call_ensures(
                        matmul,
                        (left, cols, rank, right, cols),
                        Ok::<Vec<D>, OperationError>(answer->Ok_0),
                    ));
                }
            }
            answer
        },
        PolarDirection::Right => {
            let x = scale_cols(vstd::slice::slice_to_vec(u), rows, rank, roots, multiply);
            let adjoint = adjoint_of(x.as_slice(), rows, rank, conjugate);
            let (left, right) = (x.as_slice(), adjoint.as_slice());
            assert(rows * rank == rank * rows) by (nonlinear_arith);
            let answer = matmul(left, rows, rank, right, rows);
            proof {
                assert(call_ensures(matmul, (left, rows, rank, right, rows), answer));
                if answer is Ok {
                    assert(call_ensures(
                        matmul,
                        (left, rows, rank, right, rows),
                        Ok::<Vec<D>, OperationError>(answer->Ok_0),
                    ));
                }
            }
            answer
        },
    };
    assert(squares_to(
        *stage,
        rows,
        cols,
        roots@,
        direction,
        multiply,
        conjugate,
        matmul,
        second,
    ));
    let mut p = match second {
        Ok(p) => p,
        Err(error) => {
            return Err(error);
        },
    };
    let size: usize = match direction {
        PolarDirection::Left => cols,
        PolarDirection::Right => rows,
    };
    project_hermitian_col_major(p.as_mut_slice(), size, half, plus, multiply, conjugate);
    Ok((w, p))
}

/// The factors of the first sectors, in order.
pub open spec fn polar_stages<
    D,
    V,
    F: Fn(&[D], usize, usize) -> Result<SvdStage<D, V>, OperationError>,
>(
    stages: Seq<SvdStage<D, V>>,
    routes: Seq<PolarRegionRoute>,
    source: Seq<CoupledSectorRegion>,
    data: Seq<D>,
    svd: F,
) -> bool {
    &&& stages.len() <= routes.len()
    &&& forall|k: int|
        0 <= k < stages.len() ==> factors_to(
            svd,
            region_matrix(data, source[routes[k].source as int]),
            source[routes[k].source as int].rows,
            source[routes[k].source as int].cols,
            Ok(#[trigger] stages[k]),
        )
}

/// The function gives every singular value its root.
pub open spec fn gives_roots<D, V, R: Fn(&Vec<V>) -> Vec<D>>(roots: R) -> bool {
    &&& forall|values: &Vec<V>| #[trigger] call_requires(roots, (values,))
    &&& forall|values: &Vec<V>, found: Vec<D>| #[trigger]
        call_ensures(roots, (values,), found) ==> found@.len() == values@.len()
}

/// The two factors of one stage, whose roots are asked for first.
pub open spec fn polar_stage<
    D,
    V,
    R: Fn(&Vec<V>) -> Vec<D>,
    A: Fn(D, D) -> D,
    G: Fn(D, D) -> D,
    C: Fn(D) -> D,
    M: Fn(&[D], usize, usize, &[D], usize) -> Result<Vec<D>, OperationError>,
>(
    result: Result<(Vec<D>, Vec<D>), OperationError>,
    stage: SvdStage<D, V>,
    region: CoupledSectorRegion,
    direction: PolarDirection,
    half: D,
    roots: R,
    plus: A,
    multiply: G,
    conjugate: C,
    matmul: M,
) -> bool {
    exists|found: Vec<D>|
        {
            &&& #[trigger] call_ensures(roots, (&stage.values,), found)
            &&& polar_factors(
                result,
                stage,
                region.rows,
                region.cols,
                found@,
                direction,
                half,
                plus,
                multiply,
                conjugate,
                matmul,
            )
        }
}

/// Both factors of the first sectors, in order.
pub open spec fn polar_images<
    D,
    V,
    R: Fn(&Vec<V>) -> Vec<D>,
    A: Fn(D, D) -> D,
    G: Fn(D, D) -> D,
    C: Fn(D) -> D,
    M: Fn(&[D], usize, usize, &[D], usize) -> Result<Vec<D>, OperationError>,
>(
    isometries: Seq<Vec<D>>,
    positives: Seq<Vec<D>>,
    stages: Seq<SvdStage<D, V>>,
    routes: Seq<PolarRegionRoute>,
    source: Seq<CoupledSectorRegion>,
    direction: PolarDirection,
    half: D,
    roots: R,
    plus: A,
    multiply: G,
    conjugate: C,
    matmul: M,
) -> bool {
    &&& isometries.len() == positives.len() <= routes.len()
    &&& forall|k: int|
        #![trigger isometries[k]]
        #![trigger positives[k]]
        0 <= k < isometries.len() ==> polar_stage(
            Ok((isometries[k], positives[k])),
            stages[k],
            source[routes[k].source as int],
            direction,
            half,
            roots,
            plus,
            multiply,
            conjugate,
            matmul,
        )
}

/// What follows the SVDs of all sectors: both factors of every sector, in
/// order, written to their regions.
pub open spec fn stages_polarized<
    D,
    V,
    R: Fn(&Vec<V>) -> Vec<D>,
    A: Fn(D, D) -> D,
    G: Fn(D, D) -> D,
    C: Fn(D) -> D,
    M: Fn(&[D], usize, usize, &[D], usize) -> Result<Vec<D>, OperationError>,
>(
    result: Result<(Vec<D>, Vec<D>), OperationError>,
    stages: Seq<SvdStage<D, V>>,
    routes: Seq<PolarRegionRoute>,
    source: Seq<CoupledSectorRegion>,
    w: Seq<CoupledSectorRegion>,
    w_len: usize,
    p: Seq<CoupledSectorRegion>,
    p_len: usize,
    direction: PolarDirection,
    zero: D,
    half: D,
    roots: R,
    plus: A,
    multiply: G,
    conjugate: C,
    matmul: M,
) -> bool {
    exists|isometries: Seq<Vec<D>>, positives: Seq<Vec<D>>|
        {
            &&& #[trigger] polar_images(
                isometries,
                positives,
                stages,
                routes,
                source,
                direction,
                half,
                roots,
                plus,
                multiply,
                conjugate,
                matmul,
            )
            &&& match result {
                Ok((first, second)) => {
                    &&& isometries.len() == routes.len()
                    &&& first@ == region_images(
                        zeros(zero, w_len as int),
                        polar_w(routes),
                        isometries,
                        w,
                        routes.len() as int,
                    )
                    &&& second@ == region_images(
                        zeros(zero, p_len as int),
                        polar_p(routes),
                        positives,
                        p,
                        routes.len() as int,
                    )
                },
                Err(_) => isometries.len() < routes.len() && polar_stage(
                    result,
                    stages[isometries.len() as int],
                    source[routes[isometries.len() as int].source as int],
                    direction,
                    half,
                    roots,
                    plus,
                    multiply,
                    conjugate,
                    matmul,
                ),
            }
        }
}

/// All sectors are decomposed before the first product is formed.
pub open spec fn regions_polarized<
    D,
    V,
    F: Fn(&[D], usize, usize) -> Result<SvdStage<D, V>, OperationError>,
    R: Fn(&Vec<V>) -> Vec<D>,
    A: Fn(D, D) -> D,
    G: Fn(D, D) -> D,
    C: Fn(D) -> D,
    M: Fn(&[D], usize, usize, &[D], usize) -> Result<Vec<D>, OperationError>,
>(
    result: Result<(Vec<D>, Vec<D>), OperationError>,
    routes: Seq<PolarRegionRoute>,
    source: Seq<CoupledSectorRegion>,
    data: Seq<D>,
    w: Seq<CoupledSectorRegion>,
    w_len: usize,
    p: Seq<CoupledSectorRegion>,
    p_len: usize,
    direction: PolarDirection,
    zero: D,
    half: D,
    svd: F,
    roots: R,
    plus: A,
    multiply: G,
    conjugate: C,
    matmul: M,
) -> bool {
    exists|stages: Seq<SvdStage<D, V>>|
        {
            &&& #[trigger] polar_stages(stages, routes, source, data, svd)
            &&& if stages.len() < routes.len() {
                result is Err && factors_to(
                    svd,
                    region_matrix(data, source[routes[stages.len() as int].source as int]),
                    source[routes[stages.len() as int].source as int].rows,
                    source[routes[stages.len() as int].source as int].cols,
                    Err::<SvdStage<D, V>, OperationError>(result->Err_0),
                )
            } else {
                stages_polarized(
                    result,
                    stages,
                    routes,
                    source,
                    w,
                    w_len,
                    p,
                    p_len,
                    direction,
                    zero,
                    half,
                    roots,
                    plus,
                    multiply,
                    conjugate,
                    matmul,
                )
            }
        }
}

/// Every route joins regions of the right sizes inside their buffers.
pub(crate) open spec fn routes_hold(
    routes: Seq<PolarRegionRoute>,
    source: Seq<CoupledSectorRegion>,
    w: Seq<CoupledSectorRegion>,
    p: Seq<CoupledSectorRegion>,
    source_len: int,
    w_len: int,
    p_len: int,
    direction: PolarDirection,
) -> bool {
    forall|k: int|
        0 <= k < routes.len() ==> {
            let from = source[(#[trigger] routes[k]).source as int];
            let first = w[routes[k].w as int];
            let second = p[routes[k].p as int];
            let order = positive_order(from.rows, from.cols, direction);
            &&& routes[k].source < source.len()
            &&& routes[k].w < w.len()
            &&& routes[k].p < p.len()
            &&& from.start + from.rows * from.cols == from.end
            &&& from.end <= source_len
            &&& first.start + from.rows * from.cols == first.end
            &&& first.end <= w_len
            &&& second.start + order * order == second.end
            &&& second.end <= p_len
        }
}

pub(crate) proof fn lemma_routes_hold(
    source: Seq<CoupledSectorRegion>,
    w: Seq<CoupledSectorRegion>,
    p: Seq<CoupledSectorRegion>,
    source_len: usize,
    w_len: usize,
    p_len: usize,
    direction: PolarDirection,
)
    requires
        source.len() <= usize::MAX,
        w.len() <= usize::MAX,
        p.len() <= usize::MAX,
        polar_routes(source, w, p, source_len, w_len, p_len, direction) is Ok,
        regions_hold(source),
        regions_hold(w),
        regions_hold(p),
    ensures
        routes_hold(
            polar_routes(source, w, p, source_len, w_len, p_len, direction)->Ok_0,
            source,
            w,
            p,
            source_len as int,
            w_len as int,
            p_len as int,
            direction,
        ),
{
    lemma_polar_routes_preserve_layout(source, w, p, source_len, w_len, p_len, direction);
    let outcomes = Seq::new(
        source.len(),
        |k: int| polar_route(source, w, p, source_len, w_len, p_len, direction, k),
    );
    lemma_all_ok_values(outcomes);
    let routes = polar_routes(source, w, p, source_len, w_len, p_len, direction)->Ok_0;
    assert forall|k: int| 0 <= k < routes.len() implies {
        let from = source[(#[trigger] routes[k]).source as int];
        let first = w[routes[k].w as int];
        let second = p[routes[k].p as int];
        let order = positive_order(from.rows, from.cols, direction);
        &&& routes[k].source < source.len()
        &&& routes[k].w < w.len()
        &&& routes[k].p < p.len()
        &&& from.start + from.rows * from.cols == from.end
        &&& from.end <= source_len
        &&& first.start + from.rows * from.cols == first.end
        &&& first.end <= w_len
        &&& second.start + order * order == second.end
        &&& second.end <= p_len
    } by {
        lemma_sector_position(geometries(w), source[k].coupled, 0);
        lemma_sector_position(geometries(p), source[k].coupled, 0);
        assert(outcomes[k] == Ok::<PolarRegionRoute, OperationError>(routes[k]));
        let first = w[routes[k].w as int];
        let second = p[routes[k].p as int];
        assert(first.geometry() == source[k].geometry());
        assert(source[k].start + source[k].rows * source[k].cols == source[k].end);
        assert(first.start + first.rows * first.cols == first.end);
        assert(second.start + second.rows * second.cols == second.end);
        assert(second.rows == second.geometry().rows && second.cols == second.geometry().cols);
    }
}

/// The outcome of the SVDs of all sectors.
spec fn polar_decomposed<
    D,
    V,
    F: Fn(&[D], usize, usize) -> Result<SvdStage<D, V>, OperationError>,
>(
    result: Result<Vec<SvdStage<D, V>>, OperationError>,
    routes: Seq<PolarRegionRoute>,
    source: Seq<CoupledSectorRegion>,
    data: Seq<D>,
    svd: F,
) -> bool {
    exists|stages: Seq<SvdStage<D, V>>|
        {
            &&& #[trigger] polar_stages(stages, routes, source, data, svd)
            &&& match result {
                Ok(found) => found@ == stages && stages.len() == routes.len(),
                Err(error) => stages.len() < routes.len() && factors_to(
                    svd,
                    region_matrix(data, source[routes[stages.len() as int].source as int]),
                    source[routes[stages.len() as int].source as int].rows,
                    source[routes[stages.len() as int].source as int].cols,
                    Err::<SvdStage<D, V>, OperationError>(error),
                ),
            }
        }
}

/// Every stage has the shape of its sector.
spec fn stages_are_shaped<D, V>(
    stages: Seq<SvdStage<D, V>>,
    routes: Seq<PolarRegionRoute>,
    source: Seq<CoupledSectorRegion>,
) -> bool {
    forall|k: int|
        0 <= k < stages.len() ==> stage_is_shaped(
            #[trigger] stages[k],
            source[routes[k].source as int].rows,
            source[routes[k].source as int].cols,
        )
}

/// Decomposes all sectors.
fn decompose_regions<
    D,
    V,
    F: Fn(&[D], usize, usize) -> Result<SvdStage<D, V>, OperationError>,
>(
    routes: &[PolarRegionRoute],
    source: &[CoupledSectorRegion],
    data: &[D],
    svd: &F,
) -> (result: Result<Vec<SvdStage<D, V>>, OperationError>)
    requires
        forall|k: int|
            0 <= k < routes@.len() ==> {
                let from = source@[(#[trigger] routes@[k]).source as int];
                &&& routes@[k].source < source@.len()
                &&& from.start + from.rows * from.cols == from.end
                &&& from.end <= data@.len()
            },
        is_svd(svd),
    ensures
        polar_decomposed(result, routes@, source@, data@, svd),
        result is Ok ==> stages_are_shaped(result->Ok_0@, routes@, source@),
{
    let mut stages: Vec<SvdStage<D, V>> = Vec::with_capacity(routes.len());
    let mut k: usize = 0;
    while k < routes.len()
        invariant
            k <= routes@.len(),
            forall|k: int|
                0 <= k < routes@.len() ==> {
                    let from = source@[(#[trigger] routes@[k]).source as int];
                    &&& routes@[k].source < source@.len()
                    &&& from.start + from.rows * from.cols == from.end
                    &&& from.end <= data@.len()
                },
            is_svd(svd),
            stages@.len() == k,
            polar_stages(stages@, routes@, source@, data@, svd),
            stages_are_shaped(stages@, routes@, source@),
        decreases routes.len() - k,
    {
        assert(routes@[k as int].source < source@.len());
        let region = &source[routes[k].source];
        let matrix = vstd::slice::slice_subrange(data, region.start, region.end);
        let answer = svd(matrix, region.rows, region.cols);
        proof {
            assert(call_ensures(svd, (matrix, region.rows, region.cols), answer));
            assert(factors_to(
                svd,
                region_matrix(data@, *region),
                region.rows,
                region.cols,
                answer,
            ));
        }
        match answer {
            Err(error) => {
                assert(polar_stages(stages@, routes@, source@, data@, svd));
                return Err(error);
            },
            Ok(stage) => {
                assert(call_ensures(
                    svd,
                    (matrix, region.rows, region.cols),
                    Ok::<SvdStage<D, V>, OperationError>(stage),
                ));
                let ghost before = stages@;
                stages.push(stage);
                proof {
                    assert forall|j: int| 0 <= j < stages@.len() implies factors_to(
                        svd,
                        region_matrix(data@, source@[routes@[j].source as int]),
                        source@[routes@[j].source as int].rows,
                        source@[routes@[j].source as int].cols,
                        Ok(#[trigger] stages@[j]),
                    ) && stage_is_shaped(
                        stages@[j],
                        source@[routes@[j].source as int].rows,
                        source@[routes@[j].source as int].cols,
                    ) by {
                        if j < k {
                            assert(stages@[j] == before[j]);
                        }
                    }
                }
            },
        }
        k += 1;
    }
    assert(polar_stages(stages@, routes@, source@, data@, svd));
    Ok(stages)
}

/// Forms both factors of all decomposed sectors and publishes them.
fn polarize_stages<
    D: Copy,
    V,
    R: Fn(&Vec<V>) -> Vec<D>,
    A: Fn(D, D) -> D,
    G: Fn(D, D) -> D,
    C: Fn(D) -> D,
    M: Fn(&[D], usize, usize, &[D], usize) -> Result<Vec<D>, OperationError>,
>(
    stages: &[SvdStage<D, V>],
    routes: &[PolarRegionRoute],
    source: &[CoupledSectorRegion],
    w: &[CoupledSectorRegion],
    w_len: usize,
    p: &[CoupledSectorRegion],
    p_len: usize,
    direction: PolarDirection,
    zero: D,
    half: D,
    roots: &R,
    plus: &A,
    multiply: &G,
    conjugate: &C,
    matmul: &M,
    Ghost(source_len): Ghost<int>,
) -> (result: Result<(Vec<D>, Vec<D>), OperationError>)
    requires
        stages@.len() == routes@.len(),
        stages_are_shaped(stages@, routes@, source@),
        routes_hold(
            routes@,
            source@,
            w@,
            p@,
            source_len,
            w_len as int,
            p_len as int,
            direction,
        ),
        gives_roots(roots),
        is_operation(plus),
        is_operation(multiply),
        is_function(conjugate),
        is_product(matmul),
    ensures
        stages_polarized(
            result,
            stages@,
            routes@,
            source@,
            w@,
            w_len,
            p@,
            p_len,
            direction,
            zero,
            half,
            roots,
            plus,
            multiply,
            conjugate,
            matmul,
        ),
{
    let mut isometries: Vec<Vec<D>> = Vec::with_capacity(routes.len());
    let mut positives: Vec<Vec<D>> = Vec::with_capacity(routes.len());
    let mut w_outputs: Vec<usize> = Vec::with_capacity(routes.len());
    let mut p_outputs: Vec<usize> = Vec::with_capacity(routes.len());
    let mut k: usize = 0;
    while k < routes.len()
        invariant
            k <= routes@.len() == stages@.len(),
            stages_are_shaped(stages@, routes@, source@),
            routes_hold(
                routes@,
                source@,
                w@,
                p@,
                source_len,
                w_len as int,
                p_len as int,
                direction,
            ),
            gives_roots(roots),
            is_operation(plus),
            is_operation(multiply),
            is_function(conjugate),
            is_product(matmul),
            isometries@.len() == k,
            positives@.len() == k,
            w_outputs@ == polar_w(routes@).take(k as int),
            p_outputs@ == polar_p(routes@).take(k as int),
            polar_images(
                isometries@,
                positives@,
                stages@,
                routes@,
                source@,
                direction,
                half,
                roots,
                plus,
                multiply,
                conjugate,
                matmul,
            ),
            images_fit(w_outputs@, isometries@, w@, w_len as int),
            images_fit(p_outputs@, positives@, p@, p_len as int),
        decreases routes.len() - k,
    {
        let route = routes[k];
        assert(routes@[k as int].source < source@.len());
        let region = &source[route.source];
        let stage = &stages[k];
        assert(stage_is_shaped(stages@[k as int], region.rows, region.cols));
        let found = roots(&stage.values);
        assert(call_ensures(roots, (&stage.values,), found));
        let factors = checked_generic_polar_products(
            stage,
            region.rows,
            region.cols,
            found.as_slice(),
            direction,
            half,
            plus,
            multiply,
            conjugate,
            matmul,
        );
        assert(polar_stage(
            factors,
            *stage,
            *region,
            direction,
            half,
            roots,
            plus,
            multiply,
            conjugate,
            matmul,
        ));
        match factors {
            Err(error) => {
                assert(polar_images(
                    isometries@,
                    positives@,
                    stages@,
                    routes@,
                    source@,
                    direction,
                    half,
                    roots,
                    plus,
                    multiply,
                    conjugate,
                    matmul,
                ));
                return Err(error);
            },
            Ok((isometry, positive)) => {
                let ghost firsts = isometries@;
                let ghost seconds = positives@;
                isometries.push(isometry);
                positives.push(positive);
                w_outputs.push(route.w);
                p_outputs.push(route.p);
                proof {
                    assert(w_outputs@ =~= polar_w(routes@).take(k + 1));
                    assert(p_outputs@ =~= polar_p(routes@).take(k + 1));
                    assert forall|j: int|
                        #![trigger isometries@[j]]
                        #![trigger positives@[j]]
                        0 <= j < isometries@.len() implies polar_stage(
                        Ok((isometries@[j], positives@[j])),
                        stages@[j],
                        source@[routes@[j].source as int],
                        direction,
                        half,
                        roots,
                        plus,
                        multiply,
                        conjugate,
                        matmul,
                    ) by {
                        if j < k {
                            assert(isometries@[j] == firsts[j]);
                            assert(positives@[j] == seconds[j]);
                        }
                    }
                }
            },
        }
        k += 1;
    }
    assert(w_outputs@ =~= polar_w(routes@));
    assert(p_outputs@ =~= polar_p(routes@));
    let first = publish_region_images(
        w_outputs.as_slice(),
        isometries.as_slice(),
        w,
        w_len,
        zero,
    );
    let second = publish_region_images(
        p_outputs.as_slice(),
        positives.as_slice(),
        p,
        p_len,
        zero,
    );
    assert(polar_images(
        isometries@,
        positives@,
        stages@,
        routes@,
        source@,
        direction,
        half,
        roots,
        plus,
        multiply,
        conjugate,
        matmul,
    ));
    Ok((first, second))
}

/// Decomposes every sector into an isometry and a positive factor and publishes
/// both on their layouts.
pub fn polar_by_sector_dyn_into<
    D: Copy,
    V,
    F: Fn(&[D], usize, usize) -> Result<SvdStage<D, V>, OperationError>,
    R: Fn(&Vec<V>) -> Vec<D>,
    A: Fn(D, D) -> D,
    G: Fn(D, D) -> D,
    C: Fn(D) -> D,
    M: Fn(&[D], usize, usize, &[D], usize) -> Result<Vec<D>, OperationError>,
>(
    source: &MapSpace,
    data: &[D],
    w: &MapSpace,
    p: &MapSpace,
    direction: PolarDirection,
    zero: D,
    half: D,
    svd: &F,
    roots: &R,
    plus: &A,
    multiply: &G,
    conjugate: &C,
    matmul: &M,
) -> (result: Result<(Vec<D>, Vec<D>), OperationError>)
    requires
        holds_matrices(*source),
        holds_matrices(*w),
        holds_matrices(*p),
        is_svd(svd),
        gives_roots(roots),
        is_operation(plus),
        is_operation(multiply),
        is_function(conjugate),
        is_product(matmul),
    ensures
        match polar_plan(*source, *w, *p, data@.len() as usize, direction) {
            Err(error) => result == Err::<(Vec<D>, Vec<D>), OperationError>(error),
            Ok(routes) => regions_polarized(
                result,
                routes,
                source.regions->0@,
                data@,
                w.regions->0@,
                w.structure.spec_len(),
                p.regions->0@,
                p.structure.spec_len(),
                direction,
                zero,
                half,
                svd,
                roots,
                plus,
                multiply,
                conjugate,
                matmul,
            ),
        },
{
    let len: usize = data.len();
    let routes = match plan_polar(source, w, p, len, direction) {
        Err(error) => {
            return Err(error);
        },
        Ok(routes) => routes,
    };
    let from: &[CoupledSectorRegion] = match &source.regions {
        Some(regions) => regions.as_slice(),
        None => &[],
    };
    let to_w: &[CoupledSectorRegion] = match &w.regions {
        Some(regions) => regions.as_slice(),
        None => &[],
    };
    let to_p: &[CoupledSectorRegion] = match &p.regions {
        Some(regions) => regions.as_slice(),
        None => &[],
    };
    let counts: (usize, usize, usize) = (from.len(), to_w.len(), to_p.len());
    let w_len: usize = w.structure.required_len();
    let p_len: usize = p.structure.required_len();
    proof {
        assert(counts.0 == from@.len() && counts.1 == to_w@.len() && counts.2 == to_p@.len());
        lemma_routes_hold(from@, to_w@, to_p@, len, w_len, p_len, direction);
    }
    match decompose_regions(routes.as_slice(), from, data, svd) {
        Err(error) => Err(error),
        Ok(stages) => polarize_stages(
            stages.as_slice(),
            routes.as_slice(),
            from,
            to_w,
            w_len,
            to_p,
            p_len,
            direction,
            zero,
            half,
            roots,
            plus,
            multiply,
            conjugate,
            matmul,
            Ghost(len as int),
        ),
    }
}

} // verus!
