//! Pseudo-inverses, sector by sector.

use vstd::prelude::*;

use crate::dense::adjoint_matrix;
use crate::dense_calls::{factors_to, is_product, multiplies_to};
use crate::error::OperationError;
use crate::factor_routes::smaller;
use crate::geometry::CoupledSectorRegion;
use crate::publish::zeros;
use crate::route_laws::{lemma_pinv_routes_transpose, routes_transpose};
use crate::routes::{route_outputs, InverseSectorRoute};
use crate::sector_drive::{lemma_jobs_are_routes, region_matrix, regions_hold};
use crate::sector_solve::{
    filled_routes, images_fit, pinv_plan, plan_pinv, publish_region_images, region_images,
    sector_jobs,
};
use crate::solve_drive::holds_matrices;
use crate::space::MapSpace;
use crate::spectrum::{is_function, is_operation};
use crate::svd_stage::{
    adjoint_of, is_svd, rows_scaled, scale_rows, stage_is_shaped, SvdStage,
};

verus! {

/// The factors of the first sectors, in order.
pub open spec fn stages_of<
    D,
    V,
    F: Fn(&[D], usize, usize) -> Result<SvdStage<D, V>, OperationError>,
>(
    stages: Seq<SvdStage<D, V>>,
    jobs: Seq<InverseSectorRoute>,
    source: Seq<CoupledSectorRegion>,
    data: Seq<D>,
    svd: F,
) -> bool {
    &&& stages.len() <= jobs.len()
    &&& forall|k: int|
        0 <= k < stages.len() ==> factors_to(
            svd,
            region_matrix(data, source[jobs[k].source as int]),
            source[jobs[k].source as int].rows,
            source[jobs[k].source as int].cols,
            Ok(#[trigger] stages[k]),
        )
}

/// The function gives every singular value of all sectors its factor.
pub open spec fn gives_factors<D, V, R: Fn(&Vec<Vec<V>>) -> Vec<Vec<D>>>(factors: R) -> bool {
    &&& forall|spectra: &Vec<Vec<V>>| #[trigger] call_requires(factors, (spectra,))
    &&& forall|spectra: &Vec<Vec<V>>, found: Vec<Vec<D>>| #[trigger]
        call_ensures(factors, (spectra,), found) ==> {
            &&& found@.len() == spectra@.len()
            &&& forall|k: int|
                0 <= k < found@.len() ==> (#[trigger] found@[k])@.len() == spectra@[k]@.len()
        }
}

/// The product that inverts one sector: the adjoint of `vt`, its rows scaled,
/// times the adjoint of `u`.
pub open spec fn inverts_sector<
    D,
    V,
    C: Fn(D) -> D,
    G: Fn(D, D) -> D,
    M: Fn(&[D], usize, usize, &[D], usize) -> Result<Vec<D>, OperationError>,
>(
    stage: SvdStage<D, V>,
    factors: Seq<D>,
    rows: usize,
    cols: usize,
    conjugate: C,
    multiply: G,
    matmul: M,
    answer: Result<Vec<D>, OperationError>,
) -> bool {
    let rank = smaller(rows, cols);
    let scaled = rows_scaled(
        stage.vt@,
        cols as int,
        rank as int,
        factors,
        multiply,
        rank as int,
    );
    multiplies_to(
        matmul,
        adjoint_matrix(conjugate, scaled, rank as int, cols as int),
        cols,
        rank,
        adjoint_matrix(conjugate, stage.u@, rows as int, rank as int),
        rows,
        answer,
    )
}

/// The images of the first sectors, in order.
pub open spec fn inverted<
    D,
    V,
    C: Fn(D) -> D,
    G: Fn(D, D) -> D,
    M: Fn(&[D], usize, usize, &[D], usize) -> Result<Vec<D>, OperationError>,
>(
    images: Seq<Vec<D>>,
    jobs: Seq<InverseSectorRoute>,
    source: Seq<CoupledSectorRegion>,
    stages: Seq<SvdStage<D, V>>,
    factors: Seq<Vec<D>>,
    conjugate: C,
    multiply: G,
    matmul: M,
) -> bool {
    &&& images.len() <= jobs.len()
    &&& forall|k: int|
        0 <= k < images.len() ==> inverts_sector(
            stages[k],
            factors[k]@,
            source[jobs[k].source as int].rows,
            source[jobs[k].source as int].cols,
            conjugate,
            multiply,
            matmul,
            Ok(#[trigger] images[k]),
        )
}

/// The singular values of all sectors.
pub open spec fn spectra_of<D, V>(spectra: Seq<Vec<V>>, stages: Seq<SvdStage<D, V>>) -> bool {
    &&& spectra.len() == stages.len()
    &&& forall|k: int| 0 <= k < spectra.len() ==> (#[trigger] spectra[k]) == stages[k].values
}

/// What follows the SVDs of all sectors: the factors are asked for once, every
/// sector is inverted in order, and the images are written to their regions.
pub open spec fn stages_inverted<
    D,
    V,
    R: Fn(&Vec<Vec<V>>) -> Vec<Vec<D>>,
    C: Fn(D) -> D,
    G: Fn(D, D) -> D,
    M: Fn(&[D], usize, usize, &[D], usize) -> Result<Vec<D>, OperationError>,
>(
    result: Result<Vec<D>, OperationError>,
    jobs: Seq<InverseSectorRoute>,
    source: Seq<CoupledSectorRegion>,
    stages: Seq<SvdStage<D, V>>,
    output: Seq<CoupledSectorRegion>,
    output_len: usize,
    zero: D,
    reciprocals: R,
    conjugate: C,
    multiply: G,
    matmul: M,
) -> bool {
    exists|spectra: Vec<Vec<V>>, factors: Vec<Vec<D>>, images: Seq<Vec<D>>|
        {
            &&& spectra_of(spectra@, stages)
            &&& #[trigger] call_ensures(reciprocals, (&spectra,), factors)
            &&& #[trigger] inverted(
                images,
                jobs,
                source,
                stages,
                factors@,
                conjugate,
                multiply,
                matmul,
            )
            &&& match result {
                Ok(elements) => images.len() == jobs.len() && elements@ == region_images(
                    zeros(zero, output_len as int),
                    route_outputs(jobs),
                    images,
                    output,
                    jobs.len() as int,
                ),
                Err(_) => images.len() < jobs.len() && inverts_sector(
                    stages[images.len() as int],
                    factors@[images.len() as int]@,
                    source[jobs[images.len() as int].source as int].rows,
                    source[jobs[images.len() as int].source as int].cols,
                    conjugate,
                    multiply,
                    matmul,
                    result,
                ),
            }
        }
}

/// All sectors are decomposed before the first is inverted.
pub open spec fn regions_inverted<
    D,
    V,
    F: Fn(&[D], usize, usize) -> Result<SvdStage<D, V>, OperationError>,
    R: Fn(&Vec<Vec<V>>) -> Vec<Vec<D>>,
    C: Fn(D) -> D,
    G: Fn(D, D) -> D,
    M: Fn(&[D], usize, usize, &[D], usize) -> Result<Vec<D>, OperationError>,
>(
    result: Result<Vec<D>, OperationError>,
    routes: Seq<InverseSectorRoute>,
    source: Seq<CoupledSectorRegion>,
    data: Seq<D>,
    output: Seq<CoupledSectorRegion>,
    output_len: usize,
    zero: D,
    svd: F,
    reciprocals: R,
    conjugate: C,
    multiply: G,
    matmul: M,
) -> bool {
    let jobs = filled_routes(routes, source, routes.len() as int);
    exists|stages: Seq<SvdStage<D, V>>|
        {
            &&& #[trigger] stages_of(stages, jobs, source, data, svd)
            &&& if stages.len() < jobs.len() {
                result is Err && factors_to(
                    svd,
                    region_matrix(data, source[jobs[stages.len() as int].source as int]),
                    source[jobs[stages.len() as int].source as int].rows,
                    source[jobs[stages.len() as int].source as int].cols,
                    Err::<SvdStage<D, V>, OperationError>(result->Err_0),
                )
            } else {
                stages_inverted(
                    result,
                    jobs,
                    source,
                    stages,
                    output,
                    output_len,
                    zero,
                    reciprocals,
                    conjugate,
                    multiply,
                    matmul,
                )
            }
        }
}

/// The jobs stand in transposed regions of the right sizes.
pub(crate) open spec fn jobs_hold(
    jobs: Seq<InverseSectorRoute>,
    source: Seq<CoupledSectorRegion>,
    output: Seq<CoupledSectorRegion>,
    source_len: int,
    output_len: int,
) -> bool {
    forall|k: int|
        0 <= k < jobs.len() ==> {
            let from = source[(#[trigger] jobs[k]).source as int];
            let to = output[jobs[k].output as int];
            &&& jobs[k].source < source.len()
            &&& jobs[k].output < output.len()
            &&& from.start + from.rows * from.cols == from.end
            &&& from.end <= source_len
            &&& to.start + from.cols * from.rows == to.end
            &&& to.end <= output_len
        }
}

pub(crate) proof fn lemma_jobs_hold(
    routes: Seq<InverseSectorRoute>,
    source: Seq<CoupledSectorRegion>,
    output: Seq<CoupledSectorRegion>,
    source_len: usize,
    output_len: usize,
)
    requires
        routes_transpose(routes, source, output, source_len, output_len),
        regions_hold(source),
        regions_hold(output),
    ensures
        jobs_hold(
            filled_routes(routes, source, routes.len() as int),
            source,
            output,
            source_len as int,
            output_len as int,
        ),
{
    let jobs = filled_routes(routes, source, routes.len() as int);
    assert forall|k: int| 0 <= k < jobs.len() implies {
        let from = source[(#[trigger] jobs[k]).source as int];
        let to = output[jobs[k].output as int];
        &&& jobs[k].source < source.len()
        &&& jobs[k].output < output.len()
        &&& from.start + from.rows * from.cols == from.end
        &&& from.end <= source_len
        &&& to.start + from.cols * from.rows == to.end
        &&& to.end <= output_len
    } by {
        lemma_jobs_are_routes(routes, source, routes.len() as int, k);
        let j = choose|j: int| 0 <= j < routes.len() && jobs[k] == #[trigger] routes[j];
        assert(routes[j].source == j);
        let to = output[jobs[k].output as int];
        assert(to.start + to.rows * to.cols == to.end);
        assert(source[j].start + source[j].rows * source[j].cols == source[j].end);
    }
}

/// The outcome of the SVDs of all jobs.
spec fn decomposed<
    D,
    V,
    F: Fn(&[D], usize, usize) -> Result<SvdStage<D, V>, OperationError>,
>(
    result: Result<Vec<SvdStage<D, V>>, OperationError>,
    jobs: Seq<InverseSectorRoute>,
    source: Seq<CoupledSectorRegion>,
    data: Seq<D>,
    svd: F,
) -> bool {
    exists|stages: Seq<SvdStage<D, V>>|
        {
            &&& #[trigger] stages_of(stages, jobs, source, data, svd)
            &&& match result {
                Ok(found) => found@ == stages && stages.len() == jobs.len(),
                Err(error) => stages.len() < jobs.len() && factors_to(
                    svd,
                    region_matrix(data, source[jobs[stages.len() as int].source as int]),
                    source[jobs[stages.len() as int].source as int].rows,
                    source[jobs[stages.len() as int].source as int].cols,
                    Err::<SvdStage<D, V>, OperationError>(error),
                ),
            }
        }
}

/// Every stage has the shape of its sector.
spec fn stages_are_shaped<D, V>(
    stages: Seq<SvdStage<D, V>>,
    jobs: Seq<InverseSectorRoute>,
    source: Seq<CoupledSectorRegion>,
) -> bool {
    forall|k: int|
        0 <= k < stages.len() ==> stage_is_shaped(
            #[trigger] stages[k],
            source[jobs[k].source as int].rows,
            source[jobs[k].source as int].cols,
        )
}

/// Decomposes all sectors.
fn decompose_jobs<
    D,
    V,
    F: Fn(&[D], usize, usize) -> Result<SvdStage<D, V>, OperationError>,
>(
    jobs: &[InverseSectorRoute],
    source: &[CoupledSectorRegion],
    data: &[D],
    svd: &F,
    Ghost(output): Ghost<Seq<CoupledSectorRegion>>,
    Ghost(output_len): Ghost<int>,
) -> (result: Result<Vec<SvdStage<D, V>>, OperationError>)
    requires
        jobs_hold(jobs@, source@, output, data@.len() as int, output_len),
        is_svd(svd),
    ensures
        decomposed(result, jobs@, source@, data@, svd),
        result is Ok ==> stages_are_shaped(result->Ok_0@, jobs@, source@),
{
    let mut stages: Vec<SvdStage<D, V>> = Vec::with_capacity(jobs.len());
    let mut k: usize = 0;
    while k < jobs.len()
        invariant
            k <= jobs@.len(),
            jobs_hold(jobs@, source@, output, data@.len() as int, output_len),
            is_svd(svd),
            stages@.len() == k,
            stages_of(stages@, jobs@, source@, data@, svd),
            stages_are_shaped(stages@, jobs@, source@),
        decreases jobs.len() - k,
    {
        assert(jobs@[k as int].source < source@.len());
        let region = &source[jobs[k].source];
        let matrix = vstd::slice::slice_subrange(data, region.start, region.end);
        let answer = svd(matrix, region.rows, region.cols);
        proof {
            assert(call_ensures(svd, (matrix, region.rows, region.cols), answer));
            assert(factors_to(
                svd,
                region_matrix(data@, *region),
                region.rows,
                region.cols,
                answer,
            ));
        }
        match answer {
            Err(error) => {
                assert(stages_of(stages@, jobs@, source@, data@, svd));
                return Err(error);
            },
            Ok(stage) => {
                assert(call_ensures(
                    svd,
                    (matrix, region.rows, region.cols),
                    Ok::<SvdStage<D, V>, OperationError>(stage),
                ));
                let ghost before = stages@;
                stages.push(stage);
                proof {
                    assert forall|j: int| 0 <= j < stages@.len() implies factors_to(
                        svd,
                        region_matrix(data@, source@[jobs@[j].source as int]),
                        source@[jobs@[j].source as int].rows,
                        source@[jobs@[j].source as int].cols,
                        Ok(#[trigger] stages@[j]),
                    ) && stage_is_shaped(
                        stages@[j],
                        source@[jobs@[j].source as int].rows,
                        source@[jobs@[j].source as int].cols,
                    ) by {
                        if j < k {
                            assert(stages@[j] == before[j]);
                        }
                    }
                }
            },
        }
        k += 1;
    }
    assert(stages_of(stages@, jobs@, source@, data@, svd));
    Ok(stages)
}

/// Inverts all decomposed sectors and publishes the images.
fn invert_stages<
    D: Copy,
    V,
    R: Fn(&Vec<Vec<V>>) -> Vec<Vec<D>>,
    C: Fn(D) -> D,
    G: Fn(D, D) -> D,
    M: Fn(&[D], usize, usize, &[D], usize) -> Result<Vec<D>, OperationError>,
>(
    jobs: &[InverseSectorRoute],
    source: &[CoupledSectorRegion],
    stages: Vec<SvdStage<D, V>>,
    output: &[CoupledSectorRegion],
    output_len: usize,
    zero: D,
    reciprocals: &R,
    conjugate: &C,
    multiply: &G,
    matmul: &M,
    Ghost(source_len): Ghost<int>,
) -> (result: Result<Vec<D>, OperationError>)
    requires
        jobs_hold(jobs@, source@, output@, source_len, output_len as int),
        stages@.len() == jobs@.len(),
        stages_are_shaped(stages@, jobs@, source@),
        gives_factors(reciprocals),
        is_function(conjugate),
        is_operation(multiply),
        is_product(matmul),
    ensures
        stages_inverted(
            result,
            jobs@,
            source@,
            stages@,
            output@,
            output_len,
            zero,
            reciprocals,
            conjugate,
            multiply,
            matmul,
        ),
{
    let ghost given = stages@;
    let mut spectra: Vec<Vec<V>> = Vec::with_capacity(jobs.len());
    let mut lefts: Vec<Vec<D>> = Vec::with_capacity(jobs.len());
    let mut rights: Vec<Vec<D>> = Vec::with_capacity(jobs.len());
    for stage in iter: stages
        invariant
            iter.seq() == given,
            spectra@.len() == iter.index(),
            lefts@.len() == iter.index(),
            rights@.len() == iter.index(),
            forall|j: int| 0 <= j < spectra@.len() ==> (#[trigger] spectra@[j]) == given[j].values,
            forall|j: int| 0 <= j < lefts@.len() ==> (#[trigger] lefts@[j]) == given[j].u,
            forall|j: int| 0 <= j < rights@.len() ==> (#[trigger] rights@[j]) == given[j].vt,
    {
        spectra.push(stage.values);
        lefts.push(stage.u);
        rights.push(stage.vt);
    }
    let factors = reciprocals(&spectra);
    assert(call_ensures(reciprocals, (&spectra,), factors));
    let mut outputs: Vec<usize> = Vec::with_capacity(jobs.len());
    let mut images: Vec<Vec<D>> = Vec::with_capacity(jobs.len());
    let mut k: usize = 0;
    while k < jobs.len()
        invariant
            k <= jobs@.len() == given.len(),
            given == stages@,
            jobs_hold(jobs@, source@, output@, source_len, output_len as int),
            stages_are_shaped(given, jobs@, source@),
            is_function(conjugate),
            is_operation(multiply),
            is_product(matmul),
            spectra@.len() == jobs@.len(),
            lefts@.len() == jobs@.len(),
            rights@.len() == jobs@.len(),
            factors@.len() == jobs@.len(),
            spectra_of(spectra@, given),
            call_ensures(reciprocals, (&spectra,), factors),
            forall|j: int| 0 <= j < jobs@.len() ==> (#[trigger] lefts@[j]) == given[j].u,
            forall|j: int| 0 <= j < jobs@.len() ==> (#[trigger] rights@[j]) == given[j].vt,
            forall|j: int|
                0 <= j < jobs@.len() ==> (#[trigger] factors@[j])@.len() == given[j].values@.len(),
            outputs@ == route_outputs(jobs@).take(k as int),
            images@.len() == k,
            inverted(
                images@,
                jobs@,
                source@,
                given,
                factors@,
                conjugate,
                multiply,
                matmul,
            ),
            images_fit(outputs@, images@, output@, output_len as int),
        decreases jobs.len() - k,
    {
        let job = jobs[k];
        assert(jobs@[k as int].source < source@.len());
        let region = &source[job.source];
        let (rows, cols): (usize, usize) = (region.rows, region.cols);
        let rank: usize = if rows <= cols {
            rows
        } else {
            cols
        };
        assert(stage_is_shaped(given[k as int], rows, cols));
        assert(lefts@[k as int] == given[k as int].u && rights@[k as int] == given[k as int].vt);
        assert(factors@[k as int]@.len() == rank);
        let right: Vec<D> = vstd::slice::slice_to_vec(rights[k].as_slice());
        let scaled = scale_rows(right, rank, cols, factors[k].as_slice(), multiply);
        let v = adjoint_of(scaled.as_slice(), rank, cols, conjugate);
        let uh = adjoint_of(lefts[k].as_slice(), rows, rank, conjugate);
        let (x, y) = (v.as_slice(), uh.as_slice());
        proof {
            assert(rank * cols == cols * rank) by (nonlinear_arith);
            assert(rows * rank == rank * rows) by (nonlinear_arith);
        }
        let answer = matmul(x, cols, rank, y, rows);
        proof {
            assert(call_ensures(matmul, (x, cols, rank, y, rows), answer));
            assert(inverts_sector(
                given[k as int],
                factors@[k as int]@,
                rows,
                cols,
                conjugate,
                multiply,
                matmul,
                answer,
            ));
        }
        match answer {
            Err(error) => {
                assert(inverted(
                    images@,
                    jobs@,
                    source@,
                    given,
                    factors@,
                    conjugate,
                    multiply,
                    matmul,
                ));
                return Err(error);
            },
            Ok(image) => {
                assert(call_ensures(
                    matmul,
                    (x, cols, rank, y, rows),
                    Ok::<Vec<D>, OperationError>(image),
                ));
                let ghost before = images@;
                images.push(image);
                outputs.push(job.output);
                proof {
                    assert(outputs@ =~= route_outputs(jobs@).take(k + 1));
                    assert forall|j: int| 0 <= j < images@.len() implies inverts_sector(
                        given[j],
                        factors@[j]@,
                        source@[jobs@[j].source as int].rows,
                        source@[jobs@[j].source as int].cols,
                        conjugate,
                        multiply,
                        matmul,
                        Ok(#[trigger] images@[j]),
                    ) by {
                        if j < k {
                            assert(images@[j] == before[j]);
                        }
                    }
                }
            },
        }
        k += 1;
    }
    assert(outputs@ =~= route_outputs(jobs@));
    let elements = publish_region_images(
        outputs.as_slice(),
        images.as_slice(),
        output,
        output_len,
        zero,
    );
    assert(inverted(
        images@,
        jobs@,
        source@,
        given,
        factors@,
        conjugate,
        multiply,
        matmul,
    ));
    Ok(elements)
}

/// Pseudo-inverts every sector and publishes the images on the output layout.
/// The factor of every singular value comes from the caller, who sees the
/// singular values of all sectors at once.
pub fn pinv_by_sector_dyn_into<
    D: Copy,
    V,
    F: Fn(&[D], usize, usize) -> Result<SvdStage<D, V>, OperationError>,
    R: Fn(&Vec<Vec<V>>) -> Vec<Vec<D>>,
    C: Fn(D) -> D,
    G: Fn(D, D) -> D,
    M: Fn(&[D], usize, usize, &[D], usize) -> Result<Vec<D>, OperationError>,
>(
    source: &MapSpace,
    data: &[D],
    output: &MapSpace,
    zero: D,
    svd: &F,
    reciprocals: &R,
    conjugate: &C,
    multiply: &G,
    matmul: &M,
) -> (result: Result<Vec<D>, OperationError>)
    requires
        holds_matrices(*source),
        holds_matrices(*output),
        is_svd(svd),
        gives_factors(reciprocals),
        is_function(conjugate),
        is_operation(multiply),
        is_product(matmul),
    ensures
        match pinv_plan(*source, *output, data@.len() as usize) {
            Err(error) => result == Err::<Vec<D>, OperationError>(error),
            Ok(routes) => regions_inverted(
                result,
                routes,
                source.regions->0@,
                data@,
                output.regions->0@,
                output.structure.spec_len(),
                zero,
                svd,
                reciprocals,
                conjugate,
                multiply,
                matmul,
            ),
        },
{
    let len: usize = data.len();
    let routes = match plan_pinv(source, output, len) {
        Err(error) => {
            return Err(error);
        },
        Ok(routes) => routes,
    };
    let from: &[CoupledSectorRegion] = match &source.regions {
        Some(regions) => regions.as_slice(),
        None => &[],
    };
    let to: &[CoupledSectorRegion] = match &output.regions {
        Some(regions) => regions.as_slice(),
        None => &[],
    };
    let counts: (usize, usize) = (from.len(), to.len());
    let output_len: usize = output.structure.required_len();
    proof {
        assert(counts.0 == from@.len() && counts.1 == to@.len());
        lemma_pinv_routes_transpose(from@, to@, len, output_len);
        lemma_jobs_hold(routes@, from@, to@, len, output_len);
        assert forall|k: int| 0 <= k < routes@.len() implies (#[trigger] routes@[k]).source
            < from@.len() by {
            assert(routes@[k].source == k);
        }
    }
    let jobs = sector_jobs(routes.as_slice(), from);
    match decompose_jobs(
        jobs.as_slice(),
        from,
        data,
        svd,
        Ghost(to@),
        Ghost(output_len as int),
    ) {
        Err(error) => Err(error),
        Ok(stages) => invert_stages(
            jobs.as_slice(),
            from,
            stages,
            to,
            output_len,
            zero,
            reciprocals,
            conjugate,
            multiply,
            matmul,
            Ghost(len as int),
        ),
    }
}

} // verus!
