//! What inverses, solutions, pseudo-inverses and polar decompositions of tensors
//! are in every sector, with exact arithmetic.

use vstd::prelude::*;

use crate::dense_calls::factors_to;
use crate::error::OperationError;
use crate::exact::{
    adds_in, conjugates_in, multiplies_exactly, multiplies_in, solves_exactly,
};
use crate::factor_routes::{polar_p, polar_w, smaller};
use crate::geometry::{geometries, sectors_distinct, CoupledSectorRegion, SectorGeometry};
use crate::pinv_drive::{
    inverted, inverts_sector, lemma_jobs_hold, regions_inverted, spectra_of, stages_of,
};
use crate::polar::{polar_plan, PolarDirection};
use crate::polar_drive::{
    lemma_routes_hold, polar_factors, polar_images, polar_stage, polar_stages, positive_order,
    regions_polarized,
};
use crate::publish::zeros;
use crate::region_laws::{
    lemma_filled_route_is_job, lemma_jobs_distinct, lemma_mapped_regions_hold_images,
    lemma_region_images_read_back, regions_apart, regions_disjoint,
};
use crate::ring::{lemma_place, lemma_same_cells, matrix, Matrix, Ring};
use crate::route_laws::{
    lemma_inverse_routes_transpose, lemma_pinv_routes_transpose,
    lemma_polar_routes_preserve_layout, lemma_routes_one_to_one, lemma_solve_routes_match, solves,
};
use crate::routes::route_outputs;
use crate::sector_drive::{inverses_of, region_matrix, regions_hold, squares_inverted};
use crate::sector_solve::{
    filled_routes, filled_solves, images_fit, pinv_plan, region_images, solve_left_plan,
    square_planned, SquareOperation, SquarePlan,
};
use crate::solve_drive::{regions_solved, solutions_of, solve_outputs, solves_job};
use crate::solve_routes::{identity_matrix, solve_left_routes, SolveLeftSectorRoute};
use crate::space::MapSpace;
use crate::svd_laws::{
    are_real, are_reciprocals, are_roots, is_polar_of, is_pseudo_inverse, is_svd_of,
    lemma_inverted_sector_is_pseudo_inverse, lemma_polar_factors_multiply_to_sector,
};
use crate::svd_stage::SvdStage;
use crate::tree_order::lemma_canonical_regions_distinct;

verus! {

/// The identity that a solver is handed is the identity matrix.
pub proof fn lemma_identity_is_identity<D>(ring: Ring<D>, order: int)
    requires
        0 <= order,
    ensures
        matrix(order, order, identity_matrix(order, ring.zero, ring.one)) == ring.identity(order),
{
    let found = matrix(order, order, identity_matrix(order, ring.zero, ring.one));
    assert(0 <= order * order) by (nonlinear_arith);
    ring.identity_cells(order);
    assert forall|i: int, j: int| 0 <= i < order && 0 <= j < order implies #[trigger] found.at(
        i,
        j,
    ) == ring.identity(order).at(i, j) by {
        lemma_place(order, order, i, j);
    }
    lemma_same_cells(found, ring.identity(order));
}

/// The matrix that a tensor has in one of its regions.
pub open spec fn region_of<D>(data: Seq<D>, region: CoupledSectorRegion) -> Matrix<D> {
    matrix(
        region.rows as int,
        region.cols as int,
        data.subrange(region.start as int, region.end as int),
    )
}

/// The inverse of a tensor inverts every sector: the matrix of a sector times
/// the matrix that the inverse has in that sector is the identity.
pub proof fn lemma_inverse_inverts_sectors<
    D,
    F: Fn(&[D], usize, &[D], usize) -> Result<Vec<D>, OperationError>,
>(
    ring: Ring<D>,
    elements: Vec<D>,
    planned: Result<SquarePlan<D>, OperationError>,
    source: MapSpace,
    data: Seq<D>,
    output: MapSpace,
    solve: F,
    i: int,
    j: int,
)
    requires
        solves_exactly(ring, solve),
        source.regions is Some,
        output.regions is Some,
        data.len() <= usize::MAX,
        source.regions->0@.len() <= usize::MAX,
        output.regions->0@.len() <= usize::MAX,
        square_planned(planned, source, data, output, SquareOperation::Inverse, ring.zero),
        squares_inverted(
            Ok(elements),
            planned,
            source,
            data,
            output,
            ring.zero,
            ring.one,
            solve,
        ),
        regions_hold(output.regions->0@),
        regions_disjoint(output.regions->0@),
        sectors_distinct(geometries(source.regions->0@)),
        sectors_distinct(geometries(output.regions->0@)),
        0 <= i < source.regions->0@.len(),
        0 <= j < output.regions->0@.len(),
        source.regions->0@[i].coupled == output.regions->0@[j].coupled,
        source.regions->0@[i].rows > 0,
    ensures
        ring.mul(
            region_of(data, source.regions->0@[i]),
            region_of(elements@, output.regions->0@[j]),
        ) == ring.identity(source.regions->0@[i].rows as int),
{
    let from = source.regions->0@;
    let to = output.regions->0@;
    let len = output.structure.spec_len();
    let routes = match planned->Ok_0 {
        SquarePlan::Regions(routes) => routes@,
        SquarePlan::Matrices { .. } => Seq::empty(),
    };
    lemma_inverse_routes_transpose(from, to, data.len() as usize, len);
    lemma_routes_one_to_one(routes, from, to, data.len() as usize, len);
    let answers = inverses_of(solve, ring.zero, ring.one);
    assert forall|m: Seq<D>, order: usize, image: Vec<D>| #[trigger]
        answers(m, order, Ok::<Vec<D>, OperationError>(image)) implies image@.len() == order
        * order by {
        let (x, y) = choose|x: &[D], y: &[D]|
            x@ == m && y@ == identity_matrix(order as int, ring.zero, ring.one)
                && #[trigger] call_ensures(
                solve,
                (x, order, y, order),
                Ok::<Vec<D>, OperationError>(image),
            );
    }
    lemma_mapped_regions_hold_images(
        elements,
        routes,
        from,
        data,
        to,
        len,
        ring.zero,
        answers,
        i,
    );
    assert(routes[i].source == i);
    lemma_region_of_sector(to, routes[i].output as int, j);
    let n = from[i].rows;
    let image = choose|image: Vec<D>|
        {
            &&& #[trigger] answers(
                region_matrix(data, from[i]),
                n,
                Ok::<Vec<D>, OperationError>(image),
            )
            &&& elements@.subrange(
                to[routes[i].output as int].start as int,
                to[routes[i].output as int].end as int,
            ) == image@
        };
    let (x, y) = choose|x: &[D], y: &[D]|
        x@ == region_matrix(data, from[i]) && y@ == identity_matrix(n as int, ring.zero, ring.one)
            && #[trigger] call_ensures(
            solve,
            (x, n, y, n),
            Ok::<Vec<D>, OperationError>(image),
        );
    lemma_identity_is_identity(ring, n as int);
    assert(from[i].rows == from[i].cols);
}

/// A sector has one region.
proof fn lemma_region_of_sector(regions: Seq<CoupledSectorRegion>, a: int, b: int)
    requires
        sectors_distinct(geometries(regions)),
        0 <= a < regions.len(),
        0 <= b < regions.len(),
        regions[a].coupled == regions[b].coupled,
    ensures
        a == b,
{
    let all = geometries(regions);
    assert(all[a].sector == regions[a].coupled);
    assert(all[b].sector == regions[b].coupled);
    if a < b {
        assert(all[a].sector != all[b].sector);
    } else if b < a {
        assert(all[b].sector != all[a].sector);
    }
}

/// A job of a left solve is a route with elements, and every such route is a
/// job.
proof fn lemma_solve_jobs(
    routes: Seq<SolveLeftSectorRoute>,
    divisor: Seq<CoupledSectorRegion>,
    output: Seq<CoupledSectorRegion>,
    count: int,
)
    requires
        0 <= count <= routes.len(),
        forall|k: int| 0 <= k < routes.len() ==> (#[trigger] routes[k]).output == k,
    ensures
        ({
            let jobs = filled_solves(routes, divisor, output, count);
            &&& forall|k: int|
                0 <= k < jobs.len() ==> (#[trigger] jobs[k]).output < count && jobs[k]
                    == routes[jobs[k].output as int]
            &&& forall|j: int, k: int|
                0 <= j < k < jobs.len() ==> (#[trigger] jobs[j]).output < (
                #[trigger] jobs[k]).output
            &&& forall|r: int|
                0 <= r < count && divisor[routes[r].divisor as int].rows > 0
                    && output[r].cols > 0 ==> jobs.contains(#[trigger] routes[r])
        }),
    decreases count,
{
    if count > 0 {
        lemma_solve_jobs(routes, divisor, output, count - 1);
        let before = filled_solves(routes, divisor, output, count - 1);
        let jobs = filled_solves(routes, divisor, output, count);
        assert(routes[count - 1].output == count - 1);
        assert forall|r: int|
            0 <= r < count && divisor[routes[r].divisor as int].rows > 0 && output[r].cols
                > 0 implies jobs.contains(#[trigger] routes[r]) by {
            if r < count - 1 {
                assert(before.contains(routes[r]));
                let k = choose|k: int| 0 <= k < before.len() && before[k] == routes[r];
                assert(jobs[k] == routes[r]);
            } else {
                assert(jobs[jobs.len() - 1] == routes[r]);
            }
        }
    }
}

/// The solution of `divisor * x = rhs` solves it in every sector: the divisor's
/// matrix times the solution's is the right-hand side's.
pub proof fn lemma_solution_solves_sectors<
    D,
    F: Fn(&[D], usize, &[D], usize) -> Result<Vec<D>, OperationError>,
>(
    ring: Ring<D>,
    elements: Vec<D>,
    divisor: MapSpace,
    divisor_data: Seq<D>,
    rhs: MapSpace,
    rhs_data: Seq<D>,
    output: MapSpace,
    solve: F,
    by: int,
    side: int,
    to: int,
)
    requires
        solves_exactly(ring, solve),
        divisor.regions is Some && rhs.regions is Some && output.regions is Some,
        divisor_data.len() <= usize::MAX,
        rhs_data.len() <= usize::MAX,
        divisor.regions->0@.len() <= usize::MAX,
        rhs.regions->0@.len() <= usize::MAX,
        output.regions->0@.len() <= usize::MAX,
        solve_left_plan(
            divisor,
            rhs,
            output,
            divisor_data.len() as usize,
            rhs_data.len() as usize,
        ) is Ok,
        regions_solved(
            Ok(elements),
            solve_left_plan(
                divisor,
                rhs,
                output,
                divisor_data.len() as usize,
                rhs_data.len() as usize,
            )->Ok_0,
            divisor.regions->0@,
            divisor_data,
            rhs.regions->0@,
            rhs_data,
            output.regions->0@,
            output.structure.spec_len(),
            ring.zero,
            solve,
        ),
        regions_hold(output.regions->0@),
        regions_disjoint(output.regions->0@),
        forall|k: int|
            0 <= k < output.regions->0@.len() ==> (#[trigger] output.regions->0@[k]).end
                <= output.structure.spec_len(),
        sectors_distinct(geometries(divisor.regions->0@)),
        sectors_distinct(geometries(rhs.regions->0@)),
        0 <= by < divisor.regions->0@.len(),
        0 <= side < rhs.regions->0@.len(),
        0 <= to < output.regions->0@.len(),
        divisor.regions->0@[by].coupled == output.regions->0@[to].coupled,
        rhs.regions->0@[side].coupled == output.regions->0@[to].coupled,
        output.regions->0@[to].rows > 0,
        output.regions->0@[to].cols > 0,
    ensures
        ring.mul(
            region_of(divisor_data, divisor.regions->0@[by]),
            region_of(elements@, output.regions->0@[to]),
        ) == region_of(rhs_data, rhs.regions->0@[side]),
{
    let a = divisor.regions->0@;
    let b = rhs.regions->0@;
    let x = output.regions->0@;
    let len = output.structure.spec_len();
    lemma_solve_routes_match(
        a,
        b,
        x,
        divisor_data.len() as usize,
        rhs_data.len() as usize,
        len,
    );
    let routes = solve_left_routes(
        a,
        b,
        x,
        divisor_data.len() as usize,
        rhs_data.len() as usize,
        len,
    )->Ok_0;
    let route = routes[to];
    assert(solves(a[route.divisor as int], b[route.rhs as int], x[to]));
    lemma_region_of_sector(a, route.divisor as int, by);
    lemma_region_of_sector(b, route.rhs as int, side);
    let jobs = filled_solves(routes, a, x, routes.len() as int);
    lemma_solve_jobs(routes, a, x, routes.len() as int);
    let images = choose|images: Seq<Vec<D>>|
        {
            &&& #[trigger] solutions_of(images, jobs, a, divisor_data, b, rhs_data, solve)
            &&& images.len() == jobs.len()
            &&& elements@ == region_images(
                zeros(ring.zero, len as int),
                solve_outputs(jobs),
                images,
                x,
                jobs.len() as int,
            )
        };
    let outputs = solve_outputs(jobs);
    assert(jobs.contains(routes[to]));
    let k = choose|k: int| 0 <= k < jobs.len() && jobs[k] == routes[to];
    assert(images_fit(outputs, images, x, len as int)) by {
        assert forall|m: int| 0 <= m < outputs.len() implies {
            &&& (#[trigger] outputs[m]) < x.len()
            &&& x[outputs[m] as int].start + images[m]@.len() == x[outputs[m] as int].end
            &&& x[outputs[m] as int].end <= len
        } by {
            let job = jobs[m];
            let o = job.output as int;
            assert(job == routes[o]);
            assert(solves(a[job.divisor as int], b[job.rhs as int], x[o]));
            assert(solves_job(job, a, divisor_data, b, rhs_data, solve, Ok(images[m])));
            let (p, q) = choose|p: &[D], q: &[D]|
                p@ == region_matrix(divisor_data, a[job.divisor as int]) && q@ == region_matrix(
                    rhs_data,
                    b[job.rhs as int],
                ) && #[trigger] call_ensures(
                    solve,
                    (p, a[job.divisor as int].rows, q, b[job.rhs as int].cols),
                    Ok::<Vec<D>, OperationError>(images[m]),
                );
            assert(x[o].start + x[o].rows * x[o].cols == x[o].end);
        }
    }
    assert(regions_apart(outputs, x)) by {
        assert forall|m: int, n: int| 0 <= m < n < outputs.len() implies {
            let p = x[(#[trigger] outputs[m]) as int];
            let q = x[(#[trigger] outputs[n]) as int];
            p.end <= q.start || q.end <= p.start
        } by {
            assert(jobs[m].output < jobs[n].output);
        }
    }
    lemma_region_images_read_back(
        zeros(ring.zero, len as int),
        outputs,
        images,
        x,
        jobs.len() as int,
        k,
    );
    assert(outputs[k] == to);
    assert(solves_job(jobs[k], a, divisor_data, b, rhs_data, solve, Ok(images[k])));
    let (p, q) = choose|p: &[D], q: &[D]|
        p@ == region_matrix(divisor_data, a[by]) && q@ == region_matrix(rhs_data, b[side])
            && #[trigger] call_ensures(
            solve,
            (p, a[by].rows, q, b[side].cols),
            Ok::<Vec<D>, OperationError>(images[k]),
        );
}

/// The singular values of a sector as scalars.
pub open spec fn as_scalars<D, V>(values: Seq<V>, to_scalar: spec_fn(V) -> D) -> Seq<D> {
    values.map_values(to_scalar)
}

/// SVDs that the backend gives are SVDs.
pub open spec fn decomposes_exactly<
    D,
    V,
    F: Fn(&[D], usize, usize) -> Result<SvdStage<D, V>, OperationError>,
>(ring: Ring<D>, svd: F, to_scalar: spec_fn(V) -> D) -> bool {
    forall|x: &[D], rows: usize, cols: usize, stage: SvdStage<D, V>| #[trigger]
        call_ensures(
            svd,
            (x, rows, cols),
            Ok::<SvdStage<D, V>, OperationError>(stage),
        ) ==> is_svd_of(
            ring,
            matrix(rows as int, cols as int, x@),
            matrix(rows as int, smaller(rows, cols) as int, stage.u@),
            as_scalars(stage.values@, to_scalar),
            matrix(smaller(rows, cols) as int, cols as int, stage.vt@),
        )
}

/// The factors of all sectors are the reciprocals of their own singular values.
pub open spec fn gives_reciprocals<D, V, R: Fn(&Vec<Vec<V>>) -> Vec<Vec<D>>>(
    ring: Ring<D>,
    reciprocals: R,
    to_scalar: spec_fn(V) -> D,
) -> bool {
    forall|spectra: &Vec<Vec<V>>, found: Vec<Vec<D>>| #[trigger]
        call_ensures(reciprocals, (spectra,), found) ==> {
            &&& found@.len() == spectra@.len()
            &&& forall|k: int|
                0 <= k < found@.len() ==> are_real(ring, (#[trigger] found@[k])@)
                    && are_reciprocals(ring, as_scalars(spectra@[k]@, to_scalar), found@[k]@)
        }
}

/// The pseudo-inverse of a tensor is the pseudo-inverse of every sector: the two
/// matrices that a sector has in both tensors solve the four equations that
/// define it.
pub proof fn lemma_pinv_inverts_sectors<
    D,
    V,
    F: Fn(&[D], usize, usize) -> Result<SvdStage<D, V>, OperationError>,
    R: Fn(&Vec<Vec<V>>) -> Vec<Vec<D>>,
    C: Fn(D) -> D,
    G: Fn(D, D) -> D,
    M: Fn(&[D], usize, usize, &[D], usize) -> Result<Vec<D>, OperationError>,
>(
    ring: Ring<D>,
    to_scalar: spec_fn(V) -> D,
    elements: Vec<D>,
    source: MapSpace,
    data: Seq<D>,
    output: MapSpace,
    svd: F,
    reciprocals: R,
    conjugate: C,
    multiply: G,
    matmul: M,
    i: int,
    j: int,
)
    requires
        ring.is_ring(),
        conjugates_in(ring, conjugate),
        multiplies_in(ring, multiply),
        multiplies_exactly(ring, matmul),
        decomposes_exactly(ring, svd, to_scalar),
        gives_reciprocals(ring, reciprocals, to_scalar),
        data.len() <= usize::MAX,
        source.regions is Some ==> source.regions->0@.len() <= usize::MAX,
        output.regions is Some ==> output.regions->0@.len() <= usize::MAX,
        pinv_plan(source, output, data.len() as usize) is Ok,
        regions_inverted(
            Ok(elements),
            pinv_plan(source, output, data.len() as usize)->Ok_0,
            source.regions->0@,
            data,
            output.regions->0@,
            output.structure.spec_len(),
            ring.zero,
            svd,
            reciprocals,
            conjugate,
            multiply,
            matmul,
        ),
        regions_hold(source.regions->0@),
        regions_hold(output.regions->0@),
        regions_disjoint(output.regions->0@),
        0 <= i < source.regions->0@.len(),
        0 <= j < output.regions->0@.len(),
        source.regions->0@[i].coupled == output.regions->0@[j].coupled,
        source.regions->0@[i].rows > 0,
        source.regions->0@[i].cols > 0,
    ensures
        is_pseudo_inverse(
            ring,
            region_of(data, source.regions->0@[i]),
            region_of(elements@, output.regions->0@[j]),
        ),
{
    let from = source.regions->0@;
    let to = output.regions->0@;
    let len = output.structure.spec_len();
    let data_len = data.len() as usize;
    let routes = pinv_plan(source, output, data_len)->Ok_0;
    lemma_pinv_routes_transpose(from, to, data_len, len);
    lemma_canonical_regions_distinct(geometries(from));
    lemma_canonical_regions_distinct(geometries(to));
    lemma_routes_one_to_one(routes, from, to, data_len, len);
    lemma_jobs_hold(routes, from, to, data_len, len);
    lemma_jobs_distinct(routes, from, routes.len() as int);
    let jobs = filled_routes(routes, from, routes.len() as int);
    let stages = choose|stages: Seq<SvdStage<D, V>>|
        {
            &&& #[trigger] stages_of(stages, jobs, from, data, svd)
            &&& stages.len() >= jobs.len()
            &&& crate::pinv_drive::stages_inverted(
                Ok(elements),
                jobs,
                from,
                stages,
                to,
                len,
                ring.zero,
                reciprocals,
                conjugate,
                multiply,
                matmul,
            )
        };
    let (spectra, factors, images) = choose|
        spectra: Vec<Vec<V>>,
        factors: Vec<Vec<D>>,
        images: Seq<Vec<D>>,
    |
        {
            &&& spectra_of(spectra@, stages)
            &&& #[trigger] call_ensures(reciprocals, (&spectra,), factors)
            &&& #[trigger] inverted(
                images,
                jobs,
                from,
                stages,
                factors@,
                conjugate,
                multiply,
                matmul,
            )
            &&& images.len() == jobs.len()
            &&& elements@ == region_images(
                zeros(ring.zero, len as int),
                route_outputs(jobs),
                images,
                to,
                jobs.len() as int,
            )
        };
    let outputs = route_outputs(jobs);
    assert forall|k: int| 0 <= k < jobs.len() implies is_pseudo_inverse(
        ring,
        region_of(data, from[(#[trigger] jobs[k]).source as int]),
        matrix(
            from[jobs[k].source as int].cols as int,
            from[jobs[k].source as int].rows as int,
            images[k]@,
        ),
    ) && images[k]@.len() == from[jobs[k].source as int].cols * from[jobs[k].source as int].rows by {
        let region = from[jobs[k].source as int];
        assert(factors_to(
            svd,
            region_matrix(data, region),
            region.rows,
            region.cols,
            Ok(stages[k]),
        ));
        let x = choose|x: &[D]|
            x@ == region_matrix(data, region) && #[trigger] call_ensures(
                svd,
                (x, region.rows, region.cols),
                Ok::<SvdStage<D, V>, OperationError>(stages[k]),
            );
        assert(spectra@[k] == stages[k].values);
        assert(are_real(ring, factors@[k]@));
        assert(inverts_sector(
            stages[k],
            factors@[k]@,
            region.rows,
            region.cols,
            conjugate,
            multiply,
            matmul,
            Ok(images[k]),
        ));
        lemma_inverted_sector_is_pseudo_inverse(
            ring,
            region_matrix(data, region),
            stages[k],
            as_scalars(stages[k].values@, to_scalar),
            factors@[k]@,
            region.rows,
            region.cols,
            conjugate,
            multiply,
            matmul,
            images[k],
        );
        lemma_product_cells(ring, matmul, stages[k], factors@[k]@, region.rows, region.cols, conjugate, multiply, images[k]);
    }
    assert(images_fit(outputs, images, to, len as int)) by {
        assert forall|k: int| 0 <= k < outputs.len() implies {
            &&& (#[trigger] outputs[k]) < to.len()
            &&& to[outputs[k] as int].start + images[k]@.len() == to[outputs[k] as int].end
            &&& to[outputs[k] as int].end <= len
        } by {
            assert(outputs[k] == jobs[k].output);
            assert(jobs[k].source < from.len());
        }
    }
    assert(regions_apart(outputs, to)) by {
        assert forall|m: int, n: int| 0 <= m < n < outputs.len() implies {
            let p = to[(#[trigger] outputs[m]) as int];
            let q = to[(#[trigger] outputs[n]) as int];
            p.end <= q.start || q.end <= p.start
        } by {
            assert(jobs[m].output != jobs[n].output);
            assert(jobs[m].output < to.len() && jobs[n].output < to.len());
        }
    }
    assert(routes[i].source == i);
    lemma_filled_route_is_job(routes, from, routes.len() as int, i);
    let k = choose|k: int| 0 <= k < jobs.len() && #[trigger] jobs[k] == routes[i];
    lemma_region_of_sector(to, routes[i].output as int, j);
    lemma_region_images_read_back(
        zeros(ring.zero, len as int),
        outputs,
        images,
        to,
        jobs.len() as int,
        k,
    );
    assert(outputs[k] == j);
}

/// The image of a sector has all its elements.
proof fn lemma_product_cells<
    D,
    V,
    C: Fn(D) -> D,
    G: Fn(D, D) -> D,
    M: Fn(&[D], usize, usize, &[D], usize) -> Result<Vec<D>, OperationError>,
>(
    ring: Ring<D>,
    matmul: M,
    stage: SvdStage<D, V>,
    factors: Seq<D>,
    rows: usize,
    cols: usize,
    conjugate: C,
    multiply: G,
    image: Vec<D>,
)
    requires
        multiplies_exactly(ring, matmul),
        inverts_sector(stage, factors, rows, cols, conjugate, multiply, matmul, Ok(image)),
    ensures
        image@.len() == cols * rows,
{
    let rank = smaller(rows, cols);
    let (x, y) = choose|x: &[D], y: &[D]| #[trigger]
        call_ensures(
            matmul,
            (x, cols, rank, y, rows),
            Ok::<Vec<D>, OperationError>(image),
        );
    let left = matrix(cols as int, rank as int, x@);
    let right = matrix(rank as int, rows as int, y@);
    assert(matrix(cols as int, rows as int, image@) == ring.mul(left, right));
    crate::ring::lemma_tabulated(
        cols as int,
        rows as int,
        |i: int, j: int|
            ring.total(|k: int| ring.product(left.at(i, k), right.at(k, j)), left.cols),
    );
}

/// The roots that are given square to the singular values.
pub open spec fn gives_square_roots<D, V, R: Fn(&Vec<V>) -> Vec<D>>(
    ring: Ring<D>,
    roots: R,
    to_scalar: spec_fn(V) -> D,
) -> bool {
    forall|values: &Vec<V>, found: Vec<D>| #[trigger]
        call_ensures(roots, (values,), found) ==> are_real(ring, found@) && are_roots(
            ring,
            as_scalars(values@, to_scalar),
            found@,
        )
}

/// The two factors of a tensor are its polar decomposition in every sector: the
/// isometry's matrix times the positive factor's, in the order that the
/// direction names, is the sector's matrix, and the positive factor is Hermitian.
pub proof fn lemma_polar_decomposes_sectors<
    D,
    V,
    F: Fn(&[D], usize, usize) -> Result<SvdStage<D, V>, OperationError>,
    R: Fn(&Vec<V>) -> Vec<D>,
    A: Fn(D, D) -> D,
    G: Fn(D, D) -> D,
    C: Fn(D) -> D,
    M: Fn(&[D], usize, usize, &[D], usize) -> Result<Vec<D>, OperationError>,
>(
    ring: Ring<D>,
    to_scalar: spec_fn(V) -> D,
    isometry: Vec<D>,
    positive: Vec<D>,
    source: MapSpace,
    data: Seq<D>,
    w: MapSpace,
    p: MapSpace,
    direction: PolarDirection,
    half: D,
    svd: F,
    roots: R,
    plus: A,
    multiply: G,
    conjugate: C,
    matmul: M,
    i: int,
    at_w: int,
    at_p: int,
)
    requires
        ring.is_ring(),
        adds_in(ring, plus),
        multiplies_in(ring, multiply),
        conjugates_in(ring, conjugate),
        multiplies_exactly(ring, matmul),
        decomposes_exactly(ring, svd, to_scalar),
        gives_square_roots(ring, roots, to_scalar),
        ring.conj(half) == half,
        ring.sum(half, half) == ring.one,
        data.len() <= usize::MAX,
        source.regions is Some ==> source.regions->0@.len() <= usize::MAX,
        w.regions is Some ==> w.regions->0@.len() <= usize::MAX,
        p.regions is Some ==> p.regions->0@.len() <= usize::MAX,
        polar_plan(source, w, p, data.len() as usize, direction) is Ok,
        regions_polarized(
            Ok::<(Vec<D>, Vec<D>), OperationError>((isometry, positive)),
            polar_plan(source, w, p, data.len() as usize, direction)->Ok_0,
            source.regions->0@,
            data,
            w.regions->0@,
            w.structure.spec_len(),
            p.regions->0@,
            p.structure.spec_len(),
            direction,
            ring.zero,
            half,
            svd,
            roots,
            plus,
            multiply,
            conjugate,
            matmul,
        ),
        regions_hold(source.regions->0@),
        regions_hold(w.regions->0@),
        regions_hold(p.regions->0@),
        regions_disjoint(w.regions->0@),
        regions_disjoint(p.regions->0@),
        0 <= i < source.regions->0@.len(),
        0 <= at_w < w.regions->0@.len(),
        0 <= at_p < p.regions->0@.len(),
        source.regions->0@[i].coupled == w.regions->0@[at_w].coupled,
        source.regions->0@[i].coupled == p.regions->0@[at_p].coupled,
    ensures
        is_polar_of(
            ring,
            region_of(data, source.regions->0@[i]),
            region_of(isometry@, w.regions->0@[at_w]),
            region_of(positive@, p.regions->0@[at_p]),
            direction,
        ),
{
    let from = source.regions->0@;
    let to_w = w.regions->0@;
    let to_p = p.regions->0@;
    let w_len = w.structure.spec_len();
    let p_len = p.structure.spec_len();
    let data_len = data.len() as usize;
    let routes = polar_plan(source, w, p, data_len, direction)->Ok_0;
    lemma_polar_routes_preserve_layout(from, to_w, to_p, data_len, w_len, p_len, direction);
    lemma_routes_hold(from, to_w, to_p, data_len, w_len, p_len, direction);
    lemma_canonical_regions_distinct(geometries(from));
    lemma_canonical_regions_distinct(geometries(to_w));
    lemma_canonical_regions_distinct(geometries(to_p));
    let stages = choose|stages: Seq<SvdStage<D, V>>|
        {
            &&& #[trigger] polar_stages(stages, routes, from, data, svd)
            &&& stages.len() >= routes.len()
            &&& crate::polar_drive::stages_polarized(
                Ok::<(Vec<D>, Vec<D>), OperationError>((isometry, positive)),
                stages,
                routes,
                from,
                to_w,
                w_len,
                to_p,
                p_len,
                direction,
                ring.zero,
                half,
                roots,
                plus,
                multiply,
                conjugate,
                matmul,
            )
        };
    let (firsts, seconds) = choose|firsts: Seq<Vec<D>>, seconds: Seq<Vec<D>>|
        {
            &&& #[trigger] polar_images(
                firsts,
                seconds,
                stages,
                routes,
                from,
                direction,
                half,
                roots,
                plus,
                multiply,
                conjugate,
                matmul,
            )
            &&& firsts.len() == routes.len()
            &&& isometry@ == region_images(
                zeros(ring.zero, w_len as int),
                polar_w(routes),
                firsts,
                to_w,
                routes.len() as int,
            )
            &&& positive@ == region_images(
                zeros(ring.zero, p_len as int),
                polar_p(routes),
                seconds,
                to_p,
                routes.len() as int,
            )
        };
    assert forall|k: int| 0 <= k < routes.len() implies {
        let region = from[(#[trigger] routes[k]).source as int];
        let order = positive_order(region.rows, region.cols, direction) as int;
        &&& is_polar_of(
            ring,
            region_of(data, region),
            matrix(region.rows as int, region.cols as int, firsts[k]@),
            matrix(order, order, seconds[k]@),
            direction,
        )
        &&& firsts[k]@.len() == region.rows * region.cols
        &&& seconds[k]@.len() == order * order
    } by {
        let region = from[routes[k].source as int];
        assert(factors_to(
            svd,
            region_matrix(data, region),
            region.rows,
            region.cols,
            Ok(stages[k]),
        ));
        let x = choose|x: &[D]|
            x@ == region_matrix(data, region) && #[trigger] call_ensures(
                svd,
                (x, region.rows, region.cols),
                Ok::<SvdStage<D, V>, OperationError>(stages[k]),
            );
        assert(polar_stage(
            Ok((firsts[k], seconds[k])),
            stages[k],
            region,
            direction,
            half,
            roots,
            plus,
            multiply,
            conjugate,
            matmul,
        ));
        let found = choose|found: Vec<D>|
            {
                &&& #[trigger] call_ensures(roots, (&stages[k].values,), found)
                &&& polar_factors(
                    Ok::<(Vec<D>, Vec<D>), OperationError>((firsts[k], seconds[k])),
                    stages[k],
                    region.rows,
                    region.cols,
                    found@,
                    direction,
                    half,
                    plus,
                    multiply,
                    conjugate,
                    matmul,
                )
            };
        lemma_polar_factors_multiply_to_sector(
            ring,
            region_matrix(data, region),
            stages[k],
            as_scalars(stages[k].values@, to_scalar),
            region.rows,
            region.cols,
            found@,
            direction,
            half,
            plus,
            multiply,
            conjugate,
            matmul,
            firsts[k],
            seconds[k],
        );
    }
    let w_outputs = polar_w(routes);
    let p_outputs = polar_p(routes);
    assert(images_fit(w_outputs, firsts, to_w, w_len as int)) by {
        assert forall|k: int| 0 <= k < w_outputs.len() implies {
            &&& (#[trigger] w_outputs[k]) < to_w.len()
            &&& to_w[w_outputs[k] as int].start + firsts[k]@.len()
                == to_w[w_outputs[k] as int].end
            &&& to_w[w_outputs[k] as int].end <= w_len
        } by {
            assert(w_outputs[k] == routes[k].w);
        }
    }
    assert(images_fit(p_outputs, seconds, to_p, p_len as int)) by {
        assert forall|k: int| 0 <= k < p_outputs.len() implies {
            &&& (#[trigger] p_outputs[k]) < to_p.len()
            &&& to_p[p_outputs[k] as int].start + seconds[k]@.len()
                == to_p[p_outputs[k] as int].end
            &&& to_p[p_outputs[k] as int].end <= p_len
        } by {
            assert(p_outputs[k] == routes[k].p);
        }
    }
    assert forall|m: int, n: int| 0 <= m < n < routes.len() implies (#[trigger] routes[m]).w
        != (#[trigger] routes[n]).w && routes[m].p != routes[n].p by {
        assert(to_w[routes[m].w as int].geometry() == from[m].geometry());
        assert(to_w[routes[n].w as int].geometry() == from[n].geometry());
        assert(to_p[routes[m].p as int].geometry().sector == from[m].geometry().sector);
        assert(to_p[routes[n].p as int].geometry().sector == from[n].geometry().sector);
        assert(geometries(from)[m].sector != geometries(from)[n].sector);
    }
    assert(regions_apart(w_outputs, to_w)) by {
        assert forall|m: int, n: int| 0 <= m < n < w_outputs.len() implies {
            let a = to_w[(#[trigger] w_outputs[m]) as int];
            let b = to_w[(#[trigger] w_outputs[n]) as int];
            a.end <= b.start || b.end <= a.start
        } by {
            assert(routes[m].w != routes[n].w);
        }
    }
    assert(regions_apart(p_outputs, to_p)) by {
        assert forall|m: int, n: int| 0 <= m < n < p_outputs.len() implies {
            let a = to_p[(#[trigger] p_outputs[m]) as int];
            let b = to_p[(#[trigger] p_outputs[n]) as int];
            a.end <= b.start || b.end <= a.start
        } by {
            assert(routes[m].p != routes[n].p);
        }
    }
    assert(routes[i].source == i);
    assert(to_w[routes[i].w as int].geometry() == from[i].geometry());
    lemma_region_of_sector(to_w, routes[i].w as int, at_w);
    lemma_region_of_sector(to_p, routes[i].p as int, at_p);
    lemma_region_images_read_back(
        zeros(ring.zero, w_len as int),
        w_outputs,
        firsts,
        to_w,
        routes.len() as int,
        i,
    );
    lemma_region_images_read_back(
        zeros(ring.zero, p_len as int),
        p_outputs,
        seconds,
        to_p,
        routes.len() as int,
        i,
    );
    assert(w_outputs[i] == at_w);
    assert(p_outputs[i] == at_p);
}

} // verus!
