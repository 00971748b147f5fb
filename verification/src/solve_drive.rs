//! Left solves, sector by sector.

use vstd::prelude::*;

use crate::dense_calls::{is_solver, solves_to};
use crate::error::OperationError;
use crate::geometry::{geometries, lemma_sector_position, CoupledSectorRegion};
use crate::outcome::lemma_all_ok_values;
use crate::publish::zeros;
use crate::route_laws::{lemma_solve_routes_match, solves};
use crate::sector_drive::{region_matrix, regions_hold};
use crate::sector_solve::{
    filled_solves, images_fit, plan_solve_left, publish_region_images, region_images,
    solve_left_jobs, solve_left_plan,
};
use crate::solve_routes::{solve_left_route, solve_left_routes, SolveLeftSectorRoute};
use crate::space::MapSpace;

verus! {

/// The output regions that the jobs fill.
pub open spec fn solve_outputs(jobs: Seq<SolveLeftSectorRoute>) -> Seq<usize> {
    jobs.map_values(|job: SolveLeftSectorRoute| job.output)
}

/// The solver may answer for one job in this way.
pub open spec fn solves_job<D, F: Fn(&[D], usize, &[D], usize) -> Result<Vec<D>, OperationError>>(
    job: SolveLeftSectorRoute,
    divisor: Seq<CoupledSectorRegion>,
    divisor_data: Seq<D>,
    rhs: Seq<CoupledSectorRegion>,
    rhs_data: Seq<D>,
    solve: F,
    answer: Result<Vec<D>, OperationError>,
) -> bool {
    solves_to(
        solve,
        region_matrix(divisor_data, divisor[job.divisor as int]),
        divisor[job.divisor as int].rows,
        region_matrix(rhs_data, rhs[job.rhs as int]),
        rhs[job.rhs as int].cols,
        answer,
    )
}

/// The solutions of the first jobs, in order.
pub open spec fn solutions_of<
    D,
    F: Fn(&[D], usize, &[D], usize) -> Result<Vec<D>, OperationError>,
>(
    images: Seq<Vec<D>>,
    jobs: Seq<SolveLeftSectorRoute>,
    divisor: Seq<CoupledSectorRegion>,
    divisor_data: Seq<D>,
    rhs: Seq<CoupledSectorRegion>,
    rhs_data: Seq<D>,
    solve: F,
) -> bool {
    &&& images.len() <= jobs.len()
    &&& forall|k: int|
        0 <= k < images.len() ==> solves_job(
            jobs[k],
            divisor,
            divisor_data,
            rhs,
            rhs_data,
            solve,
            Ok(#[trigger] images[k]),
        )
}

/// Every sector with elements is solved, in the order of the output, and its
/// solution is written to its output region; the first failure ends the work.
pub open spec fn regions_solved<
    D,
    F: Fn(&[D], usize, &[D], usize) -> Result<Vec<D>, OperationError>,
>(
    result: Result<Vec<D>, OperationError>,
    routes: Seq<SolveLeftSectorRoute>,
    divisor: Seq<CoupledSectorRegion>,
    divisor_data: Seq<D>,
    rhs: Seq<CoupledSectorRegion>,
    rhs_data: Seq<D>,
    output: Seq<CoupledSectorRegion>,
    output_len: usize,
    zero: D,
    solve: F,
) -> bool {
    let jobs = filled_solves(routes, divisor, output, routes.len() as int);
    exists|images: Seq<Vec<D>>|
        {
            &&& #[trigger] solutions_of(
                images,
                jobs,
                divisor,
                divisor_data,
                rhs,
                rhs_data,
                solve,
            )
            &&& match result {
                Ok(elements) => images.len() == jobs.len() && elements@ == region_images(
                    zeros(zero, output_len as int),
                    solve_outputs(jobs),
                    images,
                    output,
                    jobs.len() as int,
                ),
                Err(_) => images.len() < jobs.len() && solves_job(
                    jobs[images.len() as int],
                    divisor,
                    divisor_data,
                    rhs,
                    rhs_data,
                    solve,
                    result,
                ),
            }
        }
}

/// A route joins three regions of one sector that lie inside their buffers.
spec fn route_holds(
    route: SolveLeftSectorRoute,
    divisor: Seq<CoupledSectorRegion>,
    rhs: Seq<CoupledSectorRegion>,
    output: Seq<CoupledSectorRegion>,
    divisor_len: usize,
    rhs_len: usize,
    output_len: usize,
) -> bool {
    &&& route.divisor < divisor.len()
    &&& route.rhs < rhs.len()
    &&& route.output < output.len()
    &&& solves(
        divisor[route.divisor as int],
        rhs[route.rhs as int],
        output[route.output as int],
    )
    &&& divisor[route.divisor as int].end <= divisor_len
    &&& rhs[route.rhs as int].end <= rhs_len
    &&& output[route.output as int].end <= output_len
}

proof fn lemma_routes_hold(
    divisor: Seq<CoupledSectorRegion>,
    rhs: Seq<CoupledSectorRegion>,
    output: Seq<CoupledSectorRegion>,
    divisor_len: usize,
    rhs_len: usize,
    output_len: usize,
)
    requires
        divisor.len() <= usize::MAX,
        rhs.len() <= usize::MAX,
        output.len() <= usize::MAX,
        solve_left_routes(divisor, rhs, output, divisor_len, rhs_len, output_len) is Ok,
    ensures
        ({
            let routes = solve_left_routes(
                divisor,
                rhs,
                output,
                divisor_len,
                rhs_len,
                output_len,
            )->Ok_0;
            forall|k: int|
                0 <= k < routes.len() ==> route_holds(
                    #[trigger] routes[k],
                    divisor,
                    rhs,
                    output,
                    divisor_len,
                    rhs_len,
                    output_len,
                )
        }),
{
    lemma_solve_routes_match(divisor, rhs, output, divisor_len, rhs_len, output_len);
    let outcomes = Seq::new(
        output.len(),
        |k: int| solve_left_route(divisor, rhs, output, divisor_len, rhs_len, output_len, k),
    );
    lemma_all_ok_values(outcomes);
    let routes = solve_left_routes(
        divisor,
        rhs,
        output,
        divisor_len,
        rhs_len,
        output_len,
    )->Ok_0;
    assert forall|k: int| 0 <= k < routes.len() implies route_holds(
        #[trigger] routes[k],
        divisor,
        rhs,
        output,
        divisor_len,
        rhs_len,
        output_len,
    ) by {
        lemma_sector_position(geometries(divisor), output[k].coupled, 0);
        lemma_sector_position(geometries(rhs), output[k].coupled, 0);
        assert(outcomes[k] == Ok::<SolveLeftSectorRoute, OperationError>(routes[k]));
    }
}

/// Jobs are routes.
proof fn lemma_jobs_hold(
    routes: Seq<SolveLeftSectorRoute>,
    divisor: Seq<CoupledSectorRegion>,
    rhs: Seq<CoupledSectorRegion>,
    output: Seq<CoupledSectorRegion>,
    divisor_len: usize,
    rhs_len: usize,
    output_len: usize,
    count: int,
)
    requires
        0 <= count <= routes.len(),
        forall|k: int|
            0 <= k < routes.len() ==> route_holds(
                #[trigger] routes[k],
                divisor,
                rhs,
                output,
                divisor_len,
                rhs_len,
                output_len,
            ),
    ensures
        forall|k: int|
            #![trigger filled_solves(routes, divisor, output, count)[k]]
            0 <= k < filled_solves(routes, divisor, output, count).len() ==> route_holds(
                filled_solves(routes, divisor, output, count)[k],
                divisor,
                rhs,
                output,
                divisor_len,
                rhs_len,
                output_len,
            ),
    decreases count,
{
    if count > 0 {
        lemma_jobs_hold(
            routes,
            divisor,
            rhs,
            output,
            divisor_len,
            rhs_len,
            output_len,
            count - 1,
        );
        let before = filled_solves(routes, divisor, output, count - 1);
        let jobs = filled_solves(routes, divisor, output, count);
        assert forall|k: int| 0 <= k < jobs.len() implies route_holds(
            #[trigger] jobs[k],
            divisor,
            rhs,
            output,
            divisor_len,
            rhs_len,
            output_len,
        ) by {
            if k < before.len() {
                assert(jobs[k] == before[k]);
            } else {
                assert(jobs[k] == routes[count - 1]);
            }
        }
    }
}

/// Solves all routed sectors.
fn solve_regions<
    D: Copy,
    F: Fn(&[D], usize, &[D], usize) -> Result<Vec<D>, OperationError>,
>(
    routes: &[SolveLeftSectorRoute],
    divisor: &[CoupledSectorRegion],
    divisor_data: &[D],
    rhs: &[CoupledSectorRegion],
    rhs_data: &[D],
    output: &[CoupledSectorRegion],
    output_len: usize,
    zero: D,
    solve: &F,
) -> (result: Result<Vec<D>, OperationError>)
    requires
        forall|k: int|
            0 <= k < routes@.len() ==> route_holds(
                #[trigger] routes@[k],
                divisor@,
                rhs@,
                output@,
                divisor_data@.len() as usize,
                rhs_data@.len() as usize,
                output_len,
            ),
        regions_hold(divisor@),
        regions_hold(rhs@),
        regions_hold(output@),
        is_solver(solve),
    ensures
        regions_solved(
            result,
            routes@,
            divisor@,
            divisor_data@,
            rhs@,
            rhs_data@,
            output@,
            output_len,
            zero,
            solve,
        ),
{
    let divisor_len: usize = divisor_data.len();
    let rhs_len: usize = rhs_data.len();
    assert forall|k: int| 0 <= k < routes@.len() implies (#[trigger] routes@[k]).divisor
        < divisor@.len() && routes@[k].output < output@.len() by {
        assert(route_holds(
            routes@[k],
            divisor@,
            rhs@,
            output@,
            divisor_len,
            rhs_len,
            output_len,
        ));
    }
    let jobs = solve_left_jobs(routes, divisor, output);
    proof {
        lemma_jobs_hold(
            routes@,
            divisor@,
            rhs@,
            output@,
            divisor_len,
            rhs_len,
            output_len,
            routes@.len() as int,
        );
    }
    let mut outputs: Vec<usize> = Vec::with_capacity(jobs.len());
    let mut images: Vec<Vec<D>> = Vec::with_capacity(jobs.len());
    let mut k: usize = 0;
    while k < jobs.len()
        invariant
            k <= jobs@.len(),
            divisor_len == divisor_data@.len(),
            rhs_len == rhs_data@.len(),
            forall|k: int|
                0 <= k < jobs@.len() ==> route_holds(
                    #[trigger] jobs@[k],
                    divisor@,
                    rhs@,
                    output@,
                    divisor_len,
                    rhs_len,
                    output_len,
                ),
            regions_hold(divisor@),
            regions_hold(rhs@),
            regions_hold(output@),
            is_solver(solve),
            jobs@ == filled_solves(routes@, divisor@, output@, routes@.len() as int),
            outputs@ == solve_outputs(jobs@).take(k as int),
            images@.len() == k,
            solutions_of(
                images@,
                jobs@,
                divisor@,
                divisor_data@,
                rhs@,
                rhs_data@,
                solve,
            ),
            images_fit(outputs@, images@, output@, output_len as int),
        decreases jobs.len() - k,
    {
        let job = jobs[k];
        assert(route_holds(
            jobs@[k as int],
            divisor@,
            rhs@,
            output@,
            divisor_len,
            rhs_len,
            output_len,
        ));
        let by = &divisor[job.divisor];
        let right = &rhs[job.rhs];
        proof {
            assert(divisor@[job.divisor as int] == *by);
            assert(rhs@[job.rhs as int] == *right);
            let to = output@[job.output as int];
            assert(to.start + to.rows * to.cols == to.end);
            assert(by.start + by.rows * by.cols == by.end);
            assert(right.start + right.rows * right.cols == right.end);
        }
        let x = vstd::slice::slice_subrange(divisor_data, by.start, by.end);
        let y = vstd::slice::slice_subrange(rhs_data, right.start, right.end);
        let answer = solve(x, by.rows, y, right.cols);
        proof {
            assert(call_ensures(solve, (x, by.rows, y, right.cols), answer));
            assert(solves_job(
                job,
                divisor@,
                divisor_data@,
                rhs@,
                rhs_data@,
                solve,
                answer,
            ));
        }
        match answer {
            Err(error) => {
                assert(solutions_of(
                    images@,
                    jobs@,
                    divisor@,
                    divisor_data@,
                    rhs@,
                    rhs_data@,
                    solve,
                ));
                return Err(error);
            },
            Ok(image) => {
                assert(call_ensures(
                    solve,
                    (x, by.rows, y, right.cols),
                    Ok::<Vec<D>, OperationError>(image),
                ));
                let ghost before = images@;
                images.push(image);
                outputs.push(job.output);
                proof {
                    assert(outputs@ =~= solve_outputs(jobs@).take(k + 1));
                    assert forall|j: int| 0 <= j < images@.len() implies solves_job(
                        jobs@[j],
                        divisor@,
                        divisor_data@,
                        rhs@,
                        rhs_data@,
                        solve,
                        Ok(#[trigger] images@[j]),
                    ) by {
                        if j < k {
                            assert(images@[j] == before[j]);
                        }
                    }
                }
            },
        }
        k += 1;
    }
    assert(outputs@ =~= solve_outputs(jobs@));
    let elements = publish_region_images(
        outputs.as_slice(),
        images.as_slice(),
        output,
        output_len,
        zero,
    );
    assert(solutions_of(
        images@,
        jobs@,
        divisor@,
        divisor_data@,
        rhs@,
        rhs_data@,
        solve,
    ));
    Ok(elements)
}

/// The regions of a layout hold their matrices.
pub open spec fn holds_matrices(space: MapSpace) -> bool {
    space.regions is Some ==> regions_hold(space.regions->0@)
}

/// Solves `divisor * x = rhs` in every sector and publishes the solutions on
/// the output layout.
pub fn solve_left_by_sector_dyn_into<
    D: Copy,
    F: Fn(&[D], usize, &[D], usize) -> Result<Vec<D>, OperationError>,
>(
    divisor: &MapSpace,
    divisor_data: &[D],
    rhs: &MapSpace,
    rhs_data: &[D],
    output: &MapSpace,
    zero: D,
    solve: &F,
) -> (result: Result<Vec<D>, OperationError>)
    requires
        holds_matrices(*divisor),
        holds_matrices(*rhs),
        holds_matrices(*output),
        is_solver(solve),
    ensures
        match solve_left_plan(
            *divisor,
            *rhs,
            *output,
            divisor_data@.len() as usize,
            rhs_data@.len() as usize,
        ) {
            Err(error) => result == Err::<Vec<D>, OperationError>(error),
            Ok(routes) => regions_solved(
                result,
                routes,
                divisor.regions->0@,
                divisor_data@,
                rhs.regions->0@,
                rhs_data@,
                output.regions->0@,
                output.structure.spec_len(),
                zero,
                solve,
            ),
        },
{
    let divisor_len: usize = divisor_data.len();
    let rhs_len: usize = rhs_data.len();
    let routes = match plan_solve_left(divisor, rhs, output, divisor_len, rhs_len) {
        Err(error) => {
            return Err(error);
        },
        Ok(routes) => routes,
    };
    let by: &[CoupledSectorRegion] = match &divisor.regions {
        Some(regions) => regions.as_slice(),
        None => &[],
    };
    let side: &[CoupledSectorRegion] = match &rhs.regions {
        Some(regions) => regions.as_slice(),
        None => &[],
    };
    let to: &[CoupledSectorRegion] = match &output.regions {
        Some(regions) => regions.as_slice(),
        None => &[],
    };
    let counts: (usize, usize, usize) = (by.len(), side.len(), to.len());
    proof {
        lemma_routes_hold(
            by@,
            side@,
            to@,
            divisor_len,
            rhs_len,
            output.structure.spec_len(),
        );
        assert(counts.0 == by@.len() && counts.1 == side@.len() && counts.2 == to@.len());
    }
    solve_regions(
        routes.as_slice(),
        by,
        divisor_data,
        side,
        rhs_data,
        to,
        output.structure.required_len(),
        zero,
        solve,
    )
}

} // verus!
