//! What the published images of all sectors promise: every region holds its
//! image, and the rest is untouched.

use vstd::prelude::*;

use crate::dense::splice;
use crate::error::OperationError;
use crate::geometry::CoupledSectorRegion;
use crate::publish::zeros;
use crate::route_laws::{outputs_distinct, routes_transpose};
use crate::routes::{route_outputs, InverseSectorRoute};
use crate::sector_drive::{
    images_of, lemma_jobs_are_routes, region_matrix, regions_hold, regions_mapped,
};
use crate::sector_solve::{filled_routes, images_fit, region_images};

verus! {

/// The regions of different images do not overlap.
pub open spec fn regions_apart(outputs: Seq<usize>, regions: Seq<CoupledSectorRegion>) -> bool {
    forall|j: int, k: int|
        0 <= j < k < outputs.len() ==> {
            let a = regions[(#[trigger] outputs[j]) as int];
            let b = regions[(#[trigger] outputs[k]) as int];
            a.end <= b.start || b.end <= a.start
        }
}

/// Publishing images keeps the length of the data.
proof fn lemma_region_images_len<D>(
    data: Seq<D>,
    outputs: Seq<usize>,
    images: Seq<Vec<D>>,
    regions: Seq<CoupledSectorRegion>,
    count: int,
)
    requires
        0 <= count <= outputs.len(),
        images_fit(outputs, images, regions, data.len() as int),
    ensures
        region_images(data, outputs, images, regions, count).len() == data.len(),
    decreases count,
{
    if count > 0 {
        lemma_region_images_len(data, outputs, images, regions, count - 1);
        assert(outputs[count - 1] < regions.len());
    }
}

/// An element outside the regions of the first `count` images is untouched.
pub proof fn lemma_region_images_rest<D>(
    data: Seq<D>,
    outputs: Seq<usize>,
    images: Seq<Vec<D>>,
    regions: Seq<CoupledSectorRegion>,
    count: int,
    position: int,
)
    requires
        0 <= count <= outputs.len(),
        images_fit(outputs, images, regions, data.len() as int),
        0 <= position < data.len(),
        forall|k: int|
            0 <= k < count ==> !(regions[(#[trigger] outputs[k]) as int].start <= position
                < regions[outputs[k] as int].end),
    ensures
        region_images(data, outputs, images, regions, count)[position] == data[position],
    decreases count,
{
    if count > 0 {
        lemma_region_images_rest(data, outputs, images, regions, count - 1, position);
        lemma_region_images_len(data, outputs, images, regions, count - 1);
        assert(outputs[count - 1] < regions.len());
    }
}

/// Where the regions do not overlap, each of them holds exactly the image that
/// was published to it.
pub proof fn lemma_region_images_read_back<D>(
    data: Seq<D>,
    outputs: Seq<usize>,
    images: Seq<Vec<D>>,
    regions: Seq<CoupledSectorRegion>,
    count: int,
    k: int,
)
    requires
        0 <= k < count <= outputs.len(),
        images_fit(outputs, images, regions, data.len() as int),
        regions_apart(outputs, regions),
    ensures
        region_images(data, outputs, images, regions, count).subrange(
            regions[outputs[k] as int].start as int,
            regions[outputs[k] as int].end as int,
        ) == images[k]@,
    decreases count,
{
    let region = regions[outputs[k] as int];
    let before = region_images(data, outputs, images, regions, count - 1);
    let after = region_images(data, outputs, images, regions, count);
    lemma_region_images_len(data, outputs, images, regions, count - 1);
    lemma_region_images_len(data, outputs, images, regions, count);
    let last = regions[outputs[count - 1] as int];
    assert(outputs[k] < regions.len() && outputs[count - 1] < regions.len());
    assert(after == splice(before, last.start as int, images[count - 1]@));
    if k < count - 1 {
        lemma_region_images_read_back(data, outputs, images, regions, count - 1, k);
        assert(after.subrange(region.start as int, region.end as int) =~= before.subrange(
            region.start as int,
            region.end as int,
        ));
    } else {
        assert(after.subrange(region.start as int, region.end as int) =~= images[k]@);
    }
}

/// Jobs have different outputs where routes have.
pub(crate) proof fn lemma_jobs_distinct(
    routes: Seq<InverseSectorRoute>,
    source: Seq<CoupledSectorRegion>,
    count: int,
)
    requires
        0 <= count <= routes.len(),
        outputs_distinct(routes),
    ensures
        outputs_distinct(filled_routes(routes, source, count)),
    decreases count,
{
    if count > 0 {
        let before = filled_routes(routes, source, count - 1);
        let jobs = filled_routes(routes, source, count);
        lemma_jobs_distinct(routes, source, count - 1);
        assert forall|j: int, k: int| 0 <= j < k < jobs.len() implies (#[trigger] jobs[j]).output
            != (#[trigger] jobs[k]).output by {
            assert(jobs[j] == before[j]);
            if k < before.len() {
                assert(jobs[k] == before[k]);
            } else {
                lemma_jobs_are_routes(routes, source, count - 1, j);
                let i = choose|i: int|
                    0 <= i < count - 1 && before[j] == #[trigger] routes[i];
                assert(routes[i].output != routes[count - 1].output);
            }
        }
    }
}

/// No two regions overlap.
pub open spec fn regions_disjoint(regions: Seq<CoupledSectorRegion>) -> bool {
    forall|j: int, k: int|
        0 <= j < regions.len() && 0 <= k < regions.len() && j != k ==> (
        #[trigger] regions[j]).end <= (#[trigger] regions[k]).start || regions[k].end
            <= regions[j].start
}

/// Where all sectors were mapped, the output region of every sector with
/// elements holds an image that the function gave for the sector's own matrix.
pub proof fn lemma_mapped_regions_hold_images<D>(
    elements: Vec<D>,
    routes: Seq<InverseSectorRoute>,
    source: Seq<CoupledSectorRegion>,
    data: Seq<D>,
    output: Seq<CoupledSectorRegion>,
    output_len: usize,
    zero: D,
    answers: spec_fn(Seq<D>, usize, Result<Vec<D>, OperationError>) -> bool,
    k: int,
)
    requires
        data.len() <= usize::MAX,
        routes_transpose(routes, source, output, data.len() as usize, output_len),
        outputs_distinct(routes),
        forall|j: int| 0 <= j < source.len() ==> (#[trigger] source[j]).rows == source[j].cols,
        regions_hold(output),
        regions_disjoint(output),
        forall|matrix: Seq<D>, order: usize, image: Vec<D>| #[trigger]
            answers(matrix, order, Ok::<Vec<D>, OperationError>(image)) ==> image@.len() == order
                * order,
        regions_mapped(Ok(elements), routes, source, data, output, output_len, zero, answers),
        0 <= k < routes.len(),
        source[routes[k].source as int].rows > 0,
    ensures
        exists|image: Vec<D>|
            {
                &&& #[trigger] answers(
                    region_matrix(data, source[k]),
                    source[k].rows,
                    Ok::<Vec<D>, OperationError>(image),
                )
                &&& elements@.subrange(
                    output[routes[k].output as int].start as int,
                    output[routes[k].output as int].end as int,
                ) == image@
            },
{
    let jobs = filled_routes(routes, source, routes.len() as int);
    let images = choose|images: Seq<Vec<D>>|
        {
            &&& #[trigger] images_of(images, jobs, source, data, answers)
            &&& images.len() == jobs.len()
            &&& elements@ == region_images(
                zeros(zero, output_len as int),
                route_outputs(jobs),
                images,
                output,
                jobs.len() as int,
            )
        };
    let outputs = route_outputs(jobs);
    lemma_jobs_distinct(routes, source, routes.len() as int);
    assert forall|j: int| 0 <= j < jobs.len() implies {
        &&& (#[trigger] jobs[j]).output < output.len()
        &&& output[jobs[j].output as int].start + images[j]@.len()
            == output[jobs[j].output as int].end
        &&& output[jobs[j].output as int].end <= output_len
    } by {
        lemma_jobs_are_routes(routes, source, routes.len() as int, j);
        let i = choose|i: int| 0 <= i < routes.len() && jobs[j] == #[trigger] routes[i];
        assert(routes[i].source == i);
        let to = output[jobs[j].output as int];
        assert(to.start + to.rows * to.cols == to.end);
        assert(answers(
            region_matrix(data, source[jobs[j].source as int]),
            source[jobs[j].source as int].rows,
            Ok::<Vec<D>, OperationError>(images[j]),
        ));
    }
    assert(images_fit(outputs, images, output, output_len as int)) by {
        assert forall|j: int| 0 <= j < outputs.len() implies {
            &&& (#[trigger] outputs[j]) < output.len()
            &&& output[outputs[j] as int].start + images[j]@.len() == output[outputs[j] as int].end
            &&& output[outputs[j] as int].end <= output_len
        } by {
            assert(outputs[j] == jobs[j].output);
        }
    }
    assert forall|a: int, b: int| 0 <= a < b < outputs.len() implies {
        let x = output[(#[trigger] outputs[a]) as int];
        let y = output[(#[trigger] outputs[b]) as int];
        x.end <= y.start || y.end <= x.start
    } by {
        assert(jobs[a].output != jobs[b].output);
        assert(outputs[a] < output.len() && outputs[b] < output.len());
    }
    assert(routes[k].source == k);
    lemma_filled_route_is_job(routes, source, routes.len() as int, k);
    let j = choose|j: int| 0 <= j < jobs.len() && #[trigger] jobs[j] == routes[k];
    lemma_region_images_read_back(
        zeros(zero, output_len as int),
        outputs,
        images,
        output,
        jobs.len() as int,
        j,
    );
    assert(answers(
        region_matrix(data, source[jobs[j].source as int]),
        source[jobs[j].source as int].rows,
        Ok::<Vec<D>, OperationError>(images[j]),
    ));
}

/// A route whose source has elements is a job.
pub(crate) proof fn lemma_filled_route_is_job(
    routes: Seq<InverseSectorRoute>,
    source: Seq<CoupledSectorRegion>,
    count: int,
    k: int,
)
    requires
        0 <= k < count <= routes.len(),
        source[routes[k].source as int].rows > 0,
        source[routes[k].source as int].cols > 0,
    ensures
        exists|j: int|
            0 <= j < filled_routes(routes, source, count).len() && #[trigger] filled_routes(
                routes,
                source,
                count,
            )[j] == routes[k],
    decreases count,
{
    let jobs = filled_routes(routes, source, count);
    if k == count - 1 {
        assert(jobs[jobs.len() - 1] == routes[k]);
    } else {
        lemma_filled_route_is_job(routes, source, count - 1, k);
        let before = filled_routes(routes, source, count - 1);
        let j = choose|j: int| 0 <= j < before.len() && #[trigger] before[j] == routes[k];
        assert(jobs[j] == before[j]);
    }
}

} // verus!
