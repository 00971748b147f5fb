//! Sector-wise matrix functions: what every sector is asked for, and where its
//! image goes.

use vstd::prelude::*;

use crate::dense_calls::{is_solver, solves_to};
use crate::error::OperationError;
use crate::geometry::{
    geometries, lemma_sector_position, sector_position, span_position, CoupledSectorRegion,
    SectorGeometry, SectorMatricization, Span,
};
use crate::index::extent;
use crate::matricize::{
    geometry_stacked, lemma_stacking, matricized, sector_writes, stack_blocks, stackable,
};
use crate::outcome::lemma_all_ok_values;
use crate::publish::{scope, zeros};
use crate::route_laws::{
    leads_to_tree, lemma_basis_extents_match, lemma_inverse_routes_transpose, routes_transpose,
};
use crate::routes::{route_outputs, InverseSectorRoute};
use crate::sector_solve::{
    filled_routes, images_fit, largest_order, max_order, plan_matrix_function,
    plan_square_sectors, publish_region_images, publish_reordered_images, region_images,
    reordered_images, sector_jobs, square_planned, SquareOperation, SquarePlan,
};
use crate::solve_routes::{
    basis_extents, extent_fits_in, identity_matrix, identity_workspace, inverse_matrix_route,
    inverse_matrix_routes, matrix_routes, reorder_fits, InverseMatrixRoute, MatrixRoute,
};
use crate::space::MapSpace;
use crate::structure::Block;
use crate::writes::lemma_writes_len;

verus! {

/// The range of every region holds its matrix.
pub open spec fn regions_hold(regions: Seq<CoupledSectorRegion>) -> bool {
    forall|k: int|
        0 <= k < regions.len() ==> (#[trigger] regions[k]).start + regions[k].rows
            * regions[k].cols == regions[k].end
}

/// The function may answer for an `order x order` matrix in this way.
pub open spec fn maps_to_image<D, S, F: Fn(&S, &[D], usize) -> Result<Vec<D>, OperationError>>(
    apply: F,
    state: &S,
    matrix: Seq<D>,
    order: usize,
    answer: Result<Vec<D>, OperationError>,
) -> bool {
    exists|x: &[D]| x@ == matrix && #[trigger] call_ensures(apply, (state, x, order), answer)
}

/// The function takes any square matrix up to this order, and an image has all
/// its elements.
pub open spec fn is_square_map<D, S, F: Fn(&S, &[D], usize) -> Result<Vec<D>, OperationError>>(
    apply: F,
    state: &S,
    largest: usize,
) -> bool {
    &&& forall|x: &[D], order: usize|
        x@.len() == order * order && order <= largest ==> #[trigger] call_requires(
            apply,
            (state, x, order),
        )
    &&& forall|x: &[D], order: usize, image: Vec<D>| #[trigger]
        call_ensures(
            apply,
            (state, x, order),
            Ok::<Vec<D>, OperationError>(image),
        ) ==> image@.len() == order * order
}

/// What the function may answer.
pub open spec fn answers_of<D, S, F: Fn(&S, &[D], usize) -> Result<Vec<D>, OperationError>>(
    apply: F,
    state: &S,
) -> spec_fn(Seq<D>, usize, Result<Vec<D>, OperationError>) -> bool {
    |matrix: Seq<D>, order: usize, answer: Result<Vec<D>, OperationError>|
        maps_to_image(apply, state, matrix, order, answer)
}

/// The function answers in no other way.
spec fn answers_as<D, S, F: Fn(&S, &[D], usize) -> Result<Vec<D>, OperationError>>(
    apply: F,
    state: &S,
    answers: spec_fn(Seq<D>, usize, Result<Vec<D>, OperationError>) -> bool,
) -> bool {
    forall|x: &[D], order: usize, answer: Result<Vec<D>, OperationError>| #[trigger]
        call_ensures(apply, (state, x, order), answer) ==> answers(x@, order, answer)
}

/// The data of a region.
pub open spec fn region_matrix<D>(data: Seq<D>, region: CoupledSectorRegion) -> Seq<D> {
    data.subrange(region.start as int, region.end as int)
}

/// The images of the first sectors, in order.
pub open spec fn images_of<D>(
    images: Seq<Vec<D>>,
    jobs: Seq<InverseSectorRoute>,
    source: Seq<CoupledSectorRegion>,
    data: Seq<D>,
    answers: spec_fn(Seq<D>, usize, Result<Vec<D>, OperationError>) -> bool,
) -> bool {
    &&& images.len() <= jobs.len()
    &&& forall|k: int|
        0 <= k < images.len() ==> answers(
            region_matrix(data, source[jobs[k].source as int]),
            source[jobs[k].source as int].rows,
            Ok(#[trigger] images[k]),
        )
}

/// Every region with elements is mapped, in the order of the routes, and its
/// image is written to the output region of its sector; the first failure ends
/// the work.
pub open spec fn regions_mapped<D>(
    result: Result<Vec<D>, OperationError>,
    routes: Seq<InverseSectorRoute>,
    source: Seq<CoupledSectorRegion>,
    data: Seq<D>,
    output: Seq<CoupledSectorRegion>,
    output_len: usize,
    zero: D,
    answers: spec_fn(Seq<D>, usize, Result<Vec<D>, OperationError>) -> bool,
) -> bool {
    let jobs = filled_routes(routes, source, routes.len() as int);
    exists|images: Seq<Vec<D>>|
        {
            &&& #[trigger] images_of(images, jobs, source, data, answers)
            &&& match result {
                Ok(elements) => images.len() == jobs.len() && elements@ == region_images(
                    zeros(zero, output_len as int),
                    route_outputs(jobs),
                    images,
                    output,
                    jobs.len() as int,
                ),
                Err(_) => images.len() < jobs.len() && answers(
                    region_matrix(data, source[jobs[images.len() as int].source as int]),
                    source[jobs[images.len() as int].source as int].rows,
                    result,
                ),
            }
        }
}

/// Jobs are routes.
pub(crate) proof fn lemma_jobs_are_routes(
    routes: Seq<InverseSectorRoute>,
    source: Seq<CoupledSectorRegion>,
    count: int,
    k: int,
)
    requires
        0 <= count <= routes.len(),
        0 <= k < filled_routes(routes, source, count).len(),
    ensures
        exists|j: int| 0 <= j < count && filled_routes(routes, source, count)[k] == #[trigger] routes[j],
    decreases count,
{
    if count > 0 {
        let before = filled_routes(routes, source, count - 1);
        if k < before.len() {
            lemma_jobs_are_routes(routes, source, count - 1, k);
        } else {
            assert(filled_routes(routes, source, count)[k] == routes[count - 1]);
        }
    }
}

/// Maps the regions of a source.
fn map_regions<D: Copy, S, F: Fn(&S, &[D], usize) -> Result<Vec<D>, OperationError>>(
    routes: &[InverseSectorRoute],
    source: &[CoupledSectorRegion],
    data: &[D],
    output: &[CoupledSectorRegion],
    output_len: usize,
    zero: D,
    apply: &F,
    state: &S,
    Ghost(largest): Ghost<usize>,
    Ghost(answers): Ghost<spec_fn(Seq<D>, usize, Result<Vec<D>, OperationError>) -> bool>,
) -> (result: Result<Vec<D>, OperationError>)
    requires
        routes_transpose(routes@, source@, output@, data@.len() as usize, output_len),
        forall|k: int| 0 <= k < source@.len() ==> (#[trigger] source@[k]).rows == source@[k].cols,
        forall|k: int| 0 <= k < source@.len() ==> (#[trigger] source@[k]).rows <= largest,
        regions_hold(source@),
        regions_hold(output@),
        is_square_map(apply, state, largest),
        answers_as(apply, state, answers),
    ensures
        regions_mapped(result, routes@, source@, data@, output@, output_len, zero, answers),
{
    let len: usize = data.len();
    let ghost jobs_seq = filled_routes(routes@, source@, routes@.len() as int);
    let jobs = sector_jobs(routes, source);
    let mut outputs: Vec<usize> = Vec::with_capacity(jobs.len());
    let mut images: Vec<Vec<D>> = Vec::with_capacity(jobs.len());
    let mut k: usize = 0;
    while k < jobs.len()
        invariant
            k <= jobs@.len(),
            len == data@.len(),
            jobs@ == filled_routes(routes@, source@, routes@.len() as int),
            routes_transpose(routes@, source@, output@, len, output_len),
            forall|k: int|
                0 <= k < source@.len() ==> (#[trigger] source@[k]).rows == source@[k].cols,
            forall|k: int| 0 <= k < source@.len() ==> (#[trigger] source@[k]).rows <= largest,
            regions_hold(source@),
            regions_hold(output@),
            is_square_map(apply, state, largest),
            answers_as(apply, state, answers),
            outputs@ == route_outputs(jobs@).take(k as int),
            images@.len() == k,
            images_of(images@, jobs@, source@, data@, answers),
            images_fit(outputs@, images@, output@, output_len as int),
        decreases jobs.len() - k,
    {
        let job = jobs[k];
        proof {
            lemma_jobs_are_routes(routes@, source@, routes@.len() as int, k as int);
            let j = choose|j: int| 0 <= j < routes@.len() && jobs@[k as int] == #[trigger] routes@[j];
            assert(routes@[j].source == j);
        }
        let region = &source[job.source];
        assert(regions_hold(source@) && source@[job.source as int] == *region);
        let matrix = vstd::slice::slice_subrange(data, region.start, region.end);
        let answer = apply(state, matrix, region.rows);
        assert(call_ensures(apply, (state, matrix, region.rows), answer));
        assert(answers(region_matrix(data@, *region), region.rows, answer));
        match answer {
            Err(error) => {
                assert(images_of(images@, jobs@, source@, data@, answers));
                return Err(error);
            },
            Ok(image) => {
                proof {
                    assert(call_ensures(
                        apply,
                        (state, matrix, region.rows),
                        Ok::<Vec<D>, OperationError>(image),
                    ));
                    assert(output@[job.output as int].start + output@[job.output as int].rows
                        * output@[job.output as int].cols == output@[job.output as int].end);
                }
                let ghost before = images@;
                images.push(image);
                outputs.push(job.output);
                proof {
                    assert(outputs@ =~= route_outputs(jobs@).take(k + 1));
                    assert forall|j: int| 0 <= j < images@.len() implies answers(
                        region_matrix(data@, source@[jobs@[j].source as int]),
                        source@[jobs@[j].source as int].rows,
                        Ok(#[trigger] images@[j]),
                    ) by {
                        if j < k {
                            assert(images@[j] == before[j]);
                        }
                    }
                }
            },
        }
        k += 1;
    }
    assert(outputs@ =~= route_outputs(jobs@));
    let elements = publish_region_images(
        outputs.as_slice(),
        images.as_slice(),
        output,
        output_len,
        zero,
    );
    assert(images_of(images@, jobs@, source@, data@, answers));
    Ok(elements)
}

/// Every tree lies inside its side.
pub open spec fn trees_inside(trees: Seq<Span>, total: int) -> bool {
    forall|k: int|
        0 <= k < trees.len() ==> (#[trigger] trees[k]).offset + extent(trees[k].shape) <= total
}

/// The range of every region holds its matrix, and its trees lie inside its
/// rows and columns.
pub open spec fn regions_laid_out(regions: Seq<CoupledSectorRegion>) -> bool {
    &&& regions_hold(regions)
    &&& forall|k: int|
        0 <= k < regions.len() ==> trees_inside(
            (#[trigger] regions[k]).geometry().row_trees,
            regions[k].rows as int,
        ) && trees_inside(regions[k].geometry().col_trees, regions[k].cols as int)
}

/// The same of packed matrices.
pub open spec fn matrices_laid_out<D>(matrices: Seq<SectorMatricization<D>>) -> bool {
    forall|k: int|
        0 <= k < matrices.len() ==> {
            &&& (#[trigger] matrices[k]).data@.len() == matrices[k].rows * matrices[k].cols
            &&& trees_inside(matrices[k].geometry().row_trees, matrices[k].rows as int)
            &&& trees_inside(matrices[k].geometry().col_trees, matrices[k].cols as int)
        }
}

/// The rows of the source matrices.
pub open spec fn matrix_orders<D>(
    matrices: Seq<SectorMatricization<D>>,
    routes: Seq<MatrixRoute>,
) -> Seq<usize> {
    Seq::new(routes.len(), |k: int| matrices[routes[k].source as int].rows)
}

/// The image of one packed matrix; an empty matrix has an empty image.
pub open spec fn packed_image<D>(
    matrix: SectorMatricization<D>,
    answers: spec_fn(Seq<D>, usize, Result<Vec<D>, OperationError>) -> bool,
    answer: Result<Vec<D>, OperationError>,
) -> bool {
    if matrix.rows == 0 {
        answer is Ok && answer->Ok_0@.len() == 0
    } else {
        answers(matrix.data@, matrix.rows, answer)
    }
}

/// The images of the first packed matrices, in order.
pub open spec fn packed_images<D>(
    images: Seq<Vec<D>>,
    matrices: Seq<SectorMatricization<D>>,
    routes: Seq<MatrixRoute>,
    answers: spec_fn(Seq<D>, usize, Result<Vec<D>, OperationError>) -> bool,
) -> bool {
    &&& images.len() <= routes.len()
    &&& forall|k: int|
        0 <= k < images.len() ==> packed_image(
            matrices[routes[k].source as int],
            answers,
            Ok(#[trigger] images[k]),
        )
}

/// Every packed matrix with elements is mapped, in the order of the routes, and
/// its image is moved into the output basis of its region; the first failure
/// ends the work.
pub open spec fn matrices_mapped<D>(
    result: Result<Vec<D>, OperationError>,
    matrices: Seq<SectorMatricization<D>>,
    routes: Seq<MatrixRoute>,
    output: Seq<CoupledSectorRegion>,
    output_len: usize,
    zero: D,
    answers: spec_fn(Seq<D>, usize, Result<Vec<D>, OperationError>) -> bool,
) -> bool {
    exists|images: Seq<Vec<D>>|
        {
            &&& #[trigger] packed_images(images, matrices, routes, answers)
            &&& match result {
                Ok(elements) => images.len() == routes.len() && elements@ == reordered_images(
                    zeros(zero, output_len as int),
                    routes,
                    images,
                    matrix_orders(matrices, routes),
                    output,
                    routes.len() as int,
                ),
                Err(_) => images.len() < routes.len() && packed_image(
                    matrices[routes[images.len() as int].source as int],
                    answers,
                    result,
                ),
            }
        }
}

/// Compiled basis ranges lie inside both sides.
proof fn lemma_extents_inside(source: Seq<Span>, output: Seq<Span>, from: int, to: int)
    requires
        output.len() <= usize::MAX,
        basis_extents(source, output) is Ok,
        trees_inside(source, from),
        trees_inside(output, to),
    ensures
        forall|k: int|
            #![trigger basis_extents(source, output)->Ok_0[k]]
            0 <= k < basis_extents(source, output)->Ok_0.len() ==> {
                let range = basis_extents(source, output)->Ok_0[k];
                range.source_offset + range.extent <= from && range.output_offset + range.extent
                    <= to
            },
{
    lemma_basis_extents_match(source, output);
    let extents = basis_extents(source, output)->Ok_0;
    assert forall|k: int| 0 <= k < extents.len() implies extents[k].source_offset
        + extents[k].extent <= from && (#[trigger] extents[k]).output_offset + extents[k].extent
        <= to by {
        assert(leads_to_tree(extents[k], source[k], output));
        assert(trees_inside(source, from));
        let o = span_position(output, source[k].tree, 0)->0;
        assert(output[o].offset + extent(output[o].shape) <= to);
    }
}

/// A block inside a square lies inside its elements.
proof fn lemma_inside_square(order: int, row: int, height: int, col: int, width: int)
    requires
        0 <= row,
        0 <= height,
        0 <= col,
        0 <= width,
        row + height <= order <= usize::MAX,
        col + width <= order,
    ensures
        extent_fits_in(order, row, height, col, width, order * order),
{
    if height > 0 && width > 0 {
        assert(order * (col + width - 1) + order <= order * order) by (nonlinear_arith)
            requires
                col + width <= order,
                0 <= order,
        ;
    }
}

/// A compiled route of a packed matrix moves an image of its order inside its
/// region.
pub(crate) proof fn lemma_packed_route_fits<D>(
    matrices: Seq<SectorMatricization<D>>,
    output: Seq<CoupledSectorRegion>,
    output_len: usize,
    k: int,
)
    requires
        matrices.len() <= usize::MAX,
        output.len() <= usize::MAX,
        matrices_laid_out(matrices),
        regions_laid_out(output),
        inverse_matrix_routes(geometries(matrices), output, output_len) is Ok,
        0 <= k < matrices.len(),
    ensures
        ({
            let routes = inverse_matrix_routes(geometries(matrices), output, output_len)->Ok_0;
            let region = output[routes[k].output as int];
            let order = matrices[k].rows as int;
            &&& routes.len() == matrices.len()
            &&& routes[k].source == k
            &&& routes[k].output < output.len()
            &&& matrices[k].cols == order
            &&& region.start <= region.end <= output_len
            &&& reorder_fits(
                order,
                order * order,
                region.rows as int,
                region.end - region.start,
                routes[k].rows,
                routes[k].cols,
            )
        }),
{
    let all = geometries(matrices);
    let outcomes = Seq::new(
        all.len(),
        |k: int| inverse_matrix_route(all, output, output_len, k),
    );
    let routes = inverse_matrix_routes(all, output, output_len)->Ok_0;
    lemma_all_ok_values(outcomes);
    assert(outcomes[k] == Ok::<MatrixRoute, OperationError>(routes[k]));
    lemma_sector_position(geometries(output), all[k].sector, 0);
    let o = sector_position(geometries(output), all[k].sector, 0)->0;
    let from = all[k];
    let to = output[o].geometry();
    assert(from == matrices[k].geometry());
    let order = from.rows as int;
    assert(regions_hold(output));
    assert(output[o].start + output[o].rows * output[o].cols == output[o].end);
    assert(order * order >= 0) by (nonlinear_arith);
    assert(output[o].row_trees.len() == to.row_trees.len());
    assert(output[o].col_trees.len() == to.col_trees.len());
    lemma_extents_inside(from.col_trees, to.row_trees, order, order);
    lemma_extents_inside(from.row_trees, to.col_trees, order, order);
    let rows = routes[k].rows;
    let cols = routes[k].cols;
    assert(rows == basis_extents(from.col_trees, to.row_trees)->Ok_0);
    assert(cols == basis_extents(from.row_trees, to.col_trees)->Ok_0);
    assert forall|i: int, j: int| 0 <= i < rows.len() && 0 <= j < cols.len() implies {
        &&& extent_fits_in(
            order,
            (#[trigger] rows[i]).source_offset as int,
            rows[i].extent as int,
            (#[trigger] cols[j]).source_offset as int,
            cols[j].extent as int,
            order * order,
        )
        &&& extent_fits_in(
            order,
            rows[i].output_offset as int,
            rows[i].extent as int,
            cols[j].output_offset as int,
            cols[j].extent as int,
            order * order,
        )
    } by {
        lemma_inside_square(
            order,
            rows[i].source_offset as int,
            rows[i].extent as int,
            cols[j].source_offset as int,
            cols[j].extent as int,
        );
        lemma_inside_square(
            order,
            rows[i].output_offset as int,
            rows[i].extent as int,
            cols[j].output_offset as int,
            cols[j].extent as int,
        );
    }
}

/// Maps packed matrices.
fn map_matrices<D: Copy, S, F: Fn(&S, &[D], usize) -> Result<Vec<D>, OperationError>>(
    matrices: &[SectorMatricization<D>],
    routes: &[InverseMatrixRoute],
    output: &[CoupledSectorRegion],
    output_len: usize,
    zero: D,
    apply: &F,
    state: &S,
    Ghost(largest): Ghost<usize>,
    Ghost(answers): Ghost<spec_fn(Seq<D>, usize, Result<Vec<D>, OperationError>) -> bool>,
) -> (result: Result<Vec<D>, OperationError>)
    requires
        inverse_matrix_routes(geometries(matrices@), output@, output_len) == Ok::<
            Seq<MatrixRoute>,
            OperationError,
        >(matrix_routes(routes@)),
        matrices_laid_out(matrices@),
        regions_laid_out(output@),
        forall|k: int|
            0 <= k < matrices@.len() ==> (#[trigger] matrices@[k]).rows <= largest,
        is_square_map(apply, state, largest),
        answers_as(apply, state, answers),
    ensures
        matrices_mapped(
            result,
            matrices@,
            matrix_routes(routes@),
            output@,
            output_len,
            zero,
            answers,
        ),
{
    let ghost views = matrix_routes(routes@);
    let ghost orders = matrix_orders(matrices@, views);
    let matrix_count: usize = matrices.len();
    let region_count: usize = output.len();
    let mut leading: Vec<usize> = Vec::with_capacity(routes.len());
    let mut images: Vec<Vec<D>> = Vec::with_capacity(routes.len());
    let mut k: usize = 0;
    proof {
        if matrices@.len() > 0 {
            lemma_packed_route_fits(matrices@, output@, output_len, 0);
        } else {
            let outcomes = Seq::new(
                0,
                |k: int|
                    inverse_matrix_route(geometries(matrices@), output@, output_len, k),
            );
            lemma_all_ok_values(outcomes);
            assert(outcomes =~= Seq::new(
                geometries(matrices@).len(),
                |k: int|
                    inverse_matrix_route(geometries(matrices@), output@, output_len, k),
            ));
        }
    }
    while k < routes.len()
        invariant
            k <= routes@.len() == matrices@.len(),
            matrix_count == matrices@.len(),
            region_count == output@.len(),
            views == matrix_routes(routes@),
            orders == matrix_orders(matrices@, views),
            inverse_matrix_routes(geometries(matrices@), output@, output_len) == Ok::<
                Seq<MatrixRoute>,
                OperationError,
            >(views),
            matrices_laid_out(matrices@),
            regions_laid_out(output@),
            forall|k: int|
                0 <= k < matrices@.len() ==> (#[trigger] matrices@[k]).rows <= largest,
            is_square_map(apply, state, largest),
            answers_as(apply, state, answers),
            leading@ == orders.take(k as int),
            images@.len() == k,
            forall|j: int|
                0 <= j < k ==> (#[trigger] images@[j])@.len() == orders[j] * orders[j],
            packed_images(images@, matrices@, views, answers),
        decreases routes.len() - k,
    {
        proof {
            lemma_packed_route_fits(matrices@, output@, output_len, k as int);
            assert(views[k as int] == routes@[k as int]@);
        }
        let matrix = &matrices[routes[k].source];
        let order: usize = matrix.rows;
        assert(matrices@[k as int] == *matrix);
        let image: Vec<D> = if order == 0 {
            Vec::new()
        } else {
            let x = matrix.data.as_slice();
            let answer = apply(state, x, order);
            assert(call_ensures(apply, (state, x, order), answer));
            assert(answers(matrix.data@, order, answer));
            match answer {
                Ok(image) => {
                    assert(call_ensures(apply, (state, x, order), Ok::<Vec<D>, OperationError>(image)));
                    image
                },
                Err(error) => {
                    assert(packed_images(images@, matrices@, views, answers));
                    return Err(error);
                },
            }
        };
        let ghost before = images@;
        proof {
            if order == 0 {
                assert(order * order == 0) by (nonlinear_arith)
                    requires
                        order == 0,
                ;
            }
            assert(image@.len() == order * order);
            assert(orders[k as int] == order);
        }
        leading.push(order);
        images.push(image);
        proof {
            assert(leading@ =~= orders.take(k + 1));
            assert forall|j: int| 0 <= j < images@.len() implies (#[trigger] images@[j])@.len()
                == orders[j] * orders[j] by {
                if j < k {
                    assert(images@[j] == before[j]);
                }
            }
            assert forall|j: int| 0 <= j < images@.len() implies packed_image(
                matrices@[views[j].source as int],
                answers,
                Ok(#[trigger] images@[j]),
            ) by {
                if j < k {
                    assert(images@[j] == before[j]);
                }
            }
        }
        k += 1;
    }
    proof {
        assert(leading@ =~= orders);
        assert forall|k: int| 0 <= k < views.len() implies {
            let region = output@[(#[trigger] views[k]).output as int];
            &&& views[k].output < output@.len()
            &&& region.start <= region.end <= output_len
            &&& reorder_fits(
                leading@[k] as int,
                images@[k]@.len() as int,
                region.rows as int,
                region.end - region.start,
                views[k].rows,
                views[k].cols,
            )
        } by {
            lemma_packed_route_fits(matrices@, output@, output_len, k);
            assert(images@[k]@.len() == orders[k] * orders[k]);
        }
    }
    let elements = publish_reordered_images(
        routes,
        images.as_slice(),
        leading.as_slice(),
        output,
        output_len,
        zero,
    );
    assert(packed_images(images@, matrices@, views, answers));
    Ok(elements)
}

/// The orders of the routed sectors.
pub open spec fn planned_orders<D>(plan: SquarePlan<D>, source: MapSpace) -> Seq<usize> {
    match plan {
        SquarePlan::Regions(routes) => Seq::new(
            routes@.len(),
            |k: int| source.regions->0@[routes@[k].source as int].rows,
        ),
        SquarePlan::Matrices { matrices, routes } => matrix_orders(
            matrices@,
            matrix_routes(routes@),
        ),
    }
}

/// The largest of them, zero where there is none.
pub open spec fn planned_order<D>(plan: SquarePlan<D>, source: MapSpace) -> usize {
    largest_order(planned_orders(plan, source), planned_orders(plan, source).len() as int)
}

/// All sectors of a plan are mapped.
pub open spec fn plan_mapped<D>(
    result: Result<Vec<D>, OperationError>,
    plan: SquarePlan<D>,
    source: MapSpace,
    data: Seq<D>,
    output: MapSpace,
    zero: D,
    answers: spec_fn(Seq<D>, usize, Result<Vec<D>, OperationError>) -> bool,
) -> bool {
    let regions = output.regions->0@;
    let len = output.structure.spec_len();
    match plan {
        SquarePlan::Regions(routes) => regions_mapped(
            result,
            routes@,
            source.regions->0@,
            data,
            regions,
            len,
            zero,
            answers,
        ),
        SquarePlan::Matrices { matrices, routes } => matrices_mapped(
            result,
            matrices@,
            matrix_routes(routes@),
            regions,
            len,
            zero,
            answers,
        ),
    }
}

/// A layout whose regions, where it has them, hold their matrices and trees.
pub open spec fn is_laid_out(space: MapSpace) -> bool {
    space.regions is Some ==> regions_laid_out(space.regions->0@)
}

/// The packed matrices of a source hold their trees.
proof fn lemma_matricized_laid_out<D>(
    matrices: Vec<SectorMatricization<D>>,
    blocks: Seq<Block>,
    data: Seq<D>,
    nout: int,
    zero: D,
)
    requires
        matricized(Ok(matrices), blocks, data, nout, zero),
    ensures
        matrices_laid_out(matrices@),
{
    let stacked = stack_blocks(blocks, nout, blocks.len() as int)->Ok_0;
    lemma_stacking(blocks, nout, blocks.len() as int);
    assert forall|k: int| 0 <= k < matrices@.len() implies {
        &&& (#[trigger] matrices@[k]).data@.len() == matrices@[k].rows * matrices@[k].cols
        &&& trees_inside(matrices@[k].geometry().row_trees, matrices@[k].rows as int)
        &&& trees_inside(matrices@[k].geometry().col_trees, matrices@[k].cols as int)
    } by {
        assert(stacked[k] == matrices@[k].geometry());
        assert(geometry_stacked(stacked[k], blocks, nout, blocks.len() as int));
        lemma_writes_len(
            Seq::new((stacked[k].rows * stacked[k].cols) as nat, |j: int| zero),
            sector_writes(data, blocks, nout, stacked[k], blocks.len() as int),
        );
        assert(stacked[k].rows * stacked[k].cols >= 0) by (nonlinear_arith)
            requires
                stacked[k].rows >= 0,
                stacked[k].cols >= 0,
        ;
    }
}

/// The rows of the routed sectors.
fn orders_of<D>(plan: &SquarePlan<D>, source: &MapSpace) -> (orders: Vec<usize>)
    requires
        match plan {
            SquarePlan::Regions(routes) => source.regions is Some && forall|k: int|
                0 <= k < routes@.len() ==> (#[trigger] routes@[k]).source
                    < source.regions->0@.len(),
            SquarePlan::Matrices { matrices, routes } => forall|k: int|
                0 <= k < routes@.len() ==> (#[trigger] routes@[k]).source < matrices@.len(),
        },
    ensures
        orders@ == planned_orders(*plan, *source),
{
    let mut orders: Vec<usize> = Vec::new();
    match plan {
        SquarePlan::Regions(routes) => {
            if let Some(regions) = &source.regions {
                let mut k: usize = 0;
                while k < routes.len()
                    invariant
                        k <= routes@.len(),
                        *plan == SquarePlan::<D>::Regions(*routes),
                        source.regions == Some(*regions),
                        forall|k: int|
                            0 <= k < routes@.len() ==> (#[trigger] routes@[k]).source
                                < regions@.len(),
                        orders@ == planned_orders(*plan, *source).take(k as int),
                    decreases routes.len() - k,
                {
                    orders.push(regions[routes[k].source].rows);
                    k += 1;
                    assert(orders@ =~= planned_orders(*plan, *source).take(k as int));
                }
            }
        },
        SquarePlan::Matrices { matrices, routes } => {
            let mut k: usize = 0;
            while k < routes.len()
                invariant
                    k <= routes@.len(),
                    *plan == (SquarePlan::<D>::Matrices { matrices: *matrices, routes: *routes }),
                    forall|k: int|
                        0 <= k < routes@.len() ==> (#[trigger] routes@[k]).source
                            < matrices@.len(),
                    orders@ == planned_orders(*plan, *source).take(k as int),
                decreases routes.len() - k,
            {
                orders.push(matrices[routes[k].source].rows);
                k += 1;
                assert(orders@ =~= planned_orders(*plan, *source).take(k as int));
            }
        },
    }
    assert(orders@ =~= planned_orders(*plan, *source));
    orders
}

/// What a plan establishes: its routes lead where its layouts say, and no
/// sector is larger than the largest order.
spec fn plan_holds<D>(
    plan: SquarePlan<D>,
    source: MapSpace,
    data_len: usize,
    output: MapSpace,
    largest: usize,
) -> bool {
    &&& output.regions is Some
    &&& match plan {
        SquarePlan::Regions(routes) => {
            &&& source.regions is Some
            &&& routes_transpose(
                routes@,
                source.regions->0@,
                output.regions->0@,
                data_len,
                output.structure.spec_len(),
            )
            &&& forall|k: int|
                0 <= k < source.regions->0@.len() ==> (#[trigger] source.regions->0@[k]).rows
                    == source.regions->0@[k].cols && source.regions->0@[k].rows <= largest
        },
        SquarePlan::Matrices { matrices, routes } => {
            &&& matrices_laid_out(matrices@)
            &&& inverse_matrix_routes(
                geometries(matrices@),
                output.regions->0@,
                output.structure.spec_len(),
            ) == Ok::<Seq<MatrixRoute>, OperationError>(matrix_routes(routes@))
            &&& forall|k: int|
                0 <= k < matrices@.len() ==> (#[trigger] matrices@[k]).rows <= largest
        },
    }
}

/// The largest order of a plan, for which the plan holds.
fn order_of_plan<D: Copy>(
    plan: &SquarePlan<D>,
    source: &MapSpace,
    data: &[D],
    output: &MapSpace,
    operation: SquareOperation,
    zero: D,
) -> (largest: usize)
    requires
        square_planned(Ok(*plan), *source, data@, *output, operation, zero),
        is_laid_out(*output),
    ensures
        largest == planned_order(*plan, *source),
        plan_holds(*plan, *source, data@.len() as usize, *output, largest),
{
    let data_len: usize = data.len();
    let ghost to = output.regions->0@;
    let ghost len = output.structure.spec_len();
    if let Some(regions) = &output.regions {
        let _count: usize = regions.len();
    }
    match plan {
        SquarePlan::Regions(routes) => {
            if let Some(regions) = &source.regions {
                let _count: usize = regions.len();
                proof {
                    lemma_inverse_routes_transpose(regions@, to, data_len, len);
                }
            }
        },
        SquarePlan::Matrices { matrices, routes } => {
            let count: usize = matrices.len();
            let _routes: usize = routes.len();
            proof {
                lemma_matricized_laid_out(
                    *matrices,
                    source.structure.spec_blocks(),
                    data@,
                    source.nout as int,
                    zero,
                );
                let views = matrix_routes(routes@);
                assert forall|k: int| 0 <= k < routes@.len() implies (#[trigger] routes@[k]).source
                    < matrices@.len() && routes@[k].source == k by {
                    lemma_route_count(matrices@, to, len);
                    lemma_packed_route_fits(matrices@, to, len, k);
                    assert(views[k] == routes@[k]@);
                }
            }
        },
    }
    let orders = orders_of(plan, source);
    let largest = max_order(orders.as_slice());
    proof {
        match plan {
            SquarePlan::Regions(routes) => {
                let from = source.regions->0@;
                assert forall|k: int| 0 <= k < from.len() implies (#[trigger] from[k]).rows
                    == from[k].cols && from[k].rows <= largest by {
                    assert(routes@[k].source == k);
                    assert(orders@[k] == from[k].rows);
                }
            },
            SquarePlan::Matrices { matrices, routes } => {
                let views = matrix_routes(routes@);
                lemma_route_count(matrices@, to, len);
                assert forall|k: int| 0 <= k < matrices@.len() implies (
                #[trigger] matrices@[k]).rows <= largest by {
                    lemma_packed_route_fits(matrices@, to, len, k);
                    assert(views[k].source == k);
                    assert(orders@[k] == matrices@[k].rows);
                }
            },
        }
    }
    largest
}

/// There is one route for every packed matrix.
proof fn lemma_route_count<D>(
    matrices: Seq<SectorMatricization<D>>,
    output: Seq<CoupledSectorRegion>,
    output_len: usize,
)
    requires
        inverse_matrix_routes(geometries(matrices), output, output_len) is Ok,
    ensures
        inverse_matrix_routes(geometries(matrices), output, output_len)->Ok_0.len()
            == matrices.len(),
{
    let outcomes = Seq::new(
        geometries(matrices).len(),
        |k: int| inverse_matrix_route(geometries(matrices), output, output_len, k),
    );
    lemma_all_ok_values(outcomes);
}

/// Maps the sectors of a plan.
fn map_planned<D: Copy, S, F: Fn(&S, &[D], usize) -> Result<Vec<D>, OperationError>>(
    plan: &SquarePlan<D>,
    source: &MapSpace,
    data: &[D],
    output: &MapSpace,
    zero: D,
    apply: &F,
    state: &S,
    Ghost(largest): Ghost<usize>,
    Ghost(answers): Ghost<spec_fn(Seq<D>, usize, Result<Vec<D>, OperationError>) -> bool>,
) -> (result: Result<Vec<D>, OperationError>)
    requires
        plan_holds(*plan, *source, data@.len() as usize, *output, largest),
        is_laid_out(*source),
        is_laid_out(*output),
        is_square_map(apply, state, largest),
        answers_as(apply, state, answers),
    ensures
        plan_mapped(result, *plan, *source, data@, *output, zero, answers),
{
    let output_len: usize = output.structure.required_len();
    let regions: &[CoupledSectorRegion] = match &output.regions {
        Some(regions) => regions.as_slice(),
        None => &[],
    };
    match plan {
        SquarePlan::Regions(routes) => {
            let from: &[CoupledSectorRegion] = match &source.regions {
                Some(regions) => regions.as_slice(),
                None => &[],
            };
            map_regions(
                routes.as_slice(),
                from,
                data,
                regions,
                output_len,
                zero,
                apply,
                state,
                Ghost(largest),
                Ghost(answers),
            )
        },
        SquarePlan::Matrices { matrices, routes } => map_matrices(
            matrices.as_slice(),
            routes.as_slice(),
            regions,
            output_len,
            zero,
            apply,
            state,
            Ghost(largest),
                Ghost(answers),
        ),
    }
}

/// The outcome of an operation on square sectors: its plan's refusal, the
/// failure of its preparation for the largest order, or its mapped sectors.
pub open spec fn squares_mapped<
    D,
    S,
    I: Fn(usize) -> Result<S, OperationError>,
    F: Fn(&S, &[D], usize) -> Result<Vec<D>, OperationError>,
>(
    result: Result<Vec<D>, OperationError>,
    planned: Result<SquarePlan<D>, OperationError>,
    source: MapSpace,
    data: Seq<D>,
    output: MapSpace,
    zero: D,
    init: I,
    apply: F,
) -> bool {
    match planned {
        Err(error) => result == Err::<Vec<D>, OperationError>(error),
        Ok(plan) => exists|started: Result<S, OperationError>|
            {
                &&& #[trigger] call_ensures(init, (planned_order(plan, source),), started)
                &&& match started {
                    Err(error) => result == Err::<Vec<D>, OperationError>(error),
                    Ok(state) => plan_mapped(
                        result,
                        plan,
                        source,
                        data,
                        output,
                        zero,
                        answers_of(apply, &state),
                    ),
                }
            },
    }
}

/// The preparation can be made for any order, and what it gives serves all
/// sectors up to that order.
pub open spec fn prepares<
    D,
    S,
    I: Fn(usize) -> Result<S, OperationError>,
    F: Fn(&S, &[D], usize) -> Result<Vec<D>, OperationError>,
>(init: I, apply: F) -> bool {
    &&& forall|order: usize| #[trigger] call_requires(init, (order,))
    &&& forall|order: usize, state: S| #[trigger]
        call_ensures(init, (order,), Ok::<S, OperationError>(state)) ==> is_square_map(
            apply,
            &state,
            order,
        )
}

/// Applies a function to every square sector of an endomorphism and publishes
/// the images on a layout of the same space.
pub fn map_square_sectors_dyn_into<
    D: Copy,
    S,
    I: Fn(usize) -> Result<S, OperationError>,
    F: Fn(&S, &[D], usize) -> Result<Vec<D>, OperationError>,
>(
    source: &MapSpace,
    data: &[D],
    output: &MapSpace,
    zero: D,
    init: &I,
    apply: &F,
) -> (result: Result<Vec<D>, OperationError>)
    requires
        source.structure.wf(),
        data@.len() >= source.structure.spec_len(),
        source.regions is None ==> stackable(source.structure.spec_blocks(), source.nout as int),
        is_laid_out(*source),
        is_laid_out(*output),
        prepares(init, apply),
    ensures
        if source.homspace@ != output.homspace@ {
            result == Err::<Vec<D>, OperationError>(
                scope("matrix function output must preserve the input homspace"),
            )
        } else {
            exists|planned: Result<SquarePlan<D>, OperationError>|
                {
                    &&& #[trigger] square_planned(
                        planned,
                        *source,
                        data@,
                        *output,
                        SquareOperation::MatrixFunction,
                        zero,
                    )
                    &&& squares_mapped(
                        result,
                        planned,
                        *source,
                        data@,
                        *output,
                        zero,
                        init,
                        apply,
                    )
                }
        },
{
    let planned = plan_matrix_function(source, data, output, zero);
    let plan = match planned {
        Err(error) => {
            return Err(error);
        },
        Ok(plan) => plan,
    };
    let largest = order_of_plan(
        &plan,
        source,
        data,
        output,
        SquareOperation::MatrixFunction,
        zero,
    );
    let started = init(largest);
    assert(call_ensures(init, (largest,), started));
    match started {
        Err(error) => Err(error),
        Ok(state) => {
            assert(call_ensures(init, (largest,), Ok::<S, OperationError>(state)));
            map_planned(
                &plan,
                source,
                data,
                output,
                zero,
                apply,
                &state,
                Ghost(largest),
                Ghost(answers_of(apply, &state)),
            )
        },
    }
}

/// What a solver may answer for the inverse of a matrix: the solution with the
/// identity on the right-hand side.
pub open spec fn inverses_of<
    D,
    F: Fn(&[D], usize, &[D], usize) -> Result<Vec<D>, OperationError>,
>(solve: F, zero: D, one: D) -> spec_fn(Seq<D>, usize, Result<Vec<D>, OperationError>) -> bool {
    |matrix: Seq<D>, order: usize, answer: Result<Vec<D>, OperationError>|
        solves_to(
            solve,
            matrix,
            order,
            identity_matrix(order as int, zero, one),
            order,
            answer,
        )
}

/// The outcome of an inverse: its plan's refusal, an identity that is too
/// large, or its inverted sectors.
pub open spec fn squares_inverted<
    D,
    F: Fn(&[D], usize, &[D], usize) -> Result<Vec<D>, OperationError>,
>(
    result: Result<Vec<D>, OperationError>,
    planned: Result<SquarePlan<D>, OperationError>,
    source: MapSpace,
    data: Seq<D>,
    output: MapSpace,
    zero: D,
    one: D,
    solve: F,
) -> bool {
    match planned {
        Err(error) => result == Err::<Vec<D>, OperationError>(error),
        Ok(plan) => if planned_order(plan, source) * planned_order(plan, source) > usize::MAX {
            result == Err::<Vec<D>, OperationError>(OperationError::ElementCountOverflow)
        } else {
            plan_mapped(
                result,
                plan,
                source,
                data,
                output,
                zero,
                inverses_of(solve, zero, one),
            )
        },
    }
}

/// Inverts every square sector and publishes the inverses on an output layout.
pub fn inverse_by_sector_dyn_into<
    D: Copy,
    F: Fn(&[D], usize, &[D], usize) -> Result<Vec<D>, OperationError>,
>(
    source: &MapSpace,
    data: &[D],
    output: &MapSpace,
    zero: D,
    one: D,
    solve: &F,
) -> (result: Result<Vec<D>, OperationError>)
    requires
        source.structure.wf(),
        data@.len() >= source.structure.spec_len(),
        source.regions is None ==> stackable(source.structure.spec_blocks(), source.nout as int),
        is_laid_out(*source),
        is_laid_out(*output),
        is_solver(solve),
    ensures
        exists|planned: Result<SquarePlan<D>, OperationError>|
            {
                &&& #[trigger] square_planned(
                    planned,
                    *source,
                    data@,
                    *output,
                    SquareOperation::Inverse,
                    zero,
                )
                &&& squares_inverted(
                    result,
                    planned,
                    *source,
                    data@,
                    *output,
                    zero,
                    one,
                    solve,
                )
            },
{
    let planned = plan_square_sectors(source, data, output, SquareOperation::Inverse, zero);
    let plan = match planned {
        Err(error) => {
            return Err(error);
        },
        Ok(plan) => plan,
    };
    let largest = order_of_plan(&plan, source, data, output, SquareOperation::Inverse, zero);
    match identity_workspace(largest, zero, one) {
        Err(error) => {
            return Err(error);
        },
        Ok(_) => {},
    }
    let invert = |_state: &(), matrix: &[D], order: usize| -> (answer: Result<
        Vec<D>,
        OperationError,
    >)
        requires
            matrix@.len() == order * order,
            order <= largest,
        ensures
            solves_to(
                solve,
                matrix@,
                order,
                identity_matrix(order as int, zero, one),
                order,
                answer,
            ),
            answer is Ok ==> answer->Ok_0@.len() == order * order,
        {
            let elements: usize = matrix.len();
            assert(elements == order * order);
            match identity_workspace(order, zero, one) {
                Err(error) => Err(error),
                Ok(identity) => solve(matrix, order, identity.as_slice(), order),
            }
        };
    map_planned(
        &plan,
        source,
        data,
        output,
        zero,
        &invert,
        &(),
        Ghost(largest),
        Ghost(inverses_of(solve, zero, one)),
    )
}

} // verus!
