//! Sector-wise linear algebra: admission, jobs and publication.

use vstd::prelude::*;

use crate::dense::{splice, write_range};
use crate::error::{unsupported, OperationError};
use crate::geometry::{geometries, CoupledSectorRegion, SectorMatricization};
use crate::input::regions_canonical;
use crate::layout::filled;
use crate::matricize::{matricized, sector_matricizations, stackable};
use crate::publish::{scope, zeros};
use crate::routes::{
    compile_inverse_region_routes, compile_pinv_region_routes, inverse_region_routes,
    pinv_region_routes, range_refusal, validate_region_range, values_are, InverseSectorRoute,
};
use crate::solve_routes::{
    compile_inverse_matrix_routes, compile_solve_left_region_routes, inverse_matrix_routes,
    matrix_routes, reorder_fits, reorder_inverse_solution, reorder_writes, solve_left_routes,
    InverseMatrixRoute, MatrixRoute, SolveLeftSectorRoute,
};
use crate::space::{solution_hom, swapped_hom, FusionTreeHomSpace, Hom, MapSpace};
use crate::writes::apply_writes;

verus! {

/// The refusal of a tensor in another space than needed.
pub open spec fn mismatch(tensor: &'static str) -> OperationError {
    OperationError::StructureMismatch { tensor }
}

/// The refusal of an output space that is not the space of the given maps.
pub open spec fn output_refusal(
    output: MapSpace,
    expected: Hom,
    tensor: &'static str,
) -> Option<OperationError> {
    if output.nout != expected.codomain.len() || output.nin != expected.domain.len() || output.rank
        != expected.codomain.len() + expected.domain.len() || output.homspace@ != expected {
        Some(mismatch(tensor))
    } else {
        None
    }
}

fn check_output(
    output: &MapSpace,
    expected: &FusionTreeHomSpace,
    tensor: &'static str,
) -> (result: Result<(), OperationError>)
    ensures
        result == match output_refusal(*output, expected@, tensor) {
            Some(error) => Err::<(), OperationError>(error),
            None => Ok(()),
        },
{
    let nout: usize = expected.codomain.legs.len();
    let nin: usize = expected.domain.legs.len();
    let agrees: bool = match nout.checked_add(nin) {
        Some(rank) => output.nout == nout && output.nin == nin && output.rank == rank
            && output.homspace.same(expected),
        None => false,
    };
    if agrees {
        Ok(())
    } else {
        Err(OperationError::StructureMismatch { tensor })
    }
}

/// The refusal of two spaces that belong to different rules or to none.
pub open spec fn rule_refusal(source: MapSpace, output: MapSpace) -> Option<OperationError> {
    match (source.rule_identity, output.rule_identity) {
        (None, _) => Some(OperationError::MissingFusionRuleIdentity),
        (Some(_), None) => Some(OperationError::MissingFusionRuleIdentity),
        (Some(expected), Some(actual)) => if expected != actual {
            Some(OperationError::FusionRuleMismatch { expected, actual })
        } else {
            None
        },
    }
}

/// The routes of a pseudo-inverse from `source` to `output`, after all checks
/// of the output space and of both layouts.
pub open spec fn pinv_plan(
    source: MapSpace,
    output: MapSpace,
    source_len: usize,
) -> Result<Seq<InverseSectorRoute>, OperationError> {
    let expected = swapped_hom(source.homspace@);
    match (rule_refusal(source, output), output_refusal(output, expected, "pinv output space")) {
        (Some(error), _) => Err(error),
        (None, refusal) => if source.provider != output.provider {
            Err(mismatch("pinv output provider authority"))
        } else if refusal is Some {
            Err(refusal->0)
        } else {
            match (source.regions, output.regions) {
                (Some(from), to) if regions_canonical(geometries(from@)) => match to {
                    Some(to) if regions_canonical(geometries(to@)) => pinv_region_routes(
                        from@,
                        to@,
                        source_len,
                        output.structure.spec_len(),
                    ),
                    _ => Err(scope("pinv requires canonical coupled-sector output storage")),
                },
                _ => Err(scope("pinv requires canonical coupled-sector input storage")),
            }
        },
    }
}

/// Checks that an output space can take a pseudo-inverse and routes it.
pub fn plan_pinv(
    source: &MapSpace,
    output: &MapSpace,
    source_len: usize,
) -> (result: Result<Vec<InverseSectorRoute>, OperationError>)
    ensures
        values_are(result, pinv_plan(*source, *output, source_len)),
{
    match (source.rule_identity, output.rule_identity) {
        (Some(expected), Some(actual)) => {
            if expected != actual {
                return Err(OperationError::FusionRuleMismatch { expected, actual });
            }
        },
        _ => {
            return Err(OperationError::MissingFusionRuleIdentity);
        },
    }
    if source.provider != output.provider {
        return Err(
            OperationError::StructureMismatch { tensor: "pinv output provider authority" },
        );
    }
    let expected = source.homspace.swapped();
    match check_output(output, &expected, "pinv output space") {
        Ok(()) => {},
        Err(error) => {
            return Err(error);
        },
    }
    let from = match &source.regions {
        Some(regions) => {
            if !crate::input::regions_are_canonical(regions.as_slice()) {
                return Err(
                    unsupported("pinv requires canonical coupled-sector input storage"),
                );
            }
            regions
        },
        None => {
            return Err(unsupported("pinv requires canonical coupled-sector input storage"));
        },
    };
    let to = match &output.regions {
        Some(regions) => {
            if !crate::input::regions_are_canonical(regions.as_slice()) {
                return Err(
                    unsupported("pinv requires canonical coupled-sector output storage"),
                );
            }
            regions
        },
        None => {
            return Err(unsupported("pinv requires canonical coupled-sector output storage"));
        },
    };
    compile_pinv_region_routes(
        from.as_slice(),
        to.as_slice(),
        source_len,
        output.structure.required_len(),
    )
}

/// The first refusal of a divisor region: its range, or that it is not square.
pub open spec fn divisor_refusal(
    regions: Seq<CoupledSectorRegion>,
    len: usize,
    from: int,
) -> Option<OperationError>
    decreases regions.len() - from,
{
    if from < 0 || from >= regions.len() {
        None
    } else {
        match range_refusal(regions[from].end, len) {
            Some(error) => Some(error),
            None => if regions[from].rows != regions[from].cols {
                Some(scope("solve coupled-sector divisor matrices must be square"))
            } else {
                divisor_refusal(regions, len, from + 1)
            },
        }
    }
}

/// The refusal of the three spaces of a left solve, before their layouts are
/// looked at.
pub open spec fn solve_space_refusal(
    divisor: MapSpace,
    rhs: MapSpace,
    output: MapSpace,
) -> Option<OperationError> {
    let expected = solution_hom(divisor.homspace@, rhs.homspace@);
    match (divisor.rule_identity, rhs.rule_identity, output.rule_identity) {
        (Some(by), Some(side), Some(to)) => if by != side {
            Some(OperationError::FusionRuleMismatch { expected: by, actual: side })
        } else if by != to {
            Some(OperationError::FusionRuleMismatch { expected: by, actual: to })
        } else if divisor.provider != output.provider {
            Some(mismatch("solve output provider authority"))
        } else if divisor.homspace@.codomain != rhs.homspace@.codomain {
            Some(scope("solve requires equal divisor and right-hand-side codomains"))
        } else {
            output_refusal(output, expected, "solve output space")
        },
        _ => Some(OperationError::MissingFusionRuleIdentity),
    }
}

/// The routes of a left solve, after all checks of the spaces and layouts.
pub open spec fn solve_left_plan(
    divisor: MapSpace,
    rhs: MapSpace,
    output: MapSpace,
    divisor_len: usize,
    rhs_len: usize,
) -> Result<Seq<SolveLeftSectorRoute>, OperationError> {
    match solve_space_refusal(divisor, rhs, output) {
        Some(error) => Err(error),
        None => match divisor.regions {
            None => Err(scope("solve requires canonical coupled-sector divisor storage")),
            Some(by) => match (divisor_refusal(by@, divisor_len, 0), rhs.regions, output.regions) {
                (Some(error), _, _) => Err(error),
                (None, None, _) => Err(
                    scope("solve requires canonical coupled-sector right-hand-side storage"),
                ),
                (None, Some(_), None) => Err(
                    scope("solve derived output requires canonical coupled-sector storage"),
                ),
                (None, Some(side), Some(to)) => solve_left_routes(
                    by@,
                    side@,
                    to@,
                    divisor_len,
                    rhs_len,
                    output.structure.spec_len(),
                ),
            },
        },
    }
}

/// Checks that an output space can take the solution of `divisor * x = rhs`
/// and routes it.
pub fn plan_solve_left(
    divisor: &MapSpace,
    rhs: &MapSpace,
    output: &MapSpace,
    divisor_len: usize,
    rhs_len: usize,
) -> (result: Result<Vec<SolveLeftSectorRoute>, OperationError>)
    ensures
        values_are(result, solve_left_plan(*divisor, *rhs, *output, divisor_len, rhs_len)),
{
    match (divisor.rule_identity, rhs.rule_identity, output.rule_identity) {
        (Some(by), Some(side), Some(to)) => {
            if by != side {
                return Err(OperationError::FusionRuleMismatch { expected: by, actual: side });
            }
            if by != to {
                return Err(OperationError::FusionRuleMismatch { expected: by, actual: to });
            }
        },
        _ => {
            return Err(OperationError::MissingFusionRuleIdentity);
        },
    }
    if divisor.provider != output.provider {
        return Err(
            OperationError::StructureMismatch { tensor: "solve output provider authority" },
        );
    }
    if !divisor.homspace.codomain.same(&rhs.homspace.codomain) {
        return Err(unsupported("solve requires equal divisor and right-hand-side codomains"));
    }
    let expected = FusionTreeHomSpace {
        codomain: divisor.homspace.domain.duplicate(),
        domain: rhs.homspace.domain.duplicate(),
    };
    match check_output(output, &expected, "solve output space") {
        Ok(()) => {},
        Err(error) => {
            return Err(error);
        },
    }
    let by = match &divisor.regions {
        Some(regions) => regions,
        None => {
            return Err(unsupported("solve requires canonical coupled-sector divisor storage"));
        },
    };
    let mut k: usize = 0;
    while k < by.len()
        invariant
            k <= by@.len(),
            divisor.regions == Some(*by),
            solve_space_refusal(*divisor, *rhs, *output) is None,
            divisor_refusal(by@, divisor_len, 0) == divisor_refusal(by@, divisor_len, k as int),
        decreases by.len() - k,
    {
        match validate_region_range(&by[k], divisor_len) {
            Ok(()) => {},
            Err(error) => {
                return Err(error);
            },
        }
        if by[k].rows != by[k].cols {
            return Err(unsupported("solve coupled-sector divisor matrices must be square"));
        }
        k += 1;
    }
    let side = match &rhs.regions {
        Some(regions) => regions,
        None => {
            return Err(
                unsupported("solve requires canonical coupled-sector right-hand-side storage"),
            );
        },
    };
    let to = match &output.regions {
        Some(regions) => regions,
        None => {
            return Err(
                unsupported("solve derived output requires canonical coupled-sector storage"),
            );
        },
    };
    compile_solve_left_region_routes(
        by.as_slice(),
        side.as_slice(),
        to.as_slice(),
        divisor_len,
        rhs_len,
        output.structure.required_len(),
    )
}

/// The operations that map every square sector on one of the same order.
#[derive(Clone, Copy, Debug, PartialEq, Eq, Structural)]
pub enum SquareOperation {
    Inverse,
    MatrixFunction,
}

/// The refusal of an output without regions.
pub open spec fn square_storage_refusal(operation: SquareOperation) -> OperationError {
    scope(
        match operation {
            SquareOperation::Inverse =>
                "inverse derived output requires canonical coupled-sector storage",
            SquareOperation::MatrixFunction =>
                "matrix function output requires canonical coupled-sector storage",
        },
    )
}

/// How the square sectors of a source go to the regions of an output.
pub enum SquarePlan<D> {
    /// The source has regions of its own.
    Regions(Vec<InverseSectorRoute>),
    /// The source was packed, and its bases are in another order.
    Matrices { matrices: Vec<SectorMatricization<D>>, routes: Vec<InverseMatrixRoute> },
}

/// The plan of an operation on square sectors, or its first refusal.
pub open spec fn square_planned<D>(
    result: Result<SquarePlan<D>, OperationError>,
    source: MapSpace,
    data: Seq<D>,
    output: MapSpace,
    operation: SquareOperation,
    zero: D,
) -> bool {
    match output.regions {
        None => result == Err::<SquarePlan<D>, OperationError>(square_storage_refusal(operation)),
        Some(to) => match source.regions {
            Some(from) => {
                let expected = inverse_region_routes(
                    from@,
                    to@,
                    data.len() as usize,
                    output.structure.spec_len(),
                );
                match (result, expected) {
                    (Ok(SquarePlan::Regions(routes)), Ok(elements)) => routes@ == elements,
                    (Err(error), Err(refusal)) => error == refusal,
                    _ => false,
                }
            },
            None => packed_square(result, source, data, to@, output.structure.spec_len(), zero),
        },
    }
}

/// The plan of a packed source: its matrices, and their routes.
pub open spec fn packed_square<D>(
    result: Result<SquarePlan<D>, OperationError>,
    source: MapSpace,
    data: Seq<D>,
    output: Seq<CoupledSectorRegion>,
    output_len: usize,
    zero: D,
) -> bool {
    let blocks = source.structure.spec_blocks();
    match result {
        Ok(SquarePlan::Matrices { matrices, routes }) => {
            &&& matricized(Ok(matrices), blocks, data, source.nout as int, zero)
            &&& inverse_matrix_routes(geometries(matrices@), output, output_len) == Ok::<
                Seq<MatrixRoute>,
                OperationError,
            >(matrix_routes(routes@))
        },
        Ok(_) => false,
        Err(error) => {
            ||| matricized(Err(error), blocks, data, source.nout as int, zero)
            ||| exists|matrices: Vec<SectorMatricization<D>>|
                {
                    &&& #[trigger] matricized(
                        Ok(matrices),
                        blocks,
                        data,
                        source.nout as int,
                        zero,
                    )
                    &&& inverse_matrix_routes(geometries(matrices@), output, output_len) == Err::<
                        Seq<MatrixRoute>,
                        OperationError,
                    >(error)
                }
        },
    }
}

/// Routes every square sector of a source to the output region of its sector.
pub fn plan_square_sectors<D: Copy>(
    source: &MapSpace,
    data: &[D],
    output: &MapSpace,
    operation: SquareOperation,
    zero: D,
) -> (result: Result<SquarePlan<D>, OperationError>)
    requires
        source.structure.wf(),
        data@.len() >= source.structure.spec_len(),
        source.regions is None ==> stackable(source.structure.spec_blocks(), source.nout as int),
    ensures
        square_planned(result, *source, data@, *output, operation, zero),
{
    let to = match &output.regions {
        Some(regions) => regions,
        None => {
            return Err(
                unsupported(
                    match operation {
                        SquareOperation::Inverse =>
                            "inverse derived output requires canonical coupled-sector storage",
                        SquareOperation::MatrixFunction =>
                            "matrix function output requires canonical coupled-sector storage",
                    },
                ),
            );
        },
    };
    let output_len: usize = output.structure.required_len();
    match &source.regions {
        Some(from) => match compile_inverse_region_routes(
            from.as_slice(),
            to.as_slice(),
            data.len(),
            output_len,
        ) {
            Ok(routes) => Ok(SquarePlan::Regions(routes)),
            Err(error) => Err(error),
        },
        None => match sector_matricizations(&source.structure, data, source.nout, zero) {
            Err(error) => Err(error),
            Ok(matrices) => match compile_inverse_matrix_routes(
                matrices.as_slice(),
                to.as_slice(),
                output_len,
            ) {
                Ok(routes) => Ok(SquarePlan::Matrices { matrices, routes }),
                Err(error) => {
                    proof {
                        assert(matricized(
                            Ok(matrices),
                            source.structure.spec_blocks(),
                            data@,
                            source.nout as int,
                            zero,
                        ));
                    }
                    Err(error)
                },
            },
        },
    }
}

/// The plan of a matrix function, whose output has to keep the input's space.
pub fn plan_matrix_function<D: Copy>(
    source: &MapSpace,
    data: &[D],
    output: &MapSpace,
    zero: D,
) -> (result: Result<SquarePlan<D>, OperationError>)
    requires
        source.structure.wf(),
        data@.len() >= source.structure.spec_len(),
        source.regions is None ==> stackable(source.structure.spec_blocks(), source.nout as int),
    ensures
        if source.homspace@ != output.homspace@ {
            result == Err::<SquarePlan<D>, OperationError>(
                scope("matrix function output must preserve the input homspace"),
            )
        } else {
            square_planned(result, *source, data@, *output, SquareOperation::MatrixFunction, zero)
        },
{
    if !source.homspace.same(&output.homspace) {
        return Err(unsupported("matrix function output must preserve the input homspace"));
    }
    plan_square_sectors(source, data, output, SquareOperation::MatrixFunction, zero)
}

/// The largest order among the source matrices of the first `count` routes.
pub open spec fn largest_order(orders: Seq<usize>, count: int) -> usize
    decreases count,
{
    if count <= 0 {
        0
    } else {
        let before = largest_order(orders, count - 1);
        if orders[count - 1] > before {
            orders[count - 1]
        } else {
            before
        }
    }
}

/// The largest of some orders, zero where there is none.
pub fn max_order(orders: &[usize]) -> (order: usize)
    ensures
        order == largest_order(orders@, orders@.len() as int),
        forall|k: int| 0 <= k < orders@.len() ==> (#[trigger] orders@[k]) <= order,
        orders@.len() > 0 ==> orders@.contains(order),
        orders@.len() == 0 ==> order == 0,
{
    let mut order: usize = 0;
    let mut k: usize = 0;
    while k < orders.len()
        invariant
            k <= orders@.len(),
            order == largest_order(orders@, k as int),
            forall|j: int| 0 <= j < k ==> (#[trigger] orders@[j]) <= order,
            k == 0 ==> order == 0,
            k > 0 ==> exists|j: int| 0 <= j < k && (#[trigger] orders@[j]) == order,
        decreases orders.len() - k,
    {
        let next: usize = orders[k];
        if next > order {
            order = next;
            assert(orders@[k as int] == order);
        } else if k == 0 {
            assert(orders@[0] == order);
        }
        k += 1;
    }
    order
}

/// The output after the first `count` images were written, each where the
/// region that it belongs to starts.
pub open spec fn region_images<D>(
    data: Seq<D>,
    outputs: Seq<usize>,
    images: Seq<Vec<D>>,
    regions: Seq<CoupledSectorRegion>,
    count: int,
) -> Seq<D>
    decreases count,
{
    if count <= 0 {
        data
    } else {
        splice(
            region_images(data, outputs, images, regions, count - 1),
            regions[outputs[count - 1] as int].start as int,
            images[count - 1]@,
        )
    }
}

/// Every image has the length of its region, which lies in the output.
pub open spec fn images_fit<D>(
    outputs: Seq<usize>,
    images: Seq<Vec<D>>,
    regions: Seq<CoupledSectorRegion>,
    len: int,
) -> bool {
    &&& outputs.len() == images.len()
    &&& forall|k: int|
        0 <= k < outputs.len() ==> {
            &&& (#[trigger] outputs[k]) < regions.len()
            &&& regions[outputs[k] as int].start + images[k]@.len()
                == regions[outputs[k] as int].end
            &&& regions[outputs[k] as int].end <= len
        }
}

/// Writes the image of every job into the region it belongs to; what no image
/// covers is zero.
pub fn publish_region_images<D: Copy>(
    outputs: &[usize],
    images: &[Vec<D>],
    regions: &[CoupledSectorRegion],
    output_len: usize,
    zero: D,
) -> (data: Vec<D>)
    requires
        images_fit(outputs@, images@, regions@, output_len as int),
    ensures
        data@ == region_images(
            zeros(zero, output_len as int),
            outputs@,
            images@,
            regions@,
            outputs@.len() as int,
        ),
{
    let mut data: Vec<D> = filled(zero, output_len);
    let ghost start = data@;
    let mut k: usize = 0;
    while k < outputs.len()
        invariant
            k <= outputs@.len(),
            images_fit(outputs@, images@, regions@, output_len as int),
            start == zeros(zero, output_len as int),
            data@.len() == output_len,
            data@ == region_images(start, outputs@, images@, regions@, k as int),
        decreases outputs.len() - k,
    {
        let output: usize = outputs[k];
        write_range(data.as_mut_slice(), regions[output].start, images[k].as_slice());
        k += 1;
    }
    data
}

/// The output after the images of the first `count` routes, each with its own
/// number of rows, were moved into the output basis.
pub open spec fn reordered_images<D>(
    data: Seq<D>,
    routes: Seq<MatrixRoute>,
    images: Seq<Vec<D>>,
    leading: Seq<usize>,
    regions: Seq<CoupledSectorRegion>,
    count: int,
) -> Seq<D>
    decreases count,
{
    if count <= 0 {
        data
    } else {
        let before = reordered_images(data, routes, images, leading, regions, count - 1);
        let route = routes[count - 1];
        let region = regions[route.output as int];
        splice(
            before,
            region.start as int,
            apply_writes(
                before.subrange(region.start as int, region.end as int),
                reorder_writes(
                    images[count - 1]@,
                    leading[count - 1] as int,
                    region.rows as int,
                    route.rows,
                    route.cols,
                    route.rows.len() as int,
                ),
            ),
        )
    }
}

/// Every image can be moved into the output basis inside its region.
pub open spec fn reordered_images_fit<D>(
    routes: Seq<MatrixRoute>,
    images: Seq<Vec<D>>,
    leading: Seq<usize>,
    regions: Seq<CoupledSectorRegion>,
    len: int,
) -> bool {
    &&& routes.len() == images.len()
    &&& routes.len() == leading.len()
    &&& forall|k: int|
        0 <= k < routes.len() ==> {
            let region = regions[(#[trigger] routes[k]).output as int];
            &&& routes[k].output < regions.len()
            &&& region.start <= region.end <= len
            &&& reorder_fits(
                leading[k] as int,
                images[k]@.len() as int,
                region.rows as int,
                region.end - region.start,
                routes[k].rows,
                routes[k].cols,
            )
        }
}

/// Moves the image of every packed matrix into the output basis of its region;
/// what no image covers is zero.
pub fn publish_reordered_images<D: Copy>(
    routes: &[InverseMatrixRoute],
    images: &[Vec<D>],
    leading: &[usize],
    regions: &[CoupledSectorRegion],
    output_len: usize,
    zero: D,
) -> (data: Vec<D>)
    requires
        reordered_images_fit(
            matrix_routes(routes@),
            images@,
            leading@,
            regions@,
            output_len as int,
        ),
    ensures
        data@ == reordered_images(
            zeros(zero, output_len as int),
            matrix_routes(routes@),
            images@,
            leading@,
            regions@,
            routes@.len() as int,
        ),
{
    let ghost views = matrix_routes(routes@);
    let mut data: Vec<D> = filled(zero, output_len);
    let ghost start = data@;
    let mut k: usize = 0;
    while k < routes.len()
        invariant
            k <= routes@.len(),
            views == matrix_routes(routes@),
            reordered_images_fit(views, images@, leading@, regions@, output_len as int),
            start == zeros(zero, output_len as int),
            data@.len() == output_len,
            data@ == reordered_images(start, views, images@, leading@, regions@, k as int),
        decreases routes.len() - k,
    {
        let route = &routes[k];
        assert(views[k as int] == route@);
        let region = &regions[route.output];
        let part = vstd::slice::slice_subrange(data.as_slice(), region.start, region.end);
        let mut image: Vec<D> = vstd::slice::slice_to_vec(part);
        reorder_inverse_solution(
            images[k].as_slice(),
            leading[k],
            image.as_mut_slice(),
            region.rows,
            route.rows.as_slice(),
            route.cols.as_slice(),
        );
        write_range(data.as_mut_slice(), region.start, image.as_slice());
        k += 1;
    }
    data
}

/// The routes whose source matrix has elements.
pub open spec fn filled_routes(
    routes: Seq<InverseSectorRoute>,
    source: Seq<CoupledSectorRegion>,
    count: int,
) -> Seq<InverseSectorRoute>
    decreases count,
{
    if count <= 0 {
        Seq::empty()
    } else {
        let before = filled_routes(routes, source, count - 1);
        let region = source[routes[count - 1].source as int];
        if region.rows == 0 || region.cols == 0 {
            before
        } else {
            before.push(routes[count - 1])
        }
    }
}

/// The jobs of an inverse or pseudo-inverse: its routes without the empty
/// sectors.
pub fn sector_jobs(
    routes: &[InverseSectorRoute],
    source: &[CoupledSectorRegion],
) -> (jobs: Vec<InverseSectorRoute>)
    requires
        forall|k: int| 0 <= k < routes@.len() ==> (#[trigger] routes@[k]).source < source@.len(),
    ensures
        jobs@ == filled_routes(routes@, source@, routes@.len() as int),
{
    let mut jobs: Vec<InverseSectorRoute> = Vec::new();
    let mut k: usize = 0;
    while k < routes.len()
        invariant
            k <= routes@.len(),
            forall|j: int|
                0 <= j < routes@.len() ==> (#[trigger] routes@[j]).source < source@.len(),
            jobs@ == filled_routes(routes@, source@, k as int),
        decreases routes.len() - k,
    {
        let route = routes[k];
        let region = &source[route.source];
        if region.rows != 0 && region.cols != 0 {
            jobs.push(route);
        }
        k += 1;
    }
    jobs
}

/// The routes of a left solve that have something to solve.
pub open spec fn filled_solves(
    routes: Seq<SolveLeftSectorRoute>,
    divisor: Seq<CoupledSectorRegion>,
    output: Seq<CoupledSectorRegion>,
    count: int,
) -> Seq<SolveLeftSectorRoute>
    decreases count,
{
    if count <= 0 {
        Seq::empty()
    } else {
        let before = filled_solves(routes, divisor, output, count - 1);
        let route = routes[count - 1];
        if divisor[route.divisor as int].rows == 0 || output[route.output as int].cols == 0 {
            before
        } else {
            before.push(route)
        }
    }
}

/// The jobs of a left solve: its routes without the empty sectors.
pub fn solve_left_jobs(
    routes: &[SolveLeftSectorRoute],
    divisor: &[CoupledSectorRegion],
    output: &[CoupledSectorRegion],
) -> (jobs: Vec<SolveLeftSectorRoute>)
    requires
        forall|k: int|
            0 <= k < routes@.len() ==> (#[trigger] routes@[k]).divisor < divisor@.len()
                && routes@[k].output < output@.len(),
    ensures
        jobs@ == filled_solves(routes@, divisor@, output@, routes@.len() as int),
{
    let mut jobs: Vec<SolveLeftSectorRoute> = Vec::new();
    let mut k: usize = 0;
    while k < routes.len()
        invariant
            k <= routes@.len(),
            forall|j: int|
                0 <= j < routes@.len() ==> (#[trigger] routes@[j]).divisor < divisor@.len()
                    && routes@[j].output < output@.len(),
            jobs@ == filled_solves(routes@, divisor@, output@, k as int),
        decreases routes.len() - k,
    {
        let route = routes[k];
        if divisor[route.divisor].rows != 0 && output[route.output].cols != 0 {
            jobs.push(route);
        }
        k += 1;
    }
    jobs
}

/// The answer that a provider may give to whether two spaces are isomorphic.
pub open spec fn verdict_is<F: Fn() -> Result<bool, OperationError>>(
    isomorphic: F,
    verdict: Result<bool, OperationError>,
) -> bool {
    call_ensures(isomorphic, (), verdict)
}

/// The outcome of an admission for one verdict of the provider: its own failure,
/// the refusal, or the space that is asked for.
pub open spec fn admitted_hom(
    result: Result<FusionTreeHomSpace, OperationError>,
    verdict: Result<bool, OperationError>,
    refusal: OperationError,
    hom: Hom,
) -> bool {
    match verdict {
        Err(error) => result == Err::<FusionTreeHomSpace, OperationError>(error),
        Ok(false) => result == Err::<FusionTreeHomSpace, OperationError>(refusal),
        Ok(true) => result is Ok && result->Ok_0@ == hom,
    }
}

/// The refusal of a divisor and a right-hand side of different rules, where both
/// have one, or of different codomains.
pub open spec fn solve_refusal(divisor: MapSpace, rhs: MapSpace) -> Option<OperationError> {
    match (divisor.rule_identity, rhs.rule_identity) {
        (Some(expected), Some(actual)) if expected != actual => Some(
            OperationError::FusionRuleMismatch { expected, actual },
        ),
        _ => if divisor.homspace@.codomain != rhs.homspace@.codomain {
            Some(scope("solve requires equal divisor and right-hand-side codomains"))
        } else {
            None
        },
    }
}

/// Admits the solution of `divisor * x = rhs`: the spaces of `x`, where rules and
/// codomains agree and the provider finds codomain and domain of the divisor
/// isomorphic. The provider is asked last.
pub fn admit_left_solve<F: Fn() -> Result<bool, OperationError>>(
    divisor: &MapSpace,
    rhs: &MapSpace,
    isomorphic: &F,
) -> (result: Result<FusionTreeHomSpace, OperationError>)
    requires
        call_requires(isomorphic, ()),
    ensures
        match solve_refusal(*divisor, *rhs) {
            Some(error) => result == Err::<FusionTreeHomSpace, OperationError>(error),
            None => exists|verdict: Result<bool, OperationError>| #[trigger]
                verdict_is(isomorphic, verdict) && admitted_hom(
                    result,
                    verdict,
                    scope("solve requires an isomorphic divisor codomain and domain"),
                    solution_hom(divisor.homspace@, rhs.homspace@),
                ),
        },
{
    if let (Some(expected), Some(actual)) = (divisor.rule_identity, rhs.rule_identity) {
        if expected != actual {
            return Err(OperationError::FusionRuleMismatch { expected, actual });
        }
    }
    if !divisor.homspace.codomain.same(&rhs.homspace.codomain) {
        return Err(
            crate::error::unsupported(
                "solve requires equal divisor and right-hand-side codomains",
            ),
        );
    }
    let verdict = isomorphic();
    assert(verdict_is(isomorphic, verdict));
    match verdict {
        Err(error) => Err(error),
        Ok(false) => Err(
            crate::error::unsupported("solve requires an isomorphic divisor codomain and domain"),
        ),
        Ok(true) => Ok(
            FusionTreeHomSpace {
                codomain: divisor.homspace.domain.duplicate(),
                domain: rhs.homspace.domain.duplicate(),
            },
        ),
    }
}

/// Admits the inverse of a map: the spaces of the inverse, where the provider
/// finds codomain and domain isomorphic.
pub fn admit_inverse<F: Fn() -> Result<bool, OperationError>>(
    source: &MapSpace,
    isomorphic: &F,
) -> (result: Result<FusionTreeHomSpace, OperationError>)
    requires
        call_requires(isomorphic, ()),
    ensures
        exists|verdict: Result<bool, OperationError>| #[trigger]
            verdict_is(isomorphic, verdict) && admitted_hom(
                result,
                verdict,
                scope("inv requires isomorphic codomain and domain"),
                swapped_hom(source.homspace@),
            ),
{
    let verdict = isomorphic();
    assert(verdict_is(isomorphic, verdict));
    match verdict {
        Err(error) => Err(error),
        Ok(false) => Err(
            crate::error::unsupported("inv requires isomorphic codomain and domain"),
        ),
        Ok(true) => Ok(source.homspace.swapped()),
    }
}

} // verus!
