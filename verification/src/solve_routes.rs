//! Routing of linear solves: right-hand sides, and bases in another order.

use vstd::prelude::*;

use crate::error::{unsupported, OperationError};
use crate::geometry::{
    find_tree, geometries, lemma_sector_position, same_extents, sector_position, sectors_distinct,
    span_position, spans, trees_distinct, CoupledSectorRegion, Geometry, SectorGeometry,
    SectorMatricization, Span, TreeExtent,
};
use crate::index::{extent, extent_fits};
use crate::matricize::indexes_sectors;
use crate::outcome::{all_ok, lemma_all_ok_fails, lemma_all_ok_step};
use crate::publish::scope;
use crate::routes::{
    covers, covers_all, duplicate_sector, range_refusal, sector_region_index_map,
    validate_region_range, values_are,
};
use crate::sector::same_numbers;
use crate::writes::{apply_writes, lemma_writes_concat, lemma_writes_step, Write};

verus! {

/// The regions of one sector in a left solve.
#[derive(Clone, Copy, Debug, PartialEq, Eq, Structural)]
pub struct SolveLeftSectorRoute {
    pub divisor: usize,
    pub rhs: usize,
    pub output: usize,
}

/// The refusal of three regions that do not fit into one solve.
pub open spec fn solve_refusal(
    divisor: Geometry,
    rhs: Geometry,
    output: Geometry,
) -> Option<OperationError> {
    if divisor.rows != divisor.cols || rhs.rows != divisor.rows || output.rows != divisor.cols
        || output.cols != rhs.cols {
        Some(scope("solve coupled-sector matrix dimensions are incompatible"))
    } else if divisor.row_trees != rhs.row_trees || divisor.col_trees != output.row_trees
        || rhs.col_trees != output.col_trees {
        Some(scope("solve coupled-sector tree bases are incompatible"))
    } else {
        None
    }
}

/// The route of one output region of a left solve.
pub open spec fn solve_left_route(
    divisor: Seq<CoupledSectorRegion>,
    rhs: Seq<CoupledSectorRegion>,
    output: Seq<CoupledSectorRegion>,
    divisor_len: usize,
    rhs_len: usize,
    output_len: usize,
    k: int,
) -> Result<SolveLeftSectorRoute, OperationError> {
    match (
        sector_position(geometries(divisor), output[k].coupled, 0),
        sector_position(geometries(rhs), output[k].coupled, 0),
    ) {
        (None, _) => Err(scope("solve divisor is missing an output coupled sector")),
        (Some(_), None) => Err(
            scope("solve right-hand side is missing an output coupled sector"),
        ),
        (Some(d), Some(r)) => match (
            solve_refusal(divisor[d].geometry(), rhs[r].geometry(), output[k].geometry()),
            range_refusal(divisor[d].end, divisor_len),
            range_refusal(rhs[r].end, rhs_len),
            range_refusal(output[k].end, output_len),
        ) {
            (Some(error), _, _, _) => Err(error),
            (None, Some(error), _, _) => Err(error),
            (None, None, Some(error), _) => Err(error),
            (None, None, None, Some(error)) => Err(error),
            (None, None, None, None) => Ok(
                SolveLeftSectorRoute { divisor: d as usize, rhs: r as usize, output: k as usize },
            ),
        },
    }
}

/// The routes of all output regions of a left solve.
pub open spec fn solve_left_routes(
    divisor: Seq<CoupledSectorRegion>,
    rhs: Seq<CoupledSectorRegion>,
    output: Seq<CoupledSectorRegion>,
    divisor_len: usize,
    rhs_len: usize,
    output_len: usize,
) -> Result<Seq<SolveLeftSectorRoute>, OperationError> {
    if !sectors_distinct(geometries(divisor)) || !sectors_distinct(geometries(rhs)) {
        Err(duplicate_sector())
    } else {
        match all_ok(
            Seq::new(
                output.len(),
                |k: int|
                    solve_left_route(divisor, rhs, output, divisor_len, rhs_len, output_len, k),
            ),
        ) {
            Err(error) => Err(error),
            Ok(routes) => if rhs.len() != output.len() {
                Err(scope("solve right-hand side contains a sector absent from the output"))
            } else {
                Ok(routes)
            },
        }
    }
}

/// Pairs every output region with the divisor and the right-hand side of its
/// sector.
pub fn compile_solve_left_region_routes(
    divisor: &[CoupledSectorRegion],
    rhs: &[CoupledSectorRegion],
    output: &[CoupledSectorRegion],
    divisor_len: usize,
    rhs_len: usize,
    output_len: usize,
) -> (result: Result<Vec<SolveLeftSectorRoute>, OperationError>)
    ensures
        values_are(
            result,
            solve_left_routes(divisor@, rhs@, output@, divisor_len, rhs_len, output_len),
        ),
{
    let ghost divisors = geometries(divisor@);
    let ghost sides = geometries(rhs@);
    let ghost outcomes = Seq::new(
        output@.len(),
        |k: int|
            solve_left_route(divisor@, rhs@, output@, divisor_len, rhs_len, output_len, k),
    );
    let divisor_map = match sector_region_index_map(divisor) {
        Ok(map) => map,
        Err(error) => {
            return Err(error);
        },
    };
    let rhs_map = match sector_region_index_map(rhs) {
        Ok(map) => map,
        Err(error) => {
            return Err(error);
        },
    };
    let mut routes: Vec<SolveLeftSectorRoute> = Vec::with_capacity(output.len());
    let mut k: usize = 0;
    assert(outcomes.take(0) =~= Seq::empty());
    while k < output.len()
        invariant
            k <= output@.len(),
            routes@.len() == k,
            divisors == geometries(divisor@),
            sides == geometries(rhs@),
            sectors_distinct(divisors),
            sectors_distinct(sides),
            indexes_sectors(divisor_map@, divisors),
            indexes_sectors(rhs_map@, sides),
            outcomes == Seq::new(
                output@.len(),
                |k: int|
                    solve_left_route(
                        divisor@,
                        rhs@,
                        output@,
                        divisor_len,
                        rhs_len,
                        output_len,
                        k,
                    ),
            ),
            all_ok(outcomes.take(k as int)) == Ok::<Seq<SolveLeftSectorRoute>, OperationError>(
                routes@,
            ),
        decreases output.len() - k,
    {
        let to = &output[k];
        proof {
            lemma_all_ok_step(outcomes, k as int);
            lemma_sector_position(divisors, to.coupled, 0);
            lemma_sector_position(sides, to.coupled, 0);
            if outcomes[k as int] is Err {
                lemma_all_ok_fails(outcomes, k as int);
            }
        }
        let d: usize = match divisor_map.get(to.coupled) {
            Some(d) => d,
            None => {
                return Err(unsupported("solve divisor is missing an output coupled sector"));
            },
        };
        let r: usize = match rhs_map.get(to.coupled) {
            Some(r) => r,
            None => {
                return Err(
                    unsupported("solve right-hand side is missing an output coupled sector"),
                );
            },
        };
        let by = &divisor[d];
        let side = &rhs[r];
        if by.rows != by.cols || side.rows != by.rows || to.rows != by.cols || to.cols
            != side.cols {
            return Err(unsupported("solve coupled-sector matrix dimensions are incompatible"));
        }
        if !same_extents(by.row_trees.as_slice(), side.row_trees.as_slice()) || !same_extents(
            by.col_trees.as_slice(),
            to.row_trees.as_slice(),
        ) || !same_extents(side.col_trees.as_slice(), to.col_trees.as_slice()) {
            return Err(unsupported("solve coupled-sector tree bases are incompatible"));
        }
        match validate_region_range(by, divisor_len) {
            Ok(()) => {},
            Err(error) => {
                return Err(error);
            },
        }
        match validate_region_range(side, rhs_len) {
            Ok(()) => {},
            Err(error) => {
                return Err(error);
            },
        }
        match validate_region_range(to, output_len) {
            Ok(()) => {},
            Err(error) => {
                return Err(error);
            },
        }
        routes.push(SolveLeftSectorRoute { divisor: d, rhs: r, output: k });
        k += 1;
    }
    assert(outcomes.take(output@.len() as int) =~= outcomes);
    if rhs.len() != routes.len() {
        return Err(
            unsupported("solve right-hand side contains a sector absent from the output"),
        );
    }
    Ok(routes)
}

/// A range of basis elements in two orders of one basis.
#[derive(Clone, Copy, Debug, PartialEq, Eq, Structural)]
pub struct InverseBasisExtent {
    pub source_offset: usize,
    pub output_offset: usize,
    pub extent: usize,
}

/// The range of one source tree in the output basis.
pub open spec fn basis_extent(source: Span, output: Seq<Span>) -> Result<
    InverseBasisExtent,
    OperationError,
> {
    match span_position(output, source.tree, 0) {
        None => Err(scope("inverse output is missing a source tree basis")),
        Some(o) => if source.shape != output[o].shape {
            Err(scope("inverse output tree basis has an unexpected shape"))
        } else if !extent_fits(output[o].shape) {
            Err(OperationError::ElementCountOverflow)
        } else {
            Ok(
                InverseBasisExtent {
                    source_offset: source.offset,
                    output_offset: output[o].offset,
                    extent: extent(output[o].shape) as usize,
                },
            )
        },
    }
}

/// The positions of the source trees in the output basis.
pub open spec fn basis_positions(source: Seq<Span>, output: Seq<Span>) -> Seq<usize> {
    source.map_values(|span: Span| span_position(output, span.tree, 0)->0 as usize)
}

/// The ranges of all source trees in the output basis, which has no tree twice
/// and none that the source does not have.
pub open spec fn basis_extents(source: Seq<Span>, output: Seq<Span>) -> Result<
    Seq<InverseBasisExtent>,
    OperationError,
> {
    if !trees_distinct(output) {
        Err(scope("inverse output contains a duplicate tree basis"))
    } else {
        match all_ok(Seq::new(source.len(), |k: int| basis_extent(source[k], output))) {
            Err(error) => Err(error),
            Ok(extents) => if covers(basis_positions(source, output), output.len() as int) {
                Ok(extents)
            } else {
                Err(scope("inverse output contains a tree basis absent from the source"))
            },
        }
    }
}

/// Whether no tree occurs twice.
fn has_distinct_trees(extents: &[TreeExtent]) -> (distinct: bool)
    ensures
        distinct == trees_distinct(spans(extents@)),
{
    let ghost all = spans(extents@);
    let mut j: usize = 0;
    while j < extents.len()
        invariant
            j <= extents@.len(),
            all == spans(extents@),
            forall|a: int, b: int|
                0 <= a < b < j ==> (#[trigger] all[a]).tree != (#[trigger] all[b]).tree,
        decreases extents.len() - j,
    {
        let mut i: usize = 0;
        while i < j
            invariant
                i <= j < extents@.len(),
                all == spans(extents@),
                forall|a: int| 0 <= a < i ==> (#[trigger] all[a]).tree != all[j as int].tree,
            decreases j - i,
        {
            if extents[i].tree.same(&extents[j].tree) {
                assert(all[i as int].tree == all[j as int].tree);
                return false;
            }
            i += 1;
        }
        j += 1;
    }
    true
}

/// Finds the range of every source tree in the output basis.
pub fn compile_inverse_basis_extents(
    source: &[TreeExtent],
    output: &[TreeExtent],
) -> (result: Result<Vec<InverseBasisExtent>, OperationError>)
    ensures
        values_are(result, basis_extents(spans(source@), spans(output@))),
{
    let ghost from = spans(source@);
    let ghost to = spans(output@);
    let ghost outcomes = Seq::new(from.len(), |k: int| basis_extent(from[k], to));
    let ghost expected = basis_positions(from, to);
    if !has_distinct_trees(output) {
        return Err(unsupported("inverse output contains a duplicate tree basis"));
    }
    let mut positions: Vec<usize> = Vec::with_capacity(source.len());
    let mut extents: Vec<InverseBasisExtent> = Vec::with_capacity(source.len());
    let mut k: usize = 0;
    assert(outcomes.take(0) =~= Seq::empty());
    while k < source.len()
        invariant
            k <= source@.len(),
            from == spans(source@),
            to == spans(output@),
            trees_distinct(to),
            outcomes == Seq::new(from.len(), |k: int| basis_extent(from[k], to)),
            expected == basis_positions(from, to),
            positions@.len() == k,
            forall|j: int|
                0 <= j < k ==> (#[trigger] positions@[j]) < output@.len() && positions@[j]
                    == expected[j],
            all_ok(outcomes.take(k as int)) == Ok::<Seq<InverseBasisExtent>, OperationError>(
                extents@,
            ),
        decreases source.len() - k,
    {
        let tree = &source[k];
        proof {
            assert(from[k as int] == tree@);
            lemma_all_ok_step(outcomes, k as int);
            if outcomes[k as int] is Err {
                lemma_all_ok_fails(outcomes, k as int);
            }
        }
        let at: usize = match find_tree(output, &tree.tree) {
            Some(at) => at,
            None => {
                return Err(unsupported("inverse output is missing a source tree basis"));
            },
        };
        let target = &output[at];
        assert(to[at as int] == target@);
        if !same_numbers(tree.shape(), target.shape()) {
            return Err(unsupported("inverse output tree basis has an unexpected shape"));
        }
        let extent: usize = match target.extent() {
            Ok(extent) => extent,
            Err(error) => {
                return Err(error);
            },
        };
        positions.push(at);
        extents.push(
            InverseBasisExtent {
                source_offset: tree.offset,
                output_offset: target.offset,
                extent,
            },
        );
        k += 1;
    }
    proof {
        assert(outcomes.take(from.len() as int) =~= outcomes);
        assert(positions@ =~= expected);
    }
    if !covers_all(positions.as_slice(), output.len()) {
        return Err(unsupported("inverse output contains a tree basis absent from the source"));
    }
    Ok(extents)
}

/// A source matrix, the output region that takes its image, and the ranges of
/// the image's rows and columns in the output basis.
#[derive(Clone, Debug, PartialEq, Eq)]
pub struct InverseMatrixRoute {
    pub source: usize,
    pub output: usize,
    pub rows: Vec<InverseBasisExtent>,
    pub cols: Vec<InverseBasisExtent>,
}

/// What an [`InverseMatrixRoute`] stands for.
pub struct MatrixRoute {
    pub source: usize,
    pub output: usize,
    pub rows: Seq<InverseBasisExtent>,
    pub cols: Seq<InverseBasisExtent>,
}

impl View for InverseMatrixRoute {
    type V = MatrixRoute;

    open spec fn view(&self) -> MatrixRoute {
        MatrixRoute {
            source: self.source,
            output: self.output,
            rows: self.rows@,
            cols: self.cols@,
        }
    }
}

/// The route of one source matrix.
pub open spec fn inverse_matrix_route(
    source: Seq<Geometry>,
    output: Seq<CoupledSectorRegion>,
    output_len: usize,
    k: int,
) -> Result<MatrixRoute, OperationError> {
    match sector_position(geometries(output), source[k].sector, 0) {
        None => Err(scope("inverse output is missing a source coupled sector")),
        Some(o) => {
            let from = source[k];
            let to = output[o].geometry();
            if from.rows != from.cols || to.rows != from.cols || to.cols != from.rows {
                Err(scope("inverse coupled-sector matrix is not square"))
            } else {
                match (
                    range_refusal(output[o].end, output_len),
                    basis_extents(from.col_trees, to.row_trees),
                    basis_extents(from.row_trees, to.col_trees),
                ) {
                    (Some(error), _, _) => Err(error),
                    (None, Err(error), _) => Err(error),
                    (None, Ok(_), Err(error)) => Err(error),
                    (None, Ok(rows), Ok(cols)) => Ok(
                        MatrixRoute { source: k as usize, output: o as usize, rows, cols },
                    ),
                }
            }
        },
    }
}

/// The output regions that the routes use.
pub open spec fn matrix_route_outputs(routes: Seq<MatrixRoute>) -> Seq<usize> {
    routes.map_values(|route: MatrixRoute| route.output)
}

/// The routes of all source matrices, where no output sector occurs twice and
/// every output region is used.
pub open spec fn inverse_matrix_routes(
    source: Seq<Geometry>,
    output: Seq<CoupledSectorRegion>,
    output_len: usize,
) -> Result<Seq<MatrixRoute>, OperationError> {
    if !sectors_distinct(geometries(output)) {
        Err(duplicate_sector())
    } else {
        match all_ok(
            Seq::new(
                source.len(),
                |k: int| inverse_matrix_route(source, output, output_len, k),
            ),
        ) {
            Err(error) => Err(error),
            Ok(routes) => if covers(matrix_route_outputs(routes), output.len() as int) {
                Ok(routes)
            } else {
                Err(scope("inverse output contains a coupled sector absent from the source"))
            },
        }
    }
}

/// What the routes stand for.
pub open spec fn matrix_routes(routes: Seq<InverseMatrixRoute>) -> Seq<MatrixRoute> {
    routes.map_values(|route: InverseMatrixRoute| route@)
}

/// Pairs every square source matrix with the output region of its sector and
/// finds its rows and columns in the output basis.
pub fn compile_inverse_matrix_routes<D>(
    source: &[SectorMatricization<D>],
    output: &[CoupledSectorRegion],
    output_len: usize,
) -> (result: Result<Vec<InverseMatrixRoute>, OperationError>)
    ensures
        match (result, inverse_matrix_routes(geometries(source@), output@, output_len)) {
            (Ok(routes), Ok(expected)) => matrix_routes(routes@) == expected,
            (Err(error), Err(expected)) => error == expected,
            _ => false,
        },
{
    let ghost all = geometries(output@);
    let ghost from = geometries(source@);
    let ghost outcomes = Seq::new(
        from.len(),
        |k: int| inverse_matrix_route(from, output@, output_len, k),
    );
    let map = match sector_region_index_map(output) {
        Ok(map) => map,
        Err(error) => {
            return Err(error);
        },
    };
    let mut routes: Vec<InverseMatrixRoute> = Vec::with_capacity(source.len());
    let mut outputs: Vec<usize> = Vec::with_capacity(source.len());
    let mut k: usize = 0;
    proof {
        assert(outcomes.take(0) =~= Seq::empty());
        assert(matrix_routes(routes@) =~= Seq::empty());
        assert(outputs@ =~= matrix_route_outputs(matrix_routes(routes@)));
    }
    while k < source.len()
        invariant
            k <= source@.len(),
            from == geometries(source@),
            all == geometries(output@),
            sectors_distinct(all),
            indexes_sectors(map@, all),
            outcomes == Seq::new(
                from.len(),
                |k: int| inverse_matrix_route(from, output@, output_len, k),
            ),
            all_ok(outcomes.take(k as int)) == Ok::<Seq<MatrixRoute>, OperationError>(
                matrix_routes(routes@),
            ),
            outputs@ == matrix_route_outputs(matrix_routes(routes@)),
            forall|j: int| 0 <= j < outputs@.len() ==> (#[trigger] outputs@[j]) < output@.len(),
        decreases source.len() - k,
    {
        let matrix = &source[k];
        proof {
            assert(from[k as int] == matrix.geometry());
            lemma_all_ok_step(outcomes, k as int);
            lemma_sector_position(all, matrix.sector, 0);
            if outcomes[k as int] is Err {
                lemma_all_ok_fails(outcomes, k as int);
            }
        }
        let at: usize = match map.get(matrix.sector) {
            Some(at) => at,
            None => {
                return Err(unsupported("inverse output is missing a source coupled sector"));
            },
        };
        let to = &output[at];
        if matrix.rows != matrix.cols || to.rows != matrix.cols || to.cols != matrix.rows {
            return Err(unsupported("inverse coupled-sector matrix is not square"));
        }
        match validate_region_range(to, output_len) {
            Ok(()) => {},
            Err(error) => {
                return Err(error);
            },
        }
        let rows = match compile_inverse_basis_extents(
            matrix.col_trees.as_slice(),
            to.row_trees.as_slice(),
        ) {
            Ok(rows) => rows,
            Err(error) => {
                return Err(error);
            },
        };
        let cols = match compile_inverse_basis_extents(
            matrix.row_trees.as_slice(),
            to.col_trees.as_slice(),
        ) {
            Ok(cols) => cols,
            Err(error) => {
                return Err(error);
            },
        };
        let ghost before = matrix_routes(routes@);
        routes.push(InverseMatrixRoute { source: k, output: at, rows, cols });
        outputs.push(at);
        proof {
            let route = routes@[routes@.len() - 1]@;
            assert(matrix_routes(routes@) =~= before.push(route));
            assert(outputs@ =~= matrix_route_outputs(before.push(route)));
        }
        k += 1;
    }
    assert(outcomes.take(from.len() as int) =~= outcomes);
    if !covers_all(outputs.as_slice(), output.len()) {
        return Err(
            unsupported("inverse output contains a coupled sector absent from the source"),
        );
    }
    Ok(routes)
}

/// The writes that move one block of a solution, columns outermost.
pub open spec fn extent_writes<D>(
    source: Seq<D>,
    source_rows: int,
    output_rows: int,
    rows: InverseBasisExtent,
    cols: InverseBasisExtent,
) -> Seq<Write<D>> {
    let height = rows.extent as int;
    Seq::new(
        (height * cols.extent) as nat,
        |n: int|
            (
                rows.output_offset + output_rows * (cols.output_offset + n / height) + n % height,
                source[rows.source_offset + source_rows * (cols.source_offset + n / height) + n
                    % height],
            ),
    )
}

/// The writes of one range of rows over the first `count` ranges of columns.
pub open spec fn row_range_writes<D>(
    source: Seq<D>,
    source_rows: int,
    output_rows: int,
    rows: InverseBasisExtent,
    cols: Seq<InverseBasisExtent>,
    count: int,
) -> Seq<Write<D>>
    decreases count,
{
    if count <= 0 {
        Seq::empty()
    } else {
        row_range_writes(source, source_rows, output_rows, rows, cols, count - 1) + extent_writes(
            source,
            source_rows,
            output_rows,
            rows,
            cols[count - 1],
        )
    }
}

/// The writes of the first `count` ranges of rows.
pub open spec fn reorder_writes<D>(
    source: Seq<D>,
    source_rows: int,
    output_rows: int,
    rows: Seq<InverseBasisExtent>,
    cols: Seq<InverseBasisExtent>,
    count: int,
) -> Seq<Write<D>>
    decreases count,
{
    if count <= 0 {
        Seq::empty()
    } else {
        reorder_writes(source, source_rows, output_rows, rows, cols, count - 1)
            + row_range_writes(
            source,
            source_rows,
            output_rows,
            rows[count - 1],
            cols,
            cols.len() as int,
        )
    }
}

/// A block with elements lies inside a buffer of `len` elements.
pub open spec fn extent_fits_in(
    leading: int,
    row_offset: int,
    height: int,
    col_offset: int,
    width: int,
    len: int,
) -> bool {
    height > 0 && width > 0 ==> {
        &&& row_offset + leading * (col_offset + width - 1) + height <= len
        &&& col_offset + width <= usize::MAX
    }
}

/// Every block of a reordering lies inside the solution and the output.
pub open spec fn reorder_fits(
    source_rows: int,
    source_len: int,
    output_rows: int,
    output_len: int,
    rows: Seq<InverseBasisExtent>,
    cols: Seq<InverseBasisExtent>,
) -> bool {
    forall|i: int, j: int|
        0 <= i < rows.len() && 0 <= j < cols.len() ==> {
            &&& extent_fits_in(
                source_rows,
                (#[trigger] rows[i]).source_offset as int,
                rows[i].extent as int,
                (#[trigger] cols[j]).source_offset as int,
                cols[j].extent as int,
                source_len,
            )
            &&& extent_fits_in(
                output_rows,
                rows[i].output_offset as int,
                rows[i].extent as int,
                cols[j].output_offset as int,
                cols[j].extent as int,
                output_len,
            )
        }
}

/// Moves one block of a solution to its place in the output.
fn copy_extent<D: Copy>(
    source: &[D],
    source_rows: usize,
    output: &mut [D],
    output_rows: usize,
    rows: InverseBasisExtent,
    cols: InverseBasisExtent,
)
    requires
        extent_fits_in(
            source_rows as int,
            rows.source_offset as int,
            rows.extent as int,
            cols.source_offset as int,
            cols.extent as int,
            source@.len() as int,
        ),
        extent_fits_in(
            output_rows as int,
            rows.output_offset as int,
            rows.extent as int,
            cols.output_offset as int,
            cols.extent as int,
            old(output)@.len() as int,
        ),
    ensures
        final(output)@.len() == old(output)@.len(),
        final(output)@ == apply_writes(
            old(output)@,
            extent_writes(source@, source_rows as int, output_rows as int, rows, cols),
        ),
{
    let ghost writes = extent_writes(
        source@,
        source_rows as int,
        output_rows as int,
        rows,
        cols,
    );
    let height: usize = rows.extent;
    let source_len: usize = source.len();
    let len: usize = output.len();
    assert(writes.take(0) =~= Seq::empty());
    if height == 0 {
        proof {
            assert(0 * cols.extent == 0);
            assert(writes =~= Seq::empty());
        }
        return;
    }
    let mut col: usize = 0;
    assert(height * 0 == 0);
    while col < cols.extent
        invariant
            col <= cols.extent,
            0 < height == rows.extent,
            source_len == source@.len(),
            len == output@.len() == old(output)@.len(),
            extent_fits_in(
                source_rows as int,
                rows.source_offset as int,
                rows.extent as int,
                cols.source_offset as int,
                cols.extent as int,
                source_len as int,
            ),
            extent_fits_in(
                output_rows as int,
                rows.output_offset as int,
                rows.extent as int,
                cols.output_offset as int,
                cols.extent as int,
                len as int,
            ),
            writes == extent_writes(
                source@,
                source_rows as int,
                output_rows as int,
                rows,
                cols,
            ),
            output@ == apply_writes(old(output)@, writes.take(height * col)),
        decreases cols.extent - col,
    {
        proof {
            let a = source_rows as int;
            let b = cols.source_offset + col;
            let last = cols.source_offset + cols.extent - 1;
            assert(0 <= a * b && a * b <= a * last) by (nonlinear_arith)
                requires
                    0 <= a,
                    0 <= b <= last,
            ;
            let c = output_rows as int;
            let d = cols.output_offset + col;
            let end = cols.output_offset + cols.extent - 1;
            assert(0 <= c * d && c * d <= c * end) by (nonlinear_arith)
                requires
                    0 <= c,
                    0 <= d <= end,
            ;
        }
        let from: usize = rows.source_offset + source_rows * (cols.source_offset + col);
        let to: usize = rows.output_offset + output_rows * (cols.output_offset + col);
        let mut row: usize = 0;
        while row < height
            invariant
                row <= height,
                col < cols.extent,
                0 < height == rows.extent,
                source_len == source@.len(),
                len == output@.len() == old(output)@.len(),
                from == rows.source_offset + source_rows * (cols.source_offset + col),
                to == rows.output_offset + output_rows * (cols.output_offset + col),
                from + height <= source_len,
                to + height <= len,
                writes == extent_writes(
                    source@,
                    source_rows as int,
                    output_rows as int,
                    rows,
                    cols,
                ),
                output@ == apply_writes(old(output)@, writes.take(height * col + row)),
            decreases height - row,
        {
            output[to + row] = source[from + row];
            proof {
                crate::dense::lemma_column_position(
                    height as int,
                    cols.extent as int,
                    row as int,
                    col as int,
                );
                lemma_writes_step(old(output)@, writes, height * col + row);
            }
            row += 1;
        }
        proof {
            assert(height * (col + 1) == height * col + height) by (nonlinear_arith);
        }
        col += 1;
    }
    assert(writes.take(height * cols.extent) =~= writes);
}

/// Moves a solution from the source basis into the output basis.
pub fn reorder_inverse_solution<D: Copy>(
    source: &[D],
    source_rows: usize,
    output: &mut [D],
    output_rows: usize,
    row_extents: &[InverseBasisExtent],
    col_extents: &[InverseBasisExtent],
)
    requires
        reorder_fits(
            source_rows as int,
            source@.len() as int,
            output_rows as int,
            old(output)@.len() as int,
            row_extents@,
            col_extents@,
        ),
    ensures
        final(output)@.len() == old(output)@.len(),
        final(output)@ == apply_writes(
            old(output)@,
            reorder_writes(
                source@,
                source_rows as int,
                output_rows as int,
                row_extents@,
                col_extents@,
                row_extents@.len() as int,
            ),
        ),
{
    let mut i: usize = 0;
    while i < row_extents.len()
        invariant
            i <= row_extents@.len(),
            output@.len() == old(output)@.len(),
            reorder_fits(
                source_rows as int,
                source@.len() as int,
                output_rows as int,
                old(output)@.len() as int,
                row_extents@,
                col_extents@,
            ),
            output@ == apply_writes(
                old(output)@,
                reorder_writes(
                    source@,
                    source_rows as int,
                    output_rows as int,
                    row_extents@,
                    col_extents@,
                    i as int,
                ),
            ),
        decreases row_extents.len() - i,
    {
        let ghost base = reorder_writes(
            source@,
            source_rows as int,
            output_rows as int,
            row_extents@,
            col_extents@,
            i as int,
        );
        let rows = row_extents[i];
        let mut j: usize = 0;
        assert(base + Seq::<Write<D>>::empty() =~= base);
        while j < col_extents.len()
            invariant
                i < row_extents@.len(),
                rows == row_extents@[i as int],
                j <= col_extents@.len(),
                output@.len() == old(output)@.len(),
                reorder_fits(
                    source_rows as int,
                    source@.len() as int,
                    output_rows as int,
                    old(output)@.len() as int,
                    row_extents@,
                    col_extents@,
                ),
                output@ == apply_writes(
                    old(output)@,
                    base + row_range_writes(
                        source@,
                        source_rows as int,
                        output_rows as int,
                        rows,
                        col_extents@,
                        j as int,
                    ),
                ),
            decreases col_extents.len() - j,
        {
            let ghost done = base + row_range_writes(
                source@,
                source_rows as int,
                output_rows as int,
                rows,
                col_extents@,
                j as int,
            );
            let cols = col_extents[j];
            assert(row_extents@[i as int] == rows && col_extents@[j as int] == cols);
            copy_extent(source, source_rows, output, output_rows, rows, cols);
            proof {
                let more = extent_writes(
                    source@,
                    source_rows as int,
                    output_rows as int,
                    rows,
                    cols,
                );
                lemma_writes_concat(old(output)@, done, more);
                assert(done + more =~= base + row_range_writes(
                    source@,
                    source_rows as int,
                    output_rows as int,
                    rows,
                    col_extents@,
                    j + 1,
                ));
            }
            j += 1;
        }
        i += 1;
    }
}

/// The identity matrix of the given order, column-major.
pub open spec fn identity_matrix<D>(order: int, zero: D, one: D) -> Seq<D> {
    Seq::new(
        (order * order) as nat,
        |n: int|
            if n / order == n % order {
                one
            } else {
                zero
            },
    )
}

/// An identity matrix, or `ElementCountOverflow` where it does not fit.
pub fn identity_workspace<D: Copy>(order: usize, zero: D, one: D) -> (result: Result<
    Vec<D>,
    OperationError,
>)
    ensures
        match result {
            Ok(identity) => order * order <= usize::MAX && identity@ == identity_matrix(
                order as int,
                zero,
                one,
            ),
            Err(error) => order * order > usize::MAX && error
                == OperationError::ElementCountOverflow,
        },
{
    let elements: usize = match order.checked_mul(order) {
        Some(elements) => elements,
        None => {
            return Err(OperationError::ElementCountOverflow);
        },
    };
    let mut identity: Vec<D> = crate::layout::filled(zero, elements);
    let mut index: usize = 0;
    while index < order
        invariant
            index <= order,
            elements == order * order,
            identity@.len() == elements,
            forall|n: int|
                0 <= n < elements ==> #[trigger] identity@[n] == if n / (order as int) == n % (
                order as int) && n / (order as int) < index {
                    one
                } else {
                    zero
                },
        decreases order - index,
    {
        proof {
            crate::dense::lemma_column_position(
                order as int,
                order as int,
                index as int,
                index as int,
            );
        }
        let ghost before = identity@;
        identity[index + order * index] = one;
        proof {
            assert forall|n: int| 0 <= n < elements implies #[trigger] identity@[n] == if n / (
            order as int) == n % (order as int) && n / (order as int) < index + 1 {
                one
            } else {
                zero
            } by {
                let q = n / (order as int);
                let r = n % (order as int);
                vstd::arithmetic::div_mod::lemma_fundamental_div_mod(n, order as int);
                if q == index && r == index {
                    assert(n == order * index + index);
                } else {
                    assert(n != order * index + index);
                    assert(identity@[n] == before[n]);
                }
            }
        }
        index += 1;
    }
    proof {
        assert forall|n: int| 0 <= n < elements implies #[trigger] identity@[n]
            == identity_matrix(order as int, zero, one)[n] by {
            crate::index::lemma_split_bounds(n, order as int, order as int);
        }
        assert(identity@ =~= identity_matrix(order as int, zero, one));
    }
    Ok(identity)
}

} // verus!
