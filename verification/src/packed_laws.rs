//! What a matrix function of a packed tensor is in every sector: the image of the
//! sector's own matrix, tree by tree in the order of the output.

use vstd::prelude::*;

use crate::dense::splice;
use crate::dense_calls::solves_to;
use crate::error::OperationError;
use crate::exact::solves_exactly;
use crate::geometry::{
    geometries, lemma_span_position, sectors_distinct, CoupledSectorRegion, Geometry,
    SectorGeometry, SectorMatricization, Span,
};
use crate::index::extent;
use crate::matricize::{lemma_position_unique, stacked_side};
use crate::matricize_laws::lemma_spans_apart;
use crate::outcome::lemma_all_ok_values;
use crate::publish::zeros;
use crate::region_laws::regions_disjoint;
use crate::reorder_laws::{
    lemma_reordered_solution_reads_back, output_cell, output_ranges_apart, source_cell,
};
use crate::ring::{matrix, Matrix, Ring};
use crate::route_laws::{leads_to_tree, lemma_basis_extents_match};
use crate::sector_drive::{
    inverses_of, lemma_packed_route_fits, matrices_laid_out, matrices_mapped, matrix_orders,
    packed_image, packed_images, regions_laid_out,
};
use crate::sector_solve::reordered_images;
use crate::solve_routes::{
    basis_extents, inverse_matrix_route, inverse_matrix_routes, reorder_writes,
    InverseBasisExtent, MatrixRoute,
};
use crate::tensor_laws::{lemma_identity_is_identity, region_of};
use crate::writes::apply_writes;

verus! {

/// The matrix `to` holds, at the rows and columns of every pair of trees, what
/// `from` holds at those of the same trees.
pub open spec fn is_moved<D>(
    from: Matrix<D>,
    from_rows: Seq<Span>,
    from_cols: Seq<Span>,
    to: Matrix<D>,
    to_rows: Seq<Span>,
    to_cols: Seq<Span>,
) -> bool {
    forall|u: int, v: int, s: int, t: int, a: int, b: int|
        {
            &&& 0 <= u < from_rows.len()
            &&& 0 <= v < from_cols.len()
            &&& 0 <= s < to_rows.len()
            &&& 0 <= t < to_cols.len()
            &&& from_rows[u].tree == to_rows[s].tree
            &&& from_cols[v].tree == to_cols[t].tree
            &&& 0 <= a < extent(from_rows[u].shape)
            &&& 0 <= b < extent(from_cols[v].shape)
        } ==> #[trigger] to.at(to_rows[s].offset + a, to_cols[t].offset + b)
            == #[trigger] from.at(from_rows[u].offset + a, from_cols[v].offset + b)
}

/// Both sides of a matrix are made of its trees.
pub open spec fn is_stacked(geometry: Geometry) -> bool {
    &&& stacked_side(geometry.row_trees, geometry.rows as int)
    &&& stacked_side(geometry.col_trees, geometry.cols as int)
}

/// The ranges of distinct trees in the output basis do not overlap.
proof fn lemma_ranges_apart(source: Seq<Span>, output: Seq<Span>, from: int, to: int)
    requires
        output.len() <= usize::MAX,
        basis_extents(source, output) is Ok,
        stacked_side(source, from),
        stacked_side(output, to),
    ensures
        output_ranges_apart(basis_extents(source, output)->Ok_0, to),
{
    lemma_basis_extents_match(source, output);
    let ranges = basis_extents(source, output)->Ok_0;
    assert forall|i: int| 0 <= i < ranges.len() implies (#[trigger] ranges[i]).output_offset
        + ranges[i].extent <= to by {
        assert(leads_to_tree(ranges[i], source[i], output));
    }
    assert forall|i: int, j: int| 0 <= i < j < ranges.len() implies (
    #[trigger] ranges[i]).output_offset + ranges[i].extent <= (
    #[trigger] ranges[j]).output_offset || ranges[j].output_offset + ranges[j].extent
        <= ranges[i].output_offset by {
        assert(leads_to_tree(ranges[i], source[i], output));
        assert(leads_to_tree(ranges[j], source[j], output));
        let x = crate::geometry::span_position(output, source[i].tree, 0)->0;
        let y = crate::geometry::span_position(output, source[j].tree, 0)->0;
        assert(source[i].tree != source[j].tree);
        if x < y {
            lemma_spans_apart(output, to, x, y);
        } else {
            lemma_spans_apart(output, to, y, x);
        }
    }
}

/// A tree's range leads to the tree's own place.
proof fn lemma_range_of_tree(source: Seq<Span>, output: Seq<Span>, to: int, u: int, s: int)
    requires
        output.len() <= usize::MAX,
        basis_extents(source, output) is Ok,
        stacked_side(output, to),
        0 <= u < source.len(),
        0 <= s < output.len(),
        source[u].tree == output[s].tree,
    ensures
        ({
            let ranges = basis_extents(source, output)->Ok_0;
            &&& ranges.len() == source.len()
            &&& ranges[u].source_offset == source[u].offset
            &&& ranges[u].output_offset == output[s].offset
            &&& ranges[u].extent == extent(source[u].shape)
        }),
{
    lemma_basis_extents_match(source, output);
    let ranges = basis_extents(source, output)->Ok_0;
    assert(leads_to_tree(ranges[u], source[u], output));
    lemma_span_position(output, source[u].tree, 0);
}

/// What the route of a packed matrix is.
proof fn lemma_packed_route(
    source: Seq<Geometry>,
    output: Seq<CoupledSectorRegion>,
    output_len: usize,
    k: int,
)
    requires
        source.len() <= usize::MAX,
        output.len() <= usize::MAX,
        inverse_matrix_routes(source, output, output_len) is Ok,
        0 <= k < source.len(),
    ensures
        ({
            let routes = inverse_matrix_routes(source, output, output_len)->Ok_0;
            let to = output[routes[k].output as int];
            &&& routes.len() == source.len()
            &&& routes[k].source == k
            &&& routes[k].output < output.len()
            &&& to.coupled == source[k].sector
            &&& source[k].rows == source[k].cols
            &&& to.rows == source[k].rows
            &&& to.cols == source[k].rows
            &&& basis_extents(source[k].col_trees, to.geometry().row_trees) == Ok::<
                Seq<InverseBasisExtent>,
                OperationError,
            >(routes[k].rows)
            &&& basis_extents(source[k].row_trees, to.geometry().col_trees) == Ok::<
                Seq<InverseBasisExtent>,
                OperationError,
            >(routes[k].cols)
            &&& sectors_distinct(geometries(output))
        }),
{
    let outcomes = Seq::new(
        source.len(),
        |k: int| inverse_matrix_route(source, output, output_len, k),
    );
    lemma_all_ok_values(outcomes);
    let routes = inverse_matrix_routes(source, output, output_len)->Ok_0;
    assert(outcomes[k] == Ok::<MatrixRoute, OperationError>(routes[k]));
    crate::geometry::lemma_sector_position(geometries(output), source[k].sector, 0);
    let o = crate::geometry::sector_position(geometries(output), source[k].sector, 0)->0;
    assert(geometries(output)[o] == output[o].geometry());
}

/// After all routes the region of a route holds its image, moved over what was
/// there before.
proof fn lemma_region_holds_moved<D>(
    data: Seq<D>,
    matrices: Seq<SectorMatricization<D>>,
    images: Seq<Vec<D>>,
    leading: Seq<usize>,
    output: Seq<CoupledSectorRegion>,
    output_len: usize,
    count: int,
    k: int,
) -> (base: Seq<D>)
    requires
        matrices.len() <= usize::MAX,
        output.len() <= usize::MAX,
        matrices_laid_out(matrices),
        regions_laid_out(output),
        regions_disjoint(output),
        sectors_distinct(geometries(matrices)),
        inverse_matrix_routes(geometries(matrices), output, output_len) is Ok,
        data.len() == output_len,
        0 <= k < count <= matrices.len(),
    ensures
        ({
            let routes = inverse_matrix_routes(geometries(matrices), output, output_len)->Ok_0;
            let region = output[routes[k].output as int];
            let after = reordered_images(data, routes, images, leading, output, count);
            &&& after.len() == data.len()
            &&& base.len() == region.end - region.start
            &&& after.subrange(region.start as int, region.end as int) == apply_writes(
                base,
                reorder_writes(
                    images[k]@,
                    leading[k] as int,
                    region.rows as int,
                    routes[k].rows,
                    routes[k].cols,
                    routes[k].rows.len() as int,
                ),
            )
        }),
    decreases count,
{
    let from = geometries(matrices);
    let routes = inverse_matrix_routes(from, output, output_len)->Ok_0;
    let m = count - 1;
    lemma_packed_route(from, output, output_len, k);
    lemma_packed_route(from, output, output_len, m);
    lemma_packed_route_fits(matrices, output, output_len, k);
    lemma_packed_route_fits(matrices, output, output_len, m);
    let region = output[routes[k].output as int];
    let last = output[routes[m].output as int];
    let before = reordered_images(data, routes, images, leading, output, m);
    let after = reordered_images(data, routes, images, leading, output, count);
    lemma_reordered_len(data, routes, images, leading, output, m);
    let old = before.subrange(last.start as int, last.end as int);
    let writes = reorder_writes(
        images[m]@,
        leading[m] as int,
        last.rows as int,
        routes[m].rows,
        routes[m].cols,
        routes[m].rows.len() as int,
    );
    crate::writes::lemma_writes_len(old, writes);
    assert(after == splice(before, last.start as int, apply_writes(old, writes)));
    if k == m {
        assert(after.subrange(region.start as int, region.end as int) =~= apply_writes(
            old,
            writes,
        ));
        old
    } else {
        let base = lemma_region_holds_moved(
            data,
            matrices,
            images,
            leading,
            output,
            output_len,
            m,
            k,
        );
        assert(from[k].sector != from[m].sector);
        assert(routes[k].output != routes[m].output);
        assert(after.subrange(region.start as int, region.end as int) =~= before.subrange(
            region.start as int,
            region.end as int,
        ));
        base
    }
}

proof fn lemma_reordered_len<D>(
    data: Seq<D>,
    routes: Seq<MatrixRoute>,
    images: Seq<Vec<D>>,
    leading: Seq<usize>,
    output: Seq<CoupledSectorRegion>,
    count: int,
)
    ensures
        reordered_images(data, routes, images, leading, output, count).len() == data.len(),
    decreases count,
{
    if count > 0 {
        lemma_reordered_len(data, routes, images, leading, output, count - 1);
    }
}

/// The image of a packed sector stands in the output region of the sector, with
/// the trees of the source's columns on its rows and those of the source's rows
/// on its columns, each where the output has it.
pub proof fn lemma_packed_images_moved<D>(
    elements: Vec<D>,
    matrices: Seq<SectorMatricization<D>>,
    routes: Seq<MatrixRoute>,
    output: Seq<CoupledSectorRegion>,
    output_len: usize,
    zero: D,
    answers: spec_fn(Seq<D>, usize, Result<Vec<D>, OperationError>) -> bool,
    k: int,
    j: int,
) -> (image: Vec<D>)
    requires
        matrices.len() <= usize::MAX,
        output.len() <= usize::MAX,
        matrices_laid_out(matrices),
        regions_laid_out(output),
        regions_disjoint(output),
        sectors_distinct(geometries(matrices)),
        inverse_matrix_routes(geometries(matrices), output, output_len) == Ok::<
            Seq<MatrixRoute>,
            OperationError,
        >(routes),
        matrices_mapped(
            Ok(elements),
            matrices,
            routes,
            output,
            output_len,
            zero,
            answers,
        ),
        forall|m: Seq<D>, order: usize, image: Vec<D>| #[trigger]
            answers(m, order, Ok::<Vec<D>, OperationError>(image)) ==> image@.len() == order
                * order,
        0 <= k < matrices.len(),
        matrices[k].rows > 0,
        is_stacked(matrices[k].geometry()),
        0 <= j < output.len(),
        output[j].coupled == matrices[k].sector,
        is_stacked(output[j].geometry()),
        output[j].row_trees@.len() <= usize::MAX,
        output[j].col_trees@.len() <= usize::MAX,
    ensures
        answers(matrices[k].data@, matrices[k].rows, Ok(image)),
        is_moved(
            matrix(matrices[k].rows as int, matrices[k].rows as int, image@),
            matrices[k].geometry().col_trees,
            matrices[k].geometry().row_trees,
            region_of(elements@, output[j]),
            output[j].geometry().row_trees,
            output[j].geometry().col_trees,
        ),
{
    let from = geometries(matrices);
    let images = choose|images: Seq<Vec<D>>|
        {
            &&& #[trigger] packed_images(images, matrices, routes, answers)
            &&& images.len() == routes.len()
            &&& elements@ == reordered_images(
                zeros(zero, output_len as int),
                routes,
                images,
                matrix_orders(matrices, routes),
                output,
                routes.len() as int,
            )
        };
    lemma_packed_route(from, output, output_len, k);
    lemma_packed_route_fits(matrices, output, output_len, k);
    assert(from[k] == matrices[k].geometry());
    let o = routes[k].output as int;
    assert(geometries(output)[o] == output[o].geometry());
    assert(geometries(output)[j] == output[j].geometry());
    lemma_position_unique(geometries(output), o);
    lemma_position_unique(geometries(output), j);
    assert(o == j);
    let image = images[k];
    assert(packed_image(matrices[routes[k].source as int], answers, Ok(image)));
    let leading = matrix_orders(matrices, routes);
    let base = lemma_region_holds_moved(
        zeros(zero, output_len as int),
        matrices,
        images,
        leading,
        output,
        output_len,
        routes.len() as int,
        k,
    );
    let order = matrices[k].rows as int;
    let region = output[j];
    let (rows, cols) = (routes[k].rows, routes[k].cols);
    let (fr, fc) = (from[k].col_trees, from[k].row_trees);
    let (tr, tc) = (region.geometry().row_trees, region.geometry().col_trees);
    lemma_ranges_apart(fr, tr, order, region.rows as int);
    lemma_ranges_apart(fc, tc, order, region.cols as int);
    let x = matrix(order, order, image@);
    let y = region_of(elements@, region);
    assert forall|u: int, v: int, s: int, t: int, a: int, b: int|
        {
            &&& 0 <= u < fr.len()
            &&& 0 <= v < fc.len()
            &&& 0 <= s < tr.len()
            &&& 0 <= t < tc.len()
            &&& fr[u].tree == tr[s].tree
            &&& fc[v].tree == tc[t].tree
            &&& 0 <= a < extent(fr[u].shape)
            &&& 0 <= b < extent(fc[v].shape)
        } implies #[trigger] y.at(tr[s].offset + a, tc[t].offset + b) == #[trigger] x.at(
        fr[u].offset + a,
        fc[v].offset + b,
    ) by {
        lemma_range_of_tree(fr, tr, region.rows as int, u, s);
        lemma_range_of_tree(fc, tc, region.cols as int, v, t);
        lemma_reordered_solution_reads_back(
            base,
            image@,
            order,
            region.rows as int,
            region.cols as int,
            rows,
            cols,
            u,
            v,
            a,
            b,
        );
        assert(output_cell(region.rows as int, rows[u], cols[v], a, b) == tr[s].offset + a
            + region.rows * (tc[t].offset + b));
        assert(source_cell(order, rows[u], cols[v], a, b) == fr[u].offset + a + order * (
        fc[v].offset + b));
    }
    image
}

/// The inverse of a packed tensor inverts every sector: an inverse of the sector's
/// own matrix stands in the output region of the sector, tree by tree.
pub proof fn lemma_packed_inverse_inverts<
    D,
    F: Fn(&[D], usize, &[D], usize) -> Result<Vec<D>, OperationError>,
>(
    ring: Ring<D>,
    elements: Vec<D>,
    matrices: Seq<SectorMatricization<D>>,
    routes: Seq<MatrixRoute>,
    output: Seq<CoupledSectorRegion>,
    output_len: usize,
    solve: F,
    k: int,
    j: int,
)
    requires
        solves_exactly(ring, solve),
        matrices.len() <= usize::MAX,
        output.len() <= usize::MAX,
        matrices_laid_out(matrices),
        regions_laid_out(output),
        regions_disjoint(output),
        sectors_distinct(geometries(matrices)),
        inverse_matrix_routes(geometries(matrices), output, output_len) == Ok::<
            Seq<MatrixRoute>,
            OperationError,
        >(routes),
        matrices_mapped(
            Ok(elements),
            matrices,
            routes,
            output,
            output_len,
            ring.zero,
            inverses_of(solve, ring.zero, ring.one),
        ),
        0 <= k < matrices.len(),
        matrices[k].rows > 0,
        is_stacked(matrices[k].geometry()),
        0 <= j < output.len(),
        output[j].coupled == matrices[k].sector,
        is_stacked(output[j].geometry()),
        output[j].row_trees@.len() <= usize::MAX,
        output[j].col_trees@.len() <= usize::MAX,
    ensures
        exists|x: Matrix<D>|
            {
                &&& #[trigger] ring.mul(
                    matrix(
                        matrices[k].rows as int,
                        matrices[k].rows as int,
                        matrices[k].data@,
                    ),
                    x,
                ) == ring.identity(matrices[k].rows as int)
                &&& is_moved(
                    x,
                    matrices[k].geometry().col_trees,
                    matrices[k].geometry().row_trees,
                    region_of(elements@, output[j]),
                    output[j].geometry().row_trees,
                    output[j].geometry().col_trees,
                )
            },
{
    let answers = inverses_of(solve, ring.zero, ring.one);
    assert forall|m: Seq<D>, order: usize, image: Vec<D>| #[trigger]
        answers(m, order, Ok::<Vec<D>, OperationError>(image)) implies image@.len() == order
        * order by {
        assert(solves_to(
            solve,
            m,
            order,
            crate::solve_routes::identity_matrix(order as int, ring.zero, ring.one),
            order,
            Ok::<Vec<D>, OperationError>(image),
        ));
    }
    let image = lemma_packed_images_moved(
        elements,
        matrices,
        routes,
        output,
        output_len,
        ring.zero,
        answers,
        k,
        j,
    );
    let order = matrices[k].rows;
    assert(solves_to(
        solve,
        matrices[k].data@,
        order,
        crate::solve_routes::identity_matrix(order as int, ring.zero, ring.one),
        order,
        Ok::<Vec<D>, OperationError>(image),
    ));
    lemma_identity_is_identity(ring, order as int);
    let x = matrix(order as int, order as int, image@);
    assert(ring.mul(matrix(order as int, order as int, matrices[k].data@), x) == ring.identity(
        order as int,
    ));
}

} // verus!
