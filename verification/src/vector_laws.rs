//! What LQ and eigendecompositions of tensors are in every sector, with exact
//! backends.

use vstd::prelude::*;

use crate::compact_drive::input_geometries;
use crate::completion_laws::{factors_exactly, is_qr_of, lemma_lq_multiplies};
use crate::dense::adjoint_matrix;
use crate::dense_calls::factors_to;
use crate::direct::{lq_routes, region_slot, region_slots, vector_slot, vector_slots, LqData};
use crate::direct::RouteFactors;
use crate::eigen_full::{are_eigen_pairs, eigen_spectra, EigenStage};
use crate::eigen_laws::is_eigensystem;
use crate::error::OperationError;
use crate::exact::{conjugates_in, lemma_adjoint_is_adjoint};
use crate::factor::{concatenated, FactorPair};
use crate::factor_routes::{
    compact_routes, lemma_compact_routes_pair_sectors, smaller, CompactFactorRoute,
};
use crate::geometry::{geometries, sectors_distinct, CoupledSectorRegion, SectorGeometry};
use crate::input::InputMatricizations;
use crate::layout::FactorSide;
use crate::lq_drive::{adjoint_extent, lq_pairs_found, lqs_until};
use crate::product_laws::{
    in_order, lemma_input_shape, lemma_region_holds_factor, lemma_routes_apart,
};
use crate::ring::{matrix, Ring};
use crate::route_drive::{
    adjoint_qr_of, adjoint_qrs_found, are_eigen_parts, are_route_factors, eigenvectors_joined,
    is_eigen_part, lqs_placed,
};
use crate::completion::QrStage;
use crate::sector_drive::region_matrix;
use crate::spectrum::SectorSpectrum;
use crate::stages::{factored_until, found_along, is_bond_pair, sector_input, BondExtent};
use crate::tensor_laws::{as_scalars, region_of};

verus! {

/// Sector by sector: the pair of a sector is an LQ of the sector's own matrix.
pub proof fn lemma_lq_pairs_multiply<
    D,
    C: Fn(D) -> D,
    F: Fn(&[D], usize, usize) -> Result<QrStage<D>, OperationError>,
>(
    ring: Ring<D>,
    pairs: Seq<FactorPair<D>>,
    input: InputMatricizations<'_, D>,
    bond: BondExtent,
    conjugate: C,
    qr: F,
    k: int,
)
    requires
        ring.is_ring(),
        conjugates_in(ring, conjugate),
        factors_exactly(ring, qr, adjoint_extent(bond)),
        crate::stages::input_holds(input),
        lq_pairs_found(pairs, input, bond, conjugate, qr),
        0 <= k < input.spec_len(),
    ensures
        pairs.len() == input.spec_len(),
        pairs[k].sector == input_geometries(input)[k].sector,
        sector_input(input, k) is Ok,
        ({
            let source = sector_input(input, k)->Ok_0;
            let pair = pairs[k];
            let l = matrix(pair.left_rows as int, pair.kept as int, pair.left@);
            let q = matrix(pair.right_leading as int, source.cols as int, pair.right@);
            &&& ring.mul(l, q) == matrix(source.rows as int, source.cols as int, source.data)
            &&& ring.mul(q, ring.adjoint(q)) == ring.identity(pair.kept as int)
            &&& forall|i: int, j: int|
                0 <= i < j < pair.kept && i < source.rows ==> #[trigger] l.at(i, j) == ring.zero
        }),
{
    let stages = choose|stages: Seq<RouteFactors<D>>|
        {
            &&& #[trigger] lqs_until(stages, None, input, bond, conjugate, qr)
            &&& pairs.len() == stages.len()
            &&& forall|k: int|
                0 <= k < pairs.len() ==> is_bond_pair(
                    #[trigger] pairs[k],
                    input_geometries(input)[k],
                    stages[k],
                    bond,
                )
        };
    assert(is_bond_pair(pairs[k], input_geometries(input)[k], stages[k], bond));
    let source = sector_input(input, k)->Ok_0;
    assert(sector_input(input, k) is Ok) by {
        let stage = stages[k];
    }
    lemma_input_shape(input, k);
    match input {
        InputMatricizations::Regions { data, regions } => {
            let region = regions@[k];
            assert(source.data == region_matrix(data@, region));
        },
        InputMatricizations::Packed(matrices) => {
            assert(matrices@[k].data@.len() == matrices@[k].rows * matrices@[k].cols);
        },
    }
    lemma_lq_multiplies(
        ring,
        stages[k],
        source.data,
        source.rows,
        source.cols,
        adjoint_extent(bond),
        conjugate,
        qr,
    );
}

/// After the routes of an LQ both regions of a route hold the adjoints of its two
/// factors.
proof fn lemma_lq_regions<D, C: Fn(D) -> D>(
    routes: Seq<CompactFactorRoute>,
    factors: Seq<RouteFactors<D>>,
    source: Seq<CoupledSectorRegion>,
    left: Seq<CoupledSectorRegion>,
    right: Seq<CoupledSectorRegion>,
    empty: LqData<D>,
    conjugate: C,
    count: int,
    k: int,
)
    requires
        compact_routes(geometries(source), geometries(left), geometries(right)) == Ok::<
            Seq<CompactFactorRoute>,
            OperationError,
        >(routes),
        source.len() <= usize::MAX,
        left.len() <= usize::MAX,
        right.len() <= usize::MAX,
        sectors_distinct(geometries(source)),
        in_order(left),
        in_order(right),
        left.len() > 0 ==> left[left.len() - 1].end <= empty.left.len(),
        right.len() > 0 ==> right[right.len() - 1].end <= empty.right.len(),
        factors.len() == routes.len(),
        0 <= k < count <= routes.len(),
        routes[k].rank != 0,
    ensures
        ({
            let after = lq_routes(
                routes,
                factors,
                source,
                left,
                right,
                empty,
                conjugate,
                count,
            );
            &&& after.left.len() == empty.left.len()
            &&& after.right.len() == empty.right.len()
            &&& region_matrix(after.left, left[routes[k].left_region->0 as int])
                == adjoint_matrix(
                conjugate,
                factors[k].left@,
                routes[k].rank as int,
                source[k].rows as int,
            )
            &&& region_matrix(after.right, right[routes[k].right_region->0 as int])
                == adjoint_matrix(
                conjugate,
                factors[k].right@,
                source[k].cols as int,
                routes[k].rank as int,
            )
        }),
    decreases count,
{
    let (from, l, r) = (geometries(source), geometries(left), geometries(right));
    lemma_compact_routes_pair_sectors(from, l, r);
    let m = count - 1;
    let before = lq_routes(routes, factors, source, left, right, empty, conjugate, m);
    let after = lq_routes(routes, factors, source, left, right, empty, conjugate, count);
    lemma_lq_lengths(routes, factors, source, left, right, empty, conjugate, m);
    assert(routes[k].source_region == k && routes[m].source_region == m);
    assert(from[k] == source[k].geometry());
    assert(from[m] == source[m].geometry());
    let (a, b) = (routes[k].left_region->0 as int, routes[k].right_region->0 as int);
    assert(l[a] == left[a].geometry());
    assert(r[b] == right[b].geometry());
    lemma_region_inside(left, a);
    lemma_region_inside(right, b);
    if k < m {
        lemma_lq_regions(routes, factors, source, left, right, empty, conjugate, m, k);
        if routes[m].rank != 0 {
            lemma_routes_apart(routes, source, left, right, FactorSide::Left, k, a);
            lemma_routes_apart(routes, source, left, right, FactorSide::Right, k, b);
            let (c, d) = (routes[m].left_region->0 as int, routes[m].right_region->0 as int);
            assert(l[c] == left[c].geometry());
            assert(r[d] == right[d].geometry());
            assert(c != a && d != b) by {
                assert(crate::direct::route_region(routes[m], FactorSide::Left)->0 != a);
                assert(crate::direct::route_region(routes[m], FactorSide::Right)->0 != b);
            }
            lemma_regions_apart(left, a, c);
            lemma_regions_apart(right, b, d);
            assert(left[c].start + left[c].rows * left[c].cols == left[c].end);
            assert(right[d].start + right[d].rows * right[d].cols == right[d].end);
            let (x, y, z) = (
                routes[m].rank as int,
                source[m].rows as int,
                source[m].cols as int,
            );
            assert(x * y == y * x && z * x == x * z) by (nonlinear_arith);
            assert(region_matrix(after.left, left[a]) =~= region_matrix(before.left, left[a]));
            assert(region_matrix(after.right, right[b]) =~= region_matrix(
                before.right,
                right[b],
            ));
        }
    } else {
        assert(left[a].start + left[a].rows * left[a].cols == left[a].end);
        assert(right[b].start + right[b].rows * right[b].cols == right[b].end);
        let (x, y, z) = (routes[k].rank as int, source[k].rows as int, source[k].cols as int);
        assert(x * y == y * x && z * x == x * z) by (nonlinear_arith);
        assert(region_matrix(after.left, left[a]) =~= adjoint_matrix(
            conjugate,
            factors[k].left@,
            routes[k].rank as int,
            source[k].rows as int,
        ));
        assert(region_matrix(after.right, right[b]) =~= adjoint_matrix(
            conjugate,
            factors[k].right@,
            source[k].cols as int,
            routes[k].rank as int,
        ));
    }
}

proof fn lemma_lq_lengths<D, C: Fn(D) -> D>(
    routes: Seq<CompactFactorRoute>,
    factors: Seq<RouteFactors<D>>,
    source: Seq<CoupledSectorRegion>,
    left: Seq<CoupledSectorRegion>,
    right: Seq<CoupledSectorRegion>,
    empty: LqData<D>,
    conjugate: C,
    count: int,
)
    requires
        0 <= count <= routes.len(),
    ensures
        ({
            let after = lq_routes(
                routes,
                factors,
                source,
                left,
                right,
                empty,
                conjugate,
                count,
            );
            after.left.len() == empty.left.len() && after.right.len() == empty.right.len()
        }),
    decreases count,
{
    if count > 0 {
        lemma_lq_lengths(routes, factors, source, left, right, empty, conjugate, count - 1);
    }
}

/// A region ends before the last one does.
proof fn lemma_region_inside(regions: Seq<CoupledSectorRegion>, k: int)
    requires
        in_order(regions),
        0 <= k < regions.len(),
    ensures
        regions[k].start <= regions[k].end <= regions[regions.len() - 1].end,
    decreases regions.len() - k,
{
    let (a, b) = (regions[k].rows as int, regions[k].cols as int);
    assert(0 <= a * b) by (nonlinear_arith)
        requires
            0 <= a,
            0 <= b,
    ;
    assert(regions[k].start + regions[k].rows * regions[k].cols == regions[k].end);
    if k + 1 < regions.len() {
        lemma_region_inside(regions, k + 1);
        assert(regions[k + 1].start == regions[k].end);
    }
}

/// Two regions do not overlap.
proof fn lemma_regions_apart(regions: Seq<CoupledSectorRegion>, j: int, k: int)
    requires
        in_order(regions),
        0 <= j < regions.len(),
        0 <= k < regions.len(),
        j != k,
    ensures
        regions[j].end <= regions[k].start || regions[k].end <= regions[j].start,
{
    if j < k {
        lemma_regions_follow(regions, j, k);
    } else {
        lemma_regions_follow(regions, k, j);
    }
}

proof fn lemma_regions_follow(regions: Seq<CoupledSectorRegion>, j: int, k: int)
    requires
        in_order(regions),
        0 <= j < k < regions.len(),
    ensures
        regions[j].end <= regions[k].start,
    decreases k - j,
{
    assert(regions[k].start == regions[k - 1].end);
    if j < k - 1 {
        lemma_regions_follow(regions, j, k - 1);
        lemma_region_inside(regions.take(k), k - 1);
        lemma_take_in_order(regions, k);
    }
}

proof fn lemma_take_in_order(regions: Seq<CoupledSectorRegion>, count: int)
    requires
        in_order(regions),
        0 <= count <= regions.len(),
    ensures
        in_order(regions.take(count)),
{
    let part = regions.take(count);
    assert forall|k: int| 0 <= k < part.len() implies (#[trigger] part[k]).start + part[k].rows
        * part[k].cols == part[k].end by {
        assert(part[k] == regions[k]);
    }
    assert forall|k: int| 0 < k < part.len() implies (#[trigger] part[k]).start == part[k
        - 1].end by {
        assert(part[k] == regions[k]);
    }
}

/// Region by region: the LQ of a tensor is, in the regions of a sector, an LQ of
/// the sector's matrix.
pub proof fn lemma_placed_lq_multiplies<
    D,
    C: Fn(D) -> D,
    F: Fn(&[D], usize, usize) -> Result<QrStage<D>, OperationError>,
>(
    ring: Ring<D>,
    found: (Vec<D>, Vec<D>),
    routes: Seq<CompactFactorRoute>,
    source: Seq<CoupledSectorRegion>,
    data: Seq<D>,
    left: Seq<CoupledSectorRegion>,
    right: Seq<CoupledSectorRegion>,
    empty: LqData<D>,
    conjugate: C,
    qr: F,
    k: int,
    i: int,
    j: int,
)
    requires
        ring.is_ring(),
        conjugates_in(ring, conjugate),
        factors_exactly(ring, qr, BondExtent::Compact),
        compact_routes(geometries(source), geometries(left), geometries(right)) == Ok::<
            Seq<CompactFactorRoute>,
            OperationError,
        >(routes),
        source.len() <= usize::MAX,
        left.len() <= usize::MAX,
        right.len() <= usize::MAX,
        sectors_distinct(geometries(source)),
        crate::sector_drive::regions_hold(source),
        in_order(left),
        in_order(right),
        left.len() > 0 ==> left[left.len() - 1].end <= empty.left.len(),
        right.len() > 0 ==> right[right.len() - 1].end <= empty.right.len(),
        lqs_placed(Ok(found), routes, source, data, left, right, empty, conjugate, qr),
        0 <= k < source.len(),
        source[k].rows != 0,
        source[k].cols != 0,
        0 <= i < left.len(),
        left[i].coupled == source[k].coupled,
        0 <= j < right.len(),
        right[j].coupled == source[k].coupled,
    ensures
        ({
            let l = region_of(found.0@, left[i]);
            let q = region_of(found.1@, right[j]);
            &&& ring.mul(l, q) == region_of(data, source[k])
            &&& ring.mul(q, ring.adjoint(q)) == ring.identity(
                smaller(source[k].rows, source[k].cols) as int,
            )
        }),
{
    let stages = choose|stages: Seq<Option<RouteFactors<D>>>|
        {
            &&& #[trigger] adjoint_qrs_found(stages, routes, source, data, conjugate, qr)
            &&& stages.len() == routes.len()
            &&& exists|factors: Seq<RouteFactors<D>>|
                {
                    let placed = lq_routes(
                        routes,
                        factors,
                        source,
                        left,
                        right,
                        empty,
                        conjugate,
                        routes.len() as int,
                    );
                    &&& #[trigger] are_route_factors(factors, stages)
                    &&& found.0@ == placed.left
                    &&& found.1@ == placed.right
                }
        };
    let factors = choose|factors: Seq<RouteFactors<D>>|
        {
            let placed = lq_routes(
                routes,
                factors,
                source,
                left,
                right,
                empty,
                conjugate,
                routes.len() as int,
            );
            &&& #[trigger] are_route_factors(factors, stages)
            &&& found.0@ == placed.left
            &&& found.1@ == placed.right
        };
    let (from, lg, rg) = (geometries(source), geometries(left), geometries(right));
    lemma_compact_routes_pair_sectors(from, lg, rg);
    assert(from[k] == source[k].geometry());
    assert(routes[k].source_region == k && routes[k].rank != 0);
    assert(stages[k] is Some);
    assert(factors[k] == stages[k]->0);
    let (rows, cols) = (source[k].rows, source[k].cols);
    let kept = smaller(rows, cols) as int;
    let cells = region_matrix(data, source[k]);
    assert(adjoint_qr_of(Ok(factors[k]), cells, rows, cols, conjugate, qr));
    let stage = QrStage { q: factors[k].right, r: factors[k].left };
    assert(factors_to(
        qr,
        adjoint_matrix(conjugate, cells, rows as int, cols as int),
        cols,
        rows,
        Ok::<QrStage<D>, OperationError>(stage),
    ));
    lemma_lq_regions(
        routes,
        factors,
        source,
        left,
        right,
        empty,
        conjugate,
        routes.len() as int,
        k,
    );
    let (a, b) = (routes[k].left_region->0 as int, routes[k].right_region->0 as int);
    assert(lg[a] == left[a].geometry() && lg[i] == left[i].geometry());
    assert(rg[b] == right[b].geometry() && rg[j] == right[j].geometry());
    assert(a == i) by {
        if a < i {
            assert(lg[a].sector != lg[i].sector);
        } else if i < a {
            assert(lg[i].sector != lg[a].sector);
        }
    }
    assert(b == j) by {
        if b < j {
            assert(rg[b].sector != rg[j].sector);
        } else if j < b {
            assert(rg[j].sector != rg[b].sector);
        }
    }
    assert(source[k].start + source[k].rows * source[k].cols == source[k].end);
    assert(0 <= rows * cols) by (nonlinear_arith)
        requires
            0 <= rows,
            0 <= cols,
    ;
    let whole = matrix(rows as int, cols as int, cells);
    assert(whole.shaped());
    lemma_adjoint_is_adjoint(ring, conjugate, cells, rows as int, cols as int);
    let q = matrix(cols as int, kept, factors[k].right@);
    let r = matrix(kept, rows as int, factors[k].left@);
    assert(is_qr_of(ring, ring.adjoint(whole), q, r));
    lemma_adjoint_is_adjoint(ring, conjugate, factors[k].left@, kept, rows as int);
    lemma_adjoint_is_adjoint(ring, conjugate, factors[k].right@, cols as int, kept);
    ring.adjoint_of_product(q, r);
    ring.adjoint_twice(whole);
    ring.adjoint_twice(q);
    assert(region_of(found.0@, left[i]) == ring.adjoint(r));
    assert(region_of(found.1@, right[j]) == ring.adjoint(q));
}

/// What the backend gives for a square matrix are eigensystems.
pub open spec fn diagonalizes_exactly<
    D,
    V,
    F: Fn(&[D], usize, usize) -> Result<EigenStage<D, V>, OperationError>,
>(ring: Ring<D>, eigen: F, to_scalar: spec_fn(V) -> D) -> bool {
    forall|x: &[D], order: usize, stage: EigenStage<D, V>| #[trigger]
        call_ensures(
            eigen,
            (x, order, order),
            Ok::<EigenStage<D, V>, OperationError>(stage),
        ) ==> is_eigensystem(
            ring,
            matrix(order as int, order as int, x@),
            matrix(order as int, order as int, stage.vectors@),
            as_scalars(stage.values@, to_scalar),
        )
}

/// Sector by sector: the vectors and values of a square sector are an eigensystem
/// of the sector's own matrix.
pub proof fn lemma_eigen_pairs_diagonalize<
    D,
    V,
    F: Fn(&[D], usize, usize) -> Result<EigenStage<D, V>, OperationError>,
>(
    ring: Ring<D>,
    to_scalar: spec_fn(V) -> D,
    stages: Seq<EigenStage<D, V>>,
    pairs: Seq<FactorPair<D>>,
    input: InputMatricizations<'_, D>,
    eigen: F,
    k: int,
)
    requires
        diagonalizes_exactly(ring, eigen, to_scalar),
        factored_until(stages, None, input, eigen),
        are_eigen_pairs(pairs, input_geometries(input), stages),
        0 <= k < input.spec_len(),
        input_geometries(input)[k].rows == input_geometries(input)[k].cols,
    ensures
        pairs.len() == input.spec_len(),
        pairs[k].sector == input_geometries(input)[k].sector,
        eigen_spectra(input_geometries(input), stages).len() == input.spec_len(),
        eigen_spectra(input_geometries(input), stages)[k].sector
            == input_geometries(input)[k].sector,
        sector_input(input, k) is Ok,
        ({
            let source = sector_input(input, k)->Ok_0;
            let pair = pairs[k];
            is_eigensystem(
                ring,
                matrix(source.rows as int, source.cols as int, source.data),
                matrix(pair.left_rows as int, pair.kept as int, pair.left@),
                as_scalars(
                    eigen_spectra(input_geometries(input), stages)[k].values@,
                    to_scalar,
                ),
            )
        }),
{
    let stage = stages[k];
    assert(pairs[k].left == stage.vectors);
    let source = sector_input(input, k)->Ok_0;
    assert(factors_to(eigen, source.data, source.rows, source.cols, Ok(stage)));
    lemma_input_shape(input, k);
}

/// Vectors along routes as the left factors of routes.
spec fn as_left_factors<D>(vectors: Seq<Vec<D>>) -> Seq<RouteFactors<D>> {
    vectors.map_values(|vector: Vec<D>| RouteFactors { left: vector, right: vector })
}

proof fn lemma_vector_slot<D>(
    routes: Seq<CompactFactorRoute>,
    vectors: Seq<Vec<D>>,
    region: int,
    count: int,
)
    requires
        0 <= count <= vectors.len(),
    ensures
        vector_slot(routes, vectors, region, count) == region_slot(
            routes,
            as_left_factors(vectors),
            FactorSide::Left,
            region,
            count,
        ),
    decreases count,
{
    if count > 0 {
        lemma_vector_slot(routes, vectors, region, count - 1);
    }
}

/// Region by region: the eigenvectors of a tensor are, in the region of a square
/// sector and with the values that are listed for it, an eigensystem of the
/// sector's matrix.
pub proof fn lemma_joined_vectors_diagonalize<
    D,
    V,
    F: Fn(&[D], usize, usize) -> Result<EigenStage<D, V>, OperationError>,
>(
    ring: Ring<D>,
    to_scalar: spec_fn(V) -> D,
    found: (Vec<D>, Vec<SectorSpectrum<V>>),
    routes: Seq<CompactFactorRoute>,
    source: Seq<CoupledSectorRegion>,
    data: Seq<D>,
    left: Seq<CoupledSectorRegion>,
    right: Seq<CoupledSectorRegion>,
    eigen: F,
    k: int,
    i: int,
)
    requires
        diagonalizes_exactly(ring, eigen, to_scalar),
        compact_routes(geometries(source), geometries(left), geometries(right)) == Ok::<
            Seq<CompactFactorRoute>,
            OperationError,
        >(routes),
        source.len() <= usize::MAX,
        left.len() <= usize::MAX,
        right.len() <= usize::MAX,
        sectors_distinct(geometries(source)),
        forall|m: int|
            0 <= m < source.len() ==> (#[trigger] source[m]).rows == source[m].cols,
        in_order(left),
        eigenvectors_joined(
            Ok(found),
            routes,
            source,
            data,
            left.len() as int,
            eigen,
        ),
        0 <= k < source.len(),
        source[k].rows != 0,
        0 <= i < left.len(),
        left[i].coupled == source[k].coupled,
    ensures
        found.1@.len() == source.len(),
        found.1@[k].sector == source[k].coupled,
        is_eigensystem(
            ring,
            region_of(data, source[k]),
            region_of(found.0@, left[i]),
            as_scalars(found.1@[k].values@, to_scalar),
        ),
{
    let count = routes.len() as int;
    let (stages, vectors, values) = choose|
        stages: Seq<Option<EigenStage<D, V>>>,
        vectors: Seq<Vec<D>>,
        values: Seq<Vec<V>>,
    |
        {
            &&& #[trigger] found_along(stages, routes, source, data, eigen)
            &&& stages.len() == routes.len()
            &&& #[trigger] are_eigen_parts(vectors, values, stages)
            &&& found.0@ == concatenated(
                vector_slots(routes, vectors, left.len() as int, count),
            )
            &&& crate::truncate::spectra(found.1@) == crate::direct::route_spectra(
                routes,
                values,
                count,
            )
        };
    let from = geometries(source);
    lemma_compact_routes_pair_sectors(from, geometries(left), geometries(right));
    let factors = as_left_factors(vectors);
    let slots = vector_slots(routes, vectors, left.len() as int, count);
    assert(slots =~= region_slots(routes, factors, FactorSide::Left, left.len() as int, count))
        by {
        assert forall|region: int| 0 <= region < left.len() implies slots[region] == region_slots(
            routes,
            factors,
            FactorSide::Left,
            left.len() as int,
            count,
        )[region] by {
            lemma_vector_slot(routes, vectors, region, count);
        }
    }
    assert forall|m: int| 0 <= m < routes.len() && (#[trigger] routes[m]).rank != 0 implies {
        &&& factors[m].left@.len() == source[m].rows * smaller(source[m].rows, source[m].cols)
        &&& factors[m].right@.len() == smaller(source[m].rows, source[m].cols) * source[m].cols
    } by {
        assert(from[m] == source[m].geometry());
        assert(stages[m] is Some);
        assert(is_eigen_part(stages[m], vectors[m], values[m]));
        assert(source[m].rows == source[m].cols);
        assert(factors_to(
            eigen,
            region_matrix(data, source[m]),
            source[m].rows,
            source[m].rows,
            Ok(stages[m]->0),
        ));
    }
    assert(from[k] == source[k].geometry());
    assert(source[k].rows == source[k].cols);
    assert(routes[k].rank != 0);
    assert(stages[k] is Some);
    assert(is_eigen_part(stages[k], vectors[k], values[k]));
    assert(factors_to(
        eigen,
        region_matrix(data, source[k]),
        source[k].rows,
        source[k].rows,
        Ok(stages[k]->0),
    ));
    lemma_region_holds_factor(routes, factors, source, left, right, FactorSide::Left, k, i);
    let listed = crate::truncate::spectra(found.1@);
    assert(listed.len() == found.1@.len());
    assert(listed[k].sector == found.1@[k].sector);
    assert(listed[k].values == found.1@[k].values@);
}

} // verus!
