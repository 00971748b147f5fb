//! What compact factorizations of tensors are in every sector, with exact
//! backends: their factors multiply to the sector's matrix.

use vstd::prelude::*;

use crate::compact_drive::{
    are_svd_pairs, are_svd_spectra, input_geometries, pairs_found, CompactSvdData,
};
use crate::completion_laws::is_full_svd_of;
use crate::dense_calls::factors_to;
use crate::direct::{region_slot, region_slots, route_factor, route_region, RouteFactors};
use crate::error::OperationError;
use crate::factor::{concatenated, held, FactorPair, FactorPlacement};
use crate::factor_routes::{
    compact_routes, left_region_used, lemma_compact_routes_cover,
    lemma_compact_routes_pair_sectors, right_region_used, smaller, CompactFactorRoute,
};
use crate::full::{full_pairs, full_spectra, FullSvdStage};
use crate::geometry::{geometries, sectors_distinct, CoupledSectorRegion, SectorGeometry};
use crate::input::InputMatricizations;
use crate::layout::FactorSide;
use crate::ring::{matrix, Matrix, Ring};
use crate::route_drive::{are_route_factors, are_split_stages, factors_joined, svds_joined};
use crate::sector_drive::{region_matrix, regions_hold};
use crate::spectrum::SectorSpectrum;
use crate::stages::{factored_until, found_along, is_bond_pair, is_split, sector_input, BondExtent};
use crate::svd_laws::is_svd_of;
use crate::svd_stage::SvdStage;
use crate::tensor_laws::{as_scalars, decomposes_exactly, region_of};

verus! {

/// Two factors that the backend gives multiply to the matrix, over a bond of this
/// extent.
pub open spec fn splits_exactly<
    D,
    F: Fn(&[D], usize, usize) -> Result<RouteFactors<D>, OperationError>,
>(ring: Ring<D>, factorize: F, bond: BondExtent) -> bool {
    forall|x: &[D], rows: usize, cols: usize, factors: RouteFactors<D>| #[trigger]
        call_ensures(
            factorize,
            (x, rows, cols),
            Ok::<RouteFactors<D>, OperationError>(factors),
        ) ==> {
            let kept = bond.spec_of(rows, cols) as int;
            let left = matrix(rows as int, kept, factors.left@);
            let right = matrix(kept, cols as int, factors.right@);
            &&& left.shaped()
            &&& right.shaped()
            &&& ring.mul(left, right) == matrix(rows as int, cols as int, x@)
        }
}

/// Sector by sector: there is a pair for every sector, and its factors multiply to
/// the sector's own matrix.
pub proof fn lemma_pairs_multiply<
    D,
    F: Fn(&[D], usize, usize) -> Result<RouteFactors<D>, OperationError>,
>(
    ring: Ring<D>,
    pairs: Seq<FactorPair<D>>,
    input: InputMatricizations<'_, D>,
    factorize: F,
    bond: BondExtent,
    k: int,
)
    requires
        splits_exactly(ring, factorize, bond),
        pairs_found(pairs, input, factorize, bond),
        0 <= k < input.spec_len(),
    ensures
        pairs.len() == input.spec_len(),
        pairs[k].sector == input_geometries(input)[k].sector,
        sector_input(input, k) is Ok,
        ({
            let source = sector_input(input, k)->Ok_0;
            let pair = pairs[k];
            ring.mul(
                matrix(pair.left_rows as int, pair.kept as int, pair.left@),
                matrix(pair.right_leading as int, source.cols as int, pair.right@),
            ) == matrix(source.rows as int, source.cols as int, source.data)
        }),
{
    let stages = choose|stages: Seq<RouteFactors<D>>|
        {
            &&& #[trigger] factored_until(stages, None, input, factorize)
            &&& pairs.len() == stages.len()
            &&& forall|k: int|
                0 <= k < pairs.len() ==> is_bond_pair(
                    #[trigger] pairs[k],
                    input_geometries(input)[k],
                    stages[k],
                    bond,
                )
        };
    assert(is_bond_pair(pairs[k], input_geometries(input)[k], stages[k], bond));
    let stage = stages[k];
    let source = sector_input(input, k)->Ok_0;
    assert(factors_to(factorize, source.data, source.rows, source.cols, Ok(stage)));
    lemma_input_shape(input, k);
}

/// The matrix of a sector has the shape of its geometry.
pub(crate) proof fn lemma_input_shape<D>(input: InputMatricizations<'_, D>, k: int)
    requires
        0 <= k < input.spec_len(),
        sector_input(input, k) is Ok,
    ensures
        sector_input(input, k)->Ok_0.rows == input_geometries(input)[k].rows,
        sector_input(input, k)->Ok_0.cols == input_geometries(input)[k].cols,
{
    match input {
        InputMatricizations::Regions { data, regions } => {
            assert(geometries(regions@)[k] == regions@[k].geometry());
        },
        InputMatricizations::Packed(matrices) => {
            assert(geometries(matrices@)[k] == matrices@[k].geometry());
        },
    }
}

/// Sector by sector: every sector has its singular values, and with them the
/// outer factors are an SVD of the sector's own matrix.
pub proof fn lemma_svd_pairs_decompose<
    D,
    V,
    F: Fn(&[D], usize, usize) -> Result<SvdStage<D, V>, OperationError>,
>(
    ring: Ring<D>,
    to_scalar: spec_fn(V) -> D,
    stages: Seq<SvdStage<D, V>>,
    pairs: Seq<FactorPair<D>>,
    spectra: Seq<SectorSpectrum<V>>,
    input: InputMatricizations<'_, D>,
    svd: F,
    k: int,
)
    requires
        decomposes_exactly(ring, svd, to_scalar),
        factored_until(stages, None, input, svd),
        are_svd_pairs(pairs, input_geometries(input), stages),
        are_svd_spectra(spectra, input_geometries(input), stages),
        0 <= k < input.spec_len(),
    ensures
        pairs.len() == spectra.len() == input.spec_len(),
        pairs[k].sector == input_geometries(input)[k].sector,
        spectra[k].sector == input_geometries(input)[k].sector,
        sector_input(input, k) is Ok,
        ({
            let source = sector_input(input, k)->Ok_0;
            let pair = pairs[k];
            is_svd_of(
                ring,
                matrix(source.rows as int, source.cols as int, source.data),
                matrix(pair.left_rows as int, pair.kept as int, pair.left@),
                as_scalars(spectra[k].values@, to_scalar),
                matrix(pair.right_leading as int, source.cols as int, pair.right@),
            )
        }),
{
    let stage = stages[k];
    assert(is_bond_pair(
        pairs[k],
        input_geometries(input)[k],
        RouteFactors { left: stage.u, right: stage.vt },
        BondExtent::Compact,
    ));
    assert(spectra[k].values == stage.values);
    let source = sector_input(input, k)->Ok_0;
    assert(factors_to(svd, source.data, source.rows, source.cols, Ok(stage)));
    lemma_input_shape(input, k);
}

/// The regions cover a buffer from its start, one behind the other.
pub open spec fn in_order(regions: Seq<CoupledSectorRegion>) -> bool {
    &&& regions_hold(regions)
    &&& regions.len() > 0 ==> regions[0].start == 0
    &&& forall|k: int|
        0 < k < regions.len() ==> (#[trigger] regions[k]).start == regions[k - 1].end
}

/// Contents with the lengths of their regions, joined, stand in these regions.
proof fn lemma_joined_in_order<D>(
    slots: Seq<Option<Vec<D>>>,
    regions: Seq<CoupledSectorRegion>,
    count: int,
    j: int,
)
    requires
        in_order(regions),
        slots.len() == regions.len(),
        forall|i: int|
            0 <= i < slots.len() ==> held(#[trigger] slots[i]).len() == regions[i].rows
                * regions[i].cols,
        0 <= j < count <= slots.len(),
    ensures
        concatenated(slots.take(count)).len() == regions[count - 1].end,
        0 <= regions[j].start <= regions[j].end <= regions[count - 1].end,
        region_matrix(concatenated(slots.take(count)), regions[j]) == held(slots[j]),
    decreases count,
{
    let before = slots.take(count - 1);
    assert(slots.take(count).drop_last() =~= before);
    assert(slots.take(count).last() == slots[count - 1]);
    let all = concatenated(slots.take(count));
    assert(all == concatenated(before) + held(slots[count - 1]));
    assert(held(slots[count - 1]).len() == regions[count - 1].rows * regions[count - 1].cols);
    assert(regions[count - 1].start + regions[count - 1].rows * regions[count - 1].cols
        == regions[count - 1].end);
    if count == 1 {
        assert(before =~= Seq::empty());
        assert(region_matrix(all, regions[0]) =~= held(slots[0]));
    } else {
        assert(regions[count - 1].start == regions[count - 2].end);
        if j < count - 1 {
            lemma_joined_in_order(slots, regions, count - 1, j);
            assert(region_matrix(all, regions[j]) =~= region_matrix(
                concatenated(before),
                regions[j],
            ));
        } else {
            lemma_joined_in_order(slots, regions, count - 1, count - 2);
            assert(region_matrix(all, regions[j]) =~= held(slots[j]));
        }
    }
}

/// A region that one route fills holds that route's factor.
proof fn lemma_slot_of_route<D>(
    routes: Seq<CompactFactorRoute>,
    factors: Seq<RouteFactors<D>>,
    side: FactorSide,
    region: int,
    count: int,
    k: int,
)
    requires
        0 <= count <= routes.len(),
        0 <= k < count,
        routes[k].rank != 0,
        route_region(routes[k], side) is Some,
        route_region(routes[k], side)->0 == region,
        forall|m: int|
            k < m < routes.len() && (#[trigger] routes[m]).rank != 0 && route_region(
                routes[m],
                side,
            ) is Some ==> route_region(routes[m], side)->0 != region,
    ensures
        region_slot(routes, factors, side, region, count) == Some(route_factor(factors[k], side)),
    decreases count,
{
    if count - 1 > k {
        lemma_slot_of_route(routes, factors, side, region, count - 1, k);
    }
}

/// A region that no route fills holds nothing.
proof fn lemma_slot_of_none<D>(
    routes: Seq<CompactFactorRoute>,
    factors: Seq<RouteFactors<D>>,
    side: FactorSide,
    region: int,
    count: int,
)
    requires
        0 <= count <= routes.len(),
        forall|m: int|
            0 <= m < routes.len() && (#[trigger] routes[m]).rank != 0 && route_region(
                routes[m],
                side,
            ) is Some ==> route_region(routes[m], side)->0 != region,
    ensures
        region_slot(routes, factors, side, region, count) is None,
    decreases count,
{
    if count > 0 {
        lemma_slot_of_none(routes, factors, side, region, count - 1);
    }
}

/// The regions of one side of compact factors.
pub open spec fn side_regions(
    left: Seq<CoupledSectorRegion>,
    right: Seq<CoupledSectorRegion>,
    side: FactorSide,
) -> Seq<CoupledSectorRegion> {
    match side {
        FactorSide::Left => left,
        FactorSide::Right => right,
    }
}

/// The factor of a source region stands in the region of its sector.
pub(crate) proof fn lemma_region_holds_factor<D>(
    routes: Seq<CompactFactorRoute>,
    factors: Seq<RouteFactors<D>>,
    source: Seq<CoupledSectorRegion>,
    left: Seq<CoupledSectorRegion>,
    right: Seq<CoupledSectorRegion>,
    side: FactorSide,
    k: int,
    i: int,
)
    requires
        compact_routes(geometries(source), geometries(left), geometries(right)) == Ok::<
            Seq<CompactFactorRoute>,
            OperationError,
        >(routes),
        source.len() <= usize::MAX,
        left.len() <= usize::MAX,
        right.len() <= usize::MAX,
        sectors_distinct(geometries(source)),
        in_order(side_regions(left, right, side)),
        factors.len() == routes.len(),
        forall|m: int|
            0 <= m < routes.len() && (#[trigger] routes[m]).rank != 0 ==> {
                &&& factors[m].left@.len() == source[m].rows * smaller(
                    source[m].rows,
                    source[m].cols,
                )
                &&& factors[m].right@.len() == smaller(source[m].rows, source[m].cols)
                    * source[m].cols
            },
        0 <= k < source.len(),
        smaller(source[k].rows, source[k].cols) != 0,
        0 <= i < side_regions(left, right, side).len(),
        side_regions(left, right, side)[i].coupled == source[k].coupled,
    ensures
        ({
            let regions = side_regions(left, right, side);
            let slots = region_slots(
                routes,
                factors,
                side,
                regions.len() as int,
                routes.len() as int,
            );
            &&& region_matrix(concatenated(slots), regions[i]) == route_factor(factors[k], side)@
            &&& side == FactorSide::Left ==> regions[i].rows == source[k].rows && regions[i].cols
                == smaller(source[k].rows, source[k].cols)
            &&& side == FactorSide::Right ==> regions[i].cols == source[k].cols && regions[i].rows
                == smaller(source[k].rows, source[k].cols)
        }),
{
    let regions = side_regions(left, right, side);
    let (from, to) = (geometries(source), geometries(regions));
    let (l, r) = (geometries(left), geometries(right));
    lemma_compact_routes_pair_sectors(from, l, r);
    lemma_compact_routes_cover(from, l, r);
    let count = routes.len() as int;
    let slots = region_slots(routes, factors, side, regions.len() as int, count);
    assert(routes[k].source_region == k);
    assert(from[k] == source[k].geometry());
    assert(to[i] == regions[i].geometry());
    let region = route_region(routes[k], side)->0 as int;
    assert(to[region] == regions[region].geometry());
    assert(region == i) by {
        if region < i {
            assert(to[region].sector != to[i].sector);
        } else if i < region {
            assert(to[i].sector != to[region].sector);
        }
    }
    assert forall|j: int| 0 <= j < slots.len() implies held(#[trigger] slots[j]).len()
        == regions[j].rows * regions[j].cols by {
        assert(to[j] == regions[j].geometry());
        if exists|m: int|
            0 <= m < routes.len() && (#[trigger] routes[m]).rank != 0 && route_region(
                routes[m],
                side,
            ) is Some && route_region(routes[m], side)->0 == j {
            let m = choose|m: int|
                0 <= m < routes.len() && (#[trigger] routes[m]).rank != 0 && route_region(
                    routes[m],
                    side,
                ) is Some && route_region(routes[m], side)->0 == j;
            lemma_routes_apart(routes, source, left, right, side, m, j);
            lemma_slot_of_route(routes, factors, side, j, count, m);
            assert(from[m] == source[m].geometry());
            assert(routes[m].source_region == m);
        } else {
            lemma_slot_of_none(routes, factors, side, j, count);
            match side {
                FactorSide::Left => {
                    if l[j].rows != 0 && l[j].cols != 0 {
                        assert(left_region_used(routes, j));
                    }
                },
                FactorSide::Right => {
                    if r[j].rows != 0 && r[j].cols != 0 {
                        assert(right_region_used(routes, j));
                    }
                },
            }
            let (a, b) = (regions[j].rows as int, regions[j].cols as int);
            assert(a * b == 0) by (nonlinear_arith)
                requires
                    a == 0 || b == 0,
            ;
        }
    }
    lemma_routes_apart(routes, source, left, right, side, k, i);
    lemma_slot_of_route(routes, factors, side, i, count, k);
    lemma_joined_in_order(slots, regions, regions.len() as int, i);
    assert(slots.take(regions.len() as int) =~= slots);
}

/// No later route fills the region of a route.
pub(crate) proof fn lemma_routes_apart(
    routes: Seq<CompactFactorRoute>,
    source: Seq<CoupledSectorRegion>,
    left: Seq<CoupledSectorRegion>,
    right: Seq<CoupledSectorRegion>,
    side: FactorSide,
    k: int,
    region: int,
)
    requires
        compact_routes(geometries(source), geometries(left), geometries(right)) == Ok::<
            Seq<CompactFactorRoute>,
            OperationError,
        >(routes),
        source.len() <= usize::MAX,
        left.len() <= usize::MAX,
        right.len() <= usize::MAX,
        sectors_distinct(geometries(source)),
        0 <= k < routes.len(),
        routes[k].rank != 0,
        route_region(routes[k], side) is Some,
        route_region(routes[k], side)->0 == region,
    ensures
        forall|m: int|
            k < m < routes.len() && (#[trigger] routes[m]).rank != 0 && route_region(
                routes[m],
                side,
            ) is Some ==> route_region(routes[m], side)->0 != region,
{
    let from = geometries(source);
    lemma_compact_routes_pair_sectors(from, geometries(left), geometries(right));
    assert forall|m: int|
        k < m < routes.len() && (#[trigger] routes[m]).rank != 0 && route_region(
            routes[m],
            side,
        ) is Some implies route_region(routes[m], side)->0 != region by {
        assert(routes[k].sector == from[k].sector);
        assert(routes[m].sector == from[m].sector);
        assert(from[k].sector != from[m].sector);
    }
}

/// Region by region: the factors of a tensor in the regions of a sector multiply
/// to the sector's matrix.
pub proof fn lemma_joined_factors_multiply<
    D,
    F: Fn(&[D], usize, usize) -> Result<RouteFactors<D>, OperationError>,
>(
    ring: Ring<D>,
    found: (Vec<D>, Vec<D>),
    routes: Seq<CompactFactorRoute>,
    source: Seq<CoupledSectorRegion>,
    data: Seq<D>,
    left: Seq<CoupledSectorRegion>,
    right: Seq<CoupledSectorRegion>,
    factorize: F,
    k: int,
    i: int,
    j: int,
)
    requires
        splits_exactly(ring, factorize, BondExtent::Compact),
        compact_routes(geometries(source), geometries(left), geometries(right)) == Ok::<
            Seq<CompactFactorRoute>,
            OperationError,
        >(routes),
        source.len() <= usize::MAX,
        left.len() <= usize::MAX,
        right.len() <= usize::MAX,
        sectors_distinct(geometries(source)),
        in_order(left),
        in_order(right),
        factors_joined(
            Ok(found),
            routes,
            source,
            data,
            left.len() as int,
            right.len() as int,
            factorize,
        ),
        0 <= k < source.len(),
        source[k].rows != 0,
        source[k].cols != 0,
        0 <= i < left.len(),
        left[i].coupled == source[k].coupled,
        0 <= j < right.len(),
        right[j].coupled == source[k].coupled,
    ensures
        ring.mul(region_of(found.0@, left[i]), region_of(found.1@, right[j])) == region_of(
            data,
            source[k],
        ),
{
    let count = routes.len() as int;
    let (stages, factors) = choose|
        stages: Seq<Option<RouteFactors<D>>>,
        factors: Seq<RouteFactors<D>>,
    |
        {
            &&& #[trigger] found_along(stages, routes, source, data, factorize)
            &&& stages.len() == routes.len()
            &&& #[trigger] are_route_factors(factors, stages)
            &&& found.0@ == concatenated(
                region_slots(routes, factors, FactorSide::Left, left.len() as int, count),
            )
            &&& found.1@ == concatenated(
                region_slots(routes, factors, FactorSide::Right, right.len() as int, count),
            )
        };
    let from = geometries(source);
    lemma_compact_routes_pair_sectors(from, geometries(left), geometries(right));
    assert forall|m: int| 0 <= m < routes.len() && (#[trigger] routes[m]).rank != 0 implies {
        &&& factors[m].left@.len() == source[m].rows * smaller(source[m].rows, source[m].cols)
        &&& factors[m].right@.len() == smaller(source[m].rows, source[m].cols) * source[m].cols
    } by {
        assert(from[m] == source[m].geometry());
        assert(stages[m] is Some);
        assert(factors[m] == stages[m]->0);
        assert(factors_to(
            factorize,
            region_matrix(data, source[m]),
            source[m].rows,
            source[m].cols,
            Ok(factors[m]),
        ));
    }
    assert(from[k] == source[k].geometry());
    assert(routes[k].rank != 0);
    assert(stages[k] is Some);
    assert(factors[k] == stages[k]->0);
    assert(factors_to(
        factorize,
        region_matrix(data, source[k]),
        source[k].rows,
        source[k].cols,
        Ok(factors[k]),
    ));
    lemma_region_holds_factor(routes, factors, source, left, right, FactorSide::Left, k, i);
    lemma_region_holds_factor(routes, factors, source, left, right, FactorSide::Right, k, j);
}

/// Region by region: the SVD of a tensor is, in the regions of a sector and with
/// the singular values that are listed for it, an SVD of the sector's matrix.
pub proof fn lemma_joined_svd_decomposes<
    D,
    V,
    F: Fn(&[D], usize, usize) -> Result<SvdStage<D, V>, OperationError>,
>(
    ring: Ring<D>,
    to_scalar: spec_fn(V) -> D,
    found: CompactSvdData<D, V>,
    routes: Seq<CompactFactorRoute>,
    source: Seq<CoupledSectorRegion>,
    data: Seq<D>,
    left: Seq<CoupledSectorRegion>,
    right: Seq<CoupledSectorRegion>,
    svd: F,
    k: int,
    i: int,
    j: int,
)
    requires
        decomposes_exactly(ring, svd, to_scalar),
        compact_routes(geometries(source), geometries(left), geometries(right)) == Ok::<
            Seq<CompactFactorRoute>,
            OperationError,
        >(routes),
        source.len() <= usize::MAX,
        left.len() <= usize::MAX,
        right.len() <= usize::MAX,
        sectors_distinct(geometries(source)),
        in_order(left),
        in_order(right),
        svds_joined(
            Ok(found),
            routes,
            source,
            data,
            left.len() as int,
            right.len() as int,
            svd,
        ),
        0 <= k < source.len(),
        source[k].rows != 0,
        source[k].cols != 0,
        0 <= i < left.len(),
        left[i].coupled == source[k].coupled,
        0 <= j < right.len(),
        right[j].coupled == source[k].coupled,
    ensures
        found.singular_values@.len() == source.len(),
        found.singular_values@[k].sector == source[k].coupled,
        is_svd_of(
            ring,
            region_of(data, source[k]),
            region_of(found.u@, left[i]),
            as_scalars(found.singular_values@[k].values@, to_scalar),
            region_of(found.vh@, right[j]),
        ),
{
    let count = routes.len() as int;
    let (stages, factors, values) = choose|
        stages: Seq<Option<SvdStage<D, V>>>,
        factors: Seq<RouteFactors<D>>,
        values: Seq<Vec<V>>,
    |
        {
            &&& #[trigger] found_along(stages, routes, source, data, svd)
            &&& stages.len() == routes.len()
            &&& #[trigger] are_split_stages(factors, values, stages)
            &&& found.u@ == concatenated(
                region_slots(routes, factors, FactorSide::Left, left.len() as int, count),
            )
            &&& found.vh@ == concatenated(
                region_slots(routes, factors, FactorSide::Right, right.len() as int, count),
            )
            &&& crate::truncate::spectra(found.singular_values@) == crate::direct::route_spectra(
                routes,
                values,
                count,
            )
        };
    let from = geometries(source);
    lemma_compact_routes_pair_sectors(from, geometries(left), geometries(right));
    assert forall|m: int| 0 <= m < routes.len() && (#[trigger] routes[m]).rank != 0 implies {
        &&& factors[m].left@.len() == source[m].rows * smaller(source[m].rows, source[m].cols)
        &&& factors[m].right@.len() == smaller(source[m].rows, source[m].cols) * source[m].cols
    } by {
        assert(from[m] == source[m].geometry());
        assert(stages[m] is Some);
        assert(is_split(stages[m], factors[m], values[m]));
        assert(factors_to(
            svd,
            region_matrix(data, source[m]),
            source[m].rows,
            source[m].cols,
            Ok(stages[m]->0),
        ));
    }
    assert(from[k] == source[k].geometry());
    assert(routes[k].rank != 0);
    assert(stages[k] is Some);
    assert(is_split(stages[k], factors[k], values[k]));
    assert(factors_to(
        svd,
        region_matrix(data, source[k]),
        source[k].rows,
        source[k].cols,
        Ok(stages[k]->0),
    ));
    lemma_region_holds_factor(routes, factors, source, left, right, FactorSide::Left, k, i);
    lemma_region_holds_factor(routes, factors, source, left, right, FactorSide::Right, k, j);
    let listed = crate::truncate::spectra(found.singular_values@);
    assert(listed.len() == found.singular_values@.len());
    assert(listed[k].sector == found.singular_values@[k].sector);
    assert(listed[k].values == found.singular_values@[k].values@);
}

/// Full SVDs that the backend gives are full SVDs of the matrix, or of its adjoint.
pub open spec fn decomposes_fully<
    D,
    V,
    F: Fn(&[D], usize, usize) -> Result<FullSvdStage<D, V>, OperationError>,
>(ring: Ring<D>, svd: F, to_scalar: spec_fn(V) -> D, placement: FactorPlacement) -> bool {
    forall|x: &[D], rows: usize, cols: usize, stage: FullSvdStage<D, V>| #[trigger]
        call_ensures(
            svd,
            (x, rows, cols),
            Ok::<FullSvdStage<D, V>, OperationError>(stage),
        ) ==> is_full_svd_of(
            ring,
            oriented(ring, matrix(rows as int, cols as int, x@), placement),
            matrix(stage.left_rows as int, stage.left_rows as int, stage.left@),
            as_scalars(stage.singular_values@, to_scalar),
            matrix(stage.right_leading as int, stage.right_leading as int, stage.right@),
        )
}

/// A matrix, or its adjoint where the factors are those of the adjoint.
pub open spec fn oriented<D>(
    ring: Ring<D>,
    a: Matrix<D>,
    placement: FactorPlacement,
) -> Matrix<D> {
    match placement {
        FactorPlacement::Direct => a,
        FactorPlacement::Adjoint => ring.adjoint(a),
    }
}

/// Sector by sector: the pair of a sector and the singular values listed for it are
/// a full SVD of the sector's own matrix.
pub proof fn lemma_full_pairs_decompose<
    D,
    V,
    F: Fn(&[D], usize, usize) -> Result<FullSvdStage<D, V>, OperationError>,
>(
    ring: Ring<D>,
    to_scalar: spec_fn(V) -> D,
    stages: Seq<FullSvdStage<D, V>>,
    input: InputMatricizations<'_, D>,
    svd: F,
    placement: FactorPlacement,
    k: int,
)
    requires
        decomposes_fully(ring, svd, to_scalar, placement),
        factored_until(stages, None, input, svd),
        0 <= k < input.spec_len(),
    ensures
        sector_input(input, k) is Ok,
        ({
            let source = sector_input(input, k)->Ok_0;
            let all = input_geometries(input);
            let pair = full_pairs(all, stages, stages.len() as int)[k];
            let spectrum = full_spectra(all, stages, stages.len() as int)[k];
            &&& full_pairs(all, stages, stages.len() as int).len() == input.spec_len()
            &&& full_spectra(all, stages, stages.len() as int).len() == input.spec_len()
            &&& pair.sector == all[k].sector
            &&& spectrum.sector == all[k].sector
            &&& is_full_svd_of(
                ring,
                oriented(
                    ring,
                    matrix(source.rows as int, source.cols as int, source.data),
                    placement,
                ),
                matrix(pair.left_rows as int, pair.kept as int, pair.left@),
                as_scalars(spectrum.values@, to_scalar),
                matrix(pair.right_leading as int, pair.right_leading as int, pair.right@),
            )
        }),
{
    let stage = stages[k];
    let source = sector_input(input, k)->Ok_0;
    assert(factors_to(svd, source.data, source.rows, source.cols, Ok(stage)));
}

} // verus!
