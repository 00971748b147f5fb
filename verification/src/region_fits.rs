//! Tests of whether compact factors fit the regions of their outputs, before any
//! is computed.

use vstd::prelude::*;

use crate::compact_drive::factors_are_shaped;
use crate::direct::{
    region_slot, region_slots, routes_within, vector_slot, vector_slots, RouteFactors,
};
use crate::factor::{concatenated, first_fits, held};
use crate::factor_routes::{smaller, CompactFactorRoute};
use crate::geometry::CoupledSectorRegion;
use crate::layout::{filled, FactorSide};
use crate::route_drive::{
    are_shaped_factors, are_shaped_vectors, compact_regions_fit, eigen_regions_fit,
    lq_regions_fit, sources_named,
};
use crate::route_fits::{region_factors_fit, region_vectors_fit, routes_are_within};
use crate::stages::BondExtent;

verus! {

/// Whether every route of nonzero rank names a region of the source.
pub fn sources_are_named(
    routes: &[CompactFactorRoute],
    source: &[CoupledSectorRegion],
) -> (named: bool)
    ensures
        named == sources_named(routes@, source@),
{
    let mut k: usize = 0;
    while k < routes.len()
        invariant
            k <= routes@.len(),
            forall|j: int|
                0 <= j < k && (#[trigger] routes@[j]).rank != 0 ==> routes@[j].source_region
                    < source@.len(),
        decreases routes.len() - k,
    {
        if routes[k].rank != 0 && routes[k].source_region >= source.len() {
            assert(routes@[k as int].rank != 0);
            return false;
        }
        k += 1;
    }
    true
}

/// The compact factors along all routes have numbers of elements that fit.
pub open spec fn route_sizes_fit(
    routes: Seq<CompactFactorRoute>,
    source: Seq<CoupledSectorRegion>,
) -> bool {
    forall|k: int|
        0 <= k < routes.len() && (#[trigger] routes[k]).rank != 0 ==> {
            let region = source[routes[k].source_region as int];
            let kept = smaller(region.rows, region.cols);
            &&& region.rows * kept <= usize::MAX
            &&& kept * region.cols <= usize::MAX
            &&& region.rows * region.rows <= usize::MAX
        }
}

/// Contents of the same lengths join to the same length.
proof fn lemma_same_lengths<D, E>(a: Seq<Option<Vec<D>>>, b: Seq<Option<Vec<E>>>)
    requires
        a.len() == b.len(),
        forall|k: int| 0 <= k < a.len() ==> held(#[trigger] a[k]).len() == held(b[k]).len(),
    ensures
        concatenated(a).len() == concatenated(b).len(),
    decreases a.len(),
{
    if a.len() > 0 {
        let x = a.drop_last();
        let y = b.drop_last();
        assert forall|k: int| 0 <= k < x.len() implies held(#[trigger] x[k]).len() == held(
            y[k],
        ).len() by {
            assert(x[k] == a[k]);
        }
        lemma_same_lengths(x, y);
        assert(held(a[a.len() - 1]).len() == held(b[a.len() - 1]).len());
    }
}

proof fn lemma_same_first<D, E>(a: Seq<Option<Vec<D>>>, b: Seq<Option<Vec<E>>>, len: int)
    requires
        a.len() == b.len(),
        forall|k: int| 0 <= k < a.len() ==> held(#[trigger] a[k]).len() == held(b[k]).len(),
        first_fits(a, len),
    ensures
        first_fits(b, len),
{
    assert forall|k: int| 0 <= k < b.len() && concatenated(b.take(k)).len() == 0 implies held(
        #[trigger] b[k],
    ).len() <= len by {
        let x = a.take(k);
        let y = b.take(k);
        assert forall|j: int| 0 <= j < x.len() implies held(#[trigger] x[j]).len() == held(
            y[j],
        ).len() by {
            assert(x[j] == a[j]);
        }
        lemma_same_lengths(x, y);
        assert(held(a[k]).len() <= len);
    }
}

proof fn lemma_same_slot<D, E>(
    routes: Seq<CompactFactorRoute>,
    source: Seq<CoupledSectorRegion>,
    a: Seq<RouteFactors<D>>,
    b: Seq<RouteFactors<E>>,
    side: FactorSide,
    region: int,
    count: int,
)
    requires
        are_shaped_factors(a, routes, source),
        are_shaped_factors(b, routes, source),
        count <= routes.len(),
    ensures
        held(region_slot(routes, a, side, region, count)).len() == held(
            region_slot(routes, b, side, region, count),
        ).len(),
    decreases count,
{
    if count > 0 {
        let k = count - 1;
        assert(a[k].left@.len() == a[k].left@.len() && b[k].left@.len() == b[k].left@.len());
        lemma_same_slot(routes, source, a, b, side, region, k);
    }
}

/// The factors of routes of one shape fit alike, whatever their elements.
proof fn lemma_shaped_regions<D, E>(
    routes: Seq<CompactFactorRoute>,
    source: Seq<CoupledSectorRegion>,
    a: Seq<RouteFactors<D>>,
    b: Seq<RouteFactors<E>>,
    side: FactorSide,
    regions: int,
    len: int,
)
    requires
        are_shaped_factors(a, routes, source),
        are_shaped_factors(b, routes, source),
        0 <= regions,
        first_fits(region_slots(routes, a, side, regions, routes.len() as int), len),
    ensures
        first_fits(region_slots(routes, b, side, regions, routes.len() as int), len),
{
    let x = region_slots(routes, a, side, regions, routes.len() as int);
    let y = region_slots(routes, b, side, regions, routes.len() as int);
    assert forall|k: int| 0 <= k < x.len() implies held(#[trigger] x[k]).len() == held(
        y[k],
    ).len() by {
        lemma_same_slot(routes, source, a, b, side, k, routes.len() as int);
    }
    lemma_same_first(x, y, len);
}

/// Factors along the routes with their shapes, and no elements to speak of.
fn unit_factors(
    routes: &[CompactFactorRoute],
    source: &[CoupledSectorRegion],
) -> (factors: Option<Vec<RouteFactors<()>>>)
    requires
        sources_named(routes@, source@),
    ensures
        factors is Some <==> route_sizes_fit(routes@, source@),
        factors is Some ==> are_shaped_factors(factors->0@, routes@, source@),
{
    let mut factors: Vec<RouteFactors<()>> = Vec::with_capacity(routes.len());
    let mut k: usize = 0;
    while k < routes.len()
        invariant
            k <= routes@.len(),
            sources_named(routes@, source@),
            factors@.len() == k,
            forall|j: int|
                0 <= j < k ==> {
                    let region = source@[routes@[j].source_region as int];
                    if routes@[j].rank == 0 {
                        (#[trigger] factors@[j]).left@.len() == 0 && factors@[j].right@.len() == 0
                    } else {
                        factors_are_shaped(factors@[j], region.rows, region.cols)
                    }
                },
            forall|j: int|
                0 <= j < k && (#[trigger] routes@[j]).rank != 0 ==> {
                    let region = source@[routes@[j].source_region as int];
                    let kept = smaller(region.rows, region.cols);
                    &&& region.rows * kept <= usize::MAX
                    &&& kept * region.cols <= usize::MAX
                    &&& region.rows * region.rows <= usize::MAX
                },
        decreases routes.len() - k,
    {
        let route = &routes[k];
        if route.rank == 0 {
            factors.push(RouteFactors { left: Vec::new(), right: Vec::new() });
        } else {
            assert(routes@[k as int].source_region < source@.len());
            let region = &source[route.source_region];
            let (rows, cols): (usize, usize) = (region.rows, region.cols);
            let kept: usize = BondExtent::Compact.of(rows, cols);
            match (rows.checked_mul(kept), kept.checked_mul(cols), rows.checked_mul(rows)) {
                (Some(left), Some(right), Some(_)) => {
                    factors.push(
                        RouteFactors { left: filled((), left), right: filled((), right) },
                    );
                },
                _ => {
                    assert(routes@[k as int].rank != 0);
                    return None;
                },
            }
        }
        k += 1;
    }
    Some(factors)
}

/// Whether the first compact factor of each side fits its output.
pub fn compact_regions_are_inside<D>(
    routes: &[CompactFactorRoute],
    source: &[CoupledSectorRegion],
    left_regions: usize,
    right_regions: usize,
    left_len: usize,
    right_len: usize,
) -> (inside: bool)
    ensures
        inside == {
            &&& sources_named(routes@, source@)
            &&& routes_within(routes@, left_regions as int, right_regions as int)
            &&& route_sizes_fit(routes@, source@)
            &&& compact_regions_fit::<()>(
                routes@,
                source@,
                left_regions as int,
                right_regions as int,
                left_len as int,
                right_len as int,
            )
        },
        inside ==> compact_regions_fit::<D>(
            routes@,
            source@,
            left_regions as int,
            right_regions as int,
            left_len as int,
            right_len as int,
        ),
{
    if !sources_are_named(routes, source) || !routes_are_within(
        routes,
        left_regions,
        right_regions,
    ) {
        return false;
    }
    let factors = match unit_factors(routes, source) {
        Some(factors) => factors,
        None => {
            return false;
        },
    };
    let left = FactorSide::Left;
    let right = FactorSide::Right;
    let inside = region_factors_fit(routes, factors.as_slice(), left, left_regions, left_len)
        && region_factors_fit(routes, factors.as_slice(), right, right_regions, right_len);
    proof {
        assert(are_shaped_factors(factors@, routes@, source@));
        if inside {
            assert forall|other: Seq<RouteFactors<()>>| #[trigger]
                are_shaped_factors(other, routes@, source@) implies first_fits(
                region_slots(routes@, other, left, left_regions as int, routes@.len() as int),
                left_len as int,
            ) && first_fits(
                region_slots(routes@, other, right, right_regions as int, routes@.len() as int),
                right_len as int,
            ) by {
                lemma_shaped_regions(
                    routes@,
                    source@,
                    factors@,
                    other,
                    left,
                    left_regions as int,
                    left_len as int,
                );
                lemma_shaped_regions(
                    routes@,
                    source@,
                    factors@,
                    other,
                    right,
                    right_regions as int,
                    right_len as int,
                );
            }
            assert forall|other: Seq<RouteFactors<D>>| #[trigger]
                are_shaped_factors(other, routes@, source@) implies first_fits(
                region_slots(routes@, other, left, left_regions as int, routes@.len() as int),
                left_len as int,
            ) && first_fits(
                region_slots(routes@, other, right, right_regions as int, routes@.len() as int),
                right_len as int,
            ) by {
                lemma_shaped_regions(
                    routes@,
                    source@,
                    factors@,
                    other,
                    left,
                    left_regions as int,
                    left_len as int,
                );
                lemma_shaped_regions(
                    routes@,
                    source@,
                    factors@,
                    other,
                    right,
                    right_regions as int,
                    right_len as int,
                );
            }
        }
    }
    inside
}

proof fn lemma_same_vector_slot<D, E>(
    routes: Seq<CompactFactorRoute>,
    source: Seq<CoupledSectorRegion>,
    a: Seq<Vec<D>>,
    b: Seq<Vec<E>>,
    region: int,
    count: int,
)
    requires
        are_shaped_vectors(a, routes, source),
        are_shaped_vectors(b, routes, source),
        count <= routes.len(),
    ensures
        held(vector_slot(routes, a, region, count)).len() == held(
            vector_slot(routes, b, region, count),
        ).len(),
    decreases count,
{
    if count > 0 {
        let k = count - 1;
        assert(a[k]@.len() == b[k]@.len());
        lemma_same_vector_slot(routes, source, a, b, region, k);
    }
}

proof fn lemma_shaped_vectors<D, E>(
    routes: Seq<CompactFactorRoute>,
    source: Seq<CoupledSectorRegion>,
    a: Seq<Vec<D>>,
    b: Seq<Vec<E>>,
    regions: int,
    len: int,
)
    requires
        are_shaped_vectors(a, routes, source),
        are_shaped_vectors(b, routes, source),
        0 <= regions,
        first_fits(vector_slots(routes, a, regions, routes.len() as int), len),
    ensures
        first_fits(vector_slots(routes, b, regions, routes.len() as int), len),
{
    let x = vector_slots(routes, a, regions, routes.len() as int);
    let y = vector_slots(routes, b, regions, routes.len() as int);
    assert forall|k: int| 0 <= k < x.len() implies held(#[trigger] x[k]).len() == held(
        y[k],
    ).len() by {
        lemma_same_vector_slot(routes, source, a, b, k, routes.len() as int);
    }
    lemma_same_first(x, y, len);
}

/// Whether the first eigenvectors fit their output.
pub fn eigen_regions_are_inside<D>(
    routes: &[CompactFactorRoute],
    source: &[CoupledSectorRegion],
    regions: usize,
    len: usize,
) -> (inside: bool)
    ensures
        inside == {
            &&& sources_named(routes@, source@)
            &&& route_sizes_fit(routes@, source@)
            &&& eigen_regions_fit::<()>(routes@, source@, regions as int, len as int)
        },
        inside ==> eigen_regions_fit::<D>(routes@, source@, regions as int, len as int),
{
    if !sources_are_named(routes, source) || unit_factors(routes, source).is_none() {
        return false;
    }
    let mut vectors: Vec<Vec<()>> = Vec::with_capacity(routes.len());
    let mut k: usize = 0;
    while k < routes.len()
        invariant
            k <= routes@.len(),
            sources_named(routes@, source@),
            route_sizes_fit(routes@, source@),
            vectors@.len() == k,
            forall|j: int|
                0 <= j < k ==> {
                    let rows = source@[routes@[j].source_region as int].rows;
                    (#[trigger] vectors@[j])@.len() == if routes@[j].rank == 0 {
                        0
                    } else {
                        rows * rows
                    }
                },
        decreases routes.len() - k,
    {
        let route = &routes[k];
        if route.rank == 0 {
            vectors.push(Vec::new());
        } else {
            assert(routes@[k as int].source_region < source@.len());
            let rows: usize = source[route.source_region].rows;
            assert(rows * rows <= usize::MAX);
            vectors.push(filled((), rows * rows));
        }
        k += 1;
    }
    let inside = region_vectors_fit(routes, vectors.as_slice(), regions, len);
    proof {
        assert(are_shaped_vectors(vectors@, routes@, source@));
        if inside {
            assert forall|other: Seq<Vec<()>>| #[trigger]
                are_shaped_vectors(other, routes@, source@) implies first_fits(
                vector_slots(routes@, other, regions as int, routes@.len() as int),
                len as int,
            ) by {
                lemma_shaped_vectors(
                    routes@,
                    source@,
                    vectors@,
                    other,
                    regions as int,
                    len as int,
                );
            }
            assert forall|other: Seq<Vec<D>>| #[trigger]
                are_shaped_vectors(other, routes@, source@) implies first_fits(
                vector_slots(routes@, other, regions as int, routes@.len() as int),
                len as int,
            ) by {
                lemma_shaped_vectors(
                    routes@,
                    source@,
                    vectors@,
                    other,
                    regions as int,
                    len as int,
                );
            }
        }
    }
    inside
}

/// Whether the routes of an LQ have the ranks of their regions, with room for the
/// factors in both outputs.
pub fn lq_regions_are_inside(
    routes: &[CompactFactorRoute],
    source: &[CoupledSectorRegion],
    left: &[CoupledSectorRegion],
    right: &[CoupledSectorRegion],
    left_len: usize,
    right_len: usize,
) -> (inside: bool)
    ensures
        inside == lq_regions_fit(
            routes@,
            source@,
            left@,
            right@,
            left_len as int,
            right_len as int,
        ),
{
    if !routes_are_within(routes, left.len(), right.len()) {
        return false;
    }
    let mut k: usize = 0;
    while k < routes.len()
        invariant
            k <= routes@.len(),
            routes_within(routes@, left@.len() as int, right@.len() as int),
            forall|j: int|
                0 <= j < k && (#[trigger] routes@[j]).rank != 0 ==> {
                    let from = source@[routes@[j].source_region as int];
                    &&& routes@[j].source_region < source@.len()
                    &&& routes@[j].rank == smaller(from.rows, from.cols)
                    &&& left@[routes@[j].left_region->0 as int].start + routes@[j].rank * from.rows
                        <= left_len
                    &&& right@[routes@[j].right_region->0 as int].start + from.cols
                        * routes@[j].rank <= right_len
                },
        decreases routes.len() - k,
    {
        let route = &routes[k];
        if route.rank != 0 {
            assert(routes@[k as int].rank != 0);
            let (l, r): (usize, usize) = match (route.left_region, route.right_region) {
                (Some(l), Some(r)) => (l, r),
                _ => {
                    return false;
                },
            };
            if route.source_region >= source.len() {
                return false;
            }
            let from = &source[route.source_region];
            if route.rank != BondExtent::Compact.of(from.rows, from.cols) {
                return false;
            }
            let left_size = match route.rank.checked_mul(from.rows) {
                Some(size) => left[l].start.checked_add(size),
                None => None,
            };
            let right_size = match from.cols.checked_mul(route.rank) {
                Some(size) => right[r].start.checked_add(size),
                None => None,
            };
            let inside = match (left_size, right_size) {
                (Some(a), Some(b)) => a <= left_len && b <= right_len,
                _ => false,
            };
            if !inside {
                return false;
            }
        }
        k += 1;
    }
    true
}

} // verus!
