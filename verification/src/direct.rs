//! Publication of compact factors region by region.

use vstd::prelude::*;

use crate::dense::{
    adjoint_col_major, adjoint_matrix, lemma_adjoint_matrix, splice, write_range,
};
use crate::factor::{concat_owned_factor_regions, concatenated, first_fits};
use crate::factor_routes::CompactFactorRoute;
use crate::geometry::CoupledSectorRegion;
use crate::layout::{filled, FactorSide};
use crate::publish::zeros;
use crate::spectrum::{is_function, SectorSpectrum};
use crate::truncate::{spectra, Spectrum};

verus! {

/// The dense factors of one route.
#[derive(Clone, Debug, PartialEq, Eq)]
pub struct RouteFactors<D> {
    pub left: Vec<D>,
    pub right: Vec<D>,
}

/// The region on one side that a route fills.
pub open spec fn route_region(route: CompactFactorRoute, side: FactorSide) -> Option<usize> {
    match side {
        FactorSide::Left => route.left_region,
        FactorSide::Right => route.right_region,
    }
}

/// The factor of one side.
pub open spec fn route_factor<D>(factors: RouteFactors<D>, side: FactorSide) -> Vec<D> {
    match side {
        FactorSide::Left => factors.left,
        FactorSide::Right => factors.right,
    }
}

/// What a region holds after the first `count` routes: the factor of the last
/// route of nonzero rank that fills it.
pub open spec fn region_slot<D>(
    routes: Seq<CompactFactorRoute>,
    factors: Seq<RouteFactors<D>>,
    side: FactorSide,
    region: int,
    count: int,
) -> Option<Vec<D>>
    decreases count,
{
    if count <= 0 {
        None
    } else if routes[count - 1].rank != 0 && route_region(routes[count - 1], side) is Some
        && route_region(routes[count - 1], side)->0 == region {
        Some(route_factor(factors[count - 1], side))
    } else {
        region_slot(routes, factors, side, region, count - 1)
    }
}

/// What all regions of one side hold after the first `count` routes.
pub open spec fn region_slots<D>(
    routes: Seq<CompactFactorRoute>,
    factors: Seq<RouteFactors<D>>,
    side: FactorSide,
    regions: int,
    count: int,
) -> Seq<Option<Vec<D>>> {
    Seq::new(
        regions as nat,
        |region: int| region_slot(routes, factors, side, region, count),
    )
}

/// Every route of nonzero rank names a region on both sides.
pub open spec fn routes_within(
    routes: Seq<CompactFactorRoute>,
    left_regions: int,
    right_regions: int,
) -> bool {
    forall|k: int|
        0 <= k < routes.len() && (#[trigger] routes[k]).rank != 0 ==> {
            &&& routes[k].left_region is Some
            &&& routes[k].left_region->0 < left_regions
            &&& routes[k].right_region is Some
            &&& routes[k].right_region->0 < right_regions
        }
}

fn empty_slots<D>(count: usize) -> (slots: Vec<Option<Vec<D>>>)
    ensures
        slots@.len() == count,
        forall|k: int| 0 <= k < count ==> slots@[k] is None,
{
    let mut slots: Vec<Option<Vec<D>>> = Vec::with_capacity(count);
    while slots.len() < count
        invariant
            slots@.len() <= count,
            forall|k: int| 0 <= k < slots@.len() ==> slots@[k] is None,
        decreases count - slots.len(),
    {
        slots.push(None);
    }
    slots
}

/// Joins the factors of all routes in the order of their regions.
pub fn qr_compact_direct_regions<D>(
    routes: &[CompactFactorRoute],
    factors: Vec<RouteFactors<D>>,
    left_regions: usize,
    right_regions: usize,
    left_len: usize,
    right_len: usize,
) -> (data: (Vec<D>, Vec<D>))
    requires
        factors@.len() == routes@.len(),
        routes_within(routes@, left_regions as int, right_regions as int),
        first_fits(
            region_slots(
                routes@,
                factors@,
                FactorSide::Left,
                left_regions as int,
                routes@.len() as int,
            ),
            left_len as int,
        ),
        first_fits(
            region_slots(
                routes@,
                factors@,
                FactorSide::Right,
                right_regions as int,
                routes@.len() as int,
            ),
            right_len as int,
        ),
    ensures
        data.0@ == concatenated(
            region_slots(
                routes@,
                factors@,
                FactorSide::Left,
                left_regions as int,
                routes@.len() as int,
            ),
        ),
        data.1@ == concatenated(
            region_slots(
                routes@,
                factors@,
                FactorSide::Right,
                right_regions as int,
                routes@.len() as int,
            ),
        ),
{
    let ghost all = factors@;
    let mut left_slots: Vec<Option<Vec<D>>> = empty_slots(left_regions);
    let mut right_slots: Vec<Option<Vec<D>>> = empty_slots(right_regions);
    let mut k: usize = 0;
    proof {
        assert(left_slots@ =~= region_slots(
            routes@,
            all,
            FactorSide::Left,
            left_regions as int,
            0,
        ));
        assert(right_slots@ =~= region_slots(
            routes@,
            all,
            FactorSide::Right,
            right_regions as int,
            0,
        ));
    }
    for pair in iter: factors
        invariant
            iter.seq() == all,
            all.len() == routes@.len(),
            k == iter.index(),
            routes_within(routes@, left_regions as int, right_regions as int),
            left_slots@ == region_slots(
                routes@,
                all,
                FactorSide::Left,
                left_regions as int,
                k as int,
            ),
            right_slots@ == region_slots(
                routes@,
                all,
                FactorSide::Right,
                right_regions as int,
                k as int,
            ),
    {
        let route = routes[k];
        assert(pair == all[k as int]);
        let ghost left_before = left_slots@;
        let ghost right_before = right_slots@;
        if route.rank != 0 {
            match (route.left_region, route.right_region) {
                (Some(l), Some(r)) => {
                    left_slots.set(l, Some(pair.left));
                    right_slots.set(r, Some(pair.right));
                },
                _ => {},
            }
        }
        proof {
            assert(left_slots@ =~= region_slots(
                routes@,
                all,
                FactorSide::Left,
                left_regions as int,
                k + 1,
            ));
            assert(right_slots@ =~= region_slots(
                routes@,
                all,
                FactorSide::Right,
                right_regions as int,
                k + 1,
            ));
        }
        k += 1;
    }
    (
        concat_owned_factor_regions(left_slots, left_len),
        concat_owned_factor_regions(right_slots, right_len),
    )
}

/// The spectra of the first `count` routes; a route of rank zero has none.
pub open spec fn route_spectra<V>(
    routes: Seq<CompactFactorRoute>,
    values: Seq<Vec<V>>,
    count: int,
) -> Seq<Spectrum<V>> {
    Seq::new(
        count as nat,
        |k: int|
            Spectrum {
                sector: routes[k].sector,
                values: if routes[k].rank == 0 {
                    Seq::empty()
                } else {
                    values[k]@
                },
            },
    )
}

/// The spectra of all routes, an empty one where the rank is zero.
pub fn spectra_of_routes<V>(
    routes: &[CompactFactorRoute],
    values: Vec<Vec<V>>,
) -> (result: Vec<SectorSpectrum<V>>)
    requires
        values@.len() == routes@.len(),
    ensures
        spectra(result@) == route_spectra(routes@, values@, routes@.len() as int),
{
    let ghost all = values@;
    let mut result: Vec<SectorSpectrum<V>> = Vec::with_capacity(routes.len());
    let mut k: usize = 0;
    assert(spectra(result@) =~= route_spectra(routes@, all, 0));
    for entry in iter: values
        invariant
            iter.seq() == all,
            all.len() == routes@.len(),
            k == iter.index(),
            result@.len() == k,
            spectra(result@) == route_spectra(routes@, all, k as int),
    {
        let route = routes[k];
        assert(entry == all[k as int]);
        let ghost before = spectra(result@);
        if route.rank == 0 {
            result.push(SectorSpectrum { sector: route.sector, values: Vec::new() });
        } else {
            result.push(SectorSpectrum { sector: route.sector, values: entry });
        }
        proof {
            assert(spectra(result@) =~= before.push(spectra(result@)[k as int]));
            assert(spectra(result@) =~= route_spectra(routes@, all, k + 1));
        }
        k += 1;
    }
    result
}

/// Joins the factors of all routes in the order of their regions, and lists
/// the spectra in the order of the routes.
pub fn svd_compact_direct_regions<D, V>(
    routes: &[CompactFactorRoute],
    factors: Vec<RouteFactors<D>>,
    values: Vec<Vec<V>>,
    left_regions: usize,
    right_regions: usize,
    left_len: usize,
    right_len: usize,
) -> (result: (Vec<D>, Vec<D>, Vec<SectorSpectrum<V>>))
    requires
        factors@.len() == routes@.len(),
        values@.len() == routes@.len(),
        routes_within(routes@, left_regions as int, right_regions as int),
        first_fits(
            region_slots(
                routes@,
                factors@,
                FactorSide::Left,
                left_regions as int,
                routes@.len() as int,
            ),
            left_len as int,
        ),
        first_fits(
            region_slots(
                routes@,
                factors@,
                FactorSide::Right,
                right_regions as int,
                routes@.len() as int,
            ),
            right_len as int,
        ),
    ensures
        result.0@ == concatenated(
            region_slots(
                routes@,
                factors@,
                FactorSide::Left,
                left_regions as int,
                routes@.len() as int,
            ),
        ),
        result.1@ == concatenated(
            region_slots(
                routes@,
                factors@,
                FactorSide::Right,
                right_regions as int,
                routes@.len() as int,
            ),
        ),
        spectra(result.2@) == route_spectra(routes@, values@, routes@.len() as int),
{
    let (left, right) = qr_compact_direct_regions(
        routes,
        factors,
        left_regions,
        right_regions,
        left_len,
        right_len,
    );
    (left, right, spectra_of_routes(routes, values))
}

/// What a left region holds after the first `count` routes.
pub open spec fn vector_slot<D>(
    routes: Seq<CompactFactorRoute>,
    vectors: Seq<Vec<D>>,
    region: int,
    count: int,
) -> Option<Vec<D>>
    decreases count,
{
    if count <= 0 {
        None
    } else if routes[count - 1].rank != 0 && routes[count - 1].left_region is Some
        && routes[count - 1].left_region->0 == region {
        Some(vectors[count - 1])
    } else {
        vector_slot(routes, vectors, region, count - 1)
    }
}

/// What all left regions hold after the first `count` routes.
pub open spec fn vector_slots<D>(
    routes: Seq<CompactFactorRoute>,
    vectors: Seq<Vec<D>>,
    regions: int,
    count: int,
) -> Seq<Option<Vec<D>>> {
    Seq::new(regions as nat, |region: int| vector_slot(routes, vectors, region, count))
}

/// Routes of nonzero rank fill different left regions, and fill exactly those
/// that have elements.
pub open spec fn fills_left_regions(
    routes: Seq<CompactFactorRoute>,
    left: Seq<CoupledSectorRegion>,
) -> bool {
    &&& forall|k: int|
        0 <= k < routes.len() && (#[trigger] routes[k]).rank != 0 ==> {
            &&& routes[k].left_region is Some
            &&& routes[k].left_region->0 < left.len()
            &&& left[routes[k].left_region->0 as int].start
                < left[routes[k].left_region->0 as int].end
        }
    &&& forall|j: int, k: int|
        0 <= j < k < routes.len() && (#[trigger] routes[j]).rank != 0 && (
        #[trigger] routes[k]).rank != 0 ==> routes[j].left_region != routes[k].left_region
    &&& forall|region: int|
        0 <= region < left.len() && (#[trigger] left[region]).start < left[region].end
            ==> exists|k: int|
            0 <= k < routes.len() && (#[trigger] routes[k]).rank != 0 && routes[k].left_region
                == Some(region as usize)
}

/// Joins the eigenvectors of all routes in the order of their regions, and
/// lists the eigenvalues in the order of the routes.
pub fn eigh_full_direct_regions<D, V>(
    routes: &[CompactFactorRoute],
    vectors: Vec<Vec<D>>,
    values: Vec<Vec<V>>,
    left: &[CoupledSectorRegion],
    left_len: usize,
) -> (result: (Vec<D>, Vec<SectorSpectrum<V>>))
    requires
        vectors@.len() == routes@.len(),
        values@.len() == routes@.len(),
        fills_left_regions(routes@, left@),
        first_fits(
            vector_slots(routes@, vectors@, left@.len() as int, routes@.len() as int),
            left_len as int,
        ),
    ensures
        result.0@ == concatenated(
            vector_slots(routes@, vectors@, left@.len() as int, routes@.len() as int),
        ),
        spectra(result.1@) == route_spectra(routes@, values@, routes@.len() as int),
{
    let ghost all = vectors@;
    let mut slots: Vec<Option<Vec<D>>> = empty_slots(left.len());
    let mut k: usize = 0;
    assert(slots@ =~= vector_slots(routes@, all, left@.len() as int, 0));
    for vector in iter: vectors
        invariant
            iter.seq() == all,
            all.len() == routes@.len(),
            k == iter.index(),
            fills_left_regions(routes@, left@),
            slots@ == vector_slots(routes@, all, left@.len() as int, k as int),
    {
        let route = routes[k];
        assert(vector == all[k as int]);
        if route.rank != 0 {
            assert(routes@[k as int].rank != 0);
            if let Some(region) = route.left_region {
                slots.set(region, Some(vector));
            }
        }
        assert(slots@ =~= vector_slots(routes@, all, left@.len() as int, k + 1));
        k += 1;
    }
    (concat_owned_factor_regions(slots, left_len), spectra_of_routes(routes, values))
}

/// The shapes of the two dense factors of a route's adjoint matrix.
pub open spec fn lq_shapes_fit<D>(
    route: CompactFactorRoute,
    factors: RouteFactors<D>,
    source: CoupledSectorRegion,
    left: CoupledSectorRegion,
    right: CoupledSectorRegion,
    left_len: int,
    right_len: int,
) -> bool {
    &&& factors.left@.len() == route.rank * source.rows
    &&& factors.right@.len() == source.cols * route.rank
    &&& left.start + factors.left@.len() <= left_len
    &&& right.start + factors.right@.len() <= right_len
}

/// The data of both factors after the first `count` routes of an LQ.
pub struct LqData<D> {
    pub left: Seq<D>,
    pub right: Seq<D>,
}

/// Each route of nonzero rank puts the adjoint of its triangular factor
/// (`rank x rows`) and of its isometry (`cols x rank`) where its regions start.
pub open spec fn lq_routes<D, F: Fn(D) -> D>(
    routes: Seq<CompactFactorRoute>,
    factors: Seq<RouteFactors<D>>,
    source: Seq<CoupledSectorRegion>,
    left: Seq<CoupledSectorRegion>,
    right: Seq<CoupledSectorRegion>,
    data: LqData<D>,
    conjugate: F,
    count: int,
) -> LqData<D>
    decreases count,
{
    if count <= 0 {
        data
    } else {
        let before = lq_routes(
            routes,
            factors,
            source,
            left,
            right,
            data,
            conjugate,
            count - 1,
        );
        let route = routes[count - 1];
        let from = source[route.source_region as int];
        if route.rank == 0 {
            before
        } else {
            LqData {
                left: splice(
                    before.left,
                    left[route.left_region->0 as int].start as int,
                    adjoint_matrix(
                        conjugate,
                        factors[count - 1].left@,
                        route.rank as int,
                        from.rows as int,
                    ),
                ),
                right: splice(
                    before.right,
                    right[route.right_region->0 as int].start as int,
                    adjoint_matrix(
                        conjugate,
                        factors[count - 1].right@,
                        from.cols as int,
                        route.rank as int,
                    ),
                ),
            }
        }
    }
}

/// Every route of nonzero rank has its source region and factors that fit.
pub open spec fn lq_routes_fit<D>(
    routes: Seq<CompactFactorRoute>,
    factors: Seq<RouteFactors<D>>,
    source: Seq<CoupledSectorRegion>,
    left: Seq<CoupledSectorRegion>,
    right: Seq<CoupledSectorRegion>,
    left_len: int,
    right_len: int,
) -> bool {
    &&& factors.len() == routes.len()
    &&& routes_within(routes, left.len() as int, right.len() as int)
    &&& forall|k: int|
        0 <= k < routes.len() && (#[trigger] routes[k]).rank != 0 ==> routes[k].source_region
            < source.len() && lq_shapes_fit(
            routes[k],
            factors[k],
            source[routes[k].source_region as int],
            left[routes[k].left_region->0 as int],
            right[routes[k].right_region->0 as int],
            left_len,
            right_len,
        )
}

/// Publishes the factors of a compact LQ, given for each route as the
/// triangular factor (`left`) and the isometry (`right`) of the QR of its
/// adjoint matrix.
pub fn lq_compact_direct_regions<D: Copy, F: Fn(D) -> D>(
    routes: &[CompactFactorRoute],
    factors: &[RouteFactors<D>],
    source: &[CoupledSectorRegion],
    left: &[CoupledSectorRegion],
    right: &[CoupledSectorRegion],
    left_len: usize,
    right_len: usize,
    conjugate: &F,
    zero: D,
) -> (data: (Vec<D>, Vec<D>))
    requires
        is_function(conjugate),
        lq_routes_fit(
            routes@,
            factors@,
            source@,
            left@,
            right@,
            left_len as int,
            right_len as int,
        ),
    ensures
        ({
            let expected = lq_routes(
                routes@,
                factors@,
                source@,
                left@,
                right@,
                LqData {
                    left: zeros(zero, left_len as int),
                    right: zeros(zero, right_len as int),
                },
                conjugate,
                routes@.len() as int,
            );
            &&& data.0@ == expected.left
            &&& data.1@ == expected.right
        }),
{
    let mut left_data: Vec<D> = filled(zero, left_len);
    let mut right_data: Vec<D> = filled(zero, right_len);
    let ghost start = LqData { left: left_data@, right: right_data@ };
    let mut k: usize = 0;
    while k < routes.len()
        invariant
            k <= routes@.len(),
            is_function(conjugate),
            lq_routes_fit(
                routes@,
                factors@,
                source@,
                left@,
                right@,
                left_len as int,
                right_len as int,
            ),
            left_data@.len() == left_len,
            right_data@.len() == right_len,
            start == (LqData {
                left: zeros(zero, left_len as int),
                right: zeros(zero, right_len as int),
            }),
            lq_routes(
                routes@,
                factors@,
                source@,
                left@,
                right@,
                start,
                conjugate,
                k as int,
            ) == (LqData { left: left_data@, right: right_data@ }),
        decreases routes.len() - k,
    {
        let route = routes[k];
        if route.rank != 0 {
            match (route.left_region, route.right_region) {
                (Some(l), Some(r)) => {
                    assert(routes@[k as int].rank != 0);
                    let from = &source[route.source_region];
                    let triangular = factors[k].left.as_slice();
                    let isometry = factors[k].right.as_slice();
                    let left_part = adjoint_col_major(
                        triangular,
                        route.rank,
                        from.rows,
                        conjugate,
                    );
                    let right_part = adjoint_col_major(
                        isometry,
                        from.cols,
                        route.rank,
                        conjugate,
                    );
                    proof {
                        lemma_adjoint_matrix(
                            conjugate,
                            triangular@,
                            route.rank as int,
                            from.rows as int,
                            left_part@,
                        );
                        lemma_adjoint_matrix(
                            conjugate,
                            isometry@,
                            from.cols as int,
                            route.rank as int,
                            right_part@,
                        );
                    }
                    write_range(
                        left_data.as_mut_slice(),
                        left[l].start,
                        left_part.as_slice(),
                    );
                    write_range(
                        right_data.as_mut_slice(),
                        right[r].start,
                        right_part.as_slice(),
                    );
                },
                _ => {},
            }
        }
        k += 1;
    }
    (left_data, right_data)
}

} // verus!
