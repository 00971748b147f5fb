//! Tests of whether dense results fit the routes that publish them.

use vstd::prelude::*;

use crate::direct::{
    fills_left_regions, lq_routes_fit, lq_shapes_fit, region_slot, region_slots, routes_within,
    vector_slot, vector_slots, RouteFactors,
};
use crate::factor::{concatenated, first_fits, held};
use crate::factor_routes::CompactFactorRoute;
use crate::fits::exact_extent;
use crate::geometry::{geometries, spans, CoupledSectorRegion, SectorGeometry, TreeExtent};
use crate::index::extent;
use crate::layout::FactorSide;
use crate::null::{basis_fits, RankedBasis};
use crate::sector_drive::{regions_hold, regions_laid_out, trees_inside};

verus! {

/// Whether every route of nonzero rank names a region on both sides.
pub fn routes_are_within(
    routes: &[CompactFactorRoute],
    left_regions: usize,
    right_regions: usize,
) -> (within: bool)
    ensures
        within == routes_within(routes@, left_regions as int, right_regions as int),
{
    let mut k: usize = 0;
    while k < routes.len()
        invariant
            k <= routes@.len(),
            forall|j: int|
                0 <= j < k && (#[trigger] routes@[j]).rank != 0 ==> {
                    &&& routes@[j].left_region is Some
                    &&& routes@[j].left_region->0 < left_regions
                    &&& routes@[j].right_region is Some
                    &&& routes@[j].right_region->0 < right_regions
                },
        decreases routes.len() - k,
    {
        let route = &routes[k];
        if route.rank != 0 {
            let left = match route.left_region {
                Some(region) => region < left_regions,
                None => false,
            };
            let right = match route.right_region {
                Some(region) => region < right_regions,
                None => false,
            };
            if !left || !right {
                assert(routes@[k as int].rank != 0);
                return false;
            }
        }
        k += 1;
    }
    true
}

/// Regions that hold nothing join to nothing.
proof fn lemma_empty_regions<D>(regions: Seq<Option<Vec<D>>>, count: int)
    requires
        0 <= count <= regions.len(),
        forall|j: int| 0 <= j < count ==> held(#[trigger] regions[j]).len() == 0,
    ensures
        concatenated(regions.take(count)).len() == 0,
    decreases count,
{
    if count > 0 {
        lemma_empty_regions(regions, count - 1);
        assert(regions.take(count).drop_last() =~= regions.take(count - 1));
        assert(regions.take(count).last() == regions[count - 1]);
    }
}

/// What joins to nothing holds nothing.
proof fn lemma_joined_holds<D>(regions: Seq<Option<Vec<D>>>, count: int, at: int)
    requires
        0 <= at < count <= regions.len(),
        held(regions[at]).len() > 0,
    ensures
        concatenated(regions.take(count)).len() > 0,
    decreases count,
{
    assert(regions.take(count).drop_last() =~= regions.take(count - 1));
    assert(regions.take(count).last() == regions[count - 1]);
    if at < count - 1 {
        lemma_joined_holds(regions, count - 1, at);
    }
}

/// Whether the first factor with elements, in the order of the regions, is no
/// longer than the output.
pub fn region_factors_fit<D>(
    routes: &[CompactFactorRoute],
    factors: &[RouteFactors<D>],
    side: FactorSide,
    regions: usize,
    len: usize,
) -> (fits: bool)
    requires
        factors@.len() == routes@.len(),
    ensures
        fits == first_fits(
            region_slots(routes@, factors@, side, regions as int, routes@.len() as int),
            len as int,
        ),
{
    let ghost slots = region_slots(routes@, factors@, side, regions as int, routes@.len() as int);
    let mut region: usize = 0;
    while region < regions
        invariant
            region <= regions,
            factors@.len() == routes@.len(),
            slots == region_slots(routes@, factors@, side, regions as int, routes@.len() as int),
            forall|j: int| 0 <= j < region ==> held(#[trigger] slots[j]).len() == 0,
        decreases regions - region,
    {
        let mut size: usize = 0;
        let mut k: usize = routes.len();
        let mut found = false;
        while k > 0 && !found
            invariant
                k <= routes@.len(),
                factors@.len() == routes@.len(),
                region < regions,
                slots[region as int] == region_slot(
                    routes@,
                    factors@,
                    side,
                    region as int,
                    routes@.len() as int,
                ),
                found ==> size == held(slots[region as int]).len(),
                !found ==> size == 0 && region_slot(
                    routes@,
                    factors@,
                    side,
                    region as int,
                    routes@.len() as int,
                ) == region_slot(routes@, factors@, side, region as int, k as int),
            decreases k,
        {
            k -= 1;
            let route = &routes[k];
            let named = match side {
                FactorSide::Left => route.left_region,
                FactorSide::Right => route.right_region,
            };
            let here = match named {
                Some(named) => named == region,
                None => false,
            };
            if route.rank != 0 && here {
                size = match side {
                    FactorSide::Left => factors[k].left.len(),
                    FactorSide::Right => factors[k].right.len(),
                };
                found = true;
            }
        }
        assert(size == held(slots[region as int]).len());
        if size > 0 {
            proof {
                lemma_empty_regions(slots, region as int);
                if size <= len {
                    assert forall|j: int|
                        0 <= j < slots.len() && concatenated(slots.take(j)).len() == 0 implies held(
                        #[trigger] slots[j],
                    ).len() <= len by {
                        if j > region {
                            lemma_joined_holds(slots, j, region as int);
                        }
                    }
                }
            }
            return size <= len;
        }
        region += 1;
    }
    true
}

/// Whether the first eigenvectors with elements, in the order of the regions,
/// are no longer than the output.
pub fn region_vectors_fit<D>(
    routes: &[CompactFactorRoute],
    vectors: &[Vec<D>],
    regions: usize,
    len: usize,
) -> (fits: bool)
    requires
        vectors@.len() == routes@.len(),
    ensures
        fits == first_fits(
            vector_slots(routes@, vectors@, regions as int, routes@.len() as int),
            len as int,
        ),
{
    let ghost slots = vector_slots(routes@, vectors@, regions as int, routes@.len() as int);
    let mut region: usize = 0;
    while region < regions
        invariant
            region <= regions,
            vectors@.len() == routes@.len(),
            slots == vector_slots(routes@, vectors@, regions as int, routes@.len() as int),
            forall|j: int| 0 <= j < region ==> held(#[trigger] slots[j]).len() == 0,
        decreases regions - region,
    {
        let mut size: usize = 0;
        let mut k: usize = routes.len();
        let mut found = false;
        while k > 0 && !found
            invariant
                k <= routes@.len(),
                vectors@.len() == routes@.len(),
                region < regions,
                slots[region as int] == vector_slot(
                    routes@,
                    vectors@,
                    region as int,
                    routes@.len() as int,
                ),
                found ==> size == held(slots[region as int]).len(),
                !found ==> size == 0 && vector_slot(
                    routes@,
                    vectors@,
                    region as int,
                    routes@.len() as int,
                ) == vector_slot(routes@, vectors@, region as int, k as int),
            decreases k,
        {
            k -= 1;
            let route = &routes[k];
            let here = match route.left_region {
                Some(named) => named == region,
                None => false,
            };
            if route.rank != 0 && here {
                size = vectors[k].len();
                found = true;
            }
        }
        assert(size == held(slots[region as int]).len());
        if size > 0 {
            proof {
                lemma_empty_regions(slots, region as int);
                if size <= len {
                    assert forall|j: int|
                        0 <= j < slots.len() && concatenated(slots.take(j)).len() == 0 implies held(
                        #[trigger] slots[j],
                    ).len() <= len by {
                        if j > region {
                            lemma_joined_holds(slots, j, region as int);
                        }
                    }
                }
            }
            return size <= len;
        }
        region += 1;
    }
    true
}

/// Whether routes of nonzero rank fill different left regions, and exactly
/// those that have elements.
pub fn left_regions_are_filled(
    routes: &[CompactFactorRoute],
    left: &[CoupledSectorRegion],
) -> (filled: bool)
    ensures
        filled == fills_left_regions(routes@, left@),
{
    let mut k: usize = 0;
    while k < routes.len()
        invariant
            k <= routes@.len(),
            forall|j: int|
                0 <= j < k && (#[trigger] routes@[j]).rank != 0 ==> {
                    &&& routes@[j].left_region is Some
                    &&& routes@[j].left_region->0 < left@.len()
                    &&& left@[routes@[j].left_region->0 as int].start
                        < left@[routes@[j].left_region->0 as int].end
                },
            forall|i: int, j: int|
                0 <= i < j < k && (#[trigger] routes@[i]).rank != 0 && (
                #[trigger] routes@[j]).rank != 0 ==> routes@[i].left_region
                    != routes@[j].left_region,
        decreases routes.len() - k,
    {
        if routes[k].rank != 0 {
            let region: usize = match routes[k].left_region {
                Some(region) => region,
                None => {
                    assert(routes@[k as int].rank != 0);
                    return false;
                },
            };
            if region >= left.len() || left[region].start >= left[region].end {
                assert(routes@[k as int].rank != 0);
                return false;
            }
            let mut j: usize = 0;
            while j < k
                invariant
                    j <= k < routes@.len(),
                    routes@[k as int].rank != 0,
                    routes@[k as int].left_region == Some(region),
                    forall|i: int|
                        0 <= i < j && (#[trigger] routes@[i]).rank != 0 ==> routes@[i].left_region
                            != Some(region),
                decreases k - j,
            {
                if routes[j].rank != 0 {
                    let taken = match routes[j].left_region {
                        Some(other) => other == region,
                        None => false,
                    };
                    if taken {
                        assert(routes@[j as int].left_region == routes@[k as int].left_region);
                        return false;
                    }
                }
                j += 1;
            }
        }
        k += 1;
    }
    let mut region: usize = 0;
    while region < left.len()
        invariant
            region <= left@.len(),
            forall|r: int|
                0 <= r < region && (#[trigger] left@[r]).start < left@[r].end ==> exists|k: int|
                    0 <= k < routes@.len() && (#[trigger] routes@[k]).rank != 0
                        && routes@[k].left_region == Some(r as usize),
        decreases left.len() - region,
    {
        if left[region].start < left[region].end {
            let mut k: usize = 0;
            let mut found = false;
            while k < routes.len() && !found
                invariant
                    k <= routes@.len(),
                    found ==> exists|j: int|
                        0 <= j < routes@.len() && (#[trigger] routes@[j]).rank != 0
                            && routes@[j].left_region == Some(region),
                    !found ==> forall|j: int|
                        0 <= j < k && (#[trigger] routes@[j]).rank != 0 ==> routes@[j].left_region
                            != Some(region),
                decreases routes.len() - k,
            {
                let here = match routes[k].left_region {
                    Some(named) => named == region,
                    None => false,
                };
                if routes[k].rank != 0 && here {
                    assert(routes@[k as int].left_region == Some(region));
                    found = true;
                }
                k += 1;
            }
            if !found {
                assert(left@[region as int].start < left@[region as int].end);
                return false;
            }
        }
        region += 1;
    }
    true
}

/// Whether the factors of every route of an LQ have their shapes and fit their
/// outputs.
pub fn lq_routes_are_inside<D>(
    routes: &[CompactFactorRoute],
    factors: &[RouteFactors<D>],
    source: &[CoupledSectorRegion],
    left: &[CoupledSectorRegion],
    right: &[CoupledSectorRegion],
    left_len: usize,
    right_len: usize,
) -> (inside: bool)
    ensures
        inside == lq_routes_fit(
            routes@,
            factors@,
            source@,
            left@,
            right@,
            left_len as int,
            right_len as int,
        ),
{
    if factors.len() != routes.len() || !routes_are_within(routes, left.len(), right.len()) {
        return false;
    }
    let mut k: usize = 0;
    while k < routes.len()
        invariant
            k <= routes@.len() == factors@.len(),
            routes_within(routes@, left@.len() as int, right@.len() as int),
            forall|j: int|
                0 <= j < k && (#[trigger] routes@[j]).rank != 0 ==> routes@[j].source_region
                    < source@.len() && lq_shapes_fit(
                    routes@[j],
                    factors@[j],
                    source@[routes@[j].source_region as int],
                    left@[routes@[j].left_region->0 as int],
                    right@[routes@[j].right_region->0 as int],
                    left_len as int,
                    right_len as int,
                ),
        decreases routes.len() - k,
    {
        let route = &routes[k];
        if route.rank != 0 {
            assert(routes@[k as int].rank != 0);
            if route.source_region >= source.len() {
                return false;
            }
            let region = &source[route.source_region];
            let (left_region, right_region): (usize, usize) = match (
                route.left_region,
                route.right_region,
            ) {
                (Some(left_region), Some(right_region)) => (left_region, right_region),
                _ => {
                    return false;
                },
            };
            let left_size: usize = factors[k].left.len();
            let right_size: usize = factors[k].right.len();
            let shapes = match (
                route.rank.checked_mul(region.rows),
                region.cols.checked_mul(route.rank),
            ) {
                (Some(first), Some(second)) => left_size == first && right_size == second,
                _ => false,
            };
            let ends = match (
                left[left_region].start.checked_add(left_size),
                right[right_region].start.checked_add(right_size),
            ) {
                (Some(first), Some(second)) => first <= left_len && second <= right_len,
                _ => false,
            };
            if !shapes || !ends {
                assert(!lq_shapes_fit(
                    routes@[k as int],
                    factors@[k as int],
                    source@[routes@[k as int].source_region as int],
                    left@[routes@[k as int].left_region->0 as int],
                    right@[routes@[k as int].right_region->0 as int],
                    left_len as int,
                    right_len as int,
                ));
                return false;
            }
        }
        k += 1;
    }
    true
}

/// Whether every sector has its rank, with a full basis where it is not full.
pub fn bases_are_complete<D, M: SectorGeometry>(
    matricizations: &[M],
    ranked: &[RankedBasis<D>],
    side: FactorSide,
) -> (complete: bool)
    ensures
        complete == (ranked@.len() == matricizations@.len() && forall|k: int|
            0 <= k < ranked@.len() ==> basis_fits(
                geometries(matricizations@)[k],
                side,
                #[trigger] ranked@[k],
            )),
{
    if ranked.len() != matricizations.len() {
        return false;
    }
    let ghost all = geometries(matricizations@);
    let mut k: usize = 0;
    while k < ranked.len()
        invariant
            k <= ranked@.len() == matricizations@.len(),
            all == geometries(matricizations@),
            forall|j: int| 0 <= j < k ==> basis_fits(all[j], side, #[trigger] ranked@[j]),
        decreases ranked.len() - k,
    {
        let extent: usize = match side {
            FactorSide::Left => matricizations[k].rows(),
            FactorSide::Right => matricizations[k].cols(),
        };
        assert(all[k as int] == matricizations@[k as int].geometry());
        let basis = &ranked[k];
        let held: usize = basis.basis.len();
        let full = match extent.checked_mul(extent) {
            Some(square) => held == square,
            None => false,
        };
        if basis.rank > extent || (basis.rank < extent && !full) {
            assert(!basis_fits(all[k as int], side, ranked@[k as int]));
            return false;
        }
        k += 1;
    }
    true
}

/// Whether the range of every region holds its matrix.
pub fn regions_are_held(regions: &[CoupledSectorRegion]) -> (held: bool)
    ensures
        held == regions_hold(regions@),
{
    let mut k: usize = 0;
    while k < regions.len()
        invariant
            k <= regions@.len(),
            forall|j: int|
                0 <= j < k ==> (#[trigger] regions@[j]).start + regions@[j].rows * regions@[j].cols
                    == regions@[j].end,
        decreases regions.len() - k,
    {
        let region = &regions[k];
        let held = match region.rows.checked_mul(region.cols) {
            Some(elements) => match region.start.checked_add(elements) {
                Some(end) => end == region.end,
                None => false,
            },
            None => false,
        };
        if !held {
            assert(regions@[k as int].start + regions@[k as int].rows * regions@[k as int].cols
                != regions@[k as int].end);
            return false;
        }
        k += 1;
    }
    true
}

fn trees_are_inside(trees: &[TreeExtent], total: usize) -> (inside: bool)
    ensures
        inside == trees_inside(spans(trees@), total as int),
{
    let mut k: usize = 0;
    while k < trees.len()
        invariant
            k <= trees@.len(),
            forall|j: int|
                0 <= j < k ==> (#[trigger] spans(trees@)[j]).offset + extent(
                    spans(trees@)[j].shape,
                ) <= total,
        decreases trees.len() - k,
    {
        assert(spans(trees@)[k as int] == trees@[k as int]@);
        let inside = match exact_extent(trees[k].shape.as_slice()) {
            Some(size) => match trees[k].offset.checked_add(size) {
                Some(end) => end <= total,
                None => false,
            },
            None => false,
        };
        if !inside {
            return false;
        }
        k += 1;
    }
    true
}

/// Whether the range of every region holds its matrix, and its trees lie inside
/// its rows and columns.
pub fn regions_are_laid_out(regions: &[CoupledSectorRegion]) -> (laid_out: bool)
    ensures
        laid_out == regions_laid_out(regions@),
{
    if !regions_are_held(regions) {
        return false;
    }
    let mut k: usize = 0;
    while k < regions.len()
        invariant
            k <= regions@.len(),
            regions_hold(regions@),
            forall|j: int|
                0 <= j < k ==> trees_inside(
                    (#[trigger] regions@[j]).geometry().row_trees,
                    regions@[j].rows as int,
                ) && trees_inside(regions@[j].geometry().col_trees, regions@[j].cols as int),
        decreases regions.len() - k,
    {
        let region = &regions[k];
        if !trees_are_inside(region.row_trees.as_slice(), region.rows) || !trees_are_inside(
            region.col_trees.as_slice(),
            region.cols,
        ) {
            assert(regions@[k as int] == *region);
            return false;
        }
        k += 1;
    }
    true
}

} // verus!
