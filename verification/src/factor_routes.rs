//! Routing of compact and polar factors between coupled-sector regions.

use vstd::prelude::*;

use crate::error::{unsupported, OperationError};
use crate::factor::SectorRank;
use crate::geometry::{
    geometries, lemma_sector_position, same_extents, sector_position, sectors_distinct,
    CoupledSectorRegion, Geometry, SectorGeometry,
};
use crate::outcome::{all_ok, lemma_all_ok_fails, lemma_all_ok_step, lemma_all_ok_values};
use crate::polar::PolarDirection;
use crate::publish::scope;
use crate::routes::{
    covers, covers_all, duplicate_sector, range_refusal, validate_region_range, values_are,
    SectorRegionIndex,
};
use crate::sector::SectorId;

verus! {

/// One source region and, where its matrix has a nonzero rank, the two regions
/// that take its factors.
#[derive(Clone, Copy, Debug, PartialEq, Eq)]
pub struct CompactFactorRoute {
    pub source_region: usize,
    pub left_region: Option<usize>,
    pub right_region: Option<usize>,
    pub sector: SectorId,
    pub rank: usize,
}

/// The smaller of two extents.
pub open spec fn smaller(a: usize, b: usize) -> usize {
    if a <= b {
        a
    } else {
        b
    }
}

/// The bond of both compact factors: one sector for each source region, of
/// dimension `min(rows, cols)`.
pub open spec fn compact_bond(source: Seq<Geometry>) -> Seq<SectorRank> {
    source.map_values(
        |region: Geometry|
            SectorRank { sector: region.sector, kept: smaller(region.rows, region.cols) },
    )
}

/// The bond of a compact factorization.
pub fn compact_bond_leg<M: SectorGeometry>(regions: &[M]) -> (leg: Vec<SectorRank>)
    ensures
        leg@ == compact_bond(geometries(regions@)),
{
    let ghost expected = compact_bond(geometries(regions@));
    let mut leg: Vec<SectorRank> = Vec::with_capacity(regions.len());
    let mut k: usize = 0;
    while k < regions.len()
        invariant
            k <= regions@.len(),
            leg@.len() == k,
            expected == compact_bond(geometries(regions@)),
            forall|j: int| 0 <= j < k ==> leg@[j] == expected[j],
        decreases regions.len() - k,
    {
        let (rows, cols): (usize, usize) = (regions[k].rows(), regions[k].cols());
        assert(geometries(regions@)[k as int] == regions@[k as int].geometry());
        leg.push(
            SectorRank {
                sector: regions[k].sector(),
                kept: if rows <= cols {
                    rows
                } else {
                    cols
                },
            },
        );
        k += 1;
    }
    assert(leg@ =~= expected);
    leg
}

/// The route of one source region.
pub open spec fn compact_route(
    source: Seq<Geometry>,
    left: Seq<Geometry>,
    right: Seq<Geometry>,
    k: int,
) -> Result<CompactFactorRoute, OperationError> {
    let region = source[k];
    let rank = smaller(region.rows, region.cols);
    if rank == 0 {
        Ok(
            CompactFactorRoute {
                source_region: k as usize,
                left_region: None,
                right_region: None,
                sector: region.sector,
                rank,
            },
        )
    } else {
        match (
            sector_position(left, region.sector, 0),
            sector_position(right, region.sector, 0),
        ) {
            (None, _) => Err(scope("compact left factor is missing a nonzero-rank sector")),
            (Some(_), None) => Err(
                scope("compact right factor is missing a nonzero-rank sector"),
            ),
            (Some(l), Some(r)) => if left[l].rows != region.rows || left[l].cols != rank {
                Err(scope("compact left sector region has an unexpected shape"))
            } else if right[r].rows != rank || right[r].cols != region.cols {
                Err(scope("compact right sector region has an unexpected shape"))
            } else {
                Ok(
                    CompactFactorRoute {
                        source_region: k as usize,
                        left_region: Some(l as usize),
                        right_region: Some(r as usize),
                        sector: region.sector,
                        rank,
                    },
                )
            },
        }
    }
}

/// How many of the first `count` regions have elements.
pub open spec fn nonzero_regions(regions: Seq<Geometry>, count: int) -> int
    decreases count,
{
    if count <= 0 {
        0
    } else {
        nonzero_regions(regions, count - 1) + if regions[count - 1].rows != 0 && regions[count
            - 1].cols != 0 {
            1int
        } else {
            0int
        }
    }
}

/// How many of the first `count` routes have a nonzero rank.
pub open spec fn nonzero_routes(routes: Seq<CompactFactorRoute>, count: int) -> int
    decreases count,
{
    if count <= 0 {
        0
    } else {
        nonzero_routes(routes, count - 1) + if routes[count - 1].rank != 0 {
            1int
        } else {
            0int
        }
    }
}

/// The routes of all source regions, where both factors have each sector once
/// and no more regions with elements than there are routes of nonzero rank.
pub open spec fn compact_routes(
    source: Seq<Geometry>,
    left: Seq<Geometry>,
    right: Seq<Geometry>,
) -> Result<Seq<CompactFactorRoute>, OperationError> {
    if !sectors_distinct(left) || !sectors_distinct(right) {
        Err(duplicate_sector())
    } else {
        match all_ok(Seq::new(source.len(), |k: int| compact_route(source, left, right, k))) {
            Err(error) => Err(error),
            Ok(routes) => {
                let used = nonzero_routes(routes, routes.len() as int);
                if used < nonzero_regions(left, left.len() as int) {
                    Err(scope("compact left factor contains an unused nonzero sector"))
                } else if used < nonzero_regions(right, right.len() as int) {
                    Err(scope("compact right factor contains an unused nonzero sector"))
                } else {
                    Ok(routes)
                }
            },
        }
    }
}

/// How many regions have elements.
fn count_nonzero_regions(regions: &[CoupledSectorRegion]) -> (count: usize)
    ensures
        count == nonzero_regions(geometries(regions@), regions@.len() as int),
        count <= regions@.len(),
{
    let ghost all = geometries(regions@);
    let mut count: usize = 0;
    let mut k: usize = 0;
    while k < regions.len()
        invariant
            count <= k <= regions@.len(),
            all == geometries(regions@),
            count == nonzero_regions(all, k as int),
        decreases regions.len() - k,
    {
        assert(all[k as int] == regions@[k as int].geometry());
        if regions[k].rows != 0 && regions[k].cols != 0 {
            count += 1;
        }
        k += 1;
    }
    count
}

/// Pairs every source region of nonzero rank with the left and right factor
/// regions of its sector.
pub fn compile_compact_factor_routes(
    source_regions: &[CoupledSectorRegion],
    left_regions: &[CoupledSectorRegion],
    right_regions: &[CoupledSectorRegion],
) -> (result: Result<Vec<CompactFactorRoute>, OperationError>)
    ensures
        values_are(
            result,
            compact_routes(
                geometries(source_regions@),
                geometries(left_regions@),
                geometries(right_regions@),
            ),
        ),
{
    let ghost source = geometries(source_regions@);
    let ghost left = geometries(left_regions@);
    let ghost right = geometries(right_regions@);
    let ghost outcomes = Seq::new(source.len(), |k: int| compact_route(source, left, right, k));
    let left_index = match SectorRegionIndex::new(left_regions) {
        Ok(index) => index,
        Err(error) => {
            return Err(error);
        },
    };
    let right_index = match SectorRegionIndex::new(right_regions) {
        Ok(index) => index,
        Err(error) => {
            return Err(error);
        },
    };
    let mut routes: Vec<CompactFactorRoute> = Vec::with_capacity(source_regions.len());
    let mut used: usize = 0;
    let mut k: usize = 0;
    assert(outcomes.take(0) =~= Seq::empty());
    while k < source_regions.len()
        invariant
            used <= k <= source_regions@.len(),
            routes@.len() == k,
            source == geometries(source_regions@),
            left == geometries(left_regions@),
            right == geometries(right_regions@),
            sectors_distinct(left),
            sectors_distinct(right),
            left_index.wf(),
            left_index.geometries() == left,
            right_index.wf(),
            right_index.geometries() == right,
            outcomes == Seq::new(source.len(), |k: int| compact_route(source, left, right, k)),
            all_ok(outcomes.take(k as int)) == Ok::<Seq<CompactFactorRoute>, OperationError>(
                routes@,
            ),
            used == nonzero_routes(routes@, k as int),
        decreases source_regions.len() - k,
    {
        let region = &source_regions[k];
        proof {
            assert(source[k as int] == region.geometry());
            lemma_all_ok_step(outcomes, k as int);
            lemma_sector_position(left, region.coupled, 0);
            lemma_sector_position(right, region.coupled, 0);
            if outcomes[k as int] is Err {
                lemma_all_ok_fails(outcomes, k as int);
            }
        }
        let rank: usize = if region.rows <= region.cols {
            region.rows
        } else {
            region.cols
        };
        let ghost before = routes@;
        if rank == 0 {
            routes.push(
                CompactFactorRoute {
                    source_region: k,
                    left_region: None,
                    right_region: None,
                    sector: region.coupled,
                    rank,
                },
            );
        } else {
            let l: usize = match left_index.get(region.coupled) {
                Some(l) => l,
                None => {
                    return Err(
                        unsupported("compact left factor is missing a nonzero-rank sector"),
                    );
                },
            };
            let r: usize = match right_index.get(region.coupled) {
                Some(r) => r,
                None => {
                    return Err(
                        unsupported("compact right factor is missing a nonzero-rank sector"),
                    );
                },
            };
            assert(left[l as int] == left_regions@[l as int].geometry());
            assert(right[r as int] == right_regions@[r as int].geometry());
            if left_regions[l].rows != region.rows || left_regions[l].cols != rank {
                return Err(unsupported("compact left sector region has an unexpected shape"));
            }
            if right_regions[r].rows != rank || right_regions[r].cols != region.cols {
                return Err(unsupported("compact right sector region has an unexpected shape"));
            }
            used += 1;
            routes.push(
                CompactFactorRoute {
                    source_region: k,
                    left_region: Some(l),
                    right_region: Some(r),
                    sector: region.coupled,
                    rank,
                },
            );
        }
        proof {
            lemma_nonzero_routes_prefix(before, routes@, k as int);
        }
        k += 1;
    }
    assert(outcomes.take(source.len() as int) =~= outcomes);
    if used < count_nonzero_regions(left_regions) {
        return Err(unsupported("compact left factor contains an unused nonzero sector"));
    }
    if used < count_nonzero_regions(right_regions) {
        return Err(unsupported("compact right factor contains an unused nonzero sector"));
    }
    Ok(routes)
}

proof fn lemma_nonzero_routes_prefix(
    a: Seq<CompactFactorRoute>,
    b: Seq<CompactFactorRoute>,
    count: int,
)
    requires
        0 <= count <= a.len(),
        count <= b.len(),
        forall|k: int| 0 <= k < count ==> a[k] == b[k],
    ensures
        nonzero_routes(a, count) == nonzero_routes(b, count),
    decreases count,
{
    if count > 0 {
        lemma_nonzero_routes_prefix(a, b, count - 1);
    }
}

/// Whether the trees of every source region are, in order, the row trees of
/// its sector in the left factor and the column trees in the right one.
pub fn source_factor_tree_extents_match(
    source: &[CoupledSectorRegion],
    left: &[CoupledSectorRegion],
    right: &[CoupledSectorRegion],
) -> (result: bool)
    ensures
        result == factor_trees_match(
            geometries(source@),
            geometries(left@),
            geometries(right@),
        ),
{
    let ghost from = geometries(source@);
    let ghost lefts = geometries(left@);
    let ghost rights = geometries(right@);
    let left_map = match crate::routes::sector_region_index_map(left) {
        Ok(map) => map,
        Err(_) => {
            return false;
        },
    };
    let right_map = match crate::routes::sector_region_index_map(right) {
        Ok(map) => map,
        Err(_) => {
            return false;
        },
    };
    let mut k: usize = 0;
    while k < source.len()
        invariant
            k <= source@.len(),
            from == geometries(source@),
            lefts == geometries(left@),
            rights == geometries(right@),
            sectors_distinct(lefts),
            sectors_distinct(rights),
            crate::matricize::indexes_sectors(left_map@, lefts),
            crate::matricize::indexes_sectors(right_map@, rights),
            forall|j: int|
                0 <= j < k ==> region_trees_match(#[trigger] from[j], lefts, rights),
        decreases source.len() - k,
    {
        let region = &source[k];
        proof {
            assert(from[k as int] == region.geometry());
            lemma_sector_position(lefts, region.coupled, 0);
            lemma_sector_position(rights, region.coupled, 0);
        }
        match (left_map.get(region.coupled), right_map.get(region.coupled)) {
            (Some(l), Some(r)) => {
                assert(lefts[l as int] == left@[l as int].geometry());
                assert(rights[r as int] == right@[r as int].geometry());
                if !same_extents(region.row_trees.as_slice(), left[l].row_trees.as_slice())
                    || !same_extents(
                    region.col_trees.as_slice(),
                    right[r].col_trees.as_slice(),
                ) {
                    assert(!region_trees_match(from[k as int], lefts, rights));
                    return false;
                }
            },
            _ => {
                assert(!region_trees_match(from[k as int], lefts, rights));
                return false;
            },
        }
        k += 1;
    }
    true
}

/// A region has the trees of the source on one side.
pub open spec fn region_trees_match(
    region: Geometry,
    left: Seq<Geometry>,
    right: Seq<Geometry>,
) -> bool {
    match (sector_position(left, region.sector, 0), sector_position(right, region.sector, 0)) {
        (Some(l), Some(r)) => region.row_trees == left[l].row_trees && region.col_trees
            == right[r].col_trees,
        _ => false,
    }
}

/// Both factors of a route have the trees of its source.
pub open spec fn factor_trees_match(
    source: Seq<Geometry>,
    left: Seq<Geometry>,
    right: Seq<Geometry>,
) -> bool {
    &&& sectors_distinct(left)
    &&& sectors_distinct(right)
    &&& forall|k: int|
        0 <= k < source.len() ==> region_trees_match(#[trigger] source[k], left, right)
}

/// The regions of one sector in a polar decomposition.
#[derive(Clone, Copy, Debug, PartialEq, Eq, Structural)]
pub struct PolarRegionRoute {
    pub source: usize,
    pub w: usize,
    pub p: usize,
}

/// The route of one source region of a polar decomposition: the isometry has
/// the source's own layout, the positive factor the layout of the source's
/// columns (left) or rows (right) on both sides.
pub open spec fn polar_route(
    source: Seq<CoupledSectorRegion>,
    w: Seq<CoupledSectorRegion>,
    p: Seq<CoupledSectorRegion>,
    source_len: usize,
    w_len: usize,
    p_len: usize,
    direction: PolarDirection,
    k: int,
) -> Result<PolarRegionRoute, OperationError> {
    let from = source[k].geometry();
    let dimension = match direction {
        PolarDirection::Left => from.cols,
        PolarDirection::Right => from.rows,
    };
    let trees = match direction {
        PolarDirection::Left => from.col_trees,
        PolarDirection::Right => from.row_trees,
    };
    match (
        sector_position(geometries(w), from.sector, 0),
        sector_position(geometries(p), from.sector, 0),
    ) {
        (Some(i), Some(j)) => {
            let to_w = w[i].geometry();
            let to_p = p[j].geometry();
            if to_w.rows != from.rows || to_w.cols != from.cols || to_w.row_trees
                != from.row_trees || to_w.col_trees != from.col_trees {
                Err(scope("polar W route does not preserve the source full-tree layout"))
            } else if to_p.rows != dimension || to_p.cols != dimension || to_p.row_trees != trees
                || to_p.col_trees != trees {
                Err(scope("polar P route does not preserve the source full-tree layout"))
            } else {
                match (
                    range_refusal(source[k].end, source_len),
                    range_refusal(w[i].end, w_len),
                    range_refusal(p[j].end, p_len),
                ) {
                    (Some(error), _, _) => Err(error),
                    (None, Some(error), _) => Err(error),
                    (None, None, Some(error)) => Err(error),
                    (None, None, None) => Ok(
                        PolarRegionRoute { source: k as usize, w: i as usize, p: j as usize },
                    ),
                }
            }
        },
        _ => Err(scope("compact right factor is missing a nonzero-rank sector")),
    }
}

/// The regions of the isometry that the routes fill.
pub open spec fn polar_w(routes: Seq<PolarRegionRoute>) -> Seq<usize> {
    routes.map_values(|route: PolarRegionRoute| route.w)
}

/// The regions of the positive factor that the routes fill.
pub open spec fn polar_p(routes: Seq<PolarRegionRoute>) -> Seq<usize> {
    routes.map_values(|route: PolarRegionRoute| route.p)
}

/// The routes of all source regions of a polar decomposition.
pub open spec fn polar_routes(
    source: Seq<CoupledSectorRegion>,
    w: Seq<CoupledSectorRegion>,
    p: Seq<CoupledSectorRegion>,
    source_len: usize,
    w_len: usize,
    p_len: usize,
    direction: PolarDirection,
) -> Result<Seq<PolarRegionRoute>, OperationError> {
    if !sectors_distinct(geometries(w)) || !sectors_distinct(geometries(p)) {
        Err(duplicate_sector())
    } else {
        match all_ok(
            Seq::new(
                source.len(),
                |k: int| polar_route(source, w, p, source_len, w_len, p_len, direction, k),
            ),
        ) {
            Err(error) => Err(error),
            Ok(routes) => if covers(polar_w(routes), w.len() as int) && covers(
                polar_p(routes),
                p.len() as int,
            ) {
                Ok(routes)
            } else {
                Err(scope("polar output contains a full-tree route absent from the source"))
            },
        }
    }
}

/// Pairs every source region with the regions of its polar factors.
pub fn compile_polar_region_routes(
    source: &[CoupledSectorRegion],
    w: &[CoupledSectorRegion],
    p: &[CoupledSectorRegion],
    source_len: usize,
    w_len: usize,
    p_len: usize,
    direction: PolarDirection,
) -> (result: Result<Vec<PolarRegionRoute>, OperationError>)
    ensures
        values_are(
            result,
            polar_routes(source@, w@, p@, source_len, w_len, p_len, direction),
        ),
{
    let ghost all_w = geometries(w@);
    let ghost all_p = geometries(p@);
    let ghost outcomes = Seq::new(
        source@.len(),
        |k: int| polar_route(source@, w@, p@, source_len, w_len, p_len, direction, k),
    );
    let w_index = match SectorRegionIndex::new(w) {
        Ok(index) => index,
        Err(error) => {
            return Err(error);
        },
    };
    let p_index = match SectorRegionIndex::new(p) {
        Ok(index) => index,
        Err(error) => {
            return Err(error);
        },
    };
    let mut routes: Vec<PolarRegionRoute> = Vec::with_capacity(source.len());
    let mut used_w: Vec<usize> = Vec::with_capacity(source.len());
    let mut used_p: Vec<usize> = Vec::with_capacity(source.len());
    let mut k: usize = 0;
    proof {
        assert(outcomes.take(0) =~= Seq::empty());
        assert(used_w@ =~= polar_w(routes@));
        assert(used_p@ =~= polar_p(routes@));
    }
    while k < source.len()
        invariant
            k <= source@.len(),
            all_w == geometries(w@),
            all_p == geometries(p@),
            sectors_distinct(all_w),
            sectors_distinct(all_p),
            w_index.wf(),
            w_index.geometries() == all_w,
            p_index.wf(),
            p_index.geometries() == all_p,
            outcomes == Seq::new(
                source@.len(),
                |k: int| polar_route(source@, w@, p@, source_len, w_len, p_len, direction, k),
            ),
            all_ok(outcomes.take(k as int)) == Ok::<Seq<PolarRegionRoute>, OperationError>(
                routes@,
            ),
            used_w@ == polar_w(routes@),
            used_p@ == polar_p(routes@),
            forall|j: int| 0 <= j < used_w@.len() ==> (#[trigger] used_w@[j]) < w@.len(),
            forall|j: int| 0 <= j < used_p@.len() ==> (#[trigger] used_p@[j]) < p@.len(),
        decreases source.len() - k,
    {
        let from = &source[k];
        proof {
            lemma_all_ok_step(outcomes, k as int);
            lemma_sector_position(all_w, from.coupled, 0);
            lemma_sector_position(all_p, from.coupled, 0);
            if outcomes[k as int] is Err {
                lemma_all_ok_fails(outcomes, k as int);
            }
        }
        let (i, j): (usize, usize) = match (w_index.get(from.coupled), p_index.get(from.coupled)) {
            (Some(i), Some(j)) => (i, j),
            _ => {
                return Err(
                    unsupported("compact right factor is missing a nonzero-rank sector"),
                );
            },
        };
        let to_w = &w[i];
        let to_p = &p[j];
        if to_w.rows != from.rows || to_w.cols != from.cols || !same_extents(
            to_w.row_trees.as_slice(),
            from.row_trees.as_slice(),
        ) || !same_extents(to_w.col_trees.as_slice(), from.col_trees.as_slice()) {
            return Err(
                unsupported("polar W route does not preserve the source full-tree layout"),
            );
        }
        let dimension: usize = match direction {
            PolarDirection::Left => from.cols,
            PolarDirection::Right => from.rows,
        };
        let trees = match direction {
            PolarDirection::Left => from.col_trees.as_slice(),
            PolarDirection::Right => from.row_trees.as_slice(),
        };
        if to_p.rows != dimension || to_p.cols != dimension || !same_extents(
            to_p.row_trees.as_slice(),
            trees,
        ) || !same_extents(to_p.col_trees.as_slice(), trees) {
            return Err(
                unsupported("polar P route does not preserve the source full-tree layout"),
            );
        }
        match validate_region_range(from, source_len) {
            Ok(()) => {},
            Err(error) => {
                return Err(error);
            },
        }
        match validate_region_range(to_w, w_len) {
            Ok(()) => {},
            Err(error) => {
                return Err(error);
            },
        }
        match validate_region_range(to_p, p_len) {
            Ok(()) => {},
            Err(error) => {
                return Err(error);
            },
        }
        let ghost before = routes@;
        routes.push(PolarRegionRoute { source: k, w: i, p: j });
        used_w.push(i);
        used_p.push(j);
        proof {
            assert(polar_w(before).len() == before.len() && polar_p(before).len()
                == before.len());
            assert(used_w@ =~= polar_w(routes@));
            assert(used_p@ =~= polar_p(routes@));
        }
        k += 1;
    }
    assert(outcomes.take(source@.len() as int) =~= outcomes);
    if !covers_all(used_w.as_slice(), w.len()) || !covers_all(used_p.as_slice(), p.len()) {
        return Err(
            unsupported("polar output contains a full-tree route absent from the source"),
        );
    }
    Ok(routes)
}

/// The routes of compact factors, `None` where the source has no regions, or
/// the refusal of a factor that has none.
pub open spec fn compact_plan(
    source: Option<Vec<CoupledSectorRegion>>,
    left: Option<Vec<CoupledSectorRegion>>,
    right: Option<Vec<CoupledSectorRegion>>,
) -> Result<Option<Seq<CompactFactorRoute>>, OperationError> {
    match (source, left, right) {
        (None, _, _) => Ok(None),
        (Some(_), None, _) => Err(
            scope("compact left factor is not a coupled-sector matrix layout"),
        ),
        (Some(_), Some(_), None) => Err(
            scope("compact right factor is not a coupled-sector matrix layout"),
        ),
        (Some(from), Some(to_left), Some(to_right)) => match compact_routes(
            geometries(from@),
            geometries(to_left@),
            geometries(to_right@),
        ) {
            Ok(routes) => Ok(Some(routes)),
            Err(error) => Err(error),
        },
    }
}

/// A result with these routes, or this error.
pub open spec fn plan_is(
    result: Result<Option<Vec<CompactFactorRoute>>, OperationError>,
    expected: Result<Option<Seq<CompactFactorRoute>>, OperationError>,
) -> bool {
    match (result, expected) {
        (Ok(Some(routes)), Ok(Some(elements))) => routes@ == elements,
        (Ok(None), Ok(None)) => true,
        (Err(error), Err(expected)) => error == expected,
        _ => false,
    }
}

/// Routes compact factors directly between regions, where the source has any.
pub fn build_compact_factor_plan(
    source: &Option<Vec<CoupledSectorRegion>>,
    left: &Option<Vec<CoupledSectorRegion>>,
    right: &Option<Vec<CoupledSectorRegion>>,
) -> (result: Result<Option<Vec<CompactFactorRoute>>, OperationError>)
    ensures
        plan_is(result, compact_plan(*source, *left, *right)),
{
    let from = match source {
        Some(regions) => regions,
        None => {
            return Ok(None);
        },
    };
    let to_left = match left {
        Some(regions) => regions,
        None => {
            return Err(
                unsupported("compact left factor is not a coupled-sector matrix layout"),
            );
        },
    };
    let to_right = match right {
        Some(regions) => regions,
        None => {
            return Err(
                unsupported("compact right factor is not a coupled-sector matrix layout"),
            );
        },
    };
    match compile_compact_factor_routes(
        from.as_slice(),
        to_left.as_slice(),
        to_right.as_slice(),
    ) {
        Ok(routes) => Ok(Some(routes)),
        Err(error) => Err(error),
    }
}

/// [`build_compact_factor_plan`] for trees with vertex labels: there is no
/// direct route where the factors do not have the trees of the source.
pub fn prepare_compact_factor_plan_generic_checked(
    source: &Option<Vec<CoupledSectorRegion>>,
    left: &Option<Vec<CoupledSectorRegion>>,
    right: &Option<Vec<CoupledSectorRegion>>,
) -> (result: Result<Option<Vec<CompactFactorRoute>>, OperationError>)
    ensures
        match (*source, *left, *right) {
            (Some(from), Some(to_left), Some(to_right)) if !factor_trees_match(
                geometries(from@),
                geometries(to_left@),
                geometries(to_right@),
            ) => result == Ok::<Option<Vec<CompactFactorRoute>>, OperationError>(None),
            _ => plan_is(result, compact_plan(*source, *left, *right)),
        },
{
    if let (Some(from), Some(to_left), Some(to_right)) = (source, left, right) {
        if !source_factor_tree_extents_match(
            from.as_slice(),
            to_left.as_slice(),
            to_right.as_slice(),
        ) {
            return Ok(None);
        }
    }
    build_compact_factor_plan(source, left, right)
}

/// What compact routes establish: one route for each source region, and, for a
/// nonzero rank, regions of the same sector with the shapes of the factors.
pub proof fn lemma_compact_routes_pair_sectors(
    source: Seq<Geometry>,
    left: Seq<Geometry>,
    right: Seq<Geometry>,
)
    requires
        compact_routes(source, left, right) is Ok,
        left.len() <= usize::MAX,
        right.len() <= usize::MAX,
        source.len() <= usize::MAX,
    ensures
        ({
            let routes = compact_routes(source, left, right)->Ok_0;
            &&& routes.len() == source.len()
            &&& forall|k: int|
                0 <= k < routes.len() ==> {
                    let route = #[trigger] routes[k];
                    &&& route.source_region == k
                    &&& route.sector == source[k].sector
                    &&& route.rank == smaller(source[k].rows, source[k].cols)
                    &&& route.rank == 0 ==> route.left_region is None && route.right_region is None
                    &&& route.rank != 0 ==> {
                        &&& route.left_region is Some
                        &&& route.left_region->0 < left.len()
                        &&& left[route.left_region->0 as int].sector == route.sector
                        &&& left[route.left_region->0 as int].rows == source[k].rows
                        &&& left[route.left_region->0 as int].cols == route.rank
                        &&& route.right_region is Some
                        &&& route.right_region->0 < right.len()
                        &&& right[route.right_region->0 as int].sector == route.sector
                        &&& right[route.right_region->0 as int].rows == route.rank
                        &&& right[route.right_region->0 as int].cols == source[k].cols
                    }
                }
        }),
{
    let outcomes = Seq::new(source.len(), |k: int| compact_route(source, left, right, k));
    let routes = compact_routes(source, left, right)->Ok_0;
    lemma_all_ok_values(outcomes);
    assert forall|k: int| 0 <= k < routes.len() implies {
        let route = #[trigger] routes[k];
        &&& route.source_region == k
        &&& route.sector == source[k].sector
        &&& route.rank == smaller(source[k].rows, source[k].cols)
        &&& route.rank == 0 ==> route.left_region is None && route.right_region is None
        &&& route.rank != 0 ==> {
            &&& route.left_region is Some
            &&& route.left_region->0 < left.len()
            &&& left[route.left_region->0 as int].sector == route.sector
            &&& left[route.left_region->0 as int].rows == source[k].rows
            &&& left[route.left_region->0 as int].cols == route.rank
            &&& route.right_region is Some
            &&& route.right_region->0 < right.len()
            &&& right[route.right_region->0 as int].sector == route.sector
            &&& right[route.right_region->0 as int].rows == route.rank
            &&& right[route.right_region->0 as int].cols == source[k].cols
        }
    } by {
        assert(outcomes[k] == Ok::<CompactFactorRoute, OperationError>(routes[k]));
        lemma_sector_position(left, source[k].sector, 0);
        lemma_sector_position(right, source[k].sector, 0);
    }
}

/// The left regions that the first `count` routes fill.
spec fn filled_left(routes: Seq<CompactFactorRoute>, count: int) -> Set<int>
    decreases count,
{
    if count <= 0 {
        Set::empty()
    } else {
        let before = filled_left(routes, count - 1);
        if routes[count - 1].rank != 0 {
            before.insert(routes[count - 1].left_region->0 as int)
        } else {
            before
        }
    }
}

spec fn filled_right(routes: Seq<CompactFactorRoute>, count: int) -> Set<int>
    decreases count,
{
    if count <= 0 {
        Set::empty()
    } else {
        let before = filled_right(routes, count - 1);
        if routes[count - 1].rank != 0 {
            before.insert(routes[count - 1].right_region->0 as int)
        } else {
            before
        }
    }
}

/// The regions with elements among the first `count`.
spec fn nonzero_set(regions: Seq<Geometry>, count: int) -> Set<int>
    decreases count,
{
    if count <= 0 {
        Set::empty()
    } else {
        let before = nonzero_set(regions, count - 1);
        if regions[count - 1].rows != 0 && regions[count - 1].cols != 0 {
            before.insert(count - 1)
        } else {
            before
        }
    }
}

proof fn lemma_nonzero_set(regions: Seq<Geometry>, count: int)
    requires
        0 <= count <= regions.len(),
    ensures
        nonzero_set(regions, count).finite(),
        nonzero_set(regions, count).len() == nonzero_regions(regions, count),
        forall|k: int| #[trigger]
            nonzero_set(regions, count).contains(k) <==> 0 <= k < count && regions[k].rows != 0
                && regions[k].cols != 0,
    decreases count,
{
    if count > 0 {
        lemma_nonzero_set(regions, count - 1);
    }
}

/// Routes of nonzero rank name different left regions, so they fill as many as
/// there are routes.
proof fn lemma_filled_left(
    source: Seq<Geometry>,
    left: Seq<Geometry>,
    right: Seq<Geometry>,
    count: int,
)
    requires
        compact_routes(source, left, right) is Ok,
        sectors_distinct(source),
        left.len() <= usize::MAX,
        right.len() <= usize::MAX,
        source.len() <= usize::MAX,
        0 <= count <= source.len(),
    ensures
        ({
            let routes = compact_routes(source, left, right)->Ok_0;
            let filled = filled_left(routes, count);
            &&& filled.finite()
            &&& filled.len() == nonzero_routes(routes, count)
            &&& forall|l: int| #[trigger]
                filled.contains(l) ==> exists|k: int|
                    0 <= k < count && (#[trigger] routes[k]).rank != 0 && routes[k].left_region
                        == Some(l as usize) && l == routes[k].left_region->0
        }),
    decreases count,
{
    let routes = compact_routes(source, left, right)->Ok_0;
    lemma_compact_routes_pair_sectors(source, left, right);
    if count > 0 {
        lemma_filled_left(source, left, right, count - 1);
        let before = filled_left(routes, count - 1);
        let route = routes[count - 1];
        if route.rank != 0 {
            let l = route.left_region->0 as int;
            if before.contains(l) {
                let k = choose|k: int|
                    0 <= k < count - 1 && (#[trigger] routes[k]).rank != 0
                        && routes[k].left_region == Some(l as usize) && l
                        == routes[k].left_region->0;
                assert(routes[k].sector == left[l].sector);
                assert(route.sector == left[l].sector);
                assert(source[k].sector != source[count - 1].sector);
            }
        }
        let filled = filled_left(routes, count);
        assert forall|l: int| #[trigger] filled.contains(l) implies exists|k: int|
            0 <= k < count && (#[trigger] routes[k]).rank != 0 && routes[k].left_region == Some(
                l as usize,
            ) && l == routes[k].left_region->0 by {
            if before.contains(l) {
                let k = choose|k: int|
                    0 <= k < count - 1 && (#[trigger] routes[k]).rank != 0
                        && routes[k].left_region == Some(l as usize) && l
                        == routes[k].left_region->0;
                assert(routes[k].rank != 0);
            } else {
                assert(routes[count - 1].rank != 0);
            }
        }
    }
}

proof fn lemma_filled_right(
    source: Seq<Geometry>,
    left: Seq<Geometry>,
    right: Seq<Geometry>,
    count: int,
)
    requires
        compact_routes(source, left, right) is Ok,
        sectors_distinct(source),
        left.len() <= usize::MAX,
        right.len() <= usize::MAX,
        source.len() <= usize::MAX,
        0 <= count <= source.len(),
    ensures
        ({
            let routes = compact_routes(source, left, right)->Ok_0;
            let filled = filled_right(routes, count);
            &&& filled.finite()
            &&& filled.len() == nonzero_routes(routes, count)
            &&& forall|r: int| #[trigger]
                filled.contains(r) ==> exists|k: int|
                    0 <= k < count && (#[trigger] routes[k]).rank != 0 && routes[k].right_region
                        == Some(r as usize) && r == routes[k].right_region->0
        }),
    decreases count,
{
    let routes = compact_routes(source, left, right)->Ok_0;
    lemma_compact_routes_pair_sectors(source, left, right);
    if count > 0 {
        lemma_filled_right(source, left, right, count - 1);
        let before = filled_right(routes, count - 1);
        let route = routes[count - 1];
        if route.rank != 0 {
            let r = route.right_region->0 as int;
            if before.contains(r) {
                let k = choose|k: int|
                    0 <= k < count - 1 && (#[trigger] routes[k]).rank != 0
                        && routes[k].right_region == Some(r as usize) && r
                        == routes[k].right_region->0;
                assert(routes[k].sector == right[r].sector);
                assert(route.sector == right[r].sector);
                assert(source[k].sector != source[count - 1].sector);
            }
        }
        let filled = filled_right(routes, count);
        assert forall|r: int| #[trigger] filled.contains(r) implies exists|k: int|
            0 <= k < count && (#[trigger] routes[k]).rank != 0 && routes[k].right_region == Some(
                r as usize,
            ) && r == routes[k].right_region->0 by {
            if before.contains(r) {
                let k = choose|k: int|
                    0 <= k < count - 1 && (#[trigger] routes[k]).rank != 0
                        && routes[k].right_region == Some(r as usize) && r
                        == routes[k].right_region->0;
                assert(routes[k].rank != 0);
            } else {
                assert(routes[count - 1].rank != 0);
            }
        }
    }
}

/// A region that some route fills.
pub open spec fn left_region_used(routes: Seq<CompactFactorRoute>, region: int) -> bool {
    exists|k: int|
        0 <= k < routes.len() && (#[trigger] routes[k]).rank != 0 && routes[k].left_region == Some(
            region as usize,
        ) && region == routes[k].left_region->0
}

/// A route of nonzero rank fills this right region.
pub open spec fn right_region_used(routes: Seq<CompactFactorRoute>, region: int) -> bool {
    exists|k: int|
        0 <= k < routes.len() && (#[trigger] routes[k]).rank != 0 && routes[k].right_region
            == Some(region as usize) && region == routes[k].right_region->0
}

/// Where no source sector occurs twice, compact routes fill every factor region
/// that has elements: counting them is enough to find one that is left over.
pub proof fn lemma_compact_routes_cover(
    source: Seq<Geometry>,
    left: Seq<Geometry>,
    right: Seq<Geometry>,
)
    requires
        compact_routes(source, left, right) is Ok,
        sectors_distinct(source),
        left.len() <= usize::MAX,
        right.len() <= usize::MAX,
        source.len() <= usize::MAX,
    ensures
        forall|l: int|
            0 <= l < left.len() && (#[trigger] left[l]).rows != 0 && left[l].cols != 0
                ==> left_region_used(compact_routes(source, left, right)->Ok_0, l),
        forall|r: int|
            0 <= r < right.len() && (#[trigger] right[r]).rows != 0 && right[r].cols != 0
                ==> right_region_used(compact_routes(source, left, right)->Ok_0, r),
{
    let routes = compact_routes(source, left, right)->Ok_0;
    lemma_compact_routes_pair_sectors(source, left, right);
    lemma_filled_left(source, left, right, source.len() as int);
    lemma_filled_right(source, left, right, source.len() as int);
    lemma_nonzero_set(left, left.len() as int);
    lemma_nonzero_set(right, right.len() as int);
    let lefts = filled_left(routes, routes.len() as int);
    let rights = filled_right(routes, routes.len() as int);
    let all_left = nonzero_set(left, left.len() as int);
    let all_right = nonzero_set(right, right.len() as int);
    assert(lefts.subset_of(all_left)) by {
        assert forall|l: int| lefts.contains(l) implies all_left.contains(l) by {
            let k = choose|k: int|
                0 <= k < routes.len() && (#[trigger] routes[k]).rank != 0
                    && routes[k].left_region == Some(l as usize) && l == routes[k].left_region->0;
            assert(routes[k].rank != 0);
        }
    }
    assert(rights.subset_of(all_right)) by {
        assert forall|r: int| rights.contains(r) implies all_right.contains(r) by {
            let k = choose|k: int|
                0 <= k < routes.len() && (#[trigger] routes[k]).rank != 0
                    && routes[k].right_region == Some(r as usize) && r
                    == routes[k].right_region->0;
            assert(routes[k].rank != 0);
        }
    }
    vstd::set_lib::lemma_len_subset(lefts, all_left);
    vstd::set_lib::lemma_len_subset(rights, all_right);
    vstd::set_lib::lemma_subset_equality(lefts, all_left);
    vstd::set_lib::lemma_subset_equality(rights, all_right);
    assert forall|l: int|
        0 <= l < left.len() && (#[trigger] left[l]).rows != 0 && left[l].cols
            != 0 implies left_region_used(routes, l) by {
        assert(all_left.contains(l));
        assert(lefts.contains(l));
    }
    assert forall|r: int|
        0 <= r < right.len() && (#[trigger] right[r]).rows != 0 && right[r].cols
            != 0 implies right_region_used(routes, r) by {
        assert(all_right.contains(r));
        assert(rights.contains(r));
    }
}

} // verus!
