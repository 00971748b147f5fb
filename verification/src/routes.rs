//! Routing between the coupled-sector regions of sources and outputs.

use vstd::prelude::*;

use crate::error::{unsupported, OperationError};
use crate::geometry::{
    geometries, lemma_sector_position, same_extents, sector_position, sectors_distinct,
    CoupledSectorRegion, Geometry, SectorGeometry,
};
use crate::matricize::{indexes_sectors, lemma_position_unique};
use crate::outcome::{all_ok, lemma_all_ok_fails, lemma_all_ok_step};
use crate::publish::scope;
use crate::sector::SectorId;
use crate::sector_map::SectorMap;

verus! {

/// The refusal of two regions of one sector.
pub open spec fn duplicate_sector() -> OperationError {
    scope("coupled-sector region description contains a duplicate sector")
}

/// Positions of the regions by sector.
pub fn sector_region_index_map(regions: &[CoupledSectorRegion]) -> (result: Result<
    SectorMap,
    OperationError,
>)
    ensures
        match result {
            Ok(map) => sectors_distinct(geometries(regions@)) && indexes_sectors(
                map@,
                geometries(regions@),
            ),
            Err(error) => !sectors_distinct(geometries(regions@)) && error == duplicate_sector(),
        },
{
    let ghost all = geometries(regions@);
    let mut map = SectorMap::new();
    let mut k: usize = 0;
    while k < regions.len()
        invariant
            k <= regions@.len(),
            all == geometries(regions@),
            forall|i: int, j: int|
                0 <= i < j < k ==> (#[trigger] all[i]).sector != (#[trigger] all[j]).sector,
            forall|sector: SectorId| #[trigger]
                map@.contains_key(sector) ==> map@[sector] < k && all[map@[sector] as int].sector
                    == sector,
            forall|j: int| 0 <= j < k ==> map@.contains_key((#[trigger] all[j]).sector),
        decreases regions.len() - k,
    {
        let sector = regions[k].coupled;
        assert(all[k as int].sector == sector);
        if map.get(sector).is_some() {
            assert(all[map@[sector] as int].sector == all[k as int].sector);
            return Err(
                unsupported("coupled-sector region description contains a duplicate sector"),
            );
        }
        map.insert(sector, k);
        k += 1;
    }
    proof {
        assert(sectors_distinct(all));
        assert forall|sector: SectorId|
            {
                &&& #[trigger] map@.contains_key(sector) <==> sector_position(all, sector, 0)
                    is Some
                &&& map@.contains_key(sector) ==> map@[sector] as int == sector_position(
                    all,
                    sector,
                    0,
                )->0
            } by {
            lemma_sector_position(all, sector, 0);
            if map@.contains_key(sector) {
                lemma_position_unique(all, map@[sector] as int);
            }
            if sector_position(all, sector, 0) is Some {
                assert(all[sector_position(all, sector, 0)->0].sector == sector);
            }
        }
    }
    Ok(map)
}

/// Lookup of regions by sector: by bisection where they are in ascending
/// order, by a map otherwise.
pub struct SectorRegionIndex<'a> {
    pub(crate) regions: &'a [CoupledSectorRegion],
    pub(crate) map: Option<SectorMap>,
}

/// The regions stand in strictly ascending order of their sectors.
pub open spec fn regions_ascending(all: Seq<Geometry>) -> bool {
    forall|j: int, k: int|
        0 <= j < k < all.len() ==> (#[trigger] all[j]).sector.id < (#[trigger] all[k]).sector.id
}

impl<'a> SectorRegionIndex<'a> {
    /// The regions that the index looks up.
    pub open(crate) spec fn geometries(self) -> Seq<Geometry> {
        geometries(self.regions@)
    }

    /// The index finds every sector.
    pub open(crate) spec fn wf(self) -> bool {
        let all = geometries(self.regions@);
        &&& sectors_distinct(all)
        &&& match self.map {
            None => regions_ascending(all),
            Some(map) => indexes_sectors(map@, all),
        }
    }

    pub fn new(regions: &'a [CoupledSectorRegion]) -> (result: Result<Self, OperationError>)
        ensures
            match result {
                Ok(index) => index.wf() && index.geometries() == geometries(regions@)
                    && sectors_distinct(geometries(regions@)),
                Err(error) => !sectors_distinct(geometries(regions@)) && error
                    == duplicate_sector(),
            },
    {
        let ghost all = geometries(regions@);
        let mut sorted = true;
        let mut k: usize = 1;
        while sorted && k < regions.len()
            invariant
                1 <= k,
                all == geometries(regions@),
                sorted ==> k <= regions@.len() || regions@.len() == 0,
                sorted ==> forall|i: int, j: int|
                    0 <= i < j < k && j < all.len() ==> (#[trigger] all[i]).sector.id < (
                    #[trigger] all[j]).sector.id,
            decreases regions.len() - k,
        {
            assert(all[k - 1].sector == regions@[k - 1].coupled);
            assert(all[k as int].sector == regions@[k as int].coupled);
            if regions[k - 1].coupled.id() >= regions[k].coupled.id() {
                sorted = false;
            } else {
                proof {
                    assert forall|i: int, j: int| 0 <= i < j < k + 1 && j < all.len() implies (
                    #[trigger] all[i]).sector.id < (#[trigger] all[j]).sector.id by {
                        if j == k && i < k - 1 {
                            assert(all[i].sector.id < all[k - 1].sector.id);
                        }
                    }
                }
            }
            k += 1;
        }
        if sorted {
            assert(regions_ascending(all));
            Ok(SectorRegionIndex { regions, map: None })
        } else {
            match sector_region_index_map(regions) {
                Ok(map) => Ok(SectorRegionIndex { regions, map: Some(map) }),
                Err(error) => Err(error),
            }
        }
    }

    /// Position of a sector's region.
    pub fn get(&self, sector: SectorId) -> (index: Option<usize>)
        requires
            self.wf(),
        ensures
            match index {
                Some(index) => sector_position(self.geometries(), sector, 0) == Some(index as int),
                None => sector_position(self.geometries(), sector, 0) is None,
            },
    {
        match &self.map {
            None => bisect(self.regions, sector),
            Some(map) => map.get(sector),
        }
    }
}

/// Position of a sector in regions of ascending sectors.
fn bisect(regions: &[CoupledSectorRegion], sector: SectorId) -> (index: Option<usize>)
    requires
        regions_ascending(geometries(regions@)),
    ensures
        match index {
            Some(index) => sector_position(geometries(regions@), sector, 0) == Some(index as int),
            None => sector_position(geometries(regions@), sector, 0) is None,
        },
{
    let ghost all = geometries(regions@);
    let mut low: usize = 0;
    let mut high: usize = regions.len();
    proof {
        lemma_sector_position(all, sector, 0);
    }
    while low < high
        invariant
            low <= high <= regions@.len(),
            all == geometries(regions@),
            regions_ascending(all),
            forall|j: int| 0 <= j < low ==> (#[trigger] all[j]).sector.id < sector.id,
            forall|j: int| high <= j < all.len() ==> (#[trigger] all[j]).sector.id > sector.id,
        decreases high - low,
    {
        let middle: usize = low + (high - low) / 2;
        let found = regions[middle].coupled;
        assert(all[middle as int].sector == found);
        if found.id() < sector.id() {
            proof {
                assert forall|j: int| 0 <= j < middle + 1 implies (#[trigger] all[j]).sector.id
                    < sector.id by {
                    if j < middle {
                        assert(all[j].sector.id < all[middle as int].sector.id);
                    }
                }
            }
            low = middle + 1;
        } else if found.id() > sector.id() {
            proof {
                assert forall|j: int| middle <= j < all.len() implies (
                #[trigger] all[j]).sector.id > sector.id by {
                    if j > middle {
                        assert(all[middle as int].sector.id < all[j].sector.id);
                    }
                }
            }
            high = middle;
        } else {
            proof {
                assert(found == sector);
                assert(sectors_distinct(all)) by {
                    assert forall|i: int, j: int| 0 <= i < j < all.len() implies (
                    #[trigger] all[i]).sector != (#[trigger] all[j]).sector by {
                        assert(all[i].sector.id < all[j].sector.id);
                    }
                }
                lemma_position_unique(all, middle as int);
            }
            return Some(middle);
        }
    }
    proof {
        lemma_sector_position(all, sector, 0);
        if sector_position(all, sector, 0) is Some {
            let k = sector_position(all, sector, 0)->0;
            assert(all[k].sector == sector);
        }
    }
    None
}

/// The refusal of a range that ends outside its buffer.
pub open spec fn range_refusal(end: usize, len: usize) -> Option<OperationError> {
    if end > len {
        Some(OperationError::ElementCountMismatch { expected: end, actual: len })
    } else {
        None
    }
}

/// Whether a region's range ends inside a buffer of `data_len` elements.
pub fn validate_region_range(region: &CoupledSectorRegion, data_len: usize) -> (result: Result<
    (),
    OperationError,
>)
    ensures
        result == match range_refusal(region.end, data_len) {
            Some(error) => Err::<(), OperationError>(error),
            None => Ok(()),
        },
{
    if region.end > data_len {
        return Err(OperationError::ElementCountMismatch { expected: region.end, actual: data_len });
    }
    Ok(())
}

/// A source region and the output region that takes its image.
#[derive(Clone, Copy, Debug, PartialEq, Eq, Structural)]
pub struct InverseSectorRoute {
    pub source: usize,
    pub output: usize,
}

/// The refusal of an output region that does not transpose its square source.
pub open spec fn inverse_refusal(source: Geometry, output: Geometry) -> Option<OperationError> {
    if source.rows != source.cols || output.rows != source.cols || output.cols != source.rows {
        Some(scope("inverse coupled-sector matrix is not square"))
    } else if source.col_trees != output.row_trees || source.row_trees != output.col_trees {
        Some(scope("inverse output tree basis does not transpose the source basis"))
    } else {
        None
    }
}

/// Whether an output region transposes a square source region.
pub fn validate_inverse_region(
    source: &CoupledSectorRegion,
    output: &CoupledSectorRegion,
) -> (result: Result<(), OperationError>)
    ensures
        result == match inverse_refusal(source.geometry(), output.geometry()) {
            Some(error) => Err::<(), OperationError>(error),
            None => Ok(()),
        },
{
    if source.rows != source.cols || output.rows != source.cols || output.cols != source.rows {
        return Err(unsupported("inverse coupled-sector matrix is not square"));
    }
    if !same_extents(source.col_trees.as_slice(), output.row_trees.as_slice()) || !same_extents(
        source.row_trees.as_slice(),
        output.col_trees.as_slice(),
    ) {
        return Err(
            unsupported("inverse output tree basis does not transpose the source basis"),
        );
    }
    Ok(())
}

/// The route of one source region of an inverse.
pub open spec fn inverse_region_route(
    source: Seq<CoupledSectorRegion>,
    output: Seq<CoupledSectorRegion>,
    source_len: usize,
    output_len: usize,
    k: int,
) -> Result<InverseSectorRoute, OperationError> {
    match sector_position(geometries(output), source[k].coupled, 0) {
        None => Err(scope("inverse output is missing a source coupled sector")),
        Some(o) => match (
            inverse_refusal(source[k].geometry(), output[o].geometry()),
            range_refusal(source[k].end, source_len),
            range_refusal(output[o].end, output_len),
        ) {
            (Some(error), _, _) => Err(error),
            (None, Some(error), _) => Err(error),
            (None, None, Some(error)) => Err(error),
            (None, None, None) => Ok(
                InverseSectorRoute { source: k as usize, output: o as usize },
            ),
        },
    }
}

/// The route of one source region of a pseudo-inverse.
pub open spec fn pinv_region_route(
    source: Seq<CoupledSectorRegion>,
    output: Seq<CoupledSectorRegion>,
    source_len: usize,
    output_len: usize,
    k: int,
) -> Result<InverseSectorRoute, OperationError> {
    match sector_position(geometries(output), source[k].coupled, 0) {
        None => Err(scope("pinv output is missing a source coupled sector")),
        Some(o) => {
            let from = source[k].geometry();
            let to = output[o].geometry();
            if to.rows != from.cols || to.cols != from.rows || from.col_trees != to.row_trees
                || from.row_trees != to.col_trees {
                Err(scope("pinv output does not transpose the source coupled-sector layout"))
            } else {
                match (
                    range_refusal(source[k].end, source_len),
                    range_refusal(output[o].end, output_len),
                ) {
                    (Some(error), _) => Err(error),
                    (None, Some(error)) => Err(error),
                    (None, None) => Ok(
                        InverseSectorRoute { source: k as usize, output: o as usize },
                    ),
                }
            }
        },
    }
}

/// The list names this index.
pub open spec fn mentioned(list: Seq<usize>, index: int) -> bool {
    exists|k: int| 0 <= k < list.len() && (#[trigger] list[k]) == index
}

/// The list names every index below `count`.
pub open spec fn covers(list: Seq<usize>, count: int) -> bool {
    forall|index: int| 0 <= index < count ==> #[trigger] mentioned(list, index)
}

/// The output regions that the routes use.
pub open spec fn route_outputs(routes: Seq<InverseSectorRoute>) -> Seq<usize> {
    routes.map_values(|route: InverseSectorRoute| route.output)
}

/// The routes of all source regions, where no output sector occurs twice and
/// every output region is used.
pub open spec fn routed(
    output: Seq<CoupledSectorRegion>,
    outcomes: Seq<Result<InverseSectorRoute, OperationError>>,
    unused: &'static str,
) -> Result<Seq<InverseSectorRoute>, OperationError> {
    if !sectors_distinct(geometries(output)) {
        Err(duplicate_sector())
    } else {
        match all_ok(outcomes) {
            Err(error) => Err(error),
            Ok(routes) => if covers(route_outputs(routes), output.len() as int) {
                Ok(routes)
            } else {
                Err(scope(unused))
            },
        }
    }
}

/// The routes of an inverse, one for every source region.
pub open spec fn inverse_region_routes(
    source: Seq<CoupledSectorRegion>,
    output: Seq<CoupledSectorRegion>,
    source_len: usize,
    output_len: usize,
) -> Result<Seq<InverseSectorRoute>, OperationError> {
    routed(
        output,
        Seq::new(
            source.len(),
            |k: int| inverse_region_route(source, output, source_len, output_len, k),
        ),
        "inverse output contains a coupled sector absent from the source",
    )
}

/// The routes of a pseudo-inverse, one for every source region.
pub open spec fn pinv_region_routes(
    source: Seq<CoupledSectorRegion>,
    output: Seq<CoupledSectorRegion>,
    source_len: usize,
    output_len: usize,
) -> Result<Seq<InverseSectorRoute>, OperationError> {
    routed(
        output,
        Seq::new(
            source.len(),
            |k: int| pinv_region_route(source, output, source_len, output_len, k),
        ),
        "pinv output contains a coupled sector absent from the source",
    )
}

/// A result with these values, or this error.
pub open spec fn values_are<T>(
    result: Result<Vec<T>, OperationError>,
    expected: Result<Seq<T>, OperationError>,
) -> bool {
    match (result, expected) {
        (Ok(values), Ok(elements)) => values@ == elements,
        (Err(error), Err(expected)) => error == expected,
        _ => false,
    }
}

/// Whether a list of indices below `count` names all of them.
pub(crate) fn covers_all(list: &[usize], count: usize) -> (result: bool)
    requires
        forall|k: int| 0 <= k < list@.len() ==> (#[trigger] list@[k]) < count,
    ensures
        result == covers(list@, count as int),
{
    let mut used: Vec<bool> = crate::layout::filled(false, count);
    let mut k: usize = 0;
    assert(list@.take(0) =~= Seq::empty());
    while k < list.len()
        invariant
            k <= list@.len(),
            used@.len() == count,
            forall|j: int| 0 <= j < list@.len() ==> (#[trigger] list@[j]) < count,
            forall|o: int|
                0 <= o < count ==> (#[trigger] used@[o] <==> mentioned(list@.take(k as int), o)),
        decreases list.len() - k,
    {
        let ghost before = used@;
        let index: usize = list[k];
        used[index] = true;
        proof {
            assert forall|o: int| 0 <= o < count implies (#[trigger] used@[o] <==> mentioned(
                list@.take(k + 1),
                o,
            )) by {
                let short = list@.take(k as int);
                let long = list@.take(k + 1);
                if o == index {
                    assert(long[k as int] == o);
                } else {
                    assert(used@[o] == before[o]);
                    if mentioned(short, o) {
                        let j = choose|j: int| 0 <= j < short.len() && (#[trigger] short[j]) == o;
                        assert(long[j] == o);
                    }
                    if mentioned(long, o) {
                        let j = choose|j: int| 0 <= j < long.len() && (#[trigger] long[j]) == o;
                        assert(short[j] == o);
                    }
                }
            }
        }
        k += 1;
    }
    assert(list@.take(list@.len() as int) =~= list@);
    let mut o: usize = 0;
    while o < count
        invariant
            o <= count == used@.len(),
            forall|p: int| 0 <= p < o ==> #[trigger] mentioned(list@, p),
            forall|p: int| 0 <= p < count ==> (#[trigger] used@[p] <==> mentioned(list@, p)),
        decreases count - o,
    {
        if !used[o] {
            assert(!mentioned(list@, o as int));
            return false;
        }
        o += 1;
    }
    true
}

/// Pairs every source region with the output region of its sector, which has
/// to be its transposed square; every output region has to be used.
pub fn compile_inverse_region_routes(
    source: &[CoupledSectorRegion],
    output: &[CoupledSectorRegion],
    source_len: usize,
    output_len: usize,
) -> (result: Result<Vec<InverseSectorRoute>, OperationError>)
    ensures
        values_are(
            result,
            inverse_region_routes(source@, output@, source_len, output_len),
        ),
{
    let ghost all = geometries(output@);
    let ghost outcomes = Seq::new(
        source@.len(),
        |k: int| inverse_region_route(source@, output@, source_len, output_len, k),
    );
    let map = match sector_region_index_map(output) {
        Ok(map) => map,
        Err(error) => {
            return Err(error);
        },
    };
    let mut routes: Vec<InverseSectorRoute> = Vec::with_capacity(source.len());
    let mut outputs: Vec<usize> = Vec::with_capacity(source.len());
    let mut k: usize = 0;
    assert(outputs@ =~= route_outputs(routes@));
    assert(outcomes.take(0) =~= Seq::empty());
    while k < source.len()
        invariant
            k <= source@.len(),
            all == geometries(output@),
            sectors_distinct(all),
            indexes_sectors(map@, all),
            outcomes == Seq::new(
                source@.len(),
                |k: int| inverse_region_route(source@, output@, source_len, output_len, k),
            ),
            all_ok(outcomes.take(k as int)) == Ok::<Seq<InverseSectorRoute>, OperationError>(
                routes@,
            ),
            outputs@ == route_outputs(routes@),
            forall|j: int| 0 <= j < outputs@.len() ==> (#[trigger] outputs@[j]) < output@.len(),
        decreases source.len() - k,
    {
        let region = &source[k];
        proof {
            lemma_all_ok_step(outcomes, k as int);
            lemma_sector_position(all, region.coupled, 0);
            if outcomes[k as int] is Err {
                lemma_all_ok_fails(outcomes, k as int);
            }
        }
        let at: usize = match map.get(region.coupled) {
            Some(at) => at,
            None => {
                return Err(unsupported("inverse output is missing a source coupled sector"));
            },
        };
        match validate_inverse_region(region, &output[at]) {
            Ok(()) => {},
            Err(error) => {
                return Err(error);
            },
        }
        match validate_region_range(region, source_len) {
            Ok(()) => {},
            Err(error) => {
                return Err(error);
            },
        }
        match validate_region_range(&output[at], output_len) {
            Ok(()) => {},
            Err(error) => {
                return Err(error);
            },
        }
        let ghost before = routes@;
        routes.push(InverseSectorRoute { source: k, output: at });
        outputs.push(at);
        assert(outputs@ =~= route_outputs(routes@)) by {
            assert(route_outputs(before).len() == before.len());
        }
        k += 1;
    }
    assert(outcomes.take(source@.len() as int) =~= outcomes);
    if !covers_all(outputs.as_slice(), output.len()) {
        return Err(
            unsupported("inverse output contains a coupled sector absent from the source"),
        );
    }
    Ok(routes)
}

/// Pairs every source region with the output region of its sector, which has
/// to be its transpose; every output region has to be used.
pub fn compile_pinv_region_routes(
    source: &[CoupledSectorRegion],
    output: &[CoupledSectorRegion],
    source_len: usize,
    output_len: usize,
) -> (result: Result<Vec<InverseSectorRoute>, OperationError>)
    ensures
        values_are(result, pinv_region_routes(source@, output@, source_len, output_len)),
{
    let ghost all = geometries(output@);
    let ghost outcomes = Seq::new(
        source@.len(),
        |k: int| pinv_region_route(source@, output@, source_len, output_len, k),
    );
    let map = match sector_region_index_map(output) {
        Ok(map) => map,
        Err(error) => {
            return Err(error);
        },
    };
    let mut routes: Vec<InverseSectorRoute> = Vec::with_capacity(source.len());
    let mut outputs: Vec<usize> = Vec::with_capacity(source.len());
    let mut k: usize = 0;
    assert(outputs@ =~= route_outputs(routes@));
    assert(outcomes.take(0) =~= Seq::empty());
    while k < source.len()
        invariant
            k <= source@.len(),
            all == geometries(output@),
            sectors_distinct(all),
            indexes_sectors(map@, all),
            outcomes == Seq::new(
                source@.len(),
                |k: int| pinv_region_route(source@, output@, source_len, output_len, k),
            ),
            all_ok(outcomes.take(k as int)) == Ok::<Seq<InverseSectorRoute>, OperationError>(
                routes@,
            ),
            outputs@ == route_outputs(routes@),
            forall|j: int| 0 <= j < outputs@.len() ==> (#[trigger] outputs@[j]) < output@.len(),
        decreases source.len() - k,
    {
        let from = &source[k];
        proof {
            lemma_all_ok_step(outcomes, k as int);
            lemma_sector_position(all, from.coupled, 0);
            if outcomes[k as int] is Err {
                lemma_all_ok_fails(outcomes, k as int);
            }
        }
        let at: usize = match map.get(from.coupled) {
            Some(at) => at,
            None => {
                return Err(unsupported("pinv output is missing a source coupled sector"));
            },
        };
        let to = &output[at];
        if to.rows != from.cols || to.cols != from.rows || !same_extents(
            from.col_trees.as_slice(),
            to.row_trees.as_slice(),
        ) || !same_extents(from.row_trees.as_slice(), to.col_trees.as_slice()) {
            return Err(
                unsupported("pinv output does not transpose the source coupled-sector layout"),
            );
        }
        match validate_region_range(from, source_len) {
            Ok(()) => {},
            Err(error) => {
                return Err(error);
            },
        }
        match validate_region_range(to, output_len) {
            Ok(()) => {},
            Err(error) => {
                return Err(error);
            },
        }
        let ghost before = routes@;
        routes.push(InverseSectorRoute { source: k, output: at });
        outputs.push(at);
        assert(outputs@ =~= route_outputs(routes@)) by {
            assert(route_outputs(before).len() == before.len());
        }
        k += 1;
    }
    assert(outcomes.take(source@.len() as int) =~= outcomes);
    if !covers_all(outputs.as_slice(), output.len()) {
        return Err(unsupported("pinv output contains a coupled sector absent from the source"));
    }
    Ok(routes)
}

} // verus!
