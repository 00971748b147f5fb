//! When layouts can be routed: wherever every sector finds its regions.

use vstd::prelude::*;

use crate::error::OperationError;
use crate::factor_routes::{polar_p, polar_route, polar_routes, polar_w, PolarRegionRoute};
use crate::geometry::{
    geometries, sector_position, sectors_distinct, CoupledSectorRegion, SectorGeometry,
};
use crate::matricize::lemma_position_unique;
use crate::outcome::{all_ok, lemma_all_ok_values};
use crate::polar::PolarDirection;
use crate::route_laws::{positive_layout, solves, transposes};
use crate::routes::{
    covers, inverse_region_route, inverse_region_routes, mentioned, pinv_region_route,
    pinv_region_routes, route_outputs, InverseSectorRoute,
};
use crate::solve_routes::{solve_left_route, solve_left_routes};

verus! {

/// A list without an error succeeds.
pub proof fn lemma_all_ok_succeeds<T>(outcomes: Seq<Result<T, OperationError>>)
    requires
        forall|k: int| 0 <= k < outcomes.len() ==> (#[trigger] outcomes[k]) is Ok,
    ensures
        all_ok(outcomes) is Ok,
    decreases outcomes.len(),
{
    if outcomes.len() > 0 {
        assert forall|k: int| 0 <= k < outcomes.drop_last().len() implies (
        #[trigger] outcomes.drop_last()[k]) is Ok by {
            assert(outcomes[k] is Ok);
        }
        lemma_all_ok_succeeds(outcomes.drop_last());
        assert(outcomes[outcomes.len() - 1] is Ok);
    }
}

/// The region of a sector is found where it stands.
proof fn lemma_region_found(regions: Seq<CoupledSectorRegion>, at: int)
    requires
        sectors_distinct(geometries(regions)),
        0 <= at < regions.len(),
    ensures
        sector_position(geometries(regions), regions[at].coupled, 0) == Some(at),
{
    assert(geometries(regions)[at] == regions[at].geometry());
    lemma_position_unique(geometries(regions), at);
}

/// Some output region transposes this source region.
pub open spec fn is_transposed(
    source: CoupledSectorRegion,
    output: Seq<CoupledSectorRegion>,
    source_len: usize,
    output_len: usize,
) -> bool {
    exists|o: int|
        0 <= o < output.len() && transposes(source, #[trigger] output[o], source_len, output_len)
}

/// Some region has the sector of this one.
#[verifier::opaque]
pub open spec fn has_sector_of(
    regions: Seq<CoupledSectorRegion>,
    other: CoupledSectorRegion,
) -> bool {
    exists|k: int| 0 <= k < regions.len() && (#[trigger] regions[k]).coupled == other.coupled
}

proof fn lemma_sector_named(regions: Seq<CoupledSectorRegion>, other: CoupledSectorRegion) -> (k:
    int)
    requires
        has_sector_of(regions, other),
    ensures
        0 <= k < regions.len(),
        regions[k].coupled == other.coupled,
{
    reveal(has_sector_of);
    choose|k: int| 0 <= k < regions.len() && (#[trigger] regions[k]).coupled == other.coupled
}

/// A pseudo-inverse can be routed wherever the output transposes every region of
/// the source and has no other sectors, each of them once.
pub proof fn lemma_pinv_routes_exist(
    source: Seq<CoupledSectorRegion>,
    output: Seq<CoupledSectorRegion>,
    source_len: usize,
    output_len: usize,
)
    requires
        source.len() <= usize::MAX,
        output.len() <= usize::MAX,
        sectors_distinct(geometries(output)),
        forall|k: int|
            0 <= k < source.len() ==> is_transposed(
                #[trigger] source[k],
                output,
                source_len,
                output_len,
            ),
        forall|o: int| 0 <= o < output.len() ==> has_sector_of(source, #[trigger] output[o]),
    ensures
        pinv_region_routes(source, output, source_len, output_len) is Ok,
{
    let outcomes = Seq::new(
        source.len(),
        |k: int| pinv_region_route(source, output, source_len, output_len, k),
    );
    assert forall|k: int| 0 <= k < outcomes.len() implies (#[trigger] outcomes[k]) is Ok by {
        assert(is_transposed(source[k], output, source_len, output_len));
        let o = choose|o: int|
            0 <= o < output.len() && transposes(
                source[k],
                #[trigger] output[o],
                source_len,
                output_len,
            );
        lemma_region_found(output, o);
    }
    lemma_all_ok_succeeds(outcomes);
    lemma_all_ok_values(outcomes);
    let routes = all_ok(outcomes)->Ok_0;
    assert forall|o: int| 0 <= o < output.len() implies #[trigger] mentioned(
        route_outputs(routes),
        o,
    ) by {
        let k = lemma_sector_named(source, output[o]);
        lemma_region_found(output, o);
        assert(outcomes[k] == Ok::<InverseSectorRoute, OperationError>(routes[k]));
        assert(route_outputs(routes)[k] == o);
    }
}

/// An inverse can be routed wherever the source regions are square, and the output
/// transposes each of them and has no other sectors, each of them once.
pub proof fn lemma_inverse_routes_exist(
    source: Seq<CoupledSectorRegion>,
    output: Seq<CoupledSectorRegion>,
    source_len: usize,
    output_len: usize,
)
    requires
        source.len() <= usize::MAX,
        output.len() <= usize::MAX,
        sectors_distinct(geometries(output)),
        forall|k: int|
            0 <= k < source.len() ==> (#[trigger] source[k]).rows == source[k].cols
                && is_transposed(source[k], output, source_len, output_len),
        forall|o: int| 0 <= o < output.len() ==> has_sector_of(source, #[trigger] output[o]),
    ensures
        inverse_region_routes(source, output, source_len, output_len) is Ok,
{
    let outcomes = Seq::new(
        source.len(),
        |k: int| inverse_region_route(source, output, source_len, output_len, k),
    );
    assert forall|k: int| 0 <= k < outcomes.len() implies (#[trigger] outcomes[k]) is Ok by {
        assert(source[k].rows == source[k].cols);
        assert(is_transposed(source[k], output, source_len, output_len));
        let o = choose|o: int|
            0 <= o < output.len() && transposes(
                source[k],
                #[trigger] output[o],
                source_len,
                output_len,
            );
        lemma_region_found(output, o);
    }
    lemma_all_ok_succeeds(outcomes);
    lemma_all_ok_values(outcomes);
    let routes = all_ok(outcomes)->Ok_0;
    assert forall|o: int| 0 <= o < output.len() implies #[trigger] mentioned(
        route_outputs(routes),
        o,
    ) by {
        let k = lemma_sector_named(source, output[o]);
        lemma_region_found(output, o);
        assert(outcomes[k] == Ok::<InverseSectorRoute, OperationError>(routes[k]));
        assert(route_outputs(routes)[k] == o);
    }
}

/// Some divisor and some right-hand side, both inside their buffers, fit this
/// output region.
pub open spec fn is_solvable(
    divisor: Seq<CoupledSectorRegion>,
    rhs: Seq<CoupledSectorRegion>,
    output: CoupledSectorRegion,
    divisor_len: usize,
    rhs_len: usize,
) -> bool {
    exists|d: int, r: int|
        {
            &&& 0 <= d < divisor.len()
            &&& 0 <= r < rhs.len()
            &&& solves(#[trigger] divisor[d], #[trigger] rhs[r], output)
            &&& divisor[d].end <= divisor_len
            &&& rhs[r].end <= rhs_len
        }
}

/// A left solve can be routed wherever every output region finds its divisor and
/// its right-hand side, and there are as many right-hand sides as outputs.
pub proof fn lemma_solve_routes_exist(
    divisor: Seq<CoupledSectorRegion>,
    rhs: Seq<CoupledSectorRegion>,
    output: Seq<CoupledSectorRegion>,
    divisor_len: usize,
    rhs_len: usize,
    output_len: usize,
)
    requires
        divisor.len() <= usize::MAX,
        rhs.len() <= usize::MAX,
        sectors_distinct(geometries(divisor)),
        sectors_distinct(geometries(rhs)),
        rhs.len() == output.len(),
        forall|k: int|
            0 <= k < output.len() ==> (#[trigger] output[k]).end <= output_len && is_solvable(
                divisor,
                rhs,
                output[k],
                divisor_len,
                rhs_len,
            ),
    ensures
        solve_left_routes(divisor, rhs, output, divisor_len, rhs_len, output_len) is Ok,
{
    let outcomes = Seq::new(
        output.len(),
        |k: int| solve_left_route(divisor, rhs, output, divisor_len, rhs_len, output_len, k),
    );
    assert forall|k: int| 0 <= k < outcomes.len() implies (#[trigger] outcomes[k]) is Ok by {
        assert(output[k].end <= output_len);
        assert(is_solvable(divisor, rhs, output[k], divisor_len, rhs_len));
        let (d, r) = choose|d: int, r: int|
            {
                &&& 0 <= d < divisor.len()
                &&& 0 <= r < rhs.len()
                &&& solves(#[trigger] divisor[d], #[trigger] rhs[r], output[k])
                &&& divisor[d].end <= divisor_len
                &&& rhs[r].end <= rhs_len
            };
        lemma_region_found(divisor, d);
        lemma_region_found(rhs, r);
    }
    lemma_all_ok_succeeds(outcomes);
}

/// Some region of each factor, inside its buffer, has the layout that a polar
/// decomposition of this region needs.
pub open spec fn has_polar_regions(
    source: CoupledSectorRegion,
    w: Seq<CoupledSectorRegion>,
    p: Seq<CoupledSectorRegion>,
    w_len: usize,
    p_len: usize,
    direction: PolarDirection,
) -> bool {
    exists|i: int, j: int|
        {
            &&& 0 <= i < w.len()
            &&& 0 <= j < p.len()
            &&& (#[trigger] w[i]).geometry() == source.geometry()
            &&& (#[trigger] p[j]).geometry() == positive_layout(source.geometry(), direction)
            &&& w[i].end <= w_len
            &&& p[j].end <= p_len
        }
}

proof fn lemma_polar_route_exists(
    source: Seq<CoupledSectorRegion>,
    w: Seq<CoupledSectorRegion>,
    p: Seq<CoupledSectorRegion>,
    source_len: usize,
    w_len: usize,
    p_len: usize,
    direction: PolarDirection,
    k: int,
)
    requires
        w.len() <= usize::MAX,
        p.len() <= usize::MAX,
        sectors_distinct(geometries(w)),
        sectors_distinct(geometries(p)),
        0 <= k < source.len(),
        source[k].end <= source_len,
        has_polar_regions(source[k], w, p, w_len, p_len, direction),
    ensures
        polar_route(source, w, p, source_len, w_len, p_len, direction, k) is Ok,
{
    let (i, j) = choose|i: int, j: int|
        {
            &&& 0 <= i < w.len()
            &&& 0 <= j < p.len()
            &&& (#[trigger] w[i]).geometry() == source[k].geometry()
            &&& (#[trigger] p[j]).geometry() == positive_layout(source[k].geometry(), direction)
            &&& w[i].end <= w_len
            &&& p[j].end <= p_len
        };
    lemma_region_found(w, i);
    lemma_region_found(p, j);
    assert(w[i].coupled == w[i].geometry().sector);
    assert(p[j].coupled == p[j].geometry().sector);
    assert(source[k].coupled == source[k].geometry().sector);
}

proof fn lemma_polar_route_finds(
    source: Seq<CoupledSectorRegion>,
    w: Seq<CoupledSectorRegion>,
    p: Seq<CoupledSectorRegion>,
    source_len: usize,
    w_len: usize,
    p_len: usize,
    direction: PolarDirection,
    k: int,
)
    requires
        polar_route(source, w, p, source_len, w_len, p_len, direction, k) is Ok,
        w.len() <= usize::MAX,
        p.len() <= usize::MAX,
        sectors_distinct(geometries(w)),
        sectors_distinct(geometries(p)),
        0 <= k < source.len(),
    ensures
        ({
            let route = polar_route(source, w, p, source_len, w_len, p_len, direction, k)->Ok_0;
            &&& forall|i: int|
                0 <= i < w.len() && (#[trigger] w[i]).coupled == source[k].coupled ==> route.w == i
            &&& forall|j: int|
                0 <= j < p.len() && (#[trigger] p[j]).coupled == source[k].coupled ==> route.p == j
        }),
{
    assert(source[k].coupled == source[k].geometry().sector);
    assert forall|i: int|
        0 <= i < w.len() && (#[trigger] w[i]).coupled == source[k].coupled implies polar_route(
        source,
        w,
        p,
        source_len,
        w_len,
        p_len,
        direction,
        k,
    )->Ok_0.w == i by {
        lemma_region_found(w, i);
    }
    assert forall|j: int|
        0 <= j < p.len() && (#[trigger] p[j]).coupled == source[k].coupled implies polar_route(
        source,
        w,
        p,
        source_len,
        w_len,
        p_len,
        direction,
        k,
    )->Ok_0.p == j by {
        lemma_region_found(p, j);
    }
}

/// What is found for every source region of a polar decomposition.
pub open spec fn polar_outcomes(
    source: Seq<CoupledSectorRegion>,
    w: Seq<CoupledSectorRegion>,
    p: Seq<CoupledSectorRegion>,
    source_len: usize,
    w_len: usize,
    p_len: usize,
    direction: PolarDirection,
) -> Seq<Result<PolarRegionRoute, OperationError>> {
    Seq::new(
        source.len(),
        |k: int| polar_route(source, w, p, source_len, w_len, p_len, direction, k),
    )
}

proof fn lemma_polar_outcomes_succeed(
    source: Seq<CoupledSectorRegion>,
    w: Seq<CoupledSectorRegion>,
    p: Seq<CoupledSectorRegion>,
    source_len: usize,
    w_len: usize,
    p_len: usize,
    direction: PolarDirection,
)
    requires
        source.len() <= usize::MAX,
        w.len() <= usize::MAX,
        p.len() <= usize::MAX,
        sectors_distinct(geometries(w)),
        sectors_distinct(geometries(p)),
        forall|k: int|
            0 <= k < source.len() ==> (#[trigger] source[k]).end <= source_len
                && has_polar_regions(source[k], w, p, w_len, p_len, direction),
        forall|i: int| 0 <= i < w.len() ==> has_sector_of(source, #[trigger] w[i]),
        forall|j: int| 0 <= j < p.len() ==> has_sector_of(source, #[trigger] p[j]),
    ensures
        all_ok(polar_outcomes(source, w, p, source_len, w_len, p_len, direction)) is Ok,
{
    let outcomes = polar_outcomes(source, w, p, source_len, w_len, p_len, direction);
    assert forall|k: int| 0 <= k < outcomes.len() implies (#[trigger] outcomes[k]) is Ok by {
        assert(source[k].end <= source_len);
        lemma_polar_route_exists(source, w, p, source_len, w_len, p_len, direction, k);
    }
    lemma_all_ok_succeeds(outcomes);
}

proof fn lemma_polar_outcomes_find(
    source: Seq<CoupledSectorRegion>,
    w: Seq<CoupledSectorRegion>,
    p: Seq<CoupledSectorRegion>,
    source_len: usize,
    w_len: usize,
    p_len: usize,
    direction: PolarDirection,
)
    requires
        source.len() <= usize::MAX,
        w.len() <= usize::MAX,
        p.len() <= usize::MAX,
        sectors_distinct(geometries(w)),
        sectors_distinct(geometries(p)),
        forall|k: int|
            0 <= k < source.len() ==> (#[trigger] source[k]).end <= source_len
                && has_polar_regions(source[k], w, p, w_len, p_len, direction),
        forall|i: int| 0 <= i < w.len() ==> has_sector_of(source, #[trigger] w[i]),
        forall|j: int| 0 <= j < p.len() ==> has_sector_of(source, #[trigger] p[j]),
        all_ok(polar_outcomes(source, w, p, source_len, w_len, p_len, direction)) is Ok,
    ensures
        ({
            let routes = all_ok(
                polar_outcomes(source, w, p, source_len, w_len, p_len, direction),
            )->Ok_0;
            &&& routes.len() == source.len()
            &&& forall|k: int, i: int|
                0 <= k < source.len() && 0 <= i < w.len() && (#[trigger] w[i]).coupled == (
                #[trigger] source[k]).coupled ==> routes[k].w == i
            &&& forall|k: int, j: int|
                0 <= k < source.len() && 0 <= j < p.len() && (#[trigger] p[j]).coupled == (
                #[trigger] source[k]).coupled ==> routes[k].p == j
        }),
{
    let outcomes = polar_outcomes(source, w, p, source_len, w_len, p_len, direction);
    let routes = all_ok(outcomes)->Ok_0;
    lemma_all_ok_values(outcomes);
    assert forall|k: int, i: int|
        0 <= k < source.len() && 0 <= i < w.len() && (#[trigger] w[i]).coupled == (
        #[trigger] source[k]).coupled implies routes[k].w == i by {
        assert(outcomes[k] is Ok && outcomes[k]->Ok_0 == routes[k]);
        lemma_polar_route_finds(source, w, p, source_len, w_len, p_len, direction, k);
    }
    assert forall|k: int, j: int|
        0 <= k < source.len() && 0 <= j < p.len() && (#[trigger] p[j]).coupled == (
        #[trigger] source[k]).coupled implies routes[k].p == j by {
        assert(outcomes[k] is Ok && outcomes[k]->Ok_0 == routes[k]);
        lemma_polar_route_finds(source, w, p, source_len, w_len, p_len, direction, k);
    }
}

/// A polar decomposition can be routed wherever every source region finds the
/// regions of its two factors, and these have no other sectors, each of them once.
pub proof fn lemma_polar_routes_exist(
    source: Seq<CoupledSectorRegion>,
    w: Seq<CoupledSectorRegion>,
    p: Seq<CoupledSectorRegion>,
    source_len: usize,
    w_len: usize,
    p_len: usize,
    direction: PolarDirection,
)
    requires
        source.len() <= usize::MAX,
        w.len() <= usize::MAX,
        p.len() <= usize::MAX,
        sectors_distinct(geometries(w)),
        sectors_distinct(geometries(p)),
        forall|k: int|
            0 <= k < source.len() ==> (#[trigger] source[k]).end <= source_len
                && has_polar_regions(source[k], w, p, w_len, p_len, direction),
        forall|i: int| 0 <= i < w.len() ==> has_sector_of(source, #[trigger] w[i]),
        forall|j: int| 0 <= j < p.len() ==> has_sector_of(source, #[trigger] p[j]),
    ensures
        polar_routes(source, w, p, source_len, w_len, p_len, direction) is Ok,
{
    let outcomes = polar_outcomes(source, w, p, source_len, w_len, p_len, direction);
    lemma_polar_outcomes_succeed(source, w, p, source_len, w_len, p_len, direction);
    lemma_polar_outcomes_find(source, w, p, source_len, w_len, p_len, direction);
    let routes = all_ok(outcomes)->Ok_0;
    assert(covers(polar_w(routes), w.len() as int)) by {
        assert forall|i: int| 0 <= i < w.len() implies #[trigger] mentioned(
            polar_w(routes),
            i,
        ) by {
            let k = lemma_sector_named(source, w[i]);
            assert(polar_w(routes)[k] == i);
        }
    }
    assert(covers(polar_p(routes), p.len() as int)) by {
        assert forall|j: int| 0 <= j < p.len() implies #[trigger] mentioned(
            polar_p(routes),
            j,
        ) by {
            let k = lemma_sector_named(source, p[j]);
            assert(polar_p(routes)[k] == j);
        }
    }
}

} // verus!
