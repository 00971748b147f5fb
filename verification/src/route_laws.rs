//! What compiled routes promise: equal sectors, matching layouts, and every
//! output region used.

use vstd::prelude::*;

use crate::error::OperationError;
use crate::factor_routes::{polar_p, polar_route, polar_routes, polar_w};
use crate::geometry::{
    geometries, lemma_sector_position, lemma_span_position, sectors_distinct, span_position,
    CoupledSectorRegion, Geometry, SectorGeometry, Span,
};
use crate::index::extent;
use crate::outcome::{all_ok, lemma_all_ok_values};
use crate::polar::PolarDirection;
use crate::routes::{
    covers, inverse_region_route, inverse_region_routes, mentioned, pinv_region_route,
    pinv_region_routes, route_outputs, InverseSectorRoute,
};
use crate::solve_routes::{
    basis_extent, basis_extents, basis_positions, solve_left_route, solve_left_routes,
    InverseBasisExtent, SolveLeftSectorRoute,
};

verus! {

/// An output region has a source region's sector and its transposed layout, and
/// both lie inside their buffers.
pub open spec fn transposes(
    source: CoupledSectorRegion,
    output: CoupledSectorRegion,
    source_len: usize,
    output_len: usize,
) -> bool {
    &&& output.coupled == source.coupled
    &&& output.rows == source.cols
    &&& output.cols == source.rows
    &&& output.geometry().row_trees == source.geometry().col_trees
    &&& output.geometry().col_trees == source.geometry().row_trees
    &&& source.end <= source_len
    &&& output.end <= output_len
}

/// The routes pair every source region with the transposed region of its
/// sector, and use every output region.
pub open spec fn routes_transpose(
    routes: Seq<InverseSectorRoute>,
    source: Seq<CoupledSectorRegion>,
    output: Seq<CoupledSectorRegion>,
    source_len: usize,
    output_len: usize,
) -> bool {
    &&& routes.len() == source.len()
    &&& forall|k: int|
        0 <= k < routes.len() ==> (#[trigger] routes[k]).source == k && routes[k].output
            < output.len() && transposes(
            source[k],
            output[routes[k].output as int],
            source_len,
            output_len,
        )
    &&& covers(route_outputs(routes), output.len() as int)
}

/// No two routes share an output region.
pub open spec fn outputs_distinct(routes: Seq<InverseSectorRoute>) -> bool {
    forall|j: int, k: int|
        0 <= j < k < routes.len() ==> (#[trigger] routes[j]).output != (#[trigger] routes[k]).output
}

/// Compiled inverse routes pair every square source region with the transposed
/// region of its sector and use every output region.
pub proof fn lemma_inverse_routes_transpose(
    source: Seq<CoupledSectorRegion>,
    output: Seq<CoupledSectorRegion>,
    source_len: usize,
    output_len: usize,
)
    requires
        source.len() <= usize::MAX,
        output.len() <= usize::MAX,
        inverse_region_routes(source, output, source_len, output_len) is Ok,
    ensures
        routes_transpose(
            inverse_region_routes(source, output, source_len, output_len)->Ok_0,
            source,
            output,
            source_len,
            output_len,
        ),
        forall|k: int| 0 <= k < source.len() ==> (#[trigger] source[k]).rows == source[k].cols,
{
    let outcomes = Seq::new(
        source.len(),
        |k: int| inverse_region_route(source, output, source_len, output_len, k),
    );
    let routes = inverse_region_routes(source, output, source_len, output_len)->Ok_0;
    lemma_all_ok_values(outcomes);
    assert forall|k: int| 0 <= k < routes.len() implies (#[trigger] routes[k]).source == k
        && routes[k].output < output.len() && transposes(
        source[k],
        output[routes[k].output as int],
        source_len,
        output_len,
    ) && source[k].rows == source[k].cols by {
        lemma_sector_position(geometries(output), source[k].coupled, 0);
        assert(outcomes[k] == Ok::<InverseSectorRoute, OperationError>(routes[k]));
    }
    assert forall|k: int| 0 <= k < source.len() implies (#[trigger] source[k]).rows
        == source[k].cols by {
        assert(routes[k].source == k);
    }
}

/// Compiled pseudo-inverse routes pair every source region with the transposed
/// region of its sector and use every output region.
pub proof fn lemma_pinv_routes_transpose(
    source: Seq<CoupledSectorRegion>,
    output: Seq<CoupledSectorRegion>,
    source_len: usize,
    output_len: usize,
)
    requires
        source.len() <= usize::MAX,
        output.len() <= usize::MAX,
        pinv_region_routes(source, output, source_len, output_len) is Ok,
    ensures
        routes_transpose(
            pinv_region_routes(source, output, source_len, output_len)->Ok_0,
            source,
            output,
            source_len,
            output_len,
        ),
{
    let outcomes = Seq::new(
        source.len(),
        |k: int| pinv_region_route(source, output, source_len, output_len, k),
    );
    let routes = pinv_region_routes(source, output, source_len, output_len)->Ok_0;
    lemma_all_ok_values(outcomes);
    assert forall|k: int| 0 <= k < routes.len() implies (#[trigger] routes[k]).source == k
        && routes[k].output < output.len() && transposes(
        source[k],
        output[routes[k].output as int],
        source_len,
        output_len,
    ) by {
        lemma_sector_position(geometries(output), source[k].coupled, 0);
        assert(outcomes[k] == Ok::<InverseSectorRoute, OperationError>(routes[k]));
    }
}

/// Transposing routes of a source without repeated sectors are one-to-one: no
/// two of them write the same output region.
pub proof fn lemma_routes_one_to_one(
    routes: Seq<InverseSectorRoute>,
    source: Seq<CoupledSectorRegion>,
    output: Seq<CoupledSectorRegion>,
    source_len: usize,
    output_len: usize,
)
    requires
        routes_transpose(routes, source, output, source_len, output_len),
        sectors_distinct(geometries(source)),
    ensures
        outputs_distinct(routes),
{
    assert forall|j: int, k: int| 0 <= j < k < routes.len() implies (#[trigger] routes[j]).output
        != (#[trigger] routes[k]).output by {
        assert(geometries(source)[j].sector != geometries(source)[k].sector);
    }
}

/// Transposing undoes itself: the regions of a pseudo-inverse have a
/// pseudo-inverse whose routes lead back to the source.
pub proof fn lemma_pinv_routes_reverse(
    source: Seq<CoupledSectorRegion>,
    output: Seq<CoupledSectorRegion>,
    source_len: usize,
    output_len: usize,
)
    requires
        source.len() <= usize::MAX,
        output.len() <= usize::MAX,
        sectors_distinct(geometries(source)),
        pinv_region_routes(source, output, source_len, output_len) is Ok,
    ensures
        pinv_region_routes(output, source, output_len, source_len) is Ok,
        ({
            let there = pinv_region_routes(source, output, source_len, output_len)->Ok_0;
            let back = pinv_region_routes(output, source, output_len, source_len)->Ok_0;
            forall|k: int|
                0 <= k < source.len() ==> back[(#[trigger] there[k]).output as int].output == k
        }),
{
    let there = pinv_region_routes(source, output, source_len, output_len)->Ok_0;
    lemma_pinv_routes_transpose(source, output, source_len, output_len);
    lemma_routes_one_to_one(there, source, output, source_len, output_len);
    let outcomes = Seq::new(
        output.len(),
        |o: int| pinv_region_route(output, source, output_len, source_len, o),
    );
    assert forall|o: int| 0 <= o < outcomes.len() implies {
        &&& #[trigger] outcomes[o] is Ok
        &&& outcomes[o]->Ok_0.output < source.len()
        &&& there[outcomes[o]->Ok_0.output as int].output == o
    } by {
        assert(mentioned(route_outputs(there), o));
        let k = choose|k: int|
            0 <= k < route_outputs(there).len() && (#[trigger] route_outputs(there)[k]) == o;
        assert(there[k].output == o);
        crate::matricize::lemma_position_unique(geometries(source), k);
        assert(geometries(source)[k].sector == source[k].coupled);
    }
    lemma_all_ok_succeeds(outcomes);
    let back = all_ok(outcomes)->Ok_0;
    lemma_all_ok_values(outcomes);
    assert forall|k: int| 0 <= k < source.len() implies back[(
    #[trigger] there[k]).output as int].output == k by {
        let o = there[k].output as int;
        assert(outcomes[o] == Ok::<InverseSectorRoute, OperationError>(back[o]));
        let j = back[o].output as int;
        if j < k {
            assert(there[j].output != there[k].output);
        } else if k < j {
            assert(there[k].output != there[j].output);
        }
    }
    assert forall|k: int| 0 <= k < source.len() implies #[trigger] mentioned(
        route_outputs(back),
        k,
    ) by {
        let o = there[k].output as int;
        assert(route_outputs(back)[o] == k);
    }
}

proof fn lemma_all_ok_succeeds<T>(outcomes: Seq<Result<T, OperationError>>)
    requires
        forall|k: int| 0 <= k < outcomes.len() ==> #[trigger] outcomes[k] is Ok,
    ensures
        all_ok(outcomes) is Ok,
    decreases outcomes.len(),
{
    if outcomes.len() > 0 {
        let rest = outcomes.drop_last();
        assert forall|k: int| 0 <= k < rest.len() implies #[trigger] rest[k] is Ok by {
            assert(rest[k] == outcomes[k]);
        }
        lemma_all_ok_succeeds(rest);
        assert(outcomes.last() == outcomes[outcomes.len() - 1]);
    }
}

/// The three regions of a solve have one sector and compatible layouts.
pub open spec fn solves(
    divisor: CoupledSectorRegion,
    rhs: CoupledSectorRegion,
    output: CoupledSectorRegion,
) -> bool {
    &&& divisor.coupled == output.coupled
    &&& rhs.coupled == output.coupled
    &&& divisor.rows == divisor.cols
    &&& divisor.rows == rhs.rows
    &&& divisor.cols == output.rows
    &&& rhs.cols == output.cols
    &&& divisor.geometry().row_trees == rhs.geometry().row_trees
    &&& divisor.geometry().col_trees == output.geometry().row_trees
    &&& rhs.geometry().col_trees == output.geometry().col_trees
}

/// The right-hand sides that the routes use.
pub open spec fn solve_rhs(routes: Seq<SolveLeftSectorRoute>) -> Seq<usize> {
    routes.map_values(|route: SolveLeftSectorRoute| route.rhs)
}

/// Compiled left-solve routes give every output region the divisor and the
/// right-hand side of its sector; with distinct output sectors they use every
/// right-hand side.
pub proof fn lemma_solve_routes_match(
    divisor: Seq<CoupledSectorRegion>,
    rhs: Seq<CoupledSectorRegion>,
    output: Seq<CoupledSectorRegion>,
    divisor_len: usize,
    rhs_len: usize,
    output_len: usize,
)
    requires
        divisor.len() <= usize::MAX,
        rhs.len() <= usize::MAX,
        output.len() <= usize::MAX,
        solve_left_routes(divisor, rhs, output, divisor_len, rhs_len, output_len) is Ok,
    ensures
        ({
            let routes = solve_left_routes(
                divisor,
                rhs,
                output,
                divisor_len,
                rhs_len,
                output_len,
            )->Ok_0;
            &&& routes.len() == output.len()
            &&& forall|k: int|
                0 <= k < routes.len() ==> {
                    let route = #[trigger] routes[k];
                    &&& route.output == k
                    &&& route.divisor < divisor.len()
                    &&& route.rhs < rhs.len()
                    &&& solves(divisor[route.divisor as int], rhs[route.rhs as int], output[k])
                }
            &&& sectors_distinct(geometries(output)) ==> covers(
                solve_rhs(routes),
                rhs.len() as int,
            )
        }),
{
    let outcomes = Seq::new(
        output.len(),
        |k: int| solve_left_route(divisor, rhs, output, divisor_len, rhs_len, output_len, k),
    );
    let routes = solve_left_routes(
        divisor,
        rhs,
        output,
        divisor_len,
        rhs_len,
        output_len,
    )->Ok_0;
    lemma_all_ok_values(outcomes);
    assert forall|k: int| 0 <= k < routes.len() implies {
        let route = #[trigger] routes[k];
        &&& route.output == k
        &&& route.divisor < divisor.len()
        &&& route.rhs < rhs.len()
        &&& solves(divisor[route.divisor as int], rhs[route.rhs as int], output[k])
    } by {
        lemma_sector_position(geometries(divisor), output[k].coupled, 0);
        lemma_sector_position(geometries(rhs), output[k].coupled, 0);
        assert(outcomes[k] == Ok::<SolveLeftSectorRoute, OperationError>(routes[k]));
    }
    if sectors_distinct(geometries(output)) {
        let used = solve_rhs(routes);
        assert forall|j: int, k: int| 0 <= j < k < used.len() implies (#[trigger] used[j]) != (
        #[trigger] used[k]) by {
            assert(routes[j].output == j);
            assert(routes[k].output == k);
            assert(geometries(output)[j].sector != geometries(output)[k].sector);
        }
        assert forall|k: int| 0 <= k < used.len() implies (#[trigger] used[k]) < rhs.len() by {
            assert(routes[k].rhs == used[k]);
        }
        lemma_injection_covers(used, rhs.len() as int);
    }
}

/// A list of as many distinct indices as there are names all of them.
proof fn lemma_injection_covers(list: Seq<usize>, count: int)
    requires
        list.len() == count,
        forall|j: int, k: int|
            0 <= j < k < list.len() ==> (#[trigger] list[j]) != (#[trigger] list[k]),
        forall|k: int| 0 <= k < list.len() ==> (#[trigger] list[k]) < count,
    ensures
        covers(list, count),
    decreases count,
{
    if count > 0 {
        let top = count - 1;
        // The list without its entry `top`, or without its last entry: one entry
        // less over one index less.
        if exists|k: int| 0 <= k < list.len() && (#[trigger] list[k]) == top {
            let at = choose|k: int| 0 <= k < list.len() && (#[trigger] list[k]) == top;
            let rest = list.remove(at);
            assert forall|j: int, k: int| 0 <= j < k < rest.len() implies (#[trigger] rest[j])
                != (#[trigger] rest[k]) by {
                let a = if j < at { j } else { j + 1 };
                let b = if k < at { k } else { k + 1 };
                assert(list[a] != list[b]);
            }
            assert forall|k: int| 0 <= k < rest.len() implies (#[trigger] rest[k]) < top by {
                let b = if k < at { k } else { k + 1 };
                assert(rest[k] == list[b]);
                if b < at {
                    assert(list[b] != list[at]);
                } else {
                    assert(list[at] != list[b]);
                }
            }
            lemma_injection_covers(rest, top);
            assert forall|index: int| 0 <= index < count implies #[trigger] mentioned(
                list,
                index,
            ) by {
                if index == top {
                    assert(list[at] == top);
                } else {
                    assert(mentioned(rest, index));
                    let k = choose|k: int| 0 <= k < rest.len() && (#[trigger] rest[k]) == index;
                    let b = if k < at { k } else { k + 1 };
                    assert(list[b] == index);
                }
            }
        } else {
            let rest = list.drop_last();
            assert forall|k: int| 0 <= k < rest.len() implies (#[trigger] rest[k]) < top by {
                assert(rest[k] == list[k]);
            }
            assert forall|j: int, k: int| 0 <= j < k < rest.len() implies (#[trigger] rest[j])
                != (#[trigger] rest[k]) by {
                assert(list[j] != list[k]);
            }
            lemma_injection_covers(rest, top);
            let last = list[count - 1] as int;
            assert(last < top);
            assert(mentioned(rest, last));
            let k = choose|k: int| 0 <= k < rest.len() && (#[trigger] rest[k]) == last;
            assert(list[k] != list[count - 1]);
        }
    }
}

/// Compiled polar routes give every source region an isometry of its own
/// layout and a square positive factor on the side that the direction names,
/// both of its sector, and use every region of both factors.
pub proof fn lemma_polar_routes_preserve_layout(
    source: Seq<CoupledSectorRegion>,
    w: Seq<CoupledSectorRegion>,
    p: Seq<CoupledSectorRegion>,
    source_len: usize,
    w_len: usize,
    p_len: usize,
    direction: PolarDirection,
)
    requires
        source.len() <= usize::MAX,
        w.len() <= usize::MAX,
        p.len() <= usize::MAX,
        polar_routes(source, w, p, source_len, w_len, p_len, direction) is Ok,
    ensures
        ({
            let routes = polar_routes(source, w, p, source_len, w_len, p_len, direction)->Ok_0;
            &&& routes.len() == source.len()
            &&& forall|k: int|
                0 <= k < routes.len() ==> {
                    let route = #[trigger] routes[k];
                    let from = source[k].geometry();
                    &&& route.source == k
                    &&& route.w < w.len()
                    &&& w[route.w as int].geometry() == from
                    &&& route.p < p.len()
                    &&& p[route.p as int].geometry() == positive_layout(from, direction)
                }
            &&& covers(polar_w(routes), w.len() as int)
            &&& covers(polar_p(routes), p.len() as int)
        }),
{
    let outcomes = Seq::new(
        source.len(),
        |k: int| polar_route(source, w, p, source_len, w_len, p_len, direction, k),
    );
    let routes = polar_routes(source, w, p, source_len, w_len, p_len, direction)->Ok_0;
    lemma_all_ok_values(outcomes);
    assert forall|k: int| 0 <= k < routes.len() implies {
        let route = #[trigger] routes[k];
        let from = source[k].geometry();
        &&& route.source == k
        &&& route.w < w.len()
        &&& w[route.w as int].geometry() == from
        &&& route.p < p.len()
        &&& p[route.p as int].geometry() == positive_layout(from, direction)
    } by {
        lemma_sector_position(geometries(w), source[k].coupled, 0);
        lemma_sector_position(geometries(p), source[k].coupled, 0);
        assert(outcomes[k] is Ok);
    }
}

/// The layout of the positive factor: the source's columns on both sides for a
/// left decomposition, its rows on both sides for a right one.
pub open spec fn positive_layout(source: Geometry, direction: PolarDirection) -> Geometry {
    match direction {
        PolarDirection::Left => Geometry {
            sector: source.sector,
            rows: source.cols,
            cols: source.cols,
            row_trees: source.col_trees,
            col_trees: source.col_trees,
        },
        PolarDirection::Right => Geometry {
            sector: source.sector,
            rows: source.rows,
            cols: source.rows,
            row_trees: source.row_trees,
            col_trees: source.row_trees,
        },
    }
}

/// A basis range leads from a source tree's range to the range of the same tree
/// in the output basis.
pub open spec fn leads_to_tree(
    range: InverseBasisExtent,
    source: Span,
    output: Seq<Span>,
) -> bool {
    match span_position(output, source.tree, 0) {
        None => false,
        Some(o) => {
            &&& 0 <= o < output.len()
            &&& output[o].tree == source.tree
            &&& output[o].shape == source.shape
            &&& range.source_offset == source.offset
            &&& range.output_offset == output[o].offset
            &&& range.extent == extent(source.shape)
        },
    }
}

/// Compiled basis ranges send every source tree to the range that the same
/// tree has in the output basis, and every output tree is reached.
pub proof fn lemma_basis_extents_match(source: Seq<Span>, output: Seq<Span>)
    requires
        output.len() <= usize::MAX,
        basis_extents(source, output) is Ok,
    ensures
        ({
            let extents = basis_extents(source, output)->Ok_0;
            &&& extents.len() == source.len()
            &&& forall|k: int|
                0 <= k < extents.len() ==> leads_to_tree(
                    #[trigger] extents[k],
                    source[k],
                    output,
                )
            &&& covers(basis_positions(source, output), output.len() as int)
        }),
{
    let outcomes = Seq::new(source.len(), |k: int| basis_extent(source[k], output));
    let extents = basis_extents(source, output)->Ok_0;
    lemma_all_ok_values(outcomes);
    assert forall|k: int| 0 <= k < extents.len() implies leads_to_tree(
        #[trigger] extents[k],
        source[k],
        output,
    ) by {
        lemma_span_position(output, source[k].tree, 0);
        crate::index::lemma_leading_extent_nonnegative(
            source[k].shape,
            source[k].shape.len() as int,
        );
        assert(outcomes[k] == Ok::<InverseBasisExtent, OperationError>(extents[k]));
    }
}

} // verus!
