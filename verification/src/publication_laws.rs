//! What published factorizations and null spaces are in every sector, with exact
//! backends: the spaces are those that were asked for on the right bond, and hold
//! factors of every sector's own matrix, element by element.

use vstd::prelude::*;

use crate::bond::bond_of_pairs;
use crate::compact_drive::{factors_published, input_geometries, pairs_found};
use crate::direct::RouteFactors;
use crate::driver_laws::{
    holds_factor, is_output, is_source, lemma_geometry_count, lemma_published_holds,
};
use crate::error::OperationError;
use crate::exact::conjugates_in;
use crate::factor::{FactorPair, FactorPlacement, SectorRank};
use crate::full_drive::{full_factors_published, published_on_bond};
use crate::geometry::Geometry;
use crate::input::InputMatricizations;
use crate::layout::FactorSide;
use crate::null::{null_pair, null_pair_views, null_pairs, NullPair, RankedBasis};
use crate::null_drive::{null_pairs_found, null_space_on, null_space_published, NullSpace};
use crate::null_laws::{
    is_null_space, is_pair_of_some, is_ranked, lemma_null_pair_is_null_space,
    lemma_null_pairs_listed, side_matrix,
};
use crate::product_laws::{lemma_input_shape, lemma_pairs_multiply, splits_exactly};
use crate::ring::{matrix, Matrix, Ring};
use crate::sides::{
    lays_out, right_published, side_data, sides_published, DriveError, FactorsOnSpaces,
    Publication,
};
use crate::space::{MapSpace, SectorLeg};
use crate::stages::{factored_until, sector_input, BondExtent};

verus! {

/// Both factors of the last pair of a sector stand in spaces that were given for
/// their bonds.
pub proof fn lemma_both_sides_hold<
    D,
    X,
    G: Fn(&SectorLeg) -> Result<MapSpace, X>,
    H: Fn(&SectorLeg) -> Result<MapSpace, X>,
>(
    found: FactorsOnSpaces<D>,
    left_layout: G,
    right_layout: H,
    geometries: Seq<Geometry>,
    pairs: Seq<FactorPair<D>>,
    left_dimensions: Seq<SectorRank>,
    right_dimensions: Seq<SectorRank>,
    publication: Publication,
    zero: D,
    one: D,
    at: int,
    p: int,
    cols: int,
)
    requires
        sides_published(
            Ok::<FactorsOnSpaces<D>, DriveError<X>>(found),
            left_layout,
            right_layout,
            geometries,
            pairs,
            left_dimensions,
            right_dimensions,
            publication,
            zero,
            one,
        ),
        publication != Publication::Plain(FactorPlacement::Adjoint),
        is_output(found.left_space.structure, FactorSide::Left),
        is_output(found.right_space.structure, FactorSide::Right),
        is_source(geometries, FactorSide::Left),
        is_source(geometries, FactorSide::Right),
        0 <= at < geometries.len(),
        0 <= p < pairs.len(),
        pairs[p].sector == geometries[at].sector,
        forall|later: int|
            p < later < pairs.len() ==> (#[trigger] pairs[later]).sector
                != geometries[at].sector,
    ensures
        lays_out(left_layout, left_dimensions, Ok::<MapSpace, X>(found.left_space)),
        lays_out(right_layout, right_dimensions, Ok::<MapSpace, X>(found.right_space)),
        holds_factor(
            found.left@,
            found.left_space.structure,
            geometries,
            FactorSide::Left,
            at,
            matrix(pairs[p].left_rows as int, pairs[p].kept as int, pairs[p].left@),
        ),
        holds_factor(
            found.right@,
            found.right_space.structure,
            geometries,
            FactorSide::Right,
            at,
            matrix(pairs[p].right_leading as int, cols, pairs[p].right@),
        ),
{
    let result = Ok::<FactorsOnSpaces<D>, DriveError<X>>(found);
    let left_answer = choose|answer: Result<MapSpace, X>|
        {
            &&& #[trigger] lays_out(left_layout, left_dimensions, answer)
            &&& match answer {
                Err(error) => result == Err::<FactorsOnSpaces<D>, DriveError<X>>(
                    DriveError::Layout(error),
                ),
                Ok(left_space) => match side_data(
                    left_space.structure,
                    geometries,
                    pairs,
                    left_dimensions,
                    FactorSide::Left,
                    publication,
                    zero,
                    one,
                ) {
                    Err(error) => result == Err::<FactorsOnSpaces<D>, DriveError<X>>(
                        DriveError::Operation(error),
                    ),
                    Ok(left) => right_published(
                        result,
                        left_space,
                        left,
                        right_layout,
                        geometries,
                        pairs,
                        right_dimensions,
                        publication,
                        zero,
                        one,
                    ),
                },
            }
        };
    let left_space = left_answer->Ok_0;
    let left = side_data(
        left_space.structure,
        geometries,
        pairs,
        left_dimensions,
        FactorSide::Left,
        publication,
        zero,
        one,
    )->Ok_0;
    let right_answer = choose|answer: Result<MapSpace, X>|
        {
            &&& #[trigger] lays_out(right_layout, right_dimensions, answer)
            &&& match answer {
                Err(error) => result == Err::<FactorsOnSpaces<D>, DriveError<X>>(
                    DriveError::Layout(error),
                ),
                Ok(right_space) => match side_data(
                    right_space.structure,
                    geometries,
                    pairs,
                    right_dimensions,
                    FactorSide::Right,
                    publication,
                    zero,
                    one,
                ) {
                    Err(error) => result == Err::<FactorsOnSpaces<D>, DriveError<X>>(
                        DriveError::Operation(error),
                    ),
                    Ok(right) => {
                        &&& result is Ok
                        &&& result->Ok_0.left_space == left_space
                        &&& result->Ok_0.left@ == left
                        &&& result->Ok_0.right_space == right_space
                        &&& result->Ok_0.right@ == right
                    },
                },
            }
        };
    lemma_published_holds(
        found.left@,
        found.left_space.structure,
        geometries,
        pairs,
        left_dimensions,
        FactorSide::Left,
        zero,
        one,
        at,
        p,
        pairs[p].kept as int,
    );
    lemma_published_holds(
        found.right@,
        found.right_space.structure,
        geometries,
        pairs,
        right_dimensions,
        FactorSide::Right,
        zero,
        one,
        at,
        p,
        cols,
    );
}

/// Both spaces hold, in this sector, factors that multiply to the sector's own
/// matrix.
pub open spec fn sector_multiplies<D>(
    ring: Ring<D>,
    found: FactorsOnSpaces<D>,
    input: InputMatricizations<'_, D>,
    k: int,
) -> bool {
    let source = sector_input(input, k)->Ok_0;
    &&& sector_input(input, k) is Ok
    &&& exists|l: Matrix<D>, r: Matrix<D>|
        {
            &&& #[trigger] ring.mul(l, r) == matrix(
                source.rows as int,
                source.cols as int,
                source.data,
            )
            &&& holds_factor(
                found.left@,
                found.left_space.structure,
                input_geometries(input),
                FactorSide::Left,
                k,
                l,
            )
            &&& holds_factor(
                found.right@,
                found.right_space.structure,
                input_geometries(input),
                FactorSide::Right,
                k,
                r,
            )
        }
}

/// The factors of a pair multiply to the matrix of sector `k`, to which it belongs.
pub open spec fn pair_multiplies<D>(
    ring: Ring<D>,
    pair: FactorPair<D>,
    input: InputMatricizations<'_, D>,
    k: int,
) -> bool {
    let source = sector_input(input, k)->Ok_0;
    &&& sector_input(input, k) is Ok
    &&& pair.sector == input_geometries(input)[k].sector
    &&& ring.mul(
        matrix(pair.left_rows as int, pair.kept as int, pair.left@),
        matrix(pair.right_leading as int, source.cols as int, pair.right@),
    ) == matrix(source.rows as int, source.cols as int, source.data)
}

/// There is a pair for every sector, and its factors multiply to the sector's own
/// matrix.
pub open spec fn pairs_multiply<D>(
    ring: Ring<D>,
    pairs: Seq<FactorPair<D>>,
    input: InputMatricizations<'_, D>,
) -> bool {
    &&& pairs.len() == input.spec_len()
    &&& forall|k: int|
        0 <= k < pairs.len() ==> pair_multiplies(ring, #[trigger] pairs[k], input, k)
}

/// Pairs that an exact backend gave multiply to the sectors.
pub(crate) proof fn lemma_found_pairs<
    D,
    F: Fn(&[D], usize, usize) -> Result<RouteFactors<D>, OperationError>,
>(
    ring: Ring<D>,
    pairs: Seq<FactorPair<D>>,
    input: InputMatricizations<'_, D>,
    factorize: F,
    bond: BondExtent,
)
    requires
        splits_exactly(ring, factorize, bond),
        pairs_found(pairs, input, factorize, bond),
    ensures
        pairs_multiply(ring, pairs, input),
{
    let stages = choose|stages: Seq<RouteFactors<D>>|
        {
            &&& #[trigger] factored_until(stages, None, input, factorize)
            &&& pairs.len() == stages.len()
        };
    assert(pairs.len() == input.spec_len());
    assert forall|k: int| 0 <= k < pairs.len() implies pair_multiplies(
        ring,
        #[trigger] pairs[k],
        input,
        k,
    ) by {
        lemma_pairs_multiply(ring, pairs, input, factorize, bond, k);
    }
}

/// Pairs that multiply to the sectors do so when they are published.
pub(crate) proof fn lemma_pairs_published<
    D,
    X,
    G: Fn(&SectorLeg) -> Result<MapSpace, X>,
    H: Fn(&SectorLeg) -> Result<MapSpace, X>,
>(
    ring: Ring<D>,
    found: FactorsOnSpaces<D>,
    input: InputMatricizations<'_, D>,
    pairs: Seq<FactorPair<D>>,
    dimensions: Seq<SectorRank>,
    left_layout: G,
    right_layout: H,
    one: D,
    k: int,
)
    requires
        pairs_multiply(ring, pairs, input),
        sides_published(
            Ok::<FactorsOnSpaces<D>, DriveError<X>>(found),
            left_layout,
            right_layout,
            input_geometries(input),
            pairs,
            dimensions,
            dimensions,
            Publication::Plain(FactorPlacement::Direct),
            ring.zero,
            one,
        ),
        is_output(found.left_space.structure, FactorSide::Left),
        is_output(found.right_space.structure, FactorSide::Right),
        is_source(input_geometries(input), FactorSide::Left),
        is_source(input_geometries(input), FactorSide::Right),
        0 <= k < input.spec_len(),
    ensures
        sector_multiplies(ring, found, input, k),
        lays_out(left_layout, dimensions, Ok::<MapSpace, X>(found.left_space)),
        lays_out(right_layout, dimensions, Ok::<MapSpace, X>(found.right_space)),
{
    let all = input_geometries(input);
    lemma_geometry_count(input);
    let pair = pairs[k];
    assert(pair_multiplies(ring, pairs[k], input, k));
    let source = sector_input(input, k)->Ok_0;
    assert forall|later: int| k < later < pairs.len() implies (#[trigger] pairs[later]).sector
        != all[k].sector by {
        assert(pair_multiplies(ring, pairs[later], input, later));
        assert(all[k].sector != all[later].sector);
    }
    lemma_both_sides_hold(
        found,
        left_layout,
        right_layout,
        all,
        pairs,
        dimensions,
        dimensions,
        Publication::Plain(FactorPlacement::Direct),
        ring.zero,
        one,
        k,
        k,
        source.cols as int,
    );
    let l = matrix(pair.left_rows as int, pair.kept as int, pair.left@);
    let r = matrix(pair.right_leading as int, source.cols as int, pair.right@);
    assert(ring.mul(l, r) == matrix(source.rows as int, source.cols as int, source.data));
}

/// The published compact factorization of a tensor multiplies to it in every
/// sector, on spaces over the bond of what the sectors keep.
pub proof fn lemma_published_factors_multiply<
    D,
    X,
    F: Fn(&[D], usize, usize) -> Result<RouteFactors<D>, OperationError>,
    G: Fn(&SectorLeg) -> Result<MapSpace, X>,
    H: Fn(&SectorLeg) -> Result<MapSpace, X>,
>(
    ring: Ring<D>,
    found: FactorsOnSpaces<D>,
    input: InputMatricizations<'_, D>,
    factorize: F,
    left_layout: G,
    right_layout: H,
    one: D,
    k: int,
)
    requires
        splits_exactly(ring, factorize, BondExtent::Compact),
        factors_published(
            Ok::<FactorsOnSpaces<D>, DriveError<X>>(found),
            input,
            factorize,
            left_layout,
            right_layout,
            ring.zero,
            one,
        ),
        is_output(found.left_space.structure, FactorSide::Left),
        is_output(found.right_space.structure, FactorSide::Right),
        is_source(input_geometries(input), FactorSide::Left),
        is_source(input_geometries(input), FactorSide::Right),
        0 <= k < input.spec_len(),
    ensures
        sector_multiplies(ring, found, input, k),
{
    let all = input_geometries(input);
    let pairs = choose|pairs: Seq<FactorPair<D>>|
        {
            &&& #[trigger] pairs_found(pairs, input, factorize, BondExtent::Compact)
            &&& sides_published(
                Ok::<FactorsOnSpaces<D>, DriveError<X>>(found),
                left_layout,
                right_layout,
                all,
                pairs,
                bond_of_pairs(pairs),
                bond_of_pairs(pairs),
                Publication::Plain(FactorPlacement::Direct),
                ring.zero,
                one,
            )
        };
    lemma_found_pairs(ring, pairs, input, factorize, BondExtent::Compact);
    lemma_pairs_published(
        ring,
        found,
        input,
        pairs,
        bond_of_pairs(pairs),
        left_layout,
        right_layout,
        one,
        k,
    );
}

/// The published full factorization of a tensor multiplies to it in every sector,
/// on spaces over the bond that was given for it.
pub proof fn lemma_published_full_factors_multiply<
    D,
    X,
    F: Fn(&[D], usize, usize) -> Result<RouteFactors<D>, OperationError>,
    B: Fn() -> Result<crate::bond::BondDimensions, X>,
    G: Fn(&SectorLeg) -> Result<MapSpace, X>,
    H: Fn(&SectorLeg) -> Result<MapSpace, X>,
>(
    ring: Ring<D>,
    found: FactorsOnSpaces<D>,
    input: InputMatricizations<'_, D>,
    factorize: F,
    bond: BondExtent,
    dimensions: B,
    left_layout: G,
    right_layout: H,
    one: D,
    k: int,
)
    requires
        splits_exactly(ring, factorize, bond),
        full_factors_published(
            Ok::<FactorsOnSpaces<D>, DriveError<X>>(found),
            input,
            factorize,
            bond,
            dimensions,
            left_layout,
            right_layout,
            ring.zero,
            one,
        ),
        is_output(found.left_space.structure, FactorSide::Left),
        is_output(found.right_space.structure, FactorSide::Right),
        is_source(input_geometries(input), FactorSide::Left),
        is_source(input_geometries(input), FactorSide::Right),
        0 <= k < input.spec_len(),
    ensures
        sector_multiplies(ring, found, input, k),
        exists|given: crate::bond::BondDimensions|
            {
                &&& #[trigger] call_ensures(
                    dimensions,
                    (),
                    Ok::<crate::bond::BondDimensions, X>(given),
                )
                &&& lays_out(left_layout, given@, Ok::<MapSpace, X>(found.left_space))
                &&& lays_out(right_layout, given@, Ok::<MapSpace, X>(found.right_space))
            },
{
    let all = input_geometries(input);
    let result = Ok::<FactorsOnSpaces<D>, DriveError<X>>(found);
    let pairs = choose|pairs: Seq<FactorPair<D>>|
        {
            &&& #[trigger] pairs_found(pairs, input, factorize, bond)
            &&& published_on_bond(
                result,
                all,
                pairs,
                dimensions,
                left_layout,
                right_layout,
                ring.zero,
                one,
            )
        };
    let answer = choose|answer: Result<crate::bond::BondDimensions, X>|
        {
            &&& #[trigger] call_ensures(dimensions, (), answer)
            &&& match answer {
                Err(error) => result == Err::<FactorsOnSpaces<D>, DriveError<X>>(
                    DriveError::Layout(error),
                ),
                Ok(given) => sides_published(
                    result,
                    left_layout,
                    right_layout,
                    all,
                    pairs,
                    given@,
                    given@,
                    Publication::Plain(FactorPlacement::Direct),
                    ring.zero,
                    one,
                ),
            }
        };
    let given = answer->Ok_0;
    assert(answer == Ok::<crate::bond::BondDimensions, X>(given));
    lemma_found_pairs(ring, pairs, input, factorize, bond);
    lemma_pairs_published(
        ring,
        found,
        input,
        pairs,
        given@,
        left_layout,
        right_layout,
        one,
        k,
    );
}

/// Rank and basis that the backend gives for a matrix: the basis is orthonormal,
/// and the matrix, or its adjoint on the right, has no component behind the rank.
pub open spec fn ranks_exactly<
    D,
    F: Fn(&[D], usize, usize) -> Result<RankedBasis<D>, OperationError>,
>(ring: Ring<D>, bases: F, side: FactorSide) -> bool {
    forall|x: &[D], rows: usize, cols: usize, ranked: RankedBasis<D>| #[trigger]
        call_ensures(bases, (x, rows, cols), Ok::<RankedBasis<D>, OperationError>(ranked)) ==> {
            let a = matrix(rows as int, cols as int, x@);
            let m = side_matrix(ring, a, side);
            &&& a.shaped()
            &&& ranked.rank <= m.rows
            &&& ranked.rank < m.rows ==> is_ranked(
                ring,
                m,
                matrix(m.rows, m.rows, ranked.basis@),
                ranked.rank as int,
            )
        }
}

/// The published null space of a tensor: in every sector whose rank is not full the
/// output holds a null space of the sector's own matrix, with one direction for
/// every dimension that the rank leaves.
pub proof fn lemma_published_null_space<
    D,
    X,
    C: Fn(D) -> D,
    F: Fn(&[D], usize, usize) -> Result<RankedBasis<D>, OperationError>,
    G: Fn(&SectorLeg) -> Result<MapSpace, X>,
>(
    ring: Ring<D>,
    found: NullSpace<D>,
    input: InputMatricizations<'_, D>,
    dimensions: Seq<SectorRank>,
    side: FactorSide,
    bases: F,
    conjugate: C,
    layout: G,
    checked: bool,
    one: D,
    k: int,
) -> (rank: usize)
    requires
        ring.is_ring(),
        conjugates_in(ring, conjugate),
        ranks_exactly(ring, bases, side),
        null_space_published(
            Ok::<NullSpace<D>, DriveError<X>>(found),
            input,
            dimensions,
            side,
            bases,
            conjugate,
            layout,
            checked,
            ring.zero,
            one,
        ),
        is_output(found.space.structure, side),
        is_source(input_geometries(input), side),
        0 <= k < input.spec_len(),
    ensures
        sector_input(input, k) is Ok,
        rank <= input_geometries(input)[k].side_extent(side),
        rank < input_geometries(input)[k].side_extent(side) ==> exists|n: NullPair<D>|
            {
                &&& #[trigger] is_null_space(
                    ring,
                    matrix(
                        sector_input(input, k)->Ok_0.rows as int,
                        sector_input(input, k)->Ok_0.cols as int,
                        sector_input(input, k)->Ok_0.data,
                    ),
                    side,
                    n,
                )
                &&& n.kept + rank == input_geometries(input)[k].side_extent(side)
                &&& holds_factor(
                    found.basis@,
                    found.space.structure,
                    input_geometries(input),
                    side,
                    k,
                    match side {
                        FactorSide::Left => matrix(n.left_rows as int, n.kept as int, n.left),
                        FactorSide::Right => matrix(
                            n.right_leading as int,
                            sector_input(input, k)->Ok_0.cols as int,
                            n.right,
                        ),
                    },
                )
            },
{
    let all = input_geometries(input);
    lemma_geometry_count(input);
    let result = Ok::<NullSpace<D>, DriveError<X>>(found);
    let (pairs, bond, answer) = choose|
        pairs: Seq<FactorPair<D>>,
        bond: Seq<SectorRank>,
        answer: Result<MapSpace, X>,
    |
        {
            &&& #[trigger] null_pairs_found(
                pairs,
                bond,
                input,
                dimensions,
                side,
                bases,
                conjugate,
            )
            &&& #[trigger] lays_out(layout, bond, answer)
            &&& match answer {
                Err(error) => result == Err::<NullSpace<D>, DriveError<X>>(
                    DriveError::Layout(error),
                ),
                Ok(space) => null_space_on(
                    result,
                    space,
                    all,
                    pairs,
                    bond,
                    side,
                    checked,
                    ring.zero,
                    one,
                ),
            }
        };
    let ranked = choose|ranked: Seq<RankedBasis<D>>|
        {
            &&& #[trigger] factored_until(ranked, None, input, bases)
            &&& null_pair_views(pairs) == null_pairs(
                all,
                ranked,
                side,
                conjugate,
                ranked.len() as int,
            )
            &&& bond == crate::null::null_bond(
                dimensions,
                all,
                ranked,
                side,
                ranked.len() as int,
            )
        };
    let source = sector_input(input, k)->Ok_0;
    assert(crate::dense_calls::factors_to(
        bases,
        source.data,
        source.rows,
        source.cols,
        Ok(ranked[k]),
    ));
    lemma_input_shape(input, k);
    let a = matrix(source.rows as int, source.cols as int, source.data);
    ring.adjoint_cells(a);
    let rank = ranked[k].rank;
    if rank < all[k].side_extent(side) {
        let n = null_pair(all[k], ranked[k], side, conjugate);
        lemma_null_pair_is_null_space(ring, a, all[k], ranked[k], side, conjugate);
        lemma_null_pairs_listed(all, ranked, side, conjugate, ranked.len() as int);
        let views = null_pair_views(pairs);
        assert(views.contains(n));
        let p = views.index_of(n);
        assert(views.len() == pairs.len());
        assert(views[p].sector == pairs[p].sector);
        assert(pairs[p].sector == all[k].sector);
        assert forall|later: int| p < later < pairs.len() implies (
        #[trigger] pairs[later]).sector != all[k].sector by {
            lemma_null_pairs_ascend(all, ranked, side, conjugate, ranked.len() as int, p, later);
            assert(views[later].sector == pairs[later].sector);
        }
        lemma_published_holds(
            found.basis@,
            found.space.structure,
            all,
            pairs,
            bond,
            side,
            ring.zero,
            one,
            k,
            p,
            match side {
                FactorSide::Left => n.kept as int,
                FactorSide::Right => source.cols as int,
            },
        );
        assert(is_null_space(ring, a, side, n));
    }
    rank
}

/// No two pairs of a null space have one sector.
proof fn lemma_null_pairs_ascend<D, C: Fn(D) -> D>(
    geometries: Seq<Geometry>,
    ranked: Seq<RankedBasis<D>>,
    side: FactorSide,
    conjugate: C,
    count: int,
    p: int,
    q: int,
)
    requires
        crate::geometry::sectors_distinct(geometries),
        0 <= count <= ranked.len(),
        ranked.len() == geometries.len(),
        0 <= p < q < null_pairs(geometries, ranked, side, conjugate, count).len(),
    ensures
        null_pairs(geometries, ranked, side, conjugate, count)[p].sector != null_pairs(
            geometries,
            ranked,
            side,
            conjugate,
            count,
        )[q].sector,
    decreases count,
{
    if count > 0 {
        let before = null_pairs(geometries, ranked, side, conjugate, count - 1);
        let after = null_pairs(geometries, ranked, side, conjugate, count);
        if q < before.len() {
            lemma_null_pairs_ascend(geometries, ranked, side, conjugate, count - 1, p, q);
        } else {
            lemma_null_pairs_listed(geometries, ranked, side, conjugate, count - 1);
            assert(after[p] == before[p]);
            assert(is_pair_of_some(before[p], geometries, ranked, side, conjugate, count - 1));
            let k = choose|k: int|
                {
                    &&& 0 <= k < count - 1
                    &&& (#[trigger] ranked[k]).rank != geometries[k].side_extent(side)
                    &&& before[p] == null_pair(geometries[k], ranked[k], side, conjugate)
                };
            assert(geometries[k].sector != geometries[count - 1].sector);
        }
    }
}

} // verus!
