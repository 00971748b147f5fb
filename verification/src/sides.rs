//! Two factors that are laid out and published one after the other: nothing is
//! asked about the right one before the left one is accepted.

use vstd::prelude::*;

use crate::bond::BondDimensions;
use crate::error::OperationError;
use crate::factor::{source_side, FactorPair, FactorPlacement, SectorRank};
use crate::geometry::{geometries, sectors_distinct, Geometry, SectorGeometry};
use crate::layout::FactorSide;
use crate::publish::{
    agree_on_side, build_bound_factor_generic_checked, build_bound_factor_with_placement,
    has_stray_pair, lacks_some_placement, lemma_other_side_unmoved, published_data, reads_fit,
};
use crate::placement::missing_tree;
use crate::space::{Leg, MapSpace, SectorLeg};
use crate::structure::BlockStructure;

verus! {

/// Why a factorization failed whose outputs are laid out on the way: in its own
/// work, or because no layout was given.
#[derive(Clone, Debug, PartialEq, Eq)]
pub enum DriveError<X> {
    Operation(OperationError),
    Layout(X),
}

/// Two factors with the spaces they were published in.
#[derive(Clone, Debug, PartialEq, Eq)]
pub struct FactorsOnSpaces<D> {
    pub left_space: MapSpace,
    pub left: Vec<D>,
    pub right_space: MapSpace,
    pub right: Vec<D>,
}

/// A leg of these sectors that is not dual.
pub open spec fn plain_leg(sectors: Seq<SectorRank>) -> Leg {
    Leg { sectors, is_dual: false }
}

/// The space of a factor on a leg of these sectors may be given in this way.
pub open spec fn lays_out<X, G: Fn(&SectorLeg) -> Result<MapSpace, X>>(
    layout: G,
    bond: Seq<SectorRank>,
    answer: Result<MapSpace, X>,
) -> bool {
    exists|leg: &SectorLeg|
        leg@ == plain_leg(bond) && #[trigger] call_ensures(layout, (leg,), answer)
}

/// Any leg can be asked for.
pub open spec fn takes_legs<X, G: Fn(&SectorLeg) -> Result<MapSpace, X>>(layout: G) -> bool {
    forall|leg: &SectorLeg| #[trigger] call_requires(layout, (leg,))
}

/// A leg of these dimensions.
pub fn bond_leg(dimensions: &BondDimensions) -> (leg: SectorLeg)
    ensures
        leg@ == plain_leg(dimensions@),
{
    let mut sectors: Vec<SectorRank> = Vec::with_capacity(dimensions.len());
    let mut k: usize = 0;
    while k < dimensions.len()
        invariant
            k <= dimensions@.len(),
            sectors@ == dimensions@.take(k as int),
        decreases dimensions@.len() - k,
    {
        sectors.push(dimensions.rank(k));
        assert(sectors@ =~= dimensions@.take(k + 1));
        k += 1;
    }
    assert(dimensions@.take(dimensions@.len() as int) =~= dimensions@);
    SectorLeg::new(sectors)
}

/// How two factors are published: where the pairs' factors come from, and
/// whether every tree of a sector of the source is looked up first.
#[derive(Clone, Copy, Debug, PartialEq, Eq, Structural)]
pub enum Publication {
    Plain(FactorPlacement),
    LookedUp,
}

impl Publication {
    /// The trees of the source that label a side of the outputs.
    pub open spec fn trees(self, side: FactorSide) -> FactorSide {
        match self {
            Publication::Plain(placement) => source_side(side, placement),
            Publication::LookedUp => side,
        }
    }
}

/// The data of one factor, or its refusal.
pub open spec fn side_data<D>(
    structure: BlockStructure,
    geometries: Seq<Geometry>,
    pairs: Seq<FactorPair<D>>,
    dimensions: Seq<SectorRank>,
    side: FactorSide,
    publication: Publication,
    zero: D,
    one: D,
) -> Result<Seq<D>, OperationError> {
    if publication == Publication::LookedUp && lacks_some_placement(structure, geometries, side) {
        Err(missing_tree(side))
    } else {
        published_data(
            structure,
            geometries,
            pairs,
            dimensions,
            side,
            publication.trees(side),
            zero,
            one,
        )
    }
}

/// One factor is filled from inside the pairs, unless a tree is missing where
/// trees are looked up first.
pub open spec fn side_fits<D>(
    structure: BlockStructure,
    geometries: Seq<Geometry>,
    pairs: Seq<FactorPair<D>>,
    dimensions: Seq<SectorRank>,
    side: FactorSide,
    publication: Publication,
) -> bool {
    (publication == Publication::LookedUp && lacks_some_placement(structure, geometries, side))
        || reads_fit(
        structure.spec_blocks(),
        geometries,
        pairs,
        dimensions,
        side,
        publication.trees(side),
    )
}

/// The left space takes the left factors, and where it accepts them the right
/// space takes the right ones.
pub open spec fn spaces_take<
    D,
    X,
    G: Fn(&SectorLeg) -> Result<MapSpace, X>,
    H: Fn(&SectorLeg) -> Result<MapSpace, X>,
>(
    left_layout: G,
    right_layout: H,
    geometries: Seq<Geometry>,
    pairs: Seq<FactorPair<D>>,
    left_dimensions: Seq<SectorRank>,
    right_dimensions: Seq<SectorRank>,
    publication: Publication,
    zero: D,
    one: D,
) -> bool {
    &&& forall|leg: &SectorLeg, left: MapSpace| #[trigger]
        call_ensures(left_layout, (leg,), Ok::<MapSpace, X>(left)) && leg@ == plain_leg(
            left_dimensions,
        ) ==> {
            &&& left.structure.wf()
            &&& side_fits(
                left.structure,
                geometries,
                pairs,
                left_dimensions,
                FactorSide::Left,
                publication,
            )
        }
    &&& forall|left_leg: &SectorLeg, right_leg: &SectorLeg, left: MapSpace, right: MapSpace|
        {
            &&& #[trigger] call_ensures(left_layout, (left_leg,), Ok::<MapSpace, X>(left))
            &&& #[trigger] call_ensures(right_layout, (right_leg,), Ok::<MapSpace, X>(right))
            &&& left_leg@ == plain_leg(left_dimensions)
            &&& right_leg@ == plain_leg(right_dimensions)
            &&& side_data(
                left.structure,
                geometries,
                pairs,
                left_dimensions,
                FactorSide::Left,
                publication,
                zero,
                one,
            ) is Ok
        } ==> {
            &&& right.structure.wf()
            &&& side_fits(
                right.structure,
                geometries,
                pairs,
                right_dimensions,
                FactorSide::Right,
                publication,
            )
        }
}

/// What publishing the right factors on a space that was given for their bond
/// gives, once the left ones are published.
pub open spec fn right_published<D, X, H: Fn(&SectorLeg) -> Result<MapSpace, X>>(
    result: Result<FactorsOnSpaces<D>, DriveError<X>>,
    left_space: MapSpace,
    left: Seq<D>,
    right_layout: H,
    geometries: Seq<Geometry>,
    pairs: Seq<FactorPair<D>>,
    dimensions: Seq<SectorRank>,
    publication: Publication,
    zero: D,
    one: D,
) -> bool {
    exists|answer: Result<MapSpace, X>|
        {
            &&& #[trigger] lays_out(right_layout, dimensions, answer)
            &&& match answer {
                Err(error) => result == Err::<FactorsOnSpaces<D>, DriveError<X>>(
                    DriveError::Layout(error),
                ),
                Ok(right_space) => match side_data(
                    right_space.structure,
                    geometries,
                    pairs,
                    dimensions,
                    FactorSide::Right,
                    publication,
                    zero,
                    one,
                ) {
                    Err(error) => result == Err::<FactorsOnSpaces<D>, DriveError<X>>(
                        DriveError::Operation(error),
                    ),
                    Ok(right) => {
                        &&& result is Ok
                        &&& result->Ok_0.left_space == left_space
                        &&& result->Ok_0.left@ == left
                        &&& result->Ok_0.right_space == right_space
                        &&& result->Ok_0.right@ == right
                    },
                },
            }
        }
}

/// What publishing both factors gives, each on a space that was given for its
/// bond. The space of the right one is asked for when the left one is accepted.
pub open spec fn sides_published<
    D,
    X,
    G: Fn(&SectorLeg) -> Result<MapSpace, X>,
    H: Fn(&SectorLeg) -> Result<MapSpace, X>,
>(
    result: Result<FactorsOnSpaces<D>, DriveError<X>>,
    left_layout: G,
    right_layout: H,
    geometries: Seq<Geometry>,
    pairs: Seq<FactorPair<D>>,
    left_dimensions: Seq<SectorRank>,
    right_dimensions: Seq<SectorRank>,
    publication: Publication,
    zero: D,
    one: D,
) -> bool {
    exists|answer: Result<MapSpace, X>|
        {
            &&& #[trigger] lays_out(left_layout, left_dimensions, answer)
            &&& match answer {
                Err(error) => result == Err::<FactorsOnSpaces<D>, DriveError<X>>(
                    DriveError::Layout(error),
                ),
                Ok(left_space) => match side_data(
                    left_space.structure,
                    geometries,
                    pairs,
                    left_dimensions,
                    FactorSide::Left,
                    publication,
                    zero,
                    one,
                ) {
                    Err(error) => result == Err::<FactorsOnSpaces<D>, DriveError<X>>(
                        DriveError::Operation(error),
                    ),
                    Ok(left) => right_published(
                        result,
                        left_space,
                        left,
                        right_layout,
                        geometries,
                        pairs,
                        right_dimensions,
                        publication,
                        zero,
                        one,
                    ),
                },
            }
        }
}

/// Publishes one side of the pairs; the other side stays as it is.
fn publish_side<D: Copy, M: SectorGeometry>(
    structure: &BlockStructure,
    matricizations: &[M],
    pairs: &mut Vec<FactorPair<D>>,
    dimensions: &BondDimensions,
    side: FactorSide,
    publication: Publication,
    zero: D,
    one: D,
) -> (result: Result<Vec<D>, OperationError>)
    requires
        structure.wf(),
        sectors_distinct(geometries(matricizations@)),
        !has_stray_pair(geometries(matricizations@), old(pairs)@),
        side_fits(
            *structure,
            geometries(matricizations@),
            old(pairs)@,
            dimensions@,
            side,
            publication,
        ),
    ensures
        crate::publish::data_is(
            result,
            side_data(
                *structure,
                geometries(matricizations@),
                old(pairs)@,
                dimensions@,
                side,
                publication,
                zero,
                one,
            ),
        ),
        side == FactorSide::Left ==> agree_on_side(old(pairs)@, final(pairs)@, FactorSide::Right),
{
    match publication {
        Publication::Plain(placement) => build_bound_factor_with_placement(
            structure,
            matricizations,
            pairs,
            dimensions,
            side,
            placement,
            zero,
            one,
        ),
        Publication::LookedUp => build_bound_factor_generic_checked(
            structure,
            matricizations,
            pairs,
            dimensions,
            side,
            zero,
            one,
        ),
    }
}

/// Publishes both factors of all pairs, each on a space that is asked for when
/// its turn comes.
pub(crate) fn publish_sides<
    D: Copy,
    X,
    M: SectorGeometry,
    G: Fn(&SectorLeg) -> Result<MapSpace, X>,
    H: Fn(&SectorLeg) -> Result<MapSpace, X>,
>(
    matricizations: &[M],
    pairs: Vec<FactorPair<D>>,
    left_dimensions: &BondDimensions,
    right_dimensions: &BondDimensions,
    publication: Publication,
    left_layout: &G,
    right_layout: &H,
    zero: D,
    one: D,
) -> (result: Result<FactorsOnSpaces<D>, DriveError<X>>)
    requires
        sectors_distinct(geometries(matricizations@)),
        !has_stray_pair(geometries(matricizations@), pairs@),
        takes_legs(left_layout),
        takes_legs(right_layout),
        spaces_take::<D, X, &G, &H>(
            left_layout,
            right_layout,
            geometries(matricizations@),
            pairs@,
            left_dimensions@,
            right_dimensions@,
            publication,
            zero,
            one,
        ),
    ensures
        sides_published(
            result,
            left_layout,
            right_layout,
            geometries(matricizations@),
            pairs@,
            left_dimensions@,
            right_dimensions@,
            publication,
            zero,
            one,
        ),
        match result {
            Ok(factors) => {
                &&& lays_out(left_layout, left_dimensions@, Ok(factors.left_space))
                &&& side_data(
                    factors.left_space.structure,
                    geometries(matricizations@),
                    pairs@,
                    left_dimensions@,
                    FactorSide::Left,
                    publication,
                    zero,
                    one,
                ) is Ok
                &&& lays_out(right_layout, right_dimensions@, Ok(factors.right_space))
                &&& side_data(
                    factors.right_space.structure,
                    geometries(matricizations@),
                    pairs@,
                    right_dimensions@,
                    FactorSide::Right,
                    publication,
                    zero,
                    one,
                ) is Ok
            },
            Err(_) => true,
        },
{
    let ghost all = geometries(matricizations@);
    let ghost given = pairs@;
    let mut pairs = pairs;
    let left_leg = bond_leg(left_dimensions);
    let answer = left_layout(&left_leg);
    proof {
        assert(call_ensures(left_layout, (&left_leg,), answer));
        assert(lays_out(left_layout, left_dimensions@, answer));
    }
    let left_space = match answer {
        Ok(space) => space,
        Err(error) => {
            return Err(DriveError::Layout(error));
        },
    };
    assert(call_ensures(left_layout, (&left_leg,), Ok::<MapSpace, X>(left_space)));
    let left = match publish_side(
        &left_space.structure,
        matricizations,
        &mut pairs,
        left_dimensions,
        FactorSide::Left,
        publication,
        zero,
        one,
    ) {
        Ok(left) => left,
        Err(error) => {
            return Err(DriveError::Operation(error));
        },
    };
    let right_leg = bond_leg(right_dimensions);
    let answer = right_layout(&right_leg);
    proof {
        assert(call_ensures(right_layout, (&right_leg,), answer));
        assert(lays_out(right_layout, right_dimensions@, answer));
    }
    let right_space = match answer {
        Ok(space) => space,
        Err(error) => {
            return Err(DriveError::Layout(error));
        },
    };
    assert(call_ensures(right_layout, (&right_leg,), Ok::<MapSpace, X>(right_space)));
    proof {
        lemma_other_side_unmoved(
            right_space.structure,
            all,
            given,
            pairs@,
            right_dimensions@,
            FactorSide::Right,
            publication.trees(FactorSide::Right),
            zero,
            one,
        );
    }
    match publish_side(
        &right_space.structure,
        matricizations,
        &mut pairs,
        right_dimensions,
        FactorSide::Right,
        publication,
        zero,
        one,
    ) {
        Ok(right) => Ok(FactorsOnSpaces { left_space, left, right_space, right }),
        Err(error) => Err(DriveError::Operation(error)),
    }
}

} // verus!
