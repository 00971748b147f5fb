//! Two factors whose labels are checked against the source, each side as soon as
//! it is laid out.

use vstd::prelude::*;

use crate::canonical::pair_ranks;
use crate::factor::FactorPair;
use crate::geometry::{geometries, sectors_distinct, Geometry, SectorGeometry};
use crate::keys::{
    first_refusal, staged_fusion_tree_keys, tree_labels, validate_generic_factor_keys,
};
use crate::layout::FactorSide;
use crate::pair::{
    pair_publication_fits, publish_validated_pair, published_pair, ranks_of,
};
use crate::sector::TreePair;
use crate::sides::{lays_out, plain_leg, takes_legs, DriveError, FactorsOnSpaces};
use crate::space::{MapSpace, SectorLeg};
use crate::structure::BlockStructure;

verus! {

/// The fusion-tree labels of a structure.
pub open spec fn own_labels(structure: BlockStructure) -> Seq<TreePair> {
    tree_labels(structure.spec_blocks(), structure.spec_blocks().len() as int)
}

/// Where the labels of the left space have their places in the source, both
/// spaces take the pairs.
pub open spec fn labelled_spaces_take<
    D,
    X,
    G: Fn(&SectorLeg) -> Result<MapSpace, X>,
    H: Fn(&SectorLeg) -> Result<MapSpace, X>,
>(left_layout: G, right_layout: H, geometries: Seq<Geometry>, pairs: Seq<FactorPair<D>>) -> bool {
    &&& forall|leg: &SectorLeg, left: MapSpace| #[trigger]
        call_ensures(left_layout, (leg,), Ok::<MapSpace, X>(left)) && leg@ == plain_leg(
            pair_ranks(pairs),
        ) ==> left.structure.wf()
    &&& forall|leg: &SectorLeg, left: MapSpace, right: MapSpace|
        {
            &&& #[trigger] call_ensures(left_layout, (leg,), Ok::<MapSpace, X>(left))
            &&& #[trigger] call_ensures(right_layout, (leg,), Ok::<MapSpace, X>(right))
            &&& leg@ == plain_leg(pair_ranks(pairs))
            &&& first_refusal(geometries, FactorSide::Left, own_labels(left.structure), 0) is None
        } ==> {
            &&& right.structure.wf()
            &&& pair_publication_fits(
                left.structure,
                own_labels(left.structure),
                right.structure,
                own_labels(right.structure),
                false,
                geometries,
                pairs,
            )
        }
}

/// What laying out the right factor and publishing both gives, once the labels
/// of the left one have their places in the source.
pub open spec fn right_labels_published<D, X, H: Fn(&SectorLeg) -> Result<MapSpace, X>>(
    result: Result<FactorsOnSpaces<D>, DriveError<X>>,
    left: MapSpace,
    right_layout: H,
    geometries: Seq<Geometry>,
    pairs: Seq<FactorPair<D>>,
    zero: D,
) -> bool {
    exists|answer: Result<MapSpace, X>|
        {
            &&& #[trigger] lays_out(right_layout, pair_ranks(pairs), answer)
            &&& match answer {
                Err(error) => result == Err::<FactorsOnSpaces<D>, DriveError<X>>(
                    DriveError::Layout(error),
                ),
                Ok(right) => match published_pair(
                    left.structure,
                    own_labels(left.structure),
                    right.structure,
                    own_labels(right.structure),
                    false,
                    geometries,
                    pairs,
                    zero,
                ) {
                    Err(error) => result == Err::<FactorsOnSpaces<D>, DriveError<X>>(
                        DriveError::Operation(error),
                    ),
                    Ok(data) => {
                        &&& result is Ok
                        &&& result->Ok_0.left_space == left
                        &&& result->Ok_0.left@ == data.left
                        &&& result->Ok_0.right_space == right
                        &&& result->Ok_0.right@ == data.right
                    },
                },
            }
        }
}

/// What laying out both factors on a leg of the pairs' ranks and publishing them
/// gives. The right one is asked for when the labels of the left one have their
/// places in the source, and nothing is published before both have.
pub open spec fn labels_published<
    D,
    X,
    G: Fn(&SectorLeg) -> Result<MapSpace, X>,
    H: Fn(&SectorLeg) -> Result<MapSpace, X>,
>(
    result: Result<FactorsOnSpaces<D>, DriveError<X>>,
    left_layout: G,
    right_layout: H,
    geometries: Seq<Geometry>,
    pairs: Seq<FactorPair<D>>,
    zero: D,
) -> bool {
    exists|answer: Result<MapSpace, X>|
        {
            &&& #[trigger] lays_out(left_layout, pair_ranks(pairs), answer)
            &&& match answer {
                Err(error) => result == Err::<FactorsOnSpaces<D>, DriveError<X>>(
                    DriveError::Layout(error),
                ),
                Ok(left) => match first_refusal(
                    geometries,
                    FactorSide::Left,
                    own_labels(left.structure),
                    0,
                ) {
                    Some(error) => result == Err::<FactorsOnSpaces<D>, DriveError<X>>(
                        DriveError::Operation(error),
                    ),
                    None => right_labels_published(
                        result,
                        left,
                        right_layout,
                        geometries,
                        pairs,
                        zero,
                    ),
                },
            }
        }
}

/// Lays out both factors on a leg of the pairs' ranks, the right one after the
/// labels of the left one were checked, and publishes them.
pub fn publish_labelled_pair<
    D: Copy,
    X,
    M: SectorGeometry,
    G: Fn(&SectorLeg) -> Result<MapSpace, X>,
    H: Fn(&SectorLeg) -> Result<MapSpace, X>,
>(
    matricizations: &[M],
    pairs: Vec<FactorPair<D>>,
    left_layout: &G,
    right_layout: &H,
    zero: D,
) -> (result: Result<FactorsOnSpaces<D>, DriveError<X>>)
    requires
        sectors_distinct(geometries(matricizations@)),
        takes_legs(left_layout),
        takes_legs(right_layout),
        labelled_spaces_take::<D, X, &G, &H>(
            left_layout,
            right_layout,
            geometries(matricizations@),
            pairs@,
        ),
    ensures
        labels_published(
            result,
            left_layout,
            right_layout,
            geometries(matricizations@),
            pairs@,
            zero,
        ),
{
    let leg = SectorLeg::new(ranks_of(pairs.as_slice()));
    let ghost bond = pair_ranks(pairs@);
    let ranks = ranks_of(pairs.as_slice());
    let answer = left_layout(&leg);
    proof {
        assert(call_ensures(left_layout, (&leg,), answer));
        assert(lays_out(left_layout, bond, answer));
    }
    let left_space = match answer {
        Ok(space) => space,
        Err(error) => {
            return Err(DriveError::Layout(error));
        },
    };
    assert(call_ensures(left_layout, (&leg,), Ok::<MapSpace, X>(left_space)));
    let left_keys = staged_fusion_tree_keys(&left_space.structure);
    let left_ordered = match validate_generic_factor_keys(
        left_keys.as_slice(),
        FactorSide::Left,
        matricizations,
        Some(ranks.as_slice()),
    ) {
        Ok(ordered) => ordered,
        Err(error) => {
            return Err(DriveError::Operation(error));
        },
    };
    let answer = right_layout(&leg);
    proof {
        assert(call_ensures(right_layout, (&leg,), answer));
        assert(lays_out(right_layout, bond, answer));
    }
    let right_space = match answer {
        Ok(space) => space,
        Err(error) => {
            return Err(DriveError::Layout(error));
        },
    };
    assert(call_ensures(right_layout, (&leg,), Ok::<MapSpace, X>(right_space)));
    let right_keys = staged_fusion_tree_keys(&right_space.structure);
    let right_ordered = match validate_generic_factor_keys(
        right_keys.as_slice(),
        FactorSide::Right,
        matricizations,
        Some(ranks.as_slice()),
    ) {
        Ok(ordered) => ordered,
        Err(error) => {
            return Err(DriveError::Operation(error));
        },
    };
    match publish_validated_pair(
        &left_space.structure,
        left_keys.as_slice(),
        left_ordered,
        &right_space.structure,
        right_keys.as_slice(),
        right_ordered,
        false,
        matricizations,
        pairs,
        zero,
    ) {
        Ok((left, right)) => Ok(FactorsOnSpaces { left_space, left, right_space, right }),
        Err(error) => Err(DriveError::Operation(error)),
    }
}

} // verus!
