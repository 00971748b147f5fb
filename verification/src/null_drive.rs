//! Null spaces from the sector matrices to their published basis.

use vstd::prelude::*;

use crate::bond::BondDimensions;
use crate::compact_drive::{input_geometries, lemma_found_shape, sector_failed};
use crate::dense_calls::takes_matrices;
use crate::error::OperationError;
use crate::factor::{FactorPair, SectorRank};
use crate::full::checked_data;
use crate::geometry::{geometries, sectors_distinct, Geometry, SectorGeometry};
use crate::input::InputMatricizations;
use crate::layout::FactorSide;
use crate::null::{
    basis_fits, null_bond, null_pair_views, null_pairs, null_space_pairs, RankedBasis,
};
use crate::publish::{
    build_bound_factor, build_bound_factor_generic_checked, has_stray_pair, lacks_some_placement,
    published_data, reads_fit, scope,
};
use crate::sides::{bond_leg, lays_out, plain_leg, takes_legs, DriveError};
use crate::space::{MapSpace, SectorLeg};
use crate::spectrum::is_function;
use crate::stages::{factored_until, input_holds, sector_stages};

verus! {

/// The basis of a null space, with the space of the factor that holds it.
#[derive(Clone, Debug, PartialEq, Eq)]
pub struct NullSpace<D> {
    pub space: MapSpace,
    pub basis: Vec<D>,
}

/// The backend takes any matrix, and gives a rank of no more than the side's
/// extent, with a square basis where it is less.
pub open spec fn is_ranker<
    D,
    F: Fn(&[D], usize, usize) -> Result<RankedBasis<D>, OperationError>,
>(bases: F, side: FactorSide) -> bool {
    &&& takes_matrices(bases)
    &&& forall|x: &[D], rows: usize, cols: usize, ranked: RankedBasis<D>| #[trigger]
        call_ensures(bases, (x, rows, cols), Ok::<RankedBasis<D>, OperationError>(ranked)) ==> {
            let extent = match side {
                FactorSide::Left => rows,
                FactorSide::Right => cols,
            };
            &&& ranked.rank <= extent
            &&& ranked.rank < extent ==> ranked.basis@.len() == extent * extent
        }
}

/// The pairs of a null space, from bases that the backend gave for each sector's
/// own matrix.
pub open spec fn null_pairs_found<
    D,
    C: Fn(D) -> D,
    F: Fn(&[D], usize, usize) -> Result<RankedBasis<D>, OperationError>,
>(
    pairs: Seq<FactorPair<D>>,
    bond: Seq<SectorRank>,
    input: InputMatricizations<'_, D>,
    dimensions: Seq<SectorRank>,
    side: FactorSide,
    bases: F,
    conjugate: C,
) -> bool {
    exists|ranked: Seq<RankedBasis<D>>|
        {
            let all = input_geometries(input);
            &&& #[trigger] factored_until(ranked, None, input, bases)
            &&& null_pair_views(pairs) == null_pairs(
                all,
                ranked,
                side,
                conjugate,
                ranked.len() as int,
            )
            &&& bond == null_bond(dimensions, all, ranked, side, ranked.len() as int)
        }
}

/// Any bond can be asked for, and on the bond of a null space that may be found
/// the space takes its pairs; where trees are looked up first, one of them may be
/// missing instead.
pub open spec fn is_null_layout<
    D,
    X,
    C: Fn(D) -> D,
    F: Fn(&[D], usize, usize) -> Result<RankedBasis<D>, OperationError>,
    G: Fn(&SectorLeg) -> Result<MapSpace, X>,
>(
    layout: G,
    input: InputMatricizations<'_, D>,
    dimensions: Seq<SectorRank>,
    side: FactorSide,
    bases: F,
    conjugate: C,
    checked: bool,
) -> bool {
    let all = input_geometries(input);
    &&& takes_legs(layout)
    &&& forall|
        leg: &SectorLeg,
        space: MapSpace,
        bond: Seq<SectorRank>,
        pairs: Seq<FactorPair<D>>,
    |
        {
            &&& #[trigger] call_ensures(layout, (leg,), Ok::<MapSpace, X>(space))
            &&& leg@ == plain_leg(bond)
            &&& #[trigger] null_pairs_found(
                pairs,
                bond,
                input,
                dimensions,
                side,
                bases,
                conjugate,
            )
        } ==> {
            &&& space.structure.wf()
            &&& {
                ||| if checked {
                    lacks_some_placement(space.structure, all, side)
                } else {
                    has_stray_pair(all, pairs)
                }
                ||| reads_fit(space.structure.spec_blocks(), all, pairs, bond, side, side)
            }
        }
}

/// What publishing the pairs of a null space in this space gives.
pub open spec fn null_space_on<D, X>(
    result: Result<NullSpace<D>, DriveError<X>>,
    space: MapSpace,
    geometries: Seq<Geometry>,
    pairs: Seq<FactorPair<D>>,
    bond: Seq<SectorRank>,
    side: FactorSide,
    checked: bool,
    zero: D,
    one: D,
) -> bool {
    let published: Result<Seq<D>, OperationError> = if checked {
        checked_data(space.structure, geometries, pairs, bond, side, zero, one)
    } else if has_stray_pair(geometries, pairs) {
        Err(scope("factor sector absent from the source tensor"))
    } else {
        published_data(space.structure, geometries, pairs, bond, side, side, zero, one)
    };
    match (result, published) {
        (Ok(found), Ok(elements)) => found.space == space && found.basis@ == elements,
        (Err(DriveError::Operation(error)), Err(expected)) => error == expected,
        _ => false,
    }
}

/// The null space of all sectors: the first failure of the backend, or what is
/// left of bases that it gave for each sector's own matrix, published in a space
/// that was given for the bond of what is left of the dimensions.
pub open spec fn null_space_published<
    D,
    X,
    C: Fn(D) -> D,
    F: Fn(&[D], usize, usize) -> Result<RankedBasis<D>, OperationError>,
    G: Fn(&SectorLeg) -> Result<MapSpace, X>,
>(
    result: Result<NullSpace<D>, DriveError<X>>,
    input: InputMatricizations<'_, D>,
    dimensions: Seq<SectorRank>,
    side: FactorSide,
    bases: F,
    conjugate: C,
    layout: G,
    checked: bool,
    zero: D,
    one: D,
) -> bool {
    ||| exists|error: OperationError|
        {
            &&& #[trigger] sector_failed::<D, RankedBasis<D>, F>(error, input, bases)
            &&& result == Err::<NullSpace<D>, DriveError<X>>(DriveError::Operation(error))
        }
    ||| exists|
        pairs: Seq<FactorPair<D>>,
        bond: Seq<SectorRank>,
        answer: Result<MapSpace, X>,
    |
        {
            &&& #[trigger] null_pairs_found(
                pairs,
                bond,
                input,
                dimensions,
                side,
                bases,
                conjugate,
            )
            &&& #[trigger] lays_out(layout, bond, answer)
            &&& match answer {
                Err(error) => result == Err::<NullSpace<D>, DriveError<X>>(
                    DriveError::Layout(error),
                ),
                Ok(space) => null_space_on(
                    result,
                    space,
                    input_geometries(input),
                    pairs,
                    bond,
                    side,
                    checked,
                    zero,
                    one,
                ),
            }
        }
}

/// Publishes the pairs of a null space in its space.
fn publish_null_space<D: Copy, X, M: SectorGeometry>(
    matricizations: &[M],
    space: MapSpace,
    pairs: Vec<FactorPair<D>>,
    bond: &BondDimensions,
    side: FactorSide,
    checked: bool,
    zero: D,
    one: D,
) -> (result: Result<NullSpace<D>, DriveError<X>>)
    requires
        space.structure.wf(),
        sectors_distinct(geometries(matricizations@)),
        ({
            ||| if checked {
                lacks_some_placement(space.structure, geometries(matricizations@), side)
            } else {
                has_stray_pair(geometries(matricizations@), pairs@)
            }
            ||| reads_fit(
                space.structure.spec_blocks(),
                geometries(matricizations@),
                pairs@,
                bond@,
                side,
                side,
            )
        }),
    ensures
        null_space_on(
            result,
            space,
            geometries(matricizations@),
            pairs@,
            bond@,
            side,
            checked,
            zero,
            one,
        ),
{
    let mut pairs = pairs;
    let data = if checked {
        build_bound_factor_generic_checked(
            &space.structure,
            matricizations,
            &mut pairs,
            bond,
            side,
            zero,
            one,
        )
    } else {
        build_bound_factor(&space.structure, matricizations, &mut pairs, bond, side, zero, one)
    };
    match data {
        Ok(basis) => Ok(NullSpace { space, basis }),
        Err(error) => Err(DriveError::Operation(error)),
    }
}

/// The left or right null space of all sectors: every matrix is given to the
/// backend, the bond of what is left behind the ranks is laid out, and the rest
/// of the bases is published there. With `checked` every tree of a sector of the
/// source is looked up before anything is published.
pub fn null_space_by_sector<
    D: Copy,
    X,
    C: Fn(D) -> D,
    F: Fn(&[D], usize, usize) -> Result<RankedBasis<D>, OperationError>,
    G: Fn(&SectorLeg) -> Result<MapSpace, X>,
>(
    input: &InputMatricizations<'_, D>,
    dimensions: BondDimensions,
    side: FactorSide,
    bases: &F,
    conjugate: &C,
    layout: &G,
    checked: bool,
    zero: D,
    one: D,
) -> (result: Result<NullSpace<D>, DriveError<X>>)
    requires
        input_holds(*input),
        sectors_distinct(input_geometries(*input)),
        dimensions.wf(),
        is_function(conjugate),
        is_ranker(bases, side),
        is_null_layout::<D, X, &C, &F, &G>(
            layout,
            *input,
            dimensions@,
            side,
            bases,
            conjugate,
            checked,
        ),
    ensures
        null_space_published(
            result,
            *input,
            dimensions@,
            side,
            bases,
            conjugate,
            layout,
            checked,
            zero,
            one,
        ),
{
    let ghost all = input_geometries(*input);
    let ghost whole = dimensions@;
    let ranked = match sector_stages(input, bases) {
        Ok(ranked) => ranked,
        Err(error) => {
            assert(sector_failed::<D, RankedBasis<D>, &F>(error, *input, bases));
            return Err(DriveError::Operation(error));
        },
    };
    proof {
        assert(factored_until(ranked@, None, *input, bases));
        assert forall|k: int| 0 <= k < ranked@.len() implies basis_fits(
            all[k],
            side,
            #[trigger] ranked@[k],
        ) by {
            let matrix = lemma_found_shape(ranked@, None, *input, bases, k);
        }
    }
    let (pairs, bond) = match input {
        InputMatricizations::Regions { regions, .. } => null_space_pairs(
            regions.as_slice(),
            ranked.as_slice(),
            dimensions,
            side,
            conjugate,
        ),
        InputMatricizations::Packed(matrices) => null_space_pairs(
            matrices.as_slice(),
            ranked.as_slice(),
            dimensions,
            side,
            conjugate,
        ),
    };
    let ghost found = pairs@;
    assert(null_pairs_found(found, bond@, *input, whole, side, bases, conjugate));
    let leg = bond_leg(&bond);
    let answer = layout(&leg);
    proof {
        assert(call_ensures(layout, (&leg,), answer));
        assert(lays_out(layout, bond@, answer));
    }
    let space = match answer {
        Ok(space) => space,
        Err(error) => {
            return Err(DriveError::Layout(error));
        },
    };
    assert(call_ensures(layout, (&leg,), Ok::<MapSpace, X>(space)));
    match input {
        InputMatricizations::Regions { regions, .. } => publish_null_space(
            regions.as_slice(),
            space,
            pairs,
            &bond,
            side,
            checked,
            zero,
            one,
        ),
        InputMatricizations::Packed(matrices) => publish_null_space(
            matrices.as_slice(),
            space,
            pairs,
            &bond,
            side,
            checked,
            zero,
            one,
        ),
    }
}

} // verus!
