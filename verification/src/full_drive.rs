//! Full factorizations from the sector matrices to the published factors.

use vstd::prelude::*;

use crate::bond::BondDimensions;
use crate::compact_drive::{
    input_geometries, is_factorizer, lemma_found_shape, pairs_found, sector_failed, sector_pairs,
};
use crate::dense_calls::takes_matrices;
use crate::direct::RouteFactors;
use crate::error::OperationError;
use crate::factor::{FactorPair, FactorPlacement, SectorRank};
use crate::full::{
    bond_blocks_hold, full_pairs, full_spectra, full_stage_pairs, two_sided_result, FullSvdStage,
};
use crate::geometry::{sectors_distinct, Geometry};
use crate::input::InputMatricizations;
use crate::layout::FactorSide;
use crate::publish::{has_stray_pair, zeros};
use crate::shapes::{are_sized_pairs, is_sized_pair, lemma_sized_pairs_belong, FactorShape};
use crate::sides::{
    bond_leg, lays_out, plain_leg, publish_sides, side_data, sides_published, spaces_take,
    takes_legs, DriveError, FactorsOnSpaces, Publication,
};
use crate::space::{MapSpace, SectorLeg};
use crate::spectrum::{
    block_diagonals, is_function, rectangular_diagonal_data, SectorSpectrum,
};
use crate::stages::{factored_until, input_holds, sector_stages, BondExtent};
use crate::structure::BlockStructure;
use crate::writes::apply_writes;

verus! {

/// On a bond that may be given, the spaces take the factors of all sectors,
/// whatever their elements.
pub open spec fn full_spaces_take<
    D,
    X,
    B: Fn() -> Result<BondDimensions, X>,
    G: Fn(&SectorLeg) -> Result<MapSpace, X>,
    H: Fn(&SectorLeg) -> Result<MapSpace, X>,
>(
    dimensions: B,
    left_layout: G,
    right_layout: H,
    geometries: Seq<Geometry>,
    bond: BondExtent,
    zero: D,
    one: D,
) -> bool {
    &&& call_requires(dimensions, ())
    &&& forall|given: BondDimensions, pairs: Seq<FactorPair<D>>|
        {
            &&& call_ensures(dimensions, (), Ok::<BondDimensions, X>(given))
            &&& are_sized_pairs(pairs, geometries, FactorShape::Bond(bond))
        } ==> #[trigger] spaces_take(
            left_layout,
            right_layout,
            geometries,
            pairs,
            given@,
            given@,
            Publication::Plain(FactorPlacement::Direct),
            zero,
            one,
        )
}

/// What asking for a bond and publishing the pairs on it gives.
pub open spec fn published_on_bond<
    D,
    X,
    B: Fn() -> Result<BondDimensions, X>,
    G: Fn(&SectorLeg) -> Result<MapSpace, X>,
    H: Fn(&SectorLeg) -> Result<MapSpace, X>,
>(
    result: Result<FactorsOnSpaces<D>, DriveError<X>>,
    geometries: Seq<Geometry>,
    pairs: Seq<FactorPair<D>>,
    dimensions: B,
    left_layout: G,
    right_layout: H,
    zero: D,
    one: D,
) -> bool {
    exists|answer: Result<BondDimensions, X>|
        {
            &&& #[trigger] call_ensures(dimensions, (), answer)
            &&& match answer {
                Err(error) => result == Err::<FactorsOnSpaces<D>, DriveError<X>>(
                    DriveError::Layout(error),
                ),
                Ok(given) => sides_published(
                    result,
                    left_layout,
                    right_layout,
                    geometries,
                    pairs,
                    given@,
                    given@,
                    Publication::Plain(FactorPlacement::Direct),
                    zero,
                    one,
                ),
            }
        }
}

/// Asks for a bond, and publishes the pairs on it.
pub(crate) fn publish_on_bond<
    D: Copy,
    X,
    B: Fn() -> Result<BondDimensions, X>,
    G: Fn(&SectorLeg) -> Result<MapSpace, X>,
    H: Fn(&SectorLeg) -> Result<MapSpace, X>,
>(
    input: &InputMatricizations<'_, D>,
    pairs: Vec<FactorPair<D>>,
    bond: BondExtent,
    dimensions: &B,
    left_layout: &G,
    right_layout: &H,
    zero: D,
    one: D,
) -> (result: Result<FactorsOnSpaces<D>, DriveError<X>>)
    requires
        sectors_distinct(input_geometries(*input)),
        are_sized_pairs(pairs@, input_geometries(*input), FactorShape::Bond(bond)),
        takes_legs(left_layout),
        takes_legs(right_layout),
        full_spaces_take::<D, X, &B, &G, &H>(
            dimensions,
            left_layout,
            right_layout,
            input_geometries(*input),
            bond,
            zero,
            one,
        ),
    ensures
        published_on_bond(
            result,
            input_geometries(*input),
            pairs@,
            dimensions,
            left_layout,
            right_layout,
            zero,
            one,
        ),
{
    let ghost all = input_geometries(*input);
    let answer = dimensions();
    assert(call_ensures(dimensions, (), answer));
    let given = match answer {
        Ok(given) => given,
        Err(error) => {
            return Err(DriveError::Layout(error));
        },
    };
    proof {
        assert(call_ensures(dimensions, (), Ok::<BondDimensions, X>(given)));
        lemma_sized_pairs_belong(pairs@, all, FactorShape::Bond(bond));
        assert(spaces_take::<D, X, &G, &H>(
            left_layout,
            right_layout,
            all,
            pairs@,
            given@,
            given@,
            Publication::Plain(FactorPlacement::Direct),
            zero,
            one,
        ));
    }
    match input {
        InputMatricizations::Regions { regions, .. } => publish_sides(
            regions.as_slice(),
            pairs,
            &given,
            &given,
            Publication::Plain(FactorPlacement::Direct),
            left_layout,
            right_layout,
            zero,
            one,
        ),
        InputMatricizations::Packed(matrices) => publish_sides(
            matrices.as_slice(),
            pairs,
            &given,
            &given,
            Publication::Plain(FactorPlacement::Direct),
            left_layout,
            right_layout,
            zero,
            one,
        ),
    }
}

/// A full factorization of all sectors: the first failure of the backend, or the
/// factors that it gave for the sectors' own matrices, published on the bond
/// that is given when they are there.
pub open spec fn full_factors_published<
    D,
    X,
    F: Fn(&[D], usize, usize) -> Result<RouteFactors<D>, OperationError>,
    B: Fn() -> Result<BondDimensions, X>,
    G: Fn(&SectorLeg) -> Result<MapSpace, X>,
    H: Fn(&SectorLeg) -> Result<MapSpace, X>,
>(
    result: Result<FactorsOnSpaces<D>, DriveError<X>>,
    input: InputMatricizations<'_, D>,
    factorize: F,
    bond: BondExtent,
    dimensions: B,
    left_layout: G,
    right_layout: H,
    zero: D,
    one: D,
) -> bool {
    ||| exists|error: OperationError|
        {
            &&& #[trigger] sector_failed::<D, RouteFactors<D>, F>(error, input, factorize)
            &&& result == Err::<FactorsOnSpaces<D>, DriveError<X>>(DriveError::Operation(error))
        }
    ||| exists|pairs: Seq<FactorPair<D>>|
        {
            &&& #[trigger] pairs_found(pairs, input, factorize, bond)
            &&& published_on_bond(
                result,
                input_geometries(input),
                pairs,
                dimensions,
                left_layout,
                right_layout,
                zero,
                one,
            )
        }
}

/// A full factorization into two factors, a QR over the bond of all rows or an
/// LQ over that of all columns: every matrix is given to the backend, the bond
/// is asked for, and the factors are laid out and published on it, the left one
/// before the right one. Sectors that only the bond has get identities.
pub fn factor_full_by_sector<
    D: Copy,
    X,
    F: Fn(&[D], usize, usize) -> Result<RouteFactors<D>, OperationError>,
    B: Fn() -> Result<BondDimensions, X>,
    G: Fn(&SectorLeg) -> Result<MapSpace, X>,
    H: Fn(&SectorLeg) -> Result<MapSpace, X>,
>(
    input: &InputMatricizations<'_, D>,
    factorize: &F,
    bond: BondExtent,
    dimensions: &B,
    left_layout: &G,
    right_layout: &H,
    zero: D,
    one: D,
) -> (result: Result<FactorsOnSpaces<D>, DriveError<X>>)
    requires
        input_holds(*input),
        sectors_distinct(input_geometries(*input)),
        is_factorizer(factorize, bond),
        takes_legs(left_layout),
        takes_legs(right_layout),
        full_spaces_take::<D, X, &B, &G, &H>(
            dimensions,
            left_layout,
            right_layout,
            input_geometries(*input),
            bond,
            zero,
            one,
        ),
    ensures
        full_factors_published(
            result,
            *input,
            factorize,
            bond,
            dimensions,
            left_layout,
            right_layout,
            zero,
            one,
        ),
{
    let pairs = match sector_pairs(input, factorize, bond) {
        Ok(pairs) => pairs,
        Err(error) => {
            return Err(DriveError::Operation(error));
        },
    };
    assert(pairs_found(pairs@, *input, factorize, bond));
    publish_on_bond(input, pairs, bond, dimensions, left_layout, right_layout, zero, one)
}

/// Both factors of a full SVD with the diagonal between them, on their spaces.
#[derive(Clone, Debug, PartialEq, Eq)]
pub struct FullSvdOnSpaces<D, V> {
    pub u_space: MapSpace,
    pub u: Vec<D>,
    pub s_space: MapSpace,
    pub s: Vec<D>,
    pub vh_space: MapSpace,
    pub vh: Vec<D>,
    pub singular_values: Vec<SectorSpectrum<V>>,
}

/// The full SVD of a `rows x cols` matrix, or that of its adjoint, has two
/// square factors with all their elements.
pub open spec fn full_stage_is_square<D, V>(
    stage: FullSvdStage<D, V>,
    rows: usize,
    cols: usize,
    placement: FactorPlacement,
) -> bool {
    let (left, right) = match placement {
        FactorPlacement::Direct => (rows, cols),
        FactorPlacement::Adjoint => (cols, rows),
    };
    &&& stage.left_rows == left
    &&& stage.left@.len() == left * left
    &&& stage.right_leading == right
    &&& stage.right@.len() == right * right
}

/// The backend takes any matrix, and its factors are square.
pub open spec fn is_full_svd<
    D,
    V,
    F: Fn(&[D], usize, usize) -> Result<FullSvdStage<D, V>, OperationError>,
>(svd: F, placement: FactorPlacement) -> bool {
    &&& takes_matrices(svd)
    &&& forall|x: &[D], rows: usize, cols: usize, stage: FullSvdStage<D, V>| #[trigger]
        call_ensures(
            svd,
            (x, rows, cols),
            Ok::<FullSvdStage<D, V>, OperationError>(stage),
        ) ==> full_stage_is_square(stage, rows, cols, placement)
}

/// The placement of a publication.
pub open spec fn publication_placement(publication: Publication) -> FactorPlacement {
    match publication {
        Publication::Plain(placement) => placement,
        Publication::LookedUp => FactorPlacement::Direct,
    }
}

/// The first of both where the factors stand as they are, the second for those
/// of the adjoint.
pub open spec fn by_placement<T>(publication: Publication, direct: T, adjoint: T) -> T {
    match publication_placement(publication) {
        FactorPlacement::Direct => direct,
        FactorPlacement::Adjoint => adjoint,
    }
}

/// Spectra of all sectors, whatever their values.
pub open spec fn names_sectors<V>(
    spectra: Seq<SectorSpectrum<V>>,
    geometries: Seq<Geometry>,
) -> bool {
    &&& spectra.len() == geometries.len()
    &&& forall|k: int|
        0 <= k < spectra.len() ==> (#[trigger] spectra[k]).sector == geometries[k].sector
}

/// Spectra of all sectors stand on matrix blocks, whatever their values.
pub open spec fn diagonal_takes<V>(structure: BlockStructure, geometries: Seq<Geometry>) -> bool {
    forall|spectra: Seq<SectorSpectrum<V>>| #[trigger]
        names_sectors(spectra, geometries) ==> bond_blocks_hold(structure, spectra)
}

/// The space of the diagonal between these bonds may be given in this way.
pub open spec fn lays_out_diagonal<
    X,
    S: Fn(&SectorLeg, &SectorLeg) -> Result<MapSpace, X>,
>(layout: S, left: Seq<SectorRank>, right: Seq<SectorRank>, answer: Result<MapSpace, X>) -> bool {
    exists|left_leg: &SectorLeg, right_leg: &SectorLeg|
        left_leg@ == plain_leg(left) && right_leg@ == plain_leg(right) && #[trigger] call_ensures(
            layout,
            (left_leg, right_leg),
            answer,
        )
}

/// The spaces take the square factors of all sectors, whatever their elements,
/// and where both are accepted the diagonal's takes their spectra.
pub open spec fn square_spaces_take<
    D,
    V,
    X,
    G: Fn(&SectorLeg) -> Result<MapSpace, X>,
    H: Fn(&SectorLeg) -> Result<MapSpace, X>,
    S: Fn(&SectorLeg, &SectorLeg) -> Result<MapSpace, X>,
>(
    left_layout: G,
    right_layout: H,
    diagonal_layout: S,
    geometries: Seq<Geometry>,
    left_dimensions: Seq<SectorRank>,
    right_dimensions: Seq<SectorRank>,
    publication: Publication,
    zero: D,
    one: D,
) -> bool {
    &&& forall|left: &SectorLeg, right: &SectorLeg| #[trigger]
        call_requires(diagonal_layout, (left, right))
    &&& forall|pairs: Seq<FactorPair<D>>|
        are_sized_pairs(pairs, geometries, FactorShape::Square(publication_placement(publication)))
            ==> #[trigger] spaces_take(
            left_layout,
            right_layout,
            geometries,
            pairs,
            left_dimensions,
            right_dimensions,
            publication,
            zero,
            one,
        )
    &&& forall|left: MapSpace, right: MapSpace, space: MapSpace, pairs: Seq<FactorPair<D>>|
        {
            &&& #[trigger] lays_out(left_layout, left_dimensions, Ok(left))
            &&& #[trigger] lays_out(right_layout, right_dimensions, Ok(right))
            &&& #[trigger] lays_out_diagonal(
                diagonal_layout,
                left_dimensions,
                right_dimensions,
                Ok(space),
            )
            &&& #[trigger] are_sized_pairs(
                pairs,
                geometries,
                FactorShape::Square(publication_placement(publication)),
            )
            &&& side_data(
                left.structure,
                geometries,
                pairs,
                left_dimensions,
                FactorSide::Left,
                publication,
                zero,
                one,
            ) is Ok
            &&& side_data(
                right.structure,
                geometries,
                pairs,
                right_dimensions,
                FactorSide::Right,
                publication,
                zero,
                one,
            ) is Ok
        } ==> space.structure.wf() && diagonal_takes::<V>(space.structure, geometries)
}

/// The diagonal between two published factors, on a space that was given for
/// it.
pub open spec fn diagonal_published<
    D,
    V,
    X,
    S: Fn(&SectorLeg, &SectorLeg) -> Result<MapSpace, X>,
    T: Fn(V) -> D,
>(
    result: Result<FullSvdOnSpaces<D, V>, DriveError<X>>,
    factors: FactorsOnSpaces<D>,
    spectra: Seq<SectorSpectrum<V>>,
    diagonal_layout: S,
    left_dimensions: Seq<SectorRank>,
    right_dimensions: Seq<SectorRank>,
    to_scalar: T,
    zero: D,
) -> bool {
    exists|answer: Result<MapSpace, X>|
        {
            &&& #[trigger] lays_out_diagonal(
                diagonal_layout,
                left_dimensions,
                right_dimensions,
                answer,
            )
            &&& match answer {
                Err(error) => result == Err::<FullSvdOnSpaces<D, V>, DriveError<X>>(
                    DriveError::Layout(error),
                ),
                Ok(space) => {
                    &&& result is Ok
                    &&& result->Ok_0.u_space == factors.left_space
                    &&& result->Ok_0.u == factors.left
                    &&& result->Ok_0.vh_space == factors.right_space
                    &&& result->Ok_0.vh == factors.right
                    &&& result->Ok_0.s_space == space
                    &&& result->Ok_0.s@ == apply_writes(
                        zeros(zero, space.structure.spec_len() as int),
                        block_diagonals(
                            space.structure.spec_blocks(),
                            spectra,
                            to_scalar,
                            space.structure.spec_blocks().len() as int,
                        ),
                    )
                    &&& result->Ok_0.singular_values@ == spectra
                },
            }
        }
}

/// A full SVD whose square factors these are: both are published, the left one
/// on the bond of the rows and the right one on that of the columns, or the
/// other way about for the adjoint, and the diagonal between them after both.
pub open spec fn full_svd_laid_out<
    D,
    V,
    X,
    G: Fn(&SectorLeg) -> Result<MapSpace, X>,
    H: Fn(&SectorLeg) -> Result<MapSpace, X>,
    S: Fn(&SectorLeg, &SectorLeg) -> Result<MapSpace, X>,
    T: Fn(V) -> D,
>(
    result: Result<FullSvdOnSpaces<D, V>, DriveError<X>>,
    geometries: Seq<Geometry>,
    stages: Seq<FullSvdStage<D, V>>,
    left_dimensions: Seq<SectorRank>,
    right_dimensions: Seq<SectorRank>,
    publication: Publication,
    left_layout: G,
    right_layout: H,
    diagonal_layout: S,
    to_scalar: T,
    zero: D,
    one: D,
) -> bool {
    exists|factors: Result<FactorsOnSpaces<D>, DriveError<X>>|
        {
            &&& #[trigger] sides_published(
                factors,
                left_layout,
                right_layout,
                geometries,
                full_pairs(geometries, stages, stages.len() as int),
                left_dimensions,
                right_dimensions,
                publication,
                zero,
                one,
            )
            &&& match factors {
                Err(error) => result == Err::<FullSvdOnSpaces<D, V>, DriveError<X>>(error),
                Ok(factors) => diagonal_published(
                    result,
                    factors,
                    full_spectra(geometries, stages, stages.len() as int),
                    diagonal_layout,
                    left_dimensions,
                    right_dimensions,
                    to_scalar,
                    zero,
                ),
            }
        }
}

/// The full SVD of all sectors: the first failure of the backend, or what it
/// gave for the sectors' own matrices, laid out and published.
pub open spec fn full_svds_published<
    D,
    V,
    X,
    F: Fn(&[D], usize, usize) -> Result<FullSvdStage<D, V>, OperationError>,
    G: Fn(&SectorLeg) -> Result<MapSpace, X>,
    H: Fn(&SectorLeg) -> Result<MapSpace, X>,
    S: Fn(&SectorLeg, &SectorLeg) -> Result<MapSpace, X>,
    T: Fn(V) -> D,
>(
    result: Result<FullSvdOnSpaces<D, V>, DriveError<X>>,
    input: InputMatricizations<'_, D>,
    svd: F,
    left_dimensions: Seq<SectorRank>,
    right_dimensions: Seq<SectorRank>,
    publication: Publication,
    left_layout: G,
    right_layout: H,
    diagonal_layout: S,
    to_scalar: T,
    zero: D,
    one: D,
) -> bool {
    ||| exists|error: OperationError|
        {
            &&& #[trigger] sector_failed::<D, FullSvdStage<D, V>, F>(error, input, svd)
            &&& result == Err::<FullSvdOnSpaces<D, V>, DriveError<X>>(
                DriveError::Operation(error),
            )
        }
    ||| exists|stages: Seq<FullSvdStage<D, V>>|
        {
            &&& #[trigger] factored_until(stages, None, input, svd)
            &&& full_svd_laid_out(
                result,
                input_geometries(input),
                stages,
                left_dimensions,
                right_dimensions,
                publication,
                left_layout,
                right_layout,
                diagonal_layout,
                to_scalar,
                zero,
                one,
            )
        }
}

/// The full SVD of all sectors, or that of the adjoint: every matrix is given to
/// the backend, its two square factors are laid out and published, completed by
/// identities in sectors that the source does not have, the left one before the
/// right one, and then the rectangular diagonal between their bonds. For the
/// adjoint the row and column dimensions change places.
pub fn svd_full_by_sector<
    D: Copy,
    V: Copy,
    X,
    F: Fn(&[D], usize, usize) -> Result<FullSvdStage<D, V>, OperationError>,
    G: Fn(&SectorLeg) -> Result<MapSpace, X>,
    H: Fn(&SectorLeg) -> Result<MapSpace, X>,
    S: Fn(&SectorLeg, &SectorLeg) -> Result<MapSpace, X>,
    T: Fn(V) -> D,
>(
    input: &InputMatricizations<'_, D>,
    row_dimensions: &BondDimensions,
    col_dimensions: &BondDimensions,
    publication: Publication,
    svd: &F,
    left_layout: &G,
    right_layout: &H,
    diagonal_layout: &S,
    to_scalar: &T,
    zero: D,
    one: D,
) -> (result: Result<FullSvdOnSpaces<D, V>, DriveError<X>>)
    requires
        input_holds(*input),
        sectors_distinct(input_geometries(*input)),
        is_full_svd(svd, publication_placement(publication)),
        is_function(to_scalar),
        takes_legs(left_layout),
        takes_legs(right_layout),
        square_spaces_take::<D, V, X, &G, &H, &S>(
            left_layout,
            right_layout,
            diagonal_layout,
            input_geometries(*input),
            by_placement(publication, row_dimensions@, col_dimensions@),
            by_placement(publication, col_dimensions@, row_dimensions@),
            publication,
            zero,
            one,
        ),
    ensures
        full_svds_published(
            result,
            *input,
            svd,
            by_placement(publication, row_dimensions@, col_dimensions@),
            by_placement(publication, col_dimensions@, row_dimensions@),
            publication,
            left_layout,
            right_layout,
            diagonal_layout,
            to_scalar,
            zero,
            one,
        ),
{
    let ghost all = input_geometries(*input);
    let ghost shape = FactorShape::Square(publication_placement(publication));
    let (left_dimensions, right_dimensions) = match publication {
        Publication::Plain(FactorPlacement::Adjoint) => (col_dimensions, row_dimensions),
        _ => (row_dimensions, col_dimensions),
    };
    let stages = match sector_stages(input, svd) {
        Ok(stages) => stages,
        Err(error) => {
            assert(sector_failed::<D, FullSvdStage<D, V>, &F>(error, *input, svd));
            return Err(DriveError::Operation(error));
        },
    };
    let ghost found = stages@;
    let (pairs, spectra) = match input {
        InputMatricizations::Regions { regions, .. } => full_stage_pairs(
            regions.as_slice(),
            stages,
        ),
        InputMatricizations::Packed(matrices) => full_stage_pairs(matrices.as_slice(), stages),
    };
    let ghost given = pairs@;
    proof {
        assert(factored_until(found, None, *input, svd));
        assert forall|k: int| 0 <= k < given.len() implies is_sized_pair(
            #[trigger] given[k],
            all[k],
            shape,
        ) by {
            let matrix = lemma_found_shape(found, None, *input, svd, k);
            assert(full_stage_is_square(
                found[k],
                all[k].rows,
                all[k].cols,
                publication_placement(publication),
            ));
        }
        assert(are_sized_pairs(given, all, shape));
        lemma_sized_pairs_belong(given, all, shape);
        assert(names_sectors(spectra@, all));
        assert(spaces_take::<D, X, &G, &H>(
            left_layout,
            right_layout,
            all,
            given,
            left_dimensions@,
            right_dimensions@,
            publication,
            zero,
            one,
        ));
    }
    let published = match input {
        InputMatricizations::Regions { regions, .. } => publish_sides(
            regions.as_slice(),
            pairs,
            left_dimensions,
            right_dimensions,
            publication,
            left_layout,
            right_layout,
            zero,
            one,
        ),
        InputMatricizations::Packed(matrices) => publish_sides(
            matrices.as_slice(),
            pairs,
            left_dimensions,
            right_dimensions,
            publication,
            left_layout,
            right_layout,
            zero,
            one,
        ),
    };
    assert(sides_published(
        published,
        left_layout,
        right_layout,
        all,
        full_pairs(all, found, found.len() as int),
        left_dimensions@,
        right_dimensions@,
        publication,
        zero,
        one,
    ));
    let factors = match published {
        Ok(factors) => factors,
        Err(error) => {
            return Err(error);
        },
    };
    let left_leg = bond_leg(left_dimensions);
    let right_leg = bond_leg(right_dimensions);
    let answer = diagonal_layout(&left_leg, &right_leg);
    proof {
        assert(call_ensures(diagonal_layout, (&left_leg, &right_leg), answer));
        assert(lays_out_diagonal(
            diagonal_layout,
            left_dimensions@,
            right_dimensions@,
            answer,
        ));
    }
    let space = match answer {
        Ok(space) => space,
        Err(error) => {
            return Err(DriveError::Layout(error));
        },
    };
    assert(lays_out_diagonal(
        diagonal_layout,
        left_dimensions@,
        right_dimensions@,
        Ok::<MapSpace, X>(space),
    ));
    let s = rectangular_diagonal_data(&space.structure, spectra.as_slice(), to_scalar, zero);
    Ok(
        FullSvdOnSpaces {
            u_space: factors.left_space,
            u: factors.left,
            s_space: space,
            s,
            vh_space: factors.right_space,
            vh: factors.right,
            singular_values: spectra,
        },
    )
}

/// Factors that were laid out one after the other are those that publishing both
/// on the same two spaces gives.
pub proof fn lemma_laid_out_is_published<
    D,
    X,
    G: Fn(&SectorLeg) -> Result<MapSpace, X>,
    H: Fn(&SectorLeg) -> Result<MapSpace, X>,
>(
    factors: FactorsOnSpaces<D>,
    left_layout: G,
    right_layout: H,
    geometries: Seq<Geometry>,
    pairs: Seq<FactorPair<D>>,
    left_dimensions: Seq<SectorRank>,
    right_dimensions: Seq<SectorRank>,
    placement: FactorPlacement,
    zero: D,
    one: D,
)
    requires
        !has_stray_pair(geometries, pairs),
        sides_published(
            Ok::<FactorsOnSpaces<D>, DriveError<X>>(factors),
            left_layout,
            right_layout,
            geometries,
            pairs,
            left_dimensions,
            right_dimensions,
            Publication::Plain(placement),
            zero,
            one,
        ),
    ensures
        two_sided_result(
            Ok((factors.left, factors.right)),
            factors.left_space.structure,
            factors.right_space.structure,
            geometries,
            pairs,
            left_dimensions,
            right_dimensions,
            placement,
            zero,
            one,
        ),
{
}

} // verus!
