//! Compact factorizations from the sector matrices to the published factors.

use vstd::prelude::*;

use crate::bond::{bond_of_pairs, BondDimensions};
use crate::dense_calls::{factors_to, takes_matrices};
use crate::direct::RouteFactors;
use crate::error::OperationError;
use crate::factor::{FactorPair, FactorPlacement};
use crate::factor_routes::smaller;
use crate::geometry::{geometries, sectors_distinct, Geometry, SectorGeometry};
use crate::input::InputMatricizations;
use crate::pair::{pair_reads_fit, scatter_factor_pairs, scatter_pairs};
use crate::pair_drive::{labelled_spaces_take, labels_published, publish_labelled_pair};
use crate::publish::zeros;
use crate::shapes::{are_sized_pairs, is_sized_pair, lemma_sized_pairs_belong, FactorShape};
use crate::sides::{
    publish_sides, sides_published, spaces_take, takes_legs, DriveError, FactorsOnSpaces,
    Publication,
};
use crate::space::{MapSpace, SectorLeg};
use crate::spectrum::SectorSpectrum;
use crate::stages::{
    bond_pairs, factored_until, input_holds, is_bond_pair, sector_input, sector_stages,
    stages_until_failure, BondExtent,
};
use crate::structure::{Block, BlockStructure};
use crate::svd_stage::{is_svd, stage_is_shaped, SvdStage};
use crate::writes::apply_writes;

verus! {

/// The two factors of a compact SVD, with the singular values between them.
#[derive(Clone, Debug, PartialEq, Eq)]
pub struct CompactSvdData<D, V> {
    pub u: Vec<D>,
    pub vh: Vec<D>,
    pub singular_values: Vec<SectorSpectrum<V>>,
}

/// The factors of a `rows x cols` matrix over a compact bond have all their
/// elements.
pub open spec fn factors_are_shaped<D>(
    factors: RouteFactors<D>,
    rows: usize,
    cols: usize,
) -> bool {
    &&& factors.left@.len() == rows * smaller(rows, cols)
    &&& factors.right@.len() == smaller(rows, cols) * cols
}

/// The pair of one sector over a compact bond, whatever its elements.
pub open spec fn is_shaped_pair<D>(pair: FactorPair<D>, geometry: Geometry) -> bool {
    let kept = smaller(geometry.rows, geometry.cols);
    &&& pair.sector == geometry.sector
    &&& pair.kept == kept
    &&& pair.left_rows == geometry.rows
    &&& pair.left@.len() == geometry.rows * kept
    &&& pair.right_leading == kept
    &&& pair.right@.len() == kept * geometry.cols
}

/// Pairs of the first sectors over a compact bond, whatever their elements.
pub open spec fn are_shaped_pairs<D>(
    pairs: Seq<FactorPair<D>>,
    geometries: Seq<Geometry>,
) -> bool {
    &&& pairs.len() <= geometries.len()
    &&& forall|k: int|
        0 <= k < pairs.len() ==> is_shaped_pair(#[trigger] pairs[k], geometries[k])
}

/// Both outputs are filled from inside compact factors, whatever their
/// elements and however many sectors have some.
pub open spec fn compact_scatter_fits<D>(
    left_blocks: Seq<Block>,
    right_blocks: Seq<Block>,
    geometries: Seq<Geometry>,
) -> bool {
    forall|pairs: Seq<FactorPair<D>>| #[trigger]
        are_shaped_pairs(pairs, geometries) ==> pair_reads_fit(
            left_blocks,
            right_blocks,
            geometries,
            pairs,
        )
}

/// The pairs of the first sectors, with the outer factors of their SVDs.
pub open spec fn are_svd_pairs<D, V>(
    pairs: Seq<FactorPair<D>>,
    geometries: Seq<Geometry>,
    stages: Seq<SvdStage<D, V>>,
) -> bool {
    &&& pairs.len() == stages.len()
    &&& forall|k: int|
        0 <= k < pairs.len() ==> is_bond_pair(
            #[trigger] pairs[k],
            geometries[k],
            RouteFactors { left: stages[k].u, right: stages[k].vt },
            BondExtent::Compact,
        )
}

/// The singular values of the first sectors.
pub open spec fn are_svd_spectra<D, V>(
    spectra: Seq<SectorSpectrum<V>>,
    geometries: Seq<Geometry>,
    stages: Seq<SvdStage<D, V>>,
) -> bool {
    &&& spectra.len() == stages.len()
    &&& forall|k: int|
        0 <= k < spectra.len() ==> (#[trigger] spectra[k]).sector == geometries[k].sector
            && spectra[k].values == stages[k].values
}

/// The compact SVD of all sectors: for each of them stages that the backend gave
/// for the sector's own matrix, scattered over both outputs. A sector is
/// scattered before the next one is given to the backend, so that its refusal
/// comes before a later failure.
pub open spec fn svd_scattered<
    D,
    V,
    F: Fn(&[D], usize, usize) -> Result<SvdStage<D, V>, OperationError>,
>(
    result: Result<CompactSvdData<D, V>, OperationError>,
    u_structure: BlockStructure,
    vh_structure: BlockStructure,
    input: InputMatricizations<'_, D>,
    svd: F,
    zero: D,
) -> bool {
    let all = input_geometries(input);
    exists|
        stages: Seq<SvdStage<D, V>>,
        failure: Option<OperationError>,
        pairs: Seq<FactorPair<D>>,
    |
        {
            &&& #[trigger] factored_until(stages, failure, input, svd)
            &&& #[trigger] are_svd_pairs(pairs, all, stages)
            &&& match (scatter_pairs(
                u_structure.spec_blocks(),
                vh_structure.spec_blocks(),
                all,
                pairs,
                pairs.len() as int,
            ), failure) {
                (Err(error), _) => result == Err::<CompactSvdData<D, V>, OperationError>(error),
                (Ok(_), Some(error)) => result == Err::<CompactSvdData<D, V>, OperationError>(
                    error,
                ),
                (Ok(writes), None) => match result {
                    Ok(data) => {
                        &&& data.u@ == apply_writes(
                            zeros(zero, u_structure.spec_len() as int),
                            writes.left,
                        )
                        &&& data.vh@ == apply_writes(
                            zeros(zero, vh_structure.spec_len() as int),
                            writes.right,
                        )
                        &&& are_svd_spectra(data.singular_values@, all, stages)
                    },
                    Err(_) => false,
                },
            }
        }
}

/// The geometries of the sectors of an input.
pub open spec fn input_geometries<D>(input: InputMatricizations<'_, D>) -> Seq<Geometry> {
    match input {
        InputMatricizations::Regions { regions, .. } => geometries(regions@),
        InputMatricizations::Packed(matrices) => geometries(matrices@),
    }
}

/// What the backend gave for a sector it gave for the sector's own shape.
pub(crate) proof fn lemma_found_shape<
    D,
    T,
    F: Fn(&[D], usize, usize) -> Result<T, OperationError>,
>(
    stages: Seq<T>,
    failure: Option<OperationError>,
    input: InputMatricizations<'_, D>,
    factorize: F,
    k: int,
) -> (matrix: Seq<D>)
    requires
        factored_until(stages, failure, input, factorize),
        0 <= k < stages.len(),
    ensures
        k < input_geometries(input).len(),
        factors_to(
            factorize,
            matrix,
            input_geometries(input)[k].rows,
            input_geometries(input)[k].cols,
            Ok::<T, OperationError>(stages[k]),
        ),
{
    let found = stages[k];
    match sector_input(input, k) {
        Ok(matrix) => matrix.data,
        Err(_) => Seq::empty(),
    }
}

/// The pairs and the spectra of all stages.
fn svd_pairs<D, V, M: SectorGeometry>(
    matricizations: &[M],
    stages: Vec<SvdStage<D, V>>,
) -> (result: (Vec<FactorPair<D>>, Vec<SectorSpectrum<V>>))
    requires
        stages@.len() <= matricizations@.len(),
    ensures
        are_svd_pairs(result.0@, geometries(matricizations@), stages@),
        are_svd_spectra(result.1@, geometries(matricizations@), stages@),
{
    let ghost all = geometries(matricizations@);
    let ghost given = stages@;
    let mut pairs: Vec<FactorPair<D>> = Vec::with_capacity(stages.len());
    let mut spectra: Vec<SectorSpectrum<V>> = Vec::with_capacity(stages.len());
    let mut k: usize = 0;
    for stage in iter: stages
        invariant
            iter.seq() == given,
            k == iter.index(),
            given.len() <= matricizations@.len(),
            all == geometries(matricizations@),
            pairs@.len() == k,
            spectra@.len() == k,
            forall|j: int|
                0 <= j < k ==> is_bond_pair(
                    #[trigger] pairs@[j],
                    all[j],
                    RouteFactors { left: given[j].u, right: given[j].vt },
                    BondExtent::Compact,
                ),
            forall|j: int|
                0 <= j < k ==> (#[trigger] spectra@[j]).sector == all[j].sector
                    && spectra@[j].values == given[j].values,
    {
        assert(stage == given[k as int]);
        assert(all[k as int] == matricizations@[k as int].geometry());
        let sector = matricizations[k].sector();
        let rows: usize = matricizations[k].rows();
        let kept: usize = BondExtent::Compact.of(rows, matricizations[k].cols());
        pairs.push(
            FactorPair {
                sector,
                kept,
                left: stage.u,
                left_rows: rows,
                right: stage.vt,
                right_leading: kept,
            },
        );
        spectra.push(SectorSpectrum { sector, values: stage.values });
        k += 1;
    }
    (pairs, spectra)
}

/// The pairs of SVDs have the shapes of compact factors.
proof fn lemma_svd_pairs_shaped<
    D,
    V,
    F: Fn(&[D], usize, usize) -> Result<SvdStage<D, V>, OperationError>,
>(
    pairs: Seq<FactorPair<D>>,
    stages: Seq<SvdStage<D, V>>,
    failure: Option<OperationError>,
    input: InputMatricizations<'_, D>,
    svd: F,
)
    requires
        is_svd(svd),
        factored_until(stages, failure, input, svd),
        are_svd_pairs(pairs, input_geometries(input), stages),
    ensures
        are_shaped_pairs(pairs, input_geometries(input)),
{
    let all = input_geometries(input);
    assert forall|k: int| 0 <= k < pairs.len() implies is_shaped_pair(
        #[trigger] pairs[k],
        all[k],
    ) by {
        let matrix = lemma_found_shape(stages, failure, input, svd, k);
        assert(stage_is_shaped(stages[k], all[k].rows, all[k].cols));
    }
}

/// The compact SVD of all sectors: every matrix is given to the backend, and its
/// outer factors are scattered over the outputs.
pub fn svd_compact_by_sector<
    D: Copy,
    V,
    F: Fn(&[D], usize, usize) -> Result<SvdStage<D, V>, OperationError>,
>(
    u_structure: &BlockStructure,
    vh_structure: &BlockStructure,
    input: &InputMatricizations<'_, D>,
    svd: &F,
    zero: D,
) -> (result: Result<CompactSvdData<D, V>, OperationError>)
    requires
        u_structure.wf(),
        vh_structure.wf(),
        input_holds(*input),
        sectors_distinct(input_geometries(*input)),
        is_svd(svd),
        compact_scatter_fits::<D>(
            u_structure.spec_blocks(),
            vh_structure.spec_blocks(),
            input_geometries(*input),
        ),
    ensures
        svd_scattered(result, *u_structure, *vh_structure, *input, svd, zero),
{
    let ghost all = input_geometries(*input);
    let (stages, failure) = stages_until_failure(input, svd);
    let ghost found = stages@;
    let (pairs, spectra) = match input {
        InputMatricizations::Regions { regions, .. } => svd_pairs(regions.as_slice(), stages),
        InputMatricizations::Packed(matrices) => svd_pairs(matrices.as_slice(), stages),
    };
    proof {
        assert(factored_until(found, failure, *input, svd));
        assert(are_svd_pairs(pairs@, all, found));
        lemma_svd_pairs_shaped(pairs@, found, failure, *input, svd);
    }
    let scattered = match input {
        InputMatricizations::Regions { regions, .. } => scatter_factor_pairs(
            u_structure,
            vh_structure,
            regions.as_slice(),
            pairs.as_slice(),
            zero,
        ),
        InputMatricizations::Packed(matrices) => scatter_factor_pairs(
            u_structure,
            vh_structure,
            matrices.as_slice(),
            pairs.as_slice(),
            zero,
        ),
    };
    match scattered {
        Err(error) => Err(error),
        Ok((u, vh)) => match failure {
            Some(error) => Err(error),
            None => Ok(CompactSvdData { u, vh, singular_values: spectra }),
        },
    }
}

/// The factors of a `rows x cols` matrix over a bond have all their elements.
pub open spec fn factors_are_sized<D>(
    factors: RouteFactors<D>,
    rows: usize,
    cols: usize,
    bond: BondExtent,
) -> bool {
    let kept = bond.spec_of(rows, cols);
    &&& factors.left@.len() == rows * kept
    &&& factors.right@.len() == kept * cols
}

/// The backend takes any matrix, and its two factors have all their elements.
pub open spec fn is_factorizer<
    D,
    F: Fn(&[D], usize, usize) -> Result<RouteFactors<D>, OperationError>,
>(factorize: F, bond: BondExtent) -> bool {
    &&& takes_matrices(factorize)
    &&& forall|x: &[D], rows: usize, cols: usize, factors: RouteFactors<D>| #[trigger]
        call_ensures(
            factorize,
            (x, rows, cols),
            Ok::<RouteFactors<D>, OperationError>(factors),
        ) ==> factors_are_sized(factors, rows, cols, bond)
}

/// The pairs of all sectors over a bond, with the factors that the backend gave
/// for their own matrices.
pub open spec fn pairs_found<
    D,
    F: Fn(&[D], usize, usize) -> Result<RouteFactors<D>, OperationError>,
>(
    pairs: Seq<FactorPair<D>>,
    input: InputMatricizations<'_, D>,
    factorize: F,
    bond: BondExtent,
) -> bool {
    exists|stages: Seq<RouteFactors<D>>|
        {
            &&& #[trigger] factored_until(stages, None, input, factorize)
            &&& pairs.len() == stages.len()
            &&& forall|k: int|
                0 <= k < pairs.len() ==> is_bond_pair(
                    #[trigger] pairs[k],
                    input_geometries(input)[k],
                    stages[k],
                    bond,
                )
        }
}

/// The backend failed on a sector, after it gave factors for those before.
pub open spec fn sector_failed<
    D,
    T,
    F: Fn(&[D], usize, usize) -> Result<T, OperationError>,
>(error: OperationError, input: InputMatricizations<'_, D>, factorize: F) -> bool {
    exists|stages: Seq<T>| #[trigger]
        factored_until(stages, Some(error), input, factorize)
}

/// Factors every sector, and pairs the factors with their sectors.
pub(crate) fn sector_pairs<
    D,
    F: Fn(&[D], usize, usize) -> Result<RouteFactors<D>, OperationError>,
>(input: &InputMatricizations<'_, D>, factorize: &F, bond: BondExtent) -> (result: Result<
    Vec<FactorPair<D>>,
    OperationError,
>)
    requires
        input_holds(*input),
        is_factorizer(factorize, bond),
    ensures
        match result {
            Ok(pairs) => {
                &&& pairs_found(pairs@, *input, factorize, bond)
                &&& are_sized_pairs(pairs@, input_geometries(*input), FactorShape::Bond(bond))
            },
            Err(error) => sector_failed::<D, RouteFactors<D>, &F>(error, *input, factorize),
        },
{
    let ghost all = input_geometries(*input);
    let stages = match sector_stages(input, factorize) {
        Ok(stages) => stages,
        Err(error) => {
            return Err(error);
        },
    };
    let ghost found = stages@;
    let pairs = match input {
        InputMatricizations::Regions { regions, .. } => bond_pairs(
            regions.as_slice(),
            stages,
            bond,
        ),
        InputMatricizations::Packed(matrices) => bond_pairs(matrices.as_slice(), stages, bond),
    };
    proof {
        assert(factored_until(found, None, *input, factorize));
        assert forall|k: int| 0 <= k < pairs@.len() implies is_sized_pair(
            #[trigger] pairs@[k],
            all[k],
            FactorShape::Bond(bond),
        ) by {
            assert(is_bond_pair(pairs@[k], all[k], found[k], bond));
            let matrix = lemma_found_shape(found, None, *input, factorize, k);
            assert(factors_are_sized(found[k], all[k].rows, all[k].cols, bond));
        }
    }
    Ok(pairs)
}

/// On the bond of compact factors the spaces take these, whatever their
/// elements.
pub open spec fn compact_spaces_take<
    D,
    X,
    G: Fn(&SectorLeg) -> Result<MapSpace, X>,
    H: Fn(&SectorLeg) -> Result<MapSpace, X>,
>(left_layout: G, right_layout: H, geometries: Seq<Geometry>, zero: D, one: D) -> bool {
    forall|pairs: Seq<FactorPair<D>>|
        are_sized_pairs(pairs, geometries, FactorShape::Bond(BondExtent::Compact)) ==> #[trigger]
        spaces_take(
            left_layout,
            right_layout,
            geometries,
            pairs,
            bond_of_pairs(pairs),
            bond_of_pairs(pairs),
            Publication::Plain(FactorPlacement::Direct),
            zero,
            one,
        )
}

/// A compact factorization of all sectors: the first failure of the backend, or
/// the factors that it gave for the sectors' own matrices, published on spaces
/// that were given for their bond.
pub open spec fn factors_published<
    D,
    X,
    F: Fn(&[D], usize, usize) -> Result<RouteFactors<D>, OperationError>,
    G: Fn(&SectorLeg) -> Result<MapSpace, X>,
    H: Fn(&SectorLeg) -> Result<MapSpace, X>,
>(
    result: Result<FactorsOnSpaces<D>, DriveError<X>>,
    input: InputMatricizations<'_, D>,
    factorize: F,
    left_layout: G,
    right_layout: H,
    zero: D,
    one: D,
) -> bool {
    ||| exists|error: OperationError|
        {
            &&& #[trigger] sector_failed::<D, RouteFactors<D>, F>(error, input, factorize)
            &&& result == Err::<FactorsOnSpaces<D>, DriveError<X>>(DriveError::Operation(error))
        }
    ||| exists|pairs: Seq<FactorPair<D>>|
        {
            &&& #[trigger] pairs_found(pairs, input, factorize, BondExtent::Compact)
            &&& sides_published(
                result,
                left_layout,
                right_layout,
                input_geometries(input),
                pairs,
                bond_of_pairs(pairs),
                bond_of_pairs(pairs),
                Publication::Plain(FactorPlacement::Direct),
                zero,
                one,
            )
        }
}

/// A compact factorization into two factors: every matrix is given to the
/// backend, and the factors are laid out on the bond of what it gave and
/// published there, the left one before the right one.
pub fn factor_compact_by_sector<
    D: Copy,
    X,
    F: Fn(&[D], usize, usize) -> Result<RouteFactors<D>, OperationError>,
    G: Fn(&SectorLeg) -> Result<MapSpace, X>,
    H: Fn(&SectorLeg) -> Result<MapSpace, X>,
>(
    input: &InputMatricizations<'_, D>,
    factorize: &F,
    left_layout: &G,
    right_layout: &H,
    zero: D,
    one: D,
) -> (result: Result<FactorsOnSpaces<D>, DriveError<X>>)
    requires
        input_holds(*input),
        sectors_distinct(input_geometries(*input)),
        is_factorizer(factorize, BondExtent::Compact),
        takes_legs(left_layout),
        takes_legs(right_layout),
        compact_spaces_take::<D, X, &G, &H>(
            left_layout,
            right_layout,
            input_geometries(*input),
            zero,
            one,
        ),
    ensures
        factors_published(result, *input, factorize, left_layout, right_layout, zero, one),
{
    let pairs = match sector_pairs(input, factorize, BondExtent::Compact) {
        Ok(pairs) => pairs,
        Err(error) => {
            return Err(DriveError::Operation(error));
        },
    };
    assert(pairs_found(pairs@, *input, factorize, BondExtent::Compact));
    publish_compact_pairs(input, pairs, left_layout, right_layout, zero, one)
}

/// Publishes compact pairs on the spaces of their bond.
pub(crate) fn publish_compact_pairs<
    D: Copy,
    X,
    G: Fn(&SectorLeg) -> Result<MapSpace, X>,
    H: Fn(&SectorLeg) -> Result<MapSpace, X>,
>(
    input: &InputMatricizations<'_, D>,
    pairs: Vec<FactorPair<D>>,
    left_layout: &G,
    right_layout: &H,
    zero: D,
    one: D,
) -> (result: Result<FactorsOnSpaces<D>, DriveError<X>>)
    requires
        sectors_distinct(input_geometries(*input)),
        are_sized_pairs(
            pairs@,
            input_geometries(*input),
            FactorShape::Bond(BondExtent::Compact),
        ),
        takes_legs(left_layout),
        takes_legs(right_layout),
        compact_spaces_take::<D, X, &G, &H>(
            left_layout,
            right_layout,
            input_geometries(*input),
            zero,
            one,
        ),
    ensures
        sides_published(
            result,
            left_layout,
            right_layout,
            input_geometries(*input),
            pairs@,
            bond_of_pairs(pairs@),
            bond_of_pairs(pairs@),
            Publication::Plain(FactorPlacement::Direct),
            zero,
            one,
        ),
{
    let bond = BondDimensions::of_pairs(pairs.as_slice());
    proof {
        let all = input_geometries(*input);
        lemma_sized_pairs_belong(pairs@, all, FactorShape::Bond(BondExtent::Compact));
        assert(spaces_take::<D, X, &G, &H>(
            left_layout,
            right_layout,
            all,
            pairs@,
            bond_of_pairs(pairs@),
            bond_of_pairs(pairs@),
            Publication::Plain(FactorPlacement::Direct),
            zero,
            one,
        ));
    }
    match input {
        InputMatricizations::Regions { regions, .. } => publish_sides(
            regions.as_slice(),
            pairs,
            &bond,
            &bond,
            Publication::Plain(FactorPlacement::Direct),
            left_layout,
            right_layout,
            zero,
            one,
        ),
        InputMatricizations::Packed(matrices) => publish_sides(
            matrices.as_slice(),
            pairs,
            &bond,
            &bond,
            Publication::Plain(FactorPlacement::Direct),
            left_layout,
            right_layout,
            zero,
            one,
        ),
    }
}

/// On the bond of factors over this extent the spaces take these, whatever
/// their elements, where their labels have their places in the source.
pub open spec fn labelled_layouts_take<
    D,
    X,
    G: Fn(&SectorLeg) -> Result<MapSpace, X>,
    H: Fn(&SectorLeg) -> Result<MapSpace, X>,
>(left_layout: G, right_layout: H, geometries: Seq<Geometry>, bond: BondExtent) -> bool {
    forall|pairs: Seq<FactorPair<D>>|
        are_sized_pairs(pairs, geometries, FactorShape::Bond(bond)) ==> #[trigger]
        labelled_spaces_take(left_layout, right_layout, geometries, pairs)
}

/// A factorization of all sectors over a bond: the first failure of the backend,
/// or the factors that it gave for the sectors' own matrices, published on
/// spaces that were given for their bond and whose labels were checked.
pub open spec fn labelled_factors_published<
    D,
    X,
    F: Fn(&[D], usize, usize) -> Result<RouteFactors<D>, OperationError>,
    G: Fn(&SectorLeg) -> Result<MapSpace, X>,
    H: Fn(&SectorLeg) -> Result<MapSpace, X>,
>(
    result: Result<FactorsOnSpaces<D>, DriveError<X>>,
    input: InputMatricizations<'_, D>,
    factorize: F,
    bond: BondExtent,
    left_layout: G,
    right_layout: H,
    zero: D,
) -> bool {
    ||| exists|error: OperationError|
        {
            &&& #[trigger] sector_failed::<D, RouteFactors<D>, F>(error, input, factorize)
            &&& result == Err::<FactorsOnSpaces<D>, DriveError<X>>(DriveError::Operation(error))
        }
    ||| exists|pairs: Seq<FactorPair<D>>|
        {
            &&& #[trigger] pairs_found(pairs, input, factorize, bond)
            &&& labels_published(
                result,
                left_layout,
                right_layout,
                input_geometries(input),
                pairs,
                zero,
            )
        }
}

/// A factorization into two factors over a bond, where the labels of both
/// outputs are checked against the source before anything is published, those
/// of the left one before the right one is laid out.
pub fn factor_by_sector_checked<
    D: Copy,
    X,
    F: Fn(&[D], usize, usize) -> Result<RouteFactors<D>, OperationError>,
    G: Fn(&SectorLeg) -> Result<MapSpace, X>,
    H: Fn(&SectorLeg) -> Result<MapSpace, X>,
>(
    input: &InputMatricizations<'_, D>,
    factorize: &F,
    bond: BondExtent,
    left_layout: &G,
    right_layout: &H,
    zero: D,
) -> (result: Result<FactorsOnSpaces<D>, DriveError<X>>)
    requires
        input_holds(*input),
        sectors_distinct(input_geometries(*input)),
        is_factorizer(factorize, bond),
        takes_legs(left_layout),
        takes_legs(right_layout),
        labelled_layouts_take::<D, X, &G, &H>(
            left_layout,
            right_layout,
            input_geometries(*input),
            bond,
        ),
    ensures
        labelled_factors_published(
            result,
            *input,
            factorize,
            bond,
            left_layout,
            right_layout,
            zero,
        ),
{
    let pairs = match sector_pairs(input, factorize, bond) {
        Ok(pairs) => pairs,
        Err(error) => {
            return Err(DriveError::Operation(error));
        },
    };
    proof {
        assert(pairs_found(pairs@, *input, factorize, bond));
        assert(labelled_spaces_take::<D, X, &G, &H>(
            left_layout,
            right_layout,
            input_geometries(*input),
            pairs@,
        ));
    }
    match input {
        InputMatricizations::Regions { regions, .. } => publish_labelled_pair(
            regions.as_slice(),
            pairs,
            left_layout,
            right_layout,
            zero,
        ),
        InputMatricizations::Packed(matrices) => publish_labelled_pair(
            matrices.as_slice(),
            pairs,
            left_layout,
            right_layout,
            zero,
        ),
    }
}

/// The compact SVD of all sectors on spaces that were given for its bond, with
/// the singular values, or the first failure of the backend.
pub open spec fn svds_published<
    D,
    V,
    X,
    F: Fn(&[D], usize, usize) -> Result<SvdStage<D, V>, OperationError>,
    G: Fn(&SectorLeg) -> Result<MapSpace, X>,
    H: Fn(&SectorLeg) -> Result<MapSpace, X>,
>(
    result: Result<(FactorsOnSpaces<D>, Vec<SectorSpectrum<V>>), DriveError<X>>,
    input: InputMatricizations<'_, D>,
    svd: F,
    left_layout: G,
    right_layout: H,
    zero: D,
) -> bool {
    let all = input_geometries(input);
    let factors: Result<FactorsOnSpaces<D>, DriveError<X>> = match result {
        Ok((factors, _)) => Ok(factors),
        Err(error) => Err(error),
    };
    ||| exists|error: OperationError|
        {
            &&& #[trigger] sector_failed::<D, SvdStage<D, V>, F>(error, input, svd)
            &&& factors == Err::<FactorsOnSpaces<D>, DriveError<X>>(DriveError::Operation(error))
        }
    ||| exists|stages: Seq<SvdStage<D, V>>, pairs: Seq<FactorPair<D>>|
        {
            &&& #[trigger] factored_until(stages, None, input, svd)
            &&& #[trigger] are_svd_pairs(pairs, all, stages)
            &&& labels_published(factors, left_layout, right_layout, all, pairs, zero)
            &&& result is Ok ==> are_svd_spectra(result->Ok_0.1@, all, stages)
        }
}

/// The compact SVD of all sectors, where the labels of both outputs are checked
/// against the source before anything is published, those of the left one
/// before the right one is laid out.
pub fn svd_compact_by_sector_checked<
    D: Copy,
    V,
    X,
    F: Fn(&[D], usize, usize) -> Result<SvdStage<D, V>, OperationError>,
    G: Fn(&SectorLeg) -> Result<MapSpace, X>,
    H: Fn(&SectorLeg) -> Result<MapSpace, X>,
>(
    input: &InputMatricizations<'_, D>,
    svd: &F,
    left_layout: &G,
    right_layout: &H,
    zero: D,
) -> (result: Result<(FactorsOnSpaces<D>, Vec<SectorSpectrum<V>>), DriveError<X>>)
    requires
        input_holds(*input),
        sectors_distinct(input_geometries(*input)),
        is_svd(svd),
        takes_legs(left_layout),
        takes_legs(right_layout),
        labelled_layouts_take::<D, X, &G, &H>(
            left_layout,
            right_layout,
            input_geometries(*input),
            BondExtent::Compact,
        ),
    ensures
        svds_published(result, *input, svd, left_layout, right_layout, zero),
{
    let ghost all = input_geometries(*input);
    let stages = match sector_stages(input, svd) {
        Ok(stages) => stages,
        Err(error) => {
            assert(sector_failed::<D, SvdStage<D, V>, &F>(error, *input, svd));
            return Err(DriveError::Operation(error));
        },
    };
    let ghost found = stages@;
    let (pairs, spectra) = match input {
        InputMatricizations::Regions { regions, .. } => svd_pairs(regions.as_slice(), stages),
        InputMatricizations::Packed(matrices) => svd_pairs(matrices.as_slice(), stages),
    };
    proof {
        assert(factored_until(found, None, *input, svd));
        assert(are_svd_pairs(pairs@, all, found));
        lemma_svd_pairs_shaped(pairs@, found, None, *input, svd);
        let shape = FactorShape::Bond(BondExtent::Compact);
        assert forall|k: int| 0 <= k < pairs@.len() implies is_sized_pair(
            #[trigger] pairs@[k],
            all[k],
            shape,
        ) by {
            assert(is_shaped_pair(pairs@[k], all[k]));
        }
        assert(are_sized_pairs(pairs@, all, shape));
        assert(labelled_spaces_take::<D, X, &G, &H>(left_layout, right_layout, all, pairs@));
    }
    let published = match input {
        InputMatricizations::Regions { regions, .. } => publish_labelled_pair(
            regions.as_slice(),
            pairs,
            left_layout,
            right_layout,
            zero,
        ),
        InputMatricizations::Packed(matrices) => publish_labelled_pair(
            matrices.as_slice(),
            pairs,
            left_layout,
            right_layout,
            zero,
        ),
    };
    match published {
        Ok(factors) => Ok((factors, spectra)),
        Err(error) => Err(error),
    }
}

} // verus!
