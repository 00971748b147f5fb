//! Eigendecompositions from the sector matrices to the published eigenvectors.

use vstd::prelude::*;

use crate::bond::{bond_of_pairs, with_rank, BondDimensions};
use crate::compact_drive::{input_geometries, lemma_found_shape, sector_failed};
use crate::sides::{bond_leg, lays_out, plain_leg, takes_legs, DriveError};
use crate::compact_fits::{lemma_shaped_bond, lemma_sized_reads, sizes_agree};
use crate::eigen_full::{
    are_eigen_pairs, eig_full_dyn, eig_full_dyn_checked_generic, eigen_reads_fit, eigen_spectra,
    eigenvectors_checked, eigenvectors_published, EigenStage,
};
use crate::error::OperationError;
use crate::factor::{FactorPair, SectorRank};
use crate::geometry::{
    geometries, sectors_distinct, Geometry, SectorGeometry,
};
use crate::input::InputMatricizations;
use crate::layout::{filled, FactorSide};
use crate::layout_fits::factor_reads_are_inside;
use crate::pair::{factor_reads_fit, scatter_one_side, scatter_sector_factors, SectorFactor};
use crate::publish::{lacks_some_placement, reads_fit, zeros};
use crate::route_drive::is_eigensolver;
use crate::space::{MapSpace, SectorLeg};
use crate::spectrum::SectorSpectrum;
use crate::stage_fits::{checked_eigen_stages_are_inside, eigen_stages_are_inside};
use crate::stages::{factored_until, input_holds, sector_stages, stages_until_failure};
use crate::structure::{Block, BlockStructure};
use crate::writes::apply_writes;

verus! {

/// Square factors of the first sectors, whatever their elements.
pub open spec fn are_square_factors<D>(
    factors: Seq<SectorFactor<D>>,
    geometries: Seq<Geometry>,
) -> bool {
    &&& factors.len() <= geometries.len()
    &&& forall|k: int|
        0 <= k < factors.len() ==> (#[trigger] factors[k]).leading == geometries[k].rows
            && factors[k].data@.len() == geometries[k].rows * geometries[k].rows
}

/// The output is filled from inside square factors, whatever their elements and
/// however many sectors have some.
pub open spec fn square_scatter_fits<D>(blocks: Seq<Block>, geometries: Seq<Geometry>) -> bool {
    forall|factors: Seq<SectorFactor<D>>| #[trigger]
        are_square_factors(factors, geometries) ==> factor_reads_fit(
            blocks,
            geometries,
            factors,
            FactorSide::Left,
        )
}

/// The eigenvectors of the first sectors as factors.
pub open spec fn are_vector_factors<D, V>(
    factors: Seq<SectorFactor<D>>,
    geometries: Seq<Geometry>,
    stages: Seq<EigenStage<D, V>>,
) -> bool {
    &&& factors.len() == stages.len()
    &&& forall|k: int|
        0 <= k < factors.len() ==> (#[trigger] factors[k]).data == stages[k].vectors
            && factors[k].leading == geometries[k].rows
}

/// The Hermitian eigendecomposition of all sectors: for each of them eigenvectors
/// that the backend gave for the sector's own matrix, scattered over the output.
/// A sector is scattered before the next one is given to the backend, so that
/// its refusal comes before a later failure.
pub open spec fn eigenvectors_scattered<
    D,
    V,
    F: Fn(&[D], usize, usize) -> Result<EigenStage<D, V>, OperationError>,
>(
    result: Result<(Vec<D>, Vec<SectorSpectrum<V>>), OperationError>,
    structure: BlockStructure,
    input: InputMatricizations<'_, D>,
    eigen: F,
    zero: D,
) -> bool {
    let all = input_geometries(input);
    exists|
        stages: Seq<EigenStage<D, V>>,
        failure: Option<OperationError>,
        factors: Seq<SectorFactor<D>>,
    |
        {
            &&& #[trigger] factored_until(stages, failure, input, eigen)
            &&& #[trigger] are_vector_factors(factors, all, stages)
            &&& match (scatter_one_side(
                structure.spec_blocks(),
                all,
                factors,
                FactorSide::Left,
                factors.len() as int,
            ), failure, result) {
                (Err(error), _, Err(given)) => given == error,
                (Ok(_), Some(error), Err(given)) => given == error,
                (Ok(writes), None, Ok((data, spectra))) => {
                    &&& data@ == apply_writes(zeros(zero, structure.spec_len() as int), writes)
                    &&& spectra@ == eigen_spectra(all, stages)
                },
                _ => false,
            }
        }
}

/// The factors and the spectra of all stages.
fn vector_factors<D, V, M: SectorGeometry>(
    matrices: &[M],
    stages: Vec<EigenStage<D, V>>,
) -> (result: (Vec<SectorFactor<D>>, Vec<SectorSpectrum<V>>))
    requires
        stages@.len() <= matrices@.len(),
    ensures
        are_vector_factors(result.0@, geometries(matrices@), stages@),
        result.1@ == eigen_spectra(geometries(matrices@), stages@),
{
    let ghost all = geometries(matrices@);
    let ghost given = stages@;
    let mut factors: Vec<SectorFactor<D>> = Vec::with_capacity(stages.len());
    let mut spectra: Vec<SectorSpectrum<V>> = Vec::with_capacity(stages.len());
    let mut k: usize = 0;
    for stage in iter: stages
        invariant
            iter.seq() == given,
            k == iter.index(),
            given.len() <= matrices@.len(),
            all == geometries(matrices@),
            factors@.len() == k,
            spectra@.len() == k,
            forall|j: int|
                0 <= j < k ==> (#[trigger] factors@[j]).data == given[j].vectors
                    && factors@[j].leading == all[j].rows,
            forall|j: int|
                0 <= j < k ==> #[trigger] spectra@[j] == (SectorSpectrum {
                    sector: all[j].sector,
                    values: given[j].values,
                }),
    {
        assert(stage == given[k as int]);
        assert(all[k as int] == matrices@[k as int].geometry());
        factors.push(SectorFactor { data: stage.vectors, leading: matrices[k].rows() });
        spectra.push(SectorSpectrum { sector: matrices[k].sector(), values: stage.values });
        k += 1;
    }
    assert(spectra@ =~= eigen_spectra(all, given));
    (factors, spectra)
}

/// The Hermitian eigendecomposition of all sectors.
pub fn eigh_full_by_sector<
    D: Copy,
    V,
    F: Fn(&[D], usize, usize) -> Result<EigenStage<D, V>, OperationError>,
>(
    structure: &BlockStructure,
    input: &InputMatricizations<'_, D>,
    eigen: &F,
    zero: D,
) -> (result: Result<(Vec<D>, Vec<SectorSpectrum<V>>), OperationError>)
    requires
        structure.wf(),
        input_holds(*input),
        sectors_distinct(input_geometries(*input)),
        is_eigensolver(eigen),
        square_scatter_fits::<D>(structure.spec_blocks(), input_geometries(*input)),
    ensures
        eigenvectors_scattered(result, *structure, *input, eigen, zero),
{
    let ghost all = input_geometries(*input);
    let (stages, failure) = stages_until_failure(input, eigen);
    let ghost found = stages@;
    let (factors, spectra) = match input {
        InputMatricizations::Regions { regions, .. } => vector_factors(regions.as_slice(), stages),
        InputMatricizations::Packed(matrices) => vector_factors(matrices.as_slice(), stages),
    };
    proof {
        assert(factored_until(found, failure, *input, eigen));
        assert(are_vector_factors(factors@, all, found));
        assert forall|k: int| 0 <= k < factors@.len() implies (
        #[trigger] factors@[k]).leading == all[k].rows && factors@[k].data@.len() == all[k].rows
            * all[k].rows by {
            let matrix = lemma_found_shape(found, failure, *input, eigen, k);
        }
        assert(are_square_factors(factors@, all));
    }
    let scattered = match input {
        InputMatricizations::Regions { regions, .. } => scatter_sector_factors(
            structure,
            regions.as_slice(),
            factors.as_slice(),
            FactorSide::Left,
            zero,
        ),
        InputMatricizations::Packed(matrices) => scatter_sector_factors(
            structure,
            matrices.as_slice(),
            factors.as_slice(),
            FactorSide::Left,
            zero,
        ),
    };
    match scattered {
        Err(error) => Err(error),
        Ok(data) => match failure {
            Some(error) => Err(error),
            None => Ok((data, spectra)),
        },
    }
}

/// Square eigenvectors of all sectors, whatever their elements.
pub open spec fn are_square_stages<D, V>(
    stages: Seq<EigenStage<D, V>>,
    geometries: Seq<Geometry>,
) -> bool {
    &&& stages.len() == geometries.len()
    &&& forall|k: int|
        0 <= k < stages.len() ==> (#[trigger] stages[k]).vectors@.len() == geometries[k].rows
            * geometries[k].rows
}

/// The output is filled from inside square eigenvectors, whatever their
/// elements.
pub open spec fn square_publication_fits<D, V>(
    structure: BlockStructure,
    geometries: Seq<Geometry>,
) -> bool {
    forall|stages: Seq<EigenStage<D, V>>| #[trigger]
        are_square_stages(stages, geometries) ==> eigen_reads_fit(structure, geometries, stages)
}

/// The eigenvectors and eigenvalues of a tensor, with the space of the
/// eigenvectors.
#[derive(Clone, Debug, PartialEq, Eq)]
pub struct EigensystemOnSpace<E, V> {
    pub space: MapSpace,
    pub vectors: Vec<E>,
    pub values: Vec<SectorSpectrum<V>>,
}

/// A bond that holds each sector with its order, in ascending order of the
/// sectors.
pub open spec fn order_bond(geometries: Seq<Geometry>) -> Seq<SectorRank>
    decreases geometries.len(),
{
    if geometries.len() == 0 {
        Seq::empty()
    } else {
        with_rank(
            order_bond(geometries.drop_last()),
            SectorRank { sector: geometries.last().sector, kept: geometries.last().rows },
        )
    }
}

/// The bond of the orders of all sectors.
fn order_dimensions<M: SectorGeometry>(matricizations: &[M]) -> (dimensions: BondDimensions)
    ensures
        dimensions.wf(),
        dimensions@ == order_bond(geometries(matricizations@)),
{
    let ghost all = geometries(matricizations@);
    let mut dimensions = BondDimensions::new();
    let mut k: usize = 0;
    assert(all.take(0) =~= Seq::<Geometry>::empty());
    while k < matricizations.len()
        invariant
            k <= matricizations@.len(),
            all == geometries(matricizations@),
            dimensions.wf(),
            dimensions@ == order_bond(all.take(k as int)),
        decreases matricizations.len() - k,
    {
        assert(all[k as int] == matricizations@[k as int].geometry());
        dimensions.insert(matricizations[k].sector(), matricizations[k].rows());
        proof {
            assert(all.take(k + 1).drop_last() =~= all.take(k as int));
            assert(all.take(k + 1).last() == all[k as int]);
        }
        k += 1;
    }
    assert(all.take(k as int) =~= all);
    dimensions
}

/// Any leg can be asked for, and on the bond of the orders the space takes
/// square eigenvectors, whatever their elements; where trees are looked up first,
/// one of them may be missing instead.
pub open spec fn is_square_layout<E, V, X, G: Fn(&SectorLeg) -> Result<MapSpace, X>>(
    layout: G,
    geometries: Seq<Geometry>,
    checked: bool,
) -> bool {
    &&& takes_legs(layout)
    &&& forall|leg: &SectorLeg, space: MapSpace| #[trigger]
        call_ensures(layout, (leg,), Ok::<MapSpace, X>(space)) && leg@ == plain_leg(
            order_bond(geometries),
        ) ==> {
            &&& space.structure.wf()
            &&& (checked && lacks_some_placement(space.structure, geometries, FactorSide::Left))
                || square_publication_fits::<E, V>(space.structure, geometries)
        }
}

/// What publishing the eigenvectors in this space gives.
pub open spec fn eigensystem_on<E, V, X>(
    result: Result<EigensystemOnSpace<E, V>, DriveError<X>>,
    space: MapSpace,
    geometries: Seq<Geometry>,
    stages: Seq<EigenStage<E, V>>,
    checked: bool,
    zero: E,
    one: E,
) -> bool {
    let elements: Result<Seq<E>, OperationError> = match result {
        Ok(found) => Ok(found.vectors@),
        Err(DriveError::Operation(error)) => Err(error),
        Err(DriveError::Layout(_)) => Err(OperationError::ElementCountOverflow),
    };
    &&& !(result matches Err(DriveError::Layout(_)))
    &&& result is Ok ==> result->Ok_0.space == space && result->Ok_0.values@ == eigen_spectra(
        geometries,
        stages,
    )
    &&& if checked {
        eigenvectors_checked(elements, space.structure, geometries, stages, zero, one)
    } else {
        eigenvectors_published(elements, space.structure, geometries, stages, zero, one)
    }
}

/// What laying out the bond of the orders and publishing the eigenvectors there
/// gives.
pub open spec fn eigensystem_laid_out<
    E,
    V,
    X,
    G: Fn(&SectorLeg) -> Result<MapSpace, X>,
>(
    result: Result<EigensystemOnSpace<E, V>, DriveError<X>>,
    geometries: Seq<Geometry>,
    stages: Seq<EigenStage<E, V>>,
    layout: G,
    checked: bool,
    zero: E,
    one: E,
) -> bool {
    exists|answer: Result<MapSpace, X>|
        {
            &&& #[trigger] lays_out(layout, order_bond(geometries), answer)
            &&& match answer {
                Err(error) => result == Err::<EigensystemOnSpace<E, V>, DriveError<X>>(
                    DriveError::Layout(error),
                ),
                Ok(space) => eigensystem_on(
                    result,
                    space,
                    geometries,
                    stages,
                    checked,
                    zero,
                    one,
                ),
            }
        }
}

/// The eigendecomposition of all sectors: the first failure of the backend, or
/// eigenvectors that it gave for each sector's own matrix, published in a space
/// that was given for a bond that holds each sector with its order.
pub open spec fn eigensystem_published<
    D,
    E,
    V,
    X,
    F: Fn(&[D], usize, usize) -> Result<EigenStage<E, V>, OperationError>,
    G: Fn(&SectorLeg) -> Result<MapSpace, X>,
>(
    result: Result<EigensystemOnSpace<E, V>, DriveError<X>>,
    input: InputMatricizations<'_, D>,
    eigen: F,
    layout: G,
    checked: bool,
    zero: E,
    one: E,
) -> bool {
    ||| exists|error: OperationError|
        {
            &&& #[trigger] sector_failed::<D, EigenStage<E, V>, F>(error, input, eigen)
            &&& result == Err::<EigensystemOnSpace<E, V>, DriveError<X>>(
                DriveError::Operation(error),
            )
        }
    ||| exists|stages: Seq<EigenStage<E, V>>|
        {
            &&& #[trigger] factored_until(stages, None, input, eigen)
            &&& eigensystem_laid_out(
                result,
                input_geometries(input),
                stages,
                layout,
                checked,
                zero,
                one,
            )
        }
}

/// Lays out the bond of the orders, and publishes the eigenvectors there.
fn publish_eigensystem<
    E: Copy,
    V,
    X,
    M: SectorGeometry,
    G: Fn(&SectorLeg) -> Result<MapSpace, X>,
>(
    matricizations: &[M],
    stages: Vec<EigenStage<E, V>>,
    layout: &G,
    checked: bool,
    zero: E,
    one: E,
) -> (result: Result<EigensystemOnSpace<E, V>, DriveError<X>>)
    requires
        sectors_distinct(geometries(matricizations@)),
        are_square_stages(stages@, geometries(matricizations@)),
        is_square_layout::<E, V, X, &G>(layout, geometries(matricizations@), checked),
    ensures
        eigensystem_laid_out(
            result,
            geometries(matricizations@),
            stages@,
            layout,
            checked,
            zero,
            one,
        ),
{
    let ghost all = geometries(matricizations@);
    let dimensions = order_dimensions(matricizations);
    let leg = bond_leg(&dimensions);
    let answer = layout(&leg);
    proof {
        assert(call_ensures(layout, (&leg,), answer));
        assert(lays_out(layout, order_bond(all), answer));
    }
    let space = match answer {
        Ok(space) => space,
        Err(error) => {
            return Err(DriveError::Layout(error));
        },
    };
    assert(call_ensures(layout, (&leg,), Ok::<MapSpace, X>(space)));
    assert(are_square_stages(stages@, all));
    let found = if checked {
        eig_full_dyn_checked_generic(&space.structure, matricizations, stages, zero, one)
    } else {
        eig_full_dyn(&space.structure, matricizations, stages, zero, one)
    };
    match found {
        Ok((vectors, values)) => Ok(EigensystemOnSpace { space, vectors, values }),
        Err(error) => Err(DriveError::Operation(error)),
    }
}

/// The eigendecomposition of all sectors: every matrix is given to the backend,
/// the bond of the orders is laid out, and the eigenvectors are published there.
/// With `checked` every tree of a sector of the source is looked up before
/// anything is published.
pub fn eig_full_by_sector<
    D,
    E: Copy,
    V,
    X,
    F: Fn(&[D], usize, usize) -> Result<EigenStage<E, V>, OperationError>,
    G: Fn(&SectorLeg) -> Result<MapSpace, X>,
>(
    input: &InputMatricizations<'_, D>,
    eigen: &F,
    layout: &G,
    checked: bool,
    zero: E,
    one: E,
) -> (result: Result<EigensystemOnSpace<E, V>, DriveError<X>>)
    requires
        input_holds(*input),
        sectors_distinct(input_geometries(*input)),
        is_eigensolver(eigen),
        is_square_layout::<E, V, X, &G>(layout, input_geometries(*input), checked),
    ensures
        eigensystem_published(result, *input, eigen, layout, checked, zero, one),
{
    let ghost all = input_geometries(*input);
    let stages = match sector_stages(input, eigen) {
        Ok(stages) => stages,
        Err(error) => {
            assert(sector_failed::<D, EigenStage<E, V>, &F>(error, *input, eigen));
            return Err(DriveError::Operation(error));
        },
    };
    proof {
        assert(factored_until(stages@, None, *input, eigen));
        assert forall|k: int| 0 <= k < stages@.len() implies (
        #[trigger] stages@[k]).vectors@.len() == all[k].rows * all[k].rows by {
            let matrix = lemma_found_shape(stages@, None, *input, eigen, k);
        }
        assert(are_square_stages(stages@, all));
    }
    match input {
        InputMatricizations::Regions { regions, .. } => publish_eigensystem(
            regions.as_slice(),
            stages,
            layout,
            checked,
            zero,
            one,
        ),
        InputMatricizations::Packed(matrices) => publish_eigensystem(
            matrices.as_slice(),
            stages,
            layout,
            checked,
            zero,
            one,
        ),
    }
}

/// The squares of the orders of all sectors fit.
pub open spec fn squares_fit(geometries: Seq<Geometry>) -> bool {
    forall|k: int|
        0 <= k < geometries.len() ==> (#[trigger] geometries[k]).rows * geometries[k].rows
            <= usize::MAX
}

/// Square eigenvectors without elements to speak of.
fn unit_stages<M: SectorGeometry>(matricizations: &[M]) -> (stages: Option<Vec<EigenStage<(), ()>>>)
    ensures
        stages is Some <==> squares_fit(geometries(matricizations@)),
        stages is Some ==> are_square_stages(stages->0@, geometries(matricizations@)),
{
    let ghost all = geometries(matricizations@);
    let mut stages: Vec<EigenStage<(), ()>> = Vec::with_capacity(matricizations.len());
    let mut k: usize = 0;
    while k < matricizations.len()
        invariant
            k <= matricizations@.len(),
            all == geometries(matricizations@),
            stages@.len() == k,
            forall|j: int|
                0 <= j < k ==> (#[trigger] stages@[j]).vectors@.len() == all[j].rows * all[j].rows,
            forall|j: int| 0 <= j < k ==> (#[trigger] all[j]).rows * all[j].rows <= usize::MAX,
        decreases matricizations.len() - k,
    {
        assert(all[k as int] == matricizations@[k as int].geometry());
        let rows: usize = matricizations[k].rows();
        match rows.checked_mul(rows) {
            Some(len) => {
                stages.push(EigenStage { values: Vec::new(), vectors: filled((), len) });
            },
            None => {
                return None;
            },
        }
        k += 1;
    }
    Some(stages)
}

/// Whether the output is filled from inside square factors, however many sectors
/// have some.
pub fn square_scatter_is_inside<D, M: SectorGeometry>(
    structure: &BlockStructure,
    matricizations: &[M],
) -> (inside: bool)
    ensures
        inside == {
            &&& sectors_distinct(geometries(matricizations@))
            &&& squares_fit(geometries(matricizations@))
            &&& square_scatter_fits::<()>(structure.spec_blocks(), geometries(matricizations@))
        },
        inside ==> square_scatter_fits::<D>(
            structure.spec_blocks(),
            geometries(matricizations@),
        ),
{
    let ghost all = geometries(matricizations@);
    let ghost blocks = structure.spec_blocks();
    let stages = match unit_stages(matricizations) {
        Some(stages) => stages,
        None => {
            return false;
        },
    };
    let ghost shapes = stages@;
    let mut factors: Vec<SectorFactor<()>> = Vec::with_capacity(stages.len());
    let mut k: usize = 0;
    for stage in iter: stages
        invariant
            iter.seq() == shapes,
            k == iter.index(),
            shapes.len() == matricizations@.len(),
            all == geometries(matricizations@),
            are_square_stages(shapes, all),
            factors@.len() == k,
            forall|j: int|
                0 <= j < k ==> (#[trigger] factors@[j]).leading == all[j].rows
                    && factors@[j].data@.len() == all[j].rows * all[j].rows,
    {
        assert(stage == shapes[k as int]);
        assert(all[k as int] == matricizations@[k as int].geometry());
        factors.push(SectorFactor { data: stage.vectors, leading: matricizations[k].rows() });
        k += 1;
    }
    let inside = factor_reads_are_inside(
        structure,
        matricizations,
        factors.as_slice(),
        FactorSide::Left,
    );
    proof {
        assert(are_square_factors(factors@, all));
        if inside {
            assert forall|other: Seq<SectorFactor<()>>| #[trigger]
                are_square_factors(other, all) implies factor_reads_fit(
                blocks,
                all,
                other,
                FactorSide::Left,
            ) by {
                lemma_square_scatter(blocks, all, factors@, other);
            }
            assert forall|other: Seq<SectorFactor<D>>| #[trigger]
                are_square_factors(other, all) implies factor_reads_fit(
                blocks,
                all,
                other,
                FactorSide::Left,
            ) by {
                lemma_square_scatter(blocks, all, factors@, other);
            }
        }
    }
    inside
}

proof fn lemma_square_scatter<D, E>(
    blocks: Seq<Block>,
    geometries: Seq<Geometry>,
    a: Seq<SectorFactor<D>>,
    b: Seq<SectorFactor<E>>,
)
    requires
        are_square_factors(a, geometries),
        are_square_factors(b, geometries),
        b.len() <= a.len(),
        factor_reads_fit(blocks, geometries, a, FactorSide::Left),
    ensures
        factor_reads_fit(blocks, geometries, b, FactorSide::Left),
{
    assert forall|k: int| 0 <= k < b.len() implies a[k].leading == (#[trigger] b[k]).leading
        && a[k].data@.len() == b[k].data@.len() by {}
}

/// Whether the output is filled from inside square eigenvectors.
pub fn square_publication_is_inside<E, V, M: SectorGeometry>(
    structure: &BlockStructure,
    matricizations: &[M],
) -> (inside: bool)
    ensures
        inside == {
            &&& sectors_distinct(geometries(matricizations@))
            &&& squares_fit(geometries(matricizations@))
            &&& square_publication_fits::<(), ()>(*structure, geometries(matricizations@))
        },
        inside ==> square_publication_fits::<E, V>(*structure, geometries(matricizations@)),
{
    let ghost all = geometries(matricizations@);
    let stages = match unit_stages(matricizations) {
        Some(stages) => stages,
        None => {
            return false;
        },
    };
    let inside = eigen_stages_are_inside(structure, matricizations, stages.as_slice());
    let none: Vec<()> = Vec::new();
    proof {
        assert(are_square_stages(stages@, all));
        if inside {
            assert forall|other: Seq<EigenStage<(), ()>>| #[trigger]
                are_square_stages(other, all) implies eigen_reads_fit(*structure, all, other) by {
                lemma_square_publication(*structure, all, stages@, other, none);
            }
            assert forall|other: Seq<EigenStage<E, V>>| #[trigger]
                are_square_stages(other, all) implies eigen_reads_fit(*structure, all, other) by {
                lemma_square_publication(*structure, all, stages@, other, none);
            }
        }
    }
    inside
}

/// [`square_publication_is_inside`] where every tree of a sector of the source is
/// looked up first.
pub fn checked_square_publication_is_inside<E, V, M: SectorGeometry>(
    structure: &BlockStructure,
    matricizations: &[M],
) -> (inside: bool)
    ensures
        inside == {
            &&& sectors_distinct(geometries(matricizations@))
            &&& squares_fit(geometries(matricizations@))
            &&& (lacks_some_placement(*structure, geometries(matricizations@), FactorSide::Left)
                || square_publication_fits::<(), ()>(*structure, geometries(matricizations@)))
        },
        inside ==> lacks_some_placement(
            *structure,
            geometries(matricizations@),
            FactorSide::Left,
        ) || square_publication_fits::<E, V>(*structure, geometries(matricizations@)),
{
    let ghost all = geometries(matricizations@);
    let stages = match unit_stages(matricizations) {
        Some(stages) => stages,
        None => {
            return false;
        },
    };
    let inside = checked_eigen_stages_are_inside(structure, matricizations, stages.as_slice());
    let none: Vec<()> = Vec::new();
    proof {
        assert(are_square_stages(stages@, all));
        if eigen_reads_fit(*structure, all, stages@) {
            assert forall|other: Seq<EigenStage<(), ()>>| #[trigger]
                are_square_stages(other, all) implies eigen_reads_fit(*structure, all, other) by {
                lemma_square_publication(*structure, all, stages@, other, none);
            }
            assert forall|other: Seq<EigenStage<E, V>>| #[trigger]
                are_square_stages(other, all) implies eigen_reads_fit(*structure, all, other) by {
                lemma_square_publication(*structure, all, stages@, other, none);
            }
        }
    }
    inside
}

proof fn lemma_square_publication<D, V, E, W>(
    structure: BlockStructure,
    geometries: Seq<Geometry>,
    a: Seq<EigenStage<D, V>>,
    b: Seq<EigenStage<E, W>>,
    none: Vec<D>,
)
    requires
        none@.len() == 0,
        are_square_stages(a, geometries),
        are_square_stages(b, geometries),
        eigen_reads_fit(structure, geometries, a),
    ensures
        eigen_reads_fit(structure, geometries, b),
{
    let left = FactorSide::Left;
    let pairs = Seq::new(
        a.len(),
        |k: int|
            FactorPair {
                sector: geometries[k].sector,
                kept: geometries[k].rows,
                left: a[k].vectors,
                left_rows: geometries[k].rows,
                right: none,
                right_leading: 0,
            },
    );
    assert(are_eigen_pairs(pairs, geometries, a));
    assert forall|other: Seq<FactorPair<E>>| #[trigger]
        are_eigen_pairs(other, geometries, b) implies reads_fit(
        structure.spec_blocks(),
        geometries,
        other,
        bond_of_pairs(other),
        left,
        left,
    ) by {
        assert forall|k: int| 0 <= k < pairs.len() implies {
            &&& (#[trigger] pairs[k]).sector == other[k].sector
            &&& pairs[k].kept == other[k].kept
            &&& pairs[k].leading(left) == other[k].leading(left)
            &&& pairs[k].factor(left).len() == other[k].factor(left).len()
        } by {
            assert(other[k].left == b[k].vectors);
            assert(a[k].vectors@.len() == b[k].vectors@.len());
        }
        lemma_shaped_bond(pairs, other);
        assert(sizes_agree(pairs, other, left));
        lemma_sized_reads(
            structure.spec_blocks(),
            geometries,
            pairs,
            other,
            bond_of_pairs(pairs),
            left,
            left,
        );
    }
}

} // verus!
