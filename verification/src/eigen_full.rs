//! Eigendecompositions: sorted sectors and the publication of their vectors.

use vstd::prelude::*;

use crate::bond::{bond_of_pairs, BondDimensions};
use crate::dense::{column, is_permutation};
use crate::eigen::{descending_order, gather_columns, gather_values, is_descending};
use crate::error::OperationError;
use crate::factor::FactorPair;
use crate::full::checked_data;
use crate::geometry::{geometries, sector_position, sectors_distinct, Geometry, SectorGeometry};
use crate::layout::FactorSide;
use crate::matricize::lemma_position_unique;
use crate::publish::{
    build_bound_factor, build_bound_factor_generic_checked, has_stray_pair,
    lacks_some_placement, published_data, reads_fit,
};
use crate::spectrum::SectorSpectrum;
use crate::structure::BlockStructure;

verus! {

/// The eigenvalues of one sector with the columns that belong to them.
#[derive(Clone, Debug, PartialEq, Eq)]
pub struct EigenStage<D, V> {
    pub values: Vec<V>,
    pub vectors: Vec<D>,
}

/// The stage holds the given values and columns in this order.
pub open spec fn stage_is_ordered<D, V>(
    stage: EigenStage<D, V>,
    values: Seq<V>,
    vectors: Seq<D>,
    order: Seq<usize>,
) -> bool {
    let n = values.len() as int;
    &&& order.len() == n
    &&& stage.values@ == Seq::new(n as nat, |k: int| values[order[k] as int])
    &&& stage.vectors@.len() == n * n
    &&& forall|k: int|
        0 <= k < n ==> #[trigger] column(stage.vectors@, n, k) == column(
            vectors,
            n,
            order[k] as int,
        )
}

/// The stage holds the given values and columns by descending key, equal keys in
/// their own order.
pub open spec fn stage_is_sorted<D, V>(
    stage: EigenStage<D, V>,
    values: Seq<V>,
    vectors: Seq<D>,
    keys: Seq<u64>,
) -> bool {
    exists|order: Seq<usize>|
        {
            &&& is_permutation(order, values.len() as int)
            &&& is_descending(keys, order)
            &&& #[trigger] stage_is_ordered(stage, values, vectors, order)
        }
}

/// Sorts eigenvalues by descending key, equal keys in their own order, and the
/// columns with them. The keys stand for the magnitudes of the values.
pub fn sort_eigenpairs<D: Copy, V: Copy>(values: &[V], vectors: &[D], keys: &[u64]) -> (stage:
    EigenStage<D, V>)
    requires
        keys@.len() == values@.len(),
        vectors@.len() == values@.len() * values@.len(),
    ensures
        stage_is_sorted(stage, values@, vectors@, keys@),
{
    let n: usize = values.len();
    let len: usize = vectors.len();
    let order = descending_order(keys);
    proof {
        assert(order@.len() * n == len);
        assert forall|k: int| 0 <= k < order@.len() implies ((#[trigger] order@[k]) + 1) * n
            <= vectors@.len() by {
            assert((order@[k] + 1) * n <= n * n) by (nonlinear_arith)
                requires
                    order@[k] < n,
            ;
        }
    }
    let sorted = gather_values(values, order.as_slice());
    let columns = gather_columns(vectors, n, order.as_slice());
    let stage = EigenStage { values: sorted, vectors: columns };
    assert(stage_is_ordered(stage, values@, vectors@, order@));
    stage
}

/// One pair for each sector: all its eigenvectors on the left, nothing on the
/// right.
pub open spec fn are_eigen_pairs<D, V>(
    pairs: Seq<FactorPair<D>>,
    geometries: Seq<Geometry>,
    stages: Seq<EigenStage<D, V>>,
) -> bool {
    &&& pairs.len() == geometries.len() == stages.len()
    &&& forall|k: int|
        0 <= k < pairs.len() ==> {
            &&& (#[trigger] pairs[k]).sector == geometries[k].sector
            &&& pairs[k].kept == geometries[k].rows
            &&& pairs[k].left == stages[k].vectors
            &&& pairs[k].left_rows == geometries[k].rows
            &&& pairs[k].right@.len() == 0
        }
}

/// The spectra of all sectors.
pub open spec fn eigen_spectra<D, V>(
    geometries: Seq<Geometry>,
    stages: Seq<EigenStage<D, V>>,
) -> Seq<SectorSpectrum<V>> {
    Seq::new(
        stages.len(),
        |k: int| SectorSpectrum { sector: geometries[k].sector, values: stages[k].values },
    )
}

/// The eigenvectors of all sectors are read inside their matrices, up to the
/// first refusal.
pub open spec fn eigen_reads_fit<D, V>(
    structure: BlockStructure,
    geometries: Seq<Geometry>,
    stages: Seq<EigenStage<D, V>>,
) -> bool {
    forall|pairs: Seq<FactorPair<D>>| #[trigger]
        are_eigen_pairs(pairs, geometries, stages) ==> reads_fit(
            structure.spec_blocks(),
            geometries,
            pairs,
            bond_of_pairs(pairs),
            FactorSide::Left,
            FactorSide::Left,
        )
}

/// The data of the eigenvectors of all sectors on a bond of their ranks.
pub open spec fn eigenvectors_published<D, V>(
    result: Result<Seq<D>, OperationError>,
    structure: BlockStructure,
    geometries: Seq<Geometry>,
    stages: Seq<EigenStage<D, V>>,
    zero: D,
    one: D,
) -> bool {
    exists|pairs: Seq<FactorPair<D>>|
        {
            &&& #[trigger] are_eigen_pairs(pairs, geometries, stages)
            &&& result == published_data(
                structure,
                geometries,
                pairs,
                bond_of_pairs(pairs),
                FactorSide::Left,
                FactorSide::Left,
                zero,
                one,
            )
        }
}

/// The same after every tree of a sector of the source was looked up.
pub open spec fn eigenvectors_checked<D, V>(
    result: Result<Seq<D>, OperationError>,
    structure: BlockStructure,
    geometries: Seq<Geometry>,
    stages: Seq<EigenStage<D, V>>,
    zero: D,
    one: D,
) -> bool {
    exists|pairs: Seq<FactorPair<D>>|
        {
            &&& #[trigger] are_eigen_pairs(pairs, geometries, stages)
            &&& result == checked_data(
                structure,
                geometries,
                pairs,
                bond_of_pairs(pairs),
                FactorSide::Left,
                zero,
                one,
            )
        }
}

/// The elements of the eigenvectors that a result holds.
pub open spec fn vector_elements<D, V>(
    result: Result<(Vec<D>, Vec<SectorSpectrum<V>>), OperationError>,
) -> Result<Seq<D>, OperationError> {
    match result {
        Ok((data, _)) => Ok(data@),
        Err(error) => Err(error),
    }
}

/// Pairs and spectra of all sectors.
fn eigen_stage_pairs<D, V, M: SectorGeometry>(
    matricizations: &[M],
    stages: Vec<EigenStage<D, V>>,
) -> (result: (Vec<FactorPair<D>>, Vec<SectorSpectrum<V>>))
    requires
        stages@.len() == matricizations@.len(),
    ensures
        are_eigen_pairs(result.0@, geometries(matricizations@), stages@),
        result.1@ == eigen_spectra(geometries(matricizations@), stages@),
{
    let ghost all = geometries(matricizations@);
    let ghost given = stages@;
    let mut pairs: Vec<FactorPair<D>> = Vec::with_capacity(matricizations.len());
    let mut spectra: Vec<SectorSpectrum<V>> = Vec::with_capacity(matricizations.len());
    let mut k: usize = 0;
    for stage in iter: stages
        invariant
            iter.seq() == given,
            k == iter.index(),
            given.len() == matricizations@.len(),
            all == geometries(matricizations@),
            pairs@.len() == k,
            forall|j: int|
                0 <= j < k ==> {
                    &&& (#[trigger] pairs@[j]).sector == all[j].sector
                    &&& pairs@[j].kept == all[j].rows
                    &&& pairs@[j].left == given[j].vectors
                    &&& pairs@[j].left_rows == all[j].rows
                    &&& pairs@[j].right@.len() == 0
                },
            spectra@.len() == k,
            forall|j: int| 0 <= j < k ==> (#[trigger] spectra@[j]) == eigen_spectra(all, given)[j],
    {
        let sector = matricizations[k].sector();
        let rows: usize = matricizations[k].rows();
        assert(stage == given[k as int]);
        assert(all[k as int] == matricizations@[k as int].geometry());
        pairs.push(
            FactorPair {
                sector,
                kept: rows,
                left: stage.vectors,
                left_rows: rows,
                right: Vec::new(),
                right_leading: 0,
            },
        );
        spectra.push(SectorSpectrum { sector, values: stage.values });
        k += 1;
    }
    assert(spectra@ =~= eigen_spectra(all, given));
    (pairs, spectra)
}

proof fn lemma_eigen_pairs_belong<D, V>(
    pairs: Seq<FactorPair<D>>,
    geometries: Seq<Geometry>,
    stages: Seq<EigenStage<D, V>>,
)
    requires
        sectors_distinct(geometries),
        are_eigen_pairs(pairs, geometries, stages),
    ensures
        !has_stray_pair(geometries, pairs),
{
    assert forall|k: int| 0 <= k < pairs.len() implies sector_position(
        geometries,
        (#[trigger] pairs[k]).sector,
        0,
    ) is Some by {
        lemma_position_unique(geometries, k);
    }
}

/// Publishes a general eigendecomposition: the eigenvectors of all sectors on a
/// bond that holds each sector with its order, and their spectra.
pub fn eig_full_dyn<D: Copy, V, M: SectorGeometry>(
    structure: &BlockStructure,
    matricizations: &[M],
    stages: Vec<EigenStage<D, V>>,
    zero: D,
    one: D,
) -> (result: Result<(Vec<D>, Vec<SectorSpectrum<V>>), OperationError>)
    requires
        structure.wf(),
        stages@.len() == matricizations@.len(),
        sectors_distinct(geometries(matricizations@)),
        eigen_reads_fit(*structure, geometries(matricizations@), stages@),
    ensures
        eigenvectors_published(
            vector_elements(result),
            *structure,
            geometries(matricizations@),
            stages@,
            zero,
            one,
        ),
        result is Ok ==> result->Ok_0.1@ == eigen_spectra(geometries(matricizations@), stages@),
{
    let (pairs, spectra) = eigen_stage_pairs(matricizations, stages);
    let mut pairs = pairs;
    let ghost before = pairs@;
    proof {
        lemma_eigen_pairs_belong(before, geometries(matricizations@), stages@);
    }
    let dimensions = BondDimensions::of_pairs(pairs.as_slice());
    match build_bound_factor(
        structure,
        matricizations,
        &mut pairs,
        &dimensions,
        FactorSide::Left,
        zero,
        one,
    ) {
        Err(error) => {
            assert(are_eigen_pairs(before, geometries(matricizations@), stages@));
            Err(error)
        },
        Ok(data) => {
            assert(are_eigen_pairs(before, geometries(matricizations@), stages@));
            Ok((data, spectra))
        },
    }
}

/// Publishes an eigendecomposition whose trees carry outer multiplicities.
pub fn eig_full_dyn_checked_generic<D: Copy, V, M: SectorGeometry>(
    structure: &BlockStructure,
    matricizations: &[M],
    stages: Vec<EigenStage<D, V>>,
    zero: D,
    one: D,
) -> (result: Result<(Vec<D>, Vec<SectorSpectrum<V>>), OperationError>)
    requires
        structure.wf(),
        stages@.len() == matricizations@.len(),
        sectors_distinct(geometries(matricizations@)),
        lacks_some_placement(*structure, geometries(matricizations@), FactorSide::Left)
            || eigen_reads_fit(*structure, geometries(matricizations@), stages@),
    ensures
        eigenvectors_checked(
            vector_elements(result),
            *structure,
            geometries(matricizations@),
            stages@,
            zero,
            one,
        ),
        result is Ok ==> result->Ok_0.1@ == eigen_spectra(geometries(matricizations@), stages@),
{
    let (pairs, spectra) = eigen_stage_pairs(matricizations, stages);
    let mut pairs = pairs;
    let ghost before = pairs@;
    let dimensions = BondDimensions::of_pairs(pairs.as_slice());
    match build_bound_factor_generic_checked(
        structure,
        matricizations,
        &mut pairs,
        &dimensions,
        FactorSide::Left,
        zero,
        one,
    ) {
        Err(error) => {
            assert(are_eigen_pairs(before, geometries(matricizations@), stages@));
            Err(error)
        },
        Ok(data) => {
            assert(are_eigen_pairs(before, geometries(matricizations@), stages@));
            Ok((data, spectra))
        },
    }
}

} // verus!
