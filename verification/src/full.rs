//! Full factorizations: completed bases and their publication.

use vstd::prelude::*;

use crate::bond::BondDimensions;
use crate::dense::{
    adjoint_col_major, adjoint_matrix, copy_col_major_strided, lemma_adjoint_matrix, matrix_fits,
    strided_copy_writes,
};
use crate::error::OperationError;
use crate::factor::{source_side, FactorPair, FactorPlacement, SectorRank};
use crate::geometry::{geometries, sector_position, sectors_distinct, Geometry, SectorGeometry};
use crate::layout::{filled, FactorSide};
use crate::matricize::lemma_position_unique;
use crate::placement::missing_tree;
use crate::publish::{
    blocks_accepted, both_reads_fit, build_bound_factor_generic_checked,
    build_bound_factor_with_placement, has_stray_pair, lacks_some_placement,
    lemma_other_side_unmoved, lemma_published_walk, published_data, reads_fit, scope, zeros,
};
use crate::solve_routes::{identity_matrix, identity_workspace};
use crate::spectrum::{
    block_diagonals, is_bond_block, is_function, rectangular_diagonal_data, SectorSpectrum,
};
use crate::structure::BlockStructure;
use crate::writes::{apply_writes, lemma_disjoint_writes_read_back, lemma_writes_len};

verus! {

/// The columns of a basis followed by an identity: `[thin | I]`.
pub fn augment_with_identity<D: Copy>(
    thin: &[D],
    rows: usize,
    rank: usize,
    zero: D,
    one: D,
) -> (augmented: Vec<D>)
    requires
        thin@.len() == rows * rank,
        rows * rows <= usize::MAX,
        rows * rank + rows * rows <= usize::MAX,
    ensures
        augmented@ == thin@ + identity_matrix(rows as int, zero, one),
{
    let mut augmented: Vec<D> = vstd::slice::slice_to_vec(thin);
    match identity_workspace(rows, zero, one) {
        Ok(identity) => {
            let mut identity = identity;
            augmented.append(&mut identity);
        },
        Err(_) => {},
    }
    augmented
}

/// A basis completed by the trailing columns of an orthonormal square: the
/// columns that were there stay unchanged.
pub fn completed_basis<D: Copy>(
    thin: &[D],
    square: &[D],
    rows: usize,
    rank: usize,
) -> (full: Vec<D>)
    requires
        rank <= rows,
        thin@.len() == rows * rank,
        square@.len() == rows * rows,
        rows * rank <= rows * rows,
    ensures
        full@ == thin@ + square@.subrange(rows * rank, rows * rows),
        full@.len() == rows * rows,
        full@.subrange(0, rows * rank) == thin@,
{
    let mut full: Vec<D> = vstd::slice::slice_to_vec(thin);
    let len: usize = square.len();
    let tail = vstd::slice::slice_subrange(square, thin.len(), len);
    let mut rest: Vec<D> = vstd::slice::slice_to_vec(tail);
    full.append(&mut rest);
    assert(full@.subrange(0, rows * rank) =~= thin@);
    full
}

/// The first `cols` columns of a matrix with `rows` rows.
pub fn leading_columns<D: Copy>(matrix: &[D], rows: usize, cols: usize) -> (part: Vec<D>)
    requires
        rows * cols <= matrix@.len(),
    ensures
        part@ == matrix@.take(rows * cols),
{
    let len: usize = matrix.len();
    let part = vstd::slice::slice_subrange(matrix, 0, rows * cols);
    vstd::slice::slice_to_vec(part)
}

/// A `rows x cols` matrix gathered from a workspace with its own leading
/// dimension.
pub fn gather_from_workspace<D: Copy>(
    workspace: &[D],
    rows: usize,
    cols: usize,
    leading: usize,
    zero: D,
) -> (matrix: Vec<D>)
    requires
        rows * cols <= usize::MAX,
        matrix_fits(rows as int, cols as int, leading as int, workspace@.len() as int),
    ensures
        matrix@ == Seq::new(
            (rows * cols) as nat,
            |n: int| workspace@[leading * (n / (rows as int)) + n % (rows as int)],
        ),
{
    let mut matrix: Vec<D> = filled(zero, rows * cols);
    let ghost empty = matrix@;
    proof {
        if rows > 0 && cols > 0 {
            assert(rows * (cols - 1) + rows == rows * cols) by (nonlinear_arith);
        }
    }
    copy_col_major_strided(workspace, rows, cols, leading, matrix.as_mut_slice(), rows);
    proof {
        let writes = strided_copy_writes(
            workspace@,
            rows as int,
            cols as int,
            leading as int,
            rows as int,
        );
        lemma_writes_len(empty, writes);
        assert forall|n: int| 0 <= n < writes.len() implies (#[trigger] writes[n]).0 == n by {
            crate::index::lemma_split_bounds(n, rows as int, cols as int);
        }
        lemma_disjoint_writes_read_back(empty, writes);
        let expected = Seq::new(
            (rows * cols) as nat,
            |n: int| workspace@[leading * (n / (rows as int)) + n % (rows as int)],
        );
        assert forall|n: int| 0 <= n < matrix@.len() implies matrix@[n] == expected[n] by {
            assert(writes[n].0 == n);
        }
        assert(matrix@ =~= expected);
    }
    matrix
}

/// Both square factors of one sector's full SVD, with the singular values.
#[derive(Clone, Debug, PartialEq, Eq)]
pub struct FullSvdStage<D, V> {
    pub left: Vec<D>,
    pub left_rows: usize,
    pub right: Vec<D>,
    pub right_leading: usize,
    pub singular_values: Vec<V>,
}

/// The stage holds both factors as they stand, or those of the adjoint.
pub open spec fn is_oriented<D, V, F: Fn(D) -> D>(
    stage: FullSvdStage<D, V>,
    u: Vec<D>,
    rows: usize,
    vh: Vec<D>,
    cols: usize,
    singular_values: Vec<V>,
    placement: FactorPlacement,
    conjugate: F,
) -> bool {
    &&& stage.singular_values == singular_values
    &&& match placement {
        FactorPlacement::Direct => {
            &&& stage.left == u
            &&& stage.left_rows == rows
            &&& stage.right == vh
            &&& stage.right_leading == cols
        },
        FactorPlacement::Adjoint => {
            &&& stage.left@ == adjoint_matrix(conjugate, vh@, cols as int, cols as int)
            &&& stage.left_rows == cols
            &&& stage.right@ == adjoint_matrix(conjugate, u@, rows as int, rows as int)
            &&& stage.right_leading == rows
        },
    }
}

/// The square factors of a full SVD as they stand (direct), or those of the
/// adjoint, whose left factor is the adjoint of `vh` and whose right factor is
/// the adjoint of `u`.
pub fn orient_full_svd<D: Copy, V, F: Fn(D) -> D>(
    u: Vec<D>,
    rows: usize,
    vh: Vec<D>,
    cols: usize,
    singular_values: Vec<V>,
    placement: FactorPlacement,
    conjugate: &F,
) -> (stage: FullSvdStage<D, V>)
    requires
        is_function(conjugate),
        u@.len() == rows * rows,
        vh@.len() == cols * cols,
    ensures
        is_oriented(stage, u, rows, vh, cols, singular_values, placement, conjugate),
{
    match placement {
        FactorPlacement::Direct => FullSvdStage {
            left: u,
            left_rows: rows,
            right: vh,
            right_leading: cols,
            singular_values,
        },
        FactorPlacement::Adjoint => {
            let left = adjoint_col_major(vh.as_slice(), cols, cols, conjugate);
            let right = adjoint_col_major(u.as_slice(), rows, rows, conjugate);
            proof {
                lemma_adjoint_matrix(conjugate, vh@, cols as int, cols as int, left@);
                lemma_adjoint_matrix(conjugate, u@, rows as int, rows as int, right@);
            }
            FullSvdStage {
                left,
                left_rows: cols,
                right,
                right_leading: rows,
                singular_values,
            }
        },
    }
}

/// Publishes both factors with a bond of its own each, the left one first.
pub fn build_two_sided_factors<D: Copy, M: SectorGeometry>(
    left_structure: &BlockStructure,
    right_structure: &BlockStructure,
    matricizations: &[M],
    pairs: &mut Vec<FactorPair<D>>,
    left_dimensions: &BondDimensions,
    right_dimensions: &BondDimensions,
    placement: FactorPlacement,
    zero: D,
    one: D,
) -> (result: Result<(Vec<D>, Vec<D>), OperationError>)
    requires
        left_structure.wf(),
        right_structure.wf(),
        sectors_distinct(geometries(matricizations@)),
        has_stray_pair(geometries(matricizations@), old(pairs)@) || both_reads_fit(
            *left_structure,
            *right_structure,
            geometries(matricizations@),
            old(pairs)@,
            left_dimensions@,
            right_dimensions@,
            source_side(FactorSide::Left, placement),
            source_side(FactorSide::Right, placement),
        ),
    ensures
        two_sided_result(
            result,
            *left_structure,
            *right_structure,
            geometries(matricizations@),
            old(pairs)@,
            left_dimensions@,
            right_dimensions@,
            placement,
            zero,
            one,
        ),
{
    let left = build_bound_factor_with_placement(
        left_structure,
        matricizations,
        pairs,
        left_dimensions,
        FactorSide::Left,
        placement,
        zero,
        one,
    );
    match left {
        Err(error) => Err(error),
        Ok(left_data) => {
            proof {
                lemma_published_walk(
                    *left_structure,
                    geometries(matricizations@),
                    old(pairs)@,
                    left_dimensions@,
                    FactorSide::Left,
                    source_side(FactorSide::Left, placement),
                    zero,
                    one,
                );
                lemma_other_side_unmoved(
                    *right_structure,
                    geometries(matricizations@),
                    old(pairs)@,
                    pairs@,
                    right_dimensions@,
                    FactorSide::Right,
                    source_side(FactorSide::Right, placement),
                    zero,
                    one,
                );
            }
            match build_bound_factor_with_placement(
                right_structure,
                matricizations,
                pairs,
                right_dimensions,
                FactorSide::Right,
                placement,
                zero,
                one,
            ) {
                Err(error) => Err(error),
                Ok(right_data) => Ok((left_data, right_data)),
            }
        },
    }
}

/// Both factors as they are published, or the first refusal.
pub open spec fn two_sided_result<D>(
    result: Result<(Vec<D>, Vec<D>), OperationError>,
    left_structure: BlockStructure,
    right_structure: BlockStructure,
    geometries: Seq<Geometry>,
    pairs: Seq<FactorPair<D>>,
    left_dimensions: Seq<SectorRank>,
    right_dimensions: Seq<SectorRank>,
    placement: FactorPlacement,
    zero: D,
    one: D,
) -> bool {
    let left = published_data(
        left_structure,
        geometries,
        pairs,
        left_dimensions,
        FactorSide::Left,
        source_side(FactorSide::Left, placement),
        zero,
        one,
    );
    let right = published_data(
        right_structure,
        geometries,
        pairs,
        right_dimensions,
        FactorSide::Right,
        source_side(FactorSide::Right, placement),
        zero,
        one,
    );
    if has_stray_pair(geometries, pairs) {
        result == Err::<(Vec<D>, Vec<D>), OperationError>(
            scope("factor sector absent from the source tensor"),
        )
    } else {
        match (result, left, right) {
            (Ok((left_data, right_data)), Ok(left_elements), Ok(right_elements)) => {
                left_data@ == left_elements && right_data@ == right_elements
            },
            (Err(error), Err(expected), _) => error == expected,
            (Err(error), Ok(_), Err(expected)) => error == expected,
            _ => false,
        }
    }
}

/// The pairs of a full SVD: each sector keeps all columns of its left factor.
pub open spec fn full_pairs<D, V>(
    geometries: Seq<Geometry>,
    stages: Seq<FullSvdStage<D, V>>,
    count: int,
) -> Seq<FactorPair<D>> {
    Seq::new(
        count as nat,
        |k: int|
            FactorPair {
                sector: geometries[k].sector,
                kept: stages[k].left_rows,
                left: stages[k].left,
                left_rows: stages[k].left_rows,
                right: stages[k].right,
                right_leading: stages[k].right_leading,
            },
    )
}

/// The spectra of a full SVD.
pub open spec fn full_spectra<D, V>(
    geometries: Seq<Geometry>,
    stages: Seq<FullSvdStage<D, V>>,
    count: int,
) -> Seq<SectorSpectrum<V>> {
    Seq::new(
        count as nat,
        |k: int|
            SectorSpectrum { sector: geometries[k].sector, values: stages[k].singular_values },
    )
}

/// The data of a full SVD.
#[derive(Clone, Debug, PartialEq, Eq)]
pub struct SvdFullData<D, V> {
    pub u: Vec<D>,
    pub s: Vec<D>,
    pub vh: Vec<D>,
    pub singular_values: Vec<SectorSpectrum<V>>,
}

/// The pairs and the spectra of a full SVD, sector by sector.
pub(crate) fn full_stage_pairs<D, V, M: SectorGeometry>(
    matricizations: &[M],
    stages: Vec<FullSvdStage<D, V>>,
) -> (result: (Vec<FactorPair<D>>, Vec<SectorSpectrum<V>>))
    requires
        stages@.len() == matricizations@.len(),
    ensures
        result.0@ == full_pairs(geometries(matricizations@), stages@, stages@.len() as int),
        result.1@ == full_spectra(geometries(matricizations@), stages@, stages@.len() as int),
{
    let ghost all = geometries(matricizations@);
    let ghost given = stages@;
    let mut pairs: Vec<FactorPair<D>> = Vec::with_capacity(matricizations.len());
    let mut spectra: Vec<SectorSpectrum<V>> = Vec::with_capacity(matricizations.len());
    let mut k: usize = 0;
    proof {
        assert(pairs@ =~= full_pairs(all, given, 0));
        assert(spectra@ =~= full_spectra(all, given, 0));
    }
    for stage in iter: stages
        invariant
            iter.seq() == given,
            k == iter.index(),
            given.len() == matricizations@.len(),
            all == geometries(matricizations@),
            pairs@ == full_pairs(all, given, k as int),
            spectra@ == full_spectra(all, given, k as int),
    {
        let sector = matricizations[k].sector();
        assert(stage == given[k as int]);
        assert(all[k as int].sector == sector);
        pairs.push(
            FactorPair {
                sector,
                kept: stage.left_rows,
                left: stage.left,
                left_rows: stage.left_rows,
                right: stage.right,
                right_leading: stage.right_leading,
            },
        );
        spectra.push(SectorSpectrum { sector, values: stage.singular_values });
        proof {
            assert(pairs@ =~= full_pairs(all, given, k + 1));
            assert(spectra@ =~= full_spectra(all, given, k + 1));
        }
        k += 1;
    }
    (pairs, spectra)
}

/// The spectra stand on matrix blocks.
pub open spec fn bond_blocks_hold<V>(
    structure: BlockStructure,
    spectra: Seq<SectorSpectrum<V>>,
) -> bool {
    forall|k: int|
        0 <= k < structure.spec_blocks().len() ==> is_bond_block(
            #[trigger] structure.spec_blocks()[k],
            spectra,
        )
}

/// The outputs of a full SVD are filled from inside the factors of all sectors,
/// and its spectra stand on matrix blocks, each unless a refusal comes first.
pub open spec fn full_stages_fit<D, V>(
    u_structure: BlockStructure,
    vh_structure: BlockStructure,
    s_structure: BlockStructure,
    geometries: Seq<Geometry>,
    stages: Seq<FullSvdStage<D, V>>,
    left_dimensions: Seq<SectorRank>,
    right_dimensions: Seq<SectorRank>,
    placement: FactorPlacement,
) -> bool {
    let pairs = full_pairs(geometries, stages, stages.len() as int);
    let left_trees = source_side(FactorSide::Left, placement);
    let right_trees = source_side(FactorSide::Right, placement);
    &&& both_reads_fit(
        u_structure,
        vh_structure,
        geometries,
        pairs,
        left_dimensions,
        right_dimensions,
        left_trees,
        right_trees,
    )
    &&& blocks_accepted(
        u_structure,
        geometries,
        pairs,
        left_dimensions,
        FactorSide::Left,
        left_trees,
    ) && blocks_accepted(
        vh_structure,
        geometries,
        pairs,
        right_dimensions,
        FactorSide::Right,
        right_trees,
    ) ==> bond_blocks_hold(
        s_structure,
        full_spectra(geometries, stages, stages.len() as int),
    )
}

/// Publishes a full SVD from the oriented factors of every sector: the two
/// square outer factors, completed by identities in sectors that the source
/// does not have, and the rectangular diagonal between their bonds. For the
/// adjoint the row and column dimensions change places.
pub fn svd_full_oriented_dyn<D: Copy, V: Copy, M: SectorGeometry, F: Fn(V) -> D>(
    u_structure: &BlockStructure,
    vh_structure: &BlockStructure,
    s_structure: &BlockStructure,
    matricizations: &[M],
    stages: Vec<FullSvdStage<D, V>>,
    row_dimensions: &BondDimensions,
    col_dimensions: &BondDimensions,
    placement: FactorPlacement,
    to_scalar: &F,
    zero: D,
    one: D,
) -> (result: Result<SvdFullData<D, V>, OperationError>)
    requires
        u_structure.wf(),
        vh_structure.wf(),
        s_structure.wf(),
        stages@.len() == matricizations@.len(),
        sectors_distinct(geometries(matricizations@)),
        is_function(to_scalar),
        full_stages_fit(
            *u_structure,
            *vh_structure,
            *s_structure,
            geometries(matricizations@),
            stages@,
            match placement {
                FactorPlacement::Direct => row_dimensions@,
                FactorPlacement::Adjoint => col_dimensions@,
            },
            match placement {
                FactorPlacement::Direct => col_dimensions@,
                FactorPlacement::Adjoint => row_dimensions@,
            },
            placement,
        ),
    ensures
        ({
            let all = geometries(matricizations@);
            let pairs = full_pairs(all, stages@, stages@.len() as int);
            let spectra = full_spectra(all, stages@, stages@.len() as int);
            let left_dimensions = match placement {
                FactorPlacement::Direct => row_dimensions@,
                FactorPlacement::Adjoint => col_dimensions@,
            };
            let right_dimensions = match placement {
                FactorPlacement::Direct => col_dimensions@,
                FactorPlacement::Adjoint => row_dimensions@,
            };
            &&& two_sided_result(
                match result {
                    Ok(data) => Ok((data.u, data.vh)),
                    Err(error) => Err(error),
                },
                *u_structure,
                *vh_structure,
                all,
                pairs,
                left_dimensions,
                right_dimensions,
                placement,
                zero,
                one,
            )
            &&& result is Ok ==> {
                &&& result->Ok_0.singular_values@ == spectra
                &&& result->Ok_0.s@ == apply_writes(
                    zeros(zero, s_structure.spec_len() as int),
                    block_diagonals(
                        s_structure.spec_blocks(),
                        spectra,
                        to_scalar,
                        s_structure.spec_blocks().len() as int,
                    ),
                )
            }
        }),
{
    let ghost all = geometries(matricizations@);
    proof {
        lemma_full_pairs_belong(all, stages@);
    }
    let (pairs, spectra) = full_stage_pairs(matricizations, stages);
    let mut pairs = pairs;
    let ghost before = pairs@;
    let (left_dimensions, right_dimensions) = match placement {
        FactorPlacement::Direct => (row_dimensions, col_dimensions),
        FactorPlacement::Adjoint => (col_dimensions, row_dimensions),
    };
    match build_two_sided_factors(
        u_structure,
        vh_structure,
        matricizations,
        &mut pairs,
        left_dimensions,
        right_dimensions,
        placement,
        zero,
        one,
    ) {
        Err(error) => Err(error),
        Ok((u, vh)) => {
            proof {
                lemma_published_walk(
                    *u_structure,
                    all,
                    before,
                    left_dimensions@,
                    FactorSide::Left,
                    source_side(FactorSide::Left, placement),
                    zero,
                    one,
                );
                lemma_published_walk(
                    *vh_structure,
                    all,
                    before,
                    right_dimensions@,
                    FactorSide::Right,
                    source_side(FactorSide::Right, placement),
                    zero,
                    one,
                );
            }
            let s = rectangular_diagonal_data(s_structure, spectra.as_slice(), to_scalar, zero);
            Ok(SvdFullData { u, s, vh, singular_values: spectra })
        },
    }
}

/// The data of one checked factor: every tree of a sector of the source is
/// looked up before anything is published.
pub open spec fn checked_data<D>(
    structure: BlockStructure,
    geometries: Seq<Geometry>,
    pairs: Seq<FactorPair<D>>,
    dimensions: Seq<SectorRank>,
    side: FactorSide,
    zero: D,
    one: D,
) -> Result<Seq<D>, OperationError> {
    if lacks_some_placement(structure, geometries, side) {
        Err(missing_tree(side))
    } else {
        published_data(structure, geometries, pairs, dimensions, side, side, zero, one)
    }
}

/// [`full_stages_fit`] where every tree of a sector of the source is looked up
/// before its factor is published.
pub open spec fn checked_stages_fit<D, V>(
    u_structure: BlockStructure,
    vh_structure: BlockStructure,
    s_structure: BlockStructure,
    geometries: Seq<Geometry>,
    stages: Seq<FullSvdStage<D, V>>,
    row_dimensions: Seq<SectorRank>,
    col_dimensions: Seq<SectorRank>,
) -> bool {
    lacks_some_placement(u_structure, geometries, FactorSide::Left) || {
        let pairs = full_pairs(geometries, stages, stages.len() as int);
        let left = FactorSide::Left;
        let right = FactorSide::Right;
        &&& reads_fit(u_structure.spec_blocks(), geometries, pairs, row_dimensions, left, left)
        &&& blocks_accepted(u_structure, geometries, pairs, row_dimensions, left, left) ==> {
            lacks_some_placement(vh_structure, geometries, right) || {
                &&& reads_fit(
                    vh_structure.spec_blocks(),
                    geometries,
                    pairs,
                    col_dimensions,
                    right,
                    right,
                )
                &&& blocks_accepted(
                    vh_structure,
                    geometries,
                    pairs,
                    col_dimensions,
                    right,
                    right,
                ) ==> bond_blocks_hold(
                    s_structure,
                    full_spectra(geometries, stages, stages.len() as int),
                )
            }
        }
    }
}

/// Publishes a full SVD whose trees carry outer multiplicities: the left
/// factor is checked and published, and the right one after it.
pub fn svd_full_dyn_checked_generic<D: Copy, V: Copy, M: SectorGeometry, F: Fn(V) -> D>(
    u_structure: &BlockStructure,
    vh_structure: &BlockStructure,
    s_structure: &BlockStructure,
    matricizations: &[M],
    stages: Vec<FullSvdStage<D, V>>,
    row_dimensions: &BondDimensions,
    col_dimensions: &BondDimensions,
    to_scalar: &F,
    zero: D,
    one: D,
) -> (result: Result<SvdFullData<D, V>, OperationError>)
    requires
        u_structure.wf(),
        vh_structure.wf(),
        s_structure.wf(),
        stages@.len() == matricizations@.len(),
        sectors_distinct(geometries(matricizations@)),
        is_function(to_scalar),
        checked_stages_fit(
            *u_structure,
            *vh_structure,
            *s_structure,
            geometries(matricizations@),
            stages@,
            row_dimensions@,
            col_dimensions@,
        ),
    ensures
        ({
            let all = geometries(matricizations@);
            let pairs = full_pairs(all, stages@, stages@.len() as int);
            let spectra = full_spectra(all, stages@, stages@.len() as int);
            let left = checked_data(
                *u_structure,
                all,
                pairs,
                row_dimensions@,
                FactorSide::Left,
                zero,
                one,
            );
            let right = checked_data(
                *vh_structure,
                all,
                pairs,
                col_dimensions@,
                FactorSide::Right,
                zero,
                one,
            );
            match (result, left, right) {
                (Ok(data), Ok(u), Ok(vh)) => {
                    &&& data.u@ == u
                    &&& data.vh@ == vh
                    &&& data.singular_values@ == spectra
                    &&& data.s@ == apply_writes(
                        zeros(zero, s_structure.spec_len() as int),
                        block_diagonals(
                            s_structure.spec_blocks(),
                            spectra,
                            to_scalar,
                            s_structure.spec_blocks().len() as int,
                        ),
                    )
                },
                (Err(error), Err(expected), _) => error == expected,
                (Err(error), Ok(_), Err(expected)) => error == expected,
                _ => false,
            }
        }),
{
    let ghost all = geometries(matricizations@);
    proof {
        lemma_full_pairs_belong(all, stages@);
    }
    let (pairs, spectra) = full_stage_pairs(matricizations, stages);
    let mut pairs = pairs;
    let ghost before = pairs@;
    match build_bound_factor_generic_checked(
        u_structure,
        matricizations,
        &mut pairs,
        row_dimensions,
        FactorSide::Left,
        zero,
        one,
    ) {
        Err(error) => Err(error),
        Ok(u) => {
            proof {
                lemma_published_walk(
                    *u_structure,
                    all,
                    before,
                    row_dimensions@,
                    FactorSide::Left,
                    FactorSide::Left,
                    zero,
                    one,
                );
                lemma_other_side_unmoved(
                    *vh_structure,
                    all,
                    before,
                    pairs@,
                    col_dimensions@,
                    FactorSide::Right,
                    FactorSide::Right,
                    zero,
                    one,
                );
            }
            match build_bound_factor_generic_checked(
                vh_structure,
                matricizations,
                &mut pairs,
                col_dimensions,
                FactorSide::Right,
                zero,
                one,
            ) {
                Err(error) => Err(error),
                Ok(vh) => {
                    proof {
                        lemma_published_walk(
                        *vh_structure,
                        all,
                        before,
                        col_dimensions@,
                        FactorSide::Right,
                        FactorSide::Right,
                        zero,
                        one,
                    );
                    }
                    let s = rectangular_diagonal_data(
                        s_structure,
                        spectra.as_slice(),
                        to_scalar,
                        zero,
                    );
                    Ok(SvdFullData { u, s, vh, singular_values: spectra })
                },
            }
        },
    }
}

/// Every sector of the source has its pair, so a full SVD has no stray pair.
pub proof fn lemma_full_pairs_belong<D, V>(
    geometries: Seq<Geometry>,
    stages: Seq<FullSvdStage<D, V>>,
)
    requires
        sectors_distinct(geometries),
        stages.len() == geometries.len(),
    ensures
        !has_stray_pair(geometries, full_pairs(geometries, stages, stages.len() as int)),
{
    let pairs = full_pairs(geometries, stages, stages.len() as int);
    assert forall|k: int| 0 <= k < pairs.len() implies sector_position(
        geometries,
        (#[trigger] pairs[k]).sector,
        0,
    ) is Some by {
        lemma_position_unique(geometries, k);
    }
}

} // verus!
