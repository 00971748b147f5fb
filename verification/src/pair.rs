//! Publication of both factors of a factorization at once.

use vstd::prelude::*;

use crate::canonical::{
    factor_output_is_canonical, optional_labels, pair_labels, pair_output_canonical, pair_ranks,
};
use crate::error::OperationError;
use crate::factor::{joined, publish_generic_factor_pairs, FactorPair, SectorRank};
use crate::geometry::{geometries, sectors_distinct, Geometry, SectorGeometry};
use crate::keys::{
    first_refusal, keys_ordered, staged_fusion_tree_keys, tree_labels, validate_generic_factor_keys,
};
use crate::layout::{filled, FactorSide};
use crate::placement::{
    lemma_scatter_placed, scatter_sector_blocks, sector_blocks, sector_placed, sector_reads_fit,
    sector_scatter, PlacementIndex, Scatter, SectorBlockGroups,
};
use crate::publish::zeros;
use crate::sector::{FusionTreePairKey, SectorId, TreePair};
use crate::structure::{Block, BlockStructure};
use crate::writes::{apply_writes, lemma_writes_concat, Write};

verus! {

/// The scatter of one sector's factor over all blocks of its sector.
pub open spec fn whole_sector_scatter<D>(
    blocks: Seq<Block>,
    geometries: Seq<Geometry>,
    sector: SectorId,
    side: FactorSide,
    factor: Seq<D>,
    leading: int,
) -> Scatter<D> {
    let indices = sector_blocks(blocks, side, sector, blocks.len() as int);
    sector_scatter(
        blocks,
        indices,
        geometries,
        sector,
        side,
        factor,
        leading,
        indices.len() as int,
    )
}

/// The writes of both outputs.
pub struct PairWrites<D> {
    pub left: Seq<Write<D>>,
    pub right: Seq<Write<D>>,
}

/// The factors of the first `count` matrices, sector by sector, the left one
/// before the right one.
pub open spec fn scatter_pairs<D>(
    left_blocks: Seq<Block>,
    right_blocks: Seq<Block>,
    geometries: Seq<Geometry>,
    pairs: Seq<FactorPair<D>>,
    count: int,
) -> Result<PairWrites<D>, OperationError>
    decreases count,
{
    if count <= 0 {
        Ok(PairWrites { left: Seq::empty(), right: Seq::empty() })
    } else {
        match scatter_pairs(left_blocks, right_blocks, geometries, pairs, count - 1) {
            Err(error) => Err(error),
            Ok(before) => {
                let sector = geometries[count - 1].sector;
                let pair = pairs[count - 1];
                let left = whole_sector_scatter(
                    left_blocks,
                    geometries,
                    sector,
                    FactorSide::Left,
                    pair.left@,
                    pair.left_rows as int,
                );
                let right = whole_sector_scatter(
                    right_blocks,
                    geometries,
                    sector,
                    FactorSide::Right,
                    pair.right@,
                    pair.right_leading as int,
                );
                match (left.error, right.error) {
                    (Some(error), _) => Err(error),
                    (None, Some(error)) => Err(error),
                    (None, None) => Ok(
                        PairWrites {
                            left: before.left + left.writes,
                            right: before.right + right.writes,
                        },
                    ),
                }
            },
        }
    }
}

/// The number of matrices that have a pair.
pub open spec fn paired_count(matrices: int, pairs: int) -> int {
    if matrices < pairs {
        matrices
    } else {
        pairs
    }
}

/// The source has the trees of all blocks of the first `count` sectors.
pub open spec fn sectors_placed(
    blocks: Seq<Block>,
    geometries: Seq<Geometry>,
    side: FactorSide,
    count: int,
) -> bool {
    forall|k: int|
        0 <= k < count ==> sector_placed(
            blocks,
            geometries,
            (#[trigger] geometries[k]).sector,
            side,
        )
}

/// A factor of one sector fills its blocks from inside, up to the first whose
/// tree the source lacks.
pub open spec fn whole_sector_reads_fit(
    blocks: Seq<Block>,
    geometries: Seq<Geometry>,
    sector: SectorId,
    side: FactorSide,
    leading: int,
    len: int,
) -> bool {
    sector_reads_fit(
        blocks,
        sector_blocks(blocks, side, sector, blocks.len() as int),
        geometries,
        sector,
        side,
        leading,
        len,
    )
}

/// Every block that a pair fills before the first refusal is read inside the
/// pair's factor.
pub open spec fn pair_reads_fit<D>(
    left_blocks: Seq<Block>,
    right_blocks: Seq<Block>,
    geometries: Seq<Geometry>,
    pairs: Seq<FactorPair<D>>,
) -> bool {
    let left = FactorSide::Left;
    let right = FactorSide::Right;
    forall|k: int|
        0 <= k < paired_count(geometries.len() as int, pairs.len() as int) && sectors_placed(
            left_blocks,
            geometries,
            left,
            k,
        ) && sectors_placed(right_blocks, geometries, right, k) ==> {
            let sector = (#[trigger] geometries[k]).sector;
            &&& whole_sector_reads_fit(
                left_blocks,
                geometries,
                sector,
                left,
                pairs[k].leading(left) as int,
                pairs[k].factor(left).len() as int,
            )
            &&& sector_placed(left_blocks, geometries, sector, left) ==> whole_sector_reads_fit(
                right_blocks,
                geometries,
                sector,
                right,
                pairs[k].leading(right) as int,
                pairs[k].factor(right).len() as int,
            )
        }
}

/// The data of both outputs.
pub struct PairData<D> {
    pub left: Seq<D>,
    pub right: Seq<D>,
}

/// Both outputs have the layout of the factors.
pub open spec fn pair_canonical<D>(
    left_structure: BlockStructure,
    left_keys: Seq<TreePair>,
    right_structure: BlockStructure,
    right_keys: Seq<TreePair>,
    listed: bool,
    geometries: Seq<Geometry>,
    pairs: Seq<FactorPair<D>>,
) -> bool {
    let ranks = pair_ranks(pairs);
    &&& keys_ordered(geometries, ranks, FactorSide::Left, left_keys)
    &&& keys_ordered(geometries, ranks, FactorSide::Right, right_keys)
    &&& pair_output_canonical(
        left_structure.spec_blocks(),
        if listed {
            Some(left_keys)
        } else {
            None
        },
        geometries,
        pairs,
        left_structure.spec_len() as int,
        FactorSide::Left,
    )
    &&& pair_output_canonical(
        right_structure.spec_blocks(),
        if listed {
            Some(right_keys)
        } else {
            None
        },
        geometries,
        pairs,
        right_structure.spec_len() as int,
        FactorSide::Right,
    )
}

/// A key is refused, the factors are joined, or the scatter reads inside them.
pub open spec fn pair_publication_fits<D>(
    left_structure: BlockStructure,
    left_keys: Seq<TreePair>,
    right_structure: BlockStructure,
    right_keys: Seq<TreePair>,
    listed: bool,
    geometries: Seq<Geometry>,
    pairs: Seq<FactorPair<D>>,
) -> bool {
    ||| first_refusal(geometries, FactorSide::Left, left_keys, 0) is Some
    ||| first_refusal(geometries, FactorSide::Right, right_keys, 0) is Some
    ||| pair_canonical(
        left_structure,
        left_keys,
        right_structure,
        right_keys,
        listed,
        geometries,
        pairs,
    )
    ||| pair_reads_fit(
        left_structure.spec_blocks(),
        right_structure.spec_blocks(),
        geometries,
        pairs,
    )
}

/// What publishing both factors gives. The keys of the left output are checked
/// before those of the right one. Where both outputs have the layout of the
/// factors these are joined, otherwise they are scattered sector by sector.
/// With `listed` the key lists also have to be the labels of the outputs.
pub open spec fn published_pair<D>(
    left_structure: BlockStructure,
    left_keys: Seq<TreePair>,
    right_structure: BlockStructure,
    right_keys: Seq<TreePair>,
    listed: bool,
    geometries: Seq<Geometry>,
    pairs: Seq<FactorPair<D>>,
    zero: D,
) -> Result<PairData<D>, OperationError> {
    let left_refusal = first_refusal(geometries, FactorSide::Left, left_keys, 0);
    let right_refusal = first_refusal(geometries, FactorSide::Right, right_keys, 0);
    let canonical = pair_canonical(
        left_structure,
        left_keys,
        right_structure,
        right_keys,
        listed,
        geometries,
        pairs,
    );
    match (left_refusal, right_refusal) {
        (Some(error), _) => Err(error),
        (None, Some(error)) => Err(error),
        (None, None) => if canonical {
            Ok(
                PairData {
                    left: joined(pairs, FactorSide::Left),
                    right: joined(pairs, FactorSide::Right),
                },
            )
        } else {
            match scatter_pairs(
                left_structure.spec_blocks(),
                right_structure.spec_blocks(),
                geometries,
                pairs,
                paired_count(geometries.len() as int, pairs.len() as int),
            ) {
                Err(error) => Err(error),
                Ok(writes) => Ok(
                    PairData {
                        left: apply_writes(
                            zeros(zero, left_structure.spec_len() as int),
                            writes.left,
                        ),
                        right: apply_writes(
                            zeros(zero, right_structure.spec_len() as int),
                            writes.right,
                        ),
                    },
                ),
            }
        },
    }
}

/// A result with this data, or this error.
pub open spec fn pair_data_is<D>(
    result: Result<(Vec<D>, Vec<D>), OperationError>,
    expected: Result<PairData<D>, OperationError>,
) -> bool {
    match (result, expected) {
        (Ok((left, right)), Ok(data)) => left@ == data.left && right@ == data.right,
        (Err(error), Err(expected)) => error == expected,
        _ => false,
    }
}

proof fn lemma_pairs_stop<D>(
    left_blocks: Seq<Block>,
    right_blocks: Seq<Block>,
    geometries: Seq<Geometry>,
    pairs: Seq<FactorPair<D>>,
    low: int,
    high: int,
)
    requires
        0 <= low <= high,
        scatter_pairs(left_blocks, right_blocks, geometries, pairs, low) is Err,
    ensures
        scatter_pairs(left_blocks, right_blocks, geometries, pairs, high) == scatter_pairs(
            left_blocks,
            right_blocks,
            geometries,
            pairs,
            low,
        ),
    decreases high - low,
{
    if low < high {
        lemma_pairs_stop(left_blocks, right_blocks, geometries, pairs, low, high - 1);
    }
}

/// Scatters the factors of all pairs into zero outputs, sector by sector, the
/// left one before the right one. With fewer pairs than matrices the last
/// sectors stay zero.
pub fn scatter_factor_pairs<D: Copy, M: SectorGeometry>(
    left_structure: &BlockStructure,
    right_structure: &BlockStructure,
    matricizations: &[M],
    pairs: &[FactorPair<D>],
    zero: D,
) -> (result: Result<(Vec<D>, Vec<D>), OperationError>)
    requires
        left_structure.wf(),
        right_structure.wf(),
        sectors_distinct(geometries(matricizations@)),
        pair_reads_fit(
            left_structure.spec_blocks(),
            right_structure.spec_blocks(),
            geometries(matricizations@),
            pairs@,
        ),
    ensures
        match (result, scatter_pairs(
            left_structure.spec_blocks(),
            right_structure.spec_blocks(),
            geometries(matricizations@),
            pairs@,
            paired_count(matricizations@.len() as int, pairs@.len() as int),
        )) {
            (Ok((left, right)), Ok(writes)) => {
                &&& left@ == apply_writes(
                    zeros(zero, left_structure.spec_len() as int),
                    writes.left,
                )
                &&& right@ == apply_writes(
                    zeros(zero, right_structure.spec_len() as int),
                    writes.right,
                )
            },
            (Err(error), Err(expected)) => error == expected,
            _ => false,
        },
{
    let ghost left_blocks = left_structure.spec_blocks();
    let ghost right_blocks = right_structure.spec_blocks();
    let ghost all = geometries(matricizations@);
    let mut left_data: Vec<D> = filled(zero, left_structure.required_len());
    let mut right_data: Vec<D> = filled(zero, right_structure.required_len());
    let ghost left_zeros = left_data@;
    let ghost right_zeros = right_data@;
    let index = PlacementIndex::new(matricizations);
    let left_groups = SectorBlockGroups::new(left_structure, FactorSide::Left);
    let right_groups = SectorBlockGroups::new(right_structure, FactorSide::Right);
    let count: usize = if matricizations.len() < pairs.len() {
        matricizations.len()
    } else {
        pairs.len()
    };
    let ghost mut state: PairWrites<D> = PairWrites { left: Seq::empty(), right: Seq::empty() };
    let mut k: usize = 0;
    while k < count
        invariant
            k <= count,
            count == paired_count(matricizations@.len() as int, pairs@.len() as int),
            left_structure.wf(),
            right_structure.wf(),
            left_blocks == left_structure.spec_blocks(),
            right_blocks == right_structure.spec_blocks(),
            all == geometries(matricizations@),
            index.wf(),
            index.geometries() == all,
            left_groups.wf(),
            left_groups.source() == left_blocks,
            left_groups.side() == FactorSide::Left,
            right_groups.wf(),
            right_groups.source() == right_blocks,
            right_groups.side() == FactorSide::Right,
            left_data@.len() == left_structure.spec_len(),
            right_data@.len() == right_structure.spec_len(),
            pair_reads_fit(left_blocks, right_blocks, all, pairs@),
            sectors_placed(left_blocks, all, FactorSide::Left, k as int),
            sectors_placed(right_blocks, all, FactorSide::Right, k as int),
            left_zeros == zeros(zero, left_structure.spec_len() as int),
            right_zeros == zeros(zero, right_structure.spec_len() as int),
            scatter_pairs(left_blocks, right_blocks, all, pairs@, k as int) == Ok::<
                PairWrites<D>,
                OperationError,
            >(state),
            left_data@ == apply_writes(left_zeros, state.left),
            right_data@ == apply_writes(right_zeros, state.right),
        decreases count - k,
    {
        let ghost next = scatter_pairs(left_blocks, right_blocks, all, pairs@, k + 1);
        let sector = matricizations[k].sector();
        let pair = &pairs[k];
        proof {
            assert(all[k as int].sector == sector);
            if next is Err {
                lemma_pairs_stop(left_blocks, right_blocks, all, pairs@, k + 1, count as int);
            }
            lemma_writes_concat(
                left_zeros,
                state.left,
                whole_sector_scatter(
                    left_blocks,
                    all,
                    sector,
                    FactorSide::Left,
                    pair.left@,
                    pair.left_rows as int,
                ).writes,
            );
            lemma_writes_concat(
                right_zeros,
                state.right,
                whole_sector_scatter(
                    right_blocks,
                    all,
                    sector,
                    FactorSide::Right,
                    pair.right@,
                    pair.right_leading as int,
                ).writes,
            );
        }
        match scatter_sector_blocks(
            left_structure,
            left_data.as_mut_slice(),
            sector,
            &index,
            &left_groups,
            FactorSide::Left,
            pair.left.as_slice(),
            pair.left_rows,
        ) {
            Ok(()) => {},
            Err(error) => {
                return Err(error);
            },
        }
        proof {
            lemma_scatter_placed(
                left_blocks,
                sector_blocks(left_blocks, FactorSide::Left, sector, left_blocks.len() as int),
                all,
                sector,
                FactorSide::Left,
                pair.left@,
                pair.left_rows as int,
                sector_blocks(
                    left_blocks,
                    FactorSide::Left,
                    sector,
                    left_blocks.len() as int,
                ).len() as int,
            );
        }
        match scatter_sector_blocks(
            right_structure,
            right_data.as_mut_slice(),
            sector,
            &index,
            &right_groups,
            FactorSide::Right,
            pair.right.as_slice(),
            pair.right_leading,
        ) {
            Ok(()) => {},
            Err(error) => {
                return Err(error);
            },
        }
        proof {
            lemma_scatter_placed(
                right_blocks,
                sector_blocks(right_blocks, FactorSide::Right, sector, right_blocks.len() as int),
                all,
                sector,
                FactorSide::Right,
                pair.right@,
                pair.right_leading as int,
                sector_blocks(
                    right_blocks,
                    FactorSide::Right,
                    sector,
                    right_blocks.len() as int,
                ).len() as int,
            );
        }
        proof {
            state = next->Ok_0;
        }
        k += 1;
    }
    Ok((left_data, right_data))
}

/// The ranks that the pairs keep.
pub(crate) fn ranks_of<D>(pairs: &[FactorPair<D>]) -> (ranks: Vec<SectorRank>)
    ensures
        ranks@ == pair_ranks(pairs@),
{
    let mut ranks: Vec<SectorRank> = Vec::new();
    let mut k: usize = 0;
    while k < pairs.len()
        invariant
            k <= pairs@.len(),
            ranks@.len() == k,
            forall|j: int| 0 <= j < k ==> ranks@[j] == pair_ranks(pairs@)[j],
        decreases pairs.len() - k,
    {
        ranks.push(SectorRank { sector: pairs[k].sector, kept: pairs[k].kept });
        k += 1;
    }
    assert(ranks@ =~= pair_ranks(pairs@));
    ranks
}

/// Publishes both factors of all pairs, with the key lists of both outputs.
fn publish_pair<D: Copy, M: SectorGeometry>(
    left_structure: &BlockStructure,
    left_keys: &[FusionTreePairKey],
    right_structure: &BlockStructure,
    right_keys: &[FusionTreePairKey],
    listed: bool,
    matricizations: &[M],
    pairs: Vec<FactorPair<D>>,
    zero: D,
) -> (result: Result<(Vec<D>, Vec<D>), OperationError>)
    requires
        left_structure.wf(),
        right_structure.wf(),
        sectors_distinct(geometries(matricizations@)),
        pair_publication_fits(
            *left_structure,
            pair_labels(left_keys@),
            *right_structure,
            pair_labels(right_keys@),
            listed,
            geometries(matricizations@),
            pairs@,
        ),
    ensures
        pair_data_is(
            result,
            published_pair(
                *left_structure,
                pair_labels(left_keys@),
                *right_structure,
                pair_labels(right_keys@),
                listed,
                geometries(matricizations@),
                pairs@,
                zero,
            ),
        ),
{
    let ranks = ranks_of(pairs.as_slice());
    let left_ordered = match validate_generic_factor_keys(
        left_keys,
        FactorSide::Left,
        matricizations,
        Some(ranks.as_slice()),
    ) {
        Ok(ordered) => ordered,
        Err(error) => {
            return Err(error);
        },
    };
    let right_ordered = match validate_generic_factor_keys(
        right_keys,
        FactorSide::Right,
        matricizations,
        Some(ranks.as_slice()),
    ) {
        Ok(ordered) => ordered,
        Err(error) => {
            return Err(error);
        },
    };
    publish_validated_pair(
        left_structure,
        left_keys,
        left_ordered,
        right_structure,
        right_keys,
        right_ordered,
        listed,
        matricizations,
        pairs,
        zero,
    )
}

/// Publishes both factors of all pairs whose keys have their places in the
/// source.
pub(crate) fn publish_validated_pair<D: Copy, M: SectorGeometry>(
    left_structure: &BlockStructure,
    left_keys: &[FusionTreePairKey],
    left_ordered: bool,
    right_structure: &BlockStructure,
    right_keys: &[FusionTreePairKey],
    right_ordered: bool,
    listed: bool,
    matricizations: &[M],
    pairs: Vec<FactorPair<D>>,
    zero: D,
) -> (result: Result<(Vec<D>, Vec<D>), OperationError>)
    requires
        left_structure.wf(),
        right_structure.wf(),
        sectors_distinct(geometries(matricizations@)),
        pair_publication_fits(
            *left_structure,
            pair_labels(left_keys@),
            *right_structure,
            pair_labels(right_keys@),
            listed,
            geometries(matricizations@),
            pairs@,
        ),
        first_refusal(
            geometries(matricizations@),
            FactorSide::Left,
            pair_labels(left_keys@),
            0,
        ) is None,
        first_refusal(
            geometries(matricizations@),
            FactorSide::Right,
            pair_labels(right_keys@),
            0,
        ) is None,
        left_ordered == keys_ordered(
            geometries(matricizations@),
            pair_ranks(pairs@),
            FactorSide::Left,
            pair_labels(left_keys@),
        ),
        right_ordered == keys_ordered(
            geometries(matricizations@),
            pair_ranks(pairs@),
            FactorSide::Right,
            pair_labels(right_keys@),
        ),
    ensures
        pair_data_is(
            result,
            published_pair(
                *left_structure,
                pair_labels(left_keys@),
                *right_structure,
                pair_labels(right_keys@),
                listed,
                geometries(matricizations@),
                pairs@,
                zero,
            ),
        ),
{
    let ghost all = geometries(matricizations@);
    let left_len: usize = left_structure.required_len();
    let right_len: usize = right_structure.required_len();
    let left_list: Option<&[FusionTreePairKey]> = if listed {
        Some(left_keys)
    } else {
        None
    };
    let right_list: Option<&[FusionTreePairKey]> = if listed {
        Some(right_keys)
    } else {
        None
    };
    let canonical = left_ordered && right_ordered && factor_output_is_canonical(
        left_structure,
        left_list,
        matricizations,
        pairs.as_slice(),
        left_len,
        FactorSide::Left,
    ) && factor_output_is_canonical(
        right_structure,
        right_list,
        matricizations,
        pairs.as_slice(),
        right_len,
        FactorSide::Right,
    );
    if canonical {
        proof {
            crate::publish::lemma_canonical_total(
                left_structure.spec_blocks(),
                optional_labels(left_list),
                all,
                pairs@,
                pair_ranks(pairs@),
                left_len as int,
                FactorSide::Left,
                FactorSide::Left,
                0,
                0,
                0,
            );
            crate::publish::lemma_canonical_total(
                right_structure.spec_blocks(),
                optional_labels(right_list),
                all,
                pairs@,
                pair_ranks(pairs@),
                right_len as int,
                FactorSide::Right,
                FactorSide::Right,
                0,
                0,
                0,
            );
        }
        return Ok(publish_generic_factor_pairs(pairs, left_len, right_len));
    }
    scatter_factor_pairs(left_structure, right_structure, matricizations, pairs.as_slice(), zero)
}

/// Publishes both factors of all pairs. The key lists are those from which the
/// outputs were laid out; both are checked against the source first.
pub fn build_left_right_bound_pair_generic<D: Copy, M: SectorGeometry>(
    left_structure: &BlockStructure,
    left_keys: &[FusionTreePairKey],
    right_structure: &BlockStructure,
    right_keys: &[FusionTreePairKey],
    matricizations: &[M],
    pairs: Vec<FactorPair<D>>,
    zero: D,
) -> (result: Result<(Vec<D>, Vec<D>), OperationError>)
    requires
        left_structure.wf(),
        right_structure.wf(),
        sectors_distinct(geometries(matricizations@)),
        pair_publication_fits(
            *left_structure,
            pair_labels(left_keys@),
            *right_structure,
            pair_labels(right_keys@),
            true,
            geometries(matricizations@),
            pairs@,
        ),
    ensures
        pair_data_is(
            result,
            published_pair(
                *left_structure,
                pair_labels(left_keys@),
                *right_structure,
                pair_labels(right_keys@),
                true,
                geometries(matricizations@),
                pairs@,
                zero,
            ),
        ),
{
    publish_pair(
        left_structure,
        left_keys,
        right_structure,
        right_keys,
        true,
        matricizations,
        pairs,
        zero,
    )
}

/// Publishes both factors of all pairs into outputs whose own labels are
/// checked against the source.
pub fn build_left_right_bound_pair_generic_checked<D: Copy, M: SectorGeometry>(
    left_structure: &BlockStructure,
    right_structure: &BlockStructure,
    matricizations: &[M],
    pairs: Vec<FactorPair<D>>,
    zero: D,
) -> (result: Result<(Vec<D>, Vec<D>), OperationError>)
    requires
        left_structure.wf(),
        right_structure.wf(),
        sectors_distinct(geometries(matricizations@)),
        pair_publication_fits(
            *left_structure,
            tree_labels(
                left_structure.spec_blocks(),
                left_structure.spec_blocks().len() as int,
            ),
            *right_structure,
            tree_labels(
                right_structure.spec_blocks(),
                right_structure.spec_blocks().len() as int,
            ),
            false,
            geometries(matricizations@),
            pairs@,
        ),
    ensures
        pair_data_is(
            result,
            published_pair(
                *left_structure,
                tree_labels(
                    left_structure.spec_blocks(),
                    left_structure.spec_blocks().len() as int,
                ),
                *right_structure,
                tree_labels(
                    right_structure.spec_blocks(),
                    right_structure.spec_blocks().len() as int,
                ),
                false,
                geometries(matricizations@),
                pairs@,
                zero,
            ),
        ),
{
    let left_keys = staged_fusion_tree_keys(left_structure);
    let right_keys = staged_fusion_tree_keys(right_structure);
    publish_pair(
        left_structure,
        left_keys.as_slice(),
        right_structure,
        right_keys.as_slice(),
        false,
        matricizations,
        pairs,
        zero,
    )
}

/// The dense factor of one sector with its leading dimension.
#[derive(Clone, Debug, PartialEq, Eq)]
pub struct SectorFactor<D> {
    pub data: Vec<D>,
    pub leading: usize,
}

/// The factors of the first `count` matrices on one side, sector by sector.
pub open spec fn scatter_one_side<D>(
    blocks: Seq<Block>,
    geometries: Seq<Geometry>,
    factors: Seq<SectorFactor<D>>,
    side: FactorSide,
    count: int,
) -> Result<Seq<Write<D>>, OperationError>
    decreases count,
{
    if count <= 0 {
        Ok(Seq::empty())
    } else {
        match scatter_one_side(blocks, geometries, factors, side, count - 1) {
            Err(error) => Err(error),
            Ok(before) => {
                let scatter = whole_sector_scatter(
                    blocks,
                    geometries,
                    geometries[count - 1].sector,
                    side,
                    factors[count - 1].data@,
                    factors[count - 1].leading as int,
                );
                match scatter.error {
                    Some(error) => Err(error),
                    None => Ok(before + scatter.writes),
                }
            },
        }
    }
}

proof fn lemma_one_side_stops<D>(
    blocks: Seq<Block>,
    geometries: Seq<Geometry>,
    factors: Seq<SectorFactor<D>>,
    side: FactorSide,
    low: int,
    high: int,
)
    requires
        0 <= low <= high,
        scatter_one_side(blocks, geometries, factors, side, low) is Err,
    ensures
        scatter_one_side(blocks, geometries, factors, side, high) == scatter_one_side(
            blocks,
            geometries,
            factors,
            side,
            low,
        ),
    decreases high - low,
{
    if low < high {
        lemma_one_side_stops(blocks, geometries, factors, side, low, high - 1);
    }
}

/// Every block that a factor fills before the first refusal is read inside it.
pub open spec fn factor_reads_fit<D>(
    blocks: Seq<Block>,
    geometries: Seq<Geometry>,
    factors: Seq<SectorFactor<D>>,
    side: FactorSide,
) -> bool {
    &&& factors.len() <= geometries.len()
    &&& forall|k: int|
        0 <= k < factors.len() && sectors_placed(blocks, geometries, side, k)
            ==> whole_sector_reads_fit(
            blocks,
            geometries,
            geometries[k].sector,
            side,
            (#[trigger] factors[k]).leading as int,
            factors[k].data@.len() as int,
        )
}

/// Scatters the factors of one side into a zero output, sector by sector. With
/// fewer factors than matrices the last sectors stay zero.
pub fn scatter_sector_factors<D: Copy, M: SectorGeometry>(
    structure: &BlockStructure,
    matricizations: &[M],
    factors: &[SectorFactor<D>],
    side: FactorSide,
    zero: D,
) -> (result: Result<Vec<D>, OperationError>)
    requires
        structure.wf(),
        sectors_distinct(geometries(matricizations@)),
        factor_reads_fit(
            structure.spec_blocks(),
            geometries(matricizations@),
            factors@,
            side,
        ),
    ensures
        match (result, scatter_one_side(
            structure.spec_blocks(),
            geometries(matricizations@),
            factors@,
            side,
            factors@.len() as int,
        )) {
            (Ok(data), Ok(writes)) => data@ == apply_writes(
                zeros(zero, structure.spec_len() as int),
                writes,
            ),
            (Err(error), Err(expected)) => error == expected,
            _ => false,
        },
{
    let ghost blocks = structure.spec_blocks();
    let ghost all = geometries(matricizations@);
    let mut data: Vec<D> = filled(zero, structure.required_len());
    let ghost empty = data@;
    let index = PlacementIndex::new(matricizations);
    let groups = SectorBlockGroups::new(structure, side);
    let ghost mut writes: Seq<Write<D>> = Seq::empty();
    let mut k: usize = 0;
    while k < factors.len()
        invariant
            k <= factors@.len(),
            structure.wf(),
            blocks == structure.spec_blocks(),
            all == geometries(matricizations@),
            index.wf(),
            index.geometries() == all,
            groups.wf(),
            groups.source() == blocks,
            groups.side() == side,
            data@.len() == structure.spec_len(),
            factor_reads_fit(blocks, all, factors@, side),
            sectors_placed(blocks, all, side, k as int),
            empty == zeros(zero, structure.spec_len() as int),
            scatter_one_side(blocks, all, factors@, side, k as int) == Ok::<
                Seq<Write<D>>,
                OperationError,
            >(writes),
            data@ == apply_writes(empty, writes),
        decreases factors.len() - k,
    {
        let sector = matricizations[k].sector();
        let factor = &factors[k];
        let ghost more = whole_sector_scatter(
            blocks,
            all,
            sector,
            side,
            factor.data@,
            factor.leading as int,
        ).writes;
        proof {
            assert(all[k as int].sector == sector);
            assert(factors@[k as int] == *factor);
            if scatter_one_side(blocks, all, factors@, side, k + 1) is Err {
                lemma_one_side_stops(
                    blocks,
                    all,
                    factors@,
                    side,
                    k + 1,
                    factors@.len() as int,
                );
            }
            lemma_writes_concat(empty, writes, more);
        }
        match scatter_sector_blocks(
            structure,
            data.as_mut_slice(),
            sector,
            &index,
            &groups,
            side,
            factor.data.as_slice(),
            factor.leading,
        ) {
            Ok(()) => {},
            Err(error) => {
                return Err(error);
            },
        }
        proof {
            let indices = sector_blocks(blocks, side, sector, blocks.len() as int);
            lemma_scatter_placed(
                blocks,
                indices,
                all,
                sector,
                side,
                factor.data@,
                factor.leading as int,
                indices.len() as int,
            );
            writes = writes + more;
        }
        k += 1;
    }
    Ok(data)
}

} // verus!
