//! The walk of a publication over its output blocks, without the writes.

use vstd::prelude::*;

use crate::bond::BondDimensions;
use crate::error::OperationError;
use crate::factor::{FactorPair, SectorRank};
use crate::fits::block_reads_inside;
use crate::geometry::{geometries, sectors_distinct, Geometry, SectorGeometry};
use crate::layout::FactorSide;
use crate::placement::PlacementIndex;
use crate::publish::{
    block_filled, blocks_accepted, blocks_filled, identity_filled, lacks_placement,
    lacks_some_placement, last_pair, lemma_last_pair, published_reads_fit, reads_fit, without_axis,
};
use crate::sector::SectorId;
use crate::sector_map::SectorMap;
use crate::structure::{Block, BlockKey, BlockStructure};

verus! {

/// The sector of one factor, its leading dimension and its length.
pub(crate) struct FactorSize {
    pub sector: SectorId,
    pub leading: usize,
    pub len: usize,
}

/// One size for each pair, that of its factor on this side.
pub(crate) open spec fn sizes_match<D>(
    pairs: Seq<FactorPair<D>>,
    sizes: Seq<FactorSize>,
    side: FactorSide,
) -> bool {
    &&& pairs.len() == sizes.len()
    &&& forall|k: int|
        0 <= k < pairs.len() ==> {
            &&& (#[trigger] pairs[k]).sector == sizes[k].sector
            &&& pairs[k].leading(side) == sizes[k].leading
            &&& pairs[k].factor(side).len() == sizes[k].len
        }
}

/// The sizes of the factors of one side.
pub(crate) fn sizes_of<D>(pairs: &[FactorPair<D>], side: FactorSide) -> (sizes: Vec<FactorSize>)
    ensures
        sizes_match(pairs@, sizes@, side),
{
    let mut sizes: Vec<FactorSize> = Vec::new();
    let mut k: usize = 0;
    while k < pairs.len()
        invariant
            k <= pairs@.len(),
            sizes@.len() == k,
            forall|j: int|
                0 <= j < k ==> {
                    &&& (#[trigger] pairs@[j]).sector == sizes@[j].sector
                    &&& pairs@[j].leading(side) == sizes@[j].leading
                    &&& pairs@[j].factor(side).len() == sizes@[j].len
                },
        decreases pairs.len() - k,
    {
        let pair = &pairs[k];
        let (leading, len): (usize, usize) = match side {
            FactorSide::Left => (pair.left_rows, pair.left.len()),
            FactorSide::Right => (pair.right_leading, pair.right.len()),
        };
        sizes.push(FactorSize { sector: pair.sector, leading, len });
        k += 1;
    }
    sizes
}

/// The last size of every sector.
fn size_map<D>(
    sizes: &[FactorSize],
    side: FactorSide,
    Ghost(pairs): Ghost<Seq<FactorPair<D>>>,
) -> (map: SectorMap)
    requires
        sizes_match(pairs, sizes@, side),
    ensures
        forall|sector: SectorId|
            {
                &&& #[trigger] map@.contains_key(sector) <==> last_pair(
                    pairs,
                    sector,
                    pairs.len() as int,
                ) is Some
                &&& map@.contains_key(sector) ==> map@[sector] as int == last_pair(
                    pairs,
                    sector,
                    pairs.len() as int,
                )->0
            },
{
    let mut map = SectorMap::new();
    let mut k: usize = 0;
    while k < sizes.len()
        invariant
            k <= sizes@.len(),
            sizes_match(pairs, sizes@, side),
            forall|sector: SectorId|
                {
                    &&& #[trigger] map@.contains_key(sector) <==> last_pair(
                        pairs,
                        sector,
                        k as int,
                    ) is Some
                    &&& map@.contains_key(sector) ==> map@[sector] as int == last_pair(
                        pairs,
                        sector,
                        k as int,
                    )->0
                },
        decreases sizes.len() - k,
    {
        assert(pairs[k as int].sector == sizes@[k as int].sector);
        map.insert(sizes[k].sector, k);
        k += 1;
    }
    map
}

/// How far the identity of a sector reaches after a block, unless the block is
/// refused.
fn identity_reach(
    filled: &SectorMap,
    block: &Block,
    sector: SectorId,
    dimensions: &BondDimensions,
    side: FactorSide,
) -> (reach: Option<usize>)
    requires
        side == FactorSide::Left ==> block.shape@.len() > 0,
    ensures
        match identity_filled(filled@, *block, sector, dimensions@, side) {
            Ok(next) => reach is Some && next == filled@.insert(sector, reach->0),
            Err(_) => reach is None,
        },
{
    let axis: usize = match side {
        FactorSide::Left => block.shape.len() - 1,
        FactorSide::Right => 0,
    };
    let dimension: usize = match dimensions.get(sector) {
        Some(dimension) => dimension,
        None => {
            return None;
        },
    };
    let start: usize = match filled.get(sector) {
        Some(start) => start,
        None => 0,
    };
    let others = without_axis(block.shape(), axis);
    let count: usize = match crate::index::checked_extent(others.as_slice()) {
        Some(count) => count,
        None => {
            return None;
        },
    };
    let end: usize = match start.checked_add(count) {
        Some(end) => end,
        None => {
            return None;
        },
    };
    if end > dimension || axis >= block.shape.len() || block.shape[axis] != dimension {
        return None;
    }
    Some(end)
}

/// A refusal ends the walk.
proof fn lemma_walk_stops<D>(
    blocks: Seq<Block>,
    geometries: Seq<Geometry>,
    pairs: Seq<FactorPair<D>>,
    dimensions: Seq<SectorRank>,
    side: FactorSide,
    source_trees: FactorSide,
    low: int,
    high: int,
)
    requires
        0 <= low <= high,
        blocks_filled(blocks, geometries, pairs, dimensions, side, source_trees, low) is Err,
    ensures
        blocks_filled(blocks, geometries, pairs, dimensions, side, source_trees, high) is Err,
    decreases high - low,
{
    if low < high {
        lemma_walk_stops(
            blocks,
            geometries,
            pairs,
            dimensions,
            side,
            source_trees,
            low,
            high - 1,
        );
    }
}

/// Walks over the output blocks up to the first refusal: whether all of them
/// were accepted, or `None` where one of them is read outside its factor.
pub(crate) fn walk_publication<D, M: SectorGeometry>(
    structure: &BlockStructure,
    matricizations: &[M],
    sizes: &[FactorSize],
    dimensions: &BondDimensions,
    side: FactorSide,
    source_trees: FactorSide,
    Ghost(pairs): Ghost<Seq<FactorPair<D>>>,
) -> (accepted: Option<bool>)
    requires
        sectors_distinct(geometries(matricizations@)),
        sizes_match(pairs, sizes@, side),
    ensures
        accepted is Some <==> reads_fit(
            structure.spec_blocks(),
            geometries(matricizations@),
            pairs,
            dimensions@,
            side,
            source_trees,
        ),
        accepted is Some ==> accepted->0 == blocks_accepted(
            *structure,
            geometries(matricizations@),
            pairs,
            dimensions@,
            side,
            source_trees,
        ),
{
    let ghost blocks = structure.spec_blocks();
    let ghost all = geometries(matricizations@);
    let index = PlacementIndex::new(matricizations);
    let map = size_map::<D>(sizes, side, Ghost(pairs));
    let mut filled = SectorMap::new();
    let count: usize = structure.block_count();
    let mut k: usize = 0;
    while k < count
        invariant
            k <= count == blocks.len(),
            blocks == structure.spec_blocks(),
            all == geometries(matricizations@),
            sectors_distinct(all),
            sizes_match(pairs, sizes@, side),
            index.wf(),
            index.geometries() == all,
            forall|sector: SectorId|
                {
                    &&& #[trigger] map@.contains_key(sector) <==> last_pair(
                        pairs,
                        sector,
                        pairs.len() as int,
                    ) is Some
                    &&& map@.contains_key(sector) ==> map@[sector] as int == last_pair(
                        pairs,
                        sector,
                        pairs.len() as int,
                    )->0
                },
            blocks_filled(blocks, all, pairs, dimensions@, side, source_trees, k as int) == Ok::<
                Map<SectorId, usize>,
                OperationError,
            >(filled@),
            forall|j: int|
                0 <= j < k ==> published_reads_fit(
                    #[trigger] blocks[j],
                    all,
                    pairs,
                    side,
                    source_trees,
                ),
        decreases count - k,
    {
        let block = structure.block(k);
        let mut fits = true;
        let mut refused = false;
        let ghost next = block_filled(
            filled@,
            *block,
            all,
            pairs,
            dimensions@,
            side,
            source_trees,
        );
        if let BlockKey::FusionTree(key) = &block.key {
            let tree = match side {
                FactorSide::Left => key.codomain_tree(),
                FactorSide::Right => key.domain_tree(),
            };
            let sector = tree.coupled();
            fits = match side {
                FactorSide::Left => block.shape.len() > 0,
                FactorSide::Right => true,
            };
            if fits {
                if !index.has_sector(sector) {
                    match identity_reach(&filled, block, sector, dimensions, side) {
                        Some(end) => {
                            filled.insert(sector, end);
                        },
                        None => {
                            refused = true;
                        },
                    }
                } else {
                    proof {
                        lemma_last_pair(pairs, sector, pairs.len() as int);
                    }
                    match (map.get(sector), index.placement(sector, source_trees, tree)) {
                        (Some(at), Ok((offset, _))) => {
                            assert(pairs[at as int].sector == sizes@[at as int].sector);
                            fits = block_reads_inside(
                                block,
                                side,
                                sizes[at].leading,
                                offset,
                                sizes[at].len,
                            );
                        },
                        _ => {
                            refused = true;
                        },
                    }
                }
            }
        }
        if !fits {
            assert(!published_reads_fit(blocks[k as int], all, pairs, side, source_trees));
            return None;
        }
        assert(published_reads_fit(blocks[k as int], all, pairs, side, source_trees));
        if refused {
            proof {
                assert(next is Err);
                assert forall|j: int|
                    k < j <= count implies #[trigger] blocks_filled(
                    blocks,
                    all,
                    pairs,
                    dimensions@,
                    side,
                    source_trees,
                    j,
                ) is Err by {
                    lemma_walk_stops(
                        blocks,
                        all,
                        pairs,
                        dimensions@,
                        side,
                        source_trees,
                        k + 1,
                        j,
                    );
                }
            }
            return Some(false);
        }
        k += 1;
    }
    Some(true)
}

/// Whether some block of a sector of the source has a tree that the source
/// lacks.
pub(crate) fn some_placement_is_lacking<M: SectorGeometry>(
    structure: &BlockStructure,
    matricizations: &[M],
    side: FactorSide,
) -> (lacking: bool)
    requires
        sectors_distinct(geometries(matricizations@)),
    ensures
        lacking == lacks_some_placement(*structure, geometries(matricizations@), side),
{
    let index = PlacementIndex::new(matricizations);
    let count: usize = structure.block_count();
    let mut k: usize = 0;
    while k < count
        invariant
            k <= count == structure.spec_blocks().len(),
            index.wf(),
            index.geometries() == geometries(matricizations@),
            forall|j: int|
                0 <= j < k ==> !lacks_placement(
                    #[trigger] structure.spec_blocks()[j],
                    geometries(matricizations@),
                    side,
                ),
        decreases count - k,
    {
        if let BlockKey::FusionTree(key) = &structure.block(k).key {
            let tree = match side {
                FactorSide::Left => key.codomain_tree(),
                FactorSide::Right => key.domain_tree(),
            };
            let sector = tree.coupled();
            if index.has_sector(sector) && index.placement(sector, side, tree).is_err() {
                assert(lacks_placement(
                    structure.spec_blocks()[k as int],
                    geometries(matricizations@),
                    side,
                ));
                return true;
            }
        }
        k += 1;
    }
    false
}

} // verus!
