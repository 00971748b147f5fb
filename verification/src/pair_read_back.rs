//! What is read back of both factors of a pair: every element of every block.

use vstd::prelude::*;

use crate::canonical::side_tree;
use crate::equivalence::side_scatter;
use crate::factor::FactorPair;
use crate::geometry::{sectors_distinct, Geometry};
use crate::index::{extent, lemma_leading_extent_nonnegative};
use crate::layout::{scatter_source, FactorSide};
use crate::pair::{scatter_pairs, whole_sector_scatter};
use crate::placement::{
    block_scatter, block_sector, bond_axis, lemma_sector_blocks, placement_of, sector_blocks,
    sector_scatter,
};
use crate::publish::zeros;
use crate::read_back::{
    element_position, elements_apart, lemma_element_in_buffer, lemma_others_kept,
    lemma_own_read_back,
};
use crate::sector::SectorId;
use crate::structure::{block_admitted, Block, BlockStructure};
use crate::writes::{apply_writes, lemma_writes_concat, lemma_writes_len};

verus! {

/// What a block of a sector holds at element `n`: the element of the sector's
/// factor that the block's tree and indices name.
pub open spec fn placed_element<D>(
    block: Block,
    geometries: Seq<Geometry>,
    sector: SectorId,
    side: FactorSide,
    factor: Seq<D>,
    leading: int,
    n: int,
) -> D {
    let tree = side_tree(block.key@->FusionTree_0, side);
    factor[scatter_source(
        block.shape@,
        bond_axis(block, side),
        side,
        leading,
        placement_of(geometries, sector, side, tree)->0.offset as int,
        n,
    )]
}

/// The list names this block among its first `count` entries.
pub open spec fn listed(indices: Seq<usize>, count: int, block: int) -> bool {
    exists|j: int| 0 <= j < count && (#[trigger] indices[j]) == block
}

proof fn lemma_sector_reads<D>(
    data: Seq<D>,
    blocks: Seq<Block>,
    indices: Seq<usize>,
    geometries: Seq<Geometry>,
    sector: SectorId,
    side: FactorSide,
    factor: Seq<D>,
    leading: int,
    count: int,
    k: int,
    n: int,
)
    requires
        elements_apart(blocks),
        forall|j: int|
            0 <= j < blocks.len() ==> block_admitted(#[trigger] blocks[j], data.len() as int),
        forall|j: int|
            0 <= j < indices.len() ==> (#[trigger] indices[j]) < blocks.len() && block_sector(
                blocks[indices[j] as int],
                side,
            ) == Some(sector),
        0 <= count <= indices.len(),
        sector_scatter(blocks, indices, geometries, sector, side, factor, leading, count).error
            is None,
        0 <= k < blocks.len(),
        0 <= n < extent(blocks[k].shape@),
    ensures
        apply_writes(
            data,
            sector_scatter(
                blocks,
                indices,
                geometries,
                sector,
                side,
                factor,
                leading,
                count,
            ).writes,
        )[element_position(blocks[k], n)] == if listed(indices, count, k) {
            placed_element(blocks[k], geometries, sector, side, factor, leading, n)
        } else {
            data[element_position(blocks[k], n)]
        },
    decreases count,
{
    if count > 0 {
        let before = sector_scatter(
            blocks,
            indices,
            geometries,
            sector,
            side,
            factor,
            leading,
            count - 1,
        );
        let i = indices[count - 1] as int;
        let block = blocks[i];
        assert(block_sector(block, side) == Some(sector));
        let tree = side_tree(block.key@->FusionTree_0, side);
        let span = placement_of(geometries, sector, side, tree)->0;
        let more = block_scatter(block, side, factor, leading, span.offset as int);
        lemma_sector_reads(
            data,
            blocks,
            indices,
            geometries,
            sector,
            side,
            factor,
            leading,
            count - 1,
            k,
            n,
        );
        lemma_writes_concat(data, before.writes, more);
        lemma_writes_len(data, before.writes);
        let middle = apply_writes(data, before.writes);
        lemma_leading_extent_nonnegative(block.shape@, block.shape@.len() as int);
        assert(block_admitted(blocks[k], data.len() as int));
        lemma_element_in_buffer(blocks[k], n, data.len() as int);
        assert(block_admitted(block, data.len() as int));
        if i == k {
            assert(listed(indices, count, k)) by {
                assert(indices[count - 1] == k);
            }
            lemma_own_read_back(middle, blocks, k, more, n);
        } else {
            if more.len() > 0 {
                lemma_own_read_back(middle, blocks, i, more, 0);
            }
            lemma_others_kept(middle, blocks, i, more, k, n);
            if listed(indices, count, k) {
                let j = choose|j: int| 0 <= j < count && (#[trigger] indices[j]) == k;
                assert(indices[j] == k && j < count - 1);
            }
            if listed(indices, count - 1, k) {
                let j = choose|j: int| 0 <= j < count - 1 && (#[trigger] indices[j]) == k;
                assert(indices[j] == k);
            }
        }
    }
}

proof fn lemma_listed_in_group(
    blocks: Seq<Block>,
    side: FactorSide,
    sector: SectorId,
    k: int,
    count: int,
)
    requires
        0 <= k < blocks.len(),
        0 <= count <= blocks.len(),
        blocks.len() <= usize::MAX,
    ensures
        ({
            let group = sector_blocks(blocks, side, sector, count);
            listed(group, group.len() as int, k) <==> k < count && block_sector(blocks[k], side)
                == Some(sector)
        }),
    decreases count,
{
    let group = sector_blocks(blocks, side, sector, count);
    if count > 0 {
        lemma_listed_in_group(blocks, side, sector, k, count - 1);
        let before = sector_blocks(blocks, side, sector, count - 1);
        if block_sector(blocks[count - 1], side) == Some(sector) {
            assert(group[before.len() as int] == count - 1);
            if listed(before, before.len() as int, k) {
                let j = choose|j: int| 0 <= j < before.len() && (#[trigger] before[j]) == k;
                assert(group[j] == k);
            }
            if listed(group, group.len() as int, k) && k != count - 1 {
                let j = choose|j: int| 0 <= j < group.len() && (#[trigger] group[j]) == k;
                assert(before[j] == k);
            }
        }
    }
}

pub(crate) proof fn lemma_side_reads<D>(
    blocks: Seq<Block>,
    geometries: Seq<Geometry>,
    pairs: Seq<FactorPair<D>>,
    side: FactorSide,
    zero: D,
    len: int,
    count: int,
    k: int,
    n: int,
    at: int,
)
    requires
        elements_apart(blocks),
        blocks.len() <= usize::MAX,
        0 <= len,
        forall|j: int| 0 <= j < blocks.len() ==> block_admitted(#[trigger] blocks[j], len),
        sectors_distinct(geometries),
        0 <= count <= pairs.len(),
        count <= geometries.len(),
        forall|j: int|
            0 <= j < count ==> (#[trigger] whole_sector_scatter(
                blocks,
                geometries,
                geometries[j].sector,
                side,
                pairs[j].factor(side),
                pairs[j].leading(side) as int,
            )).error is None,
        0 <= k < blocks.len(),
        0 <= n < extent(blocks[k].shape@),
        0 <= at < geometries.len(),
        at < pairs.len(),
        block_sector(blocks[k], side) == Some(geometries[at].sector),
    ensures
        apply_writes(zeros(zero, len), side_scatter(blocks, geometries, pairs, side, count))[
        element_position(blocks[k], n)] == if at < count {
            placed_element(
                blocks[k],
                geometries,
                geometries[at].sector,
                side,
                pairs[at].factor(side),
                pairs[at].leading(side) as int,
                n,
            )
        } else {
            zero
        },
    decreases count,
{
    let data = zeros(zero, len);
    assert(block_admitted(blocks[k], len));
    lemma_element_in_buffer(blocks[k], n, len);
    if count > 0 {
        let last = count - 1;
        lemma_side_reads(blocks, geometries, pairs, side, zero, len, last, k, n, at);
        let before = side_scatter(blocks, geometries, pairs, side, last);
        let sector = geometries[last].sector;
        let factor = pairs[last].factor(side);
        let leading = pairs[last].leading(side) as int;
        let group = sector_blocks(blocks, side, sector, blocks.len() as int);
        let more = whole_sector_scatter(blocks, geometries, sector, side, factor, leading);
        assert(more.error is None);
        lemma_writes_concat(data, before, more.writes);
        lemma_writes_len(data, before);
        lemma_sector_blocks(blocks, side, sector, blocks.len() as int);
        lemma_sector_reads(
            apply_writes(data, before),
            blocks,
            group,
            geometries,
            sector,
            side,
            factor,
            leading,
            group.len() as int,
            k,
            n,
        );
        lemma_listed_in_group(blocks, side, sector, k, blocks.len() as int);
        if at < last {
            assert(geometries[at].sector != geometries[last].sector);
        } else if last < at {
            assert(geometries[last].sector != geometries[at].sector);
        }
    }
}

proof fn lemma_pair_writes<D>(
    left_blocks: Seq<Block>,
    right_blocks: Seq<Block>,
    geometries: Seq<Geometry>,
    pairs: Seq<FactorPair<D>>,
    count: int,
)
    requires
        scatter_pairs(left_blocks, right_blocks, geometries, pairs, count) is Ok,
    ensures
        ({
            let writes = scatter_pairs(left_blocks, right_blocks, geometries, pairs, count)->Ok_0;
            &&& writes.left == side_scatter(
                left_blocks,
                geometries,
                pairs,
                FactorSide::Left,
                count,
            )
            &&& writes.right == side_scatter(
                right_blocks,
                geometries,
                pairs,
                FactorSide::Right,
                count,
            )
        }),
        forall|j: int|
            0 <= j < count ==> (#[trigger] whole_sector_scatter(
                left_blocks,
                geometries,
                geometries[j].sector,
                FactorSide::Left,
                pairs[j].factor(FactorSide::Left),
                pairs[j].leading(FactorSide::Left) as int,
            )).error is None,
        forall|j: int|
            0 <= j < count ==> (#[trigger] whole_sector_scatter(
                right_blocks,
                geometries,
                geometries[j].sector,
                FactorSide::Right,
                pairs[j].factor(FactorSide::Right),
                pairs[j].leading(FactorSide::Right) as int,
            )).error is None,
    decreases count,
{
    if count > 0 {
        lemma_pair_writes(left_blocks, right_blocks, geometries, pairs, count - 1);
    }
}

/// Publishing both factors of every sector by scatter writes the factors:
/// every element of a block of a sector is the element of that sector's factor
/// that the block's tree and indices name, on both sides.
pub proof fn lemma_published_pair_reads_back<D>(
    left_structure: BlockStructure,
    right_structure: BlockStructure,
    geometries: Seq<Geometry>,
    pairs: Seq<FactorPair<D>>,
    zero: D,
    at: int,
    k: int,
    n: int,
    side: FactorSide,
)
    requires
        left_structure.wf(),
        right_structure.wf(),
        left_structure.spec_blocks().len() <= usize::MAX,
        right_structure.spec_blocks().len() <= usize::MAX,
        sectors_distinct(geometries),
        pairs.len() <= geometries.len(),
        0 <= at < pairs.len(),
        scatter_pairs(
            left_structure.spec_blocks(),
            right_structure.spec_blocks(),
            geometries,
            pairs,
            pairs.len() as int,
        ) is Ok,
        ({
            let structure = match side {
                FactorSide::Left => left_structure,
                FactorSide::Right => right_structure,
            };
            &&& elements_apart(structure.spec_blocks())
            &&& 0 <= k < structure.spec_blocks().len()
            &&& block_sector(structure.spec_blocks()[k], side) == Some(geometries[at].sector)
            &&& 0 <= n < extent(structure.spec_blocks()[k].shape@)
        }),
    ensures
        ({
            let structure = match side {
                FactorSide::Left => left_structure,
                FactorSide::Right => right_structure,
            };
            let writes = scatter_pairs(
                left_structure.spec_blocks(),
                right_structure.spec_blocks(),
                geometries,
                pairs,
                pairs.len() as int,
            )->Ok_0;
            let data = apply_writes(
                zeros(zero, structure.spec_len() as int),
                match side {
                    FactorSide::Left => writes.left,
                    FactorSide::Right => writes.right,
                },
            );
            data[element_position(structure.spec_blocks()[k], n)] == placed_element(
                structure.spec_blocks()[k],
                geometries,
                geometries[at].sector,
                side,
                pairs[at].factor(side),
                pairs[at].leading(side) as int,
                n,
            )
        }),
{
    lemma_pair_writes(
        left_structure.spec_blocks(),
        right_structure.spec_blocks(),
        geometries,
        pairs,
        pairs.len() as int,
    );
    let structure = match side {
        FactorSide::Left => left_structure,
        FactorSide::Right => right_structure,
    };
    let blocks = structure.spec_blocks();
    assert forall|j: int| 0 <= j < blocks.len() implies block_admitted(
        #[trigger] blocks[j],
        structure.spec_len() as int,
    ) by {}
    lemma_side_reads(
        blocks,
        geometries,
        pairs,
        side,
        zero,
        structure.spec_len() as int,
        pairs.len() as int,
        k,
        n,
        at,
    );
}

} // verus!
