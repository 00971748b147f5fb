//! What scattered factors hold at the indices of their elements.

use vstd::prelude::*;

use crate::canonical::side_tree;
use crate::factor::FactorPair;
use crate::geometry::{lemma_span_position, sectors_distinct, trees_distinct, Geometry};
use crate::index::coordinate;
use crate::index_laws::{index_number, index_position, indexes, lemma_element_by_index};
use crate::layout::FactorSide;
use crate::layout_laws::{lemma_position_of_index, lemma_side_of_index};
use crate::matricize::lemma_position_unique;
use crate::pair::{scatter_one_side, scatter_pairs, whole_sector_scatter, SectorFactor};
use crate::pair_read_back::{
    lemma_published_pair_reads_back, lemma_side_reads, placed_element,
};
use crate::placement::bond_axis;
use crate::publish::zeros;
use crate::read_back::elements_apart;
use crate::ring::matrix;
use crate::structure::{block_admitted, Block, BlockStructure};
use crate::writes::apply_writes;

verus! {

/// Block `block` belongs to geometry `at` on this side, where its tree stands at
/// place `t`.
pub open spec fn has_tree_at(
    block: Block,
    geometries: Seq<Geometry>,
    side: FactorSide,
    at: int,
    t: int,
) -> bool {
    &&& block.key@ is FusionTree
    &&& block.shape@.len() > 0
    &&& 0 <= at < geometries.len()
    &&& 0 <= t < geometries[at].trees(side).len()
    &&& ({
        let pair = block.key@->FusionTree_0;
        let tree = match side {
            FactorSide::Left => pair.codomain,
            FactorSide::Right => pair.domain,
        };
        &&& geometries[at].sector == tree.coupled
        &&& geometries[at].trees(side)[t].tree == tree
    })
}

/// Element `(s, b)` of a left factor or `(b, s)` of a right one, where `b` is the
/// bond index of an element of the block and `s` counts its other indices behind
/// the start of the block's tree.
pub open spec fn cell_of<D>(
    factor: Seq<D>,
    leading: int,
    cols: int,
    side: FactorSide,
    start: int,
    block: Block,
    index: Seq<int>,
) -> D {
    match side {
        FactorSide::Left => matrix(leading, cols, factor).at(
            start + index_number(index.drop_last(), block.shape@.drop_last(), 0),
            index.last(),
        ),
        FactorSide::Right => matrix(leading, cols, factor).at(
            index[0],
            start + index_number(index.drop_first(), block.shape@.drop_first(), 0),
        ),
    }
}

/// The placed element of a block by its indices.
proof fn lemma_placed_by_index<D>(
    block: Block,
    geometries: Seq<Geometry>,
    side: FactorSide,
    at: int,
    t: int,
    factor: Seq<D>,
    leading: int,
    cols: int,
    index: Seq<int>,
)
    requires
        has_tree_at(block, geometries, side, at, t),
        sectors_distinct(geometries),
        trees_distinct(geometries[at].trees(side)),
        block.strides@.len() == block.shape@.len(),
        indexes(index, block.shape@),
    ensures
        placed_element(
            block,
            geometries,
            geometries[at].sector,
            side,
            factor,
            leading,
            index_number(index, block.shape@, 0),
        ) == cell_of(
            factor,
            leading,
            cols,
            side,
            geometries[at].trees(side)[t].offset as int,
            block,
            index,
        ),
{
    let tree = side_tree(block.key@->FusionTree_0, side);
    let n = index_number(index, block.shape@, 0);
    lemma_side_of_index(block.shape@, index);
    lemma_element_by_index(block.shape@, block.strides@, index);
    lemma_position_unique(geometries, at);
    lemma_span_position(geometries[at].trees(side), tree, 0);
    assert(coordinate(block.shape@, n, bond_axis(block, side)) == index[bond_axis(block, side)]);
}

/// Both factors of every sector, scattered over their outputs: every element of a
/// block is the element of its sector's factor that its tree and its indices name.
pub proof fn lemma_scattered_pair_by_index<D>(
    left: BlockStructure,
    right: BlockStructure,
    geometries: Seq<Geometry>,
    pairs: Seq<FactorPair<D>>,
    zero: D,
    side: FactorSide,
    cols: int,
    at: int,
    t: int,
    k: int,
    index: Seq<int>,
)
    requires
        left.wf(),
        right.wf(),
        left.spec_blocks().len() <= usize::MAX,
        right.spec_blocks().len() <= usize::MAX,
        sectors_distinct(geometries),
        pairs.len() <= geometries.len(),
        0 <= at < pairs.len(),
        scatter_pairs(
            left.spec_blocks(),
            right.spec_blocks(),
            geometries,
            pairs,
            pairs.len() as int,
        ) is Ok,
        trees_distinct(geometries[at].trees(side)),
        ({
            let blocks = match side {
                FactorSide::Left => left.spec_blocks(),
                FactorSide::Right => right.spec_blocks(),
            };
            &&& elements_apart(blocks)
            &&& 0 <= k < blocks.len()
            &&& has_tree_at(blocks[k], geometries, side, at, t)
            &&& indexes(index, blocks[k].shape@)
        }),
    ensures
        ({
            let writes = scatter_pairs(
                left.spec_blocks(),
                right.spec_blocks(),
                geometries,
                pairs,
                pairs.len() as int,
            )->Ok_0;
            let start = geometries[at].trees(side)[t].offset as int;
            match side {
                FactorSide::Left => apply_writes(
                    zeros(zero, left.spec_len() as int),
                    writes.left,
                )[index_position(left.spec_blocks()[k], index)] == cell_of(
                    pairs[at].left@,
                    pairs[at].left_rows as int,
                    cols,
                    side,
                    start,
                    left.spec_blocks()[k],
                    index,
                ),
                FactorSide::Right => apply_writes(
                    zeros(zero, right.spec_len() as int),
                    writes.right,
                )[index_position(right.spec_blocks()[k], index)] == cell_of(
                    pairs[at].right@,
                    pairs[at].right_leading as int,
                    cols,
                    side,
                    start,
                    right.spec_blocks()[k],
                    index,
                ),
            }
        }),
{
    let structure = match side {
        FactorSide::Left => left,
        FactorSide::Right => right,
    };
    let block = structure.spec_blocks()[k];
    assert(block_admitted(block, structure.spec_len() as int));
    lemma_position_of_index(block, index);
    lemma_published_pair_reads_back(
        left,
        right,
        geometries,
        pairs,
        zero,
        at,
        k,
        index_number(index, block.shape@, 0),
        side,
    );
    lemma_placed_by_index(
        block,
        geometries,
        side,
        at,
        t,
        pairs[at].factor(side),
        pairs[at].leading(side) as int,
        cols,
        index,
    );
}

/// Factors as pairs with the same factor on both sides.
spec fn as_pairs<D>(factors: Seq<SectorFactor<D>>, sector: crate::sector::SectorId) -> Seq<
    FactorPair<D>,
> {
    factors.map_values(
        |factor: SectorFactor<D>|
            FactorPair {
                sector,
                kept: 0,
                left: factor.data,
                left_rows: factor.leading,
                right: factor.data,
                right_leading: factor.leading,
            },
    )
}

proof fn lemma_one_side_scatter<D>(
    blocks: Seq<Block>,
    geometries: Seq<Geometry>,
    factors: Seq<SectorFactor<D>>,
    side: FactorSide,
    count: int,
    sector: crate::sector::SectorId,
)
    requires
        0 <= count <= factors.len(),
        scatter_one_side(blocks, geometries, factors, side, count) is Ok,
    ensures
        scatter_one_side(blocks, geometries, factors, side, count)->Ok_0
            == crate::equivalence::side_scatter(
            blocks,
            geometries,
            as_pairs(factors, sector),
            side,
            count,
        ),
        forall|j: int|
            0 <= j < count ==> (#[trigger] whole_sector_scatter(
                blocks,
                geometries,
                geometries[j].sector,
                side,
                as_pairs(factors, sector)[j].factor(side),
                as_pairs(factors, sector)[j].leading(side) as int,
            )).error is None,
    decreases count,
{
    if count > 0 {
        lemma_one_side_scatter(blocks, geometries, factors, side, count - 1, sector);
    }
}

/// One factor of every sector, scattered over its output: every element of a block
/// is the element of its sector's factor that its tree and its indices name.
pub proof fn lemma_scattered_factor_by_index<D>(
    structure: BlockStructure,
    geometries: Seq<Geometry>,
    factors: Seq<SectorFactor<D>>,
    zero: D,
    side: FactorSide,
    cols: int,
    at: int,
    t: int,
    k: int,
    index: Seq<int>,
)
    requires
        structure.wf(),
        structure.spec_blocks().len() <= usize::MAX,
        elements_apart(structure.spec_blocks()),
        sectors_distinct(geometries),
        factors.len() <= geometries.len(),
        0 <= at < factors.len(),
        scatter_one_side(
            structure.spec_blocks(),
            geometries,
            factors,
            side,
            factors.len() as int,
        ) is Ok,
        trees_distinct(geometries[at].trees(side)),
        0 <= k < structure.spec_blocks().len(),
        has_tree_at(structure.spec_blocks()[k], geometries, side, at, t),
        indexes(index, structure.spec_blocks()[k].shape@),
    ensures
        apply_writes(
            zeros(zero, structure.spec_len() as int),
            scatter_one_side(
                structure.spec_blocks(),
                geometries,
                factors,
                side,
                factors.len() as int,
            )->Ok_0,
        )[index_position(structure.spec_blocks()[k], index)] == cell_of(
            factors[at].data@,
            factors[at].leading as int,
            cols,
            side,
            geometries[at].trees(side)[t].offset as int,
            structure.spec_blocks()[k],
            index,
        ),
{
    let blocks = structure.spec_blocks();
    let block = blocks[k];
    let sector = geometries[at].sector;
    let pairs = as_pairs(factors, sector);
    assert(block_admitted(block, structure.spec_len() as int));
    lemma_position_of_index(block, index);
    lemma_one_side_scatter(
        blocks,
        geometries,
        factors,
        side,
        factors.len() as int,
        sector,
    );
    assert forall|j: int| 0 <= j < blocks.len() implies block_admitted(
        #[trigger] blocks[j],
        structure.spec_len() as int,
    ) by {}
    lemma_side_reads(
        blocks,
        geometries,
        pairs,
        side,
        zero,
        structure.spec_len() as int,
        pairs.len() as int,
        k,
        index_number(index, block.shape@, 0),
        at,
    );
    lemma_placed_by_index(
        block,
        geometries,
        side,
        at,
        t,
        pairs[at].factor(side),
        pairs[at].leading(side) as int,
        cols,
        index,
    );
}

} // verus!
