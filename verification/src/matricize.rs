//! Packing of tensor blocks into coupled-sector matrices.

use vstd::prelude::*;

use crate::error::OperationError;
use crate::geometry::{
    geometries, lemma_sector_position, lemma_span_position, sector_position,
    sectors_distinct, span_position, spans, Geometry, SectorGeometry, SectorMatricization, Span,
    TreeExtent,
};
use crate::index::{
    block_fits, extent, extent_fits, lemma_extent_split, lemma_leading_extent_nonnegative,
    lemma_split_bounds,
};
use crate::layout::{copy_tensor_block_to_matrix, filled, matricization_writes, FactorSide};
use crate::sector::{FusionTreeKey, FusionTreePairKey, SectorId, Tree, TreePair};
use crate::sector_map::SectorMap;
use crate::structure::{
    block_admitted, lemma_admitted_fits, Block, BlockKey, BlockStructure, Label,
};
use crate::tree_table::{names_all_trees, TreeTable};
use crate::writes::{apply_writes, lemma_writes_concat, lemma_writes_len, writes_fit, Write};

verus! {

/// The part of a block's shape that indexes rows.
pub open spec fn row_shape(block: Block, nout: int) -> Seq<usize> {
    block.shape@.take(nout)
}

/// The part of a block's shape that indexes columns.
pub open spec fn col_shape(block: Block, nout: int) -> Seq<usize> {
    block.shape@.skip(nout)
}

/// A side of a sector matrix: its trees and their total extent.
pub struct Stack {
    pub trees: Seq<Span>,
    pub total: usize,
}

/// Adds a tree at the end of a side, unless it is there already. `None` where
/// the extent no longer fits.
pub open spec fn stack_tree(stack: Stack, tree: Tree, shape: Seq<usize>) -> Option<Stack> {
    if span_position(stack.trees, tree, 0) is Some {
        Some(stack)
    } else if stack.total + extent(shape) > usize::MAX {
        None
    } else {
        Some(
            Stack {
                trees: stack.trees.push(Span { tree, offset: stack.total, shape }),
                total: (stack.total + extent(shape)) as usize,
            },
        )
    }
}

/// The geometry that a block is stacked onto: that of its sector, or an empty
/// one where the sector is new.
pub open spec fn base_geometry(stacked: Seq<Geometry>, sector: SectorId) -> Geometry {
    match sector_position(stacked, sector, 0) {
        Some(at) => stacked[at],
        None => Geometry {
            sector,
            rows: 0,
            cols: 0,
            row_trees: Seq::empty(),
            col_trees: Seq::empty(),
        },
    }
}

/// Replaces the geometry of a sector, or appends it where the sector is new.
pub open spec fn put_geometry(stacked: Seq<Geometry>, geometry: Geometry) -> Seq<Geometry> {
    match sector_position(stacked, geometry.sector, 0) {
        Some(at) => stacked.update(at, geometry),
        None => stacked.push(geometry),
    }
}

/// The geometries after block `index` was stacked onto them.
pub open spec fn stack_block(
    stacked: Seq<Geometry>,
    index: int,
    block: Block,
    nout: int,
) -> Result<Seq<Geometry>, OperationError> {
    match block.key@ {
        Label::Plain => Err(
            OperationError::ExpectedFusionTreeBlock { tensor: "tsvd", index: index as usize },
        ),
        Label::FusionTree(pair) => {
            let base = base_geometry(stacked, pair.codomain.coupled);
            let rows = stack_tree(
                Stack { trees: base.row_trees, total: base.rows },
                pair.codomain,
                row_shape(block, nout),
            );
            let cols = stack_tree(
                Stack { trees: base.col_trees, total: base.cols },
                pair.domain,
                col_shape(block, nout),
            );
            if !extent_fits(row_shape(block, nout)) || !extent_fits(col_shape(block, nout)) {
                Err(OperationError::ElementCountOverflow)
            } else if rows is None || cols is None {
                Err(OperationError::ElementCountOverflow)
            } else {
                Ok(
                    put_geometry(
                        stacked,
                        Geometry {
                            sector: base.sector,
                            rows: rows->0.total,
                            cols: cols->0.total,
                            row_trees: rows->0.trees,
                            col_trees: cols->0.trees,
                        },
                    ),
                )
            }
        },
    }
}

/// The sector geometries of the first `count` blocks. Sectors, and the trees on
/// each side of a sector, stand in the order in which the blocks name them.
pub open spec fn stack_blocks(
    blocks: Seq<Block>,
    nout: int,
    count: int,
) -> Result<Seq<Geometry>, OperationError>
    decreases count,
{
    if count <= 0 {
        Ok(Seq::empty())
    } else {
        match stack_blocks(blocks, nout, count - 1) {
            Ok(stacked) => stack_block(stacked, count - 1, blocks[count - 1], nout),
            Err(error) => Err(error),
        }
    }
}

/// Every sector matrix has a number of elements that fits.
pub open spec fn matrices_fit(stacked: Seq<Geometry>) -> bool {
    forall|k: int|
        0 <= k < stacked.len() ==> (#[trigger] stacked[k]).rows * stacked[k].cols <= usize::MAX
}

/// Where a tree of a side starts.
pub open spec fn tree_offset(trees: Seq<Span>, tree: Tree) -> int {
    trees[span_position(trees, tree, 0)->0].offset as int
}

/// The writes that place one block into its sector matrix.
pub open spec fn block_writes<D>(
    data: Seq<D>,
    block: Block,
    pair: TreePair,
    nout: int,
    geometry: Geometry,
) -> Seq<Write<D>> {
    matricization_writes(
        data,
        block.shape@,
        block.strides@,
        block.offset as int,
        nout,
        geometry.rows as int,
        tree_offset(geometry.row_trees, pair.codomain),
        tree_offset(geometry.col_trees, pair.domain),
    )
}

/// The writes of those of the first `count` blocks that belong to a sector.
pub open spec fn sector_writes<D>(
    data: Seq<D>,
    blocks: Seq<Block>,
    nout: int,
    geometry: Geometry,
    count: int,
) -> Seq<Write<D>>
    decreases count,
{
    if count <= 0 {
        Seq::empty()
    } else {
        let before = sector_writes(data, blocks, nout, geometry, count - 1);
        match blocks[count - 1].key@ {
            Label::FusionTree(pair) if pair.codomain.coupled == geometry.sector => before
                + block_writes(data, blocks[count - 1], pair, nout, geometry),
            _ => before,
        }
    }
}

/// The matrix of one sector: zero but for the blocks written into it.
pub open spec fn sector_matrix<D>(
    data: Seq<D>,
    blocks: Seq<Block>,
    nout: int,
    geometry: Geometry,
    zero: D,
) -> Seq<D> {
    apply_writes(
        Seq::new((geometry.rows * geometry.cols) as nat, |k: int| zero),
        sector_writes(data, blocks, nout, geometry, blocks.len() as int),
    )
}

/// Every block up to this one is labelled by fusion trees.
pub open spec fn labelled_to(blocks: Seq<Block>, k: int) -> bool {
    forall|j: int| 0 <= j <= k ==> (#[trigger] blocks[j]).key@ is FusionTree
}

/// Every block up to the first that no fusion trees label has at least `nout`
/// axes.
pub open spec fn axes_suffice(blocks: Seq<Block>, nout: int) -> bool {
    forall|k: int|
        0 <= k < blocks.len() && labelled_to(blocks, k) ==> nout <= (
        #[trigger] blocks[k]).shape@.len()
}

/// Blocks of one sector that share a tree give it the same extent.
pub open spec fn evenly_stacked(blocks: Seq<Block>, nout: int) -> bool {
    forall|j: int, k: int|
        0 <= j < blocks.len() && 0 <= k < blocks.len() ==> #[trigger] extents_agree(
            blocks[j],
            blocks[k],
            nout,
        )
}

/// The blocks have enough axes, and their extents agree unless one of them is
/// refused before any is copied.
pub open spec fn stackable(blocks: Seq<Block>, nout: int) -> bool {
    &&& axes_suffice(blocks, nout)
    &&& stack_blocks(blocks, nout, blocks.len() as int) is Ok ==> evenly_stacked(blocks, nout)
}

/// Two blocks of one sector have one extent on a side where they share its
/// tree.
pub open spec fn extents_agree(a: Block, b: Block, nout: int) -> bool {
    match (a.key@, b.key@) {
        (
            Label::FusionTree(x),
            Label::FusionTree(y),
        ) if x.codomain.coupled == y.codomain.coupled => {
            &&& x.codomain == y.codomain ==> extent(row_shape(a, nout)) == extent(
                row_shape(b, nout),
            )
            &&& x.domain == y.domain ==> extent(col_shape(a, nout)) == extent(
                col_shape(b, nout),
            )
        },
        _ => true,
    }
}

/// The trees of a side follow each other without gaps from zero to the side's
/// extent, and none occurs twice.
pub open spec fn stacked_side(trees: Seq<Span>, total: int) -> bool {
    &&& trees.len() == 0 ==> total == 0
    &&& trees.len() > 0 ==> trees[0].offset == 0
    &&& forall|k: int|
        0 <= k < trees.len() ==> (#[trigger] trees[k]).offset + extent(trees[k].shape) == if k + 1
            < trees.len() {
            trees[k + 1].offset as int
        } else {
            total
        }
    &&& forall|k: int|
        0 <= k < trees.len() ==> (#[trigger] trees[k]).offset + extent(trees[k].shape) <= total
    &&& forall|j: int, k: int|
        0 <= j < k < trees.len() ==> (#[trigger] trees[j]).tree != (#[trigger] trees[k]).tree
}

/// A block of `sector` whose codomain tree has this span.
pub open spec fn gives_row_span(block: Block, sector: SectorId, span: Span, nout: int) -> bool {
    match block.key@ {
        Label::FusionTree(pair) => {
            &&& pair.codomain.coupled == sector
            &&& pair.codomain == span.tree
            &&& row_shape(block, nout) == span.shape
        },
        Label::Plain => false,
    }
}

/// A block of `sector` whose domain tree has this span.
pub open spec fn gives_col_span(block: Block, sector: SectorId, span: Span, nout: int) -> bool {
    match block.key@ {
        Label::FusionTree(pair) => {
            &&& pair.codomain.coupled == sector
            &&& pair.domain == span.tree
            &&& col_shape(block, nout) == span.shape
        },
        Label::Plain => false,
    }
}

/// Both sides are stacked without gaps, and every span comes from a block.
pub open spec fn geometry_stacked(
    geometry: Geometry,
    blocks: Seq<Block>,
    nout: int,
    count: int,
) -> bool {
    &&& stacked_side(geometry.row_trees, geometry.rows as int)
    &&& stacked_side(geometry.col_trees, geometry.cols as int)
    &&& forall|k: int|
        0 <= k < geometry.row_trees.len() ==> exists|j: int|
            0 <= j < count && gives_row_span(
                #[trigger] blocks[j],
                geometry.sector,
                #[trigger] geometry.row_trees[k],
                nout,
            )
    &&& forall|k: int|
        0 <= k < geometry.col_trees.len() ==> exists|j: int|
            0 <= j < count && gives_col_span(
                #[trigger] blocks[j],
                geometry.sector,
                #[trigger] geometry.col_trees[k],
                nout,
            )
}

/// The sector of a block and both of its trees are found in the geometries.
pub open spec fn block_registered(stacked: Seq<Geometry>, block: Block) -> bool {
    match block.key@ {
        Label::FusionTree(pair) => {
            &&& sector_position(stacked, pair.codomain.coupled, 0) is Some
            &&& span_position(
                stacked[sector_position(stacked, pair.codomain.coupled, 0)->0].row_trees,
                pair.codomain,
                0,
            ) is Some
            &&& span_position(
                stacked[sector_position(stacked, pair.codomain.coupled, 0)->0].col_trees,
                pair.domain,
                0,
            ) is Some
        },
        Label::Plain => false,
    }
}

/// What stacking `count` blocks establishes.
pub open spec fn stacking_holds(
    stacked: Seq<Geometry>,
    blocks: Seq<Block>,
    nout: int,
    count: int,
) -> bool {
    &&& sectors_distinct(stacked)
    &&& forall|k: int|
        0 <= k < stacked.len() ==> geometry_stacked(#[trigger] stacked[k], blocks, nout, count)
    &&& forall|j: int| 0 <= j < count ==> block_registered(stacked, #[trigger] blocks[j])
}

/// Where sectors are distinct, a geometry is found at its own place.
pub proof fn lemma_position_unique(stacked: Seq<Geometry>, k: int)
    requires
        sectors_distinct(stacked),
        0 <= k < stacked.len(),
    ensures
        sector_position(stacked, stacked[k].sector, 0) == Some(k),
{
    lemma_sector_position(stacked, stacked[k].sector, 0);
}

/// A found span stays where it is when a list grows at its end.
proof fn lemma_span_position_grows(short: Seq<Span>, long: Seq<Span>, tree: Tree)
    requires
        short.len() <= long.len(),
        forall|k: int| 0 <= k < short.len() ==> short[k] == long[k],
        span_position(short, tree, 0) is Some,
    ensures
        span_position(long, tree, 0) == span_position(short, tree, 0),
{
    lemma_span_position(short, tree, 0);
    lemma_span_position(long, tree, 0);
    let k = span_position(short, tree, 0)->0;
    assert(long[k].tree == tree);
    let l = span_position(long, tree, 0)->0;
    if l < k {
        assert(short[l].tree != tree);
    }
}

/// Stacking a tree keeps a side without gaps and registers the tree.
proof fn lemma_stack_tree(stack: Stack, tree: Tree, shape: Seq<usize>)
    requires
        stacked_side(stack.trees, stack.total as int),
        stack_tree(stack, tree, shape) is Some,
    ensures
        ({
            let grown = stack_tree(stack, tree, shape)->0;
            &&& stacked_side(grown.trees, grown.total as int)
            &&& span_position(grown.trees, tree, 0) is Some
            &&& stack.trees.len() <= grown.trees.len() <= stack.trees.len() + 1
            &&& forall|k: int| 0 <= k < stack.trees.len() ==> grown.trees[k] == stack.trees[k]
            &&& grown.trees.len() > stack.trees.len() ==> grown.trees[stack.trees.len() as int]
                == (Span { tree, offset: stack.total, shape })
        }),
{
    let grown = stack_tree(stack, tree, shape)->0;
    lemma_span_position(stack.trees, tree, 0);
    if span_position(stack.trees, tree, 0) is None {
        lemma_leading_extent_nonnegative(shape, shape.len() as int);
        let last = stack.trees.len() as int;
        assert(grown.trees[last].tree == tree);
        lemma_span_position(grown.trees, tree, 0);
        assert forall|k: int| 0 <= k < grown.trees.len() implies (#[trigger] grown.trees[k]).offset
            + extent(grown.trees[k].shape) == if k + 1 < grown.trees.len() {
            grown.trees[k + 1].offset as int
        } else {
            grown.total as int
        } by {
            if k < last {
                assert(grown.trees[k] == stack.trees[k]);
                if k + 1 < last {
                    assert(grown.trees[k + 1] == stack.trees[k + 1]);
                }
            }
        }
        assert forall|k: int| 0 <= k < grown.trees.len() implies (#[trigger] grown.trees[k]).offset
            + extent(grown.trees[k].shape) <= grown.total by {
            if k < last {
                assert(grown.trees[k] == stack.trees[k]);
            }
        }
        assert forall|j: int, k: int| 0 <= j < k < grown.trees.len() implies (
        #[trigger] grown.trees[j]).tree != (#[trigger] grown.trees[k]).tree by {
            assert(grown.trees[j] == stack.trees[j]);
            if k < last {
                assert(grown.trees[k] == stack.trees[k]);
            }
        }
    }
}

/// Stacking one more block keeps what stacking establishes.
proof fn lemma_stack_block(stacked: Seq<Geometry>, blocks: Seq<Block>, nout: int, count: int)
    requires
        0 <= count < blocks.len(),
        stacking_holds(stacked, blocks, nout, count),
        stack_block(stacked, count, blocks[count], nout) is Ok,
    ensures
        stacking_holds(
            stack_block(stacked, count, blocks[count], nout)->Ok_0,
            blocks,
            nout,
            count + 1,
        ),
{
    let block = blocks[count];
    let pair = block.key@->FusionTree_0;
    let sector = pair.codomain.coupled;
    let base = base_geometry(stacked, sector);
    let row_stack = Stack { trees: base.row_trees, total: base.rows };
    let col_stack = Stack { trees: base.col_trees, total: base.cols };
    let rows = stack_tree(row_stack, pair.codomain, row_shape(block, nout))->0;
    let cols = stack_tree(col_stack, pair.domain, col_shape(block, nout))->0;
    lemma_sector_position(stacked, sector, 0);
    let found = sector_position(stacked, sector, 0);
    assert(base.sector == sector);
    if found is Some {
        assert(geometry_stacked(stacked[found->0], blocks, nout, count));
    }
    lemma_stack_tree(row_stack, pair.codomain, row_shape(block, nout));
    lemma_stack_tree(col_stack, pair.domain, col_shape(block, nout));
    let grown = Geometry {
        sector,
        rows: rows.total,
        cols: cols.total,
        row_trees: rows.trees,
        col_trees: cols.trees,
    };
    let result = put_geometry(stacked, grown);
    let at = match found {
        Some(at) => at,
        None => stacked.len() as int,
    };
    assert(result[at] == grown);
    assert(forall|k: int|
        0 <= k < stacked.len() && k != at ==> #[trigger] result[k] == stacked[k]);
    assert(sectors_distinct(result)) by {
        assert forall|j: int, k: int| 0 <= j < k < result.len() implies (
        #[trigger] result[j]).sector != (#[trigger] result[k]).sector by {
            if j != at {
                assert(result[j] == stacked[j]);
            }
            if k != at {
                assert(result[k] == stacked[k]);
            }
            if found is Some {
                assert(stacked[j].sector != stacked[k].sector);
            }
        }
    }
    assert(geometry_stacked(grown, blocks, nout, count + 1)) by {
        assert forall|k: int| 0 <= k < grown.row_trees.len() implies exists|j: int|
            0 <= j < count + 1 && gives_row_span(
                #[trigger] blocks[j],
                grown.sector,
                #[trigger] grown.row_trees[k],
                nout,
            ) by {
            if k < base.row_trees.len() {
                assert(grown.row_trees[k] == base.row_trees[k]);
                let j = choose|j: int|
                    0 <= j < count && gives_row_span(
                        #[trigger] blocks[j],
                        base.sector,
                        base.row_trees[k],
                        nout,
                    );
                assert(gives_row_span(blocks[j], grown.sector, grown.row_trees[k], nout));
            } else {
                assert(gives_row_span(blocks[count], grown.sector, grown.row_trees[k], nout));
            }
        }
        assert forall|k: int| 0 <= k < grown.col_trees.len() implies exists|j: int|
            0 <= j < count + 1 && gives_col_span(
                #[trigger] blocks[j],
                grown.sector,
                #[trigger] grown.col_trees[k],
                nout,
            ) by {
            if k < base.col_trees.len() {
                assert(grown.col_trees[k] == base.col_trees[k]);
                let j = choose|j: int|
                    0 <= j < count && gives_col_span(
                        #[trigger] blocks[j],
                        base.sector,
                        base.col_trees[k],
                        nout,
                    );
                assert(gives_col_span(blocks[j], grown.sector, grown.col_trees[k], nout));
            } else {
                assert(gives_col_span(blocks[count], grown.sector, grown.col_trees[k], nout));
            }
        }
    }
    assert forall|k: int| 0 <= k < result.len() implies geometry_stacked(
        #[trigger] result[k],
        blocks,
        nout,
        count + 1,
    ) by {
        if k != at {
            lemma_geometry_stacked_grows(stacked[k], blocks, nout, count);
        }
    }
    assert forall|j: int| 0 <= j < count + 1 implies block_registered(
        result,
        #[trigger] blocks[j],
    ) by {
        lemma_position_unique(result, at);
        if j < count {
            assert(block_registered(stacked, blocks[j]));
            let other = blocks[j].key@->FusionTree_0;
            lemma_sector_position(stacked, other.codomain.coupled, 0);
            let there = sector_position(stacked, other.codomain.coupled, 0)->0;
            if there == at {
                lemma_span_position_grows(base.row_trees, grown.row_trees, other.codomain);
                lemma_span_position_grows(base.col_trees, grown.col_trees, other.domain);
            } else {
                assert(result[there] == stacked[there]);
                lemma_position_unique(result, there);
            }
        }
    }
}

proof fn lemma_geometry_stacked_grows(
    geometry: Geometry,
    blocks: Seq<Block>,
    nout: int,
    count: int,
)
    requires
        geometry_stacked(geometry, blocks, nout, count),
    ensures
        geometry_stacked(geometry, blocks, nout, count + 1),
{
    assert forall|k: int| 0 <= k < geometry.row_trees.len() implies exists|j: int|
        0 <= j < count + 1 && gives_row_span(
            #[trigger] blocks[j],
            geometry.sector,
            #[trigger] geometry.row_trees[k],
            nout,
        ) by {
        let j = choose|j: int|
            0 <= j < count && gives_row_span(
                #[trigger] blocks[j],
                geometry.sector,
                geometry.row_trees[k],
                nout,
            );
        assert(gives_row_span(blocks[j], geometry.sector, geometry.row_trees[k], nout));
    }
    assert forall|k: int| 0 <= k < geometry.col_trees.len() implies exists|j: int|
        0 <= j < count + 1 && gives_col_span(
            #[trigger] blocks[j],
            geometry.sector,
            #[trigger] geometry.col_trees[k],
            nout,
        ) by {
        let j = choose|j: int|
            0 <= j < count && gives_col_span(
                #[trigger] blocks[j],
                geometry.sector,
                geometry.col_trees[k],
                nout,
            );
        assert(gives_col_span(blocks[j], geometry.sector, geometry.col_trees[k], nout));
    }
}

/// Stacking gives every sector one geometry, stacks the trees of each side
/// without gaps and repetitions, and finds every block's trees in its sector.
pub proof fn lemma_stacking(blocks: Seq<Block>, nout: int, count: int)
    requires
        0 <= count <= blocks.len(),
        stack_blocks(blocks, nout, count) is Ok,
    ensures
        stacking_holds(stack_blocks(blocks, nout, count)->Ok_0, blocks, nout, count),
    decreases count,
{
    if count > 0 {
        lemma_stacking(blocks, nout, count - 1);
        lemma_stack_block(
            stack_blocks(blocks, nout, count - 1)->Ok_0,
            blocks,
            nout,
            count - 1,
        );
    }
}

/// The sides of stacked blocks have extents that fit.
pub(crate) proof fn lemma_stacked_extents_fit(
    blocks: Seq<Block>,
    nout: int,
    count: int,
    k: int,
)
    requires
        0 <= k < count <= blocks.len(),
        stack_blocks(blocks, nout, count) is Ok,
    ensures
        blocks[k].key@ is FusionTree,
        extent_fits(row_shape(blocks[k], nout)),
        extent_fits(col_shape(blocks[k], nout)),
    decreases count,
{
    if k < count - 1 {
        lemma_stacked_extents_fit(blocks, nout, count - 1, k);
    }
}

/// Stacks a tree of known extent onto a side.
fn stack_side(
    trees: &mut Vec<TreeExtent>,
    total: usize,
    tree: &FusionTreeKey,
    shape: &[usize],
    dim: usize,
    known: bool,
) -> (grown: Option<usize>)
    requires
        dim == extent(shape@),
        known == (span_position(spans(old(trees)@), tree@, 0) is Some),
    ensures
        match stack_tree(Stack { trees: spans(old(trees)@), total }, tree@, shape@) {
            Some(stack) => grown == Some(stack.total) && spans(final(trees)@) == stack.trees,
            None => grown is None,
        },
{
    if known {
        return Some(total);
    }
    match total.checked_add(dim) {
        None => None,
        Some(grown) => {
            let ghost before = trees@;
            trees.push(
                TreeExtent {
                    tree: tree.duplicate(),
                    offset: total,
                    shape: vstd::slice::slice_to_vec(shape),
                },
            );
            proof {
                assert(spans(trees@) =~= spans(before).push(
                    Span { tree: tree@, offset: total, shape: shape@ },
                ));
            }
            Some(grown)
        },
    }
}

/// Stacks both trees of a block onto the matrix of its sector; false where a
/// side no longer fits.
fn stack_key<D>(
    matrix: &mut SectorMatricization<D>,
    key: &FusionTreePairKey,
    rows_shape: &[usize],
    row_dim: usize,
    cols_shape: &[usize],
    col_dim: usize,
    row_known: bool,
    col_known: bool,
) -> (fits: bool)
    requires
        row_dim == extent(rows_shape@),
        col_dim == extent(cols_shape@),
        row_known == (span_position(old(matrix).geometry().row_trees, key@.codomain, 0) is Some),
        col_known == (span_position(old(matrix).geometry().col_trees, key@.domain, 0) is Some),
    ensures
        ({
            let base = old(matrix).geometry();
            let rows = stack_tree(
                Stack { trees: base.row_trees, total: base.rows },
                key@.codomain,
                rows_shape@,
            );
            let cols = stack_tree(
                Stack { trees: base.col_trees, total: base.cols },
                key@.domain,
                cols_shape@,
            );
            &&& fits == (rows is Some && cols is Some)
            &&& fits ==> final(matrix).geometry() == (Geometry {
                sector: base.sector,
                rows: rows->0.total,
                cols: cols->0.total,
                row_trees: rows->0.trees,
                col_trees: cols->0.trees,
            })
        }),
{
    let rows = stack_side(
        &mut matrix.row_trees,
        matrix.rows,
        key.codomain_tree(),
        rows_shape,
        row_dim,
        row_known,
    );
    let cols = stack_side(
        &mut matrix.col_trees,
        matrix.cols,
        key.domain_tree(),
        cols_shape,
        col_dim,
        col_known,
    );
    match (rows, cols) {
        (Some(rows), Some(cols)) => {
            matrix.rows = rows;
            matrix.cols = cols;
            true
        },
        _ => false,
    }
}

/// An error of an earlier block is the error of the whole list.
proof fn lemma_stacking_stops(blocks: Seq<Block>, nout: int, low: int, high: int)
    requires
        0 <= low <= high,
        stack_blocks(blocks, nout, low) is Err,
    ensures
        stack_blocks(blocks, nout, high) == stack_blocks(blocks, nout, low),
    decreases high - low,
{
    if low < high {
        lemma_stacking_stops(blocks, nout, low, high - 1);
    }
}

/// The map holds the position of every sector.
pub open spec fn indexes_sectors(map: Map<SectorId, usize>, stacked: Seq<Geometry>) -> bool {
    forall|sector: SectorId|
        {
            &&& #[trigger] map.contains_key(sector) <==> sector_position(stacked, sector, 0) is Some
            &&& map.contains_key(sector) ==> map[sector] as int == sector_position(
                stacked,
                sector,
                0,
            )->0
        }
}

/// Position of a sector after one geometry was put into the list.
proof fn lemma_put_geometry(stacked: Seq<Geometry>, geometry: Geometry, sector: SectorId)
    requires
        sectors_distinct(stacked),
    ensures
        sector != geometry.sector ==> sector_position(put_geometry(stacked, geometry), sector, 0)
            == sector_position(stacked, sector, 0),
        sector_position(put_geometry(stacked, geometry), geometry.sector, 0) == Some(
            match sector_position(stacked, geometry.sector, 0) {
                Some(at) => at,
                None => stacked.len() as int,
            },
        ),
{
    let result = put_geometry(stacked, geometry);
    lemma_sector_position(stacked, geometry.sector, 0);
    lemma_sector_position(stacked, sector, 0);
    lemma_sector_position(result, geometry.sector, 0);
    lemma_sector_position(result, sector, 0);
    let at = match sector_position(stacked, geometry.sector, 0) {
        Some(at) => at,
        None => stacked.len() as int,
    };
    assert(result[at] == geometry);
    assert forall|k: int| 0 <= k < stacked.len() && k != at implies #[trigger] result[k]
        == stacked[k] by {}
    let p = sector_position(result, geometry.sector, 0)->0;
    if p < at {
        assert(result[p] == stacked[p]);
    }
    if sector != geometry.sector {
        match sector_position(stacked, sector, 0) {
            Some(k) => {
                assert(result[k] == stacked[k]);
                let q = sector_position(result, sector, 0)->0;
                if q != k {
                    assert(result[q] == stacked[q]);
                }
            },
            None => {
                if sector_position(result, sector, 0) is Some {
                    let q = sector_position(result, sector, 0)->0;
                    assert(result[q] == stacked[q]);
                }
            },
        }
    }
}

/// An empty matrix at the end changes nothing for a table.
proof fn lemma_table_opened(table: TreeTable, stacked: Seq<Geometry>, opened: Seq<Geometry>)
    requires
        table.wf(stacked),
        names_all_trees(table, stacked),
        stacked.len() <= opened.len(),
        forall|m: int| 0 <= m < stacked.len() ==> opened[m] == #[trigger] stacked[m],
        forall|m: int|
            stacked.len() <= m < opened.len() ==> (#[trigger] opened[m]).row_trees.len() == 0
                && opened[m].col_trees.len() == 0,
    ensures
        table.wf(opened),
        names_all_trees(table, opened),
{
    reveal(names_all_trees);
    table.lemma_grown(stacked, opened);
    assert forall|m: int, side: FactorSide, k: int|
        0 <= m < opened.len() && 0 <= k < opened[m].trees(side).len()
            implies #[trigger] table.names(m, side, k) by {
        if m < stacked.len() {
            assert(opened[m] == stacked[m]);
        } else {
            assert(opened[m].row_trees.len() == 0);
        }
    }
}

/// Enters the last tree of a side of a matrix, behind all its others.
fn enter_last<M: SectorGeometry>(
    table: &mut TreeTable,
    matrices: &[M],
    matrix: usize,
    side: FactorSide,
)
    requires
        old(table).wf(geometries(matrices@)),
        matrix < matrices@.len(),
        geometries(matrices@)[matrix as int].trees(side).len() > 0,
        forall|t: int|
            0 <= t < old(table).entries().len() && (#[trigger] old(table).entries()[t]).matrix
                == matrix && old(table).entries()[t].side == side ==> old(table).entries()[t].tree
                < geometries(matrices@)[matrix as int].trees(side).len() - 1,
    ensures
        final(table).wf(geometries(matrices@)),
        final(table).entries().drop_last() == old(table).entries(),
        final(table).entries().len() > 0,
        final(table).entries().last().matrix == matrix,
        final(table).entries().last().side == side,
        forall|m: int, other: FactorSide, k: int| #[trigger]
            final(table).names(m, other, k) <==> old(table).names(m, other, k) || (m == matrix
                && other == side && k == geometries(matrices@)[matrix as int].trees(side).len()
                - 1),
{
    let ghost all = geometries(matrices@);
    let ghost before = *table;
    assert(all[matrix as int] == matrices@[matrix as int].geometry());
    let count: usize = matrices[matrix].tree_count(side);
    if let Some(extent) = matrices[matrix].tree(side, count - 1) {
        table.enter(matrix, side, count - 1, &extent.tree, Ghost(all));
    }
    proof {
        let after = table.entries();
        assert(after.drop_last() == before.entries());
        assert forall|m: int, other: FactorSide, k: int| #[trigger]
            table.names(m, other, k) <==> before.names(m, other, k) || (m == matrix && other
                == side && k == count - 1) by {
            if before.names(m, other, k) {
                let t = choose|t: int|
                    0 <= t < before.entries().len() && (
                    #[trigger] before.entries()[t]).matrix == m && before.entries()[t].side
                        == other && before.entries()[t].tree == k;
                assert(after[t] == after.drop_last()[t]);
            } else if m == matrix && other == side && k == count - 1 {
                assert(after[after.len() - 1].tree == k);
            }
            if table.names(m, other, k) {
                let t = choose|t: int|
                    0 <= t < after.len() && (#[trigger] after[t]).matrix == m && after[t].side
                        == other && after[t].tree == k;
                if t < after.len() - 1 {
                    assert(after.drop_last()[t] == after[t]);
                    assert(before.entries()[t] == after[t]);
                }
            }
        }
    }
}

/// Enters the trees that a matrix got.
fn enter_grown<M: SectorGeometry>(
    table: &mut TreeTable,
    matrices: &[M],
    at: usize,
    row_known: bool,
    col_known: bool,
    Ghost(before): Ghost<Seq<Geometry>>,
)
    requires
        old(table).wf(before),
        names_all_trees(*old(table), before),
        before.len() == matrices@.len(),
        at < matrices@.len(),
        forall|k: int|
            0 <= k < before.len() && k != at ==> geometries(matrices@)[k] == #[trigger] before[k],
        ({
            let grown = geometries(matrices@)[at as int];
            let rows = before[at as int].row_trees;
            let cols = before[at as int].col_trees;
            &&& grown.row_trees.len() == if row_known {
                rows.len()
            } else {
                rows.len() + 1
            }
            &&& grown.col_trees.len() == if col_known {
                cols.len()
            } else {
                cols.len() + 1
            }
            &&& grown.row_trees.take(rows.len() as int) == rows
            &&& grown.col_trees.take(cols.len() as int) == cols
        }),
    ensures
        final(table).wf(geometries(matrices@)),
        names_all_trees(*final(table), geometries(matrices@)),
{
    let ghost all = geometries(matrices@);
    let ghost start = *table;
    proof {
        reveal(names_all_trees);
        table.lemma_entries(before);
        assert forall|m: int, side: FactorSide, k: int|
            #![trigger before[m].trees(side)[k]]
            0 <= m < before.len() && 0 <= k < before[m].trees(side).len() implies {
            &&& k < all[m].trees(side).len()
            &&& all[m].trees(side)[k].tree == before[m].trees(side)[k].tree
        } by {
            if m == at {
                let rows = before[at as int].row_trees;
                let cols = before[at as int].col_trees;
                match side {
                    FactorSide::Left => {
                        assert(all[m].row_trees.take(rows.len() as int)[k] == rows[k]);
                    },
                    FactorSide::Right => {
                        assert(all[m].col_trees.take(cols.len() as int)[k] == cols[k]);
                    },
                }
            } else {
                assert(all[m] == before[m]);
            }
        }
        table.lemma_grown(before, all);
    }
    if !row_known {
        enter_last(table, matrices, at, FactorSide::Left);
    }
    let ghost middle = *table;
    proof {
        assert forall|t: int|
            0 <= t < middle.entries().len() && (#[trigger] middle.entries()[t]).matrix == at
                && middle.entries()[t].side == FactorSide::Right implies middle.entries()[t].tree
            < before[at as int].col_trees.len() by {
            if !row_known {
                if t < middle.entries().len() - 1 {
                    assert(middle.entries().drop_last()[t] == middle.entries()[t]);
                    assert(start.entries()[t] == middle.entries()[t]);
                }
            }
        }
    }
    if !col_known {
        enter_last(table, matrices, at, FactorSide::Right);
    }
    proof {
        assert forall|m: int, side: FactorSide, k: int|
            0 <= m < all.len() && 0 <= k < all[m].trees(side).len() implies #[trigger] table.names(
            m,
            side,
            k,
        ) by {
            if m != at {
                assert(all[m] == before[m]);
            }
            if k < before[m].trees(side).len() {
                assert(start.names(m, side, k));
            }
            assert(middle.names(m, side, k) || side == FactorSide::Right);
        }
    }
}

/// Stacks the trees of every block: the geometries, with their sectors and trees
/// indexed.
#[verifier::spinoff_prover]
#[verifier::rlimit(60)]
pub(crate) fn stack_structure<D>(structure: &BlockStructure, nout: usize) -> (result: Result<
    (Vec<SectorMatricization<D>>, SectorMap, TreeTable),
    OperationError,
>)
    requires
        axes_suffice(structure.spec_blocks(), nout as int),
    ensures
        match (result, stack_blocks(
            structure.spec_blocks(),
            nout as int,
            structure.spec_blocks().len() as int,
        )) {
            (Ok((matrices, map, table)), Ok(stacked)) => {
                &&& geometries(matrices@) == stacked
                &&& indexes_sectors(map@, stacked)
                &&& table.wf(stacked)
                &&& names_all_trees(table, stacked)
            },
            (Err(error), Err(expected)) => error == expected,
            _ => false,
        },
{
    let ghost blocks = structure.spec_blocks();
    let mut matrices: Vec<SectorMatricization<D>> = Vec::new();
    let mut map = SectorMap::new();
    let mut table = TreeTable::new();
    let count: usize = structure.block_count();
    let mut index: usize = 0;
    proof {
        assert(geometries(matrices@) =~= Seq::empty());
        reveal(names_all_trees);
    }
    while index < count
        invariant
            index <= count == blocks.len(),
            blocks == structure.spec_blocks(),
            axes_suffice(blocks, nout as int),
            stack_blocks(blocks, nout as int, index as int) == Ok::<
                Seq<Geometry>,
                OperationError,
            >(geometries(matrices@)),
            indexes_sectors(map@, geometries(matrices@)),
            table.wf(geometries(matrices@)),
            names_all_trees(table, geometries(matrices@)),
        decreases count - index,
    {
        let ghost stacked = geometries(matrices@);
        let block = structure.block(index);
        proof {
            lemma_stacking(blocks, nout as int, index as int);
            if stack_blocks(blocks, nout as int, index + 1) is Err {
                lemma_stacking_stops(blocks, nout as int, index + 1, count as int);
            }
        }
        let key = match &block.key {
            BlockKey::Plain => {
                return Err(OperationError::ExpectedFusionTreeBlock { tensor: "tsvd", index });
            },
            BlockKey::FusionTree(key) => key,
        };
        assert(labelled_to(blocks, index as int)) by {
            assert forall|j: int| 0 <= j <= index implies (#[trigger] blocks[j]).key@
                is FusionTree by {
                if j < index {
                    assert(block_registered(stacked, blocks[j]));
                }
            }
        }
        let sector = key.codomain_tree().coupled();
        let shape = block.shape();
        let rows_shape = vstd::slice::slice_subrange(shape, 0, nout);
        let cols_shape = vstd::slice::slice_subrange(shape, nout, shape.len());
        proof {
            assert(rows_shape@ =~= row_shape(*block, nout as int));
            assert(cols_shape@ =~= col_shape(*block, nout as int));
        }
        let row_dim: usize = match crate::index::checked_extent(rows_shape) {
            Some(dim) => dim,
            None => {
                return Err(OperationError::ElementCountOverflow);
            },
        };
        let col_dim: usize = match crate::index::checked_extent(cols_shape) {
            Some(dim) => dim,
            None => {
                return Err(OperationError::ElementCountOverflow);
            },
        };
        let ghost base = base_geometry(stacked, sector);
        let at: usize = match map.get(sector) {
            Some(at) => at,
            None => {
                let at: usize = matrices.len();
                let fresh: SectorMatricization<D> = SectorMatricization {
                    sector,
                    rows: 0,
                    cols: 0,
                    row_trees: Vec::new(),
                    col_trees: Vec::new(),
                    data: Vec::new(),
                };
                proof {
                    assert(fresh.geometry().row_trees =~= Seq::empty());
                    assert(fresh.geometry().col_trees =~= Seq::empty());
                }
                matrices.push(fresh);
                map.insert(sector, at);
                at
            },
        };
        proof {
            lemma_sector_position(stacked, sector, 0);
            assert(matrices@[at as int].geometry() == base) by {
                if sector_position(stacked, sector, 0) is Some {
                    assert(stacked[at as int] == matrices@[at as int].geometry());
                }
            }
        }
        let ghost opened = matrices@;
        proof {
            lemma_table_opened(table, stacked, geometries(opened));
            reveal(names_all_trees);
        }
        let row_known = table.find(
            matrices.as_slice(),
            at,
            FactorSide::Left,
            key.codomain_tree(),
        ).is_some();
        let col_known = table.find(
            matrices.as_slice(),
            at,
            FactorSide::Right,
            key.domain_tree(),
        ).is_some();
        if !stack_key(
            &mut matrices[at],
            key,
            rows_shape,
            row_dim,
            cols_shape,
            col_dim,
            row_known,
            col_known,
        ) {
            return Err(OperationError::ElementCountOverflow);
        }
        proof {
            assert forall|k: int| 0 <= k < opened.len() && k != at implies geometries(matrices@)[k]
                == geometries(opened)[k] by {
                assert(matrices@[k] == opened[k]);
            }
            let stacked_on = matrices@[at as int].geometry();
            assert(stacked_on.row_trees.take(base.row_trees.len() as int) =~= base.row_trees);
            assert(stacked_on.col_trees.take(base.col_trees.len() as int) =~= base.col_trees);
            assert(geometries(matrices@)[at as int] == stacked_on);
            assert(geometries(opened)[at as int] == base);
        }
        enter_grown(
            &mut table,
            matrices.as_slice(),
            at,
            row_known,
            col_known,
            Ghost(geometries(opened)),
        );
        let ghost grown = matrices@[at as int].geometry();
        proof {
            assert(geometries(matrices@) =~= put_geometry(stacked, grown)) by {
                assert forall|k: int| 0 <= k < stacked.len() && k != at implies geometries(
                    matrices@,
                )[k] == stacked[k] by {
                    assert(matrices@[k] == opened[k]);
                }
            }
        }
        proof {
            assert forall|other: SectorId|
                {
                    &&& #[trigger] map@.contains_key(other) <==> sector_position(
                        geometries(matrices@),
                        other,
                        0,
                    ) is Some
                    &&& map@.contains_key(other) ==> map@[other] as int == sector_position(
                        geometries(matrices@),
                        other,
                        0,
                    )->0
                } by {
                lemma_put_geometry(stacked, grown, other);
            }
        }
        index += 1;
    }
    Ok((matrices, map, table))
}

/// The spans of a block's trees have the block's own extents, and the block has
/// at least `nout` axes.
pub proof fn lemma_block_spans(
    stacked: Seq<Geometry>,
    blocks: Seq<Block>,
    nout: int,
    index: int,
)
    requires
        0 <= index < blocks.len(),
        axes_suffice(blocks, nout),
        evenly_stacked(blocks, nout),
        0 <= nout,
        stacking_holds(stacked, blocks, nout, blocks.len() as int),
    ensures
        ({
            let block = blocks[index];
            let pair = block.key@->FusionTree_0;
            let at = sector_position(stacked, pair.codomain.coupled, 0)->0;
            let geometry = stacked[at];
            let row_span = geometry.row_trees[span_position(
                geometry.row_trees,
                pair.codomain,
                0,
            )->0];
            let col_span = geometry.col_trees[span_position(
                geometry.col_trees,
                pair.domain,
                0,
            )->0];
            &&& block.key@ is FusionTree
            &&& sector_position(stacked, pair.codomain.coupled, 0) is Some
            &&& 0 <= at < stacked.len()
            &&& geometry.sector == pair.codomain.coupled
            &&& span_position(geometry.row_trees, pair.codomain, 0) is Some
            &&& span_position(geometry.col_trees, pair.domain, 0) is Some
            &&& nout <= block.shape@.len()
            &&& extent(row_span.shape) == extent(row_shape(block, nout))
            &&& extent(col_span.shape) == extent(col_shape(block, nout))
            &&& row_span.offset + extent(row_span.shape) <= geometry.rows
            &&& col_span.offset + extent(col_span.shape) <= geometry.cols
        }),
{
    let block = blocks[index];
    assert(block_registered(stacked, block));
    assert(labelled_to(blocks, blocks.len() - 1)) by {
        assert forall|j: int| 0 <= j < blocks.len() implies (#[trigger] blocks[j]).key@
            is FusionTree by {
            assert(block_registered(stacked, blocks[j]));
        }
    }
    assert(labelled_to(blocks, index));
    let pair = block.key@->FusionTree_0;
    lemma_sector_position(stacked, pair.codomain.coupled, 0);
    let at = sector_position(stacked, pair.codomain.coupled, 0)->0;
    let geometry = stacked[at];
    assert(geometry_stacked(geometry, blocks, nout, blocks.len() as int));
    lemma_span_position(geometry.row_trees, pair.codomain, 0);
    lemma_span_position(geometry.col_trees, pair.domain, 0);
    let r = span_position(geometry.row_trees, pair.codomain, 0)->0;
    let c = span_position(geometry.col_trees, pair.domain, 0)->0;
    let row_span = geometry.row_trees[r];
    let col_span = geometry.col_trees[c];
    let i = choose|j: int|
        0 <= j < blocks.len() && gives_row_span(
            #[trigger] blocks[j],
            geometry.sector,
            row_span,
            nout,
        );
    let j = choose|j: int|
        0 <= j < blocks.len() && gives_col_span(
            #[trigger] blocks[j],
            geometry.sector,
            col_span,
            nout,
        );
    assert(extents_agree(blocks[i], block, nout));
    assert(extents_agree(blocks[j], block, nout));
}

/// A block lies inside its sector matrix.
pub proof fn lemma_block_writes_fit<D>(
    data: Seq<D>,
    stacked: Seq<Geometry>,
    blocks: Seq<Block>,
    nout: int,
    index: int,
)
    requires
        0 <= index < blocks.len(),
        axes_suffice(blocks, nout),
        evenly_stacked(blocks, nout),
        0 <= nout,
        stacking_holds(stacked, blocks, nout, blocks.len() as int),
    ensures
        ({
            let pair = blocks[index].key@->FusionTree_0;
            let at = sector_position(stacked, pair.codomain.coupled, 0)->0;
            let geometry = stacked[at];
            &&& blocks[index].key@ is FusionTree
            &&& sector_position(stacked, pair.codomain.coupled, 0) is Some
            &&& 0 <= at < stacked.len()
            &&& geometry.sector == pair.codomain.coupled
            &&& span_position(geometry.row_trees, pair.codomain, 0) is Some
            &&& span_position(geometry.col_trees, pair.domain, 0) is Some
            &&& tree_offset(geometry.row_trees, pair.codomain) + extent(
                row_shape(blocks[index], nout),
            ) <= geometry.rows
            &&& tree_offset(geometry.col_trees, pair.domain) + extent(
                col_shape(blocks[index], nout),
            ) <= geometry.cols
            &&& writes_fit(
                block_writes(data, blocks[index], pair, nout, geometry),
                geometry.rows * geometry.cols,
            )
        }),
{
    let block = blocks[index];
    lemma_block_spans(stacked, blocks, nout, index);
    let pair = block.key@->FusionTree_0;
    let at = sector_position(stacked, pair.codomain.coupled, 0)->0;
    let geometry = stacked[at];
    let row_offset = tree_offset(geometry.row_trees, pair.codomain);
    let col_offset = tree_offset(geometry.col_trees, pair.domain);
    lemma_extent_split(block.shape@, nout);
    let writes = block_writes(data, block, pair, nout, geometry);
    let row_extent = extent(row_shape(block, nout));
    let col_extent = extent(col_shape(block, nout));
    lemma_leading_extent_nonnegative(row_shape(block, nout), nout);
    lemma_leading_extent_nonnegative(col_shape(block, nout), block.shape@.len() - nout);
    lemma_leading_extent_nonnegative(block.shape@, block.shape@.len() as int);
    assert forall|n: int| 0 <= n < writes.len() implies 0 <= (#[trigger] writes[n]).0
        < geometry.rows * geometry.cols by {
        lemma_matrix_position(
            n,
            row_extent,
            col_extent,
            row_offset,
            col_offset,
            geometry.rows as int,
            geometry.cols as int,
        );
    }
}

/// Row and column of an element of a submatrix stay inside the matrix.
pub proof fn lemma_matrix_position(
    n: int,
    row_extent: int,
    col_extent: int,
    row_offset: int,
    col_offset: int,
    rows: int,
    cols: int,
)
    requires
        0 <= n < row_extent * col_extent,
        0 <= row_extent,
        0 <= col_extent,
        0 <= row_offset,
        0 <= col_offset,
        row_offset + row_extent <= rows,
        col_offset + col_extent <= cols,
    ensures
        row_extent > 0,
        0 <= n % row_extent < row_extent,
        0 <= n / row_extent < col_extent,
        0 <= row_offset + n % row_extent + rows * (col_offset + n / row_extent) < rows * cols,
{
    lemma_split_bounds(n, row_extent, col_extent);
    let r = n % row_extent;
    let c = n / row_extent;
    let row = row_offset + r;
    let col = col_offset + c;
    assert(0 <= row + rows * col < rows * cols) by (nonlinear_arith)
        requires
            0 <= row < rows,
            0 <= col,
            col + 1 <= cols,
    ;
}

/// Writes one block into the matrix of its sector.
fn pack_block<D: Copy>(
    matrix: &mut SectorMatricization<D>,
    data: &[D],
    block: &Block,
    key: &FusionTreePairKey,
    nout: usize,
    row: usize,
    col: usize,
)
    requires
        block_fits(block.shape@, block.strides@, block.offset as int, data@.len() as int),
        extent(block.shape@) <= usize::MAX,
        nout <= block.shape@.len(),
        old(matrix).data@.len() == old(matrix).rows * old(matrix).cols,
        span_position(old(matrix).geometry().row_trees, key@.codomain, 0) == Some(row as int),
        span_position(old(matrix).geometry().col_trees, key@.domain, 0) == Some(col as int),
        tree_offset(old(matrix).geometry().col_trees, key@.domain) + extent(
            col_shape(*block, nout as int),
        ) <= old(matrix).cols,
        tree_offset(old(matrix).geometry().row_trees, key@.codomain) + extent(
            row_shape(*block, nout as int),
        ) <= old(matrix).rows,
        writes_fit(
            block_writes(data@, *block, key@, nout as int, old(matrix).geometry()),
            old(matrix).rows * old(matrix).cols,
        ),
    ensures
        final(matrix).geometry() == old(matrix).geometry(),
        final(matrix).data@.len() == old(matrix).data@.len(),
        final(matrix).data@ == apply_writes(
            old(matrix).data@,
            block_writes(data@, *block, key@, nout as int, old(matrix).geometry()),
        ),
{
    proof {
        lemma_span_position(matrix.geometry().row_trees, key@.codomain, 0);
        lemma_span_position(matrix.geometry().col_trees, key@.domain, 0);
    }
    let row_offset: usize = matrix.row_trees[row].offset;
    let col_offset: usize = matrix.col_trees[col].offset;
    let rows: usize = matrix.rows;
    copy_tensor_block_to_matrix(
        data,
        block.shape(),
        block.strides(),
        block.offset,
        nout,
        &mut matrix.data,
        rows,
        row_offset,
        col_offset,
    );
}

/// The matrices of all sectors, or the refusal of the first block that cannot
/// be stacked.
pub open spec fn matricized<D>(
    result: Result<Vec<SectorMatricization<D>>, OperationError>,
    blocks: Seq<Block>,
    data: Seq<D>,
    nout: int,
    zero: D,
) -> bool {
    match stack_blocks(blocks, nout, blocks.len() as int) {
        Err(error) => result == Err::<Vec<SectorMatricization<D>>, OperationError>(error),
        Ok(stacked) => if !matrices_fit(stacked) {
            result == Err::<Vec<SectorMatricization<D>>, OperationError>(
                OperationError::ElementCountOverflow,
            )
        } else {
            &&& result is Ok
            &&& geometries(result->Ok_0@) == stacked
            &&& forall|k: int|
                0 <= k < stacked.len() ==> (#[trigger] result->Ok_0@[k]).data@ == sector_matrix(
                    data,
                    blocks,
                    nout,
                    stacked[k],
                    zero,
                )
        },
    }
}

/// Packs every coupled sector of the source data into a dense column-major
/// matrix, whatever the storage layout of its blocks.
///
/// Sectors stand in the order in which the blocks name them, and so do the
/// codomain trees over the rows and the domain trees over the columns of each.
pub fn sector_matricizations<D: Copy>(
    structure: &BlockStructure,
    data: &[D],
    nout: usize,
    zero: D,
) -> (result: Result<Vec<SectorMatricization<D>>, OperationError>)
    requires
        structure.wf(),
        data@.len() >= structure.spec_len(),
        stackable(structure.spec_blocks(), nout as int),
    ensures
        matricized(result, structure.spec_blocks(), data@, nout as int, zero),
{
    let ghost blocks = structure.spec_blocks();
    let (mut matrices, map, table) = match stack_structure::<D>(structure, nout) {
        Ok(stacked) => stacked,
        Err(error) => {
            return Err(error);
        },
    };
    let ghost stacked = geometries(matrices@);
    proof {
        lemma_stacking(blocks, nout as int, blocks.len() as int);
    }
    let mut k: usize = 0;
    while k < matrices.len()
        invariant
            k <= matrices@.len(),
            geometries(matrices@) == stacked,
            stack_blocks(blocks, nout as int, blocks.len() as int) == Ok::<
                Seq<Geometry>,
                OperationError,
            >(stacked),
            blocks == structure.spec_blocks(),
            forall|j: int|
                0 <= j < k ==> (#[trigger] stacked[j]).rows * stacked[j].cols <= usize::MAX,
            forall|j: int|
                0 <= j < k ==> (#[trigger] matrices@[j]).data@ == Seq::new(
                    (stacked[j].rows * stacked[j].cols) as nat,
                    |i: int| zero,
                ),
        decreases matrices.len() - k,
    {
        assert(stacked[k as int] == matrices@[k as int].geometry());
        let elements: usize = match matrices[k].rows.checked_mul(matrices[k].cols) {
            Some(elements) => elements,
            None => {
                return Err(OperationError::ElementCountOverflow);
            },
        };
        let ghost before = matrices@;
        matrices[k].data = filled(zero, elements);
        proof {
            assert(geometries(matrices@) =~= stacked) by {
                assert forall|j: int| 0 <= j < stacked.len() implies geometries(matrices@)[j]
                    == stacked[j] by {
                    if j != k {
                        assert(matrices@[j] == before[j]);
                    }
                    assert(geometries(before)[j] == before[j].geometry());
                }
            }
        }
        k += 1;
    }
    let count: usize = structure.block_count();
    let mut index: usize = 0;
    proof {
        assert forall|j: int| 0 <= j < stacked.len() implies (#[trigger] matrices@[j]).data@
            == apply_writes(
            Seq::new((stacked[j].rows * stacked[j].cols) as nat, |i: int| zero),
            sector_writes(data@, blocks, nout as int, stacked[j], 0),
        ) by {}
    }
    while index < count
        invariant
            index <= count == blocks.len(),
            blocks == structure.spec_blocks(),
            structure.wf(),
            data@.len() >= structure.spec_len(),
            axes_suffice(blocks, nout as int),
            evenly_stacked(blocks, nout as int),
            stacking_holds(stacked, blocks, nout as int, blocks.len() as int),
            matrices_fit(stacked),
            stack_blocks(blocks, nout as int, blocks.len() as int) == Ok::<
                Seq<Geometry>,
                OperationError,
            >(stacked),
            geometries(matrices@) == stacked,
            indexes_sectors(map@, stacked),
            table.wf(stacked),
            names_all_trees(table, stacked),
            forall|j: int|
                0 <= j < stacked.len() ==> (#[trigger] matrices@[j]).data@ == apply_writes(
                    Seq::new((stacked[j].rows * stacked[j].cols) as nat, |i: int| zero),
                    sector_writes(data@, blocks, nout as int, stacked[j], index as int),
                ),
        decreases count - index,
    {
        let block = structure.block(index);
        proof {
            lemma_block_writes_fit(data@, stacked, blocks, nout as int, index as int);
            assert(block_admitted(blocks[index as int], structure.spec_len() as int));
            lemma_admitted_fits(
                block.shape@,
                block.strides@,
                block.offset as int,
                structure.spec_len() as int,
            );
        }
        match &block.key {
            BlockKey::FusionTree(key) => match map.get(key.codomain_tree().coupled()) {
                Some(at) => {
                    let ghost before = matrices@;
                    let ghost zeros = Seq::new(
                        (stacked[at as int].rows * stacked[at as int].cols) as nat,
                        |i: int| zero,
                    );
                    let ghost earlier = sector_writes(
                        data@,
                        blocks,
                        nout as int,
                        stacked[at as int],
                        index as int,
                    );
                    proof {
                        reveal(names_all_trees);
                        assert(geometries(before)[at as int] == before[at as int].geometry());
                        lemma_writes_len(zeros, earlier);
                        lemma_nonnegative_product(
                            stacked[at as int].rows as int,
                            stacked[at as int].cols as int,
                        );
                    }
                    let row = table.find(
                        matrices.as_slice(),
                        at,
                        FactorSide::Left,
                        key.codomain_tree(),
                    );
                    let col = table.find(
                        matrices.as_slice(),
                        at,
                        FactorSide::Right,
                        key.domain_tree(),
                    );
                    if let (Some(row), Some(col)) = (row, col) {
                        pack_block(&mut matrices[at], data, block, key, nout, row, col);
                    }
                    proof {
                        lemma_writes_concat(
                            zeros,
                            earlier,
                            block_writes(
                                data@,
                                *block,
                                key@,
                                nout as int,
                                stacked[at as int],
                            ),
                        );
                        assert(geometries(matrices@) =~= stacked) by {
                            assert forall|j: int| 0 <= j < stacked.len() implies geometries(
                                matrices@,
                            )[j] == stacked[j] by {
                                if j != at {
                                    assert(matrices@[j] == before[j]);
                                }
                                assert(geometries(before)[j] == before[j].geometry());
                            }
                        }
                        assert forall|j: int| 0 <= j < stacked.len() implies (
                        #[trigger] matrices@[j]).data@ == apply_writes(
                            Seq::new(
                                (stacked[j].rows * stacked[j].cols) as nat,
                                |i: int| zero,
                            ),
                            sector_writes(data@, blocks, nout as int, stacked[j], index + 1),
                        ) by {
                            if j != at {
                                assert(matrices@[j] == before[j]);
                                assert(stacked[j].sector != stacked[at as int].sector) by {
                                    if j < at {
                                        assert(stacked[j].sector != stacked[at as int].sector);
                                    } else {
                                        assert(stacked[at as int].sector != stacked[j].sector);
                                    }
                                }
                            }
                        }
                    }
                },
                None => {},
            },
            BlockKey::Plain => {},
        }
        index += 1;
    }
    Ok(matrices)
}

/// [`sector_matricizations`] for trees with vertex labels. Trees that differ
/// only in a vertex label are different trees and get rows and columns of
/// their own.
pub fn sector_matricizations_generic<D: Copy>(
    structure: &BlockStructure,
    data: &[D],
    nout: usize,
    zero: D,
) -> (result: Result<Vec<SectorMatricization<D>>, OperationError>)
    requires
        structure.wf(),
        data@.len() >= structure.spec_len(),
        stackable(structure.spec_blocks(), nout as int),
    ensures
        matricized(result, structure.spec_blocks(), data@, nout as int, zero),
{
    sector_matricizations(structure, data, nout, zero)
}

proof fn lemma_nonnegative_product(a: int, b: int)
    requires
        a >= 0,
        b >= 0,
    ensures
        a * b >= 0,
{
    assert(a * b >= 0) by (nonlinear_arith)
        requires
            a >= 0,
            b >= 0,
    ;
}

} // verus!
