//! What the sector matrices of a tensor hold.

use vstd::prelude::*;

use crate::geometry::{
    lemma_sector_position, lemma_span_position, sector_position, span_position, Geometry, Span,
};
use crate::index::{
    address, extent, leading_extent, lemma_div_mod_unique, lemma_extent_split,
    lemma_leading_extent_nonnegative, lemma_split_bounds,
};
use crate::matricize::{
    axes_suffice, block_writes, col_shape, evenly_stacked, geometry_stacked,
    lemma_block_writes_fit, lemma_matrix_position, lemma_stacking, row_shape, sector_matrix,
    sector_writes, stack_blocks, stackable, stacked_side, stacking_holds, tree_offset,
};
use crate::sector::Tree;
use crate::structure::Block;
use crate::writes::{
    apply_writes, lemma_writes_concat, lemma_writes_last_wins, lemma_writes_len,
    lemma_writes_untouched,
};

verus! {

/// No two blocks have the same label.
pub open spec fn labels_distinct(blocks: Seq<Block>) -> bool {
    forall|j: int, k: int|
        0 <= j < k < blocks.len() ==> (#[trigger] blocks[j]).key@ != (#[trigger] blocks[k]).key@
}

/// The geometry of a block's sector.
pub open spec fn geometry_of(stacked: Seq<Geometry>, block: Block) -> Geometry {
    stacked[sector_position(
        stacked,
        block.key@->FusionTree_0.codomain.coupled,
        0,
    )->0]
}

/// Position of element `n` of a block in its sector matrix: its row counted
/// from the start of its codomain tree, its column from that of its domain tree.
pub open spec fn matrix_position(
    stacked: Seq<Geometry>,
    block: Block,
    nout: int,
    n: int,
) -> int {
    let geometry = geometry_of(stacked, block);
    let pair = block.key@->FusionTree_0;
    let row_extent = extent(row_shape(block, nout));
    tree_offset(geometry.row_trees, pair.codomain) + n % row_extent + geometry.rows * (tree_offset(
        geometry.col_trees,
        pair.domain,
    ) + n / row_extent)
}

/// Trees on one side do not overlap.
pub proof fn lemma_spans_apart(trees: Seq<Span>, total: int, j: int, k: int)
    requires
        stacked_side(trees, total),
        0 <= j < k < trees.len(),
    ensures
        trees[j].offset + extent(trees[j].shape) <= trees[k].offset,
    decreases k - j,
{
    if j + 1 < k {
        lemma_spans_apart(trees, total, j, k - 1);
        lemma_leading_extent_nonnegative(
            trees[k - 1].shape,
            trees[k - 1].shape.len() as int,
        );
        assert(trees[k - 1].offset + extent(trees[k - 1].shape) == trees[k].offset);
    } else {
        assert(trees[j].offset + extent(trees[j].shape) == trees[j + 1].offset);
    }
}

/// Different trees of one side occupy different rows or columns.
proof fn lemma_offsets_apart(
    trees: Seq<Span>,
    total: int,
    a: Tree,
    b: Tree,
    x: int,
    y: int,
)
    requires
        stacked_side(trees, total),
        span_position(trees, a, 0) is Some,
        span_position(trees, b, 0) is Some,
        a != b,
        0 <= x < extent(trees[span_position(trees, a, 0)->0].shape),
        0 <= y < extent(trees[span_position(trees, b, 0)->0].shape),
    ensures
        tree_offset(trees, a) + x != tree_offset(trees, b) + y,
{
    lemma_span_position(trees, a, 0);
    lemma_span_position(trees, b, 0);
    let i = span_position(trees, a, 0)->0;
    let j = span_position(trees, b, 0)->0;
    if i < j {
        lemma_spans_apart(trees, total, i, j);
    } else if j < i {
        lemma_spans_apart(trees, total, j, i);
    }
}

/// Row and column of an element of a block, with the spans of its trees.
proof fn lemma_element_cell(
    stacked: Seq<Geometry>,
    blocks: Seq<Block>,
    nout: int,
    b: int,
    n: int,
)
    requires
        0 <= b < blocks.len(),
        0 <= nout,
        axes_suffice(blocks, nout),
        evenly_stacked(blocks, nout),
        stacking_holds(stacked, blocks, nout, blocks.len() as int),
        0 <= n < extent(blocks[b].shape@),
    ensures
        ({
            let block = blocks[b];
            let geometry = geometry_of(stacked, block);
            let pair = block.key@->FusionTree_0;
            let row_extent = extent(row_shape(block, nout));
            let row = tree_offset(geometry.row_trees, pair.codomain) + n % row_extent;
            let col = tree_offset(geometry.col_trees, pair.domain) + n / row_extent;
            let position = matrix_position(stacked, block, nout, n);
            &&& block.key@ is FusionTree
            &&& leading_extent(block.shape@, nout) == row_extent
            &&& 0 <= n % row_extent < row_extent
            &&& 0 <= n / row_extent < extent(col_shape(block, nout))
            &&& n == row_extent * (n / row_extent) + n % row_extent
            &&& 0 <= row < geometry.rows
            &&& 0 <= col < geometry.cols
            &&& position == row + geometry.rows * col
            &&& position % (geometry.rows as int) == row
            &&& position / (geometry.rows as int) == col
            &&& 0 <= position < geometry.rows * geometry.cols
            &&& stacked_side(geometry.row_trees, geometry.rows as int)
            &&& stacked_side(geometry.col_trees, geometry.cols as int)
            &&& span_position(geometry.row_trees, pair.codomain, 0) is Some
            &&& span_position(geometry.col_trees, pair.domain, 0) is Some
            &&& extent(
                geometry.row_trees[span_position(
                    geometry.row_trees,
                    pair.codomain,
                    0,
                )->0].shape,
            ) == row_extent
            &&& extent(
                geometry.col_trees[span_position(geometry.col_trees, pair.domain, 0)->0].shape,
            ) == extent(col_shape(block, nout))
        }),
{
    let block = blocks[b];
    lemma_block_writes_fit(Seq::<int>::empty(), stacked, blocks, nout, b);
    let pair = block.key@->FusionTree_0;
    lemma_sector_position(stacked, pair.codomain.coupled, 0);
    let geometry = geometry_of(stacked, block);
    assert(geometry_stacked(geometry, blocks, nout, blocks.len() as int));
    crate::matricize::lemma_block_spans(stacked, blocks, nout, b);
    lemma_extent_split(block.shape@, nout);
    let row_extent = extent(row_shape(block, nout));
    let col_extent = extent(col_shape(block, nout));
    lemma_leading_extent_nonnegative(row_shape(block, nout), nout);
    lemma_leading_extent_nonnegative(col_shape(block, nout), block.shape@.len() - nout);
    lemma_split_bounds(n, row_extent, col_extent);
    lemma_span_position(geometry.row_trees, pair.codomain, 0);
    lemma_span_position(geometry.col_trees, pair.domain, 0);
    let row_offset = tree_offset(geometry.row_trees, pair.codomain);
    let col_offset = tree_offset(geometry.col_trees, pair.domain);
    lemma_matrix_position(
        n,
        row_extent,
        col_extent,
        row_offset,
        col_offset,
        geometry.rows as int,
        geometry.cols as int,
    );
    let row = row_offset + n % row_extent;
    let col = col_offset + n / row_extent;
    lemma_div_mod_unique(row + geometry.rows * col, geometry.rows as int, col, row);
}

/// Two elements of one sector's blocks share a position in the sector matrix
/// only if they are the same element of the same block.
pub proof fn lemma_positions_distinct(
    stacked: Seq<Geometry>,
    blocks: Seq<Block>,
    nout: int,
    b: int,
    n: int,
    c: int,
    m: int,
)
    requires
        0 <= nout,
        axes_suffice(blocks, nout),
        evenly_stacked(blocks, nout),
        labels_distinct(blocks),
        stacking_holds(stacked, blocks, nout, blocks.len() as int),
        0 <= b < blocks.len(),
        0 <= c < blocks.len(),
        0 <= n < extent(blocks[b].shape@),
        0 <= m < extent(blocks[c].shape@),
        geometry_of(stacked, blocks[b]) == geometry_of(stacked, blocks[c]),
        b != c || n != m,
    ensures
        matrix_position(stacked, blocks[b], nout, n) != matrix_position(
            stacked,
            blocks[c],
            nout,
            m,
        ),
{
    lemma_element_cell(stacked, blocks, nout, b, n);
    lemma_element_cell(stacked, blocks, nout, c, m);
    let geometry = geometry_of(stacked, blocks[b]);
    let p = blocks[b].key@->FusionTree_0;
    let q = blocks[c].key@->FusionTree_0;
    let p_rows = extent(row_shape(blocks[b], nout));
    let q_rows = extent(row_shape(blocks[c], nout));
    if p.codomain != q.codomain {
        lemma_offsets_apart(
            geometry.row_trees,
            geometry.rows as int,
            p.codomain,
            q.codomain,
            n % p_rows,
            m % q_rows,
        );
    } else if p.domain != q.domain {
        lemma_offsets_apart(
            geometry.col_trees,
            geometry.cols as int,
            p.domain,
            q.domain,
            n / p_rows,
            m / q_rows,
        );
    } else {
        if b < c {
            assert(blocks[b].key@ != blocks[c].key@);
        } else if c < b {
            assert(blocks[c].key@ != blocks[b].key@);
        }
    }
}

/// The value of one element of block `b` stays in the matrix while the blocks
/// up to `count` are written.
proof fn lemma_element_stays<D>(
    data: Seq<D>,
    stacked: Seq<Geometry>,
    blocks: Seq<Block>,
    nout: int,
    zero: D,
    b: int,
    n: int,
    count: int,
)
    requires
        0 <= nout,
        axes_suffice(blocks, nout),
        evenly_stacked(blocks, nout),
        labels_distinct(blocks),
        stacking_holds(stacked, blocks, nout, blocks.len() as int),
        0 <= b < count <= blocks.len(),
        0 <= n < extent(blocks[b].shape@),
    ensures
        ({
            let geometry = geometry_of(stacked, blocks[b]);
            apply_writes(
                Seq::new((geometry.rows * geometry.cols) as nat, |k: int| zero),
                sector_writes(data, blocks, nout, geometry, count),
            )[matrix_position(stacked, blocks[b], nout, n)] == data[blocks[b].offset + address(
                blocks[b].shape@,
                blocks[b].strides@,
                n,
            )]
        }),
    decreases count,
{
    let geometry = geometry_of(stacked, blocks[b]);
    let empty = Seq::new((geometry.rows * geometry.cols) as nat, |k: int| zero);
    let position = matrix_position(stacked, blocks[b], nout, n);
    lemma_element_cell(stacked, blocks, nout, b, n);
    let block = blocks[count - 1];
    let before = sector_writes(data, blocks, nout, geometry, count - 1);
    lemma_writes_len(empty, before);
    let written = apply_writes(empty, before);
    lemma_block_writes_fit(data, stacked, blocks, nout, count - 1);
    let pair = block.key@->FusionTree_0;
    lemma_sector_position(stacked, pair.codomain.coupled, 0);
    lemma_block_writes_fit(data, stacked, blocks, nout, b);
    lemma_sector_position(stacked, blocks[b].key@->FusionTree_0.codomain.coupled, 0);
    if pair.codomain.coupled == geometry.sector {
        let more = block_writes(data, block, pair, nout, geometry);
        lemma_writes_concat(empty, before, more);
        lemma_leading_extent_nonnegative(block.shape@, block.shape@.len() as int);
        assert(geometry_of(stacked, block) == geometry);
        assert forall|m: int| 0 <= m < more.len() implies (#[trigger] more[m]).0
            == matrix_position(stacked, block, nout, m) by {
            lemma_element_cell(stacked, blocks, nout, count - 1, m);
        }
        if count - 1 == b {
            assert forall|m: int| n < m < more.len() implies (#[trigger] more[m]).0
                != more[n].0 by {
                lemma_positions_distinct(stacked, blocks, nout, b, n, b, m);
            }
            lemma_writes_last_wins(written, more, n);
        } else {
            lemma_element_stays(data, stacked, blocks, nout, zero, b, n, count - 1);
            assert forall|m: int| 0 <= m < more.len() implies (#[trigger] more[m]).0
                != position by {
                lemma_positions_distinct(stacked, blocks, nout, count - 1, m, b, n);
            }
            lemma_writes_untouched(written, more, position);
        }
    } else {
        assert(b < count - 1);
        lemma_element_stays(data, stacked, blocks, nout, zero, b, n, count - 1);
    }
}

/// Every element of every block is found in the matrix of its sector, in the
/// row that its codomain tree and coordinates select and the column that its
/// domain tree and coordinates select.
pub proof fn lemma_matricization_reads_back<D>(
    data: Seq<D>,
    blocks: Seq<Block>,
    nout: int,
    zero: D,
    b: int,
    n: int,
)
    requires
        0 <= nout,
        stackable(blocks, nout),
        labels_distinct(blocks),
        stack_blocks(blocks, nout, blocks.len() as int) is Ok,
        0 <= b < blocks.len(),
        0 <= n < extent(blocks[b].shape@),
    ensures
        ({
            let stacked = stack_blocks(blocks, nout, blocks.len() as int)->Ok_0;
            sector_matrix(data, blocks, nout, geometry_of(stacked, blocks[b]), zero)[
                matrix_position(stacked, blocks[b], nout, n)
            ] == data[blocks[b].offset + address(blocks[b].shape@, blocks[b].strides@, n)]
        }),
{
    lemma_stacking(blocks, nout, blocks.len() as int);
    lemma_element_stays(
        data,
        stack_blocks(blocks, nout, blocks.len() as int)->Ok_0,
        blocks,
        nout,
        zero,
        b,
        n,
        blocks.len() as int,
    );
}

/// Some element of a block of this sector goes to this position.
pub open spec fn position_is_used(
    stacked: Seq<Geometry>,
    blocks: Seq<Block>,
    nout: int,
    geometry: Geometry,
    position: int,
) -> bool {
    exists|b: int, n: int|
        0 <= b < blocks.len() && 0 <= n < extent(blocks[b].shape@) && blocks[b].key@ is FusionTree
            && blocks[b].key@->FusionTree_0.codomain.coupled == geometry.sector
            && #[trigger] matrix_position(stacked, blocks[b], nout, n) == position
}

proof fn lemma_rest_untouched<D>(
    data: Seq<D>,
    stacked: Seq<Geometry>,
    blocks: Seq<Block>,
    nout: int,
    at: int,
    position: int,
    count: int,
)
    requires
        0 <= nout,
        axes_suffice(blocks, nout),
        evenly_stacked(blocks, nout),
        stacking_holds(stacked, blocks, nout, blocks.len() as int),
        0 <= at < stacked.len(),
        0 <= count <= blocks.len(),
        !position_is_used(stacked, blocks, nout, stacked[at], position),
    ensures
        forall|k: int|
            0 <= k < sector_writes(data, blocks, nout, stacked[at], count).len() ==> (
            #[trigger] sector_writes(data, blocks, nout, stacked[at], count)[k]).0 != position,
    decreases count,
{
    if count > 0 {
        let geometry = stacked[at];
        lemma_rest_untouched(data, stacked, blocks, nout, at, position, count - 1);
        let before = sector_writes(data, blocks, nout, geometry, count - 1);
        let all = sector_writes(data, blocks, nout, geometry, count);
        let block = blocks[count - 1];
        lemma_block_writes_fit(data, stacked, blocks, nout, count - 1);
        let pair = block.key@->FusionTree_0;
        lemma_sector_position(stacked, pair.codomain.coupled, 0);
        if pair.codomain.coupled == geometry.sector {
            crate::matricize::lemma_position_unique(stacked, at);
            let more = block_writes(data, block, pair, nout, geometry);
            lemma_leading_extent_nonnegative(block.shape@, block.shape@.len() as int);
            assert forall|k: int| 0 <= k < all.len() implies (#[trigger] all[k]).0 != position by {
                if k < before.len() {
                    assert(all[k] == before[k]);
                } else {
                    let m = k - before.len();
                    assert(all[k] == more[m]);
                    lemma_element_cell(stacked, blocks, nout, count - 1, m);
                    assert(more[m].0 == matrix_position(stacked, block, nout, m));
                }
            }
        }
    }
}

/// What no block covers of a sector matrix is zero.
pub proof fn lemma_matricization_rest_is_zero<D>(
    data: Seq<D>,
    blocks: Seq<Block>,
    nout: int,
    zero: D,
    at: int,
    position: int,
)
    requires
        0 <= nout,
        stackable(blocks, nout),
        stack_blocks(blocks, nout, blocks.len() as int) is Ok,
        0 <= at < stack_blocks(blocks, nout, blocks.len() as int)->Ok_0.len(),
        ({
            let stacked = stack_blocks(blocks, nout, blocks.len() as int)->Ok_0;
            &&& 0 <= position < stacked[at].rows * stacked[at].cols
            &&& !position_is_used(stacked, blocks, nout, stacked[at], position)
        }),
    ensures
        sector_matrix(
            data,
            blocks,
            nout,
            stack_blocks(blocks, nout, blocks.len() as int)->Ok_0[at],
            zero,
        )[position] == zero,
{
    let stacked = stack_blocks(blocks, nout, blocks.len() as int)->Ok_0;
    lemma_stacking(blocks, nout, blocks.len() as int);
    lemma_rest_untouched(data, stacked, blocks, nout, at, position, blocks.len() as int);
    let empty = Seq::new((stacked[at].rows * stacked[at].cols) as nat, |k: int| zero);
    lemma_writes_untouched(
        empty,
        sector_writes(data, blocks, nout, stacked[at], blocks.len() as int),
        position,
    );
}

} // verus!
