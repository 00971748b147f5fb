//! Recognition of outputs that already have the layout of the sector factors.

use vstd::prelude::*;

use crate::bond::BondDimensions;
use crate::factor::{FactorPair, SectorRank};
use crate::geometry::{geometries, Geometry, SectorGeometry, Span, TreeExtent};
use crate::index::{extent, extent_fits, leading_extent, lemma_leading_extent_nonnegative};
use crate::layout::FactorSide;
use crate::sector::{same_numbers, FusionTreePairKey, SectorId, Tree, TreePair};
use crate::structure::{Block, BlockKey, BlockStructure, Label};

verus! {

/// The tree of a block on one side.
pub open spec fn side_tree(pair: TreePair, side: FactorSide) -> Tree {
    match side {
        FactorSide::Left => pair.codomain,
        FactorSide::Right => pair.domain,
    }
}

/// Total extent of the first `count` trees.
pub open spec fn stacked_extent(trees: Seq<Span>, count: int) -> int
    decreases count,
{
    if count <= 0 {
        0
    } else {
        stacked_extent(trees, count - 1) + extent(trees[count - 1].shape)
    }
}

/// Every tree starts where the one before it ends, and the last one ends at
/// `total`.
pub open spec fn contiguous(trees: Seq<Span>, total: int) -> bool {
    &&& forall|k: int|
        0 <= k < trees.len() ==> (#[trigger] trees[k]).offset == stacked_extent(trees, k)
            && extent_fits(trees[k].shape)
    &&& stacked_extent(trees, trees.len() as int) == total
}

/// A block that covers exactly the elements which its tree has in a factor
/// that starts at `output_offset`: the same labels, shape and strides.
pub open spec fn canonical_block(
    block: Block,
    span: Span,
    sector: SectorId,
    side: FactorSide,
    bond: int,
    source_extent: int,
    output_offset: int,
) -> bool {
    let rank = span.shape.len() as int;
    &&& match block.key@ {
        Label::FusionTree(pair) => side_tree(pair, side) == span.tree,
        Label::Plain => false,
    }
    &&& span.tree.coupled == sector
    &&& block.shape@.len() == rank + 1
    &&& block.strides@.len() == rank + 1
    &&& match side {
        FactorSide::Left => {
            &&& block.offset == output_offset + span.offset
            &&& forall|k: int| 0 <= k < rank ==> #[trigger] block.shape@[k] == span.shape[k]
            &&& block.shape@[rank] == bond
            &&& forall|k: int|
                0 <= k < rank ==> #[trigger] block.strides@[k] == leading_extent(span.shape, k)
            &&& block.strides@[rank] == source_extent
        },
        FactorSide::Right => {
            &&& block.offset == output_offset + bond * span.offset
            &&& block.shape@[0] == bond
            &&& forall|k: int| 0 <= k < rank ==> #[trigger] span.shape[k] == block.shape@[k + 1]
            &&& block.strides@[0] == 1
            &&& forall|k: int|
                1 <= k < rank + 1 ==> #[trigger] block.strides@[k] == bond * leading_extent(
                    span.shape,
                    k - 1,
                )
        },
    }
}

/// One sector's factor already lies in the blocks from `first` on.
pub open spec fn sector_canonical(
    blocks: Seq<Block>,
    first: int,
    output_offset: int,
    geometry: Geometry,
    source_trees: FactorSide,
    factor_len: int,
    factor_leading: int,
    bond: int,
    side: FactorSide,
    keys: Option<Seq<TreePair>>,
) -> bool {
    let trees = geometry.trees(source_trees);
    let source_extent = geometry.side_extent(source_trees) as int;
    &&& factor_leading == match side {
        FactorSide::Left => source_extent,
        FactorSide::Right => bond,
    }
    &&& factor_len == source_extent * bond
    &&& contiguous(trees, source_extent)
    &&& bond != 0 ==> {
        &&& first + trees.len() <= blocks.len()
        &&& forall|t: int|
            0 <= t < trees.len() ==> canonical_block(
                blocks[first + t],
                #[trigger] trees[t],
                geometry.sector,
                side,
                bond,
                source_extent,
                output_offset,
            ) && key_matches(keys, first + t, blocks[first + t].key@)
    }
    &&& output_offset + factor_len <= usize::MAX
}

/// The key list, where there is one, holds this label at this position.
pub open spec fn key_matches(keys: Option<Seq<TreePair>>, index: int, label: Label) -> bool {
    match keys {
        Some(keys) => index < keys.len() && label == Label::FusionTree(keys[index]),
        None => true,
    }
}

/// The block after those of one sector.
pub open spec fn next_block(
    first: int,
    geometry: Geometry,
    source_trees: FactorSide,
    bond: int,
) -> int {
    if bond == 0 {
        first
    } else {
        first + geometry.trees(source_trees).len()
    }
}

/// The labels of a list of keys.
pub open spec fn pair_labels(keys: Seq<FusionTreePairKey>) -> Seq<TreePair> {
    keys.map_values(|key: FusionTreePairKey| key@)
}

/// What the keys stand for, where there are any.
pub open spec fn optional_labels(keys: Option<&[FusionTreePairKey]>) -> Option<Seq<TreePair>> {
    match keys {
        Some(keys) => Some(pair_labels(keys@)),
        None => None,
    }
}

/// Whether the strides of a block are those of its tree inside a factor.
fn strides_are_canonical(
    strides: &[usize],
    first: usize,
    start: usize,
    shape: &[usize],
) -> (result: bool)
    requires
        first + shape@.len() <= strides@.len(),
    ensures
        result == forall|k: int|
            0 <= k < shape@.len() ==> strides@[first + k] == start * #[trigger] leading_extent(
                shape@,
                k,
            ),
{
    let len: usize = strides.len();
    let mut stride: usize = start;
    let mut axis: usize = 0;
    assert(start * 1 == start);
    while axis < shape.len()
        invariant
            axis <= shape@.len(),
            first + shape@.len() <= strides@.len() == len,
            axis < shape@.len() ==> stride == start * leading_extent(shape@, axis as int),
            forall|k: int|
                0 <= k < axis ==> strides@[first + k] == start * #[trigger] leading_extent(
                    shape@,
                    k,
                ),
        decreases shape.len() - axis,
    {
        if strides[first + axis] != stride {
            assert(!(strides@[first + axis] == start * leading_extent(shape@, axis as int)));
            return false;
        }
        if axis + 1 < shape.len() {
            proof {
                let a = leading_extent(shape@, axis as int);
                let d = shape@[axis as int] as int;
                assert(start * (a * d) == (start * a) * d) by (nonlinear_arith);
            }
            match stride.checked_mul(shape[axis]) {
                Some(next) => {
                    stride = next;
                },
                None => {
                    assert(!(strides@[first + axis + 1] == start * leading_extent(
                        shape@,
                        axis + 1,
                    )));
                    return false;
                },
            }
        }
        axis += 1;
    }
    true
}

/// Whether one block covers exactly its tree's elements of a factor.
fn block_is_canonical(
    block: &Block,
    extent: &TreeExtent,
    sector: SectorId,
    side: FactorSide,
    bond: usize,
    source_extent: usize,
    output_offset: usize,
) -> (result: bool)
    ensures
        result == canonical_block(
            *block,
            extent@,
            sector,
            side,
            bond as int,
            source_extent as int,
            output_offset as int,
        ),
{
    let key = match &block.key {
        BlockKey::FusionTree(key) => key,
        BlockKey::Plain => {
            return false;
        },
    };
    let tree = match side {
        FactorSide::Left => key.codomain_tree(),
        FactorSide::Right => key.domain_tree(),
    };
    if !tree.same(extent.tree()) || tree.coupled() != sector {
        return false;
    }
    let shape = extent.shape();
    let rank: usize = shape.len();
    if block.shape.len() == 0 || block.shape.len() - 1 != rank || block.strides.len()
        != block.shape.len() {
        return false;
    }
    let block_shape = block.shape();
    match side {
        FactorSide::Left => {
            match output_offset.checked_add(extent.offset) {
                Some(offset) => {
                    if block.offset != offset {
                        return false;
                    }
                },
                None => {
                    return false;
                },
            }
            let outer = vstd::slice::slice_subrange(block_shape, 0, rank);
            proof {
                assert(outer@ == shape@ <==> forall|k: int|
                    0 <= k < rank ==> #[trigger] block.shape@[k] == extent@.shape[k]) by {
                    if outer@ == shape@ {
                        assert forall|k: int| 0 <= k < rank implies #[trigger] block.shape@[k]
                            == extent@.shape[k] by {
                            assert(outer@[k] == block.shape@[k]);
                        }
                    }
                    if forall|k: int|
                        0 <= k < rank ==> #[trigger] block.shape@[k] == extent@.shape[k] {
                        assert(outer@ =~= shape@);
                    }
                }
            }
            if !same_numbers(outer, shape) || block_shape[rank] != bond {
                return false;
            }
            if block.strides[rank] != source_extent {
                return false;
            }
            let result = strides_are_canonical(block.strides(), 0, 1, shape);
            proof {
                if result {
                    assert forall|k: int| 0 <= k < rank implies #[trigger] block.strides@[k]
                        == leading_extent(extent@.shape, k) by {
                        assert(block.strides@[0 + k] == 1 * leading_extent(shape@, k));
                    }
                } else {
                    let k = choose|k: int|
                        0 <= k < shape@.len() && !(block.strides@[0 + k] == 1
                            * #[trigger] leading_extent(shape@, k));
                    assert(block.strides@[k] != leading_extent(extent@.shape, k));
                }
            }
            result
        },
        FactorSide::Right => {
            match bond.checked_mul(extent.offset) {
                Some(shift) => match output_offset.checked_add(shift) {
                    Some(offset) => {
                        if block.offset != offset {
                            return false;
                        }
                    },
                    None => {
                        return false;
                    },
                },
                None => {
                    return false;
                },
            }
            let inner = vstd::slice::slice_subrange(block_shape, 1, block_shape.len());
            proof {
                assert(inner@ == shape@ <==> forall|k: int|
                    0 <= k < rank ==> #[trigger] extent@.shape[k] == block.shape@[k + 1]) by {
                    if inner@ == shape@ {
                        assert forall|k: int| 0 <= k < rank implies #[trigger] extent@.shape[k]
                            == block.shape@[k + 1] by {
                            assert(inner@[k] == block.shape@[k + 1]);
                        }
                    }
                    if forall|k: int|
                        0 <= k < rank ==> #[trigger] extent@.shape[k] == block.shape@[k + 1] {
                        assert(inner@ =~= shape@);
                    }
                }
            }
            if block_shape[0] != bond || !same_numbers(inner, shape) {
                return false;
            }
            if block.strides[0] != 1 {
                return false;
            }
            let result = strides_are_canonical(block.strides(), 1, bond, shape);
            proof {
                if result {
                    assert forall|k: int| 1 <= k < rank + 1 implies #[trigger] block.strides@[k]
                        == bond * leading_extent(extent@.shape, k - 1) by {
                        assert(block.strides@[1 + (k - 1)] == bond * leading_extent(
                            shape@,
                            k - 1,
                        ));
                    }
                } else {
                    let k = choose|k: int|
                        0 <= k < shape@.len() && !(block.strides@[1 + k] == bond
                            * #[trigger] leading_extent(shape@, k));
                    assert(block.strides@[k + 1] != bond * leading_extent(
                        extent@.shape,
                        (k + 1) - 1,
                    ));
                }
            }
            result
        },
    }
}

/// More trees stack no lower.
pub proof fn lemma_stacked_extent_monotone(trees: Seq<Span>, low: int, high: int)
    requires
        0 <= low <= high <= trees.len(),
    ensures
        0 <= stacked_extent(trees, low) <= stacked_extent(trees, high),
    decreases high,
{
    if high > 0 {
        let shape = trees[high - 1].shape;
        lemma_leading_extent_nonnegative(shape, shape.len() as int);
        if low < high {
            lemma_stacked_extent_monotone(trees, low, high - 1);
        } else {
            lemma_stacked_extent_monotone(trees, low - 1, high - 1);
        }
    }
}

/// Whether one sector's factor (`factor_len` elements, column-major with
/// leading dimension `factor_leading` and bond extent `bond`) already occupies
/// the blocks of `structure` from `first` on, starting at `output_offset`.
/// Gives the next block and the next output offset, or `None` where the layout
/// differs.
pub fn sector_factor_output_is_canonical<M: SectorGeometry>(
    structure: &BlockStructure,
    first: usize,
    output_offset: usize,
    matrix: &M,
    source_trees: FactorSide,
    factor_len: usize,
    factor_leading: usize,
    bond: usize,
    side: FactorSide,
    expected_keys: Option<&[FusionTreePairKey]>,
) -> (result: Option<(usize, usize)>)
    requires
        first <= structure.spec_blocks().len(),
    ensures
        result is Some <==> sector_canonical(
            structure.spec_blocks(),
            first as int,
            output_offset as int,
            matrix.geometry(),
            source_trees,
            factor_len as int,
            factor_leading as int,
            bond as int,
            side,
            optional_labels(expected_keys),
        ),
        match result {
            Some((block, offset)) => {
                &&& block == next_block(
                    first as int,
                    matrix.geometry(),
                    source_trees,
                    bond as int,
                )
                &&& block <= structure.spec_blocks().len()
                &&& offset == output_offset + factor_len
            },
            None => true,
        },
{
    let ghost blocks = structure.spec_blocks();
    let ghost geometry = matrix.geometry();
    let ghost trees = geometry.trees(source_trees);
    let ghost keys = optional_labels(expected_keys);
    let source_extent: usize = match source_trees {
        FactorSide::Left => matrix.rows(),
        FactorSide::Right => matrix.cols(),
    };
    let required_leading: usize = match side {
        FactorSide::Left => source_extent,
        FactorSide::Right => bond,
    };
    if factor_leading != required_leading {
        return None;
    }
    match source_extent.checked_mul(bond) {
        Some(elements) => {
            if factor_len != elements {
                return None;
            }
        },
        None => {
            return None;
        },
    }
    let block_count: usize = structure.block_count();
    let count: usize = matrix.tree_count(source_trees);
    let mut block_index: usize = first;
    let mut prefix: usize = 0;
    let mut t: usize = 0;
    while t < count
        invariant
            t <= count == trees.len(),
            blocks == structure.spec_blocks(),
            block_count == blocks.len(),
            geometry == matrix.geometry(),
            trees == geometry.trees(source_trees),
            keys == optional_labels(expected_keys),
            source_extent == geometry.side_extent(source_trees),
            factor_leading == match side {
                FactorSide::Left => source_extent,
                FactorSide::Right => bond,
            },
            factor_len == source_extent * bond,
            prefix == stacked_extent(trees, t as int),
            forall|k: int|
                0 <= k < t ==> (#[trigger] trees[k]).offset == stacked_extent(trees, k)
                    && extent_fits(trees[k].shape),
            bond == 0 ==> block_index == first,
            bond != 0 ==> block_index == first + t,
            block_index <= block_count,
            bond != 0 ==> forall|k: int|
                0 <= k < t ==> canonical_block(
                    blocks[first + k],
                    #[trigger] trees[k],
                    geometry.sector,
                    side,
                    bond as int,
                    source_extent as int,
                    output_offset as int,
                ) && key_matches(keys, first + k, blocks[first + k].key@),
        decreases count - t,
    {
        let tree = match matrix.tree(source_trees, t) {
            Some(tree) => tree,
            None => {
                return None;
            },
        };
        assert(tree@ == trees[t as int]);
        let extent: usize = match crate::index::checked_extent(tree.shape()) {
            Some(extent) => extent,
            None => {
                assert(!extent_fits(trees[t as int].shape));
                return None;
            },
        };
        if tree.offset != prefix {
            assert(trees[t as int].offset != stacked_extent(trees, t as int));
            return None;
        }
        prefix = match prefix.checked_add(extent) {
            Some(prefix) => prefix,
            None => {
                proof {
                    lemma_stacked_extent_monotone(trees, t + 1, trees.len() as int);
                }
                return None;
            },
        };
        if bond != 0 {
            if block_index >= block_count {
                return None;
            }
            let block = structure.block(block_index);
            if let Some(keys) = expected_keys {
                let matches: bool = match &block.key {
                    BlockKey::FusionTree(key) => block_index < keys.len() && key.same(
                        &keys[block_index],
                    ),
                    BlockKey::Plain => false,
                };
                if !matches {
                    proof {
                        assert(trees[t as int] == tree@);
                        assert(!key_matches(
                            optional_labels(expected_keys),
                            first + t,
                            blocks[first + t].key@,
                        ));
                    }
                    return None;
                }
            }
            if !block_is_canonical(
                block,
                tree,
                matrix.sector(),
                side,
                bond,
                source_extent,
                output_offset,
            ) {
                assert(trees[t as int] == tree@);
                return None;
            }
            assert(key_matches(keys, first + t, blocks[first + t].key@));
            block_index += 1;
        }
        t += 1;
    }
    if prefix != source_extent {
        return None;
    }
    match output_offset.checked_add(factor_len) {
        Some(next) => Some((block_index, next)),
        None => None,
    }
}

/// From sector `k` on, the factors of the pairs lie one after the other in the
/// blocks from `block` on, starting at `offset`, and fill the output.
pub open spec fn pairs_canonical<D>(
    blocks: Seq<Block>,
    keys: Option<Seq<TreePair>>,
    geometries: Seq<Geometry>,
    pairs: Seq<FactorPair<D>>,
    bonds: Seq<SectorRank>,
    required_len: int,
    side: FactorSide,
    source_trees: FactorSide,
    k: int,
    block: int,
    offset: int,
) -> bool
    decreases geometries.len() - k,
{
    if k >= geometries.len() || k < 0 {
        block == blocks.len() && offset == required_len
    } else {
        &&& geometries[k].sector == bonds[k].sector
        &&& pairs[k].sector == bonds[k].sector
        &&& sector_canonical(
            blocks,
            block,
            offset,
            geometries[k],
            source_trees,
            pairs[k].factor(side).len() as int,
            pairs[k].leading(side) as int,
            bonds[k].kept as int,
            side,
            keys,
        )
        &&& pairs_canonical(
            blocks,
            keys,
            geometries,
            pairs,
            bonds,
            required_len,
            side,
            source_trees,
            k + 1,
            next_block(block, geometries[k], source_trees, bonds[k].kept as int),
            offset + pairs[k].factor(side).len(),
        )
    }
}

/// The ranks that the pairs keep.
pub open spec fn pair_ranks<D>(pairs: Seq<FactorPair<D>>) -> Seq<SectorRank> {
    pairs.map_values(|pair: FactorPair<D>| SectorRank { sector: pair.sector, kept: pair.kept })
}

/// Whether an output of a pair of factors already has the layout of the
/// factors of one side, one sector after the other.
pub open spec fn pair_output_canonical<D>(
    blocks: Seq<Block>,
    keys: Option<Seq<TreePair>>,
    geometries: Seq<Geometry>,
    pairs: Seq<FactorPair<D>>,
    required_len: int,
    side: FactorSide,
) -> bool {
    &&& geometries.len() == pairs.len()
    &&& keys is Some ==> keys->0.len() == blocks.len()
    &&& pairs_canonical(
        blocks,
        keys,
        geometries,
        pairs,
        pair_ranks(pairs),
        required_len,
        side,
        side,
        0,
        0,
        0,
    )
}

/// Whether an output of one factor already has the layout of the factors, with
/// matrices, pairs and bond dimensions one and the same list of sectors.
pub open spec fn one_sided_output_canonical<D>(
    blocks: Seq<Block>,
    geometries: Seq<Geometry>,
    pairs: Seq<FactorPair<D>>,
    dimensions: Seq<SectorRank>,
    required_len: int,
    side: FactorSide,
    source_trees: FactorSide,
) -> bool {
    &&& geometries.len() == pairs.len()
    &&& geometries.len() == dimensions.len()
    &&& pairs_canonical(
        blocks,
        None,
        geometries,
        pairs,
        dimensions,
        required_len,
        side,
        source_trees,
        0,
        0,
        0,
    )
}

/// Whether the factors of one side can be published by moving them.
pub fn factor_output_is_canonical<D, M: SectorGeometry>(
    structure: &BlockStructure,
    keys: Option<&[FusionTreePairKey]>,
    matricizations: &[M],
    pairs: &[FactorPair<D>],
    required_len: usize,
    side: FactorSide,
) -> (result: bool)
    ensures
        result == pair_output_canonical(
            structure.spec_blocks(),
            optional_labels(keys),
            geometries(matricizations@),
            pairs@,
            required_len as int,
            side,
        ),
{
    if matricizations.len() != pairs.len() {
        return false;
    }
    if let Some(keys) = keys {
        if keys.len() != structure.block_count() {
            return false;
        }
    }
    let ghost blocks = structure.spec_blocks();
    let ghost labels = optional_labels(keys);
    let ghost all = geometries(matricizations@);
    let ghost ranks = pair_ranks(pairs@);
    let mut block_index: usize = 0;
    let mut output_offset: usize = 0;
    let mut k: usize = 0;
    while k < matricizations.len()
        invariant
            k <= matricizations@.len() == pairs@.len(),
            blocks == structure.spec_blocks(),
            labels == optional_labels(keys),
            all == geometries(matricizations@),
            ranks == pair_ranks(pairs@),
            block_index <= blocks.len(),
            pairs_canonical(
                blocks,
                labels,
                all,
                pairs@,
                ranks,
                required_len as int,
                side,
                side,
                0,
                0,
                0,
            ) == pairs_canonical(
                blocks,
                labels,
                all,
                pairs@,
                ranks,
                required_len as int,
                side,
                side,
                k as int,
                block_index as int,
                output_offset as int,
            ),
        decreases matricizations.len() - k,
    {
        let matrix = &matricizations[k];
        let pair = &pairs[k];
        assert(all[k as int] == matrix.geometry());
        assert(ranks[k as int] == (SectorRank { sector: pair.sector, kept: pair.kept }));
        if pair.sector != matrix.sector() {
            return false;
        }
        let factor_len: usize = match side {
            FactorSide::Left => pair.left.len(),
            FactorSide::Right => pair.right.len(),
        };
        let factor_leading: usize = match side {
            FactorSide::Left => pair.left_rows,
            FactorSide::Right => pair.right_leading,
        };
        match sector_factor_output_is_canonical(
            structure,
            block_index,
            output_offset,
            matrix,
            side,
            factor_len,
            factor_leading,
            pair.kept,
            side,
            keys,
        ) {
            Some((next_index, next_offset)) => {
                block_index = next_index;
                output_offset = next_offset;
            },
            None => {
                return false;
            },
        }
        k += 1;
    }
    block_index == structure.block_count() && output_offset == required_len
}

/// Whether one factor can be published by moving it: matrices, pairs and bond
/// dimensions are one list of sectors, and the factors fill the output.
/// `source_trees` is the side of the matrices whose trees index the factor.
pub fn one_sided_factor_output_is_canonical<D, M: SectorGeometry>(
    structure: &BlockStructure,
    matricizations: &[M],
    pairs: &[FactorPair<D>],
    dimensions: &BondDimensions,
    required_len: usize,
    side: FactorSide,
    source_trees: FactorSide,
) -> (result: bool)
    ensures
        result == one_sided_output_canonical(
            structure.spec_blocks(),
            geometries(matricizations@),
            pairs@,
            dimensions@,
            required_len as int,
            side,
            source_trees,
        ),
{
    if matricizations.len() != pairs.len() || matricizations.len() != dimensions.len() {
        return false;
    }
    let ghost blocks = structure.spec_blocks();
    let ghost all = geometries(matricizations@);
    let mut block_index: usize = 0;
    let mut output_offset: usize = 0;
    let mut k: usize = 0;
    while k < matricizations.len()
        invariant
            k <= matricizations@.len() == pairs@.len() == dimensions@.len(),
            blocks == structure.spec_blocks(),
            all == geometries(matricizations@),
            block_index <= blocks.len(),
            pairs_canonical(
                blocks,
                None,
                all,
                pairs@,
                dimensions@,
                required_len as int,
                side,
                source_trees,
                0,
                0,
                0,
            ) == pairs_canonical(
                blocks,
                None,
                all,
                pairs@,
                dimensions@,
                required_len as int,
                side,
                source_trees,
                k as int,
                block_index as int,
                output_offset as int,
            ),
        decreases matricizations.len() - k,
    {
        let matrix = &matricizations[k];
        let pair = &pairs[k];
        let rank = dimensions.rank(k);
        assert(all[k as int] == matrix.geometry());
        if matrix.sector() != rank.sector || pair.sector != rank.sector {
            return false;
        }
        let factor_len: usize = match side {
            FactorSide::Left => pair.left.len(),
            FactorSide::Right => pair.right.len(),
        };
        let factor_leading: usize = match side {
            FactorSide::Left => pair.left_rows,
            FactorSide::Right => pair.right_leading,
        };
        match sector_factor_output_is_canonical(
            structure,
            block_index,
            output_offset,
            matrix,
            source_trees,
            factor_len,
            factor_leading,
            rank.kept,
            side,
            None,
        ) {
            Some((next_index, next_offset)) => {
                block_index = next_index;
                output_offset = next_offset;
            },
            None => {
                return false;
            },
        }
        k += 1;
    }
    block_index == structure.block_count() && output_offset == required_len
}

} // verus!
