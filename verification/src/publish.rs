//! Publication of sector factors into the blocks of an output.

use vstd::prelude::*;

use crate::bond::{bond_of_pairs, rank_of, BondDimensions};
use crate::canonical::{
    one_sided_factor_output_is_canonical, one_sided_output_canonical, pairs_canonical, side_tree,
};
use crate::error::OperationError;
use crate::factor::{
    joined, moved_out, source_side, take_one_sided_factors, FactorPair, FactorPlacement, SectorRank,
};
use crate::geometry::{
    geometries, lemma_span_position, sector_position, sectors_distinct, Geometry, SectorGeometry,
};
use crate::index::{extent, extent_fits, lemma_nonempty_dimensions};
use crate::layout::{
    filled, identity_writes, representable, scatter_identity_matrix_block, FactorSide,
};
use crate::matricize::{indexes_sectors, lemma_position_unique};
use crate::placement::{
    block_reads_fit, block_scatter, bond_axis, matricization_map, missing_tree, placement_of,
    scatter_block, PlacementIndex,
};
use crate::sector::{SectorId, TreePair};
use crate::sector_map::SectorMap;
use crate::structure::{block_admitted, reach, Block, BlockKey, BlockStructure, Label};
use crate::writes::{apply_writes, lemma_writes_concat, Write};

verus! {

/// The refusal of a layout.
pub open spec fn scope(message: &'static str) -> OperationError {
    OperationError::UnsupportedTensorContractScope { message }
}

/// Position of the last pair of a sector among the first `count`.
pub open spec fn last_pair<D>(
    pairs: Seq<FactorPair<D>>,
    sector: SectorId,
    count: int,
) -> Option<int>
    decreases count,
{
    if count <= 0 {
        None
    } else if pairs[count - 1].sector == sector {
        Some(count - 1)
    } else {
        last_pair(pairs, sector, count - 1)
    }
}

/// The shape of a block without its bond axis.
pub open spec fn side_shape(shape: Seq<usize>, axis: int) -> Seq<usize> {
    if 0 <= axis < shape.len() {
        shape.remove(axis)
    } else {
        shape
    }
}

/// An output under construction: its writes, and how much of each sector
/// without source matrix is filled with an identity so far.
pub struct Publication<D> {
    pub writes: Seq<Write<D>>,
    pub filled: Map<SectorId, usize>,
}

/// Where the identity of a sector goes on.
pub open spec fn identity_start(filled: Map<SectorId, usize>, sector: SectorId) -> int {
    if filled.contains_key(sector) {
        filled[sector] as int
    } else {
        0
    }
}

/// How far the identities reach after a block whose sector has no source
/// matrix, or the refusal of that block.
pub open spec fn identity_filled(
    filled: Map<SectorId, usize>,
    block: Block,
    sector: SectorId,
    dimensions: Seq<SectorRank>,
    side: FactorSide,
) -> Result<Map<SectorId, usize>, OperationError> {
    let axis = bond_axis(block, side);
    let shape = block.shape@;
    let others = side_shape(shape, axis);
    let end = identity_start(filled, sector) + extent(others);
    match rank_of(dimensions, sector) {
        None => Err(scope("factor sector absent from the source tensor")),
        Some(dimension) => if !extent_fits(others) || end > usize::MAX {
            Err(OperationError::ElementCountOverflow)
        } else if end > dimension {
            Err(
                OperationError::ElementCountMismatch {
                    expected: dimension,
                    actual: end as usize,
                },
            )
        } else if axis >= shape.len() {
            Err(OperationError::ElementCountMismatch { expected: dimension, actual: 0 })
        } else if shape[axis] != dimension {
            Err(OperationError::ElementCountMismatch { expected: dimension, actual: shape[axis] })
        } else {
            Ok(filled.insert(sector, end as usize))
        },
    }
}

/// The identity completion of a block whose sector has no source matrix.
pub open spec fn publish_identity<D>(
    state: Publication<D>,
    block: Block,
    sector: SectorId,
    dimensions: Seq<SectorRank>,
    side: FactorSide,
    one: D,
) -> Result<Publication<D>, OperationError> {
    let axis = bond_axis(block, side);
    match identity_filled(state.filled, block, sector, dimensions, side) {
        Err(error) => Err(error),
        Ok(filled) => Ok(
            Publication {
                writes: state.writes + identity_writes(
                    block.shape@,
                    block.strides@,
                    block.offset as int,
                    axis,
                    identity_start(state.filled, sector),
                    extent(side_shape(block.shape@, axis)),
                    one,
                ),
                filled,
            },
        ),
    }
}

/// One block of an output: filled from the factor of its sector, or with an
/// identity where the sector has no source matrix.
pub open spec fn publish_block<D>(
    state: Publication<D>,
    block: Block,
    geometries: Seq<Geometry>,
    pairs: Seq<FactorPair<D>>,
    dimensions: Seq<SectorRank>,
    side: FactorSide,
    source_trees: FactorSide,
    one: D,
) -> Result<Publication<D>, OperationError> {
    match block.key@ {
        Label::Plain => Ok(state),
        Label::FusionTree(pair) => {
            let tree = side_tree(pair, side);
            let sector = tree.coupled;
            if sector_position(geometries, sector, 0) is None {
                publish_identity(state, block, sector, dimensions, side, one)
            } else {
                match last_pair(pairs, sector, pairs.len() as int) {
                    None => Err(scope("factor rank absent for a populated source sector")),
                    Some(k) => match placement_of(geometries, sector, source_trees, tree) {
                        None => Err(missing_tree(source_trees)),
                        Some(span) => Ok(
                            Publication {
                                writes: state.writes + block_scatter(
                                    block,
                                    side,
                                    pairs[k].factor(side),
                                    pairs[k].leading(side) as int,
                                    span.offset as int,
                                ),
                                filled: state.filled,
                            },
                        ),
                    },
                }
            }
        },
    }
}

/// The first `count` blocks of an output, in order.
pub open spec fn publish_blocks<D>(
    blocks: Seq<Block>,
    geometries: Seq<Geometry>,
    pairs: Seq<FactorPair<D>>,
    dimensions: Seq<SectorRank>,
    side: FactorSide,
    source_trees: FactorSide,
    one: D,
    count: int,
) -> Result<Publication<D>, OperationError>
    decreases count,
{
    if count <= 0 {
        Ok(Publication { writes: Seq::empty(), filled: Map::empty() })
    } else {
        match publish_blocks(
            blocks,
            geometries,
            pairs,
            dimensions,
            side,
            source_trees,
            one,
            count - 1,
        ) {
            Ok(state) => publish_block(
                state,
                blocks[count - 1],
                geometries,
                pairs,
                dimensions,
                side,
                source_trees,
                one,
            ),
            Err(error) => Err(error),
        }
    }
}

/// A block that is filled from a factor is read inside it.
pub open spec fn published_reads_fit<D>(
    block: Block,
    geometries: Seq<Geometry>,
    pairs: Seq<FactorPair<D>>,
    side: FactorSide,
    source_trees: FactorSide,
) -> bool {
    match block.key@ {
        Label::Plain => true,
        Label::FusionTree(pair) => {
            let tree = side_tree(pair, side);
            &&& side == FactorSide::Left ==> block.shape@.len() > 0
            &&& match (
                last_pair(pairs, tree.coupled, pairs.len() as int),
                placement_of(geometries, tree.coupled, source_trees, tree),
            ) {
                (Some(k), Some(span)) => block_reads_fit(
                    block,
                    side,
                    pairs[k].leading(side) as int,
                    span.offset as int,
                    pairs[k].factor(side).len() as int,
                ),
                _ => true,
            }
        },
    }
}

/// How far the identities reach after one block, or the refusal of that block.
pub open spec fn block_filled<D>(
    filled: Map<SectorId, usize>,
    block: Block,
    geometries: Seq<Geometry>,
    pairs: Seq<FactorPair<D>>,
    dimensions: Seq<SectorRank>,
    side: FactorSide,
    source_trees: FactorSide,
) -> Result<Map<SectorId, usize>, OperationError> {
    match block.key@ {
        Label::Plain => Ok(filled),
        Label::FusionTree(pair) => {
            let tree = side_tree(pair, side);
            let sector = tree.coupled;
            if sector_position(geometries, sector, 0) is None {
                identity_filled(filled, block, sector, dimensions, side)
            } else if last_pair(pairs, sector, pairs.len() as int) is None {
                Err(scope("factor rank absent for a populated source sector"))
            } else if placement_of(geometries, sector, source_trees, tree) is None {
                Err(missing_tree(source_trees))
            } else {
                Ok(filled)
            }
        },
    }
}

/// How far the identities reach after the first `count` blocks, or the first
/// refusal among them.
pub open spec fn blocks_filled<D>(
    blocks: Seq<Block>,
    geometries: Seq<Geometry>,
    pairs: Seq<FactorPair<D>>,
    dimensions: Seq<SectorRank>,
    side: FactorSide,
    source_trees: FactorSide,
    count: int,
) -> Result<Map<SectorId, usize>, OperationError>
    decreases count,
{
    if count <= 0 {
        Ok(Map::empty())
    } else {
        match blocks_filled(
            blocks,
            geometries,
            pairs,
            dimensions,
            side,
            source_trees,
            count - 1,
        ) {
            Ok(filled) => block_filled(
                filled,
                blocks[count - 1],
                geometries,
                pairs,
                dimensions,
                side,
                source_trees,
            ),
            Err(error) => Err(error),
        }
    }
}

/// A publication refuses what its walk over the blocks refuses.
pub proof fn lemma_blocks_filled<D>(
    blocks: Seq<Block>,
    geometries: Seq<Geometry>,
    pairs: Seq<FactorPair<D>>,
    dimensions: Seq<SectorRank>,
    side: FactorSide,
    source_trees: FactorSide,
    one: D,
    count: int,
)
    ensures
        match (
            publish_blocks(blocks, geometries, pairs, dimensions, side, source_trees, one, count),
            blocks_filled(blocks, geometries, pairs, dimensions, side, source_trees, count),
        ) {
            (Ok(publication), Ok(filled)) => publication.filled == filled,
            (Err(error), Err(expected)) => error == expected,
            _ => false,
        },
    decreases count,
{
    if count > 0 {
        lemma_blocks_filled(
            blocks,
            geometries,
            pairs,
            dimensions,
            side,
            source_trees,
            one,
            count - 1,
        );
    }
}

/// Every output block up to the first refusal is filled from inside the last
/// factor of its sector.
pub open spec fn reads_fit<D>(
    blocks: Seq<Block>,
    geometries: Seq<Geometry>,
    pairs: Seq<FactorPair<D>>,
    dimensions: Seq<SectorRank>,
    side: FactorSide,
    source_trees: FactorSide,
) -> bool {
    forall|k: int|
        0 <= k < blocks.len() && blocks_filled(
            blocks,
            geometries,
            pairs,
            dimensions,
            side,
            source_trees,
            k,
        ) is Ok ==> published_reads_fit(
            #[trigger] blocks[k],
            geometries,
            pairs,
            side,
            source_trees,
        )
}

/// No block of the output is refused.
pub open spec fn blocks_accepted<D>(
    structure: BlockStructure,
    geometries: Seq<Geometry>,
    pairs: Seq<FactorPair<D>>,
    dimensions: Seq<SectorRank>,
    side: FactorSide,
    source_trees: FactorSide,
) -> bool {
    blocks_filled(
        structure.spec_blocks(),
        geometries,
        pairs,
        dimensions,
        side,
        source_trees,
        structure.spec_blocks().len() as int,
    ) is Ok
}

/// The left publication reads inside its factors, and so does the right one
/// unless the left is refused.
pub open spec fn both_reads_fit<D>(
    left_structure: BlockStructure,
    right_structure: BlockStructure,
    geometries: Seq<Geometry>,
    pairs: Seq<FactorPair<D>>,
    left_dimensions: Seq<SectorRank>,
    right_dimensions: Seq<SectorRank>,
    left_trees: FactorSide,
    right_trees: FactorSide,
) -> bool {
    &&& reads_fit(
        left_structure.spec_blocks(),
        geometries,
        pairs,
        left_dimensions,
        FactorSide::Left,
        left_trees,
    )
    &&& blocks_accepted(
        left_structure,
        geometries,
        pairs,
        left_dimensions,
        FactorSide::Left,
        left_trees,
    ) ==> reads_fit(
        right_structure.spec_blocks(),
        geometries,
        pairs,
        right_dimensions,
        FactorSide::Right,
        right_trees,
    )
}

/// A buffer of `len` zeros.
pub open spec fn zeros<D>(zero: D, len: int) -> Seq<D> {
    Seq::new(len as nat, |k: int| zero)
}

/// The last pair of every sector.
pub(crate) fn pair_map<D>(pairs: &[FactorPair<D>]) -> (map: SectorMap)
    ensures
        forall|sector: SectorId|
            {
                &&& #[trigger] map@.contains_key(sector) <==> last_pair(
                    pairs@,
                    sector,
                    pairs@.len() as int,
                ) is Some
                &&& map@.contains_key(sector) ==> map@[sector] as int == last_pair(
                    pairs@,
                    sector,
                    pairs@.len() as int,
                )->0
            },
{
    let mut map = SectorMap::new();
    let mut k: usize = 0;
    while k < pairs.len()
        invariant
            k <= pairs@.len(),
            forall|sector: SectorId|
                {
                    &&& #[trigger] map@.contains_key(sector) <==> last_pair(
                        pairs@,
                        sector,
                        k as int,
                    ) is Some
                    &&& map@.contains_key(sector) ==> map@[sector] as int == last_pair(
                        pairs@,
                        sector,
                        k as int,
                    )->0
                },
        decreases pairs.len() - k,
    {
        map.insert(pairs[k].sector, k);
        k += 1;
    }
    map
}

/// A pair that is found has its sector, and no later one has.
pub proof fn lemma_last_pair<D>(pairs: Seq<FactorPair<D>>, sector: SectorId, count: int)
    requires
        0 <= count <= pairs.len(),
    ensures
        match last_pair(pairs, sector, count) {
            Some(k) => 0 <= k < count && pairs[k].sector == sector && forall|later: int|
                k < later < count ==> (#[trigger] pairs[later]).sector != sector,
            None => forall|k: int| 0 <= k < count ==> (#[trigger] pairs[k]).sector != sector,
        },
    decreases count,
{
    if count > 0 && pairs[count - 1].sector != sector {
        lemma_last_pair(pairs, sector, count - 1);
    }
}

/// An error of an earlier block ends the publication.
proof fn lemma_publication_stops<D>(
    blocks: Seq<Block>,
    geometries: Seq<Geometry>,
    pairs: Seq<FactorPair<D>>,
    dimensions: Seq<SectorRank>,
    side: FactorSide,
    source_trees: FactorSide,
    one: D,
    low: int,
    high: int,
)
    requires
        0 <= low <= high,
        publish_blocks(blocks, geometries, pairs, dimensions, side, source_trees, one, low) is Err,
    ensures
        publish_blocks(blocks, geometries, pairs, dimensions, side, source_trees, one, high)
            == publish_blocks(blocks, geometries, pairs, dimensions, side, source_trees, one, low),
    decreases high - low,
{
    if low < high {
        lemma_publication_stops(
            blocks,
            geometries,
            pairs,
            dimensions,
            side,
            source_trees,
            one,
            low,
            high - 1,
        );
    }
}

/// The reach of a block is that of its other axes plus that of one axis.
proof fn lemma_reach_remove(shape: Seq<usize>, strides: Seq<usize>, axis: int, axes: int)
    requires
        0 <= axis < shape.len(),
        shape.len() == strides.len(),
        0 <= axes <= shape.len(),
    ensures
        axes <= axis ==> reach(shape, strides, axes) == reach(
            shape.remove(axis),
            strides.remove(axis),
            axes,
        ),
        axes > axis ==> reach(shape, strides, axes) == reach(
            shape.remove(axis),
            strides.remove(axis),
            axes - 1,
        ) + (shape[axis] - 1) * strides[axis],
    decreases axes,
{
    if axes > 0 {
        lemma_reach_remove(shape, strides, axis, axes - 1);
        let s = shape.remove(axis);
        let t = strides.remove(axis);
        if axes - 1 < axis {
            assert(s[axes - 1] == shape[axes - 1] && t[axes - 1] == strides[axes - 1]);
        } else if axes - 1 > axis {
            assert(s[axes - 2] == shape[axes - 1] && t[axes - 2] == strides[axes - 1]);
        }
    }
}

/// The diagonal of a block with elements lies inside an admitted block.
proof fn lemma_identity_fits<D>(
    block: Block,
    axis: int,
    start: int,
    count: int,
    one: D,
    len: int,
)
    requires
        block_admitted(block, len),
        0 <= axis < block.shape@.len(),
        0 <= start,
        count == extent(block.shape@.remove(axis)),
        start + count <= block.shape@[axis],
        count > 0,
    ensures
        forall|k: int|
            0 <= k < block.shape@.len() && k != axis ==> block.shape@[k] > 0,
        forall|k: int|
            0 <= k < representable(start, count) ==> (#[trigger] identity_writes(
                block.shape@,
                block.strides@,
                block.offset as int,
                axis,
                start,
                count,
                one,
            )[k]).0 < len,
        representable(start, count) == count,
{
    let shape = block.shape@;
    let strides = block.strides@;
    let s = shape.remove(axis);
    let t = strides.remove(axis);
    lemma_nonempty_dimensions(s, s.len() as int);
    assert forall|k: int| 0 <= k < shape.len() && k != axis implies shape[k] > 0 by {
        if k < axis {
            assert(s[k] == shape[k]);
        } else {
            assert(s[k - 1] == shape[k]);
        }
    }
    assert(shape[axis] > 0);
    assert(block.offset + reach(shape, strides, shape.len() as int) < len);
    lemma_reach_remove(shape, strides, axis, shape.len() as int);
    assert forall|k: int| 0 <= k < representable(start, count) implies (
    #[trigger] identity_writes(
        shape,
        strides,
        block.offset as int,
        axis,
        start,
        count,
        one,
    )[k]).0 < len by {
        crate::structure::lemma_address_within_reach(s, t, k, s.len() as int);
        let d = strides[axis] as int;
        assert((start + k) * d <= (shape[axis] - 1) * d) by (nonlinear_arith)
            requires
                start + k <= shape[axis] - 1,
                d >= 0,
        ;
    }
}

/// A shape without one of its axes.
pub(crate) fn without_axis(shape: &[usize], axis: usize) -> (others: Vec<usize>)
    ensures
        others@ == side_shape(shape@, axis as int),
{
    let mut others: Vec<usize> = Vec::new();
    let mut k: usize = 0;
    while k < shape.len()
        invariant
            k <= shape@.len(),
            others@.len() == if axis < k {
                k - 1
            } else {
                k as int
            },
            forall|j: int|
                0 <= j < others@.len() ==> others@[j] == side_shape(shape@, axis as int)[j],
        decreases shape.len() - k,
    {
        if k != axis {
            others.push(shape[k]);
        }
        k += 1;
    }
    assert(others@ =~= side_shape(shape@, axis as int));
    others
}

/// Fills a block of a sector without source matrix with its part of an
/// identity.
fn scatter_identity<D: Copy>(
    data: &mut Vec<D>,
    filled_to: &mut SectorMap,
    block: &Block,
    sector: SectorId,
    dimensions: &BondDimensions,
    side: FactorSide,
    one: D,
    Ghost(state): Ghost<Publication<D>>,
    Ghost(empty): Ghost<Seq<D>>,
) -> (result: Result<(), OperationError>)
    requires
        block_admitted(*block, old(data)@.len() as int),
        side == FactorSide::Left ==> block.shape@.len() > 0,
        old(filled_to)@ == state.filled,
        old(data)@ == apply_writes(empty, state.writes),
    ensures
        final(data)@.len() == old(data)@.len(),
        match publish_identity(state, *block, sector, dimensions@, side, one) {
            Ok(next) => {
                &&& result is Ok
                &&& final(filled_to)@ == next.filled
                &&& final(data)@ == apply_writes(empty, next.writes)
            },
            Err(error) => result == Err::<(), OperationError>(error),
        },
{
    let axis: usize = match side {
        FactorSide::Left => block.shape.len() - 1,
        FactorSide::Right => 0,
    };
    let dimension: usize = match dimensions.get(sector) {
        Some(dimension) => dimension,
        None => {
            return Err(
                crate::error::unsupported("factor sector absent from the source tensor"),
            );
        },
    };
    let start: usize = match filled_to.get(sector) {
        Some(start) => start,
        None => 0,
    };
    let others = without_axis(block.shape(), axis);
    let count: usize = match crate::index::checked_extent(others.as_slice()) {
        Some(count) => count,
        None => {
            return Err(OperationError::ElementCountOverflow);
        },
    };
    let end: usize = match start.checked_add(count) {
        Some(end) => end,
        None => {
            return Err(OperationError::ElementCountOverflow);
        },
    };
    if end > dimension {
        return Err(OperationError::ElementCountMismatch { expected: dimension, actual: end });
    }
    let ghost writes = identity_writes(
        block.shape@,
        block.strides@,
        block.offset as int,
        axis as int,
        start as int,
        count as int,
        one,
    );
    proof {
        crate::index::lemma_leading_extent_nonnegative(others@, others@.len() as int);
        if axis < block.shape@.len() && block.shape@[axis as int] == dimension && count > 0 {
            lemma_identity_fits(
                *block,
                axis as int,
                start as int,
                count as int,
                one,
                data@.len() as int,
            );
        }
    }
    match scatter_identity_matrix_block(
        data.as_mut_slice(),
        block.shape(),
        block.strides(),
        block.offset,
        axis,
        dimension,
        start,
        count,
        one,
    ) {
        Ok(()) => {},
        Err(error) => {
            return Err(error);
        },
    }
    filled_to.insert(sector, end);
    proof {
        assert(writes.take(count as int) =~= writes);
        lemma_writes_concat(empty, state.writes, writes);
    }
    Ok(())
}

/// Scatters the factors of one side into a zero output, block by block.
fn scatter_factor<D: Copy, M: SectorGeometry>(
    structure: &BlockStructure,
    index: &PlacementIndex<'_, M>,
    pairs: &[FactorPair<D>],
    dimensions: &BondDimensions,
    side: FactorSide,
    source_trees: FactorSide,
    zero: D,
    one: D,
) -> (result: Result<Vec<D>, OperationError>)
    requires
        structure.wf(),
        index.wf(),
        reads_fit(
            structure.spec_blocks(),
            index.geometries(),
            pairs@,
            dimensions@,
            side,
            source_trees,
        ),
    ensures
        match publish_blocks(
            structure.spec_blocks(),
            index.geometries(),
            pairs@,
            dimensions@,
            side,
            source_trees,
            one,
            structure.spec_blocks().len() as int,
        ) {
            Ok(publication) => match result {
                Ok(data) => data@ == apply_writes(
                    zeros(zero, structure.spec_len() as int),
                    publication.writes,
                ),
                Err(_) => false,
            },
            Err(error) => result == Err::<Vec<D>, OperationError>(error),
        },
{
    let ghost blocks = structure.spec_blocks();
    let ghost all = index.geometries();
    let len: usize = structure.required_len();
    let mut data: Vec<D> = filled(zero, len);
    let ghost empty = data@;
    let mut filled_to = SectorMap::new();
    let by_pair = pair_map(pairs);
    let count: usize = structure.block_count();
    let mut k: usize = 0;
    let ghost mut state: Publication<D> = Publication {
        writes: Seq::empty(),
        filled: Map::empty(),
    };
    while k < count
        invariant
            k <= count == blocks.len(),
            blocks == structure.spec_blocks(),
            all == index.geometries(),
            structure.wf(),
            index.wf(),
            empty == zeros(zero, structure.spec_len() as int),
            data@.len() == structure.spec_len(),
            reads_fit(blocks, all, pairs@, dimensions@, side, source_trees),
            forall|sector: SectorId|
                {
                    &&& #[trigger] by_pair@.contains_key(sector) <==> last_pair(
                        pairs@,
                        sector,
                        pairs@.len() as int,
                    ) is Some
                    &&& by_pair@.contains_key(sector) ==> by_pair@[sector] as int == last_pair(
                        pairs@,
                        sector,
                        pairs@.len() as int,
                    )->0
                },
            publish_blocks(
                blocks,
                all,
                pairs@,
                dimensions@,
                side,
                source_trees,
                one,
                k as int,
            ) == Ok::<Publication<D>, OperationError>(state),
            filled_to@ == state.filled,
            data@ == apply_writes(empty, state.writes),
        decreases count - k,
    {
        let block = structure.block(k);
        let ghost next = publish_blocks(
            blocks,
            all,
            pairs@,
            dimensions@,
            side,
            source_trees,
            one,
            k + 1,
        );
        proof {
            assert(block_admitted(blocks[k as int], structure.spec_len() as int));
            lemma_blocks_filled(
                blocks,
                all,
                pairs@,
                dimensions@,
                side,
                source_trees,
                one,
                k as int,
            );
            assert(published_reads_fit(blocks[k as int], all, pairs@, side, source_trees));
            if next is Err {
                lemma_publication_stops(
                    blocks,
                    all,
                    pairs@,
                    dimensions@,
                    side,
                    source_trees,
                    one,
                    k + 1,
                    count as int,
                );
            }
        }
        if let BlockKey::FusionTree(key) = &block.key {
            let tree = match side {
                FactorSide::Left => key.codomain_tree(),
                FactorSide::Right => key.domain_tree(),
            };
            let sector = tree.coupled();
            if !index.has_sector(sector) {
                match scatter_identity(
                    &mut data,
                    &mut filled_to,
                    block,
                    sector,
                    dimensions,
                    side,
                    one,
                    Ghost(state),
                    Ghost(empty),
                ) {
                    Ok(()) => {},
                    Err(error) => {
                        return Err(error);
                    },
                }
            } else {
                let at: usize = match by_pair.get(sector) {
                    Some(at) => at,
                    None => {
                        return Err(
                            crate::error::unsupported(
                                "factor rank absent for a populated source sector",
                            ),
                        );
                    },
                };
                proof {
                    lemma_last_pair(pairs@, sector, pairs@.len() as int);
                }
                let side_offset: usize = match index.placement(sector, source_trees, tree) {
                    Ok((side_offset, _)) => side_offset,
                    Err(error) => {
                        return Err(error);
                    },
                };
                let pair = &pairs[at];
                let factor = match side {
                    FactorSide::Left => pair.left.as_slice(),
                    FactorSide::Right => pair.right.as_slice(),
                };
                let leading: usize = match side {
                    FactorSide::Left => pair.left_rows,
                    FactorSide::Right => pair.right_leading,
                };
                scatter_block(data.as_mut_slice(), block, side, factor, leading, side_offset);
                proof {
                    lemma_writes_concat(
                        empty,
                        state.writes,
                        block_scatter(
                            *block,
                            side,
                            factor@,
                            leading as int,
                            side_offset as int,
                        ),
                    );
                }
            }
        }
        proof {
            state = next->Ok_0;
        }
        k += 1;
    }
    Ok(data)
}

/// Some pair belongs to a sector without source matrix.
pub open spec fn has_stray_pair<D>(
    geometries: Seq<Geometry>,
    pairs: Seq<FactorPair<D>>,
) -> bool {
    exists|k: int|
        0 <= k < pairs.len() && sector_position(
            geometries,
            (#[trigger] pairs[k]).sector,
            0,
        ) is None
}

/// Canonical factors add up to the whole output, so none of them exceeds it.
pub proof fn lemma_canonical_total<D>(
    blocks: Seq<Block>,
    keys: Option<Seq<TreePair>>,
    geometries: Seq<Geometry>,
    pairs: Seq<FactorPair<D>>,
    bonds: Seq<SectorRank>,
    required_len: int,
    side: FactorSide,
    source_trees: FactorSide,
    k: int,
    block: int,
    offset: int,
)
    requires
        0 <= k <= geometries.len(),
        0 <= offset,
        geometries.len() == pairs.len(),
        pairs_canonical(
            blocks,
            keys,
            geometries,
            pairs,
            bonds,
            required_len,
            side,
            source_trees,
            k,
            block,
            offset,
        ),
    ensures
        offset <= required_len,
        forall|j: int|
            k <= j < pairs.len() ==> (#[trigger] pairs[j]).factor(side).len() <= required_len,
    decreases geometries.len() - k,
{
    if k < geometries.len() {
        lemma_canonical_total(
            blocks,
            keys,
            geometries,
            pairs,
            bonds,
            required_len,
            side,
            source_trees,
            k + 1,
            crate::canonical::next_block(
                block,
                geometries[k],
                source_trees,
                bonds[k].kept as int,
            ),
            offset + pairs[k].factor(side).len(),
        );
    }
}

/// The data of a published factor: the joined factors where the output has
/// their layout, and their scatter with identity completion otherwise.
pub open spec fn published_data<D>(
    structure: BlockStructure,
    geometries: Seq<Geometry>,
    pairs: Seq<FactorPair<D>>,
    dimensions: Seq<SectorRank>,
    side: FactorSide,
    source_trees: FactorSide,
    zero: D,
    one: D,
) -> Result<Seq<D>, OperationError> {
    if one_sided_output_canonical(
        structure.spec_blocks(),
        geometries,
        pairs,
        dimensions,
        structure.spec_len() as int,
        side,
        source_trees,
    ) {
        Ok(joined(pairs, side))
    } else {
        match publish_blocks(
            structure.spec_blocks(),
            geometries,
            pairs,
            dimensions,
            side,
            source_trees,
            one,
            structure.spec_blocks().len() as int,
        ) {
            Ok(publication) => Ok(
                apply_writes(zeros(zero, structure.spec_len() as int), publication.writes),
            ),
            Err(error) => Err(error),
        }
    }
}

/// A result with this data, or this error.
pub open spec fn data_is<D>(
    result: Result<Vec<D>, OperationError>,
    expected: Result<Seq<D>, OperationError>,
) -> bool {
    match (result, expected) {
        (Ok(data), Ok(elements)) => data@ == elements,
        (Err(error), Err(expected)) => error == expected,
        _ => false,
    }
}

/// The pairs after a publication: the published side is moved out where the
/// output has the layout of the factors, and nothing changes otherwise.
pub open spec fn pairs_after<D>(
    structure: BlockStructure,
    geometries: Seq<Geometry>,
    before: Seq<FactorPair<D>>,
    after: Seq<FactorPair<D>>,
    dimensions: Seq<SectorRank>,
    side: FactorSide,
    source_trees: FactorSide,
) -> bool {
    if one_sided_output_canonical(
        structure.spec_blocks(),
        geometries,
        before,
        dimensions,
        structure.spec_len() as int,
        side,
        source_trees,
    ) {
        &&& after.len() == before.len()
        &&& forall|k: int|
            0 <= k < before.len() ==> moved_out(before[k], #[trigger] after[k], side)
    } else {
        after == before
    }
}

/// Publishes one side of the pairs.
fn publish_factor<D: Copy, M: SectorGeometry>(
    structure: &BlockStructure,
    matricizations: &[M],
    pairs: &mut Vec<FactorPair<D>>,
    dimensions: &BondDimensions,
    side: FactorSide,
    source_trees: FactorSide,
    index: Option<&PlacementIndex<'_, M>>,
    zero: D,
    one: D,
) -> (result: Result<Vec<D>, OperationError>)
    requires
        structure.wf(),
        sectors_distinct(geometries(matricizations@)),
        index is Some ==> index->0.wf() && index->0.geometries() == geometries(matricizations@),
        reads_fit(
            structure.spec_blocks(),
            geometries(matricizations@),
            old(pairs)@,
            dimensions@,
            side,
            source_trees,
        ),
    ensures
        data_is(
            result,
            published_data(
                *structure,
                geometries(matricizations@),
                old(pairs)@,
                dimensions@,
                side,
                source_trees,
                zero,
                one,
            ),
        ),
        pairs_after(
            *structure,
            geometries(matricizations@),
            old(pairs)@,
            final(pairs)@,
            dimensions@,
            side,
            source_trees,
        ),
{
    let required_len: usize = structure.required_len();
    if one_sided_factor_output_is_canonical(
        structure,
        matricizations,
        pairs.as_slice(),
        dimensions,
        required_len,
        side,
        source_trees,
    ) {
        proof {
            lemma_canonical_total(
                structure.spec_blocks(),
                None,
                geometries(matricizations@),
                pairs@,
                dimensions@,
                required_len as int,
                side,
                source_trees,
                0,
                0,
                0,
            );
        }
        return Ok(take_one_sided_factors(pairs, required_len, side));
    }
    match index {
        Some(index) => scatter_factor(
            structure,
            index,
            pairs.as_slice(),
            dimensions,
            side,
            source_trees,
            zero,
            one,
        ),
        None => {
            let index = PlacementIndex::new(matricizations);
            scatter_factor(
                structure,
                &index,
                pairs.as_slice(),
                dimensions,
                side,
                source_trees,
                zero,
                one,
            )
        },
    }
}

/// Publishes one factor into its output: by moving the sector factors where
/// the output has their layout, and otherwise by scattering them, with an
/// identity in the sectors that the source does not have.
///
/// Every pair has to belong to a sector of the source.
pub fn build_bound_factor_with_placement<D: Copy, M: SectorGeometry>(
    structure: &BlockStructure,
    matricizations: &[M],
    pairs: &mut Vec<FactorPair<D>>,
    dimensions: &BondDimensions,
    side: FactorSide,
    placement: FactorPlacement,
    zero: D,
    one: D,
) -> (result: Result<Vec<D>, OperationError>)
    requires
        structure.wf(),
        sectors_distinct(geometries(matricizations@)),
        has_stray_pair(geometries(matricizations@), old(pairs)@) || reads_fit(
            structure.spec_blocks(),
            geometries(matricizations@),
            old(pairs)@,
            dimensions@,
            side,
            source_side(side, placement),
        ),
    ensures
        if has_stray_pair(geometries(matricizations@), old(pairs)@) {
            &&& result == Err::<Vec<D>, OperationError>(
                scope("factor sector absent from the source tensor"),
            )
            &&& final(pairs)@ == old(pairs)@
        } else {
            &&& data_is(
                result,
                published_data(
                    *structure,
                    geometries(matricizations@),
                    old(pairs)@,
                    dimensions@,
                    side,
                    source_side(side, placement),
                    zero,
                    one,
                ),
            )
            &&& pairs_after(
                *structure,
                geometries(matricizations@),
                old(pairs)@,
                final(pairs)@,
                dimensions@,
                side,
                source_side(side, placement),
            )
        },
{
    let by_sector = matricization_map(matricizations);
    let mut k: usize = 0;
    while k < pairs.len()
        invariant
            k <= pairs@.len(),
            pairs@ == old(pairs)@,
            indexes_sectors(by_sector@, geometries(matricizations@)),
            forall|j: int|
                0 <= j < k ==> sector_position(
                    geometries(matricizations@),
                    (#[trigger] pairs@[j]).sector,
                    0,
                ) is Some,
        decreases pairs.len() - k,
    {
        if by_sector.get(pairs[k].sector).is_none() {
            assert(sector_position(
                geometries(matricizations@),
                pairs@[k as int].sector,
                0,
            ) is None);
            return Err(
                crate::error::unsupported("factor sector absent from the source tensor"),
            );
        }
        k += 1;
    }
    let source_trees = match (side, placement) {
        (FactorSide::Left, FactorPlacement::Direct) => FactorSide::Left,
        (FactorSide::Right, FactorPlacement::Adjoint) => FactorSide::Left,
        (FactorSide::Right, FactorPlacement::Direct) => FactorSide::Right,
        (FactorSide::Left, FactorPlacement::Adjoint) => FactorSide::Right,
    };
    publish_factor(
        structure,
        matricizations,
        pairs,
        dimensions,
        side,
        source_trees,
        None,
        zero,
        one,
    )
}

/// Publishes one factor indexed by the trees of its own side.
pub fn build_bound_factor<D: Copy, M: SectorGeometry>(
    structure: &BlockStructure,
    matricizations: &[M],
    pairs: &mut Vec<FactorPair<D>>,
    dimensions: &BondDimensions,
    side: FactorSide,
    zero: D,
    one: D,
) -> (result: Result<Vec<D>, OperationError>)
    requires
        structure.wf(),
        sectors_distinct(geometries(matricizations@)),
        has_stray_pair(geometries(matricizations@), old(pairs)@) || reads_fit(
            structure.spec_blocks(),
            geometries(matricizations@),
            old(pairs)@,
            dimensions@,
            side,
            side,
        ),
    ensures
        if has_stray_pair(geometries(matricizations@), old(pairs)@) {
            &&& result == Err::<Vec<D>, OperationError>(
                scope("factor sector absent from the source tensor"),
            )
            &&& final(pairs)@ == old(pairs)@
        } else {
            &&& data_is(
                result,
                published_data(
                    *structure,
                    geometries(matricizations@),
                    old(pairs)@,
                    dimensions@,
                    side,
                    side,
                    zero,
                    one,
                ),
            )
            &&& pairs_after(
                *structure,
                geometries(matricizations@),
                old(pairs)@,
                final(pairs)@,
                dimensions@,
                side,
                side,
            )
        },
{
    build_bound_factor_with_placement(
        structure,
        matricizations,
        pairs,
        dimensions,
        side,
        FactorPlacement::Direct,
        zero,
        one,
    )
}

/// A block of a sector of the source whose tree the source does not have.
pub open spec fn lacks_placement(
    block: Block,
    geometries: Seq<Geometry>,
    side: FactorSide,
) -> bool {
    match block.key@ {
        Label::Plain => false,
        Label::FusionTree(pair) => {
            let tree = side_tree(pair, side);
            &&& sector_position(geometries, tree.coupled, 0) is Some
            &&& placement_of(geometries, tree.coupled, side, tree) is None
        },
    }
}

/// Some block of a sector of the source has a tree that the source lacks.
pub open spec fn lacks_some_placement(
    structure: BlockStructure,
    geometries: Seq<Geometry>,
    side: FactorSide,
) -> bool {
    exists|k: int|
        0 <= k < structure.spec_blocks().len() && lacks_placement(
            #[trigger] structure.spec_blocks()[k],
            geometries,
            side,
        )
}

/// Publishes one factor after every block of a sector of the source was found
/// to have its tree there. Pairs of other sectors are ignored.
pub fn build_bound_factor_generic_checked<D: Copy, M: SectorGeometry>(
    structure: &BlockStructure,
    matricizations: &[M],
    pairs: &mut Vec<FactorPair<D>>,
    dimensions: &BondDimensions,
    side: FactorSide,
    zero: D,
    one: D,
) -> (result: Result<Vec<D>, OperationError>)
    requires
        structure.wf(),
        sectors_distinct(geometries(matricizations@)),
        lacks_some_placement(*structure, geometries(matricizations@), side) || reads_fit(
            structure.spec_blocks(),
            geometries(matricizations@),
            old(pairs)@,
            dimensions@,
            side,
            side,
        ),
    ensures
        if lacks_some_placement(*structure, geometries(matricizations@), side) {
            &&& result == Err::<Vec<D>, OperationError>(missing_tree(side))
            &&& final(pairs)@ == old(pairs)@
        } else {
            &&& data_is(
                result,
                published_data(
                    *structure,
                    geometries(matricizations@),
                    old(pairs)@,
                    dimensions@,
                    side,
                    side,
                    zero,
                    one,
                ),
            )
            &&& pairs_after(
                *structure,
                geometries(matricizations@),
                old(pairs)@,
                final(pairs)@,
                dimensions@,
                side,
                side,
            )
        },
{
    let index = PlacementIndex::new(matricizations);
    let count: usize = structure.block_count();
    let mut k: usize = 0;
    while k < count
        invariant
            k <= count == structure.spec_blocks().len(),
            pairs@ == old(pairs)@,
            index.wf(),
            index.geometries() == geometries(matricizations@),
            forall|j: int|
                0 <= j < k ==> !lacks_placement(
                    #[trigger] structure.spec_blocks()[j],
                    geometries(matricizations@),
                    side,
                ),
        decreases count - k,
    {
        if let BlockKey::FusionTree(key) = &structure.block(k).key {
            let tree = match side {
                FactorSide::Left => key.codomain_tree(),
                FactorSide::Right => key.domain_tree(),
            };
            let sector = tree.coupled();
            if index.has_sector(sector) {
                match index.placement(sector, side, tree) {
                    Ok(_) => {},
                    Err(error) => {
                        assert(lacks_placement(
                            structure.spec_blocks()[k as int],
                            geometries(matricizations@),
                            side,
                        ));
                        return Err(error);
                    },
                }
            }
        }
        k += 1;
    }
    publish_factor(
        structure,
        matricizations,
        pairs,
        dimensions,
        side,
        side,
        Some(&index),
        zero,
        one,
    )
}

/// Publishes both factors of all pairs, the left one first.
pub fn build_left_right_bound_pair<D: Copy, M: SectorGeometry>(
    left_structure: &BlockStructure,
    right_structure: &BlockStructure,
    matricizations: &[M],
    pairs: &mut Vec<FactorPair<D>>,
    zero: D,
    one: D,
) -> (result: Result<(Vec<D>, Vec<D>), OperationError>)
    requires
        left_structure.wf(),
        right_structure.wf(),
        sectors_distinct(geometries(matricizations@)),
        has_stray_pair(geometries(matricizations@), old(pairs)@) || both_reads_fit(
            *left_structure,
            *right_structure,
            geometries(matricizations@),
            old(pairs)@,
            bond_of_pairs(old(pairs)@),
            bond_of_pairs(old(pairs)@),
            FactorSide::Left,
            FactorSide::Right,
        ),
    ensures
        ({
            let all = geometries(matricizations@);
            let dimensions = bond_of_pairs(old(pairs)@);
            let left = published_data(
                *left_structure,
                all,
                old(pairs)@,
                dimensions,
                FactorSide::Left,
                FactorSide::Left,
                zero,
                one,
            );
            let right = published_data(
                *right_structure,
                all,
                old(pairs)@,
                dimensions,
                FactorSide::Right,
                FactorSide::Right,
                zero,
                one,
            );
            if has_stray_pair(all, old(pairs)@) {
                result == Err::<(Vec<D>, Vec<D>), OperationError>(
                    scope("factor sector absent from the source tensor"),
                )
            } else {
                match (result, left, right) {
                    (Ok((left_data, right_data)), Ok(left_elements), Ok(right_elements)) => {
                        left_data@ == left_elements && right_data@ == right_elements
                    },
                    (Err(error), Err(expected), _) => error == expected,
                    (Err(error), Ok(_), Err(expected)) => error == expected,
                    _ => false,
                }
            }
        }),
{
    let dimensions = BondDimensions::of_pairs(pairs.as_slice());
    let left = build_bound_factor(
        left_structure,
        matricizations,
        pairs,
        &dimensions,
        FactorSide::Left,
        zero,
        one,
    );
    match left {
        Err(error) => Err(error),
        Ok(left_data) => {
            proof {
                lemma_published_walk(
                    *left_structure,
                    geometries(matricizations@),
                    old(pairs)@,
                    dimensions@,
                    FactorSide::Left,
                    FactorSide::Left,
                    zero,
                    one,
                );
                lemma_other_side_unmoved(
                    *right_structure,
                    geometries(matricizations@),
                    old(pairs)@,
                    pairs@,
                    dimensions@,
                    FactorSide::Right,
                    FactorSide::Right,
                    zero,
                    one,
                );
            }
            let right = build_bound_factor(
                right_structure,
                matricizations,
                pairs,
                &dimensions,
                FactorSide::Right,
                zero,
                one,
            );
            match right {
                Err(error) => Err(error),
                Ok(right_data) => Ok((left_data, right_data)),
            }
        },
    }
}

/// Pairs that agree on everything that a publication of one side reads.
pub open spec fn agree_on_side<D>(
    a: Seq<FactorPair<D>>,
    b: Seq<FactorPair<D>>,
    side: FactorSide,
) -> bool {
    &&& a.len() == b.len()
    &&& forall|k: int|
        0 <= k < a.len() ==> {
            &&& (#[trigger] a[k]).sector == b[k].sector
            &&& a[k].factor(side) == b[k].factor(side)
            &&& a[k].leading(side) == b[k].leading(side)
        }
}

/// Pairs that agree on a side are found at the same place.
pub(crate) proof fn lemma_last_pair_agrees<D>(
    a: Seq<FactorPair<D>>,
    b: Seq<FactorPair<D>>,
    side: FactorSide,
    sector: SectorId,
    count: int,
)
    requires
        agree_on_side(a, b, side),
        0 <= count <= a.len(),
    ensures
        last_pair(a, sector, count) == last_pair(b, sector, count),
    decreases count,
{
    if count > 0 {
        assert(a[count - 1].sector == b[count - 1].sector);
        lemma_last_pair_agrees(a, b, side, sector, count - 1);
    }
}

proof fn lemma_joined_agrees<D>(
    a: Seq<FactorPair<D>>,
    b: Seq<FactorPair<D>>,
    side: FactorSide,
)
    requires
        agree_on_side(a, b, side),
    ensures
        joined(a, side) == joined(b, side),
    decreases a.len(),
{
    if a.len() > 0 {
        let x = a.drop_last();
        let y = b.drop_last();
        assert forall|k: int| 0 <= k < x.len() implies {
            &&& (#[trigger] x[k]).sector == y[k].sector
            &&& x[k].factor(side) == y[k].factor(side)
            &&& x[k].leading(side) == y[k].leading(side)
        } by {
            assert(x[k] == a[k]);
        }
        lemma_joined_agrees(x, y, side);
        assert(a[a.len() - 1].factor(side) == b[a.len() - 1].factor(side));
    }
}

proof fn lemma_canonical_agrees<D>(
    blocks: Seq<Block>,
    geometries: Seq<Geometry>,
    a: Seq<FactorPair<D>>,
    b: Seq<FactorPair<D>>,
    bonds: Seq<SectorRank>,
    required_len: int,
    side: FactorSide,
    source_trees: FactorSide,
    k: int,
    block: int,
    offset: int,
)
    requires
        agree_on_side(a, b, side),
        geometries.len() == a.len(),
        0 <= k <= geometries.len(),
    ensures
        pairs_canonical(
            blocks,
            None,
            geometries,
            a,
            bonds,
            required_len,
            side,
            source_trees,
            k,
            block,
            offset,
        ) == pairs_canonical(
            blocks,
            None,
            geometries,
            b,
            bonds,
            required_len,
            side,
            source_trees,
            k,
            block,
            offset,
        ),
    decreases geometries.len() - k,
{
    if k < geometries.len() {
        assert(a[k].sector == b[k].sector);
        lemma_canonical_agrees(
            blocks,
            geometries,
            a,
            b,
            bonds,
            required_len,
            side,
            source_trees,
            k + 1,
            crate::canonical::next_block(
                block,
                geometries[k],
                source_trees,
                bonds[k].kept as int,
            ),
            offset + a[k].factor(side).len(),
        );
    }
}

proof fn lemma_publish_agrees<D>(
    blocks: Seq<Block>,
    geometries: Seq<Geometry>,
    a: Seq<FactorPair<D>>,
    b: Seq<FactorPair<D>>,
    dimensions: Seq<SectorRank>,
    side: FactorSide,
    source_trees: FactorSide,
    one: D,
    count: int,
)
    requires
        agree_on_side(a, b, side),
        0 <= count <= blocks.len(),
    ensures
        publish_blocks(blocks, geometries, a, dimensions, side, source_trees, one, count)
            == publish_blocks(blocks, geometries, b, dimensions, side, source_trees, one, count),
    decreases count,
{
    if count > 0 {
        lemma_publish_agrees(
            blocks,
            geometries,
            a,
            b,
            dimensions,
            side,
            source_trees,
            one,
            count - 1,
        );
        if let Label::FusionTree(pair) = blocks[count - 1].key@ {
            let sector = side_tree(pair, side).coupled;
            lemma_last_pair_agrees(a, b, side, sector, a.len() as int);
            lemma_last_pair(a, sector, a.len() as int);
            if let Some(k) = last_pair(a, sector, a.len() as int) {
                assert(a[k].sector == b[k].sector);
            }
        }
    }
}

/// Pairs that agree on a side are refused at the same block.
pub(crate) proof fn lemma_filled_agrees<D>(
    blocks: Seq<Block>,
    geometries: Seq<Geometry>,
    a: Seq<FactorPair<D>>,
    b: Seq<FactorPair<D>>,
    dimensions: Seq<SectorRank>,
    side: FactorSide,
    source_trees: FactorSide,
    count: int,
)
    requires
        agree_on_side(a, b, side),
    ensures
        blocks_filled(blocks, geometries, a, dimensions, side, source_trees, count)
            == blocks_filled(blocks, geometries, b, dimensions, side, source_trees, count),
    decreases count,
{
    if count > 0 {
        lemma_filled_agrees(
            blocks,
            geometries,
            a,
            b,
            dimensions,
            side,
            source_trees,
            count - 1,
        );
        if let Label::FusionTree(pair) = blocks[count - 1].key@ {
            lemma_last_pair_agrees(a, b, side, side_tree(pair, side).coupled, a.len() as int);
        }
    }
}

/// In a canonical output every block from `block` on finds its matrix, its pair
/// and its tree.
proof fn lemma_canonical_found<D>(
    blocks: Seq<Block>,
    geometries: Seq<Geometry>,
    pairs: Seq<FactorPair<D>>,
    dimensions: Seq<SectorRank>,
    required_len: int,
    side: FactorSide,
    source_trees: FactorSide,
    k: int,
    block: int,
    offset: int,
    at: int,
    filled: Map<SectorId, usize>,
)
    requires
        sectors_distinct(geometries),
        geometries.len() == pairs.len(),
        0 <= k <= geometries.len(),
        block <= at < blocks.len(),
        pairs_canonical(
            blocks,
            None,
            geometries,
            pairs,
            dimensions,
            required_len,
            side,
            source_trees,
            k,
            block,
            offset,
        ),
    ensures
        block_filled(
            filled,
            blocks[at],
            geometries,
            pairs,
            dimensions,
            side,
            source_trees,
        ) == Ok::<Map<SectorId, usize>, OperationError>(filled),
    decreases geometries.len() - k,
{
    if k < geometries.len() {
        let next = crate::canonical::next_block(
            block,
            geometries[k],
            source_trees,
            dimensions[k].kept as int,
        );
        if at < next {
            let trees = geometries[k].trees(source_trees);
            let t = at - block;
            assert(blocks[block + t] == blocks[at]);
            assert(trees[t].tree.coupled == geometries[k].sector);
            lemma_position_unique(geometries, k);
            lemma_last_pair(pairs, geometries[k].sector, pairs.len() as int);
            assert(pairs[k].sector == geometries[k].sector);
            lemma_span_position(trees, trees[t].tree, 0);
        } else {
            lemma_canonical_found(
                blocks,
                geometries,
                pairs,
                dimensions,
                required_len,
                side,
                source_trees,
                k + 1,
                next,
                offset + pairs[k].factor(side).len(),
                at,
                filled,
            );
        }
    }
}

/// What a publication accepts, its walk over the blocks accepts.
pub proof fn lemma_published_walk<D>(
    structure: BlockStructure,
    geometries: Seq<Geometry>,
    pairs: Seq<FactorPair<D>>,
    dimensions: Seq<SectorRank>,
    side: FactorSide,
    source_trees: FactorSide,
    zero: D,
    one: D,
)
    requires
        sectors_distinct(geometries),
    ensures
        published_data(
            structure,
            geometries,
            pairs,
            dimensions,
            side,
            source_trees,
            zero,
            one,
        ) is Ok <==> blocks_accepted(
            structure,
            geometries,
            pairs,
            dimensions,
            side,
            source_trees,
        ),
{
    let blocks = structure.spec_blocks();
    lemma_blocks_filled(
        blocks,
        geometries,
        pairs,
        dimensions,
        side,
        source_trees,
        one,
        blocks.len() as int,
    );
    if one_sided_output_canonical(
        blocks,
        geometries,
        pairs,
        dimensions,
        structure.spec_len() as int,
        side,
        source_trees,
    ) {
        lemma_canonical_walk(
            structure,
            geometries,
            pairs,
            dimensions,
            side,
            source_trees,
            blocks.len() as int,
        );
    }
}

proof fn lemma_canonical_walk<D>(
    structure: BlockStructure,
    geometries: Seq<Geometry>,
    pairs: Seq<FactorPair<D>>,
    dimensions: Seq<SectorRank>,
    side: FactorSide,
    source_trees: FactorSide,
    count: int,
)
    requires
        sectors_distinct(geometries),
        0 <= count <= structure.spec_blocks().len(),
        one_sided_output_canonical(
            structure.spec_blocks(),
            geometries,
            pairs,
            dimensions,
            structure.spec_len() as int,
            side,
            source_trees,
        ),
    ensures
        blocks_filled(
            structure.spec_blocks(),
            geometries,
            pairs,
            dimensions,
            side,
            source_trees,
            count,
        ) is Ok,
    decreases count,
{
    if count > 0 {
        lemma_canonical_walk(
            structure,
            geometries,
            pairs,
            dimensions,
            side,
            source_trees,
            count - 1,
        );
        lemma_canonical_found(
            structure.spec_blocks(),
            geometries,
            pairs,
            dimensions,
            structure.spec_len() as int,
            side,
            source_trees,
            0,
            0,
            0,
            count - 1,
            blocks_filled(
                structure.spec_blocks(),
                geometries,
                pairs,
                dimensions,
                side,
                source_trees,
                count - 1,
            )->Ok_0,
        );
    }
}

/// Moving one side out of the pairs does not change what is published of the
/// other.
pub proof fn lemma_other_side_unmoved<D>(
    structure: BlockStructure,
    geometries: Seq<Geometry>,
    before: Seq<FactorPair<D>>,
    after: Seq<FactorPair<D>>,
    dimensions: Seq<SectorRank>,
    side: FactorSide,
    source_trees: FactorSide,
    zero: D,
    one: D,
)
    requires
        agree_on_side(before, after, side),
        !has_stray_pair(geometries, before),
    ensures
        published_data(
            structure,
            geometries,
            before,
            dimensions,
            side,
            source_trees,
            zero,
            one,
        ) == published_data(
            structure,
            geometries,
            after,
            dimensions,
            side,
            source_trees,
            zero,
            one,
        ),
        !has_stray_pair(geometries, after),
        reads_fit(structure.spec_blocks(), geometries, before, dimensions, side, source_trees)
            ==> reads_fit(
            structure.spec_blocks(),
            geometries,
            after,
            dimensions,
            side,
            source_trees,
        ),
{
    let blocks = structure.spec_blocks();
    lemma_joined_agrees(before, after, side);
    if geometries.len() == before.len() {
        lemma_canonical_agrees(
            blocks,
            geometries,
            before,
            after,
            dimensions,
            structure.spec_len() as int,
            side,
            source_trees,
            0,
            0,
            0,
        );
    }
    lemma_publish_agrees(
        blocks,
        geometries,
        before,
        after,
        dimensions,
        side,
        source_trees,
        one,
        blocks.len() as int,
    );
    assert forall|k: int| 0 <= k < after.len() implies sector_position(
        geometries,
        (#[trigger] after[k]).sector,
        0,
    ) is Some by {
        assert(before[k].sector == after[k].sector);
    }
    if reads_fit(blocks, geometries, before, dimensions, side, source_trees) {
        assert forall|k: int|
            0 <= k < blocks.len() && blocks_filled(
                blocks,
                geometries,
                after,
                dimensions,
                side,
                source_trees,
                k,
            ) is Ok implies published_reads_fit(
            #[trigger] blocks[k],
            geometries,
            after,
            side,
            source_trees,
        ) by {
            lemma_filled_agrees(
                blocks,
                geometries,
                before,
                after,
                dimensions,
                side,
                source_trees,
                k,
            );
            assert(published_reads_fit(blocks[k], geometries, before, side, source_trees));
            if let Label::FusionTree(pair) = blocks[k].key@ {
                let sector = side_tree(pair, side).coupled;
                lemma_last_pair_agrees(before, after, side, sector, before.len() as int);
                lemma_last_pair(before, sector, before.len() as int);
                if let Some(j) = last_pair(before, sector, before.len() as int) {
                    assert(before[j].sector == after[j].sector);
                }
            }
        }
    }
}

} // verus!
