//! Labelled strided blocks of one data buffer.

use vstd::prelude::*;

use crate::index::{
    address, block_fits, coordinate, extent, leading_extent, lemma_coordinate_bounds,
    lemma_leading_extent_monotone, lemma_nonempty_dimensions, lemma_positive_extent,
    partial_address,
};
use crate::sector::{FusionTreePairKey, TreePair};

verus! {

/// Label of a block.
#[derive(Clone, Debug, PartialEq, Eq, Hash)]
pub enum BlockKey {
    /// A block between two fusion trees.
    FusionTree(FusionTreePairKey),
    /// A block without fusion-tree labels.
    Plain,
}

/// What a [`BlockKey`] stands for.
pub enum Label {
    FusionTree(TreePair),
    Plain,
}

impl View for BlockKey {
    type V = Label;

    open spec fn view(&self) -> Label {
        match self {
            BlockKey::FusionTree(pair) => Label::FusionTree(pair@),
            BlockKey::Plain => Label::Plain,
        }
    }
}

impl BlockKey {
    /// Whether two keys are the same label.
    pub fn same(&self, other: &BlockKey) -> (same: bool)
        ensures
            same == (self@ == other@),
    {
        match (self, other) {
            (BlockKey::FusionTree(a), BlockKey::FusionTree(b)) => a.same(b),
            (BlockKey::Plain, BlockKey::Plain) => true,
            _ => false,
        }
    }
}

/// One block: a label and the strided range of the data buffer it covers.
#[derive(Clone, Debug, PartialEq, Eq)]
pub struct Block {
    pub key: BlockKey,
    pub shape: Vec<usize>,
    pub strides: Vec<usize>,
    pub offset: usize,
}

/// Distance of a block's last element from its origin, counted over the first
/// `axes` axes.
pub open spec fn reach(shape: Seq<usize>, strides: Seq<usize>, axes: int) -> int
    decreases axes,
{
    if axes <= 0 {
        0
    } else {
        reach(shape, strides, axes - 1) + (shape[axes - 1] - 1) * strides[axes - 1]
    }
}

/// A block is admitted to a buffer of `len` elements if it has no elements, or
/// if its number of elements fits and its last element lies in the buffer.
pub open spec fn admitted(
    shape: Seq<usize>,
    strides: Seq<usize>,
    offset: int,
    len: int,
) -> bool {
    &&& shape.len() == strides.len()
    &&& {
        ||| exists|axis: int| 0 <= axis < shape.len() && shape[axis] == 0
        ||| extent(shape) <= usize::MAX && offset + reach(shape, strides, shape.len() as int) < len
    }
}

impl Block {
    pub fn key(&self) -> (key: &BlockKey)
        ensures
            *key == self.key,
    {
        &self.key
    }

    pub fn shape(&self) -> (shape: &[usize])
        ensures
            shape@ == self.shape@,
    {
        self.shape.as_slice()
    }

    pub fn strides(&self) -> (strides: &[usize])
        ensures
            strides@ == self.strides@,
    {
        self.strides.as_slice()
    }

    pub fn offset(&self) -> (offset: usize)
        ensures
            offset == self.offset,
    {
        self.offset
    }

    /// Whether the block may stand in a buffer of `len` elements.
    pub fn fits(&self, len: usize) -> (fits: bool)
        ensures
            fits == admitted(self.shape@, self.strides@, self.offset as int, len as int),
    {
        if self.shape.len() != self.strides.len() {
            return false;
        }
        let mut axis: usize = 0;
        while axis < self.shape.len()
            invariant
                axis <= self.shape@.len(),
                self.shape@.len() == self.strides@.len(),
                forall|k: int| 0 <= k < axis ==> self.shape@[k] != 0,
            decreases self.shape.len() - axis,
        {
            if self.shape[axis] == 0 {
                return true;
            }
            axis += 1;
        }
        match crate::index::checked_extent(self.shape.as_slice()) {
            None => {
                proof {
                    lemma_positive_extent(self.shape@, self.shape@.len() as int);
                    let axes = choose|axes: int|
                        0 <= axes <= self.shape@.len() && #[trigger] leading_extent(
                            self.shape@,
                            axes,
                        )
                            > usize::MAX;
                    lemma_leading_extent_monotone(self.shape@, axes, self.shape@.len() as int);
                }
                return false;
            },
            Some(_) => {},
        }
        let mut last: usize = self.offset;
        axis = 0;
        while axis < self.shape.len()
            invariant
                axis <= self.shape@.len(),
                self.shape@.len() == self.strides@.len(),
                forall|k: int| 0 <= k < self.shape@.len() ==> self.shape@[k] != 0,
                last == self.offset + reach(self.shape@, self.strides@, axis as int),
            decreases self.shape.len() - axis,
        {
            let steps: usize = self.shape[axis] - 1;
            proof {
                lemma_reach_monotone(
                    self.shape@,
                    self.strides@,
                    axis + 1,
                    self.shape@.len() as int,
                );
            }
            match steps.checked_mul(self.strides[axis]) {
                None => {
                    return false;
                },
                Some(distance) => {
                    match last.checked_add(distance) {
                        None => {
                            return false;
                        },
                        Some(next) => {
                            last = next;
                        },
                    }
                },
            }
            axis += 1;
        }
        last < len
    }
}

/// More axes reach no less far.
pub proof fn lemma_reach_monotone(
    shape: Seq<usize>,
    strides: Seq<usize>,
    low: int,
    high: int,
)
    requires
        0 <= low <= high <= shape.len(),
        shape.len() == strides.len(),
        forall|k: int| 0 <= k < shape.len() ==> shape[k] != 0,
    ensures
        0 <= reach(shape, strides, low) <= reach(shape, strides, high),
    decreases high,
{
    if high > 0 {
        let d = shape[high - 1] - 1;
        let s = strides[high - 1] as int;
        assert(d * s >= 0) by (nonlinear_arith)
            requires
                d >= 0,
                s >= 0,
        ;
        if low < high {
            lemma_reach_monotone(shape, strides, low, high - 1);
        } else {
            lemma_reach_monotone(shape, strides, low - 1, high - 1);
        }
    }
}

/// Every element lies within the reach of its block.
pub proof fn lemma_address_within_reach(shape: Seq<usize>, strides: Seq<usize>, n: int, axes: int)
    requires
        0 <= axes <= shape.len(),
        shape.len() == strides.len(),
        0 <= n,
        extent(shape) > 0,
    ensures
        partial_address(shape, strides, n, axes) <= reach(shape, strides, axes),
    decreases axes,
{
    if axes > 0 {
        lemma_address_within_reach(shape, strides, n, axes - 1);
        lemma_leading_extent_monotone(shape, axes, shape.len() as int);
        lemma_coordinate_bounds(shape, n, axes - 1);
        let c = coordinate(shape, n, axes - 1);
        let d = shape[axes - 1] - 1;
        let s = strides[axes - 1] as int;
        assert(c * s <= d * s) by (nonlinear_arith)
            requires
                0 <= c <= d,
                s >= 0,
        ;
    }
}

/// Every element of an admitted block lies in the buffer.
pub proof fn lemma_admitted_fits(
    shape: Seq<usize>,
    strides: Seq<usize>,
    offset: int,
    len: int,
)
    requires
        admitted(shape, strides, offset, len),
    ensures
        block_fits(shape, strides, offset, len),
        extent(shape) <= usize::MAX,
{
    if extent(shape) > 0 {
        lemma_nonempty_dimensions(shape, shape.len() as int);
        assert forall|n: int| 0 <= n < extent(shape) implies offset + (#[trigger] address(
            shape,
            strides,
            n,
        )) < len by {
            lemma_address_within_reach(shape, strides, n, shape.len() as int);
        }
    }
}

/// The blocks of one data buffer.
#[derive(Clone, Debug, PartialEq, Eq)]
pub struct BlockStructure {
    blocks: Vec<Block>,
    required_len: usize,
}

impl BlockStructure {
    /// The blocks, in order.
    pub closed spec fn spec_blocks(self) -> Seq<Block> {
        self.blocks@
    }

    /// The length of the data buffer.
    pub closed spec fn spec_len(self) -> usize {
        self.required_len
    }

    /// Every block is admitted to the buffer.
    pub open spec fn wf(self) -> bool {
        forall|k: int|
            0 <= k < self.spec_blocks().len() ==> block_admitted(
                #[trigger] self.spec_blocks()[k],
                self.spec_len() as int,
            )
    }

    /// A structure of these blocks over a buffer of `required_len` elements,
    /// or `None` where a block does not lie in the buffer.
    pub fn new(blocks: Vec<Block>, required_len: usize) -> (structure: Option<BlockStructure>)
        ensures
            match structure {
                Some(structure) => {
                    &&& structure.wf()
                    &&& structure.spec_blocks() == blocks@
                    &&& structure.spec_len() == required_len
                },
                None => exists|k: int|
                    0 <= k < blocks@.len() && !block_admitted(
                        #[trigger] blocks@[k],
                        required_len as int,
                    ),
            },
    {
        let mut k: usize = 0;
        while k < blocks.len()
            invariant
                k <= blocks@.len(),
                forall|j: int|
                    0 <= j < k ==> block_admitted(#[trigger] blocks@[j], required_len as int),
            decreases blocks.len() - k,
        {
            if !blocks[k].fits(required_len) {
                assert(!block_admitted(blocks@[k as int], required_len as int));
                return None;
            }
            k += 1;
        }
        Some(BlockStructure { blocks, required_len })
    }

    pub fn block_count(&self) -> (count: usize)
        ensures
            count == self.spec_blocks().len(),
    {
        self.blocks.len()
    }

    pub fn block(&self, index: usize) -> (block: &Block)
        requires
            index < self.spec_blocks().len(),
        ensures
            *block == self.spec_blocks()[index as int],
    {
        &self.blocks[index]
    }

    pub fn required_len(&self) -> (len: usize)
        ensures
            len == self.spec_len(),
    {
        self.required_len
    }

    /// Position of the first block with the given label.
    pub fn find_block_index_by_key(&self, key: &BlockKey) -> (index: Option<usize>)
        ensures
            index == first_block(self.spec_blocks(), key@),
    {
        let mut k: usize = 0;
        while k < self.blocks.len()
            invariant
                k <= self.blocks@.len(),
                first_block(self.blocks@, key@) == first_block_from(self.blocks@, key@, k as int),
            decreases self.blocks.len() - k,
        {
            if self.blocks[k].key.same(key) {
                return Some(k);
            }
            k += 1;
        }
        None
    }
}

/// A block that a structure of this length takes.
pub open spec fn block_admitted(block: Block, len: int) -> bool {
    admitted(block.shape@, block.strides@, block.offset as int, len)
}

/// Position of the first block from `from` on with the given label.
pub open spec fn first_block_from(blocks: Seq<Block>, key: Label, from: int) -> Option<usize>
    decreases blocks.len() - from,
{
    if from >= blocks.len() || from < 0 {
        None
    } else if blocks[from].key@ == key {
        Some(from as usize)
    } else {
        first_block_from(blocks, key, from + 1)
    }
}

/// Position of the first block with the given label.
pub open spec fn first_block(blocks: Seq<Block>, key: Label) -> Option<usize> {
    first_block_from(blocks, key, 0)
}

} // verus!
