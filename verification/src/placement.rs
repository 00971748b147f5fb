//! Where the blocks of an output find their rows and columns in the source.

use vstd::prelude::*;

use crate::canonical::side_tree;
use crate::error::OperationError;
use crate::geometry::{
    geometries, lemma_sector_position, lemma_span_position, sector_position, sectors_distinct,
    span_position, Geometry, SectorGeometry, Span,
};
use crate::layout::{
    scatter_matrix_block, scatter_reads_fit, scatter_writes, side_extent, FactorSide,
};
use crate::matricize::indexes_sectors;
use crate::sector::{FusionTreeKey, SectorId, Tree};
use crate::sector_map::SectorMap;
use crate::structure::{
    block_admitted, lemma_admitted_fits, Block, BlockKey, BlockStructure, Label,
};
use crate::tree_table::{names_all_trees, TreeTable};
use crate::writes::{apply_writes, lemma_writes_concat, Write};

verus! {

/// The first span of a tree on a side of its sector's matrix.
pub open spec fn placement_of(
    geometries: Seq<Geometry>,
    sector: SectorId,
    side: FactorSide,
    tree: Tree,
) -> Option<Span> {
    match sector_position(geometries, sector, 0) {
        Some(at) => match span_position(geometries[at].trees(side), tree, 0) {
            Some(k) => Some(geometries[at].trees(side)[k]),
            None => None,
        },
        None => None,
    }
}

/// The refusal of a tree that the source does not have.
pub open spec fn missing_tree(side: FactorSide) -> OperationError {
    OperationError::UnsupportedTensorContractScope {
        message: match side {
            FactorSide::Left => "factor codomain tree absent from the source matricization",
            FactorSide::Right => "factor domain tree absent from the source matricization",
        },
    }
}

fn missing_tree_error(side: FactorSide) -> (error: OperationError)
    ensures
        error == missing_tree(side),
{
    OperationError::UnsupportedTensorContractScope {
        message: match side {
            FactorSide::Left => "factor codomain tree absent from the source matricization",
            FactorSide::Right => "factor domain tree absent from the source matricization",
        },
    }
}

/// Positions of the matrices by sector.
pub fn matricization_map<M: SectorGeometry>(matricizations: &[M]) -> (map: SectorMap)
    requires
        sectors_distinct(geometries(matricizations@)),
    ensures
        indexes_sectors(map@, geometries(matricizations@)),
{
    let ghost all = geometries(matricizations@);
    let mut map = SectorMap::new();
    let mut k: usize = 0;
    while k < matricizations.len()
        invariant
            k <= matricizations@.len(),
            all == geometries(matricizations@),
            sectors_distinct(all),
            forall|sector: SectorId| #[trigger]
                map@.contains_key(sector) <==> exists|j: int|
                    0 <= j < k && (#[trigger] all[j]).sector == sector,
            forall|j: int|
                0 <= j < k ==> map@.contains_key((#[trigger] all[j]).sector)
                    && map@[all[j].sector] == j,
        decreases matricizations.len() - k,
    {
        let ghost before = map@;
        let sector = matricizations[k].sector();
        map.insert(sector, k);
        proof {
            assert(all[k as int].sector == sector);
            assert forall|other: SectorId| #[trigger] map@.contains_key(other) <==> exists|j: int|
                0 <= j < k + 1 && (#[trigger] all[j]).sector == other by {
                if map@.contains_key(other) && other != sector {
                    assert(before.contains_key(other));
                    let j = choose|j: int| 0 <= j < k && (#[trigger] all[j]).sector == other;
                    assert(all[j].sector == other);
                }
            }
        }
        k += 1;
    }
    proof {
        assert forall|sector: SectorId|
            {
                &&& #[trigger] map@.contains_key(sector) <==> sector_position(all, sector, 0)
                    is Some
                &&& map@.contains_key(sector) ==> map@[sector] as int == sector_position(
                    all,
                    sector,
                    0,
                )->0
            } by {
            lemma_sector_position(all, sector, 0);
            if map@.contains_key(sector) {
                let j = choose|j: int|
                    0 <= j < all.len() && (#[trigger] all[j]).sector == sector;
                let p = sector_position(all, sector, 0)->0;
                if p < j {
                    assert(all[p].sector != all[j].sector);
                }
            }
            if sector_position(all, sector, 0) is Some {
                assert(all[sector_position(all, sector, 0)->0].sector == sector);
            }
        }
    }
    map
}

/// Enters all trees of all matrices.
fn tree_table<M: SectorGeometry>(matricizations: &[M]) -> (table: TreeTable)
    ensures
        table.wf(geometries(matricizations@)),
        names_all_trees(table, geometries(matricizations@)),
{
    let ghost all = geometries(matricizations@);
    let mut table = TreeTable::new();
    let mut matrix: usize = 0;
    while matrix < matricizations.len()
        invariant
            matrix <= matricizations@.len(),
            all == geometries(matricizations@),
            table.wf(all),
            forall|t: int|
                0 <= t < table.entries().len() ==> (#[trigger] table.entries()[t]).matrix < matrix,
            forall|m: int, side: FactorSide, k: int|
                0 <= m < matrix && 0 <= k < all[m].trees(side).len() ==> #[trigger] table.names(
                    m,
                    side,
                    k,
                ),
        decreases matricizations.len() - matrix,
    {
        let ghost start = table;
        enter_side(&mut table, matricizations, matrix, FactorSide::Left);
        let ghost middle = table;
        enter_side(&mut table, matricizations, matrix, FactorSide::Right);
        assert forall|m: int, side: FactorSide, k: int|
            0 <= m < matrix + 1 && 0 <= k < all[m].trees(side).len() implies #[trigger] table.names(
            m,
            side,
            k,
        ) by {
            if m < matrix {
                assert(start.names(m, side, k));
                assert(middle.names(m, side, k));
            } else {
                match side {
                    FactorSide::Left => {
                        assert(middle.names(m, side, k));
                    },
                    FactorSide::Right => {},
                }
            }
        }
        matrix += 1;
    }
    proof {
        reveal(names_all_trees);
    }
    table
}

/// Enters the trees of one side of a matrix.
fn enter_side<M: SectorGeometry>(
    table: &mut TreeTable,
    matricizations: &[M],
    matrix: usize,
    side: FactorSide,
)
    requires
        old(table).wf(geometries(matricizations@)),
        matrix < matricizations@.len(),
        forall|t: int|
            0 <= t < old(table).entries().len() ==> {
                ||| (#[trigger] old(table).entries()[t]).matrix < matrix
                ||| old(table).entries()[t].matrix == matrix && old(table).entries()[t].side != side
            },
    ensures
        final(table).wf(geometries(matricizations@)),
        forall|t: int|
            0 <= t < final(table).entries().len() ==> {
                ||| (#[trigger] final(table).entries()[t]).matrix < matrix
                ||| final(table).entries()[t].matrix == matrix && (final(table).entries()[t].side
                    == side || exists|s: int|
                    0 <= s < old(table).entries().len() && (
                    #[trigger] old(table).entries()[s]).side == final(table).entries()[t].side
                        && old(table).entries()[s].matrix == matrix)
            },
        forall|m: int, other: FactorSide, k: int| #[trigger]
            old(table).names(m, other, k) ==> final(table).names(m, other, k),
        forall|k: int|
            0 <= k < geometries(matricizations@)[matrix as int].trees(side).len()
                ==> #[trigger] final(table).names(matrix as int, side, k),
{
    let ghost all = geometries(matricizations@);
    let ghost start = table.entries();
    let count: usize = matricizations[matrix].tree_count(side);
    assert(all[matrix as int] == matricizations@[matrix as int].geometry());
    let mut k: usize = 0;
    while k < count
        invariant
            k <= count == all[matrix as int].trees(side).len(),
            matrix < matricizations@.len(),
            all == geometries(matricizations@),
            all[matrix as int] == matricizations@[matrix as int].geometry(),
            table.wf(all),
            table.entries().len() == start.len() + k,
            forall|t: int| 0 <= t < start.len() ==> #[trigger] table.entries()[t] == start[t],
            forall|t: int|
                start.len() <= t < table.entries().len() ==> {
                    &&& (#[trigger] table.entries()[t]).matrix == matrix
                    &&& table.entries()[t].side == side
                    &&& table.entries()[t].tree == t - start.len()
                },
            forall|t: int|
                0 <= t < start.len() ==> {
                    ||| (#[trigger] start[t]).matrix < matrix
                    ||| start[t].matrix == matrix && start[t].side != side
                },
        decreases count - k,
    {
        if let Some(extent) = matricizations[matrix].tree(side, k) {
            let ghost before = table.entries();
            assert forall|t: int|
                0 <= t < before.len() && (#[trigger] before[t]).matrix == matrix && before[t].side
                    == side implies before[t].tree < k by {
                if t < start.len() {
                    assert(before[t] == start[t]);
                }
            }
            table.enter(matrix, side, k, &extent.tree, Ghost(all));
            proof {
                let after = table.entries();
                assert forall|t: int| 0 <= t < before.len() implies #[trigger] after[t]
                    == before[t] by {
                    assert(after.drop_last()[t] == before[t]);
                }
                assert forall|t: int| 0 <= t < start.len() implies #[trigger] after[t]
                    == start[t] by {
                    assert(before[t] == start[t]);
                }
            }
        }
        k += 1;
    }
    proof {
        let after = table.entries();
        assert forall|j: int| 0 <= j < count implies #[trigger] table.names(
            matrix as int,
            side,
            j,
        ) by {
            assert(after[start.len() + j].tree == j);
        }
        assert forall|m: int, other: FactorSide, j: int| #[trigger]
            old(table).names(m, other, j) implies table.names(m, other, j) by {
            let t = choose|t: int|
                0 <= t < start.len() && (#[trigger] start[t]).matrix == m && start[t].side == other
                    && start[t].tree == j;
            assert(after[t] == start[t]);
        }
        assert forall|t: int| 0 <= t < after.len() implies {
            ||| (#[trigger] after[t]).matrix < matrix
            ||| after[t].matrix == matrix && (after[t].side == side || exists|s: int|
                0 <= s < start.len() && (#[trigger] start[s]).side == after[t].side
                    && start[s].matrix == matrix)
        } by {
            if t < start.len() {
                assert(after[t] == start[t]);
            }
        }
    }
}

/// First-match lookup of source trees by sector, side and tree: sectors and trees
/// are hashed once for all matrices of a publication.
pub struct PlacementIndex<'a, M> {
    pub(crate) matrices: &'a [M],
    pub(crate) by_sector: SectorMap,
    pub(crate) by_tree: TreeTable,
}

impl<'a, M: SectorGeometry> PlacementIndex<'a, M> {
    /// The geometries that the index looks up.
    pub open(crate) spec fn geometries(self) -> Seq<Geometry> {
        geometries(self.matrices@)
    }

    /// All sectors and trees of the geometries are indexed.
    pub open(crate) spec fn wf(self) -> bool {
        &&& indexes_sectors(self.by_sector@, geometries(self.matrices@))
        &&& self.by_tree.wf(geometries(self.matrices@))
        &&& names_all_trees(self.by_tree, geometries(self.matrices@))
    }

    /// Indexes the sectors and trees of all matrices.
    pub fn new(matricizations: &'a [M]) -> (index: Self)
        requires
            sectors_distinct(geometries(matricizations@)),
        ensures
            index.wf(),
            index.geometries() == geometries(matricizations@),
    {
        PlacementIndex {
            matrices: matricizations,
            by_sector: matricization_map(matricizations),
            by_tree: tree_table(matricizations),
        }
    }

    /// Whether a sector has a matrix.
    pub fn has_sector(&self, sector: SectorId) -> (has: bool)
        requires
            self.wf(),
        ensures
            has == (sector_position(self.geometries(), sector, 0) is Some),
    {
        self.by_sector.get(sector).is_some()
    }

    /// Offset and shape of a tree on a side of its sector's matrix.
    pub fn placement(&self, sector: SectorId, side: FactorSide, tree: &FusionTreeKey) -> (result:
        Result<(usize, &'a [usize]), OperationError>)
        requires
            self.wf(),
        ensures
            match placement_of(self.geometries(), sector, side, tree@) {
                Some(span) => match result {
                    Ok((offset, shape)) => offset == span.offset && shape@ == span.shape,
                    Err(_) => false,
                },
                None => result == Err::<(usize, &'a [usize]), OperationError>(missing_tree(side)),
            },
    {
        let ghost all = self.geometries();
        let at: usize = match self.by_sector.get(sector) {
            Some(at) => at,
            None => {
                return Err(missing_tree_error(side));
            },
        };
        proof {
            lemma_sector_position(all, sector, 0);
            assert(all[at as int] == self.matrices@[at as int].geometry());
            lemma_span_position(all[at as int].trees(side), tree@, 0);
            reveal(names_all_trees);
        }
        let matrix: &'a M = &self.matrices[at];
        match self.by_tree.find(self.matrices, at, side, tree) {
            Some(place) => match matrix.tree(side, place) {
                Some(extent) => Ok((extent.offset, extent.shape())),
                None => Err(missing_tree_error(side)),
            },
            None => Err(missing_tree_error(side)),
        }
    }
}

/// The coupled sector of a block's tree on one side.
pub open spec fn block_sector(block: Block, side: FactorSide) -> Option<SectorId> {
    match block.key@ {
        Label::FusionTree(pair) => Some(side_tree(pair, side).coupled),
        Label::Plain => None,
    }
}

/// Indices of those of the first `count` blocks that belong to a sector, in
/// ascending order.
pub open spec fn sector_blocks(
    blocks: Seq<Block>,
    side: FactorSide,
    sector: SectorId,
    count: int,
) -> Seq<usize>
    decreases count,
{
    if count <= 0 {
        Seq::empty()
    } else {
        let before = sector_blocks(blocks, side, sector, count - 1);
        if block_sector(blocks[count - 1], side) == Some(sector) {
            before.push((count - 1) as usize)
        } else {
            before
        }
    }
}

/// Blocks of an output grouped by the coupled sector of one side's tree, in the
/// order of the structure within a sector.
pub struct SectorBlockGroups {
    by_sector: SectorMap,
    groups: Vec<Vec<usize>>,
    nothing: Vec<usize>,
    source: Ghost<Seq<Block>>,
    side: Ghost<FactorSide>,
}

impl SectorBlockGroups {
    /// The blocks that were grouped.
    pub closed spec fn source(self) -> Seq<Block> {
        self.source@
    }

    /// The side whose trees name the sectors.
    pub closed spec fn side(self) -> FactorSide {
        self.side@
    }

    /// Every sector has its group.
    pub closed spec fn wf(self) -> bool {
        self.groups(self.source@, self.side@, self.source@.len() as int)
    }

    /// The groups are those of the first `count` blocks.
    spec fn groups(
        self,
        blocks: Seq<Block>,
        side: FactorSide,
        count: int,
    ) -> bool {
        &&& self.nothing@ == Seq::<usize>::empty()
        &&& forall|sector: SectorId| #[trigger]
            self.by_sector@.contains_key(sector) ==> {
                &&& self.by_sector@[sector] < self.groups@.len()
                &&& self.groups@[self.by_sector@[sector] as int]@ == sector_blocks(
                    blocks,
                    side,
                    sector,
                    count,
                )
            }
        &&& forall|sector: SectorId|
            !(#[trigger] self.by_sector@.contains_key(sector)) ==> sector_blocks(
                blocks,
                side,
                sector,
                count,
            ) == Seq::<usize>::empty()
        &&& forall|a: SectorId, b: SectorId|
            a != b && #[trigger] self.by_sector@.contains_key(a)
                && #[trigger] self.by_sector@.contains_key(b) ==> self.by_sector@[a]
                != self.by_sector@[b]
    }

    /// Groups all blocks of a structure.
    pub fn new(structure: &BlockStructure, side: FactorSide) -> (groups: Self)
        ensures
            groups.wf(),
            groups.source() == structure.spec_blocks(),
            groups.side() == side,
    {
        let ghost blocks = structure.spec_blocks();
        let mut result = SectorBlockGroups {
            by_sector: SectorMap::new(),
            groups: Vec::new(),
            nothing: Vec::new(),
            source: Ghost(blocks),
            side: Ghost(side),
        };
        let count: usize = structure.block_count();
        let mut index: usize = 0;
        while index < count
            invariant
                index <= count == blocks.len(),
                blocks == structure.spec_blocks(),
                result.source@ == blocks,
                result.side@ == side,
                result.groups(blocks, side, index as int),
            decreases count - index,
        {
            let block = structure.block(index);
            if let BlockKey::FusionTree(key) = &block.key {
                let sector = match side {
                    FactorSide::Left => key.codomain_tree().coupled(),
                    FactorSide::Right => key.domain_tree().coupled(),
                };
                result.add(sector, index, Ghost(blocks), Ghost(side));
            } else {
                proof {
                    assert forall|sector: SectorId| #[trigger]
                        sector_blocks(blocks, side, sector, index + 1) == sector_blocks(
                            blocks,
                            side,
                            sector,
                            index as int,
                        ) by {}
                }
            }
            index += 1;
        }
        result
    }

    fn add(
        &mut self,
        sector: SectorId,
        index: usize,
        Ghost(blocks): Ghost<Seq<Block>>,
        Ghost(side): Ghost<FactorSide>,
    )
        requires
            old(self).groups(blocks, side, index as int),
            index < blocks.len(),
            block_sector(blocks[index as int], side) == Some(sector),
        ensures
            final(self).groups(blocks, side, index + 1),
            final(self).source == old(self).source,
            final(self).side == old(self).side,
    {
        let at: usize = match self.by_sector.get(sector) {
            Some(at) => at,
            None => {
                let at: usize = self.groups.len();
                self.groups.push(Vec::new());
                self.by_sector.insert(sector, at);
                at
            },
        };
        let ghost opened = self.groups@;
        self.groups[at].push(index);
        proof {
            assert forall|other: SectorId| #[trigger]
                self.by_sector@.contains_key(other) implies {
                &&& self.by_sector@[other] < self.groups@.len()
                &&& self.groups@[self.by_sector@[other] as int]@ == sector_blocks(
                    blocks,
                    side,
                    other,
                    index + 1,
                )
            } by {
                if other != sector {
                    assert(old(self).by_sector@.contains_key(other));
                    assert(self.by_sector@[other] != at) by {
                        if old(self).by_sector@.contains_key(sector) {
                        }
                    }
                    assert(self.groups@[self.by_sector@[other] as int]
                        == opened[self.by_sector@[other] as int]);
                } else {
                    assert(opened[at as int]@ == sector_blocks(
                        blocks,
                        side,
                        sector,
                        index as int,
                    )) by {
                        if old(self).by_sector@.contains_key(sector) {
                        } else {
                            assert(opened[at as int]@ =~= Seq::<usize>::empty());
                        }
                    }
                }
            }
            assert forall|other: SectorId|
                !(#[trigger] self.by_sector@.contains_key(other)) implies sector_blocks(
                blocks,
                side,
                other,
                index + 1,
            ) == Seq::<usize>::empty() by {
                assert(!old(self).by_sector@.contains_key(other));
            }
            assert forall|a: SectorId, b: SectorId|
                a != b && #[trigger] self.by_sector@.contains_key(a)
                    && #[trigger] self.by_sector@.contains_key(b) implies self.by_sector@[a]
                != self.by_sector@[b] by {
                if a != sector {
                    assert(old(self).by_sector@.contains_key(a));
                }
                if b != sector {
                    assert(old(self).by_sector@.contains_key(b));
                }
            }
        }
    }

    /// Indices of the blocks of a sector.
    pub fn blocks(&self, sector: SectorId) -> (indices: &[usize])
        requires
            self.wf(),
        ensures
            indices@ == sector_blocks(
                self.source(),
                self.side(),
                sector,
                self.source().len() as int,
            ),
    {
        match self.by_sector.get(sector) {
            Some(at) => self.groups[at].as_slice(),
            None => self.nothing.as_slice(),
        }
    }
}

/// The block axis that walks the bond of a factor.
pub open spec fn bond_axis(block: Block, side: FactorSide) -> int {
    match side {
        FactorSide::Left => block.shape@.len() - 1,
        FactorSide::Right => 0,
    }
}

/// The writes that fill a block from the factor of its sector.
pub open spec fn block_scatter<D>(
    block: Block,
    side: FactorSide,
    factor: Seq<D>,
    leading: int,
    side_offset: int,
) -> Seq<Write<D>> {
    scatter_writes(
        block.shape@,
        block.strides@,
        block.offset as int,
        bond_axis(block, side),
        side,
        factor,
        leading,
        side_offset,
    )
}

/// Every element of the block is read inside a factor of `len` elements.
pub open spec fn block_reads_fit(
    block: Block,
    side: FactorSide,
    leading: int,
    side_offset: int,
    len: int,
) -> bool {
    &&& side == FactorSide::Left ==> block.shape@.len() > 0
    &&& block.shape@.len() > 0 ==> side_offset + side_extent(
        block.shape@,
        bond_axis(block, side),
    ) <= usize::MAX
    &&& scatter_reads_fit(
        block.shape@,
        bond_axis(block, side),
        side,
        leading,
        side_offset,
        len,
    )
}

/// What a scatter over several blocks has written, and the error that ended it
/// before its last block, if one did.
pub struct Scatter<D> {
    pub writes: Seq<Write<D>>,
    pub error: Option<OperationError>,
}

/// The scatter of one sector's factor over the first `count` of its blocks.
pub open spec fn sector_scatter<D>(
    blocks: Seq<Block>,
    indices: Seq<usize>,
    geometries: Seq<Geometry>,
    sector: SectorId,
    side: FactorSide,
    factor: Seq<D>,
    leading: int,
    count: int,
) -> Scatter<D>
    decreases count,
{
    if count <= 0 {
        Scatter { writes: Seq::empty(), error: None }
    } else {
        let before = sector_scatter(
            blocks,
            indices,
            geometries,
            sector,
            side,
            factor,
            leading,
            count - 1,
        );
        let block = blocks[indices[count - 1] as int];
        match block.key@ {
            Label::FusionTree(pair) => if before.error is Some {
                before
            } else {
                match placement_of(geometries, sector, side, side_tree(pair, side)) {
                    Some(span) => Scatter {
                        writes: before.writes + block_scatter(
                            block,
                            side,
                            factor,
                            leading,
                            span.offset as int,
                        ),
                        error: None,
                    },
                    None => Scatter { writes: before.writes, error: Some(missing_tree(side)) },
                }
            },
            Label::Plain => before,
        }
    }
}

/// The source has the tree of the block.
pub open spec fn block_placed(
    block: Block,
    geometries: Seq<Geometry>,
    sector: SectorId,
    side: FactorSide,
) -> bool {
    match block.key@ {
        Label::FusionTree(pair) => placement_of(
            geometries,
            sector,
            side,
            side_tree(pair, side),
        ) is Some,
        Label::Plain => true,
    }
}

/// The source has the trees of the first `count` blocks.
pub open spec fn blocks_placed(
    blocks: Seq<Block>,
    indices: Seq<usize>,
    geometries: Seq<Geometry>,
    sector: SectorId,
    side: FactorSide,
    count: int,
) -> bool {
    forall|k: int|
        0 <= k < count ==> block_placed(
            blocks[#[trigger] indices[k] as int],
            geometries,
            sector,
            side,
        )
}

/// The source has the trees of all blocks of a sector.
pub open spec fn sector_placed(
    blocks: Seq<Block>,
    geometries: Seq<Geometry>,
    sector: SectorId,
    side: FactorSide,
) -> bool {
    let indices = sector_blocks(blocks, side, sector, blocks.len() as int);
    blocks_placed(blocks, indices, geometries, sector, side, indices.len() as int)
}

/// A scatter fails exactly where the source lacks the tree of a block.
pub proof fn lemma_scatter_placed<D>(
    blocks: Seq<Block>,
    indices: Seq<usize>,
    geometries: Seq<Geometry>,
    sector: SectorId,
    side: FactorSide,
    factor: Seq<D>,
    leading: int,
    count: int,
)
    ensures
        sector_scatter(
            blocks,
            indices,
            geometries,
            sector,
            side,
            factor,
            leading,
            count,
        ).error is None <==> blocks_placed(blocks, indices, geometries, sector, side, count),
    decreases count,
{
    if count > 0 {
        lemma_scatter_placed(
            blocks,
            indices,
            geometries,
            sector,
            side,
            factor,
            leading,
            count - 1,
        );
        let last = blocks[indices[count - 1] as int];
        if blocks_placed(blocks, indices, geometries, sector, side, count - 1) && block_placed(
            last,
            geometries,
            sector,
            side,
        ) {
            assert(blocks_placed(blocks, indices, geometries, sector, side, count));
        }
    }
}

/// Every block of the sector, up to the first whose tree the source lacks, is
/// read inside the factor.
pub open spec fn sector_reads_fit(
    blocks: Seq<Block>,
    indices: Seq<usize>,
    geometries: Seq<Geometry>,
    sector: SectorId,
    side: FactorSide,
    leading: int,
    len: int,
) -> bool {
    forall|k: int|
        0 <= k < indices.len() && blocks_placed(
            blocks,
            indices,
            geometries,
            sector,
            side,
            k,
        ) ==> placed_reads_fit(
            blocks[#[trigger] indices[k] as int],
            geometries,
            sector,
            side,
            leading,
            len,
        )
}

/// One block is filled from inside the factor of its sector.
pub open spec fn placed_reads_fit(
    block: Block,
    geometries: Seq<Geometry>,
    sector: SectorId,
    side: FactorSide,
    leading: int,
    len: int,
) -> bool {
    match block.key@ {
        Label::FusionTree(pair) => match placement_of(
            geometries,
            sector,
            side,
            side_tree(pair, side),
        ) {
            Some(span) => block_reads_fit(block, side, leading, span.offset as int, len),
            None => true,
        },
        Label::Plain => true,
    }
}

/// Every entry of a group is the index of a block.
pub proof fn lemma_sector_blocks(
    blocks: Seq<Block>,
    side: FactorSide,
    sector: SectorId,
    count: int,
)
    requires
        0 <= count <= blocks.len(),
        blocks.len() <= usize::MAX,
    ensures
        forall|k: int|
            0 <= k < sector_blocks(blocks, side, sector, count).len() ==> (
            #[trigger] sector_blocks(blocks, side, sector, count)[k]) < count && block_sector(
                blocks[sector_blocks(blocks, side, sector, count)[k] as int],
                side,
            ) == Some(sector),
    decreases count,
{
    if count > 0 {
        lemma_sector_blocks(blocks, side, sector, count - 1);
    }
}

/// Copies one block's region of a factor into the output.
pub(crate) fn scatter_block<D: Copy>(
    data: &mut [D],
    block: &Block,
    side: FactorSide,
    factor: &[D],
    factor_rows: usize,
    side_offset: usize,
)
    requires
        block_admitted(*block, old(data)@.len() as int),
        block_reads_fit(
            *block,
            side,
            factor_rows as int,
            side_offset as int,
            factor@.len() as int,
        ),
    ensures
        final(data)@.len() == old(data)@.len(),
        final(data)@ == apply_writes(
            old(data)@,
            block_scatter(*block, side, factor@, factor_rows as int, side_offset as int),
        ),
{
    proof {
        lemma_admitted_fits(
            block.shape@,
            block.strides@,
            block.offset as int,
            data@.len() as int,
        );
    }
    let axis: usize = match side {
        FactorSide::Left => block.shape.len() - 1,
        FactorSide::Right => 0,
    };
    scatter_matrix_block(
        data,
        block.shape(),
        block.strides(),
        block.offset,
        axis,
        side,
        factor,
        factor_rows,
        side_offset,
    );
}

/// Scatters one sector's factor over the blocks of its sector.
pub fn scatter_sector_blocks<D: Copy, M: SectorGeometry>(
    structure: &BlockStructure,
    data: &mut [D],
    sector: SectorId,
    index: &PlacementIndex<'_, M>,
    groups: &SectorBlockGroups,
    side: FactorSide,
    factor: &[D],
    factor_rows: usize,
) -> (result: Result<(), OperationError>)
    requires
        structure.wf(),
        old(data)@.len() == structure.spec_len(),
        index.wf(),
        groups.wf(),
        groups.source() == structure.spec_blocks(),
        groups.side() == side,
        sector_reads_fit(
            structure.spec_blocks(),
            sector_blocks(
                structure.spec_blocks(),
                side,
                sector,
                structure.spec_blocks().len() as int,
            ),
            index.geometries(),
            sector,
            side,
            factor_rows as int,
            factor@.len() as int,
        ),
    ensures
        final(data)@.len() == old(data)@.len(),
        ({
            let indices = sector_blocks(
                structure.spec_blocks(),
                side,
                sector,
                structure.spec_blocks().len() as int,
            );
            let scatter = sector_scatter(
                structure.spec_blocks(),
                indices,
                index.geometries(),
                sector,
                side,
                factor@,
                factor_rows as int,
                indices.len() as int,
            );
            &&& final(data)@ == apply_writes(old(data)@, scatter.writes)
            &&& result == match scatter.error {
                Some(error) => Err::<(), OperationError>(error),
                None => Ok(()),
            }
        }),
{
    let ghost blocks = structure.spec_blocks();
    let block_count: usize = structure.block_count();
    let indices = groups.blocks(sector);
    let ghost all = index.geometries();
    proof {
        lemma_sector_blocks(blocks, side, sector, blocks.len() as int);
    }
    let mut k: usize = 0;
    while k < indices.len()
        invariant
            k <= indices@.len(),
            blocks == structure.spec_blocks(),
            block_count == blocks.len(),
            all == index.geometries(),
            structure.wf(),
            index.wf(),
            data@.len() == old(data)@.len() == structure.spec_len(),
            indices@ == sector_blocks(blocks, side, sector, blocks.len() as int),
            forall|j: int| 0 <= j < indices@.len() ==> (#[trigger] indices@[j]) < blocks.len(),
            sector_reads_fit(
                blocks,
                indices@,
                all,
                sector,
                side,
                factor_rows as int,
                factor@.len() as int,
            ),
            sector_scatter(
                blocks,
                indices@,
                all,
                sector,
                side,
                factor@,
                factor_rows as int,
                k as int,
            ).error is None,
            data@ == apply_writes(
                old(data)@,
                sector_scatter(
                    blocks,
                    indices@,
                    all,
                    sector,
                    side,
                    factor@,
                    factor_rows as int,
                    k as int,
                ).writes,
            ),
        decreases indices.len() - k,
    {
        let ghost before = sector_scatter(
            blocks,
            indices@,
            all,
            sector,
            side,
            factor@,
            factor_rows as int,
            k as int,
        );
        let at: usize = indices[k];
        let block = structure.block(at);
        assert(block_admitted(blocks[at as int], structure.spec_len() as int));
        proof {
            lemma_scatter_placed(
                blocks,
                indices@,
                all,
                sector,
                side,
                factor@,
                factor_rows as int,
                k as int,
            );
        }
        assert(placed_reads_fit(
            blocks[indices@[k as int] as int],
            all,
            sector,
            side,
            factor_rows as int,
            factor@.len() as int,
        ));
        if let BlockKey::FusionTree(key) = &block.key {
            let tree = match side {
                FactorSide::Left => key.codomain_tree(),
                FactorSide::Right => key.domain_tree(),
            };
            match index.placement(sector, side, tree) {
                Ok((side_offset, _)) => {
                    scatter_block(data, block, side, factor, factor_rows, side_offset);
                    proof {
                        lemma_writes_concat(
                            old(data)@,
                            before.writes,
                            block_scatter(
                                *block,
                                side,
                                factor@,
                                factor_rows as int,
                                side_offset as int,
                            ),
                        );
                    }
                },
                Err(error) => {
                    proof {
                        lemma_scatter_stops(
                            blocks,
                            indices@,
                            all,
                            sector,
                            side,
                            factor@,
                            factor_rows as int,
                            k + 1,
                            indices@.len() as int,
                        );
                    }
                    return Err(error);
                },
            }
        }
        k += 1;
    }
    Ok(())
}

/// Nothing is written after an error.
proof fn lemma_scatter_stops<D>(
    blocks: Seq<Block>,
    indices: Seq<usize>,
    geometries: Seq<Geometry>,
    sector: SectorId,
    side: FactorSide,
    factor: Seq<D>,
    leading: int,
    low: int,
    high: int,
)
    requires
        0 <= low <= high,
        sector_scatter(blocks, indices, geometries, sector, side, factor, leading, low).error
            is Some,
    ensures
        sector_scatter(blocks, indices, geometries, sector, side, factor, leading, high)
            == sector_scatter(blocks, indices, geometries, sector, side, factor, leading, low),
    decreases high - low,
{
    if low < high {
        lemma_scatter_stops(
            blocks,
            indices,
            geometries,
            sector,
            side,
            factor,
            leading,
            low,
            high - 1,
        );
    }
}

} // verus!
