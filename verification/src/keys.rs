//! Validation of the keys of a factor against the trees of the source.

use vstd::prelude::*;

use crate::canonical::{pair_labels, side_tree};
use crate::error::OperationError;
use crate::factor::SectorRank;
use crate::geometry::{
    geometries, lemma_sector_position, lemma_span_position, sector_position, sectors_distinct,
    Geometry, SectorGeometry,
};
use crate::layout::FactorSide;
use crate::placement::{missing_tree, placement_of, PlacementIndex};
use crate::publish::scope;
use crate::sector::{FusionTreeKey, FusionTreePairKey, SectorId, Tree, TreePair};
use crate::structure::{Block, BlockKey, BlockStructure, Label};

verus! {

/// The trees of one side of all matrices that keep bond states, from tree
/// `tree` of matrix `matrix` on, each with the sector of its matrix.
pub open spec fn kept_trees(
    geometries: Seq<Geometry>,
    ranks: Seq<SectorRank>,
    side: FactorSide,
    matrix: int,
    tree: int,
) -> Seq<(SectorId, Tree)>
    decreases geometries.len() - matrix, geometries[matrix].trees(side).len() - tree,
{
    if matrix < 0 || tree < 0 || matrix >= geometries.len() || matrix >= ranks.len() {
        Seq::empty()
    } else if ranks[matrix].kept == 0 || tree >= geometries[matrix].trees(side).len() {
        kept_trees(geometries, ranks, side, matrix + 1, 0)
    } else {
        seq![(geometries[matrix].sector, geometries[matrix].trees(side)[tree].tree)] + kept_trees(
            geometries,
            ranks,
            side,
            matrix,
            tree + 1,
        )
    }
}

/// The matrix in which the next tree of a side stands, from tree `tree` of
/// matrix `matrix` on; past the last one where no tree is left.
pub open spec fn next_matrix(
    geometries: Seq<Geometry>,
    ranks: Seq<SectorRank>,
    side: FactorSide,
    matrix: int,
    tree: int,
) -> int
    decreases geometries.len() - matrix,
{
    if matrix < 0 || matrix >= geometries.len() || matrix >= ranks.len() {
        matrix
    } else if ranks[matrix].kept == 0 || tree >= geometries[matrix].trees(side).len() {
        next_matrix(geometries, ranks, side, matrix + 1, 0)
    } else {
        matrix
    }
}

/// The sectors of the matrices ascend strictly.
pub open spec fn sectors_ascend(geometries: Seq<Geometry>) -> bool {
    forall|k: int|
        0 <= k < geometries.len() - 1 ==> (#[trigger] geometries[k]).sector.id < geometries[k
            + 1].sector.id
}

/// The matrices from `low` to `high`, and no further than either list, have the
/// sectors of their ranks.
pub open spec fn sectors_match(
    geometries: Seq<Geometry>,
    ranks: Seq<SectorRank>,
    low: int,
    high: int,
) -> bool {
    forall|k: int|
        low <= k <= high && 0 <= k < geometries.len() && k < ranks.len() ==> (
        #[trigger] geometries[k]).sector == ranks[k].sector
}

/// Matrices and ranks are one strictly ascending list of sectors.
pub open spec fn sectors_canonical(geometries: Seq<Geometry>, ranks: Seq<SectorRank>) -> bool {
    &&& geometries.len() == ranks.len()
    &&& sectors_ascend(geometries)
    &&& sectors_match(geometries, ranks, 0, geometries.len() as int)
}

/// Walks the trees that a factor in canonical order has.
pub struct FactorTreeCursor<'a, M> {
    pub(crate) matricizations: &'a [M],
    pub(crate) ranks: &'a [SectorRank],
    pub(crate) matrix: usize,
    pub(crate) tree: usize,
    pub(crate) valid: bool,
}

impl<'a, M: SectorGeometry> FactorTreeCursor<'a, M> {
    /// The matrices that are walked over.
    pub open(crate) spec fn geometries(self) -> Seq<Geometry> {
        geometries(self.matricizations@)
    }

    /// The bond ranks that belong to the matrices.
    pub open(crate) spec fn ranks(self) -> Seq<SectorRank> {
        self.ranks@
    }

    /// The matrices are as many as the ranks, their sectors ascend, and those
    /// that the walk has come to have the sectors of their ranks.
    pub open(crate) spec fn valid(self) -> bool {
        self.valid
    }

    /// The matrix at which the walk stands.
    pub open(crate) spec fn at(self) -> int {
        self.matrix as int
    }

    /// The matrix in which the next tree of a side stands.
    pub open(crate) spec fn upcoming(self, side: FactorSide) -> int {
        next_matrix(
            geometries(self.matricizations@),
            self.ranks@,
            side,
            self.matrix as int,
            self.tree as int,
        )
    }

    /// The trees that are still to come on a side.
    pub open(crate) spec fn remaining(self, side: FactorSide) -> Seq<(SectorId, Tree)> {
        kept_trees(
            geometries(self.matricizations@),
            self.ranks@,
            side,
            self.matrix as int,
            self.tree as int,
        )
    }

    /// One step after `before`: to the matrix of the next tree, behind that
    /// tree, with the sectors of all matrices on the way compared.
    pub open(crate) spec fn stepped(self, before: Self, side: FactorSide) -> bool {
        &&& self.geometries() == before.geometries()
        &&& self.ranks() == before.ranks()
        &&& self.at() == before.upcoming(side)
        &&& self.valid() == (before.valid() && sectors_match(
            before.geometries(),
            before.ranks(),
            before.at(),
            before.upcoming(side),
        ))
        &&& self.remaining(side) == if before.remaining(side).len() > 0 {
            before.remaining(side).drop_first()
        } else {
            before.remaining(side)
        }
    }

    /// A walk from the first tree on. The sectors of the ranks are compared when
    /// the walk comes to them.
    pub fn new(matricizations: &'a [M], ranks: &'a [SectorRank]) -> (cursor: Self)
        ensures
            cursor.geometries() == geometries(matricizations@),
            cursor.ranks() == ranks@,
            cursor.at() == 0,
            cursor.valid() == (matricizations@.len() == ranks@.len() && sectors_ascend(
                geometries(matricizations@),
            )),
            forall|side: FactorSide| #[trigger]
                cursor.remaining(side) == kept_trees(
                    geometries(matricizations@),
                    ranks@,
                    side,
                    0,
                    0,
                ),
            forall|side: FactorSide| #[trigger]
                cursor.upcoming(side) == next_matrix(
                    geometries(matricizations@),
                    ranks@,
                    side,
                    0,
                    0,
                ),
    {
        let ghost all = geometries(matricizations@);
        let mut ascend: bool = true;
        let mut k: usize = 1;
        while ascend && k < matricizations.len()
            invariant
                all == geometries(matricizations@),
                1 <= k,
                k <= matricizations@.len() || k == 1,
                ascend ==> forall|j: int|
                    0 <= j < k - 1 && j + 1 < all.len() ==> (#[trigger] all[j]).sector.id < all[j
                        + 1].sector.id,
                !ascend ==> !sectors_ascend(all),
            decreases matricizations.len() - k,
        {
            let before = matricizations[k - 1].sector();
            let sector = matricizations[k].sector();
            assert(all[k - 1].sector == before);
            assert(all[k as int].sector == sector);
            if before.id() >= sector.id() {
                ascend = false;
            }
            k += 1;
        }
        let valid = matricizations.len() == ranks.len() && ascend;
        FactorTreeCursor { matricizations, ranks, matrix: 0, tree: 0, valid }
    }

    /// The next tree of a side with its sector.
    pub fn next(&mut self, side: FactorSide) -> (next: Option<(SectorId, &'a FusionTreeKey)>)
        ensures
            final(self).stepped(*old(self), side),
            match next {
                Some((sector, tree)) => {
                    &&& old(self).remaining(side).len() > 0
                    &&& old(self).remaining(side)[0] == (sector, tree@)
                },
                None => old(self).remaining(side).len() == 0,
            },
    {
        let ghost all = geometries(self.matricizations@);
        while self.matrix < self.matricizations.len() && self.matrix < self.ranks.len()
            invariant
                all == geometries(self.matricizations@),
                self.matricizations == old(self).matricizations,
                self.ranks == old(self).ranks,
                old(self).matrix <= self.matrix,
                self.matrix == old(self).matrix || (self.matrix <= self.matricizations@.len()
                    && self.matrix <= self.ranks@.len()),
                self.remaining(side) == old(self).remaining(side),
                self.upcoming(side) == old(self).upcoming(side),
                self.valid == (old(self).valid && sectors_match(
                    all,
                    self.ranks@,
                    old(self).matrix as int,
                    self.matrix - 1,
                )),
            decreases self.matricizations.len() - self.matrix,
        {
            let matrix: &'a M = &self.matricizations[self.matrix];
            let sector = matrix.sector();
            assert(all[self.matrix as int] == matrix.geometry());
            self.valid = self.valid && sector == self.ranks[self.matrix].sector;
            if self.ranks[self.matrix].kept != 0 && self.tree < matrix.tree_count(side) {
                if let Some(extent) = matrix.tree(side, self.tree) {
                    proof {
                        let rest = kept_trees(
                            all,
                            self.ranks@,
                            side,
                            self.matrix as int,
                            self.tree + 1,
                        );
                        assert(self.remaining(side) == seq![(sector, extent@.tree)] + rest);
                        assert((seq![(sector, extent@.tree)] + rest).drop_first() =~= rest);
                    }
                    self.tree = self.tree + 1;
                    return Some((sector, &extent.tree));
                }
            }
            self.matrix = self.matrix + 1;
            self.tree = 0;
        }
        None
    }

    /// Whether a key is the next tree of a valid walk. An invalid walk stays
    /// where it is; a valid one goes on behind the tree, whether the key matched
    /// or not.
    pub fn matches(&mut self, side: FactorSide, key: &FusionTreeKey) -> (aligned: bool)
        ensures
            aligned == (old(self).valid() && old(self).remaining(side).len() > 0 && old(
                self,
            ).remaining(side)[0] == (key@.coupled, key@)),
            if old(self).valid() {
                final(self).stepped(*old(self), side)
            } else {
                *final(self) == *old(self)
            },
    {
        if !self.valid {
            return false;
        }
        match self.next(side) {
            Some((sector, tree)) => key.coupled() == sector && key.same(tree),
            None => false,
        }
    }

    /// Whether a walk has come to its end and was valid all the way.
    pub fn is_exhausted(&mut self, side: FactorSide) -> (exhausted: bool)
        ensures
            exhausted == (old(self).remaining(side).len() == 0 && final(self).valid()),
            final(self).stepped(*old(self), side),
    {
        self.next(side).is_none() && self.valid
    }
}

/// The next tree stands no earlier than the walk, and past the end of a list
/// only where no tree is left.
proof fn lemma_next_matrix(
    geometries: Seq<Geometry>,
    ranks: Seq<SectorRank>,
    side: FactorSide,
    matrix: int,
    tree: int,
)
    requires
        0 <= matrix,
        0 <= tree,
    ensures
        next_matrix(geometries, ranks, side, matrix, tree) >= matrix,
        kept_trees(geometries, ranks, side, matrix, tree).len() == 0 ==> {
            ||| next_matrix(geometries, ranks, side, matrix, tree) >= geometries.len()
            ||| next_matrix(geometries, ranks, side, matrix, tree) >= ranks.len()
        },
    decreases geometries.len() - matrix,
{
    if matrix < geometries.len() && matrix < ranks.len() && (ranks[matrix].kept == 0 || tree
        >= geometries[matrix].trees(side).len()) {
        lemma_next_matrix(geometries, ranks, side, matrix + 1, 0);
    }
}

/// Every tree of a walk has its placement in the source.
pub proof fn lemma_kept_trees_placed(
    geometries: Seq<Geometry>,
    ranks: Seq<SectorRank>,
    side: FactorSide,
    matrix: int,
    tree: int,
)
    requires
        sectors_distinct(geometries),
        0 <= matrix,
        0 <= tree,
    ensures
        forall|k: int|
            0 <= k < kept_trees(geometries, ranks, side, matrix, tree).len() ==> {
                let entry = #[trigger] kept_trees(geometries, ranks, side, matrix, tree)[k];
                &&& sector_position(geometries, entry.0, 0) is Some
                &&& placement_of(geometries, entry.0, side, entry.1) is Some
            },
    decreases geometries.len() - matrix, geometries[matrix].trees(side).len() - tree,
{
    if matrix < geometries.len() && matrix < ranks.len() {
        if ranks[matrix].kept == 0 || tree >= geometries[matrix].trees(side).len() {
            lemma_kept_trees_placed(geometries, ranks, side, matrix + 1, 0);
        } else {
            lemma_kept_trees_placed(geometries, ranks, side, matrix, tree + 1);
            let rest = kept_trees(geometries, ranks, side, matrix, tree + 1);
            let all = kept_trees(geometries, ranks, side, matrix, tree);
            let sector = geometries[matrix].sector;
            let trees = geometries[matrix].trees(side);
            lemma_sector_position(geometries, sector, 0);
            let at = sector_position(geometries, sector, 0)->0;
            assert(at == matrix) by {
                if at < matrix {
                    assert(geometries[at].sector != geometries[matrix].sector);
                }
            }
            lemma_span_position(trees, trees[tree].tree, 0);
            assert forall|k: int| 0 <= k < all.len() implies {
                let entry = #[trigger] all[k];
                &&& sector_position(geometries, entry.0, 0) is Some
                &&& placement_of(geometries, entry.0, side, entry.1) is Some
            } by {
                if k > 0 {
                    assert(all[k] == rest[k - 1]);
                }
            }
        }
    }
}

/// Why a key's tree on one side cannot be placed in the source, if so.
pub open spec fn key_refusal(
    geometries: Seq<Geometry>,
    side: FactorSide,
    pair: TreePair,
) -> Option<OperationError> {
    let tree = side_tree(pair, side);
    if sector_position(geometries, tree.coupled, 0) is None {
        Some(scope("factor tree references a coupled sector absent from the source tensor"))
    } else if placement_of(geometries, tree.coupled, side, tree) is None {
        Some(missing_tree(side))
    } else {
        None
    }
}

/// The refusal of the first key from `from` on that cannot be placed.
pub open spec fn first_refusal(
    geometries: Seq<Geometry>,
    side: FactorSide,
    keys: Seq<TreePair>,
    from: int,
) -> Option<OperationError>
    decreases keys.len() - from,
{
    if from < 0 || from >= keys.len() {
        None
    } else {
        match key_refusal(geometries, side, keys[from]) {
            Some(error) => Some(error),
            None => first_refusal(geometries, side, keys, from + 1),
        }
    }
}

/// The trees of one side of a list of keys, each with its coupled sector.
pub open spec fn key_trees(keys: Seq<TreePair>, side: FactorSide) -> Seq<(SectorId, Tree)> {
    keys.map_values(|pair: TreePair| (side_tree(pair, side).coupled, side_tree(pair, side)))
}

/// The keys are, in order, exactly the trees of the matrices that keep bond
/// states, and the sectors of the matrices are in canonical order.
pub open spec fn keys_ordered(
    geometries: Seq<Geometry>,
    ranks: Seq<SectorRank>,
    side: FactorSide,
    keys: Seq<TreePair>,
) -> bool {
    &&& sectors_canonical(geometries, ranks)
    &&& key_trees(keys, side) == kept_trees(geometries, ranks, side, 0, 0)
}

/// Checks that every key has its place in the source, and tells whether the
/// keys follow the trees of the source in order. Without bond ranks there is no
/// order to follow, and only the places are checked.
pub fn validate_generic_factor_keys<M: SectorGeometry>(
    keys: &[FusionTreePairKey],
    side: FactorSide,
    matricizations: &[M],
    ranks: Option<&[SectorRank]>,
) -> (result: Result<bool, OperationError>)
    requires
        sectors_distinct(geometries(matricizations@)),
    ensures
        result == match first_refusal(
            geometries(matricizations@),
            side,
            pair_labels(keys@),
            0,
        ) {
            Some(error) => Err::<bool, OperationError>(error),
            None => Ok(
                match ranks {
                    Some(ranks) => keys_ordered(
                        geometries(matricizations@),
                        ranks@,
                        side,
                        pair_labels(keys@),
                    ),
                    None => true,
                },
            ),
        },
{
    match ranks {
        Some(ranks) => validate_ordered_factor_keys(keys, side, matricizations, ranks),
        None => validate_factor_keys(keys, side, matricizations),
    }
}

/// Whether one key has its place in the source.
fn validate_factor_key<M: SectorGeometry>(
    key: &FusionTreePairKey,
    side: FactorSide,
    index: &PlacementIndex<'_, M>,
) -> (result: Result<(), OperationError>)
    requires
        index.wf(),
    ensures
        result == match key_refusal(index.geometries(), side, key@) {
            Some(error) => Err::<(), OperationError>(error),
            None => Ok(()),
        },
{
    let tree = match side {
        FactorSide::Left => key.codomain_tree(),
        FactorSide::Right => key.domain_tree(),
    };
    let sector = tree.coupled();
    if !index.has_sector(sector) {
        return Err(
            crate::error::unsupported(
                "factor tree references a coupled sector absent from the source tensor",
            ),
        );
    }
    match index.placement(sector, side, tree) {
        Ok(_) => Ok(()),
        Err(error) => Err(error),
    }
}

fn validate_factor_keys<M: SectorGeometry>(
    keys: &[FusionTreePairKey],
    side: FactorSide,
    matricizations: &[M],
) -> (result: Result<bool, OperationError>)
    requires
        sectors_distinct(geometries(matricizations@)),
    ensures
        result == match first_refusal(
            geometries(matricizations@),
            side,
            pair_labels(keys@),
            0,
        ) {
            Some(error) => Err::<bool, OperationError>(error),
            None => Ok(true),
        },
{
    let ghost all = geometries(matricizations@);
    let ghost labels = pair_labels(keys@);
    let index = PlacementIndex::new(matricizations);
    let mut k: usize = 0;
    while k < keys.len()
        invariant
            k <= keys@.len(),
            all == geometries(matricizations@),
            labels == pair_labels(keys@),
            index.wf(),
            index.geometries() == all,
            first_refusal(all, side, labels, 0) == first_refusal(all, side, labels, k as int),
        decreases keys.len() - k,
    {
        assert(labels[k as int] == keys@[k as int]@);
        match validate_factor_key(&keys[k], side, &index) {
            Ok(()) => {},
            Err(error) => {
                return Err(error);
            },
        }
        k += 1;
    }
    Ok(true)
}

fn validate_ordered_factor_keys<M: SectorGeometry>(
    keys: &[FusionTreePairKey],
    side: FactorSide,
    matricizations: &[M],
    ranks: &[SectorRank],
) -> (result: Result<bool, OperationError>)
    requires
        sectors_distinct(geometries(matricizations@)),
    ensures
        result == match first_refusal(
            geometries(matricizations@),
            side,
            pair_labels(keys@),
            0,
        ) {
            Some(error) => Err::<bool, OperationError>(error),
            None => Ok(
                keys_ordered(
                    geometries(matricizations@),
                    ranks@,
                    side,
                    pair_labels(keys@),
                ),
            ),
        },
{
    let ghost all = geometries(matricizations@);
    let ghost labels = pair_labels(keys@);
    let ghost trees = key_trees(labels, side);
    let ghost expected = kept_trees(all, ranks@, side, 0, 0);
    let mut cursor = FactorTreeCursor::new(matricizations, ranks);
    let mut index: Option<PlacementIndex<'_, M>> = None;
    let mut ordered: bool = true;
    let mut k: usize = 0;
    proof {
        lemma_kept_trees_placed(all, ranks@, side, 0, 0);
        assert(expected.skip(0) =~= expected);
        assert(trees.take(0) =~= expected.take(0));
    }
    while k < keys.len()
        invariant
            k <= keys@.len(),
            all == geometries(matricizations@),
            labels == pair_labels(keys@),
            trees == key_trees(labels, side),
            expected == kept_trees(all, ranks@, side, 0, 0),
            forall|j: int|
                0 <= j < expected.len() ==> {
                    let entry = #[trigger] expected[j];
                    &&& sector_position(all, entry.0, 0) is Some
                    &&& placement_of(all, entry.0, side, entry.1) is Some
                },
            sectors_distinct(all),
            index is Some ==> index->0.wf() && index->0.geometries() == all,
            cursor.geometries() == all,
            cursor.ranks() == ranks@,
            0 <= cursor.at(),
            cursor.valid() ==> all.len() == ranks@.len() && sectors_ascend(all)
                && sectors_match(all, ranks@, 0, cursor.at() - 1),
            !cursor.valid() ==> !sectors_canonical(all, ranks@),
            first_refusal(all, side, labels, 0) == first_refusal(all, side, labels, k as int),
            ordered ==> k <= expected.len() && trees.take(k as int) == expected.take(k as int)
                && cursor.remaining(side) == expected.skip(k as int),
            !ordered ==> !keys_ordered(all, ranks@, side, labels),
        decreases keys.len() - k,
    {
        let key = &keys[k];
        let tree = match side {
            FactorSide::Left => key.codomain_tree(),
            FactorSide::Right => key.domain_tree(),
        };
        proof {
            assert(labels[k as int] == key@);
            assert(trees[k as int] == (tree@.coupled, tree@));
        }
        let aligned = ordered && cursor.matches(side, tree);
        if aligned {
            proof {
                assert(expected.skip(k as int)[0] == expected[k as int]);
                assert(expected.skip(k as int).drop_first() =~= expected.skip(k + 1));
                assert(trees.take(k + 1) =~= trees.take(k as int).push(trees[k as int]));
                assert(expected.take(k + 1) =~= expected.take(k as int).push(
                    expected[k as int],
                ));
                assert(key_refusal(all, side, labels[k as int]) is None);
            }
        } else {
            proof {
                if ordered && keys_ordered(all, ranks@, side, labels) {
                    assert(trees[k as int] == expected[k as int]);
                    assert(expected.skip(k as int)[0] == expected[k as int]);
                }
            }
            ordered = false;
            if index.is_none() {
                index = Some(PlacementIndex::new(matricizations));
            }
            if let Some(index) = &index {
                match validate_factor_key(key, side, index) {
                    Ok(()) => {},
                    Err(error) => {
                        return Err(error);
                    },
                }
            }
        }
        k += 1;
    }
    let ghost last = cursor;
    let exhausted = cursor.is_exhausted(side);
    proof {
        lemma_next_matrix(all, ranks@, side, last.matrix as int, last.tree as int);
        assert(trees.len() == keys@.len());
        if ordered {
            assert(trees.take(k as int) =~= trees);
            if exhausted {
                assert(expected.skip(k as int).len() == 0);
                assert(expected.take(k as int) =~= expected);
            }
        }
    }
    Ok(ordered && exhausted)
}

/// The fusion-tree labels among the blocks, in order.
pub open spec fn tree_labels(blocks: Seq<Block>, count: int) -> Seq<TreePair>
    decreases count,
{
    if count <= 0 {
        Seq::empty()
    } else {
        match blocks[count - 1].key@ {
            Label::FusionTree(pair) => tree_labels(blocks, count - 1).push(pair),
            Label::Plain => tree_labels(blocks, count - 1),
        }
    }
}

/// The keys of a structure's fusion-tree blocks, in order.
pub fn staged_fusion_tree_keys(structure: &BlockStructure) -> (keys: Vec<FusionTreePairKey>)
    ensures
        pair_labels(keys@) == tree_labels(
            structure.spec_blocks(),
            structure.spec_blocks().len() as int,
        ),
{
    let ghost blocks = structure.spec_blocks();
    let mut keys: Vec<FusionTreePairKey> = Vec::new();
    let count: usize = structure.block_count();
    let mut k: usize = 0;
    assert(pair_labels(keys@) =~= Seq::empty());
    while k < count
        invariant
            k <= count == blocks.len(),
            blocks == structure.spec_blocks(),
            pair_labels(keys@) == tree_labels(blocks, k as int),
        decreases count - k,
    {
        if let BlockKey::FusionTree(key) = &structure.block(k).key {
            let ghost before = keys@;
            let copy = FusionTreePairKey {
                codomain: key.codomain.duplicate(),
                domain: key.domain.duplicate(),
            };
            keys.push(copy);
            assert(pair_labels(keys@) =~= pair_labels(before).push(key@));
        }
        k += 1;
    }
    keys
}

} // verus!
