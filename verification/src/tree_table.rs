//! A hashed table of the trees of sector matrices.
//!
//! A tree is found through a number that is computed from its labels. Trees of
//! the same number stand in one chain, in which they are compared.

use vstd::prelude::*;

use crate::geometry::{
    geometries, lemma_span_position, span_position, Geometry, SectorGeometry,
};
use crate::layout::FactorSide;
use crate::sector::{FusionTreeKey, SectorId, Tree};
use crate::sector_map::NumberMap;

verus! {

/// One more label in a number.
pub open spec fn mixed(number: usize, label: usize) -> usize {
    number.wrapping_mul(31).wrapping_add(label)
}

/// The first `count` sectors in a number.
pub open spec fn sectors_mixed(number: usize, sectors: Seq<SectorId>, count: int) -> usize
    decreases count,
{
    if count <= 0 {
        number
    } else {
        mixed(sectors_mixed(number, sectors, count - 1), sectors[count - 1].id)
    }
}

/// The first `count` labels in a number.
pub open spec fn labels_mixed(number: usize, labels: Seq<usize>, count: int) -> usize
    decreases count,
{
    if count <= 0 {
        number
    } else {
        mixed(labels_mixed(number, labels, count - 1), labels[count - 1])
    }
}

/// The number of a tree on a side of a matrix.
pub open spec fn tree_number(tree: Tree, matrix: usize, side: FactorSide) -> usize {
    let start = mixed(
        matrix,
        match side {
            FactorSide::Left => 0,
            FactorSide::Right => 1,
        },
    );
    let uncoupled = sectors_mixed(start, tree.uncoupled, tree.uncoupled.len() as int);
    let inner = sectors_mixed(uncoupled, tree.innerlines, tree.innerlines.len() as int);
    labels_mixed(inner, tree.vertices, tree.vertices.len() as int)
}

fn mix_sectors(number: usize, sectors: &[SectorId]) -> (mix: usize)
    ensures
        mix == sectors_mixed(number, sectors@, sectors@.len() as int),
{
    let mut mix: usize = number;
    let mut k: usize = 0;
    while k < sectors.len()
        invariant
            k <= sectors@.len(),
            mix == sectors_mixed(number, sectors@, k as int),
        decreases sectors.len() - k,
    {
        mix = mix.wrapping_mul(31).wrapping_add(sectors[k].id);
        k += 1;
    }
    mix
}

fn mix_labels(number: usize, labels: &[usize]) -> (mix: usize)
    ensures
        mix == labels_mixed(number, labels@, labels@.len() as int),
{
    let mut mix: usize = number;
    let mut k: usize = 0;
    while k < labels.len()
        invariant
            k <= labels@.len(),
            mix == labels_mixed(number, labels@, k as int),
        decreases labels.len() - k,
    {
        mix = mix.wrapping_mul(31).wrapping_add(labels[k]);
        k += 1;
    }
    mix
}

fn number_of(tree: &FusionTreeKey, matrix: usize, side: FactorSide) -> (number: usize)
    ensures
        number == tree_number(tree@, matrix, side),
{
    let label: usize = match side {
        FactorSide::Left => 0,
        FactorSide::Right => 1,
    };
    let start: usize = matrix.wrapping_mul(31).wrapping_add(label);
    let uncoupled: usize = mix_sectors(start, tree.uncoupled.as_slice());
    let inner: usize = mix_sectors(uncoupled, tree.innerlines.as_slice());
    mix_labels(inner, tree.vertices.as_slice())
}

/// Where a tree stands, and the entry before it in its chain.
#[derive(Clone, Copy, Debug, PartialEq, Eq)]
pub struct TreeEntry {
    pub matrix: usize,
    pub side: FactorSide,
    pub tree: usize,
    pub earlier: Option<usize>,
}

/// The chain that starts at an entry comes to another one.
pub open spec fn reaches(entries: Seq<TreeEntry>, from: Option<usize>, target: int) -> bool
    decreases (
        if from is Some {
            from->0 + 1
        } else {
            0
        }
    ),
{
    match from {
        None => false,
        Some(at) => at < entries.len() && (at == target || (match entries[at as int].earlier {
            None => false,
            Some(earlier) => earlier < at && reaches(entries, Some(earlier), target),
        })),
    }
}

proof fn lemma_reaches_push(
    entries: Seq<TreeEntry>,
    entry: TreeEntry,
    from: Option<usize>,
    target: int,
)
    requires
        reaches(entries, from, target),
    ensures
        reaches(entries.push(entry), from, target),
    decreases (
        if from is Some {
            from->0 + 1
        } else {
            0
        }
    ),
{
    let at = from->0;
    assert(entries.push(entry)[at as int] == entries[at as int]);
    if at != target {
        lemma_reaches_push(entries, entry, entries[at as int].earlier, target);
    }
}

/// The tree of an entry.
pub open spec fn entry_tree(geometries: Seq<Geometry>, entry: TreeEntry) -> Tree {
    geometries[entry.matrix as int].trees(entry.side)[entry.tree as int].tree
}

/// Every tree of every matrix stands in the table.
#[verifier::opaque]
pub open spec fn names_all_trees(table: TreeTable, geometries: Seq<Geometry>) -> bool {
    forall|m: int, side: FactorSide, k: int|
        0 <= m < geometries.len() && 0 <= k < geometries[m].trees(side).len()
            ==> #[trigger] table.names(m, side, k)
}

/// The trees of sector matrices, by their numbers.
pub struct TreeTable {
    heads: NumberMap,
    entries: Vec<TreeEntry>,
}

impl TreeTable {
    /// What stands in the table.
    pub closed spec fn entries(self) -> Seq<TreeEntry> {
        self.entries@
    }

    /// Every entry names a tree and stands in the chain of its number, and the
    /// trees of one side were entered in their order.
    pub closed spec fn wf(self, geometries: Seq<Geometry>) -> bool {
        let entries = self.entries@;
        &&& forall|t: int|
            0 <= t < entries.len() ==> {
                let entry = #[trigger] entries[t];
                &&& entry.matrix < geometries.len()
                &&& entry.tree < geometries[entry.matrix as int].trees(entry.side).len()
                &&& entry.earlier is Some ==> entry.earlier->0 < t
                &&& {
                    let number = tree_number(
                        entry_tree(geometries, entry),
                        entry.matrix,
                        entry.side,
                    );
                    self.heads@.contains_key(number) && reaches(
                        entries,
                        Some(self.heads@[number]),
                        t,
                    )
                }
            }
        &&& forall|number: usize| #[trigger]
            self.heads@.contains_key(number) ==> self.heads@[number] < entries.len()
        &&& forall|s: int, t: int|
            0 <= s < t < entries.len() && (#[trigger] entries[s]).matrix == (
            #[trigger] entries[t]).matrix && entries[s].side == entries[t].side
                ==> entries[s].tree < entries[t].tree
    }

    /// Some entry names this tree.
    pub open spec fn names(self, matrix: int, side: FactorSide, tree: int) -> bool {
        exists|t: int|
            0 <= t < self.entries().len() && (#[trigger] self.entries()[t]).matrix == matrix
                && self.entries()[t].side == side && self.entries()[t].tree == tree
    }

    /// A table without trees.
    pub fn new() -> (table: TreeTable)
        ensures
            table.entries() == Seq::<TreeEntry>::empty(),
            forall|geometries: Seq<Geometry>| #[trigger] table.wf(geometries),
    {
        let table = TreeTable { heads: NumberMap::new(), entries: Vec::new() };
        assert(table.entries@ =~= Seq::<TreeEntry>::empty());
        table
    }

    /// Enters the next tree of a side of a matrix.
    pub(crate) fn enter(
        &mut self,
        matrix: usize,
        side: FactorSide,
        tree: usize,
        key: &FusionTreeKey,
        Ghost(all): Ghost<Seq<Geometry>>,
    )
        requires
            old(self).wf(all),
            matrix < all.len(),
            tree < all[matrix as int].trees(side).len(),
            all[matrix as int].trees(side)[tree as int].tree == key@,
            forall|t: int|
                0 <= t < old(self).entries().len() && (#[trigger] old(self).entries()[t]).matrix
                    == matrix && old(self).entries()[t].side == side ==> old(self).entries()[t].tree
                    < tree,
        ensures
            final(self).wf(all),
            final(self).entries().len() == old(self).entries().len() + 1,
            final(self).entries().drop_last() == old(self).entries(),
            final(self).entries().last().matrix == matrix,
            final(self).entries().last().side == side,
            final(self).entries().last().tree == tree,
    {
        let number: usize = number_of(key, matrix, side);
        let earlier = self.heads.get(number);
        let at: usize = self.entries.len();
        let entry = TreeEntry { matrix, side, tree, earlier };
        let ghost before = self.entries@;
        let ghost heads = self.heads@;
        self.entries.push(entry);
        self.heads.insert(number, at);
        proof {
            let entries = self.entries@;
            assert(entries == before.push(entry));
            assert forall|t: int| 0 <= t < entries.len() implies {
                let entry = #[trigger] entries[t];
                let number = tree_number(entry_tree(all, entry), entry.matrix, entry.side);
                self.heads@.contains_key(number) && reaches(entries, Some(self.heads@[number]), t)
            } by {
                if t < before.len() {
                    assert(entries[t] == before[t]);
                    let other = tree_number(
                        entry_tree(all, before[t]),
                        before[t].matrix,
                        before[t].side,
                    );
                    lemma_reaches_push(before, entry, Some(heads[other]), t);
                }
            }
            assert forall|s: int, t: int|
                0 <= s < t < entries.len() && (#[trigger] entries[s]).matrix == (
                #[trigger] entries[t]).matrix && entries[s].side == entries[t].side implies
                entries[s].tree < entries[t].tree by {
                assert(entries[s] == before[s]);
                if t < before.len() {
                    assert(entries[t] == before[t]);
                }
            }
            assert(self.entries().drop_last() =~= before);
        }
    }

    /// The first place of a tree on a side of a matrix, all of whose trees stand
    /// in the table.
    pub(crate) fn find<M: SectorGeometry>(
        &self,
        matrices: &[M],
        matrix: usize,
        side: FactorSide,
        key: &FusionTreeKey,
    ) -> (place: Option<usize>)
        requires
            self.wf(geometries(matrices@)),
            matrix < matrices@.len(),
            forall|k: int|
                0 <= k < geometries(matrices@)[matrix as int].trees(side).len()
                    ==> #[trigger] self.names(matrix as int, side, k),
        ensures
            match span_position(geometries(matrices@)[matrix as int].trees(side), key@, 0) {
                Some(k) => place is Some && place->0 == k,
                None => place is None,
            },
    {
        let ghost all = geometries(matrices@);
        let ghost trees = all[matrix as int].trees(side);
        let ghost entries = self.entries@;
        let mut next = self.heads.get(number_of(key, matrix, side));
        let mut found: Option<usize> = None;
        proof {
            assert forall|t: int|
                0 <= t < entries.len() && (#[trigger] entries[t]).matrix == matrix
                    && entries[t].side == side && trees[entries[t].tree as int].tree
                    == key@ implies reaches(entries, next, t) by {}
        }
        while next.is_some()
            invariant
                self.wf(all),
                all == geometries(matrices@),
                entries == self.entries@,
                matrix < matrices@.len(),
                trees == all[matrix as int].trees(side),
                next is Some ==> next->0 < entries.len(),
                found is Some ==> {
                    &&& found->0 < entries.len()
                    &&& entries[found->0 as int].matrix == matrix
                    &&& entries[found->0 as int].side == side
                    &&& trees[entries[found->0 as int].tree as int].tree == key@
                    &&& next is Some ==> next->0 < found->0
                },
                forall|t: int|
                    0 <= t < entries.len() && (#[trigger] entries[t]).matrix == matrix
                        && entries[t].side == side && trees[entries[t].tree as int].tree == key@
                        ==> reaches(entries, next, t) || (found is Some && found->0 <= t),
            decreases (
                if next is Some {
                    next->0 + 1
                } else {
                    0
                }
            ),
        {
            let at: usize = match next {
                Some(at) => at,
                None => 0,
            };
            let entry = self.entries[at];
            assert(entries[at as int] == entry);
            if entry.matrix == matrix {
                let same_side = match (entry.side, side) {
                    (FactorSide::Left, FactorSide::Left) => true,
                    (FactorSide::Right, FactorSide::Right) => true,
                    _ => false,
                };
                if same_side {
                    assert(all[matrix as int] == matrices@[matrix as int].geometry());
                    if let Some(extent) = matrices[matrix].tree(side, entry.tree) {
                        if extent.tree.same(key) {
                            found = Some(at);
                        }
                    }
                }
            }
            next = entry.earlier;
        }
        proof {
            lemma_span_position(trees, key@, 0);
            let first = span_position(trees, key@, 0);
            if let Some(k) = first {
                assert(self.names(matrix as int, side, k));
                let t = choose|t: int|
                    0 <= t < self.entries().len() && (#[trigger] self.entries()[t]).matrix
                        == matrix && self.entries()[t].side == side && self.entries()[t].tree == k;
                assert(entries[t].matrix == matrix);
                let f = found->0 as int;
                if f < t {
                    assert(entries[f].tree < entries[t].tree);
                }
            } else if let Some(f) = found {
                assert(trees[entries[f as int].tree as int].tree == key@);
            }
        }
        match found {
            Some(at) => Some(self.entries[at].tree),
            None => None,
        }
    }

    /// Every entry names a tree.
    pub(crate) proof fn lemma_entries(self, all: Seq<Geometry>)
        requires
            self.wf(all),
        ensures
            forall|t: int|
                0 <= t < self.entries().len() ==> {
                    let entry = #[trigger] self.entries()[t];
                    &&& entry.matrix < all.len()
                    &&& entry.tree < all[entry.matrix as int].trees(entry.side).len()
                },
    {
    }

    /// The table stays as good when matrices get more trees at the end of their
    /// sides.
    pub(crate) proof fn lemma_grown(self, short: Seq<Geometry>, long: Seq<Geometry>)
        requires
            self.wf(short),
            short.len() <= long.len(),
            forall|m: int, side: FactorSide, k: int|
                #![trigger short[m].trees(side)[k]]
                0 <= m < short.len() && 0 <= k < short[m].trees(side).len() ==> {
                    &&& k < long[m].trees(side).len()
                    &&& long[m].trees(side)[k].tree == short[m].trees(side)[k].tree
                },
        ensures
            self.wf(long),
    {
        let entries = self.entries@;
        assert forall|t: int| 0 <= t < entries.len() implies {
            let entry = #[trigger] entries[t];
            &&& entry.matrix < long.len()
            &&& entry.tree < long[entry.matrix as int].trees(entry.side).len()
            &&& entry_tree(long, entry) == entry_tree(short, entry)
        } by {
            let entry = entries[t];
            assert(short[entry.matrix as int].trees(entry.side)[entry.tree as int].tree
                == entry_tree(short, entry));
        }
    }
}

} // verus!
