//! Sector labels and fusion-tree keys.

use vstd::prelude::*;

verus! {

/// Label of a simple sector.
#[derive(Clone, Copy, Debug, PartialEq, Eq, Structural, Hash, PartialOrd, Ord)]
pub struct SectorId {
    pub id: usize,
}

impl SectorId {
    pub fn new(id: usize) -> (sector: SectorId)
        ensures
            sector.id == id,
    {
        SectorId { id }
    }

    pub fn id(self) -> (id: usize)
        ensures
            id == self.id,
    {
        self.id
    }
}

/// One fusion tree: its uncoupled sectors with their duality flags, the inner
/// lines and vertex labels of the fusion, and the coupled sector at its root.
#[derive(Clone, Debug, PartialEq, Eq, Hash)]
pub struct FusionTreeKey {
    pub uncoupled: Vec<SectorId>,
    pub coupled: SectorId,
    pub is_dual: Vec<bool>,
    pub innerlines: Vec<SectorId>,
    pub vertices: Vec<usize>,
}

/// What a [`FusionTreeKey`] stands for.
pub struct Tree {
    pub uncoupled: Seq<SectorId>,
    pub coupled: SectorId,
    pub is_dual: Seq<bool>,
    pub innerlines: Seq<SectorId>,
    pub vertices: Seq<usize>,
}

impl View for FusionTreeKey {
    type V = Tree;

    open spec fn view(&self) -> Tree {
        Tree {
            uncoupled: self.uncoupled@,
            coupled: self.coupled,
            is_dual: self.is_dual@,
            innerlines: self.innerlines@,
            vertices: self.vertices@,
        }
    }
}

/// Lexicographic order of two sequences of numbers.
pub open spec fn lexicographic(a: Seq<int>, b: Seq<int>) -> bool
    decreases a.len(),
{
    if a.len() == 0 {
        b.len() > 0
    } else if b.len() == 0 {
        false
    } else if a[0] != b[0] {
        a[0] < b[0]
    } else {
        lexicographic(a.drop_first(), b.drop_first())
    }
}

/// Sectors as numbers.
pub open spec fn sector_numbers(sectors: Seq<SectorId>) -> Seq<int> {
    sectors.map_values(|sector: SectorId| sector.id as int)
}

/// Flags as numbers.
pub open spec fn flag_numbers(flags: Seq<bool>) -> Seq<int> {
    flags.map_values(
        |flag: bool|
            if flag {
                1int
            } else {
                0int
            },
    )
}

/// Labels as numbers.
pub open spec fn label_numbers(labels: Seq<usize>) -> Seq<int> {
    labels.map_values(|label: usize| label as int)
}

/// Strict order of trees: uncoupled sectors first, then the coupled sector,
/// the duality flags, the inner lines and the vertex labels.
pub open spec fn tree_less(a: Tree, b: Tree) -> bool {
    if a.uncoupled != b.uncoupled {
        lexicographic(sector_numbers(a.uncoupled), sector_numbers(b.uncoupled))
    } else if a.coupled != b.coupled {
        a.coupled.id < b.coupled.id
    } else if a.is_dual != b.is_dual {
        lexicographic(flag_numbers(a.is_dual), flag_numbers(b.is_dual))
    } else if a.innerlines != b.innerlines {
        lexicographic(sector_numbers(a.innerlines), sector_numbers(b.innerlines))
    } else {
        lexicographic(label_numbers(a.vertices), label_numbers(b.vertices))
    }
}

/// Whether two lists hold the same numbers.
pub(crate) fn same_numbers(a: &[usize], b: &[usize]) -> (same: bool)
    ensures
        same == (a@ == b@),
{
    if a.len() != b.len() {
        return false;
    }
    let mut k: usize = 0;
    while k < a.len()
        invariant
            k <= a@.len() == b@.len(),
            forall|j: int| 0 <= j < k ==> a@[j] == b@[j],
        decreases a.len() - k,
    {
        if a[k] != b[k] {
            return false;
        }
        k += 1;
    }
    assert(a@ =~= b@);
    true
}

/// Whether two lists hold the same sectors.
pub(crate) fn same_sectors(a: &[SectorId], b: &[SectorId]) -> (same: bool)
    ensures
        same == (a@ == b@),
{
    if a.len() != b.len() {
        return false;
    }
    let mut k: usize = 0;
    while k < a.len()
        invariant
            k <= a@.len() == b@.len(),
            forall|j: int| 0 <= j < k ==> a@[j] == b@[j],
        decreases a.len() - k,
    {
        if a[k].id != b[k].id {
            return false;
        }
        k += 1;
    }
    assert(a@ =~= b@);
    true
}

/// Whether two lists hold the same flags.
pub(crate) fn same_flags(a: &[bool], b: &[bool]) -> (same: bool)
    ensures
        same == (a@ == b@),
{
    if a.len() != b.len() {
        return false;
    }
    let mut k: usize = 0;
    while k < a.len()
        invariant
            k <= a@.len() == b@.len(),
            forall|j: int| 0 <= j < k ==> a@[j] == b@[j],
        decreases a.len() - k,
    {
        if a[k] != b[k] {
            return false;
        }
        k += 1;
    }
    assert(a@ =~= b@);
    true
}

/// Sequences that agree up to `k` compare as their rests do.
proof fn lemma_lexicographic_skip(a: Seq<int>, b: Seq<int>, k: int)
    requires
        0 <= k <= a.len(),
        k <= b.len(),
        forall|j: int| 0 <= j < k ==> a[j] == b[j],
    ensures
        lexicographic(a, b) == lexicographic(a.skip(k), b.skip(k)),
    decreases k,
{
    if k == 0 {
        assert(a.skip(0) =~= a);
        assert(b.skip(0) =~= b);
    } else {
        let c = a.drop_first();
        let d = b.drop_first();
        assert forall|j: int| 0 <= j < k - 1 implies c[j] == d[j] by {
            assert(c[j] == a[j + 1]);
            assert(d[j] == b[j + 1]);
        }
        lemma_lexicographic_skip(c, d, k - 1);
        assert(c.skip(k - 1) =~= a.skip(k));
        assert(d.skip(k - 1) =~= b.skip(k));
    }
}

fn sectors_less(a: &[SectorId], b: &[SectorId]) -> (less: bool)
    ensures
        less == lexicographic(sector_numbers(a@), sector_numbers(b@)),
{
    let ghost x = sector_numbers(a@);
    let ghost y = sector_numbers(b@);
    let mut k: usize = 0;
    while k < a.len() && k < b.len()
        invariant
            k <= a@.len(),
            k <= b@.len(),
            x == sector_numbers(a@),
            y == sector_numbers(b@),
            forall|j: int| 0 <= j < k ==> x[j] == y[j],
        decreases a.len() - k,
    {
        if a[k].id != b[k].id {
            proof {
                lemma_lexicographic_skip(x, y, k as int);
                assert(x.skip(k as int)[0] == x[k as int]);
                assert(y.skip(k as int)[0] == y[k as int]);
            }
            return a[k].id < b[k].id;
        }
        k += 1;
    }
    proof {
        lemma_lexicographic_skip(x, y, k as int);
    }
    k == a.len() && k < b.len()
}

fn flags_less(a: &[bool], b: &[bool]) -> (less: bool)
    ensures
        less == lexicographic(flag_numbers(a@), flag_numbers(b@)),
{
    let ghost x = flag_numbers(a@);
    let ghost y = flag_numbers(b@);
    let mut k: usize = 0;
    while k < a.len() && k < b.len()
        invariant
            k <= a@.len(),
            k <= b@.len(),
            x == flag_numbers(a@),
            y == flag_numbers(b@),
            forall|j: int| 0 <= j < k ==> x[j] == y[j],
        decreases a.len() - k,
    {
        if a[k] != b[k] {
            proof {
                lemma_lexicographic_skip(x, y, k as int);
                assert(x.skip(k as int)[0] == x[k as int]);
                assert(y.skip(k as int)[0] == y[k as int]);
            }
            return b[k];
        }
        k += 1;
    }
    proof {
        lemma_lexicographic_skip(x, y, k as int);
    }
    k == a.len() && k < b.len()
}

fn labels_less(a: &[usize], b: &[usize]) -> (less: bool)
    ensures
        less == lexicographic(label_numbers(a@), label_numbers(b@)),
{
    let ghost x = label_numbers(a@);
    let ghost y = label_numbers(b@);
    let mut k: usize = 0;
    while k < a.len() && k < b.len()
        invariant
            k <= a@.len(),
            k <= b@.len(),
            x == label_numbers(a@),
            y == label_numbers(b@),
            forall|j: int| 0 <= j < k ==> x[j] == y[j],
        decreases a.len() - k,
    {
        if a[k] != b[k] {
            proof {
                lemma_lexicographic_skip(x, y, k as int);
                assert(x.skip(k as int)[0] == x[k as int]);
                assert(y.skip(k as int)[0] == y[k as int]);
            }
            return a[k] < b[k];
        }
        k += 1;
    }
    proof {
        lemma_lexicographic_skip(x, y, k as int);
    }
    k == a.len() && k < b.len()
}

impl FusionTreeKey {
    pub fn coupled(&self) -> (sector: SectorId)
        ensures
            sector == self@.coupled,
    {
        self.coupled
    }

    pub fn uncoupled(&self) -> (sectors: &[SectorId])
        ensures
            sectors@ == self@.uncoupled,
    {
        self.uncoupled.as_slice()
    }

    /// Whether two keys label the same tree.
    pub fn same(&self, other: &FusionTreeKey) -> (same: bool)
        ensures
            same == (self@ == other@),
    {
        self.coupled.id == other.coupled.id && same_sectors(&self.uncoupled, &other.uncoupled)
            && same_flags(&self.is_dual, &other.is_dual) && same_sectors(
            &self.innerlines,
            &other.innerlines,
        ) && same_numbers(&self.vertices, &other.vertices)
    }

    /// Whether this tree comes strictly before `other`.
    pub fn precedes(&self, other: &FusionTreeKey) -> (less: bool)
        ensures
            less == tree_less(self@, other@),
    {
        if !same_sectors(&self.uncoupled, &other.uncoupled) {
            sectors_less(&self.uncoupled, &other.uncoupled)
        } else if self.coupled.id != other.coupled.id {
            self.coupled.id < other.coupled.id
        } else if !same_flags(&self.is_dual, &other.is_dual) {
            flags_less(&self.is_dual, &other.is_dual)
        } else if !same_sectors(&self.innerlines, &other.innerlines) {
            sectors_less(&self.innerlines, &other.innerlines)
        } else {
            labels_less(&self.vertices, &other.vertices)
        }
    }

    /// A key that labels the same tree.
    pub fn duplicate(&self) -> (key: FusionTreeKey)
        ensures
            key@ == self@,
    {
        FusionTreeKey {
            uncoupled: vstd::slice::slice_to_vec(self.uncoupled.as_slice()),
            coupled: self.coupled,
            is_dual: vstd::slice::slice_to_vec(self.is_dual.as_slice()),
            innerlines: vstd::slice::slice_to_vec(self.innerlines.as_slice()),
            vertices: vstd::slice::slice_to_vec(self.vertices.as_slice()),
        }
    }
}

/// The codomain and domain trees of one block.
#[derive(Clone, Debug, PartialEq, Eq, Hash)]
pub struct FusionTreePairKey {
    pub codomain: FusionTreeKey,
    pub domain: FusionTreeKey,
}

/// What a [`FusionTreePairKey`] stands for.
pub struct TreePair {
    pub codomain: Tree,
    pub domain: Tree,
}

impl View for FusionTreePairKey {
    type V = TreePair;

    open spec fn view(&self) -> TreePair {
        TreePair { codomain: self.codomain@, domain: self.domain@ }
    }
}

impl FusionTreePairKey {
    pub fn codomain_tree(&self) -> (tree: &FusionTreeKey)
        ensures
            tree@ == self@.codomain,
    {
        &self.codomain
    }

    pub fn domain_tree(&self) -> (tree: &FusionTreeKey)
        ensures
            tree@ == self@.domain,
    {
        &self.domain
    }

    /// Whether two keys label the same pair of trees.
    pub fn same(&self, other: &FusionTreePairKey) -> (same: bool)
        ensures
            same == (self@ == other@),
    {
        self.codomain.same(&other.codomain) && self.domain.same(&other.domain)
    }
}

} // verus!
