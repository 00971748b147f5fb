//! How fusion trees stack into the rows and columns of coupled-sector matrices.

use vstd::prelude::*;

use crate::error::OperationError;
use crate::index::{extent, extent_fits};
use crate::layout::FactorSide;
use crate::sector::{FusionTreeKey, SectorId, Tree};

verus! {

/// The range of one tree on a side of a sector matrix: it starts at `offset`
/// and enumerates `shape`, the first axis fastest.
#[derive(Clone, Debug, PartialEq, Eq)]
pub struct TreeExtent {
    pub tree: FusionTreeKey,
    pub offset: usize,
    pub shape: Vec<usize>,
}

/// What a [`TreeExtent`] stands for.
pub struct Span {
    pub tree: Tree,
    pub offset: usize,
    pub shape: Seq<usize>,
}

impl View for TreeExtent {
    type V = Span;

    open spec fn view(&self) -> Span {
        Span { tree: self.tree@, offset: self.offset, shape: self.shape@ }
    }
}

impl TreeExtent {
    pub fn tree(&self) -> (tree: &FusionTreeKey)
        ensures
            tree@ == self@.tree,
    {
        &self.tree
    }

    pub fn offset(&self) -> (offset: usize)
        ensures
            offset == self@.offset,
    {
        self.offset
    }

    pub fn shape(&self) -> (shape: &[usize])
        ensures
            shape@ == self@.shape,
    {
        self.shape.as_slice()
    }

    /// Number of rows or columns of the tree.
    pub fn extent(&self) -> (result: Result<usize, OperationError>)
        ensures
            result is Ok <==> extent_fits(self@.shape),
            match result {
                Ok(count) => count == extent(self@.shape),
                Err(error) => error == OperationError::ElementCountOverflow,
            },
    {
        match crate::index::checked_extent(self.shape.as_slice()) {
            Some(count) => Ok(count),
            None => Err(OperationError::ElementCountOverflow),
        }
    }

    /// Whether two extents are the same range of the same tree.
    pub fn same(&self, other: &TreeExtent) -> (same: bool)
        ensures
            same == (self@ == other@),
    {
        self.offset == other.offset && self.tree.same(&other.tree) && crate::sector::same_numbers(
            self.shape.as_slice(),
            other.shape.as_slice(),
        )
    }
}

/// The spans of a list of extents.
pub open spec fn spans(extents: Seq<TreeExtent>) -> Seq<Span> {
    extents.map_values(|extent: TreeExtent| extent@)
}

/// Whether two lists of extents are the same.
pub fn same_extents(a: &[TreeExtent], b: &[TreeExtent]) -> (same: bool)
    ensures
        same == (spans(a@) == spans(b@)),
{
    if a.len() != b.len() {
        assert(spans(a@).len() == a@.len() && spans(b@).len() == b@.len());
        return false;
    }
    let mut k: usize = 0;
    while k < a.len()
        invariant
            k <= a@.len() == b@.len(),
            forall|j: int| 0 <= j < k ==> (#[trigger] a@[j])@ == b@[j]@,
        decreases a.len() - k,
    {
        if !a[k].same(&b[k]) {
            proof {
                assert(spans(a@)[k as int] == a@[k as int]@);
                assert(spans(b@)[k as int] == b@[k as int]@);
            }
            return false;
        }
        k += 1;
    }
    assert(spans(a@) =~= spans(b@));
    true
}

/// The shape of one sector matrix and the trees that index its sides.
pub struct Geometry {
    pub sector: SectorId,
    pub rows: usize,
    pub cols: usize,
    pub row_trees: Seq<Span>,
    pub col_trees: Seq<Span>,
}

impl Geometry {
    /// The trees on one side.
    pub open spec fn trees(self, side: FactorSide) -> Seq<Span> {
        match side {
            FactorSide::Left => self.row_trees,
            FactorSide::Right => self.col_trees,
        }
    }

    /// The number of rows (left) or columns (right).
    pub open spec fn side_extent(self, side: FactorSide) -> usize {
        match side {
            FactorSide::Left => self.rows,
            FactorSide::Right => self.cols,
        }
    }
}

/// Anything that has the geometry of a sector matrix, with or without its data.
pub trait SectorGeometry {
    spec fn geometry(&self) -> Geometry;

    fn sector(&self) -> (sector: SectorId)
        ensures
            sector == self.geometry().sector,
    ;

    fn rows(&self) -> (rows: usize)
        ensures
            rows == self.geometry().rows,
    ;

    fn cols(&self) -> (cols: usize)
        ensures
            cols == self.geometry().cols,
    ;

    fn tree_count(&self, side: FactorSide) -> (count: usize)
        ensures
            count == self.geometry().trees(side).len(),
    ;

    fn tree(&self, side: FactorSide, index: usize) -> (extent: Option<&TreeExtent>)
        ensures
            match extent {
                Some(extent) => index < self.geometry().trees(side).len() && extent@
                    == self.geometry().trees(side)[index as int],
                None => index >= self.geometry().trees(side).len(),
            },
    ;
}

/// One coupled sector packed into a column-major `rows x cols` matrix.
#[derive(Clone, Debug, PartialEq, Eq)]
pub struct SectorMatricization<D> {
    pub sector: SectorId,
    pub rows: usize,
    pub cols: usize,
    /// Codomain trees with their row offsets and degeneracy shapes.
    pub row_trees: Vec<TreeExtent>,
    /// Domain trees with their column offsets and degeneracy shapes.
    pub col_trees: Vec<TreeExtent>,
    pub data: Vec<D>,
}

impl<D> SectorGeometry for SectorMatricization<D> {
    open spec fn geometry(&self) -> Geometry {
        Geometry {
            sector: self.sector,
            rows: self.rows,
            cols: self.cols,
            row_trees: spans(self.row_trees@),
            col_trees: spans(self.col_trees@),
        }
    }

    fn sector(&self) -> (sector: SectorId) {
        self.sector
    }

    fn rows(&self) -> (rows: usize) {
        self.rows
    }

    fn cols(&self) -> (cols: usize) {
        self.cols
    }

    fn tree_count(&self, side: FactorSide) -> (count: usize) {
        match side {
            FactorSide::Left => self.row_trees.len(),
            FactorSide::Right => self.col_trees.len(),
        }
    }

    fn tree(&self, side: FactorSide, index: usize) -> (extent: Option<&TreeExtent>) {
        let trees: &Vec<TreeExtent> = match side {
            FactorSide::Left => &self.row_trees,
            FactorSide::Right => &self.col_trees,
        };
        if index < trees.len() {
            Some(&trees[index])
        } else {
            None
        }
    }
}

/// One coupled sector that lies in the data buffer as a column-major
/// `rows x cols` matrix of its own, from `start` up to `end`.
#[derive(Clone, Debug, PartialEq, Eq)]
pub struct CoupledSectorRegion {
    pub coupled: SectorId,
    pub rows: usize,
    pub cols: usize,
    pub start: usize,
    pub end: usize,
    pub row_trees: Vec<TreeExtent>,
    pub col_trees: Vec<TreeExtent>,
}

impl SectorGeometry for CoupledSectorRegion {
    open spec fn geometry(&self) -> Geometry {
        Geometry {
            sector: self.coupled,
            rows: self.rows,
            cols: self.cols,
            row_trees: spans(self.row_trees@),
            col_trees: spans(self.col_trees@),
        }
    }

    fn sector(&self) -> (sector: SectorId) {
        self.coupled
    }

    fn rows(&self) -> (rows: usize) {
        self.rows
    }

    fn cols(&self) -> (cols: usize) {
        self.cols
    }

    fn tree_count(&self, side: FactorSide) -> (count: usize) {
        match side {
            FactorSide::Left => self.row_trees.len(),
            FactorSide::Right => self.col_trees.len(),
        }
    }

    fn tree(&self, side: FactorSide, index: usize) -> (extent: Option<&TreeExtent>) {
        let trees: &Vec<TreeExtent> = match side {
            FactorSide::Left => &self.row_trees,
            FactorSide::Right => &self.col_trees,
        };
        if index < trees.len() {
            Some(&trees[index])
        } else {
            None
        }
    }
}

/// The geometries of a list of sector matrices.
pub open spec fn geometries<M: SectorGeometry>(matrices: Seq<M>) -> Seq<Geometry> {
    matrices.map_values(|matrix: M| matrix.geometry())
}

/// Position of the first geometry from `from` on with the given sector.
pub open spec fn sector_position(
    geometries: Seq<Geometry>,
    sector: SectorId,
    from: int,
) -> Option<int>
    decreases geometries.len() - from,
{
    if from >= geometries.len() || from < 0 {
        None
    } else if geometries[from].sector == sector {
        Some(from)
    } else {
        sector_position(geometries, sector, from + 1)
    }
}

/// No two geometries share a sector.
pub open spec fn sectors_distinct(geometries: Seq<Geometry>) -> bool {
    forall|j: int, k: int|
        0 <= j < k < geometries.len() ==> (#[trigger] geometries[j]).sector != (
        #[trigger] geometries[k]).sector
}

/// The first span of a tree in a list, from `from` on.
pub open spec fn span_position(spans: Seq<Span>, tree: Tree, from: int) -> Option<int>
    decreases spans.len() - from,
{
    if from >= spans.len() || from < 0 {
        None
    } else if spans[from].tree == tree {
        Some(from)
    } else {
        span_position(spans, tree, from + 1)
    }
}

/// No tree occurs twice in a list of spans.
pub open spec fn trees_distinct(spans: Seq<Span>) -> bool {
    forall|j: int, k: int|
        0 <= j < k < spans.len() ==> (#[trigger] spans[j]).tree != (#[trigger] spans[k]).tree
}

/// Position of the first extent of a tree.
pub(crate) fn find_tree(extents: &[TreeExtent], tree: &FusionTreeKey) -> (index: Option<usize>)
    ensures
        match index {
            Some(index) => span_position(spans(extents@), tree@, 0) == Some(index as int) && index
                < extents@.len() && extents@[index as int]@.tree == tree@,
            None => span_position(spans(extents@), tree@, 0) is None,
        },
{
    let mut k: usize = 0;
    while k < extents.len()
        invariant
            k <= extents@.len(),
            span_position(spans(extents@), tree@, 0) == span_position(
                spans(extents@),
                tree@,
                k as int,
            ),
        decreases extents.len() - k,
    {
        if extents[k].tree.same(tree) {
            return Some(k);
        }
        k += 1;
    }
    None
}

/// A span that is found has its tree, and no earlier one has.
pub proof fn lemma_span_position(spans: Seq<Span>, tree: Tree, from: int)
    requires
        0 <= from,
    ensures
        match span_position(spans, tree, from) {
            Some(k) => from <= k < spans.len() && spans[k].tree == tree && forall|j: int|
                from <= j < k ==> (#[trigger] spans[j]).tree != tree,
            None => forall|j: int| from <= j < spans.len() ==> (#[trigger] spans[j]).tree != tree,
        },
    decreases spans.len() - from,
{
    if from < spans.len() && spans[from].tree != tree {
        lemma_span_position(spans, tree, from + 1);
    }
}

/// A geometry that is found has its sector, and no earlier one has.
pub proof fn lemma_sector_position(geometries: Seq<Geometry>, sector: SectorId, from: int)
    requires
        0 <= from,
    ensures
        match sector_position(geometries, sector, from) {
            Some(k) => from <= k < geometries.len() && geometries[k].sector == sector && forall|
                j: int,
            |
                from <= j < k ==> (#[trigger] geometries[j]).sector != sector,
            None => forall|j: int|
                from <= j < geometries.len() ==> (#[trigger] geometries[j]).sector != sector,
        },
    decreases geometries.len() - from,
{
    if from < geometries.len() && geometries[from].sector != sector {
        lemma_sector_position(geometries, sector, from + 1);
    }
}

} // verus!
