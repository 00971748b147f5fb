//! The shapes of the factors of a sector, and tests of whether factors of such a
//! shape fit their outputs, before any is computed.

use vstd::prelude::*;

use crate::bond::BondDimensions;
use crate::compact_fits::{lemma_sized_reads, sizes_agree};
use crate::factor::{FactorPair, FactorPlacement, SectorRank};
use crate::fits::{checked_reads_are_inside, reads_are_inside};
use crate::geometry::{geometries, sector_position, sectors_distinct, Geometry, SectorGeometry};
use crate::keys::{first_refusal, staged_fusion_tree_keys};
use crate::layout::{filled, FactorSide};
use crate::layout_fits::pair_publication_is_inside;
use crate::matricize::lemma_position_unique;
use crate::pair::{pair_publication_fits, pair_reads_fit};
use crate::pair_drive::own_labels;
use crate::publish::has_stray_pair;
use crate::sides::{side_fits, Publication};
use crate::stages::BondExtent;
use crate::structure::{Block, BlockStructure};

verus! {

/// The shapes of both factors of a sector: they meet in a bond, or both are
/// square, those of the sector itself or those of its adjoint.
#[derive(Clone, Copy, Debug, PartialEq, Eq, Structural)]
pub enum FactorShape {
    Bond(BondExtent),
    Square(FactorPlacement),
}

impl FactorShape {
    /// The rows and columns of the left factor.
    pub open spec fn left(self, geometry: Geometry) -> (usize, usize) {
        match self {
            FactorShape::Bond(bond) => (
                geometry.rows,
                bond.spec_of(geometry.rows, geometry.cols),
            ),
            FactorShape::Square(FactorPlacement::Direct) => (geometry.rows, geometry.rows),
            FactorShape::Square(FactorPlacement::Adjoint) => (geometry.cols, geometry.cols),
        }
    }

    /// The rows and columns of the right factor.
    pub open spec fn right(self, geometry: Geometry) -> (usize, usize) {
        match self {
            FactorShape::Bond(bond) => (
                bond.spec_of(geometry.rows, geometry.cols),
                geometry.cols,
            ),
            FactorShape::Square(FactorPlacement::Direct) => (geometry.cols, geometry.cols),
            FactorShape::Square(FactorPlacement::Adjoint) => (geometry.rows, geometry.rows),
        }
    }

    /// The rows and columns of both factors.
    fn of(self, rows: usize, cols: usize) -> (shapes: ((usize, usize), (usize, usize)))
        ensures
            forall|geometry: Geometry|
                geometry.rows == rows && geometry.cols == cols ==> shapes.0 == #[trigger] self.left(
                    geometry,
                ) && shapes.1 == self.right(geometry),
    {
        match self {
            FactorShape::Bond(bond) => ((rows, bond.of(rows, cols)), (bond.of(rows, cols), cols)),
            FactorShape::Square(FactorPlacement::Direct) => ((rows, rows), (cols, cols)),
            FactorShape::Square(FactorPlacement::Adjoint) => ((cols, cols), (rows, rows)),
        }
    }
}

/// The pair of one sector with factors of this shape, whatever their elements.
pub open spec fn is_sized_pair<D>(
    pair: FactorPair<D>,
    geometry: Geometry,
    shape: FactorShape,
) -> bool {
    let (left_rows, kept) = shape.left(geometry);
    let (leading, right_cols) = shape.right(geometry);
    &&& pair.sector == geometry.sector
    &&& pair.kept == kept
    &&& pair.left_rows == left_rows
    &&& pair.left@.len() == left_rows * kept
    &&& pair.right_leading == leading
    &&& pair.right@.len() == leading * right_cols
}

/// The pairs of all sectors with factors of this shape, whatever their elements.
pub open spec fn are_sized_pairs<D>(
    pairs: Seq<FactorPair<D>>,
    geometries: Seq<Geometry>,
    shape: FactorShape,
) -> bool {
    &&& pairs.len() == geometries.len()
    &&& forall|k: int|
        0 <= k < pairs.len() ==> is_sized_pair(#[trigger] pairs[k], geometries[k], shape)
}

/// The factors of every sector have numbers of elements that fit.
pub open spec fn sizes_fit(geometries: Seq<Geometry>, shape: FactorShape) -> bool {
    forall|k: int|
        0 <= k < geometries.len() ==> {
            let left = shape.left(#[trigger] geometries[k]);
            let right = shape.right(geometries[k]);
            left.0 * left.1 <= usize::MAX && right.0 * right.1 <= usize::MAX
        }
}

/// One output of a publication is filled from inside factors of this shape,
/// whatever their elements.
pub open spec fn side_takes<D>(
    structure: BlockStructure,
    geometries: Seq<Geometry>,
    shape: FactorShape,
    dimensions: Seq<SectorRank>,
    side: FactorSide,
    publication: Publication,
) -> bool {
    forall|pairs: Seq<FactorPair<D>>| #[trigger]
        are_sized_pairs(pairs, geometries, shape) ==> side_fits(
            structure,
            geometries,
            pairs,
            dimensions,
            side,
            publication,
        )
}

/// Both outputs are filled from inside factors over a bond, whatever their
/// elements, unless a label has no place in the source.
pub open spec fn labelled_pair_fits<D>(
    left: BlockStructure,
    right: BlockStructure,
    geometries: Seq<Geometry>,
    bond: BondExtent,
) -> bool {
    forall|pairs: Seq<FactorPair<D>>| #[trigger]
        are_sized_pairs(pairs, geometries, FactorShape::Bond(bond)) ==> pair_publication_fits(
            left,
            own_labels(left),
            right,
            own_labels(right),
            false,
            geometries,
            pairs,
        )
}

/// Pairs of all sectors have no sector of their own.
pub proof fn lemma_sized_pairs_belong<D>(
    pairs: Seq<FactorPair<D>>,
    geometries: Seq<Geometry>,
    shape: FactorShape,
)
    requires
        sectors_distinct(geometries),
        are_sized_pairs(pairs, geometries, shape),
    ensures
        !has_stray_pair(geometries, pairs),
{
    assert forall|k: int| 0 <= k < pairs.len() implies sector_position(
        geometries,
        (#[trigger] pairs[k]).sector,
        0,
    ) is Some by {
        assert(is_sized_pair(pairs[k], geometries[k], shape));
        lemma_position_unique(geometries, k);
    }
}

/// Pairs of this shape, and no elements to speak of.
fn unit_pairs<M: SectorGeometry>(matricizations: &[M], shape: FactorShape) -> (pairs: Option<
    Vec<FactorPair<()>>,
>)
    ensures
        pairs is Some <==> sizes_fit(geometries(matricizations@), shape),
        pairs is Some ==> are_sized_pairs(pairs->0@, geometries(matricizations@), shape),
{
    let ghost all = geometries(matricizations@);
    let mut pairs: Vec<FactorPair<()>> = Vec::with_capacity(matricizations.len());
    let mut k: usize = 0;
    while k < matricizations.len()
        invariant
            k <= matricizations@.len(),
            all == geometries(matricizations@),
            pairs@.len() == k,
            forall|j: int| 0 <= j < k ==> is_sized_pair(#[trigger] pairs@[j], all[j], shape),
            forall|j: int|
                0 <= j < k ==> {
                    let left = shape.left(#[trigger] all[j]);
                    let right = shape.right(all[j]);
                    left.0 * left.1 <= usize::MAX && right.0 * right.1 <= usize::MAX
                },
        decreases matricizations.len() - k,
    {
        assert(all[k as int] == matricizations@[k as int].geometry());
        let (left, right) = shape.of(matricizations[k].rows(), matricizations[k].cols());
        assert(left == shape.left(all[k as int]));
        match (left.0.checked_mul(left.1), right.0.checked_mul(right.1)) {
            (Some(left_len), Some(right_len)) => {
                pairs.push(
                    FactorPair {
                        sector: matricizations[k].sector(),
                        kept: left.1,
                        left: filled((), left_len),
                        left_rows: left.0,
                        right: filled((), right_len),
                        right_leading: right.0,
                    },
                );
            },
            _ => {
                return None;
            },
        }
        k += 1;
    }
    Some(pairs)
}

proof fn lemma_sized_sides<D, E>(
    geometries: Seq<Geometry>,
    shape: FactorShape,
    a: Seq<FactorPair<D>>,
    b: Seq<FactorPair<E>>,
    side: FactorSide,
)
    requires
        are_sized_pairs(a, geometries, shape),
        are_sized_pairs(b, geometries, shape),
    ensures
        sizes_agree(a, b, side),
{
    assert forall|k: int| 0 <= k < a.len() implies {
        &&& (#[trigger] a[k]).sector == b[k].sector
        &&& a[k].leading(side) == b[k].leading(side)
        &&& a[k].factor(side).len() == b[k].factor(side).len()
    } by {
        assert(is_sized_pair(b[k], geometries[k], shape));
    }
}

proof fn lemma_sized_side<D, E>(
    structure: BlockStructure,
    geometries: Seq<Geometry>,
    shape: FactorShape,
    a: Seq<FactorPair<D>>,
    b: Seq<FactorPair<E>>,
    dimensions: Seq<SectorRank>,
    side: FactorSide,
    publication: Publication,
)
    requires
        are_sized_pairs(a, geometries, shape),
        are_sized_pairs(b, geometries, shape),
        side_fits(structure, geometries, a, dimensions, side, publication),
    ensures
        side_fits(structure, geometries, b, dimensions, side, publication),
{
    lemma_sized_sides(geometries, shape, a, b, side);
    let blocks = structure.spec_blocks();
    let trees = publication.trees(side);
    if crate::publish::reads_fit(blocks, geometries, a, dimensions, side, trees) {
        lemma_sized_reads(blocks, geometries, a, b, dimensions, side, trees);
    }
}

/// Whether one output of a publication is filled from inside factors of this
/// shape.
pub fn side_is_inside<D, M: SectorGeometry>(
    structure: &BlockStructure,
    matricizations: &[M],
    shape: FactorShape,
    dimensions: &BondDimensions,
    side: FactorSide,
    publication: Publication,
) -> (inside: bool)
    ensures
        inside == {
            &&& sectors_distinct(geometries(matricizations@))
            &&& sizes_fit(geometries(matricizations@), shape)
            &&& side_takes::<()>(
                *structure,
                geometries(matricizations@),
                shape,
                dimensions@,
                side,
                publication,
            )
        },
        inside ==> side_takes::<D>(
            *structure,
            geometries(matricizations@),
            shape,
            dimensions@,
            side,
            publication,
        ),
{
    let ghost all = geometries(matricizations@);
    match unit_pairs(matricizations, shape) {
        None => false,
        Some(pairs) => {
            let inside = match publication {
                Publication::Plain(placement) => {
                    let trees = match (side, placement) {
                        (FactorSide::Left, FactorPlacement::Direct)
                        | (FactorSide::Right, FactorPlacement::Adjoint) => FactorSide::Left,
                        (FactorSide::Right, FactorPlacement::Direct)
                        | (FactorSide::Left, FactorPlacement::Adjoint) => FactorSide::Right,
                    };
                    reads_are_inside(
                        structure,
                        matricizations,
                        pairs.as_slice(),
                        dimensions,
                        side,
                        trees,
                    )
                },
                Publication::LookedUp => checked_reads_are_inside(
                    structure,
                    matricizations,
                    pairs.as_slice(),
                    dimensions,
                    side,
                ),
            };
            proof {
                assert(are_sized_pairs(pairs@, all, shape));
                if sectors_distinct(all) {
                    lemma_sized_pairs_belong(pairs@, all, shape);
                }
                if inside {
                    assert forall|other: Seq<FactorPair<()>>| #[trigger]
                        are_sized_pairs(other, all, shape) implies side_fits(
                        *structure,
                        all,
                        other,
                        dimensions@,
                        side,
                        publication,
                    ) by {
                        lemma_sized_side(
                            *structure,
                            all,
                            shape,
                            pairs@,
                            other,
                            dimensions@,
                            side,
                            publication,
                        );
                    }
                    assert forall|other: Seq<FactorPair<D>>| #[trigger]
                        are_sized_pairs(other, all, shape) implies side_fits(
                        *structure,
                        all,
                        other,
                        dimensions@,
                        side,
                        publication,
                    ) by {
                        lemma_sized_side(
                            *structure,
                            all,
                            shape,
                            pairs@,
                            other,
                            dimensions@,
                            side,
                            publication,
                        );
                    }
                }
            }
            inside
        },
    }
}

/// Pairs of one shape are scattered alike, whatever their elements.
proof fn lemma_sized_scatter<D, E>(
    left: Seq<Block>,
    right: Seq<Block>,
    geometries: Seq<Geometry>,
    shape: FactorShape,
    a: Seq<FactorPair<D>>,
    b: Seq<FactorPair<E>>,
)
    requires
        are_sized_pairs(a, geometries, shape),
        are_sized_pairs(b, geometries, shape),
        pair_reads_fit(left, right, geometries, a),
    ensures
        pair_reads_fit(left, right, geometries, b),
{
    lemma_sized_sides(geometries, shape, a, b, FactorSide::Left);
    lemma_sized_sides(geometries, shape, a, b, FactorSide::Right);
    assert forall|k: int| 0 <= k < b.len() implies {
        &&& (#[trigger] a[k]).left_rows == b[k].left_rows
        &&& a[k].left@.len() == b[k].left@.len()
        &&& a[k].right_leading == b[k].right_leading
        &&& a[k].right@.len() == b[k].right@.len()
    } by {
        assert(a[k].factor(FactorSide::Left).len() == b[k].factor(FactorSide::Left).len());
        assert(a[k].factor(FactorSide::Right).len() == b[k].factor(FactorSide::Right).len());
    }
}

/// Whether both outputs are filled from inside factors over a bond, or a label
/// has no place in the source.
pub fn labelled_pair_is_inside<D, M: SectorGeometry>(
    left_structure: &BlockStructure,
    right_structure: &BlockStructure,
    matricizations: &[M],
    bond: BondExtent,
) -> (inside: bool)
    ensures
        inside == {
            let all = geometries(matricizations@);
            let shape = FactorShape::Bond(bond);
            &&& sectors_distinct(all)
            &&& sizes_fit(all, shape)
            &&& {
                ||| first_refusal(all, FactorSide::Left, own_labels(*left_structure), 0) is Some
                ||| first_refusal(all, FactorSide::Right, own_labels(*right_structure), 0) is Some
                ||| forall|pairs: Seq<FactorPair<()>>| #[trigger]
                    are_sized_pairs(pairs, all, shape) ==> pair_reads_fit(
                        left_structure.spec_blocks(),
                        right_structure.spec_blocks(),
                        all,
                        pairs,
                    )
            }
        },
        inside ==> labelled_pair_fits::<D>(
            *left_structure,
            *right_structure,
            geometries(matricizations@),
            bond,
        ),
{
    let ghost all = geometries(matricizations@);
    let ghost left = left_structure.spec_blocks();
    let ghost right = right_structure.spec_blocks();
    let shape = FactorShape::Bond(bond);
    match unit_pairs(matricizations, shape) {
        None => false,
        Some(pairs) => {
            let left_keys = staged_fusion_tree_keys(left_structure);
            let right_keys = staged_fusion_tree_keys(right_structure);
            let inside = pair_publication_is_inside(
                left_structure,
                left_keys.as_slice(),
                right_structure,
                right_keys.as_slice(),
                matricizations,
                pairs.as_slice(),
            );
            proof {
                assert(are_sized_pairs(pairs@, all, shape));
                if pair_reads_fit(left, right, all, pairs@) {
                    assert forall|other: Seq<FactorPair<()>>| #[trigger]
                        are_sized_pairs(other, all, shape) implies pair_reads_fit(
                        left,
                        right,
                        all,
                        other,
                    ) by {
                        lemma_sized_scatter(left, right, all, shape, pairs@, other);
                    }
                    assert forall|other: Seq<FactorPair<D>>| #[trigger]
                        are_sized_pairs(other, all, shape) implies pair_reads_fit(
                        left,
                        right,
                        all,
                        other,
                    ) by {
                        lemma_sized_scatter(left, right, all, shape, pairs@, other);
                    }
                }
            }
            inside
        },
    }
}

} // verus!
