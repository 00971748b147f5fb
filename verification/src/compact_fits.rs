//! Tests of whether compact factors fit their outputs, before any is computed.

use vstd::prelude::*;

use crate::bond::bond_of_pairs;
use crate::compact_drive::{
    are_shaped_pairs,
    compact_scatter_fits, is_shaped_pair,
};
use crate::factor::{FactorPair, SectorRank};
use crate::factor_routes::smaller;
use crate::geometry::{geometries, sectors_distinct, Geometry, SectorGeometry};
use crate::layout::{filled, FactorSide};
use crate::layout_fits::pair_reads_are_inside;
use crate::pair::pair_reads_fit;
use crate::publish::{blocks_filled, last_pair, lemma_last_pair, published_reads_fit, reads_fit};
use crate::sector::SectorId;
use crate::stages::BondExtent;
use crate::structure::{Block, BlockStructure, Label};

verus! {

/// The compact factors of every sector have numbers of elements that fit.
pub open spec fn compact_sizes_fit(geometries: Seq<Geometry>) -> bool {
    forall|k: int|
        0 <= k < geometries.len() ==> {
            let kept = smaller((#[trigger] geometries[k]).rows, geometries[k].cols);
            &&& geometries[k].rows * kept <= usize::MAX
            &&& kept * geometries[k].cols <= usize::MAX
        }
}

/// Pairs with the shapes of compact factors, and no elements to speak of.
fn unit_pairs<M: SectorGeometry>(matricizations: &[M]) -> (pairs: Option<Vec<FactorPair<()>>>)
    ensures
        pairs is Some <==> compact_sizes_fit(geometries(matricizations@)),
        pairs is Some ==> are_shaped_pairs(pairs->0@, geometries(matricizations@))
            && pairs->0@.len() == matricizations@.len(),
{
    let ghost all = geometries(matricizations@);
    let mut pairs: Vec<FactorPair<()>> = Vec::with_capacity(matricizations.len());
    let mut k: usize = 0;
    while k < matricizations.len()
        invariant
            k <= matricizations@.len(),
            all == geometries(matricizations@),
            pairs@.len() == k,
            forall|j: int| 0 <= j < k ==> is_shaped_pair(#[trigger] pairs@[j], all[j]),
            forall|j: int|
                0 <= j < k ==> {
                    let kept = smaller((#[trigger] all[j]).rows, all[j].cols);
                    &&& all[j].rows * kept <= usize::MAX
                    &&& kept * all[j].cols <= usize::MAX
                },
        decreases matricizations.len() - k,
    {
        assert(all[k as int] == matricizations@[k as int].geometry());
        let (rows, cols): (usize, usize) = (matricizations[k].rows(), matricizations[k].cols());
        let kept: usize = BondExtent::Compact.of(rows, cols);
        match (rows.checked_mul(kept), kept.checked_mul(cols)) {
            (Some(left), Some(right)) => {
                pairs.push(
                    FactorPair {
                        sector: matricizations[k].sector(),
                        kept,
                        left: filled((), left),
                        left_rows: rows,
                        right: filled((), right),
                        right_leading: kept,
                    },
                );
            },
            _ => {
                return None;
            },
        }
        k += 1;
    }
    Some(pairs)
}

/// Pairs of one shape are read alike, whatever their elements.
proof fn lemma_shaped_scatter<D, E>(
    left_blocks: Seq<Block>,
    right_blocks: Seq<Block>,
    geometries: Seq<Geometry>,
    a: Seq<FactorPair<D>>,
    b: Seq<FactorPair<E>>,
)
    requires
        are_shaped_pairs(a, geometries),
        are_shaped_pairs(b, geometries),
        b.len() <= a.len(),
        pair_reads_fit(left_blocks, right_blocks, geometries, a),
    ensures
        pair_reads_fit(left_blocks, right_blocks, geometries, b),
{
    assert forall|k: int| 0 <= k < b.len() implies {
        &&& (#[trigger] a[k]).left_rows == b[k].left_rows
        &&& a[k].left@.len() == b[k].left@.len()
        &&& a[k].right_leading == b[k].right_leading
        &&& a[k].right@.len() == b[k].right@.len()
    } by {
        assert(is_shaped_pair(b[k], geometries[k]));
    }
}

/// Whether both outputs are filled from inside compact factors, however many
/// sectors have some.
pub fn compact_scatter_is_inside<D, M: SectorGeometry>(
    left_structure: &BlockStructure,
    right_structure: &BlockStructure,
    matricizations: &[M],
) -> (inside: bool)
    ensures
        inside == {
            &&& sectors_distinct(geometries(matricizations@))
            &&& compact_sizes_fit(geometries(matricizations@))
            &&& compact_scatter_fits::<()>(
                left_structure.spec_blocks(),
                right_structure.spec_blocks(),
                geometries(matricizations@),
            )
        },
        inside ==> compact_scatter_fits::<D>(
            left_structure.spec_blocks(),
            right_structure.spec_blocks(),
            geometries(matricizations@),
        ),
{
    let ghost all = geometries(matricizations@);
    let ghost left = left_structure.spec_blocks();
    let ghost right = right_structure.spec_blocks();
    match unit_pairs(matricizations) {
        None => false,
        Some(pairs) => {
            let inside = pair_reads_are_inside(
                left_structure,
                right_structure,
                matricizations,
                pairs.as_slice(),
            );
            proof {
                assert(are_shaped_pairs(pairs@, all));
                if inside {
                    assert forall|other: Seq<FactorPair<()>>| #[trigger]
                        are_shaped_pairs(other, all) implies pair_reads_fit(
                        left,
                        right,
                        all,
                        other,
                    ) by {
                        lemma_shaped_scatter(left, right, all, pairs@, other);
                    }
                    assert forall|other: Seq<FactorPair<D>>| #[trigger]
                        are_shaped_pairs(other, all) implies pair_reads_fit(
                        left,
                        right,
                        all,
                        other,
                    ) by {
                        lemma_shaped_scatter(left, right, all, pairs@, other);
                    }
                }
            }
            inside
        },
    }
}

/// Pairs that agree on sectors and ranks have the same bond.
pub(crate) proof fn lemma_shaped_bond<D, E>(a: Seq<FactorPair<D>>, b: Seq<FactorPair<E>>)
    requires
        a.len() == b.len(),
        forall|k: int|
            0 <= k < a.len() ==> (#[trigger] a[k]).sector == b[k].sector && a[k].kept == b[k].kept,
    ensures
        bond_of_pairs(a) == bond_of_pairs(b),
    decreases a.len(),
{
    if a.len() > 0 {
        let x = a.drop_last();
        let y = b.drop_last();
        assert forall|k: int| 0 <= k < x.len() implies (#[trigger] x[k]).sector == y[k].sector
            && x[k].kept == y[k].kept by {
            assert(x[k] == a[k]);
        }
        lemma_shaped_bond(x, y);
        assert(a[a.len() - 1].sector == b[a.len() - 1].sector);
    }
}

proof fn lemma_shaped_last<D, E>(
    a: Seq<FactorPair<D>>,
    b: Seq<FactorPair<E>>,
    sector: SectorId,
    count: int,
)
    requires
        0 <= count <= a.len() == b.len(),
        forall|k: int| 0 <= k < a.len() ==> (#[trigger] a[k]).sector == b[k].sector,
    ensures
        last_pair(a, sector, count) == last_pair(b, sector, count),
    decreases count,
{
    if count > 0 {
        assert(a[count - 1].sector == b[count - 1].sector);
        lemma_shaped_last(a, b, sector, count - 1);
    }
}

proof fn lemma_shaped_walk<D, E>(
    blocks: Seq<Block>,
    geometries: Seq<Geometry>,
    a: Seq<FactorPair<D>>,
    b: Seq<FactorPair<E>>,
    dimensions: Seq<SectorRank>,
    side: FactorSide,
    trees: FactorSide,
    count: int,
)
    requires
        a.len() == b.len(),
        forall|k: int| 0 <= k < a.len() ==> (#[trigger] a[k]).sector == b[k].sector,
    ensures
        blocks_filled(blocks, geometries, a, dimensions, side, trees, count) == blocks_filled(
            blocks,
            geometries,
            b,
            dimensions,
            side,
            trees,
            count,
        ),
    decreases count,
{
    if count > 0 {
        lemma_shaped_walk(blocks, geometries, a, b, dimensions, side, trees, count - 1);
        if let Label::FusionTree(pair) = blocks[count - 1].key@ {
            lemma_shaped_last(
                a,
                b,
                crate::canonical::side_tree(pair, side).coupled,
                a.len() as int,
            );
        }
    }
}

/// Pairs of the same sectors, with factors of the same sizes on a side.
pub(crate) open spec fn sizes_agree<D, E>(
    a: Seq<FactorPair<D>>,
    b: Seq<FactorPair<E>>,
    side: FactorSide,
) -> bool {
    &&& a.len() == b.len()
    &&& forall|k: int|
        0 <= k < a.len() ==> {
            &&& (#[trigger] a[k]).sector == b[k].sector
            &&& a[k].leading(side) == b[k].leading(side)
            &&& a[k].factor(side).len() == b[k].factor(side).len()
        }
}

/// Pairs of the same sizes are read alike, whatever their elements.
pub(crate) proof fn lemma_sized_reads<D, E>(
    blocks: Seq<Block>,
    geometries: Seq<Geometry>,
    a: Seq<FactorPair<D>>,
    b: Seq<FactorPair<E>>,
    dimensions: Seq<SectorRank>,
    side: FactorSide,
    trees: FactorSide,
)
    requires
        sizes_agree(a, b, side),
        reads_fit(blocks, geometries, a, dimensions, side, trees),
    ensures
        reads_fit(blocks, geometries, b, dimensions, side, trees),
{
    assert forall|k: int|
        0 <= k < blocks.len() && blocks_filled(
            blocks,
            geometries,
            b,
            dimensions,
            side,
            trees,
            k,
        ) is Ok implies published_reads_fit(#[trigger] blocks[k], geometries, b, side, trees) by {
        lemma_shaped_walk(blocks, geometries, a, b, dimensions, side, trees, k);
        assert(published_reads_fit(blocks[k], geometries, a, side, trees));
        if let Label::FusionTree(pair) = blocks[k].key@ {
            let sector = crate::canonical::side_tree(pair, side).coupled;
            lemma_shaped_last(a, b, sector, a.len() as int);
            lemma_last_pair(a, sector, a.len() as int);
            if let Some(j) = last_pair(a, sector, a.len() as int) {
                assert(a[j].sector == b[j].sector);
            }
        }
    }
}

} // verus!
