//! Null spaces: which part of each sector's basis they take.

use vstd::prelude::*;

use crate::bond::{with_rank, without_rank, BondDimensions};
use crate::dense::{adjoint_col_major, adjoint_matrix, lemma_adjoint_matrix};
use crate::factor::{FactorPair, SectorRank};
use crate::geometry::{geometries, Geometry, SectorGeometry};
use crate::layout::FactorSide;
use crate::sector::SectorId;
use crate::spectrum::is_function;

verus! {

/// The numerical rank of a sector's matrix and a completed square basis of the
/// side whose null space is asked for, of which the first columns span the
/// range. A sector of full rank needs no basis.
#[derive(Clone, Debug, PartialEq, Eq)]
pub struct RankedBasis<D> {
    pub rank: usize,
    pub basis: Vec<D>,
}

/// The basis has the side's extent, unless the rank is full.
pub open spec fn basis_fits<D>(
    geometry: Geometry,
    side: FactorSide,
    ranked: RankedBasis<D>,
) -> bool {
    let extent = geometry.side_extent(side) as int;
    &&& ranked.rank <= extent
    &&& ranked.rank < extent ==> ranked.basis@.len() == extent * extent
}

/// The columns of the basis behind the first `rank`.
pub open spec fn null_columns<D>(ranked: RankedBasis<D>, extent: int) -> Seq<D> {
    ranked.basis@.subrange(extent * ranked.rank, extent * extent)
}

/// The bond of a null space after the first `count` sectors: what is left of
/// each sector behind its rank. Sectors of full rank drop out, and sectors that
/// the source does not have keep their whole dimension.
pub open spec fn null_bond<D>(
    dimensions: Seq<SectorRank>,
    geometries: Seq<Geometry>,
    ranked: Seq<RankedBasis<D>>,
    side: FactorSide,
    count: int,
) -> Seq<SectorRank>
    decreases count,
{
    if count <= 0 {
        dimensions
    } else {
        let before = null_bond(dimensions, geometries, ranked, side, count - 1);
        let geometry = geometries[count - 1];
        let extent = geometry.side_extent(side);
        let rank = ranked[count - 1].rank;
        if rank == extent {
            without_rank(before, geometry.sector)
        } else {
            with_rank(
                before,
                SectorRank { sector: geometry.sector, kept: (extent - rank) as usize },
            )
        }
    }
}

/// What a pair of a null space holds.
pub struct NullPair<D> {
    pub sector: SectorId,
    pub kept: usize,
    pub left: Seq<D>,
    pub left_rows: usize,
    pub right: Seq<D>,
    pub right_leading: usize,
}

/// What the pairs of a null space stand for.
pub open spec fn null_pair_views<D>(pairs: Seq<FactorPair<D>>) -> Seq<NullPair<D>> {
    pairs.map_values(
        |pair: FactorPair<D>|
            NullPair {
                sector: pair.sector,
                kept: pair.kept,
                left: pair.left@,
                left_rows: pair.left_rows,
                right: pair.right@,
                right_leading: pair.right_leading,
            },
    )
}

/// The pair of one sector: the null columns as they are on the left, and as an
/// adjoint on the right.
pub open spec fn null_pair<D, F: Fn(D) -> D>(
    geometry: Geometry,
    ranked: RankedBasis<D>,
    side: FactorSide,
    conjugate: F,
) -> NullPair<D> {
    let extent = geometry.side_extent(side) as int;
    let kept = (extent - ranked.rank) as usize;
    let columns = null_columns(ranked, extent);
    NullPair {
        sector: geometry.sector,
        kept,
        left: match side {
            FactorSide::Left => columns,
            FactorSide::Right => Seq::empty(),
        },
        left_rows: geometry.rows,
        right: match side {
            FactorSide::Left => Seq::empty(),
            FactorSide::Right => adjoint_matrix(conjugate, columns, extent, kept as int),
        },
        right_leading: kept,
    }
}

/// The pairs of the first `count` sectors that have null directions.
pub open spec fn null_pairs<D, F: Fn(D) -> D>(
    geometries: Seq<Geometry>,
    ranked: Seq<RankedBasis<D>>,
    side: FactorSide,
    conjugate: F,
    count: int,
) -> Seq<NullPair<D>>
    decreases count,
{
    if count <= 0 {
        Seq::empty()
    } else {
        let before = null_pairs(geometries, ranked, side, conjugate, count - 1);
        if ranked[count - 1].rank == geometries[count - 1].side_extent(side) {
            before
        } else {
            before.push(null_pair(geometries[count - 1], ranked[count - 1], side, conjugate))
        }
    }
}

/// The pairs and the bond of a left or right null space.
pub fn null_space_pairs<D: Copy, M: SectorGeometry, F: Fn(D) -> D>(
    matricizations: &[M],
    ranked: &[RankedBasis<D>],
    dimensions: BondDimensions,
    side: FactorSide,
    conjugate: &F,
) -> (result: (Vec<FactorPair<D>>, BondDimensions))
    requires
        dimensions.wf(),
        is_function(conjugate),
        ranked@.len() == matricizations@.len(),
        forall|k: int|
            0 <= k < ranked@.len() ==> basis_fits(
                geometries(matricizations@)[k],
                side,
                #[trigger] ranked@[k],
            ),
    ensures
        result.1.wf(),
        null_pair_views(result.0@) == null_pairs(
            geometries(matricizations@),
            ranked@,
            side,
            conjugate,
            ranked@.len() as int,
        ),
        result.1@ == null_bond(
            dimensions@,
            geometries(matricizations@),
            ranked@,
            side,
            ranked@.len() as int,
        ),
{
    let ghost all = geometries(matricizations@);
    let ghost start = dimensions@;
    let mut bond = dimensions;
    let mut pairs: Vec<FactorPair<D>> = Vec::new();
    let mut k: usize = 0;
    assert(null_pair_views(pairs@) =~= Seq::empty());
    while k < ranked.len()
        invariant
            k <= ranked@.len() == matricizations@.len(),
            all == geometries(matricizations@),
            start == dimensions@,
            is_function(conjugate),
            forall|j: int|
                0 <= j < ranked@.len() ==> basis_fits(all[j], side, #[trigger] ranked@[j]),
            bond.wf(),
            bond@ == null_bond(start, all, ranked@, side, k as int),
            null_pair_views(pairs@) == null_pairs(all, ranked@, side, conjugate, k as int),
        decreases ranked.len() - k,
    {
        let matrix = &matricizations[k];
        let entry = &ranked[k];
        let sector = matrix.sector();
        let rows: usize = matrix.rows();
        let extent: usize = match side {
            FactorSide::Left => rows,
            FactorSide::Right => matrix.cols(),
        };
        proof {
            assert(all[k as int] == matrix.geometry());
            assert(basis_fits(all[k as int], side, ranked@[k as int]));
        }
        if entry.rank == extent {
            bond.remove(sector);
        } else {
            let kept: usize = extent - entry.rank;
            bond.insert(sector, kept);
            let len: usize = entry.basis.len();
            proof {
                let e = extent as int;
                let r = entry.rank as int;
                assert(0 <= e * r <= e * e && e * e - e * r == e * (e - r)) by (nonlinear_arith)
                    requires
                        0 <= r <= e,
                ;
            }
            let tail = vstd::slice::slice_subrange(
                entry.basis.as_slice(),
                extent * entry.rank,
                len,
            );
            let ghost before = null_pair_views(pairs@);
            match side {
                FactorSide::Left => {
                    pairs.push(
                        FactorPair {
                            sector,
                            kept,
                            left: vstd::slice::slice_to_vec(tail),
                            left_rows: rows,
                            right: Vec::new(),
                            right_leading: kept,
                        },
                    );
                },
                FactorSide::Right => {
                    let right = adjoint_col_major(tail, extent, kept, conjugate);
                    proof {
                        lemma_adjoint_matrix(
                            conjugate,
                            tail@,
                            extent as int,
                            kept as int,
                            right@,
                        );
                    }
                    pairs.push(
                        FactorPair {
                            sector,
                            kept,
                            left: Vec::new(),
                            left_rows: rows,
                            right,
                            right_leading: kept,
                        },
                    );
                },
            }
            assert(null_pair_views(pairs@) =~= before.push(
                null_pair(all[k as int], ranked@[k as int], side, conjugate),
            ));
        }
        k += 1;
    }
    (pairs, bond)
}

} // verus!
