//! What a null space is: orthonormal directions that the matrix takes to zero, as
//! many as its rank leaves.

use vstd::prelude::*;

use crate::bond::{ascending, rank_of};
use crate::bond_laws::{lemma_given_rank_is_found, lemma_removed_rank_is_gone};
use crate::exact::{conjugates_in, lemma_adjoint_is_adjoint};
use crate::factor::SectorRank;
use crate::geometry::{sectors_distinct, Geometry};
use crate::layout::FactorSide;
use crate::null::{
    basis_fits, null_bond, null_columns, null_pair, null_pairs, NullPair, RankedBasis,
};
use crate::ring::{lemma_place, lemma_same_cells, matrix, Matrix, Ring};
use crate::sector::SectorId;

verus! {

/// The columns of the basis are orthonormal, and the matrix has no component along
/// those behind the first `rank`.
pub open spec fn is_ranked<D>(ring: Ring<D>, a: Matrix<D>, basis: Matrix<D>, rank: int) -> bool {
    &&& a.shaped()
    &&& basis.shaped()
    &&& basis.rows == a.rows
    &&& basis.cols == a.rows
    &&& ring.mul(ring.adjoint(basis), basis) == ring.identity(a.rows)
    &&& forall|i: int, j: int|
        rank <= i < a.rows && 0 <= j < a.cols ==> #[trigger] ring.mul(
            ring.adjoint(basis),
            a,
        ).at(i, j) == ring.zero
}

/// The matrix whose range is the side of a null space: the matrix itself on the
/// left, its adjoint on the right.
pub open spec fn side_matrix<D>(ring: Ring<D>, a: Matrix<D>, side: FactorSide) -> Matrix<D> {
    match side {
        FactorSide::Left => a,
        FactorSide::Right => ring.adjoint(a),
    }
}

/// The pair holds a null space of the matrix. On the left its columns are
/// orthonormal and orthogonal to all columns of the matrix; on the right its rows
/// are orthonormal, and the matrix takes their conjugates to zero.
pub open spec fn is_null_space<D>(
    ring: Ring<D>,
    a: Matrix<D>,
    side: FactorSide,
    pair: NullPair<D>,
) -> bool {
    let kept = pair.kept as int;
    match side {
        FactorSide::Left => {
            let n = matrix(pair.left_rows as int, kept, pair.left);
            &&& n.shaped()
            &&& n.rows == a.rows
            &&& ring.mul(ring.adjoint(n), n) == ring.identity(kept)
            &&& forall|i: int, j: int|
                0 <= i < kept && 0 <= j < a.cols ==> #[trigger] ring.mul(ring.adjoint(n), a).at(
                    i,
                    j,
                ) == ring.zero
        },
        FactorSide::Right => {
            let n = matrix(pair.right_leading as int, a.cols, pair.right);
            &&& n.shaped()
            &&& n.rows == kept
            &&& ring.mul(n, ring.adjoint(n)) == ring.identity(kept)
            &&& forall|i: int, j: int|
                0 <= i < a.rows && 0 <= j < kept ==> #[trigger] ring.mul(a, ring.adjoint(n)).at(
                    i,
                    j,
                ) == ring.zero
        },
    }
}

/// The columns behind the rank are orthonormal and orthogonal to the matrix.
proof fn lemma_trailing_columns<D>(
    ring: Ring<D>,
    a: Matrix<D>,
    ranked: RankedBasis<D>,
    extent: int,
)
    requires
        ring.is_ring(),
        extent == a.rows,
        0 <= ranked.rank <= extent,
        is_ranked(ring, a, matrix(extent, extent, ranked.basis@), ranked.rank as int),
    ensures
        ({
            let kept = extent - ranked.rank;
            let n = matrix(extent, kept, null_columns(ranked, extent));
            &&& n.shaped()
            &&& ring.mul(ring.adjoint(n), n) == ring.identity(kept)
            &&& ring.mul(ring.adjoint(n), a).shaped()
            &&& forall|i: int, j: int|
                0 <= i < kept && 0 <= j < a.cols ==> #[trigger] ring.mul(ring.adjoint(n), a).at(
                    i,
                    j,
                ) == ring.zero
        }),
{
    let rank = ranked.rank as int;
    let kept = extent - rank;
    let basis = matrix(extent, extent, ranked.basis@);
    let n = matrix(extent, kept, null_columns(ranked, extent));
    assert(extent * rank + extent * kept == extent * extent) by (nonlinear_arith)
        requires
            kept == extent - rank,
    ;
    assert(0 <= extent * rank && 0 <= extent * kept) by (nonlinear_arith)
        requires
            0 <= extent,
            0 <= rank,
            0 <= kept,
    ;
    let nh = ring.adjoint(n);
    let bh = ring.adjoint(basis);
    ring.adjoint_cells(n);
    ring.adjoint_cells(basis);
    ring.mul_cells(nh, n);
    ring.mul_cells(nh, a);
    ring.mul_cells(bh, basis);
    ring.mul_cells(bh, a);
    ring.identity_cells(kept);
    ring.identity_cells(extent);
    assert forall|m: int, i: int| 0 <= m < extent && 0 <= i < kept implies #[trigger] n.at(m, i)
        == basis.at(m, rank + i) by {
        lemma_place(extent, kept, m, i);
        lemma_place(extent, extent, m, rank + i);
        assert(extent * (rank + i) == extent * rank + extent * i) by (nonlinear_arith);
    }
    assert forall|i: int, m: int| 0 <= i < kept && 0 <= m < extent implies #[trigger] nh.at(i, m)
        == bh.at(rank + i, m) by {
        assert(nh.at(i, m) == ring.conj(n.at(m, i)));
        assert(bh.at(rank + i, m) == ring.conj(basis.at(m, rank + i)));
    }
    let square = ring.mul(nh, n);
    assert forall|i: int, j: int| 0 <= i < kept && 0 <= j < kept implies #[trigger] square.at(i, j)
        == ring.identity(kept).at(i, j) by {
        ring.total_same(
            |m: int| ring.product(nh.at(i, m), n.at(m, j)),
            |m: int| ring.product(bh.at(rank + i, m), basis.at(m, rank + j)),
            extent,
        );
        assert(ring.mul(bh, basis).at(rank + i, rank + j) == ring.identity(extent).at(
            rank + i,
            rank + j,
        ));
    }
    lemma_same_cells(square, ring.identity(kept));
    assert forall|i: int, j: int| 0 <= i < kept && 0 <= j < a.cols implies #[trigger] ring.mul(
        nh,
        a,
    ).at(i, j) == ring.zero by {
        ring.total_same(
            |m: int| ring.product(nh.at(i, m), a.at(m, j)),
            |m: int| ring.product(bh.at(rank + i, m), a.at(m, j)),
            extent,
        );
        assert(ring.mul(bh, a).at(rank + i, j) == ring.zero);
    }
}

/// The pair of a sector is a null space of the sector's matrix, of the dimension
/// that the rank leaves of the side.
pub proof fn lemma_null_pair_is_null_space<D, C: Fn(D) -> D>(
    ring: Ring<D>,
    a: Matrix<D>,
    geometry: Geometry,
    ranked: RankedBasis<D>,
    side: FactorSide,
    conjugate: C,
)
    requires
        ring.is_ring(),
        conjugates_in(ring, conjugate),
        a.shaped(),
        a.rows == geometry.rows,
        a.cols == geometry.cols,
        basis_fits(geometry, side, ranked),
        ({
            let m = side_matrix(ring, a, side);
            is_ranked(ring, m, matrix(m.rows, m.rows, ranked.basis@), ranked.rank as int)
        }),
    ensures
        ({
            let pair = null_pair(geometry, ranked, side, conjugate);
            &&& pair.sector == geometry.sector
            &&& pair.kept + ranked.rank == match side {
                FactorSide::Left => geometry.rows,
                FactorSide::Right => geometry.cols,
            }
            &&& is_null_space(ring, a, side, pair)
        }),
{
    let m = side_matrix(ring, a, side);
    let extent = geometry.side_extent(side) as int;
    let kept = extent - ranked.rank;
    let pair = null_pair(geometry, ranked, side, conjugate);
    ring.adjoint_cells(a);
    lemma_trailing_columns(ring, m, ranked, extent);
    if side == FactorSide::Right {
        let columns = matrix(extent, kept, null_columns(ranked, extent));
        lemma_adjoint_is_adjoint(
            ring,
            conjugate,
            null_columns(ranked, extent),
            extent,
            kept,
        );
        let n = matrix(kept, a.cols, pair.right);
        assert(n == ring.adjoint(columns));
        ring.adjoint_cells(columns);
        ring.adjoint_twice(columns);
        ring.adjoint_of_product(n, m);
        ring.adjoint_twice(a);
        let zeros = ring.mul(n, m);
        ring.adjoint_cells(zeros);
        ring.conj_of_constants();
        assert(ring.mul(a, ring.adjoint(n)) == ring.adjoint(zeros));
        assert forall|i: int, j: int| 0 <= i < a.rows && 0 <= j < kept implies #[trigger] ring.mul(
            a,
            ring.adjoint(n),
        ).at(i, j) == ring.zero by {
            assert(zeros.at(j, i) == ring.zero);
        }
    }
}

/// The pairs of a null space are those of the sectors that have null directions,
/// each with its own: none is left out, and sectors of full rank have none.
pub proof fn lemma_null_pairs_listed<D, C: Fn(D) -> D>(
    geometries: Seq<Geometry>,
    ranked: Seq<RankedBasis<D>>,
    side: FactorSide,
    conjugate: C,
    count: int,
)
    requires
        0 <= count <= ranked.len(),
        ranked.len() == geometries.len(),
    ensures
        forall|p: int|
            0 <= p < null_pairs(geometries, ranked, side, conjugate, count).len()
                ==> is_pair_of_some(
                #[trigger] null_pairs(geometries, ranked, side, conjugate, count)[p],
                geometries,
                ranked,
                side,
                conjugate,
                count,
            ),
        forall|k: int|
            0 <= k < count && (#[trigger] ranked[k]).rank != geometries[k].side_extent(side)
                ==> null_pairs(geometries, ranked, side, conjugate, count).contains(
                null_pair(geometries[k], ranked[k], side, conjugate),
            ),
    decreases count,
{
    if count > 0 {
        lemma_null_pairs_listed(geometries, ranked, side, conjugate, count - 1);
        let before = null_pairs(geometries, ranked, side, conjugate, count - 1);
        let after = null_pairs(geometries, ranked, side, conjugate, count);
        let last = null_pair(geometries[count - 1], ranked[count - 1], side, conjugate);
        assert forall|p: int| 0 <= p < after.len() implies is_pair_of_some(
            #[trigger] after[p],
            geometries,
            ranked,
            side,
            conjugate,
            count,
        ) by {
            if p < before.len() {
                assert(after[p] == before[p]);
                assert(is_pair_of_some(
                    before[p],
                    geometries,
                    ranked,
                    side,
                    conjugate,
                    count - 1,
                ));
                let k = choose|k: int|
                    {
                        &&& 0 <= k < count - 1
                        &&& (#[trigger] ranked[k]).rank != geometries[k].side_extent(side)
                        &&& before[p] == null_pair(geometries[k], ranked[k], side, conjugate)
                    };
                assert(ranked[k].rank != geometries[k].side_extent(side));
            } else {
                assert(ranked[count - 1].rank != geometries[count - 1].side_extent(side));
            }
        }
        assert forall|k: int|
            0 <= k < count && (#[trigger] ranked[k]).rank != geometries[k].side_extent(
                side,
            ) implies after.contains(null_pair(geometries[k], ranked[k], side, conjugate)) by {
            if k < count - 1 {
                let pair = null_pair(geometries[k], ranked[k], side, conjugate);
                let p = before.index_of(pair);
                assert(after[p] == before[p]);
            } else {
                assert(after[before.len() as int] == last);
            }
        }
    }
}

/// The pair belongs to one of the first sectors, which has null directions.
pub open spec fn is_pair_of_some<D, C: Fn(D) -> D>(
    pair: NullPair<D>,
    geometries: Seq<Geometry>,
    ranked: Seq<RankedBasis<D>>,
    side: FactorSide,
    conjugate: C,
    count: int,
) -> bool {
    exists|k: int|
        {
            &&& 0 <= k < count
            &&& (#[trigger] ranked[k]).rank != geometries[k].side_extent(side)
            &&& pair == null_pair(geometries[k], ranked[k], side, conjugate)
        }
}

/// The bond of a null space: every sector of the source with what its rank leaves,
/// unless that is nothing; every other sector with the dimension it had.
pub proof fn lemma_null_bond_is_what_is_left<D>(
    dimensions: Seq<SectorRank>,
    geometries: Seq<Geometry>,
    ranked: Seq<RankedBasis<D>>,
    side: FactorSide,
    count: int,
    sector: SectorId,
)
    requires
        ascending(dimensions),
        sectors_distinct(geometries),
        0 <= count <= ranked.len(),
        ranked.len() == geometries.len(),
        forall|k: int|
            0 <= k < ranked.len() ==> basis_fits(geometries[k], side, #[trigger] ranked[k]),
    ensures
        ascending(null_bond(dimensions, geometries, ranked, side, count)),
        forall|k: int|
            0 <= k < count && (#[trigger] geometries[k]).sector == sector ==> rank_of(
                null_bond(dimensions, geometries, ranked, side, count),
                sector,
            ) == if ranked[k].rank == geometries[k].side_extent(side) {
                None
            } else {
                Some((geometries[k].side_extent(side) - ranked[k].rank) as usize)
            },
        (forall|k: int| 0 <= k < count ==> (#[trigger] geometries[k]).sector != sector)
            ==> rank_of(null_bond(dimensions, geometries, ranked, side, count), sector) == rank_of(
            dimensions,
            sector,
        ),
    decreases count,
{
    if count > 0 {
        lemma_null_bond_is_what_is_left(dimensions, geometries, ranked, side, count - 1, sector);
        let before = null_bond(dimensions, geometries, ranked, side, count - 1);
        let geometry = geometries[count - 1];
        let extent = geometry.side_extent(side);
        let rank = ranked[count - 1].rank;
        assert(basis_fits(geometry, side, ranked[count - 1]));
        lemma_removed_rank_is_gone(before, geometry.sector, sector);
        crate::bond_laws::lemma_removal_ascends(before, geometry.sector);
        lemma_given_rank_is_found(
            before,
            SectorRank { sector: geometry.sector, kept: (extent - rank) as usize },
            sector,
        );
        assert forall|k: int| 0 <= k < count && (#[trigger] geometries[k]).sector == sector implies
            rank_of(null_bond(dimensions, geometries, ranked, side, count), sector)
            == if ranked[k].rank == geometries[k].side_extent(side) {
            None
        } else {
            Some((geometries[k].side_extent(side) - ranked[k].rank) as usize)
        } by {
            if k < count - 1 {
                assert(geometries[k].sector != geometries[count - 1].sector);
            }
        }
    }
}

} // verus!
