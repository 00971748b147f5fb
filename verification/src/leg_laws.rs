//! How large the bonds of factorizations are.

use vstd::prelude::*;

use crate::bond::{ascending, lemma_rank_at, lemma_rank_of, rank_of};
use crate::bond_laws::lemma_given_rank_is_found;
use crate::eigen_drive::order_bond;
use crate::factor::SectorRank;
use crate::factor_routes::{compact_bond, smaller};
use crate::geometry::Geometry;
use crate::lq_drive::adjoint_extent;
use crate::polar::{dimension_of, shapes_accepted, PolarDirection};
use crate::sector::SectorId;
use crate::space::degeneracy_sum;
use crate::spectrum::{spectrum_bond, SectorSpectrum};
use crate::stages::BondExtent;
use crate::truncation_laws::value_count;

verus! {

/// The smaller of two numbers is one of them and exceeds neither.
pub proof fn lemma_smaller(a: usize, b: usize)
    ensures
        smaller(a, b) <= a,
        smaller(a, b) <= b,
        smaller(a, b) == a || smaller(a, b) == b,
{
}

/// A compact bond has every sector of the source, with as many states as the
/// shorter side of its matrix; the source's adjoint has the same bond.
pub proof fn lemma_compact_bond_is_shorter_side(source: Seq<Geometry>, adjoint: Seq<Geometry>, k: int)
    requires
        0 <= k < source.len(),
        adjoint.len() == source.len(),
        forall|j: int|
            0 <= j < source.len() ==> {
                &&& (#[trigger] adjoint[j]).sector == source[j].sector
                &&& adjoint[j].rows == source[j].cols
                &&& adjoint[j].cols == source[j].rows
            },
    ensures
        compact_bond(source).len() == source.len(),
        compact_bond(source)[k].sector == source[k].sector,
        compact_bond(source)[k].kept <= source[k].rows,
        compact_bond(source)[k].kept <= source[k].cols,
        compact_bond(source)[k].kept == source[k].rows || compact_bond(source)[k].kept
            == source[k].cols,
        compact_bond(source) == compact_bond(adjoint),
{
    assert(compact_bond(source) =~= compact_bond(adjoint)) by {
        assert forall|j: int| 0 <= j < source.len() implies compact_bond(source)[j]
            == compact_bond(adjoint)[j] by {
            assert(adjoint[j].sector == source[j].sector);
        }
    }
}

/// The bond of a matrix and that of its adjoint have the same extent; it reaches
/// as far as the side that it names, and a compact one not beyond the other.
pub proof fn lemma_extent_of_adjoint(bond: BondExtent, rows: usize, cols: usize)
    ensures
        adjoint_extent(bond).spec_of(cols, rows) == bond.spec_of(rows, cols),
        adjoint_extent(adjoint_extent(bond)) == bond,
        bond.spec_of(rows, cols) == rows || bond.spec_of(rows, cols) == cols,
        bond == BondExtent::Compact ==> bond.spec_of(rows, cols) <= rows && bond.spec_of(
            rows,
            cols,
        ) <= cols,
        bond == BondExtent::Rows ==> bond.spec_of(rows, cols) == rows,
        bond == BondExtent::Cols ==> bond.spec_of(rows, cols) == cols,
{
}

/// The bond of a diagonal tensor has a state for every value, in the sector of that
/// value.
pub proof fn lemma_diagonal_leg_counts_values<V>(spectrum: Seq<SectorSpectrum<V>>, count: int)
    requires
        0 <= count <= spectrum.len(),
        forall|k: int|
            0 <= k < spectrum.len() ==> (#[trigger] spectrum[k]).values@.len() <= usize::MAX,
    ensures
        spectrum_bond(spectrum).len() == spectrum.len(),
        forall|k: int|
            0 <= k < spectrum.len() ==> (#[trigger] spectrum_bond(spectrum)[k]).sector
                == spectrum[k].sector,
        degeneracy_sum(spectrum_bond(spectrum), count) == value_count(spectrum.take(count)),
    decreases count,
{
    if count > 0 {
        lemma_diagonal_leg_counts_values(spectrum, count - 1);
        assert(spectrum.take(count).drop_last() =~= spectrum.take(count - 1));
        assert(spectrum.take(count).last() == spectrum[count - 1]);
        assert(spectrum[count - 1].values@.len() <= usize::MAX);
    } else {
        assert(spectrum.take(0) =~= Seq::<SectorSpectrum<V>>::empty());
    }
}

/// The bond of an eigendecomposition gives every sector the order of its last
/// matrix, and no other sector anything, in ascending order.
pub proof fn lemma_order_bond(geometries: Seq<Geometry>, sector: SectorId)
    ensures
        ascending(order_bond(geometries)),
        match rank_of(order_bond(geometries), sector) {
            Some(order) => exists|g: int|
                0 <= g < geometries.len() && (#[trigger] geometries[g]).sector == sector
                    && geometries[g].rows == order && forall|later: int|
                    g < later < geometries.len() ==> (#[trigger] geometries[later]).sector
                        != sector,
            None => forall|g: int|
                0 <= g < geometries.len() ==> (#[trigger] geometries[g]).sector != sector,
        },
    decreases geometries.len(),
{
    if geometries.len() > 0 {
        let before = geometries.drop_last();
        lemma_order_bond(before, sector);
        let last = geometries.last();
        lemma_given_rank_is_found(
            order_bond(before),
            SectorRank { sector: last.sector, kept: last.rows },
            sector,
        );
        if last.sector == sector {
            assert(geometries[geometries.len() - 1].sector == sector);
        } else {
            match rank_of(order_bond(before), sector) {
                Some(order) => {
                    let g = choose|g: int|
                        0 <= g < before.len() && (#[trigger] before[g]).sector == sector
                            && before[g].rows == order && forall|later: int|
                            g < later < before.len() ==> (#[trigger] before[later]).sector
                                != sector;
                    assert(geometries[g] == before[g]);
                    assert forall|later: int| g < later < geometries.len() implies (
                    #[trigger] geometries[later]).sector != sector by {
                        if later < before.len() {
                            assert(geometries[later] == before[later]);
                        }
                    }
                },
                None => {
                    assert forall|g: int| 0 <= g < geometries.len() implies (
                    #[trigger] geometries[g]).sector != sector by {
                        if g < before.len() {
                            assert(geometries[g] == before[g]);
                        }
                    }
                },
            }
        }
    }
}

/// A polar decomposition is accepted exactly where no sector is larger on the side
/// of the positive factor than on the other.
pub proof fn lemma_polar_shapes(rows: Seq<SectorRank>, cols: Seq<SectorRank>)
    requires
        ascending(rows),
        ascending(cols),
    ensures
        shapes_accepted(rows, cols, PolarDirection::Left) <==> forall|sector: SectorId|
            #[trigger] dimension_of(cols, sector) <= dimension_of(rows, sector),
        shapes_accepted(rows, cols, PolarDirection::Right) <==> forall|sector: SectorId|
            #[trigger] dimension_of(rows, sector) <= dimension_of(cols, sector),
{
    assert forall|sector: SectorId| shapes_accepted(rows, cols, PolarDirection::Left) implies
        #[trigger] dimension_of(cols, sector) <= dimension_of(rows, sector) by {
        lemma_listed(rows, sector);
        lemma_listed(cols, sector);
    }
    assert forall|sector: SectorId| shapes_accepted(rows, cols, PolarDirection::Right) implies
        #[trigger] dimension_of(rows, sector) <= dimension_of(cols, sector) by {
        lemma_listed(rows, sector);
        lemma_listed(cols, sector);
    }
    if forall|sector: SectorId|
        #[trigger] dimension_of(cols, sector) <= dimension_of(rows, sector) {
        assert forall|k: int| 0 <= k < rows.len() implies PolarDirection::Left.spec_accepts(
            (#[trigger] rows[k]).kept,
            dimension_of(cols, rows[k].sector),
        ) by {
            lemma_rank_at(rows, k);
        }
        assert forall|k: int|
            0 <= k < cols.len() && rank_of(rows, (#[trigger] cols[k]).sector) is None implies
            PolarDirection::Left.spec_accepts(0, cols[k].kept) by {
            lemma_rank_at(cols, k);
            assert(dimension_of(cols, cols[k].sector) <= dimension_of(rows, cols[k].sector));
        }
    }
    if forall|sector: SectorId|
        #[trigger] dimension_of(rows, sector) <= dimension_of(cols, sector) {
        assert forall|k: int| 0 <= k < rows.len() implies PolarDirection::Right.spec_accepts(
            (#[trigger] rows[k]).kept,
            dimension_of(cols, rows[k].sector),
        ) by {
            lemma_rank_at(rows, k);
            assert(dimension_of(rows, rows[k].sector) <= dimension_of(cols, rows[k].sector));
        }
    }
}

/// A dimension that is not zero stands in the list.
proof fn lemma_listed(ranks: Seq<SectorRank>, sector: SectorId)
    ensures
        rank_of(ranks, sector) is Some ==> exists|k: int|
            0 <= k < ranks.len() && (#[trigger] ranks[k]).sector == sector && ranks[k].kept
                == rank_of(ranks, sector)->0,
{
    lemma_rank_of(ranks, sector);
}

} // verus!
