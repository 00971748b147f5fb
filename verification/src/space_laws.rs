//! How the spaces of factors, inverses and solutions compose to those they came
//! from.

use vstd::prelude::*;

use crate::factor::SectorRank;
use crate::fusion_laws::weighed;
use crate::layout::FactorSide;
use crate::polar::{positive_hom, PolarDirection};
use crate::sector::SectorId;
use crate::sector_solve::{pinv_plan, solve_left_plan, solve_refusal};
use crate::space::{
    bond_hom, counting, degeneracy_sum, factor_hom, replaced_leg, solution_hom, swapped_hom, Hom,
    Leg, MapSpace,
};

verus! {

/// Maps `a` after maps `b`, where the legs between them agree.
pub open spec fn composed(a: Hom, b: Hom) -> Option<Hom> {
    if a.domain == b.codomain {
        Some(Hom { codomain: a.codomain, domain: b.domain })
    } else {
        None
    }
}

/// Both factors over one bond compose to the maps they came from, and so they do
/// with a bond tensor between their bonds.
pub proof fn lemma_factors_compose(hom: Hom, row: Leg, col: Leg)
    ensures
        composed(
            factor_hom(hom, row, FactorSide::Left),
            factor_hom(hom, row, FactorSide::Right),
        ) == Some(hom),
        composed(factor_hom(hom, row, FactorSide::Left), bond_hom(row, col)) == Some(
            factor_hom(hom, col, FactorSide::Left),
        ),
        composed(bond_hom(row, col), factor_hom(hom, col, FactorSide::Right)) == Some(
            factor_hom(hom, row, FactorSide::Right),
        ),
{
}

/// An inverse leads back: after the map it is an endomorphism of one side, before
/// it of the other; and the inverse of the inverse has the map's own spaces.
pub proof fn lemma_inverse_leads_back(hom: Hom)
    ensures
        composed(hom, swapped_hom(hom)) == Some(
            (Hom { codomain: hom.codomain, domain: hom.codomain }),
        ),
        composed(swapped_hom(hom), hom) == Some((Hom { codomain: hom.domain, domain: hom.domain })),
        swapped_hom(swapped_hom(hom)) == hom,
{
}

/// The divisor after a solution is the right-hand side, and no other maps have
/// that property.
pub proof fn lemma_solution_solves(divisor: Hom, rhs: Hom, x: Hom)
    requires
        divisor.codomain == rhs.codomain,
    ensures
        composed(divisor, x) == Some(rhs) <==> x == solution_hom(divisor, rhs),
{
}

/// A left solve is refused for its spaces exactly where no maps solve it, or where
/// two rules are named and differ.
pub proof fn lemma_solve_admission(divisor: MapSpace, rhs: MapSpace)
    ensures
        solve_refusal(divisor, rhs) is None <==> {
            &&& exists|x: Hom| #[trigger]
                composed(divisor.homspace@, x) == Some(rhs.homspace@)
            &&& divisor.rule_identity is Some && rhs.rule_identity is Some
                ==> divisor.rule_identity == rhs.rule_identity
        },
{
    let x = solution_hom(divisor.homspace@, rhs.homspace@);
    if divisor.homspace@.codomain == rhs.homspace@.codomain {
        assert(composed(divisor.homspace@, x) == Some(rhs.homspace@));
    }
}

/// The positive factor is an endomorphism, and with the isometry on its side it
/// composes to the maps it came from.
pub proof fn lemma_polar_factors_compose(hom: Hom)
    ensures
        composed(hom, positive_hom(hom, PolarDirection::Left)) == Some(hom),
        composed(positive_hom(hom, PolarDirection::Right), hom) == Some(hom),
        positive_hom(hom, PolarDirection::Left).codomain == positive_hom(
            hom,
            PolarDirection::Left,
        ).domain,
        positive_hom(hom, PolarDirection::Right).codomain == positive_hom(
            hom,
            PolarDirection::Right,
        ).domain,
{
}

/// All legs of some maps, those of the codomain first.
pub open spec fn all_legs(hom: Hom) -> Seq<Leg> {
    hom.codomain + hom.domain
}

/// Replacing a leg changes that leg and no other, on its own side.
pub proof fn lemma_leg_replaced(hom: Hom, axis: int, leg: Leg)
    requires
        0 <= axis < all_legs(hom).len(),
    ensures
        all_legs(replaced_leg(hom, axis, leg)) == all_legs(hom).update(axis, leg),
        replaced_leg(hom, axis, leg).codomain.len() == hom.codomain.len(),
        replaced_leg(hom, axis, leg).domain.len() == hom.domain.len(),
{
    assert(all_legs(replaced_leg(hom, axis, leg)) =~= all_legs(hom).update(axis, leg));
}

/// A planned pseudo-inverse leads back between the spaces of the source, under
/// the same rule and provider.
pub proof fn lemma_planned_pinv_leads_back(source: MapSpace, output: MapSpace, len: usize)
    requires
        pinv_plan(source, output, len) is Ok,
    ensures
        composed(source.homspace@, output.homspace@) is Some,
        composed(output.homspace@, source.homspace@) is Some,
        source.rule_identity is Some,
        output.rule_identity == source.rule_identity,
        output.provider == source.provider,
        output.nout == source.homspace@.domain.len(),
        output.nin == source.homspace@.codomain.len(),
        output.rank == output.nout + output.nin,
{
}

/// A planned left solve has an output that the divisor takes to the right-hand
/// side, under the same rule.
pub proof fn lemma_planned_solve_solves(
    divisor: MapSpace,
    rhs: MapSpace,
    output: MapSpace,
    divisor_len: usize,
    rhs_len: usize,
)
    requires
        solve_left_plan(divisor, rhs, output, divisor_len, rhs_len) is Ok,
    ensures
        composed(divisor.homspace@, output.homspace@) == Some(rhs.homspace@),
        divisor.rule_identity is Some,
        rhs.rule_identity == divisor.rule_identity,
        output.rule_identity == divisor.rule_identity,
        output.provider == divisor.provider,
        output.nout == output.homspace@.codomain.len(),
        output.nin == output.homspace@.domain.len(),
        output.rank == output.nout + output.nin,
{
}

/// The axes of a composition: the domain axes of the left map pair up, in order,
/// with the codomain axes of the right one, so that every other axis is left over.
pub proof fn lemma_axes_pair_up(nout: usize, nin: usize, k: int)
    requires
        nout + nin <= usize::MAX,
        0 <= k < nin,
    ensures
        counting(nout as int, nout + nin).len() == nin,
        counting(0, nin as int).len() == nin,
        counting(nout as int, nout + nin)[k] == nout + k,
        counting(0, nin as int)[k] == k,
{
}

/// The dimension of a leg counts every state of every sector once.
pub proof fn lemma_dimension_counts_states(sectors: Seq<SectorRank>, count: int)
    requires
        0 <= count <= sectors.len(),
    ensures
        degeneracy_sum(sectors, count) == weighed(
            sectors.take(count),
            |sector: SectorId| 1int,
        ),
    decreases count,
{
    let one = |sector: SectorId| 1int;
    if count > 0 {
        lemma_dimension_counts_states(sectors, count - 1);
        crate::fusion_laws::lemma_weighed_last(sectors.take(count), one);
        assert(sectors.take(count).drop_last() =~= sectors.take(count - 1));
    } else {
        assert(sectors.take(0) =~= Seq::<SectorRank>::empty());
    }
}

} // verus!
