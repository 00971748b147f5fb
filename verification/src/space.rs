//! Legs, hom spaces and factors that live on them.

use vstd::prelude::*;

use crate::error::OperationError;
use crate::factor::SectorRank;
use crate::geometry::CoupledSectorRegion;
use crate::layout::FactorSide;
use crate::structure::BlockStructure;

verus! {

/// One leg: its sectors with their degeneracies, and whether it is dual.
#[derive(Clone, Debug, PartialEq, Eq)]
pub struct SectorLeg {
    pub sectors: Vec<SectorRank>,
    pub is_dual: bool,
}

/// What a [`SectorLeg`] stands for.
pub struct Leg {
    pub sectors: Seq<SectorRank>,
    pub is_dual: bool,
}

impl View for SectorLeg {
    type V = Leg;

    open spec fn view(&self) -> Leg {
        Leg { sectors: self.sectors@, is_dual: self.is_dual }
    }
}

/// What the legs stand for.
pub open spec fn legs_view(legs: Seq<SectorLeg>) -> Seq<Leg> {
    legs.map_values(|leg: SectorLeg| leg@)
}

/// Sum of the first `count` degeneracies of a leg.
pub open spec fn degeneracy_sum(sectors: Seq<SectorRank>, count: int) -> int
    decreases count,
{
    if count <= 0 {
        0
    } else {
        degeneracy_sum(sectors, count - 1) + sectors[count - 1].kept
    }
}

proof fn lemma_degeneracy_sum_grows(sectors: Seq<SectorRank>, low: int, high: int)
    requires
        0 <= low <= high <= sectors.len(),
    ensures
        degeneracy_sum(sectors, low) <= degeneracy_sum(sectors, high),
    decreases high - low,
{
    if low < high {
        lemma_degeneracy_sum_grows(sectors, low, high - 1);
    }
}

impl SectorLeg {
    /// A leg of these sectors that is not dual.
    pub fn new(sectors: Vec<SectorRank>) -> (leg: SectorLeg)
        ensures
            leg@.sectors == sectors@,
            !leg@.is_dual,
    {
        SectorLeg { sectors, is_dual: false }
    }

    pub fn same(&self, other: &SectorLeg) -> (same: bool)
        ensures
            same == (self@ == other@),
    {
        if self.is_dual != other.is_dual || self.sectors.len() != other.sectors.len() {
            return false;
        }
        let mut k: usize = 0;
        while k < self.sectors.len()
            invariant
                k <= self.sectors@.len() == other.sectors@.len(),
                forall|j: int| 0 <= j < k ==> self.sectors@[j] == other.sectors@[j],
            decreases self.sectors.len() - k,
        {
            if self.sectors[k].sector != other.sectors[k].sector || self.sectors[k].kept
                != other.sectors[k].kept {
                return false;
            }
            k += 1;
        }
        assert(self.sectors@ =~= other.sectors@);
        true
    }

    /// A leg with the same sectors.
    pub fn duplicate(&self) -> (leg: SectorLeg)
        ensures
            leg@ == self@,
    {
        SectorLeg {
            sectors: vstd::slice::slice_to_vec(self.sectors.as_slice()),
            is_dual: self.is_dual,
        }
    }

    /// The dimension of the leg: the sum of its degeneracies.
    pub fn dimension(&self) -> (result: Result<usize, OperationError>)
        ensures
            match result {
                Ok(dimension) => dimension == degeneracy_sum(
                    self@.sectors,
                    self@.sectors.len() as int,
                ),
                Err(error) => error == OperationError::ElementCountOverflow && degeneracy_sum(
                    self@.sectors,
                    self@.sectors.len() as int,
                ) > usize::MAX,
            },
    {
        let mut total: usize = 0;
        let mut k: usize = 0;
        while k < self.sectors.len()
            invariant
                k <= self.sectors@.len(),
                total == degeneracy_sum(self.sectors@, k as int),
            decreases self.sectors.len() - k,
        {
            match total.checked_add(self.sectors[k].kept) {
                Some(next) => {
                    total = next;
                },
                None => {
                    proof {
                        lemma_degeneracy_sum_grows(
                            self.sectors@,
                            k + 1,
                            self.sectors@.len() as int,
                        );
                    }
                    return Err(OperationError::ElementCountOverflow);
                },
            }
            k += 1;
        }
        Ok(total)
    }
}

/// A product of legs.
#[derive(Clone, Debug, PartialEq, Eq)]
pub struct FusionProductSpace {
    pub legs: Vec<SectorLeg>,
}

impl View for FusionProductSpace {
    type V = Seq<Leg>;

    open spec fn view(&self) -> Seq<Leg> {
        legs_view(self.legs@)
    }
}

impl FusionProductSpace {
    pub fn same(&self, other: &FusionProductSpace) -> (same: bool)
        ensures
            same == (self@ == other@),
    {
        if self.legs.len() != other.legs.len() {
            assert(self@.len() == self.legs@.len() && other@.len() == other.legs@.len());
            return false;
        }
        let mut k: usize = 0;
        while k < self.legs.len()
            invariant
                k <= self.legs@.len() == other.legs@.len(),
                forall|j: int| 0 <= j < k ==> (#[trigger] self.legs@[j])@ == other.legs@[j]@,
            decreases self.legs.len() - k,
        {
            if !self.legs[k].same(&other.legs[k]) {
                assert(self@[k as int] == self.legs@[k as int]@);
                assert(other@[k as int] == other.legs@[k as int]@);
                return false;
            }
            k += 1;
        }
        assert(self@ =~= other@);
        true
    }

    pub fn duplicate(&self) -> (space: FusionProductSpace)
        ensures
            space@ == self@,
    {
        let mut legs: Vec<SectorLeg> = Vec::with_capacity(self.legs.len());
        let mut k: usize = 0;
        while k < self.legs.len()
            invariant
                k <= self.legs@.len(),
                legs@.len() == k,
                forall|j: int| 0 <= j < k ==> (#[trigger] legs@[j])@ == self.legs@[j]@,
            decreases self.legs.len() - k,
        {
            legs.push(self.legs[k].duplicate());
            k += 1;
        }
        assert(legs_view(legs@) =~= self@);
        FusionProductSpace { legs }
    }

    /// The product of one leg.
    pub fn of_leg(leg: SectorLeg) -> (space: FusionProductSpace)
        ensures
            space@ == seq![leg@],
    {
        let mut legs: Vec<SectorLeg> = Vec::new();
        legs.push(leg);
        let space = FusionProductSpace { legs };
        assert(space@ =~= seq![leg@]);
        space
    }

    /// The product with one leg in place of another.
    pub fn with_leg(&self, axis: usize, leg: SectorLeg) -> (space: FusionProductSpace)
        requires
            axis < self@.len(),
        ensures
            space@ == self@.update(axis as int, leg@),
    {
        let mut space = self.duplicate();
        let ghost before = space.legs@;
        space.legs.set(axis, leg);
        assert(space@ =~= self@.update(axis as int, leg@)) by {
            assert forall|k: int| 0 <= k < self@.len() implies space@[k] == self@.update(
                axis as int,
                leg@,
            )[k] by {
                if k != axis {
                    assert(space.legs@[k] == before[k]);
                    assert(legs_view(before)[k] == before[k]@);
                }
            }
        }
        space
    }
}

/// The maps from a domain to a codomain.
#[derive(Clone, Debug, PartialEq, Eq)]
pub struct FusionTreeHomSpace {
    pub codomain: FusionProductSpace,
    pub domain: FusionProductSpace,
}

/// What a [`FusionTreeHomSpace`] stands for.
pub struct Hom {
    pub codomain: Seq<Leg>,
    pub domain: Seq<Leg>,
}

impl View for FusionTreeHomSpace {
    type V = Hom;

    open spec fn view(&self) -> Hom {
        Hom { codomain: self.codomain@, domain: self.domain@ }
    }
}

impl FusionTreeHomSpace {
    pub fn same(&self, other: &FusionTreeHomSpace) -> (same: bool)
        ensures
            same == (self@ == other@),
    {
        self.codomain.same(&other.codomain) && self.domain.same(&other.domain)
    }

    /// Whether codomain and domain are the same.
    pub fn is_endomorphism(&self) -> (result: bool)
        ensures
            result == (self@.codomain == self@.domain),
    {
        self.codomain.same(&self.domain)
    }

    /// The maps in the other direction.
    pub fn swapped(&self) -> (hom: FusionTreeHomSpace)
        ensures
            hom@ == swapped_hom(self@),
    {
        FusionTreeHomSpace {
            codomain: self.domain.duplicate(),
            domain: self.codomain.duplicate(),
        }
    }

    /// The hom space of one factor with a new bond leg: `codomain <- bond` on
    /// the left, `bond <- domain` on the right.
    pub fn factor(&self, bond: SectorLeg, side: FactorSide) -> (hom: FusionTreeHomSpace)
        ensures
            hom@ == factor_hom(self@, bond@, side),
    {
        match side {
            FactorSide::Left => FusionTreeHomSpace {
                codomain: self.codomain.duplicate(),
                domain: FusionProductSpace::of_leg(bond),
            },
            FactorSide::Right => FusionTreeHomSpace {
                codomain: FusionProductSpace::of_leg(bond),
                domain: self.domain.duplicate(),
            },
        }
    }

    /// The hom space of a bond tensor between two bond legs.
    pub fn bond(row: SectorLeg, col: SectorLeg) -> (hom: FusionTreeHomSpace)
        ensures
            hom@ == bond_hom(row@, col@),
    {
        FusionTreeHomSpace {
            codomain: FusionProductSpace::of_leg(row),
            domain: FusionProductSpace::of_leg(col),
        }
    }

    /// The hom space with one leg replaced, codomain legs counted first.
    pub fn with_leg(&self, axis: usize, leg: SectorLeg) -> (hom: FusionTreeHomSpace)
        requires
            axis < self@.codomain.len() + self@.domain.len(),
        ensures
            hom@ == replaced_leg(self@, axis as int, leg@),
    {
        let nout: usize = self.codomain.legs.len();
        if axis < nout {
            FusionTreeHomSpace {
                codomain: self.codomain.with_leg(axis, leg),
                domain: self.domain.duplicate(),
            }
        } else {
            FusionTreeHomSpace {
                codomain: self.codomain.duplicate(),
                domain: self.domain.with_leg(axis - nout, leg),
            }
        }
    }
}

/// The maps in the other direction.
pub open spec fn swapped_hom(hom: Hom) -> Hom {
    Hom { codomain: hom.domain, domain: hom.codomain }
}

/// The maps between two bond legs.
pub open spec fn bond_hom(row: Leg, col: Leg) -> Hom {
    Hom { codomain: seq![row], domain: seq![col] }
}

/// The maps `x` with `divisor * x = rhs`, for maps of the same codomain.
pub open spec fn solution_hom(divisor: Hom, rhs: Hom) -> Hom {
    Hom { codomain: divisor.domain, domain: rhs.domain }
}

/// The hom space of one factor with a new bond leg.
pub open spec fn factor_hom(hom: Hom, bond: Leg, side: FactorSide) -> Hom {
    match side {
        FactorSide::Left => Hom { codomain: hom.codomain, domain: seq![bond] },
        FactorSide::Right => Hom { codomain: seq![bond], domain: hom.domain },
    }
}

/// A hom space with one leg replaced, codomain legs counted first.
pub open spec fn replaced_leg(hom: Hom, axis: int, leg: Leg) -> Hom {
    let nout = hom.codomain.len() as int;
    if axis < nout {
        Hom { codomain: hom.codomain.update(axis, leg), domain: hom.domain }
    } else {
        Hom { codomain: hom.codomain, domain: hom.domain.update(axis - nout, leg) }
    }
}

/// A hom space with its block layout and the authority that admitted it.
#[derive(Clone, Debug, PartialEq, Eq)]
pub struct MapSpace {
    /// Identity of the fusion rule, where the space was admitted with one.
    pub rule_identity: Option<usize>,
    /// The provider that holds the rule.
    pub provider: usize,
    pub homspace: FusionTreeHomSpace,
    pub nout: usize,
    pub nin: usize,
    pub rank: usize,
    pub structure: BlockStructure,
    /// The coupled-sector regions, where every sector lies in one piece.
    pub regions: Option<Vec<CoupledSectorRegion>>,
}

/// A factor on its space.
#[derive(Clone, Debug, PartialEq, Eq)]
pub struct BoundDynFactor<D> {
    space: MapSpace,
    data: Vec<D>,
}

/// The refusal of data that does not belong to a space with these leg counts.
pub open spec fn binding_refusal(
    space: MapSpace,
    len: int,
    nout: int,
    nin: int,
) -> Option<OperationError> {
    if space.nout != nout || space.nin != nin {
        Some(
            OperationError::RankMismatch { expected: (nout + nin) as usize, actual: space.rank },
        )
    } else if len != space.structure.spec_len() {
        Some(
            OperationError::DimensionMismatch {
                expected: space.structure.spec_len(),
                actual: len as usize,
            },
        )
    } else {
        None
    }
}

impl<D> BoundDynFactor<D> {
    pub closed spec fn spec_space(self) -> MapSpace {
        self.space
    }

    pub closed spec fn spec_data(self) -> Seq<D> {
        self.data@
    }

    /// The data has the length that the space asks for.
    pub open spec fn wf(self) -> bool {
        self.spec_data().len() == self.spec_space().structure.spec_len()
    }

    /// Binds data to a space that has the expected leg counts and length.
    pub fn from_bound(
        space: MapSpace,
        data: Vec<D>,
        expected_nout: usize,
        expected_nin: usize,
    ) -> (result: Result<BoundDynFactor<D>, OperationError>)
        requires
            expected_nout + expected_nin <= usize::MAX,
        ensures
            match (result, binding_refusal(
                space,
                data@.len() as int,
                expected_nout as int,
                expected_nin as int,
            )) {
                (Ok(factor), None) => {
                    &&& factor.wf()
                    &&& factor.spec_space() == space
                    &&& factor.spec_data() == data@
                },
                (Err(error), Some(expected)) => error == expected,
                _ => false,
            },
    {
        if space.nout != expected_nout || space.nin != expected_nin {
            return Err(
                OperationError::RankMismatch {
                    expected: expected_nout + expected_nin,
                    actual: space.rank,
                },
            );
        }
        let expected: usize = space.structure.required_len();
        if data.len() != expected {
            return Err(OperationError::DimensionMismatch { expected, actual: data.len() });
        }
        Ok(BoundDynFactor { space, data })
    }

    pub fn space(&self) -> (space: &MapSpace)
        ensures
            *space == self.spec_space(),
    {
        &self.space
    }

    pub fn data(&self) -> (data: &[D])
        ensures
            data@ == self.spec_data(),
    {
        self.data.as_slice()
    }

    pub fn into_parts(self) -> (parts: (MapSpace, Vec<D>))
        ensures
            parts.0 == self.spec_space(),
            parts.1@ == self.spec_data(),
    {
        (self.space, self.data)
    }
}

/// The axes over which two maps are composed: the domain axes of the left one
/// and the codomain axes of the right one.
#[derive(Clone, Debug, PartialEq, Eq)]
pub struct ComposeAxes {
    pub lhs: Vec<usize>,
    pub rhs: Vec<usize>,
}

/// The numbers from `from` up to, but not including, `to`.
pub open spec fn counting(from: int, to: int) -> Seq<usize> {
    Seq::new((to - from) as nat, |k: int| (from + k) as usize)
}

fn count_up(from: usize, to: usize) -> (numbers: Vec<usize>)
    requires
        from <= to,
    ensures
        numbers@ == counting(from as int, to as int),
{
    let mut numbers: Vec<usize> = Vec::new();
    let mut next: usize = from;
    while next < to
        invariant
            from <= next <= to,
            numbers@.len() == next - from,
            forall|k: int| 0 <= k < numbers@.len() ==> numbers@[k] == from + k,
        decreases to - next,
    {
        numbers.push(next);
        next += 1;
    }
    assert(numbers@ =~= counting(from as int, to as int));
    numbers
}

/// The axes of the composition `lhs * rhs`. The domain of the left map and the
/// codomain of the right one have to have the same number of legs.
pub fn compose_axes(
    lhs_nout: usize,
    lhs_nin: usize,
    rhs_nout: usize,
) -> (result: Result<ComposeAxes, OperationError>)
    requires
        lhs_nout + lhs_nin <= usize::MAX,
    ensures
        match result {
            Ok(axes) => {
                &&& lhs_nin == rhs_nout
                &&& axes.lhs@ == counting(lhs_nout as int, lhs_nout + lhs_nin)
                &&& axes.rhs@ == counting(0, rhs_nout as int)
            },
            Err(error) => lhs_nin != rhs_nout && error == (OperationError::RankMismatch {
                expected: lhs_nin,
                actual: rhs_nout,
            }),
        },
{
    if lhs_nin != rhs_nout {
        return Err(OperationError::RankMismatch { expected: lhs_nin, actual: rhs_nout });
    }
    Ok(
        ComposeAxes {
            lhs: count_up(lhs_nout, lhs_nout + lhs_nin),
            rhs: count_up(0, rhs_nout),
        },
    )
}

} // verus!
