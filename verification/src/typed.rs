//! Factors whose leg counts are part of their type.

use vstd::prelude::*;

use crate::error::OperationError;
use crate::space::{degeneracy_sum, BoundDynFactor, Leg, MapSpace, SectorLeg};

verus! {

/// A factor with `NOUT` codomain and `NIN` domain legs, and the dimension of
/// each leg.
#[derive(Clone, Debug, PartialEq, Eq)]
pub struct BoundTensorMap<D, const NOUT: usize, const NIN: usize> {
    factor: BoundDynFactor<D>,
    codomain_dims: Vec<usize>,
    domain_dims: Vec<usize>,
}

/// The dimension of one leg: all its degeneracies, those of sectors that no
/// tree takes part in among them.
pub open spec fn leg_dimension(leg: Leg) -> int {
    degeneracy_sum(leg.sectors, leg.sectors.len() as int)
}

/// Some of the first `count` legs has a dimension that does not fit.
pub open spec fn some_leg_overflows(legs: Seq<Leg>, count: int) -> bool {
    exists|k: int|
        0 <= k < count && k < legs.len() && leg_dimension(#[trigger] legs[k]) > usize::MAX
}

/// The dimensions of the first `count` legs; a leg that is not there has none.
pub open spec fn leg_dimensions(legs: Seq<Leg>, count: int) -> Seq<int> {
    Seq::new(
        count as nat,
        |k: int|
            if k < legs.len() {
                leg_dimension(legs[k])
            } else {
                0
            },
    )
}

/// The numbers as mathematical integers.
pub open spec fn as_ints(numbers: Seq<usize>) -> Seq<int> {
    numbers.map_values(|number: usize| number as int)
}

fn dimensions_of(legs: &[SectorLeg], count: usize) -> (result: Result<Vec<usize>, OperationError>)
    ensures
        ({
            let views = crate::space::legs_view(legs@);
            match result {
                Ok(dims) => {
                    &&& !some_leg_overflows(views, count as int)
                    &&& as_ints(dims@) == leg_dimensions(views, count as int)
                },
                Err(error) => {
                    &&& some_leg_overflows(views, count as int)
                    &&& error == OperationError::ElementCountOverflow
                },
            }
        }),
{
    let ghost views = crate::space::legs_view(legs@);
    let mut dims: Vec<usize> = Vec::with_capacity(count);
    let mut k: usize = 0;
    while k < count
        invariant
            k <= count,
            views == crate::space::legs_view(legs@),
            dims@.len() == k,
            forall|j: int|
                0 <= j < k && j < views.len() ==> leg_dimension(#[trigger] views[j]) <= usize::MAX,
            forall|j: int|
                0 <= j < k ==> (#[trigger] dims@[j]) == leg_dimensions(views, count as int)[j],
        decreases count - k,
    {
        if k < legs.len() {
            assert(views[k as int] == legs@[k as int]@);
            match legs[k].dimension() {
                Ok(dimension) => {
                    dims.push(dimension);
                },
                Err(error) => {
                    assert(leg_dimension(views[k as int]) > usize::MAX);
                    return Err(error);
                },
            }
        } else {
            dims.push(0);
        }
        k += 1;
    }
    assert(as_ints(dims@) =~= leg_dimensions(views, count as int));
    Ok(dims)
}

impl<D, const NOUT: usize, const NIN: usize> BoundTensorMap<D, NOUT, NIN> {
    pub closed spec fn spec_factor(self) -> BoundDynFactor<D> {
        self.factor
    }

    pub closed spec fn spec_codomain_dims(self) -> Seq<usize> {
        self.codomain_dims@
    }

    pub closed spec fn spec_domain_dims(self) -> Seq<usize> {
        self.domain_dims@
    }

    /// This factor, with the dimensions of its legs.
    pub open spec fn is_typed(self, factor: BoundDynFactor<D>) -> bool {
        let hom = factor.spec_space().homspace@;
        &&& self.spec_factor() == factor
        &&& as_ints(self.spec_codomain_dims()) == leg_dimensions(hom.codomain, NOUT as int)
        &&& as_ints(self.spec_domain_dims()) == leg_dimensions(hom.domain, NIN as int)
    }

    pub fn space(&self) -> (space: &MapSpace)
        ensures
            *space == self.spec_factor().spec_space(),
    {
        self.factor.space()
    }

    pub fn data(&self) -> (data: &[D])
        ensures
            data@ == self.spec_factor().spec_data(),
    {
        self.factor.data()
    }

    pub fn codomain_dims(&self) -> (dims: &[usize])
        ensures
            dims@ == self.spec_codomain_dims(),
    {
        self.codomain_dims.as_slice()
    }

    pub fn domain_dims(&self) -> (dims: &[usize])
        ensures
            dims@ == self.spec_domain_dims(),
    {
        self.domain_dims.as_slice()
    }

    /// The factor behind the type.
    pub fn factor(&self) -> (factor: &BoundDynFactor<D>)
        ensures
            *factor == self.spec_factor(),
    {
        &self.factor
    }

    /// The factor without its leg counts in the type.
    pub fn dynamic(self) -> (factor: BoundDynFactor<D>)
        ensures
            factor == self.spec_factor(),
    {
        self.factor
    }
}

/// The refusal of a factor with other leg counts, or with a leg whose dimension
/// does not fit.
pub open spec fn typing_refusal<D>(
    factor: BoundDynFactor<D>,
    nout: int,
    nin: int,
) -> Option<OperationError> {
    let space = factor.spec_space();
    if space.nout != nout || space.nin != nin {
        Some(
            OperationError::RankMismatch { expected: (nout + nin) as usize, actual: space.rank },
        )
    } else if some_leg_overflows(space.homspace@.codomain, nout) || some_leg_overflows(
        space.homspace@.domain,
        nin,
    ) {
        Some(OperationError::ElementCountOverflow)
    } else {
        None
    }
}

/// Takes a factor that has the leg counts of the type and legs whose dimensions
/// fit. The factor itself stays as it is.
pub fn typed_from_bound_factor<D, const NOUT: usize, const NIN: usize>(
    factor: BoundDynFactor<D>,
) -> (result: Result<BoundTensorMap<D, NOUT, NIN>, OperationError>)
    requires
        NOUT + NIN <= usize::MAX,
    ensures
        match (result, typing_refusal(factor, NOUT as int, NIN as int)) {
            (Ok(tensor), None) => tensor.is_typed(factor),
            (Err(error), Some(expected)) => error == expected,
            _ => false,
        },
{
    let space = factor.space();
    if space.nout != NOUT || space.nin != NIN {
        return Err(
            OperationError::RankMismatch { expected: NOUT + NIN, actual: space.rank },
        );
    }
    let codomain_dims = match dimensions_of(space.homspace.codomain.legs.as_slice(), NOUT) {
        Ok(dims) => dims,
        Err(error) => {
            return Err(error);
        },
    };
    let domain_dims = match dimensions_of(space.homspace.domain.legs.as_slice(), NIN) {
        Ok(dims) => dims,
        Err(error) => {
            return Err(error);
        },
    };
    Ok(BoundTensorMap { factor, codomain_dims, domain_dims })
}

} // verus!
