//! Owned sector factors and their concatenation into one buffer.

use vstd::prelude::*;

use crate::layout::FactorSide;
use crate::sector::SectorId;

verus! {

/// The two factors of one coupled sector: `left` is column-major with
/// `left_rows` rows and `kept` columns, `right` is column-major with leading
/// dimension `right_leading` and `kept` rows.
#[derive(Clone, Debug, PartialEq, Eq)]
pub struct FactorPair<D> {
    pub sector: SectorId,
    pub kept: usize,
    pub left: Vec<D>,
    pub left_rows: usize,
    pub right: Vec<D>,
    pub right_leading: usize,
}

/// The number of bond states that one sector keeps.
#[derive(Clone, Copy, Debug, PartialEq, Eq, Structural)]
pub struct SectorRank {
    pub sector: SectorId,
    pub kept: usize,
}

/// Whether a factor is indexed by the trees of its own side of the source or,
/// as an adjoint, by those of the other side.
#[derive(Clone, Copy, Debug, PartialEq, Eq, Structural)]
pub enum FactorPlacement {
    Direct,
    Adjoint,
}

/// The side of the source matrix whose trees index a factor.
pub open spec fn source_side(side: FactorSide, placement: FactorPlacement) -> FactorSide {
    match (side, placement) {
        (FactorSide::Left, FactorPlacement::Direct) => FactorSide::Left,
        (FactorSide::Right, FactorPlacement::Adjoint) => FactorSide::Left,
        (FactorSide::Right, FactorPlacement::Direct) => FactorSide::Right,
        (FactorSide::Left, FactorPlacement::Adjoint) => FactorSide::Right,
    }
}

impl<D> FactorPair<D> {
    /// The factor on one side.
    pub open spec fn factor(self, side: FactorSide) -> Seq<D> {
        match side {
            FactorSide::Left => self.left@,
            FactorSide::Right => self.right@,
        }
    }

    /// The leading dimension of the factor on one side.
    pub open spec fn leading(self, side: FactorSide) -> usize {
        match side {
            FactorSide::Left => self.left_rows,
            FactorSide::Right => self.right_leading,
        }
    }
}

/// What an output under construction holds.
pub open spec fn held<D>(output: Option<Vec<D>>) -> Seq<D> {
    match output {
        Some(data) => data@,
        None => Seq::empty(),
    }
}

/// Appends `factor` to `output`; the first factor with elements becomes the
/// output itself. Returns how many elements were appended to an existing one.
pub fn append_owned_factor<D>(
    output: &mut Option<Vec<D>>,
    factor: Vec<D>,
    required_len: usize,
) -> (appended: usize)
    requires
        (*old(output)) is None ==> factor@.len() <= required_len,
    ensures
        held(*final(output)) == held(*old(output)) + factor@,
        (*final(output)) is Some <==> (*old(output)) is Some || factor@.len() > 0,
        appended == if (*old(output)) is Some {
            factor@.len()
        } else {
            0
        },
{
    let mut factor = factor;
    if factor.len() == 0 {
        proof {
            assert(held(*output) + factor@ =~= held(*output));
        }
        return 0;
    }
    match output {
        Some(data) => {
            let appended: usize = factor.len();
            data.append(&mut factor);
            appended
        },
        None => {
            factor.reserve(required_len - factor.len());
            proof {
                assert(Seq::<D>::empty() + factor@ =~= factor@);
            }
            *output = Some(factor);
            0
        },
    }
}

/// The contents of the regions that are there, one after the other.
pub open spec fn concatenated<D>(regions: Seq<Option<Vec<D>>>) -> Seq<D>
    decreases regions.len(),
{
    if regions.len() == 0 {
        Seq::empty()
    } else {
        concatenated(regions.drop_last()) + held(regions.last())
    }
}

/// The first region with elements fits into `required_len`.
pub open spec fn first_fits<D>(regions: Seq<Option<Vec<D>>>, required_len: int) -> bool {
    forall|k: int|
        0 <= k < regions.len() && concatenated(regions.take(k)).len() == 0 ==> held(
            #[trigger] regions[k],
        ).len() <= required_len
}

/// Joins the regions that are there into one buffer.
pub fn concat_owned_factor_regions<D>(
    regions: Vec<Option<Vec<D>>>,
    required_len: usize,
) -> (output: Vec<D>)
    requires
        first_fits(regions@, required_len as int),
    ensures
        output@ == concatenated(regions@),
{
    let mut output: Option<Vec<D>> = None;
    let ghost all = regions@;
    assert(all.take(0) =~= Seq::empty());
    for region in iter: regions
        invariant
            iter.seq() == all,
            first_fits(all, required_len as int),
            output is Some ==> held(output).len() > 0,
            held(output) == concatenated(all.take(iter.index() as int)),
    {
        let ghost k = iter.index() as int;
        proof {
            assert(all.take(k + 1).drop_last() =~= all.take(k));
            assert(all.take(k + 1).last() == all[k]);
            assert(region == all[k]);
        }
        if let Some(factor) = region {
            append_owned_factor(&mut output, factor, required_len);
        } else {
            assert(held(output) + Seq::<D>::empty() =~= held(output));
        }
    }
    assert(all.take(all.len() as int) =~= all);
    unwrap_output(output)
}

/// The finished output, empty where nothing was appended.
fn unwrap_output<D>(output: Option<Vec<D>>) -> (data: Vec<D>)
    ensures
        data@ == held(output),
{
    match output {
        Some(data) => data,
        None => Vec::new(),
    }
}

/// The factors of one side of all pairs, one after the other.
pub open spec fn joined<D>(pairs: Seq<FactorPair<D>>, side: FactorSide) -> Seq<D>
    decreases pairs.len(),
{
    if pairs.len() == 0 {
        Seq::empty()
    } else {
        joined(pairs.drop_last(), side) + pairs.last().factor(side)
    }
}

/// The first factor with elements fits into `required_len`.
pub open spec fn first_factor_fits<D>(
    pairs: Seq<FactorPair<D>>,
    side: FactorSide,
    required_len: int,
) -> bool {
    forall|k: int|
        0 <= k < pairs.len() && joined(pairs.take(k), side).len() == 0 ==> (
        #[trigger] pairs[k]).factor(side).len() <= required_len
}

/// A pair after the factor of one side was moved out of it.
pub open spec fn moved_out<D>(before: FactorPair<D>, after: FactorPair<D>, side: FactorSide) -> bool {
    &&& after.sector == before.sector
    &&& after.kept == before.kept
    &&& after.left_rows == before.left_rows
    &&& after.right_leading == before.right_leading
    &&& match side {
        FactorSide::Left => after.left@ == Seq::<D>::empty() && after.right == before.right,
        FactorSide::Right => after.right@ == Seq::<D>::empty() && after.left == before.left,
    }
}

/// Moves the factor of one side out of a pair.
fn take_factor<D>(pair: &mut FactorPair<D>, side: FactorSide) -> (factor: Vec<D>)
    ensures
        factor@ == old(pair).factor(side),
        moved_out(*old(pair), *final(pair), side),
{
    let mut factor: Vec<D> = Vec::new();
    match side {
        FactorSide::Left => core::mem::swap(&mut pair.left, &mut factor),
        FactorSide::Right => core::mem::swap(&mut pair.right, &mut factor),
    }
    factor
}

/// Moves the selected side of every pair into one output buffer; the other
/// side stays in place.
pub fn take_one_sided_factors<D>(
    pairs: &mut Vec<FactorPair<D>>,
    required_len: usize,
    side: FactorSide,
) -> (output: Vec<D>)
    requires
        first_factor_fits(old(pairs)@, side, required_len as int),
    ensures
        output@ == joined(old(pairs)@, side),
        final(pairs)@.len() == old(pairs)@.len(),
        forall|k: int|
            0 <= k < old(pairs)@.len() ==> moved_out(
                old(pairs)@[k],
                #[trigger] final(pairs)@[k],
                side,
            ),
{
    let ghost all = pairs@;
    let mut output: Option<Vec<D>> = None;
    let mut k: usize = 0;
    assert(all.take(0) =~= Seq::empty());
    while k < pairs.len()
        invariant
            k <= pairs@.len() == all.len(),
            first_factor_fits(all, side, required_len as int),
            forall|j: int| k <= j < all.len() ==> pairs@[j] == all[j],
            forall|j: int| 0 <= j < k ==> moved_out(all[j], #[trigger] pairs@[j], side),
            held(output) == joined(all.take(k as int), side),
            output is Some ==> held(output).len() > 0,
        decreases pairs.len() - k,
    {
        let factor = take_factor(&mut pairs[k], side);
        proof {
            assert(all.take(k + 1).drop_last() =~= all.take(k as int));
            assert(all.take(k + 1).last() == all[k as int]);
        }
        append_owned_factor(&mut output, factor, required_len);
        k += 1;
    }
    assert(all.take(all.len() as int) =~= all);
    unwrap_output(output)
}

/// Joins all left factors and all right factors into one buffer each.
pub fn publish_generic_factor_pairs<D>(
    pairs: Vec<FactorPair<D>>,
    left_len: usize,
    right_len: usize,
) -> (data: (Vec<D>, Vec<D>))
    requires
        first_factor_fits(pairs@, FactorSide::Left, left_len as int),
        first_factor_fits(pairs@, FactorSide::Right, right_len as int),
    ensures
        data.0@ == joined(pairs@, FactorSide::Left),
        data.1@ == joined(pairs@, FactorSide::Right),
{
    let ghost all = pairs@;
    let mut left: Option<Vec<D>> = None;
    let mut right: Option<Vec<D>> = None;
    assert(all.take(0) =~= Seq::empty());
    for pair in iter: pairs
        invariant
            iter.seq() == all,
            first_factor_fits(all, FactorSide::Left, left_len as int),
            first_factor_fits(all, FactorSide::Right, right_len as int),
            held(left) == joined(all.take(iter.index() as int), FactorSide::Left),
            held(right) == joined(all.take(iter.index() as int), FactorSide::Right),
            left is Some ==> held(left).len() > 0,
            right is Some ==> held(right).len() > 0,
    {
        proof {
            let k = iter.index() as int;
            assert(pair == all[k]);
            assert(all.take(k + 1).drop_last() =~= all.take(k));
            assert(all.take(k + 1).last() == all[k]);
        }
        append_owned_factor(&mut left, pair.left, left_len);
        append_owned_factor(&mut right, pair.right, right_len);
    }
    assert(all.take(all.len() as int) =~= all);
    (unwrap_output(left), unwrap_output(right))
}

} // verus!
