//! What fusing legs does to dimensions: every outcome counts with the product of
//! its dimensions and its multiplicity, so a dimension that multiplies under
//! fusion is multiplied.

use vstd::prelude::*;

use crate::bond::{ascending, lemma_rank_of, rank_of, with_rank};
use crate::bond_laws::lemma_rank_given;
use crate::factor::SectorRank;
use crate::fusion::{
    add_channels, coupled_dimensions, dimension_so_far, entry_of, fuse_leg, fuse_row,
    fuse_sectors, FusionChannel, FusionEntry, FusionError,
};
use crate::sector::SectorId;
use crate::space::Leg;

verus! {

/// The sum of all dimensions, each times the weight of its sector.
pub open spec fn weighed(ranks: Seq<SectorRank>, weight: spec_fn(SectorId) -> int) -> int
    decreases ranks.len(),
{
    if ranks.len() == 0 {
        0
    } else {
        ranks[0].kept * weight(ranks[0].sector) + weighed(ranks.drop_first(), weight)
    }
}

/// The sum of the weights of the first outcomes of a fusion, each as often as its
/// multiplicity says.
pub open spec fn outcome_weight(
    channels: Seq<FusionChannel>,
    count: int,
    weight: spec_fn(SectorId) -> int,
) -> int
    decreases count,
{
    if count <= 0 {
        0
    } else {
        outcome_weight(channels, count - 1, weight) + channels[count - 1].multiplicity->0 * weight(
            channels[count - 1].coupled,
        )
    }
}

/// The weight of a fusion is the product of the weights of both sectors, for all
/// fusions in the table.
pub open spec fn multiplies_under_fusion(
    entries: Seq<FusionEntry>,
    weight: spec_fn(SectorId) -> int,
) -> bool {
    forall|k: int|
        0 <= k < entries.len() ==> weight((#[trigger] entries[k]).left) * weight(
            entries[k].right,
        ) == outcome_weight(entries[k].channels@, entries[k].channels@.len() as int, weight)
}

/// The product of the dimensions of the first legs.
pub open spec fn legs_weight(
    legs: Seq<Leg>,
    count: int,
    weight: spec_fn(SectorId) -> int,
) -> int
    decreases count,
{
    if count <= 0 {
        1
    } else {
        legs_weight(legs, count - 1, weight) * weighed(legs[count - 1].sectors, weight)
    }
}

/// A new rank changes the weighed sum by the difference to the rank before.
proof fn lemma_weighed_with_rank(
    ranks: Seq<SectorRank>,
    rank: SectorRank,
    weight: spec_fn(SectorId) -> int,
)
    requires
        ascending(ranks),
    ensures
        weighed(with_rank(ranks, rank), weight) == weighed(ranks, weight) + (rank.kept
            - dimension_so_far(ranks, rank.sector)) * weight(rank.sector),
    decreases ranks.len(),
{
    let after = with_rank(ranks, rank);
    let (w, sector) = (weight(rank.sector), rank.sector);
    if ranks.len() == 0 {
        assert(after.drop_first() =~= ranks);
        assert(rank_of(ranks, sector) is None);
        assert(after[0] == rank);
        assert(weighed(after, weight) == rank.kept * w + weighed(ranks, weight));
        assert((rank.kept - 0) * w == rank.kept * w);
    } else {
        let rest = ranks.drop_first();
        assert forall|i: int, j: int| 0 <= i < j < rest.len() implies (
        #[trigger] rest[i]).sector.id < (#[trigger] rest[j]).sector.id by {
            assert(ranks[i + 1].sector.id < ranks[j + 1].sector.id);
        }
        if ranks[0].sector.id < sector.id {
            lemma_weighed_with_rank(rest, rank, weight);
            assert(after.drop_first() =~= with_rank(rest, rank));
            assert(after[0] == ranks[0]);
            assert(rank_of(ranks, sector) == rank_of(rest, sector));
        } else if ranks[0].sector == sector {
            assert(after.drop_first() =~= rest);
            assert(after[0] == rank);
            let before = ranks[0].kept as int;
            assert(rank.kept * w == before * w + (rank.kept - before) * w) by (nonlinear_arith);
        } else {
            assert(after.drop_first() =~= ranks);
            lemma_rank_of(ranks, sector);
            if rank_of(ranks, sector) is Some {
                let k = choose|k: int|
                    0 <= k < ranks.len() && (#[trigger] ranks[k]).sector == sector
                        && ranks[k].kept == rank_of(ranks, sector)->0 && forall|j: int|
                        0 <= j < k ==> (#[trigger] ranks[j]).sector != sector;
                if k > 0 {
                    assert(ranks[0].sector.id < ranks[k].sector.id);
                }
            }
            assert(after[0] == rank);
            assert((rank.kept - 0) * w == rank.kept * w);
        }
    }
}

/// Fusing two sectors adds the product of their dimensions for every outcome, as
/// often as its multiplicity says.
proof fn lemma_channels_weigh(
    ranks: Seq<SectorRank>,
    left: SectorRank,
    right: SectorRank,
    channels: Seq<FusionChannel>,
    count: int,
    weight: spec_fn(SectorId) -> int,
)
    requires
        ascending(ranks),
        0 <= count <= channels.len(),
        add_channels(ranks, left, right, channels, count) is Ok,
    ensures
        ascending(add_channels(ranks, left, right, channels, count)->Ok_0),
        weighed(add_channels(ranks, left, right, channels, count)->Ok_0, weight) == weighed(
            ranks,
            weight,
        ) + left.kept * right.kept * outcome_weight(channels, count, weight),
    decreases count,
{
    if count > 0 {
        lemma_channels_weigh(ranks, left, right, channels, count - 1, weight);
        let before = add_channels(ranks, left, right, channels, count - 1)->Ok_0;
        let channel = channels[count - 1];
        let multiplicity = channel.multiplicity->0;
        let so_far = dimension_so_far(before, channel.coupled);
        let added = left.kept * right.kept * multiplicity;
        let rank = SectorRank { sector: channel.coupled, kept: (so_far + added) as usize };
        lemma_rank_given(before, rank);
        lemma_weighed_with_rank(before, rank, weight);
        let p = left.kept * right.kept;
        let (w, o) = (weight(channel.coupled), outcome_weight(channels, count - 1, weight));
        assert(p * (o + multiplicity * w) == p * o + (p * multiplicity) * w) by (nonlinear_arith);
    } else {
        assert(left.kept * right.kept * 0 == 0) by (nonlinear_arith);
    }
}

/// The outcomes of fusing two sectors by the table.
pub open spec fn fusion_weight(
    entries: Seq<FusionEntry>,
    left: SectorId,
    right: SectorId,
    weight: spec_fn(SectorId) -> int,
) -> int {
    let k = entry_of(entries, left, right, 0)->0;
    outcome_weight(entries[k].channels@, entries[k].channels@.len() as int, weight)
}

/// The entry that is found is for both sectors, and the first one.
proof fn lemma_entry(entries: Seq<FusionEntry>, left: SectorId, right: SectorId, from: int)
    requires
        0 <= from,
    ensures
        match entry_of(entries, left, right, from) {
            Some(k) => {
                &&& from <= k < entries.len()
                &&& entries[k].left == left
                &&& entries[k].right == right
                &&& forall|j: int|
                    from <= j < k ==> (#[trigger] entries[j]).left != left || entries[j].right
                        != right
            },
            None => forall|j: int|
                from <= j < entries.len() ==> (#[trigger] entries[j]).left != left
                    || entries[j].right != right,
        },
    decreases entries.len() - from,
{
    if from < entries.len() && !(entries[from].left == left && entries[from].right == right) {
        lemma_entry(entries, left, right, from + 1);
    }
}

/// The sum over the first sectors of a leg.
pub open spec fn row_weight(
    entries: Seq<FusionEntry>,
    left: SectorRank,
    leg: Seq<SectorRank>,
    count: int,
    weight: spec_fn(SectorId) -> int,
) -> int
    decreases count,
{
    if count <= 0 {
        0
    } else {
        row_weight(entries, left, leg, count - 1, weight) + left.kept * leg[count - 1].kept
            * fusion_weight(entries, left.sector, leg[count - 1].sector, weight)
    }
}

proof fn lemma_row_weighs(
    ranks: Seq<SectorRank>,
    left: SectorRank,
    leg: Seq<SectorRank>,
    entries: Seq<FusionEntry>,
    count: int,
    weight: spec_fn(SectorId) -> int,
)
    requires
        ascending(ranks),
        0 <= count <= leg.len(),
        fuse_row(ranks, left, leg, entries, count) is Ok,
    ensures
        ascending(fuse_row(ranks, left, leg, entries, count)->Ok_0),
        weighed(fuse_row(ranks, left, leg, entries, count)->Ok_0, weight) == weighed(ranks, weight)
            + row_weight(entries, left, leg, count, weight),
        forall|j: int|
            0 <= j < count ==> entry_of(
                entries,
                left.sector,
                (#[trigger] leg[j]).sector,
                0,
            ) is Some,
    decreases count,
{
    if count > 0 {
        lemma_row_weighs(ranks, left, leg, entries, count - 1, weight);
        let before = fuse_row(ranks, left, leg, entries, count - 1)->Ok_0;
        let right = leg[count - 1];
        lemma_entry(entries, left.sector, right.sector, 0);
        let k = entry_of(entries, left.sector, right.sector, 0)->0;
        lemma_channels_weigh(
            before,
            left,
            right,
            entries[k].channels@,
            entries[k].channels@.len() as int,
            weight,
        );
    }
}

/// The sum over the first sectors of a product.
pub open spec fn product_weight(
    entries: Seq<FusionEntry>,
    dimensions: Seq<SectorRank>,
    leg: Seq<SectorRank>,
    count: int,
    weight: spec_fn(SectorId) -> int,
) -> int
    decreases count,
{
    if count <= 0 {
        0
    } else {
        product_weight(entries, dimensions, leg, count - 1, weight) + row_weight(
            entries,
            dimensions[count - 1],
            leg,
            leg.len() as int,
            weight,
        )
    }
}

/// Fusing one more leg: whatever the weights of the sectors, the weighed sum of
/// the new dimensions is the sum, over all sectors of the product and of the leg,
/// of both dimensions times the weighed outcomes of their fusion. Every such
/// fusion is in the table.
pub proof fn lemma_fused_leg_weighs(
    dimensions: Seq<SectorRank>,
    leg: Seq<SectorRank>,
    entries: Seq<FusionEntry>,
    count: int,
    weight: spec_fn(SectorId) -> int,
)
    requires
        0 <= count <= dimensions.len(),
        fuse_leg(dimensions, leg, entries, count) is Ok,
    ensures
        ascending(fuse_leg(dimensions, leg, entries, count)->Ok_0),
        weighed(fuse_leg(dimensions, leg, entries, count)->Ok_0, weight) == product_weight(
            entries,
            dimensions,
            leg,
            count,
            weight,
        ),
        forall|i: int, j: int|
            0 <= i < count && 0 <= j < leg.len() ==> exists|k: int|
                0 <= k < entries.len() && (#[trigger] entries[k]).left == (
                #[trigger] dimensions[i]).sector && entries[k].right == (
                #[trigger] leg[j]).sector,
    decreases count,
{
    if count > 0 {
        lemma_fused_leg_weighs(dimensions, leg, entries, count - 1, weight);
        let before = fuse_leg(dimensions, leg, entries, count - 1)->Ok_0;
        let left = dimensions[count - 1];
        lemma_row_weighs(before, left, leg, entries, leg.len() as int, weight);
        assert forall|i: int, j: int| 0 <= i < count && 0 <= j < leg.len() implies exists|k: int|
            0 <= k < entries.len() && (#[trigger] entries[k]).left == (
            #[trigger] dimensions[i]).sector && entries[k].right == (
            #[trigger] leg[j]).sector by {
            if i == count - 1 {
                lemma_entry(entries, left.sector, leg[j].sector, 0);
                let k = entry_of(entries, left.sector, leg[j].sector, 0)->0;
                assert(entries[k].left == left.sector);
            }
        }
    }
}

proof fn lemma_row_multiplies(
    entries: Seq<FusionEntry>,
    left: SectorRank,
    leg: Seq<SectorRank>,
    count: int,
    weight: spec_fn(SectorId) -> int,
)
    requires
        multiplies_under_fusion(entries, weight),
        0 <= count <= leg.len(),
        forall|j: int|
            0 <= j < count ==> entry_of(
                entries,
                left.sector,
                (#[trigger] leg[j]).sector,
                0,
            ) is Some,
    ensures
        row_weight(entries, left, leg, count, weight) == left.kept * weight(left.sector) * weighed(
            leg.take(count),
            weight,
        ),
    decreases count,
{
    if count > 0 {
        lemma_row_multiplies(entries, left, leg, count - 1, weight);
        let right = leg[count - 1];
        lemma_entry(entries, left.sector, right.sector, 0);
        let k = entry_of(entries, left.sector, right.sector, 0)->0;
        assert(entries[k].left == left.sector);
        lemma_weighed_last(leg.take(count), weight);
        assert(leg.take(count).drop_last() =~= leg.take(count - 1));
        let (a, wa, b, wb) = (
            left.kept as int,
            weight(left.sector),
            right.kept as int,
            weight(right.sector),
        );
        let s = weighed(leg.take(count - 1), weight);
        assert(a * wa * s + a * b * (wa * wb) == a * wa * (s + b * wb)) by (nonlinear_arith);
    } else {
        assert(leg.take(0) =~= Seq::<SectorRank>::empty());
        assert(left.kept * weight(left.sector) * 0 == 0) by (nonlinear_arith);
    }
}

/// The last term of a weighed sum.
pub(crate) proof fn lemma_weighed_last(ranks: Seq<SectorRank>, weight: spec_fn(SectorId) -> int)
    requires
        ranks.len() > 0,
    ensures
        weighed(ranks, weight) == weighed(ranks.drop_last(), weight) + ranks.last().kept * weight(
            ranks.last().sector,
        ),
    decreases ranks.len(),
{
    if ranks.len() == 1 {
        assert(ranks.drop_first() =~= Seq::<SectorRank>::empty());
        assert(ranks.drop_last() =~= Seq::<SectorRank>::empty());
    } else {
        lemma_weighed_last(ranks.drop_first(), weight);
        assert(ranks.drop_first().drop_last() =~= ranks.drop_last().drop_first());
        assert(ranks.drop_first().last() == ranks.last());
    }
}

proof fn lemma_leg_multiplies(
    dimensions: Seq<SectorRank>,
    leg: Seq<SectorRank>,
    entries: Seq<FusionEntry>,
    count: int,
    weight: spec_fn(SectorId) -> int,
)
    requires
        multiplies_under_fusion(entries, weight),
        0 <= count <= dimensions.len(),
        fuse_leg(dimensions, leg, entries, count) is Ok,
    ensures
        product_weight(entries, dimensions, leg, count, weight) == weighed(
            dimensions.take(count),
            weight,
        ) * weighed(leg, weight),
    decreases count,
{
    if count > 0 {
        lemma_leg_multiplies(dimensions, leg, entries, count - 1, weight);
        lemma_fused_leg_weighs(dimensions, leg, entries, count - 1, weight);
        let before = fuse_leg(dimensions, leg, entries, count - 1)->Ok_0;
        let left = dimensions[count - 1];
        lemma_row_weighs(before, left, leg, entries, leg.len() as int, weight);
        lemma_row_multiplies(entries, left, leg, leg.len() as int, weight);
        assert(leg.take(leg.len() as int) =~= leg);
        lemma_weighed_last(dimensions.take(count), weight);
        assert(dimensions.take(count).drop_last() =~= dimensions.take(count - 1));
        let (s, l) = (weighed(dimensions.take(count - 1), weight), weighed(leg, weight));
        let (a, wa) = (left.kept as int, weight(left.sector));
        assert(s * l + a * wa * l == (s + a * wa) * l) by (nonlinear_arith);
    } else {
        assert(dimensions.take(0) =~= Seq::<SectorRank>::empty());
    }
}

/// A dimension that multiplies under fusion, as the dimensions of representations
/// do, is the product of those of the legs: the coupled sectors together are as
/// large as the product of all legs, and they stand in ascending order.
pub proof fn lemma_dimensions_multiply(
    legs: Seq<Leg>,
    vacuum: SectorId,
    entries: Seq<FusionEntry>,
    count: int,
    weight: spec_fn(SectorId) -> int,
)
    requires
        weight(vacuum) == 1,
        multiplies_under_fusion(entries, weight),
        0 <= count <= legs.len(),
        coupled_dimensions(legs, vacuum, entries, count) is Ok,
    ensures
        ascending(coupled_dimensions(legs, vacuum, entries, count)->Ok_0),
        weighed(coupled_dimensions(legs, vacuum, entries, count)->Ok_0, weight) == legs_weight(
            legs,
            count,
            weight,
        ),
    decreases count,
{
    if count > 0 {
        lemma_dimensions_multiply(legs, vacuum, entries, count - 1, weight);
        let before = coupled_dimensions(legs, vacuum, entries, count - 1)->Ok_0;
        let leg = legs[count - 1].sectors;
        lemma_fused_leg_weighs(before, leg, entries, before.len() as int, weight);
        lemma_leg_multiplies(before, leg, entries, before.len() as int, weight);
        assert(before.take(before.len() as int) =~= before);
    } else {
        let start = seq![SectorRank { sector: vacuum, kept: 1 }];
        assert(start.drop_first() =~= Seq::<SectorRank>::empty());
        assert(weighed(start.drop_first(), weight) == 0);
    }
}

/// A failure names what is missing: a fusion that the table lacks, or an outcome
/// in it without multiplicity. Otherwise a dimension is too large.
pub proof fn lemma_failure_is_real(
    ranks: Seq<SectorRank>,
    left: SectorRank,
    right: SectorRank,
    entries: Seq<FusionEntry>,
    error: FusionError,
)
    requires
        fuse_sectors(ranks, left, right, entries) == Err::<Seq<SectorRank>, FusionError>(error),
    ensures
        match error {
            FusionError::MissingChannels { left: a, right: b } => {
                &&& a == left.sector
                &&& b == right.sector
                &&& forall|k: int|
                    0 <= k < entries.len() ==> (#[trigger] entries[k]).left != a
                        || entries[k].right != b
            },
            FusionError::MissingMultiplicity { left: a, right: b, coupled } => {
                &&& a == left.sector
                &&& b == right.sector
                &&& exists|k: int, i: int|
                    {
                        &&& 0 <= k < entries.len()
                        &&& (#[trigger] entries[k]).left == a
                        &&& entries[k].right == b
                        &&& 0 <= i < entries[k].channels@.len()
                        &&& (#[trigger] entries[k].channels@[i]).coupled == coupled
                        &&& entries[k].channels@[i].multiplicity is None
                    }
            },
            FusionError::Operation(_) => true,
        },
{
    lemma_entry(entries, left.sector, right.sector, 0);
    if let Some(k) = entry_of(entries, left.sector, right.sector, 0) {
        let channels = entries[k].channels@;
        lemma_channel_failure(ranks, left, right, channels, channels.len() as int);
        assert(entries[k].left == left.sector);
    }
}

proof fn lemma_channel_failure(
    ranks: Seq<SectorRank>,
    left: SectorRank,
    right: SectorRank,
    channels: Seq<FusionChannel>,
    count: int,
)
    requires
        0 <= count <= channels.len(),
    ensures
        match add_channels(ranks, left, right, channels, count) {
            Err(FusionError::MissingMultiplicity { left: a, right: b, coupled }) => {
                &&& a == left.sector
                &&& b == right.sector
                &&& exists|i: int|
                    0 <= i < channels.len() && (#[trigger] channels[i]).coupled == coupled
                        && channels[i].multiplicity is None
            },
            Err(FusionError::MissingChannels { .. }) => false,
            _ => true,
        },
    decreases count,
{
    if count > 0 {
        lemma_channel_failure(ranks, left, right, channels, count - 1);
        assert(channels[count - 1] == channels[count - 1]);
    }
}

} // verus!
