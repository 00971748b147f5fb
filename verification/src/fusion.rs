//! Dimensions of the coupled sectors of a product of legs.

use vstd::prelude::*;

use crate::bond::{rank_of, with_rank, BondDimensions};
use crate::error::OperationError;
use crate::factor::SectorRank;
use crate::sector::SectorId;
use crate::space::{FusionProductSpace, Leg, SectorLeg};

verus! {

/// One outcome of a fusion, with its multiplicity where that is known yet.
#[derive(Clone, Copy, Debug, PartialEq, Eq)]
pub struct FusionChannel {
    pub coupled: SectorId,
    pub multiplicity: Option<usize>,
}

/// The outcomes of fusing two sectors.
#[derive(Clone, Debug, PartialEq, Eq)]
pub struct FusionEntry {
    pub left: SectorId,
    pub right: SectorId,
    pub channels: Vec<FusionChannel>,
}

/// What is known of a fusion rule so far.
#[derive(Clone, Debug, PartialEq, Eq)]
pub struct FusionTable {
    pub entries: Vec<FusionEntry>,
}

/// Why the dimensions could not be computed.
#[derive(Clone, Debug, PartialEq, Eq)]
pub enum FusionError {
    /// The outcomes of this fusion are not in the table.
    MissingChannels { left: SectorId, right: SectorId },
    /// The multiplicity of this outcome is not in the table.
    MissingMultiplicity { left: SectorId, right: SectorId, coupled: SectorId },
    Operation(OperationError),
}

/// The first entry for two sectors, from `from` on.
pub open spec fn entry_of(
    entries: Seq<FusionEntry>,
    left: SectorId,
    right: SectorId,
    from: int,
) -> Option<int>
    decreases entries.len() - from,
{
    if from < 0 || from >= entries.len() {
        None
    } else if entries[from].left == left && entries[from].right == right {
        Some(from)
    } else {
        entry_of(entries, left, right, from + 1)
    }
}

/// The dimension of a sector so far.
pub open spec fn dimension_so_far(ranks: Seq<SectorRank>, sector: SectorId) -> int {
    match rank_of(ranks, sector) {
        Some(dimension) => dimension as int,
        None => 0,
    }
}

/// The dimensions after the first `count` outcomes of one fusion were added:
/// each contributes the product of the left dimension, the right degeneracy
/// and its multiplicity.
pub open spec fn add_channels(
    ranks: Seq<SectorRank>,
    left: SectorRank,
    right: SectorRank,
    channels: Seq<FusionChannel>,
    count: int,
) -> Result<Seq<SectorRank>, FusionError>
    decreases count,
{
    if count <= 0 {
        Ok(ranks)
    } else {
        match add_channels(ranks, left, right, channels, count - 1) {
            Err(error) => Err(error),
            Ok(before) => {
                let channel = channels[count - 1];
                match channel.multiplicity {
                    None => Err(
                        FusionError::MissingMultiplicity {
                            left: left.sector,
                            right: right.sector,
                            coupled: channel.coupled,
                        },
                    ),
                    Some(multiplicity) => {
                        let product = left.kept * right.kept;
                        let contribution = product * multiplicity;
                        let total = dimension_so_far(before, channel.coupled) + contribution;
                        if product > usize::MAX || contribution > usize::MAX || total
                            > usize::MAX {
                            Err(FusionError::Operation(OperationError::ElementCountOverflow))
                        } else {
                            Ok(
                                with_rank(
                                    before,
                                    SectorRank { sector: channel.coupled, kept: total as usize },
                                ),
                            )
                        }
                    },
                }
            },
        }
    }
}

/// The dimensions after one sector of a product was fused with one of a leg.
pub open spec fn fuse_sectors(
    ranks: Seq<SectorRank>,
    left: SectorRank,
    right: SectorRank,
    entries: Seq<FusionEntry>,
) -> Result<Seq<SectorRank>, FusionError> {
    match entry_of(entries, left.sector, right.sector, 0) {
        None => Err(FusionError::MissingChannels { left: left.sector, right: right.sector }),
        Some(k) => add_channels(
            ranks,
            left,
            right,
            entries[k].channels@,
            entries[k].channels@.len() as int,
        ),
    }
}

/// The dimensions after the first `count` sectors of a leg were fused to one
/// sector of the product.
pub open spec fn fuse_row(
    ranks: Seq<SectorRank>,
    left: SectorRank,
    leg: Seq<SectorRank>,
    entries: Seq<FusionEntry>,
    count: int,
) -> Result<Seq<SectorRank>, FusionError>
    decreases count,
{
    if count <= 0 {
        Ok(ranks)
    } else {
        match fuse_row(ranks, left, leg, entries, count - 1) {
            Err(error) => Err(error),
            Ok(before) => fuse_sectors(before, left, leg[count - 1], entries),
        }
    }
}

/// The dimensions of a product with one more leg, from the first `count`
/// sectors of the product before.
pub open spec fn fuse_leg(
    dimensions: Seq<SectorRank>,
    leg: Seq<SectorRank>,
    entries: Seq<FusionEntry>,
    count: int,
) -> Result<Seq<SectorRank>, FusionError>
    decreases count,
{
    if count <= 0 {
        Ok(Seq::empty())
    } else {
        match fuse_leg(dimensions, leg, entries, count - 1) {
            Err(error) => Err(error),
            Ok(before) => fuse_row(
                before,
                dimensions[count - 1],
                leg,
                entries,
                leg.len() as int,
            ),
        }
    }
}

/// The dimensions of the coupled sectors of the first `count` legs, starting
/// from one vacuum state.
pub open spec fn coupled_dimensions(
    legs: Seq<Leg>,
    vacuum: SectorId,
    entries: Seq<FusionEntry>,
    count: int,
) -> Result<Seq<SectorRank>, FusionError>
    decreases count,
{
    if count <= 0 {
        Ok(seq![SectorRank { sector: vacuum, kept: 1 }])
    } else {
        match coupled_dimensions(legs, vacuum, entries, count - 1) {
            Err(error) => Err(error),
            Ok(before) => fuse_leg(
                before,
                legs[count - 1].sectors,
                entries,
                before.len() as int,
            ),
        }
    }
}

impl FusionTable {
    /// Position of the entry for two sectors.
    fn find(&self, left: SectorId, right: SectorId) -> (index: Option<usize>)
        ensures
            match index {
                Some(k) => k < self.entries@.len() && entry_of(self.entries@, left, right, 0)
                    == Some(k as int),
                None => entry_of(self.entries@, left, right, 0) is None,
            },
    {
        let mut k: usize = 0;
        while k < self.entries.len()
            invariant
                k <= self.entries@.len(),
                entry_of(self.entries@, left, right, 0) == entry_of(
                    self.entries@,
                    left,
                    right,
                    k as int,
                ),
            decreases self.entries.len() - k,
        {
            if self.entries[k].left == left && self.entries[k].right == right {
                return Some(k);
            }
            k += 1;
        }
        None
    }
}

proof fn lemma_channels_stop(
    ranks: Seq<SectorRank>,
    left: SectorRank,
    right: SectorRank,
    channels: Seq<FusionChannel>,
    low: int,
    high: int,
)
    requires
        0 <= low <= high,
        add_channels(ranks, left, right, channels, low) is Err,
    ensures
        add_channels(ranks, left, right, channels, high) == add_channels(
            ranks,
            left,
            right,
            channels,
            low,
        ),
    decreases high - low,
{
    if low < high {
        lemma_channels_stop(ranks, left, right, channels, low, high - 1);
    }
}

proof fn lemma_row_stops(
    ranks: Seq<SectorRank>,
    left: SectorRank,
    leg: Seq<SectorRank>,
    entries: Seq<FusionEntry>,
    low: int,
    high: int,
)
    requires
        0 <= low <= high,
        fuse_row(ranks, left, leg, entries, low) is Err,
    ensures
        fuse_row(ranks, left, leg, entries, high) == fuse_row(ranks, left, leg, entries, low),
    decreases high - low,
{
    if low < high {
        lemma_row_stops(ranks, left, leg, entries, low, high - 1);
    }
}

proof fn lemma_leg_stops(
    dimensions: Seq<SectorRank>,
    leg: Seq<SectorRank>,
    entries: Seq<FusionEntry>,
    low: int,
    high: int,
)
    requires
        0 <= low <= high,
        fuse_leg(dimensions, leg, entries, low) is Err,
    ensures
        fuse_leg(dimensions, leg, entries, high) == fuse_leg(dimensions, leg, entries, low),
    decreases high - low,
{
    if low < high {
        lemma_leg_stops(dimensions, leg, entries, low, high - 1);
    }
}

proof fn lemma_dimensions_stop(
    legs: Seq<Leg>,
    vacuum: SectorId,
    entries: Seq<FusionEntry>,
    low: int,
    high: int,
)
    requires
        0 <= low <= high,
        coupled_dimensions(legs, vacuum, entries, low) is Err,
    ensures
        coupled_dimensions(legs, vacuum, entries, high) == coupled_dimensions(
            legs,
            vacuum,
            entries,
            low,
        ),
    decreases high - low,
{
    if low < high {
        lemma_dimensions_stop(legs, vacuum, entries, low, high - 1);
    }
}

/// A result with these dimensions, or this error.
pub open spec fn dimensions_are(
    result: Result<BondDimensions, FusionError>,
    expected: Result<Seq<SectorRank>, FusionError>,
) -> bool {
    match (result, expected) {
        (Ok(dimensions), Ok(ranks)) => dimensions.wf() && dimensions@ == ranks,
        (Err(error), Err(expected)) => error == expected,
        _ => false,
    }
}

/// Adds the outcomes of fusing two sectors.
fn fuse_into(
    before: BondDimensions,
    left: SectorRank,
    right: SectorRank,
    table: &FusionTable,
) -> (result: Result<BondDimensions, FusionError>)
    requires
        before.wf(),
    ensures
        dimensions_are(result, fuse_sectors(before@, left, right, table.entries@)),
{
    let ghost start = before@;
    let at: usize = match table.find(left.sector, right.sector) {
        Some(at) => at,
        None => {
            return Err(
                FusionError::MissingChannels { left: left.sector, right: right.sector },
            );
        },
    };
    let entry = &table.entries[at];
    let mut dimensions = before;
    let ghost channels = entry.channels@;
    let mut k: usize = 0;
    while k < entry.channels.len()
        invariant
            k <= entry.channels@.len(),
            channels == entry.channels@,
            start == before@,
            dimensions.wf(),
            add_channels(start, left, right, channels, k as int) == Ok::<
                Seq<SectorRank>,
                FusionError,
            >(dimensions@),
            at < table.entries@.len(),
            entry_of(table.entries@, left.sector, right.sector, 0) == Some(at as int),
            *entry == table.entries@[at as int],
        decreases entry.channels.len() - k,
    {
        let channel = entry.channels[k];
        proof {
            if add_channels(start, left, right, channels, k + 1) is Err {
                lemma_channels_stop(
                    start,
                    left,
                    right,
                    channels,
                    k + 1,
                    channels.len() as int,
                );
            }
        }
        let multiplicity: usize = match channel.multiplicity {
            Some(multiplicity) => multiplicity,
            None => {
                return Err(
                    FusionError::MissingMultiplicity {
                        left: left.sector,
                        right: right.sector,
                        coupled: channel.coupled,
                    },
                );
            },
        };
        let contribution: usize = match left.kept.checked_mul(right.kept) {
            Some(product) => match product.checked_mul(multiplicity) {
                Some(contribution) => contribution,
                None => {
                    return Err(FusionError::Operation(OperationError::ElementCountOverflow));
                },
            },
            None => {
                return Err(FusionError::Operation(OperationError::ElementCountOverflow));
            },
        };
        let so_far: usize = match dimensions.get(channel.coupled) {
            Some(so_far) => so_far,
            None => 0,
        };
        match so_far.checked_add(contribution) {
            Some(total) => {
                dimensions.insert(channel.coupled, total);
            },
            None => {
                return Err(FusionError::Operation(OperationError::ElementCountOverflow));
            },
        }
        k += 1;
    }
    Ok(dimensions)
}

/// The dimensions of a product with one more leg.
fn fuse_one_leg(
    dimensions: &BondDimensions,
    leg: &SectorLeg,
    table: &FusionTable,
) -> (result: Result<BondDimensions, FusionError>)
    ensures
        dimensions_are(
            result,
            fuse_leg(dimensions@, leg@.sectors, table.entries@, dimensions@.len() as int),
        ),
{
    let ghost sectors = leg@.sectors;
    let ghost entries = table.entries@;
    let mut next = BondDimensions::new();
    let mut i: usize = 0;
    while i < dimensions.len()
        invariant
            i <= dimensions@.len(),
            sectors == leg@.sectors,
            entries == table.entries@,
            next.wf(),
            fuse_leg(dimensions@, sectors, entries, i as int) == Ok::<
                Seq<SectorRank>,
                FusionError,
            >(next@),
        decreases dimensions@.len() - i,
    {
        let left = dimensions.rank(i);
        let ghost start = next@;
        proof {
            if fuse_leg(dimensions@, sectors, entries, i + 1) is Err {
                lemma_leg_stops(
                    dimensions@,
                    sectors,
                    entries,
                    i + 1,
                    dimensions@.len() as int,
                );
            }
        }
        let mut j: usize = 0;
        while j < leg.sectors.len()
            invariant
                i < dimensions@.len(),
                j <= leg.sectors@.len(),
                sectors == leg@.sectors,
                entries == table.entries@,
                left == dimensions@[i as int],
                fuse_leg(dimensions@, sectors, entries, i as int) == Ok::<
                    Seq<SectorRank>,
                    FusionError,
                >(start),
                fuse_leg(dimensions@, sectors, entries, i + 1) is Err ==> fuse_leg(
                    dimensions@,
                    sectors,
                    entries,
                    dimensions@.len() as int,
                ) == fuse_leg(dimensions@, sectors, entries, i + 1),
                next.wf(),
                fuse_row(start, left, sectors, entries, j as int) == Ok::<
                    Seq<SectorRank>,
                    FusionError,
                >(next@),
            decreases leg.sectors.len() - j,
        {
            proof {
                if fuse_row(start, left, sectors, entries, j + 1) is Err {
                    lemma_row_stops(
                        start,
                        left,
                        sectors,
                        entries,
                        j + 1,
                        sectors.len() as int,
                    );
                }
            }
            next = match fuse_into(next, left, leg.sectors[j], table) {
                Ok(next) => next,
                Err(error) => {
                    return Err(error);
                },
            };
            j += 1;
        }
        i += 1;
    }
    Ok(next)
}

/// The dimensions of the coupled sectors of a product of legs: from one vacuum
/// state, each leg multiplies the dimension of a sector with its degeneracy and
/// the multiplicity of the fusion, summed over all ways to reach the outcome.
pub fn coupled_sector_block_dimensions_generic_checked(
    product: &FusionProductSpace,
    vacuum: SectorId,
    table: &FusionTable,
) -> (result: Result<BondDimensions, FusionError>)
    ensures
        dimensions_are(
            result,
            coupled_dimensions(product@, vacuum, table.entries@, product@.len() as int),
        ),
{
    let ghost legs = product@;
    let ghost entries = table.entries@;
    let mut dimensions = BondDimensions::new();
    dimensions.insert(vacuum, 1);
    let mut k: usize = 0;
    while k < product.legs.len()
        invariant
            k <= product.legs@.len(),
            legs == product@,
            entries == table.entries@,
            dimensions.wf(),
            coupled_dimensions(legs, vacuum, entries, k as int) == Ok::<
                Seq<SectorRank>,
                FusionError,
            >(dimensions@),
        decreases product.legs.len() - k,
    {
        proof {
            assert(legs[k as int] == product.legs@[k as int]@);
            if coupled_dimensions(legs, vacuum, entries, k + 1) is Err {
                lemma_dimensions_stop(legs, vacuum, entries, k + 1, legs.len() as int);
            }
        }
        dimensions = match fuse_one_leg(&dimensions, &product.legs[k], table) {
            Ok(dimensions) => dimensions,
            Err(error) => {
                return Err(error);
            },
        };
        k += 1;
    }
    Ok(dimensions)
}

} // verus!
