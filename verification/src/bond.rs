//! Dimensions of a bond by coupled sector.

use vstd::prelude::*;

use crate::factor::{FactorPair, SectorRank};
use crate::sector::SectorId;

verus! {

/// The first rank of a sector in a list.
pub open spec fn rank_of(ranks: Seq<SectorRank>, sector: SectorId) -> Option<usize>
    decreases ranks.len(),
{
    if ranks.len() == 0 {
        None
    } else if ranks[0].sector == sector {
        Some(ranks[0].kept)
    } else {
        rank_of(ranks.drop_first(), sector)
    }
}

/// Sectors stand in strictly ascending order.
pub open spec fn ascending(ranks: Seq<SectorRank>) -> bool {
    forall|j: int, k: int|
        0 <= j < k < ranks.len() ==> (#[trigger] ranks[j]).sector.id < (
        #[trigger] ranks[k]).sector.id
}

/// Ascending ranks with one sector's rank put in its place.
pub open spec fn with_rank(ranks: Seq<SectorRank>, rank: SectorRank) -> Seq<SectorRank>
    decreases ranks.len(),
{
    if ranks.len() == 0 {
        seq![rank]
    } else if ranks[0].sector.id < rank.sector.id {
        seq![ranks[0]] + with_rank(ranks.drop_first(), rank)
    } else if ranks[0].sector == rank.sector {
        seq![rank] + ranks.drop_first()
    } else {
        seq![rank] + ranks
    }
}

/// Ranks without the first one of a sector.
pub open spec fn without_rank(ranks: Seq<SectorRank>, sector: SectorId) -> Seq<SectorRank>
    decreases ranks.len(),
{
    if ranks.len() == 0 {
        ranks
    } else if ranks[0].sector == sector {
        ranks.drop_first()
    } else {
        seq![ranks[0]] + without_rank(ranks.drop_first(), sector)
    }
}

proof fn lemma_without_rank(ranks: Seq<SectorRank>, sector: SectorId, k: int)
    requires
        0 <= k <= ranks.len(),
        forall|j: int| 0 <= j < k ==> (#[trigger] ranks[j]).sector != sector,
        k < ranks.len() ==> ranks[k].sector == sector,
    ensures
        without_rank(ranks, sector) == if k < ranks.len() {
            ranks.remove(k)
        } else {
            ranks
        },
    decreases k,
{
    if k == 0 {
        if ranks.len() > 0 {
            assert(ranks.drop_first() =~= ranks.remove(0));
        }
    } else {
        let rest = ranks.drop_first();
        assert(ranks[0].sector != sector);
        assert forall|j: int| 0 <= j < k - 1 implies (#[trigger] rest[j]).sector != sector by {
            assert(rest[j] == ranks[j + 1]);
        }
        lemma_without_rank(rest, sector, k - 1);
        if k < ranks.len() {
            assert(seq![ranks[0]] + rest.remove(k - 1) =~= ranks.remove(k));
        } else {
            assert(seq![ranks[0]] + rest =~= ranks);
        }
    }
}

/// The ranks that the pairs keep, in ascending order of their sectors; where a
/// sector occurs twice the later pair counts.
pub open spec fn bond_of_pairs<D>(pairs: Seq<FactorPair<D>>) -> Seq<SectorRank>
    decreases pairs.len(),
{
    if pairs.len() == 0 {
        Seq::empty()
    } else {
        with_rank(
            bond_of_pairs(pairs.drop_last()),
            SectorRank { sector: pairs.last().sector, kept: pairs.last().kept },
        )
    }
}

/// Where a rank is put: behind the smaller sectors, in place of its own.
proof fn lemma_with_rank(ranks: Seq<SectorRank>, rank: SectorRank, k: int)
    requires
        0 <= k <= ranks.len(),
        forall|j: int| 0 <= j < k ==> (#[trigger] ranks[j]).sector.id < rank.sector.id,
        k < ranks.len() ==> ranks[k].sector.id >= rank.sector.id,
    ensures
        with_rank(ranks, rank) == if k < ranks.len() && ranks[k].sector == rank.sector {
            ranks.update(k, rank)
        } else {
            ranks.insert(k, rank)
        },
    decreases k,
{
    if k == 0 {
        if ranks.len() > 0 && ranks[0].sector == rank.sector {
            assert(seq![rank] + ranks.drop_first() =~= ranks.update(0, rank));
        } else {
            assert(seq![rank] + ranks =~= ranks.insert(0, rank));
            if ranks.len() == 0 {
                assert(seq![rank] =~= ranks.insert(0, rank));
            }
        }
    } else {
        let rest = ranks.drop_first();
        assert forall|j: int| 0 <= j < k - 1 implies (#[trigger] rest[j]).sector.id
            < rank.sector.id by {
            assert(rest[j] == ranks[j + 1]);
        }
        assert(ranks[0].sector.id < rank.sector.id);
        lemma_with_rank(rest, rank, k - 1);
        if k < ranks.len() && ranks[k].sector == rank.sector {
            assert(seq![ranks[0]] + rest.update(k - 1, rank) =~= ranks.update(k, rank));
        } else {
            assert(seq![ranks[0]] + rest.insert(k - 1, rank) =~= ranks.insert(k, rank));
        }
    }
}

/// Bond dimensions, one for each sector, in ascending order of the sectors.
#[derive(Clone, Debug, PartialEq, Eq)]
pub struct BondDimensions {
    ranks: Vec<SectorRank>,
}

impl View for BondDimensions {
    type V = Seq<SectorRank>;

    closed spec fn view(&self) -> Seq<SectorRank> {
        self.ranks@
    }
}

/// A rank that is found belongs to its sector.
pub proof fn lemma_rank_of(ranks: Seq<SectorRank>, sector: SectorId)
    ensures
        match rank_of(ranks, sector) {
            Some(kept) => exists|k: int|
                0 <= k < ranks.len() && (#[trigger] ranks[k]).sector == sector && ranks[k].kept
                    == kept && forall|j: int|
                    0 <= j < k ==> (#[trigger] ranks[j]).sector != sector,
            None => forall|k: int| 0 <= k < ranks.len() ==> (#[trigger] ranks[k]).sector != sector,
        },
    decreases ranks.len(),
{
    if ranks.len() > 0 {
        if ranks[0].sector == sector {
            assert(ranks[0].kept == rank_of(ranks, sector)->0);
        } else {
            let rest = ranks.drop_first();
            lemma_rank_of(rest, sector);
            match rank_of(rest, sector) {
                Some(kept) => {
                    let k = choose|k: int|
                        0 <= k < rest.len() && (#[trigger] rest[k]).sector == sector
                            && rest[k].kept == kept && forall|j: int|
                            0 <= j < k ==> (#[trigger] rest[j]).sector != sector;
                    assert(ranks[k + 1] == rest[k]);
                    assert forall|j: int| 0 <= j < k + 1 implies (#[trigger] ranks[j]).sector
                        != sector by {
                        if j > 0 {
                            assert(ranks[j] == rest[j - 1]);
                        }
                    }
                },
                None => {
                    assert forall|k: int| 0 <= k < ranks.len() implies (
                    #[trigger] ranks[k]).sector != sector by {
                        if k > 0 {
                            assert(ranks[k] == rest[k - 1]);
                        }
                    }
                },
            }
        }
    }
}

/// In an ascending list an entry is the rank of its sector.
pub proof fn lemma_rank_at(ranks: Seq<SectorRank>, k: int)
    requires
        ascending(ranks),
        0 <= k < ranks.len(),
    ensures
        rank_of(ranks, ranks[k].sector) == Some(ranks[k].kept),
{
    lemma_rank_of(ranks, ranks[k].sector);
    let j = choose|j: int|
        0 <= j < ranks.len() && (#[trigger] ranks[j]).sector == ranks[k].sector && ranks[j].kept
            == rank_of(ranks, ranks[k].sector)->0 && forall|i: int|
            0 <= i < j ==> (#[trigger] ranks[i]).sector != ranks[k].sector;
    if j < k {
        assert(ranks[j].sector.id < ranks[k].sector.id);
    } else if k < j {
        assert(ranks[k].sector.id < ranks[j].sector.id);
    }
}

impl BondDimensions {
    /// Sectors are strictly ascending.
    pub open spec fn wf(self) -> bool {
        ascending(self@)
    }

    /// No sector.
    pub fn new() -> (dimensions: BondDimensions)
        ensures
            dimensions.wf(),
            dimensions@ == Seq::<SectorRank>::empty(),
    {
        BondDimensions { ranks: Vec::new() }
    }

    /// The number of sectors.
    pub fn len(&self) -> (len: usize)
        ensures
            len == self@.len(),
    {
        self.ranks.len()
    }

    /// One sector with its dimension.
    pub fn rank(&self, index: usize) -> (rank: SectorRank)
        requires
            index < self@.len(),
        ensures
            rank == self@[index as int],
    {
        self.ranks[index]
    }

    /// The dimension of a sector, where it has one.
    pub fn get(&self, sector: SectorId) -> (kept: Option<usize>)
        ensures
            kept == rank_of(self@, sector),
    {
        let mut k: usize = 0;
        proof {
            assert(self.ranks@.skip(0) =~= self.ranks@);
        }
        while k < self.ranks.len()
            invariant
                k <= self.ranks@.len(),
                rank_of(self.ranks@, sector) == rank_of(self.ranks@.skip(k as int), sector),
            decreases self.ranks.len() - k,
        {
            proof {
                assert(self.ranks@.skip(k as int).drop_first() =~= self.ranks@.skip(k + 1));
                assert(self.ranks@.skip(k as int)[0] == self.ranks@[k as int]);
            }
            if self.ranks[k].sector == sector {
                return Some(self.ranks[k].kept);
            }
            k += 1;
        }
        None
    }

    /// Gives a sector its dimension, in place of one it had before.
    pub fn insert(&mut self, sector: SectorId, kept: usize)
        requires
            old(self).wf(),
        ensures
            final(self).wf(),
            final(self)@ == with_rank(old(self)@, SectorRank { sector, kept }),
            forall|other: SectorId| #[trigger]
                rank_of(final(self)@, other) == if other == sector {
                    Some(kept)
                } else {
                    rank_of(old(self)@, other)
                },
    {
        let ghost before = self.ranks@;
        let mut k: usize = 0;
        while k < self.ranks.len() && self.ranks[k].sector.id < sector.id
            invariant
                k <= self.ranks@.len(),
                self.ranks@ == before,
                ascending(before),
                forall|j: int| 0 <= j < k ==> (#[trigger] before[j]).sector.id < sector.id,
            decreases self.ranks.len() - k,
        {
            k += 1;
        }
        proof {
            lemma_with_rank(before, SectorRank { sector, kept }, k as int);
        }
        if k < self.ranks.len() && self.ranks[k].sector == sector {
            self.ranks[k].kept = kept;
            proof {
                assert(self.ranks@ =~= before.update(k as int, SectorRank { sector, kept }));
                assert forall|i: int, j: int| 0 <= i < j < self.ranks@.len() implies (
                #[trigger] self.ranks@[i]).sector.id < (#[trigger] self.ranks@[j]).sector.id by {
                    assert(before[i].sector.id < before[j].sector.id);
                }
            }
        } else {
            self.ranks.insert(k, SectorRank { sector, kept });
            proof {
                let after = self.ranks@;
                assert forall|i: int, j: int| 0 <= i < j < after.len() implies (
                #[trigger] after[i]).sector.id < (#[trigger] after[j]).sector.id by {
                    let a = if i < k {
                        i
                    } else {
                        i - 1
                    };
                    let b = if j < k {
                        j
                    } else {
                        j - 1
                    };
                    if i == k {
                        assert(after[j] == before[b]);
                        if b > k {
                            assert(before[k as int].sector.id < before[b].sector.id);
                        }
                    } else if j == k {
                        assert(after[i] == before[a]);
                    } else {
                        assert(after[i] == before[a]);
                        assert(after[j] == before[b]);
                        assert(before[a].sector.id < before[b].sector.id);
                    }
                }
            }
        }
        proof {
            let after = self.ranks@;
            assert forall|other: SectorId| #[trigger]
                rank_of(after, other) == if other == sector {
                    Some(kept)
                } else {
                    rank_of(before, other)
                } by {
                if other == sector {
                    assert(after[k as int] == (SectorRank { sector, kept }));
                    lemma_rank_at(after, k as int);
                } else {
                    lemma_rank_of(before, other);
                    match rank_of(before, other) {
                        Some(found) => {
                            let j = choose|j: int|
                                0 <= j < before.len() && (#[trigger] before[j]).sector == other
                                    && before[j].kept == found && forall|i: int|
                                    0 <= i < j ==> (#[trigger] before[i]).sector != other;
                            let moved = if before.len() == after.len() || j < k {
                                j
                            } else {
                                j + 1
                            };
                            assert(after[moved] == before[j]);
                            lemma_rank_at(after, moved);
                        },
                        None => {
                            lemma_rank_of(after, other);
                            if rank_of(after, other) is Some {
                                let j = choose|j: int|
                                    0 <= j < after.len() && (#[trigger] after[j]).sector == other
                                        && after[j].kept == rank_of(after, other)->0 && forall|
                                        i: int,
                                    |
                                        0 <= i < j ==> (#[trigger] after[i]).sector != other;
                                let source = if before.len() == after.len() || j < k {
                                    j
                                } else {
                                    j - 1
                                };
                                if j != k {
                                    assert(after[j] == before[source]);
                                }
                            }
                        },
                    }
                }
            }
        }
    }

    /// Takes a sector out, if it is there.
    pub fn remove(&mut self, sector: SectorId)
        requires
            old(self).wf(),
        ensures
            final(self).wf(),
            final(self)@ == without_rank(old(self)@, sector),
            forall|other: SectorId| #[trigger]
                rank_of(final(self)@, other) == if other == sector {
                    None
                } else {
                    rank_of(old(self)@, other)
                },
    {
        let ghost before = self.ranks@;
        let mut k: usize = 0;
        while k < self.ranks.len() && self.ranks[k].sector != sector
            invariant
                k <= self.ranks@.len(),
                self.ranks@ == before,
                forall|j: int| 0 <= j < k ==> (#[trigger] before[j]).sector != sector,
            decreases self.ranks.len() - k,
        {
            k += 1;
        }
        proof {
            lemma_without_rank(before, sector, k as int);
        }
        if k < self.ranks.len() {
            self.ranks.remove(k);
            proof {
                let after = self.ranks@;
                assert forall|i: int, j: int| 0 <= i < j < after.len() implies (
                #[trigger] after[i]).sector.id < (#[trigger] after[j]).sector.id by {
                    let a = if i < k {
                        i
                    } else {
                        i + 1
                    };
                    let b = if j < k {
                        j
                    } else {
                        j + 1
                    };
                    assert(after[i] == before[a]);
                    assert(after[j] == before[b]);
                    assert(before[a].sector.id < before[b].sector.id);
                }
            }
        }
        proof {
            assert forall|other: SectorId| #[trigger]
                rank_of(self.ranks@, other) == if other == sector {
                    None
                } else {
                    rank_of(before, other)
                } by {
                crate::bond_laws::lemma_removed_rank_is_gone(before, sector, other);
            }
        }
    }

    /// The ranks that the pairs keep; where a sector occurs twice the later one.
    pub fn of_pairs<D>(pairs: &[FactorPair<D>]) -> (dimensions: BondDimensions)
        ensures
            dimensions.wf(),
            dimensions@ == bond_of_pairs(pairs@),
    {
        let mut dimensions = BondDimensions::new();
        let mut k: usize = 0;
        assert(pairs@.take(0) =~= Seq::empty());
        while k < pairs.len()
            invariant
                k <= pairs@.len(),
                dimensions.wf(),
                dimensions@ == bond_of_pairs(pairs@.take(k as int)),
            decreases pairs.len() - k,
        {
            dimensions.insert(pairs[k].sector, pairs[k].kept);
            proof {
                assert(pairs@.take(k + 1).drop_last() =~= pairs@.take(k as int));
                assert(pairs@.take(k + 1).last() == pairs@[k as int]);
            }
            k += 1;
        }
        assert(pairs@.take(pairs@.len() as int) =~= pairs@);
        dimensions
    }
}

} // verus!
