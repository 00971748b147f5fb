//! What a bond holds after a sector was given a dimension or taken out.

use vstd::prelude::*;

use crate::bond::{
    ascending, bond_of_pairs, lemma_rank_of, rank_of, with_rank, without_rank,
};
use crate::factor::{FactorPair, SectorRank};
use crate::sector::SectorId;

verus! {

/// A sector that is given a rank leaves the other ranks, and the order, alone.
pub(crate) proof fn lemma_rank_given(ranks: Seq<SectorRank>, rank: SectorRank)
    requires
        ascending(ranks),
    ensures
        ascending(with_rank(ranks, rank)),
        forall|k: int|
            0 <= k < with_rank(ranks, rank).len() ==> (#[trigger] with_rank(ranks, rank)[k])
                == rank || ranks.contains(with_rank(ranks, rank)[k]),
    decreases ranks.len(),
{
    let after = with_rank(ranks, rank);
    if ranks.len() > 0 {
        let rest = ranks.drop_first();
        assert forall|i: int, j: int| 0 <= i < j < rest.len() implies (
        #[trigger] rest[i]).sector.id < (#[trigger] rest[j]).sector.id by {
            assert(ranks[i + 1].sector.id < ranks[j + 1].sector.id);
        }
        if ranks[0].sector.id < rank.sector.id {
            lemma_rank_given(rest, rank);
            let behind = with_rank(rest, rank);
            assert(after =~= seq![ranks[0]] + behind);
            assert forall|k: int| 0 <= k < after.len() implies (#[trigger] after[k]) == rank
                || ranks.contains(after[k]) by {
                if k > 0 {
                    assert(after[k] == behind[k - 1]);
                    if behind[k - 1] != rank {
                        let j = rest.index_of(behind[k - 1]);
                        assert(rest[j] == ranks[j + 1]);
                    }
                } else {
                    assert(ranks[0] == after[0]);
                }
            }
            assert forall|i: int, j: int| 0 <= i < j < after.len() implies (
            #[trigger] after[i]).sector.id < (#[trigger] after[j]).sector.id by {
                assert(after[j] == behind[j - 1]);
                if i > 0 {
                    assert(after[i] == behind[i - 1]);
                } else if behind[j - 1] != rank {
                    let m = rest.index_of(behind[j - 1]);
                    assert(rest[m] == ranks[m + 1]);
                }
            }
        } else if ranks[0].sector == rank.sector {
            assert(after =~= ranks.update(0, rank));
            assert forall|k: int| 0 <= k < after.len() implies (#[trigger] after[k]) == rank
                || ranks.contains(after[k]) by {
                if k > 0 {
                    assert(after[k] == ranks[k]);
                }
            }
            assert forall|i: int, j: int| 0 <= i < j < after.len() implies (
            #[trigger] after[i]).sector.id < (#[trigger] after[j]).sector.id by {
                assert(ranks[i].sector.id < ranks[j].sector.id);
            }
        } else {
            assert(after =~= ranks.insert(0, rank));
            assert forall|k: int| 0 <= k < after.len() implies (#[trigger] after[k]) == rank
                || ranks.contains(after[k]) by {
                if k > 0 {
                    assert(after[k] == ranks[k - 1]);
                }
            }
            assert forall|i: int, j: int| 0 <= i < j < after.len() implies (
            #[trigger] after[i]).sector.id < (#[trigger] after[j]).sector.id by {
                assert(after[j] == ranks[j - 1]);
                if i > 0 {
                    assert(after[i] == ranks[i - 1]);
                } else if j > 1 {
                    assert(ranks[0].sector.id < ranks[j - 1].sector.id);
                }
            }
        }
    } else {
        assert(after =~= seq![rank]);
    }
}

/// A sector has the rank that it was given, and every other sector the rank that
/// it had.
pub proof fn lemma_given_rank_is_found(
    ranks: Seq<SectorRank>,
    rank: SectorRank,
    other: SectorId,
)
    requires
        ascending(ranks),
    ensures
        ascending(with_rank(ranks, rank)),
        rank_of(with_rank(ranks, rank), other) == if other == rank.sector {
            Some(rank.kept)
        } else {
            rank_of(ranks, other)
        },
    decreases ranks.len(),
{
    lemma_rank_given(ranks, rank);
    let after = with_rank(ranks, rank);
    if ranks.len() == 0 {
        assert(after.drop_first() =~= ranks);
        assert(rank_of(ranks, other) is None);
    } else {
        let rest = ranks.drop_first();
        lemma_rest_ascends(ranks);
        if ranks[0].sector.id < rank.sector.id {
            lemma_given_rank_is_found(rest, rank, other);
            assert(after.drop_first() =~= with_rank(rest, rank));
            assert(after[0] == ranks[0]);
        } else if ranks[0].sector == rank.sector {
            assert(after.drop_first() =~= rest);
            assert(after[0] == rank);
        } else {
            assert(after.drop_first() =~= ranks);
            assert(after[0] == rank);
        }
    }
}

proof fn lemma_rest_ascends(ranks: Seq<SectorRank>)
    requires
        ascending(ranks),
        ranks.len() > 0,
    ensures
        ascending(ranks.drop_first()),
        rank_of(ranks.drop_first(), ranks[0].sector) is None,
{
    let rest = ranks.drop_first();
    assert forall|i: int, j: int| 0 <= i < j < rest.len() implies (#[trigger] rest[i]).sector.id
        < (#[trigger] rest[j]).sector.id by {
        assert(ranks[i + 1].sector.id < ranks[j + 1].sector.id);
    }
    lemma_rank_of(rest, ranks[0].sector);
    if rank_of(rest, ranks[0].sector) is Some {
        let k = choose|k: int|
            0 <= k < rest.len() && (#[trigger] rest[k]).sector == ranks[0].sector && rest[k].kept
                == rank_of(rest, ranks[0].sector)->0 && forall|j: int|
                0 <= j < k ==> (#[trigger] rest[j]).sector != ranks[0].sector;
        assert(ranks[0].sector.id < ranks[k + 1].sector.id);
    }
}

/// A sector that is taken out has no rank, and every other sector the rank that
/// it had.
pub proof fn lemma_removed_rank_is_gone(
    ranks: Seq<SectorRank>,
    sector: SectorId,
    other: SectorId,
)
    requires
        ascending(ranks),
    ensures
        rank_of(without_rank(ranks, sector), other) == if other == sector {
            None
        } else {
            rank_of(ranks, other)
        },
    decreases ranks.len(),
{
    if ranks.len() > 0 {
        let rest = ranks.drop_first();
        let after = without_rank(ranks, sector);
        lemma_rest_ascends(ranks);
        if ranks[0].sector != sector {
            lemma_removed_rank_is_gone(rest, sector, other);
            assert(after.drop_first() =~= without_rank(rest, sector));
            assert(after[0] == ranks[0]);
        }
    }
}

/// A bond stays ascending when a sector is taken out.
pub(crate) proof fn lemma_removal_ascends(ranks: Seq<SectorRank>, sector: SectorId)
    requires
        ascending(ranks),
    ensures
        ascending(without_rank(ranks, sector)),
        forall|k: int|
            0 <= k < without_rank(ranks, sector).len() ==> ranks.contains(
                #[trigger] without_rank(ranks, sector)[k],
            ),
    decreases ranks.len(),
{
    let after = without_rank(ranks, sector);
    if ranks.len() > 0 {
        let rest = ranks.drop_first();
        lemma_rest_ascends(ranks);
        if ranks[0].sector == sector {
            assert forall|k: int| 0 <= k < after.len() implies ranks.contains(
                #[trigger] after[k],
            ) by {
                assert(after[k] == ranks[k + 1]);
            }
        } else {
            lemma_removal_ascends(rest, sector);
            let behind = without_rank(rest, sector);
            assert(after =~= seq![ranks[0]] + behind);
            assert forall|k: int| 0 <= k < after.len() implies ranks.contains(
                #[trigger] after[k],
            ) by {
                if k > 0 {
                    assert(after[k] == behind[k - 1]);
                    let j = rest.index_of(behind[k - 1]);
                    assert(rest[j] == ranks[j + 1]);
                } else {
                    assert(after[0] == ranks[0]);
                }
            }
            assert forall|i: int, j: int| 0 <= i < j < after.len() implies (
            #[trigger] after[i]).sector.id < (#[trigger] after[j]).sector.id by {
                assert(after[j] == behind[j - 1]);
                if i > 0 {
                    assert(after[i] == behind[i - 1]);
                } else {
                    let m = rest.index_of(behind[j - 1]);
                    assert(rest[m] == ranks[m + 1]);
                }
            }
        }
    }
}

/// The bond of pairs gives every sector what the last pair of that sector keeps,
/// and no other sector anything, in ascending order.
pub proof fn lemma_bond_of_pairs<D>(pairs: Seq<FactorPair<D>>, sector: SectorId)
    ensures
        ascending(bond_of_pairs(pairs)),
        match rank_of(bond_of_pairs(pairs), sector) {
            Some(kept) => exists|p: int|
                0 <= p < pairs.len() && (#[trigger] pairs[p]).sector == sector && pairs[p].kept
                    == kept && forall|later: int|
                    p < later < pairs.len() ==> (#[trigger] pairs[later]).sector != sector,
            None => forall|p: int| 0 <= p < pairs.len() ==> (#[trigger] pairs[p]).sector != sector,
        },
    decreases pairs.len(),
{
    if pairs.len() > 0 {
        let before = pairs.drop_last();
        lemma_bond_of_pairs(before, sector);
        let last = SectorRank { sector: pairs.last().sector, kept: pairs.last().kept };
        lemma_given_rank_is_found(bond_of_pairs(before), last, sector);
        if last.sector == sector {
            assert(pairs[pairs.len() - 1].sector == sector);
        } else {
            match rank_of(bond_of_pairs(before), sector) {
                Some(kept) => {
                    let p = choose|p: int|
                        0 <= p < before.len() && (#[trigger] before[p]).sector == sector
                            && before[p].kept == kept && forall|later: int|
                            p < later < before.len() ==> (#[trigger] before[later]).sector
                                != sector;
                    assert(pairs[p] == before[p]);
                    assert forall|later: int| p < later < pairs.len() implies (
                    #[trigger] pairs[later]).sector != sector by {
                        if later < before.len() {
                            assert(pairs[later] == before[later]);
                        }
                    }
                },
                None => {
                    assert forall|p: int| 0 <= p < pairs.len() implies (
                    #[trigger] pairs[p]).sector != sector by {
                        if p < before.len() {
                            assert(pairs[p] == before[p]);
                        }
                    }
                },
            }
        }
    }
}

} // verus!
