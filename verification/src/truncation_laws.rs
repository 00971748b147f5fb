//! What a truncation keeps: every value that the decision keeps, and no other.

use vstd::prelude::*;

use crate::factor::SectorRank;
use crate::spectrum::{last_entry, lemma_last_entry, SectorSpectrum};
use crate::truncate::{
    kept_dimension, kept_values, keeps_everything, sliced_bond, spectra, truncated,
};

verus! {

/// How many values of entry `k` stay: as many as the decision allows, at most
/// all, and all where there is no decision on it.
pub open spec fn staying<V>(entries: Seq<SectorSpectrum<V>>, kept: Seq<usize>, k: int) -> int {
    let all = entries[k].values@.len() as int;
    if k < kept.len() && kept[k] < all {
        kept[k] as int
    } else {
        all
    }
}

/// Positions of a list in ascending order.
pub open spec fn ascending_positions(chosen: Seq<int>, len: int) -> bool {
    &&& forall|j: int| 0 <= j < chosen.len() ==> 0 <= (#[trigger] chosen[j]) < len
    &&& forall|i: int, j: int|
        0 <= i < j < chosen.len() ==> (#[trigger] chosen[i]) < (#[trigger] chosen[j])
}

/// The result holds, in order, the leading values of exactly the entries that
/// keep some.
pub open spec fn keeps_what_stays<V>(
    entries: Seq<SectorSpectrum<V>>,
    kept: Seq<usize>,
    result: Seq<SectorSpectrum<V>>,
    chosen: Seq<int>,
) -> bool {
    &&& chosen.len() == result.len()
    &&& ascending_positions(chosen, entries.len() as int)
    &&& forall|j: int|
        0 <= j < result.len() ==> {
            let k = chosen[j];
            &&& (#[trigger] result[j]).sector == entries[k].sector
            &&& result[j].values@ == entries[k].values@.take(staying(entries, kept, k))
        }
    &&& forall|k: int|
        0 <= k < entries.len() ==> (#[trigger] staying(entries, kept, k) > 0
            <==> chosen.contains(k))
}

/// How many values there are.
pub open spec fn value_count<V>(entries: Seq<SectorSpectrum<V>>) -> int
    decreases entries.len(),
{
    if entries.len() == 0 {
        0
    } else {
        value_count(entries.drop_last()) + entries.last().values@.len()
    }
}

/// How many values of the first `count` entries stay.
pub open spec fn staying_count<V>(
    entries: Seq<SectorSpectrum<V>>,
    kept: Seq<usize>,
    count: int,
) -> int
    decreases count,
{
    if count <= 0 {
        0
    } else {
        staying_count(entries, kept, count - 1) + staying(entries, kept, count - 1)
    }
}

proof fn lemma_truncated_entries<V>(
    entries: Seq<SectorSpectrum<V>>,
    kept: Seq<usize>,
    count: int,
) -> (chosen: Seq<int>)
    requires
        0 <= count <= entries.len(),
    ensures
        ({
            let found = truncated(spectra(entries), kept, count);
            &&& chosen.len() == found.len()
            &&& ascending_positions(chosen, count)
            &&& forall|j: int|
                0 <= j < found.len() ==> {
                    let k = chosen[j];
                    &&& (#[trigger] found[j]).sector == entries[k].sector
                    &&& found[j].values == entries[k].values@.take(staying(entries, kept, k))
                }
            &&& forall|k: int|
                0 <= k < count ==> (#[trigger] staying(entries, kept, k) > 0 <==> chosen.contains(
                    k,
                ))
        }),
    decreases count,
{
    if count <= 0 {
        Seq::empty()
    } else {
        let before = lemma_truncated_entries(entries, kept, count - 1);
        let shorter = truncated(spectra(entries), kept, count - 1);
        let found = truncated(spectra(entries), kept, count);
        let last = count - 1;
        assert(spectra(entries)[last].values == entries[last].values@);
        assert(kept_values(spectra(entries), kept, last) =~= entries[last].values@.take(
            staying(entries, kept, last),
        ));
        if staying(entries, kept, last) > 0 {
            let chosen = before.push(last);
            assert(chosen[before.len() as int] == last);
            assert forall|k: int| 0 <= k < count implies (#[trigger] staying(entries, kept, k) > 0
                <==> chosen.contains(k)) by {
                if k < last {
                    if before.contains(k) {
                        let j = choose|j: int| 0 <= j < before.len() && before[j] == k;
                        assert(chosen[j] == k);
                    }
                    if chosen.contains(k) {
                        let j = choose|j: int| 0 <= j < chosen.len() && chosen[j] == k;
                        assert(before[j] == k);
                    }
                }
            }
            assert forall|j: int| 0 <= j < found.len() implies {
                let k = chosen[j];
                &&& (#[trigger] found[j]).sector == entries[k].sector
                &&& found[j].values == entries[k].values@.take(staying(entries, kept, k))
            } by {
                if j < shorter.len() {
                    assert(found[j] == shorter[j]);
                }
            }
            chosen
        } else {
            assert forall|k: int| 0 <= k < count implies (#[trigger] staying(entries, kept, k) > 0
                <==> before.contains(k)) by {
                if k == last && before.contains(k) {
                    let j = choose|j: int| 0 <= j < before.len() && before[j] == k;
                    assert(before[j] < last);
                }
            }
            before
        }
    }
}

/// A truncation keeps, in order, the leading values of every entry that keeps
/// some, as many as the decision allows, and drops only the entries that keep
/// none. So it has as many values as the decision keeps in all.
pub proof fn lemma_truncation_keeps_exactly<V>(
    entries: Seq<SectorSpectrum<V>>,
    kept: Seq<usize>,
    result: Seq<SectorSpectrum<V>>,
)
    requires
        spectra(result) == truncated(spectra(entries), kept, entries.len() as int),
    ensures
        exists|chosen: Seq<int>| #[trigger] keeps_what_stays(entries, kept, result, chosen),
        value_count(result) == staying_count(entries, kept, entries.len() as int),
{
    let chosen = lemma_truncated_entries(entries, kept, entries.len() as int);
    let found = truncated(spectra(entries), kept, entries.len() as int);
    assert(result.len() == spectra(result).len());
    assert forall|j: int| 0 <= j < result.len() implies {
        let k = chosen[j];
        &&& (#[trigger] result[j]).sector == entries[k].sector
        &&& result[j].values@ == entries[k].values@.take(staying(entries, kept, k))
    } by {
        assert(spectra(result)[j].sector == result[j].sector);
        assert(spectra(result)[j].values == result[j].values@);
        assert(found[j].sector == entries[chosen[j]].sector);
    }
    assert(keeps_what_stays(entries, kept, result, chosen));
    lemma_staying_counted(entries, kept, result, chosen, entries.len() as int);
}

proof fn lemma_staying_counted<V>(
    entries: Seq<SectorSpectrum<V>>,
    kept: Seq<usize>,
    result: Seq<SectorSpectrum<V>>,
    chosen: Seq<int>,
    count: int,
)
    requires
        0 <= count <= entries.len(),
        chosen.len() == result.len(),
        ascending_positions(chosen, count),
        forall|j: int|
            0 <= j < result.len() ==> (#[trigger] result[j]).values@.len() == staying(
                entries,
                kept,
                chosen[j],
            ),
        forall|k: int|
            0 <= k < count && #[trigger] staying(entries, kept, k) > 0 ==> chosen.contains(k),
    ensures
        value_count(result) == staying_count(entries, kept, count),
    decreases count,
{
    if count > 0 {
        let last = count - 1;
        if chosen.len() > 0 && chosen.last() == last {
            let shorter = chosen.drop_last();
            let rest = result.drop_last();
            assert forall|k: int|
                0 <= k < last && #[trigger] staying(entries, kept, k) > 0 implies shorter.contains(
                k,
            ) by {
                let j = choose|j: int| 0 <= j < chosen.len() && chosen[j] == k;
                assert(shorter[j] == k);
            }
            assert forall|j: int| 0 <= j < rest.len() implies (
            #[trigger] rest[j]).values@.len() == staying(entries, kept, shorter[j]) by {
                assert(result[j].values@.len() == staying(entries, kept, chosen[j]));
            }
            assert forall|j: int| 0 <= j < shorter.len() implies 0 <= (#[trigger] shorter[j])
                < last by {
                assert(chosen[j] < chosen[chosen.len() - 1]);
            }
            lemma_staying_counted(entries, kept, rest, shorter, last);
            assert(result.last() == result[result.len() - 1]);
        } else {
            assert forall|j: int| 0 <= j < chosen.len() implies 0 <= (#[trigger] chosen[j])
                < last by {
                if chosen[j] == last && j < chosen.len() - 1 {
                    assert(chosen[j] < chosen[chosen.len() - 1]);
                }
            }
            assert(staying(entries, kept, last) == 0) by {
                if staying(entries, kept, last) > 0 {
                    assert(chosen.contains(last));
                    let j = choose|j: int| 0 <= j < chosen.len() && chosen[j] == last;
                    assert(chosen[j] < last);
                }
            }
            lemma_staying_counted(entries, kept, result, chosen, last);
        }
    } else {
        if chosen.len() > 0 {
            assert(chosen[0] < 0);
        }
    }
}

/// Where the decision keeps everything, all values of every entry stay; where it
/// does not, it names another number than there are values for some entry.
pub proof fn lemma_keeping_everything<V>(entries: Seq<SectorSpectrum<V>>, kept: Seq<usize>)
    ensures
        keeps_everything(spectra(entries), kept) ==> forall|k: int|
            0 <= k < entries.len() ==> #[trigger] staying(entries, kept, k)
                == entries[k].values@.len(),
        !keeps_everything(spectra(entries), kept) ==> exists|k: int|
            0 <= k < entries.len() && k < kept.len() && (#[trigger] entries[k]).values@.len()
                != kept[k],
{
    let views = spectra(entries);
    if keeps_everything(views, kept) {
        assert forall|k: int| 0 <= k < entries.len() implies #[trigger] staying(entries, kept, k)
            == entries[k].values@.len() by {
            assert(views[k].values == entries[k].values@);
        }
    } else {
        let k = choose|k: int|
            0 <= k < views.len() && k < kept.len() && (#[trigger] views[k]).values.len()
                != kept[k];
        assert(views[k].values == entries[k].values@);
    }
}

/// A sector of the bond keeps this dimension: its last entry has that many
/// values, or there is no entry and nothing is kept.
pub open spec fn bond_keeps<V>(
    entries: Seq<SectorSpectrum<V>>,
    rank: SectorRank,
    kept: int,
) -> bool {
    ||| exists|e: int|
        {
            &&& 0 <= e < entries.len()
            &&& (#[trigger] entries[e]).sector == rank.sector
            &&& entries[e].values@.len() == kept
            &&& forall|later: int|
                e < later < entries.len() ==> (#[trigger] entries[later]).sector != rank.sector
        }
    ||| kept == 0 && forall|e: int|
        0 <= e < entries.len() ==> (#[trigger] entries[e]).sector != rank.sector
}

/// The bond after a truncation holds, in order, exactly the sectors of the bond
/// before it that keep some values, each with the number of values that it keeps.
pub open spec fn slices_bond<V>(
    bond: Seq<SectorRank>,
    entries: Seq<SectorSpectrum<V>>,
    result: Seq<SectorRank>,
    count: int,
    chosen: Seq<int>,
) -> bool {
    &&& chosen.len() == result.len()
    &&& ascending_positions(chosen, count)
    &&& forall|j: int|
        0 <= j < result.len() ==> {
            &&& (#[trigger] result[j]).sector == bond[chosen[j]].sector
            &&& result[j].kept > 0
            &&& bond_keeps(entries, bond[chosen[j]], result[j].kept as int)
        }
    &&& forall|k: int|
        0 <= k < count && !chosen.contains(k) ==> bond_keeps(entries, #[trigger] bond[k], 0)
}

/// The bond after a truncation: see [`slices_bond`].
pub proof fn lemma_sliced_bond_holds_what_stays<V>(
    bond: Seq<SectorRank>,
    entries: Seq<SectorSpectrum<V>>,
    count: int,
) -> (chosen: Seq<int>)
    requires
        0 <= count <= bond.len(),
        forall|e: int| 0 <= e < entries.len() ==> (#[trigger] entries[e]).values@.len()
            <= usize::MAX,
    ensures
        slices_bond(bond, entries, sliced_bond(bond, entries, count), count, chosen),
    decreases count,
{
    if count <= 0 {
        Seq::empty()
    } else {
        let last = count - 1;
        let before = lemma_sliced_bond_holds_what_stays(bond, entries, last);
        let shorter = sliced_bond(bond, entries, last);
        let found = sliced_bond(bond, entries, count);
        let id = bond[last].sector;
        let dimension = kept_dimension(entries, id);
        lemma_last_entry(entries, id, entries.len() as int);
        assert(bond_keeps(entries, bond[last], dimension as int)) by {
            if let Some(e) = last_entry(entries, id, entries.len() as int) {
                assert(entries[e].sector == id);
            }
        }
        if dimension > 0 {
            let chosen = before.push(last);
            assert(chosen[before.len() as int] == last);
            assert forall|j: int| 0 <= j < found.len() implies {
                &&& (#[trigger] found[j]).sector == bond[chosen[j]].sector
                &&& found[j].kept > 0
                &&& bond_keeps(entries, bond[chosen[j]], found[j].kept as int)
            } by {
                if j < shorter.len() {
                    assert(found[j] == shorter[j]);
                }
            }
            assert forall|k: int| 0 <= k < count && !chosen.contains(k) implies bond_keeps(
                entries,
                #[trigger] bond[k],
                0,
            ) by {
                if before.contains(k) {
                    let j = choose|j: int| 0 <= j < before.len() && before[j] == k;
                    assert(chosen[j] == k);
                }
                assert(k != last);
            }
            chosen
        } else {
            before
        }
    }
}

} // verus!
