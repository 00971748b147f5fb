//! Truncation of a bond to a leading part of each sector.

use vstd::prelude::*;

use crate::error::{unsupported, OperationError};
use crate::factor::SectorRank;
use crate::index::{block_fits, extent};
use crate::layout::{copy_matching_block_prefix, filled, prefix_writes};
use crate::publish::{scope, zeros};
use crate::sector::SectorId;
use crate::spectrum::{
    entry_map, indexes_entries, last_entry, least, lemma_last_entry, SectorSpectrum,
};
use crate::structure::{
    block_admitted, first_block, first_block_from, lemma_admitted_fits, reach, Block,
    BlockStructure,
};
use crate::writes::{apply_writes, lemma_writes_concat, Write};

verus! {

/// What a [`SectorSpectrum`] stands for.
pub struct Spectrum<V> {
    pub sector: SectorId,
    pub values: Seq<V>,
}

/// What the entries stand for.
pub open spec fn spectra<V>(entries: Seq<SectorSpectrum<V>>) -> Seq<Spectrum<V>> {
    entries.map_values(
        |entry: SectorSpectrum<V>| Spectrum { sector: entry.sector, values: entry.values@ },
    )
}

/// The decision keeps every value that there is.
pub open spec fn keeps_everything<V>(entries: Seq<Spectrum<V>>, kept: Seq<usize>) -> bool {
    forall|k: int|
        0 <= k < entries.len() && k < kept.len() ==> (#[trigger] entries[k]).values.len()
            == kept[k]
}

/// The leading values of one entry that the decision keeps. Entries beyond the
/// decision keep everything.
pub open spec fn kept_values<V>(
    entries: Seq<Spectrum<V>>,
    kept: Seq<usize>,
    k: int,
) -> Seq<V> {
    if k < kept.len() {
        entries[k].values.take(least(entries[k].values.len() as int, kept[k] as int))
    } else {
        entries[k].values
    }
}

/// The kept values of the first `count` entries, without those that keep none.
pub open spec fn truncated<V>(
    entries: Seq<Spectrum<V>>,
    kept: Seq<usize>,
    count: int,
) -> Seq<Spectrum<V>>
    decreases count,
{
    if count <= 0 {
        Seq::empty()
    } else {
        let before = truncated(entries, kept, count - 1);
        let values = kept_values(entries, kept, count - 1);
        if values.len() > 0 {
            before.push(Spectrum { sector: entries[count - 1].sector, values })
        } else {
            before
        }
    }
}

/// Whether a truncation decision keeps every value.
pub fn truncation_keeps_everything<V>(
    entries: &[SectorSpectrum<V>],
    kept: &[usize],
) -> (result: bool)
    ensures
        result == keeps_everything(spectra(entries@), kept@),
{
    let ghost all = spectra(entries@);
    let mut k: usize = 0;
    while k < entries.len() && k < kept.len()
        invariant
            k <= entries@.len(),
            k <= kept@.len(),
            all == spectra(entries@),
            forall|j: int| 0 <= j < k ==> (#[trigger] all[j]).values.len() == kept@[j],
        decreases entries.len() - k,
    {
        assert(all[k as int].values == entries@[k as int].values@);
        if entries[k].values.len() != kept[k] {
            return false;
        }
        k += 1;
    }
    true
}

/// Keeps the leading values of every entry that the decision keeps, and drops
/// the entries that keep none.
pub fn truncate_spectra<V>(
    entries: Vec<SectorSpectrum<V>>,
    kept: &[usize],
) -> (result: Vec<SectorSpectrum<V>>)
    ensures
        spectra(result@) == truncated(spectra(entries@), kept@, entries@.len() as int),
{
    let ghost all = entries@;
    let ghost views = spectra(all);
    let mut result: Vec<SectorSpectrum<V>> = Vec::new();
    let mut k: usize = 0;
    let count: usize = entries.len();
    assert(spectra(result@) =~= Seq::empty());
    for entry in iter: entries
        invariant
            iter.seq() == all,
            count == all.len(),
            views == spectra(all),
            k == iter.index(),
            spectra(result@) == truncated(views, kept@, k as int),
    {
        let ghost before = spectra(result@);
        let mut entry = entry;
        proof {
            assert(entry == all[k as int]);
            assert(views[k as int].values == entry.values@);
        }
        if k < kept.len() {
            entry.values.truncate(kept[k]);
        }
        proof {
            assert(entry.values@ =~= kept_values(views, kept@, k as int));
        }
        if entry.values.len() > 0 {
            let ghost last = Spectrum { sector: entry.sector, values: entry.values@ };
            result.push(entry);
            assert(spectra(result@) =~= before.push(last));
        }
        k += 1;
    }
    result
}

/// The dimension that a sector keeps: that of its last entry, or zero.
pub open spec fn kept_dimension<V>(entries: Seq<SectorSpectrum<V>>, sector: SectorId) -> usize {
    match last_entry(entries, sector, entries.len() as int) {
        Some(k) => entries[k].values@.len() as usize,
        None => 0,
    }
}

/// The first `count` sectors of a bond with the dimensions that they keep,
/// without those that keep nothing.
pub open spec fn sliced_bond<V>(
    bond: Seq<SectorRank>,
    entries: Seq<SectorSpectrum<V>>,
    count: int,
) -> Seq<SectorRank>
    decreases count,
{
    if count <= 0 {
        Seq::empty()
    } else {
        let before = sliced_bond(bond, entries, count - 1);
        let sector = bond[count - 1].sector;
        let kept = kept_dimension(entries, sector);
        if kept > 0 {
            before.push(SectorRank { sector, kept })
        } else {
            before
        }
    }
}

/// The bond of a truncated factor.
pub fn sliced_bond_leg<V>(
    bond: &[SectorRank],
    entries: &[SectorSpectrum<V>],
) -> (result: Vec<SectorRank>)
    ensures
        result@ == sliced_bond(bond@, entries@, bond@.len() as int),
{
    let map = entry_map(entries);
    let mut result: Vec<SectorRank> = Vec::new();
    let mut k: usize = 0;
    while k < bond.len()
        invariant
            k <= bond@.len(),
            indexes_entries(map@, entries@, entries@.len() as int),
            result@ == sliced_bond(bond@, entries@, k as int),
        decreases bond.len() - k,
    {
        let sector = bond[k].sector;
        proof {
            lemma_last_entry(entries@, sector, entries@.len() as int);
        }
        if let Some(at) = map.get(sector) {
            let kept: usize = entries[at].values.len();
            if kept > 0 {
                result.push(SectorRank { sector, kept });
            }
        }
        k += 1;
    }
    result
}

/// The writes that fill the first `count` blocks of a truncated factor from
/// the blocks of the full factor with the same labels.
pub open spec fn slice_blocks<D>(
    source: Seq<D>,
    full: Seq<Block>,
    sliced: Seq<Block>,
    count: int,
) -> Result<Seq<Write<D>>, OperationError>
    decreases count,
{
    if count <= 0 {
        Ok(Seq::empty())
    } else {
        match slice_blocks(source, full, sliced, count - 1) {
            Err(error) => Err(error),
            Ok(before) => {
                let block = sliced[count - 1];
                match first_block(full, block.key@) {
                    None => Err(scope("truncated factor tree must exist in the full factor")),
                    Some(k) => Ok(
                        before + prefix_writes(
                            source,
                            full[k as int].strides@,
                            full[k as int].offset as int,
                            block.strides@,
                            block.offset as int,
                            block.shape@,
                        ),
                    ),
                }
            },
        }
    }
}

/// A truncated block reads inside the full factor's data.
pub open spec fn slice_fits(full: Seq<Block>, block: Block, len: int) -> bool {
    match first_block(full, block.key@) {
        Some(k) => block_fits(
            block.shape@,
            full[k as int].strides@,
            full[k as int].offset as int,
            len,
        ),
        None => true,
    }
}

/// The first `count` labels of a truncated factor are labels of the full one.
pub open spec fn labels_found(full: Seq<Block>, sliced: Seq<Block>, count: int) -> bool {
    forall|k: int|
        0 <= k < count ==> first_block(full, (#[trigger] sliced[k]).key@) is Some
}

/// Every truncated block, up to the first whose label is missing, reads inside
/// the full factor's data.
pub open spec fn slices_fit(full: Seq<Block>, sliced: Seq<Block>, len: int) -> bool {
    forall|k: int|
        0 <= k < sliced.len() && labels_found(full, sliced, k) ==> slice_fits(
            full,
            #[trigger] sliced[k],
            len,
        )
}

/// A found block is one of the blocks.
pub proof fn lemma_first_block(blocks: Seq<Block>, key: crate::structure::Label, from: int)
    requires
        0 <= from,
        blocks.len() <= usize::MAX,
    ensures
        match first_block_from(blocks, key, from) {
            Some(k) => from <= k < blocks.len() && blocks[k as int].key@ == key && forall|
                earlier: int,
            |
                from <= earlier < k ==> (#[trigger] blocks[earlier]).key@ != key,
            None => forall|k: int| from <= k < blocks.len() ==> (#[trigger] blocks[k]).key@ != key,
        },
    decreases blocks.len() - from,
{
    if from < blocks.len() && blocks[from].key@ != key {
        lemma_first_block(blocks, key, from + 1);
    }
}

proof fn lemma_slicing_stops<D>(
    source: Seq<D>,
    full: Seq<Block>,
    sliced: Seq<Block>,
    low: int,
    high: int,
)
    requires
        0 <= low <= high,
        slice_blocks(source, full, sliced, low) is Err,
    ensures
        slice_blocks(source, full, sliced, high) == slice_blocks(source, full, sliced, low),
    decreases high - low,
{
    if low < high {
        lemma_slicing_stops(source, full, sliced, low, high - 1);
    }
}

/// Data of a truncated factor: every block is the leading part of the full
/// factor's block with the same label.
pub fn sliced_bond_data<D: Copy>(
    full: &BlockStructure,
    source: &[D],
    sliced: &BlockStructure,
    zero: D,
) -> (result: Result<Vec<D>, OperationError>)
    requires
        full.wf(),
        sliced.wf(),
        source@.len() >= full.spec_len(),
        slices_fit(full.spec_blocks(), sliced.spec_blocks(), source@.len() as int),
    ensures
        match (result, slice_blocks(
            source@,
            full.spec_blocks(),
            sliced.spec_blocks(),
            sliced.spec_blocks().len() as int,
        )) {
            (Ok(data), Ok(writes)) => data@ == apply_writes(
                zeros(zero, sliced.spec_len() as int),
                writes,
            ),
            (Err(error), Err(expected)) => error == expected,
            _ => false,
        },
{
    let ghost from = full.spec_blocks();
    let ghost to = sliced.spec_blocks();
    let full_count: usize = full.block_count();
    let mut data: Vec<D> = filled(zero, sliced.required_len());
    let ghost empty = data@;
    let ghost mut writes: Seq<Write<D>> = Seq::empty();
    let count: usize = sliced.block_count();
    let mut k: usize = 0;
    while k < count
        invariant
            k <= count == to.len(),
            from == full.spec_blocks(),
            to == sliced.spec_blocks(),
            full_count == from.len(),
            sliced.wf(),
            empty == zeros(zero, sliced.spec_len() as int),
            data@.len() == sliced.spec_len(),
            slices_fit(from, to, source@.len() as int),
            labels_found(from, to, k as int),
            slice_blocks(source@, from, to, k as int) == Ok::<Seq<Write<D>>, OperationError>(
                writes,
            ),
            data@ == apply_writes(empty, writes),
        decreases count - k,
    {
        let block = sliced.block(k);
        proof {
            assert(block_admitted(to[k as int], sliced.spec_len() as int));
            lemma_admitted_fits(
                block.shape@,
                block.strides@,
                block.offset as int,
                data@.len() as int,
            );
            assert(slice_fits(from, to[k as int], source@.len() as int));
            lemma_first_block(from, block.key@, 0);
            if slice_blocks(source@, from, to, k + 1) is Err {
                lemma_slicing_stops(source@, from, to, k + 1, count as int);
            }
        }
        let at: usize = match full.find_block_index_by_key(&block.key) {
            Some(at) => at,
            None => {
                return Err(unsupported("truncated factor tree must exist in the full factor"));
            },
        };
        let old = full.block(at);
        copy_matching_block_prefix(
            source,
            old.strides(),
            old.offset,
            data.as_mut_slice(),
            block.strides(),
            block.offset,
            block.shape(),
        );
        proof {
            let more = prefix_writes(
                source@,
                old.strides@,
                old.offset as int,
                block.strides@,
                block.offset as int,
                block.shape@,
            );
            lemma_writes_concat(empty, writes, more);
            writes = writes + more;
        }
        k += 1;
    }
    Ok(data)
}

/// A block of the full factor that is no smaller on any axis holds the
/// truncated block at its origin.
pub proof fn lemma_prefix_fits(
    shape: Seq<usize>,
    full_shape: Seq<usize>,
    strides: Seq<usize>,
    offset: int,
    len: int,
)
    requires
        crate::structure::admitted(full_shape, strides, offset, len),
        shape.len() == full_shape.len(),
        forall|k: int| 0 <= k < shape.len() ==> (#[trigger] shape[k]) <= full_shape[k],
    ensures
        block_fits(shape, strides, offset, len),
{
    if extent(shape) > 0 {
        crate::index::lemma_nonempty_dimensions(shape, shape.len() as int);
        assert forall|k: int| 0 <= k < full_shape.len() implies full_shape[k] != 0 by {
            assert(shape[k] <= full_shape[k]);
        }
        lemma_reach_grows(shape, full_shape, strides, shape.len() as int);
        assert forall|n: int| 0 <= n < extent(shape) implies offset
            + (#[trigger] crate::index::address(shape, strides, n)) < len by {
            crate::structure::lemma_address_within_reach(shape, strides, n, shape.len() as int);
        }
    }
}

proof fn lemma_reach_grows(
    shape: Seq<usize>,
    full_shape: Seq<usize>,
    strides: Seq<usize>,
    axes: int,
)
    requires
        0 <= axes <= shape.len(),
        shape.len() == full_shape.len(),
        shape.len() == strides.len(),
        forall|k: int| 0 <= k < shape.len() ==> (#[trigger] shape[k]) <= full_shape[k],
    ensures
        reach(shape, strides, axes) <= reach(full_shape, strides, axes),
    decreases axes,
{
    if axes > 0 {
        lemma_reach_grows(shape, full_shape, strides, axes - 1);
        let a = shape[axes - 1] - 1;
        let b = full_shape[axes - 1] - 1;
        let s = strides[axes - 1] as int;
        assert(a * s <= b * s) by (nonlinear_arith)
            requires
                a <= b,
                s >= 0,
        ;
    }
}

/// Truncation keeps of every sector a leading part of its values, and of a
/// sector only what the decision allows.
pub proof fn lemma_truncation_keeps_prefixes<V>(
    entries: Seq<Spectrum<V>>,
    kept: Seq<usize>,
    count: int,
)
    requires
        0 <= count <= entries.len(),
    ensures
        forall|j: int|
            0 <= j < truncated(entries, kept, count).len() ==> is_kept_prefix(
                entries,
                kept,
                count,
                #[trigger] truncated(entries, kept, count)[j],
            ),
    decreases count,
{
    if count > 0 {
        lemma_truncation_keeps_prefixes(entries, kept, count - 1);
        let before = truncated(entries, kept, count - 1);
        let all = truncated(entries, kept, count);
        assert forall|j: int| 0 <= j < all.len() implies is_kept_prefix(
            entries,
            kept,
            count,
            #[trigger] all[j],
        ) by {
            if j < before.len() {
                assert(all[j] == before[j]);
                assert(is_kept_prefix(entries, kept, count - 1, before[j]));
                let k = choose|k: int| #[trigger]
                    keeps_prefix(entries, kept, count - 1, before[j], k);
                assert(keeps_prefix(entries, kept, count, all[j], k));
            } else {
                let values = kept_values(entries, kept, count - 1);
                assert(values.len() <= entries[count - 1].values.len());
                assert(values =~= entries[count - 1].values.take(values.len() as int));
                assert(keeps_prefix(entries, kept, count, all[j], count - 1));
            }
        }
    }
}

/// An entry is a nonempty leading part of one of the first `count` entries.
pub open spec fn is_kept_prefix<V>(
    entries: Seq<Spectrum<V>>,
    kept: Seq<usize>,
    count: int,
    entry: Spectrum<V>,
) -> bool {
    exists|k: int| #[trigger] keeps_prefix(entries, kept, count, entry, k)
}

/// An entry is a nonempty leading part of entry `k`, no longer than the
/// decision allows.
pub open spec fn keeps_prefix<V>(
    entries: Seq<Spectrum<V>>,
    kept: Seq<usize>,
    count: int,
    entry: Spectrum<V>,
    k: int,
) -> bool {
    &&& 0 <= k < count
    &&& entry.sector == entries[k].sector
    &&& 0 < entry.values.len() <= entries[k].values.len()
    &&& entry.values == entries[k].values.take(entry.values.len() as int)
    &&& k < kept.len() ==> entry.values.len() <= kept[k]
}

} // verus!
