//! Spectra by sector: diagonal tensors, scaling and truncation.

use vstd::prelude::*;

use crate::factor::SectorRank;
use crate::layout::{copy_mapped_to_strided_diagonal, diagonal_writes, filled, maps_to};
use crate::publish::zeros;
use crate::sector::SectorId;
use crate::sector_map::SectorMap;
use crate::structure::{block_admitted, reach, Block, BlockKey, BlockStructure, Label};
use crate::writes::{apply_writes, lemma_writes_concat, Write};

verus! {

/// The values that a factorization found in one coupled sector.
#[derive(Clone, Debug, PartialEq, Eq)]
pub struct SectorSpectrum<V> {
    pub sector: SectorId,
    pub values: Vec<V>,
}

/// Calls of the function are always possible and have one outcome each.
pub open spec fn is_function<A, B, F: Fn(A) -> B>(f: F) -> bool {
    &&& forall|x: A| #[trigger] call_requires(f, (x,))
    &&& forall|x: A, y: B, z: B| #[trigger]
        call_ensures(f, (x,), y) && #[trigger] call_ensures(f, (x,), z) ==> y == z
}

/// What the function gives for `x`.
pub open spec fn image<A, B, F: Fn(A) -> B>(f: F, x: A) -> B {
    choose|y: B| call_ensures(f, (x,), y)
}

/// Calls of the operation are always possible and have one outcome each.
pub open spec fn is_operation<A, B, C, F: Fn(A, B) -> C>(f: F) -> bool {
    &&& forall|x: A, y: B| #[trigger] call_requires(f, (x, y))
    &&& forall|x: A, y: B, z: C, w: C| #[trigger]
        call_ensures(f, (x, y), z) && #[trigger] call_ensures(f, (x, y), w) ==> z == w
}

/// What the operation gives for `x` and `y`.
pub open spec fn combined<A, B, C, F: Fn(A, B) -> C>(f: F, x: A, y: B) -> C {
    choose|z: C| call_ensures(f, (x, y), z)
}

/// Position of the last entry of a sector among the first `count`.
pub open spec fn last_entry<V>(
    spectrum: Seq<SectorSpectrum<V>>,
    sector: SectorId,
    count: int,
) -> Option<int>
    decreases count,
{
    if count <= 0 {
        None
    } else if spectrum[count - 1].sector == sector {
        Some(count - 1)
    } else {
        last_entry(spectrum, sector, count - 1)
    }
}

/// An entry that is found has its sector, and no later one has.
pub proof fn lemma_last_entry<V>(spectrum: Seq<SectorSpectrum<V>>, sector: SectorId, count: int)
    requires
        0 <= count <= spectrum.len(),
    ensures
        match last_entry(spectrum, sector, count) {
            Some(k) => {
                &&& 0 <= k < count
                &&& spectrum[k].sector == sector
                &&& forall|later: int|
                    k < later < count ==> (#[trigger] spectrum[later]).sector != sector
            },
            None => forall|k: int| 0 <= k < count ==> (#[trigger] spectrum[k]).sector != sector,
        },
    decreases count,
{
    if count > 0 && spectrum[count - 1].sector != sector {
        lemma_last_entry(spectrum, sector, count - 1);
    }
}

/// The map holds the last entry of every sector.
pub open spec fn indexes_entries<V>(
    map: Map<SectorId, usize>,
    spectrum: Seq<SectorSpectrum<V>>,
    count: int,
) -> bool {
    forall|sector: SectorId|
        {
            &&& #[trigger] map.contains_key(sector) <==> last_entry(spectrum, sector, count)
                is Some
            &&& map.contains_key(sector) ==> map[sector] as int == last_entry(
                spectrum,
                sector,
                count,
            )->0
        }
}

/// The last entry of every sector.
pub(crate) fn entry_map<V>(spectrum: &[SectorSpectrum<V>]) -> (map: SectorMap)
    ensures
        indexes_entries(map@, spectrum@, spectrum@.len() as int),
{
    let mut map = SectorMap::new();
    let mut k: usize = 0;
    while k < spectrum.len()
        invariant
            k <= spectrum@.len(),
            indexes_entries(map@, spectrum@, k as int),
        decreases spectrum.len() - k,
    {
        map.insert(spectrum[k].sector, k);
        k += 1;
    }
    map
}

/// The smaller of two numbers.
pub open spec fn least(a: int, b: int) -> int {
    if a <= b {
        a
    } else {
        b
    }
}

/// The mapped values on the diagonal of one block: as many as the block and the
/// spectrum of its sector have.
pub open spec fn diagonal_values<D, V, F: Fn(V) -> D>(
    block: Block,
    spectrum: Seq<SectorSpectrum<V>>,
    to_scalar: F,
) -> Seq<D> {
    match block.key@ {
        Label::Plain => Seq::empty(),
        Label::FusionTree(pair) => match last_entry(
            spectrum,
            pair.codomain.coupled,
            spectrum.len() as int,
        ) {
            None => Seq::empty(),
            Some(k) => Seq::new(
                least(
                    least(block.shape@[0] as int, block.shape@[1] as int),
                    spectrum[k].values@.len() as int,
                ) as nat,
                |i: int| image(to_scalar, spectrum[k].values@[i]),
            ),
        },
    }
}

/// The writes of the diagonals of the first `count` blocks.
pub open spec fn block_diagonals<D, V, F: Fn(V) -> D>(
    blocks: Seq<Block>,
    spectrum: Seq<SectorSpectrum<V>>,
    to_scalar: F,
    count: int,
) -> Seq<Write<D>>
    decreases count,
{
    if count <= 0 {
        Seq::empty()
    } else {
        let block = blocks[count - 1];
        block_diagonals(blocks, spectrum, to_scalar, count - 1) + diagonal_writes(
            block.offset as int,
            block.strides@[0] + block.strides@[1],
            diagonal_values(block, spectrum, to_scalar),
        )
    }
}

/// A block whose sector has a spectrum is a matrix.
pub open spec fn is_bond_block<V>(block: Block, spectrum: Seq<SectorSpectrum<V>>) -> bool {
    match block.key@ {
        Label::Plain => true,
        Label::FusionTree(pair) => last_entry(
            spectrum,
            pair.codomain.coupled,
            spectrum.len() as int,
        ) is Some ==> block.shape@.len() == 2 && block.strides@[0] + block.strides@[1]
            <= usize::MAX,
    }
}

/// The diagonal of an admitted matrix block lies in the buffer.
proof fn lemma_diagonal_fits(block: Block, position: int, len: int)
    requires
        block_admitted(block, len),
        block.shape@.len() == 2,
        0 <= position < block.shape@[0],
        position < block.shape@[1],
    ensures
        0 <= position * (block.strides@[0] + block.strides@[1]),
        block.offset + position * (block.strides@[0] + block.strides@[1]) < len,
{
    let s = block.strides@[0] as int;
    let t = block.strides@[1] as int;
    let a = block.shape@[0] - 1;
    let b = block.shape@[1] - 1;
    reveal_with_fuel(reach, 3);
    assert(position * (s + t) <= a * s + b * t) by (nonlinear_arith)
        requires
            0 <= position <= a,
            position <= b,
            0 <= s,
            0 <= t,
    ;
    assert(0 <= position * (s + t)) by (nonlinear_arith)
        requires
            0 <= position,
            0 <= s,
            0 <= t,
    ;
}

/// Data that is zero but for the mapped spectrum of each block's sector on the
/// block's diagonal. Blocks of sectors without spectrum stay zero, and a
/// spectrum shorter than the diagonal leaves the rest of it zero.
pub fn rectangular_diagonal_data<D: Copy, V: Copy, F: Fn(V) -> D>(
    structure: &BlockStructure,
    spectrum: &[SectorSpectrum<V>],
    to_scalar: &F,
    zero: D,
) -> (data: Vec<D>)
    requires
        structure.wf(),
        is_function(to_scalar),
        forall|k: int|
            0 <= k < structure.spec_blocks().len() ==> is_bond_block(
                #[trigger] structure.spec_blocks()[k],
                spectrum@,
            ),
    ensures
        data@ == apply_writes(
            zeros(zero, structure.spec_len() as int),
            block_diagonals(
                structure.spec_blocks(),
                spectrum@,
                to_scalar,
                structure.spec_blocks().len() as int,
            ),
        ),
{
    let ghost blocks = structure.spec_blocks();
    let map = entry_map(spectrum);
    let len: usize = structure.required_len();
    let mut data: Vec<D> = filled(zero, len);
    let ghost empty = data@;
    let count: usize = structure.block_count();
    let mut k: usize = 0;
    while k < count
        invariant
            k <= count == blocks.len(),
            blocks == structure.spec_blocks(),
            structure.wf(),
            is_function(to_scalar),
            indexes_entries(map@, spectrum@, spectrum@.len() as int),
            forall|j: int|
                0 <= j < blocks.len() ==> is_bond_block(#[trigger] blocks[j], spectrum@),
            empty == zeros(zero, structure.spec_len() as int),
            data@.len() == structure.spec_len(),
            data@ == apply_writes(
                empty,
                block_diagonals(blocks, spectrum@, to_scalar, k as int),
            ),
        decreases count - k,
    {
        let block = structure.block(k);
        let ghost earlier = block_diagonals(blocks, spectrum@, to_scalar, k as int);
        let ghost values = diagonal_values(*block, spectrum@, to_scalar);
        let ghost stride = block.strides@[0] + block.strides@[1];
        let ghost more = diagonal_writes(block.offset as int, stride, values);
        proof {
            assert(block_admitted(blocks[k as int], structure.spec_len() as int));
            assert(is_bond_block(blocks[k as int], spectrum@));
            lemma_writes_concat(empty, earlier, more);
        }
        let mut written = false;
        if let BlockKey::FusionTree(key) = &block.key {
            let sector = key.codomain_tree().coupled();
            if let Some(at) = map.get(sector) {
                proof {
                    lemma_last_entry(spectrum@, sector, spectrum@.len() as int);
                }
                let entry = &spectrum[at];
                let rows: usize = block.shape[0];
                let cols: usize = block.shape[1];
                let short: usize = if rows <= cols {
                    rows
                } else {
                    cols
                };
                let total: usize = if short <= entry.values.len() {
                    short
                } else {
                    entry.values.len()
                };
                let prefix = vstd::slice::slice_subrange(entry.values.as_slice(), 0, total);
                let step: usize = block.strides[0] + block.strides[1];
                proof {
                    assert forall|p: int|
                        0 <= p < diagonal_writes(
                            block.offset as int,
                            step as int,
                            prefix@,
                        ).len() implies 0 <= (#[trigger] diagonal_writes(
                        block.offset as int,
                        step as int,
                        prefix@,
                    )[p]).0 < data@.len() by {
                        lemma_diagonal_fits(*block, p, data@.len() as int);
                    }
                }
                copy_mapped_to_strided_diagonal(
                    data.as_mut_slice(),
                    block.offset,
                    step,
                    prefix,
                    to_scalar,
                );
                proof {
                    let before = apply_writes(empty, earlier);
                    let mapped = choose|mapped: Seq<D>| #[trigger]
                        maps_to(to_scalar, prefix@, mapped) && data@ == apply_writes(
                            before,
                            diagonal_writes(block.offset as int, step as int, mapped),
                        );
                    assert forall|i: int| 0 <= i < values.len() implies mapped[i] == values[i] by {
                        assert(call_ensures(to_scalar, (prefix@[i],), mapped[i]));
                        lemma_image(to_scalar, prefix@[i], mapped[i]);
                    }
                    assert(mapped =~= values);
                }
                written = true;
            }
        }
        proof {
            if !written {
                assert(more =~= Seq::empty());
                assert(earlier + more =~= earlier);
            }
        }
        k += 1;
    }
    data
}

/// The outcome of a call is the function's value.
pub proof fn lemma_image<A, B, F: Fn(A) -> B>(f: F, x: A, y: B)
    requires
        is_function(f),
        call_ensures(f, (x,), y),
    ensures
        image(f, x) == y,
{
    let z = image(f, x);
    assert(call_ensures(f, (x,), z));
}

/// Data of the diagonal bond tensor of a spectrum: zero but for each sector's
/// mapped values on the diagonal of its blocks.
pub fn diagonal_bond_data<D: Copy, V: Copy, F: Fn(V) -> D>(
    structure: &BlockStructure,
    spectrum: &[SectorSpectrum<V>],
    to_scalar: &F,
    zero: D,
) -> (data: Vec<D>)
    requires
        structure.wf(),
        is_function(to_scalar),
        forall|k: int|
            0 <= k < structure.spec_blocks().len() ==> is_bond_block(
                #[trigger] structure.spec_blocks()[k],
                spectrum@,
            ) && diagonal_is_covered(structure.spec_blocks()[k], spectrum@),
    ensures
        data@ == apply_writes(
            zeros(zero, structure.spec_len() as int),
            block_diagonals(
                structure.spec_blocks(),
                spectrum@,
                to_scalar,
                structure.spec_blocks().len() as int,
            ),
        ),
{
    rectangular_diagonal_data(structure, spectrum, to_scalar, zero)
}

/// The spectrum of a block's sector has a value for each diagonal entry.
pub open spec fn diagonal_is_covered<V>(block: Block, spectrum: Seq<SectorSpectrum<V>>) -> bool {
    match block.key@ {
        Label::Plain => true,
        Label::FusionTree(pair) => match last_entry(
            spectrum,
            pair.codomain.coupled,
            spectrum.len() as int,
        ) {
            None => true,
            Some(k) => least(block.shape@[0] as int, block.shape@[1] as int)
                <= spectrum[k].values@.len(),
        },
    }
}

/// The bond of a diagonal tensor: one sector for each entry of the spectrum.
pub open spec fn spectrum_bond<V>(spectrum: Seq<SectorSpectrum<V>>) -> Seq<SectorRank> {
    spectrum.map_values(
        |entry: SectorSpectrum<V>|
            SectorRank { sector: entry.sector, kept: entry.values@.len() as usize },
    )
}

/// The bond of a diagonal factor.
pub fn diagonal_bond_leg<V>(spectrum: &[SectorSpectrum<V>]) -> (leg: Vec<SectorRank>)
    ensures
        leg@ == spectrum_bond(spectrum@),
{
    let mut leg: Vec<SectorRank> = Vec::with_capacity(spectrum.len());
    let mut k: usize = 0;
    while k < spectrum.len()
        invariant
            k <= spectrum@.len(),
            leg@.len() == k,
            forall|j: int| 0 <= j < k ==> leg@[j] == spectrum_bond(spectrum@)[j],
        decreases spectrum.len() - k,
    {
        leg.push(SectorRank { sector: spectrum[k].sector, kept: spectrum[k].values.len() });
        k += 1;
    }
    assert(leg@ =~= spectrum_bond(spectrum@));
    leg
}

} // verus!
