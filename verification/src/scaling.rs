//! Multiplication of a tensor leg by a diagonal.

use vstd::prelude::*;

use crate::index::{
    address, block_fits, coordinate, extent, leading_count, leading_extent,
    lemma_leading_extent_monotone, lemma_nonempty_dimensions, lemma_quotient_is_division,
    BlockCursor,
};
use crate::sector::{SectorId, TreePair};
use crate::spectrum::{
    combined, entry_map, image, indexes_entries, is_function, is_operation, last_entry,
    lemma_image, lemma_last_entry, SectorSpectrum,
};
use crate::structure::{
    block_admitted, lemma_admitted_fits, Block, BlockKey, BlockStructure, Label,
};
use crate::writes::store;

verus! {

/// The axis that is scaled: the given one, or the last.
pub open spec fn scaled_axis(block: Block, axis: Option<usize>) -> int {
    match axis {
        Some(axis) => axis as int,
        None => block.shape@.len() - 1,
    }
}

/// The sector on one leg of a block, codomain legs first.
pub open spec fn leg_sector(pair: TreePair, nout: int, axis: int) -> SectorId {
    if axis < nout {
        pair.codomain.uncoupled[axis]
    } else {
        pair.domain.uncoupled[axis - nout]
    }
}

/// The block has the scaled axis, and its trees a sector for it.
pub open spec fn has_scaled_leg(block: Block, nout: int, axis: Option<usize>) -> bool {
    match block.key@ {
        Label::Plain => true,
        Label::FusionTree(pair) => block.shape@.len() > 0 ==> {
            let at = scaled_axis(block, axis);
            &&& at < block.shape@.len()
            &&& at < nout ==> at < pair.codomain.uncoupled.len()
            &&& at >= nout ==> at - nout < pair.domain.uncoupled.len()
        },
    }
}

/// `data` after the first `count` elements of a block, in column-major order,
/// were multiplied by the scale of their coordinate on `axis`. Coordinates
/// without scale leave their elements as they are.
pub open spec fn scale_elements<D, G: Fn(D, D) -> D>(
    data: Seq<D>,
    block: Block,
    axis: int,
    scales: Seq<D>,
    multiply: G,
    count: int,
) -> Seq<D>
    decreases count,
{
    if count <= 0 {
        data
    } else {
        let before = scale_elements(data, block, axis, scales, multiply, count - 1);
        let position = block.offset + address(block.shape@, block.strides@, count - 1);
        let at = coordinate(block.shape@, count - 1, axis);
        if at < scales.len() {
            store(before, (position, combined(multiply, before[position], scales[at])))
        } else {
            before
        }
    }
}

/// The mapped values of one entry.
pub open spec fn mapped_values<D, V, F: Fn(V) -> D>(values: Seq<V>, to_scalar: F) -> Seq<D> {
    values.map_values(|value: V| image(to_scalar, value))
}

/// `data` after one block was scaled by the spectrum of the sector on its leg.
pub open spec fn scale_block<D, V, F: Fn(V) -> D, G: Fn(D, D) -> D>(
    data: Seq<D>,
    block: Block,
    nout: int,
    axis: Option<usize>,
    spectrum: Seq<SectorSpectrum<V>>,
    to_scalar: F,
    multiply: G,
) -> Seq<D> {
    match block.key@ {
        Label::Plain => data,
        Label::FusionTree(pair) => if block.shape@.len() == 0 {
            data
        } else {
            let at = scaled_axis(block, axis);
            match last_entry(spectrum, leg_sector(pair, nout, at), spectrum.len() as int) {
                None => data,
                Some(k) => scale_elements(
                    data,
                    block,
                    at,
                    mapped_values(spectrum[k].values@, to_scalar),
                    multiply,
                    extent(block.shape@),
                ),
            }
        },
    }
}

/// `data` after the first `count` blocks were scaled.
pub open spec fn scale_blocks<D, V, F: Fn(V) -> D, G: Fn(D, D) -> D>(
    data: Seq<D>,
    blocks: Seq<Block>,
    nout: int,
    axis: Option<usize>,
    spectrum: Seq<SectorSpectrum<V>>,
    to_scalar: F,
    multiply: G,
    count: int,
) -> Seq<D>
    decreases count,
{
    if count <= 0 {
        data
    } else {
        scale_block(
            scale_blocks(data, blocks, nout, axis, spectrum, to_scalar, multiply, count - 1),
            blocks[count - 1],
            nout,
            axis,
            spectrum,
            to_scalar,
            multiply,
        )
    }
}

/// The mapped values of one entry.
fn map_values<D, V: Copy, F: Fn(V) -> D>(values: &[V], to_scalar: &F) -> (mapped: Vec<D>)
    requires
        is_function(to_scalar),
    ensures
        mapped@ == mapped_values(values@, to_scalar),
{
    let mut mapped: Vec<D> = Vec::with_capacity(values.len());
    let mut k: usize = 0;
    while k < values.len()
        invariant
            k <= values@.len(),
            mapped@.len() == k,
            is_function(to_scalar),
            forall|j: int| 0 <= j < k ==> mapped@[j] == image(to_scalar, values@[j]),
        decreases values.len() - k,
    {
        let value: V = values[k];
        let scalar: D = to_scalar(value);
        proof {
            lemma_image(to_scalar, value, scalar);
        }
        mapped.push(scalar);
        k += 1;
    }
    assert(mapped@ =~= mapped_values(values@, to_scalar));
    mapped
}

/// Scales all elements of one block.
fn scale_one_block<D: Copy, G: Fn(D, D) -> D>(
    data: &mut [D],
    block: &Block,
    axis: usize,
    scales: &[D],
    multiply: &G,
)
    requires
        block_admitted(*block, old(data)@.len() as int),
        axis < block.shape@.len(),
        is_operation(multiply),
    ensures
        final(data)@.len() == old(data)@.len(),
        final(data)@ == scale_elements(
            old(data)@,
            *block,
            axis as int,
            scales@,
            multiply,
            extent(block.shape@),
        ),
{
    let shape = block.shape();
    let strides = block.strides();
    proof {
        lemma_admitted_fits(shape@, strides@, block.offset as int, data@.len() as int);
    }
    let total: usize = leading_count(shape, shape.len());
    if total == 0 {
        return;
    }
    proof {
        lemma_nonempty_dimensions(shape@, shape@.len() as int);
        lemma_leading_extent_monotone(shape@, axis as int, shape@.len() as int);
    }
    let low: usize = leading_count(shape, axis);
    let dim: usize = shape[axis];
    let mut cursor = BlockCursor::new(shape, strides, block.offset);
    let mut n: usize = 0;
    while n < total
        invariant
            n <= total == extent(shape@),
            shape@ == block.shape@,
            strides@ == block.strides@,
            axis < shape@.len(),
            0 < low == leading_extent(shape@, axis as int),
            0 < dim == shape@[axis as int],
            is_operation(multiply),
            block_fits(shape@, strides@, block.offset as int, data@.len() as int),
            data@.len() == old(data)@.len(),
            n < total ==> cursor.at(shape@, strides@, block.offset as int, n as int),
            data@ == scale_elements(
                old(data)@,
                *block,
                axis as int,
                scales@,
                multiply,
                n as int,
            ),
        decreases total - n,
    {
        proof {
            lemma_quotient_is_division(shape@, n as int, axis as int);
            assert(block.offset + address(shape@, strides@, n as int) < data@.len());
        }
        let at: usize = (n / low) % dim;
        if at < scales.len() {
            let value: D = data[cursor.position];
            let scale: D = scales[at];
            let product: D = multiply(value, scale);
            proof {
                let z = combined(multiply, value, scale);
                assert(call_ensures(multiply, (value, scale), z));
            }
            data[cursor.position] = product;
        }
        n += 1;
        if n < total {
            assert(block.offset + address(shape@, strides@, n as int) < data@.len());
            cursor.advance(
                Ghost(shape@),
                Ghost(strides@),
                Ghost(block.offset as int),
                Ghost((n - 1) as int),
            );
        }
    }
}

/// Scales one leg of a tensor by a spectrum, in place: every element is
/// multiplied by the mapped value that the sector on its leg has at its
/// coordinate. Without an axis the last one is scaled. A sector without
/// spectrum leaves its elements as they are.
pub fn scale_axis_by_spectrum_mapped<D: Copy, V: Copy, F: Fn(V) -> D, G: Fn(D, D) -> D>(
    structure: &BlockStructure,
    nout: usize,
    data: &mut [D],
    axis: Option<usize>,
    spectrum: &[SectorSpectrum<V>],
    to_scalar: &F,
    multiply: &G,
)
    requires
        structure.wf(),
        old(data)@.len() == structure.spec_len(),
        is_function(to_scalar),
        is_operation(multiply),
        forall|k: int|
            0 <= k < structure.spec_blocks().len() ==> has_scaled_leg(
                #[trigger] structure.spec_blocks()[k],
                nout as int,
                axis,
            ),
    ensures
        final(data)@.len() == old(data)@.len(),
        final(data)@ == scale_blocks(
            old(data)@,
            structure.spec_blocks(),
            nout as int,
            axis,
            spectrum@,
            to_scalar,
            multiply,
            structure.spec_blocks().len() as int,
        ),
{
    let ghost blocks = structure.spec_blocks();
    let map = entry_map(spectrum);
    let count: usize = structure.block_count();
    let mut k: usize = 0;
    while k < count
        invariant
            k <= count == blocks.len(),
            blocks == structure.spec_blocks(),
            structure.wf(),
            data@.len() == old(data)@.len() == structure.spec_len(),
            is_function(to_scalar),
            is_operation(multiply),
            indexes_entries(map@, spectrum@, spectrum@.len() as int),
            forall|j: int|
                0 <= j < blocks.len() ==> has_scaled_leg(#[trigger] blocks[j], nout as int, axis),
            data@ == scale_blocks(
                old(data)@,
                blocks,
                nout as int,
                axis,
                spectrum@,
                to_scalar,
                multiply,
                k as int,
            ),
        decreases count - k,
    {
        let block = structure.block(k);
        proof {
            assert(block_admitted(blocks[k as int], structure.spec_len() as int));
            assert(has_scaled_leg(blocks[k as int], nout as int, axis));
        }
        if let BlockKey::FusionTree(key) = &block.key {
            if block.shape.len() > 0 {
                let at: usize = match axis {
                    Some(axis) => axis,
                    None => block.shape.len() - 1,
                };
                let sector: SectorId = if at < nout {
                    key.codomain.uncoupled[at]
                } else {
                    key.domain.uncoupled[at - nout]
                };
                if let Some(entry) = map.get(sector) {
                    proof {
                        lemma_last_entry(spectrum@, sector, spectrum@.len() as int);
                    }
                    let scales = map_values(spectrum[entry].values.as_slice(), to_scalar);
                    scale_one_block(data, block, at, scales.as_slice(), multiply);
                }
            }
        }
        k += 1;
    }
}

/// No two elements of a block share a position.
pub open spec fn block_is_injective(block: Block) -> bool {
    forall|m: int, n: int|
        0 <= m < n < extent(block.shape@) ==> #[trigger] address(block.shape@, block.strides@, m)
            != #[trigger] address(block.shape@, block.strides@, n)
}

/// Where no two elements of a block share a position, scaling multiplies each
/// of them once, by the scale of its coordinate, and changes nothing else.
pub proof fn lemma_scaling_is_elementwise<D, G: Fn(D, D) -> D>(
    data: Seq<D>,
    block: Block,
    axis: int,
    scales: Seq<D>,
    multiply: G,
    count: int,
    n: int,
)
    requires
        block_is_injective(block),
        block_fits(block.shape@, block.strides@, block.offset as int, data.len() as int),
        forall|k: int|
            0 <= k < extent(block.shape@) ==> 0 <= #[trigger] address(
                block.shape@,
                block.strides@,
                k,
            ),
        0 <= count <= extent(block.shape@),
        0 <= n < extent(block.shape@),
    ensures
        scale_elements(data, block, axis, scales, multiply, count).len() == data.len(),
        ({
            let position = block.offset + address(block.shape@, block.strides@, n);
            let at = coordinate(block.shape@, n, axis);
            scale_elements(data, block, axis, scales, multiply, count)[position] == if n < count
                && at < scales.len() {
                combined(multiply, data[position], scales[at])
            } else {
                data[position]
            }
        }),
    decreases count,
{
    if count > 0 {
        lemma_scaling_is_elementwise(data, block, axis, scales, multiply, count - 1, n);
        lemma_scaling_is_elementwise(data, block, axis, scales, multiply, count - 1, count - 1);
        let last = address(block.shape@, block.strides@, count - 1);
        let mine = address(block.shape@, block.strides@, n);
        assert(block.offset + last < data.len());
        assert(block.offset + mine < data.len());
        if n < count - 1 {
            assert(mine != last);
        } else if n > count - 1 {
            assert(last != mine);
        }
    }
}

} // verus!
