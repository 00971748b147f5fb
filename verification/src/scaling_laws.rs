//! What scaling a leg does to every element of a tensor.

use vstd::prelude::*;

use crate::index::{address, coordinate, extent};
use crate::index_laws::{index_number, index_position, indexes, lemma_element_by_index};
use crate::read_back::{
    element_position, elements_apart, is_element, lemma_element_in_buffer,
};
use crate::scaling::{
    block_is_injective, lemma_scaling_is_elementwise, mapped_values, scale_block, scale_blocks,
    scale_elements,
};
use crate::sector::TreePair;
use crate::spectrum::{combined, image, last_entry, lemma_last_entry, SectorSpectrum};
use crate::structure::{block_admitted, lemma_admitted_fits, Block, Label};

verus! {

/// The scaled leg: the one that was asked for, or the last.
pub open spec fn chosen_leg(block: Block, axis: Option<usize>) -> int {
    match axis {
        Some(axis) => axis as int,
        None => block.shape@.len() - 1,
    }
}

/// Leg `leg` of a block carries this sector: the legs of the codomain come
/// first, those of the domain after them.
pub open spec fn carries(pair: TreePair, nout: int, leg: int, id: crate::sector::SectorId) -> bool {
    if leg < nout {
        pair.codomain.uncoupled[leg] == id
    } else {
        pair.domain.uncoupled[leg - nout] == id
    }
}

/// Entry `e` is the one that a sector goes by: the last of its sector.
pub open spec fn speaks_for<V>(
    spectrum: Seq<SectorSpectrum<V>>,
    e: int,
    id: crate::sector::SectorId,
) -> bool {
    &&& 0 <= e < spectrum.len()
    &&& spectrum[e].sector == id
    &&& forall|later: int| e < later < spectrum.len() ==> (#[trigger] spectrum[later]).sector != id
}

/// Scaling a block leaves every position alone that is none of its elements, and
/// keeps the length.
proof fn lemma_scale_elements_rest<D, G: Fn(D, D) -> D>(
    data: Seq<D>,
    block: Block,
    axis: int,
    scales: Seq<D>,
    multiply: G,
    count: int,
    position: int,
)
    requires
        block_admitted(block, data.len() as int),
        0 <= count <= extent(block.shape@),
    ensures
        scale_elements(data, block, axis, scales, multiply, count).len() == data.len(),
        0 <= position < data.len() && !is_element(block, position) ==> scale_elements(
            data,
            block,
            axis,
            scales,
            multiply,
            count,
        )[position] == data[position],
    decreases count,
{
    if count > 0 {
        lemma_scale_elements_rest(data, block, axis, scales, multiply, count - 1, position);
        lemma_element_in_buffer(block, count - 1, data.len() as int);
        assert(element_position(block, count - 1) == block.offset + address(
            block.shape@,
            block.strides@,
            count - 1,
        ));
    }
}

proof fn lemma_scale_block_rest<D, V, F: Fn(V) -> D, G: Fn(D, D) -> D>(
    data: Seq<D>,
    block: Block,
    nout: int,
    axis: Option<usize>,
    spectrum: Seq<SectorSpectrum<V>>,
    to_scalar: F,
    multiply: G,
    position: int,
)
    requires
        block_admitted(block, data.len() as int),
    ensures
        scale_block(data, block, nout, axis, spectrum, to_scalar, multiply).len() == data.len(),
        0 <= position < data.len() && !is_element(block, position) ==> scale_block(
            data,
            block,
            nout,
            axis,
            spectrum,
            to_scalar,
            multiply,
        )[position] == data[position],
{
    crate::index::lemma_leading_extent_nonnegative(block.shape@, block.shape@.len() as int);
    if let Label::FusionTree(pair) = block.key@ {
        if block.shape@.len() > 0 {
            let at = crate::scaling::scaled_axis(block, axis);
            if let Some(k) = last_entry(
                spectrum,
                crate::scaling::leg_sector(pair, nout, at),
                spectrum.len() as int,
            ) {
                lemma_scale_elements_rest(
                    data,
                    block,
                    at,
                    mapped_values(spectrum[k].values@, to_scalar),
                    multiply,
                    extent(block.shape@),
                    position,
                );
            }
        }
    }
}

/// The blocks before and after block `b` leave its elements alone.
proof fn lemma_blocks_around<D, V, F: Fn(V) -> D, G: Fn(D, D) -> D>(
    data: Seq<D>,
    blocks: Seq<Block>,
    nout: int,
    axis: Option<usize>,
    spectrum: Seq<SectorSpectrum<V>>,
    to_scalar: F,
    multiply: G,
    count: int,
    b: int,
    n: int,
)
    requires
        elements_apart(blocks),
        forall|k: int|
            0 <= k < blocks.len() ==> block_admitted(#[trigger] blocks[k], data.len() as int),
        0 <= count <= blocks.len(),
        0 <= b < blocks.len(),
        0 <= n < extent(blocks[b].shape@),
    ensures
        scale_blocks(data, blocks, nout, axis, spectrum, to_scalar, multiply, count).len()
            == data.len(),
        ({
            let position = element_position(blocks[b], n);
            let before = scale_blocks(
                data,
                blocks,
                nout,
                axis,
                spectrum,
                to_scalar,
                multiply,
                b,
            );
            &&& before.len() == data.len()
            &&& before[position] == data[position]
            &&& scale_blocks(data, blocks, nout, axis, spectrum, to_scalar, multiply, count)[
            position] == if b < count {
                scale_block(before, blocks[b], nout, axis, spectrum, to_scalar, multiply)[position]
            } else {
                data[position]
            }
        }),
    decreases
            count,
            if count == b {
                0int
            } else {
                1int
            },
{
    let position = element_position(blocks[b], n);
    assert(block_admitted(blocks[b], data.len() as int));
    lemma_element_in_buffer(blocks[b], n, data.len() as int);
    if count > b {
        lemma_blocks_around(
            data,
            blocks,
            nout,
            axis,
            spectrum,
            to_scalar,
            multiply,
            b,
            b,
            n,
        );
    }
    if count > 0 {
        lemma_blocks_around_step(
            data,
            blocks,
            nout,
            axis,
            spectrum,
            to_scalar,
            multiply,
            count,
            b,
            n,
        );
    }
    if count < b {
        lemma_blocks_untouched(
            data,
            blocks,
            nout,
            axis,
            spectrum,
            to_scalar,
            multiply,
            b,
            b,
            n,
        );
    }
}

/// The first `count` blocks, none of them block `b`, leave its elements alone.
proof fn lemma_blocks_untouched<D, V, F: Fn(V) -> D, G: Fn(D, D) -> D>(
    data: Seq<D>,
    blocks: Seq<Block>,
    nout: int,
    axis: Option<usize>,
    spectrum: Seq<SectorSpectrum<V>>,
    to_scalar: F,
    multiply: G,
    count: int,
    b: int,
    n: int,
)
    requires
        elements_apart(blocks),
        forall|k: int|
            0 <= k < blocks.len() ==> block_admitted(#[trigger] blocks[k], data.len() as int),
        0 <= count <= b < blocks.len(),
        0 <= n < extent(blocks[b].shape@),
    ensures
        scale_blocks(data, blocks, nout, axis, spectrum, to_scalar, multiply, count).len()
            == data.len(),
        scale_blocks(data, blocks, nout, axis, spectrum, to_scalar, multiply, count)[
        element_position(blocks[b], n)] == data[element_position(blocks[b], n)],
    decreases count,
{
    let position = element_position(blocks[b], n);
    assert(block_admitted(blocks[b], data.len() as int));
    lemma_element_in_buffer(blocks[b], n, data.len() as int);
    if count > 0 {
        lemma_blocks_untouched(
            data,
            blocks,
            nout,
            axis,
            spectrum,
            to_scalar,
            multiply,
            count - 1,
            b,
            n,
        );
        let before = scale_blocks(
            data,
            blocks,
            nout,
            axis,
            spectrum,
            to_scalar,
            multiply,
            count - 1,
        );
        assert(block_admitted(blocks[count - 1], data.len() as int));
        lemma_not_element(blocks, count - 1, b, n);
        lemma_scale_block_rest(
            before,
            blocks[count - 1],
            nout,
            axis,
            spectrum,
            to_scalar,
            multiply,
            position,
        );
    }
}

/// An element of one block is none of another.
proof fn lemma_not_element(blocks: Seq<Block>, j: int, b: int, n: int)
    requires
        elements_apart(blocks),
        0 <= j < blocks.len(),
        0 <= b < blocks.len(),
        j != b,
        0 <= n < extent(blocks[b].shape@),
    ensures
        !is_element(blocks[j], element_position(blocks[b], n)),
{
    if is_element(blocks[j], element_position(blocks[b], n)) {
        let m = choose|m: int|
            0 <= m < extent(blocks[j].shape@) && #[trigger] element_position(blocks[j], m)
                == element_position(blocks[b], n);
        assert(element_position(blocks[j], m) != element_position(blocks[b], n));
    }
}

proof fn lemma_blocks_around_step<D, V, F: Fn(V) -> D, G: Fn(D, D) -> D>(
    data: Seq<D>,
    blocks: Seq<Block>,
    nout: int,
    axis: Option<usize>,
    spectrum: Seq<SectorSpectrum<V>>,
    to_scalar: F,
    multiply: G,
    count: int,
    b: int,
    n: int,
)
    requires
        elements_apart(blocks),
        forall|k: int|
            0 <= k < blocks.len() ==> block_admitted(#[trigger] blocks[k], data.len() as int),
        0 < count <= blocks.len(),
        0 <= b < blocks.len(),
        0 <= n < extent(blocks[b].shape@),
    ensures
        scale_blocks(data, blocks, nout, axis, spectrum, to_scalar, multiply, count).len()
            == data.len(),
        scale_blocks(data, blocks, nout, axis, spectrum, to_scalar, multiply, count)[
        element_position(blocks[b], n)] == if b < count {
            scale_block(
                scale_blocks(data, blocks, nout, axis, spectrum, to_scalar, multiply, b),
                blocks[b],
                nout,
                axis,
                spectrum,
                to_scalar,
                multiply,
            )[element_position(blocks[b], n)]
        } else {
            data[element_position(blocks[b], n)]
        },
    decreases count,
{
    let position = element_position(blocks[b], n);
    if count <= b {
        lemma_blocks_untouched(
            data,
            blocks,
            nout,
            axis,
            spectrum,
            to_scalar,
            multiply,
            count,
            b,
            n,
        );
    } else {
        let before = scale_blocks(
            data,
            blocks,
            nout,
            axis,
            spectrum,
            to_scalar,
            multiply,
            count - 1,
        );
        assert(block_admitted(blocks[b], data.len() as int));
        assert(block_admitted(blocks[count - 1], data.len() as int));
        lemma_element_in_buffer(blocks[b], n, data.len() as int);
        if count - 1 > 0 {
            lemma_blocks_around_step(
                data,
                blocks,
                nout,
                axis,
                spectrum,
                to_scalar,
                multiply,
                count - 1,
                b,
                n,
            );
        }
        lemma_scale_block_rest(
            before,
            blocks[count - 1],
            nout,
            axis,
            spectrum,
            to_scalar,
            multiply,
            position,
        );
        if count - 1 != b {
            lemma_not_element(blocks, count - 1, b, n);
        }
    }
}

/// Scaling a leg multiplies every element once, by the mapped value that the
/// spectrum of the sector on that leg has at the element's index there. Neither
/// what the sectors couple to nor any other leg matters. An element whose sector
/// has no spectrum, or none at its index, stays as it is.
pub proof fn lemma_leg_is_scaled<D, V, F: Fn(V) -> D, G: Fn(D, D) -> D>(
    data: Seq<D>,
    blocks: Seq<Block>,
    nout: int,
    axis: Option<usize>,
    spectrum: Seq<SectorSpectrum<V>>,
    to_scalar: F,
    multiply: G,
    b: int,
    pair: TreePair,
    at: Seq<int>,
)
    requires
        elements_apart(blocks),
        forall|k: int|
            0 <= k < blocks.len() ==> block_admitted(#[trigger] blocks[k], data.len() as int),
        0 <= b < blocks.len(),
        blocks[b].key@ == Label::FusionTree(pair),
        at.len() > 0,
        indexes(at, blocks[b].shape@),
        0 <= chosen_leg(blocks[b], axis) < at.len(),
    ensures
        ({
            let leg = chosen_leg(blocks[b], axis);
            let position = index_position(blocks[b], at);
            let scaled = scale_blocks(
                data,
                blocks,
                nout,
                axis,
                spectrum,
                to_scalar,
                multiply,
                blocks.len() as int,
            )[position];
            &&& forall|e: int| #[trigger]
                speaks_for(spectrum, e, spectrum[e].sector) && carries(
                    pair,
                    nout,
                    leg,
                    spectrum[e].sector,
                ) ==> scaled == if at[leg] < spectrum[e].values@.len() {
                    combined(
                        multiply,
                        data[position],
                        image(to_scalar, spectrum[e].values@[at[leg]]),
                    )
                } else {
                    data[position]
                }
            &&& (forall|e: int|
                0 <= e < spectrum.len() ==> !carries(
                    pair,
                    nout,
                    leg,
                    (#[trigger] spectrum[e]).sector,
                )) ==> scaled == data[position]
        }),
{
    let block = blocks[b];
    let leg = chosen_leg(block, axis);
    let len = data.len() as int;
    assert(block_admitted(block, len));
    lemma_admitted_fits(block.shape@, block.strides@, block.offset as int, len);
    lemma_element_by_index(block.shape@, block.strides@, at);
    let n = index_number(at, block.shape@, 0);
    let position = element_position(block, n);
    assert(position == index_position(block, at));
    lemma_element_in_buffer(block, n, len);
    lemma_blocks_around(
        data,
        blocks,
        nout,
        axis,
        spectrum,
        to_scalar,
        multiply,
        blocks.len() as int,
        b,
        n,
    );
    let before = scale_blocks(data, blocks, nout, axis, spectrum, to_scalar, multiply, b);
    assert(block_is_injective(block)) by {
        assert forall|m: int, k: int| 0 <= m < k < extent(block.shape@) implies #[trigger] address(
            block.shape@,
            block.strides@,
            m,
        ) != #[trigger] address(block.shape@, block.strides@, k) by {
            assert(element_position(blocks[b], m) != element_position(blocks[b], k));
        }
    }
    assert forall|k: int| 0 <= k < extent(block.shape@) implies 0 <= #[trigger] address(
        block.shape@,
        block.strides@,
        k,
    ) by {
        crate::index::lemma_partial_address_monotone(
            block.shape@,
            block.strides@,
            k,
            0,
            block.shape@.len() as int,
        );
    }
    let id = crate::scaling::leg_sector(pair, nout, crate::scaling::scaled_axis(block, axis));
    assert(carries(pair, nout, leg, id));
    lemma_last_entry(spectrum, id, spectrum.len() as int);
    if let Some(k) = last_entry(spectrum, id, spectrum.len() as int) {
        let scales = mapped_values(spectrum[k].values@, to_scalar);
        lemma_scaling_is_elementwise(
            before,
            block,
            leg,
            scales,
            multiply,
            extent(block.shape@),
            n,
        );
        assert(coordinate(block.shape@, n, leg) == at[leg]);
        assert forall|e: int| #[trigger]
            speaks_for(spectrum, e, spectrum[e].sector) && carries(
                pair,
                nout,
                leg,
                spectrum[e].sector,
            ) implies e == k by {
            assert(spectrum[e].sector == id);
            if e < k {
                assert(spectrum[k].sector != spectrum[e].sector);
            } else if k < e {
                assert(spectrum[e].sector != id);
            }
        }
        assert(carries(pair, nout, leg, spectrum[k].sector));
    } else {
        assert forall|e: int| #[trigger]
            speaks_for(spectrum, e, spectrum[e].sector) && carries(
                pair,
                nout,
                leg,
                spectrum[e].sector,
            ) implies false by {
            assert(spectrum[e].sector == id);
        }
    }
}

} // verus!
