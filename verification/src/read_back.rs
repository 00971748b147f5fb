//! What is read back of a scatter, a truncation and a diagonal: every element
//! of every block, for blocks that do not overlap.

use vstd::prelude::*;

use crate::factor::FactorPair;
use crate::factor::SectorRank;
use crate::geometry::{sector_position, Geometry};
use crate::index::{
    address, coordinate, extent, leading_extent, lemma_div_mod_unique,
    lemma_leading_extent_monotone, lemma_leading_extent_nonnegative, lemma_nonempty_dimensions,
    lemma_positive_extent, lemma_quotient_is_division, partial_address, quotient,
};
use crate::layout::{
    diagonal_writes, identity_writes, prefix_writes, scatter_source, side_index, FactorSide,
};
use crate::placement::{block_scatter, bond_axis, placement_of};
use crate::canonical::side_tree;
use crate::publish::{last_pair, publish_block, publish_blocks, side_shape, zeros, Publication};
use crate::spectrum::{block_diagonals, diagonal_values, SectorSpectrum};
use crate::structure::{
    block_admitted, first_block, lemma_admitted_fits, Block, BlockStructure, Label,
};
use crate::truncate::{lemma_first_block, slice_blocks};
use crate::writes::{
    apply_writes, lemma_disjoint_writes_read_back, lemma_writes_concat, lemma_writes_last_wins,
    lemma_writes_len, lemma_writes_untouched, Write,
};

verus! {

/// Where element `n` of a block stands in the buffer.
pub open spec fn element_position(block: Block, n: int) -> int {
    block.offset + address(block.shape@, block.strides@, n)
}

/// No two elements of the blocks share a position.
pub open spec fn elements_apart(blocks: Seq<Block>) -> bool {
    forall|j: int, k: int, m: int, n: int|
        0 <= j < blocks.len() && 0 <= k < blocks.len() && 0 <= m < extent(blocks[j].shape@) && 0
            <= n < extent(blocks[k].shape@) && (j != k || m != n) ==> #[trigger] element_position(
            blocks[j],
            m,
        ) != #[trigger] element_position(blocks[k], n)
}

/// Every write goes to an element of the block.
pub open spec fn writes_within<D>(writes: Seq<Write<D>>, block: Block) -> bool {
    forall|w: int| 0 <= w < writes.len() ==> is_element(block, (#[trigger] writes[w]).0)
}

/// A position is one of the block's elements.
pub open spec fn is_element(block: Block, position: int) -> bool {
    exists|n: int| 0 <= n < extent(block.shape@) && #[trigger] element_position(block, n)
        == position
}

/// Writes inside one block leave the elements of the others alone.
pub(crate) proof fn lemma_others_kept<D>(
    data: Seq<D>,
    blocks: Seq<Block>,
    j: int,
    writes: Seq<Write<D>>,
    k: int,
    n: int,
)
    requires
        elements_apart(blocks),
        0 <= j < blocks.len(),
        0 <= k < blocks.len(),
        j != k,
        writes_within(writes, blocks[j]),
        0 <= n < extent(blocks[k].shape@),
        0 <= element_position(blocks[k], n) < data.len(),
    ensures
        apply_writes(data, writes)[element_position(blocks[k], n)] == data[element_position(
            blocks[k],
            n,
        )],
{
    let position = element_position(blocks[k], n);
    assert forall|w: int| 0 <= w < writes.len() implies (#[trigger] writes[w]).0 != position by {
        assert(is_element(blocks[j], writes[w].0));
        let m = choose|m: int|
            0 <= m < extent(blocks[j].shape@) && #[trigger] element_position(blocks[j], m)
                == writes[w].0;
        assert(element_position(blocks[j], m) != element_position(blocks[k], n));
    }
    lemma_writes_untouched(data, writes, position);
}

/// The elements of an admitted block lie in the buffer.
pub(crate) proof fn lemma_element_in_buffer(block: Block, n: int, len: int)
    requires
        block_admitted(block, len),
        0 <= n < extent(block.shape@),
    ensures
        0 <= element_position(block, n) < len,
{
    lemma_admitted_fits(block.shape@, block.strides@, block.offset as int, len);
    lemma_nonempty_dimensions(block.shape@, block.shape@.len() as int);
    crate::index::lemma_partial_address_monotone(
        block.shape@,
        block.strides@,
        n,
        0,
        block.shape@.len() as int,
    );
}

/// Writes that go through a block's elements in order are read back.
pub(crate) proof fn lemma_own_read_back<D>(
    data: Seq<D>,
    blocks: Seq<Block>,
    k: int,
    writes: Seq<Write<D>>,
    n: int,
)
    requires
        elements_apart(blocks),
        0 <= k < blocks.len(),
        block_admitted(blocks[k], data.len() as int),
        writes.len() == extent(blocks[k].shape@),
        forall|m: int|
            0 <= m < writes.len() ==> (#[trigger] writes[m]).0 == element_position(blocks[k], m),
        0 <= n < writes.len(),
    ensures
        apply_writes(data, writes)[element_position(blocks[k], n)] == writes[n].1,
        writes_within(writes, blocks[k]),
{
    assert forall|m: int| 0 <= m < writes.len() implies 0 <= (#[trigger] writes[m]).0
        < data.len() by {
        lemma_element_in_buffer(blocks[k], m, data.len() as int);
    }
    assert forall|l: int, m: int| 0 <= l < m < writes.len() implies (#[trigger] writes[l]).0 != (
    #[trigger] writes[m]).0 by {
        assert(element_position(blocks[k], l) != element_position(blocks[k], m));
    }
    lemma_disjoint_writes_read_back(data, writes);
    assert(apply_writes(data, writes)[writes[n].0] == writes[n].1);
    assert forall|w: int| 0 <= w < writes.len() implies is_element(
        blocks[k],
        (#[trigger] writes[w]).0,
    ) by {
        assert(element_position(blocks[k], w) == writes[w].0);
    }
}

/// What a truncated block holds at element `n`: the same element of the full
/// factor's block with its label.
pub open spec fn full_element<D>(source: Seq<D>, full: Seq<Block>, block: Block, n: int) -> D {
    let from = full[first_block(full, block.key@)->0 as int];
    source[from.offset + address(block.shape@, from.strides@, n)]
}

proof fn lemma_slices_read<D>(
    data: Seq<D>,
    source: Seq<D>,
    full: Seq<Block>,
    sliced: Seq<Block>,
    count: int,
    k: int,
    n: int,
)
    requires
        elements_apart(sliced),
        forall|j: int|
            0 <= j < sliced.len() ==> block_admitted(#[trigger] sliced[j], data.len() as int),
        0 <= count <= sliced.len(),
        slice_blocks(source, full, sliced, count) is Ok,
        0 <= k < count,
        0 <= n < extent(sliced[k].shape@),
    ensures
        apply_writes(data, slice_blocks(source, full, sliced, count)->Ok_0)[element_position(
            sliced[k],
            n,
        )] == full_element(source, full, sliced[k], n),
    decreases count,
{
    let before = slice_blocks(source, full, sliced, count - 1)->Ok_0;
    let block = sliced[count - 1];
    let from = full[first_block(full, block.key@)->0 as int];
    let more = prefix_writes(
        source,
        from.strides@,
        from.offset as int,
        block.strides@,
        block.offset as int,
        block.shape@,
    );
    lemma_writes_concat(data, before, more);
    let middle = apply_writes(data, before);
    lemma_writes_len(data, before);
    lemma_leading_extent_nonnegative(block.shape@, block.shape@.len() as int);
    if k == count - 1 {
        lemma_own_read_back(middle, sliced, k, more, n);
    } else {
        lemma_slices_read(data, source, full, sliced, count - 1, k, n);
        if more.len() > 0 {
            lemma_own_read_back(middle, sliced, count - 1, more, 0);
        }
        lemma_element_in_buffer(sliced[k], n, data.len() as int);
        lemma_others_kept(middle, sliced, count - 1, more, k, n);
    }
}

/// Truncating a factor reads the full factor: every element of every truncated
/// block is the element with the same indices of the block with its label.
pub proof fn lemma_truncated_factor_reads_full<D>(
    source: Seq<D>,
    full: BlockStructure,
    sliced: BlockStructure,
    zero: D,
    k: int,
    n: int,
)
    requires
        sliced.wf(),
        elements_apart(sliced.spec_blocks()),
        slice_blocks(
            source,
            full.spec_blocks(),
            sliced.spec_blocks(),
            sliced.spec_blocks().len() as int,
        ) is Ok,
        0 <= k < sliced.spec_blocks().len(),
        0 <= n < extent(sliced.spec_blocks()[k].shape@),
    ensures
        apply_writes(
            zeros(zero, sliced.spec_len() as int),
            slice_blocks(
                source,
                full.spec_blocks(),
                sliced.spec_blocks(),
                sliced.spec_blocks().len() as int,
            )->Ok_0,
        )[element_position(sliced.spec_blocks()[k], n)] == full_element(
            source,
            full.spec_blocks(),
            sliced.spec_blocks()[k],
            n,
        ),
{
    lemma_slices_read(
        zeros(zero, sliced.spec_len() as int),
        source,
        full.spec_blocks(),
        sliced.spec_blocks(),
        sliced.spec_blocks().len() as int,
        k,
        n,
    );
}

/// Data and full factor have the same layout where nothing is cut off, so the
/// truncated factor is the full one.
pub proof fn lemma_untruncated_factor_is_full<D>(
    source: Seq<D>,
    full: BlockStructure,
    zero: D,
    k: int,
    n: int,
)
    requires
        full.wf(),
        elements_apart(full.spec_blocks()),
        full.spec_blocks().len() <= usize::MAX,
        labels_apart(full.spec_blocks()),
        slice_blocks(
            source,
            full.spec_blocks(),
            full.spec_blocks(),
            full.spec_blocks().len() as int,
        ) is Ok,
        0 <= k < full.spec_blocks().len(),
        0 <= n < extent(full.spec_blocks()[k].shape@),
    ensures
        apply_writes(
            zeros(zero, full.spec_len() as int),
            slice_blocks(
                source,
                full.spec_blocks(),
                full.spec_blocks(),
                full.spec_blocks().len() as int,
            )->Ok_0,
        )[element_position(full.spec_blocks()[k], n)] == source[element_position(
            full.spec_blocks()[k],
            n,
        )],
{
    let blocks = full.spec_blocks();
    lemma_truncated_factor_reads_full(source, full, full, zero, k, n);
    lemma_first_block(blocks, blocks[k].key@, 0);
    let found = first_block(blocks, blocks[k].key@);
    assert(found is Some) by {
        assert(blocks[k].key@ == blocks[k].key@);
    }
    let j = found->0 as int;
    if j < k {
        assert(blocks[j].key@ != blocks[k].key@);
    } else if k < j {
        assert(blocks[k].key@ != blocks[j].key@);
    }
}

/// No label occurs twice.
pub open spec fn labels_apart(blocks: Seq<Block>) -> bool {
    forall|j: int, k: int|
        0 <= j < k < blocks.len() ==> (#[trigger] blocks[j]).key@ != (#[trigger] blocks[k]).key@
}

/// Entry `p` of the diagonal of a matrix block is one of its elements.
proof fn lemma_diagonal_element(block: Block, p: int)
    requires
        block.shape@.len() == 2,
        block.strides@.len() == 2,
        0 <= p < block.shape@[0],
        p < block.shape@[1],
    ensures
        0 <= p + block.shape@[0] * p < extent(block.shape@),
        element_position(block, p + block.shape@[0] * p) == block.offset + p * (block.strides@[0]
            + block.strides@[1]),
{
    let rows = block.shape@[0] as int;
    let cols = block.shape@[1] as int;
    let s = block.strides@[0] as int;
    let t = block.strides@[1] as int;
    let n = p + rows * p;
    reveal_with_fuel(leading_extent, 3);
    reveal_with_fuel(partial_address, 3);
    reveal_with_fuel(quotient, 3);
    assert(1 * rows == rows) by (nonlinear_arith);
    assert(0 <= n < rows * cols) by (nonlinear_arith)
        requires
            n == p + rows * p,
            0 <= p < rows,
            p < cols,
    ;
    lemma_div_mod_unique(n, rows, p, p);
    lemma_div_mod_unique(p, cols, 0, p);
    assert(p * (s + t) == p * s + p * t) by (nonlinear_arith);
}

/// The diagonal writes of a block stay inside it.
proof fn lemma_diagonal_within<D, V, F: Fn(V) -> D>(
    block: Block,
    spectrum: Seq<SectorSpectrum<V>>,
    to_scalar: F,
)
    requires
        diagonal_values(block, spectrum, to_scalar).len() > 0 ==> block.shape@.len() == 2,
        block.strides@.len() == block.shape@.len(),
    ensures
        writes_within(
            diagonal_writes(
                block.offset as int,
                block.strides@[0] + block.strides@[1],
                diagonal_values(block, spectrum, to_scalar),
            ),
            block,
        ),
{
    let values = diagonal_values(block, spectrum, to_scalar);
    let writes = diagonal_writes(
        block.offset as int,
        block.strides@[0] + block.strides@[1],
        values,
    );
    assert forall|w: int| 0 <= w < writes.len() implies is_element(
        block,
        (#[trigger] writes[w]).0,
    ) by {
        lemma_diagonal_element(block, w);
        assert(element_position(block, w + block.shape@[0] * w) == writes[w].0);
    }
}

proof fn lemma_diagonals_read<D, V, F: Fn(V) -> D>(
    data: Seq<D>,
    blocks: Seq<Block>,
    spectrum: Seq<SectorSpectrum<V>>,
    to_scalar: F,
    count: int,
    k: int,
    p: int,
)
    requires
        elements_apart(blocks),
        forall|j: int|
            0 <= j < blocks.len() ==> block_admitted(#[trigger] blocks[j], data.len() as int),
        forall|j: int|
            0 <= j < blocks.len() ==> (diagonal_values(
                #[trigger] blocks[j],
                spectrum,
                to_scalar,
            ).len() > 0 ==> blocks[j].shape@.len() == 2),
        0 <= k < count <= blocks.len(),
        0 <= p < diagonal_values(blocks[k], spectrum, to_scalar).len(),
    ensures
        apply_writes(data, block_diagonals(blocks, spectrum, to_scalar, count))[blocks[k].offset
            + p * (blocks[k].strides@[0] + blocks[k].strides@[1])] == diagonal_values(
            blocks[k],
            spectrum,
            to_scalar,
        )[p],
    decreases count,
{
    let before = block_diagonals(blocks, spectrum, to_scalar, count - 1);
    let block = blocks[count - 1];
    let more = diagonal_writes(
        block.offset as int,
        block.strides@[0] + block.strides@[1],
        diagonal_values(block, spectrum, to_scalar),
    );
    lemma_writes_concat(data, before, more);
    lemma_writes_len(data, before);
    let middle = apply_writes(data, before);
    assert(block_admitted(blocks[k], data.len() as int));
    lemma_diagonal_element(blocks[k], p);
    let n = p + blocks[k].shape@[0] * p;
    lemma_element_in_buffer(blocks[k], n, data.len() as int);
    if k == count - 1 {
        assert forall|j: int| p < j < more.len() implies (#[trigger] more[j]).0 != more[p].0 by {
            lemma_diagonal_element(block, j);
            let m = j + block.shape@[0] * j;
            assert(m != n) by (nonlinear_arith)
                requires
                    m == j + block.shape@[0] * j,
                    n == p + block.shape@[0] * p,
                    p < j,
                    block.shape@[0] >= 0,
            ;
            assert(element_position(blocks[k], m) != element_position(blocks[k], n));
        }
        lemma_writes_last_wins(middle, more, p);
    } else {
        lemma_diagonals_read(data, blocks, spectrum, to_scalar, count - 1, k, p);
        assert(block_admitted(block, data.len() as int));
        lemma_diagonal_within(block, spectrum, to_scalar);
        lemma_others_kept(middle, blocks, count - 1, more, k, n);
    }
}

/// A diagonal tensor holds its spectrum: diagonal entry `p` of every block is
/// the mapped value `p` of the block's sector.
pub proof fn lemma_diagonal_reads_spectrum<D, V, F: Fn(V) -> D>(
    structure: BlockStructure,
    spectrum: Seq<SectorSpectrum<V>>,
    to_scalar: F,
    zero: D,
    k: int,
    p: int,
)
    requires
        structure.wf(),
        elements_apart(structure.spec_blocks()),
        forall|j: int|
            0 <= j < structure.spec_blocks().len() ==> crate::spectrum::is_bond_block(
                #[trigger] structure.spec_blocks()[j],
                spectrum,
            ),
        0 <= k < structure.spec_blocks().len(),
        0 <= p < diagonal_values(structure.spec_blocks()[k], spectrum, to_scalar).len(),
    ensures
        ({
            let block = structure.spec_blocks()[k];
            apply_writes(
                zeros(zero, structure.spec_len() as int),
                block_diagonals(
                    structure.spec_blocks(),
                    spectrum,
                    to_scalar,
                    structure.spec_blocks().len() as int,
                ),
            )[block.offset + p * (block.strides@[0] + block.strides@[1])] == diagonal_values(
                block,
                spectrum,
                to_scalar,
            )[p]
        }),
{
    let blocks = structure.spec_blocks();
    assert forall|j: int| 0 <= j < blocks.len() implies (diagonal_values(
        #[trigger] blocks[j],
        spectrum,
        to_scalar,
    ).len() > 0 ==> blocks[j].shape@.len() == 2) by {
        assert(crate::spectrum::is_bond_block(blocks[j], spectrum));
    }
    lemma_diagonals_read(
        zeros(zero, structure.spec_len() as int),
        blocks,
        spectrum,
        to_scalar,
        blocks.len() as int,
        k,
        p,
    );
}

/// A position on the diagonal of one of the first `count` blocks that the
/// spectrum fills.
pub open spec fn on_a_diagonal<D, V, F: Fn(V) -> D>(
    blocks: Seq<Block>,
    spectrum: Seq<SectorSpectrum<V>>,
    to_scalar: F,
    count: int,
    position: int,
) -> bool {
    exists|k: int, p: int|
        0 <= k < count && 0 <= p < diagonal_values(blocks[k], spectrum, to_scalar).len()
            && #[trigger] diagonal_position(blocks[k], p) == position
}

/// Where diagonal entry `p` of a matrix block stands in the buffer.
pub open spec fn diagonal_position(block: Block, p: int) -> int {
    block.offset + p * (block.strides@[0] + block.strides@[1])
}

proof fn lemma_diagonals_leave<D, V, F: Fn(V) -> D>(
    blocks: Seq<Block>,
    spectrum: Seq<SectorSpectrum<V>>,
    to_scalar: F,
    count: int,
    position: int,
)
    requires
        0 <= count <= blocks.len(),
        !on_a_diagonal(blocks, spectrum, to_scalar, count, position),
    ensures
        forall|w: int|
            0 <= w < block_diagonals(blocks, spectrum, to_scalar, count).len() ==> (
            #[trigger] block_diagonals(blocks, spectrum, to_scalar, count)[w]).0 != position,
    decreases count,
{
    if count > 0 {
        let before = block_diagonals(blocks, spectrum, to_scalar, count - 1);
        let all = block_diagonals(blocks, spectrum, to_scalar, count);
        if on_a_diagonal(blocks, spectrum, to_scalar, count - 1, position) {
            let (k, p) = choose|k: int, p: int|
                0 <= k < count - 1 && 0 <= p < diagonal_values(
                    blocks[k],
                    spectrum,
                    to_scalar,
                ).len() && #[trigger] diagonal_position(blocks[k], p) == position;
            assert(diagonal_position(blocks[k], p) == position);
        }
        lemma_diagonals_leave(blocks, spectrum, to_scalar, count - 1, position);
        assert forall|w: int| 0 <= w < all.len() implies (#[trigger] all[w]).0 != position by {
            if w < before.len() {
                assert(all[w] == before[w]);
            } else {
                let p = w - before.len();
                assert(all[w].0 == diagonal_position(blocks[count - 1], p));
            }
        }
    }
}

/// Only the diagonals of a diagonal tensor's blocks are written; the rest of
/// its data is zero.
pub proof fn lemma_diagonal_rest_is_zero<D, V, F: Fn(V) -> D>(
    structure: BlockStructure,
    spectrum: Seq<SectorSpectrum<V>>,
    to_scalar: F,
    zero: D,
    position: int,
)
    requires
        0 <= position < structure.spec_len(),
        !on_a_diagonal(
            structure.spec_blocks(),
            spectrum,
            to_scalar,
            structure.spec_blocks().len() as int,
            position,
        ),
    ensures
        apply_writes(
            zeros(zero, structure.spec_len() as int),
            block_diagonals(
                structure.spec_blocks(),
                spectrum,
                to_scalar,
                structure.spec_blocks().len() as int,
            ),
        )[position] == zero,
{
    let blocks = structure.spec_blocks();
    lemma_diagonals_leave(blocks, spectrum, to_scalar, blocks.len() as int, position);
    lemma_writes_untouched(
        zeros(zero, structure.spec_len() as int),
        block_diagonals(blocks, spectrum, to_scalar, blocks.len() as int),
        position,
    );
}

/// The element of a block with bond index `bond` on `axis` and index `side`
/// over its other axes.
pub open spec fn element_at(shape: Seq<usize>, axis: int, side: int, bond: int) -> int {
    let low = leading_extent(shape, axis);
    side % low + low * (bond + shape[axis] * (side / low))
}

/// The extent of the leading axes divides that of more of them.
proof fn lemma_leading_extent_divides(shape: Seq<usize>, low: int, high: int) -> (ratio: int)
    requires
        0 <= low <= high <= shape.len(),
    ensures
        leading_extent(shape, high) == leading_extent(shape, low) * ratio,
    decreases high - low,
{
    if low == high {
        assert(leading_extent(shape, low) * 1 == leading_extent(shape, low)) by (nonlinear_arith);
        1
    } else {
        let ratio = lemma_leading_extent_divides(shape, low, high - 1);
        let a = leading_extent(shape, low);
        let d = shape[high - 1] as int;
        assert((a * ratio) * d == a * (ratio * d)) by (nonlinear_arith);
        ratio * d
    }
}

/// Coordinates on the leading axes only depend on the index within them.
proof fn lemma_low_coordinate(shape: Seq<usize>, axis: int, n: int, m: int, t: int, a: int)
    requires
        0 <= a < axis <= shape.len(),
        leading_extent(shape, axis) > 0,
        0 <= n,
        0 <= m,
        n == m + leading_extent(shape, axis) * t,
    ensures
        coordinate(shape, n, a) == coordinate(shape, m, a),
{
    let ratio = lemma_leading_extent_divides(shape, a + 1, axis);
    lemma_leading_extent_monotone(shape, a, axis);
    lemma_nonempty_dimensions(shape, axis);
    lemma_quotient_is_division(shape, n, a);
    lemma_quotient_is_division(shape, m, a);
    let low = leading_extent(shape, a);
    let d = shape[a] as int;
    let u = ratio * t;
    assert(((low * d) * ratio) * t == low * (d * u)) by (nonlinear_arith)
        requires
            u == ratio * t,
    ;
    let q = m / low;
    let r = m % low;
    vstd::arithmetic::div_mod::lemma_fundamental_div_mod(m, low);
    assert(0 <= r < low) by (nonlinear_arith)
        requires
            low > 0,
            r == m % low,
    ;
    assert(n == low * (q + d * u) + r) by (nonlinear_arith)
        requires
            m == low * q + r,
            n == m + low * (d * u),
    ;
    lemma_div_mod_unique(n, low, q + d * u, r);
    let s = q % d;
    vstd::arithmetic::div_mod::lemma_fundamental_div_mod(q, d);
    assert(0 <= s < d) by (nonlinear_arith)
        requires
            d > 0,
            s == q % d,
    ;
    assert(q + d * u == d * (q / d + u) + s) by (nonlinear_arith)
        requires
            q == d * (q / d) + s,
    ;
    lemma_div_mod_unique(q + d * u, d, q / d + u, s);
}

/// An element made from a side index and a bond index has both of them.
proof fn lemma_element_at(shape: Seq<usize>, axis: int, side: int, bond: int)
    requires
        0 <= axis < shape.len(),
        leading_extent(shape, axis + 1) > 0,
        0 <= side,
        0 <= bond < shape[axis],
    ensures
        0 <= element_at(shape, axis, side, bond),
        element_at(shape, axis, side, bond) % leading_extent(shape, axis) == side
            % leading_extent(shape, axis),
        quotient(shape, element_at(shape, axis, side, bond), axis) == bond + shape[axis] * (side
            / leading_extent(shape, axis)),
        quotient(shape, element_at(shape, axis, side, bond), axis + 1) == side / leading_extent(
            shape,
            axis,
        ),
        coordinate(shape, element_at(shape, axis, side, bond), axis) == bond,
        side_index(shape, element_at(shape, axis, side, bond), axis) == side,
        leading_extent(shape, axis) > 0,
{
    let n = element_at(shape, axis, side, bond);
    lemma_leading_extent_monotone(shape, axis, axis + 1);
    let low = leading_extent(shape, axis);
    let d = shape[axis] as int;
    let r = side % low;
    let q = side / low;
    vstd::arithmetic::div_mod::lemma_fundamental_div_mod(side, low);
    assert(0 <= r < low && 0 <= q) by (nonlinear_arith)
        requires
            low > 0,
            side >= 0,
            r == side % low,
            q == side / low,
    ;
    assert(0 <= n) by (nonlinear_arith)
        requires
            n == r + low * (bond + d * q),
            0 <= r,
            low > 0,
            0 <= bond,
            0 <= d,
            0 <= q,
    ;
    lemma_div_mod_unique(n, low, bond + d * q, r);
    lemma_quotient_is_division(shape, n, axis);
    lemma_div_mod_unique(bond + d * q, d, q, bond);
    lemma_quotient_is_division(shape, n, axis + 1);
}

/// Every element is the one with its side index and its bond index.
proof fn lemma_element_is_at(shape: Seq<usize>, axis: int, n: int)
    requires
        0 <= axis < shape.len(),
        0 <= n < extent(shape),
    ensures
        element_at(shape, axis, side_index(shape, n, axis), coordinate(shape, n, axis)) == n,
{
    lemma_leading_extent_monotone(shape, axis + 1, shape.len() as int);
    lemma_leading_extent_monotone(shape, axis, axis + 1);
    let low = leading_extent(shape, axis);
    let high = leading_extent(shape, axis + 1);
    let d = shape[axis] as int;
    lemma_nonempty_dimensions(shape, axis + 1);
    lemma_quotient_is_division(shape, n, axis);
    lemma_quotient_is_division(shape, n, axis + 1);
    let c = coordinate(shape, n, axis);
    let q = n / high;
    let r = n % low;
    vstd::arithmetic::div_mod::lemma_fundamental_div_mod(n, low);
    vstd::arithmetic::div_mod::lemma_fundamental_div_mod(n / low, d);
    assert(0 <= r < low) by (nonlinear_arith)
        requires
            low > 0,
            r == n % low,
    ;
    let side = r + low * q;
    lemma_div_mod_unique(side, low, q, r);
    assert(n / low == d * q + c);
}

/// The position of an element is that of its index over the other axes plus
/// the step of its bond index.
proof fn lemma_element_address(
    shape: Seq<usize>,
    strides: Seq<usize>,
    axis: int,
    side: int,
    bond: int,
    axes: int,
)
    requires
        0 <= axis < shape.len(),
        shape.len() == strides.len(),
        extent(shape) > 0,
        0 <= side,
        0 <= bond < shape[axis],
        0 <= axes <= shape.len(),
    ensures
        axes <= axis ==> partial_address(
            shape,
            strides,
            element_at(shape, axis, side, bond),
            axes,
        ) == partial_address(shape.remove(axis), strides.remove(axis), side, axes),
        axes > axis ==> partial_address(
            shape,
            strides,
            element_at(shape, axis, side, bond),
            axes,
        ) == partial_address(shape.remove(axis), strides.remove(axis), side, axes - 1) + bond
            * strides[axis],
        axes <= axis ==> quotient(shape.remove(axis), side, axes) == quotient(shape, side, axes),
        axes > axis ==> quotient(shape, element_at(shape, axis, side, bond), axes) == quotient(
            shape.remove(axis),
            side,
            axes - 1,
        ),
    decreases axes,
{
    let n = element_at(shape, axis, side, bond);
    let s = shape.remove(axis);
    let t = strides.remove(axis);
    lemma_leading_extent_monotone(shape, axis + 1, shape.len() as int);
    lemma_element_at(shape, axis, side, bond);
    if axes > 0 {
        lemma_element_address(shape, strides, axis, side, bond, axes - 1);
        if axes - 1 < axis {
            assert(s[axes - 1] == shape[axes - 1] && t[axes - 1] == strides[axes - 1]);
            let low = leading_extent(shape, axis);
            let turns = bond + shape[axis] * (side / low) - side / low;
            vstd::arithmetic::div_mod::lemma_fundamental_div_mod(side, low);
            assert(n == side + low * turns) by (nonlinear_arith)
                requires
                    side == low * (side / low) + side % low,
                    n == side % low + low * (bond + shape[axis] * (side / low)),
                    turns == bond + shape[axis] * (side / low) - side / low,
            ;
            lemma_low_coordinate(shape, axis, n, side, turns, axes - 1);
        } else if axes - 1 == axis {
            lemma_quotient_is_division(shape, side, axis);
        } else {
            assert(s[axes - 2] == shape[axes - 1] && t[axes - 2] == strides[axes - 1]);
        }
    }
}

/// The element that identity entry `j` of a block stands at.
pub open spec fn identity_element(block: Block, axis: int, start: int, j: int) -> int {
    element_at(block.shape@, axis, j, start + j)
}

/// Identity entries are elements of their block.
proof fn lemma_identity_element(block: Block, axis: int, start: int, j: int)
    requires
        0 <= axis < block.shape@.len(),
        block.shape@.len() == block.strides@.len(),
        0 <= start,
        0 <= j < extent(block.shape@.remove(axis)),
        start + extent(block.shape@.remove(axis)) <= block.shape@[axis],
    ensures
        extent(block.shape@) > 0,
        0 <= identity_element(block, axis, start, j) < extent(block.shape@),
        element_position(block, identity_element(block, axis, start, j)) == block.offset + (start
            + j) * block.strides@[axis] + address(
            block.shape@.remove(axis),
            block.strides@.remove(axis),
            j,
        ),
        coordinate(block.shape@, identity_element(block, axis, start, j), axis) == start + j,
        side_index(block.shape@, identity_element(block, axis, start, j), axis) == j,
{
    let shape = block.shape@;
    let others = shape.remove(axis);
    lemma_nonempty_dimensions(others, others.len() as int);
    assert forall|k: int| 0 <= k < shape.len() implies shape[k] > 0 by {
        if k < axis {
            assert(others[k] == shape[k]);
        } else if k > axis {
            assert(others[k - 1] == shape[k]);
        }
    }
    lemma_positive_extent(shape, shape.len() as int);
    lemma_leading_extent_monotone(shape, axis + 1, shape.len() as int);
    lemma_element_at(shape, axis, j, start + j);
    lemma_element_address(shape, block.strides@, axis, j, start + j, shape.len() as int);
    lemma_extent_of_others(shape, axis, shape.len() as int);
    let low = leading_extent(shape, axis);
    let rest = lemma_leading_extent_divides(shape, axis + 1, shape.len() as int);
    let d = shape[axis] as int;
    let q = j / low;
    let r = j % low;
    let bond = start + j;
    let e = extent(others);
    assert(extent(shape) == (low * d) * rest);
    assert(e == low * rest) by (nonlinear_arith)
        requires
            e * d == (low * d) * rest,
            d > 0,
    ;
    vstd::arithmetic::div_mod::lemma_fundamental_div_mod(j, low);
    assert(0 <= r < low) by (nonlinear_arith)
        requires
            low > 0,
            r == j % low,
    ;
    assert(q + 1 <= rest) by (nonlinear_arith)
        requires
            j == low * q + r,
            j < low * rest,
            0 <= r,
            low > 0,
    ;
    assert(r + low * (bond + d * q) < (low * d) * rest) by (nonlinear_arith)
        requires
            0 <= r < low,
            0 <= bond < d,
            q + 1 <= rest,
            low > 0,
    ;
}

/// The extent of a block is that of its other axes times one axis.
proof fn lemma_extent_of_others(shape: Seq<usize>, axis: int, axes: int)
    requires
        0 <= axis < shape.len(),
        0 <= axes <= shape.len(),
    ensures
        axes <= axis ==> leading_extent(shape.remove(axis), axes) == leading_extent(shape, axes),
        axes > axis ==> leading_extent(shape.remove(axis), axes - 1) * shape[axis]
            == leading_extent(shape, axes),
    decreases axes,
{
    if axes > 0 {
        lemma_extent_of_others(shape, axis, axes - 1);
        let s = shape.remove(axis);
        if axes - 1 < axis {
            assert(s[axes - 1] == shape[axes - 1]);
        } else if axes - 1 > axis {
            assert(s[axes - 2] == shape[axes - 1]);
            let a = leading_extent(s, axes - 2);
            let b = shape[axis] as int;
            let c = shape[axes - 1] as int;
            assert((a * c) * b == (a * b) * c) by (nonlinear_arith);
        }
    }
}

/// How much of a sector's identity was filled before block `k`.
pub open spec fn identity_start<D>(state: Publication<D>, block: Block, side: FactorSide) -> int {
    match block.key@ {
        Label::Plain => 0,
        Label::FusionTree(pair) => {
            let sector = side_tree(pair, side).coupled;
            if state.filled.contains_key(sector) {
                state.filled[sector] as int
            } else {
                0
            }
        },
    }
}

/// What a published factor holds at element `n` of a block: the element of its
/// sector's factor, or, where the sector has no source matrix, one where the
/// bond index is the side index, counted over the sector's blocks, and zero
/// elsewhere. Unlabelled blocks stay zero.
pub open spec fn published_element<D>(
    before: Publication<D>,
    block: Block,
    geometries: Seq<Geometry>,
    pairs: Seq<FactorPair<D>>,
    side: FactorSide,
    source_trees: FactorSide,
    zero: D,
    one: D,
    n: int,
) -> D {
    match block.key@ {
        Label::Plain => zero,
        Label::FusionTree(pair) => {
            let tree = side_tree(pair, side);
            let axis = bond_axis(block, side);
            if sector_position(geometries, tree.coupled, 0) is None {
                if coordinate(block.shape@, n, axis) == identity_start(before, block, side)
                    + side_index(block.shape@, n, axis) {
                    one
                } else {
                    zero
                }
            } else {
                let factor = pairs[last_pair(pairs, tree.coupled, pairs.len() as int)->0];
                let span = placement_of(geometries, tree.coupled, source_trees, tree)->0;
                factor.factor(side)[scatter_source(
                    block.shape@,
                    axis,
                    side,
                    factor.leading(side) as int,
                    span.offset as int,
                    n,
                )]
            }
        },
    }
}

/// A labelled block of a left factor has an axis for its bond.
pub open spec fn has_bond_axis(block: Block, side: FactorSide) -> bool {
    side == FactorSide::Left && block.key@ is FusionTree ==> block.shape@.len() > 0
}

/// Identity writes inside one block: ones where the bond index is the side
/// index, and nothing else.
proof fn lemma_identity_read<D>(
    data: Seq<D>,
    blocks: Seq<Block>,
    k: int,
    axis: int,
    start: int,
    one: D,
)
    requires
        elements_apart(blocks),
        0 <= k < blocks.len(),
        block_admitted(blocks[k], data.len() as int),
        0 <= axis < blocks[k].shape@.len(),
        0 <= start,
        start + extent(blocks[k].shape@.remove(axis)) <= blocks[k].shape@[axis],
    ensures
        ({
            let block = blocks[k];
            let writes = identity_writes(
                block.shape@,
                block.strides@,
                block.offset as int,
                axis,
                start,
                extent(block.shape@.remove(axis)),
                one,
            );
            &&& writes_within(writes, block)
            &&& forall|n: int|
                0 <= n < extent(block.shape@) ==> apply_writes(data, writes)[
                #[trigger] element_position(block, n)] == if coordinate(block.shape@, n, axis)
                    == start + side_index(block.shape@, n, axis) {
                    one
                } else {
                    data[element_position(block, n)]
                }
        }),
{
    let block = blocks[k];
    let shape = block.shape@;
    let count = extent(shape.remove(axis));
    lemma_leading_extent_nonnegative(shape.remove(axis), shape.remove(axis).len() as int);
    let writes = identity_writes(
        shape,
        block.strides@,
        block.offset as int,
        axis,
        start,
        count,
        one,
    );
    assert forall|w: int| 0 <= w < writes.len() implies is_element(
        block,
        (#[trigger] writes[w]).0,
    ) by {
        lemma_identity_element(block, axis, start, w);
        assert(element_position(block, identity_element(block, axis, start, w)) == writes[w].0);
    }
    assert forall|n: int| 0 <= n < extent(shape) implies apply_writes(data, writes)[
    #[trigger] element_position(block, n)] == if coordinate(shape, n, axis) == start + side_index(
        shape,
        n,
        axis,
    ) {
        one
    } else {
        data[element_position(block, n)]
    } by {
        let position = element_position(block, n);
        lemma_element_in_buffer(block, n, data.len() as int);
        lemma_element_is_at(shape, axis, n);
        if coordinate(shape, n, axis) == start + side_index(shape, n, axis) {
            let j = side_index(shape, n, axis);
            crate::layout::lemma_side_index(shape, n, axis);
            lemma_side_extent_is_others(shape, axis);
            lemma_identity_element(block, axis, start, j);
            assert(writes[j].0 == position);
            assert forall|w: int| j < w < writes.len() implies (#[trigger] writes[w]).0
                != writes[j].0 by {
                lemma_identity_element(block, axis, start, w);
                let m = identity_element(block, axis, start, w);
                assert(side_index(shape, m, axis) != side_index(shape, n, axis));
                assert(element_position(blocks[k], m) != element_position(blocks[k], n));
            }
            lemma_writes_last_wins(data, writes, j);
        } else {
            assert forall|w: int| 0 <= w < writes.len() implies (#[trigger] writes[w]).0
                != position by {
                lemma_identity_element(block, axis, start, w);
                let m = identity_element(block, axis, start, w);
                assert(m != n);
                assert(element_position(blocks[k], m) != element_position(blocks[k], n));
            }
            lemma_writes_untouched(data, writes, position);
        }
    }
}

/// The side extent of a block is the extent of its axes without the bond.
proof fn lemma_side_extent_is_others(shape: Seq<usize>, axis: int)
    requires
        0 <= axis < shape.len(),
        extent(shape) > 0,
    ensures
        crate::layout::side_extent(shape, axis) == extent(shape.remove(axis)),
{
    lemma_extent_of_others(shape, axis, shape.len() as int);
    crate::index::lemma_leading_extent_skip(shape, axis + 1, shape.len() - axis - 1);
    lemma_nonempty_dimensions(shape, shape.len() as int);
    let low = leading_extent(shape, axis);
    let rest = extent(shape.skip(axis + 1));
    let d = shape[axis] as int;
    let e = extent(shape.remove(axis));
    assert(e == low * rest) by (nonlinear_arith)
        requires
            e * d == (low * d) * rest,
            d > 0,
    ;
}

/// The writes that one block adds to a publication stay inside it, and leave
/// the published elements in it.
proof fn lemma_block_publication<D>(
    data: Seq<D>,
    state: Publication<D>,
    blocks: Seq<Block>,
    k: int,
    geometries: Seq<Geometry>,
    pairs: Seq<FactorPair<D>>,
    dimensions: Seq<SectorRank>,
    side: FactorSide,
    source_trees: FactorSide,
    zero: D,
    one: D,
) -> (more: Seq<Write<D>>)
    requires
        elements_apart(blocks),
        0 <= k < blocks.len(),
        block_admitted(blocks[k], data.len() as int),
        has_bond_axis(blocks[k], side),
        publish_block(
            state,
            blocks[k],
            geometries,
            pairs,
            dimensions,
            side,
            source_trees,
            one,
        ) is Ok,
        forall|n: int|
            0 <= n < extent(blocks[k].shape@) ==> data[#[trigger] element_position(blocks[k], n)]
                == zero,
    ensures
        publish_block(
            state,
            blocks[k],
            geometries,
            pairs,
            dimensions,
            side,
            source_trees,
            one,
        )->Ok_0.writes == state.writes + more,
        writes_within(more, blocks[k]),
        forall|n: int|
            0 <= n < extent(blocks[k].shape@) ==> apply_writes(data, more)[
            #[trigger] element_position(blocks[k], n)] == published_element(
                state,
                blocks[k],
                geometries,
                pairs,
                side,
                source_trees,
                zero,
                one,
                n,
            ),
{
    let block = blocks[k];
    match block.key@ {
        Label::Plain => {
            let more = Seq::<Write<D>>::empty();
            assert(state.writes + more =~= state.writes);
            more
        },
        Label::FusionTree(pair) => {
            let tree = side_tree(pair, side);
            let sector = tree.coupled;
            let axis = bond_axis(block, side);
            if sector_position(geometries, sector, 0) is None {
                let start = identity_start(state, block, side);
                let more = identity_writes(
                    block.shape@,
                    block.strides@,
                    block.offset as int,
                    axis,
                    start,
                    extent(side_shape(block.shape@, axis)),
                    one,
                );
                lemma_identity_read(data, blocks, k, axis, start, one);
                more
            } else {
                let factor = pairs[last_pair(pairs, sector, pairs.len() as int)->0];
                let span = placement_of(geometries, sector, source_trees, tree)->0;
                let more = block_scatter(
                    block,
                    side,
                    factor.factor(side),
                    factor.leading(side) as int,
                    span.offset as int,
                );
                lemma_leading_extent_nonnegative(block.shape@, block.shape@.len() as int);
                assert forall|n: int| 0 <= n < extent(block.shape@) implies apply_writes(
                    data,
                    more,
                )[#[trigger] element_position(block, n)] == more[n].1 by {
                    lemma_own_read_back(data, blocks, k, more, n);
                }
                if more.len() > 0 {
                    lemma_own_read_back(data, blocks, k, more, 0);
                }
                more
            }
        },
    }
}

/// The publication before block `k`.
pub open spec fn publication_before<D>(
    blocks: Seq<Block>,
    geometries: Seq<Geometry>,
    pairs: Seq<FactorPair<D>>,
    dimensions: Seq<SectorRank>,
    side: FactorSide,
    source_trees: FactorSide,
    one: D,
    k: int,
) -> Publication<D> {
    publish_blocks(blocks, geometries, pairs, dimensions, side, source_trees, one, k)->Ok_0
}

proof fn lemma_publication_reads<D>(
    blocks: Seq<Block>,
    geometries: Seq<Geometry>,
    pairs: Seq<FactorPair<D>>,
    dimensions: Seq<SectorRank>,
    side: FactorSide,
    source_trees: FactorSide,
    zero: D,
    one: D,
    len: int,
    count: int,
    k: int,
    n: int,
)
    requires
        elements_apart(blocks),
        0 <= len,
        forall|j: int|
            0 <= j < blocks.len() ==> block_admitted(#[trigger] blocks[j], len) && has_bond_axis(
                blocks[j],
                side,
            ),
        0 <= count <= blocks.len(),
        publish_blocks(blocks, geometries, pairs, dimensions, side, source_trees, one, count)
            is Ok,
        0 <= k < blocks.len(),
        0 <= n < extent(blocks[k].shape@),
    ensures
        apply_writes(
            zeros(zero, len),
            publish_blocks(
                blocks,
                geometries,
                pairs,
                dimensions,
                side,
                source_trees,
                one,
                count,
            )->Ok_0.writes,
        )[element_position(blocks[k], n)] == if k < count {
            published_element(
                publication_before(
                    blocks,
                    geometries,
                    pairs,
                    dimensions,
                    side,
                    source_trees,
                    one,
                    k,
                ),
                blocks[k],
                geometries,
                pairs,
                side,
                source_trees,
                zero,
                one,
                n,
            )
        } else {
            zero
        },
    decreases count,
{
    let data = zeros(zero, len);
    assert(block_admitted(blocks[k], len));
    lemma_element_in_buffer(blocks[k], n, len);
    if count > 0 {
        let last = count - 1;
        let before = publication_before(
            blocks,
            geometries,
            pairs,
            dimensions,
            side,
            source_trees,
            one,
            last,
        );
        let middle = apply_writes(data, before.writes);
        lemma_writes_len(data, before.writes);
        lemma_publication_reads(
            blocks,
            geometries,
            pairs,
            dimensions,
            side,
            source_trees,
            zero,
            one,
            len,
            last,
            k,
            n,
        );
        assert(block_admitted(blocks[last], len) && has_bond_axis(blocks[last], side));
        assert forall|m: int| 0 <= m < extent(blocks[last].shape@) implies middle[
        #[trigger] element_position(blocks[last], m)] == zero by {
            lemma_publication_reads(
                blocks,
                geometries,
                pairs,
                dimensions,
                side,
                source_trees,
                zero,
                one,
                len,
                last,
                last,
                m,
            );
        }
        let more = lemma_block_publication(
            middle,
            before,
            blocks,
            last,
            geometries,
            pairs,
            dimensions,
            side,
            source_trees,
            zero,
            one,
        );
        lemma_writes_concat(data, before.writes, more);
        if k != last {
            lemma_others_kept(middle, blocks, last, more, k, n);
        } else {
            assert(apply_writes(middle, more)[element_position(blocks[last], n)]
                == published_element(
                before,
                blocks[last],
                geometries,
                pairs,
                side,
                source_trees,
                zero,
                one,
                n,
            ));
        }
    }
}

/// Publishing a factor by scatter writes the factor: every element of every
/// block is the element of its sector's factor that its tree and its indices
/// name, sectors without source matrix hold an identity, and unlabelled blocks
/// stay zero.
pub proof fn lemma_published_factor_reads_back<D>(
    structure: BlockStructure,
    geometries: Seq<Geometry>,
    pairs: Seq<FactorPair<D>>,
    dimensions: Seq<SectorRank>,
    side: FactorSide,
    source_trees: FactorSide,
    zero: D,
    one: D,
    k: int,
    n: int,
)
    requires
        structure.wf(),
        elements_apart(structure.spec_blocks()),
        forall|j: int|
            0 <= j < structure.spec_blocks().len() ==> has_bond_axis(
                #[trigger] structure.spec_blocks()[j],
                side,
            ),
        publish_blocks(
            structure.spec_blocks(),
            geometries,
            pairs,
            dimensions,
            side,
            source_trees,
            one,
            structure.spec_blocks().len() as int,
        ) is Ok,
        0 <= k < structure.spec_blocks().len(),
        0 <= n < extent(structure.spec_blocks()[k].shape@),
    ensures
        apply_writes(
            zeros(zero, structure.spec_len() as int),
            publish_blocks(
                structure.spec_blocks(),
                geometries,
                pairs,
                dimensions,
                side,
                source_trees,
                one,
                structure.spec_blocks().len() as int,
            )->Ok_0.writes,
        )[element_position(structure.spec_blocks()[k], n)] == published_element(
            publication_before(
                structure.spec_blocks(),
                geometries,
                pairs,
                dimensions,
                side,
                source_trees,
                one,
                k,
            ),
            structure.spec_blocks()[k],
            geometries,
            pairs,
            side,
            source_trees,
            zero,
            one,
            n,
        ),
{
    let blocks = structure.spec_blocks();
    assert forall|j: int| 0 <= j < blocks.len() implies block_admitted(
        #[trigger] blocks[j],
        structure.spec_len() as int,
    ) && has_bond_axis(blocks[j], side) by {}
    lemma_publication_reads(
        blocks,
        geometries,
        pairs,
        dimensions,
        side,
        source_trees,
        zero,
        one,
        structure.spec_len() as int,
        blocks.len() as int,
        k,
        n,
    );
}

} // verus!
