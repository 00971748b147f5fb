//! What the data of a tensor holds at the indices of its elements.

use vstd::prelude::*;

use crate::canonical::side_tree;
use crate::equivalence::lemma_canonical_publication_is_scatter;
use crate::error::OperationError;
use crate::factor::{FactorPair, SectorRank};
use crate::geometry::{
    lemma_sector_position, lemma_span_position, sector_position, sectors_distinct, span_position,
    trees_distinct, Geometry,
};
use crate::index::{coordinate, extent, leading_extent, lemma_leading_extent_nonnegative};
use crate::index_laws::{
    index_number, index_position, indexes, lemma_element_by_index, lemma_number_split,
};
use crate::layout::{side_index, FactorSide};
use crate::matricize::{
    geometry_stacked, lemma_stacking, sector_matrix, stack_blocks, stackable, stacked_side,
};
use crate::matricize_laws::{labels_distinct, lemma_matricization_reads_back};
use crate::placement::bond_axis;
use crate::publish::{lemma_last_pair, publish_blocks, published_data, side_shape, zeros};
use crate::read_back::{
    diagonal_position, element_position, elements_apart, has_bond_axis, identity_start,
    lemma_diagonal_reads_spectrum, lemma_diagonal_rest_is_zero, lemma_published_factor_reads_back,
    lemma_truncated_factor_reads_full, on_a_diagonal,
};
use crate::ring::matrix;
use crate::sector::{SectorId, TreePair};
use crate::spectrum::{
    block_diagonals, diagonal_values, image, is_bond_block, lemma_last_entry, SectorSpectrum,
};
use crate::structure::{first_block, Block, BlockStructure, Label};
use crate::truncate::{lemma_first_block, slice_blocks};
use crate::writes::apply_writes;

verus! {

/// An element of a block stands where its indices put it.
pub(crate) proof fn lemma_position_of_index(block: Block, at: Seq<int>)
    requires
        indexes(at, block.shape@),
        block.strides@.len() == block.shape@.len(),
    ensures
        0 <= index_number(at, block.shape@, 0) < extent(block.shape@),
        element_position(block, index_number(at, block.shape@, 0)) == index_position(block, at),
{
    lemma_element_by_index(block.shape@, block.strides@, at);
}

/// The number of an element among the axes that are not its bond, for a bond
/// behind or in front of them.
pub(crate) proof fn lemma_side_of_index(shape: Seq<usize>, at: Seq<int>)
    requires
        indexes(at, shape),
        shape.len() > 0,
    ensures
        side_index(shape, index_number(at, shape, 0), shape.len() - 1) == index_number(
            at.drop_last(),
            shape.drop_last(),
            0,
        ),
        side_index(shape, index_number(at, shape, 0), 0) == index_number(
            at.drop_first(),
            shape.drop_first(),
            0,
        ),
{
    let rank = shape.len() as int;
    let n = index_number(at, shape, 0);
    lemma_element_by_index(shape, shape, at);
    lemma_number_split(at, shape, rank - 1);
    assert(at.take(rank - 1) =~= at.drop_last());
    assert(shape.take(rank - 1) =~= shape.drop_last());
    vstd::arithmetic::div_mod::lemma_basic_div(n, extent(shape));
    let low = leading_extent(shape, rank - 1);
    assert(low * 0 == 0) by (nonlinear_arith);
    lemma_number_split(at, shape, 1);
    assert(at.skip(1) =~= at.drop_first());
    assert(shape.skip(1) =~= shape.drop_first());
    assert(leading_extent(shape, 0) == 1);
    assert(leading_extent(shape, 1) == shape[0]) by {
        reveal_with_fuel(leading_extent, 2);
    }
    vstd::arithmetic::div_mod::lemma_mod_division_less_than_divisor(n, 1);
}

/// A truncated factor holds at every index what the block of the full factor
/// with the same trees holds at that index.
pub proof fn lemma_truncated_by_index<D>(
    source: Seq<D>,
    full: BlockStructure,
    sliced: BlockStructure,
    zero: D,
    k: int,
    j: int,
    at: Seq<int>,
)
    requires
        full.wf(),
        sliced.wf(),
        elements_apart(sliced.spec_blocks()),
        full.spec_blocks().len() <= usize::MAX,
        slice_blocks(
            source,
            full.spec_blocks(),
            sliced.spec_blocks(),
            sliced.spec_blocks().len() as int,
        ) is Ok,
        0 <= k < sliced.spec_blocks().len(),
        0 <= j < full.spec_blocks().len(),
        full.spec_blocks()[j].key@ == sliced.spec_blocks()[k].key@,
        forall|i: int|
            0 <= i < j ==> (#[trigger] full.spec_blocks()[i]).key@
                != sliced.spec_blocks()[k].key@,
        full.spec_blocks()[j].shape@.len() == sliced.spec_blocks()[k].shape@.len(),
        indexes(at, sliced.spec_blocks()[k].shape@),
    ensures
        apply_writes(
            zeros(zero, sliced.spec_len() as int),
            slice_blocks(
                source,
                full.spec_blocks(),
                sliced.spec_blocks(),
                sliced.spec_blocks().len() as int,
            )->Ok_0,
        )[index_position(sliced.spec_blocks()[k], at)] == source[index_position(
            full.spec_blocks()[j],
            at,
        )],
{
    let block = sliced.spec_blocks()[k];
    let from = full.spec_blocks()[j];
    lemma_position_of_index(block, at);
    lemma_element_by_index(block.shape@, from.strides@, at);
    lemma_first_block(full.spec_blocks(), block.key@, 0);
    assert(first_block(full.spec_blocks(), block.key@)->0 == j);
    lemma_truncated_factor_reads_full(
        source,
        full,
        sliced,
        zero,
        k,
        index_number(at, block.shape@, 0),
    );
}

/// A truncation finds every block, and refuses where the full factor lacks one.
pub proof fn lemma_truncation_needs_blocks<D>(
    source: Seq<D>,
    full: Seq<Block>,
    sliced: Seq<Block>,
    count: int,
)
    requires
        0 <= count <= sliced.len(),
        full.len() <= usize::MAX,
    ensures
        slice_blocks(source, full, sliced, count) is Ok <==> forall|k: int|
            0 <= k < count ==> is_held(full, #[trigger] sliced[k]),
    decreases count,
{
    if count > 0 {
        lemma_truncation_needs_blocks(source, full, sliced, count - 1);
        let block = sliced[count - 1];
        lemma_first_block(full, block.key@, 0);
        assert(first_block(full, block.key@) is Some <==> is_held(full, block));
        if slice_blocks(source, full, sliced, count) is Ok {
            assert forall|k: int| 0 <= k < count implies is_held(full, #[trigger] sliced[k]) by {
                if k < count - 1 {
                    assert(is_held(full, sliced[k]));
                }
            }
        }
    }
}

/// Some block carries the label of this one.
pub open spec fn is_held(blocks: Seq<Block>, block: Block) -> bool {
    exists|j: int| 0 <= j < blocks.len() && (#[trigger] blocks[j]).key@ == block.key@
}

/// The matrix blocks of a diagonal tensor: the values of the sector's spectrum on
/// the diagonal, as far as there are some, and zero beside it.
pub proof fn lemma_diagonal_by_index<D, V, F: Fn(V) -> D>(
    structure: BlockStructure,
    spectrum: Seq<SectorSpectrum<V>>,
    to_scalar: F,
    zero: D,
    k: int,
    entry: int,
    i: int,
    j: int,
)
    requires
        structure.wf(),
        elements_apart(structure.spec_blocks()),
        forall|b: int|
            0 <= b < structure.spec_blocks().len() ==> is_bond_block(
                #[trigger] structure.spec_blocks()[b],
                spectrum,
            ),
        0 <= k < structure.spec_blocks().len(),
        structure.spec_blocks()[k].key@ is FusionTree,
        0 <= entry < spectrum.len(),
        spectrum[entry].sector
            == structure.spec_blocks()[k].key@->FusionTree_0.codomain.coupled,
        forall|later: int|
            entry < later < spectrum.len() ==> (#[trigger] spectrum[later]).sector
                != spectrum[entry].sector,
        0 <= i < structure.spec_blocks()[k].shape@[0],
        0 <= j < structure.spec_blocks()[k].shape@[1],
    ensures
        ({
            let block = structure.spec_blocks()[k];
            &&& block.shape@.len() == 2
            &&& apply_writes(
                zeros(zero, structure.spec_len() as int),
                block_diagonals(
                    structure.spec_blocks(),
                    spectrum,
                    to_scalar,
                    structure.spec_blocks().len() as int,
                ),
            )[block.offset + i * block.strides@[0] + j * block.strides@[1]] == if i == j && i
                < spectrum[entry].values@.len() {
                image(to_scalar, spectrum[entry].values@[i])
            } else {
                zero
            }
        }),
{
    let blocks = structure.spec_blocks();
    let block = blocks[k];
    let at = seq![i, j];
    lemma_last_entry(spectrum, spectrum[entry].sector, spectrum.len() as int);
    assert(is_bond_block(block, spectrum));
    let values = diagonal_values(block, spectrum, to_scalar);
    assert(crate::structure::block_admitted(block, structure.spec_len() as int));
    assert(indexes(at, block.shape@));
    lemma_position_of_index(block, at);
    reveal_with_fuel(crate::index_laws::strided_sum, 3);
    let position = index_position(block, at);
    assert(position == block.offset + i * block.strides@[0] + j * block.strides@[1]);
    if i == j && i < spectrum[entry].values@.len() {
        let (s, t) = (block.strides@[0] as int, block.strides@[1] as int);
        assert(i * (s + t) == i * s + i * t) by (nonlinear_arith);
        lemma_diagonal_reads_spectrum(structure, spectrum, to_scalar, zero, k, i);
    } else {
        lemma_element_in_range(structure, k, at);
        if on_a_diagonal(blocks, spectrum, to_scalar, blocks.len() as int, position) {
            let (b, p) = choose|b: int, p: int|
                0 <= b < blocks.len() && 0 <= p < diagonal_values(
                    blocks[b],
                    spectrum,
                    to_scalar,
                ).len() && #[trigger] diagonal_position(blocks[b], p) == position;
            let other = blocks[b];
            let on = seq![p, p];
            assert(is_bond_block(other, spectrum));
            assert(crate::structure::block_admitted(other, structure.spec_len() as int));
            assert(indexes(on, other.shape@));
            lemma_position_of_index(other, on);
            let (s, t) = (other.strides@[0] as int, other.strides@[1] as int);
            assert(p * (s + t) == p * s + p * t) by (nonlinear_arith);
            assert(index_position(other, on) == position);
            let m = index_number(on, other.shape@, 0);
            let n = index_number(at, block.shape@, 0);
            assert(b == k && m == n) by {
                if b != k || m != n {
                    assert(element_position(blocks[b], m) != element_position(blocks[k], n));
                }
            }
            lemma_element_by_index(block.shape@, block.strides@, at);
            lemma_element_by_index(block.shape@, block.strides@, on);
            assert(coordinate(block.shape@, n, 0) == at[0] && coordinate(block.shape@, n, 1)
                == at[1]);
            assert(coordinate(block.shape@, m, 0) == on[0] && coordinate(block.shape@, m, 1)
                == on[1]);
        }
        lemma_diagonal_rest_is_zero(structure, spectrum, to_scalar, zero, position);
    }
}

/// An element of a block lies in the buffer.
proof fn lemma_element_in_range(structure: BlockStructure, k: int, at: Seq<int>)
    requires
        structure.wf(),
        0 <= k < structure.spec_blocks().len(),
        indexes(at, structure.spec_blocks()[k].shape@),
    ensures
        0 <= index_position(structure.spec_blocks()[k], at) < structure.spec_len(),
{
    let block = structure.spec_blocks()[k];
    assert(crate::structure::block_admitted(block, structure.spec_len() as int));
    lemma_position_of_index(block, at);
    crate::read_back::lemma_element_in_buffer(
        block,
        index_number(at, block.shape@, 0),
        structure.spec_len() as int,
    );
}

/// Blocks whose sector has no spectrum are zero.
pub proof fn lemma_diagonal_without_spectrum<D, V, F: Fn(V) -> D>(
    structure: BlockStructure,
    spectrum: Seq<SectorSpectrum<V>>,
    to_scalar: F,
    zero: D,
    k: int,
    at: Seq<int>,
)
    requires
        structure.wf(),
        elements_apart(structure.spec_blocks()),
        forall|b: int|
            0 <= b < structure.spec_blocks().len() ==> is_bond_block(
                #[trigger] structure.spec_blocks()[b],
                spectrum,
            ),
        0 <= k < structure.spec_blocks().len(),
        match structure.spec_blocks()[k].key@ {
            Label::Plain => true,
            Label::FusionTree(pair) => forall|entry: int|
                0 <= entry < spectrum.len() ==> (#[trigger] spectrum[entry]).sector
                    != pair.codomain.coupled,
        },
        indexes(at, structure.spec_blocks()[k].shape@),
    ensures
        apply_writes(
            zeros(zero, structure.spec_len() as int),
            block_diagonals(
                structure.spec_blocks(),
                spectrum,
                to_scalar,
                structure.spec_blocks().len() as int,
            ),
        )[index_position(structure.spec_blocks()[k], at)] == zero,
{
    let blocks = structure.spec_blocks();
    let block = blocks[k];
    assert(crate::structure::block_admitted(block, structure.spec_len() as int));
    lemma_position_of_index(block, at);
    lemma_element_in_range(structure, k, at);
    let position = index_position(block, at);
    if let Label::FusionTree(pair) = block.key@ {
        lemma_last_entry(spectrum, pair.codomain.coupled, spectrum.len() as int);
    }
    if on_a_diagonal(blocks, spectrum, to_scalar, blocks.len() as int, position) {
        let (b, p) = choose|b: int, p: int|
            0 <= b < blocks.len() && 0 <= p < diagonal_values(
                blocks[b],
                spectrum,
                to_scalar,
            ).len() && #[trigger] diagonal_position(blocks[b], p) == position;
        let other = blocks[b];
        let on = seq![p, p];
        assert(is_bond_block(other, spectrum));
        assert(crate::structure::block_admitted(other, structure.spec_len() as int));
        assert(indexes(on, other.shape@));
        lemma_position_of_index(other, on);
        reveal_with_fuel(crate::index_laws::strided_sum, 3);
        let (s, t) = (other.strides@[0] as int, other.strides@[1] as int);
        assert(p * (s + t) == p * s + p * t) by (nonlinear_arith);
        let m = index_number(on, other.shape@, 0);
        let n = index_number(at, block.shape@, 0);
        assert(b != k);
        assert(element_position(blocks[b], m) != element_position(blocks[k], n));
    }
    lemma_diagonal_rest_is_zero(structure, spectrum, to_scalar, zero, position);
}

/// Geometry `g` is that of the pair's sector, with the pair's codomain tree at
/// place `r` of its rows and its domain tree at place `c` of its columns.
pub open spec fn is_place(
    stacked: Seq<Geometry>,
    pair: TreePair,
    g: int,
    r: int,
    c: int,
) -> bool {
    &&& 0 <= g < stacked.len()
    &&& stacked[g].sector == pair.codomain.coupled
    &&& 0 <= r < stacked[g].row_trees.len()
    &&& stacked[g].row_trees[r].tree == pair.codomain
    &&& 0 <= c < stacked[g].col_trees.len()
    &&& stacked[g].col_trees[c].tree == pair.domain
}

/// The sector matrix of a tensor holds every element of the sector's blocks: in
/// the row that the codomain indices have behind the start of the codomain tree,
/// and in the column that the domain indices have behind the start of the domain
/// tree. The trees of each side follow each other without gaps.
pub proof fn lemma_matricized_by_index<D>(
    data: Seq<D>,
    structure: BlockStructure,
    nout: int,
    zero: D,
    b: int,
    g: int,
    r: int,
    c: int,
    at: Seq<int>,
)
    requires
        structure.wf(),
        0 <= nout,
        stackable(structure.spec_blocks(), nout),
        labels_distinct(structure.spec_blocks()),
        stack_blocks(structure.spec_blocks(), nout, structure.spec_blocks().len() as int) is Ok,
        0 <= b < structure.spec_blocks().len(),
        indexes(at, structure.spec_blocks()[b].shape@),
        ({
            let stacked = stack_blocks(
                structure.spec_blocks(),
                nout,
                structure.spec_blocks().len() as int,
            )->Ok_0;
            &&& structure.spec_blocks()[b].key@ is FusionTree
            &&& is_place(stacked, structure.spec_blocks()[b].key@->FusionTree_0, g, r, c)
        }),
    ensures
        ({
            let blocks = structure.spec_blocks();
            let shape = blocks[b].shape@;
            let geometry = stack_blocks(blocks, nout, blocks.len() as int)->Ok_0[g];
            let cells = sector_matrix(data, blocks, nout, geometry, zero);
            let row = geometry.row_trees[r].offset + index_number(
                at.take(nout),
                shape.take(nout),
                0,
            );
            let col = geometry.col_trees[c].offset + index_number(
                at.skip(nout),
                shape.skip(nout),
                0,
            );
            &&& matrix(geometry.rows as int, geometry.cols as int, cells).at(row, col)
                == data[index_position(blocks[b], at)]
            &&& stacked_side(geometry.row_trees, geometry.rows as int)
            &&& stacked_side(geometry.col_trees, geometry.cols as int)
        }),
{
    let blocks = structure.spec_blocks();
    let block = blocks[b];
    let shape = block.shape@;
    let stacked = stack_blocks(blocks, nout, blocks.len() as int)->Ok_0;
    let geometry = stacked[g];
    let n = index_number(at, shape, 0);
    assert(crate::structure::block_admitted(block, structure.spec_len() as int));
    lemma_position_of_index(block, at);
    lemma_stacking(blocks, nout, blocks.len() as int);
    crate::matricize::lemma_position_unique(stacked, g);
    assert(geometry_stacked(geometry, blocks, nout, blocks.len() as int));
    lemma_matricization_reads_back(data, blocks, nout, zero, b, n);
    lemma_span_position(geometry.row_trees, geometry.row_trees[r].tree, 0);
    lemma_span_position(geometry.col_trees, geometry.col_trees[c].tree, 0);
    assert(crate::matricize::labelled_to(blocks, b)) by {
        assert forall|j: int| 0 <= j <= b implies (#[trigger] blocks[j]).key@ is FusionTree by {
            assert(crate::matricize::block_registered(stacked, blocks[j]));
        }
    }
    assert(nout <= block.shape@.len());
    lemma_number_split(at, shape, nout);
}

/// Every block of a matricized tensor has its sector matrix, and its trees stand
/// on the two sides of it.
pub proof fn lemma_matricized_blocks_have_places(
    blocks: Seq<Block>,
    nout: int,
    b: int,
)
    requires
        stack_blocks(blocks, nout, blocks.len() as int) is Ok,
        0 <= b < blocks.len(),
    ensures
        blocks[b].key@ is FusionTree,
        exists|g: int, r: int, c: int|
            is_place(
                stack_blocks(blocks, nout, blocks.len() as int)->Ok_0,
                blocks[b].key@->FusionTree_0,
                g,
                r,
                c,
            ),
{
    let stacked = stack_blocks(blocks, nout, blocks.len() as int)->Ok_0;
    lemma_stacking(blocks, nout, blocks.len() as int);
    assert(crate::matricize::block_registered(stacked, blocks[b]));
    let pair = blocks[b].key@->FusionTree_0;
    lemma_sector_position(stacked, pair.codomain.coupled, 0);
    let g = sector_position(stacked, pair.codomain.coupled, 0)->0;
    lemma_span_position(stacked[g].row_trees, pair.codomain, 0);
    lemma_span_position(stacked[g].col_trees, pair.domain, 0);
    let r = span_position(stacked[g].row_trees, pair.codomain, 0)->0;
    let c = span_position(stacked[g].col_trees, pair.domain, 0)->0;
    assert(is_place(stacked, pair, g, r, c));
}

/// What a published factor holds where its sector has a source matrix: element
/// `(s, b)` of the sector's factor for a left factor, `(b, s)` for a right one,
/// where `b` is the bond index and `s` counts the other indices behind the start
/// of the block's tree. Whether the output was moved or scattered makes no
/// difference.
pub proof fn lemma_published_by_index<D>(
    elements: Seq<D>,
    structure: BlockStructure,
    geometries: Seq<Geometry>,
    pairs: Seq<FactorPair<D>>,
    dimensions: Seq<SectorRank>,
    side: FactorSide,
    source_trees: FactorSide,
    zero: D,
    one: D,
    k: int,
    g: int,
    t: int,
    p: int,
    at: Seq<int>,
)
    requires
        structure.wf(),
        elements_apart(structure.spec_blocks()),
        forall|j: int|
            0 <= j < structure.spec_blocks().len() ==> has_bond_axis(
                #[trigger] structure.spec_blocks()[j],
                side,
            ),
        sectors_distinct(geometries),
        forall|j: int|
            0 <= j < geometries.len() ==> trees_distinct(
                (#[trigger] geometries[j]).trees(source_trees),
            ),
        published_data(
            structure,
            geometries,
            pairs,
            dimensions,
            side,
            source_trees,
            zero,
            one,
        ) == Ok::<Seq<D>, OperationError>(elements),
        0 <= k < structure.spec_blocks().len(),
        structure.spec_blocks()[k].shape@.len() > 0,
        indexes(at, structure.spec_blocks()[k].shape@),
        structure.spec_blocks()[k].key@ is FusionTree,
        ({
            let pair = structure.spec_blocks()[k].key@->FusionTree_0;
            let tree = match side {
                FactorSide::Left => pair.codomain,
                FactorSide::Right => pair.domain,
            };
            &&& 0 <= g < geometries.len()
            &&& geometries[g].sector == tree.coupled
            &&& 0 <= t < geometries[g].trees(source_trees).len()
            &&& geometries[g].trees(source_trees)[t].tree == tree
            &&& 0 <= p < pairs.len()
            &&& pairs[p].sector == tree.coupled
            &&& forall|later: int|
                p < later < pairs.len() ==> (#[trigger] pairs[later]).sector != tree.coupled
        }),
    ensures
        ({
            let block = structure.spec_blocks()[k];
            let start = geometries[g].trees(source_trees)[t].offset as int;
            elements[index_position(block, at)] == match side {
                FactorSide::Left => matrix(
                    pairs[p].left_rows as int,
                    pairs[p].kept as int,
                    pairs[p].left@,
                ).at(
                    start + index_number(at.drop_last(), block.shape@.drop_last(), 0),
                    at.last(),
                ),
                FactorSide::Right => matrix(
                    pairs[p].right_leading as int,
                    geometries[g].side_extent(source_trees) as int,
                    pairs[p].right@,
                ).at(
                    at[0],
                    start + index_number(at.drop_first(), block.shape@.drop_first(), 0),
                ),
            }
        }),
{
    let blocks = structure.spec_blocks();
    let block = blocks[k];
    let pair = block.key@->FusionTree_0;
    let tree = side_tree(pair, side);
    let n = index_number(at, block.shape@, 0);
    assert(crate::structure::block_admitted(block, structure.spec_len() as int));
    lemma_position_of_index(block, at);
    lemma_side_of_index(block.shape@, at);
    lemma_element_by_index(block.shape@, block.strides@, at);
    lemma_publication_is_scatter(
        elements,
        structure,
        geometries,
        pairs,
        dimensions,
        side,
        source_trees,
        zero,
        one,
    );
    lemma_published_factor_reads_back(
        structure,
        geometries,
        pairs,
        dimensions,
        side,
        source_trees,
        zero,
        one,
        k,
        n,
    );
    crate::matricize::lemma_position_unique(geometries, g);
    assert(trees_distinct(geometries[g].trees(source_trees)));
    lemma_span_position(geometries[g].trees(source_trees), tree, 0);
    lemma_last_pair(pairs, tree.coupled, pairs.len() as int);
    assert(coordinate(block.shape@, n, bond_axis(block, side)) == at[bond_axis(block, side)]);
}

/// Published data is what a scatter into a zero output leaves.
proof fn lemma_publication_is_scatter<D>(
    elements: Seq<D>,
    structure: BlockStructure,
    geometries: Seq<Geometry>,
    pairs: Seq<FactorPair<D>>,
    dimensions: Seq<SectorRank>,
    side: FactorSide,
    source_trees: FactorSide,
    zero: D,
    one: D,
)
    requires
        sectors_distinct(geometries),
        forall|j: int|
            0 <= j < geometries.len() ==> trees_distinct(
                (#[trigger] geometries[j]).trees(source_trees),
            ),
        published_data(
            structure,
            geometries,
            pairs,
            dimensions,
            side,
            source_trees,
            zero,
            one,
        ) == Ok::<Seq<D>, OperationError>(elements),
    ensures
        publish_blocks(
            structure.spec_blocks(),
            geometries,
            pairs,
            dimensions,
            side,
            source_trees,
            one,
            structure.spec_blocks().len() as int,
        ) is Ok,
        elements == apply_writes(
            zeros(zero, structure.spec_len() as int),
            publish_blocks(
                structure.spec_blocks(),
                geometries,
                pairs,
                dimensions,
                side,
                source_trees,
                one,
                structure.spec_blocks().len() as int,
            )->Ok_0.writes,
        ),
{
    if crate::canonical::one_sided_output_canonical(
        structure.spec_blocks(),
        geometries,
        pairs,
        dimensions,
        structure.spec_len() as int,
        side,
        source_trees,
    ) {
        lemma_canonical_publication_is_scatter(
            structure.spec_blocks(),
            geometries,
            pairs,
            dimensions,
            structure.spec_len() as int,
            side,
            source_trees,
            zero,
            one,
        );
    }
}

/// How many indices the blocks before block `k` give one sector on a side of the
/// output.
pub open spec fn extent_before(
    blocks: Seq<Block>,
    side: FactorSide,
    sector: SectorId,
    k: int,
) -> int
    decreases k,
{
    if k <= 0 {
        0
    } else {
        let before = extent_before(blocks, side, sector, k - 1);
        let shape = blocks[k - 1].shape@;
        match blocks[k - 1].key@ {
            Label::Plain => before,
            Label::FusionTree(pair) => {
                let tree = match side {
                    FactorSide::Left => pair.codomain,
                    FactorSide::Right => pair.domain,
                };
                if tree.coupled == sector {
                    before + extent(
                        match side {
                            FactorSide::Left => shape.drop_last(),
                            FactorSide::Right => shape.drop_first(),
                        },
                    )
                } else {
                    before
                }
            },
        }
    }
}

proof fn lemma_identities_reach<D>(
    blocks: Seq<Block>,
    geometries: Seq<Geometry>,
    pairs: Seq<FactorPair<D>>,
    dimensions: Seq<SectorRank>,
    side: FactorSide,
    source_trees: FactorSide,
    one: D,
    count: int,
    sector: SectorId,
)
    requires
        0 <= count <= blocks.len(),
        forall|j: int| 0 <= j < blocks.len() ==> has_bond_axis(#[trigger] blocks[j], side),
        sector_position(geometries, sector, 0) is None,
        publish_blocks(
            blocks,
            geometries,
            pairs,
            dimensions,
            side,
            source_trees,
            one,
            count,
        ) is Ok,
    ensures
        crate::publish::identity_start(
            publish_blocks(
                blocks,
                geometries,
                pairs,
                dimensions,
                side,
                source_trees,
                one,
                count,
            )->Ok_0.filled,
            sector,
        ) == extent_before(blocks, side, sector, count),
    decreases count,
{
    if count > 0 {
        lemma_identities_reach(
            blocks,
            geometries,
            pairs,
            dimensions,
            side,
            source_trees,
            one,
            count - 1,
            sector,
        );
        let block = blocks[count - 1];
        let shape = block.shape@;
        assert(has_bond_axis(block, side));
        let others = side_shape(shape, bond_axis(block, side));
        lemma_leading_extent_nonnegative(others, others.len() as int);
        if shape.len() > 0 {
            assert(shape.remove(0) =~= shape.drop_first());
            assert(shape.remove(shape.len() - 1) =~= shape.drop_last());
        }
    }
}

/// What a published factor holds where its sector has no source matrix: the
/// blocks of the sector, one behind the other, are an identity.
pub proof fn lemma_published_identity_by_index<D>(
    elements: Seq<D>,
    structure: BlockStructure,
    geometries: Seq<Geometry>,
    pairs: Seq<FactorPair<D>>,
    dimensions: Seq<SectorRank>,
    side: FactorSide,
    source_trees: FactorSide,
    zero: D,
    one: D,
    k: int,
    at: Seq<int>,
)
    requires
        structure.wf(),
        elements_apart(structure.spec_blocks()),
        forall|j: int|
            0 <= j < structure.spec_blocks().len() ==> has_bond_axis(
                #[trigger] structure.spec_blocks()[j],
                side,
            ),
        sectors_distinct(geometries),
        forall|j: int|
            0 <= j < geometries.len() ==> trees_distinct(
                (#[trigger] geometries[j]).trees(source_trees),
            ),
        published_data(
            structure,
            geometries,
            pairs,
            dimensions,
            side,
            source_trees,
            zero,
            one,
        ) == Ok::<Seq<D>, OperationError>(elements),
        0 <= k < structure.spec_blocks().len(),
        structure.spec_blocks()[k].shape@.len() > 0,
        indexes(at, structure.spec_blocks()[k].shape@),
        structure.spec_blocks()[k].key@ is FusionTree,
        ({
            let pair = structure.spec_blocks()[k].key@->FusionTree_0;
            let tree = match side {
                FactorSide::Left => pair.codomain,
                FactorSide::Right => pair.domain,
            };
            forall|g: int|
                0 <= g < geometries.len() ==> (#[trigger] geometries[g]).sector != tree.coupled
        }),
    ensures
        ({
            let blocks = structure.spec_blocks();
            let block = blocks[k];
            let pair = block.key@->FusionTree_0;
            let sector = match side {
                FactorSide::Left => pair.codomain.coupled,
                FactorSide::Right => pair.domain.coupled,
            };
            let start = extent_before(blocks, side, sector, k);
            let (bond, number) = match side {
                FactorSide::Left => (
                    at.last(),
                    index_number(at.drop_last(), block.shape@.drop_last(), 0),
                ),
                FactorSide::Right => (
                    at[0],
                    index_number(at.drop_first(), block.shape@.drop_first(), 0),
                ),
            };
            elements[index_position(block, at)] == if bond == start + number {
                one
            } else {
                zero
            }
        }),
{
    let blocks = structure.spec_blocks();
    let block = blocks[k];
    let pair = block.key@->FusionTree_0;
    let tree = side_tree(pair, side);
    let n = index_number(at, block.shape@, 0);
    assert(crate::structure::block_admitted(block, structure.spec_len() as int));
    lemma_position_of_index(block, at);
    lemma_side_of_index(block.shape@, at);
    lemma_element_by_index(block.shape@, block.strides@, at);
    lemma_publication_is_scatter(
        elements,
        structure,
        geometries,
        pairs,
        dimensions,
        side,
        source_trees,
        zero,
        one,
    );
    lemma_published_factor_reads_back(
        structure,
        geometries,
        pairs,
        dimensions,
        side,
        source_trees,
        zero,
        one,
        k,
        n,
    );
    lemma_sector_position(geometries, tree.coupled, 0);
    lemma_publication_prefix(
        blocks,
        geometries,
        pairs,
        dimensions,
        side,
        source_trees,
        one,
        k,
        blocks.len() as int,
    );
    lemma_identities_reach(
        blocks,
        geometries,
        pairs,
        dimensions,
        side,
        source_trees,
        one,
        k,
        tree.coupled,
    );
    assert(coordinate(block.shape@, n, bond_axis(block, side)) == at[bond_axis(block, side)]);
}

/// A publication that succeeds has succeeded on every block before.
proof fn lemma_publication_prefix<D>(
    blocks: Seq<Block>,
    geometries: Seq<Geometry>,
    pairs: Seq<FactorPair<D>>,
    dimensions: Seq<SectorRank>,
    side: FactorSide,
    source_trees: FactorSide,
    one: D,
    low: int,
    high: int,
)
    requires
        0 <= low <= high <= blocks.len(),
        publish_blocks(
            blocks,
            geometries,
            pairs,
            dimensions,
            side,
            source_trees,
            one,
            high,
        ) is Ok,
    ensures
        publish_blocks(
            blocks,
            geometries,
            pairs,
            dimensions,
            side,
            source_trees,
            one,
            low,
        ) is Ok,
    decreases high - low,
{
    if low < high {
        lemma_publication_prefix(
            blocks,
            geometries,
            pairs,
            dimensions,
            side,
            source_trees,
            one,
            low,
            high - 1,
        );
    }
}

} // verus!
