//! Moving the factors of an output in canonical layout has the same effect as
//! scattering them.

use vstd::prelude::*;

use crate::canonical::{
    canonical_block, lemma_stacked_extent_monotone, next_block, one_sided_output_canonical,
    pair_output_canonical, pair_ranks, pairs_canonical, sector_canonical, stacked_extent,
};
use crate::error::OperationError;
use crate::factor::{joined, FactorPair, SectorRank};
use crate::geometry::{
    lemma_sector_position, lemma_span_position, sector_position, sectors_distinct, span_position,
    trees_distinct, Geometry, Span,
};
use crate::index::{
    address, coordinate, extent, leading_extent, lemma_div_mod_unique,
    lemma_leading_extent_monotone, lemma_leading_extent_nonnegative, lemma_quotient_is_division,
    lemma_split_bounds, partial_address,
};
use crate::layout::{factor_layout, scatter_source, side_extent, side_index, FactorSide};
use crate::pair::{scatter_pairs, whole_sector_scatter, PairWrites};
use crate::placement::{
    block_scatter, block_sector, bond_axis, lemma_sector_blocks, placement_of, sector_blocks,
    sector_scatter, Scatter,
};
use crate::publish::{last_pair, publish_blocks, zeros, Publication};
use crate::sector::{SectorId, TreePair};
use crate::structure::{Block, BlockStructure};
use crate::writes::{apply_writes, lemma_writes_len, Write};

verus! {

/// With column-major strides an address is the linear index itself, up to the
/// extent of the axes taken.
pub proof fn lemma_column_major_address(
    shape: Seq<usize>,
    strides: Seq<usize>,
    n: int,
    axes: int,
)
    requires
        0 <= axes <= shape.len(),
        shape.len() == strides.len(),
        0 <= n,
        leading_extent(shape, axes) > 0,
        forall|k: int| 0 <= k < axes ==> #[trigger] strides[k] == leading_extent(shape, k),
    ensures
        partial_address(shape, strides, n, axes) == n % leading_extent(shape, axes),
    decreases axes,
{
    if axes == 0 {
        assert(n % 1 == 0);
    } else {
        lemma_leading_extent_monotone(shape, axes - 1, axes);
        lemma_column_major_address(shape, strides, n, axes - 1);
        let low = leading_extent(shape, axes - 1);
        let dim = shape[axes - 1] as int;
        lemma_quotient_is_division(shape, n, axes - 1);
        assert(dim > 0) by (nonlinear_arith)
            requires
                low * dim > 0,
                low > 0,
        ;
        vstd::arithmetic::div_mod::lemma_mod_breakdown(n, low, dim);
        let c = (n / low) % dim;
        assert(c * low == low * c) by (nonlinear_arith);
    }
}

/// Shapes that agree on their leading axes have the same leading extents.
proof fn lemma_leading_extent_agrees(a: Seq<usize>, b: Seq<usize>, axes: int)
    requires
        0 <= axes <= a.len(),
        axes <= b.len(),
        forall|k: int| 0 <= k < axes ==> #[trigger] a[k] == b[k],
    ensures
        leading_extent(a, axes) == leading_extent(b, axes),
    decreases axes,
{
    if axes > 0 {
        lemma_leading_extent_agrees(a, b, axes - 1);
        assert(a[axes - 1] == b[axes - 1]);
    }
}

/// A leading axis multiplies every later extent.
proof fn lemma_leading_extent_shifted(a: Seq<usize>, b: Seq<usize>, axes: int)
    requires
        0 <= axes <= b.len(),
        a.len() == b.len() + 1,
        forall|k: int| 0 <= k < b.len() ==> #[trigger] b[k] == a[k + 1],
    ensures
        leading_extent(a, axes + 1) == a[0] * leading_extent(b, axes),
    decreases axes,
{
    if axes == 0 {
        reveal_with_fuel(leading_extent, 2);
        assert(1 * a[0] == a[0] && a[0] * 1 == a[0]);
    } else {
        lemma_leading_extent_shifted(a, b, axes - 1);
        assert(b[axes - 1] == a[axes]);
        let x = a[0] as int;
        let y = leading_extent(b, axes - 1);
        let d = a[axes] as int;
        assert((x * y) * d == x * (y * d)) by (nonlinear_arith);
    }
}

/// Element `n` of a canonical block lies where the factor has it.
pub proof fn lemma_canonical_element(
    block: Block,
    span: Span,
    sector: SectorId,
    side: FactorSide,
    bond: int,
    source_extent: int,
    output_offset: int,
    n: int,
)
    requires
        canonical_block(block, span, sector, side, bond, source_extent, output_offset),
        0 <= n < extent(block.shape@),
        span.offset + extent(span.shape) <= source_extent,
    ensures
        ({
            let leading = match side {
                FactorSide::Left => source_extent,
                FactorSide::Right => bond,
            };
            let source = scatter_source(
                block.shape@,
                bond_axis(block, side),
                side,
                leading,
                span.offset as int,
                n,
            );
            &&& 0 <= source < source_extent * bond
            &&& block.offset + address(block.shape@, block.strides@, n) == output_offset + source
        }),
{
    let shape = block.shape@;
    let strides = block.strides@;
    let rank = span.shape.len() as int;
    let offset = span.offset as int;
    lemma_leading_extent_monotone(shape, 1, rank + 1);
    match side {
        FactorSide::Left => {
            let low = leading_extent(shape, rank);
            assert(leading_extent(shape, rank + 1) == low * bond);
            lemma_leading_extent_agrees(shape, span.shape, rank);
            lemma_leading_extent_monotone(shape, rank, rank + 1);
            assert forall|k: int| 0 <= k < rank implies #[trigger] strides[k] == leading_extent(
                shape,
                k,
            ) by {
                lemma_leading_extent_agrees(shape, span.shape, k);
            }
            lemma_column_major_address(shape, strides, n, rank);
            lemma_quotient_is_division(shape, n, rank);
            lemma_split_bounds(n, low, bond);
            let j = n / low;
            let q = n % low;
            lemma_div_mod_unique(j, bond, 0, j);
            assert(coordinate(shape, n, rank) == j);
            assert(n / (low * bond) == 0) by {
                lemma_div_mod_unique(n, low * bond, 0, n);
            }
            assert(low * 0 == 0);
            assert(side_index(shape, n, rank) == q);
            assert(address(shape, strides, n) == q + j * source_extent);
            assert(j * source_extent == source_extent * j) by (nonlinear_arith);
            assert(0 <= offset + q + source_extent * j < source_extent * bond)
                by (nonlinear_arith)
                requires
                    0 <= offset + q < source_extent,
                    0 <= j,
                    j + 1 <= bond,
            ;
        },
        FactorSide::Right => {
            lemma_leading_extent_shifted(shape, span.shape, rank);
            assert(shape[0] == bond);
            let total = extent(shape);
            assert(total == bond * extent(span.shape));
            assert forall|k: int| 0 <= k < rank + 1 implies #[trigger] strides[k]
                == leading_extent(shape, k) by {
                if k > 0 {
                    lemma_leading_extent_shifted(shape, span.shape, k - 1);
                }
            }
            lemma_column_major_address(shape, strides, n, rank + 1);
            lemma_div_mod_unique(n, total, 0, n);
            assert(address(shape, strides, n) == n);
            lemma_leading_extent_nonnegative(span.shape, rank);
            lemma_split_bounds(n, bond, extent(span.shape));
            let j = n % bond;
            let q = n / bond;
            reveal_with_fuel(leading_extent, 2);
            assert(1 * shape[0] == bond);
            assert(leading_extent(shape, 1) == bond);
            assert(leading_extent(shape, 0) == 1);
            assert(n % 1 == 0);
            assert(1 * q == q);
            assert(side_index(shape, n, 0) == q);
            assert(coordinate(shape, n, 0) == j);
            assert(bond * (offset + q) == bond * offset + bond * q) by (nonlinear_arith);
            assert(factor_layout(rank + 1, 0, side) == FactorSide::Right);
            assert(0 <= j + bond * (offset + q) < source_extent * bond) by (nonlinear_arith)
                requires
                    0 <= j < bond,
                    0 <= offset + q,
                    offset + q + 1 <= source_extent,
            ;
        },
    }
}

/// Every element of a tree in the factor belongs to its canonical block.
pub proof fn lemma_canonical_cover(
    block: Block,
    span: Span,
    sector: SectorId,
    side: FactorSide,
    bond: int,
    source_extent: int,
    output_offset: int,
    q: int,
    j: int,
) -> (n: int)
    requires
        canonical_block(block, span, sector, side, bond, source_extent, output_offset),
        0 <= q < extent(span.shape),
        0 <= j < bond,
    ensures
        0 <= n < extent(block.shape@),
        scatter_source(
            block.shape@,
            bond_axis(block, side),
            side,
            match side {
                FactorSide::Left => source_extent,
                FactorSide::Right => bond,
            },
            span.offset as int,
            n,
        ) == match side {
            FactorSide::Left => span.offset + q + source_extent * j,
            FactorSide::Right => j + bond * (span.offset + q),
        },
{
    let shape = block.shape@;
    let rank = span.shape.len() as int;
    match side {
        FactorSide::Left => {
            let low = leading_extent(shape, rank);
            assert(leading_extent(shape, rank + 1) == low * bond);
            lemma_leading_extent_agrees(shape, span.shape, rank);
            let n = q + low * j;
            lemma_div_mod_unique(n, low, j, q);
            assert(0 <= n < low * bond) by (nonlinear_arith)
                requires
                    n == q + low * j,
                    0 <= q < low,
                    0 <= j,
                    j + 1 <= bond,
            ;
            lemma_quotient_is_division(shape, n, rank);
            lemma_div_mod_unique(j, bond, 0, j);
            lemma_div_mod_unique(n, low * bond, 0, n);
            assert(low * 0 == 0);
            assert(side_index(shape, n, rank) == q);
            assert(coordinate(shape, n, rank) == j);
            n
        },
        FactorSide::Right => {
            lemma_leading_extent_shifted(shape, span.shape, rank);
            assert(shape[0] == bond);
            let n = j + bond * q;
            lemma_div_mod_unique(n, bond, q, j);
            assert(0 <= n < bond * extent(span.shape)) by (nonlinear_arith)
                requires
                    n == j + bond * q,
                    0 <= j < bond,
                    0 <= q,
                    q + 1 <= extent(span.shape),
            ;
            reveal_with_fuel(leading_extent, 2);
            assert(1 * shape[0] == bond);
            assert(leading_extent(shape, 1) == bond);
            assert(leading_extent(shape, 0) == 1);
            assert(n % 1 == 0);
            assert(1 * q == q);
            assert(side_index(shape, n, 0) == q);
            assert(coordinate(shape, n, 0) == j);
            assert(factor_layout(rank + 1, 0, side) == FactorSide::Right);
            n
        },
    }
}

/// Every write stores what `expected` has at its position.
pub open spec fn faithful<D>(writes: Seq<Write<D>>, expected: Seq<D>) -> bool {
    forall|k: int|
        0 <= k < writes.len() ==> 0 <= (#[trigger] writes[k]).0 < expected.len() && writes[k].1
            == expected[writes[k].0]
}

/// Some write goes to this position.
pub open spec fn written<D>(writes: Seq<Write<D>>, position: int) -> bool {
    exists|k: int| 0 <= k < writes.len() && (#[trigger] writes[k]).0 == position
}

proof fn lemma_written_grows<D>(first: Seq<Write<D>>, second: Seq<Write<D>>, position: int)
    requires
        written(first, position) || written(second, position),
    ensures
        written(first + second, position),
{
    if written(first, position) {
        let k = choose|k: int| 0 <= k < first.len() && (#[trigger] first[k]).0 == position;
        assert((first + second)[k] == first[k]);
    } else {
        let k = choose|k: int| 0 <= k < second.len() && (#[trigger] second[k]).0 == position;
        assert((first + second)[first.len() + k] == second[k]);
    }
}

proof fn lemma_faithful_grows<D>(
    first: Seq<Write<D>>,
    second: Seq<Write<D>>,
    expected: Seq<D>,
)
    requires
        faithful(first, expected),
        faithful(second, expected),
    ensures
        faithful(first + second, expected),
{
    assert forall|k: int| 0 <= k < (first + second).len() implies 0 <= (
    #[trigger] (first + second)[k]).0 < expected.len() && (first + second)[k].1
        == expected[(first + second)[k].0] by {
        if k < first.len() {
            assert((first + second)[k] == first[k]);
        } else {
            assert((first + second)[k] == second[k - first.len()]);
        }
    }
}

/// Faithful writes leave the expected value wherever they write.
pub proof fn lemma_faithful_writes<D>(
    data: Seq<D>,
    writes: Seq<Write<D>>,
    expected: Seq<D>,
    position: int,
)
    requires
        data.len() == expected.len(),
        faithful(writes, expected),
        written(writes, position),
    ensures
        apply_writes(data, writes)[position] == expected[position],
    decreases writes.len(),
{
    let k = choose|k: int| 0 <= k < writes.len() && (#[trigger] writes[k]).0 == position;
    let rest = writes.drop_last();
    lemma_writes_len(data, rest);
    assert(writes.last() == writes[writes.len() - 1]);
    if writes.last().0 != position {
        assert(rest[k] == writes[k]);
        assert forall|j: int| 0 <= j < rest.len() implies 0 <= (#[trigger] rest[j]).0
            < expected.len() && rest[j].1 == expected[rest[j].0] by {
            assert(rest[j] == writes[j]);
        }
        lemma_faithful_writes(data, rest, expected, position);
    }
}

/// An index below the stacked extent falls into one of the trees.
proof fn lemma_find_tree(trees: Seq<Span>, count: int, x: int) -> (t: int)
    requires
        0 <= count <= trees.len(),
        0 <= x < stacked_extent(trees, count),
    ensures
        0 <= t < count,
        stacked_extent(trees, t) <= x < stacked_extent(trees, t) + extent(trees[t].shape),
    decreases count,
{
    if x < stacked_extent(trees, count - 1) {
        lemma_find_tree(trees, count - 1, x)
    } else {
        count - 1
    }
}

/// A factor stands in the joined factors behind those before it.
pub proof fn lemma_joined_slice<D>(
    pairs: Seq<FactorPair<D>>,
    side: FactorSide,
    k: int,
    count: int,
    i: int,
)
    requires
        0 <= k < count <= pairs.len(),
        0 <= i < pairs[k].factor(side).len(),
    ensures
        joined(pairs.take(k), side).len() + i < joined(pairs.take(count), side).len(),
        joined(pairs.take(count), side)[joined(pairs.take(k), side).len() + i]
            == pairs[k].factor(side)[i],
    decreases count,
{
    assert(pairs.take(count).drop_last() =~= pairs.take(count - 1));
    assert(pairs.take(count).last() == pairs[count - 1]);
    if k < count - 1 {
        lemma_joined_slice(pairs, side, k, count - 1, i);
    }
}

/// Pairs and matrices name the same sectors in the same order.
pub open spec fn aligned<D>(geometries: Seq<Geometry>, pairs: Seq<FactorPair<D>>) -> bool {
    &&& geometries.len() == pairs.len()
    &&& forall|k: int|
        0 <= k < pairs.len() ==> (#[trigger] pairs[k]).sector == geometries[k].sector
}

proof fn lemma_canonical_aligned<D>(
    blocks: Seq<Block>,
    geometries: Seq<Geometry>,
    pairs: Seq<FactorPair<D>>,
    bonds: Seq<SectorRank>,
    required_len: int,
    side: FactorSide,
    source_trees: FactorSide,
    k: int,
    block: int,
    offset: int,
)
    requires
        0 <= k <= geometries.len(),
        geometries.len() == pairs.len(),
        pairs_canonical(
            blocks,
            None,
            geometries,
            pairs,
            bonds,
            required_len,
            side,
            source_trees,
            k,
            block,
            offset,
        ),
    ensures
        forall|j: int|
            k <= j < pairs.len() ==> (#[trigger] pairs[j]).sector == geometries[j].sector,
    decreases geometries.len() - k,
{
    if k < geometries.len() {
        lemma_canonical_aligned(
            blocks,
            geometries,
            pairs,
            bonds,
            required_len,
            side,
            source_trees,
            k + 1,
            next_block(block, geometries[k], source_trees, bonds[k].kept as int),
            offset + pairs[k].factor(side).len(),
        );
    }
}

proof fn lemma_last_pair_aligned<D>(
    geometries: Seq<Geometry>,
    pairs: Seq<FactorPair<D>>,
    k: int,
    count: int,
)
    requires
        aligned(geometries, pairs),
        sectors_distinct(geometries),
        0 <= k < count <= pairs.len(),
    ensures
        last_pair(pairs, geometries[k].sector, count) == Some(k),
    decreases count,
{
    if k < count - 1 {
        assert(pairs[count - 1].sector == geometries[count - 1].sector);
        assert(geometries[k].sector != geometries[count - 1].sector);
        lemma_last_pair_aligned(geometries, pairs, k, count - 1);
    } else {
        assert(pairs[k].sector == geometries[k].sector);
    }
}

/// The position in a factor of the element with side index `x` and bond index
/// `j`.
spec fn factor_element(side: FactorSide, source_extent: int, bond: int, x: int, j: int) -> int {
    match side {
        FactorSide::Left => x + source_extent * j,
        FactorSide::Right => j + bond * x,
    }
}

/// What a publication is made from.
struct Output<D> {
    blocks: Seq<Block>,
    geometries: Seq<Geometry>,
    pairs: Seq<FactorPair<D>>,
    dimensions: Seq<SectorRank>,
    side: FactorSide,
    source_trees: FactorSide,
    one: D,
}

impl<D> Output<D> {
    /// The publication of the first `count` blocks.
    spec fn published(self, count: int) -> Result<Publication<D>, OperationError> {
        publish_blocks(
            self.blocks,
            self.geometries,
            self.pairs,
            self.dimensions,
            self.side,
            self.source_trees,
            self.one,
            count,
        )
    }

    /// The writes of the first `count` blocks.
    spec fn writes(self, count: int) -> Seq<Write<D>> {
        self.published(count)->Ok_0.writes
    }

    /// The publication of the first `count` blocks succeeds and writes only
    /// what the joined factors have.
    spec fn faithful_to(self, count: int) -> bool {
        &&& self.published(count) is Ok
        &&& faithful(self.writes(count), joined(self.pairs, self.side))
    }

    /// Sectors and trees are all distinct, and the pairs follow the matrices.
    spec fn regular(self) -> bool {
        &&& aligned(self.geometries, self.pairs)
        &&& sectors_distinct(self.geometries)
        &&& forall|j: int|
            0 <= j < self.geometries.len() ==> trees_distinct(
                (#[trigger] self.geometries[j]).trees(self.source_trees),
            )
    }

    spec fn trees(self, k: int) -> Seq<Span> {
        self.geometries[k].trees(self.source_trees)
    }

    spec fn source_extent(self, k: int) -> int {
        self.geometries[k].side_extent(self.source_trees) as int
    }

    /// Sector `k` is canonical from block `first` and position `offset` on.
    spec fn sector_at(self, k: int, first: int, offset: int, bond: int) -> bool {
        &&& 0 <= k < self.geometries.len()
        &&& 0 <= first
        &&& offset == joined(self.pairs.take(k), self.side).len()
        &&& sector_canonical(
            self.blocks,
            first,
            offset,
            self.geometries[k],
            self.source_trees,
            self.pairs[k].factor(self.side).len() as int,
            self.pairs[k].leading(self.side) as int,
            bond,
            self.side,
            None,
        )
    }

    /// Position in the output of one element of tree `t` of sector `k`.
    spec fn element(self, k: int, offset: int, bond: int, t: int, q: int, j: int) -> int {
        offset + factor_element(
            self.side,
            self.source_extent(k),
            bond,
            stacked_extent(self.trees(k), t) + q,
            j,
        )
    }

    /// All elements of tree `t` are written.
    spec fn tree_written(
        self,
        writes: Seq<Write<D>>,
        k: int,
        offset: int,
        bond: int,
        t: int,
    ) -> bool {
        forall|q: int, j: int|
            0 <= q < extent(self.trees(k)[t].shape) && 0 <= j < bond ==> written(
                writes,
                #[trigger] self.element(k, offset, bond, t, q, j),
            )
    }

    /// The writes of one block of a canonical sector.
    spec fn block_writes(self, k: int, first: int, t: int) -> Seq<Write<D>> {
        block_scatter(
            self.blocks[first + t],
            self.side,
            self.pairs[k].factor(self.side),
            self.pairs[k].leading(self.side) as int,
            self.trees(k)[t].offset as int,
        )
    }

    /// A block of a canonical sector is published from its own tree.
    proof fn lemma_block_step(self, k: int, first: int, offset: int, bond: int, t: int)
        requires
            self.regular(),
            self.sector_at(k, first, offset, bond),
            0 < bond,
            0 <= t < self.trees(k).len(),
            self.published(first + t) is Ok,
        ensures
            self.published(first + t + 1) is Ok,
            self.writes(first + t + 1) == self.writes(first + t) + self.block_writes(k, first, t),
    {
        let trees = self.trees(k);
        let span = trees[t];
        let sector = self.geometries[k].sector;
        assert(canonical_block(
            self.blocks[first + t],
            span,
            sector,
            self.side,
            bond,
            self.source_extent(k),
            offset,
        ));
        lemma_sector_position(self.geometries, sector, 0);
        let at = sector_position(self.geometries, sector, 0)->0;
        assert(at == k) by {
            if at < k {
                assert(self.geometries[at].sector != self.geometries[k].sector);
            }
        }
        lemma_last_pair_aligned(self.geometries, self.pairs, k, self.pairs.len() as int);
        lemma_span_position(trees, span.tree, 0);
        let found = span_position(trees, span.tree, 0)->0;
        assert(trees_distinct(self.geometries[k].trees(self.source_trees)));
        assert(found == t) by {
            if found < t {
                assert(trees[found].tree != trees[t].tree);
            }
        }
        assert(placement_of(self.geometries, sector, self.source_trees, span.tree) == Some(span));
    }

    /// The writes of a block of a canonical sector store the factor's elements.
    proof fn lemma_block_faithful(self, k: int, first: int, offset: int, bond: int, t: int)
        requires
            self.regular(),
            self.sector_at(k, first, offset, bond),
            0 < bond,
            0 <= t < self.trees(k).len(),
        ensures
            faithful(self.block_writes(k, first, t), joined(self.pairs, self.side)),
            self.tree_written(self.block_writes(k, first, t), k, offset, bond, t),
    {
        let trees = self.trees(k);
        let span = trees[t];
        let sector = self.geometries[k].sector;
        let block = self.blocks[first + t];
        let source_extent = self.source_extent(k);
        let all = joined(self.pairs, self.side);
        let writes = self.block_writes(k, first, t);
        let leading = self.pairs[k].leading(self.side) as int;
        assert(canonical_block(block, span, sector, self.side, bond, source_extent, offset));
        lemma_stacked_extent_monotone(trees, t + 1, trees.len() as int);
        lemma_leading_extent_nonnegative(block.shape@, block.shape@.len() as int);
        assert(self.pairs.take(self.pairs.len() as int) =~= self.pairs);
        assert forall|n: int| 0 <= n < writes.len() implies 0 <= (#[trigger] writes[n]).0
            < all.len() && writes[n].1 == all[writes[n].0] by {
            lemma_canonical_element(
                block,
                span,
                sector,
                self.side,
                bond,
                source_extent,
                offset,
                n,
            );
            let source = scatter_source(
                block.shape@,
                bond_axis(block, self.side),
                self.side,
                leading,
                span.offset as int,
                n,
            );
            lemma_joined_slice(self.pairs, self.side, k, self.pairs.len() as int, source);
        }
        assert forall|q: int, j: int|
            0 <= q < extent(trees[t].shape) && 0 <= j < bond implies written(
            writes,
            #[trigger] self.element(k, offset, bond, t, q, j),
        ) by {
            let n = lemma_canonical_cover(
                block,
                span,
                sector,
                self.side,
                bond,
                source_extent,
                offset,
                q,
                j,
            );
            lemma_canonical_element(
                block,
                span,
                sector,
                self.side,
                bond,
                source_extent,
                offset,
                n,
            );
            assert(writes[n].0 == self.element(k, offset, bond, t, q, j));
        }
    }

    /// The first `count` blocks of a canonical sector write their trees'
    /// elements of the factor, and all of them.
    proof fn lemma_sector_published(
        self,
        k: int,
        first: int,
        offset: int,
        bond: int,
        count: int,
    )
        requires
            self.regular(),
            self.sector_at(k, first, offset, bond),
            0 < bond,
            0 <= count <= self.trees(k).len(),
            self.faithful_to(first),
        ensures
            self.faithful_to(first + count),
            forall|p: int|
                written(self.writes(first), p) ==> #[trigger] written(
                    self.writes(first + count),
                    p,
                ),
            forall|t: int|
                0 <= t < count ==> #[trigger] self.tree_written(
                    self.writes(first + count),
                    k,
                    offset,
                    bond,
                    t,
                ),
        decreases count,
    {
        if count > 0 {
            let t = count - 1;
            self.lemma_sector_published(k, first, offset, bond, t);
            self.lemma_block_step(k, first, offset, bond, t);
            self.lemma_block_faithful(k, first, offset, bond, t);
            let before = self.writes(first + t);
            let writes = self.block_writes(k, first, t);
            let after = self.writes(first + count);
            lemma_faithful_grows(before, writes, joined(self.pairs, self.side));
            assert forall|p: int| written(self.writes(first), p) implies #[trigger] written(
                after,
                p,
            ) by {
                assert(written(before, p));
                lemma_written_grows(before, writes, p);
            }
            assert forall|u: int| 0 <= u < count implies #[trigger] self.tree_written(
                after,
                k,
                offset,
                bond,
                u,
            ) by {
                if u < t {
                    assert(self.tree_written(before, k, offset, bond, u));
                }
                assert forall|q: int, j: int|
                    0 <= q < extent(self.trees(k)[u].shape) && 0 <= j < bond implies written(
                    after,
                    #[trigger] self.element(k, offset, bond, u, q, j),
                ) by {
                    lemma_written_grows(
                        before,
                        writes,
                        self.element(k, offset, bond, u, q, j),
                    );
                }
            }
        }
    }

    /// Every position of a canonical sector's factor belongs to a tree.
    proof fn lemma_sector_covered(
        self,
        k: int,
        first: int,
        offset: int,
        bond: int,
        writes: Seq<Write<D>>,
        p: int,
    )
        requires
            self.sector_at(k, first, offset, bond),
            0 < bond,
            forall|t: int|
                0 <= t < self.trees(k).len() ==> #[trigger] self.tree_written(
                    writes,
                    k,
                    offset,
                    bond,
                    t,
                ),
            offset <= p < offset + self.pairs[k].factor(self.side).len(),
        ensures
            written(writes, p),
    {
        let trees = self.trees(k);
        let source_extent = self.source_extent(k);
        let i = p - offset;
        let x = match self.side {
            FactorSide::Left => i % source_extent,
            FactorSide::Right => i / bond,
        };
        let j = match self.side {
            FactorSide::Left => i / source_extent,
            FactorSide::Right => i % bond,
        };
        match self.side {
            FactorSide::Left => {
                lemma_split_bounds(i, source_extent, bond);
            },
            FactorSide::Right => {
                assert(source_extent * bond == bond * source_extent) by (nonlinear_arith);
                lemma_split_bounds(i, bond, source_extent);
            },
        }
        let t = lemma_find_tree(trees, trees.len() as int, x);
        let q = x - stacked_extent(trees, t);
        assert(self.element(k, offset, bond, t, q, j) == p);
        assert(self.tree_written(writes, k, offset, bond, t));
    }

    /// From sector `k` on, a canonical output is written faithfully and
    /// completely.
    proof fn lemma_published_from(self, required_len: int, k: int, block: int, offset: int)
        requires
            self.regular(),
            0 <= k <= self.geometries.len(),
            0 <= block,
            pairs_canonical(
                self.blocks,
                None,
                self.geometries,
                self.pairs,
                self.dimensions,
                required_len,
                self.side,
                self.source_trees,
                k,
                block,
                offset,
            ),
            offset == joined(self.pairs.take(k), self.side).len(),
            self.faithful_to(block),
            forall|p: int| 0 <= p < offset ==> #[trigger] written(self.writes(block), p),
        ensures
            self.faithful_to(self.blocks.len() as int),
            joined(self.pairs, self.side).len() == required_len,
            forall|p: int|
                0 <= p < required_len ==> #[trigger] written(
                    self.writes(self.blocks.len() as int),
                    p,
                ),
        decreases self.geometries.len() - k,
    {
        if k == self.geometries.len() {
            assert(self.pairs.take(k) =~= self.pairs);
        } else {
            let bond = self.dimensions[k].kept as int;
            let factor_len = self.pairs[k].factor(self.side).len() as int;
            let next = next_block(block, self.geometries[k], self.source_trees, bond);
            assert(self.pairs.take(k + 1).drop_last() =~= self.pairs.take(k));
            assert(self.pairs.take(k + 1).last() == self.pairs[k]);
            assert(self.sector_at(k, block, offset, bond));
            if bond == 0 {
                assert(self.source_extent(k) * 0 == 0);
            } else {
                self.lemma_sector_published(
                    k,
                    block,
                    offset,
                    bond,
                    self.trees(k).len() as int,
                );
                assert forall|p: int| 0 <= p < offset + factor_len implies #[trigger] written(
                    self.writes(next),
                    p,
                ) by {
                    if p >= offset {
                        self.lemma_sector_covered(
                            k,
                            block,
                            offset,
                            bond,
                            self.writes(next),
                            p,
                        );
                    } else {
                        assert(written(self.writes(block), p));
                    }
                }
            }
            self.lemma_published_from(required_len, k + 1, next, offset + factor_len);
        }
    }
}

/// Where an output has the canonical layout of its factors, scattering the
/// factors into a zero output succeeds and leaves the joined factors: moving
/// them there gives the same data.
pub proof fn lemma_canonical_publication_is_scatter<D>(
    blocks: Seq<Block>,
    geometries: Seq<Geometry>,
    pairs: Seq<FactorPair<D>>,
    dimensions: Seq<SectorRank>,
    required_len: int,
    side: FactorSide,
    source_trees: FactorSide,
    zero: D,
    one: D,
)
    requires
        sectors_distinct(geometries),
        forall|k: int|
            0 <= k < geometries.len() ==> trees_distinct(
                (#[trigger] geometries[k]).trees(source_trees),
            ),
        one_sided_output_canonical(
            blocks,
            geometries,
            pairs,
            dimensions,
            required_len,
            side,
            source_trees,
        ),
    ensures
        ({
            let publication = publish_blocks(
                blocks,
                geometries,
                pairs,
                dimensions,
                side,
                source_trees,
                one,
                blocks.len() as int,
            );
            &&& publication is Ok
            &&& apply_writes(zeros(zero, required_len), publication->Ok_0.writes) == joined(
                pairs,
                side,
            )
        }),
{
    lemma_canonical_aligned(
        blocks,
        geometries,
        pairs,
        dimensions,
        required_len,
        side,
        source_trees,
        0,
        0,
        0,
    );
    let output = Output { blocks, geometries, pairs, dimensions, side, source_trees, one };
    assert(pairs.take(0) =~= Seq::empty());
    output.lemma_published_from(required_len, 0, 0, 0);
    let writes = output.writes(blocks.len() as int);
    let data = zeros(zero, required_len);
    let all = joined(pairs, side);
    lemma_writes_len(data, writes);
    assert forall|p: int| 0 <= p < all.len() implies apply_writes(data, writes)[p] == all[p] by {
        assert(written(writes, p));
        lemma_faithful_writes(data, writes, all, p);
    }
    assert(apply_writes(data, writes) =~= all);
}

/// A tree of a sector is placed where it stands.
proof fn lemma_tree_placed(geometries: Seq<Geometry>, k: int, side: FactorSide, t: int)
    requires
        sectors_distinct(geometries),
        0 <= k < geometries.len(),
        trees_distinct(geometries[k].trees(side)),
        0 <= t < geometries[k].trees(side).len(),
    ensures
        placement_of(
            geometries,
            geometries[k].sector,
            side,
            geometries[k].trees(side)[t].tree,
        ) == Some(geometries[k].trees(side)[t]),
{
    let sector = geometries[k].sector;
    let trees = geometries[k].trees(side);
    lemma_sector_position(geometries, sector, 0);
    let at = sector_position(geometries, sector, 0)->0;
    assert(at == k) by {
        if at < k {
            assert(geometries[at].sector != geometries[k].sector);
        }
    }
    lemma_span_position(trees, trees[t].tree, 0);
    let found = span_position(trees, trees[t].tree, 0)->0;
    assert(found == t) by {
        if found < t {
            assert(trees[found].tree != trees[t].tree);
        }
    }
}

impl<D> Output<D> {
    /// The first block of sector `k` in a canonical output.
    spec fn first(self, k: int) -> int
        decreases k,
    {
        if k <= 0 {
            0
        } else {
            next_block(
                self.first(k - 1),
                self.geometries[k - 1],
                self.source_trees,
                self.dimensions[k - 1].kept as int,
            )
        }
    }

    /// Where the factor of sector `k` starts in a canonical output.
    spec fn offset(self, k: int) -> int {
        joined(self.pairs.take(k), self.side).len() as int
    }

    spec fn canonical_from(self, required_len: int, k: int, block: int, offset: int) -> bool {
        pairs_canonical(
            self.blocks,
            None,
            self.geometries,
            self.pairs,
            self.dimensions,
            required_len,
            self.side,
            self.source_trees,
            k,
            block,
            offset,
        )
    }

    proof fn lemma_first_nonnegative(self, k: int)
        ensures
            0 <= self.first(k),
        decreases k,
    {
        if k > 0 {
            self.lemma_first_nonnegative(k - 1);
        }
    }

    /// A canonical output is canonical from every one of its sectors on.
    proof fn lemma_canonical_at(self, required_len: int, k: int)
        requires
            self.regular(),
            self.canonical_from(required_len, 0, 0, 0),
            0 <= k <= self.geometries.len(),
        ensures
            self.canonical_from(required_len, k, self.first(k), self.offset(k)),
            k < self.geometries.len() ==> self.sector_at(
                k,
                self.first(k),
                self.offset(k),
                self.dimensions[k].kept as int,
            ),
        decreases k,
    {
        if k == 0 {
            assert(self.pairs.take(0) =~= Seq::empty());
        } else {
            self.lemma_canonical_at(required_len, k - 1);
            assert(self.pairs.take(k).drop_last() =~= self.pairs.take(k - 1));
            assert(self.pairs.take(k).last() == self.pairs[k - 1]);
        }
        self.lemma_first_nonnegative(k);
    }

    /// Every block of a canonical output belongs to one of its sectors.
    proof fn lemma_block_belongs(self, i: int, count: int) -> (k: int)
        requires
            0 <= count <= self.geometries.len(),
            0 <= i < self.first(count),
        ensures
            0 <= k < count,
            self.first(k) <= i < self.first(k + 1),
        decreases count,
    {
        if i < self.first(count - 1) {
            self.lemma_block_belongs(i, count - 1)
        } else {
            count - 1
        }
    }

    /// The blocks of one sector, as they are grouped.
    spec fn group(self, k: int) -> Seq<usize> {
        sector_blocks(
            self.blocks,
            self.side,
            self.geometries[k].sector,
            self.blocks.len() as int,
        )
    }

    /// The scatter of sector `k` over the first `count` blocks of its group.
    spec fn scatter(self, k: int, count: int) -> Scatter<D> {
        sector_scatter(
            self.blocks,
            self.group(k),
            self.geometries,
            self.geometries[k].sector,
            self.side,
            self.pairs[k].factor(self.side),
            self.pairs[k].leading(self.side) as int,
            count,
        )
    }

    /// A grouped block is one of the blocks that a canonical sector has.
    proof fn lemma_group_is_range(self, required_len: int, k: int, j: int)
        requires
            self.regular(),
            self.canonical_from(required_len, 0, 0, 0),
            self.blocks.len() <= usize::MAX,
            0 <= k < self.geometries.len(),
            0 <= j < self.group(k).len(),
        ensures
            0 < self.dimensions[k].kept,
            self.first(k) <= self.group(k)[j] < self.first(k) + self.trees(k).len(),
    {
        let sector = self.geometries[k].sector;
        let i = self.group(k)[j] as int;
        let len = self.geometries.len() as int;
        lemma_sector_blocks(self.blocks, self.side, sector, self.blocks.len() as int);
        assert(self.group(k)[j] < self.blocks.len());
        self.lemma_canonical_at(required_len, len);
        let owner = self.lemma_block_belongs(i, len);
        self.lemma_canonical_at(required_len, owner);
        let bond = self.dimensions[owner].kept as int;
        assert(bond != 0);
        let t = i - self.first(owner);
        assert(canonical_block(
            self.blocks[self.first(owner) + t],
            self.trees(owner)[t],
            self.geometries[owner].sector,
            self.side,
            bond,
            self.source_extent(owner),
            self.offset(owner),
        ));
        assert(self.geometries[owner].sector == sector);
        if owner < k {
            assert(self.geometries[owner].sector != self.geometries[k].sector);
        } else if k < owner {
            assert(self.geometries[k].sector != self.geometries[owner].sector);
        }
    }

    /// A grouped block has its place where its tree stands in the sector.
    proof fn lemma_group_placed(self, required_len: int, k: int, j: int)
        requires
            self.regular(),
            self.source_trees == self.side,
            self.canonical_from(required_len, 0, 0, 0),
            self.blocks.len() <= usize::MAX,
            0 <= k < self.geometries.len(),
            0 <= j < self.group(k).len(),
        ensures
            ({
                let i = self.group(k)[j] as int;
                let span = self.trees(k)[i - self.first(k)];
                &&& canonical_block(
                    self.blocks[i],
                    span,
                    self.geometries[k].sector,
                    self.side,
                    self.dimensions[k].kept as int,
                    self.source_extent(k),
                    self.offset(k),
                )
                &&& placement_of(
                    self.geometries,
                    self.geometries[k].sector,
                    self.side,
                    span.tree,
                ) == Some(span)
            }),
    {
        self.lemma_group_is_range(required_len, k, j);
        self.lemma_canonical_at(required_len, k);
        let t = self.group(k)[j] - self.first(k);
        let trees = self.trees(k);
        let span = trees[t];
        let sector = self.geometries[k].sector;
        assert(canonical_block(
            self.blocks[self.first(k) + t],
            span,
            sector,
            self.side,
            self.dimensions[k].kept as int,
            self.source_extent(k),
            self.offset(k),
        ));
        assert(trees_distinct(self.geometries[k].trees(self.source_trees)));
        lemma_tree_placed(self.geometries, k, self.side, t);
    }

    /// Scattering a canonical sector writes its factor's elements, and writes
    /// all elements of every block it has come to.
    #[verifier::rlimit(60)]
    #[verifier::spinoff_prover]
    proof fn lemma_scatter_faithful(self, required_len: int, k: int, count: int)
        requires
            self.regular(),
            self.source_trees == self.side,
            self.canonical_from(required_len, 0, 0, 0),
            self.blocks.len() <= usize::MAX,
            0 <= k < self.geometries.len(),
            0 <= count <= self.group(k).len(),
        ensures
            self.scatter(k, count).error is None,
            faithful(self.scatter(k, count).writes, joined(self.pairs, self.side)),
            forall|j: int, p: int|
                #![trigger self.group(k)[j], written(self.scatter(k, count).writes, p)]
                0 <= j < count && written(
                    self.block_writes(k, self.first(k), self.group(k)[j] - self.first(k)),
                    p,
                ) ==> written(self.scatter(k, count).writes, p),
        decreases count,
    {
        if count > 0 {
            self.lemma_scatter_faithful(required_len, k, count - 1);
            self.lemma_group_is_range(required_len, k, count - 1);
            self.lemma_canonical_at(required_len, k);
            let bond = self.dimensions[k].kept as int;
            let i = self.group(k)[count - 1] as int;
            let t = i - self.first(k);
            self.lemma_group_placed(required_len, k, count - 1);
            let before = self.scatter(k, count - 1).writes;
            let more = self.block_writes(k, self.first(k), t);
            let after = self.scatter(k, count).writes;
            assert(after == before + more);
            self.lemma_block_faithful(k, self.first(k), self.offset(k), bond, t);
            lemma_faithful_grows(before, more, joined(self.pairs, self.side));
            assert forall|j: int, p: int|
                #![trigger self.group(k)[j], written(after, p)]
                0 <= j < count && written(
                    self.block_writes(k, self.first(k), self.group(k)[j] - self.first(k)),
                    p,
                ) implies written(after, p) by {
                if j < count - 1 {
                    assert(self.group(k)[j] == self.group(k)[j]);
                    assert(written(before, p));
                }
                lemma_written_grows(before, more, p);
            }
        }
    }

    /// Scattering a canonical sector writes all of its factor.
    proof fn lemma_scatter_complete(self, required_len: int, k: int, p: int)
        requires
            self.regular(),
            self.source_trees == self.side,
            self.canonical_from(required_len, 0, 0, 0),
            self.blocks.len() <= usize::MAX,
            0 <= k < self.geometries.len(),
            self.offset(k) <= p < self.offset(k) + self.pairs[k].factor(self.side).len(),
        ensures
            written(self.scatter(k, self.group(k).len() as int).writes, p),
    {
        let count = self.group(k).len() as int;
        let bond = self.dimensions[k].kept as int;
        let first = self.first(k);
        self.lemma_canonical_at(required_len, k);
        self.lemma_scatter_faithful(required_len, k, count);
        if bond == 0 {
            assert(self.source_extent(k) * 0 == 0);
        }
        let writes = self.scatter(k, count).writes;
        assert forall|t: int| 0 <= t < self.trees(k).len() implies #[trigger] self.tree_written(
            writes,
            k,
            self.offset(k),
            bond,
            t,
        ) by {
            assert(canonical_block(
                self.blocks[first + t],
                self.trees(k)[t],
                self.geometries[k].sector,
                self.side,
                bond,
                self.source_extent(k),
                self.offset(k),
            ));
            let j = lemma_group_has(
                self.blocks,
                self.side,
                self.geometries[k].sector,
                first + t,
                self.blocks.len() as int,
            );
            assert(self.group(k)[j] == first + t);
            self.lemma_block_faithful(k, first, self.offset(k), bond, t);
            let own = self.block_writes(k, first, t);
            assert forall|q: int, i: int|
                0 <= q < extent(self.trees(k)[t].shape) && 0 <= i < bond implies written(
                writes,
                #[trigger] self.element(k, self.offset(k), bond, t, q, i),
            ) by {
                assert(written(own, self.element(k, self.offset(k), bond, t, q, i)));
            }
        }
        self.lemma_sector_covered(k, first, self.offset(k), bond, writes, p);
    }
}

/// A block of a sector is in the sector's group.
proof fn lemma_group_has(
    blocks: Seq<Block>,
    side: FactorSide,
    sector: SectorId,
    i: int,
    count: int,
) -> (j: int)
    requires
        0 <= i < count <= blocks.len(),
        blocks.len() <= usize::MAX,
        block_sector(blocks[i], side) == Some(sector),
    ensures
        0 <= j < sector_blocks(blocks, side, sector, count).len(),
        sector_blocks(blocks, side, sector, count)[j] == i,
    decreases count,
{
    let before = sector_blocks(blocks, side, sector, count - 1);
    if i == count - 1 {
        before.len() as int
    } else {
        lemma_group_has(blocks, side, sector, i, count - 1)
    }
}

/// The writes of one side of the first `count` pairs, sector by sector.
pub open spec fn side_scatter<D>(
    blocks: Seq<Block>,
    geometries: Seq<Geometry>,
    pairs: Seq<FactorPair<D>>,
    side: FactorSide,
    count: int,
) -> Seq<Write<D>>
    decreases count,
{
    if count <= 0 {
        Seq::empty()
    } else {
        side_scatter(blocks, geometries, pairs, side, count - 1) + whole_sector_scatter(
            blocks,
            geometries,
            geometries[count - 1].sector,
            side,
            pairs[count - 1].factor(side),
            pairs[count - 1].leading(side) as int,
        ).writes
    }
}

impl<D> Output<D> {
    /// Scattering the first `count` canonical sectors one after the other
    /// writes their factors, and all of them.
    proof fn lemma_side_scatter(self, required_len: int, count: int)
        requires
            self.regular(),
            self.source_trees == self.side,
            self.canonical_from(required_len, 0, 0, 0),
            self.blocks.len() <= usize::MAX,
            0 <= count <= self.geometries.len(),
        ensures
            faithful(
                side_scatter(self.blocks, self.geometries, self.pairs, self.side, count),
                joined(self.pairs, self.side),
            ),
            forall|p: int|
                0 <= p < self.offset(count) ==> #[trigger] written(
                    side_scatter(self.blocks, self.geometries, self.pairs, self.side, count),
                    p,
                ),
            forall|k: int|
                0 <= k < count ==> (#[trigger] whole_sector_scatter(
                    self.blocks,
                    self.geometries,
                    self.geometries[k].sector,
                    self.side,
                    self.pairs[k].factor(self.side),
                    self.pairs[k].leading(self.side) as int,
                )).error is None,
        decreases count,
    {
        if count == 0 {
            assert(self.pairs.take(0) =~= Seq::empty());
        } else {
            let k = count - 1;
            self.lemma_side_scatter(required_len, k);
            let group = self.group(k).len() as int;
            self.lemma_scatter_faithful(required_len, k, group);
            let before = side_scatter(
                self.blocks,
                self.geometries,
                self.pairs,
                self.side,
                k,
            );
            let more = self.scatter(k, group).writes;
            lemma_faithful_grows(before, more, joined(self.pairs, self.side));
            assert(self.pairs.take(count).drop_last() =~= self.pairs.take(k));
            assert(self.pairs.take(count).last() == self.pairs[k]);
            assert forall|p: int| 0 <= p < self.offset(count) implies #[trigger] written(
                side_scatter(self.blocks, self.geometries, self.pairs, self.side, count),
                p,
            ) by {
                if p >= self.offset(k) {
                    self.lemma_scatter_complete(required_len, k, p);
                } else {
                    assert(written(before, p));
                }
                lemma_written_grows(before, more, p);
            }
        }
    }
}

/// Comparing with a key list only makes fewer outputs canonical.
proof fn lemma_canonical_without_keys<D>(
    blocks: Seq<Block>,
    keys: Option<Seq<TreePair>>,
    geometries: Seq<Geometry>,
    pairs: Seq<FactorPair<D>>,
    bonds: Seq<SectorRank>,
    required_len: int,
    side: FactorSide,
    source_trees: FactorSide,
    k: int,
    block: int,
    offset: int,
)
    requires
        pairs_canonical(
            blocks,
            keys,
            geometries,
            pairs,
            bonds,
            required_len,
            side,
            source_trees,
            k,
            block,
            offset,
        ),
    ensures
        pairs_canonical(
            blocks,
            None,
            geometries,
            pairs,
            bonds,
            required_len,
            side,
            source_trees,
            k,
            block,
            offset,
        ),
    decreases geometries.len() - k,
{
    if 0 <= k < geometries.len() {
        lemma_canonical_without_keys(
            blocks,
            keys,
            geometries,
            pairs,
            bonds,
            required_len,
            side,
            source_trees,
            k + 1,
            next_block(block, geometries[k], source_trees, bonds[k].kept as int),
            offset + pairs[k].factor(side).len(),
        );
    }
}

/// Where an output of a pair has the canonical layout of its factors,
/// scattering the factors sector by sector leaves the joined factors.
pub proof fn lemma_canonical_side_is_scatter<D>(
    blocks: Seq<Block>,
    keys: Option<Seq<TreePair>>,
    geometries: Seq<Geometry>,
    pairs: Seq<FactorPair<D>>,
    required_len: int,
    side: FactorSide,
    zero: D,
)
    requires
        sectors_distinct(geometries),
        forall|k: int|
            0 <= k < geometries.len() ==> trees_distinct((#[trigger] geometries[k]).trees(side)),
        blocks.len() <= usize::MAX,
        pair_output_canonical(blocks, keys, geometries, pairs, required_len, side),
    ensures
        apply_writes(
            zeros(zero, required_len),
            side_scatter(blocks, geometries, pairs, side, pairs.len() as int),
        ) == joined(pairs, side),
        forall|k: int|
            0 <= k < pairs.len() ==> (#[trigger] whole_sector_scatter(
                blocks,
                geometries,
                geometries[k].sector,
                side,
                pairs[k].factor(side),
                pairs[k].leading(side) as int,
            )).error is None,
{
    let bonds = pair_ranks(pairs);
    lemma_canonical_without_keys(
        blocks,
        keys,
        geometries,
        pairs,
        bonds,
        required_len,
        side,
        side,
        0,
        0,
        0,
    );
    lemma_canonical_aligned(
        blocks,
        geometries,
        pairs,
        bonds,
        required_len,
        side,
        side,
        0,
        0,
        0,
    );
    let output = Output {
        blocks,
        geometries,
        pairs,
        dimensions: bonds,
        side,
        source_trees: side,
        one: zero,
    };
    let count = pairs.len() as int;
    output.lemma_side_scatter(required_len, count);
    output.lemma_canonical_at(required_len, count);
    assert(pairs.take(count) =~= pairs);
    let writes = side_scatter(blocks, geometries, pairs, side, count);
    let data = zeros(zero, required_len);
    let all = joined(pairs, side);
    lemma_writes_len(data, writes);
    assert forall|p: int| 0 <= p < all.len() implies apply_writes(data, writes)[p] == all[p] by {
        assert(written(writes, p));
        lemma_faithful_writes(data, writes, all, p);
    }
    assert(apply_writes(data, writes) =~= all);
}

proof fn lemma_scatter_pairs_sides<D>(
    left_blocks: Seq<Block>,
    right_blocks: Seq<Block>,
    geometries: Seq<Geometry>,
    pairs: Seq<FactorPair<D>>,
    count: int,
)
    requires
        0 <= count <= pairs.len(),
        forall|k: int|
            0 <= k < pairs.len() ==> (#[trigger] whole_sector_scatter(
                left_blocks,
                geometries,
                geometries[k].sector,
                FactorSide::Left,
                pairs[k].factor(FactorSide::Left),
                pairs[k].leading(FactorSide::Left) as int,
            )).error is None,
        forall|k: int|
            0 <= k < pairs.len() ==> (#[trigger] whole_sector_scatter(
                right_blocks,
                geometries,
                geometries[k].sector,
                FactorSide::Right,
                pairs[k].factor(FactorSide::Right),
                pairs[k].leading(FactorSide::Right) as int,
            )).error is None,
    ensures
        scatter_pairs(left_blocks, right_blocks, geometries, pairs, count) == Ok::<
            PairWrites<D>,
            OperationError,
        >(
            PairWrites {
                left: side_scatter(left_blocks, geometries, pairs, FactorSide::Left, count),
                right: side_scatter(right_blocks, geometries, pairs, FactorSide::Right, count),
            },
        ),
    decreases count,
{
    if count > 0 {
        lemma_scatter_pairs_sides(left_blocks, right_blocks, geometries, pairs, count - 1);
        let k = count - 1;
        assert(whole_sector_scatter(
            left_blocks,
            geometries,
            geometries[k].sector,
            FactorSide::Left,
            pairs[k].factor(FactorSide::Left),
            pairs[k].leading(FactorSide::Left) as int,
        ).error is None);
        assert(whole_sector_scatter(
            right_blocks,
            geometries,
            geometries[k].sector,
            FactorSide::Right,
            pairs[k].factor(FactorSide::Right),
            pairs[k].leading(FactorSide::Right) as int,
        ).error is None);
    }
}

/// Publishing both factors gives the same data whether they are moved or
/// scattered: where both outputs have the canonical layout of their factors,
/// the scatter succeeds and leaves the joined factors on both sides.
pub proof fn lemma_canonical_pair_is_scatter<D>(
    left_structure: BlockStructure,
    left_keys: Option<Seq<TreePair>>,
    right_structure: BlockStructure,
    right_keys: Option<Seq<TreePair>>,
    geometries: Seq<Geometry>,
    pairs: Seq<FactorPair<D>>,
    zero: D,
)
    requires
        sectors_distinct(geometries),
        forall|k: int|
            0 <= k < geometries.len() ==> trees_distinct((#[trigger] geometries[k]).row_trees)
                && trees_distinct(geometries[k].col_trees),
        left_structure.spec_blocks().len() <= usize::MAX,
        right_structure.spec_blocks().len() <= usize::MAX,
        pair_output_canonical(
            left_structure.spec_blocks(),
            left_keys,
            geometries,
            pairs,
            left_structure.spec_len() as int,
            FactorSide::Left,
        ),
        pair_output_canonical(
            right_structure.spec_blocks(),
            right_keys,
            geometries,
            pairs,
            right_structure.spec_len() as int,
            FactorSide::Right,
        ),
    ensures
        ({
            let scatter = scatter_pairs(
                left_structure.spec_blocks(),
                right_structure.spec_blocks(),
                geometries,
                pairs,
                pairs.len() as int,
            );
            &&& scatter is Ok
            &&& apply_writes(
                zeros(zero, left_structure.spec_len() as int),
                scatter->Ok_0.left,
            ) == joined(pairs, FactorSide::Left)
            &&& apply_writes(
                zeros(zero, right_structure.spec_len() as int),
                scatter->Ok_0.right,
            ) == joined(pairs, FactorSide::Right)
        }),
{
    lemma_canonical_side_is_scatter(
        left_structure.spec_blocks(),
        left_keys,
        geometries,
        pairs,
        left_structure.spec_len() as int,
        FactorSide::Left,
        zero,
    );
    lemma_canonical_side_is_scatter(
        right_structure.spec_blocks(),
        right_keys,
        geometries,
        pairs,
        right_structure.spec_len() as int,
        FactorSide::Right,
        zero,
    );
    lemma_scatter_pairs_sides(
        left_structure.spec_blocks(),
        right_structure.spec_blocks(),
        geometries,
        pairs,
        pairs.len() as int,
    );
}

} // verus!
