//! Tests of whether data fits a layout, for callers that have not proved it.

use vstd::prelude::*;

use crate::bond::BondDimensions;
use crate::dense::matrix_fits;
use crate::factor::FactorPair;
use crate::geometry::{geometries, sector_position, sectors_distinct, SectorGeometry};
use crate::index::{
    checked_extent, coordinate, extent, leading_extent, lemma_div_mod_unique, lemma_extent_split,
    lemma_leading_extent_monotone, lemma_leading_extent_nonnegative, lemma_nonempty_dimensions,
    lemma_positive_extent, lemma_quotient_is_division,
};
use crate::layout::{
    factor_layout, factor_position, lemma_side_index, scatter_reads_fit, scatter_source,
    side_extent, side_index, FactorSide,
};
use crate::matricize::indexes_sectors;
use crate::placement::{block_reads_fit, bond_axis, matricization_map};
use crate::publication_walk::{sizes_of, some_placement_is_lacking, walk_publication};
use crate::publish::{both_reads_fit, has_stray_pair, lacks_some_placement, reads_fit};
use crate::structure::{Block, BlockStructure};

verus! {

/// The last element of a block stands at the end of every axis.
pub proof fn lemma_last_coordinate(shape: Seq<usize>, axis: int)
    requires
        0 <= axis < shape.len(),
        extent(shape) > 0,
    ensures
        coordinate(shape, extent(shape) - 1, axis) == shape[axis] - 1,
{
    let low = leading_extent(shape, axis);
    let size = shape[axis] as int;
    let above = extent(shape.skip(axis));
    let high = extent(shape.skip(axis + 1));
    let total = extent(shape);
    lemma_extent_split(shape, axis);
    lemma_extent_split(shape, axis + 1);
    lemma_leading_extent_nonnegative(shape, axis);
    lemma_leading_extent_nonnegative(shape.skip(axis), shape.skip(axis).len() as int);
    lemma_leading_extent_nonnegative(shape.skip(axis + 1), shape.skip(axis + 1).len() as int);
    lemma_nonempty_dimensions(shape, shape.len() as int);
    assert(leading_extent(shape, axis + 1) == low * size);
    assert(low > 0 && above > 0 && high > 0) by (nonlinear_arith)
        requires
            total == low * above,
            total == (low * size) * high,
            total > 0,
            low >= 0,
            above >= 0,
            high >= 0,
            size > 0,
    ;
    assert(above == size * high) by (nonlinear_arith)
        requires
            low * above == (low * size) * high,
            low > 0,
    ;
    lemma_quotient_is_division(shape, total - 1, axis);
    assert(total - 1 == low * (above - 1) + (low - 1)) by (nonlinear_arith)
        requires
            total == low * above,
    ;
    lemma_div_mod_unique(total - 1, low, above - 1, low - 1);
    assert(above - 1 == size * (high - 1) + (size - 1)) by (nonlinear_arith)
        requires
            above == size * high,
    ;
    lemma_div_mod_unique(above - 1, size, high - 1, size - 1);
}

/// The last element of a block stands at the end of its side.
proof fn lemma_last_side_index(shape: Seq<usize>, axis: int)
    requires
        0 <= axis < shape.len(),
        extent(shape) > 0,
    ensures
        side_index(shape, extent(shape) - 1, axis) == side_extent(shape, axis) - 1,
        side_extent(shape, axis) > 0,
{
    let low = leading_extent(shape, axis);
    let size = shape[axis] as int;
    let high = extent(shape.skip(axis + 1));
    let total = extent(shape);
    lemma_extent_split(shape, axis + 1);
    lemma_side_index(shape, total - 1, axis);
    let upto = leading_extent(shape, axis + 1);
    assert(upto == low * size);
    assert(total - 1 == upto * (high - 1) + (upto - 1)) by (nonlinear_arith)
        requires
            total == upto * high,
    ;
    lemma_div_mod_unique(total - 1, upto, high - 1, upto - 1);
    assert(total - 1 == low * (size * high - 1) + (low - 1)) by (nonlinear_arith)
        requires
            total == upto * high,
            upto == low * size,
    ;
    lemma_div_mod_unique(total - 1, low, size * high - 1, low - 1);
    assert(low - 1 + low * (high - 1) == low * high - 1) by (nonlinear_arith);
}

/// The end of a factor that the last element of a block reads.
spec fn read_end(layout: FactorSide, rows: int, side_end: int, bond: int) -> int {
    factor_position(layout, rows, side_end - 1, bond - 1) + 1
}

/// A block is read inside a factor where its last element is.
proof fn lemma_reads_fit(
    shape: Seq<usize>,
    axis: int,
    factor_side: FactorSide,
    rows: int,
    side_offset: int,
    len: int,
)
    requires
        0 <= axis < shape.len(),
        0 <= rows,
        0 <= side_offset,
    ensures
        scatter_reads_fit(shape, axis, factor_side, rows, side_offset, len) <==> (extent(shape) > 0
            ==> read_end(
            factor_layout(shape.len() as int, axis, factor_side),
            rows,
            side_offset + side_extent(shape, axis),
            shape[axis] as int,
        ) <= len),
{
    let layout = factor_layout(shape.len() as int, axis, factor_side);
    let total = extent(shape);
    let end = side_offset + side_extent(shape, axis);
    let bond = shape[axis] as int;
    if total > 0 {
        lemma_last_coordinate(shape, axis);
        lemma_last_side_index(shape, axis);
        let last = scatter_source(shape, axis, factor_side, rows, side_offset, total - 1);
        assert(last == factor_position(layout, rows, end - 1, bond - 1));
        if scatter_reads_fit(shape, axis, factor_side, rows, side_offset, len) {
            assert(last < len);
        }
        if read_end(layout, rows, end, bond) <= len {
            assert forall|n: int| 0 <= n < total implies #[trigger] scatter_source(
                shape,
                axis,
                factor_side,
                rows,
                side_offset,
                n,
            ) < len by {
                lemma_side_index(shape, n, axis);
                crate::index::lemma_coordinate_bounds(shape, n, axis);
                let side = side_offset + side_index(shape, n, axis);
                let at = coordinate(shape, n, axis);
                assert(factor_position(layout, rows, side, at) <= last) by {
                    match layout {
                        FactorSide::Left => {
                            assert(rows * at <= rows * (bond - 1)) by (nonlinear_arith)
                                requires
                                    0 <= rows,
                                    at <= bond - 1,
                            ;
                        },
                        FactorSide::Right => {
                            assert(rows * side <= rows * (end - 1)) by (nonlinear_arith)
                                requires
                                    0 <= rows,
                                    side <= end - 1,
                            ;
                        },
                    }
                }
            }
        }
    }
}

/// The extent of a shape, if it fits.
pub(crate) fn exact_extent(shape: &[usize]) -> (result: Option<usize>)
    ensures
        match result {
            Some(total) => total == extent(shape@),
            None => extent(shape@) > usize::MAX,
        },
{
    let mut axis: usize = 0;
    while axis < shape.len()
        invariant
            axis <= shape@.len(),
            forall|k: int| 0 <= k < axis ==> shape@[k] > 0,
        decreases shape.len() - axis,
    {
        if shape[axis] == 0 {
            proof {
                lemma_leading_extent_nonnegative(shape@, shape@.len() as int);
                if extent(shape@) > 0 {
                    lemma_nonempty_dimensions(shape@, shape@.len() as int);
                }
            }
            return Some(0);
        }
        axis += 1;
    }
    let result = checked_extent(shape);
    proof {
        lemma_positive_extent(shape@, shape@.len() as int);
        if result is None {
            let axes = choose|axes: int|
                0 <= axes <= shape@.len() && #[trigger] leading_extent(shape@, axes) > usize::MAX;
            lemma_leading_extent_monotone(shape@, axes, shape@.len() as int);
        }
    }
    result
}

/// The extent of a block without one axis, if it fits.
fn exact_side_extent(shape: &[usize], axis: usize) -> (result: Option<usize>)
    requires
        axis < shape@.len(),
    ensures
        match result {
            Some(total) => total == side_extent(shape@, axis as int),
            None => side_extent(shape@, axis as int) > usize::MAX,
        },
{
    let len: usize = shape.len();
    let below = vstd::slice::slice_subrange(shape, 0, axis);
    let above = vstd::slice::slice_subrange(shape, axis + 1, len);
    proof {
        assert(below@ =~= shape@.take(axis as int));
        assert(above@ =~= shape@.skip(axis + 1));
        lemma_extent_split(shape@, axis as int);
        lemma_leading_extent_nonnegative(below@, below@.len() as int);
        lemma_leading_extent_nonnegative(above@, above@.len() as int);
    }
    let low = exact_extent(below);
    let high = exact_extent(above);
    let ghost a = extent(below@);
    let ghost b = extent(above@);
    match (low, high) {
        (Some(low), Some(high)) => {
            let product = low.checked_mul(high);
            product
        },
        (Some(low), None) => {
            if low == 0 {
                assert(0 * b == 0);
                Some(0)
            } else {
                assert(a * b > usize::MAX) by (nonlinear_arith)
                    requires
                        a >= 1,
                        b > usize::MAX,
                ;
                None
            }
        },
        (None, Some(high)) => {
            if high == 0 {
                assert(a * 0 == 0);
                Some(0)
            } else {
                assert(a * b > usize::MAX) by (nonlinear_arith)
                    requires
                        b >= 1,
                        a > usize::MAX,
                ;
                None
            }
        },
        (None, None) => {
            assert(a * b > usize::MAX) by (nonlinear_arith)
                requires
                    a > usize::MAX,
                    b > usize::MAX,
            ;
            None
        },
    }
}

/// Whether a block of an output is filled from inside a factor.
pub fn block_reads_inside(
    block: &Block,
    side: FactorSide,
    leading: usize,
    side_offset: usize,
    len: usize,
) -> (inside: bool)
    ensures
        inside == block_reads_fit(*block, side, leading as int, side_offset as int, len as int),
{
    let shape = block.shape.as_slice();
    let rank: usize = shape.len();
    if rank == 0 {
        proof {
            assert(extent(shape@) == 1);
            assert(scatter_source(
                shape@,
                bond_axis(*block, side),
                side,
                leading as int,
                side_offset as int,
                0,
            ) == side_offset);
        }
        return match side {
            FactorSide::Left => false,
            FactorSide::Right => side_offset < len,
        };
    }
    let axis: usize = match side {
        FactorSide::Left => rank - 1,
        FactorSide::Right => 0,
    };
    let end: usize = match exact_side_extent(shape, axis) {
        Some(extent) => match side_offset.checked_add(extent) {
            Some(end) => end,
            None => {
                return false;
            },
        },
        None => {
            return false;
        },
    };
    let bond: usize = shape[axis];
    proof {
        lemma_reads_fit(
            shape@,
            axis as int,
            side,
            leading as int,
            side_offset as int,
            len as int,
        );
        lemma_leading_extent_nonnegative(shape@, rank as int);
    }
    if bond == 0 || end == side_offset {
        proof {
            if extent(shape@) > 0 {
                lemma_nonempty_dimensions(shape@, rank as int);
                lemma_last_side_index(shape@, axis as int);
            }
        }
        return true;
    }
    proof {
        lemma_extent_split(shape@, axis + 1);
        lemma_leading_extent_nonnegative(shape@, axis as int);
        lemma_leading_extent_nonnegative(
            shape@.skip(axis + 1),
            shape@.skip(axis + 1).len() as int,
        );
        let low = leading_extent(shape@, axis as int);
        let high = extent(shape@.skip(axis + 1));
        assert((low * bond) * high > 0) by (nonlinear_arith)
            requires
                low * high > 0,
                low >= 0,
                high >= 0,
                bond > 0,
        ;
    }
    let (steps, rest): (usize, usize) = match side {
        FactorSide::Left => (bond - 1, end),
        FactorSide::Right => (end - 1, bond),
    };
    match leading.checked_mul(steps) {
        Some(start) => match start.checked_add(rest) {
            Some(last) => last <= len,
            None => false,
        },
        None => {
            assert(leading * steps + rest > usize::MAX);
            false
        },
    }
}

/// Whether a matrix lies inside its buffer.
pub fn matrix_is_inside(rows: usize, cols: usize, leading: usize, len: usize) -> (inside: bool)
    ensures
        inside == matrix_fits(rows as int, cols as int, leading as int, len as int),
{
    if rows == 0 || cols == 0 {
        return true;
    }
    match leading.checked_mul(cols - 1) {
        Some(start) => match start.checked_add(rows) {
            Some(end) => end <= len,
            None => false,
        },
        None => false,
    }
}

/// Whether no sector has two matrices.
pub fn distinct_sectors<M: SectorGeometry>(matricizations: &[M]) -> (distinct: bool)
    ensures
        distinct == sectors_distinct(geometries(matricizations@)),
{
    let ghost all = geometries(matricizations@);
    let mut k: usize = 0;
    while k < matricizations.len()
        invariant
            k <= matricizations@.len(),
            all == geometries(matricizations@),
            forall|i: int, j: int|
                0 <= i < j < k ==> (#[trigger] all[i]).sector != (#[trigger] all[j]).sector,
        decreases matricizations.len() - k,
    {
        let sector = matricizations[k].sector();
        let mut j: usize = 0;
        while j < k
            invariant
                j <= k < matricizations@.len(),
                all == geometries(matricizations@),
                sector == all[k as int].sector,
                forall|i: int| 0 <= i < j ==> (#[trigger] all[i]).sector != sector,
            decreases k - j,
        {
            if matricizations[j].sector() == sector {
                assert(all[j as int].sector == all[k as int].sector);
                return false;
            }
            j += 1;
        }
        k += 1;
    }
    true
}

/// Whether every sector has one matrix, and a factor can be published: some pair
/// has a sector without matrix, which is refused, or every output block up to
/// the first refusal is filled from inside the last factor of its sector.
pub fn reads_are_inside<D, M: SectorGeometry>(
    structure: &BlockStructure,
    matricizations: &[M],
    pairs: &[FactorPair<D>],
    dimensions: &BondDimensions,
    side: FactorSide,
    source_trees: FactorSide,
) -> (inside: bool)
    ensures
        inside == {
            &&& sectors_distinct(geometries(matricizations@))
            &&& has_stray_pair(geometries(matricizations@), pairs@) || reads_fit(
                structure.spec_blocks(),
                geometries(matricizations@),
                pairs@,
                dimensions@,
                side,
                source_trees,
            )
        },
{
    distinct_sectors(matricizations) && (some_pair_is_stray(matricizations, pairs)
        || walk_publication::<D, M>(
        structure,
        matricizations,
        sizes_of(pairs, side).as_slice(),
        dimensions,
        side,
        source_trees,
        Ghost(pairs@),
    ).is_some())
}

/// [`reads_are_inside`] where every tree of a sector of the source is looked up
/// first, and pairs of other sectors are ignored.
pub fn checked_reads_are_inside<D, M: SectorGeometry>(
    structure: &BlockStructure,
    matricizations: &[M],
    pairs: &[FactorPair<D>],
    dimensions: &BondDimensions,
    side: FactorSide,
) -> (inside: bool)
    ensures
        inside == {
            &&& sectors_distinct(geometries(matricizations@))
            &&& lacks_some_placement(*structure, geometries(matricizations@), side) || reads_fit(
                structure.spec_blocks(),
                geometries(matricizations@),
                pairs@,
                dimensions@,
                side,
                side,
            )
        },
{
    distinct_sectors(matricizations) && (some_placement_is_lacking(
        structure,
        matricizations,
        side,
    ) || walk_publication::<D, M>(
        structure,
        matricizations,
        sizes_of(pairs, side).as_slice(),
        dimensions,
        side,
        side,
        Ghost(pairs@),
    ).is_some())
}

/// [`reads_are_inside`] for both factors, the right one only where the left one
/// is not refused.
pub fn both_reads_are_inside<D, M: SectorGeometry>(
    left_structure: &BlockStructure,
    right_structure: &BlockStructure,
    matricizations: &[M],
    pairs: &[FactorPair<D>],
    left_dimensions: &BondDimensions,
    right_dimensions: &BondDimensions,
    left_trees: FactorSide,
    right_trees: FactorSide,
) -> (inside: bool)
    ensures
        inside == {
            &&& sectors_distinct(geometries(matricizations@))
            &&& has_stray_pair(geometries(matricizations@), pairs@) || both_reads_fit(
                *left_structure,
                *right_structure,
                geometries(matricizations@),
                pairs@,
                left_dimensions@,
                right_dimensions@,
                left_trees,
                right_trees,
            )
        },
{
    if !distinct_sectors(matricizations) {
        return false;
    }
    if some_pair_is_stray(matricizations, pairs) {
        return true;
    }
    let left = walk_publication::<D, M>(
        left_structure,
        matricizations,
        sizes_of(pairs, FactorSide::Left).as_slice(),
        left_dimensions,
        FactorSide::Left,
        left_trees,
        Ghost(pairs@),
    );
    match left {
        None => false,
        Some(false) => true,
        Some(true) => walk_publication::<D, M>(
            right_structure,
            matricizations,
            sizes_of(pairs, FactorSide::Right).as_slice(),
            right_dimensions,
            FactorSide::Right,
            right_trees,
            Ghost(pairs@),
        ).is_some(),
    }
}

/// Whether some pair belongs to a sector without source matrix.
fn some_pair_is_stray<D, M: SectorGeometry>(
    matricizations: &[M],
    pairs: &[FactorPair<D>],
) -> (stray: bool)
    requires
        sectors_distinct(geometries(matricizations@)),
    ensures
        stray == has_stray_pair(geometries(matricizations@), pairs@),
{
    let by_sector = matricization_map(matricizations);
    let mut k: usize = 0;
    while k < pairs.len()
        invariant
            k <= pairs@.len(),
            indexes_sectors(by_sector@, geometries(matricizations@)),
            forall|j: int|
                0 <= j < k ==> sector_position(
                    geometries(matricizations@),
                    (#[trigger] pairs@[j]).sector,
                    0,
                ) is Some,
        decreases pairs.len() - k,
    {
        if by_sector.get(pairs[k].sector).is_none() {
            assert(sector_position(
                geometries(matricizations@),
                pairs@[k as int].sector,
                0,
            ) is None);
            return true;
        }
        k += 1;
    }
    false
}

} // verus!
