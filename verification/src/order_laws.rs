//! Which tree comes first, and which blocks lie in a buffer.

use vstd::prelude::*;

use crate::index_laws::{index_position, indexes, strided_sum};
use crate::input::regions_canonical;
use crate::geometry::Geometry;
use crate::sector::{
    flag_numbers, label_numbers, lexicographic, sector_numbers, tree_less, Tree,
};
use crate::structure::{block_admitted, reach, Block};

verus! {

/// The lists agree before place `d`, and there the first one is smaller or ends.
pub open spec fn smaller_at(a: Seq<int>, b: Seq<int>, d: int) -> bool {
    &&& 0 <= d <= a.len()
    &&& d < b.len()
    &&& forall|i: int| 0 <= i < d ==> #[trigger] a[i] == b[i]
    &&& d < a.len() ==> a[d] < b[d]
}

/// A list comes before another one if it is smaller at the first place where they
/// differ, or a beginning of it.
pub proof fn lemma_first_difference_decides(a: Seq<int>, b: Seq<int>)
    ensures
        lexicographic(a, b) <==> exists|d: int| smaller_at(a, b, d),
    decreases a.len(),
{
    if a.len() > 0 && b.len() > 0 && a[0] == b[0] {
        let (x, y) = (a.drop_first(), b.drop_first());
        lemma_first_difference_decides(x, y);
        if exists|d: int| smaller_at(x, y, d) {
            let d = choose|d: int| smaller_at(x, y, d);
            assert forall|i: int| 0 <= i < d + 1 implies #[trigger] a[i] == b[i] by {
                if i > 0 {
                    assert(x[i - 1] == y[i - 1]);
                }
            }
            assert(smaller_at(a, b, d + 1));
        }
        if exists|d: int| smaller_at(a, b, d) {
            let d = choose|d: int| smaller_at(a, b, d);
            assert(d > 0);
            assert forall|i: int| 0 <= i < d - 1 implies #[trigger] x[i] == y[i] by {
                assert(a[i + 1] == b[i + 1]);
            }
            assert(smaller_at(x, y, d - 1));
        }
    } else if a.len() == 0 {
        if b.len() > 0 {
            assert(smaller_at(a, b, 0));
        }
    } else if b.len() > 0 {
        if a[0] < b[0] {
            assert(smaller_at(a, b, 0));
        } else if exists|d: int| smaller_at(a, b, d) {
            let d = choose|d: int| smaller_at(a, b, d);
            if d > 0 {
                assert(a[0] == b[0]);
            }
        }
    }
}

/// A tree comes first by its uncoupled sectors; where these agree by its coupled
/// sector, then by its duality flags, where false comes first, by its inner lines
/// and last by its vertex labels.
pub proof fn lemma_tree_order_by_parts(a: Tree, b: Tree, d: int)
    ensures
        smaller_at(sector_numbers(a.uncoupled), sector_numbers(b.uncoupled), d) ==> tree_less(a, b),
        a.uncoupled == b.uncoupled ==> {
            &&& a.coupled.id < b.coupled.id ==> tree_less(a, b)
            &&& a.coupled == b.coupled ==> {
                &&& smaller_at(flag_numbers(a.is_dual), flag_numbers(b.is_dual), d) ==> tree_less(
                    a,
                    b,
                )
                &&& a.is_dual == b.is_dual ==> {
                    &&& smaller_at(sector_numbers(a.innerlines), sector_numbers(b.innerlines), d)
                        ==> tree_less(a, b)
                    &&& a.innerlines == b.innerlines && smaller_at(
                        label_numbers(a.vertices),
                        label_numbers(b.vertices),
                        d,
                    ) ==> tree_less(a, b)
                }
            }
        },
{
    lemma_first_difference_decides(sector_numbers(a.uncoupled), sector_numbers(b.uncoupled));
    lemma_first_difference_decides(flag_numbers(a.is_dual), flag_numbers(b.is_dual));
    lemma_first_difference_decides(sector_numbers(a.innerlines), sector_numbers(b.innerlines));
    lemma_first_difference_decides(label_numbers(a.vertices), label_numbers(b.vertices));
    lemma_smaller_differs(sector_numbers(a.uncoupled), sector_numbers(b.uncoupled), d);
    lemma_smaller_differs(flag_numbers(a.is_dual), flag_numbers(b.is_dual), d);
    lemma_smaller_differs(sector_numbers(a.innerlines), sector_numbers(b.innerlines), d);
}

proof fn lemma_smaller_differs(a: Seq<int>, b: Seq<int>, d: int)
    ensures
        smaller_at(a, b, d) ==> a != b,
{
}

/// In canonical regions every sector comes after all sectors before it, and so does
/// every tree of a side.
pub proof fn lemma_canonical_regions_ascend(regions: Seq<Geometry>, j: int, k: int)
    requires
        regions_canonical(regions),
        0 <= j < k < regions.len(),
    ensures
        regions[j].sector.id < regions[k].sector.id,
    decreases k - j,
{
    assert(regions[k - 1].sector.id < regions[k - 1 + 1].sector.id);
    if j < k - 1 {
        lemma_canonical_regions_ascend(regions, j, k - 1);
    }
}

/// The last element of the first axes.
spec fn last_index(shape: Seq<usize>) -> Seq<int> {
    Seq::new(shape.len(), |k: int| shape[k] - 1)
}

proof fn lemma_reach_is_last(shape: Seq<usize>, strides: Seq<usize>, axes: int)
    requires
        0 <= axes <= shape.len(),
    ensures
        reach(shape, strides, axes) == strided_sum(last_index(shape), strides, axes),
    decreases axes,
{
    if axes > 0 {
        lemma_reach_is_last(shape, strides, axes - 1);
    }
}

proof fn lemma_last_is_farthest(
    shape: Seq<usize>,
    strides: Seq<usize>,
    at: Seq<int>,
    axes: int,
)
    requires
        indexes(at, shape),
        0 <= axes <= shape.len(),
    ensures
        strided_sum(at, strides, axes) <= strided_sum(last_index(shape), strides, axes),
    decreases axes,
{
    if axes > 0 {
        lemma_last_is_farthest(shape, strides, at, axes - 1);
        let (i, n, s) = (at[axes - 1], shape[axes - 1] as int, strides[axes - 1] as int);
        assert(0 <= at[axes - 1] < shape[axes - 1]);
        assert(i * s <= (n - 1) * s) by (nonlinear_arith)
            requires
                i <= n - 1,
                0 <= s,
        ;
    }
}

/// A block with elements is admitted to a buffer exactly where all its elements
/// lie in the buffer and can be counted.
pub proof fn lemma_admitted_blocks_lie_inside(block: Block, len: int)
    requires
        block.shape@.len() == block.strides@.len(),
        forall|axis: int| 0 <= axis < block.shape@.len() ==> (#[trigger] block.shape@[axis]) > 0,
    ensures
        block_admitted(block, len) <==> {
            &&& crate::index::extent(block.shape@) <= usize::MAX
            &&& forall|at: Seq<int>|
                indexes(at, block.shape@) ==> #[trigger] index_position(block, at) < len
        },
{
    let (shape, strides) = (block.shape@, block.strides@);
    let last = last_index(shape);
    let axes = shape.len() as int;
    lemma_reach_is_last(shape, strides, axes);
    assert(indexes(last, shape)) by {
        assert forall|k: int| 0 <= k < last.len() implies 0 <= (#[trigger] last[k]) < shape[k] by {
            assert(shape[k] > 0);
        }
    }
    assert(index_position(block, last) == block.offset + reach(shape, strides, axes));
    assert forall|at: Seq<int>| indexes(at, shape) implies #[trigger] index_position(block, at)
        <= index_position(block, last) by {
        lemma_last_is_farthest(shape, strides, at, axes);
    }
}

} // verus!
