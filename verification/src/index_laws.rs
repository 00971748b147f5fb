//! The elements of a block by their indices, one for each axis.

use vstd::prelude::*;

use crate::index::{
    address, coordinate, extent, leading_extent, lemma_div_mod_unique,
    lemma_leading_extent_nonnegative, partial_address, quotient,
};
use crate::structure::Block;

verus! {

/// There is an index for every axis, inside its dimension.
pub open spec fn indexes(at: Seq<int>, shape: Seq<usize>) -> bool {
    &&& at.len() == shape.len()
    &&& forall|k: int| 0 <= k < at.len() ==> 0 <= (#[trigger] at[k]) < shape[k]
}

/// Where the element with these indices stands: every index moves by the stride
/// of its axis.
pub open spec fn strided_sum(at: Seq<int>, strides: Seq<usize>, axes: int) -> int
    decreases axes,
{
    if axes <= 0 {
        0
    } else {
        strided_sum(at, strides, axes - 1) + at[axes - 1] * strides[axes - 1]
    }
}

/// Where the element of a block with these indices stands in the buffer.
pub open spec fn index_position(block: Block, at: Seq<int>) -> int {
    block.offset + strided_sum(at, block.strides@, at.len() as int)
}

/// The number of the element with these indices from `axis` on, the first of
/// these axes running fastest.
pub open spec fn index_number(at: Seq<int>, shape: Seq<usize>, axis: int) -> int
    decreases at.len() - axis,
{
    if axis >= at.len() || axis < 0 {
        0
    } else {
        at[axis] + shape[axis] * index_number(at, shape, axis + 1)
    }
}

proof fn lemma_number_bounds(at: Seq<int>, shape: Seq<usize>, axis: int)
    requires
        indexes(at, shape),
        0 <= axis <= at.len(),
    ensures
        0 <= index_number(at, shape, axis),
        leading_extent(shape, axis) * (index_number(at, shape, axis) + 1) <= extent(shape),
    decreases at.len() - axis,
{
    if axis < at.len() {
        lemma_number_bounds(at, shape, axis + 1);
        lemma_leading_extent_nonnegative(shape, axis);
        let low = leading_extent(shape, axis);
        let dim = shape[axis] as int;
        let next = index_number(at, shape, axis + 1);
        let i = at[axis];
        assert(0 <= i < dim);
        assert(0 <= dim * next) by (nonlinear_arith)
            requires
                0 <= dim,
                0 <= next,
        ;
        assert(low * (i + dim * next + 1) <= (low * dim) * (next + 1)) by (nonlinear_arith)
            requires
                0 <= low,
                0 <= i < dim,
                0 <= next,
        ;
    } else {
        assert(leading_extent(shape, axis) * 1 == extent(shape));
    }
}

proof fn lemma_number_quotient(at: Seq<int>, shape: Seq<usize>, axes: int)
    requires
        indexes(at, shape),
        0 <= axes <= at.len(),
    ensures
        quotient(shape, index_number(at, shape, 0), axes) == index_number(at, shape, axes),
    decreases axes,
{
    if axes > 0 {
        lemma_number_quotient(at, shape, axes - 1);
        let next = index_number(at, shape, axes);
        let dim = shape[axes - 1] as int;
        assert(0 <= at[axes - 1] < shape[axes - 1]);
        assert(dim * next == next * dim) by (nonlinear_arith);
        lemma_div_mod_unique(at[axes - 1] + dim * next, dim, next, at[axes - 1]);
    }
}

/// The element of a block with given indices has these coordinates, and stands
/// where the strides of its axes put it. Elements are numbered with the first
/// axis running fastest.
pub proof fn lemma_element_by_index(shape: Seq<usize>, strides: Seq<usize>, at: Seq<int>)
    requires
        indexes(at, shape),
        strides.len() == shape.len(),
    ensures
        0 <= index_number(at, shape, 0) < extent(shape),
        forall|axis: int|
            0 <= axis < at.len() ==> #[trigger] coordinate(
                shape,
                index_number(at, shape, 0),
                axis,
            ) == at[axis],
        address(shape, strides, index_number(at, shape, 0)) == strided_sum(
            at,
            strides,
            at.len() as int,
        ),
{
    let n = index_number(at, shape, 0);
    lemma_number_bounds(at, shape, 0);
    assert(leading_extent(shape, 0) == 1);
    assert forall|axis: int| 0 <= axis < at.len() implies #[trigger] coordinate(shape, n, axis)
        == at[axis] by {
        lemma_number_quotient(at, shape, axis);
        let next = index_number(at, shape, axis + 1);
        let dim = shape[axis] as int;
        assert(0 <= at[axis] < shape[axis]);
        lemma_div_mod_unique(at[axis] + dim * next, dim, next, at[axis]);
    }
    lemma_partial_by_index(shape, strides, at, at.len() as int);
}

proof fn lemma_partial_by_index(
    shape: Seq<usize>,
    strides: Seq<usize>,
    at: Seq<int>,
    axes: int,
)
    requires
        indexes(at, shape),
        0 <= axes <= at.len(),
        forall|axis: int|
            0 <= axis < at.len() ==> #[trigger] coordinate(
                shape,
                index_number(at, shape, 0),
                axis,
            ) == at[axis],
    ensures
        partial_address(shape, strides, index_number(at, shape, 0), axes) == strided_sum(
            at,
            strides,
            axes,
        ),
    decreases axes,
{
    if axes > 0 {
        lemma_partial_by_index(shape, strides, at, axes - 1);
        assert(coordinate(shape, index_number(at, shape, 0), axes - 1) == at[axes - 1]);
    }
}

proof fn lemma_number_of_rest(at: Seq<int>, shape: Seq<usize>, split: int, axis: int)
    requires
        at.len() == shape.len(),
        0 <= split <= axis <= at.len(),
    ensures
        index_number(at, shape, axis) == index_number(
            at.skip(split),
            shape.skip(split),
            axis - split,
        ),
    decreases at.len() - axis,
{
    if axis < at.len() {
        lemma_number_of_rest(at, shape, split, axis + 1);
    }
}

proof fn lemma_number_of_part(at: Seq<int>, shape: Seq<usize>, split: int, axis: int)
    requires
        at.len() == shape.len(),
        0 <= axis <= split <= at.len(),
    ensures
        leading_extent(shape, axis) * index_number(at, shape, axis) == leading_extent(shape, axis)
            * index_number(at.take(split), shape.take(split), axis) + leading_extent(shape, split)
            * index_number(at, shape, split),
    decreases split - axis,
{
    let low = leading_extent(shape, axis);
    if axis < split {
        lemma_number_of_part(at, shape, split, axis + 1);
        let (i, d) = (at[axis], shape[axis] as int);
        let all = index_number(at, shape, axis + 1);
        let part = index_number(at.take(split), shape.take(split), axis + 1);
        assert(low * (i + d * all) == low * i + (low * d) * all) by (nonlinear_arith);
        assert(low * (i + d * part) == low * i + (low * d) * part) by (nonlinear_arith);
    } else {
        assert(low * 0 == 0) by (nonlinear_arith);
    }
}

/// The number of an element falls apart where its indices are split: the number
/// among the first axes, and that among the others times the extent of the first.
pub proof fn lemma_number_split(at: Seq<int>, shape: Seq<usize>, split: int)
    requires
        indexes(at, shape),
        0 <= split <= at.len(),
    ensures
        indexes(at.take(split), shape.take(split)),
        indexes(at.skip(split), shape.skip(split)),
        extent(shape.take(split)) == leading_extent(shape, split),
        0 <= index_number(at.take(split), shape.take(split), 0) < leading_extent(shape, split),
        0 <= index_number(at.skip(split), shape.skip(split), 0),
        index_number(at, shape, 0) == index_number(at.take(split), shape.take(split), 0)
            + leading_extent(shape, split) * index_number(at.skip(split), shape.skip(split), 0),
        index_number(at, shape, 0) % leading_extent(shape, split) == index_number(
            at.take(split),
            shape.take(split),
            0,
        ),
        index_number(at, shape, 0) / leading_extent(shape, split) == index_number(
            at.skip(split),
            shape.skip(split),
            0,
        ),
{
    let (a, s) = (at.take(split), shape.take(split));
    let (b, t) = (at.skip(split), shape.skip(split));
    assert forall|k: int| 0 <= k < a.len() implies 0 <= (#[trigger] a[k]) < s[k] by {
        assert(0 <= at[k] < shape[k]);
    }
    assert forall|k: int| 0 <= k < b.len() implies 0 <= (#[trigger] b[k]) < t[k] by {
        assert(0 <= at[k + split] < shape[k + split]);
    }
    lemma_number_of_part(at, shape, split, 0);
    lemma_number_of_rest(at, shape, split, split);
    crate::index::lemma_leading_extent_take(shape, split, split);
    lemma_number_bounds(a, s, 0);
    lemma_number_bounds(b, t, 0);
    assert(leading_extent(shape, 0) == 1);
    assert(leading_extent(s, 0) == 1);
    let (low, x, y) = (
        leading_extent(shape, split),
        index_number(a, s, 0),
        index_number(b, t, 0),
    );
    assert(low * y == y * low) by (nonlinear_arith);
    lemma_div_mod_unique(index_number(at, shape, 0), low, y, x);
}

} // verus!
