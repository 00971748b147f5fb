//! Column-major enumeration of a strided block.

use vstd::arithmetic::div_mod::lemma_fundamental_div_mod_converse;
use vstd::arithmetic::mul::lemma_mul_is_commutative;
use vstd::prelude::*;

verus! {

/// Product of the first `axes` dimensions.
pub open spec fn leading_extent(shape: Seq<usize>, axes: int) -> int
    decreases axes,
{
    if axes <= 0 {
        1
    } else {
        leading_extent(shape, axes - 1) * shape[axes - 1]
    }
}

/// Number of elements of a block.
pub open spec fn extent(shape: Seq<usize>) -> int {
    leading_extent(shape, shape.len() as int)
}

/// What is left of the linear index `n` once the first `axes` coordinates
/// have been split off, the first axis running fastest.
pub open spec fn quotient(shape: Seq<usize>, n: int, axes: int) -> int
    decreases axes,
{
    if axes <= 0 {
        n
    } else {
        quotient(shape, n, axes - 1) / (shape[axes - 1] as int)
    }
}

/// Coordinate of element `n` on `axis`.
pub open spec fn coordinate(shape: Seq<usize>, n: int, axis: int) -> int {
    quotient(shape, n, axis) % (shape[axis] as int)
}

/// Contribution of the first `axes` coordinates of element `n` to its position.
pub open spec fn partial_address(
    shape: Seq<usize>,
    strides: Seq<usize>,
    n: int,
    axes: int,
) -> int
    decreases axes,
{
    if axes <= 0 {
        0
    } else {
        partial_address(shape, strides, n, axes - 1) + coordinate(shape, n, axes - 1)
            * strides[axes - 1]
    }
}

/// Distance of element `n` (in column-major order) from the block's origin.
pub open spec fn address(shape: Seq<usize>, strides: Seq<usize>, n: int) -> int {
    partial_address(shape, strides, n, shape.len() as int)
}

/// Every element of the block lies inside a buffer of `len` elements.
pub open spec fn block_fits(
    shape: Seq<usize>,
    strides: Seq<usize>,
    offset: int,
    len: int,
) -> bool {
    &&& shape.len() == strides.len()
    &&& forall|n: int|
        0 <= n < extent(shape) ==> offset + (#[trigger] address(shape, strides, n)) < len
}

/// The multi-index after `index` on the axes from `axis` on, the first of
/// them running fastest and every exhausted axis falling back to zero.
pub open spec fn advanced(index: Seq<usize>, shape: Seq<usize>, axis: int) -> Seq<usize>
    decreases shape.len() - axis,
{
    if axis >= shape.len() || axis < 0 {
        index
    } else if index[axis] + 1 < shape[axis] {
        index.update(axis, (index[axis] + 1) as usize)
    } else {
        advanced(index.update(axis, 0), shape, axis + 1)
    }
}

/// A number written as a multiple of `d` and a remainder below `d` has that
/// quotient and that remainder.
pub proof fn lemma_div_mod_unique(x: int, d: int, q: int, r: int)
    requires
        0 <= r < d,
        x == d * q + r,
    ensures
        x / d == q,
        x % d == r,
{
    lemma_mul_is_commutative(d, q);
    lemma_fundamental_div_mod_converse(x, d, q, r);
}

/// A number of elements is not negative.
pub proof fn lemma_leading_extent_nonnegative(shape: Seq<usize>, axes: int)
    requires
        axes <= shape.len(),
    ensures
        leading_extent(shape, axes) >= 0,
    decreases axes,
{
    if axes > 0 {
        lemma_leading_extent_nonnegative(shape, axes - 1);
        assert(leading_extent(shape, axes - 1) * shape[axes - 1] >= 0) by (nonlinear_arith)
            requires
                leading_extent(shape, axes - 1) >= 0,
                shape[axes - 1] >= 0,
        ;
    }
}

/// A block with elements has only nonzero dimensions.
pub proof fn lemma_nonempty_dimensions(shape: Seq<usize>, axes: int)
    requires
        0 <= axes <= shape.len(),
        leading_extent(shape, axes) > 0,
    ensures
        forall|k: int| 0 <= k < axes ==> shape[k] > 0,
    decreases axes,
{
    if axes > 0 {
        lemma_leading_extent_nonnegative(shape, axes - 1);
        assert(leading_extent(shape, axes - 1) > 0 && shape[axes - 1] > 0) by (nonlinear_arith)
            requires
                leading_extent(shape, axes - 1) * shape[axes - 1] > 0,
                leading_extent(shape, axes - 1) >= 0,
                shape[axes - 1] >= 0,
        ;
        lemma_nonempty_dimensions(shape, axes - 1);
    }
}

/// Splitting off coordinates is division by the extent of their axes.
pub proof fn lemma_quotient_is_division(shape: Seq<usize>, n: int, axes: int)
    requires
        0 <= axes <= shape.len(),
        0 <= n,
        leading_extent(shape, axes) > 0,
    ensures
        quotient(shape, n, axes) == n / leading_extent(shape, axes),
        0 <= quotient(shape, n, axes) <= n,
    decreases axes,
{
    if axes > 0 {
        let low = leading_extent(shape, axes - 1);
        let dim = shape[axes - 1] as int;
        lemma_leading_extent_nonnegative(shape, axes - 1);
        assert(low > 0 && dim > 0) by (nonlinear_arith)
            requires
                low * dim > 0,
                low >= 0,
                dim >= 0,
        ;
        lemma_quotient_is_division(shape, n, axes - 1);
        vstd::arithmetic::div_mod::lemma_div_denominator(n, low, dim);
        let q = n / low;
        assert(0 <= q / dim <= q) by (nonlinear_arith)
            requires
                q >= 0,
                dim > 0,
        ;
    }
}

/// Coordinates lie below their dimension.
pub proof fn lemma_coordinate_bounds(shape: Seq<usize>, n: int, axis: int)
    requires
        0 <= axis < shape.len(),
        0 <= n,
        leading_extent(shape, axis + 1) > 0,
    ensures
        0 <= coordinate(shape, n, axis) < shape[axis],
        quotient(shape, n, axis) >= 0,
{
    lemma_nonempty_dimensions(shape, axis + 1);
    lemma_leading_extent_nonnegative(shape, axis);
    assert(leading_extent(shape, axis) > 0) by (nonlinear_arith)
        requires
            leading_extent(shape, axis) * shape[axis] > 0,
            leading_extent(shape, axis) >= 0,
            shape[axis] >= 0,
    ;
    lemma_quotient_is_division(shape, n, axis);
}

/// The extent grows with the axes of a block that has elements.
pub proof fn lemma_leading_extent_monotone(shape: Seq<usize>, low: int, high: int)
    requires
        0 <= low <= high <= shape.len(),
        leading_extent(shape, high) > 0,
    ensures
        0 < leading_extent(shape, low) <= leading_extent(shape, high),
    decreases high - low,
{
    if low < high {
        lemma_leading_extent_nonnegative(shape, high - 1);
        let a = leading_extent(shape, high - 1);
        let d = shape[high - 1] as int;
        assert(0 < a <= a * d) by (nonlinear_arith)
            requires
                a * d > 0,
                a >= 0,
                d >= 0,
        ;
        lemma_leading_extent_monotone(shape, low, high - 1);
    }
}

/// Partial sums of an address grow towards the address.
pub proof fn lemma_partial_address_monotone(
    shape: Seq<usize>,
    strides: Seq<usize>,
    n: int,
    low: int,
    high: int,
)
    requires
        0 <= low <= high <= shape.len(),
        shape.len() == strides.len(),
        0 <= n,
        extent(shape) > 0,
    ensures
        0 <= partial_address(shape, strides, n, low) <= partial_address(shape, strides, n, high),
    decreases high,
{
    if high > 0 {
        lemma_leading_extent_monotone(shape, high, shape.len() as int);
        lemma_coordinate_bounds(shape, n, high - 1);
        let c = coordinate(shape, n, high - 1);
        let s = strides[high - 1] as int;
        assert(c * s >= 0) by (nonlinear_arith)
            requires
                c >= 0,
                s >= 0,
        ;
        if low < high {
            lemma_partial_address_monotone(shape, strides, n, low, high - 1);
        } else {
            lemma_partial_address_monotone(shape, strides, n, low - 1, high - 1);
        }
    }
}

/// Equal quotients stay equal on every later axis.
proof fn lemma_quotient_agrees(shape: Seq<usize>, a: int, b: int, from: int, to: int)
    requires
        0 <= from <= to,
        quotient(shape, a, from) == quotient(shape, b, from),
    ensures
        quotient(shape, a, to) == quotient(shape, b, to),
    decreases to - from,
{
    if from < to {
        lemma_quotient_agrees(shape, a, b, from, to - 1);
    }
}

/// The multi-index `index` holds the coordinates of element `n` on the axes
/// from `axis` on.
pub open spec fn indexes(index: Seq<usize>, shape: Seq<usize>, n: int, axis: int) -> bool {
    &&& index.len() == shape.len()
    &&& forall|k: int|
        axis <= k < shape.len() ==> (#[trigger] index[k]) as int == coordinate(shape, n, k)
}

/// Advancing the coordinates of an element by one carry gives those of the
/// element with the next quotient.
pub proof fn lemma_advanced_is_successor(
    index: Seq<usize>,
    shape: Seq<usize>,
    n: int,
    next: int,
    axis: int,
)
    requires
        0 <= axis <= shape.len(),
        0 <= n,
        extent(shape) > 0,
        indexes(index, shape, n, axis),
        quotient(shape, next, axis) == quotient(shape, n, axis) + 1,
    ensures
        indexes(advanced(index, shape, axis), shape, next, axis),
        forall|k: int| 0 <= k < axis ==> advanced(index, shape, axis)[k] == index[k],
    decreases shape.len() - axis,
{
    if axis < shape.len() {
        lemma_nonempty_dimensions(shape, shape.len() as int);
        lemma_leading_extent_monotone(shape, axis + 1, shape.len() as int);
        lemma_coordinate_bounds(shape, n, axis);
        let q = quotient(shape, n, axis);
        let d = shape[axis] as int;
        assert(index[axis] as int == coordinate(shape, n, axis));
        vstd::arithmetic::div_mod::lemma_fundamental_div_mod(q, d);
        if q % d + 1 < d {
            lemma_div_mod_unique(q + 1, d, q / d, q % d + 1);
            let result = advanced(index, shape, axis);
            assert forall|k: int| axis <= k < shape.len() implies (#[trigger] result[k]) as int
                == coordinate(shape, next, k) by {
                if k > axis {
                    lemma_quotient_agrees(shape, n, next, axis + 1, k);
                    assert(result[k] == index[k]);
                }
            }
        } else {
            let reset = index.update(axis, 0);
            assert(d * (q / d + 1) == d * (q / d) + d) by (nonlinear_arith);
            lemma_div_mod_unique(q + 1, d, q / d + 1, 0);
            assert(indexes(reset, shape, n, axis + 1)) by {
                assert forall|k: int| axis + 1 <= k < shape.len() implies (
                #[trigger] reset[k]) as int == coordinate(shape, n, k) by {
                    assert(reset[k] == index[k]);
                }
            }
            lemma_advanced_is_successor(reset, shape, n, next, axis + 1);
            let result = advanced(index, shape, axis);
            assert(result == advanced(reset, shape, axis + 1));
            assert(result[axis] == reset[axis]);
            assert forall|k: int| 0 <= k < axis implies result[k] == index[k] by {
                assert(result[k] == reset[k]);
            }
        }
    }
}

/// Elements of one lane differ only in their first coordinate.
pub proof fn lemma_lane(shape: Seq<usize>, strides: Seq<usize>, outer: int, lane: int)
    requires
        shape.len() > 0,
        shape.len() == strides.len(),
        0 <= outer,
        0 <= lane < shape[0],
    ensures
        quotient(shape, lane + shape[0] * outer, 1) == outer,
        coordinate(shape, lane + shape[0] * outer, 0) == lane,
        address(shape, strides, lane + shape[0] * outer) == address(
            shape,
            strides,
            shape[0] * outer,
        ) + lane * strides[0],
{
    let run = shape[0] as int;
    let base = run * outer;
    let n = lane + base;
    lemma_div_mod_unique(n, run, outer, lane);
    lemma_div_mod_unique(base, run, outer, 0);
    reveal_with_fuel(quotient, 2);
    reveal_with_fuel(partial_address, 2);
    assert(0 * strides[0] == 0);
    lemma_lane_partial(shape, strides, n, base, 1, shape.len() as int);
}

proof fn lemma_lane_partial(
    shape: Seq<usize>,
    strides: Seq<usize>,
    a: int,
    b: int,
    from: int,
    to: int,
)
    requires
        0 < from <= to <= shape.len(),
        quotient(shape, a, from) == quotient(shape, b, from),
    ensures
        partial_address(shape, strides, a, to) - partial_address(shape, strides, a, from)
            == partial_address(shape, strides, b, to) - partial_address(shape, strides, b, from),
    decreases to - from,
{
    if from < to {
        lemma_lane_partial(shape, strides, a, b, from, to - 1);
        lemma_quotient_agrees(shape, a, b, from, to - 1);
    }
}

/// Every partial product of the dimensions fits.
pub open spec fn extent_fits(shape: Seq<usize>) -> bool {
    forall|axes: int|
        0 <= axes <= shape.len() ==> #[trigger] leading_extent(shape, axes) <= usize::MAX
}

/// The extent of a shape, or `None` where a partial product does not fit.
pub fn checked_extent(shape: &[usize]) -> (result: Option<usize>)
    ensures
        result is Some <==> extent_fits(shape@),
        result is Some ==> result->0 == extent(shape@),
{
    let mut count: usize = 1;
    let mut axis: usize = 0;
    while axis < shape.len()
        invariant
            axis <= shape@.len(),
            count == leading_extent(shape@, axis as int),
            forall|axes: int|
                0 <= axes <= axis ==> #[trigger] leading_extent(shape@, axes) <= usize::MAX,
        decreases shape.len() - axis,
    {
        let dim: usize = shape[axis];
        match count.checked_mul(dim) {
            Some(product) => {
                count = product;
            },
            None => {
                assert(leading_extent(shape@, axis + 1) > usize::MAX);
                return None;
            },
        }
        axis += 1;
    }
    Some(count)
}

/// The extent of the first `axes` dimensions, where it fits.
pub(crate) fn leading_count(shape: &[usize], axes: usize) -> (count: usize)
    requires
        axes <= shape@.len(),
        leading_extent(shape@, axes as int) <= usize::MAX,
    ensures
        count == leading_extent(shape@, axes as int),
{
    let mut axis: usize = 0;
    while axis < axes
        invariant
            axis <= axes <= shape@.len(),
            forall|k: int| 0 <= k < axis ==> shape@[k] > 0,
        decreases axes - axis,
    {
        if shape[axis] == 0 {
            proof {
                lemma_leading_extent_nonnegative(shape@, axes as int);
                if leading_extent(shape@, axes as int) > 0 {
                    lemma_nonempty_dimensions(shape@, axes as int);
                }
            }
            return 0;
        }
        axis += 1;
    }
    let mut count: usize = 1;
    axis = 0;
    while axis < axes
        invariant
            axis <= axes <= shape@.len(),
            leading_extent(shape@, axes as int) <= usize::MAX,
            count == leading_extent(shape@, axis as int),
            forall|k: int| 0 <= k < axes ==> shape@[k] > 0,
        decreases axes - axis,
    {
        proof {
            lemma_positive_extent(shape@, axes as int);
            lemma_leading_extent_monotone(shape@, axis + 1, axes as int);
        }
        count = count * shape[axis];
        axis += 1;
    }
    count
}

/// A block with only nonzero dimensions has elements.
pub proof fn lemma_positive_extent(shape: Seq<usize>, axes: int)
    requires
        0 <= axes <= shape.len(),
        forall|k: int| 0 <= k < axes ==> shape[k] > 0,
    ensures
        leading_extent(shape, axes) > 0,
    decreases axes,
{
    if axes > 0 {
        lemma_positive_extent(shape, axes - 1);
        assert(leading_extent(shape, axes - 1) * shape[axes - 1] > 0) by (nonlinear_arith)
            requires
                leading_extent(shape, axes - 1) > 0,
                shape[axes - 1] > 0,
        ;
    }
}

/// Steps a multi-index to the next one on the axes after the first.
pub fn advance_outer_index(index: &mut [usize], shape: &[usize])
    requires
        old(index)@.len() >= shape@.len(),
        forall|axis: int| 1 <= axis < shape@.len() ==> old(index)@[axis] < usize::MAX,
    ensures
        final(index)@ == advanced(old(index)@, shape@, 1),
        final(index)@.len() == old(index)@.len(),
{
    let mut axis: usize = 1;
    while axis < shape.len()
        invariant
            1 <= axis,
            index@.len() == old(index)@.len(),
            index@.len() >= shape@.len(),
            forall|k: int| axis <= k < shape@.len() ==> index@[k] < usize::MAX,
            advanced(old(index)@, shape@, 1) == advanced(index@, shape@, axis as int),
        decreases shape.len() - axis,
    {
        let stepped: usize = index[axis] + 1;
        if stepped < shape[axis] {
            index[axis] = stepped;
            return;
        }
        index[axis] = 0;
        axis += 1;
    }
}

/// Walks the positions of a strided block in column-major order.
pub(crate) struct BlockCursor<'a> {
    pub(crate) shape: &'a [usize],
    pub(crate) strides: &'a [usize],
    pub(crate) offset: usize,
    pub(crate) index: Vec<usize>,
    pub(crate) lane: usize,
    pub(crate) position: usize,
    pub(crate) element: Ghost<int>,
}

impl<'a> BlockCursor<'a> {
    /// The cursor stands at element `n` of the given block.
    pub(crate) open spec fn at(
        self,
        shape: Seq<usize>,
        strides: Seq<usize>,
        offset: int,
        n: int,
    ) -> bool {
        &&& self.shape@ == shape
        &&& self.strides@ == strides
        &&& self.offset == offset
        &&& shape.len() == strides.len()
        &&& 0 <= n < extent(shape)
        &&& self.element@ == n
        &&& self.index@.len() == shape.len()
        &&& self.position == offset + address(shape, strides, n)
        &&& shape.len() > 0 ==> {
            &&& n % (shape[0] as int) == self.lane
            &&& indexes(self.index@, shape, n, 1)
        }
    }

    /// A cursor at the first element of a block that has elements.
    pub(crate) fn new(shape: &'a [usize], strides: &'a [usize], offset: usize) -> (cursor: Self)
        requires
            shape@.len() == strides@.len(),
            extent(shape@) > 0,
        ensures
            cursor.at(shape@, strides@, offset as int, 0),
    {
        let mut index: Vec<usize> = Vec::new();
        while index.len() < shape.len()
            invariant
                index@.len() <= shape@.len(),
                forall|k: int| 0 <= k < index@.len() ==> index@[k] == 0,
            decreases shape.len() - index.len(),
        {
            index.push(0);
        }
        proof {
            lemma_nonempty_dimensions(shape@, shape@.len() as int);
            lemma_origin(shape@, strides@, shape@.len() as int);
            assert forall|k: int| 1 <= k < shape@.len() implies (#[trigger] index@[k]) as int
                == coordinate(shape@, 0, k) by {
                lemma_origin(shape@, strides@, k);
                assert(0int % (shape@[k] as int) == 0) by (nonlinear_arith)
                    requires
                        shape@[k] > 0,
                ;
            }
            if shape@.len() > 0 {
                assert(0int % (shape@[0] as int) == 0) by (nonlinear_arith)
                    requires
                        shape@[0] > 0,
                ;
            }
        }
        BlockCursor { shape, strides, offset, index, lane: 0, position: offset, element: Ghost(0) }
    }

    /// Steps to the next element.
    pub(crate) fn advance(
        &mut self,
        Ghost(shape): Ghost<Seq<usize>>,
        Ghost(strides): Ghost<Seq<usize>>,
        Ghost(offset): Ghost<int>,
        Ghost(n): Ghost<int>,
    )
        requires
            old(self).at(shape, strides, offset, n),
            n + 1 < extent(shape),
            offset + address(shape, strides, n + 1) <= usize::MAX,
        ensures
            final(self).at(shape, strides, offset, n + 1),
    {
        proof {
            if shape.len() == 0 {
                assert(extent(shape) == 1);
            }
            lemma_nonempty_dimensions(shape, shape.len() as int);
        }
        let ghost run = shape[0] as int;
        let ghost outer = n / run;
        proof {
            vstd::arithmetic::div_mod::lemma_fundamental_div_mod(n, run);
            assert(outer >= 0) by (nonlinear_arith)
                requires
                    n >= 0,
                    run > 0,
                    outer == n / run,
            ;
            lemma_lane(shape, strides, outer, self.lane as int);
        }
        if self.lane + 1 < self.shape[0] {
            proof {
                lemma_lane(shape, strides, outer, self.lane + 1);
                assert((self.lane + 1) * strides[0] == self.lane * strides[0] + strides[0])
                    by (nonlinear_arith);
                lemma_div_mod_unique(n + 1, run, outer, self.lane + 1);
                assert(indexes(self.index@, shape, n + 1, 1)) by {
                    assert forall|k: int| 1 <= k < shape.len() implies (
                    #[trigger] self.index@[k]) as int == coordinate(shape, n + 1, k) by {
                        lemma_quotient_agrees(shape, n, n + 1, 1, k);
                    }
                }
            }
            self.lane = self.lane + 1;
            self.position = self.position + self.strides[0];
        } else {
            proof {
                assert(run * (outer + 1) == run * outer + run) by (nonlinear_arith);
                lemma_lane(shape, strides, outer + 1, 0);
                lemma_div_mod_unique(n + 1, run, outer + 1, 0);
                lemma_advanced_is_successor(self.index@, shape, n, n + 1, 1);
                assert forall|k: int| 1 <= k < shape.len() implies self.index@[k]
                    < usize::MAX by {
                    lemma_leading_extent_monotone(shape, k + 1, shape.len() as int);
                    lemma_coordinate_bounds(shape, n, k);
                    assert(self.index@[k] as int == coordinate(shape, n, k));
                }
            }
            self.lane = 0;
            advance_outer_index(&mut self.index, self.shape);
            let mut position: usize = self.offset;
            let mut axis: usize = 1;
            proof {
                reveal_with_fuel(partial_address, 2);
                assert(0 * strides[0] == 0);
                lemma_partial_address_monotone(shape, strides, n + 1, 1, shape.len() as int);
            }
            while axis < self.shape.len()
                invariant
                    1 <= axis <= shape.len(),
                    self.shape@ == shape,
                    self.strides@ == strides,
                    shape.len() == strides.len(),
                    indexes(self.index@, shape, n + 1, 1),
                    n >= 0,
                    extent(shape) > 0,
                    offset >= 0,
                    offset + address(shape, strides, n + 1) <= usize::MAX,
                    position == offset + partial_address(shape, strides, n + 1, axis as int),
                decreases self.shape.len() - axis,
            {
                proof {
                    lemma_partial_address_monotone(
                        shape,
                        strides,
                        n + 1,
                        axis + 1,
                        shape.len() as int,
                    );
                    lemma_partial_address_monotone(shape, strides, n + 1, 0, axis as int);
                    assert(self.index@[axis as int] as int == coordinate(
                        shape,
                        n + 1,
                        axis as int,
                    ));
                }
                position = position + self.index[axis] * self.strides[axis];
                axis += 1;
            }
            self.position = position;
        }
        self.element = Ghost(n + 1);
    }
}

/// Element zero has only zero coordinates.
proof fn lemma_origin(shape: Seq<usize>, strides: Seq<usize>, axes: int)
    requires
        0 <= axes <= shape.len(),
        shape.len() == strides.len(),
        forall|k: int| 0 <= k < shape.len() ==> shape[k] > 0,
    ensures
        quotient(shape, 0, axes) == 0,
        partial_address(shape, strides, 0, axes) == 0,
    decreases axes,
{
    if axes > 0 {
        lemma_origin(shape, strides, axes - 1);
        let d = shape[axes - 1] as int;
        assert(0int / d == 0 && 0int % d == 0) by (nonlinear_arith)
            requires
                d > 0,
        ;
        assert(0 * strides[axes - 1] == 0);
    }
}

/// Leading dimensions do not depend on what follows them.
pub proof fn lemma_leading_extent_take(shape: Seq<usize>, keep: int, axes: int)
    requires
        0 <= axes <= keep <= shape.len(),
    ensures
        leading_extent(shape.take(keep), axes) == leading_extent(shape, axes),
    decreases axes,
{
    if axes > 0 {
        lemma_leading_extent_take(shape, keep, axes - 1);
        assert(shape.take(keep)[axes - 1] == shape[axes - 1]);
    }
}

/// The extent of a shape is the product of the extents of its two parts.
pub proof fn lemma_leading_extent_skip(shape: Seq<usize>, cut: int, axes: int)
    requires
        0 <= cut,
        0 <= axes,
        cut + axes <= shape.len(),
    ensures
        leading_extent(shape, cut + axes) == leading_extent(shape, cut) * leading_extent(
            shape.skip(cut),
            axes,
        ),
    decreases axes,
{
    if axes > 0 {
        lemma_leading_extent_skip(shape, cut, axes - 1);
        assert(shape.skip(cut)[axes - 1] == shape[cut + axes - 1]);
        let a = leading_extent(shape, cut);
        let b = leading_extent(shape.skip(cut), axes - 1);
        let d = shape[cut + axes - 1] as int;
        assert((a * b) * d == a * (b * d)) by (nonlinear_arith);
    } else {
        assert(leading_extent(shape, cut) * 1 == leading_extent(shape, cut));
    }
}

/// The extent of a shape splits at any axis.
pub proof fn lemma_extent_split(shape: Seq<usize>, cut: int)
    requires
        0 <= cut <= shape.len(),
    ensures
        leading_extent(shape, cut) == extent(shape.take(cut)),
        extent(shape) == extent(shape.take(cut)) * extent(shape.skip(cut)),
{
    lemma_leading_extent_take(shape, cut, cut);
    lemma_leading_extent_skip(shape, cut, shape.len() - cut);
}

/// Quotient and remainder of an index into a product of two extents.
pub proof fn lemma_split_bounds(n: int, low: int, high: int)
    requires
        0 <= n < low * high,
        0 <= low,
    ensures
        0 < low,
        0 <= n % low < low,
        0 <= n / low < high,
        n == low * (n / low) + n % low,
{
    assert(low > 0) by (nonlinear_arith)
        requires
            0 <= n < low * high,
            0 <= low,
    ;
    let r = n % low;
    let q = n / low;
    assert(0 <= r < low && 0 <= q) by (nonlinear_arith)
        requires
            low > 0,
            n >= 0,
            r == n % low,
            q == n / low,
    ;
    vstd::arithmetic::div_mod::lemma_fundamental_div_mod(n, low);
    assert(q < high) by (nonlinear_arith)
        requires
            n == low * q + r,
            r >= 0,
            n < low * high,
            low > 0,
    ;
}

} // verus!
