//! Copies between strided tensor blocks and column-major matrices.

use vstd::prelude::*;

use crate::index::{
    address, block_fits, coordinate, extent, leading_count, leading_extent,
    lemma_leading_extent_monotone, lemma_leading_extent_skip, lemma_split_bounds,
    lemma_nonempty_dimensions, lemma_partial_address_monotone, lemma_positive_extent,
    lemma_quotient_is_division, partial_address, quotient, BlockCursor,
};
use crate::error::OperationError;
use crate::writes::{apply_writes, lemma_writes_step, writes_fit, Write};

verus! {

/// Which of the two factors of a sector matrix, and which of its two sides.
#[derive(Clone, Copy, Debug, PartialEq, Eq, Structural, Hash)]
pub enum FactorSide {
    Left,
    Right,
}

/// A buffer of `len` copies of `value`.
pub fn filled<D: Copy>(value: D, len: usize) -> (data: Vec<D>)
    ensures
        data@ == Seq::new(len as nat, |k: int| value),
{
    let mut data: Vec<D> = Vec::with_capacity(len);
    while data.len() < len
        invariant
            data@.len() <= len,
            forall|k: int| 0 <= k < data@.len() ==> data@[k] == value,
        decreases len - data.len(),
    {
        data.push(value);
    }
    assert(data@ =~= Seq::new(len as nat, |k: int| value));
    data
}

/// The writes that place a block's elements, in column-major order, into a
/// column-major matrix with `rows` rows: the first `nout` axes select the row
/// counted from `row_offset`, the others the column from `col_offset`.
pub open spec fn matricization_writes<D>(
    source: Seq<D>,
    shape: Seq<usize>,
    strides: Seq<usize>,
    offset: int,
    nout: int,
    rows: int,
    row_offset: int,
    col_offset: int,
) -> Seq<Write<D>> {
    let row_extent = leading_extent(shape, nout);
    Seq::new(
        extent(shape) as nat,
        |n: int|
            (
                row_offset + n % row_extent + rows * (col_offset + n / row_extent),
                source[offset + address(shape, strides, n)],
            ),
    )
}

/// Copies one tensor block into its rows and columns of a sector matrix.
pub fn copy_tensor_block_to_matrix<D: Copy>(
    source: &[D],
    shape: &[usize],
    strides: &[usize],
    offset: usize,
    nout: usize,
    matrix: &mut [D],
    matrix_rows: usize,
    row_offset: usize,
    col_offset: usize,
)
    requires
        nout <= shape@.len(),
        extent(shape@) <= usize::MAX,
        block_fits(shape@, strides@, offset as int, source@.len() as int),
        col_offset + extent(shape@.skip(nout as int)) <= usize::MAX,
        writes_fit(
            matricization_writes(
                source@,
                shape@,
                strides@,
                offset as int,
                nout as int,
                matrix_rows as int,
                row_offset as int,
                col_offset as int,
            ),
            old(matrix)@.len() as int,
        ),
    ensures
        final(matrix)@ == apply_writes(
            old(matrix)@,
            matricization_writes(
                source@,
                shape@,
                strides@,
                offset as int,
                nout as int,
                matrix_rows as int,
                row_offset as int,
                col_offset as int,
            ),
        ),
        final(matrix)@.len() == old(matrix)@.len(),
{
    let ghost writes = matricization_writes(
        source@,
        shape@,
        strides@,
        offset as int,
        nout as int,
        matrix_rows as int,
        row_offset as int,
        col_offset as int,
    );
    let total: usize = leading_count(shape, shape.len());
    if total == 0 {
        assert(writes =~= Seq::empty());
        return;
    }
    proof {
        lemma_leading_extent_monotone(shape@, nout as int, shape@.len() as int);
        lemma_leading_extent_skip(shape@, nout as int, shape@.len() - nout);
    }
    let row_extent: usize = leading_count(shape, nout);
    let len: usize = matrix.len();
    let mut cursor = BlockCursor::new(shape, strides, offset);
    let mut n: usize = 0;
    proof {
        assert(writes.take(0) =~= Seq::empty());
    }
    while n < total
        invariant
            n <= total,
            total == extent(shape@),
            row_extent == leading_extent(shape@, nout as int),
            0 < row_extent,
            writes == matricization_writes(
                source@,
                shape@,
                strides@,
                offset as int,
                nout as int,
                matrix_rows as int,
                row_offset as int,
                col_offset as int,
            ),
            block_fits(shape@, strides@, offset as int, source@.len() as int),
            total == row_extent * extent(shape@.skip(nout as int)),
            col_offset + extent(shape@.skip(nout as int)) <= usize::MAX,
            writes_fit(writes, old(matrix)@.len() as int),
            len == matrix@.len() == old(matrix)@.len(),
            n < total ==> cursor.at(shape@, strides@, offset as int, n as int),
            matrix@ == apply_writes(old(matrix)@, writes.take(n as int)),
        decreases total - n,
    {
        let row: usize = n % row_extent;
        let col: usize = n / row_extent;
        proof {
            lemma_split_bounds(
                n as int,
                row_extent as int,
                extent(shape@.skip(nout as int)),
            );
        }
        assert(writes[n as int].0 == row_offset + row + matrix_rows * (col_offset + col));
        assert(writes[n as int].0 < matrix@.len());
        assert(matrix_rows * (col_offset + col) >= 0) by (nonlinear_arith)
            requires
                matrix_rows >= 0,
                col_offset + col >= 0,
        ;
        assert(offset + address(shape@, strides@, n as int) < source@.len());
        let position: usize = row_offset + row + matrix_rows * (col_offset + col);
        matrix[position] = source[cursor.position];
        proof {
            lemma_writes_step(old(matrix)@, writes, n as int);
        }
        n += 1;
        if n < total {
            assert(offset + address(shape@, strides@, n as int) < source@.len());
            cursor.advance(
                Ghost(shape@),
                Ghost(strides@),
                Ghost(offset as int),
                Ghost((n - 1) as int),
            );
        }
    }
    proof {
        assert(writes.take(total as int) =~= writes);
    }
}

/// The writes that copy a block of one shape between two strided layouts.
pub open spec fn prefix_writes<D>(
    source: Seq<D>,
    source_strides: Seq<usize>,
    source_offset: int,
    destination_strides: Seq<usize>,
    destination_offset: int,
    shape: Seq<usize>,
) -> Seq<Write<D>> {
    Seq::new(
        extent(shape) as nat,
        |n: int|
            (
                destination_offset + address(shape, destination_strides, n),
                source[source_offset + address(shape, source_strides, n)],
            ),
    )
}

/// Copies the elements of `shape` from one strided block into another.
pub fn copy_matching_block_prefix<D: Copy>(
    source: &[D],
    source_strides: &[usize],
    source_offset: usize,
    destination: &mut [D],
    destination_strides: &[usize],
    destination_offset: usize,
    shape: &[usize],
)
    requires
        extent(shape@) <= usize::MAX,
        block_fits(shape@, source_strides@, source_offset as int, source@.len() as int),
        block_fits(
            shape@,
            destination_strides@,
            destination_offset as int,
            old(destination)@.len() as int,
        ),
    ensures
        final(destination)@ == apply_writes(
            old(destination)@,
            prefix_writes(
                source@,
                source_strides@,
                source_offset as int,
                destination_strides@,
                destination_offset as int,
                shape@,
            ),
        ),
        final(destination)@.len() == old(destination)@.len(),
{
    let ghost writes = prefix_writes(
        source@,
        source_strides@,
        source_offset as int,
        destination_strides@,
        destination_offset as int,
        shape@,
    );
    let total: usize = leading_count(shape, shape.len());
    if total == 0 {
        assert(writes =~= Seq::empty());
        return;
    }
    let mut from = BlockCursor::new(shape, source_strides, source_offset);
    let mut to = BlockCursor::new(shape, destination_strides, destination_offset);
    let mut n: usize = 0;
    proof {
        assert(writes.take(0) =~= Seq::empty());
    }
    while n < total
        invariant
            n <= total,
            total == extent(shape@),
            writes == prefix_writes(
                source@,
                source_strides@,
                source_offset as int,
                destination_strides@,
                destination_offset as int,
                shape@,
            ),
            block_fits(shape@, source_strides@, source_offset as int, source@.len() as int),
            block_fits(
                shape@,
                destination_strides@,
                destination_offset as int,
                old(destination)@.len() as int,
            ),
            destination@.len() == old(destination)@.len(),
            n < total ==> from.at(shape@, source_strides@, source_offset as int, n as int),
            n < total ==> to.at(
                shape@,
                destination_strides@,
                destination_offset as int,
                n as int,
            ),
            destination@ == apply_writes(old(destination)@, writes.take(n as int)),
        decreases total - n,
    {
        assert(source_offset + address(shape@, source_strides@, n as int) < source@.len());
        assert(destination_offset + address(shape@, destination_strides@, n as int)
            < destination@.len());
        destination[to.position] = source[from.position];
        proof {
            lemma_writes_step(old(destination)@, writes, n as int);
        }
        n += 1;
        if n < total {
            assert(source_offset + address(shape@, source_strides@, n as int) < source@.len());
            assert(destination_offset + address(shape@, destination_strides@, n as int)
                < destination@.len());
            from.advance(
                Ghost(shape@),
                Ghost(source_strides@),
                Ghost(source_offset as int),
                Ghost((n - 1) as int),
            );
            to.advance(
                Ghost(shape@),
                Ghost(destination_strides@),
                Ghost(destination_offset as int),
                Ghost((n - 1) as int),
            );
        }
    }
    proof {
        assert(writes.take(total as int) =~= writes);
    }
}

/// Linear index of element `n` over all axes of a block but `axis`.
pub open spec fn side_index(shape: Seq<usize>, n: int, axis: int) -> int {
    let low = leading_extent(shape, axis);
    n % low + low * (n / leading_extent(shape, axis + 1))
}

/// Number of elements of all axes of a block but `axis`.
pub open spec fn side_extent(shape: Seq<usize>, axis: int) -> int {
    leading_extent(shape, axis) * extent(shape.skip(axis + 1))
}

/// Position of the element with side index `side` and bond index `bond` in a
/// column-major factor with `rows` rows: a left factor carries the bond on its
/// columns, a right factor on its rows.
pub open spec fn factor_position(layout: FactorSide, rows: int, side: int, bond: int) -> int {
    match layout {
        FactorSide::Left => side + rows * bond,
        FactorSide::Right => bond + rows * side,
    }
}

/// The layout in which a block with its bond on `axis` reads its factor. A
/// trailing bond belongs to a left factor; where the block has no other axis
/// the factor's own side decides.
pub open spec fn factor_layout(rank: int, axis: int, factor_side: FactorSide) -> FactorSide {
    if axis + 1 == rank && (rank > 1 || factor_side == FactorSide::Left) {
        FactorSide::Left
    } else {
        FactorSide::Right
    }
}

/// Where element `n` of a block comes from in its factor.
pub open spec fn scatter_source(
    shape: Seq<usize>,
    axis: int,
    factor_side: FactorSide,
    rows: int,
    side_offset: int,
    n: int,
) -> int {
    if shape.len() == 0 {
        side_offset
    } else {
        factor_position(
            factor_layout(shape.len() as int, axis, factor_side),
            rows,
            side_offset + side_index(shape, n, axis),
            coordinate(shape, n, axis),
        )
    }
}

/// The writes that fill a block from its rows or columns of a factor.
pub open spec fn scatter_writes<D>(
    shape: Seq<usize>,
    strides: Seq<usize>,
    offset: int,
    axis: int,
    factor_side: FactorSide,
    matrix: Seq<D>,
    rows: int,
    side_offset: int,
) -> Seq<Write<D>> {
    Seq::new(
        extent(shape) as nat,
        |n: int|
            (
                offset + address(shape, strides, n),
                matrix[scatter_source(shape, axis, factor_side, rows, side_offset, n)],
            ),
    )
}

/// Every element of the block is read inside a factor of `len` elements.
pub open spec fn scatter_reads_fit(
    shape: Seq<usize>,
    axis: int,
    factor_side: FactorSide,
    rows: int,
    side_offset: int,
    len: int,
) -> bool {
    forall|n: int|
        0 <= n < extent(shape) ==> (#[trigger] scatter_source(
            shape,
            axis,
            factor_side,
            rows,
            side_offset,
            n,
        )) < len
}

/// Copies a region of a dense factor into one fusion-tree block.
///
/// `matrix_axis` is the block axis that walks the bond; the other axes
/// enumerate the factor's side from `side_offset` on, the first fastest.
pub fn scatter_matrix_block<D: Copy>(
    data: &mut [D],
    shape: &[usize],
    strides: &[usize],
    offset: usize,
    matrix_axis: usize,
    factor_side: FactorSide,
    matrix: &[D],
    matrix_rows: usize,
    side_offset: usize,
)
    requires
        shape@.len() == 0 || matrix_axis < shape@.len(),
        extent(shape@) <= usize::MAX,
        shape@.len() > 0 ==> side_offset + side_extent(shape@, matrix_axis as int) <= usize::MAX,
        block_fits(shape@, strides@, offset as int, old(data)@.len() as int),
        scatter_reads_fit(
            shape@,
            matrix_axis as int,
            factor_side,
            matrix_rows as int,
            side_offset as int,
            matrix@.len() as int,
        ),
    ensures
        final(data)@ == apply_writes(
            old(data)@,
            scatter_writes(
                shape@,
                strides@,
                offset as int,
                matrix_axis as int,
                factor_side,
                matrix@,
                matrix_rows as int,
                side_offset as int,
            ),
        ),
        final(data)@.len() == old(data)@.len(),
{
    let ghost axis = matrix_axis as int;
    let ghost writes = scatter_writes(
        shape@,
        strides@,
        offset as int,
        axis,
        factor_side,
        matrix@,
        matrix_rows as int,
        side_offset as int,
    );
    proof {
        assert(writes.take(0) =~= Seq::empty());
    }
    if shape.len() == 0 {
        proof {
            assert(address(shape@, strides@, 0) == 0);
            assert(scatter_source(
                shape@,
                axis,
                factor_side,
                matrix_rows as int,
                side_offset as int,
                0,
            ) < matrix@.len());
            lemma_writes_step(data@, writes, 0);
            assert(writes.take(1) =~= writes);
        }
        data[offset] = matrix[side_offset];
        return;
    }
    let total: usize = leading_count(shape, shape.len());
    if total == 0 {
        assert(writes =~= Seq::empty());
        return;
    }
    proof {
        lemma_leading_extent_monotone(shape@, axis + 1, shape@.len() as int);
        lemma_leading_extent_monotone(shape@, axis, axis + 1);
        lemma_nonempty_dimensions(shape@, axis + 1);
    }
    let low: usize = leading_count(shape, matrix_axis);
    let high: usize = leading_count(shape, matrix_axis + 1);
    let dim: usize = shape[matrix_axis];
    let left_layout: bool = matrix_axis + 1 == shape.len() && (shape.len() > 1 || factor_side
        == FactorSide::Left);
    let len: usize = matrix.len();
    let mut cursor = BlockCursor::new(shape, strides, offset);
    let mut n: usize = 0;
    while n < total
        invariant
            n <= total,
            total == extent(shape@),
            axis == matrix_axis < shape@.len(),
            low == leading_extent(shape@, axis),
            high == leading_extent(shape@, axis + 1),
            0 < dim == shape@[axis],
            0 < low <= high,
            left_layout == (factor_layout(shape@.len() as int, axis, factor_side)
                == FactorSide::Left),
            len == matrix@.len(),
            side_offset + side_extent(shape@, axis) <= usize::MAX,
            writes == scatter_writes(
                shape@,
                strides@,
                offset as int,
                axis,
                factor_side,
                matrix@,
                matrix_rows as int,
                side_offset as int,
            ),
            block_fits(shape@, strides@, offset as int, old(data)@.len() as int),
            scatter_reads_fit(
                shape@,
                axis,
                factor_side,
                matrix_rows as int,
                side_offset as int,
                matrix@.len() as int,
            ),
            data@.len() == old(data)@.len(),
            n < total ==> cursor.at(shape@, strides@, offset as int, n as int),
            data@ == apply_writes(old(data)@, writes.take(n as int)),
        decreases total - n,
    {
        proof {
            lemma_side_index(shape@, n as int, axis);
            lemma_quotient_is_division(shape@, n as int, axis);
        }
        let side: usize = n % low + low * (n / high);
        let bond: usize = (n / low) % dim;
        let from: usize = side_offset + side;
        let ghost source = scatter_source(
            shape@,
            axis,
            factor_side,
            matrix_rows as int,
            side_offset as int,
            n as int,
        );
        proof {
            assert(source < matrix@.len());
            assert(matrix_rows * bond >= 0 && matrix_rows * from >= 0) by (nonlinear_arith)
                requires
                    matrix_rows >= 0,
                    bond >= 0,
                    from >= 0,
            ;
            assert(offset + address(shape@, strides@, n as int) < data@.len());
        }
        let position: usize = if left_layout {
            from + matrix_rows * bond
        } else {
            bond + matrix_rows * from
        };
        data[cursor.position] = matrix[position];
        proof {
            lemma_writes_step(old(data)@, writes, n as int);
        }
        n += 1;
        if n < total {
            assert(offset + address(shape@, strides@, n as int) < data@.len());
            cursor.advance(
                Ghost(shape@),
                Ghost(strides@),
                Ghost(offset as int),
                Ghost((n - 1) as int),
            );
        }
    }
    proof {
        assert(writes.take(total as int) =~= writes);
    }
}

/// The side index of an element lies below the side extent.
pub proof fn lemma_side_index(shape: Seq<usize>, n: int, axis: int)
    requires
        0 <= axis < shape.len(),
        0 <= n < extent(shape),
    ensures
        0 <= side_index(shape, n, axis) < side_extent(shape, axis),
        leading_extent(shape, axis) > 0,
        leading_extent(shape, axis + 1) > 0,
        0 <= leading_extent(shape, axis) * (n / leading_extent(shape, axis + 1)),
        0 <= n % leading_extent(shape, axis),
{
    lemma_leading_extent_monotone(shape, axis + 1, shape.len() as int);
    lemma_leading_extent_monotone(shape, axis, axis + 1);
    lemma_leading_extent_skip(shape, axis + 1, shape.len() - axis - 1);
    let low = leading_extent(shape, axis);
    let high = leading_extent(shape, axis + 1);
    let rest = extent(shape.skip(axis + 1));
    lemma_split_bounds(n, high, rest);
    let q = n / high;
    assert(0 <= n % low < low) by (nonlinear_arith)
        requires
            0 < low,
            n >= 0,
    ;
    assert(0 <= low * q && low * q + low <= low * rest) by (nonlinear_arith)
        requires
            0 < low,
            0 <= q,
            q + 1 <= rest,
    ;
}

/// The writes that put ones on the diagonal of a block whose bond lies on
/// `axis`, where the other axes enumerate the bond from `side_offset` on.
pub open spec fn identity_writes<D>(
    shape: Seq<usize>,
    strides: Seq<usize>,
    offset: int,
    axis: int,
    side_offset: int,
    side_extent: int,
    one: D,
) -> Seq<Write<D>> {
    Seq::new(
        side_extent as nat,
        |k: int|
            (
                offset + (side_offset + k) * strides[axis] + address(
                    shape.remove(axis),
                    strides.remove(axis),
                    k,
                ),
                one,
            ),
    )
}

/// How many of `side_extent` diagonal entries have an index that fits.
pub open spec fn representable(side_offset: int, side_extent: int) -> int {
    if side_offset + side_extent <= usize::MAX + 1 {
        side_extent
    } else {
        usize::MAX + 1 - side_offset
    }
}

/// Distance of element `n` of a strided block from its origin.
pub(crate) fn strided_address(shape: &[usize], strides: &[usize], n: usize) -> (position: usize)
    requires
        shape@.len() == strides@.len(),
        forall|k: int| 0 <= k < shape@.len() ==> shape@[k] > 0,
        address(shape@, strides@, n as int) <= usize::MAX,
    ensures
        position == address(shape@, strides@, n as int),
{
    let mut position: usize = 0;
    let mut remaining: usize = n;
    let mut axis: usize = 0;
    while axis < shape.len()
        invariant
            axis <= shape@.len() == strides@.len(),
            forall|k: int| 0 <= k < shape@.len() ==> shape@[k] > 0,
            address(shape@, strides@, n as int) <= usize::MAX,
            remaining == quotient(shape@, n as int, axis as int),
            position == partial_address(shape@, strides@, n as int, axis as int),
        decreases shape.len() - axis,
    {
        proof {
            lemma_positive_extent(shape@, shape@.len() as int);
            lemma_partial_address_monotone(
                shape@,
                strides@,
                n as int,
                axis + 1,
                shape@.len() as int,
            );
            lemma_partial_address_monotone(shape@, strides@, n as int, 0, axis as int);
        }
        let coordinate: usize = remaining % shape[axis];
        position = position + coordinate * strides[axis];
        remaining = remaining / shape[axis];
        axis += 1;
    }
    position
}

/// Puts an identity into a block of a sector without source matrix: entry
/// `(k, side_offset + k)` for each of the `side_extent` side indices `k`.
pub fn scatter_identity_matrix_block<D: Copy>(
    data: &mut [D],
    shape: &[usize],
    strides: &[usize],
    offset: usize,
    matrix_axis: usize,
    matrix_dimension: usize,
    side_offset: usize,
    side_extent: usize,
    one: D,
) -> (result: Result<(), OperationError>)
    requires
        shape@.len() == strides@.len(),
        matrix_axis < shape@.len() && shape@[matrix_axis as int] == matrix_dimension
            && side_extent > 0 ==> {
            &&& forall|k: int| 0 <= k < shape@.len() && k != matrix_axis ==> shape@[k] > 0
            &&& forall|k: int|
                0 <= k < representable(side_offset as int, side_extent as int) ==> (
                #[trigger] identity_writes(
                    shape@,
                    strides@,
                    offset as int,
                    matrix_axis as int,
                    side_offset as int,
                    side_extent as int,
                    one,
                )[k]).0 < old(data)@.len()
        },
    ensures
        final(data)@.len() == old(data)@.len(),
        ({
            let writes = identity_writes(
                shape@,
                strides@,
                offset as int,
                matrix_axis as int,
                side_offset as int,
                side_extent as int,
                one,
            );
            let count = representable(side_offset as int, side_extent as int);
            if matrix_axis >= shape@.len() {
                &&& result == Err::<(), OperationError>(
                    OperationError::ElementCountMismatch { expected: matrix_dimension, actual: 0 },
                )
                &&& final(data)@ == old(data)@
            } else if shape@[matrix_axis as int] != matrix_dimension {
                &&& result == Err::<(), OperationError>(
                    OperationError::ElementCountMismatch {
                        expected: matrix_dimension,
                        actual: shape@[matrix_axis as int],
                    },
                )
                &&& final(data)@ == old(data)@
            } else {
                &&& result == if count < side_extent {
                    Err::<(), OperationError>(OperationError::ElementCountOverflow)
                } else {
                    Ok(())
                }
                &&& final(data)@ == apply_writes(old(data)@, writes.take(count))
            }
        }),
{
    if matrix_axis >= shape.len() {
        return Err(OperationError::ElementCountMismatch { expected: matrix_dimension, actual: 0 });
    }
    if shape[matrix_axis] != matrix_dimension {
        return Err(
            OperationError::ElementCountMismatch {
                expected: matrix_dimension,
                actual: shape[matrix_axis],
            },
        );
    }
    let mut side_shape: Vec<usize> = Vec::new();
    let mut side_strides: Vec<usize> = Vec::new();
    let mut axis: usize = 0;
    while axis < shape.len()
        invariant
            axis <= shape@.len() == strides@.len(),
            matrix_axis < shape@.len(),
            side_shape@.len() == side_strides@.len() == if axis <= matrix_axis {
                axis as int
            } else {
                axis - 1
            },
            forall|k: int|
                0 <= k < side_shape@.len() ==> side_shape@[k] == shape@.remove(
                    matrix_axis as int,
                )[k] && side_strides@[k] == strides@.remove(matrix_axis as int)[k],
        decreases shape.len() - axis,
    {
        if axis != matrix_axis {
            side_shape.push(shape[axis]);
            side_strides.push(strides[axis]);
        }
        axis += 1;
    }
    let ghost writes = identity_writes(
        shape@,
        strides@,
        offset as int,
        matrix_axis as int,
        side_offset as int,
        side_extent as int,
        one,
    );
    let ghost count = representable(side_offset as int, side_extent as int);
    proof {
        assert(side_shape@ =~= shape@.remove(matrix_axis as int));
        assert(side_strides@ =~= strides@.remove(matrix_axis as int));
        assert(writes.take(0) =~= Seq::empty());
    }
    let len: usize = data.len();
    let mut local: usize = 0;
    while local < side_extent
        invariant
            local <= side_extent,
            local <= count,
            count == representable(side_offset as int, side_extent as int),
            matrix_axis < shape@.len() == strides@.len(),
            shape@[matrix_axis as int] == matrix_dimension,
            side_shape@ == shape@.remove(matrix_axis as int),
            side_strides@ == strides@.remove(matrix_axis as int),
            writes == identity_writes(
                shape@,
                strides@,
                offset as int,
                matrix_axis as int,
                side_offset as int,
                side_extent as int,
                one,
            ),
            side_extent > 0 ==> forall|k: int|
                0 <= k < shape@.len() && k != matrix_axis ==> shape@[k] > 0,
            forall|k: int| 0 <= k < count ==> (#[trigger] writes[k]).0 < len,
            len == data@.len() == old(data)@.len(),
            data@ == apply_writes(old(data)@, writes.take(local as int)),
        decreases side_extent - local,
    {
        let matrix_index: usize = match side_offset.checked_add(local) {
            Some(matrix_index) => matrix_index,
            None => {
                return Err(OperationError::ElementCountOverflow);
            },
        };
        proof {
            assert(writes[local as int].0 < len);
            let s = strides@[matrix_axis as int] as int;
            assert(matrix_index * s >= 0) by (nonlinear_arith)
                requires
                    matrix_index >= 0,
                    s >= 0,
            ;
            lemma_positive_extent(side_shape@, side_shape@.len() as int);
            lemma_partial_address_monotone(
                side_shape@,
                side_strides@,
                local as int,
                0,
                side_shape@.len() as int,
            );
        }
        let local_position: usize = strided_address(&side_shape, &side_strides, local);
        let destination: usize = offset + matrix_index * strides[matrix_axis] + local_position;
        data[destination] = one;
        proof {
            lemma_writes_step(old(data)@, writes, local as int);
        }
        local += 1;
    }
    Ok(())
}

/// Writes the mapped `values` along a diagonal: value `k` at
/// `offset + k * diagonal_stride`.
pub fn copy_mapped_to_strided_diagonal<D, V: Copy, F: Fn(V) -> D>(
    data: &mut [D],
    offset: usize,
    diagonal_stride: usize,
    values: &[V],
    to_scalar: &F,
)
    requires
        writes_fit(
            diagonal_writes(offset as int, diagonal_stride as int, values@),
            old(data)@.len() as int,
        ),
        forall|k: int| 0 <= k < values@.len() ==> call_requires(to_scalar, (#[trigger] values@[k],)),
    ensures
        final(data)@.len() == old(data)@.len(),
        exists|mapped: Seq<D>| #[trigger]
            maps_to(to_scalar, values@, mapped) && final(data)@ == apply_writes(
                old(data)@,
                diagonal_writes(offset as int, diagonal_stride as int, mapped),
            ),
{
    let mut position: usize = 0;
    let ghost mut mapped: Seq<D> = Seq::empty();
    let len: usize = data.len();
    while position < values.len()
        invariant
            position <= values@.len(),
            mapped.len() == position,
            len == data@.len() == old(data)@.len(),
            writes_fit(
                diagonal_writes(offset as int, diagonal_stride as int, values@),
                old(data)@.len() as int,
            ),
            forall|k: int|
                0 <= k < values@.len() ==> call_requires(to_scalar, (#[trigger] values@[k],)),
            forall|k: int|
                0 <= k < position ==> #[trigger] call_ensures(
                    to_scalar,
                    (values@[k],),
                    mapped[k],
                ),
            data@ == apply_writes(
                old(data)@,
                diagonal_writes(offset as int, diagonal_stride as int, mapped),
            ),
        decreases values.len() - position,
    {
        let value: V = values[position];
        let scalar: D = to_scalar(value);
        proof {
            assert(diagonal_writes(
                offset as int,
                diagonal_stride as int,
                values@,
            )[position as int].0 < len);
            let next = mapped.push(scalar);
            let writes = diagonal_writes(offset as int, diagonal_stride as int, next);
            assert(writes.drop_last() =~= diagonal_writes(
                offset as int,
                diagonal_stride as int,
                mapped,
            ));
            assert(position * diagonal_stride >= 0) by (nonlinear_arith)
                requires
                    position >= 0,
                    diagonal_stride >= 0,
            ;
            mapped = next;
        }
        data[offset + position * diagonal_stride] = scalar;
        position += 1;
    }
    proof {
        assert(maps_to(to_scalar, values@, mapped));
    }
}

/// `mapped` holds what `map` gave for each of `values`.
pub open spec fn maps_to<V, D, F: Fn(V) -> D>(map: F, values: Seq<V>, mapped: Seq<D>) -> bool {
    &&& mapped.len() == values.len()
    &&& forall|k: int|
        0 <= k < values.len() ==> #[trigger] call_ensures(map, (values[k],), mapped[k])
}

/// The writes that lay `values` along a diagonal.
pub open spec fn diagonal_writes<D>(offset: int, stride: int, values: Seq<D>) -> Seq<Write<D>> {
    Seq::new(values.len(), |k: int| (offset + k * stride, values[k]))
}

} // verus!
