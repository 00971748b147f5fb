//! Phase conventions of factors: which columns and rows are multiplied.

use vstd::prelude::*;

use crate::dense::matrix_fits;
use crate::spectrum::{combined, is_operation};
use crate::writes::store;

verus! {

/// `data` after `count` elements, from `start` on and `step` apart, were
/// multiplied by `factor`, in order.
pub open spec fn scale_strided<D, G: Fn(D, D) -> D>(
    data: Seq<D>,
    start: int,
    step: int,
    factor: D,
    multiply: G,
    count: int,
) -> Seq<D>
    decreases count,
{
    if count <= 0 {
        data
    } else {
        let before = scale_strided(data, start, step, factor, multiply, count - 1);
        let position = start + step * (count - 1);
        store(before, (position, combined(multiply, before[position], factor)))
    }
}

/// Column `col` of a matrix with `rows` rows, multiplied by a factor.
pub open spec fn scaled_col<D, G: Fn(D, D) -> D>(
    data: Seq<D>,
    rows: int,
    leading: int,
    col: int,
    factor: D,
    multiply: G,
) -> Seq<D> {
    scale_strided(data, leading * col, 1, factor, multiply, rows)
}

/// Row `row` of a matrix with `cols` columns, multiplied by a factor.
pub open spec fn scaled_row<D, G: Fn(D, D) -> D>(
    data: Seq<D>,
    cols: int,
    leading: int,
    row: int,
    factor: D,
    multiply: G,
) -> Seq<D> {
    scale_strided(data, row, leading, factor, multiply, cols)
}

/// Multiplies the first `rows` elements of one column.
pub fn scale_col<D: Copy, G: Fn(D, D) -> D>(
    data: &mut [D],
    rows: usize,
    leading: usize,
    col: usize,
    factor: D,
    multiply: &G,
)
    requires
        is_operation(multiply),
        rows > 0 ==> leading * col + rows <= old(data)@.len(),
    ensures
        final(data)@.len() == old(data)@.len(),
        final(data)@ == scaled_col(
            old(data)@,
            rows as int,
            leading as int,
            col as int,
            factor,
            multiply,
        ),
{
    if rows == 0 {
        return;
    }
    let len: usize = data.len();
    proof {
        assert(leading * col >= 0) by (nonlinear_arith)
            requires
                leading >= 0,
                col >= 0,
        ;
    }
    let start: usize = leading * col;
    let mut row: usize = 0;
    while row < rows
        invariant
            row <= rows,
            is_operation(multiply),
            len == data@.len() == old(data)@.len(),
            start + rows <= len,
            data@ == scale_strided(
                old(data)@,
                start as int,
                1,
                factor,
                multiply,
                row as int,
            ),
        decreases rows - row,
    {
        let value: D = data[start + row];
        let product: D = multiply(value, factor);
        proof {
            let z = combined(multiply, value, factor);
            assert(call_ensures(multiply, (value, factor), z));
        }
        data[start + row] = product;
        row += 1;
    }
}

/// Multiplies the first `cols` elements of one row.
pub fn scale_row<D: Copy, G: Fn(D, D) -> D>(
    data: &mut [D],
    cols: usize,
    leading: usize,
    row: usize,
    factor: D,
    multiply: &G,
)
    requires
        is_operation(multiply),
        cols > 0 ==> row + leading * (cols - 1) < old(data)@.len(),
    ensures
        final(data)@.len() == old(data)@.len(),
        final(data)@ == scaled_row(
            old(data)@,
            cols as int,
            leading as int,
            row as int,
            factor,
            multiply,
        ),
{
    let len: usize = data.len();
    let mut col: usize = 0;
    while col < cols
        invariant
            col <= cols,
            is_operation(multiply),
            len == data@.len() == old(data)@.len(),
            cols > 0 ==> row + leading * (cols - 1) < len,
            data@ == scale_strided(
                old(data)@,
                row as int,
                leading as int,
                factor,
                multiply,
                col as int,
            ),
        decreases cols - col,
    {
        proof {
            assert(0 <= leading * col <= leading * (cols - 1)) by (nonlinear_arith)
                requires
                    0 <= leading,
                    0 <= col <= cols - 1,
            ;
        }
        let index: usize = row + leading * col;
        let value: D = data[index];
        let product: D = multiply(value, factor);
        proof {
            let z = combined(multiply, value, factor);
            assert(call_ensures(multiply, (value, factor), z));
        }
        data[index] = product;
        col += 1;
    }
}

/// The phase of one bond state: a factor for its column on the left and one
/// for its row on the right.
#[derive(Clone, Copy, Debug, PartialEq, Eq)]
pub struct BondPhase<D> {
    pub column: D,
    pub row: D,
}

/// Both factors of a decomposition.
pub struct GaugedPair<D> {
    pub left: Seq<D>,
    pub right: Seq<D>,
}

/// Both factors after the first `count` bond states got their phases; a state
/// without phase stays as it is.
pub open spec fn gauged<D, G: Fn(D, D) -> D>(
    pair: GaugedPair<D>,
    left_rows: int,
    left_leading: int,
    right_cols: int,
    right_leading: int,
    phases: Seq<Option<BondPhase<D>>>,
    multiply: G,
    count: int,
) -> GaugedPair<D>
    decreases count,
{
    if count <= 0 {
        pair
    } else {
        let before = gauged(
            pair,
            left_rows,
            left_leading,
            right_cols,
            right_leading,
            phases,
            multiply,
            count - 1,
        );
        match phases[count - 1] {
            None => before,
            Some(phase) => GaugedPair {
                left: scaled_col(
                    before.left,
                    left_rows,
                    left_leading,
                    count - 1,
                    phase.column,
                    multiply,
                ),
                right: scaled_row(
                    before.right,
                    right_cols,
                    right_leading,
                    count - 1,
                    phase.row,
                    multiply,
                ),
            },
        }
    }
}

/// Gives every bond state its phase: its column of the left factor and its row
/// of the right factor are multiplied.
pub fn apply_bond_phases<D: Copy, G: Fn(D, D) -> D>(
    left: &mut [D],
    left_rows: usize,
    left_leading: usize,
    right: &mut [D],
    right_cols: usize,
    right_leading: usize,
    phases: &[Option<BondPhase<D>>],
    multiply: &G,
)
    requires
        is_operation(multiply),
        matrix_fits(
            left_rows as int,
            phases@.len() as int,
            left_leading as int,
            old(left)@.len() as int,
        ),
        phases@.len() > 0 && right_cols > 0 ==> phases@.len() + right_leading * (right_cols - 1)
            <= old(right)@.len(),
    ensures
        final(left)@.len() == old(left)@.len(),
        final(right)@.len() == old(right)@.len(),
        ({
            let expected = gauged(
                GaugedPair { left: old(left)@, right: old(right)@ },
                left_rows as int,
                left_leading as int,
                right_cols as int,
                right_leading as int,
                phases@,
                multiply,
                phases@.len() as int,
            );
            &&& final(left)@ == expected.left
            &&& final(right)@ == expected.right
        }),
{
    let ghost start = GaugedPair { left: left@, right: right@ };
    let mut j: usize = 0;
    while j < phases.len()
        invariant
            j <= phases@.len(),
            is_operation(multiply),
            matrix_fits(
                left_rows as int,
                phases@.len() as int,
                left_leading as int,
                left@.len() as int,
            ),
            phases@.len() > 0 && right_cols > 0 ==> phases@.len() + right_leading * (right_cols
                - 1) <= right@.len(),
            left@.len() == old(left)@.len(),
            right@.len() == old(right)@.len(),
            start == (GaugedPair { left: old(left)@, right: old(right)@ }),
            gauged(
                start,
                left_rows as int,
                left_leading as int,
                right_cols as int,
                right_leading as int,
                phases@,
                multiply,
                j as int,
            ) == (GaugedPair { left: left@, right: right@ }),
        decreases phases.len() - j,
    {
        if let Some(phase) = phases[j] {
            proof {
                assert(left_leading * j <= left_leading * (phases@.len() - 1))
                    by (nonlinear_arith)
                    requires
                        left_leading >= 0,
                        j <= phases@.len() - 1,
                ;
            }
            scale_col(left, left_rows, left_leading, j, phase.column, multiply);
            scale_row(right, right_cols, right_leading, j, phase.row, multiply);
        }
        j += 1;
    }
}

/// A matrix after its columns from `from` on, up to `to`, got their phases.
pub open spec fn gauged_columns<D, G: Fn(D, D) -> D>(
    data: Seq<D>,
    rows: int,
    leading: int,
    phases: Seq<Option<D>>,
    multiply: G,
    from: int,
    to: int,
) -> Seq<D>
    decreases to - from,
{
    if to <= from {
        data
    } else {
        let before = gauged_columns(data, rows, leading, phases, multiply, from, to - 1);
        match phases[to - 1] {
            None => before,
            Some(phase) => scaled_col(before, rows, leading, to - 1, phase, multiply),
        }
    }
}

/// Multiplies the columns from `from` on by their phases, where they have one.
pub fn apply_column_phases<D: Copy, G: Fn(D, D) -> D>(
    data: &mut [D],
    rows: usize,
    leading: usize,
    phases: &[Option<D>],
    from: usize,
    multiply: &G,
)
    requires
        is_operation(multiply),
        from <= phases@.len(),
        matrix_fits(
            rows as int,
            phases@.len() as int,
            leading as int,
            old(data)@.len() as int,
        ),
    ensures
        final(data)@.len() == old(data)@.len(),
        final(data)@ == gauged_columns(
            old(data)@,
            rows as int,
            leading as int,
            phases@,
            multiply,
            from as int,
            phases@.len() as int,
        ),
{
    let mut j: usize = from;
    while j < phases.len()
        invariant
            from <= j <= phases@.len(),
            is_operation(multiply),
            matrix_fits(rows as int, phases@.len() as int, leading as int, data@.len() as int),
            data@.len() == old(data)@.len(),
            data@ == gauged_columns(
                old(data)@,
                rows as int,
                leading as int,
                phases@,
                multiply,
                from as int,
                j as int,
            ),
        decreases phases.len() - j,
    {
        if let Some(phase) = phases[j] {
            proof {
                assert(leading * j <= leading * (phases@.len() - 1)) by (nonlinear_arith)
                    requires
                        leading >= 0,
                        j <= phases@.len() - 1,
                ;
            }
            scale_col(data, rows, leading, j, phase, multiply);
        }
        j += 1;
    }
}

/// A matrix after its rows from `from` on, up to `to`, got their phases.
pub open spec fn gauged_rows<D, G: Fn(D, D) -> D>(
    data: Seq<D>,
    cols: int,
    leading: int,
    phases: Seq<Option<D>>,
    multiply: G,
    from: int,
    to: int,
) -> Seq<D>
    decreases to - from,
{
    if to <= from {
        data
    } else {
        let before = gauged_rows(data, cols, leading, phases, multiply, from, to - 1);
        match phases[to - 1] {
            None => before,
            Some(phase) => scaled_row(before, cols, leading, to - 1, phase, multiply),
        }
    }
}

/// Multiplies the rows from `from` on by their phases, where they have one.
pub fn apply_row_phases<D: Copy, G: Fn(D, D) -> D>(
    data: &mut [D],
    cols: usize,
    leading: usize,
    phases: &[Option<D>],
    from: usize,
    multiply: &G,
)
    requires
        is_operation(multiply),
        from <= phases@.len(),
        phases@.len() > 0 && cols > 0 ==> phases@.len() + leading * (cols - 1) <= old(
            data,
        )@.len(),
    ensures
        final(data)@.len() == old(data)@.len(),
        final(data)@ == gauged_rows(
            old(data)@,
            cols as int,
            leading as int,
            phases@,
            multiply,
            from as int,
            phases@.len() as int,
        ),
{
    let mut j: usize = from;
    while j < phases.len()
        invariant
            from <= j <= phases@.len(),
            is_operation(multiply),
            phases@.len() > 0 && cols > 0 ==> phases@.len() + leading * (cols - 1)
                <= data@.len(),
            data@.len() == old(data)@.len(),
            data@ == gauged_rows(
                old(data)@,
                cols as int,
                leading as int,
                phases@,
                multiply,
                from as int,
                j as int,
            ),
        decreases phases.len() - j,
    {
        if let Some(phase) = phases[j] {
            scale_row(data, cols, leading, j, phase, multiply);
        }
        j += 1;
    }
}

} // verus!
