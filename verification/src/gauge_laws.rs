//! What a gauge keeps: the product of both factors.

use vstd::prelude::*;

use crate::gauge::{gauged, scale_strided, scaled_col, scaled_row, BondPhase, GaugedPair};
use crate::phases::{
    column_bond_phases, column_entries, conjugate_on_column, conjugate_on_row, diagonal_phases,
    largest_entry, phase_of_largest,
};
use crate::spectrum::{combined, image};

verus! {

/// Multiplication is commutative and associative.
pub open spec fn is_commutative_product<D, G: Fn(D, D) -> D>(multiply: G) -> bool {
    &&& forall|a: D, b: D| #[trigger] combined(multiply, a, b) == combined(multiply, b, a)
    &&& forall|a: D, b: D, c: D|
        #![trigger combined(multiply, combined(multiply, a, b), c)]
        #![trigger combined(multiply, a, combined(multiply, b, c))]
        combined(multiply, combined(multiply, a, b), c) == combined(
            multiply,
            a,
            combined(multiply, b, c),
        )
}

/// The two factors of a phase undo each other.
pub open spec fn cancels<D, G: Fn(D, D) -> D>(phase: BondPhase<D>, multiply: G) -> bool {
    forall|a: D|
        #[trigger] combined(multiply, a, combined(multiply, phase.column, phase.row)) == a
}

pub(crate) proof fn lemma_scale_strided<D, G: Fn(D, D) -> D>(
    data: Seq<D>,
    start: int,
    step: int,
    factor: D,
    multiply: G,
    count: int,
)
    requires
        0 <= start,
        0 < step,
        0 <= count,
        count > 0 ==> start + step * (count - 1) < data.len(),
    ensures
        scale_strided(data, start, step, factor, multiply, count).len() == data.len(),
        forall|i: int|
            0 <= i < count ==> scale_strided(data, start, step, factor, multiply, count)[
            #[trigger] strided(start, step, i)] == combined(
                multiply,
                data[strided(start, step, i)],
                factor,
            ),
        forall|q: int|
            0 <= q < data.len() && !is_strided(start, step, count, q) ==> (
            #[trigger] scale_strided(data, start, step, factor, multiply, count)[q]) == data[q],
    decreases count,
{
    if count > 0 {
        let before = scale_strided(data, start, step, factor, multiply, count - 1);
        let after = scale_strided(data, start, step, factor, multiply, count);
        let last = strided(start, step, count - 1);
        assert(step * (count - 2) <= step * (count - 1)) by (nonlinear_arith)
            requires
                step > 0,
        ;
        assert(0 <= step * (count - 1)) by (nonlinear_arith)
            requires
                step > 0,
                count > 0,
        ;
        lemma_scale_strided(data, start, step, factor, multiply, count - 1);
        if is_strided(start, step, count - 1, last) {
            let i = choose|i: int| 0 <= i < count - 1 && #[trigger] strided(start, step, i) == last;
            assert(step * i < step * (count - 1)) by (nonlinear_arith)
                requires
                    step > 0,
                    i < count - 1,
            ;
        }
        assert(before[last] == data[last]);
        assert forall|i: int| 0 <= i < count implies after[#[trigger] strided(start, step, i)]
            == combined(multiply, data[strided(start, step, i)], factor) by {
            if i < count - 1 {
                assert(step * i < step * (count - 1)) by (nonlinear_arith)
                    requires
                        step > 0,
                        i < count - 1,
                ;
            }
        }
        assert forall|q: int|
            0 <= q < data.len() && !is_strided(start, step, count, q) implies (
        #[trigger] after[q]) == data[q] by {
            assert(strided(start, step, count - 1) == last);
            assert(q != last);
            if is_strided(start, step, count - 1, q) {
                let i = choose|i: int|
                    0 <= i < count - 1 && #[trigger] strided(start, step, i) == q;
                assert(strided(start, step, i) == q);
            }
        }
    }
}

/// Position `i` of a range of positions `step` apart.
pub open spec fn strided(start: int, step: int, i: int) -> int {
    start + step * i
}

/// One of the first `count` positions of such a range.
pub open spec fn is_strided(start: int, step: int, count: int, q: int) -> bool {
    exists|i: int| 0 <= i < count && #[trigger] strided(start, step, i) == q
}

/// Cells of two different columns, or of two different rows, are apart.
pub(crate) proof fn lemma_cells_apart(leading: int, r: int, c: int, s: int, d: int)
    requires
        0 <= r < leading,
        0 <= s < leading,
        leading * c + r == leading * d + s,
    ensures
        r == s,
        c == d,
{
    crate::index::lemma_div_mod_unique(leading * c + r, leading, c, r);
    crate::index::lemma_div_mod_unique(leading * c + r, leading, d, s);
}

/// A cell of a matrix lies in the buffer.
proof fn lemma_cell_in_buffer(rows: int, cols: int, leading: int, len: int, r: int, c: int)
    requires
        0 <= r < rows,
        0 <= c < cols,
        0 <= leading,
        leading * (cols - 1) + rows <= len,
    ensures
        0 <= leading * c + r < len,
        0 <= leading * c,
{
    assert(0 <= leading * c <= leading * (cols - 1)) by (nonlinear_arith)
        requires
            0 <= leading,
            0 <= c <= cols - 1,
    ;
}

/// The element of the left factor at `(r, j)` after the first `count` states
/// got their phases, and that of the right factor at `(j, c)`.
proof fn lemma_gauged_cells<D, G: Fn(D, D) -> D>(
    pair: GaugedPair<D>,
    left_rows: int,
    left_leading: int,
    right_cols: int,
    right_leading: int,
    phases: Seq<Option<BondPhase<D>>>,
    multiply: G,
    count: int,
    r: int,
    j: int,
    c: int,
)
    requires
        0 <= count <= phases.len(),
        0 <= r < left_rows <= left_leading,
        left_leading * (phases.len() - 1) + left_rows <= pair.left.len(),
        0 <= c < right_cols,
        phases.len() <= right_leading,
        right_leading * (right_cols - 1) + phases.len() <= pair.right.len(),
        0 <= j < phases.len(),
    ensures
        ({
            let after = gauged(
                pair,
                left_rows,
                left_leading,
                right_cols,
                right_leading,
                phases,
                multiply,
                count,
            );
            let left = left_leading * j + r;
            let right = right_leading * c + j;
            &&& after.left.len() == pair.left.len()
            &&& after.right.len() == pair.right.len()
            &&& j < count && phases[j] is Some ==> after.left[left] == combined(
                multiply,
                pair.left[left],
                phases[j]->0.column,
            ) && after.right[right] == combined(multiply, pair.right[right], phases[j]->0.row)
            &&& !(j < count && phases[j] is Some) ==> after.left[left] == pair.left[left]
                && after.right[right] == pair.right[right]
        }),
    decreases count,
{
    if count > 0 {
        let k = count - 1;
        lemma_gauged_cells(
            pair,
            left_rows,
            left_leading,
            right_cols,
            right_leading,
            phases,
            multiply,
            k,
            r,
            j,
            c,
        );
        let before = gauged(
            pair,
            left_rows,
            left_leading,
            right_cols,
            right_leading,
            phases,
            multiply,
            k,
        );
        let left = left_leading * j + r;
        let right = right_leading * c + j;
        lemma_cell_in_buffer(
            left_rows,
            phases.len() as int,
            left_leading,
            pair.left.len() as int,
            r,
            j,
        );
        lemma_cell_in_buffer(
            phases.len() as int,
            right_cols,
            right_leading,
            pair.right.len() as int,
            j,
            c,
        );
        if let Some(phase) = phases[k] {
            lemma_cell_in_buffer(
                left_rows,
                phases.len() as int,
                left_leading,
                pair.left.len() as int,
                left_rows - 1,
                k,
            );
            lemma_cell_in_buffer(
                phases.len() as int,
                right_cols,
                right_leading,
                pair.right.len() as int,
                k,
                right_cols - 1,
            );
            assert(1 * (left_rows - 1) == left_rows - 1) by (nonlinear_arith);
            lemma_scale_strided(
                before.left,
                left_leading * k,
                1,
                phase.column,
                multiply,
                left_rows,
            );
            lemma_scale_strided(
                before.right,
                k,
                right_leading,
                phase.row,
                multiply,
                right_cols,
            );
            if j == k {
                assert(strided(left_leading * k, 1, r) == left);
                assert(strided(k, right_leading, c) == right);
            } else {
                if is_strided(left_leading * k, 1, left_rows, left) {
                    let i = choose|i: int|
                        0 <= i < left_rows && #[trigger] strided(left_leading * k, 1, i) == left;
                    lemma_cells_apart(left_leading, r, j, i, k);
                }
                if is_strided(k, right_leading, right_cols, right) {
                    let i = choose|i: int|
                        0 <= i < right_cols && #[trigger] strided(k, right_leading, i) == right;
                    lemma_cells_apart(right_leading, j, c, k, i);
                }
                assert(scaled_col(
                    before.left,
                    left_rows,
                    left_leading,
                    k,
                    phase.column,
                    multiply,
                )[left] == before.left[left]);
                assert(scaled_row(
                    before.right,
                    right_cols,
                    right_leading,
                    k,
                    phase.row,
                    multiply,
                )[right] == before.right[right]);
            }
        }
    }
}

/// A gauge keeps the product of both factors: with phases whose two factors
/// undo each other, every term `left(r, j) * right(j, c)` of the product is the
/// same after the gauge as before it.
pub proof fn lemma_gauge_keeps_product<D, G: Fn(D, D) -> D>(
    pair: GaugedPair<D>,
    left_rows: int,
    left_leading: int,
    right_cols: int,
    right_leading: int,
    phases: Seq<Option<BondPhase<D>>>,
    multiply: G,
    r: int,
    j: int,
    c: int,
)
    requires
        is_commutative_product(multiply),
        forall|k: int|
            0 <= k < phases.len() && (#[trigger] phases[k]) is Some ==> cancels(
                phases[k]->0,
                multiply,
            ),
        0 <= r < left_rows <= left_leading,
        left_leading * (phases.len() - 1) + left_rows <= pair.left.len(),
        0 <= c < right_cols,
        phases.len() <= right_leading,
        right_leading * (right_cols - 1) + phases.len() <= pair.right.len(),
        0 <= j < phases.len(),
    ensures
        ({
            let after = gauged(
                pair,
                left_rows,
                left_leading,
                right_cols,
                right_leading,
                phases,
                multiply,
                phases.len() as int,
            );
            combined(
                multiply,
                after.left[left_leading * j + r],
                after.right[right_leading * c + j],
            ) == combined(
                multiply,
                pair.left[left_leading * j + r],
                pair.right[right_leading * c + j],
            )
        }),
{
    lemma_gauged_cells(
        pair,
        left_rows,
        left_leading,
        right_cols,
        right_leading,
        phases,
        multiply,
        phases.len() as int,
        r,
        j,
        c,
    );
    if let Some(phase) = phases[j] {
        let a = pair.left[left_leading * j + r];
        let b = pair.right[right_leading * c + j];
        let p = phase.column;
        let q = phase.row;
        assert(cancels(phase, multiply));
        let ap = combined(multiply, a, p);
        let bq = combined(multiply, b, q);
        // (a p)(b q) == a (p (b q)) == a ((b q) p) == a (b (q p)) == a (b (p q))
        assert(combined(multiply, ap, bq) == combined(multiply, a, combined(multiply, p, bq)));
        assert(combined(multiply, p, bq) == combined(multiply, bq, p));
        assert(combined(multiply, bq, p) == combined(multiply, b, combined(multiply, q, p)));
        assert(combined(multiply, q, p) == combined(multiply, p, q));
        assert(combined(multiply, b, combined(multiply, p, q)) == b);
    }
}

/// Every phase that is given is undone by its conjugate.
pub open spec fn phases_are_units<
    D,
    P: Fn(D) -> Option<D>,
    C: Fn(D) -> D,
    G: Fn(D, D) -> D,
>(phase: P, conjugate: C, multiply: G) -> bool {
    forall|x: D, a: D|
        (#[trigger] image(phase, x)) is Some ==> #[trigger] combined(
            multiply,
            a,
            combined(multiply, image(phase, x)->0, image(conjugate, image(phase, x)->0)),
        ) == a
}

/// Making the diagonal of `r` nonnegative keeps the product `q * r`: every term
/// of it is the same after [`positive_diagonal_gauge`] as before.
///
/// [`positive_diagonal_gauge`]: crate::phases::positive_diagonal_gauge
pub proof fn lemma_diagonal_gauge_keeps_product<
    D,
    P: Fn(D) -> Option<D>,
    C: Fn(D) -> D,
    G: Fn(D, D) -> D,
>(
    pair: GaugedPair<D>,
    q_rows: int,
    r_rows: int,
    r_cols: int,
    count: int,
    phase: P,
    conjugate: C,
    multiply: G,
    r: int,
    j: int,
    c: int,
)
    requires
        is_commutative_product(multiply),
        phases_are_units(phase, conjugate, multiply),
        0 <= r < q_rows,
        0 <= j < count <= r_rows,
        0 <= c < r_cols,
        q_rows * (count - 1) + q_rows <= pair.left.len(),
        r_rows * (r_cols - 1) + count <= pair.right.len(),
    ensures
        ({
            let after = gauged(
                pair,
                q_rows,
                q_rows,
                r_cols,
                r_rows,
                diagonal_phases(pair.right, r_rows, count, phase, conjugate),
                multiply,
                count,
            );
            combined(multiply, after.left[q_rows * j + r], after.right[r_rows * c + j])
                == combined(multiply, pair.left[q_rows * j + r], pair.right[r_rows * c + j])
        }),
{
    let phases = diagonal_phases(pair.right, r_rows, count, phase, conjugate);
    assert forall|k: int| 0 <= k < phases.len() && (#[trigger] phases[k]) is Some implies cancels(
        phases[k]->0,
        multiply,
    ) by {
        let found = image(phase, pair.right[k + r_rows * k]);
        assert(phases[k] == conjugate_on_row(found, conjugate));
    }
    lemma_gauge_keeps_product(pair, q_rows, q_rows, r_cols, r_rows, phases, multiply, r, j, c);
}

/// Making the largest entry of every column of `u` positive keeps the product
/// `u * s * vh` of an SVD: every term of it is the same after
/// [`svd_compact_gauge`] as before.
///
/// [`svd_compact_gauge`]: crate::phases::svd_compact_gauge
pub proof fn lemma_column_gauge_keeps_product<
    D,
    K: Fn(D) -> u64,
    P: Fn(D) -> Option<D>,
    C: Fn(D) -> D,
    G: Fn(D, D) -> D,
>(
    pair: GaugedPair<D>,
    u_rows: int,
    u_leading: int,
    vh_rows: int,
    vh_cols: int,
    vh_leading: int,
    magnitude: K,
    phase: P,
    conjugate: C,
    multiply: G,
    r: int,
    j: int,
    c: int,
)
    requires
        is_commutative_product(multiply),
        phases_are_units(phase, conjugate, multiply),
        0 <= r < u_rows <= u_leading,
        0 <= j < vh_rows <= vh_leading,
        0 <= c < vh_cols,
        u_leading * (vh_rows - 1) + u_rows <= pair.left.len(),
        vh_leading * (vh_cols - 1) + vh_rows <= pair.right.len(),
    ensures
        ({
            let after = gauged(
                pair,
                u_rows,
                u_leading,
                vh_cols,
                vh_leading,
                column_bond_phases(
                    pair.left,
                    u_rows,
                    u_leading,
                    vh_rows,
                    magnitude,
                    phase,
                    conjugate,
                ),
                multiply,
                vh_rows,
            );
            combined(
                multiply,
                after.left[u_leading * j + r],
                after.right[vh_leading * c + j],
            ) == combined(
                multiply,
                pair.left[u_leading * j + r],
                pair.right[vh_leading * c + j],
            )
        }),
{
    let phases = column_bond_phases(
        pair.left,
        u_rows,
        u_leading,
        vh_rows,
        magnitude,
        phase,
        conjugate,
    );
    assert forall|k: int| 0 <= k < phases.len() && (#[trigger] phases[k]) is Some implies cancels(
        phases[k]->0,
        multiply,
    ) by {
        let entries = column_entries(pair.left, u_rows, u_leading, k);
        let found = phase_of_largest(entries, magnitude, phase);
        assert(phases[k] == conjugate_on_column(found, conjugate));
        let position = largest_entry(entries, magnitude, entries.len() as int)->0;
        assert(found == image(phase, entries[position]));
        assert forall|a: D| #[trigger]
            combined(
                multiply,
                a,
                combined(multiply, phases[k]->0.column, phases[k]->0.row),
            ) == a by {
            let p = found->0;
            assert(combined(multiply, a, combined(multiply, p, image(conjugate, p))) == a);
            assert(combined(multiply, image(conjugate, p), p) == combined(
                multiply,
                p,
                image(conjugate, p),
            ));
        }
    }
    lemma_gauge_keeps_product(
        pair,
        u_rows,
        u_leading,
        vh_cols,
        vh_leading,
        phases,
        multiply,
        r,
        j,
        c,
    );
}

} // verus!
