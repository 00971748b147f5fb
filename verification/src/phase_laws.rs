//! What a gauge is for: the entries that it looks at become their own moduli, and
//! the product of both factors stays.

use vstd::prelude::*;

use crate::exact::{conjugates_in, multiplies_in};
use crate::factor_routes::smaller;
use crate::gauge::{
    gauged, gauged_columns, gauged_rows, scaled_col, scaled_row, BondPhase, GaugedPair,
};
use crate::gauge_laws::{is_strided, lemma_cells_apart, lemma_scale_strided, strided};
use crate::phases::{
    column_bond_phases, column_entries, column_phases, columns_gauged, diagonal_gauged,
    diagonal_phases, largest_entry, phase_of_largest, row_bond_phases, row_entries, row_phases,
    rows_gauged, squares_gauged, vectors_gauged,
};
use crate::ring::Ring;
use crate::spectrum::{combined, image};

verus! {

/// Cell `(row, col)` of a buffer with this leading dimension.
pub open spec fn cell<D>(data: Seq<D>, leading: int, row: int, col: int) -> D {
    data[leading * col + row]
}

/// The function splits numbers into a phase and a modulus: `x` is the product of
/// both, a phase times its conjugate is one, and a number without phase is its
/// own modulus.
pub open spec fn splits_phases<D, P: Fn(D) -> Option<D>>(
    ring: Ring<D>,
    phase: P,
    modulus: spec_fn(D) -> D,
) -> bool {
    forall|x: D|
        match #[trigger] image(phase, x) {
            Some(p) => {
                &&& ring.product(p, modulus(x)) == x
                &&& ring.product(p, ring.conj(p)) == ring.one
            },
            None => modulus(x) == x,
        }
}

/// A number times the conjugate of its phase is its modulus.
proof fn lemma_modulus<D, P: Fn(D) -> Option<D>>(
    ring: Ring<D>,
    phase: P,
    modulus: spec_fn(D) -> D,
    x: D,
)
    requires
        ring.is_ring(),
        splits_phases(ring, phase, modulus),
    ensures
        image(phase, x) is Some ==> ring.product(x, ring.conj(image(phase, x)->0)) == modulus(x),
        image(phase, x) is None ==> x == modulus(x),
{
    if let Some(p) = image(phase, x) {
        let m = modulus(x);
        ring.product_commutes(p, m);
        ring.product_associates(m, p, ring.conj(p));
        ring.product_with_one(m);
    }
}

/// A cell after some columns were multiplied by their factors.
proof fn lemma_columns_cell<D, G: Fn(D, D) -> D>(
    data: Seq<D>,
    rows: int,
    leading: int,
    phases: Seq<Option<D>>,
    multiply: G,
    from: int,
    to: int,
    row: int,
    col: int,
)
    requires
        0 <= from,
        to <= phases.len(),
        0 < rows <= leading,
        leading * (phases.len() - 1) + rows <= data.len(),
        0 <= row < rows,
        0 <= col,
        leading * col + row < data.len(),
    ensures
        gauged_columns(data, rows, leading, phases, multiply, from, to).len() == data.len(),
        cell(
            gauged_columns(data, rows, leading, phases, multiply, from, to),
            leading,
            row,
            col,
        ) == if from <= col < to && phases[col] is Some {
            combined(multiply, cell(data, leading, row, col), phases[col]->0)
        } else {
            cell(data, leading, row, col)
        },
    decreases to - from,
{
    assert(0 <= leading * col) by (nonlinear_arith)
        requires
            0 <= leading,
            0 <= col,
    ;
    if to > from {
        lemma_columns_cell(data, rows, leading, phases, multiply, from, to - 1, row, col);
        let before = gauged_columns(data, rows, leading, phases, multiply, from, to - 1);
        let k = to - 1;
        if let Some(phase) = phases[k] {
            assert(0 <= leading * k <= leading * (phases.len() - 1)) by (nonlinear_arith)
                requires
                    0 <= leading,
                    0 <= k <= phases.len() - 1,
            ;
            assert(1 * (rows - 1) == rows - 1) by (nonlinear_arith);
            lemma_scale_strided(before, leading * k, 1, phase, multiply, rows);
            let q = leading * col + row;
            if col == k {
                assert(strided(leading * k, 1, row) == q);
            } else {
                if is_strided(leading * k, 1, rows, q) {
                    let i = choose|i: int|
                        0 <= i < rows && #[trigger] strided(leading * k, 1, i) == q;
                    lemma_cells_apart(leading, row, col, i, k);
                }
                assert(scaled_col(before, rows, leading, k, phase, multiply)[q] == before[q]);
            }
        }
    }
}

/// A cell after some rows were multiplied by their factors.
proof fn lemma_rows_cell<D, G: Fn(D, D) -> D>(
    data: Seq<D>,
    cols: int,
    leading: int,
    phases: Seq<Option<D>>,
    multiply: G,
    from: int,
    to: int,
    row: int,
    col: int,
)
    requires
        0 <= from,
        to <= phases.len() <= leading,
        0 < cols,
        leading * (cols - 1) + phases.len() <= data.len(),
        0 <= row < leading,
        0 <= col < cols,
        leading * col + row < data.len(),
    ensures
        gauged_rows(data, cols, leading, phases, multiply, from, to).len() == data.len(),
        cell(
            gauged_rows(data, cols, leading, phases, multiply, from, to),
            leading,
            row,
            col,
        ) == if from <= row < to && phases[row] is Some {
            combined(multiply, cell(data, leading, row, col), phases[row]->0)
        } else {
            cell(data, leading, row, col)
        },
    decreases to - from,
{
    assert(0 <= leading * col) by (nonlinear_arith)
        requires
            0 <= leading,
            0 <= col,
    ;
    if to > from {
        lemma_rows_cell(data, cols, leading, phases, multiply, from, to - 1, row, col);
        let before = gauged_rows(data, cols, leading, phases, multiply, from, to - 1);
        let k = to - 1;
        if let Some(phase) = phases[k] {
            lemma_scale_strided(before, k, leading, phase, multiply, cols);
            let q = leading * col + row;
            if row == k {
                assert(strided(k, leading, col) == q);
            } else {
                if is_strided(k, leading, cols, q) {
                    let i = choose|i: int|
                        0 <= i < cols && #[trigger] strided(k, leading, i) == q;
                    lemma_cells_apart(leading, row, col, k, i);
                }
                assert(scaled_row(before, cols, leading, k, phase, multiply)[q] == before[q]);
            }
        }
    }
}

/// The column factors of bond phases.
spec fn column_parts<D>(phases: Seq<Option<BondPhase<D>>>) -> Seq<Option<D>> {
    phases.map_values(
        |phase: Option<BondPhase<D>>|
            match phase {
                Some(phase) => Some(phase.column),
                None => None,
            },
    )
}

/// The row factors of bond phases.
spec fn row_parts<D>(phases: Seq<Option<BondPhase<D>>>) -> Seq<Option<D>> {
    phases.map_values(
        |phase: Option<BondPhase<D>>|
            match phase {
                Some(phase) => Some(phase.row),
                None => None,
            },
    )
}

/// A gauge of both factors gauges the columns of one and the rows of the other.
proof fn lemma_gauge_splits<D, G: Fn(D, D) -> D>(
    pair: GaugedPair<D>,
    left_rows: int,
    left_leading: int,
    right_cols: int,
    right_leading: int,
    phases: Seq<Option<BondPhase<D>>>,
    multiply: G,
    count: int,
)
    requires
        0 <= count <= phases.len(),
    ensures
        gauged(
            pair,
            left_rows,
            left_leading,
            right_cols,
            right_leading,
            phases,
            multiply,
            count,
        ) == (GaugedPair {
            left: gauged_columns(
                pair.left,
                left_rows,
                left_leading,
                column_parts(phases),
                multiply,
                0,
                count,
            ),
            right: gauged_rows(
                pair.right,
                right_cols,
                right_leading,
                row_parts(phases),
                multiply,
                0,
                count,
            ),
        }),
    decreases count,
{
    if count > 0 {
        lemma_gauge_splits(
            pair,
            left_rows,
            left_leading,
            right_cols,
            right_leading,
            phases,
            multiply,
            count - 1,
        );
    }
}

/// The largest entry is no smaller than any other, and larger than all before
/// it; without one, no entry has a magnitude.
pub proof fn lemma_largest_entry<D, K: Fn(D) -> u64>(entries: Seq<D>, magnitude: K, count: int)
    requires
        0 <= count <= entries.len(),
    ensures
        match largest_entry(entries, magnitude, count) {
            Some(p) => {
                &&& 0 <= p < count
                &&& image(magnitude, entries[p]) > 0
                &&& forall|k: int|
                    0 <= k < count ==> image(magnitude, #[trigger] entries[k]) <= image(
                        magnitude,
                        entries[p],
                    )
                &&& forall|k: int|
                    0 <= k < p ==> image(magnitude, #[trigger] entries[k]) < image(
                        magnitude,
                        entries[p],
                    )
            },
            None => forall|k: int|
                0 <= k < count ==> image(magnitude, #[trigger] entries[k]) == 0,
        },
    decreases count,
{
    if count > 0 {
        lemma_largest_entry(entries, magnitude, count - 1);
    }
}

/// Row `p` holds the largest entry of a column, the first where several are
/// equal.
pub open spec fn leads_column<D, K: Fn(D) -> u64>(
    data: Seq<D>,
    rows: int,
    leading: int,
    col: int,
    magnitude: K,
    p: int,
) -> bool {
    &&& 0 <= p < rows
    &&& image(magnitude, cell(data, leading, p, col)) > 0
    &&& forall|i: int|
        0 <= i < rows ==> image(magnitude, #[trigger] cell(data, leading, i, col)) <= image(
            magnitude,
            cell(data, leading, p, col),
        )
    &&& forall|i: int|
        0 <= i < p ==> image(magnitude, #[trigger] cell(data, leading, i, col)) < image(
            magnitude,
            cell(data, leading, p, col),
        )
}

/// Column `p` holds the largest entry of a row, the first where several are
/// equal.
pub open spec fn leads_row<D, K: Fn(D) -> u64>(
    data: Seq<D>,
    cols: int,
    leading: int,
    row: int,
    magnitude: K,
    p: int,
) -> bool {
    &&& 0 <= p < cols
    &&& image(magnitude, cell(data, leading, row, p)) > 0
    &&& forall|j: int|
        0 <= j < cols ==> image(magnitude, #[trigger] cell(data, leading, row, j)) <= image(
            magnitude,
            cell(data, leading, row, p),
        )
    &&& forall|j: int|
        0 <= j < p ==> image(magnitude, #[trigger] cell(data, leading, row, j)) < image(
            magnitude,
            cell(data, leading, row, p),
        )
}

/// The leading entry of a column is the one whose phase is taken.
proof fn lemma_leads_column<D, K: Fn(D) -> u64, P: Fn(D) -> Option<D>>(
    data: Seq<D>,
    rows: int,
    leading: int,
    col: int,
    magnitude: K,
    phase: P,
    p: int,
)
    requires
        leads_column(data, rows, leading, col, magnitude, p),
    ensures
        phase_of_largest(column_entries(data, rows, leading, col), magnitude, phase) == image(
            phase,
            cell(data, leading, p, col),
        ),
{
    let entries = column_entries(data, rows, leading, col);
    lemma_largest_entry(entries, magnitude, rows);
    assert(entries[p] == cell(data, leading, p, col));
    let found = largest_entry(entries, magnitude, rows);
    if found is Some {
        let q = found->0;
        assert(entries[q] == cell(data, leading, q, col));
        if q < p {
            assert(image(magnitude, cell(data, leading, q, col)) < image(
                magnitude,
                cell(data, leading, p, col),
            ));
        } else if p < q {
            assert(image(magnitude, entries[p]) < image(magnitude, entries[q]));
        }
    }
}

/// The leading entry of a row is the one whose phase is taken.
proof fn lemma_leads_row<D, K: Fn(D) -> u64, P: Fn(D) -> Option<D>>(
    data: Seq<D>,
    cols: int,
    leading: int,
    row: int,
    magnitude: K,
    phase: P,
    p: int,
)
    requires
        leads_row(data, cols, leading, row, magnitude, p),
    ensures
        phase_of_largest(row_entries(data, cols, leading, row), magnitude, phase) == image(
            phase,
            cell(data, leading, row, p),
        ),
{
    let entries = row_entries(data, cols, leading, row);
    lemma_largest_entry(entries, magnitude, cols);
    assert(entries[p] == cell(data, leading, row, p));
    let found = largest_entry(entries, magnitude, cols);
    if found is Some {
        let q = found->0;
        assert(entries[q] == cell(data, leading, row, q));
        if q < p {
            assert(image(magnitude, cell(data, leading, row, q)) < image(
                magnitude,
                cell(data, leading, row, p),
            ));
        } else if p < q {
            assert(image(magnitude, entries[p]) < image(magnitude, entries[q]));
        }
    }
}

/// The gauge of a QR makes every diagonal entry of `r` its modulus, and keeps the
/// product: every term `q(i, j) r(j, c)` is what it was, also for the columns and
/// rows behind the diagonal.
pub proof fn lemma_diagonal_becomes_positive<
    D,
    P: Fn(D) -> Option<D>,
    C: Fn(D) -> D,
    G: Fn(D, D) -> D,
>(
    ring: Ring<D>,
    modulus: spec_fn(D) -> D,
    before: GaugedPair<D>,
    after: GaugedPair<D>,
    q_rows: int,
    r_rows: usize,
    r_cols: usize,
    phase: P,
    conjugate: C,
    multiply: G,
    i: int,
    j: int,
    c: int,
)
    requires
        ring.is_ring(),
        multiplies_in(ring, multiply),
        conjugates_in(ring, conjugate),
        splits_phases(ring, phase, modulus),
        0 < q_rows,
        q_rows * r_rows <= before.left.len(),
        r_rows * r_cols <= before.right.len(),
        diagonal_gauged(
            before,
            after,
            q_rows,
            r_rows as int,
            r_cols as int,
            smaller(r_rows, r_cols) as int,
            phase,
            conjugate,
            multiply,
        ),
        0 <= i < q_rows,
        0 <= j < r_rows,
        0 <= c < r_cols,
    ensures
        j < r_cols ==> cell(after.right, r_rows as int, j, j) == modulus(
            cell(before.right, r_rows as int, j, j),
        ),
        ring.product(cell(after.left, q_rows, i, j), cell(after.right, r_rows as int, j, c))
            == ring.product(cell(before.left, q_rows, i, j), cell(before.right, r_rows as int, j, c)),
{
    let (r_rows, r_cols) = (r_rows as int, r_cols as int);
    let count = if r_rows <= r_cols {
        r_rows
    } else {
        r_cols
    };
    let phases = diagonal_phases(before.right, r_rows, count, phase, conjugate);
    lemma_gauge_splits(
        before,
        q_rows,
        q_rows,
        r_cols,
        r_rows,
        phases,
        multiply,
        count,
    );
    crate::ring::lemma_place(q_rows, r_rows, i, j);
    crate::ring::lemma_place(r_rows, r_cols, j, c);
    assert(q_rows * (count - 1) + q_rows == q_rows * count) by (nonlinear_arith);
    assert(q_rows * count <= q_rows * r_rows) by (nonlinear_arith)
        requires
            count <= r_rows,
            0 < q_rows,
    ;
    assert(r_rows * (r_cols - 1) + r_rows == r_rows * r_cols) by (nonlinear_arith);
    lemma_columns_cell(
        before.left,
        q_rows,
        q_rows,
        column_parts(phases),
        multiply,
        0,
        count,
        i,
        j,
    );
    lemma_rows_cell(
        before.right,
        r_cols,
        r_rows,
        row_parts(phases),
        multiply,
        0,
        count,
        j,
        c,
    );
    if j < r_cols {
        crate::ring::lemma_place(r_rows, r_cols, j, j);
        lemma_rows_cell(
            before.right,
            r_cols,
            r_rows,
            row_parts(phases),
            multiply,
            0,
            count,
            j,
            j,
        );
        lemma_modulus(ring, phase, modulus, cell(before.right, r_rows, j, j));
        assert(before.right[j + r_rows * j] == cell(before.right, r_rows, j, j));
    }
    if j < count {
        if let Some(p) = image(phase, before.right[j + r_rows * j]) {
            lemma_units_cancel(
                ring,
                cell(before.left, q_rows, i, j),
                p,
                cell(before.right, r_rows, j, c),
            );
        }
    }
}

/// `(a p)(b conj(p))` is `a b` for a unit `p`, and so is `(a conj(p))(b p)`.
proof fn lemma_units_cancel<D>(ring: Ring<D>, a: D, p: D, b: D)
    requires
        ring.is_ring(),
        ring.product(p, ring.conj(p)) == ring.one,
    ensures
        ring.product(ring.product(a, p), ring.product(b, ring.conj(p))) == ring.product(a, b),
        ring.product(ring.product(a, ring.conj(p)), ring.product(b, p)) == ring.product(a, b),
{
    let q = ring.conj(p);
    ring.product_commutes(b, q);
    ring.product_associates(ring.product(a, p), q, b);
    ring.product_associates(a, p, q);
    ring.product_with_one(a);
    ring.product_commutes(b, p);
    ring.product_associates(ring.product(a, q), p, b);
    ring.product_associates(a, q, p);
    ring.product_commutes(q, p);
}

/// The gauge of a compact SVD makes the largest entry of every column of `u` its
/// modulus, and keeps the product: every term `u(i, j) vh(j, c)` is what it was.
pub proof fn lemma_columns_become_positive<
    D,
    K: Fn(D) -> u64,
    P: Fn(D) -> Option<D>,
    C: Fn(D) -> D,
    G: Fn(D, D) -> D,
>(
    ring: Ring<D>,
    modulus: spec_fn(D) -> D,
    before: GaugedPair<D>,
    after: GaugedPair<D>,
    u_rows: int,
    u_leading: int,
    count: int,
    vh_cols: int,
    vh_leading: int,
    magnitude: K,
    phase: P,
    conjugate: C,
    multiply: G,
    i: int,
    j: int,
    c: int,
)
    requires
        ring.is_ring(),
        multiplies_in(ring, multiply),
        conjugates_in(ring, conjugate),
        splits_phases(ring, phase, modulus),
        0 < u_rows <= u_leading,
        u_leading * (count - 1) + u_rows <= before.left.len(),
        0 < vh_cols,
        0 <= count <= vh_leading,
        vh_leading * (vh_cols - 1) + count <= before.right.len(),
        columns_gauged(
            before,
            after,
            u_rows,
            u_leading,
            count,
            vh_cols,
            vh_leading,
            magnitude,
            phase,
            conjugate,
            multiply,
        ),
        0 <= i < u_rows,
        0 <= j < count,
        0 <= c < vh_cols,
    ensures
        leads_column(before.left, u_rows, u_leading, j, magnitude, i) ==> cell(
            after.left,
            u_leading,
            i,
            j,
        ) == modulus(cell(before.left, u_leading, i, j)),
        ring.product(cell(after.left, u_leading, i, j), cell(after.right, vh_leading, j, c))
            == ring.product(
            cell(before.left, u_leading, i, j),
            cell(before.right, vh_leading, j, c),
        ),
{
    let phases = column_bond_phases(
        before.left,
        u_rows,
        u_leading,
        count,
        magnitude,
        phase,
        conjugate,
    );
    lemma_gauge_splits(
        before,
        u_rows,
        u_leading,
        vh_cols,
        vh_leading,
        phases,
        multiply,
        count,
    );
    assert(u_leading * j <= u_leading * (count - 1)) by (nonlinear_arith)
        requires
            0 <= u_leading,
            j <= count - 1,
    ;
    assert(vh_leading * c <= vh_leading * (vh_cols - 1)) by (nonlinear_arith)
        requires
            0 <= vh_leading,
            c <= vh_cols - 1,
    ;
    lemma_columns_cell(
        before.left,
        u_rows,
        u_leading,
        column_parts(phases),
        multiply,
        0,
        count,
        i,
        j,
    );
    lemma_rows_cell(
        before.right,
        vh_cols,
        vh_leading,
        row_parts(phases),
        multiply,
        0,
        count,
        j,
        c,
    );
    let found = phase_of_largest(
        column_entries(before.left, u_rows, u_leading, j),
        magnitude,
        phase,
    );
    if let Some(p) = found {
        let entries = column_entries(before.left, u_rows, u_leading, j);
        let at = largest_entry(entries, magnitude, entries.len() as int)->0;
        assert(image(phase, entries[at]) == Some(p));
        lemma_units_cancel(
            ring,
            cell(before.left, u_leading, i, j),
            p,
            cell(before.right, vh_leading, j, c),
        );
    }
    if leads_column(before.left, u_rows, u_leading, j, magnitude, i) {
        lemma_leads_column(before.left, u_rows, u_leading, j, magnitude, phase, i);
        lemma_modulus(ring, phase, modulus, cell(before.left, u_leading, i, j));
    }
}

/// The adjoint gauge of a compact SVD makes the largest entry of every row of
/// `vh` its modulus, and keeps the product.
pub proof fn lemma_rows_become_positive<
    D,
    K: Fn(D) -> u64,
    P: Fn(D) -> Option<D>,
    C: Fn(D) -> D,
    G: Fn(D, D) -> D,
>(
    ring: Ring<D>,
    modulus: spec_fn(D) -> D,
    before: GaugedPair<D>,
    after: GaugedPair<D>,
    u_rows: int,
    u_leading: int,
    count: int,
    vh_cols: int,
    vh_leading: int,
    magnitude: K,
    phase: P,
    conjugate: C,
    multiply: G,
    i: int,
    j: int,
    c: int,
)
    requires
        ring.is_ring(),
        multiplies_in(ring, multiply),
        conjugates_in(ring, conjugate),
        splits_phases(ring, phase, modulus),
        0 < u_rows <= u_leading,
        u_leading * (count - 1) + u_rows <= before.left.len(),
        0 < vh_cols,
        0 <= count <= vh_leading,
        vh_leading * (vh_cols - 1) + count <= before.right.len(),
        rows_gauged(
            before,
            after,
            u_rows,
            u_leading,
            count,
            vh_cols,
            vh_leading,
            magnitude,
            phase,
            conjugate,
            multiply,
        ),
        0 <= i < u_rows,
        0 <= j < count,
        0 <= c < vh_cols,
    ensures
        leads_row(before.right, vh_cols, vh_leading, j, magnitude, c) ==> cell(
            after.right,
            vh_leading,
            j,
            c,
        ) == modulus(cell(before.right, vh_leading, j, c)),
        ring.product(cell(after.left, u_leading, i, j), cell(after.right, vh_leading, j, c))
            == ring.product(
            cell(before.left, u_leading, i, j),
            cell(before.right, vh_leading, j, c),
        ),
{
    let phases = row_bond_phases(
        before.right,
        vh_cols,
        vh_leading,
        count,
        magnitude,
        phase,
        conjugate,
    );
    lemma_gauge_splits(
        before,
        u_rows,
        u_leading,
        vh_cols,
        vh_leading,
        phases,
        multiply,
        count,
    );
    assert(u_leading * j <= u_leading * (count - 1)) by (nonlinear_arith)
        requires
            0 <= u_leading,
            j <= count - 1,
    ;
    assert(vh_leading * c <= vh_leading * (vh_cols - 1)) by (nonlinear_arith)
        requires
            0 <= vh_leading,
            c <= vh_cols - 1,
    ;
    lemma_columns_cell(
        before.left,
        u_rows,
        u_leading,
        column_parts(phases),
        multiply,
        0,
        count,
        i,
        j,
    );
    lemma_rows_cell(
        before.right,
        vh_cols,
        vh_leading,
        row_parts(phases),
        multiply,
        0,
        count,
        j,
        c,
    );
    let entries = row_entries(before.right, vh_cols, vh_leading, j);
    let found = phase_of_largest(entries, magnitude, phase);
    if let Some(p) = found {
        let at = largest_entry(entries, magnitude, entries.len() as int)->0;
        assert(image(phase, entries[at]) == Some(p));
        lemma_units_cancel(
            ring,
            cell(before.left, u_leading, i, j),
            p,
            cell(before.right, vh_leading, j, c),
        );
    }
    if leads_row(before.right, vh_cols, vh_leading, j, magnitude, c) {
        lemma_leads_row(before.right, vh_cols, vh_leading, j, magnitude, phase, c);
        lemma_modulus(ring, phase, modulus, cell(before.right, vh_leading, j, c));
    }
}

/// The gauge of eigenvectors makes the largest entry of every vector its modulus,
/// and multiplies every vector by one unit.
pub proof fn lemma_vectors_become_positive<
    D,
    K: Fn(D) -> u64,
    P: Fn(D) -> Option<D>,
    C: Fn(D) -> D,
    G: Fn(D, D) -> D,
>(
    ring: Ring<D>,
    modulus: spec_fn(D) -> D,
    before: Seq<D>,
    after: Seq<D>,
    rows: int,
    leading: int,
    cols: int,
    magnitude: K,
    phase: P,
    conjugate: C,
    multiply: G,
    j: int,
)
    requires
        ring.is_ring(),
        multiplies_in(ring, multiply),
        conjugates_in(ring, conjugate),
        splits_phases(ring, phase, modulus),
        0 < rows <= leading,
        leading * (cols - 1) + rows <= before.len(),
        vectors_gauged(
            before,
            after,
            rows,
            leading,
            cols,
            magnitude,
            phase,
            conjugate,
            multiply,
        ),
        0 <= j < cols,
    ensures
        after.len() == before.len(),
        forall|i: int|
            leads_column(before, rows, leading, j, magnitude, i) ==> #[trigger] cell(
                after,
                leading,
                i,
                j,
            ) == modulus(cell(before, leading, i, j)),
        exists|unit: D|
            {
                &&& #[trigger] ring.product(unit, ring.conj(unit)) == ring.one
                &&& forall|i: int|
                    0 <= i < rows ==> #[trigger] cell(after, leading, i, j) == ring.product(
                        cell(before, leading, i, j),
                        unit,
                    )
            },
{
    let phases = column_phases(before, rows, leading, cols, magnitude, phase, conjugate);
    assert(leading * j <= leading * (cols - 1)) by (nonlinear_arith)
        requires
            0 <= leading,
            j <= cols - 1,
    ;
    let entries = column_entries(before, rows, leading, j);
    let found = phase_of_largest(entries, magnitude, phase);
    let unit = match found {
        Some(p) => ring.conj(p),
        None => ring.one,
    };
    lemma_columns_cell(before, rows, leading, phases, multiply, 0, cols, 0, j);
    assert forall|i: int| 0 <= i < rows implies #[trigger] cell(after, leading, i, j)
        == ring.product(cell(before, leading, i, j), unit) by {
        lemma_columns_cell(before, rows, leading, phases, multiply, 0, cols, i, j);
        ring.product_with_one(cell(before, leading, i, j));
    }
    assert(ring.product(unit, ring.conj(unit)) == ring.one) by {
        if let Some(p) = found {
            let at = largest_entry(entries, magnitude, entries.len() as int)->0;
            assert(image(phase, entries[at]) == Some(p));
            ring.conj_twice(p);
            ring.product_commutes(ring.conj(p), p);
        } else {
            ring.conj_of_constants();
            ring.product_with_one(ring.one);
        }
    }
    assert forall|i: int| leads_column(before, rows, leading, j, magnitude, i) implies
        #[trigger] cell(after, leading, i, j) == modulus(cell(before, leading, i, j)) by {
        lemma_leads_column(before, rows, leading, j, magnitude, phase, i);
        lemma_modulus(ring, phase, modulus, cell(before, leading, i, j));
        ring.product_with_one(cell(before, leading, i, j));
    }
}

/// The gauge of a full SVD makes the largest entry of every column of `u` its
/// modulus, and that of every row of `vh` that has no partner column; the terms
/// of a partner pair keep their product.
pub proof fn lemma_squares_become_positive<
    D,
    K: Fn(D) -> u64,
    P: Fn(D) -> Option<D>,
    C: Fn(D) -> D,
    G: Fn(D, D) -> D,
>(
    ring: Ring<D>,
    modulus: spec_fn(D) -> D,
    before: GaugedPair<D>,
    after: GaugedPair<D>,
    order: usize,
    other: usize,
    magnitude: K,
    phase: P,
    conjugate: C,
    multiply: G,
    i: int,
    j: int,
    k: int,
    c: int,
)
    requires
        ring.is_ring(),
        multiplies_in(ring, multiply),
        conjugates_in(ring, conjugate),
        splits_phases(ring, phase, modulus),
        order * order <= before.left.len(),
        other * other <= before.right.len(),
        squares_gauged(
            before,
            after,
            order as int,
            order as int,
            smaller(order, other) as int,
            other as int,
            other as int,
            magnitude,
            phase,
            conjugate,
            multiply,
        ),
        0 <= i < order,
        0 <= j < order,
        0 <= k < other,
        0 <= c < other,
    ensures
        leads_column(before.left, order as int, order as int, j, magnitude, i) ==> cell(
            after.left,
            order as int,
            i,
            j,
        ) == modulus(cell(before.left, order as int, i, j)),
        k >= order && leads_row(before.right, other as int, other as int, k, magnitude, c) ==> cell(
            after.right,
            other as int,
            k,
            c,
        ) == modulus(cell(before.right, other as int, k, c)),
        j < other ==> ring.product(cell(after.left, order as int, i, j), cell(after.right, other as int, j, c))
            == ring.product(cell(before.left, order as int, i, j), cell(before.right, other as int, j, c)),
{
    let (order, other) = (order as int, other as int);
    let paired = if order <= other {
        order
    } else {
        other
    };
    let phases = column_bond_phases(
        before.left,
        order,
        order,
        paired,
        magnitude,
        phase,
        conjugate,
    );
    let shared = gauged(before, order, order, other, other, phases, multiply, paired);
    let columns = column_phases(before.left, order, order, order, magnitude, phase, conjugate);
    let rows = row_phases(before.right, other, other, other, magnitude, phase, conjugate);
    lemma_gauge_splits(before, order, order, other, other, phases, multiply, paired);
    crate::ring::lemma_place(order, order, i, j);
    crate::ring::lemma_place(other, other, k, c);
    assert(order * (order - 1) + order == order * order) by (nonlinear_arith);
    assert(other * (other - 1) + other == other * other) by (nonlinear_arith);
    assert(order * (paired - 1) <= order * (order - 1)) by (nonlinear_arith)
        requires
            0 <= order,
            paired <= order,
    ;
    lemma_columns_cell(
        before.left,
        order,
        order,
        column_parts(phases),
        multiply,
        0,
        paired,
        i,
        j,
    );
    lemma_columns_cell(shared.left, order, order, columns, multiply, paired, order, i, j);
    lemma_rows_cell(before.right, other, other, row_parts(phases), multiply, 0, paired, k, c);
    lemma_rows_cell(shared.right, other, other, rows, multiply, paired, other, k, c);
    let entries = column_entries(before.left, order, order, j);
    let found = phase_of_largest(entries, magnitude, phase);
    if j < other {
        crate::ring::lemma_place(other, other, j, c);
        lemma_rows_cell(
            before.right,
            other,
            other,
            row_parts(phases),
            multiply,
            0,
            paired,
            j,
            c,
        );
        lemma_rows_cell(shared.right, other, other, rows, multiply, paired, other, j, c);
        assert(j < paired);
        if let Some(p) = found {
            let at = largest_entry(entries, magnitude, entries.len() as int)->0;
            assert(image(phase, entries[at]) == Some(p));
            lemma_units_cancel(
                ring,
                cell(before.left, order, i, j),
                p,
                cell(before.right, other, j, c),
            );
        }
    }
    if leads_column(before.left, order, order, j, magnitude, i) {
        lemma_leads_column(before.left, order, order, j, magnitude, phase, i);
        lemma_modulus(ring, phase, modulus, cell(before.left, order, i, j));
    }
    if k >= order && leads_row(before.right, other, other, k, magnitude, c) {
        lemma_leads_row(before.right, other, other, k, magnitude, phase, c);
        lemma_modulus(ring, phase, modulus, cell(before.right, other, k, c));
    }
}

} // verus!
