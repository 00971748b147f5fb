//! Gauges of factors: from which entry each phase is read, and which column and
//! row it goes to. What the phase of an entry is, the caller says.

use vstd::prelude::*;

use crate::dense::matrix_fits;
use crate::factor_routes::smaller;
use crate::gauge::{
    apply_bond_phases, apply_column_phases, apply_row_phases, gauged, gauged_columns,
    gauged_rows, BondPhase, GaugedPair,
};
use crate::spectrum::{image, is_function, is_operation};

verus! {

/// `count` elements of a matrix, from `start` on and `step` apart.
pub open spec fn entries_at<D>(data: Seq<D>, start: int, step: int, count: int) -> Seq<D> {
    Seq::new(count as nat, |k: int| data[start + step * k])
}

/// The entries of one column.
pub open spec fn column_entries<D>(data: Seq<D>, rows: int, leading: int, col: int) -> Seq<D> {
    entries_at(data, leading * col, 1, rows)
}

/// The entries of one row.
pub open spec fn row_entries<D>(data: Seq<D>, cols: int, leading: int, row: int) -> Seq<D> {
    entries_at(data, row, leading, cols)
}

/// Position of the largest among the first entries, the first one where several
/// are equal, or `None` where all have no magnitude.
pub open spec fn largest_entry<D, K: Fn(D) -> u64>(
    entries: Seq<D>,
    magnitude: K,
    count: int,
) -> Option<int>
    decreases count,
{
    if count <= 0 {
        None
    } else {
        let before = largest_entry(entries, magnitude, count - 1);
        let best = match before {
            Some(position) => image(magnitude, entries[position]),
            None => 0,
        };
        if image(magnitude, entries[count - 1]) > best {
            Some(count - 1)
        } else {
            before
        }
    }
}

/// The phase of the largest entry, where it has one.
pub open spec fn phase_of_largest<D, K: Fn(D) -> u64, P: Fn(D) -> Option<D>>(
    entries: Seq<D>,
    magnitude: K,
    phase: P,
) -> Option<D> {
    match largest_entry(entries, magnitude, entries.len() as int) {
        Some(position) => image(phase, entries[position]),
        None => None,
    }
}

/// The column takes the conjugate of its phase, and the row the phase.
pub open spec fn conjugate_on_column<D, C: Fn(D) -> D>(phase: Option<D>, conjugate: C) -> Option<
    BondPhase<D>,
> {
    match phase {
        Some(phase) => Some(BondPhase { column: image(conjugate, phase), row: phase }),
        None => None,
    }
}

/// The column takes the phase, and the row its conjugate.
pub open spec fn conjugate_on_row<D, C: Fn(D) -> D>(phase: Option<D>, conjugate: C) -> Option<
    BondPhase<D>,
> {
    match phase {
        Some(phase) => Some(BondPhase { column: phase, row: image(conjugate, phase) }),
        None => None,
    }
}

/// The conjugate of a phase, where there is one.
pub open spec fn conjugate_phase<D, C: Fn(D) -> D>(phase: Option<D>, conjugate: C) -> Option<D> {
    match phase {
        Some(phase) => Some(image(conjugate, phase)),
        None => None,
    }
}

/// The phases of the diagonal entries of a triangular factor.
pub open spec fn diagonal_phases<D, C: Fn(D) -> D, P: Fn(D) -> Option<D>>(
    r: Seq<D>,
    leading: int,
    count: int,
    phase: P,
    conjugate: C,
) -> Seq<Option<BondPhase<D>>> {
    Seq::new(
        count as nat,
        |j: int| conjugate_on_row(image(phase, r[j + leading * j]), conjugate),
    )
}

/// The phases that make the largest entry of every column real.
pub open spec fn column_bond_phases<
    D,
    K: Fn(D) -> u64,
    P: Fn(D) -> Option<D>,
    C: Fn(D) -> D,
>(
    u: Seq<D>,
    rows: int,
    leading: int,
    count: int,
    magnitude: K,
    phase: P,
    conjugate: C,
) -> Seq<Option<BondPhase<D>>> {
    Seq::new(
        count as nat,
        |j: int|
            conjugate_on_column(
                phase_of_largest(column_entries(u, rows, leading, j), magnitude, phase),
                conjugate,
            ),
    )
}

/// The phases that make the largest entry of every row real.
pub open spec fn row_bond_phases<D, K: Fn(D) -> u64, P: Fn(D) -> Option<D>, C: Fn(D) -> D>(
    vh: Seq<D>,
    cols: int,
    leading: int,
    count: int,
    magnitude: K,
    phase: P,
    conjugate: C,
) -> Seq<Option<BondPhase<D>>> {
    Seq::new(
        count as nat,
        |j: int|
            conjugate_on_row(
                phase_of_largest(row_entries(vh, cols, leading, j), magnitude, phase),
                conjugate,
            ),
    )
}

/// The factors that make the largest entry of every column real, one for each
/// column.
pub open spec fn column_phases<D, K: Fn(D) -> u64, P: Fn(D) -> Option<D>, C: Fn(D) -> D>(
    data: Seq<D>,
    rows: int,
    leading: int,
    count: int,
    magnitude: K,
    phase: P,
    conjugate: C,
) -> Seq<Option<D>> {
    Seq::new(
        count as nat,
        |j: int|
            conjugate_phase(
                phase_of_largest(column_entries(data, rows, leading, j), magnitude, phase),
                conjugate,
            ),
    )
}

/// The factors that make the largest entry of every row real, one for each row.
pub open spec fn row_phases<D, K: Fn(D) -> u64, P: Fn(D) -> Option<D>, C: Fn(D) -> D>(
    data: Seq<D>,
    cols: int,
    leading: int,
    count: int,
    magnitude: K,
    phase: P,
    conjugate: C,
) -> Seq<Option<D>> {
    Seq::new(
        count as nat,
        |j: int|
            conjugate_phase(
                phase_of_largest(row_entries(data, cols, leading, j), magnitude, phase),
                conjugate,
            ),
    )
}

/// What a gauge of the diagonal of `r` does to both factors.
pub open spec fn diagonal_gauged<
    D,
    P: Fn(D) -> Option<D>,
    C: Fn(D) -> D,
    G: Fn(D, D) -> D,
>(
    before: GaugedPair<D>,
    after: GaugedPair<D>,
    q_rows: int,
    r_rows: int,
    r_cols: int,
    count: int,
    phase: P,
    conjugate: C,
    multiply: G,
) -> bool {
    after == gauged(
        before,
        q_rows,
        q_rows,
        r_cols,
        r_rows,
        diagonal_phases(before.right, r_rows, count, phase, conjugate),
        multiply,
        count,
    )
}

/// What a gauge of the columns of `u` does to both factors.
pub open spec fn columns_gauged<
    D,
    K: Fn(D) -> u64,
    P: Fn(D) -> Option<D>,
    C: Fn(D) -> D,
    G: Fn(D, D) -> D,
>(
    before: GaugedPair<D>,
    after: GaugedPair<D>,
    u_rows: int,
    u_leading: int,
    count: int,
    vh_cols: int,
    vh_leading: int,
    magnitude: K,
    phase: P,
    conjugate: C,
    multiply: G,
) -> bool {
    after == gauged(
        before,
        u_rows,
        u_leading,
        vh_cols,
        vh_leading,
        column_bond_phases(before.left, u_rows, u_leading, count, magnitude, phase, conjugate),
        multiply,
        count,
    )
}

/// What a gauge of the rows of `vh` does to both factors.
pub open spec fn rows_gauged<
    D,
    K: Fn(D) -> u64,
    P: Fn(D) -> Option<D>,
    C: Fn(D) -> D,
    G: Fn(D, D) -> D,
>(
    before: GaugedPair<D>,
    after: GaugedPair<D>,
    u_rows: int,
    u_leading: int,
    count: int,
    vh_cols: int,
    vh_leading: int,
    magnitude: K,
    phase: P,
    conjugate: C,
    multiply: G,
) -> bool {
    after == gauged(
        before,
        u_rows,
        u_leading,
        vh_cols,
        vh_leading,
        row_bond_phases(before.right, vh_cols, vh_leading, count, magnitude, phase, conjugate),
        multiply,
        count,
    )
}

/// What a gauge of two square factors does to them.
pub open spec fn squares_gauged<
    D,
    K: Fn(D) -> u64,
    P: Fn(D) -> Option<D>,
    C: Fn(D) -> D,
    G: Fn(D, D) -> D,
>(
    before: GaugedPair<D>,
    after: GaugedPair<D>,
    u_rows: int,
    u_leading: int,
    paired: int,
    vh_rows: int,
    vh_cols: int,
    magnitude: K,
    phase: P,
    conjugate: C,
    multiply: G,
) -> bool {
    let shared = gauged(
        before,
        u_rows,
        u_leading,
        vh_cols,
        vh_rows,
        column_bond_phases(before.left, u_rows, u_leading, paired, magnitude, phase, conjugate),
        multiply,
        paired,
    );
    &&& after.left == gauged_columns(
        shared.left,
        u_rows,
        u_leading,
        column_phases(before.left, u_rows, u_leading, u_leading, magnitude, phase, conjugate),
        multiply,
        paired,
        u_leading,
    )
    &&& after.right == gauged_rows(
        shared.right,
        vh_cols,
        vh_rows,
        row_phases(before.right, vh_cols, vh_rows, vh_rows, magnitude, phase, conjugate),
        multiply,
        paired,
        vh_rows,
    )
}

/// What a gauge of the columns of a matrix does to it.
pub open spec fn vectors_gauged<
    D,
    K: Fn(D) -> u64,
    P: Fn(D) -> Option<D>,
    C: Fn(D) -> D,
    G: Fn(D, D) -> D,
>(
    before: Seq<D>,
    after: Seq<D>,
    rows: int,
    leading: int,
    cols: int,
    magnitude: K,
    phase: P,
    conjugate: C,
    multiply: G,
) -> bool {
    after == gauged_columns(
        before,
        rows,
        leading,
        column_phases(before, rows, leading, cols, magnitude, phase, conjugate),
        multiply,
        0,
        cols,
    )
}

fn call<A, B, F: Fn(A) -> B>(function: &F, value: A) -> (answer: B)
    requires
        is_function(function),
    ensures
        answer == image(function, value),
{
    let answer = function(value);
    proof {
        let known = image(function, value);
        assert(call_ensures(function, (value,), known));
    }
    answer
}

/// The phase of the largest of some entries of a matrix.
fn strided_phase<D: Copy, K: Fn(D) -> u64, P: Fn(D) -> Option<D>>(
    data: &[D],
    start: usize,
    step: usize,
    count: usize,
    magnitude: &K,
    phase: &P,
) -> (found: Option<D>)
    requires
        is_function(magnitude),
        is_function(phase),
        count > 0 ==> start + step * (count - 1) < data@.len(),
    ensures
        found == phase_of_largest(
            entries_at(data@, start as int, step as int, count as int),
            magnitude,
            phase,
        ),
{
    let ghost entries = entries_at(data@, start as int, step as int, count as int);
    let len: usize = data.len();
    let mut best: u64 = 0;
    let mut largest: Option<D> = None;
    let mut k: usize = 0;
    while k < count
        invariant
            k <= count,
            len == data@.len(),
            count > 0 ==> start + step * (count - 1) < len,
            entries == entries_at(data@, start as int, step as int, count as int),
            is_function(magnitude),
            match largest_entry(entries, magnitude, k as int) {
                Some(position) => {
                    &&& 0 <= position < k
                    &&& largest == Some(entries[position])
                    &&& best == image(magnitude, entries[position])
                },
                None => largest is None && best == 0,
            },
        decreases count - k,
    {
        proof {
            assert(0 <= step * k <= step * (count - 1)) by (nonlinear_arith)
                requires
                    0 <= step,
                    0 <= k <= count - 1,
            ;
        }
        let entry: D = data[start + step * k];
        assert(entry == entries[k as int]);
        let size: u64 = call(magnitude, entry);
        if size > best {
            best = size;
            largest = Some(entry);
        }
        k += 1;
    }
    match largest {
        Some(entry) => call(phase, entry),
        None => None,
    }
}

/// The phase of the largest entry of one column.
fn column_phase<D: Copy, K: Fn(D) -> u64, P: Fn(D) -> Option<D>>(
    data: &[D],
    rows: usize,
    leading: usize,
    col: usize,
    magnitude: &K,
    phase: &P,
) -> (found: Option<D>)
    requires
        is_function(magnitude),
        is_function(phase),
        rows > 0 ==> leading * col + rows <= data@.len(),
    ensures
        found == phase_of_largest(
            column_entries(data@, rows as int, leading as int, col as int),
            magnitude,
            phase,
        ),
{
    if rows == 0 {
        return None;
    }
    let len: usize = data.len();
    proof {
        assert(leading * col >= 0) by (nonlinear_arith)
            requires
                leading >= 0,
                col >= 0,
        ;
    }
    strided_phase(data, leading * col, 1, rows, magnitude, phase)
}

fn conjugated<D: Copy, C: Fn(D) -> D>(phase: Option<D>, conjugate: &C) -> (found: Option<D>)
    requires
        is_function(conjugate),
    ensures
        found == conjugate_phase(phase, conjugate),
{
    match phase {
        Some(phase) => Some(call(conjugate, phase)),
        None => None,
    }
}

/// Makes the diagonal of `r` real and nonnegative, where `phase` gives the phase
/// of an entry: column `j` of `q` is multiplied by the phase of `r[j, j]`, and
/// row `j` of `r` by its conjugate. An entry without phase leaves both as they
/// are.
pub fn positive_diagonal_gauge<
    D: Copy,
    P: Fn(D) -> Option<D>,
    C: Fn(D) -> D,
    G: Fn(D, D) -> D,
>(
    q: &mut [D],
    q_rows: usize,
    r: &mut [D],
    r_rows: usize,
    r_cols: usize,
    phase: &P,
    conjugate: &C,
    multiply: &G,
)
    requires
        is_function(phase),
        is_function(conjugate),
        is_operation(multiply),
        matrix_fits(
            q_rows as int,
            smaller(r_rows, r_cols) as int,
            q_rows as int,
            old(q)@.len() as int,
        ),
        matrix_fits(r_rows as int, r_cols as int, r_rows as int, old(r)@.len() as int),
    ensures
        final(q)@.len() == old(q)@.len(),
        final(r)@.len() == old(r)@.len(),
        diagonal_gauged(
            (GaugedPair { left: old(q)@, right: old(r)@ }),
            (GaugedPair { left: final(q)@, right: final(r)@ }),
            q_rows as int,
            r_rows as int,
            r_cols as int,
            smaller(r_rows, r_cols) as int,
            phase,
            conjugate,
            multiply,
        ),
{
    let count: usize = if r_rows <= r_cols {
        r_rows
    } else {
        r_cols
    };
    let len: usize = r.len();
    let ghost expected = diagonal_phases(
        r@,
        r_rows as int,
        count as int,
        phase,
        conjugate,
    );
    let mut phases: Vec<Option<BondPhase<D>>> = Vec::with_capacity(count);
    let mut j: usize = 0;
    while j < count
        invariant
            j <= count,
            count <= r_rows,
            count <= r_cols,
            len == r@.len(),
            r@ == old(r)@,
            matrix_fits(r_rows as int, r_cols as int, r_rows as int, len as int),
            is_function(phase),
            is_function(conjugate),
            phases@.len() == j,
            expected == diagonal_phases(r@, r_rows as int, count as int, phase, conjugate),
            forall|k: int| 0 <= k < j ==> phases@[k] == #[trigger] expected[k],
        decreases count - j,
    {
        proof {
            assert(0 <= r_rows * j <= r_rows * (r_cols - 1)) by (nonlinear_arith)
                requires
                    0 <= r_rows,
                    0 <= j <= r_cols - 1,
            ;
        }
        let found = call(phase, r[j + r_rows * j]);
        phases.push(
            match found {
                Some(phase) => Some(BondPhase { column: phase, row: call(conjugate, phase) }),
                None => None,
            },
        );
        assert(phases@[j as int] == expected[j as int]);
        j += 1;
    }
    assert(phases@ =~= expected);
    apply_bond_phases(q, q_rows, q_rows, r, r_cols, r_rows, phases.as_slice(), multiply);
}

/// Makes the largest entry of every column of `u` real and positive: the column
/// is multiplied by the conjugate of that entry's phase, and the row of `vh` by
/// the phase.
pub fn svd_compact_gauge<
    D: Copy,
    K: Fn(D) -> u64,
    P: Fn(D) -> Option<D>,
    C: Fn(D) -> D,
    G: Fn(D, D) -> D,
>(
    u: &mut [D],
    u_rows: usize,
    u_leading: usize,
    vh: &mut [D],
    vh_rows: usize,
    vh_cols: usize,
    vh_leading: usize,
    magnitude: &K,
    phase: &P,
    conjugate: &C,
    multiply: &G,
)
    requires
        is_function(magnitude),
        is_function(phase),
        is_function(conjugate),
        is_operation(multiply),
        u_rows <= u_leading,
        vh_rows <= vh_leading,
        matrix_fits(u_rows as int, vh_rows as int, u_leading as int, old(u)@.len() as int),
        matrix_fits(vh_rows as int, vh_cols as int, vh_leading as int, old(vh)@.len() as int),
    ensures
        final(u)@.len() == old(u)@.len(),
        final(vh)@.len() == old(vh)@.len(),
        columns_gauged(
            (GaugedPair { left: old(u)@, right: old(vh)@ }),
            (GaugedPair { left: final(u)@, right: final(vh)@ }),
            u_rows as int,
            u_leading as int,
            vh_rows as int,
            vh_cols as int,
            vh_leading as int,
            magnitude,
            phase,
            conjugate,
            multiply,
        ),
{
    let phases = bond_phases_of_columns(u, u_rows, u_leading, vh_rows, magnitude, phase, conjugate);
    apply_bond_phases(u, u_rows, u_leading, vh, vh_cols, vh_leading, phases.as_slice(), multiply);
}

fn bond_phases_of_columns<
    D: Copy,
    K: Fn(D) -> u64,
    P: Fn(D) -> Option<D>,
    C: Fn(D) -> D,
>(
    u: &[D],
    rows: usize,
    leading: usize,
    count: usize,
    magnitude: &K,
    phase: &P,
    conjugate: &C,
) -> (phases: Vec<Option<BondPhase<D>>>)
    requires
        is_function(magnitude),
        is_function(phase),
        is_function(conjugate),
        matrix_fits(rows as int, count as int, leading as int, u@.len() as int),
    ensures
        phases@ == column_bond_phases(
            u@,
            rows as int,
            leading as int,
            count as int,
            magnitude,
            phase,
            conjugate,
        ),
{
    let ghost expected = column_bond_phases(
        u@,
        rows as int,
        leading as int,
        count as int,
        magnitude,
        phase,
        conjugate,
    );
    let mut phases: Vec<Option<BondPhase<D>>> = Vec::with_capacity(count);
    let mut j: usize = 0;
    while j < count
        invariant
            j <= count,
            matrix_fits(rows as int, count as int, leading as int, u@.len() as int),
            is_function(magnitude),
            is_function(phase),
            is_function(conjugate),
            phases@.len() == j,
            expected == column_bond_phases(
                u@,
                rows as int,
                leading as int,
                count as int,
                magnitude,
                phase,
                conjugate,
            ),
            forall|k: int| 0 <= k < j ==> phases@[k] == #[trigger] expected[k],
        decreases count - j,
    {
        proof {
            assert(leading * j <= leading * (count - 1)) by (nonlinear_arith)
                requires
                    0 <= leading,
                    j <= count - 1,
            ;
        }
        phases.push(
            match column_phase(u, rows, leading, j, magnitude, phase) {
                Some(phase) => Some(BondPhase { column: call(conjugate, phase), row: phase }),
                None => None,
            },
        );
        assert(phases@[j as int] == expected[j as int]);
        j += 1;
    }
    assert(phases@ =~= expected);
    phases
}

/// Makes the largest entry of every row of `vh` real and positive: the row is
/// multiplied by the conjugate of that entry's phase, and the column of `u` by
/// the phase.
pub fn svd_compact_adjoint_gauge<
    D: Copy,
    K: Fn(D) -> u64,
    P: Fn(D) -> Option<D>,
    C: Fn(D) -> D,
    G: Fn(D, D) -> D,
>(
    u: &mut [D],
    u_rows: usize,
    u_leading: usize,
    vh: &mut [D],
    vh_rows: usize,
    vh_cols: usize,
    vh_leading: usize,
    magnitude: &K,
    phase: &P,
    conjugate: &C,
    multiply: &G,
)
    requires
        is_function(magnitude),
        is_function(phase),
        is_function(conjugate),
        is_operation(multiply),
        u_rows <= u_leading,
        vh_rows <= vh_leading,
        matrix_fits(u_rows as int, vh_rows as int, u_leading as int, old(u)@.len() as int),
        matrix_fits(vh_rows as int, vh_cols as int, vh_leading as int, old(vh)@.len() as int),
    ensures
        final(u)@.len() == old(u)@.len(),
        final(vh)@.len() == old(vh)@.len(),
        rows_gauged(
            (GaugedPair { left: old(u)@, right: old(vh)@ }),
            (GaugedPair { left: final(u)@, right: final(vh)@ }),
            u_rows as int,
            u_leading as int,
            vh_rows as int,
            vh_cols as int,
            vh_leading as int,
            magnitude,
            phase,
            conjugate,
            multiply,
        ),
{
    let ghost expected = row_bond_phases(
        vh@,
        vh_cols as int,
        vh_leading as int,
        vh_rows as int,
        magnitude,
        phase,
        conjugate,
    );
    let mut phases: Vec<Option<BondPhase<D>>> = Vec::with_capacity(vh_rows);
    let mut j: usize = 0;
    while j < vh_rows
        invariant
            j <= vh_rows,
            vh@ == old(vh)@,
            matrix_fits(vh_rows as int, vh_cols as int, vh_leading as int, vh@.len() as int),
            is_function(magnitude),
            is_function(phase),
            is_function(conjugate),
            phases@.len() == j,
            expected == row_bond_phases(
                vh@,
                vh_cols as int,
                vh_leading as int,
                vh_rows as int,
                magnitude,
                phase,
                conjugate,
            ),
            forall|k: int| 0 <= k < j ==> phases@[k] == #[trigger] expected[k],
        decreases vh_rows - j,
    {
        let found = strided_phase(vh, j, vh_leading, vh_cols, magnitude, phase);
        phases.push(
            match found {
                Some(phase) => Some(BondPhase { column: phase, row: call(conjugate, phase) }),
                None => None,
            },
        );
        assert(phases@[j as int] == expected[j as int]);
        j += 1;
    }
    assert(phases@ =~= expected);
    apply_bond_phases(u, u_rows, u_leading, vh, vh_cols, vh_leading, phases.as_slice(), multiply);
}

fn phases_of_columns<D: Copy, K: Fn(D) -> u64, P: Fn(D) -> Option<D>, C: Fn(D) -> D>(
    data: &[D],
    rows: usize,
    leading: usize,
    count: usize,
    magnitude: &K,
    phase: &P,
    conjugate: &C,
) -> (phases: Vec<Option<D>>)
    requires
        is_function(magnitude),
        is_function(phase),
        is_function(conjugate),
        matrix_fits(rows as int, count as int, leading as int, data@.len() as int),
    ensures
        phases@ == column_phases(
            data@,
            rows as int,
            leading as int,
            count as int,
            magnitude,
            phase,
            conjugate,
        ),
{
    let ghost expected = column_phases(
        data@,
        rows as int,
        leading as int,
        count as int,
        magnitude,
        phase,
        conjugate,
    );
    let mut phases: Vec<Option<D>> = Vec::with_capacity(count);
    let mut j: usize = 0;
    while j < count
        invariant
            j <= count,
            matrix_fits(rows as int, count as int, leading as int, data@.len() as int),
            is_function(magnitude),
            is_function(phase),
            is_function(conjugate),
            phases@.len() == j,
            expected == column_phases(
                data@,
                rows as int,
                leading as int,
                count as int,
                magnitude,
                phase,
                conjugate,
            ),
            forall|k: int| 0 <= k < j ==> phases@[k] == #[trigger] expected[k],
        decreases count - j,
    {
        proof {
            assert(leading * j <= leading * (count - 1)) by (nonlinear_arith)
                requires
                    0 <= leading,
                    j <= count - 1,
            ;
        }
        phases.push(
            conjugated(column_phase(data, rows, leading, j, magnitude, phase), conjugate),
        );
        assert(phases@[j as int] == expected[j as int]);
        j += 1;
    }
    assert(phases@ =~= expected);
    phases
}

fn phases_of_rows<D: Copy, K: Fn(D) -> u64, P: Fn(D) -> Option<D>, C: Fn(D) -> D>(
    data: &[D],
    cols: usize,
    leading: usize,
    count: usize,
    magnitude: &K,
    phase: &P,
    conjugate: &C,
) -> (phases: Vec<Option<D>>)
    requires
        is_function(magnitude),
        is_function(phase),
        is_function(conjugate),
        matrix_fits(count as int, cols as int, leading as int, data@.len() as int),
    ensures
        phases@ == row_phases(
            data@,
            cols as int,
            leading as int,
            count as int,
            magnitude,
            phase,
            conjugate,
        ),
{
    let ghost expected = row_phases(
        data@,
        cols as int,
        leading as int,
        count as int,
        magnitude,
        phase,
        conjugate,
    );
    let mut phases: Vec<Option<D>> = Vec::with_capacity(count);
    let mut j: usize = 0;
    while j < count
        invariant
            j <= count,
            matrix_fits(count as int, cols as int, leading as int, data@.len() as int),
            is_function(magnitude),
            is_function(phase),
            is_function(conjugate),
            phases@.len() == j,
            expected == row_phases(
                data@,
                cols as int,
                leading as int,
                count as int,
                magnitude,
                phase,
                conjugate,
            ),
            forall|k: int| 0 <= k < j ==> phases@[k] == #[trigger] expected[k],
        decreases count - j,
    {
        phases.push(
            conjugated(strided_phase(data, j, leading, cols, magnitude, phase), conjugate),
        );
        assert(phases@[j as int] == expected[j as int]);
        j += 1;
    }
    assert(phases@ =~= expected);
    phases
}

/// [`svd_compact_gauge`] for square factors: the columns of `u` and rows of `vh`
/// that have a partner share its phase, and the others are made real on their
/// own.
pub fn svd_full_gauge<
    D: Copy,
    K: Fn(D) -> u64,
    P: Fn(D) -> Option<D>,
    C: Fn(D) -> D,
    G: Fn(D, D) -> D,
>(
    u: &mut [D],
    u_rows: usize,
    u_leading: usize,
    vh: &mut [D],
    vh_rows: usize,
    vh_cols: usize,
    magnitude: &K,
    phase: &P,
    conjugate: &C,
    multiply: &G,
)
    requires
        is_function(magnitude),
        is_function(phase),
        is_function(conjugate),
        is_operation(multiply),
        u_rows <= u_leading,
        matrix_fits(u_rows as int, u_leading as int, u_leading as int, old(u)@.len() as int),
        matrix_fits(vh_rows as int, vh_cols as int, vh_rows as int, old(vh)@.len() as int),
    ensures
        final(u)@.len() == old(u)@.len(),
        final(vh)@.len() == old(vh)@.len(),
        squares_gauged(
            (GaugedPair { left: old(u)@, right: old(vh)@ }),
            (GaugedPair { left: final(u)@, right: final(vh)@ }),
            u_rows as int,
            u_leading as int,
            smaller(u_leading, vh_rows) as int,
            vh_rows as int,
            vh_cols as int,
            magnitude,
            phase,
            conjugate,
            multiply,
        ),
{
    let paired: usize = if u_leading <= vh_rows {
        u_leading
    } else {
        vh_rows
    };
    proof {
        assert(u_leading * (paired - 1) <= u_leading * (u_leading - 1)) by (nonlinear_arith)
            requires
                0 <= u_leading,
                paired <= u_leading,
        ;
    }
    let columns = phases_of_columns(
        u,
        u_rows,
        u_leading,
        u_leading,
        magnitude,
        phase,
        conjugate,
    );
    let rows = phases_of_rows(vh, vh_cols, vh_rows, vh_rows, magnitude, phase, conjugate);
    svd_compact_gauge(
        u,
        u_rows,
        u_leading,
        vh,
        paired,
        vh_cols,
        vh_rows,
        magnitude,
        phase,
        conjugate,
        multiply,
    );
    apply_column_phases(u, u_rows, u_leading, columns.as_slice(), paired, multiply);
    apply_row_phases(vh, vh_cols, vh_rows, rows.as_slice(), paired, multiply);
}

/// Makes the largest entry of every column real and positive.
pub fn eigenvector_gauge<
    D: Copy,
    K: Fn(D) -> u64,
    P: Fn(D) -> Option<D>,
    C: Fn(D) -> D,
    G: Fn(D, D) -> D,
>(
    vectors: &mut [D],
    rows: usize,
    leading: usize,
    cols: usize,
    magnitude: &K,
    phase: &P,
    conjugate: &C,
    multiply: &G,
)
    requires
        is_function(magnitude),
        is_function(phase),
        is_function(conjugate),
        is_operation(multiply),
        rows <= leading,
        matrix_fits(rows as int, cols as int, leading as int, old(vectors)@.len() as int),
    ensures
        final(vectors)@.len() == old(vectors)@.len(),
        vectors_gauged(
            old(vectors)@,
            final(vectors)@,
            rows as int,
            leading as int,
            cols as int,
            magnitude,
            phase,
            conjugate,
            multiply,
        ),
{
    let phases = phases_of_columns(vectors, rows, leading, cols, magnitude, phase, conjugate);
    apply_column_phases(vectors, rows, leading, phases.as_slice(), 0, multiply);
}

} // verus!
