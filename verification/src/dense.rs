//! Column-major dense matrices.

use vstd::prelude::*;

use crate::spectrum::{image, is_function, lemma_image};
use crate::writes::{apply_writes, lemma_writes_step, Write};

verus! {

/// The writes that copy a `rows x cols` matrix between two leading dimensions.
pub open spec fn strided_copy_writes<D>(
    source: Seq<D>,
    rows: int,
    cols: int,
    source_leading: int,
    destination_leading: int,
) -> Seq<Write<D>> {
    Seq::new(
        (rows * cols) as nat,
        |n: int|
            (
                destination_leading * (n / rows) + n % rows,
                source[source_leading * (n / rows) + n % rows],
            ),
    )
}

/// Every element of a `rows x cols` matrix with the given leading dimension
/// lies inside a buffer of `len` elements.
pub open spec fn matrix_fits(rows: int, cols: int, leading: int, len: int) -> bool {
    rows > 0 && cols > 0 ==> leading * (cols - 1) + rows <= len
}

/// Copies a `rows x cols` matrix from one leading dimension to another.
pub fn copy_col_major_strided<D: Copy>(
    source: &[D],
    rows: usize,
    cols: usize,
    source_leading: usize,
    destination: &mut [D],
    destination_leading: usize,
)
    requires
        matrix_fits(rows as int, cols as int, source_leading as int, source@.len() as int),
        matrix_fits(
            rows as int,
            cols as int,
            destination_leading as int,
            old(destination)@.len() as int,
        ),
    ensures
        final(destination)@.len() == old(destination)@.len(),
        final(destination)@ == apply_writes(
            old(destination)@,
            strided_copy_writes(
                source@,
                rows as int,
                cols as int,
                source_leading as int,
                destination_leading as int,
            ),
        ),
{
    let ghost writes = strided_copy_writes(
        source@,
        rows as int,
        cols as int,
        source_leading as int,
        destination_leading as int,
    );
    proof {
        assert(writes.take(0) =~= Seq::empty());
    }
    if rows == 0 || cols == 0 {
        proof {
            assert(rows * cols == 0) by (nonlinear_arith)
                requires
                    rows == 0 || cols == 0,
            ;
            assert(writes =~= Seq::empty());
        }
        return;
    }
    let source_len: usize = source.len();
    let len: usize = destination.len();
    let mut col: usize = 0;
    proof {
        assert(rows * 0 == 0);
    }
    while col < cols
        invariant
            col <= cols,
            rows > 0,
            cols > 0,
            source_len == source@.len(),
            len == destination@.len() == old(destination)@.len(),
            matrix_fits(rows as int, cols as int, source_leading as int, source@.len() as int),
            matrix_fits(rows as int, cols as int, destination_leading as int, len as int),
            writes == strided_copy_writes(
                source@,
                rows as int,
                cols as int,
                source_leading as int,
                destination_leading as int,
            ),
            destination@ == apply_writes(old(destination)@, writes.take(rows * col)),
        decreases cols - col,
    {
        proof {
            assert(source_leading * col <= source_leading * (cols - 1)) by (nonlinear_arith)
                requires
                    source_leading >= 0,
                    col <= cols - 1,
            ;
            assert(destination_leading * col <= destination_leading * (cols - 1))
                by (nonlinear_arith)
                requires
                    destination_leading >= 0,
                    col <= cols - 1,
            ;
        }
        let source_start: usize = source_leading * col;
        let start: usize = destination_leading * col;
        let mut row: usize = 0;
        while row < rows
            invariant
                row <= rows,
                col < cols,
                rows > 0,
                source_len == source@.len(),
                len == destination@.len() == old(destination)@.len(),
                source_start == source_leading * col,
                start == destination_leading * col,
                source_start + rows <= source_len,
                start + rows <= len,
                writes == strided_copy_writes(
                    source@,
                    rows as int,
                    cols as int,
                    source_leading as int,
                    destination_leading as int,
                ),
                destination@ == apply_writes(old(destination)@, writes.take(rows * col + row)),
            decreases rows - row,
        {
            destination[start + row] = source[source_start + row];
            proof {
                let n = rows * col + row;
                lemma_column_position(rows as int, cols as int, row as int, col as int);
                lemma_writes_step(old(destination)@, writes, n);
            }
            row += 1;
        }
        proof {
            assert(rows * (col + 1) == rows * col + rows) by (nonlinear_arith);
        }
        col += 1;
    }
    proof {
        assert(writes.take(rows * cols) =~= writes);
    }
}

/// Linear position, column and row of a matrix element.
pub proof fn lemma_column_position(rows: int, cols: int, row: int, col: int)
    requires
        0 <= row < rows,
        0 <= col < cols,
    ensures
        0 <= rows * col + row < rows * cols,
        (rows * col + row) / rows == col,
        (rows * col + row) % rows == row,
{
    crate::index::lemma_div_mod_unique(rows * col + row, rows, col, row);
    assert(0 <= rows * col && rows * col + rows <= rows * cols) by (nonlinear_arith)
        requires
            0 <= col,
            col + 1 <= cols,
            rows > 0,
    ;
}

/// `adjoint` is the conjugate transpose of the column-major `rows x cols`
/// matrix `data`, with conjugation taken from `conjugate`.
pub open spec fn is_adjoint<D, F: Fn(D) -> D>(
    conjugate: F,
    data: Seq<D>,
    rows: int,
    cols: int,
    adjoint: Seq<D>,
) -> bool {
    &&& adjoint.len() == data.len()
    &&& forall|row: int, col: int|
        0 <= row < rows && 0 <= col < cols ==> call_ensures(
            conjugate,
            (data[#[trigger] (rows * col + row)],),
            adjoint[cols * row + col],
        )
}

/// Conjugate transpose of a column-major `rows x cols` matrix into a buffer of
/// the same length.
pub fn adjoint_col_major_into<D: Copy, F: Fn(D) -> D>(
    data: &[D],
    rows: usize,
    cols: usize,
    adjoint: &mut [D],
    conjugate: &F,
)
    requires
        data@.len() == rows * cols,
        old(adjoint)@.len() == data@.len(),
        forall|k: int| 0 <= k < data@.len() ==> call_requires(conjugate, (#[trigger] data@[k],)),
    ensures
        is_adjoint(conjugate, data@, rows as int, cols as int, final(adjoint)@),
{
    let len: usize = data.len();
    let mut col: usize = 0;
    while col < cols
        invariant
            col <= cols,
            len == data@.len() == adjoint@.len() == rows * cols,
            forall|k: int|
                0 <= k < data@.len() ==> call_requires(conjugate, (#[trigger] data@[k],)),
            forall|r: int, c: int|
                0 <= r < rows && 0 <= c < col ==> call_ensures(
                    conjugate,
                    (data@[#[trigger] (rows * c + r)],),
                    adjoint@[cols * r + c],
                ),
        decreases cols - col,
    {
        let mut row: usize = 0;
        while row < rows
            invariant
                row <= rows,
                col < cols,
                len == data@.len() == adjoint@.len() == rows * cols,
                forall|k: int|
                    0 <= k < data@.len() ==> call_requires(conjugate, (#[trigger] data@[k],)),
                forall|r: int, c: int|
                    0 <= r < rows && (0 <= c < col || c == col && r < row) ==> call_ensures(
                        conjugate,
                        (data@[#[trigger] (rows * c + r)],),
                        adjoint@[cols * r + c],
                    ),
            decreases rows - row,
        {
            proof {
                lemma_column_position(rows as int, cols as int, row as int, col as int);
                lemma_column_position(cols as int, rows as int, col as int, row as int);
                assert(rows * cols == cols * rows) by (nonlinear_arith);
                assert(0 <= rows * col && 0 <= cols * row) by (nonlinear_arith)
                    requires
                        rows >= 0,
                        cols >= 0,
                        row >= 0,
                        col >= 0,
                ;
            }
            let value: D = data[row + rows * col];
            let conjugated: D = conjugate(value);
            let ghost before = adjoint@;
            adjoint[col + cols * row] = conjugated;
            proof {
                assert forall|r: int, c: int|
                    0 <= r < rows && (0 <= c < col || c == col && r < row
                        + 1) implies call_ensures(
                    conjugate,
                    (data@[#[trigger] (rows * c + r)],),
                    adjoint@[cols * r + c],
                ) by {
                    lemma_column_position(cols as int, rows as int, c, r);
                    assert(rows * cols == cols * rows) by (nonlinear_arith);
                    if r != row || c != col {
                        assert(cols * r + c != cols * row + col);
                    }
                }
            }
            row += 1;
        }
        col += 1;
    }
}

/// Conjugate transpose of a column-major `rows x cols` matrix.
pub fn adjoint_col_major<D: Copy, F: Fn(D) -> D>(
    data: &[D],
    rows: usize,
    cols: usize,
    conjugate: &F,
) -> (adjoint: Vec<D>)
    requires
        data@.len() == rows * cols,
        forall|k: int| 0 <= k < data@.len() ==> call_requires(conjugate, (#[trigger] data@[k],)),
    ensures
        is_adjoint(conjugate, data@, rows as int, cols as int, adjoint@),
{
    let mut adjoint: Vec<D> = vstd::slice::slice_to_vec(data);
    adjoint_col_major_into(data, rows, cols, &mut adjoint, conjugate);
    adjoint
}

/// Column `col` of a matrix with `n` rows.
pub open spec fn column<D>(data: Seq<D>, n: int, col: int) -> Seq<D> {
    data.subrange(col * n, col * n + n)
}

/// Columns of a matrix are separate ranges.
proof fn lemma_column_range(n: int, cols: int, col: int)
    requires
        0 <= n,
        0 <= col < cols,
    ensures
        0 <= col * n,
        col * n + n <= cols * n,
{
    assert(0 <= col * n && col * n + n <= cols * n) by (nonlinear_arith)
        requires
            0 <= n,
            0 <= col,
            col + 1 <= cols,
    ;
}

proof fn lemma_columns_apart(n: int, a: int, b: int)
    requires
        0 <= n,
        a != b,
    ensures
        a * n + n <= b * n || b * n + n <= a * n,
{
    if a < b {
        assert(a * n + n <= b * n) by (nonlinear_arith)
            requires
                0 <= n,
                a + 1 <= b,
        ;
    } else {
        assert(b * n + n <= a * n) by (nonlinear_arith)
            requires
                0 <= n,
                b + 1 <= a,
        ;
    }
}

/// Copies one column of an `n`-row matrix over another.
fn copy_column<D: Copy>(data: &mut [D], n: usize, cols: usize, source: usize, destination: usize)
    requires
        source < cols,
        destination < cols,
        source != destination,
        cols * n <= old(data)@.len(),
    ensures
        final(data)@.len() == old(data)@.len(),
        column(final(data)@, n as int, destination as int) == column(
            old(data)@,
            n as int,
            source as int,
        ),
        forall|col: int|
            0 <= col < cols && col != destination ==> #[trigger] column(
                final(data)@,
                n as int,
                col,
            ) == column(old(data)@, n as int, col),
        forall|k: int| cols * n <= k < old(data)@.len() ==> final(data)@[k] == old(data)@[k],
{
    let len: usize = data.len();
    proof {
        lemma_column_range(n as int, cols as int, source as int);
        lemma_column_range(n as int, cols as int, destination as int);
        lemma_columns_apart(n as int, source as int, destination as int);
    }
    let from: usize = source * n;
    let to: usize = destination * n;
    let mut row: usize = 0;
    while row < n
        invariant
            row <= n,
            from + n <= len,
            to + n <= len,
            from + n <= to || to + n <= from,
            len == data@.len() == old(data)@.len(),
            forall|k: int| 0 <= k < row ==> #[trigger] data@[to + k] == old(data)@[from + k],
            forall|k: int|
                0 <= k < len && !(to <= k < to + row) ==> data@[k] == old(data)@[k],
        decreases n - row,
    {
        let value: D = data[from + row];
        let ghost before = data@;
        data[to + row] = value;
        proof {
            assert forall|k: int| 0 <= k < row + 1 implies #[trigger] data@[to + k] == old(
                data,
            )@[from + k] by {
                if k < row {
                    assert(before[to + k] == old(data)@[from + k]);
                }
            }
        }
        row += 1;
    }
    proof {
        let moved = column(data@, n as int, destination as int);
        let original = column(old(data)@, n as int, source as int);
        assert forall|k: int| 0 <= k < n implies moved[k] == original[k] by {
            assert(data@[to + k] == old(data)@[from + k]);
        }
        assert(moved =~= original);
        assert forall|col: int| 0 <= col < cols && col != destination implies #[trigger] column(
            data@,
            n as int,
            col,
        ) == column(old(data)@, n as int, col) by {
            lemma_columns_apart(n as int, col, destination as int);
            lemma_column_range(n as int, cols as int, col);
            assert(column(data@, n as int, col) =~= column(old(data)@, n as int, col));
        }
    }
}

/// Overwrites one column of an `n`-row matrix with the first `n` elements of a
/// buffer.
fn store_column<D: Copy>(data: &mut [D], n: usize, cols: usize, buffer: &[D], destination: usize)
    requires
        destination < cols,
        n <= buffer@.len(),
        cols * n <= old(data)@.len(),
    ensures
        final(data)@.len() == old(data)@.len(),
        column(final(data)@, n as int, destination as int) == buffer@.subrange(0, n as int),
        forall|col: int|
            0 <= col < cols && col != destination ==> #[trigger] column(
                final(data)@,
                n as int,
                col,
            ) == column(old(data)@, n as int, col),
        forall|k: int| cols * n <= k < old(data)@.len() ==> final(data)@[k] == old(data)@[k],
{
    let len: usize = data.len();
    proof {
        lemma_column_range(n as int, cols as int, destination as int);
    }
    let to: usize = destination * n;
    let mut row: usize = 0;
    while row < n
        invariant
            row <= n <= buffer@.len(),
            to + n <= len,
            len == data@.len() == old(data)@.len(),
            forall|k: int| 0 <= k < row ==> #[trigger] data@[to + k] == buffer@[k],
            forall|k: int|
                0 <= k < len && !(to <= k < to + row) ==> data@[k] == old(data)@[k],
        decreases n - row,
    {
        let ghost before = data@;
        data[to + row] = buffer[row];
        proof {
            assert forall|k: int| 0 <= k < row + 1 implies #[trigger] data@[to + k]
                == buffer@[k] by {
                if k < row {
                    assert(before[to + k] == buffer@[k]);
                }
            }
        }
        row += 1;
    }
    proof {
        let moved = column(data@, n as int, destination as int);
        let original = buffer@.subrange(0, n as int);
        assert forall|k: int| 0 <= k < n implies moved[k] == original[k] by {
            assert(data@[to + k] == buffer@[k]);
        }
        assert(moved =~= original);
        assert forall|col: int| 0 <= col < cols && col != destination implies #[trigger] column(
            data@,
            n as int,
            col,
        ) == column(old(data)@, n as int, col) by {
            lemma_columns_apart(n as int, col, destination as int);
            lemma_column_range(n as int, cols as int, col);
            assert(column(data@, n as int, col) =~= column(old(data)@, n as int, col));
        }
    }
}

/// The first `n` entries of `order` are a permutation of `0..n`.
pub open spec fn is_permutation(order: Seq<usize>, n: int) -> bool {
    &&& n <= order.len()
    &&& forall|k: int| 0 <= k < n ==> (#[trigger] order[k]) < n
    &&& forall|j: int, k: int|
        0 <= j < k < n ==> (#[trigger] order[j]) != (#[trigger] order[k])
}

/// Number of unset flags among the first `n`.
spec fn pending(visited: Seq<bool>, n: int) -> nat
    decreases n,
{
    if n <= 0 {
        0
    } else {
        pending(visited, n - 1) + if visited[n - 1] {
            0nat
        } else {
            1nat
        }
    }
}

proof fn lemma_pending_drops(before: Seq<bool>, after: Seq<bool>, n: int, k: int)
    requires
        0 <= k < n <= before.len(),
        !before[k],
        after == before.update(k, true),
    ensures
        pending(after, n) + 1 == pending(before, n),
    decreases n,
{
    if k < n - 1 {
        lemma_pending_drops(before, after, n - 1, k);
    } else {
        lemma_pending_same(before, after, n - 1);
    }
}

proof fn lemma_pending_same(before: Seq<bool>, after: Seq<bool>, n: int)
    requires
        0 <= n <= before.len(),
        n <= after.len(),
        forall|k: int| 0 <= k < n ==> before[k] == after[k],
    ensures
        pending(after, n) == pending(before, n),
    decreases n,
{
    if n > 0 {
        lemma_pending_same(before, after, n - 1);
    }
}

/// State of a cycle walk: visited columns hold their source, the others are
/// untouched, and visited columns other than the walk's ends are closed under
/// `order` in both directions.
spec fn cycle_state<D>(
    original: Seq<D>,
    vectors: Seq<D>,
    n: int,
    order: Seq<usize>,
    visited: Seq<bool>,
    origin: Map<int, int>,
    start: int,
    current: int,
) -> bool {
    &&& vectors.len() == original.len()
    &&& n * n <= original.len()
    &&& forall|k: int| n * n <= k < original.len() ==> vectors[k] == original[k]
    &&& forall|k: int|
        0 <= k < n ==> #[trigger] column(vectors, n, k) == if visited[k] {
            column(original, n, order[k] as int)
        } else {
            column(original, n, k)
        }
    &&& forall|k: int|
        0 <= k < n && #[trigger] visited[k] ==> visited[order[k] as int] || order[k] == current
    &&& forall|k: int|
        0 <= k < n && #[trigger] visited[k] && k != start ==> {
            &&& 0 <= origin[k] < n
            &&& visited[origin[k]]
            &&& order[origin[k]] == k
        }
}

/// The walk's current column is its start or was reached from a visited one.
spec fn reached(
    n: int,
    order: Seq<usize>,
    visited: Seq<bool>,
    origin: Map<int, int>,
    start: int,
    current: int,
) -> bool {
    if current == start {
        true
    } else {
        &&& visited[start]
        &&& 0 <= origin[current] < n
        &&& visited[origin[current]]
        &&& order[origin[current]] == current
    }
}

/// A walk that has not come back to its start goes on to an unvisited column.
proof fn lemma_cycle_is_open<D>(
    original: Seq<D>,
    held: Seq<D>,
    n: int,
    order: Seq<usize>,
    seen: Seq<bool>,
    origin: Map<int, int>,
    start: int,
    current: int,
)
    requires
        is_permutation(order, n),
        n <= seen.len(),
        0 <= start < n,
        0 <= current < n,
        !seen[current],
        order[current] != start,
        reached(n, order, seen, origin, start, current),
        cycle_state(original, held, n, order, seen, origin, start, current),
    ensures
        !seen[order[current] as int],
        order[current] != current,
{
    let source = order[current] as int;
    if seen[source] || source == current {
        let twin = origin[source];
        assert(seen[twin]);
        assert(order[twin] == order[current]);
        assert(twin != current);
    }
}

/// Writing the saved start column into the last column closes the cycle.
proof fn lemma_cycle_closes<D>(
    original: Seq<D>,
    held: Seq<D>,
    vectors: Seq<D>,
    n: int,
    order: Seq<usize>,
    seen: Seq<bool>,
    origin: Map<int, int>,
    start: int,
    current: int,
)
    requires
        is_permutation(order, n),
        n <= seen.len(),
        0 <= start < n,
        0 <= current < n,
        !seen[current],
        reached(n, order, seen, origin, start, current),
        cycle_state(original, held, n, order, seen, origin, start, current),
        vectors.len() == held.len(),
        forall|k: int| n * n <= k < held.len() ==> vectors[k] == held[k],
        forall|k: int|
            0 <= k < n && k != current ==> #[trigger] column(vectors, n, k) == column(held, n, k),
        order[current] == start,
        column(vectors, n, current) == column(original, n, start),
    ensures
        cycle_state(
            original,
            vectors,
            n,
            order,
            seen.update(current, true),
            origin.insert(start, current),
            -1,
            -1,
        ),
{
    let visited = seen.update(current, true);
    let closed = origin.insert(start, current);
    assert forall|k: int| 0 <= k < n implies #[trigger] column(vectors, n, k) == if visited[k] {
        column(original, n, order[k] as int)
    } else {
        column(original, n, k)
    } by {
        if k != current {
            assert(column(vectors, n, k) == column(held, n, k));
        }
    }
    assert forall|k: int| 0 <= k < n && #[trigger] visited[k] implies visited[order[k] as int]
        || order[k] == -1 by {
        if k != current {
            assert(seen[k]);
        }
    }
    assert forall|k: int| 0 <= k < n && #[trigger] visited[k] && k != -1 implies {
        &&& 0 <= closed[k] < n
        &&& visited[closed[k]]
        &&& order[closed[k]] == k
    } by {
        if k != start && k != current {
            assert(seen[k]);
        }
    }
}

/// Moving the source column into the current one takes the walk one step on.
proof fn lemma_cycle_walks<D>(
    original: Seq<D>,
    held: Seq<D>,
    vectors: Seq<D>,
    n: int,
    order: Seq<usize>,
    seen: Seq<bool>,
    origin: Map<int, int>,
    start: int,
    current: int,
)
    requires
        is_permutation(order, n),
        n <= seen.len(),
        0 <= start < n,
        0 <= current < n,
        !seen[current],
        reached(n, order, seen, origin, start, current),
        cycle_state(original, held, n, order, seen, origin, start, current),
        vectors.len() == held.len(),
        forall|k: int| n * n <= k < held.len() ==> vectors[k] == held[k],
        forall|k: int|
            0 <= k < n && k != current ==> #[trigger] column(vectors, n, k) == column(held, n, k),
        order[current] != start,
        column(vectors, n, current) == column(held, n, order[current] as int),
    ensures
        cycle_state(
            original,
            vectors,
            n,
            order,
            seen.update(current, true),
            origin.insert(order[current] as int, current),
            start,
            order[current] as int,
        ),
        reached(
            n,
            order,
            seen.update(current, true),
            origin.insert(order[current] as int, current),
            start,
            order[current] as int,
        ),
{
    let source = order[current] as int;
    let visited = seen.update(current, true);
    let walked = origin.insert(source, current);
    lemma_cycle_is_open(original, held, n, order, seen, origin, start, current);
    assert(column(held, n, source) == column(original, n, source));
    assert forall|k: int| 0 <= k < n implies #[trigger] column(vectors, n, k) == if visited[k] {
        column(original, n, order[k] as int)
    } else {
        column(original, n, k)
    } by {
        if k != current {
            assert(column(vectors, n, k) == column(held, n, k));
        }
    }
    assert forall|k: int| 0 <= k < n && #[trigger] visited[k] implies visited[order[k] as int]
        || order[k] == source by {
        if k != current {
            assert(seen[k]);
        }
    }
    assert forall|k: int| 0 <= k < n && #[trigger] visited[k] && k != start implies {
        &&& 0 <= walked[k] < n
        &&& visited[walked[k]]
        &&& order[walked[k]] == k
    } by {
        if k != current {
            assert(seen[k]);
        }
        assert(walked[k] == origin[k]);
    }
}

/// Permutes the columns of an `n x n` matrix in place: column `k` becomes the
/// former column `order[k]`. `visited` and `scratch` are workspace.
pub fn reorder_columns_in_place<D: Copy>(
    vectors: &mut [D],
    n: usize,
    order: &[usize],
    visited: &mut [bool],
    scratch: &mut [D],
)
    requires
        is_permutation(order@, n as int),
        n * n <= old(vectors)@.len(),
        n <= old(visited)@.len(),
        n <= old(scratch)@.len(),
    ensures
        final(vectors)@.len() == old(vectors)@.len(),
        forall|k: int|
            0 <= k < n ==> #[trigger] column(final(vectors)@, n as int, k) == column(
                old(vectors)@,
                n as int,
                order@[k] as int,
            ),
        forall|k: int|
            n * n <= k < old(vectors)@.len() ==> final(vectors)@[k] == old(vectors)@[k],
        final(visited)@.len() == old(visited)@.len(),
        forall|k: int| 0 <= k < n ==> final(visited)@[k],
        forall|k: int|
            n <= k < old(visited)@.len() ==> final(visited)@[k] == old(visited)@[k],
        final(scratch)@.len() == old(scratch)@.len(),
        forall|k: int|
            n <= k < old(scratch)@.len() ==> final(scratch)@[k] == old(scratch)@[k],
{
    let ghost original = vectors@;
    let mut k: usize = 0;
    while k < n
        invariant
            k <= n <= visited@.len(),
            visited@.len() == old(visited)@.len(),
            forall|j: int| 0 <= j < k ==> !visited@[j],
            forall|j: int| n <= j < visited@.len() ==> visited@[j] == old(visited)@[j],
        decreases n - k,
    {
        visited[k] = false;
        k += 1;
    }
    let ghost mut origin: Map<int, int> = Map::empty();
    let mut start: usize = 0;
    while start < n
        invariant
            start <= n <= visited@.len(),
            n <= scratch@.len(),
            is_permutation(order@, n as int),
            visited@.len() == old(visited)@.len(),
            scratch@.len() == old(scratch)@.len(),
            forall|j: int| n <= j < visited@.len() ==> visited@[j] == old(visited)@[j],
            forall|j: int| n <= j < scratch@.len() ==> scratch@[j] == old(scratch)@[j],
            forall|j: int| 0 <= j < start ==> visited@[j],
            cycle_state(original, vectors@, n as int, order@, visited@, origin, -1, -1),
        decreases n - start,
    {
        if !visited[start] {
            let mut row: usize = 0;
            proof {
                lemma_column_range(n as int, n as int, start as int);
            }
            let len: usize = vectors.len();
            let from: usize = start * n;
            while row < n
                invariant
                    row <= n <= scratch@.len(),
                    from == start * n,
                    from + n <= len == vectors@.len(),
                    scratch@.len() == old(scratch)@.len(),
                    forall|j: int| n <= j < scratch@.len() ==> scratch@[j] == old(scratch)@[j],
                    forall|j: int| 0 <= j < row ==> scratch@[j] == vectors@[from + j],
                decreases n - row,
            {
                scratch[row] = vectors[from + row];
                row += 1;
            }
            let ghost saved = scratch@.subrange(0, n as int);
            assert(column(vectors@, n as int, start as int) == column(
                original,
                n as int,
                start as int,
            ));
            assert(saved =~= column(original, n as int, start as int));
            let mut destination: usize = start;
            let mut open: bool = true;
            assert(forall|j: int|
                0 <= j < n && #[trigger] visited@[j] ==> visited@[order@[j] as int]);
            while open
                invariant
                    start < n <= visited@.len(),
                    n <= scratch@.len(),
                    is_permutation(order@, n as int),
                    visited@.len() == old(visited)@.len(),
                    scratch@.len() == old(scratch)@.len(),
                    forall|j: int| n <= j < visited@.len() ==> visited@[j] == old(visited)@[j],
                    forall|j: int| n <= j < scratch@.len() ==> scratch@[j] == old(scratch)@[j],
                    forall|j: int| 0 <= j < start ==> visited@[j],
                    scratch@.subrange(0, n as int) == saved,
                    saved == column(original, n as int, start as int),
                    open ==> destination < n && !visited@[destination as int],
                    open ==> reached(
                        n as int,
                        order@,
                        visited@,
                        origin,
                        start as int,
                        destination as int,
                    ),
                    open ==> cycle_state(
                        original,
                        vectors@,
                        n as int,
                        order@,
                        visited@,
                        origin,
                        start as int,
                        destination as int,
                    ),
                    !open ==> visited@[start as int],
                    !open ==> cycle_state(
                        original,
                        vectors@,
                        n as int,
                        order@,
                        visited@,
                        origin,
                        -1,
                        -1,
                    ),
                decreases pending(visited@, n as int),
            {
                let ghost seen = visited@;
                let ghost held = vectors@;
                visited[destination] = true;
                proof {
                    lemma_pending_drops(seen, visited@, n as int, destination as int);
                }
                let source: usize = order[destination];
                if source == start {
                    store_column(vectors, n, n, scratch, destination);
                    proof {
                        lemma_cycle_closes(
                            original,
                            held,
                            vectors@,
                            n as int,
                            order@,
                            seen,
                            origin,
                            start as int,
                            destination as int,
                        );
                        origin = origin.insert(start as int, destination as int);
                    }
                    open = false;
                } else {
                    proof {
                        lemma_cycle_is_open(
                            original,
                            held,
                            n as int,
                            order@,
                            seen,
                            origin,
                            start as int,
                            destination as int,
                        );
                    }
                    copy_column(vectors, n, n, source, destination);
                    proof {
                        lemma_cycle_walks(
                            original,
                            held,
                            vectors@,
                            n as int,
                            order@,
                            seen,
                            origin,
                            start as int,
                            destination as int,
                        );
                        origin = origin.insert(source as int, destination as int);
                    }
                    destination = source;
                }
            }
        }
        start += 1;
    }
}

/// The conjugate transpose of a column-major `rows x cols` matrix.
pub open spec fn adjoint_matrix<D, F: Fn(D) -> D>(
    conjugate: F,
    data: Seq<D>,
    rows: int,
    cols: int,
) -> Seq<D> {
    Seq::new((rows * cols) as nat, |n: int| image(conjugate, data[rows * (n % cols) + n / cols]))
}

/// An adjoint under a function is the conjugate transpose.
pub proof fn lemma_adjoint_matrix<D, F: Fn(D) -> D>(
    conjugate: F,
    data: Seq<D>,
    rows: int,
    cols: int,
    adjoint: Seq<D>,
)
    requires
        is_function(conjugate),
        0 <= rows,
        0 <= cols,
        data.len() == rows * cols,
        is_adjoint(conjugate, data, rows, cols, adjoint),
    ensures
        adjoint == adjoint_matrix(conjugate, data, rows, cols),
{
    let expected = adjoint_matrix(conjugate, data, rows, cols);
    assert forall|n: int| 0 <= n < adjoint.len() implies adjoint[n] == expected[n] by {
        assert(rows * cols == cols * rows) by (nonlinear_arith);
        crate::index::lemma_split_bounds(n, cols, rows);
        let row = n / cols;
        let col = n % cols;
        assert(call_ensures(conjugate, (data[rows * col + row],), adjoint[cols * row + col]));
        lemma_image(conjugate, data[rows * col + row], adjoint[n]);
    }
    assert(adjoint =~= expected);
}

/// Conjugating and transposing twice gives the matrix back, where conjugating
/// an element twice gives the element back.
pub proof fn lemma_adjoint_involution<D, F: Fn(D) -> D>(
    conjugate: F,
    data: Seq<D>,
    rows: int,
    cols: int,
)
    requires
        0 <= rows,
        0 <= cols,
        data.len() == rows * cols,
        forall|x: D| #[trigger] image(conjugate, image(conjugate, x)) == x,
    ensures
        adjoint_matrix(
            conjugate,
            adjoint_matrix(conjugate, data, rows, cols),
            cols,
            rows,
        ) == data,
{
    let once = adjoint_matrix(conjugate, data, rows, cols);
    let twice = adjoint_matrix(conjugate, once, cols, rows);
    assert(rows * cols == cols * rows) by (nonlinear_arith);
    assert forall|n: int| 0 <= n < data.len() implies twice[n] == data[n] by {
        crate::index::lemma_split_bounds(n, rows, cols);
        let row = n % rows;
        let col = n / rows;
        lemma_column_position(cols, rows, col, row);
        let m = cols * row + col;
        assert(twice[n] == image(conjugate, once[m]));
        assert(once[m] == image(conjugate, data[rows * col + row]));
        assert(rows * col + row == n);
    }
    assert(twice =~= data);
}

/// `data` with `part` in place of as many elements from `start` on.
pub open spec fn splice<D>(data: Seq<D>, start: int, part: Seq<D>) -> Seq<D> {
    Seq::new(
        data.len(),
        |k: int|
            if start <= k < start + part.len() {
                part[k - start]
            } else {
                data[k]
            },
    )
}

/// Overwrites the elements from `start` on.
pub fn write_range<D: Copy>(data: &mut [D], start: usize, part: &[D])
    requires
        start + part@.len() <= old(data)@.len(),
    ensures
        final(data)@ == splice(old(data)@, start as int, part@),
        final(data)@.len() == old(data)@.len(),
{
    let len: usize = data.len();
    let mut k: usize = 0;
    while k < part.len()
        invariant
            k <= part@.len(),
            start + part@.len() <= len == data@.len(),
            len == old(data)@.len(),
            forall|j: int|
                0 <= j < len ==> #[trigger] data@[j] == if start <= j < start + k {
                    part@[j - start]
                } else {
                    old(data)@[j]
                },
        decreases part.len() - k,
    {
        data[start + k] = part[k];
        k += 1;
    }
    assert(data@ =~= splice(old(data)@, start as int, part@));
}

} // verus!
