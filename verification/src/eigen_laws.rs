//! What sorting an eigensystem keeps: every value with its vector.

use vstd::prelude::*;

use crate::dense::{column, is_permutation};
use crate::eigen::{
    comes_first, is_descending, lemma_descending_order_unique, lemma_permutation_covers,
};
use crate::eigen_full::{stage_is_ordered, stage_is_sorted, EigenStage};
use crate::ring::{lemma_place, lemma_same_cells, matrix, Matrix, Ring};
use crate::tensor_laws::as_scalars;

verus! {

/// The columns of `v` are eigenvectors of `a` with these values.
pub open spec fn is_eigensystem<D>(
    ring: Ring<D>,
    a: Matrix<D>,
    v: Matrix<D>,
    values: Seq<D>,
) -> bool {
    &&& a.shaped()
    &&& v.shaped()
    &&& a.rows == a.cols == v.rows == v.cols == values.len()
    &&& ring.mul(a, v) == ring.mul(v, ring.diagonal(values))
}

/// Some place of the stage holds this value and this vector.
pub open spec fn has_pair<D, V>(stage: EigenStage<D, V>, value: V, vector: Seq<D>) -> bool {
    exists|k: int|
        {
            &&& 0 <= k < stage.values@.len()
            &&& #[trigger] stage.values@[k] == value
            &&& column(stage.vectors@, stage.values@.len() as int, k) == vector
        }
}

/// A column of the sorted vectors, cell by cell.
proof fn lemma_ordered_cell<D, V>(
    stage: EigenStage<D, V>,
    values: Seq<V>,
    vectors: Seq<D>,
    order: Seq<usize>,
    i: int,
    k: int,
)
    requires
        stage_is_ordered(stage, values, vectors, order),
        vectors.len() == values.len() * values.len(),
        forall|k: int| 0 <= k < values.len() ==> (#[trigger] order[k]) < values.len(),
        0 <= i < values.len(),
        0 <= k < values.len(),
    ensures
        matrix(values.len() as int, values.len() as int, stage.vectors@).at(i, k) == matrix(
            values.len() as int,
            values.len() as int,
            vectors,
        ).at(i, order[k] as int),
{
    let n = values.len() as int;
    let from = order[k] as int;
    lemma_place(n, n, i, k);
    lemma_place(n, n, i, from);
    assert(k * n == n * k && from * n == n * from) by (nonlinear_arith);
    assert(n * k + n <= n * n && n * from + n <= n * n && 0 <= n * k && 0 <= n * from)
        by (nonlinear_arith)
        requires
            0 <= k < n,
            0 <= from < n,
    ;
    assert(column(stage.vectors@, n, k)[i] == column(vectors, n, from)[i]);
}

/// Sorting keeps an eigensystem: every column is still an eigenvector with the
/// value at its place. The magnitudes of the values then descend, and every
/// pair of a value and a vector is still there.
pub proof fn lemma_sorted_is_eigensystem<D, V>(
    ring: Ring<D>,
    a: Matrix<D>,
    stage: EigenStage<D, V>,
    values: Seq<V>,
    vectors: Seq<D>,
    keys: Seq<u64>,
    to_scalar: spec_fn(V) -> D,
    magnitude: spec_fn(V) -> u64,
)
    requires
        ring.is_ring(),
        stage_is_sorted(stage, values, vectors, keys),
        keys == values.map_values(magnitude),
        is_eigensystem(
            ring,
            a,
            matrix(values.len() as int, values.len() as int, vectors),
            as_scalars(values, to_scalar),
        ),
    ensures
        stage.values@.len() == values.len(),
        is_eigensystem(
            ring,
            a,
            matrix(values.len() as int, values.len() as int, stage.vectors@),
            as_scalars(stage.values@, to_scalar),
        ),
        forall|j: int, k: int|
            0 <= j < k < values.len() ==> magnitude(#[trigger] stage.values@[j]) >= magnitude(
                #[trigger] stage.values@[k],
            ),
        forall|i: int|
            0 <= i < values.len() ==> has_pair(stage, #[trigger] values[i], column(
                vectors,
                values.len() as int,
                i,
            )),
{
    let n = values.len() as int;
    let order = choose|order: Seq<usize>|
        {
            &&& is_permutation(order, values.len() as int)
            &&& is_descending(keys, order)
            &&& #[trigger] stage_is_ordered(stage, values, vectors, order)
        };
    let v = matrix(n, n, vectors);
    let w = matrix(n, n, stage.vectors@);
    let before = as_scalars(values, to_scalar);
    let after = as_scalars(stage.values@, to_scalar);
    ring.mul_cells(a, v);
    ring.mul_cells(a, w);
    ring.diagonal_cells(after);
    ring.mul_cells(w, ring.diagonal(after));
    ring.times_diagonal(v, before);
    ring.times_diagonal(w, after);
    let left = ring.mul(a, w);
    let right = ring.mul(w, ring.diagonal(after));
    assert forall|i: int, k: int| 0 <= i < n && 0 <= k < n implies #[trigger] left.at(i, k)
        == right.at(i, k) by {
        let from = order[k] as int;
        assert forall|m: int| 0 <= m < n implies #[trigger] ring.product(a.at(i, m), w.at(m, k))
            == ring.product(a.at(i, m), v.at(m, from)) by {
            lemma_ordered_cell(stage, values, vectors, order, m, k);
        }
        ring.total_same(
            |m: int| ring.product(a.at(i, m), w.at(m, k)),
            |m: int| ring.product(a.at(i, m), v.at(m, from)),
            n,
        );
        assert(ring.mul(a, v).at(i, from) == ring.product(v.at(i, from), before[from]));
        lemma_ordered_cell(stage, values, vectors, order, i, k);
        assert(stage.values@[k] == values[from]);
    }
    lemma_same_cells(left, right);
    assert forall|j: int, k: int| 0 <= j < k < values.len() implies magnitude(
        #[trigger] stage.values@[j],
    ) >= magnitude(#[trigger] stage.values@[k]) by {
        assert(comes_first(keys, order[j] as int, order[k] as int));
    }
    assert forall|i: int| 0 <= i < values.len() implies has_pair(
        stage,
        #[trigger] values[i],
        column(vectors, values.len() as int, i),
    ) by {
        lemma_permutation_covers(order, n, i);
        let k = choose|k: int| 0 <= k < n && (#[trigger] order[k]) == i;
        assert(stage.values@[k] == values[i]);
    }
}

/// Sorting leaves an eigensystem alone whose magnitudes descend already, also
/// where some of them are equal.
pub proof fn lemma_sorted_stays<D, V>(
    stage: EigenStage<D, V>,
    values: Seq<V>,
    vectors: Seq<D>,
    keys: Seq<u64>,
)
    requires
        stage_is_sorted(stage, values, vectors, keys),
        keys.len() == values.len() <= usize::MAX,
        vectors.len() == values.len() * values.len(),
        forall|j: int, k: int|
            0 <= j < k < keys.len() ==> #[trigger] keys[j] >= #[trigger] keys[k],
    ensures
        stage.values@ == values,
        stage.vectors@ == vectors,
{
    let n = values.len() as int;
    let order = choose|order: Seq<usize>|
        {
            &&& is_permutation(order, values.len() as int)
            &&& is_descending(keys, order)
            &&& #[trigger] stage_is_ordered(stage, values, vectors, order)
        };
    let own = Seq::new(n as nat, |k: int| k as usize);
    assert forall|j: int, k: int| 0 <= j < k < own.len() implies comes_first(
        keys,
        (#[trigger] own[j]) as int,
        (#[trigger] own[k]) as int,
    ) by {
        assert(keys[j] >= keys[k]);
    }
    lemma_descending_order_unique(keys, order, own);
    assert(stage.values@ =~= values) by {
        assert forall|k: int| 0 <= k < n implies stage.values@[k] == values[k] by {
            assert(order[k] == own[k]);
        }
    }
    let v = matrix(n, n, vectors);
    let w = matrix(n, n, stage.vectors@);
    assert forall|i: int, k: int| 0 <= i < n && 0 <= k < n implies #[trigger] w.at(i, k) == v.at(
        i,
        k,
    ) by {
        assert(order[k] == own[k]);
        lemma_ordered_cell(stage, values, vectors, order, i, k);
    }
    lemma_same_cells(w, v);
}

} // verus!
