//! Order and admission of eigendecompositions.

use vstd::prelude::*;

use crate::dense::{column, is_permutation};
use crate::error::{unsupported, OperationError};
use crate::geometry::{
    same_extents, CoupledSectorRegion, Geometry, SectorGeometry, SectorMatricization,
};
use crate::publish::scope;
use crate::space::FusionTreeHomSpace;

verus! {

/// Entry `a` comes before entry `b`: its key is larger, or the keys are equal
/// and it stands first.
pub open spec fn comes_first(keys: Seq<u64>, a: int, b: int) -> bool {
    keys[a] > keys[b] || (keys[a] == keys[b] && a < b)
}

/// The order is descending by key and keeps equal keys in their own order.
pub open spec fn is_descending(keys: Seq<u64>, order: Seq<usize>) -> bool {
    forall|j: int, k: int|
        0 <= j < k < order.len() ==> comes_first(
            keys,
            (#[trigger] order[j]) as int,
            (#[trigger] order[k]) as int,
        )
}

/// Every index stands somewhere in a permutation.
pub(crate) proof fn lemma_permutation_covers(order: Seq<usize>, n: int, index: int)
    requires
        is_permutation(order, n),
        order.len() == n,
        0 <= index < n,
    ensures
        exists|k: int| 0 <= k < n && (#[trigger] order[k]) == index,
{
    let found = order.map_values(|entry: usize| entry as int);
    if !(exists|k: int| 0 <= k < n && (#[trigger] order[k]) == index) {
        let all = vstd::set_lib::set_int_range(0, n);
        let rest = all.remove(index);
        vstd::set_lib::lemma_int_range(0, n);
        assert(found.no_duplicates()) by {
            assert forall|j: int, k: int|
                0 <= j < found.len() && 0 <= k < found.len() && j != k implies found[j]
                != found[k] by {
                if j < k {
                    assert(order[j] != order[k]);
                } else {
                    assert(order[k] != order[j]);
                }
            }
        }
        found.unique_seq_to_set();
        assert(found.to_set().subset_of(rest)) by {
            assert forall|entry: int| found.to_set().contains(entry) implies rest.contains(
                entry,
            ) by {
                let k = choose|k: int| 0 <= k < found.len() && found[k] == entry;
                assert(order[k] < n);
            }
        }
        vstd::set_lib::lemma_len_subset(found.to_set(), rest);
        assert(false);
    }
}

/// There is one descending order: equal keys stay in their own order, so
/// nothing is left open.
pub proof fn lemma_descending_order_unique(keys: Seq<u64>, a: Seq<usize>, b: Seq<usize>)
    requires
        is_permutation(a, keys.len() as int),
        is_permutation(b, keys.len() as int),
        a.len() == keys.len(),
        b.len() == keys.len(),
        is_descending(keys, a),
        is_descending(keys, b),
    ensures
        a == b,
{
    lemma_descending_prefix_unique(keys, a, b, keys.len() as int);
    assert(a =~= b);
}

proof fn lemma_descending_prefix_unique(keys: Seq<u64>, a: Seq<usize>, b: Seq<usize>, count: int)
    requires
        0 <= count <= keys.len(),
        is_permutation(a, keys.len() as int),
        is_permutation(b, keys.len() as int),
        a.len() == keys.len(),
        b.len() == keys.len(),
        is_descending(keys, a),
        is_descending(keys, b),
    ensures
        forall|k: int| 0 <= k < count ==> (#[trigger] a[k]) == b[k],
    decreases count,
{
    if count > 0 {
        lemma_descending_prefix_unique(keys, a, b, count - 1);
        let k = count - 1;
        if a[k] != b[k] {
            let n = keys.len() as int;
            lemma_permutation_covers(b, n, a[k] as int);
            lemma_permutation_covers(a, n, b[k] as int);
            let p = choose|p: int| 0 <= p < n && (#[trigger] b[p]) == a[k];
            let q = choose|q: int| 0 <= q < n && (#[trigger] a[q]) == b[k];
            if p < k {
                assert(a[p] == b[p]);
            }
            if q < k {
                assert(a[q] == b[q]);
            }
            assert(comes_first(keys, b[k] as int, b[p] as int));
            assert(comes_first(keys, a[k] as int, a[q] as int));
        }
    }
}

/// The indices of the keys in descending order, equal keys in their own order.
///
/// The keys stand for magnitudes: the bit pattern of a nonnegative float orders
/// as the float does.
pub fn descending_order(keys: &[u64]) -> (order: Vec<usize>)
    ensures
        order@.len() == keys@.len(),
        is_permutation(order@, keys@.len() as int),
        is_descending(keys@, order@),
{
    let mut order: Vec<usize> = Vec::with_capacity(keys.len());
    let mut next: usize = 0;
    while next < keys.len()
        invariant
            next <= keys@.len(),
            order@.len() == next,
            forall|k: int| 0 <= k < next ==> (#[trigger] order@[k]) < next,
            forall|j: int, k: int|
                0 <= j < k < next ==> (#[trigger] order@[j]) != (#[trigger] order@[k]),
            is_descending(keys@, order@),
        decreases keys.len() - next,
    {
        let key: u64 = keys[next];
        let mut place: usize = order.len();
        while place > 0 && keys[order[place - 1]] < key
            invariant
                place <= order@.len() == next,
                next < keys@.len(),
                key == keys@[next as int],
                forall|k: int| 0 <= k < next ==> (#[trigger] order@[k]) < next,
                forall|k: int| place <= k < next ==> keys@[(#[trigger] order@[k]) as int] < key,
            decreases place,
        {
            place -= 1;
        }
        let ghost before = order@;
        order.insert(place, next);
        proof {
            let after = order@;
            assert forall|k: int| 0 <= k < next + 1 implies (#[trigger] after[k]) < next + 1 by {
                if k < place {
                    assert(after[k] == before[k]);
                } else if k > place {
                    assert(after[k] == before[k - 1]);
                }
            }
            assert forall|k: int| 0 <= k < place implies keys@[(
            #[trigger] before[k]) as int] >= key by {
                if k < place - 1 {
                    assert(comes_first(
                        keys@,
                        before[k] as int,
                        before[place - 1] as int,
                    ));
                }
            }
            assert forall|j: int, k: int| 0 <= j < k < next + 1 implies (#[trigger] after[j]) != (
            #[trigger] after[k]) && comes_first(keys@, after[j] as int, after[k] as int) by {
                let a = if j < place {
                    j
                } else {
                    j - 1
                };
                let b = if k < place {
                    k
                } else {
                    k - 1
                };
                if j == place {
                    assert(after[k] == before[b]);
                } else if k == place {
                    assert(after[j] == before[a]);
                } else {
                    assert(after[j] == before[a]);
                    assert(after[k] == before[b]);
                    assert(before[a] != before[b]);
                    assert(comes_first(keys@, before[a] as int, before[b] as int));
                }
            }
        }
        next += 1;
    }
    order
}

/// The values in the given order.
pub fn gather_values<V: Copy>(values: &[V], order: &[usize]) -> (sorted: Vec<V>)
    requires
        forall|k: int| 0 <= k < order@.len() ==> (#[trigger] order@[k]) < values@.len(),
    ensures
        sorted@ == Seq::new(order@.len(), |k: int| values@[order@[k] as int]),
{
    let mut sorted: Vec<V> = Vec::with_capacity(order.len());
    let mut k: usize = 0;
    while k < order.len()
        invariant
            k <= order@.len(),
            sorted@.len() == k,
            forall|j: int| 0 <= j < order@.len() ==> (#[trigger] order@[j]) < values@.len(),
            forall|j: int| 0 <= j < k ==> sorted@[j] == values@[order@[j] as int],
        decreases order.len() - k,
    {
        sorted.push(values[order[k]]);
        k += 1;
    }
    assert(sorted@ =~= Seq::new(order@.len(), |k: int| values@[order@[k] as int]));
    sorted
}

/// The columns of an `n`-row matrix in the given order.
pub fn gather_columns<D: Copy>(vectors: &[D], n: usize, order: &[usize]) -> (sorted: Vec<D>)
    requires
        order@.len() * n <= usize::MAX,
        forall|k: int| 0 <= k < order@.len() ==> ((#[trigger] order@[k]) + 1) * n <= vectors@.len(),
    ensures
        sorted@.len() == order@.len() * n,
        forall|k: int|
            0 <= k < order@.len() ==> #[trigger] column(sorted@, n as int, k) == column(
                vectors@,
                n as int,
                order@[k] as int,
            ),
{
    let mut sorted: Vec<D> = Vec::new();
    let len: usize = vectors.len();
    let mut k: usize = 0;
    assert(0 * n == 0);
    while k < order.len()
        invariant
            k <= order@.len(),
            len == vectors@.len(),
            sorted@.len() == k * n,
            forall|j: int|
                0 <= j < order@.len() ==> ((#[trigger] order@[j]) + 1) * n <= vectors@.len(),
            forall|j: int|
                0 <= j < k ==> #[trigger] column(sorted@, n as int, j) == column(
                    vectors@,
                    n as int,
                    order@[j] as int,
                ),
        decreases order.len() - k,
    {
        let source: usize = order[k];
        let ghost before = sorted@;
        proof {
            assert((source + 1) * n == source * n + n) by (nonlinear_arith);
            assert(0 <= source * n) by (nonlinear_arith)
                requires
                    source >= 0,
                    n >= 0,
            ;
        }
        let start: usize = source * n;
        let part = vstd::slice::slice_subrange(vectors, start, start + n);
        let mut tail: Vec<D> = vstd::slice::slice_to_vec(part);
        sorted.append(&mut tail);
        proof {
            assert((k + 1) * n == k * n + n) by (nonlinear_arith);
            assert forall|j: int| 0 <= j < k + 1 implies #[trigger] column(sorted@, n as int, j)
                == column(vectors@, n as int, order@[j] as int) by {
                if j < k {
                    assert(j * n + n <= k * n && 0 <= j * n) by (nonlinear_arith)
                        requires
                            0 <= j,
                            j + 1 <= k,
                            0 <= n,
                    ;
                    assert(column(sorted@, n as int, j) =~= column(before, n as int, j));
                } else {
                    assert(column(sorted@, n as int, j) =~= part@);
                }
            }
        }
        k += 1;
    }
    sorted
}

/// The refusal of a matrix that cannot be Hermitian by its shape.
pub open spec fn hermitian_shape_refusal(len: int, rows: usize, cols: usize) -> Option<
    OperationError,
> {
    if rows * cols > usize::MAX {
        Some(OperationError::ElementCountOverflow)
    } else if len != rows * cols {
        Some(
            OperationError::ElementCountMismatch {
                expected: (rows * cols) as usize,
                actual: len as usize,
            },
        )
    } else if rows != cols {
        Some(scope("eigh requires square coupled-sector matrices"))
    } else {
        None
    }
}

/// Checks that a matrix has as many elements as its shape says and is square.
pub fn validate_hermitian_matrix_shape(len: usize, rows: usize, cols: usize) -> (result: Result<
    (),
    OperationError,
>)
    ensures
        result == match hermitian_shape_refusal(len as int, rows, cols) {
            Some(error) => Err::<(), OperationError>(error),
            None => Ok(()),
        },
{
    let expected: usize = match rows.checked_mul(cols) {
        Some(expected) => expected,
        None => {
            return Err(OperationError::ElementCountOverflow);
        },
    };
    if len != expected {
        return Err(OperationError::ElementCountMismatch { expected, actual: len });
    }
    if rows != cols {
        return Err(unsupported("eigh requires square coupled-sector matrices"));
    }
    Ok(())
}

/// The refusal of a matrix that is not Hermitian.
pub open spec fn not_hermitian() -> OperationError {
    OperationError::InvalidArgument { message: "eigh requires Hermitian coupled-sector blocks" }
}

/// The first refusal by shape from `from` on.
pub open spec fn first_shape_refusal<D>(
    matrices: Seq<SectorMatricization<D>>,
    from: int,
) -> Option<OperationError>
    decreases matrices.len() - from,
{
    if from < 0 || from >= matrices.len() {
        None
    } else {
        match hermitian_shape_refusal(
            matrices[from].data@.len() as int,
            matrices[from].rows,
            matrices[from].cols,
        ) {
            Some(error) => Some(error),
            None => first_shape_refusal(matrices, from + 1),
        }
    }
}

/// Some verdict is negative.
pub open spec fn any_refused(verdicts: Seq<bool>) -> bool {
    exists|k: int| 0 <= k < verdicts.len() && !(#[trigger] verdicts[k])
}

/// Checks all shapes before any contents. `hermitian` holds, for each matrix,
/// whether its elements are those of a Hermitian matrix.
pub fn validate_hermitian_matricizations<D>(
    matrices: &[SectorMatricization<D>],
    hermitian: &[bool],
) -> (result: Result<(), OperationError>)
    ensures
        result == match first_shape_refusal(matrices@, 0) {
            Some(error) => Err::<(), OperationError>(error),
            None => if any_refused(hermitian@) {
                Err(not_hermitian())
            } else {
                Ok(())
            },
        },
{
    let mut k: usize = 0;
    while k < matrices.len()
        invariant
            k <= matrices@.len(),
            first_shape_refusal(matrices@, 0) == first_shape_refusal(matrices@, k as int),
        decreases matrices.len() - k,
    {
        match validate_hermitian_matrix_shape(
            matrices[k].data.len(),
            matrices[k].rows,
            matrices[k].cols,
        ) {
            Ok(()) => {},
            Err(error) => {
                return Err(error);
            },
        }
        k += 1;
    }
    validate_hermitian_contents(hermitian)
}

/// Refuses where a matrix is not Hermitian.
pub fn validate_hermitian_contents(hermitian: &[bool]) -> (result: Result<(), OperationError>)
    ensures
        result == if any_refused(hermitian@) {
            Err::<(), OperationError>(not_hermitian())
        } else {
            Ok(())
        },
{
    let mut k: usize = 0;
    while k < hermitian.len()
        invariant
            k <= hermitian@.len(),
            forall|j: int| 0 <= j < k ==> #[trigger] hermitian@[j],
        decreases hermitian.len() - k,
    {
        if !hermitian[k] {
            assert(!hermitian@[k as int]);
            return Err(
                OperationError::InvalidArgument {
                    message: "eigh requires Hermitian coupled-sector blocks",
                },
            );
        }
        k += 1;
    }
    Ok(())
}

/// The refusal of a region by its range or its shape.
pub open spec fn region_refusal(region: CoupledSectorRegion, len: int) -> Option<OperationError> {
    if region.start > region.end || region.end > len {
        Some(
            OperationError::ElementCountMismatch { expected: region.end, actual: len as usize },
        )
    } else {
        hermitian_shape_refusal(region.end - region.start, region.rows, region.cols)
    }
}

/// The first refusal of a region from `from` on.
pub open spec fn first_region_refusal(
    regions: Seq<CoupledSectorRegion>,
    len: int,
    from: int,
) -> Option<OperationError>
    decreases regions.len() - from,
{
    if from < 0 || from >= regions.len() {
        None
    } else {
        match region_refusal(regions[from], len) {
            Some(error) => Some(error),
            None => first_region_refusal(regions, len, from + 1),
        }
    }
}

/// Checks the ranges and shapes of all regions before any contents.
pub fn validate_hermitian_regions(
    len: usize,
    regions: &[CoupledSectorRegion],
    hermitian: &[bool],
) -> (result: Result<(), OperationError>)
    ensures
        result == match first_region_refusal(regions@, len as int, 0) {
            Some(error) => Err::<(), OperationError>(error),
            None => if any_refused(hermitian@) {
                Err(not_hermitian())
            } else {
                Ok(())
            },
        },
{
    let mut k: usize = 0;
    while k < regions.len()
        invariant
            k <= regions@.len(),
            first_region_refusal(regions@, len as int, 0) == first_region_refusal(
                regions@,
                len as int,
                k as int,
            ),
        decreases regions.len() - k,
    {
        let region = &regions[k];
        if region.start > region.end || region.end > len {
            return Err(
                OperationError::ElementCountMismatch { expected: region.end, actual: len },
            );
        }
        match validate_hermitian_matrix_shape(
            region.end - region.start,
            region.rows,
            region.cols,
        ) {
            Ok(()) => {},
            Err(error) => {
                return Err(error);
            },
        }
        k += 1;
    }
    validate_hermitian_contents(hermitian)
}

/// Rows and columns are stacked from the same trees in the same order.
pub open spec fn stacking_agrees(geometry: Geometry) -> bool {
    geometry.rows == geometry.cols && geometry.row_trees == geometry.col_trees
}

/// Checks that rows and columns of every sector are stacked alike.
pub fn validate_endomorphism_tree_stacking<D>(
    matrices: &[SectorMatricization<D>],
) -> (result: Result<(), OperationError>)
    ensures
        result == if forall|k: int|
            0 <= k < matrices@.len() ==> stacking_agrees((#[trigger] matrices@[k]).geometry()) {
            Ok::<(), OperationError>(())
        } else {
            Err(scope("eigh requires identical endomorphism row/column fusion-tree stacking"))
        },
{
    let mut k: usize = 0;
    while k < matrices.len()
        invariant
            k <= matrices@.len(),
            forall|j: int|
                0 <= j < k ==> stacking_agrees((#[trigger] matrices@[j]).geometry()),
        decreases matrices.len() - k,
    {
        let matrix = &matrices[k];
        if matrix.rows != matrix.cols || !same_extents(
            matrix.row_trees.as_slice(),
            matrix.col_trees.as_slice(),
        ) {
            assert(!stacking_agrees(matrices@[k as int].geometry()));
            return Err(
                unsupported(
                    "eigh requires identical endomorphism row/column fusion-tree stacking",
                ),
            );
        }
        k += 1;
    }
    Ok(())
}

/// The operations that need an endomorphism.
#[derive(Clone, Copy, Debug, PartialEq, Eq, Structural)]
pub enum EndomorphismOperation {
    Eigh,
    Eig,
    Exp,
}

/// The refusal of a map between different spaces.
pub open spec fn not_endomorphism(operation: EndomorphismOperation) -> OperationError {
    scope(
        match operation {
            EndomorphismOperation::Eigh => "eigh requires an endomorphism (codomain == domain)",
            EndomorphismOperation::Eig => "eig requires an endomorphism (codomain == domain)",
            EndomorphismOperation::Exp => "exp requires an endomorphism (codomain == domain)",
        },
    )
}

/// Refuses a map whose codomain is not its domain, in the operation's words.
pub fn require_endomorphism(
    homspace: &FusionTreeHomSpace,
    operation: EndomorphismOperation,
) -> (result: Result<(), OperationError>)
    ensures
        result == if homspace@.codomain == homspace@.domain {
            Ok::<(), OperationError>(())
        } else {
            Err(not_endomorphism(operation))
        },
{
    if homspace.is_endomorphism() {
        return Ok(());
    }
    Err(
        unsupported(
            match operation {
                EndomorphismOperation::Eigh => "eigh requires an endomorphism (codomain == domain)",
                EndomorphismOperation::Eig => "eig requires an endomorphism (codomain == domain)",
                EndomorphismOperation::Exp => "exp requires an endomorphism (codomain == domain)",
            },
        ),
    )
}

} // verus!
