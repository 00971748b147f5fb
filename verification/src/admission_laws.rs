//! What is admitted: every matrix on its own, and nothing besides.

use vstd::prelude::*;

use crate::dense::{matrix_fits, strided_copy_writes};
use crate::dense_output::decimal;
use crate::eigen::{
    any_refused, first_region_refusal, first_shape_refusal, hermitian_shape_refusal,
    not_hermitian, region_refusal,
};
use crate::eigh_drive::{
    are_matrix_verdicts, are_region_verdicts, judges, matrices_judged, regions_judged,
};
use crate::error::OperationError;
use crate::geometry::{
    lemma_sector_position, lemma_span_position, CoupledSectorRegion, Geometry, SectorMatricization,
};
use crate::keys::{first_refusal, key_refusal};
use crate::layout::FactorSide;
use crate::sector::{Tree, TreePair};
use crate::sector_drive::region_matrix;
use crate::sector_solve::divisor_refusal;
use crate::writes::{apply_writes, lemma_writes_last_wins, lemma_writes_untouched};

verus! {

/// A matrix is square and has all its elements.
pub open spec fn is_square<D>(m: SectorMatricization<D>) -> bool {
    m.rows == m.cols && m.data@.len() == m.rows * m.rows && m.rows * m.rows <= usize::MAX
}

/// No matrix is refused by its shape exactly where all are square and complete; a
/// refusal is that of a matrix, and all before it are square and complete.
pub proof fn lemma_squares_are_admitted<D>(matrices: Seq<SectorMatricization<D>>, from: int)
    requires
        0 <= from <= matrices.len(),
    ensures
        match first_shape_refusal(matrices, from) {
            None => forall|k: int|
                from <= k < matrices.len() ==> is_square(#[trigger] matrices[k]),
            Some(error) => exists|k: int|
                {
                    &&& from <= k < matrices.len()
                    &&& !is_square(#[trigger] matrices[k])
                    &&& hermitian_shape_refusal(
                        matrices[k].data@.len() as int,
                        matrices[k].rows,
                        matrices[k].cols,
                    ) == Some(error)
                    &&& forall|j: int| from <= j < k ==> is_square(#[trigger] matrices[j])
                },
        },
    decreases matrices.len() - from,
{
    if from < matrices.len() {
        let m = matrices[from];
        let refusal = hermitian_shape_refusal(m.data@.len() as int, m.rows, m.cols);
        assert(refusal is None <==> is_square(m));
        lemma_squares_are_admitted(matrices, from + 1);
        if refusal is Some {
            assert(!is_square(matrices[from]));
        } else if let Some(error) = first_shape_refusal(matrices, from + 1) {
            let k = choose|k: int|
                {
                    &&& from + 1 <= k < matrices.len()
                    &&& !is_square(#[trigger] matrices[k])
                    &&& hermitian_shape_refusal(
                        matrices[k].data@.len() as int,
                        matrices[k].rows,
                        matrices[k].cols,
                    ) == Some(error)
                    &&& forall|j: int| from + 1 <= j < k ==> is_square(#[trigger] matrices[j])
                };
            assert(!is_square(matrices[k]));
            assert forall|j: int| from <= j < k implies is_square(#[trigger] matrices[j]) by {
                if j > from {
                    assert(is_square(matrices[j]));
                }
            }
        }
    }
}

/// A region lies in the buffer, is square and has all its elements.
pub open spec fn is_square_region(region: CoupledSectorRegion, len: int) -> bool {
    &&& region.start <= region.end <= len
    &&& region.rows == region.cols
    &&& region.end - region.start == region.rows * region.rows
    &&& region.rows * region.rows <= usize::MAX
}

/// No region is refused exactly where all lie in the buffer and are square and
/// complete.
pub proof fn lemma_square_regions_are_admitted(
    regions: Seq<CoupledSectorRegion>,
    len: int,
    from: int,
)
    requires
        0 <= from <= regions.len(),
    ensures
        first_region_refusal(regions, len, from) is None <==> forall|k: int|
            from <= k < regions.len() ==> is_square_region(#[trigger] regions[k], len),
    decreases regions.len() - from,
{
    if from < regions.len() {
        let region = regions[from];
        assert(region_refusal(region, len) is None <==> is_square_region(region, len));
        lemma_square_regions_are_admitted(regions, len, from + 1);
        if first_region_refusal(regions, len, from) is None {
            assert forall|k: int| from <= k < regions.len() implies is_square_region(
                #[trigger] regions[k],
                len,
            ) by {
                if k > from {
                    assert(is_square_region(regions[k], len));
                }
            }
        }
    }
}

/// A divisor is admitted exactly where every region of it is square and ends in
/// the buffer.
pub proof fn lemma_square_divisors_are_admitted(
    regions: Seq<CoupledSectorRegion>,
    len: usize,
    from: int,
)
    requires
        0 <= from <= regions.len(),
    ensures
        divisor_refusal(regions, len, from) is None <==> forall|k: int|
            from <= k < regions.len() ==> (#[trigger] regions[k]).rows == regions[k].cols
                && regions[k].end <= len,
    decreases regions.len() - from,
{
    if from < regions.len() {
        lemma_square_divisors_are_admitted(regions, len, from + 1);
        if divisor_refusal(regions, len, from) is None {
            assert forall|k: int| from <= k < regions.len() implies (#[trigger] regions[k]).rows
                == regions[k].cols && regions[k].end <= len by {
                if k > from {
                    assert(regions[k].rows == regions[k].cols && regions[k].end <= len);
                }
            }
        }
    }
}

/// The first geometry of a tree's sector has the tree on this side.
pub open spec fn stands_in(geometries: Seq<Geometry>, side: FactorSide, tree: Tree) -> bool {
    exists|g: int, t: int|
        {
            &&& 0 <= g < geometries.len()
            &&& geometries[g].sector == tree.coupled
            &&& forall|j: int| 0 <= j < g ==> (#[trigger] geometries[j]).sector != tree.coupled
            &&& 0 <= t < geometries[g].trees(side).len()
            &&& (#[trigger] geometries[g].trees(side)[t]).tree == tree
        }
}

/// The keys of a factor are admitted exactly where the source has the tree of each
/// of them.
pub proof fn lemma_known_trees_are_admitted(
    geometries: Seq<Geometry>,
    side: FactorSide,
    keys: Seq<TreePair>,
    from: int,
)
    requires
        0 <= from <= keys.len(),
    ensures
        first_refusal(geometries, side, keys, from) is None <==> forall|k: int|
            from <= k < keys.len() ==> stands_in(
                geometries,
                side,
                match side {
                    FactorSide::Left => (#[trigger] keys[k]).codomain,
                    FactorSide::Right => keys[k].domain,
                },
            ),
    decreases keys.len() - from,
{
    if from < keys.len() {
        lemma_known_trees_are_admitted(geometries, side, keys, from + 1);
        lemma_known_tree(geometries, side, keys[from]);
        if first_refusal(geometries, side, keys, from) is None {
            assert forall|k: int| from <= k < keys.len() implies stands_in(
                geometries,
                side,
                match side {
                    FactorSide::Left => (#[trigger] keys[k]).codomain,
                    FactorSide::Right => keys[k].domain,
                },
            ) by {
                if k > from {
                    let key = keys[k];
                }
            }
        }
    }
}

proof fn lemma_known_tree(geometries: Seq<Geometry>, side: FactorSide, pair: TreePair)
    ensures
        key_refusal(geometries, side, pair) is None <==> stands_in(
            geometries,
            side,
            match side {
                FactorSide::Left => pair.codomain,
                FactorSide::Right => pair.domain,
            },
        ),
{
    let tree = match side {
        FactorSide::Left => pair.codomain,
        FactorSide::Right => pair.domain,
    };
    lemma_sector_position(geometries, tree.coupled, 0);
    let found = crate::geometry::sector_position(geometries, tree.coupled, 0);
    if let Some(at) = found {
        lemma_span_position(geometries[at].trees(side), tree, 0);
        if stands_in(geometries, side, tree) {
            let (g, t) = choose|g: int, t: int|
                {
                    &&& 0 <= g < geometries.len()
                    &&& geometries[g].sector == tree.coupled
                    &&& forall|j: int|
                        0 <= j < g ==> (#[trigger] geometries[j]).sector != tree.coupled
                    &&& 0 <= t < geometries[g].trees(side).len()
                    &&& (#[trigger] geometries[g].trees(side)[t]).tree == tree
                };
            if g < at {
                assert(geometries[g].sector != tree.coupled);
            } else if at < g {
                assert(geometries[at].sector != tree.coupled);
            }
        }
        if let Some(t) = crate::geometry::span_position(geometries[at].trees(side), tree, 0) {
            assert(geometries[at].trees(side)[t].tree == tree);
        }
    }
}

/// A copy between two leading dimensions keeps every cell of the matrix, and what
/// stands outside it stays.
pub proof fn lemma_copy_keeps_cells<D>(
    source: Seq<D>,
    destination: Seq<D>,
    rows: int,
    cols: int,
    source_leading: int,
    destination_leading: int,
    row: int,
    col: int,
)
    requires
        0 < rows <= destination_leading,
        0 < cols,
        matrix_fits(rows, cols, destination_leading, destination.len() as int),
        0 <= row < destination_leading,
        0 <= col,
        destination_leading * col + row < destination.len(),
    ensures
        apply_writes(
            destination,
            strided_copy_writes(source, rows, cols, source_leading, destination_leading),
        )[destination_leading * col + row] == if row < rows && col < cols {
            source[source_leading * col + row]
        } else {
            destination[destination_leading * col + row]
        },
{
    let writes = strided_copy_writes(source, rows, cols, source_leading, destination_leading);
    let lead = destination_leading;
    assert(0 <= rows * cols && 0 <= lead * col) by (nonlinear_arith)
        requires
            0 < rows,
            0 < cols,
            0 <= col,
            0 < lead,
    ;
    assert forall|n: int| 0 <= n < writes.len() && (#[trigger] writes[n]).0 == lead * col
        + row implies n == row + rows * col && row < rows && col < cols by {
        crate::ring::lemma_place_of(rows, cols, n);
        crate::gauge_laws::lemma_cells_apart(lead, row, col, n % rows, n / rows);
    }
    if row < rows && col < cols {
        let n = row + rows * col;
        crate::ring::lemma_place(rows, cols, row, col);
        assert(writes[n].0 == lead * col + row);
        lemma_writes_last_wins(destination, writes, n);
    } else {
        lemma_writes_untouched(destination, writes, lead * col + row);
    }
}

/// Regions are admitted to a Hermitian eigendecomposition only where each of them
/// is square, complete and judged Hermitian; and a refusal has its cause in one of
/// them.
pub proof fn lemma_judged_regions<D, P: Fn(&[D], usize) -> bool>(
    outcome: Result<(), OperationError>,
    data: Seq<D>,
    regions: Seq<CoupledSectorRegion>,
    hermitian: P,
)
    requires
        regions_judged(outcome, data, regions, hermitian),
    ensures
        match outcome {
            Ok(()) => forall|k: int|
                0 <= k < regions.len() ==> is_square_region(
                    #[trigger] regions[k],
                    data.len() as int,
                ) && judges(hermitian, region_matrix(data, regions[k]), regions[k].rows, true),
            Err(_) => exists|k: int|
                0 <= k < regions.len() && (!is_square_region(
                    #[trigger] regions[k],
                    data.len() as int,
                ) || judges(hermitian, region_matrix(data, regions[k]), regions[k].rows, false)),
        },
{
    lemma_square_regions_are_admitted(regions, data.len() as int, 0);
    if first_region_refusal(regions, data.len() as int, 0) is None {
        let verdicts = choose|verdicts: Seq<bool>|
            {
                &&& #[trigger] are_region_verdicts(verdicts, data, regions, hermitian)
                &&& verdicts.len() == regions.len()
                &&& outcome == if any_refused(verdicts) {
                    Err::<(), OperationError>(not_hermitian())
                } else {
                    Ok(())
                }
            };
        if any_refused(verdicts) {
            let k = choose|k: int| 0 <= k < verdicts.len() && !(#[trigger] verdicts[k]);
            assert(judges(
                hermitian,
                region_matrix(data, regions[k]),
                regions[k].rows,
                verdicts[k],
            ));
        } else {
            assert forall|k: int| 0 <= k < regions.len() implies is_square_region(
                #[trigger] regions[k],
                data.len() as int,
            ) && judges(hermitian, region_matrix(data, regions[k]), regions[k].rows, true) by {
                assert(verdicts[k]);
                assert(judges(
                    hermitian,
                    region_matrix(data, regions[k]),
                    regions[k].rows,
                    verdicts[k],
                ));
            }
        }
    }
}

/// The same of packed matrices.
pub proof fn lemma_judged_matrices<D, P: Fn(&[D], usize) -> bool>(
    outcome: Result<(), OperationError>,
    matrices: Seq<SectorMatricization<D>>,
    hermitian: P,
)
    requires
        matrices_judged(outcome, matrices, hermitian),
    ensures
        match outcome {
            Ok(()) => forall|k: int|
                0 <= k < matrices.len() ==> is_square(#[trigger] matrices[k]) && judges(
                    hermitian,
                    matrices[k].data@,
                    matrices[k].rows,
                    true,
                ),
            Err(_) => exists|k: int|
                0 <= k < matrices.len() && (!is_square(#[trigger] matrices[k]) || judges(
                    hermitian,
                    matrices[k].data@,
                    matrices[k].rows,
                    false,
                )),
        },
{
    lemma_squares_are_admitted(matrices, 0);
    if first_shape_refusal(matrices, 0) is None {
        let verdicts = choose|verdicts: Seq<bool>|
            {
                &&& #[trigger] are_matrix_verdicts(verdicts, matrices, hermitian)
                &&& verdicts.len() == matrices.len()
                &&& outcome == if any_refused(verdicts) {
                    Err::<(), OperationError>(not_hermitian())
                } else {
                    Ok(())
                }
            };
        if any_refused(verdicts) {
            let k = choose|k: int| 0 <= k < verdicts.len() && !(#[trigger] verdicts[k]);
            assert(judges(hermitian, matrices[k].data@, matrices[k].rows, verdicts[k]));
        } else {
            assert forall|k: int| 0 <= k < matrices.len() implies is_square(
                #[trigger] matrices[k],
            ) && judges(hermitian, matrices[k].data@, matrices[k].rows, true) by {
                assert(verdicts[k]);
                assert(judges(hermitian, matrices[k].data@, matrices[k].rows, verdicts[k]));
            }
        }
    }
}

/// The number that a digit stands for.
pub open spec fn digit_value(digit: char) -> int {
    digit as u32 - '0' as u32
}

/// The number that decimal digits stand for.
pub open spec fn numeral(digits: Seq<char>) -> int
    decreases digits.len(),
{
    if digits.len() == 0 {
        0
    } else {
        10 * numeral(digits.drop_last()) + digit_value(digits.last())
    }
}

/// The decimal digits of a number stand for that number, and the first one is not
/// zero unless the number is.
pub proof fn lemma_decimal_is_numeral(number: nat)
    ensures
        numeral(decimal(number)) == number,
        decimal(number).len() > 0,
        number > 0 ==> digit_value(decimal(number)[0]) > 0,
    decreases number,
{
    reveal_strlit("0123456789");
    let last = (number % 10) as int;
    let digit = "0123456789"@.subrange(last, last + 1);
    assert(digit[0] == "0123456789"@[last]);
    assert(digit_value(digit[0]) == last);
    let digits = decimal(number);
    assert(numeral(Seq::<char>::empty()) == 0);
    if number < 10 {
        assert(digits.drop_last() =~= Seq::<char>::empty());
    } else {
        lemma_decimal_is_numeral(number / 10);
        assert(digits.drop_last() =~= decimal(number / 10));
        assert(digits[0] == decimal(number / 10)[0]);
    }
}

} // verus!
