//! What is read back of a solution that was moved into another basis order.

use vstd::prelude::*;

use crate::index::{lemma_div_mod_unique, lemma_split_bounds};
use crate::solve_routes::{
    extent_writes, reorder_fits, reorder_writes, row_range_writes, InverseBasisExtent,
};
use crate::writes::{
    apply_writes, lemma_writes_concat, lemma_writes_last_wins, lemma_writes_len,
    lemma_writes_untouched,
};

verus! {

/// The output ranges do not overlap and end at `total`.
pub open spec fn output_ranges_apart(ranges: Seq<InverseBasisExtent>, total: int) -> bool {
    &&& forall|i: int|
        0 <= i < ranges.len() ==> (#[trigger] ranges[i]).output_offset + ranges[i].extent <= total
    &&& forall|i: int, j: int|
        0 <= i < j < ranges.len() ==> (#[trigger] ranges[i]).output_offset + ranges[i].extent <= (
        #[trigger] ranges[j]).output_offset || ranges[j].output_offset + ranges[j].extent
            <= ranges[i].output_offset
}

/// The output position of entry `a` of a row range and entry `b` of a column
/// range.
pub open spec fn output_cell(
    output_rows: int,
    rows: InverseBasisExtent,
    cols: InverseBasisExtent,
    a: int,
    b: int,
) -> int {
    rows.output_offset + output_rows * (cols.output_offset + b) + a
}

/// The source position of the same entries.
pub open spec fn source_cell(
    source_rows: int,
    rows: InverseBasisExtent,
    cols: InverseBasisExtent,
    a: int,
    b: int,
) -> int {
    rows.source_offset + source_rows * (cols.source_offset + b) + a
}

/// A position that no entry of the two ranges has.
pub open spec fn outside(
    output_rows: int,
    rows: InverseBasisExtent,
    cols: InverseBasisExtent,
    position: int,
) -> bool {
    forall|a: int, b: int|
        0 <= a < rows.extent && 0 <= b < cols.extent ==> #[trigger] output_cell(
            output_rows,
            rows,
            cols,
            a,
            b,
        ) != position
}

proof fn lemma_cells_unique(output_rows: int, x: int, y: int, u: int, v: int)
    requires
        0 <= x < output_rows,
        0 <= u < output_rows,
        x + output_rows * y == u + output_rows * v,
    ensures
        x == u,
        y == v,
{
    lemma_div_mod_unique(x + output_rows * y, output_rows, y, x);
    lemma_div_mod_unique(x + output_rows * y, output_rows, v, u);
}

proof fn lemma_block_moved<D>(
    data: Seq<D>,
    source: Seq<D>,
    source_rows: int,
    output_rows: int,
    rows: InverseBasisExtent,
    cols: InverseBasisExtent,
)
    requires
        rows.output_offset + rows.extent <= output_rows,
    ensures
        ({
            let after = apply_writes(
                data,
                extent_writes(source, source_rows, output_rows, rows, cols),
            );
            &&& after.len() == data.len()
            &&& forall|a: int, b: int|
                0 <= a < rows.extent && 0 <= b < cols.extent && 0 <= output_cell(
                    output_rows,
                    rows,
                    cols,
                    a,
                    b,
                ) < data.len() ==> after[#[trigger] output_cell(output_rows, rows, cols, a, b)]
                    == source[source_cell(source_rows, rows, cols, a, b)]
            &&& forall|p: int|
                0 <= p < data.len() && #[trigger] outside(output_rows, rows, cols, p) ==> after[p]
                    == data[p]
        }),
{
    let writes = extent_writes(source, source_rows, output_rows, rows, cols);
    let height = rows.extent as int;
    let width = cols.extent as int;
    let after = apply_writes(data, writes);
    lemma_writes_len(data, writes);
    assert(height * width >= 0) by (nonlinear_arith)
        requires
            height >= 0,
            width >= 0,
    ;
    assert forall|a: int, b: int|
        0 <= a < rows.extent && 0 <= b < cols.extent && 0 <= output_cell(
            output_rows,
            rows,
            cols,
            a,
            b,
        ) < data.len() implies after[#[trigger] output_cell(output_rows, rows, cols, a, b)]
        == source[source_cell(source_rows, rows, cols, a, b)] by {
        let n = a + height * b;
        assert(0 <= n < height * width) by (nonlinear_arith)
            requires
                n == a + height * b,
                0 <= a < height,
                0 <= b < width,
        ;
        lemma_div_mod_unique(n, height, b, a);
        assert forall|m: int| n < m < writes.len() implies (#[trigger] writes[m]).0
            != writes[n].0 by {
            lemma_split_bounds(m, height, width);
            if writes[m].0 == writes[n].0 {
                lemma_cells_unique(
                    output_rows,
                    rows.output_offset + m % height,
                    cols.output_offset + m / height,
                    rows.output_offset + a,
                    cols.output_offset + b,
                );
            }
        }
        lemma_writes_last_wins(data, writes, n);
    }
    assert forall|p: int|
        0 <= p < data.len() && #[trigger] outside(output_rows, rows, cols, p) implies after[p]
        == data[p] by {
        assert forall|m: int| 0 <= m < writes.len() implies (#[trigger] writes[m]).0 != p by {
            lemma_split_bounds(m, height, width);
            assert(output_cell(output_rows, rows, cols, m % height, m / height) != p);
        }
        lemma_writes_untouched(data, writes, p);
    }
}

/// Two pairs of ranges that differ have no position in common.
proof fn lemma_blocks_apart(
    output_rows: int,
    total: int,
    rows: Seq<InverseBasisExtent>,
    cols: Seq<InverseBasisExtent>,
    i: int,
    j: int,
    k: int,
    l: int,
    a: int,
    b: int,
)
    requires
        output_ranges_apart(rows, output_rows),
        output_ranges_apart(cols, total),
        0 <= i < rows.len(),
        0 <= k < rows.len(),
        0 <= j < cols.len(),
        0 <= l < cols.len(),
        i != k || j != l,
        0 <= a < rows[i].extent,
        0 <= b < cols[j].extent,
    ensures
        outside(output_rows, rows[k], cols[l], output_cell(output_rows, rows[i], cols[j], a, b)),
{
    let position = output_cell(output_rows, rows[i], cols[j], a, b);
    assert(rows[i].output_offset + rows[i].extent <= output_rows);
    assert(rows[k].output_offset + rows[k].extent <= output_rows);
    assert forall|c: int, d: int| 0 <= c < rows[k].extent && 0 <= d < cols[l].extent implies (
    #[trigger] output_cell(output_rows, rows[k], cols[l], c, d)) != position by {
        if output_cell(output_rows, rows[k], cols[l], c, d) == position {
            lemma_cells_unique(
                output_rows,
                rows[k].output_offset + c,
                cols[l].output_offset + d,
                rows[i].output_offset + a,
                cols[j].output_offset + b,
            );
            if i != k {
                let low = if i < k { i } else { k };
                let high = if i < k { k } else { i };
                assert(rows[low].output_offset + rows[low].extent <= rows[high].output_offset
                    || rows[high].output_offset + rows[high].extent <= rows[low].output_offset);
            } else {
                let low = if j < l { j } else { l };
                let high = if j < l { l } else { j };
                assert(cols[low].output_offset + cols[low].extent <= cols[high].output_offset
                    || cols[high].output_offset + cols[high].extent <= cols[low].output_offset);
            }
        }
    }
}

proof fn lemma_row_range_moved<D>(
    data: Seq<D>,
    source: Seq<D>,
    source_rows: int,
    output_rows: int,
    total: int,
    rows: Seq<InverseBasisExtent>,
    cols: Seq<InverseBasisExtent>,
    k: int,
    count: int,
    i: int,
    j: int,
    a: int,
    b: int,
)
    requires
        output_ranges_apart(rows, output_rows),
        output_ranges_apart(cols, total),
        0 <= k < rows.len(),
        0 <= count <= cols.len(),
        0 <= i < rows.len(),
        0 <= j < cols.len(),
        0 <= a < rows[i].extent,
        0 <= b < cols[j].extent,
        0 <= output_cell(output_rows, rows[i], cols[j], a, b) < data.len(),
    ensures
        ({
            let after = apply_writes(
                data,
                row_range_writes(source, source_rows, output_rows, rows[k], cols, count),
            );
            let position = output_cell(output_rows, rows[i], cols[j], a, b);
            &&& after.len() == data.len()
            &&& after[position] == if i == k && j < count {
                source[source_cell(source_rows, rows[i], cols[j], a, b)]
            } else {
                data[position]
            }
        }),
    decreases count,
{
    if count > 0 {
        let before = row_range_writes(source, source_rows, output_rows, rows[k], cols, count - 1);
        let more = extent_writes(source, source_rows, output_rows, rows[k], cols[count - 1]);
        lemma_row_range_moved(
            data,
            source,
            source_rows,
            output_rows,
            total,
            rows,
            cols,
            k,
            count - 1,
            i,
            j,
            a,
            b,
        );
        lemma_writes_concat(data, before, more);
        let middle = apply_writes(data, before);
        assert(rows[k].output_offset + rows[k].extent <= output_rows);
        lemma_block_moved(middle, source, source_rows, output_rows, rows[k], cols[count - 1]);
        if i != k || j != count - 1 {
            lemma_blocks_apart(output_rows, total, rows, cols, i, j, k, count - 1, a, b);
        }
    }
}

proof fn lemma_rows_moved<D>(
    data: Seq<D>,
    source: Seq<D>,
    source_rows: int,
    output_rows: int,
    total: int,
    rows: Seq<InverseBasisExtent>,
    cols: Seq<InverseBasisExtent>,
    count: int,
    i: int,
    j: int,
    a: int,
    b: int,
)
    requires
        output_ranges_apart(rows, output_rows),
        output_ranges_apart(cols, total),
        0 <= count <= rows.len(),
        0 <= i < rows.len(),
        0 <= j < cols.len(),
        0 <= a < rows[i].extent,
        0 <= b < cols[j].extent,
        0 <= output_cell(output_rows, rows[i], cols[j], a, b) < data.len(),
    ensures
        ({
            let after = apply_writes(
                data,
                reorder_writes(source, source_rows, output_rows, rows, cols, count),
            );
            let position = output_cell(output_rows, rows[i], cols[j], a, b);
            &&& after.len() == data.len()
            &&& after[position] == if i < count {
                source[source_cell(source_rows, rows[i], cols[j], a, b)]
            } else {
                data[position]
            }
        }),
    decreases count,
{
    if count > 0 {
        lemma_rows_moved(
            data,
            source,
            source_rows,
            output_rows,
            total,
            rows,
            cols,
            count - 1,
            i,
            j,
            a,
            b,
        );
        let before = reorder_writes(source, source_rows, output_rows, rows, cols, count - 1);
        let more = row_range_writes(
            source,
            source_rows,
            output_rows,
            rows[count - 1],
            cols,
            cols.len() as int,
        );
        lemma_writes_concat(data, before, more);
        lemma_row_range_moved(
            apply_writes(data, before),
            source,
            source_rows,
            output_rows,
            total,
            rows,
            cols,
            count - 1,
            cols.len() as int,
            i,
            j,
            a,
            b,
        );
    }
}

/// Moving a solution into the output basis keeps its elements: what stands at a
/// tree's rows and columns in the source order stands at the same trees' rows
/// and columns in the output order.
pub proof fn lemma_reordered_solution_reads_back<D>(
    output: Seq<D>,
    source: Seq<D>,
    source_rows: int,
    output_rows: int,
    output_cols: int,
    rows: Seq<InverseBasisExtent>,
    cols: Seq<InverseBasisExtent>,
    i: int,
    j: int,
    a: int,
    b: int,
)
    requires
        reorder_fits(
            source_rows,
            source.len() as int,
            output_rows,
            output.len() as int,
            rows,
            cols,
        ),
        output_ranges_apart(rows, output_rows),
        output_ranges_apart(cols, output_cols),
        0 <= i < rows.len(),
        0 <= j < cols.len(),
        0 <= a < rows[i].extent,
        0 <= b < cols[j].extent,
    ensures
        apply_writes(
            output,
            reorder_writes(
                source,
                source_rows,
                output_rows,
                rows,
                cols,
                rows.len() as int,
            ),
        )[output_cell(output_rows, rows[i], cols[j], a, b)] == source[source_cell(
            source_rows,
            rows[i],
            cols[j],
            a,
            b,
        )],
{
    let y = cols[j].output_offset + b;
    let top = cols[j].output_offset + cols[j].extent - 1;
    assert(rows[i].output_offset + rows[i].extent <= output_rows);
    assert(0 <= output_rows * y <= output_rows * top) by (nonlinear_arith)
        requires
            0 <= y <= top,
            0 <= output_rows,
    ;
    lemma_rows_moved(
        output,
        source,
        source_rows,
        output_rows,
        output_cols,
        rows,
        cols,
        rows.len() as int,
        i,
        j,
        a,
        b,
    );
}

} // verus!
