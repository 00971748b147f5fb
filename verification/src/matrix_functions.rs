//! Elementwise combinations of square blocks.

use vstd::prelude::*;

use crate::dense::lemma_column_position;
use crate::index::lemma_split_bounds;
use crate::spectrum::{combined, image, is_function, is_operation, lemma_image};

verus! {

/// A block with its coefficient in a sum.
#[derive(Clone, Copy, Debug)]
pub struct Term<'a, D> {
    pub coefficient: D,
    pub matrix: &'a [D],
}

/// `start` plus the first `count` terms at one place, added in order.
pub open spec fn weighted_sum<D, A: Fn(D, D) -> D, G: Fn(D, D) -> D>(
    start: D,
    terms: Seq<Term<'_, D>>,
    place: int,
    count: int,
    plus: A,
    multiply: G,
) -> D
    decreases count,
{
    if count <= 0 {
        start
    } else {
        combined(
            plus,
            weighted_sum(start, terms, place, count - 1, plus, multiply),
            combined(
                multiply,
                terms[count - 1].coefficient,
                terms[count - 1].matrix@[place],
            ),
        )
    }
}

/// An outcome of an operation is its only one.
pub(crate) proof fn lemma_operation<A, B, C, F: Fn(A, B) -> C>(f: F, x: A, y: B, z: C)
    requires
        is_operation(f),
        call_ensures(f, (x, y), z),
    ensures
        z == combined(f, x, y),
{
    let chosen = combined(f, x, y);
    assert(call_ensures(f, (x, y), chosen));
}

/// Adds all terms at one place.
fn add_up<D: Copy, A: Fn(D, D) -> D, G: Fn(D, D) -> D>(
    start: D,
    terms: &[Term<'_, D>],
    place: usize,
    plus: &A,
    multiply: &G,
) -> (sum: D)
    requires
        is_operation(plus),
        is_operation(multiply),
        forall|k: int| 0 <= k < terms@.len() ==> place < (#[trigger] terms@[k]).matrix@.len(),
    ensures
        sum == weighted_sum(start, terms@, place as int, terms@.len() as int, plus, multiply),
{
    let mut sum: D = start;
    let mut k: usize = 0;
    while k < terms.len()
        invariant
            k <= terms@.len(),
            is_operation(plus),
            is_operation(multiply),
            forall|j: int|
                0 <= j < terms@.len() ==> place < (#[trigger] terms@[j]).matrix@.len(),
            sum == weighted_sum(start, terms@, place as int, k as int, plus, multiply),
        decreases terms.len() - k,
    {
        let term: &Term<'_, D> = &terms[k];
        assert(place < terms@[k as int].matrix@.len());
        let product: D = multiply(term.coefficient, term.matrix[place]);
        let next: D = plus(sum, product);
        proof {
            lemma_operation(multiply, term.coefficient, term.matrix@[place as int], product);
            lemma_operation(plus, sum, product, next);
        }
        sum = next;
        k += 1;
    }
    sum
}

/// `destination = sum of coefficient * term` over `order x order` blocks, the
/// terms added to `zero` in order. What lies behind the block stays.
pub fn combine<D: Copy, A: Fn(D, D) -> D, G: Fn(D, D) -> D>(
    destination: &mut [D],
    terms: &[Term<'_, D>],
    order: usize,
    zero: D,
    plus: &A,
    multiply: &G,
)
    requires
        is_operation(plus),
        is_operation(multiply),
        order * order <= old(destination)@.len(),
        forall|k: int|
            0 <= k < terms@.len() ==> order * order <= (#[trigger] terms@[k]).matrix@.len(),
    ensures
        final(destination)@ == Seq::new(
            old(destination)@.len(),
            |n: int|
                if n < order * order {
                    weighted_sum(zero, terms@, n, terms@.len() as int, plus, multiply)
                } else {
                    old(destination)@[n]
                },
        ),
{
    let len: usize = destination.len();
    let elements: usize = order * order;
    let mut n: usize = 0;
    while n < elements
        invariant
            n <= elements <= len,
            elements == order * order,
            len == destination@.len() == old(destination)@.len(),
            is_operation(plus),
            is_operation(multiply),
            forall|k: int|
                0 <= k < terms@.len() ==> elements <= (#[trigger] terms@[k]).matrix@.len(),
            forall|j: int|
                0 <= j < n ==> destination@[j] == weighted_sum(
                    zero,
                    terms@,
                    j,
                    terms@.len() as int,
                    plus,
                    multiply,
                ),
            forall|j: int| n <= j < len ==> destination@[j] == old(destination)@[j],
        decreases elements - n,
    {
        let value: D = add_up(zero, terms, n, plus, multiply);
        destination[n] = value;
        n += 1;
    }
    assert(destination@ =~= Seq::new(
        old(destination)@.len(),
        |n: int|
            if n < order * order {
                weighted_sum(zero, terms@, n, terms@.len() as int, plus, multiply)
            } else {
                old(destination)@[n]
            },
    ));
}

/// The place lies on the diagonal of an `order x order` block.
pub open spec fn on_diagonal(place: int, order: int) -> bool {
    place / order == place % order
}

/// One place of a block after [`add_terms`].
pub open spec fn with_terms<D, A: Fn(D, D) -> D, G: Fn(D, D) -> D>(
    start: D,
    terms: Seq<Term<'_, D>>,
    diagonal: D,
    place: int,
    order: int,
    plus: A,
    multiply: G,
) -> D {
    let sum = weighted_sum(start, terms, place, terms.len() as int, plus, multiply);
    if on_diagonal(place, order) {
        combined(plus, sum, diagonal)
    } else {
        sum
    }
}

/// `destination += sum of coefficient * term + diagonal * I` over
/// `order x order` blocks. What lies behind the block stays.
pub fn add_terms<D: Copy, A: Fn(D, D) -> D, G: Fn(D, D) -> D>(
    destination: &mut [D],
    terms: &[Term<'_, D>],
    diagonal: D,
    order: usize,
    plus: &A,
    multiply: &G,
)
    requires
        is_operation(plus),
        is_operation(multiply),
        order * order <= old(destination)@.len(),
        forall|k: int|
            0 <= k < terms@.len() ==> order * order <= (#[trigger] terms@[k]).matrix@.len(),
    ensures
        final(destination)@ == Seq::new(
            old(destination)@.len(),
            |n: int|
                if n < order * order {
                    with_terms(
                        old(destination)@[n],
                        terms@,
                        diagonal,
                        n,
                        order as int,
                        plus,
                        multiply,
                    )
                } else {
                    old(destination)@[n]
                },
        ),
{
    let len: usize = destination.len();
    let elements: usize = order * order;
    let mut n: usize = 0;
    while n < elements
        invariant
            n <= elements <= len,
            elements == order * order,
            len == destination@.len() == old(destination)@.len(),
            is_operation(plus),
            is_operation(multiply),
            forall|k: int|
                0 <= k < terms@.len() ==> elements <= (#[trigger] terms@[k]).matrix@.len(),
            forall|j: int|
                0 <= j < n ==> destination@[j] == with_terms(
                    old(destination)@[j],
                    terms@,
                    diagonal,
                    j,
                    order as int,
                    plus,
                    multiply,
                ),
            forall|j: int| n <= j < len ==> destination@[j] == old(destination)@[j],
        decreases elements - n,
    {
        proof {
            lemma_split_bounds(n as int, order as int, order as int);
        }
        let start: D = destination[n];
        let sum: D = add_up(start, terms, n, plus, multiply);
        if n / order == n % order {
            let shifted: D = plus(sum, diagonal);
            proof {
                lemma_operation(plus, sum, diagonal, shifted);
            }
            destination[n] = shifted;
        } else {
            destination[n] = sum;
        }
        n += 1;
    }
    assert(destination@ =~= Seq::new(
        old(destination)@.len(),
        |n: int|
            if n < order * order {
                with_terms(
                    old(destination)@[n],
                    terms@,
                    diagonal,
                    n,
                    order as int,
                    plus,
                    multiply,
                )
            } else {
                old(destination)@[n]
            },
    ));
}

/// The mean of an element and the conjugate of its mirror image.
pub open spec fn hermitian_mean<D, A: Fn(D, D) -> D, G: Fn(D, D) -> D, F: Fn(D) -> D>(
    matrix: Seq<D>,
    n: int,
    row: int,
    col: int,
    half: D,
    plus: A,
    multiply: G,
    conjugate: F,
) -> D {
    combined(
        multiply,
        combined(plus, matrix[row + n * col], image(conjugate, matrix[col + n * row])),
        half,
    )
}

/// The Hermitian part of a matrix: the mean above the diagonal, and its
/// conjugate below and on it.
pub open spec fn hermitian_part<D, A: Fn(D, D) -> D, G: Fn(D, D) -> D, F: Fn(D) -> D>(
    matrix: Seq<D>,
    n: int,
    half: D,
    plus: A,
    multiply: G,
    conjugate: F,
) -> Seq<D> {
    Seq::new(
        matrix.len(),
        |place: int|
            if place >= n * n {
                matrix[place]
            } else if place % n < place / n {
                hermitian_mean(
                    matrix,
                    n,
                    place % n,
                    place / n,
                    half,
                    plus,
                    multiply,
                    conjugate,
                )
            } else {
                image(
                    conjugate,
                    hermitian_mean(
                        matrix,
                        n,
                        place / n,
                        place % n,
                        half,
                        plus,
                        multiply,
                        conjugate,
                    ),
                )
            },
    )
}

/// Both places of an element and its mirror image were visited.
spec fn visited(place: int, n: int, cols: int, rows: int) -> bool {
    let low = if place % n < place / n {
        place % n
    } else {
        place / n
    };
    let high = if place % n < place / n {
        place / n
    } else {
        place % n
    };
    high < cols || (high == cols && low < rows)
}

/// Projects a column-major `n x n` matrix onto its Hermitian part.
pub fn project_hermitian_col_major<
    D: Copy,
    A: Fn(D, D) -> D,
    G: Fn(D, D) -> D,
    F: Fn(D) -> D,
>(matrix: &mut [D], n: usize, half: D, plus: &A, multiply: &G, conjugate: &F)
    requires
        is_operation(plus),
        is_operation(multiply),
        is_function(conjugate),
        n * n <= old(matrix)@.len(),
    ensures
        final(matrix)@ == hermitian_part(
            old(matrix)@,
            n as int,
            half,
            plus,
            multiply,
            conjugate,
        ),
{
    let len: usize = matrix.len();
    let ghost expected = hermitian_part(matrix@, n as int, half, plus, multiply, conjugate);
    let mut col: usize = 0;
    proof {
        assert forall|place: int| 0 <= place < n * n implies !visited(place, n as int, 0, 0) by {
            lemma_split_bounds(place, n as int, n as int);
        }
    }
    while col < n
        invariant
            col <= n,
            n * n <= len,
            len == matrix@.len() == old(matrix)@.len(),
            is_operation(plus),
            is_operation(multiply),
            is_function(conjugate),
            expected == hermitian_part(
                old(matrix)@,
                n as int,
                half,
                plus,
                multiply,
                conjugate,
            ),
            forall|place: int|
                0 <= place < n * n ==> (#[trigger] matrix@[place]) == if visited(
                    place,
                    n as int,
                    col as int,
                    0,
                ) {
                    expected[place]
                } else {
                    old(matrix)@[place]
                },
            forall|place: int|
                n * n <= place < len ==> (#[trigger] matrix@[place]) == old(matrix)@[place],
        decreases n - col,
    {
        let mut row: usize = 0;
        while row <= col
            invariant
                col < n,
                row <= col + 1,
                n * n <= len,
                len == matrix@.len() == old(matrix)@.len(),
                is_operation(plus),
                is_operation(multiply),
                is_function(conjugate),
                expected == hermitian_part(
                    old(matrix)@,
                    n as int,
                    half,
                    plus,
                    multiply,
                    conjugate,
                ),
                forall|place: int|
                    0 <= place < n * n ==> (#[trigger] matrix@[place]) == if visited(
                        place,
                        n as int,
                        col as int,
                        row as int,
                    ) {
                        expected[place]
                    } else {
                        old(matrix)@[place]
                    },
                forall|place: int|
                    n * n <= place < len ==> (#[trigger] matrix@[place]) == old(matrix)@[place],
            decreases col + 1 - row,
        {
            let ghost above = n * col + row;
            let ghost below = n * row + col;
            proof {
                lemma_column_position(n as int, n as int, row as int, col as int);
                lemma_column_position(n as int, n as int, col as int, row as int);
                assert(n * col >= 0 && n * row >= 0) by (nonlinear_arith)
                    requires
                        n >= 0,
                        col >= 0,
                        row >= 0,
                ;
                assert(!visited(above, n as int, col as int, row as int));
                assert(!visited(below, n as int, col as int, row as int));
            }
            let upper: D = matrix[row + n * col];
            let mirror: D = matrix[col + n * row];
            let lower: D = conjugate(mirror);
            let sum: D = plus(upper, lower);
            let value: D = multiply(sum, half);
            let reflected: D = conjugate(value);
            proof {
                lemma_image(conjugate, mirror, lower);
                lemma_operation(plus, upper, lower, sum);
                lemma_operation(multiply, sum, half, value);
                lemma_image(conjugate, value, reflected);
            }
            matrix[row + n * col] = value;
            matrix[col + n * row] = reflected;
            proof {
                assert(expected[below] == reflected);
                assert(row < col ==> expected[above] == value);
                assert forall|place: int| 0 <= place < n * n implies (#[trigger] matrix@[place])
                    == if visited(place, n as int, col as int, row + 1) {
                    expected[place]
                } else {
                    old(matrix)@[place]
                } by {
                    lemma_split_bounds(place, n as int, n as int);
                    if place != above && place != below {
                        assert(visited(place, n as int, col as int, row + 1) == visited(
                            place,
                            n as int,
                            col as int,
                            row as int,
                        ));
                    }
                }
            }
            row += 1;
        }
        proof {
            assert forall|place: int| 0 <= place < n * n implies (#[trigger] matrix@[place])
                == if visited(place, n as int, col + 1, 0) {
                expected[place]
            } else {
                old(matrix)@[place]
            } by {
                lemma_split_bounds(place, n as int, n as int);
                assert(visited(place, n as int, col as int, col + 1) == visited(
                    place,
                    n as int,
                    col + 1,
                    0,
                ));
            }
        }
        col += 1;
    }
    proof {
        assert forall|place: int| 0 <= place < len implies matrix@[place] == expected[place] by {
            if place < n * n {
                lemma_split_bounds(place, n as int, n as int);
                assert(visited(place, n as int, n as int, 0));
            }
        }
        assert(matrix@ =~= expected);
    }
}

/// An element above the diagonal of a Hermitian part and its mirror image are
/// conjugates of each other.
pub proof fn lemma_hermitian_part_mirrors<
    D,
    A: Fn(D, D) -> D,
    G: Fn(D, D) -> D,
    F: Fn(D) -> D,
>(
    matrix: Seq<D>,
    n: int,
    row: int,
    col: int,
    half: D,
    plus: A,
    multiply: G,
    conjugate: F,
)
    requires
        0 <= row < col < n,
        n * n <= matrix.len(),
    ensures
        ({
            let part = hermitian_part(matrix, n, half, plus, multiply, conjugate);
            part[col + n * row] == image(conjugate, part[row + n * col])
        }),
{
    lemma_column_position(n, n, row, col);
    lemma_column_position(n, n, col, row);
}

} // verus!
