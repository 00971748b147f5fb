//! What the exponential of a block is: with exact arithmetic the quotient of two
//! polynomials in the scaled block, squared as often as the scale asks for.

use vstd::prelude::*;

use crate::dense_calls::multiplies_to;
use crate::error::OperationError;
use crate::exact::{adds_in, multiplies_exactly, multiplies_in, solves_exactly};
use crate::exponential::{
    denominator, even_powers, exponentiated, high_powers, numerator, pade_answer, pade_call,
    pade_reached, scaled_block, squared_up, with_low_powers, EvenPowers, PadeScalars, PadeStages,
};
use crate::matrix_functions::{on_diagonal, weighted_sum, with_terms, Term};
use crate::ring::{lemma_place, lemma_same_cells, lemma_tabulated, matrix, tabulated, Matrix, Ring};

verus! {

/// A place of an `order x order` block lies on the diagonal where its row is its
/// column, and nowhere else.
pub proof fn lemma_diagonal_places(order: int, row: int, col: int)
    requires
        0 <= row < order,
        0 <= col < order,
    ensures
        on_diagonal(row + order * col, order) <==> row == col,
{
    lemma_place(order, order, row, col);
}

/// The diagonal term of a sum of blocks reaches every diagonal cell, and no
/// other cell: a diagonal block is added to the sum of the terms.
pub proof fn lemma_terms_add_a_multiple_of_the_identity<
    D,
    A: Fn(D, D) -> D,
    G: Fn(D, D) -> D,
>(
    ring: Ring<D>,
    start: Seq<D>,
    terms: Seq<Term<'_, D>>,
    diagonal: D,
    order: int,
    plus: A,
    multiply: G,
    row: int,
    col: int,
)
    requires
        ring.is_ring(),
        adds_in(ring, plus),
        multiplies_in(ring, multiply),
        0 <= row < order,
        0 <= col < order,
    ensures
        with_terms(
            start[row + order * col],
            terms,
            diagonal,
            row + order * col,
            order,
            plus,
            multiply,
        ) == ring.sum(
            ring.sum(
                start[row + order * col],
                ring.total(
                    |k: int|
                        ring.product(
                            terms[k].coefficient,
                            matrix(order, order, terms[k].matrix@).at(row, col),
                        ),
                    terms.len() as int,
                ),
            ),
            if row == col {
                diagonal
            } else {
                ring.zero
            },
        ),
{
    let place = row + order * col;
    let term = |k: int|
        ring.product(terms[k].coefficient, matrix(order, order, terms[k].matrix@).at(row, col));
    lemma_diagonal_places(order, row, col);
    lemma_weighted_sum(
        ring,
        start[place],
        terms,
        place,
        plus,
        multiply,
        term,
        terms.len() as int,
    );
    ring.sum_with_zero(ring.sum(start[place], ring.total(term, terms.len() as int)));
}

/// A weighted sum is its start plus the total of its terms.
proof fn lemma_weighted_sum<D, A: Fn(D, D) -> D, G: Fn(D, D) -> D>(
    ring: Ring<D>,
    start: D,
    terms: Seq<Term<'_, D>>,
    place: int,
    plus: A,
    multiply: G,
    term: spec_fn(int) -> D,
    count: int,
)
    requires
        ring.is_ring(),
        adds_in(ring, plus),
        multiplies_in(ring, multiply),
        0 <= count <= terms.len(),
        forall|k: int|
            0 <= k < count ==> #[trigger] term(k) == ring.product(
                terms[k].coefficient,
                terms[k].matrix@[place],
            ),
    ensures
        weighted_sum(start, terms, place, count, plus, multiply) == ring.sum(
            start,
            ring.total(term, count),
        ),
    decreases count,
{
    if count > 0 {
        lemma_weighted_sum(ring, start, terms, place, plus, multiply, term, count - 1);
        assert(term(count - 1) == term(count - 1));
        ring.sum_associates(start, ring.total(term, count - 1), term(count - 1));
    } else {
        ring.sum_with_zero(start);
    }
}

/// A power of a square matrix.
pub open spec fn power<D>(ring: Ring<D>, a: Matrix<D>, exponent: nat) -> Matrix<D>
    decreases exponent,
{
    if exponent == 0 {
        ring.identity(a.rows)
    } else {
        ring.mul(a, power(ring, a, (exponent - 1) as nat))
    }
}

/// The matrix multiplied with itself, its square with itself, and so on.
pub open spec fn squared<D>(ring: Ring<D>, a: Matrix<D>, times: nat) -> Matrix<D>
    decreases times,
{
    if times == 0 {
        a
    } else {
        let root = squared(ring, a, (times - 1) as nat);
        ring.mul(root, root)
    }
}

/// The polynomial with these coefficients, from the constant term up, at a
/// matrix.
pub open spec fn polynomial<D>(ring: Ring<D>, coefficients: Seq<D>, a: Matrix<D>) -> Matrix<D> {
    tabulated(
        a.rows,
        a.cols,
        |i: int, j: int|
            ring.total(
                |k: int| ring.product(coefficients[k], power(ring, a, k as nat).at(i, j)),
                coefficients.len() as int,
            ),
    )
}

/// The coefficients with the odd ones multiplied by minus one.
pub open spec fn alternating<D>(ring: Ring<D>, coefficients: Seq<D>, minus_one: D) -> Seq<D> {
    Seq::new(
        coefficients.len(),
        |k: int|
            if k % 2 == 0 {
                coefficients[k]
            } else {
                ring.product(minus_one, coefficients[k])
            },
    )
}

pub proof fn lemma_power_shape<D>(ring: Ring<D>, a: Matrix<D>, exponent: nat)
    requires
        a.shaped(),
        a.rows == a.cols,
    ensures
        power(ring, a, exponent).shaped(),
        power(ring, a, exponent).rows == a.rows,
        power(ring, a, exponent).cols == a.rows,
    decreases exponent,
{
    if exponent == 0 {
        ring.identity_cells(a.rows);
    } else {
        lemma_power_shape(ring, a, (exponent - 1) as nat);
        ring.mul_cells(a, power(ring, a, (exponent - 1) as nat));
    }
}

/// Exponents add up.
pub proof fn lemma_powers_multiply<D>(ring: Ring<D>, a: Matrix<D>, m: nat, n: nat)
    requires
        ring.is_ring(),
        a.shaped(),
        a.rows == a.cols,
    ensures
        ring.mul(power(ring, a, m), power(ring, a, n)) == power(ring, a, m + n),
    decreases m,
{
    lemma_power_shape(ring, a, n);
    if m == 0 {
        ring.mul_with_identity(power(ring, a, n));
    } else {
        let k = (m - 1) as nat;
        lemma_power_shape(ring, a, k);
        lemma_powers_multiply(ring, a, k, n);
        ring.mul_associates(a, power(ring, a, k), power(ring, a, n));
        assert((m + n - 1) as nat == k + n);
    }
}

/// A term of a polynomial.
spec fn monomial<D>(ring: Ring<D>, c: D, a: Matrix<D>, exponent: nat) -> Matrix<D> {
    ring.scale(c, power(ring, a, exponent))
}

proof fn lemma_monomial_shape<D>(ring: Ring<D>, c: D, a: Matrix<D>, exponent: nat)
    requires
        a.shaped(),
        a.rows == a.cols,
    ensures
        monomial(ring, c, a, exponent).shaped(),
        monomial(ring, c, a, exponent).rows == a.rows,
        monomial(ring, c, a, exponent).cols == a.rows,
        forall|i: int, j: int|
            0 <= i < a.rows && 0 <= j < a.rows ==> #[trigger] monomial(
                ring,
                c,
                a,
                exponent,
            ).at(i, j) == ring.product(c, power(ring, a, exponent).at(i, j)),
{
    lemma_power_shape(ring, a, exponent);
    ring.scale_cells(c, power(ring, a, exponent));
}

/// A power times a term raises the exponent.
proof fn lemma_power_times_monomial<D>(
    ring: Ring<D>,
    a: Matrix<D>,
    m: nat,
    c: D,
    n: nat,
)
    requires
        ring.is_ring(),
        a.shaped(),
        a.rows == a.cols,
    ensures
        ring.mul(power(ring, a, m), monomial(ring, c, a, n)) == monomial(ring, c, a, m + n),
{
    lemma_power_shape(ring, a, m);
    lemma_power_shape(ring, a, n);
    ring.mul_of_multiple(power(ring, a, m), c, power(ring, a, n));
    lemma_powers_multiply(ring, a, m, n);
}

/// Three terms of a polynomial added to a matrix.
spec fn with_three<D>(
    ring: Ring<D>,
    start: Matrix<D>,
    a: Matrix<D>,
    b: Seq<D>,
    high: nat,
    low: int,
) -> Matrix<D> {
    ring.add(
        ring.add(
            ring.add(start, monomial(ring, b[low + 4], a, high)),
            monomial(ring, b[low + 2], a, (high - 2) as nat),
        ),
        monomial(ring, b[low], a, (high - 4) as nat),
    )
}

/// The terms of every second coefficient from `low` on, the highest first:
/// those from the seventh on with their high powers, then the low ones.
spec fn every_second<D>(ring: Ring<D>, a: Matrix<D>, b: Seq<D>, low: int) -> Matrix<D> {
    let high = ring.add(
        ring.add(
            monomial(ring, b[low + 12], a, (low + 12) as nat),
            monomial(ring, b[low + 10], a, (low + 10) as nat),
        ),
        monomial(ring, b[low + 8], a, (low + 8) as nat),
    );
    ring.add(
        with_three(ring, high, a, b, (low + 6) as nat, low + 2),
        monomial(ring, b[low], a, low as nat),
    )
}

/// The total of the terms can be taken from the last one down.
proof fn lemma_total_reversed<D>(ring: Ring<D>, f: spec_fn(int) -> D, count: int)
    requires
        ring.is_ring(),
        0 <= count,
    ensures
        ring.total(f, count) == ring.total(|k: int| f(count - 1 - k), count),
    decreases count,
{
    let reversed = |k: int| f(count - 1 - k);
    if count > 0 {
        let shorter = |k: int| f(count - 2 - k);
        lemma_total_reversed(ring, f, count - 1);
        ring.total_same(|k: int| f(count - 1 - 1 - k), shorter, count - 1);
        lemma_total_first(ring, reversed, shorter, count - 1);
        ring.sum_commutes(f(count - 1), ring.total(f, count - 1));
    }
}

/// The first term of a total can be taken apart.
proof fn lemma_total_first<D>(
    ring: Ring<D>,
    f: spec_fn(int) -> D,
    rest: spec_fn(int) -> D,
    count: int,
)
    requires
        ring.is_ring(),
        0 <= count,
        forall|k: int| 0 <= k < count ==> #[trigger] rest(k) == f(k + 1),
    ensures
        ring.total(f, count + 1) == ring.sum(f(0), ring.total(rest, count)),
    decreases count,
{
    if count > 0 {
        lemma_total_first(ring, f, rest, count - 1);
        assert(rest(count - 1) == f(count));
        ring.sum_associates(f(0), ring.total(rest, count - 1), f(count));
    } else {
        assert(ring.total(f, 1) == ring.sum(ring.total(f, 0), f(0)));
        ring.sum_with_zero(f(0));
    }
}

/// The even terms and the odd terms together are all terms.
proof fn lemma_total_interleaved<D>(
    ring: Ring<D>,
    f: spec_fn(int) -> D,
    even: spec_fn(int) -> D,
    odd: spec_fn(int) -> D,
    count: int,
)
    requires
        ring.is_ring(),
        0 <= count,
        forall|k: int| 0 <= k < count ==> #[trigger] even(k) == f(2 * k),
        forall|k: int| 0 <= k < count ==> #[trigger] odd(k) == f(2 * k + 1),
    ensures
        ring.total(f, 2 * count) == ring.sum(ring.total(even, count), ring.total(odd, count)),
    decreases count,
{
    if count > 0 {
        lemma_total_interleaved(ring, f, even, odd, count - 1);
        let e = ring.total(even, count - 1);
        let o = ring.total(odd, count - 1);
        assert(even(count - 1) == f(2 * count - 2));
        assert(odd(count - 1) == f(2 * count - 1));
        assert(ring.total(f, 2 * count) == ring.sum(
            ring.total(f, 2 * count - 1),
            f(2 * count - 1),
        ));
        assert(ring.total(f, 2 * count - 1) == ring.sum(
            ring.total(f, 2 * count - 2),
            f(2 * count - 2),
        ));
        ring.sum_associates(ring.sum(e, o), f(2 * count - 2), f(2 * count - 1));
        ring.sums_interchange(e, o, f(2 * count - 2), f(2 * count - 1));
    } else {
        ring.sum_with_zero(ring.zero);
    }
}

/// Seven terms added from the highest down are their total.
proof fn lemma_seven_terms<D>(ring: Ring<D>, t: spec_fn(int) -> D)
    requires
        ring.is_ring(),
    ensures
        ring.total(t, 7) == ring.sum(
            ring.sum(
                ring.sum(
                    ring.sum(ring.sum(ring.sum(t(6), t(5)), t(4)), t(3)),
                    t(2),
                ),
                t(1),
            ),
            t(0),
        ),
{
    let down = |k: int| t(6 - k);
    lemma_total_reversed(ring, t, 7);
    ring.total_same(|k: int| t(7 - 1 - k), down, 7);
    reveal_with_fuel(Ring::total, 8);
    ring.sum_with_zero(t(6));
}

/// The cells of every second term of a polynomial.
proof fn lemma_every_second_cells<D>(
    ring: Ring<D>,
    a: Matrix<D>,
    b: Seq<D>,
    low: int,
    i: int,
    j: int,
)
    requires
        ring.is_ring(),
        a.shaped(),
        a.rows == a.cols,
        0 <= low <= 1,
        0 <= i < a.rows,
        0 <= j < a.rows,
    ensures
        every_second(ring, a, b, low).shaped(),
        every_second(ring, a, b, low).rows == a.rows,
        every_second(ring, a, b, low).cols == a.rows,
        every_second(ring, a, b, low).at(i, j) == ring.total(
            |k: int|
                ring.product(
                    b[2 * k + low],
                    power(ring, a, (2 * k + low) as nat).at(i, j),
                ),
            7,
        ),
{
    let t = |k: int|
        ring.product(b[2 * k + low], power(ring, a, (2 * k + low) as nat).at(i, j));
    lemma_seven_terms(ring, t);
    lemma_every_second_shape(ring, a, b, low);
    lemma_monomial_shape(ring, b[low + 12], a, (low + 12) as nat);
    lemma_monomial_shape(ring, b[low + 10], a, (low + 10) as nat);
    lemma_monomial_shape(ring, b[low + 8], a, (low + 8) as nat);
    lemma_monomial_shape(ring, b[low + 6], a, (low + 6) as nat);
    lemma_monomial_shape(ring, b[low + 4], a, (low + 4) as nat);
    lemma_monomial_shape(ring, b[low + 2], a, (low + 2) as nat);
    lemma_monomial_shape(ring, b[low], a, low as nat);
    let m12 = monomial(ring, b[low + 12], a, (low + 12) as nat);
    let m10 = monomial(ring, b[low + 10], a, (low + 10) as nat);
    let m8 = monomial(ring, b[low + 8], a, (low + 8) as nat);
    let m6 = monomial(ring, b[low + 6], a, (low + 6) as nat);
    let m4 = monomial(ring, b[low + 4], a, (low + 4) as nat);
    let m2 = monomial(ring, b[low + 2], a, (low + 2) as nat);
    let m0 = monomial(ring, b[low], a, low as nat);
    let s1 = ring.add(m12, m10);
    let s2 = ring.add(s1, m8);
    let s3 = ring.add(s2, m6);
    let s4 = ring.add(s3, m4);
    let s5 = ring.add(s4, m2);
    let s6 = ring.add(s5, m0);
    ring.add_cells(m12, m10);
    ring.add_cells(s1, m8);
    ring.add_cells(s2, m6);
    ring.add_cells(s3, m4);
    ring.add_cells(s4, m2);
    ring.add_cells(s5, m0);
    assert(every_second(ring, a, b, low) == s6);
    assert(m12.at(i, j) == t(6));
    assert(m10.at(i, j) == t(5));
    assert(m8.at(i, j) == t(4));
    assert(m6.at(i, j) == t(3));
    assert(m4.at(i, j) == t(2));
    assert(m2.at(i, j) == t(1));
    assert(m0.at(i, j) == t(0));
    assert(s1.at(i, j) == ring.sum(t(6), t(5)));
    assert(s2.at(i, j) == ring.sum(s1.at(i, j), t(4)));
    assert(s3.at(i, j) == ring.sum(s2.at(i, j), t(3)));
    assert(s4.at(i, j) == ring.sum(s3.at(i, j), t(2)));
    assert(s5.at(i, j) == ring.sum(s4.at(i, j), t(1)));
    assert(s6.at(i, j) == ring.sum(s5.at(i, j), t(0)));
}

proof fn lemma_every_second_shape<D>(ring: Ring<D>, a: Matrix<D>, b: Seq<D>, low: int)
    requires
        a.shaped(),
        a.rows == a.cols,
        0 <= low <= 1,
    ensures
        every_second(ring, a, b, low).shaped(),
        every_second(ring, a, b, low).rows == a.rows,
        every_second(ring, a, b, low).cols == a.rows,
{
    lemma_monomial_shape(ring, b[low + 12], a, (low + 12) as nat);
    let m12 = monomial(ring, b[low + 12], a, (low + 12) as nat);
    let m10 = monomial(ring, b[low + 10], a, (low + 10) as nat);
    let m8 = monomial(ring, b[low + 8], a, (low + 8) as nat);
    let m6 = monomial(ring, b[low + 6], a, (low + 6) as nat);
    let m4 = monomial(ring, b[low + 4], a, (low + 4) as nat);
    let m2 = monomial(ring, b[low + 2], a, (low + 2) as nat);
    let m0 = monomial(ring, b[low], a, low as nat);
    let s1 = ring.add(m12, m10);
    let s2 = ring.add(s1, m8);
    let s3 = ring.add(s2, m6);
    let s4 = ring.add(s3, m4);
    let s5 = ring.add(s4, m2);
    ring.add_cells(m12, m10);
    ring.add_cells(s1, m8);
    ring.add_cells(s2, m6);
    ring.add_cells(s3, m4);
    ring.add_cells(s4, m2);
    ring.add_cells(s5, m0);
}

/// The even and the odd terms add up to the polynomial, and their difference to
/// the one with alternating signs.
proof fn lemma_quotient_sides<D>(
    ring: Ring<D>,
    a: Matrix<D>,
    b: Seq<D>,
    minus_one: D,
    above: Matrix<D>,
    below: Matrix<D>,
)
    requires
        ring.is_ring(),
        a.shaped(),
        a.rows == a.cols,
        b.len() == 14,
        above == ring.add(every_second(ring, a, b, 0), every_second(ring, a, b, 1)),
        below == ring.add(
            every_second(ring, a, b, 0),
            ring.scale(minus_one, every_second(ring, a, b, 1)),
        ),
    ensures
        above == polynomial(ring, b, a),
        below == polynomial(ring, alternating(ring, b, minus_one), a),
{
    let e = every_second(ring, a, b, 0);
    let o = every_second(ring, a, b, 1);
    let q = alternating(ring, b, minus_one);
    lemma_every_second_shape(ring, a, b, 0);
    lemma_every_second_shape(ring, a, b, 1);
    ring.add_cells(e, o);
    ring.scale_cells(minus_one, o);
    ring.add_cells(e, ring.scale(minus_one, o));
    lemma_tabulated(
        a.rows,
        a.cols,
        |i: int, j: int|
            ring.total(
                |k: int| ring.product(b[k], power(ring, a, k as nat).at(i, j)),
                b.len() as int,
            ),
    );
    lemma_tabulated(
        a.rows,
        a.cols,
        |i: int, j: int|
            ring.total(
                |k: int| ring.product(q[k], power(ring, a, k as nat).at(i, j)),
                q.len() as int,
            ),
    );
    let p = polynomial(ring, b, a);
    let d = polynomial(ring, q, a);
    assert forall|i: int, j: int| 0 <= i < a.rows && 0 <= j < a.rows implies #[trigger] above.at(
        i,
        j,
    ) == p.at(i, j) && below.at(i, j) == d.at(i, j) by {
        let f = |k: int| ring.product(b[k], power(ring, a, k as nat).at(i, j));
        let g = |k: int| ring.product(q[k], power(ring, a, k as nat).at(i, j));
        let even = |k: int|
            ring.product(b[2 * k + 0], power(ring, a, (2 * k + 0) as nat).at(i, j));
        let odd = |k: int|
            ring.product(b[2 * k + 1], power(ring, a, (2 * k + 1) as nat).at(i, j));
        let negated = |k: int| ring.product(minus_one, odd(k));
        lemma_every_second_cells(ring, a, b, 0, i, j);
        lemma_every_second_cells(ring, a, b, 1, i, j);
        assert(e.at(i, j) == ring.total(even, 7));
        assert(o.at(i, j) == ring.total(odd, 7));
        lemma_total_interleaved(ring, f, even, odd, 7);
        assert(p.at(i, j) == ring.total(f, 14));
        assert forall|k: int| 0 <= k < 7 implies #[trigger] even(k) == g(2 * k) by {
            assert((2 * k) % 2 == 0);
        }
        assert forall|k: int| 0 <= k < 7 implies #[trigger] negated(k) == g(2 * k + 1) by {
            assert((2 * k + 1) % 2 == 1);
            ring.product_associates(
                minus_one,
                b[2 * k + 1],
                power(ring, a, (2 * k + 1) as nat).at(i, j),
            );
        }
        lemma_total_interleaved(ring, g, even, negated, 7);
        ring.total_of_multiples(negated, minus_one, odd, 7);
        assert(d.at(i, j) == ring.total(g, 14));
    }
    lemma_same_cells(above, p);
    assert forall|i: int, j: int| 0 <= i < a.rows && 0 <= j < a.rows implies #[trigger] below.at(
        i,
        j,
    ) == d.at(i, j) by {
        assert(above.at(i, j) == p.at(i, j));
    }
    lemma_same_cells(below, d);
}

/// An exact product of square blocks.
proof fn lemma_product<
    D,
    M: Fn(&[D], usize, usize, &[D], usize) -> Result<Vec<D>, OperationError>,
>(ring: Ring<D>, matmul: M, left: Seq<D>, right: Seq<D>, order: usize, answer: Vec<D>)
    requires
        multiplies_exactly(ring, matmul),
        multiplies_to(matmul, left, order, order, right, order, Ok(answer)),
    ensures
        matrix(order as int, order as int, answer@) == ring.mul(
            matrix(order as int, order as int, left),
            matrix(order as int, order as int, right),
        ),
{
    let (x, y) = choose|x: &[D], y: &[D]|
        x@ == left && y@ == right && #[trigger] call_ensures(
            matmul,
            (x, order, order, y, order),
            Ok::<Vec<D>, OperationError>(answer),
        );
}

/// The three powers with their coefficients, as matrices.
proof fn lemma_high_powers<D, A: Fn(D, D) -> D, G: Fn(D, D) -> D>(
    ring: Ring<D>,
    a: Matrix<D>,
    scalars: PadeScalars<'_, D>,
    powers: EvenPowers<D>,
    order: usize,
    low: int,
    plus: A,
    multiply: G,
)
    requires
        ring.is_ring(),
        adds_in(ring, plus),
        multiplies_in(ring, multiply),
        scalars.zero == ring.zero,
        a.shaped(),
        a.rows == order,
        a.cols == order,
        matrix(order as int, order as int, powers.second) == power(ring, a, 2),
        matrix(order as int, order as int, powers.fourth) == power(ring, a, 4),
        matrix(order as int, order as int, powers.sixth) == power(ring, a, 6),
    ensures
        ({
            let b = scalars.coefficients@;
            matrix(
                order as int,
                order as int,
                high_powers(scalars, powers, order, low, plus, multiply),
            ) == ring.add(
                ring.add(
                    monomial(ring, b[low + 4], a, 6),
                    monomial(ring, b[low + 2], a, 4),
                ),
                monomial(ring, b[low], a, 2),
            )
        }),
{
    let n = order as int;
    let b = scalars.coefficients@;
    let found = matrix(n, n, high_powers(scalars, powers, order, low, plus, multiply));
    let m6 = monomial(ring, b[low + 4], a, 6);
    let m4 = monomial(ring, b[low + 2], a, 4);
    let m2 = monomial(ring, b[low], a, 2);
    lemma_monomial_shape(ring, b[low + 4], a, 6);
    lemma_monomial_shape(ring, b[low + 2], a, 4);
    lemma_monomial_shape(ring, b[low], a, 2);
    ring.add_cells(m6, m4);
    ring.add_cells(ring.add(m6, m4), m2);
    let expected = ring.add(ring.add(m6, m4), m2);
    assert forall|i: int, j: int| 0 <= i < n && 0 <= j < n implies #[trigger] found.at(i, j)
        == expected.at(i, j) by {
        lemma_place(n, n, i, j);
        let place = i + n * j;
        assert(power(ring, a, 6).at(i, j) == powers.sixth[place]);
        assert(power(ring, a, 4).at(i, j) == powers.fourth[place]);
        assert(power(ring, a, 2).at(i, j) == powers.second[place]);
        ring.sum_with_zero(m6.at(i, j));
        assert(ring.add(m6, m4).at(i, j) == ring.sum(m6.at(i, j), m4.at(i, j)));
    }
    assert(n * n >= 0) by (nonlinear_arith);
    lemma_same_cells(found, expected);
}

/// The three powers and the identity with their coefficients, added to a matrix.
proof fn lemma_low_powers<D, A: Fn(D, D) -> D, G: Fn(D, D) -> D>(
    ring: Ring<D>,
    a: Matrix<D>,
    product: Seq<D>,
    scalars: PadeScalars<'_, D>,
    powers: EvenPowers<D>,
    order: usize,
    low: int,
    plus: A,
    multiply: G,
)
    requires
        ring.is_ring(),
        adds_in(ring, plus),
        multiplies_in(ring, multiply),
        a.shaped(),
        a.rows == order,
        a.cols == order,
        product.len() == order * order,
        matrix(order as int, order as int, powers.second) == power(ring, a, 2),
        matrix(order as int, order as int, powers.fourth) == power(ring, a, 4),
        matrix(order as int, order as int, powers.sixth) == power(ring, a, 6),
    ensures
        ({
            let b = scalars.coefficients@;
            matrix(
                order as int,
                order as int,
                with_low_powers(product, scalars, powers, order, low, plus, multiply),
            ) == ring.add(
                with_three(
                    ring,
                    matrix(order as int, order as int, product),
                    a,
                    b,
                    6,
                    low + 2,
                ),
                monomial(ring, b[low], a, 0),
            )
        }),
{
    let n = order as int;
    let b = scalars.coefficients@;
    let found = matrix(
        n,
        n,
        with_low_powers(product, scalars, powers, order, low, plus, multiply),
    );
    let start = matrix(n, n, product);
    let m6 = monomial(ring, b[low + 6], a, 6);
    let m4 = monomial(ring, b[low + 4], a, 4);
    let m2 = monomial(ring, b[low + 2], a, 2);
    let m0 = monomial(ring, b[low], a, 0);
    lemma_monomial_shape(ring, b[low + 6], a, 6);
    lemma_monomial_shape(ring, b[low + 4], a, 4);
    lemma_monomial_shape(ring, b[low + 2], a, 2);
    lemma_monomial_shape(ring, b[low], a, 0);
    ring.identity_cells(n);
    let s1 = ring.add(start, m6);
    let s2 = ring.add(s1, m4);
    let s3 = ring.add(s2, m2);
    let s4 = ring.add(s3, m0);
    ring.add_cells(start, m6);
    ring.add_cells(s1, m4);
    ring.add_cells(s2, m2);
    ring.add_cells(s3, m0);
    assert(with_three(ring, start, a, b, 6, low + 2) == s3);
    assert forall|i: int, j: int| 0 <= i < n && 0 <= j < n implies #[trigger] found.at(i, j)
        == s4.at(i, j) by {
        lemma_place(n, n, i, j);
        lemma_diagonal_places(n, i, j);
        let place = i + n * j;
        assert(power(ring, a, 6).at(i, j) == powers.sixth[place]);
        assert(power(ring, a, 4).at(i, j) == powers.fourth[place]);
        assert(power(ring, a, 2).at(i, j) == powers.second[place]);
        assert(s1.at(i, j) == ring.sum(start.at(i, j), m6.at(i, j)));
        assert(s2.at(i, j) == ring.sum(s1.at(i, j), m4.at(i, j)));
        assert(s3.at(i, j) == ring.sum(s2.at(i, j), m2.at(i, j)));
        assert(s4.at(i, j) == ring.sum(s3.at(i, j), m0.at(i, j)));
        assert(m0.at(i, j) == ring.product(b[low], ring.identity(n).at(i, j)));
        ring.product_with_one(b[low]);
        ring.product_with_zero(b[low]);
        ring.sum_with_zero(s3.at(i, j));
    }
    lemma_same_cells(found, s4);
}

/// A power times three terms raises their exponents.
proof fn lemma_power_times_three<D>(
    ring: Ring<D>,
    a: Matrix<D>,
    b: Seq<D>,
    m: nat,
    low: int,
)
    requires
        ring.is_ring(),
        a.shaped(),
        a.rows == a.cols,
    ensures
        ring.mul(
            power(ring, a, m),
            ring.add(
                ring.add(
                    monomial(ring, b[low + 4], a, 6),
                    monomial(ring, b[low + 2], a, 4),
                ),
                monomial(ring, b[low], a, 2),
            ),
        ) == ring.add(
            ring.add(
                monomial(ring, b[low + 4], a, m + 6),
                monomial(ring, b[low + 2], a, m + 4),
            ),
            monomial(ring, b[low], a, m + 2),
        ),
{
    let p = power(ring, a, m);
    lemma_power_shape(ring, a, m);
    let m6 = monomial(ring, b[low + 4], a, 6);
    let m4 = monomial(ring, b[low + 2], a, 4);
    let m2 = monomial(ring, b[low], a, 2);
    lemma_monomial_shape(ring, b[low + 4], a, 6);
    lemma_monomial_shape(ring, b[low + 2], a, 4);
    lemma_monomial_shape(ring, b[low], a, 2);
    ring.add_cells(m6, m4);
    ring.mul_distributes(p, ring.add(m6, m4), m2);
    ring.mul_distributes(p, m6, m4);
    lemma_power_times_monomial(ring, a, m, b[low + 4], 6);
    lemma_power_times_monomial(ring, a, m, b[low + 2], 4);
    lemma_power_times_monomial(ring, a, m, b[low], 2);
}

/// The matrix times a sum of terms raises every exponent by one.
proof fn lemma_matrix_times_terms<D>(ring: Ring<D>, a: Matrix<D>, b: Seq<D>)
    requires
        ring.is_ring(),
        a.shaped(),
        a.rows == a.cols,
    ensures
        ring.mul(
            a,
            ring.add(
                with_three(
                    ring,
                    ring.add(
                        ring.add(
                            monomial(ring, b[13], a, 12),
                            monomial(ring, b[11], a, 10),
                        ),
                        monomial(ring, b[9], a, 8),
                    ),
                    a,
                    b,
                    6,
                    3,
                ),
                monomial(ring, b[1], a, 0),
            ),
        ) == every_second(ring, a, b, 1),
{
    let m12 = monomial(ring, b[13], a, 12);
    let m10 = monomial(ring, b[11], a, 10);
    let m8 = monomial(ring, b[9], a, 8);
    let m6 = monomial(ring, b[7], a, 6);
    let m4 = monomial(ring, b[5], a, 4);
    let m2 = monomial(ring, b[3], a, 2);
    let m0 = monomial(ring, b[1], a, 0);
    lemma_monomial_shape(ring, b[13], a, 12);
    lemma_monomial_shape(ring, b[11], a, 10);
    lemma_monomial_shape(ring, b[9], a, 8);
    lemma_monomial_shape(ring, b[7], a, 6);
    lemma_monomial_shape(ring, b[5], a, 4);
    lemma_monomial_shape(ring, b[3], a, 2);
    lemma_monomial_shape(ring, b[1], a, 0);
    let s1 = ring.add(m12, m10);
    let s2 = ring.add(s1, m8);
    let s3 = ring.add(s2, m6);
    let s4 = ring.add(s3, m4);
    let s5 = ring.add(s4, m2);
    ring.add_cells(m12, m10);
    ring.add_cells(s1, m8);
    ring.add_cells(s2, m6);
    ring.add_cells(s3, m4);
    ring.add_cells(s4, m2);
    ring.mul_distributes(a, s5, m0);
    ring.mul_distributes(a, s4, m2);
    ring.mul_distributes(a, s3, m4);
    ring.mul_distributes(a, s2, m6);
    ring.mul_distributes(a, s1, m8);
    ring.mul_distributes(a, m12, m10);
    assert(power(ring, a, 1) == a) by {
        reveal_with_fuel(power, 2);
        ring.mul_with_identity(a);
    }
    lemma_power_times_monomial(ring, a, 1, b[13], 12);
    lemma_power_times_monomial(ring, a, 1, b[11], 10);
    lemma_power_times_monomial(ring, a, 1, b[9], 8);
    lemma_power_times_monomial(ring, a, 1, b[7], 6);
    lemma_power_times_monomial(ring, a, 1, b[5], 4);
    lemma_power_times_monomial(ring, a, 1, b[3], 2);
    lemma_power_times_monomial(ring, a, 1, b[1], 0);
}

/// Squaring as often as asked for.
proof fn lemma_squared_up<
    D,
    M: Fn(&[D], usize, usize, &[D], usize) -> Result<Vec<D>, OperationError>,
>(ring: Ring<D>, start: Vec<D>, image: Vec<D>, order: usize, count: nat, matmul: M)
    requires
        multiplies_exactly(ring, matmul),
        squared_up(start, image, order, count as int, matmul),
    ensures
        matrix(order as int, order as int, image@) == squared(
            ring,
            matrix(order as int, order as int, start@),
            count,
        ),
    decreases count,
{
    if count > 0 {
        let root = choose|root: Vec<D>|
            squared_up(start, root, order, count - 1, matmul) && #[trigger] multiplies_to(
                matmul,
                root@,
                order,
                order,
                root@,
                order,
                Ok(image),
            );
        lemma_squared_up(ring, start, root, order, (count - 1) as nat, matmul);
        lemma_product(ring, matmul, root@, root@, order, image);
    }
}

/// The quotient `x` of a rational approximant solves `q(-s) x = q(s)`, where `q`
/// is the polynomial of the coefficients and `s` the scaled block.
pub open spec fn is_approximant<D>(
    ring: Ring<D>,
    coefficients: Seq<D>,
    minus_one: D,
    scaled: Matrix<D>,
    x: Matrix<D>,
) -> bool {
    ring.mul(polynomial(ring, alternating(ring, coefficients, minus_one), scaled), x)
        == polynomial(ring, coefficients, scaled)
}

/// The exponential of a block is, with exact arithmetic, the repeated square of a
/// matrix `x` that solves `q(-s) x = q(s)` for the polynomial `q` of all fourteen
/// coefficients at the scaled block `s`.
pub proof fn lemma_exponential_is_rational<
    D,
    A: Fn(D, D) -> D,
    G: Fn(D, D) -> D,
    M: Fn(&[D], usize, usize, &[D], usize) -> Result<Vec<D>, OperationError>,
    S: Fn(&[D], usize, &[D], usize) -> Result<Vec<D>, OperationError>,
>(
    ring: Ring<D>,
    image: Vec<D>,
    source: Seq<D>,
    order: usize,
    squarings: nat,
    scalars: PadeScalars<'_, D>,
    plus: A,
    multiply: G,
    matmul: M,
    solve: S,
)
    requires
        ring.is_ring(),
        adds_in(ring, plus),
        multiplies_in(ring, multiply),
        multiplies_exactly(ring, matmul),
        solves_exactly(ring, solve),
        scalars.zero == ring.zero,
        scalars.coefficients@.len() == 14,
        source.len() == order * order,
        exponentiated(
            Ok(image),
            source,
            order,
            squarings as int,
            scalars,
            plus,
            multiply,
            matmul,
            solve,
        ),
    ensures
        exists|x: Matrix<D>|
            {
                &&& #[trigger] is_approximant(
                    ring,
                    scalars.coefficients@,
                    scalars.minus_one,
                    ring.scale(scalars.scale, matrix(order as int, order as int, source)),
                    x,
                )
                &&& matrix(order as int, order as int, image@) == squared(ring, x, squarings)
            },
{
    let (stages, step) = choose|stages: PadeStages<D>, step: int|
        {
            &&& #[trigger] pade_reached(
                step,
                source,
                order,
                scalars,
                stages,
                plus,
                multiply,
                matmul,
                solve,
            )
            &&& step == 7
            &&& squared_up(stages.quotient, image, order, squarings as int, matmul)
        };
    let n = order as int;
    let b = scalars.coefficients@;
    let block = scaled_block(source, scalars.scale, multiply);
    let a = matrix(n, n, block);
    let given = matrix(n, n, source);
    ring.scale_cells(scalars.scale, given);
    assert forall|i: int, j: int| 0 <= i < n && 0 <= j < n implies #[trigger] a.at(i, j)
        == ring.scale(scalars.scale, given).at(i, j) by {
        lemma_place(n, n, i, j);
        ring.product_commutes(scalars.scale, given.at(i, j));
    }
    lemma_same_cells(a, ring.scale(scalars.scale, given));
    let x = matrix(n, n, stages.quotient@);
    lemma_squared_up(ring, stages.quotient, image, order, squarings, matmul);
    lemma_quotient(ring, source, order, scalars, stages, plus, multiply, matmul, solve);
    assert(is_approximant(ring, b, scalars.minus_one, a, x));
}

/// What was asked of the solver are the two sides of the quotient.
proof fn lemma_quotient<
    D,
    A: Fn(D, D) -> D,
    G: Fn(D, D) -> D,
    M: Fn(&[D], usize, usize, &[D], usize) -> Result<Vec<D>, OperationError>,
    S: Fn(&[D], usize, &[D], usize) -> Result<Vec<D>, OperationError>,
>(
    ring: Ring<D>,
    source: Seq<D>,
    order: usize,
    scalars: PadeScalars<'_, D>,
    stages: PadeStages<D>,
    plus: A,
    multiply: G,
    matmul: M,
    solve: S,
)
    requires
        ring.is_ring(),
        adds_in(ring, plus),
        multiplies_in(ring, multiply),
        multiplies_exactly(ring, matmul),
        solves_exactly(ring, solve),
        scalars.zero == ring.zero,
        scalars.coefficients@.len() == 14,
        source.len() == order * order,
        pade_reached(7, source, order, scalars, stages, plus, multiply, matmul, solve),
    ensures
        is_approximant(
            ring,
            scalars.coefficients@,
            scalars.minus_one,
            matrix(order as int, order as int, scaled_block(source, scalars.scale, multiply)),
            matrix(order as int, order as int, stages.quotient@),
        ),
{
    let n = order as int;
    let b = scalars.coefficients@;
    let block = scaled_block(source, scalars.scale, multiply);
    let a = matrix(n, n, block);
    let powers = even_powers(stages);
    let call = |k: int|
        pade_call(
            k,
            source,
            order,
            scalars,
            stages,
            plus,
            multiply,
            matmul,
            solve,
            Ok(pade_answer(k, stages)),
        );
    assert(call(0) && call(1) && call(2) && call(3) && call(4) && call(5) && call(6));
    assert(a.shaped());
    // the powers
    lemma_product(ring, matmul, block, block, order, stages.power2);
    assert(power(ring, a, 1) == a) by {
        reveal_with_fuel(power, 2);
        ring.mul_with_identity(a);
    }
    lemma_powers_multiply(ring, a, 1, 1);
    lemma_product(ring, matmul, stages.power2@, stages.power2@, order, stages.power4);
    lemma_powers_multiply(ring, a, 2, 2);
    lemma_product(ring, matmul, stages.power2@, stages.power4@, order, stages.power6);
    lemma_powers_multiply(ring, a, 2, 4);
    assert(matrix(n, n, stages.power2@) == power(ring, a, 2));
    assert(matrix(n, n, stages.power4@) == power(ring, a, 4));
    assert(matrix(n, n, stages.power6@) == power(ring, a, 6));
    // the odd part
    let inner = high_powers(scalars, powers, order, 9, plus, multiply);
    lemma_high_powers(ring, a, scalars, powers, order, 9, plus, multiply);
    lemma_product(ring, matmul, stages.power6@, inner, order, stages.odd_product);
    lemma_power_times_three(ring, a, b, 6, 9);
    lemma_product_len(ring, matrix(n, n, stages.odd_product@), power(ring, a, 6), matrix(n, n, inner), a);
    lemma_low_powers(
        ring,
        a,
        stages.odd_product@,
        scalars,
        powers,
        order,
        1,
        plus,
        multiply,
    );
    let sum = with_low_powers(stages.odd_product@, scalars, powers, order, 1, plus, multiply);
    lemma_product(ring, matmul, block, sum, order, stages.odd);
    lemma_matrix_times_terms(ring, a, b);
    let odd = matrix(n, n, stages.odd@);
    assert(odd == every_second(ring, a, b, 1));
    // the even part
    let inner = high_powers(scalars, powers, order, 8, plus, multiply);
    lemma_high_powers(ring, a, scalars, powers, order, 8, plus, multiply);
    lemma_product(ring, matmul, stages.power6@, inner, order, stages.even_product);
    lemma_power_times_three(ring, a, b, 6, 8);
    lemma_product_len(ring, matrix(n, n, stages.even_product@), power(ring, a, 6), matrix(n, n, inner), a);
    lemma_low_powers(
        ring,
        a,
        stages.even_product@,
        scalars,
        powers,
        order,
        0,
        plus,
        multiply,
    );
    let low = with_low_powers(stages.even_product@, scalars, powers, order, 0, plus, multiply);
    let even = matrix(n, n, low);
    assert(even == every_second(ring, a, b, 0));
    // the quotient
    lemma_every_second_shape(ring, a, b, 0);
    lemma_every_second_shape(ring, a, b, 1);
    let above = matrix(n, n, numerator(low, stages.odd@, plus));
    let below = matrix(n, n, denominator(low, stages.odd@, scalars.minus_one, plus, multiply));
    ring.add_cells(even, odd);
    ring.scale_cells(scalars.minus_one, odd);
    ring.add_cells(even, ring.scale(scalars.minus_one, odd));
    assert forall|i: int, j: int| 0 <= i < n && 0 <= j < n implies #[trigger] above.at(i, j)
        == ring.add(even, odd).at(i, j) by {
        lemma_place(n, n, i, j);
    }
    lemma_same_cells(above, ring.add(even, odd));
    assert forall|i: int, j: int| 0 <= i < n && 0 <= j < n implies #[trigger] below.at(i, j)
        == ring.add(even, ring.scale(scalars.minus_one, odd)).at(i, j) by {
        lemma_place(n, n, i, j);
        assert(ring.scale(scalars.minus_one, odd).at(i, j) == ring.product(
            scalars.minus_one,
            odd.at(i, j),
        ));
    }
    lemma_same_cells(below, ring.add(even, ring.scale(scalars.minus_one, odd)));
    lemma_quotient_sides(ring, a, b, scalars.minus_one, above, below);
    let (x, y) = choose|x: &[D], y: &[D]|
        x@ == below.cells && y@ == above.cells && #[trigger] call_ensures(
            solve,
            (x, order, y, order),
            Ok::<Vec<D>, OperationError>(stages.quotient),
        );
}

/// A product of square matrices has all its cells.
proof fn lemma_product_len<D>(
    ring: Ring<D>,
    c: Matrix<D>,
    left: Matrix<D>,
    right: Matrix<D>,
    a: Matrix<D>,
)
    requires
        c == ring.mul(left, right),
        left.rows == a.rows,
        right.cols == a.rows,
        0 <= a.rows,
    ensures
        c.cells.len() == a.rows * a.rows,
{
    lemma_tabulated(
        left.rows,
        right.cols,
        |i: int, j: int|
            ring.total(|k: int| ring.product(left.at(i, k), right.at(k, j)), left.cols),
    );
}

} // verus!
