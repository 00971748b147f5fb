//! The exponential of a square block by scaling and squaring.

use vstd::prelude::*;

use crate::dense_calls::{is_product, is_solver, multiplies_to, solves_to};
use crate::error::OperationError;
use crate::layout::filled;
use crate::matrix_functions::{
    add_terms, combine, lemma_operation, on_diagonal, weighted_sum, with_terms, Term,
};
use crate::spectrum::{combined, is_operation};

verus! {

/// The scalars of a rational approximant of degree thirteen.
#[derive(Clone, Copy, Debug)]
pub struct PadeScalars<'a, D> {
    /// The coefficients of the numerator, from the constant term up.
    pub coefficients: &'a [D],
    /// What the block is multiplied with before it is exponentiated.
    pub scale: D,
    pub minus_one: D,
    pub zero: D,
}

/// What the backend answered on the way to an approximant.
pub struct PadeStages<D> {
    pub power2: Vec<D>,
    pub power4: Vec<D>,
    pub power6: Vec<D>,
    pub odd_product: Vec<D>,
    pub odd: Vec<D>,
    pub even_product: Vec<D>,
    pub quotient: Vec<D>,
}

/// The even powers of a block.
pub struct EvenPowers<D> {
    pub second: Seq<D>,
    pub fourth: Seq<D>,
    pub sixth: Seq<D>,
}

/// The powers among the answers.
pub open spec fn even_powers<D>(stages: PadeStages<D>) -> EvenPowers<D> {
    EvenPowers {
        second: stages.power2@,
        fourth: stages.power4@,
        sixth: stages.power6@,
    }
}

/// The block multiplied elementwise with a scalar.
pub open spec fn scaled_block<D, G: Fn(D, D) -> D>(
    block: Seq<D>,
    scale: D,
    multiply: G,
) -> Seq<D> {
    Seq::new(block.len(), |k: int| combined(multiply, block[k], scale))
}

/// `start` plus the sixth, fourth and second power at one place, each with its
/// coefficient, added in this order.
pub open spec fn power_sum<D, A: Fn(D, D) -> D, G: Fn(D, D) -> D>(
    start: D,
    sixth: D,
    fourth: D,
    second: D,
    powers: EvenPowers<D>,
    place: int,
    plus: A,
    multiply: G,
) -> D {
    combined(
        plus,
        combined(
            plus,
            combined(plus, start, combined(multiply, sixth, powers.sixth[place])),
            combined(multiply, fourth, powers.fourth[place]),
        ),
        combined(multiply, second, powers.second[place]),
    )
}

/// The block of high powers that the sixth power is multiplied with; `low` is
/// the index of the coefficient of the second power in it.
pub open spec fn high_powers<D, A: Fn(D, D) -> D, G: Fn(D, D) -> D>(
    scalars: PadeScalars<'_, D>,
    powers: EvenPowers<D>,
    order: usize,
    low: int,
    plus: A,
    multiply: G,
) -> Seq<D> {
    let b = scalars.coefficients@;
    Seq::new(
        (order * order) as nat,
        |place: int|
            power_sum(
                scalars.zero,
                b[low + 4],
                b[low + 2],
                b[low],
                powers,
                place,
                plus,
                multiply,
            ),
    )
}

/// A product with the low powers and the identity added; `low` is the index of
/// the coefficient of the identity.
pub open spec fn with_low_powers<D, A: Fn(D, D) -> D, G: Fn(D, D) -> D>(
    product: Seq<D>,
    scalars: PadeScalars<'_, D>,
    powers: EvenPowers<D>,
    order: usize,
    low: int,
    plus: A,
    multiply: G,
) -> Seq<D> {
    let b = scalars.coefficients@;
    Seq::new(
        product.len(),
        |place: int|
            {
                let sum = power_sum(
                    product[place],
                    b[low + 6],
                    b[low + 4],
                    b[low + 2],
                    powers,
                    place,
                    plus,
                    multiply,
                );
                if on_diagonal(place, order as int) {
                    combined(plus, sum, b[low])
                } else {
                    sum
                }
            },
    )
}

/// The even part plus the odd part.
pub open spec fn numerator<D, A: Fn(D, D) -> D>(even: Seq<D>, odd: Seq<D>, plus: A) -> Seq<D> {
    Seq::new(even.len(), |k: int| combined(plus, even[k], odd[k]))
}

/// The even part plus the negated odd part.
pub open spec fn denominator<D, A: Fn(D, D) -> D, G: Fn(D, D) -> D>(
    even: Seq<D>,
    odd: Seq<D>,
    minus_one: D,
    plus: A,
    multiply: G,
) -> Seq<D> {
    Seq::new(
        even.len(),
        |k: int| combined(plus, even[k], combined(multiply, minus_one, odd[k])),
    )
}

/// The calls of an approximant, in order: three powers, the odd part in two
/// products, the product of the even part, and the quotient.
pub open spec fn pade_call<
    D,
    A: Fn(D, D) -> D,
    G: Fn(D, D) -> D,
    M: Fn(&[D], usize, usize, &[D], usize) -> Result<Vec<D>, OperationError>,
    S: Fn(&[D], usize, &[D], usize) -> Result<Vec<D>, OperationError>,
>(
    step: int,
    source: Seq<D>,
    order: usize,
    scalars: PadeScalars<'_, D>,
    stages: PadeStages<D>,
    plus: A,
    multiply: G,
    matmul: M,
    solve: S,
    answer: Result<Vec<D>, OperationError>,
) -> bool {
    let n = order;
    let powers = even_powers(stages);
    let scaled = scaled_block(source, scalars.scale, multiply);
    let even = with_low_powers(
        stages.even_product@,
        scalars,
        powers,
        order,
        0,
        plus,
        multiply,
    );
    if step == 0 {
        multiplies_to(matmul, scaled, n, n, scaled, n, answer)
    } else if step == 1 {
        multiplies_to(matmul, stages.power2@, n, n, stages.power2@, n, answer)
    } else if step == 2 {
        multiplies_to(matmul, stages.power2@, n, n, stages.power4@, n, answer)
    } else if step == 3 {
        let inner = high_powers(scalars, powers, order, 9, plus, multiply);
        multiplies_to(matmul, stages.power6@, n, n, inner, n, answer)
    } else if step == 4 {
        let sum = with_low_powers(
            stages.odd_product@,
            scalars,
            powers,
            order,
            1,
            plus,
            multiply,
        );
        multiplies_to(matmul, scaled, n, n, sum, n, answer)
    } else if step == 5 {
        let inner = high_powers(scalars, powers, order, 8, plus, multiply);
        multiplies_to(matmul, stages.power6@, n, n, inner, n, answer)
    } else {
        solves_to(
            solve,
            denominator(even, stages.odd@, scalars.minus_one, plus, multiply),
            n,
            numerator(even, stages.odd@, plus),
            n,
            answer,
        )
    }
}

/// What the call of a step answered.
pub open spec fn pade_answer<D>(step: int, stages: PadeStages<D>) -> Vec<D> {
    if step == 0 {
        stages.power2
    } else if step == 1 {
        stages.power4
    } else if step == 2 {
        stages.power6
    } else if step == 3 {
        stages.odd_product
    } else if step == 4 {
        stages.odd
    } else if step == 5 {
        stages.even_product
    } else {
        stages.quotient
    }
}

/// The calls before this step succeeded with these answers.
pub open spec fn pade_reached<
    D,
    A: Fn(D, D) -> D,
    G: Fn(D, D) -> D,
    M: Fn(&[D], usize, usize, &[D], usize) -> Result<Vec<D>, OperationError>,
    S: Fn(&[D], usize, &[D], usize) -> Result<Vec<D>, OperationError>,
>(
    step: int,
    source: Seq<D>,
    order: usize,
    scalars: PadeScalars<'_, D>,
    stages: PadeStages<D>,
    plus: A,
    multiply: G,
    matmul: M,
    solve: S,
) -> bool {
    forall|k: int|
        0 <= k < step ==> #[trigger] pade_call(
            k,
            source,
            order,
            scalars,
            stages,
            plus,
            multiply,
            matmul,
            solve,
            Ok(pade_answer(k, stages)),
        )
}

/// The image comes from the start by this many squarings.
pub open spec fn squared_up<
    D,
    M: Fn(&[D], usize, usize, &[D], usize) -> Result<Vec<D>, OperationError>,
>(start: Vec<D>, image: Vec<D>, order: usize, count: int, matmul: M) -> bool
    decreases count,
{
    if count <= 0 {
        image == start
    } else {
        exists|root: Vec<D>|
            squared_up(start, root, order, count - 1, matmul) && #[trigger] multiplies_to(
                matmul,
                root@,
                order,
                order,
                root@,
                order,
                Ok(image),
            )
    }
}

/// The exponential of a block, or the failure of the first call that failed.
pub open spec fn exponentiated<
    D,
    A: Fn(D, D) -> D,
    G: Fn(D, D) -> D,
    M: Fn(&[D], usize, usize, &[D], usize) -> Result<Vec<D>, OperationError>,
    S: Fn(&[D], usize, &[D], usize) -> Result<Vec<D>, OperationError>,
>(
    result: Result<Vec<D>, OperationError>,
    source: Seq<D>,
    order: usize,
    squarings: int,
    scalars: PadeScalars<'_, D>,
    plus: A,
    multiply: G,
    matmul: M,
    solve: S,
) -> bool {
    exists|stages: PadeStages<D>, step: int|
        {
            &&& #[trigger] pade_reached(
                step,
                source,
                order,
                scalars,
                stages,
                plus,
                multiply,
                matmul,
                solve,
            )
            &&& 0 <= step <= 7
            &&& match result {
                Ok(image) => step == 7 && squared_up(
                    stages.quotient,
                    image,
                    order,
                    squarings,
                    matmul,
                ),
                Err(_) => if step < 7 {
                    pade_call(
                        step,
                        source,
                        order,
                        scalars,
                        stages,
                        plus,
                        multiply,
                        matmul,
                        solve,
                        result,
                    )
                } else {
                    exists|root: Vec<D>, count: int|
                        {
                            &&& #[trigger] squared_up(
                                stages.quotient,
                                root,
                                order,
                                count,
                                matmul,
                            )
                            &&& 0 <= count < squarings
                            &&& multiplies_to(
                                matmul,
                                root@,
                                order,
                                order,
                                root@,
                                order,
                                result,
                            )
                        }
                },
            }
        }
}

/// Three terms add up as their powers do.
proof fn lemma_power_sum<'a, D, A: Fn(D, D) -> D, G: Fn(D, D) -> D>(
    start: D,
    terms: Seq<Term<'a, D>>,
    powers: EvenPowers<D>,
    place: int,
    plus: A,
    multiply: G,
)
    requires
        terms.len() == 3,
        terms[0].matrix@ == powers.sixth,
        terms[1].matrix@ == powers.fourth,
        terms[2].matrix@ == powers.second,
    ensures
        weighted_sum(start, terms, place, 3, plus, multiply) == power_sum(
            start,
            terms[0].coefficient,
            terms[1].coefficient,
            terms[2].coefficient,
            powers,
            place,
            plus,
            multiply,
        ),
{
    reveal_with_fuel(weighted_sum, 4);
}

/// Multiplies a block elementwise with a scalar.
fn scale_block<D: Copy, G: Fn(D, D) -> D>(source: &[D], scale: D, multiply: &G) -> (scaled: Vec<D>)
    requires
        is_operation(multiply),
    ensures
        scaled@ == scaled_block(source@, scale, multiply),
{
    let mut scaled: Vec<D> = Vec::with_capacity(source.len());
    let mut k: usize = 0;
    while k < source.len()
        invariant
            k <= source@.len(),
            is_operation(multiply),
            scaled@ == scaled_block(source@, scale, multiply).take(k as int),
        decreases source.len() - k,
    {
        let value: D = multiply(source[k], scale);
        proof {
            lemma_operation(multiply, source@[k as int], scale, value);
        }
        scaled.push(value);
        assert(scaled@ =~= scaled_block(source@, scale, multiply).take(k + 1));
        k += 1;
    }
    assert(scaled@ =~= scaled_block(source@, scale, multiply));
    scaled
}

/// The high powers with their coefficients.
fn sum_high_powers<D: Copy, A: Fn(D, D) -> D, G: Fn(D, D) -> D>(
    scalars: PadeScalars<'_, D>,
    second: &Vec<D>,
    fourth: &Vec<D>,
    sixth: &Vec<D>,
    order: usize,
    low: usize,
    plus: &A,
    multiply: &G,
) -> (sum: Vec<D>)
    requires
        is_operation(plus),
        is_operation(multiply),
        low + 4 < scalars.coefficients@.len(),
        second@.len() == order * order,
        fourth@.len() == order * order,
        sixth@.len() == order * order,
    ensures
        sum@ == high_powers(
            scalars,
            (EvenPowers { second: second@, fourth: fourth@, sixth: sixth@ }),
            order,
            low as int,
            plus,
            multiply,
        ),
{
    let ghost powers = EvenPowers { second: second@, fourth: fourth@, sixth: sixth@ };
    let b = scalars.coefficients;
    let elements: usize = second.len();
    let mut sum: Vec<D> = filled(scalars.zero, elements);
    let terms: [Term<'_, D>; 3] = [
        Term { coefficient: b[low + 4], matrix: sixth.as_slice() },
        Term { coefficient: b[low + 2], matrix: fourth.as_slice() },
        Term { coefficient: b[low], matrix: second.as_slice() },
    ];
    combine(sum.as_mut_slice(), &terms, order, scalars.zero, plus, multiply);
    proof {
        assert forall|place: int| 0 <= place < elements implies #[trigger] sum@[place]
            == high_powers(scalars, powers, order, low as int, plus, multiply)[place] by {
            lemma_power_sum(scalars.zero, terms@, powers, place, plus, multiply);
        }
        assert(sum@ =~= high_powers(scalars, powers, order, low as int, plus, multiply));
    }
    sum
}

/// Adds the low powers and the identity to a product.
fn add_low_powers<D: Copy, A: Fn(D, D) -> D, G: Fn(D, D) -> D>(
    product: Vec<D>,
    scalars: PadeScalars<'_, D>,
    second: &Vec<D>,
    fourth: &Vec<D>,
    sixth: &Vec<D>,
    order: usize,
    low: usize,
    plus: &A,
    multiply: &G,
) -> (sum: Vec<D>)
    requires
        is_operation(plus),
        is_operation(multiply),
        low + 6 < scalars.coefficients@.len(),
        product@.len() == order * order,
        second@.len() == order * order,
        fourth@.len() == order * order,
        sixth@.len() == order * order,
    ensures
        sum@ == with_low_powers(
            product@,
            scalars,
            (EvenPowers { second: second@, fourth: fourth@, sixth: sixth@ }),
            order,
            low as int,
            plus,
            multiply,
        ),
{
    let ghost powers = EvenPowers { second: second@, fourth: fourth@, sixth: sixth@ };
    let ghost before = product@;
    let b = scalars.coefficients;
    let mut sum: Vec<D> = product;
    let terms: [Term<'_, D>; 3] = [
        Term { coefficient: b[low + 6], matrix: sixth.as_slice() },
        Term { coefficient: b[low + 4], matrix: fourth.as_slice() },
        Term { coefficient: b[low + 2], matrix: second.as_slice() },
    ];
    add_terms(sum.as_mut_slice(), &terms, b[low], order, plus, multiply);
    proof {
        let expected = with_low_powers(
            before,
            scalars,
            powers,
            order,
            low as int,
            plus,
            multiply,
        );
        assert forall|place: int| 0 <= place < before.len() implies #[trigger] sum@[place]
            == expected[place] by {
            lemma_power_sum(before[place], terms@, powers, place, plus, multiply);
            assert(sum@[place] == with_terms(
                before[place],
                terms@,
                b@[low as int],
                place,
                order as int,
                plus,
                multiply,
            ));
        }
        assert(sum@ =~= expected);
    }
    sum
}

/// The two sides of the quotient.
fn quotient_sides<D: Copy, A: Fn(D, D) -> D, G: Fn(D, D) -> D>(
    even: &Vec<D>,
    odd: &Vec<D>,
    minus_one: D,
    plus: &A,
    multiply: &G,
) -> (sides: (Vec<D>, Vec<D>))
    requires
        is_operation(plus),
        is_operation(multiply),
        even@.len() == odd@.len(),
    ensures
        sides.0@ == numerator(even@, odd@, plus),
        sides.1@ == denominator(even@, odd@, minus_one, plus, multiply),
{
    let mut above: Vec<D> = Vec::with_capacity(even.len());
    let mut below: Vec<D> = Vec::with_capacity(even.len());
    let mut k: usize = 0;
    while k < even.len()
        invariant
            k <= even@.len() == odd@.len(),
            is_operation(plus),
            is_operation(multiply),
            above@ == numerator(even@, odd@, plus).take(k as int),
            below@ == denominator(even@, odd@, minus_one, plus, multiply).take(k as int),
        decreases even.len() - k,
    {
        let sum: D = plus(even[k], odd[k]);
        let negated: D = multiply(minus_one, odd[k]);
        let difference: D = plus(even[k], negated);
        proof {
            lemma_operation(plus, even@[k as int], odd@[k as int], sum);
            lemma_operation(multiply, minus_one, odd@[k as int], negated);
            lemma_operation(plus, even@[k as int], negated, difference);
        }
        above.push(sum);
        below.push(difference);
        proof {
            assert(above@ =~= numerator(even@, odd@, plus).take(k + 1));
            assert(below@ =~= denominator(even@, odd@, minus_one, plus, multiply).take(k + 1));
        }
        k += 1;
    }
    assert(above@ =~= numerator(even@, odd@, plus));
    assert(below@ =~= denominator(even@, odd@, minus_one, plus, multiply));
    (above, below)
}

/// A call depends on the answers before it alone.
proof fn lemma_call_depends<
    D,
    A: Fn(D, D) -> D,
    G: Fn(D, D) -> D,
    M: Fn(&[D], usize, usize, &[D], usize) -> Result<Vec<D>, OperationError>,
    S: Fn(&[D], usize, &[D], usize) -> Result<Vec<D>, OperationError>,
>(
    step: int,
    source: Seq<D>,
    order: usize,
    scalars: PadeScalars<'_, D>,
    a: PadeStages<D>,
    b: PadeStages<D>,
    plus: A,
    multiply: G,
    matmul: M,
    solve: S,
    answer: Result<Vec<D>, OperationError>,
)
    requires
        0 <= step <= 6,
        forall|k: int| 0 <= k < step ==> #[trigger] pade_answer(k, a) == pade_answer(k, b),
        pade_call(step, source, order, scalars, a, plus, multiply, matmul, solve, answer),
    ensures
        pade_call(step, source, order, scalars, b, plus, multiply, matmul, solve, answer),
{
    assert(step > 0 ==> pade_answer(0, a) == pade_answer(0, b));
    assert(step > 1 ==> pade_answer(1, a) == pade_answer(1, b));
    assert(step > 2 ==> pade_answer(2, a) == pade_answer(2, b));
    assert(step > 3 ==> pade_answer(3, a) == pade_answer(3, b));
    assert(step > 4 ==> pade_answer(4, a) == pade_answer(4, b));
    assert(step > 5 ==> pade_answer(5, a) == pade_answer(5, b));
}

/// One more answer leads one step further.
proof fn lemma_next_step<
    D,
    A: Fn(D, D) -> D,
    G: Fn(D, D) -> D,
    M: Fn(&[D], usize, usize, &[D], usize) -> Result<Vec<D>, OperationError>,
    S: Fn(&[D], usize, &[D], usize) -> Result<Vec<D>, OperationError>,
>(
    step: int,
    source: Seq<D>,
    order: usize,
    scalars: PadeScalars<'_, D>,
    a: PadeStages<D>,
    b: PadeStages<D>,
    plus: A,
    multiply: G,
    matmul: M,
    solve: S,
)
    requires
        0 <= step <= 6,
        forall|k: int| 0 <= k < step ==> #[trigger] pade_answer(k, a) == pade_answer(k, b),
        pade_reached(step, source, order, scalars, a, plus, multiply, matmul, solve),
        pade_call(
            step,
            source,
            order,
            scalars,
            a,
            plus,
            multiply,
            matmul,
            solve,
            Ok(pade_answer(step, b)),
        ),
    ensures
        pade_reached(step + 1, source, order, scalars, b, plus, multiply, matmul, solve),
{
    assert forall|k: int| 0 <= k < step + 1 implies #[trigger] pade_call(
        k,
        source,
        order,
        scalars,
        b,
        plus,
        multiply,
        matmul,
        solve,
        Ok(pade_answer(k, b)),
    ) by {
        if k < step {
            assert(pade_call(
                k,
                source,
                order,
                scalars,
                a,
                plus,
                multiply,
                matmul,
                solve,
                Ok(pade_answer(k, a)),
            ));
        }
        lemma_call_depends(
            k,
            source,
            order,
            scalars,
            a,
            b,
            plus,
            multiply,
            matmul,
            solve,
            Ok(pade_answer(k, b)),
        );
    }
}

/// Asks the backend for the product of two square blocks.
fn multiply_blocks<
    D,
    M: Fn(&[D], usize, usize, &[D], usize) -> Result<Vec<D>, OperationError>,
>(left: &Vec<D>, right: &Vec<D>, order: usize, matmul: &M) -> (answer: Result<
    Vec<D>,
    OperationError,
>)
    requires
        is_product(matmul),
        left@.len() == order * order,
        right@.len() == order * order,
    ensures
        multiplies_to(matmul, left@, order, order, right@, order, answer),
        answer is Ok ==> answer->Ok_0@.len() == order * order,
{
    let (x, y) = (left.as_slice(), right.as_slice());
    let answer = matmul(x, order, order, y, order);
    proof {
        assert(call_ensures(matmul, (x, order, order, y, order), answer));
        if answer is Ok {
            assert(call_ensures(
                matmul,
                (x, order, order, y, order),
                Ok::<Vec<D>, OperationError>(answer->Ok_0),
            ));
        }
    }
    answer
}

/// The exponential of an `order x order` block: the block is scaled, its
/// rational approximant of degree thirteen is formed, and the quotient is
/// squared as often as the scale asks for.
pub fn exp_pade13_sector<
    D: Copy,
    A: Fn(D, D) -> D,
    G: Fn(D, D) -> D,
    M: Fn(&[D], usize, usize, &[D], usize) -> Result<Vec<D>, OperationError>,
    S: Fn(&[D], usize, &[D], usize) -> Result<Vec<D>, OperationError>,
>(
    source: &[D],
    order: usize,
    squarings: u32,
    scalars: PadeScalars<'_, D>,
    plus: &A,
    multiply: &G,
    matmul: &M,
    solve: &S,
) -> (result: Result<Vec<D>, OperationError>)
    requires
        source@.len() == order * order,
        scalars.coefficients@.len() == 14,
        is_operation(plus),
        is_operation(multiply),
        is_product(matmul),
        is_solver(solve),
    ensures
        exponentiated(
            result,
            source@,
            order,
            squarings as int,
            scalars,
            plus,
            multiply,
            matmul,
            solve,
        ),
        result is Ok ==> result->Ok_0@.len() == order * order,
{
    let scaled = scale_block(source, scalars.scale, multiply);
    let none: Vec<D> = Vec::new();
    let ghost mut stages: PadeStages<D> = PadeStages {
        power2: none,
        power4: none,
        power6: none,
        odd_product: none,
        odd: none,
        even_product: none,
        quotient: none,
    };
    assert(pade_reached(
        0,
        source@,
        order,
        scalars,
        stages,
        plus,
        multiply,
        matmul,
        solve,
    ));
    let power2 = match multiply_blocks(&scaled, &scaled, order, matmul) {
        Ok(product) => product,
        Err(error) => {
            assert(pade_reached(
                0,
                source@,
                order,
                scalars,
                stages,
                plus,
                multiply,
                matmul,
                solve,
            ));
            return Err(error);
        },
    };
    proof {
        let next = PadeStages {
            power2,
            power4: stages.power4,
            power6: stages.power6,
            odd_product: stages.odd_product,
            odd: stages.odd,
            even_product: stages.even_product,
            quotient: stages.quotient,
        };
        lemma_next_step(
            0,
            source@,
            order,
            scalars,
            stages,
            next,
            plus,
            multiply,
            matmul,
            solve,
        );
        stages = next;
    }
    let power4 = match multiply_blocks(&power2, &power2, order, matmul) {
        Ok(product) => product,
        Err(error) => {
            assert(pade_reached(
                1,
                source@,
                order,
                scalars,
                stages,
                plus,
                multiply,
                matmul,
                solve,
            ));
            return Err(error);
        },
    };
    proof {
        let next = PadeStages {
            power2: stages.power2,
            power4,
            power6: stages.power6,
            odd_product: stages.odd_product,
            odd: stages.odd,
            even_product: stages.even_product,
            quotient: stages.quotient,
        };
        lemma_next_step(
            1,
            source@,
            order,
            scalars,
            stages,
            next,
            plus,
            multiply,
            matmul,
            solve,
        );
        stages = next;
    }
    let power6 = match multiply_blocks(&power2, &power4, order, matmul) {
        Ok(product) => product,
        Err(error) => {
            assert(pade_reached(
                2,
                source@,
                order,
                scalars,
                stages,
                plus,
                multiply,
                matmul,
                solve,
            ));
            return Err(error);
        },
    };
    proof {
        let next = PadeStages {
            power2: stages.power2,
            power4: stages.power4,
            power6,
            odd_product: stages.odd_product,
            odd: stages.odd,
            even_product: stages.even_product,
            quotient: stages.quotient,
        };
        lemma_next_step(
            2,
            source@,
            order,
            scalars,
            stages,
            next,
            plus,
            multiply,
            matmul,
            solve,
        );
        stages = next;
    }
    let inner = sum_high_powers(
        scalars,
        &power2,
        &power4,
        &power6,
        order,
        9,
        plus,
        multiply,
    );
    let odd_product = match multiply_blocks(&power6, &inner, order, matmul) {
        Ok(product) => product,
        Err(error) => {
            assert(pade_reached(
                3,
                source@,
                order,
                scalars,
                stages,
                plus,
                multiply,
                matmul,
                solve,
            ));
            return Err(error);
        },
    };
    proof {
        let next = PadeStages {
            power2: stages.power2,
            power4: stages.power4,
            power6: stages.power6,
            odd_product,
            odd: stages.odd,
            even_product: stages.even_product,
            quotient: stages.quotient,
        };
        lemma_next_step(
            3,
            source@,
            order,
            scalars,
            stages,
            next,
            plus,
            multiply,
            matmul,
            solve,
        );
        stages = next;
    }
    let accumulator = add_low_powers(
        odd_product,
        scalars,
        &power2,
        &power4,
        &power6,
        order,
        1,
        plus,
        multiply,
    );
    let odd = match multiply_blocks(&scaled, &accumulator, order, matmul) {
        Ok(product) => product,
        Err(error) => {
            assert(pade_reached(
                4,
                source@,
                order,
                scalars,
                stages,
                plus,
                multiply,
                matmul,
                solve,
            ));
            return Err(error);
        },
    };
    proof {
        let next = PadeStages {
            power2: stages.power2,
            power4: stages.power4,
            power6: stages.power6,
            odd_product: stages.odd_product,
            odd,
            even_product: stages.even_product,
            quotient: stages.quotient,
        };
        lemma_next_step(
            4,
            source@,
            order,
            scalars,
            stages,
            next,
            plus,
            multiply,
            matmul,
            solve,
        );
        stages = next;
    }
    let inner = sum_high_powers(
        scalars,
        &power2,
        &power4,
        &power6,
        order,
        8,
        plus,
        multiply,
    );
    let even_product = match multiply_blocks(&power6, &inner, order, matmul) {
        Ok(product) => product,
        Err(error) => {
            assert(pade_reached(
                5,
                source@,
                order,
                scalars,
                stages,
                plus,
                multiply,
                matmul,
                solve,
            ));
            return Err(error);
        },
    };
    proof {
        let next = PadeStages {
            power2: stages.power2,
            power4: stages.power4,
            power6: stages.power6,
            odd_product: stages.odd_product,
            odd: stages.odd,
            even_product,
            quotient: stages.quotient,
        };
        lemma_next_step(
            5,
            source@,
            order,
            scalars,
            stages,
            next,
            plus,
            multiply,
            matmul,
            solve,
        );
        stages = next;
    }
    let even = add_low_powers(
        even_product,
        scalars,
        &power2,
        &power4,
        &power6,
        order,
        0,
        plus,
        multiply,
    );
    let (above, below) = quotient_sides(&even, &odd, scalars.minus_one, plus, multiply);
    let (x, y) = (below.as_slice(), above.as_slice());
    let answer = solve(x, order, y, order);
    assert(call_ensures(solve, (x, order, y, order), answer));
    assert(solves_to(solve, below@, order, above@, order, answer));
    let quotient = match answer {
        Ok(quotient) => quotient,
        Err(error) => {
            assert(pade_reached(
                6,
                source@,
                order,
                scalars,
                stages,
                plus,
                multiply,
                matmul,
                solve,
            ));
            return Err(error);
        },
    };
    proof {
        let next = PadeStages {
            power2: stages.power2,
            power4: stages.power4,
            power6: stages.power6,
            odd_product: stages.odd_product,
            odd: stages.odd,
            even_product: stages.even_product,
            quotient,
        };
        lemma_next_step(
            6,
            source@,
            order,
            scalars,
            stages,
            next,
            plus,
            multiply,
            matmul,
            solve,
        );
        stages = next;
        assert(call_ensures(
            solve,
            (x, order, y, order),
            Ok::<Vec<D>, OperationError>(quotient),
        ));
    }
    let mut image = quotient;
    let mut count: u32 = 0;
    while count < squarings
        invariant
            count <= squarings,
            is_product(matmul),
            image@.len() == order * order,
            squared_up(stages.quotient, image, order, count as int, matmul),
            pade_reached(
                7,
                source@,
                order,
                scalars,
                stages,
                plus,
                multiply,
                matmul,
                solve,
            ),
        decreases squarings - count,
    {
        let square = match multiply_blocks(&image, &image, order, matmul) {
            Ok(square) => square,
            Err(error) => {
                assert(pade_reached(
                    7,
                    source@,
                    order,
                    scalars,
                    stages,
                    plus,
                    multiply,
                    matmul,
                    solve,
                ));
                return Err(error);
            },
        };
        let ghost root = image;
        image = square;
        count += 1;
        assert(multiplies_to(matmul, root@, order, order, root@, order, Ok(image)));
    }
    assert(pade_reached(
        7,
        source@,
        order,
        scalars,
        stages,
        plus,
        multiply,
        matmul,
        solve,
    ));
    Ok(image)
}

} // verus!
