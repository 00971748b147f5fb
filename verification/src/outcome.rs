//! Lists of outcomes that succeed or fail as a whole.

use vstd::prelude::*;

use crate::error::OperationError;

verus! {

/// All values, or the error of the first outcome that has one.
pub open spec fn all_ok<T>(outcomes: Seq<Result<T, OperationError>>) -> Result<
    Seq<T>,
    OperationError,
>
    decreases outcomes.len(),
{
    if outcomes.len() == 0 {
        Ok(Seq::empty())
    } else {
        match all_ok(outcomes.drop_last()) {
            Err(error) => Err(error),
            Ok(values) => match outcomes.last() {
                Err(error) => Err(error),
                Ok(value) => Ok(values.push(value)),
            },
        }
    }
}

/// One more outcome of a longer list.
pub proof fn lemma_all_ok_step<T>(outcomes: Seq<Result<T, OperationError>>, k: int)
    requires
        0 <= k < outcomes.len(),
    ensures
        all_ok(outcomes.take(k + 1)) == match all_ok(outcomes.take(k)) {
            Err(error) => Err::<Seq<T>, OperationError>(error),
            Ok(values) => match outcomes[k] {
                Err(error) => Err(error),
                Ok(value) => Ok(values.push(value)),
            },
        },
{
    assert(outcomes.take(k + 1).drop_last() =~= outcomes.take(k));
    assert(outcomes.take(k + 1).last() == outcomes[k]);
}

/// An error behind a list of successes is the error of the whole list.
pub proof fn lemma_all_ok_fails<T>(outcomes: Seq<Result<T, OperationError>>, k: int)
    requires
        0 <= k < outcomes.len(),
        all_ok(outcomes.take(k)) is Ok,
        outcomes[k] is Err,
    ensures
        all_ok(outcomes) == Err::<Seq<T>, OperationError>(outcomes[k]->Err_0),
{
    lemma_all_ok_step(outcomes, k);
    lemma_all_ok_stops(outcomes, k + 1, outcomes.len() as int);
    assert(outcomes.take(outcomes.len() as int) =~= outcomes);
}

proof fn lemma_all_ok_stops<T>(outcomes: Seq<Result<T, OperationError>>, low: int, high: int)
    requires
        0 <= low <= high <= outcomes.len(),
        all_ok(outcomes.take(low)) is Err,
    ensures
        all_ok(outcomes.take(high)) == all_ok(outcomes.take(low)),
    decreases high - low,
{
    if low < high {
        lemma_all_ok_stops(outcomes, low, high - 1);
        lemma_all_ok_step(outcomes, high - 1);
    }
}

/// A list that succeeds has every outcome's value at the outcome's position.
pub proof fn lemma_all_ok_values<T>(outcomes: Seq<Result<T, OperationError>>)
    requires
        all_ok(outcomes) is Ok,
    ensures
        all_ok(outcomes)->Ok_0.len() == outcomes.len(),
        forall|k: int|
            0 <= k < outcomes.len() ==> #[trigger] outcomes[k] == Ok::<T, OperationError>(
                all_ok(outcomes)->Ok_0[k],
            ),
    decreases outcomes.len(),
{
    if outcomes.len() > 0 {
        let rest = outcomes.drop_last();
        lemma_all_ok_values(rest);
        assert forall|k: int| 0 <= k < outcomes.len() implies #[trigger] outcomes[k] == Ok::<
            T,
            OperationError,
        >(all_ok(outcomes)->Ok_0[k]) by {
            if k < rest.len() {
                assert(outcomes[k] == rest[k]);
            }
        }
    }
}

} // verus!
