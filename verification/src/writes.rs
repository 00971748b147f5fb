//! Ordered element writes: the model in which every copy and scatter of this
//! library states what it leaves behind.

use vstd::prelude::*;

verus! {

/// One element write: a position and the value stored there.
pub type Write<D> = (int, D);

/// `data` with one write carried out; a write outside the buffer has no effect.
pub open spec fn store<D>(data: Seq<D>, write: Write<D>) -> Seq<D> {
    if 0 <= write.0 < data.len() {
        data.update(write.0, write.1)
    } else {
        data
    }
}

/// `data` after the writes were carried out in order, so that the last write
/// to a position is the one that remains.
pub open spec fn apply_writes<D>(data: Seq<D>, writes: Seq<Write<D>>) -> Seq<D>
    decreases writes.len(),
{
    if writes.len() == 0 {
        data
    } else {
        store(apply_writes(data, writes.drop_last()), writes.last())
    }
}

/// Every write stays inside a buffer of `len` elements.
pub open spec fn writes_fit<D>(writes: Seq<Write<D>>, len: int) -> bool {
    forall|k: int| 0 <= k < writes.len() ==> 0 <= (#[trigger] writes[k]).0 < len
}

/// No two writes go to the same position.
pub open spec fn writes_disjoint<D>(writes: Seq<Write<D>>) -> bool {
    forall|j: int, k: int|
        0 <= j < k < writes.len() ==> (#[trigger] writes[j]).0 != (#[trigger] writes[k]).0
}

/// Writing never changes the length of the buffer.
pub proof fn lemma_writes_len<D>(data: Seq<D>, writes: Seq<Write<D>>)
    ensures
        apply_writes(data, writes).len() == data.len(),
    decreases writes.len(),
{
    if writes.len() > 0 {
        lemma_writes_len(data, writes.drop_last());
    }
}

/// Carrying out one more write of a longer list.
pub proof fn lemma_writes_step<D>(data: Seq<D>, writes: Seq<Write<D>>, k: int)
    requires
        0 <= k < writes.len(),
    ensures
        apply_writes(data, writes.take(k + 1)) == store(
            apply_writes(data, writes.take(k)),
            writes[k],
        ),
{
    assert(writes.take(k + 1).drop_last() =~= writes.take(k));
    assert(writes.take(k + 1).last() == writes[k]);
}

/// Two lists of writes carried out one after the other are one list.
pub proof fn lemma_writes_concat<D>(data: Seq<D>, first: Seq<Write<D>>, second: Seq<Write<D>>)
    ensures
        apply_writes(apply_writes(data, first), second) == apply_writes(data, first + second),
    decreases second.len(),
{
    if second.len() == 0 {
        assert(first + second =~= first);
    } else {
        lemma_writes_concat(data, first, second.drop_last());
        assert((first + second).drop_last() =~= first + second.drop_last());
        assert((first + second).last() == second.last());
    }
}

/// A position that no write names keeps its value.
pub proof fn lemma_writes_untouched<D>(data: Seq<D>, writes: Seq<Write<D>>, position: int)
    requires
        0 <= position < data.len(),
        forall|k: int| 0 <= k < writes.len() ==> (#[trigger] writes[k]).0 != position,
    ensures
        apply_writes(data, writes)[position] == data[position],
    decreases writes.len(),
{
    if writes.len() > 0 {
        let rest = writes.drop_last();
        lemma_writes_len(data, rest);
        assert forall|k: int| 0 <= k < rest.len() implies (#[trigger] rest[k]).0 != position by {
            assert(rest[k] == writes[k]);
        }
        lemma_writes_untouched(data, rest, position);
        assert(writes.last() == writes[writes.len() - 1]);
    }
}

/// The last write to a position is the one that is read back.
pub proof fn lemma_writes_last_wins<D>(data: Seq<D>, writes: Seq<Write<D>>, k: int)
    requires
        0 <= k < writes.len(),
        0 <= writes[k].0 < data.len(),
        forall|j: int| k < j < writes.len() ==> (#[trigger] writes[j]).0 != writes[k].0,
    ensures
        apply_writes(data, writes)[writes[k].0] == writes[k].1,
    decreases writes.len(),
{
    let rest = writes.drop_last();
    lemma_writes_len(data, rest);
    if k < writes.len() - 1 {
        assert(rest[k] == writes[k]);
        assert forall|j: int| k < j < rest.len() implies (#[trigger] rest[j]).0 != rest[k].0 by {
            assert(rest[j] == writes[j]);
        }
        lemma_writes_last_wins(data, rest, k);
        assert(writes[writes.len() - 1].0 != writes[k].0);
        assert(apply_writes(data, rest)[writes[k].0] == writes[k].1);
    } else {
        assert(writes.last() == writes[k]);
    }
}

/// Disjoint writes are all read back, whatever their order.
pub proof fn lemma_disjoint_writes_read_back<D>(data: Seq<D>, writes: Seq<Write<D>>)
    requires
        writes_fit(writes, data.len() as int),
        writes_disjoint(writes),
    ensures
        forall|k: int|
            0 <= k < writes.len() ==> apply_writes(data, writes)[(#[trigger] writes[k]).0]
                == writes[k].1,
{
    assert forall|k: int| 0 <= k < writes.len() implies apply_writes(data, writes)[(
    #[trigger] writes[k]).0] == writes[k].1 by {
        lemma_writes_last_wins(data, writes, k);
    }
}

} // verus!
