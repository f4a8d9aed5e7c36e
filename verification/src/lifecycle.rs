//! The life of a batch, from creation to drop, leaves no trace in the totals.

use vstd::prelude::*;
use crate::aggregate::component;
use crate::aggregate::exact_total;
use crate::aggregate::running_total;
use crate::event::Key;
use crate::event::LoggedEvent;
use crate::event::RawEvent;
use crate::event::key_of;
use crate::translate::UpdateView;
use crate::translate::updates_of;
use crate::translate::lemma_updates_of_concat;
use crate::variant::DifferentialLog;
use crate::wrap::lemma_wrap64_congruent;
use crate::wrap::lemma_wrap64_residue;

verus! {

/// The total over two runs of updates is the sum of the totals over each.
pub proof fn lemma_exact_total_concat(first: Seq<UpdateView>, second: Seq<UpdateView>, key: Key, i: int)
    ensures
        exact_total(first + second, key, i) == exact_total(first, key, i) + exact_total(
            second,
            key,
            i,
        ),
    decreases second.len(),
{
    if second.len() == 0 {
        assert(first + second =~= first);
    } else {
        assert((first + second).drop_last() =~= first + second.drop_last());
        assert((first + second).last() == second.last());
        lemma_exact_total_concat(first, second.drop_last(), key, i);
    }
}

/// The creation of a batch and the drop of a batch of the same length, on
/// the same key, cancel: with both in the stream, wherever they stand, the
/// totals of the key are what they are without them.
pub proof fn lemma_create_then_drop_cancels(
    before: Seq<LoggedEvent>,
    created: LoggedEvent,
    between: Seq<LoggedEvent>,
    dropped: LoggedEvent,
    granularity_ms: u64,
)
    requires
        created.event matches RawEvent::Batch { operator_id, length } && dropped.event == (
        RawEvent::Drop { operator_id, length }),
        created.worker_id == dropped.worker_id,
    ensures
        running_total(
            updates_of(
                DifferentialLog::Arrangement,
                before.push(created) + between.push(dropped),
                granularity_ms,
            ),
            key_of(created),
            2,
        ) == running_total(
            updates_of(DifferentialLog::Arrangement, before + between, granularity_ms),
            key_of(created),
            2,
        ),
{
    let log = DifferentialLog::Arrangement;
    let key = key_of(created);
    let head = updates_of(log, before, granularity_ms);
    let tail = updates_of(log, between, granularity_ms);
    let head_created = updates_of(log, before.push(created), granularity_ms);
    let tail_dropped = updates_of(log, between.push(dropped), granularity_ms);
    let with = updates_of(log, before.push(created) + between.push(dropped), granularity_ms);
    let without = updates_of(log, before + between, granularity_ms);
    lemma_updates_of_concat(log, before.push(created), between.push(dropped), granularity_ms);
    lemma_updates_of_concat(log, before, between, granularity_ms);
    assert(before.push(created).drop_last() =~= before);
    assert(between.push(dropped).drop_last() =~= between);
    assert(head_created.drop_last() =~= head);
    assert(tail_dropped.drop_last() =~= tail);
    let length = created.event->Batch_length;
    lemma_wrap64_residue(length as int);
    lemma_wrap64_residue(-(length as int));
    assert forall|i: int| 0 <= i < 2 implies running_total(with, key, 2)[i] == running_total(
        without,
        key,
        2,
    )[i] by {
        lemma_exact_total_concat(head_created, tail_dropped, key, i);
        lemma_exact_total_concat(head, tail, key, i);
        let gained = component(head_created.last().delta, i);
        let lost = component(tail_dropped.last().delta, i);
        assert(exact_total(with, key, i) == exact_total(without, key, i) + gained + lost);
        assert((gained + lost) % 0x1_0000_0000_0000_0000 == 0);
        lemma_wrap64_congruent(exact_total(with, key, i), exact_total(without, key, i));
    }
    assert(running_total(with, key, 2) =~= running_total(without, key, 2));
}

/// A batch that was created and dropped, with nothing else on its key,
/// leaves the key with no records and no batches.
pub proof fn lemma_create_then_drop_is_zero(created: LoggedEvent, dropped: LoggedEvent, granularity_ms: u64)
    requires
        created.event matches RawEvent::Batch { operator_id, length } && dropped.event == (
        RawEvent::Drop { operator_id, length }),
        created.worker_id == dropped.worker_id,
    ensures
        running_total(
            updates_of(DifferentialLog::Arrangement, seq![created, dropped], granularity_ms),
            key_of(created),
            2,
        ) == seq![0i64, 0i64],
{
    let nothing = Seq::<LoggedEvent>::empty();
    lemma_create_then_drop_cancels(nothing, created, nothing, dropped, granularity_ms);
    assert(nothing.push(created) + nothing.push(dropped) =~= seq![created, dropped]);
    assert(nothing + nothing =~= nothing);
    assert(running_total(
        updates_of(DifferentialLog::Arrangement, nothing, granularity_ms),
        key_of(created),
        2,
    ) =~= seq![0i64, 0i64]);
}

} // verus!
