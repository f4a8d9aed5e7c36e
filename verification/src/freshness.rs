//! An index keyed by operator and worker always reads the current total.
//!
//! Every record of one key has the same index key there, and no other key
//! shares it. So when the events of each key arrive in the order of their
//! times, what the index stores under a key is the record of the key's
//! latest total: the sum of all its deltas so far.

use vstd::prelude::*;
use crate::aggregate::AggregateView;
use crate::aggregate::aggregates_of;
use crate::aggregate::last_slot;
use crate::aggregate::running_total;
use crate::aggregate::updated;
use crate::aggregate::lemma_every_key_has_entry;
use crate::aggregate::lemma_last_entry_is_current;
use crate::aggregate::lemma_last_slot_bounds;
use crate::causal::in_time_order;
use crate::causal::lemma_aggregates_in_bucket_order;
use crate::causal::lemma_surfaced_iff_stamped;
use crate::causal::lemma_time_order_gives_bucket_order;
use crate::event::Key;
use crate::event::LoggedEvent;
use crate::event::RawEvent;
use crate::event::key_of;
use crate::index::holder;
use crate::index::lemma_index_stores_holder;
use crate::lifecycle::lemma_create_then_drop_is_zero;
use crate::pipeline::log_index;
use crate::record::packed;
use crate::record::projected;
use crate::record::rows_of;
use crate::translate::updates_of;
use crate::variant::DifferentialLog;
use crate::variant::width_of;
use crate::wrap::wrap64;

verus! {

/// The positions of the operator and worker fields of a record.
pub open spec fn key_columns() -> Seq<usize> {
    seq![0usize, 1usize]
}

/// The operator and worker fields of the records of a key.
pub open spec fn key_fields(key: Key) -> Seq<i64> {
    seq![wrap64(key.operator_id as int), wrap64(key.worker_id as int)]
}

/// Different keys have different key fields.
pub proof fn lemma_key_fields_differ(one: Key, other: Key)
    ensures
        key_fields(one) == key_fields(other) <==> one == other,
{
    if key_fields(one) == key_fields(other) {
        assert(key_fields(one)[0] == key_fields(other)[0]);
        assert(key_fields(one)[1] == key_fields(other)[1]);
    }
}

/// The index key of a record by operator and worker is its key fields.
pub proof fn lemma_projected_key_fields(key: Key, total: Seq<i64>)
    ensures
        projected(packed(key, total), key_columns()) == key_fields(key),
{
    assert(projected(packed(key, total), key_columns()) =~= key_fields(key));
}

/// Where the aggregates of each key are of rising buckets, the row that
/// holds under the key fields of a key is the row of its latest aggregate.
pub proof fn lemma_holder_is_latest_aggregate(aggregates: Seq<AggregateView>, key: Key)
    requires
        forall|a: int, b: int|
            0 <= a < b < aggregates.len() && (#[trigger] aggregates[a]).key
                == (#[trigger] aggregates[b]).key ==> aggregates[a].bucket < aggregates[b].bucket,
    ensures
        holder(rows_of(aggregates), key_columns(), key_fields(key)) == last_slot(aggregates, key),
    decreases aggregates.len(),
{
    if aggregates.len() > 0 {
        let earlier = aggregates.drop_last();
        let latest = aggregates.last();
        assert forall|a: int, b: int|
            0 <= a < b < earlier.len() && (#[trigger] earlier[a]).key == (
            #[trigger] earlier[b]).key implies earlier[a].bucket < earlier[b].bucket by {
            assert(earlier[a] == aggregates[a]);
            assert(earlier[b] == aggregates[b]);
        }
        lemma_holder_is_latest_aggregate(earlier, key);
        assert(rows_of(aggregates).drop_last() =~= rows_of(earlier));
        lemma_projected_key_fields(latest.key, latest.total);
        lemma_key_fields_differ(latest.key, key);
        lemma_last_slot_bounds(earlier, key);
        let before = last_slot(earlier, key);
        if latest.key == key && before >= 0 {
            assert(earlier[before] == aggregates[before]);
            assert(latest == aggregates[aggregates.len() - 1]);
            assert(aggregates[before].bucket < latest.bucket);
        }
    }
}

/// With the events of each key in the order of their times, an index by
/// operator and worker stores a record for exactly the keys that received
/// an update, and the record of a key holds the sum of all its deltas.
pub proof fn lemma_index_by_key_is_fresh(
    log: DifferentialLog,
    events: Seq<LoggedEvent>,
    granularity_ms: u64,
    key: Key,
)
    requires
        in_time_order(events),
    ensures
        log_index(log, events, granularity_ms, key_columns()).contains_key(key_fields(key))
            <==> updated(updates_of(log, events, granularity_ms), key),
        updated(updates_of(log, events, granularity_ms), key) ==> log_index(
            log,
            events,
            granularity_ms,
            key_columns(),
        )[key_fields(key)].record == packed(
            key,
            running_total(updates_of(log, events, granularity_ms), key, width_of(log)),
        ),
{
    let updates = updates_of(log, events, granularity_ms);
    let aggregates = aggregates_of(updates, width_of(log));
    let rows = rows_of(aggregates);
    let slot = last_slot(aggregates, key);
    lemma_time_order_gives_bucket_order(log, events, granularity_ms);
    lemma_aggregates_in_bucket_order(updates, width_of(log));
    lemma_holder_is_latest_aggregate(aggregates, key);
    lemma_index_stores_holder(rows, key_columns(), key_fields(key));
    lemma_last_slot_bounds(aggregates, key);
    if updated(updates, key) {
        let j = choose|j: int| 0 <= j < updates.len() && (#[trigger] updates[j]).key == key;
        lemma_every_key_has_entry(updates, width_of(log), j);
    }
    if slot >= 0 {
        lemma_last_entry_is_current(updates, width_of(log), key);
        lemma_surfaced_iff_stamped(updates, width_of(log), key, aggregates[slot].bucket);
        let j = choose|j: int|
            0 <= j < updates.len() && (#[trigger] updates[j]).key == key && updates[j].bucket
                == aggregates[slot].bucket;
        assert(updated(updates, key));
    }
}

/// After a batch was created and then dropped, with nothing else in the
/// stream, the arrangement index by operator and worker reads no records
/// and no batches for the key: the state after the drop, not the one before.
pub proof fn lemma_dropped_batch_reads_zero(created: LoggedEvent, dropped: LoggedEvent, granularity_ms: u64)
    requires
        created.event matches RawEvent::Batch { operator_id, length } && dropped.event == (
        RawEvent::Drop { operator_id, length }),
        created.worker_id == dropped.worker_id,
        created.time_ms <= dropped.time_ms,
    ensures
        log_index(
            DifferentialLog::Arrangement,
            seq![created, dropped],
            granularity_ms,
            key_columns(),
        ).contains_key(key_fields(key_of(created))),
        log_index(
            DifferentialLog::Arrangement,
            seq![created, dropped],
            granularity_ms,
            key_columns(),
        )[key_fields(key_of(created))].record == key_fields(key_of(created)) + seq![0i64, 0i64],
{
    let log = DifferentialLog::Arrangement;
    let events = seq![created, dropped];
    let key = key_of(created);
    lemma_index_by_key_is_fresh(log, events, granularity_ms, key);
    lemma_create_then_drop_is_zero(created, dropped, granularity_ms);
    let updates = updates_of(log, events, granularity_ms);
    reveal_with_fuel(updates_of, 3);
    assert(events.drop_last() =~= seq![created]);
    assert(events.drop_last().drop_last() =~= Seq::<LoggedEvent>::empty());
    assert(updates.len() == 2);
    assert(updates[1].key == key);
}

} // verus!
