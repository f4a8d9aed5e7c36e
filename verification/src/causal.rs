//! What the aggregates are when every key receives its updates in the
//! order of their buckets.
//!
//! The host delivers the events of one key in the order of their times.
//! Events of different keys may arrive in any order. Under that promise
//! every key has one aggregate for each bucket in which it received an
//! update, and the aggregate holds the sum of all the deltas of the key up
//! to and including that bucket.

use vstd::prelude::*;
use crate::aggregate::AggregateView;
use crate::aggregate::absorb;
use crate::aggregate::aggregates_of;
use crate::aggregate::component;
use crate::aggregate::exact_total;
use crate::aggregate::fresh_total;
use crate::aggregate::last_slot;
use crate::aggregate::running_total;
use crate::aggregate::lemma_last_slot_bounds;
use crate::event::Key;
use crate::event::LoggedEvent;
use crate::event::key_of;
use crate::translate::UpdateView;
use crate::translate::update_of;
use crate::translate::updates_of;
use crate::variant::DifferentialLog;
use crate::window::lemma_bucket_monotone;
use crate::wrap::wrap64;

verus! {

/// Whether the events of each key stand in the order of their times.
pub open spec fn in_time_order(events: Seq<LoggedEvent>) -> bool {
    forall|i: int, j: int|
        0 <= i < j < events.len() && key_of(#[trigger] events[i]) == key_of(#[trigger] events[j])
            ==> events[i].time_ms <= events[j].time_ms
}

/// Whether the updates of each key stand in the order of their buckets.
pub open spec fn in_bucket_order(updates: Seq<UpdateView>) -> bool {
    forall|i: int, j: int|
        0 <= i < j < updates.len() && (#[trigger] updates[i]).key == (#[trigger] updates[j]).key
            ==> updates[i].bucket <= updates[j].bucket
}

/// Whether some update is of `key` and `bucket`.
pub open spec fn stamped(updates: Seq<UpdateView>, key: Key, bucket: int) -> bool {
    exists|j: int|
        0 <= j < updates.len() && (#[trigger] updates[j]).key == key && updates[j].bucket == bucket
}

/// Whether some aggregate is of `key` and `bucket`.
pub open spec fn surfaced(aggregates: Seq<AggregateView>, key: Key, bucket: int) -> bool {
    exists|a: int|
        0 <= a < aggregates.len() && (#[trigger] aggregates[a]).key == key && aggregates[a].bucket
            == bucket
}

/// The exact sum of coordinate `i` over the updates of `key` in buckets up
/// to and including `bucket`.
pub open spec fn exact_total_through(updates: Seq<UpdateView>, key: Key, bucket: int, i: int) -> int
    decreases updates.len(),
{
    if updates.len() == 0 {
        0
    } else {
        exact_total_through(updates.drop_last(), key, bucket, i) + if updates.last().key == key
            && updates.last().bucket <= bucket {
            component(updates.last().delta, i)
        } else {
            0
        }
    }
}

/// The total of `key` at the close of `bucket`: the sum of all its deltas
/// from the beginning up to and including that bucket.
pub open spec fn total_through(updates: Seq<UpdateView>, key: Key, bucket: int, width: nat) -> Seq<
    i64,
> {
    Seq::new(width, |i: int| wrap64(exact_total_through(updates, key, bucket, i)))
}

/// Where a fresh total comes to stand: in the place of the latest aggregate
/// of its key where that one is of the same bucket, else after all others.
pub open spec fn landing(entries: Seq<AggregateView>, entry: AggregateView) -> int {
    let slot = last_slot(entries, entry.key);
    if slot >= 0 && entries[slot].bucket == entry.bucket {
        slot
    } else {
        entries.len() as int
    }
}

/// Taking a fresh total in puts it at its landing place and leaves all
/// other aggregates as they were. No key or bucket of an aggregate changes.
pub proof fn lemma_absorb_lands(entries: Seq<AggregateView>, entry: AggregateView)
    ensures
        0 <= landing(entries, entry) <= entries.len(),
        absorb(entries, entry).len() == if landing(entries, entry) == entries.len() {
            entries.len() + 1
        } else {
            entries.len()
        },
        absorb(entries, entry)[landing(entries, entry)] == entry,
        forall|a: int|
            0 <= a < entries.len() && a != landing(entries, entry) ==> #[trigger] absorb(
                entries,
                entry,
            )[a] == entries[a],
        forall|a: int|
            0 <= a < entries.len() ==> (#[trigger] absorb(entries, entry)[a]).key == entries[a].key
                && absorb(entries, entry)[a].bucket == entries[a].bucket,
{
    lemma_last_slot_bounds(entries, entry.key);
}

/// An aggregate is surfaced for a key and a bucket exactly if the key
/// received an update in that bucket.
pub proof fn lemma_surfaced_iff_stamped(updates: Seq<UpdateView>, width: nat, key: Key, bucket: int)
    ensures
        surfaced(aggregates_of(updates, width), key, bucket) <==> stamped(updates, key, bucket),
    decreases updates.len(),
{
    if updates.len() > 0 {
        let earlier = updates.drop_last();
        let prev = aggregates_of(earlier, width);
        let entry = fresh_total(updates, width);
        let next = absorb(prev, entry);
        lemma_surfaced_iff_stamped(earlier, width, key, bucket);
        lemma_absorb_lands(prev, entry);
        if surfaced(next, key, bucket) {
            let a = choose|a: int|
                0 <= a < next.len() && (#[trigger] next[a]).key == key && next[a].bucket == bucket;
            if a == landing(prev, entry) {
                assert(updates[updates.len() - 1].key == key);
            } else {
                assert(prev[a].key == key && prev[a].bucket == bucket);
                let j = choose|j: int|
                    0 <= j < earlier.len() && (#[trigger] earlier[j]).key == key && earlier[j].bucket
                        == bucket;
                assert(updates[j] == earlier[j]);
            }
        }
        if stamped(updates, key, bucket) {
            let j = choose|j: int|
                0 <= j < updates.len() && (#[trigger] updates[j]).key == key && updates[j].bucket
                    == bucket;
            if j == updates.len() - 1 {
                assert(next[landing(prev, entry)].key == key);
            } else {
                assert(earlier[j] == updates[j]);
                let a = choose|a: int|
                    0 <= a < prev.len() && (#[trigger] prev[a]).key == key && prev[a].bucket == bucket;
                assert(next[a].key == key && next[a].bucket == bucket);
            }
        }
    }
}

/// Where no update of a key is of a later bucket than `bucket`, the total
/// through `bucket` is the total of all.
pub proof fn lemma_total_through_all(updates: Seq<UpdateView>, key: Key, bucket: int, i: int)
    requires
        forall|j: int|
            0 <= j < updates.len() && (#[trigger] updates[j]).key == key ==> updates[j].bucket
                <= bucket,
    ensures
        exact_total_through(updates, key, bucket, i) == exact_total(updates, key, i),
    decreases updates.len(),
{
    if updates.len() > 0 {
        assert(updates.last() == updates[updates.len() - 1]);
        assert forall|j: int|
            0 <= j < updates.drop_last().len() && (#[trigger] updates.drop_last()[j]).key
                == key implies updates.drop_last()[j].bucket <= bucket by {
            assert(updates.drop_last()[j] == updates[j]);
        }
        lemma_total_through_all(updates.drop_last(), key, bucket, i);
    }
}

/// A part of a sequence in bucket order is in bucket order.
proof fn lemma_earlier_in_bucket_order(updates: Seq<UpdateView>)
    requires
        updates.len() > 0,
        in_bucket_order(updates),
    ensures
        in_bucket_order(updates.drop_last()),
{
    let earlier = updates.drop_last();
    assert forall|i: int, j: int|
        0 <= i < j < earlier.len() && (#[trigger] earlier[i]).key == (
        #[trigger] earlier[j]).key implies earlier[i].bucket <= earlier[j].bucket by {
        assert(earlier[i] == updates[i]);
        assert(earlier[j] == updates[j]);
    }
}

/// Under bucket order the aggregates of one key are of buckets that
/// strictly rise, so no two are of the same bucket, and each aggregate holds
/// the total of its key through its bucket.
pub proof fn lemma_aggregates_in_bucket_order(updates: Seq<UpdateView>, width: nat)
    requires
        in_bucket_order(updates),
    ensures
        forall|a: int, b: int|
            0 <= a < b < aggregates_of(updates, width).len() && (#[trigger] aggregates_of(
                updates,
                width,
            )[a]).key == (#[trigger] aggregates_of(updates, width)[b]).key ==> aggregates_of(
                updates,
                width,
            )[a].bucket < aggregates_of(updates, width)[b].bucket,
        forall|a: int|
            0 <= a < aggregates_of(updates, width).len() ==> (#[trigger] aggregates_of(
                updates,
                width,
            )[a]).total == total_through(
                updates,
                aggregates_of(updates, width)[a].key,
                aggregates_of(updates, width)[a].bucket,
                width,
            ),
    decreases updates.len(),
{
    if updates.len() > 0 {
        let earlier = updates.drop_last();
        let latest = updates.last();
        let prev = aggregates_of(earlier, width);
        let entry = fresh_total(updates, width);
        let next = absorb(prev, entry);
        let slot = last_slot(prev, latest.key);
        let at = landing(prev, entry);
        lemma_earlier_in_bucket_order(updates);
        lemma_aggregates_in_bucket_order(earlier, width);
        lemma_absorb_lands(prev, entry);
        lemma_last_slot_bounds(prev, latest.key);
        assert(latest == updates[updates.len() - 1]);
        // No aggregate of the key is of a later bucket than the update.
        assert forall|a: int|
            0 <= a < prev.len() && (#[trigger] prev[a]).key
                == latest.key implies prev[a].bucket <= latest.bucket by {
            lemma_surfaced_iff_stamped(earlier, width, prev[a].key, prev[a].bucket);
            let j = choose|j: int|
                0 <= j < earlier.len() && (#[trigger] earlier[j]).key == prev[a].key && earlier[j].bucket
                    == prev[a].bucket;
            assert(earlier[j] == updates[j]);
        }
        // All but the latest aggregate of the key are of earlier buckets.
        assert forall|a: int|
            0 <= a < prev.len() && a != at && (#[trigger] prev[a]).key == latest.key implies prev[a].bucket
            < latest.bucket by {
            if a < slot {
                assert(prev[a].bucket < prev[slot].bucket);
            }
        }
        assert forall|a: int, b: int|
            0 <= a < b < next.len() && (#[trigger] next[a]).key == (
            #[trigger] next[b]).key implies next[a].bucket < next[b].bucket by {
            if b < prev.len() {
                assert(prev[a].key == prev[b].key);
            } else {
                assert(prev[a].key == latest.key);
            }
        }
        assert forall|a: int| 0 <= a < next.len() implies (#[trigger] next[a]).total == total_through(
            updates,
            next[a].key,
            next[a].bucket,
            width,
        ) by {
            if a == at {
                assert forall|i: int| 0 <= i < width implies running_total(updates, latest.key, width)[i]
                    == total_through(updates, latest.key, latest.bucket, width)[i] by {
                    lemma_total_through_all(updates, latest.key, latest.bucket, i);
                }
                assert(next[a].total =~= total_through(updates, latest.key, latest.bucket, width));
            } else {
                assert(next[a] == prev[a]);
                assert(prev[a].total == total_through(earlier, prev[a].key, prev[a].bucket, width));
                assert(!(latest.key == prev[a].key && latest.bucket <= prev[a].bucket));
                assert(total_through(updates, prev[a].key, prev[a].bucket, width) =~= total_through(
                    earlier,
                    prev[a].key,
                    prev[a].bucket,
                    width,
                ));
            }
        }
    }
}

/// Every update stems from an event of its key, at a time that falls into
/// its bucket.
pub proof fn lemma_updates_stem_from_events(
    log: DifferentialLog,
    events: Seq<LoggedEvent>,
    granularity_ms: u64,
    a: int,
)
    requires
        0 <= a < updates_of(log, events, granularity_ms).len(),
    ensures
        exists|j: int|
            0 <= j < events.len() && update_of(log, #[trigger] events[j], granularity_ms) == Some(
                updates_of(log, events, granularity_ms)[a],
            ),
    decreases events.len(),
{
    let earlier = updates_of(log, events.drop_last(), granularity_ms);
    if a < earlier.len() {
        lemma_updates_stem_from_events(log, events.drop_last(), granularity_ms, a);
        let j = choose|j: int|
            0 <= j < events.drop_last().len() && update_of(
                log,
                #[trigger] events.drop_last()[j],
                granularity_ms,
            ) == Some(earlier[a]);
        assert(events[j] == events.drop_last()[j]);
    } else {
        assert(events[events.len() - 1] == events.last());
    }
}

/// Events in time order give updates in bucket order.
pub proof fn lemma_time_order_gives_bucket_order(
    log: DifferentialLog,
    events: Seq<LoggedEvent>,
    granularity_ms: u64,
)
    requires
        in_time_order(events),
    ensures
        in_bucket_order(updates_of(log, events, granularity_ms)),
    decreases events.len(),
{
    if events.len() > 0 {
        let before = events.drop_last();
        let earlier = updates_of(log, before, granularity_ms);
        let updates = updates_of(log, events, granularity_ms);
        assert(in_time_order(before)) by {
            assert forall|i: int, j: int|
                0 <= i < j < before.len() && key_of(#[trigger] before[i]) == key_of(
                    #[trigger] before[j],
                ) implies before[i].time_ms <= before[j].time_ms by {
                assert(before[i] == events[i]);
                assert(before[j] == events[j]);
            }
        }
        lemma_time_order_gives_bucket_order(log, before, granularity_ms);
        assert forall|i: int, j: int|
            0 <= i < j < updates.len() && (#[trigger] updates[i]).key == (
            #[trigger] updates[j]).key implies updates[i].bucket <= updates[j].bucket by {
            if j < earlier.len() {
                assert(earlier[i] == updates[i]);
                assert(earlier[j] == updates[j]);
            } else {
                assert(updates[i] == earlier[i]);
                lemma_updates_stem_from_events(log, before, granularity_ms, i);
                let k = choose|k: int|
                    0 <= k < before.len() && update_of(log, #[trigger] before[k], granularity_ms)
                        == Some(earlier[i]);
                assert(before[k] == events[k]);
                assert(events.last() == events[events.len() - 1]);
                lemma_bucket_monotone(events[k].time_ms, events.last().time_ms, granularity_ms);
            }
        }
    }
}

} // verus!
