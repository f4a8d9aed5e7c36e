//! From events to signed deltas.
//!
//! Each log reads the events in its own way. An event that a log has no use
//! for yields nothing for it. A delta is stamped with the key of the event
//! and with the bucket that the event's time falls into; its magnitude comes
//! from the event alone.

use vstd::prelude::*;
use crate::event::Key;
use crate::event::LoggedEvent;
use crate::event::RawEvent;
use crate::event::key_of;
use crate::variant::DifferentialLog;
use crate::window::bucket;
use crate::window::bucket_of;
use crate::wrap::wrap64;
use crate::wrap::wrap_add;
use crate::wrap::wrap_sub;
use crate::wrap::wrap_u64;
use crate::wrap::lemma_wrap64_add;
use crate::wrap::lemma_wrap64_sub;

verus! {

/// A change to the running total of a key, to take effect at a bucket boundary.
#[derive(Clone, Debug, PartialEq, Eq)]
pub struct Update {
    pub key: Key,
    pub bucket: u128,
    pub delta: Vec<i64>,
}

/// An [`Update`] as a mathematical value.
pub struct UpdateView {
    pub key: Key,
    pub bucket: int,
    pub delta: Seq<i64>,
}

impl View for Update {
    type V = UpdateView;

    open spec fn view(&self) -> UpdateView {
        UpdateView { key: self.key, bucket: self.bucket as int, delta: self.delta@ }
    }
}

/// The updates of a sequence as mathematical values.
pub open spec fn update_views(updates: Seq<Update>) -> Seq<UpdateView> {
    updates.map_values(|u: Update| u@)
}

/// What an event changes in the arrangement log: records held, batches held.
///
/// A new batch adds its records and itself. A finished merge replaces two
/// batches by one, and the records of the two by those of the one. A merge
/// still under way changes nothing yet. A dropped batch takes its records and
/// itself away.
pub open spec fn arrangement_delta(event: RawEvent) -> Option<Seq<i64>> {
    match event {
        RawEvent::Batch { length, .. } => Some(seq![wrap64(length as int), 1i64]),
        RawEvent::Merge { length1, length2, complete: Some(done), .. } => Some(
            seq![wrap64(done - (length1 + length2)), -1i64],
        ),
        RawEvent::Drop { length, .. } => Some(seq![wrap64(-(length as int)), -1i64]),
        _ => None,
    }
}

/// What an event changes in the sharing log: the number of handles.
pub open spec fn sharing_delta(event: RawEvent) -> Option<Seq<i64>> {
    match event {
        RawEvent::TraceShare { diff, .. } => Some(seq![diff]),
        _ => None,
    }
}

/// What an event changes in a log, if anything.
pub open spec fn delta_of(log: DifferentialLog, event: RawEvent) -> Option<Seq<i64>> {
    match log {
        DifferentialLog::Arrangement => arrangement_delta(event),
        DifferentialLog::Sharing => sharing_delta(event),
    }
}

/// The update that a logged event gives a log, if any.
pub open spec fn update_of(log: DifferentialLog, logged: LoggedEvent, granularity_ms: u64) -> Option<
    UpdateView,
> {
    match delta_of(log, logged.event) {
        Some(delta) => Some(
            UpdateView {
                key: key_of(logged),
                bucket: bucket_of(logged.time_ms, granularity_ms),
                delta,
            },
        ),
        None => None,
    }
}

/// The updates that a sequence of logged events gives a log, in the order of
/// the events.
pub open spec fn updates_of(log: DifferentialLog, events: Seq<LoggedEvent>, granularity_ms: u64) -> Seq<
    UpdateView,
>
    decreases events.len(),
{
    if events.len() == 0 {
        Seq::empty()
    } else {
        let earlier = updates_of(log, events.drop_last(), granularity_ms);
        match update_of(log, events.last(), granularity_ms) {
            Some(update) => earlier.push(update),
            None => earlier,
        }
    }
}

/// The updates of two runs of events, one after the other, are the updates
/// of the first run followed by those of the second.
pub proof fn lemma_updates_of_concat(
    log: DifferentialLog,
    first: Seq<LoggedEvent>,
    second: Seq<LoggedEvent>,
    granularity_ms: u64,
)
    ensures
        updates_of(log, first + second, granularity_ms) == updates_of(log, first, granularity_ms)
            + updates_of(log, second, granularity_ms),
    decreases second.len(),
{
    if second.len() == 0 {
        assert(first + second =~= first);
        assert(updates_of(log, first, granularity_ms) + Seq::<UpdateView>::empty() =~= updates_of(
            log,
            first,
            granularity_ms,
        ));
    } else {
        lemma_updates_of_concat(log, first, second.drop_last(), granularity_ms);
        assert((first + second).drop_last() =~= first + second.drop_last());
        assert((first + second).last() == second.last());
        let head = updates_of(log, first, granularity_ms);
        let tail = updates_of(log, second.drop_last(), granularity_ms);
        match update_of(log, second.last(), granularity_ms) {
            Some(update) => {
                assert((head + tail).push(update) =~= head + tail.push(update));
            },
            None => {},
        }
    }
}

/// An event that a log has no use for can be taken out of the stream, or put
/// into it anywhere, without changing what the log receives.
pub proof fn lemma_unused_event_is_invisible(
    log: DifferentialLog,
    before: Seq<LoggedEvent>,
    logged: LoggedEvent,
    after: Seq<LoggedEvent>,
    granularity_ms: u64,
)
    requires
        delta_of(log, logged.event) is None,
    ensures
        updates_of(log, before.push(logged) + after, granularity_ms) == updates_of(
            log,
            before + after,
            granularity_ms,
        ),
{
    lemma_updates_of_concat(log, before.push(logged), after, granularity_ms);
    lemma_updates_of_concat(log, before, after, granularity_ms);
    assert(before.push(logged).drop_last() =~= before);
}

/// The arrangement log never sees a change in sharing.
pub proof fn lemma_sharing_events_leave_arrangement(
    before: Seq<LoggedEvent>,
    logged: LoggedEvent,
    after: Seq<LoggedEvent>,
    granularity_ms: u64,
)
    requires
        logged.event is TraceShare,
    ensures
        updates_of(DifferentialLog::Arrangement, before.push(logged) + after, granularity_ms)
            == updates_of(DifferentialLog::Arrangement, before + after, granularity_ms),
{
    lemma_unused_event_is_invisible(
        DifferentialLog::Arrangement,
        before,
        logged,
        after,
        granularity_ms,
    );
}

/// The sharing log never sees the creation, merging or dropping of batches.
pub proof fn lemma_batch_events_leave_sharing(
    before: Seq<LoggedEvent>,
    logged: LoggedEvent,
    after: Seq<LoggedEvent>,
    granularity_ms: u64,
)
    requires
        logged.event is Batch || logged.event is Merge || logged.event is Drop,
    ensures
        updates_of(DifferentialLog::Sharing, before.push(logged) + after, granularity_ms)
            == updates_of(DifferentialLog::Sharing, before + after, granularity_ms),
{
    lemma_unused_event_is_invisible(
        DifferentialLog::Sharing,
        before,
        logged,
        after,
        granularity_ms,
    );
}

/// What an event changes in a log, if anything.
pub fn delta(log: DifferentialLog, event: &RawEvent) -> (d: Option<Vec<i64>>)
    ensures
        d is None <==> delta_of(log, *event) is None,
        d matches Some(v) ==> delta_of(log, *event) == Some(v@),
{
    match log {
        DifferentialLog::Arrangement => match event {
            RawEvent::Batch { length, .. } => {
                let d: Vec<i64> = vec![wrap_u64(*length), 1i64];
                assert(d@ =~= seq![wrap64(*length as int), 1i64]);
                Some(d)
            },
            RawEvent::Merge { length1, length2, complete: Some(done), .. } => {
                let inputs: i64 = wrap_add(wrap_u64(*length1), wrap_u64(*length2));
                let change: i64 = wrap_sub(wrap_u64(*done), inputs);
                proof {
                    lemma_wrap64_add(*length1 as int, *length2 as int);
                    lemma_wrap64_sub(*done as int, *length1 + *length2);
                }
                let d: Vec<i64> = vec![change, -1i64];
                assert(d@ =~= seq![wrap64(*done - (*length1 + *length2)), -1i64]);
                Some(d)
            },
            RawEvent::Drop { length, .. } => {
                let change: i64 = wrap_sub(0i64, wrap_u64(*length));
                proof {
                    lemma_wrap64_sub(0int, *length as int);
                }
                let d: Vec<i64> = vec![change, -1i64];
                assert(d@ =~= seq![wrap64(-(*length as int)), -1i64]);
                Some(d)
            },
            _ => None,
        },
        DifferentialLog::Sharing => match event {
            RawEvent::TraceShare { diff, .. } => {
                let d: Vec<i64> = vec![*diff];
                assert(d@ =~= seq![*diff]);
                Some(d)
            },
            _ => None,
        },
    }
}

/// The update that a logged event gives a log, if any.
pub fn translate(log: DifferentialLog, logged: &LoggedEvent, granularity_ms: u64) -> (update: Option<
    Update,
>)
    ensures
        update is None <==> update_of(log, *logged, granularity_ms) is None,
        update matches Some(u) ==> update_of(log, *logged, granularity_ms) == Some(u@),
{
    match delta(log, &logged.event) {
        Some(d) => Some(
            Update { key: logged.key(), bucket: bucket(logged.time_ms, granularity_ms), delta: d },
        ),
        None => None,
    }
}

/// The updates that a sequence of logged events gives a log, in the order of
/// the events.
pub fn translate_all(log: DifferentialLog, events: &Vec<LoggedEvent>, granularity_ms: u64) -> (updates:
    Vec<Update>)
    ensures
        update_views(updates@) == updates_of(log, events@, granularity_ms),
{
    let mut updates: Vec<Update> = Vec::new();
    let mut i: usize = 0;
    assert(events@.take(0) =~= Seq::<LoggedEvent>::empty());
    while i < events.len()
        invariant
            i <= events.len(),
            update_views(updates@) =~= updates_of(log, events@.take(i as int), granularity_ms),
        decreases events.len() - i,
    {
        let ghost before = updates@;
        proof {
            assert(events@.take(i + 1).drop_last() =~= events@.take(i as int));
            assert(events@.take(i + 1).last() == events@[i as int]);
        }
        match translate(log, &events[i], granularity_ms) {
            Some(update) => {
                updates.push(update);
                assert(update_views(updates@) =~= update_views(before).push(update@));
            },
            None => {},
        }
        i += 1;
    }
    assert(events@.take(events.len() as int) =~= events@);
    updates
}

} // verus!
