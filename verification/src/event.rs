//! The lifecycle events that the pipeline consumes.

use vstd::prelude::*;

verus! {

/// What happened to the batches of one operator's trace.
#[derive(Clone, Copy, Debug, PartialEq, Eq, Structural)]
pub enum RawEvent {
    /// A batch of `length` records was created.
    Batch { operator_id: u64, length: u64 },
    /// Two batches of `length1` and `length2` records are being merged.
    /// `complete` holds the length of the merged batch once the merge is done.
    Merge { operator_id: u64, length1: u64, length2: u64, complete: Option<u64> },
    /// A batch of `length` records was discarded.
    Drop { operator_id: u64, length: u64 },
    /// A merge fell behind by `shortfall` units of work. Diagnostic only.
    MergeShortfall { operator_id: u64, scale: u64, shortfall: u64 },
    /// The number of handles that share the operator's trace changed by `diff`.
    TraceShare { operator_id: u64, diff: i64 },
}

/// An event together with when and where it was logged.
#[derive(Clone, Copy, Debug, PartialEq, Eq, Structural)]
pub struct LoggedEvent {
    /// The time of the event in milliseconds, as fine as the host reports it.
    pub time_ms: u64,
    /// The worker that logged the event.
    pub worker_id: u64,
    pub event: RawEvent,
}

/// The owner of a running total: one operator on one worker.
#[derive(Clone, Copy, Debug, PartialEq, Eq, Hash, Structural)]
pub struct Key {
    pub operator_id: u64,
    pub worker_id: u64,
}

/// The operator that an event is about.
pub open spec fn operator_of(event: RawEvent) -> u64 {
    match event {
        RawEvent::Batch { operator_id, .. } => operator_id,
        RawEvent::Merge { operator_id, .. } => operator_id,
        RawEvent::Drop { operator_id, .. } => operator_id,
        RawEvent::MergeShortfall { operator_id, .. } => operator_id,
        RawEvent::TraceShare { operator_id, .. } => operator_id,
    }
}

/// The key under which a logged event is counted.
pub open spec fn key_of(logged: LoggedEvent) -> Key {
    Key { operator_id: operator_of(logged.event), worker_id: logged.worker_id }
}

impl RawEvent {
    /// The operator that the event is about.
    pub fn operator(&self) -> (id: u64)
        ensures
            id == operator_of(*self),
    {
        match self {
            RawEvent::Batch { operator_id, .. } => *operator_id,
            RawEvent::Merge { operator_id, .. } => *operator_id,
            RawEvent::Drop { operator_id, .. } => *operator_id,
            RawEvent::MergeShortfall { operator_id, .. } => *operator_id,
            RawEvent::TraceShare { operator_id, .. } => *operator_id,
        }
    }
}

impl LoggedEvent {
    /// The key under which the event is counted.
    pub fn key(&self) -> (key: Key)
        ensures
            key == key_of(*self),
    {
        Key { operator_id: self.event.operator(), worker_id: self.worker_id }
    }
}

} // verus!
