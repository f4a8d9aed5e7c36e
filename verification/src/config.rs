//! What a caller asks of the pipeline: how wide the time buckets are, and
//! which logs to maintain under which index keys.

use vstd::prelude::*;
use crate::record::columns_fit;
use crate::record::fits;
use crate::variant::DifferentialLog;
use crate::variant::LogVariant;
use crate::variant::arity_of;

verus! {

/// Names a log and the positions of the record fields that form its index key.
#[derive(Clone, Debug, PartialEq, Eq)]
pub struct VariantDescriptor {
    pub variant: LogVariant,
    pub key_columns: Vec<usize>,
}

/// The configuration of the pipeline.
#[derive(Clone, Debug, PartialEq, Eq)]
pub struct LoggingConfig {
    /// The width of a time bucket in nanoseconds. Widths under one
    /// millisecond count as one millisecond.
    pub granularity_ns: u128,
    /// The logs to maintain.
    pub active_logs: Vec<VariantDescriptor>,
}

/// Whether a descriptor asks for `log` under an index key that records of
/// the log have. A descriptor that names another log, or positions beyond
/// the fields of a record, asks for nothing.
pub open spec fn asks_for(descriptor: VariantDescriptor, log: DifferentialLog) -> bool {
    descriptor.variant == LogVariant::Differential(log) && columns_fit(
        descriptor.key_columns@,
        arity_of(log),
    )
}

/// The position of the first descriptor that asks for `log`, or -1 if none does.
pub open spec fn request_at(active: Seq<VariantDescriptor>, log: DifferentialLog) -> int
    decreases active.len(),
{
    if active.len() == 0 {
        -1
    } else {
        let earlier = request_at(active.drop_last(), log);
        if earlier >= 0 {
            earlier
        } else if asks_for(active.last(), log) {
            active.len() - 1
        } else {
            -1
        }
    }
}

/// The index key under which `log` is asked for, if it is asked for.
pub open spec fn requested_columns(active: Seq<VariantDescriptor>, log: DifferentialLog) -> Option<
    Seq<usize>,
> {
    if request_at(active, log) >= 0 {
        Some(active[request_at(active, log)].key_columns@)
    } else {
        None
    }
}

/// The first request for a log is a descriptor that asks for it, and none
/// before it does.
pub proof fn lemma_request_at(active: Seq<VariantDescriptor>, log: DifferentialLog)
    ensures
        -1 <= request_at(active, log) < active.len(),
        request_at(active, log) >= 0 ==> asks_for(active[request_at(active, log)], log),
        forall|i: int|
            0 <= i < active.len() && (request_at(active, log) < 0 || i < request_at(active, log))
                ==> !asks_for(#[trigger] active[i], log),
    decreases active.len(),
{
    if active.len() > 0 {
        lemma_request_at(active.drop_last(), log);
        let earlier = request_at(active.drop_last(), log);
        if earlier >= 0 {
            assert(active.drop_last()[earlier] == active[earlier]);
        }
        assert forall|i: int|
            0 <= i < active.len() && (request_at(active, log) < 0 || i < request_at(active, log))
                implies !asks_for(#[trigger] active[i], log) by {
            if i < active.len() - 1 {
                assert(active.drop_last()[i] == active[i]);
            }
        }
    }
}

/// A descriptor that asks for a log, with none before it that does, is
/// the first request for the log.
pub proof fn lemma_first_request(active: Seq<VariantDescriptor>, log: DifferentialLog, at: int)
    requires
        0 <= at < active.len(),
        asks_for(active[at], log),
        forall|i: int| 0 <= i < at ==> !asks_for(#[trigger] active[i], log),
    ensures
        request_at(active, log) == at,
{
    lemma_request_at(active, log);
}

impl LoggingConfig {
    /// The index key under which `log` is asked for, if it is asked for.
    pub fn request(&self, log: DifferentialLog) -> (columns: Option<&Vec<usize>>)
        ensures
            columns is None <==> requested_columns(self.active_logs@, log) is None,
            columns matches Some(c) ==> requested_columns(self.active_logs@, log) == Some(c@)
                && columns_fit(c@, arity_of(log)),
    {
        let wanted = LogVariant::Differential(log);
        let arity: usize = log.arity();
        let mut at: usize = 0;
        while at < self.active_logs.len()
            invariant
                at <= self.active_logs.len(),
                wanted == LogVariant::Differential(log),
                arity == arity_of(log),
                forall|i: int| 0 <= i < at ==> !asks_for(#[trigger] self.active_logs[i], log),
            decreases self.active_logs.len() - at,
        {
            if self.active_logs[at].variant == wanted && fits(&self.active_logs[at].key_columns, arity) {
                proof {
                    lemma_first_request(self.active_logs@, log, at as int);
                }
                return Some(&self.active_logs[at].key_columns);
            }
            at += 1;
        }
        proof {
            lemma_request_at(self.active_logs@, log);
        }
        None
    }
}

} // verus!
