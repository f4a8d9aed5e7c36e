//! The logs that the pipeline can maintain.

use vstd::prelude::*;

verus! {

/// The logs derived from batch lifecycle events.
#[derive(Clone, Copy, Debug, PartialEq, Eq, Hash, Structural)]
pub enum DifferentialLog {
    /// Per operator and worker: records held, batches held.
    Arrangement,
    /// Per operator and worker: handles that share the trace.
    Sharing,
}

/// Names a log. A configuration may also name logs that other parts of a
/// system maintain; this pipeline passes over those.
#[derive(Clone, Copy, Debug, PartialEq, Eq, Hash, Structural)]
pub enum LogVariant {
    Differential(DifferentialLog),
    /// A log maintained elsewhere, by its number there.
    Foreign(u64),
}

/// How many quantities a log tracks for each key.
pub open spec fn width_of(log: DifferentialLog) -> nat {
    match log {
        DifferentialLog::Arrangement => 2,
        DifferentialLog::Sharing => 1,
    }
}

/// How many fields a record of a log has: the two key fields, then the
/// tracked quantities.
pub open spec fn arity_of(log: DifferentialLog) -> nat {
    2 + width_of(log)
}

impl DifferentialLog {
    /// How many quantities the log tracks for each key.
    pub fn width(&self) -> (w: usize)
        ensures
            w == width_of(*self),
    {
        match self {
            DifferentialLog::Arrangement => 2,
            DifferentialLog::Sharing => 1,
        }
    }

    /// How many fields a record of the log has.
    pub fn arity(&self) -> (n: usize)
        ensures
            n == arity_of(*self),
    {
        2 + self.width()
    }
}

} // verus!
