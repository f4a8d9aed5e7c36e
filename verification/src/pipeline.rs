//! The whole pipeline: from logged events to one index for each log that
//! the configuration asks for.

use vstd::prelude::*;
use crate::aggregate::Aggregate;
use crate::aggregate::Aggregator;
use crate::aggregate::aggregate;
use crate::aggregate::aggregate_views;
use crate::aggregate::aggregates_of;
use crate::config::LoggingConfig;
use crate::config::lemma_request_at;
use crate::config::requested_columns;
use crate::event::LoggedEvent;
use crate::index::Index;
use crate::index::Stored;
use crate::index::index_of;
use crate::record::columns_fit;
use crate::record::pack;
use crate::record::project;
use crate::record::row_of;
use crate::record::rows_of;
use crate::translate::UpdateView;
use crate::translate::translate;
use crate::translate::translate_all;
use crate::translate::update_of;
use crate::translate::updates_of;
use crate::variant::DifferentialLog;
use crate::variant::LogVariant;
use crate::variant::arity_of;
use crate::variant::width_of;
use crate::window::granularity_ms;
use crate::window::granularity_ms_of;

verus! {

/// What the pipeline hands back for one log: the index, and the positions
/// of the record fields that key it.
pub struct Trace {
    pub variant: LogVariant,
    pub key_columns: Vec<usize>,
    pub index: Index,
}

/// A [`Trace`] as a mathematical value.
pub struct TraceView {
    pub variant: LogVariant,
    pub key_columns: Seq<usize>,
    pub index: Map<Seq<i64>, Stored>,
}

impl View for Trace {
    type V = TraceView;

    open spec fn view(&self) -> TraceView {
        TraceView { variant: self.variant, key_columns: self.key_columns@, index: self.index@ }
    }
}

/// The traces of a sequence as mathematical values.
pub open spec fn trace_views(traces: Seq<Trace>) -> Seq<TraceView> {
    traces.map_values(|t: Trace| t@)
}

/// The index of a log after a sequence of events: the events are turned
/// into updates, the updates summed into totals, the totals packed into
/// rows, and the rows keyed by the fields at `columns`.
pub open spec fn log_index(
    log: DifferentialLog,
    events: Seq<LoggedEvent>,
    granularity_ms: u64,
    columns: Seq<usize>,
) -> Map<Seq<i64>, Stored> {
    index_of(
        rows_of(aggregates_of(updates_of(log, events, granularity_ms), width_of(log))),
        columns,
    )
}

/// The trace of a log, if the configuration asks for the log.
pub open spec fn trace_of(config: LoggingConfig, log: DifferentialLog, events: Seq<LoggedEvent>) -> Seq<
    TraceView,
> {
    match requested_columns(config.active_logs@, log) {
        Some(columns) => seq![
            TraceView {
                variant: LogVariant::Differential(log),
                key_columns: columns,
                index: log_index(log, events, granularity_ms_of(config.granularity_ns), columns),
            },
        ],
        None => Seq::empty(),
    }
}

/// The traces of all the logs that the configuration asks for: the
/// arrangement log first, then the sharing log.
pub open spec fn traces_of(config: LoggingConfig, events: Seq<LoggedEvent>) -> Seq<TraceView> {
    trace_of(config, DifferentialLog::Arrangement, events) + trace_of(
        config,
        DifferentialLog::Sharing,
        events,
    )
}

/// A configuration that names no log but the sharing log, and that log
/// under an index key that its records have, yields the trace of that log
/// and no other, whatever the events are.
pub proof fn lemma_only_sharing_requested(config: LoggingConfig, events: Seq<LoggedEvent>)
    requires
        forall|i: int|
            0 <= i < config.active_logs@.len() ==> (#[trigger] config.active_logs@[i]).variant
                == LogVariant::Differential(DifferentialLog::Sharing),
        requested_columns(config.active_logs@, DifferentialLog::Sharing) is Some,
    ensures
        traces_of(config, events).len() == 1,
        traces_of(config, events)[0].variant == LogVariant::Differential(DifferentialLog::Sharing),
{
    lemma_request_at(config.active_logs@, DifferentialLog::Arrangement);
}

/// A log that the configuration does not ask for has no trace, and one
/// that it asks for has exactly one.
pub proof fn lemma_traces_follow_requests(
    config: LoggingConfig,
    events: Seq<LoggedEvent>,
    log: DifferentialLog,
)
    ensures
        requested_columns(config.active_logs@, log) is None ==> forall|i: int|
            0 <= i < traces_of(config, events).len() ==> (#[trigger] traces_of(config, events)[i]).variant
                != LogVariant::Differential(log),
        requested_columns(config.active_logs@, log) is Some ==> exists|i: int|
            0 <= i < traces_of(config, events).len() && (#[trigger] traces_of(config, events)[i]).variant
                == LogVariant::Differential(log),
        forall|i: int, j: int|
            0 <= i < j < traces_of(config, events).len() ==> (#[trigger] traces_of(config, events)[i]).variant
                != (#[trigger] traces_of(config, events)[j]).variant,
        forall|i: int|
            0 <= i < traces_of(config, events).len() ==> (#[trigger] traces_of(config, events)[i]).variant
                is Differential,
{
    let all = traces_of(config, events);
    let first = trace_of(config, DifferentialLog::Arrangement, events);
    if requested_columns(config.active_logs@, log) is Some {
        match log {
            DifferentialLog::Arrangement => {
                assert(all[0].variant == LogVariant::Differential(log));
            },
            DifferentialLog::Sharing => {
                assert(all[first.len() as int].variant == LogVariant::Differential(log));
            },
        }
    }
}

fn copied(columns: &Vec<usize>) -> (copy: Vec<usize>)
    ensures
        copy@ == columns@,
{
    let mut copy: Vec<usize> = Vec::new();
    let mut c: usize = 0;
    while c < columns.len()
        invariant
            c <= columns.len(),
            copy@ =~= columns@.take(c as int),
        decreases columns.len() - c,
    {
        copy.push(columns[c]);
        c += 1;
    }
    assert(columns@.take(columns.len() as int) =~= columns@);
    copy
}

/// Packs aggregates into records and keys the records by the fields at
/// `columns`.
pub fn index_aggregates(aggregates: &Vec<Aggregate>, columns: &Vec<usize>) -> (index: Index)
    requires
        forall|j: int|
            0 <= j < aggregates.len() ==> columns_fit(
                columns@,
                (2 + (#[trigger] aggregates[j]).total.len()) as nat,
            ),
    ensures
        index@ == index_of(rows_of(aggregate_views(aggregates@)), columns@),
{
    let mut index = Index::new();
    let ghost rows = rows_of(aggregate_views(aggregates@));
    let mut i: usize = 0;
    assert(rows.take(0) =~= Seq::empty());
    while i < aggregates.len()
        invariant
            i <= aggregates.len(),
            rows == rows_of(aggregate_views(aggregates@)),
            index@ == index_of(rows.take(i as int), columns@),
            forall|j: int|
                0 <= j < aggregates.len() ==> columns_fit(
                    columns@,
                    (2 + (#[trigger] aggregates[j]).total.len()) as nat,
                ),
        decreases aggregates.len() - i,
    {
        let aggregate = &aggregates[i];
        proof {
            assert(rows.take(i + 1).drop_last() =~= rows.take(i as int));
            assert(rows.take(i + 1).last() == row_of(aggregate@));
        }
        let record = pack(aggregate.key, &aggregate.total);
        assert(record.len() == 2 + aggregate.total.len());
        let key = project(&record, columns);
        index.upsert(key, aggregate.bucket, record);
        i += 1;
    }
    assert(rows.take(aggregates.len() as int) =~= rows);
    index
}

/// The index of a log after a sequence of events, keyed by the fields at
/// `columns`.
pub fn trace(
    log: DifferentialLog,
    events: &Vec<LoggedEvent>,
    granularity_ms: u64,
    columns: &Vec<usize>,
) -> (index: Index)
    requires
        columns_fit(columns@, arity_of(log)),
    ensures
        index@ == log_index(log, events@, granularity_ms, columns@),
{
    let updates = translate_all(log, events, granularity_ms);
    let aggregates = aggregate(&updates, log.width());
    index_aggregates(&aggregates, columns)
}

/// The part of a pipeline that maintains one log.
struct Branch {
    log: DifferentialLog,
    columns: Vec<usize>,
    totals: Aggregator,
}

impl Branch {
    fn new(log: DifferentialLog, columns: &Vec<usize>) -> (branch: Branch)
        ensures
            branch.log == log,
            branch.columns@ == columns@,
            branch.totals.history() == Seq::<UpdateView>::empty(),
            branch.totals.breadth() == width_of(log),
    {
        Branch { log, columns: copied(columns), totals: Aggregator::new(log.width()) }
    }

    fn fed(self, logged: &LoggedEvent, granularity_ms: u64) -> (next: Branch)
        ensures
            next.log == self.log,
            next.columns == self.columns,
            next.totals.breadth() == self.totals.breadth(),
            next.totals.history() == match update_of(self.log, *logged, granularity_ms) {
                Some(update) => self.totals.history().push(update),
                None => self.totals.history(),
            },
    {
        let Branch { log, columns, totals } = self;
        let mut totals = totals;
        match translate(log, logged, granularity_ms) {
            Some(update) => {
                totals.push(&update);
            },
            None => {},
        }
        Branch { log, columns, totals }
    }

    fn trace(&self) -> (trace: Trace)
        requires
            columns_fit(self.columns@, arity_of(self.log)),
            self.totals.breadth() == width_of(self.log),
        ensures
            trace@ == (TraceView {
                variant: LogVariant::Differential(self.log),
                key_columns: self.columns@,
                index: index_of(
                    rows_of(aggregates_of(self.totals.history(), width_of(self.log))),
                    self.columns@,
                ),
            }),
    {
        Trace {
            variant: LogVariant::Differential(self.log),
            key_columns: copied(&self.columns),
            index: index_aggregates(self.totals.aggregates(), &self.columns),
        }
    }
}

/// Whether `branch` is what a pipeline holds for `log` under `config`
/// after `events`: nothing where the log is not asked for, else the index
/// key asked for and the totals of the log's updates.
spec fn maintains(
    branch: Option<Branch>,
    log: DifferentialLog,
    config: LoggingConfig,
    events: Seq<LoggedEvent>,
    granularity_ms: u64,
) -> bool {
    match requested_columns(config.active_logs@, log) {
        Some(columns) => {
            &&& branch matches Some(b)
            &&& b.log == log
            &&& b.columns@ == columns
            &&& columns_fit(columns, arity_of(log))
            &&& b.totals.breadth() == width_of(log)
            &&& b.totals.history() == updates_of(log, events, granularity_ms)
        },
        None => branch is None,
    }
}

/// A pipeline at work: it takes logged events in one by one, and can show
/// at any time the traces of the logs that its configuration asks for.
pub struct Pipeline {
    granularity_ms: u64,
    arrangement: Option<Branch>,
    sharing: Option<Branch>,
    asked: Ghost<LoggingConfig>,
    seen: Ghost<Seq<LoggedEvent>>,
}

impl Pipeline {
    #[verifier::type_invariant]
    spec fn consistent(self) -> bool {
        &&& self.granularity_ms == granularity_ms_of(self.asked@.granularity_ns)
        &&& maintains(
            self.arrangement,
            DifferentialLog::Arrangement,
            self.asked@,
            self.seen@,
            self.granularity_ms,
        )
        &&& maintains(
            self.sharing,
            DifferentialLog::Sharing,
            self.asked@,
            self.seen@,
            self.granularity_ms,
        )
    }

    /// The configuration that the pipeline was set up with.
    pub closed spec fn config(&self) -> LoggingConfig {
        self.asked@
    }

    /// The events taken in so far, in their order.
    pub closed spec fn events(&self) -> Seq<LoggedEvent> {
        self.seen@
    }

    fn branch(config: &LoggingConfig, log: DifferentialLog) -> (branch: Option<Branch>)
        ensures
            maintains(branch, log, *config, Seq::empty(), granularity_ms_of(config.granularity_ns)),
    {
        match config.request(log) {
            Some(columns) => Some(Branch::new(log, columns)),
            None => None,
        }
    }

    /// Sets up a pipeline that has taken no event in yet. Logs that the
    /// configuration does not ask for get no part in it.
    pub fn new(config: &LoggingConfig) -> (pipeline: Pipeline)
        ensures
            pipeline.config() == *config,
            pipeline.events() == Seq::<LoggedEvent>::empty(),
    {
        Pipeline {
            granularity_ms: granularity_ms(config.granularity_ns),
            arrangement: Pipeline::branch(config, DifferentialLog::Arrangement),
            sharing: Pipeline::branch(config, DifferentialLog::Sharing),
            asked: Ghost(*config),
            seen: Ghost(Seq::empty()),
        }
    }

    /// Takes one logged event in.
    pub fn feed(&mut self, logged: &LoggedEvent)
        ensures
            final(self).config() == old(self).config(),
            final(self).events() == old(self).events().push(*logged),
    {
        proof {
            use_type_invariant(&*self);
        }
        // The parts are taken out together and put back together, so that
        // the pipeline is at no time half fed.
        let idle = LoggingConfig { granularity_ns: 0, active_logs: Vec::new() };
        let mut taken = Pipeline::new(&idle);
        std::mem::swap(self, &mut taken);
        let Pipeline { granularity_ms, arrangement, sharing, asked, seen } = taken;
        let ghost now = seen@.push(*logged);
        assert(now.drop_last() =~= seen@);
        let arrangement = match arrangement {
            Some(branch) => Some(branch.fed(logged, granularity_ms)),
            None => None,
        };
        let sharing = match sharing {
            Some(branch) => Some(branch.fed(logged, granularity_ms)),
            None => None,
        };
        *self = Pipeline { granularity_ms, arrangement, sharing, asked, seen: Ghost(now) };
    }

    /// The traces of the logs that the configuration asks for, after the
    /// events taken in so far.
    pub fn traces(&self) -> (traces: Vec<Trace>)
        ensures
            trace_views(traces@) == traces_of(self.config(), self.events()),
    {
        proof {
            use_type_invariant(self);
        }
        let mut traces: Vec<Trace> = Vec::new();
        assert(trace_views(traces@) =~= Seq::<TraceView>::empty());
        match &self.arrangement {
            Some(branch) => {
                traces.push(branch.trace());
            },
            None => {},
        }
        assert(trace_views(traces@) =~= trace_of(
            self.asked@,
            DifferentialLog::Arrangement,
            self.seen@,
        ));
        let ghost first = traces@;
        match &self.sharing {
            Some(branch) => {
                traces.push(branch.trace());
            },
            None => {},
        }
        assert(trace_views(traces@) =~= trace_views(first) + trace_of(
            self.asked@,
            DifferentialLog::Sharing,
            self.seen@,
        ));
        traces
    }
}

/// Builds, for each log that the configuration asks for, the index of the
/// log after a sequence of events.
pub fn construct(config: &LoggingConfig, events: &Vec<LoggedEvent>) -> (traces: Vec<Trace>)
    ensures
        trace_views(traces@) == traces_of(*config, events@),
{
    let mut pipeline = Pipeline::new(config);
    let mut i: usize = 0;
    assert(events@.take(0) =~= Seq::<LoggedEvent>::empty());
    while i < events.len()
        invariant
            i <= events.len(),
            pipeline.config() == *config,
            pipeline.events() == events@.take(i as int),
        decreases events.len() - i,
    {
        pipeline.feed(&events[i]);
        assert(events@.take(i + 1) =~= events@.take(i as int).push(events[i as int]));
        i += 1;
    }
    assert(events@.take(events.len() as int) =~= events@);
    pipeline.traces()
}

/// The trace of a log among those handed back, if it is among them.
pub fn find_trace(traces: &Vec<Trace>, variant: LogVariant) -> (found: Option<&Trace>)
    ensures
        found is None <==> forall|i: int| 0 <= i < traces.len() ==> (#[trigger] traces[i]).variant != variant,
        found matches Some(t) ==> t.variant == variant && exists|i: int|
            0 <= i < traces.len() && #[trigger] traces[i] == *t && forall|j: int|
                0 <= j < i ==> (#[trigger] traces[j]).variant != variant,
{
    let mut i: usize = 0;
    while i < traces.len()
        invariant
            i <= traces.len(),
            forall|j: int| 0 <= j < i ==> (#[trigger] traces[j]).variant != variant,
        decreases traces.len() - i,
    {
        if traces[i].variant == variant {
            return Some(&traces[i]);
        }
        i += 1;
    }
    None
}

} // verus!
