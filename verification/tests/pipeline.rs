use differential_logging::config::LoggingConfig;
use differential_logging::config::VariantDescriptor;
use differential_logging::event::LoggedEvent;
use differential_logging::event::RawEvent;
use differential_logging::pipeline::construct;
use differential_logging::pipeline::find_trace;
use differential_logging::pipeline::trace;
use differential_logging::pipeline::Pipeline;
use differential_logging::variant::DifferentialLog;
use differential_logging::variant::LogVariant;

const ARRANGEMENT: LogVariant = LogVariant::Differential(DifferentialLog::Arrangement);
const SHARING: LogVariant = LogVariant::Differential(DifferentialLog::Sharing);

fn descriptor(variant: LogVariant, key_columns: Vec<usize>) -> VariantDescriptor {
    VariantDescriptor { variant, key_columns }
}

fn config(active_logs: Vec<VariantDescriptor>) -> LoggingConfig {
    LoggingConfig { granularity_ns: 10_000_000, active_logs }
}

fn at(time_ms: u64, worker_id: u64, event: RawEvent) -> LoggedEvent {
    LoggedEvent { time_ms, worker_id, event }
}

fn batch(operator_id: u64, length: u64) -> RawEvent {
    RawEvent::Batch { operator_id, length }
}

fn dropped(operator_id: u64, length: u64) -> RawEvent {
    RawEvent::Drop { operator_id, length }
}

fn share(operator_id: u64, diff: i64) -> RawEvent {
    RawEvent::TraceShare { operator_id, diff }
}

fn busy_stream() -> Vec<LoggedEvent> {
    vec![
        at(1, 0, batch(1, 10)),
        at(2, 0, batch(1, 20)),
        at(3, 1, batch(1, 7)),
        at(4, 0, share(1, 1)),
        at(12, 0, RawEvent::Merge { operator_id: 1, length1: 10, length2: 20, complete: None }),
        at(15, 0, RawEvent::Merge { operator_id: 1, length1: 10, length2: 20, complete: Some(25) }),
        at(16, 0, RawEvent::MergeShortfall { operator_id: 1, scale: 3, shortfall: 4 }),
        at(21, 0, share(1, 2)),
        at(22, 1, dropped(1, 7)),
        at(35, 0, share(1, -1)),
        at(36, 0, share(2, 1)),
    ]
}

#[test]
fn both_logs_are_built_when_both_are_asked_for() {
    let config = config(vec![descriptor(SHARING, vec![0, 1]), descriptor(ARRANGEMENT, vec![0, 1])]);
    let traces = construct(&config, &busy_stream());
    assert_eq!(traces.len(), 2);
    assert_eq!(traces[0].variant, ARRANGEMENT);
    assert_eq!(traces[1].variant, SHARING);
    assert_eq!(traces[0].key_columns, vec![0, 1]);

    let arrangement = &find_trace(&traces, ARRANGEMENT).unwrap().index;
    assert_eq!(arrangement.lookup(&vec![1, 0]), Some(&vec![1, 0, 25, 1]));
    assert_eq!(arrangement.held_since(&vec![1, 0]), Some(20));
    assert_eq!(arrangement.lookup(&vec![1, 1]), Some(&vec![1, 1, 0, 0]));
    assert_eq!(arrangement.held_since(&vec![1, 1]), Some(30));
    assert_eq!(arrangement.lookup(&vec![2, 0]), None);

    let sharing = &find_trace(&traces, SHARING).unwrap().index;
    assert_eq!(sharing.lookup(&vec![1, 0]), Some(&vec![1, 0, 2]));
    assert_eq!(sharing.held_since(&vec![1, 0]), Some(40));
    assert_eq!(sharing.lookup(&vec![2, 0]), Some(&vec![2, 0, 1]));
    assert_eq!(sharing.lookup(&vec![1, 1]), None);
}

#[test]
fn only_the_sharing_log_is_built_when_only_it_is_asked_for() {
    let config = config(vec![descriptor(SHARING, vec![0, 1])]);
    for events in [Vec::new(), busy_stream(), vec![at(1, 0, batch(1, 10)); 100]] {
        let traces = construct(&config, &events);
        assert_eq!(traces.len(), 1);
        assert_eq!(traces[0].variant, SHARING);
        assert!(find_trace(&traces, ARRANGEMENT).is_none());
        assert!(find_trace(&traces, SHARING).is_some());
    }
}

#[test]
fn nothing_is_built_when_nothing_is_asked_for() {
    let traces = construct(&config(Vec::new()), &busy_stream());
    assert_eq!(traces.len(), 0);
}

#[test]
fn logs_of_other_parts_are_passed_over() {
    let config = config(vec![
        descriptor(LogVariant::Foreign(3), vec![0]),
        descriptor(ARRANGEMENT, vec![0, 1]),
        descriptor(LogVariant::Foreign(4), vec![9, 9, 9]),
    ]);
    let traces = construct(&config, &busy_stream());
    assert_eq!(traces.len(), 1);
    assert_eq!(traces[0].variant, ARRANGEMENT);
    assert!(find_trace(&traces, LogVariant::Foreign(3)).is_none());
}

#[test]
fn a_request_with_columns_beyond_the_record_is_passed_over() {
    let beyond = config(vec![descriptor(SHARING, vec![0, 3]), descriptor(ARRANGEMENT, vec![0, 4])]);
    assert_eq!(construct(&beyond, &busy_stream()).len(), 0);
    let within = config(vec![descriptor(ARRANGEMENT, vec![0, 3])]);
    assert_eq!(construct(&within, &busy_stream()).len(), 1);
}

#[test]
fn the_first_usable_request_for_a_log_counts() {
    let config = config(vec![
        descriptor(SHARING, vec![5]),
        descriptor(SHARING, vec![0]),
        descriptor(SHARING, vec![0, 1]),
    ]);
    let traces = construct(&config, &busy_stream());
    assert_eq!(traces.len(), 1);
    assert_eq!(traces[0].key_columns, vec![0]);
}

#[test]
fn index_reads_the_state_after_the_drop() {
    let config = config(vec![descriptor(ARRANGEMENT, vec![0, 1])]);
    let created = vec![at(3, 0, batch(1, 10))];
    let traces = construct(&config, &created);
    assert_eq!(traces[0].index.lookup(&vec![1, 0]), Some(&vec![1, 0, 10, 1]));
    assert_eq!(traces[0].index.held_since(&vec![1, 0]), Some(10));

    let then_dropped = vec![at(3, 0, batch(1, 10)), at(14, 0, dropped(1, 10))];
    let traces = construct(&config, &then_dropped);
    let index = &find_trace(&traces, ARRANGEMENT).unwrap().index;
    let record = index.lookup(&vec![1, 0]).unwrap();
    assert_eq!(record[2], 0);
    assert_eq!(record[3], 0);
    assert_eq!(record, &vec![1, 0, 0, 0]);
    assert_eq!(index.held_since(&vec![1, 0]), Some(20));
}

#[test]
fn sharing_events_do_not_reach_the_arrangement_log() {
    let columns = vec![0, 1];
    let plain = vec![at(1, 0, batch(1, 10)), at(11, 0, dropped(1, 4))];
    let mixed = vec![
        at(0, 0, share(1, 5)),
        at(1, 0, batch(1, 10)),
        at(5, 0, share(1, -5)),
        at(11, 0, dropped(1, 4)),
        at(40, 0, share(1, 1)),
    ];
    let expected = trace(DifferentialLog::Arrangement, &plain, 10, &columns);
    let seen = trace(DifferentialLog::Arrangement, &mixed, 10, &columns);
    assert_eq!(seen.lookup(&vec![1, 0]), Some(&vec![1, 0, 6, 0]));
    assert_eq!(seen.lookup(&vec![1, 0]), expected.lookup(&vec![1, 0]));
    assert_eq!(seen.held_since(&vec![1, 0]), expected.held_since(&vec![1, 0]));
}

#[test]
fn batch_events_do_not_reach_the_sharing_log() {
    let columns = vec![0, 1];
    let plain = vec![at(0, 0, share(1, 5)), at(25, 0, share(1, -2))];
    let mixed = vec![
        at(0, 0, share(1, 5)),
        at(1, 0, batch(1, 10)),
        at(2, 0, RawEvent::Merge { operator_id: 1, length1: 1, length2: 2, complete: Some(3) }),
        at(25, 0, share(1, -2)),
        at(26, 0, dropped(1, 10)),
    ];
    let expected = trace(DifferentialLog::Sharing, &plain, 10, &columns);
    let seen = trace(DifferentialLog::Sharing, &mixed, 10, &columns);
    assert_eq!(seen.lookup(&vec![1, 0]), Some(&vec![1, 0, 3]));
    assert_eq!(seen.lookup(&vec![1, 0]), expected.lookup(&vec![1, 0]));
}

#[test]
fn a_granularity_of_nothing_counts_as_one_millisecond() {
    let config = LoggingConfig {
        granularity_ns: 0,
        active_logs: vec![descriptor(SHARING, vec![0, 1])],
    };
    let traces = construct(&config, &vec![at(41, 0, share(1, 1))]);
    assert_eq!(traces[0].index.held_since(&vec![1, 0]), Some(42));
}

#[test]
fn an_index_by_operator_alone_holds_the_latest_record_of_any_worker() {
    let columns = vec![0];
    let events = vec![at(1, 0, batch(1, 10)), at(2, 1, batch(1, 20)), at(11, 0, batch(1, 1))];
    let index = trace(DifferentialLog::Arrangement, &events, 10, &columns);
    assert_eq!(index.lookup(&vec![1]), Some(&vec![1, 0, 11, 2]));
    let events = vec![at(1, 0, batch(1, 10)), at(2, 1, batch(1, 20))];
    let index = trace(DifferentialLog::Arrangement, &events, 10, &columns);
    assert_eq!(index.lookup(&vec![1]), Some(&vec![1, 1, 20, 1]));
}

#[test]
fn an_index_by_total_keeps_the_records_of_past_totals() {
    let columns = vec![2];
    let events = vec![at(1, 0, share(1, 1)), at(11, 0, share(1, 1))];
    let index = trace(DifferentialLog::Sharing, &events, 10, &columns);
    assert_eq!(index.lookup(&vec![1]), Some(&vec![1, 0, 1]));
    assert_eq!(index.lookup(&vec![2]), Some(&vec![1, 0, 2]));
}

#[test]
fn a_pipeline_shows_the_state_after_each_event() {
    let config = config(vec![descriptor(ARRANGEMENT, vec![0, 1]), descriptor(SHARING, vec![0, 1])]);
    let mut pipeline = Pipeline::new(&config);
    assert_eq!(pipeline.traces().len(), 2);
    assert_eq!(pipeline.traces()[0].index.lookup(&vec![1, 0]), None);

    pipeline.feed(&at(3, 0, batch(1, 10)));
    assert_eq!(pipeline.traces()[0].index.lookup(&vec![1, 0]), Some(&vec![1, 0, 10, 1]));
    assert_eq!(pipeline.traces()[1].index.lookup(&vec![1, 0]), None);

    pipeline.feed(&at(4, 0, share(1, 1)));
    assert_eq!(pipeline.traces()[1].index.lookup(&vec![1, 0]), Some(&vec![1, 0, 1]));

    pipeline.feed(&at(14, 0, dropped(1, 10)));
    let traces = pipeline.traces();
    assert_eq!(traces[0].index.lookup(&vec![1, 0]), Some(&vec![1, 0, 0, 0]));
    assert_eq!(traces[0].index.held_since(&vec![1, 0]), Some(20));
    assert_eq!(traces[1].index.lookup(&vec![1, 0]), Some(&vec![1, 0, 1]));
}

#[test]
fn a_pipeline_fed_event_by_event_agrees_with_construct() {
    let config = config(vec![descriptor(SHARING, vec![0]), descriptor(ARRANGEMENT, vec![1, 0])]);
    let events = busy_stream();
    let mut pipeline = Pipeline::new(&config);
    for event in events.iter() {
        pipeline.feed(event);
    }
    let fed = pipeline.traces();
    let built = construct(&config, &events);
    assert_eq!(fed.len(), built.len());
    for (f, b) in fed.iter().zip(built.iter()) {
        assert_eq!(f.variant, b.variant);
        assert_eq!(f.key_columns, b.key_columns);
        for operator in 0..4 {
            for worker in 0..3 {
                for key in [vec![operator], vec![worker, operator], vec![operator, worker]] {
                    assert_eq!(f.index.lookup(&key), b.index.lookup(&key));
                    assert_eq!(f.index.held_since(&key), b.index.held_since(&key));
                }
            }
        }
    }
    assert_eq!(built[0].index.lookup(&vec![0, 1]), Some(&vec![1, 0, 25, 1]));
    assert_eq!(built[1].index.lookup(&vec![2]), Some(&vec![2, 0, 1]));
}

#[test]
fn a_pipeline_without_requests_takes_events_and_shows_nothing() {
    let mut pipeline = Pipeline::new(&config(vec![descriptor(LogVariant::Foreign(1), vec![0])]));
    for event in busy_stream().iter() {
        pipeline.feed(event);
    }
    assert_eq!(pipeline.traces().len(), 0);
}
