use differential_logging::event::Key;
use differential_logging::event::LoggedEvent;
use differential_logging::event::RawEvent;
use differential_logging::translate::delta;
use differential_logging::translate::translate;
use differential_logging::translate::translate_all;
use differential_logging::translate::Update;
use differential_logging::variant::DifferentialLog;

fn all_kinds() -> Vec<RawEvent> {
    vec![
        RawEvent::Batch { operator_id: 1, length: 10 },
        RawEvent::Merge { operator_id: 1, length1: 3, length2: 5, complete: Some(6) },
        RawEvent::Merge { operator_id: 1, length1: 3, length2: 5, complete: None },
        RawEvent::Drop { operator_id: 1, length: 10 },
        RawEvent::MergeShortfall { operator_id: 1, scale: 2, shortfall: 9 },
        RawEvent::TraceShare { operator_id: 1, diff: -4 },
    ]
}

#[test]
fn batch_adds_its_records_and_one_batch() {
    let event = RawEvent::Batch { operator_id: 1, length: 10 };
    assert_eq!(delta(DifferentialLog::Arrangement, &event), Some(vec![10, 1]));
}

#[test]
fn drop_takes_its_records_and_one_batch_away() {
    let event = RawEvent::Drop { operator_id: 1, length: 10 };
    assert_eq!(delta(DifferentialLog::Arrangement, &event), Some(vec![-10, -1]));
}

#[test]
fn complete_merge_yields_the_net_change() {
    let event = RawEvent::Merge { operator_id: 7, length1: 3, length2: 5, complete: Some(6) };
    assert_eq!(delta(DifferentialLog::Arrangement, &event), Some(vec![-2, -1]));
}

#[test]
fn merge_that_keeps_every_record_changes_the_batch_count_only() {
    let event = RawEvent::Merge { operator_id: 7, length1: 3, length2: 5, complete: Some(8) };
    assert_eq!(delta(DifferentialLog::Arrangement, &event), Some(vec![0, -1]));
}

#[test]
fn incomplete_merge_yields_nothing() {
    let event = RawEvent::Merge { operator_id: 7, length1: 3, length2: 5, complete: None };
    assert_eq!(delta(DifferentialLog::Arrangement, &event), None);
    assert_eq!(delta(DifferentialLog::Sharing, &event), None);
}

#[test]
fn merge_shortfall_yields_nothing() {
    let event = RawEvent::MergeShortfall { operator_id: 7, scale: 1, shortfall: 100 };
    assert_eq!(delta(DifferentialLog::Arrangement, &event), None);
    assert_eq!(delta(DifferentialLog::Sharing, &event), None);
}

#[test]
fn trace_share_yields_its_diff() {
    let up = RawEvent::TraceShare { operator_id: 7, diff: 1 };
    let down = RawEvent::TraceShare { operator_id: 7, diff: -3 };
    assert_eq!(delta(DifferentialLog::Sharing, &up), Some(vec![1]));
    assert_eq!(delta(DifferentialLog::Sharing, &down), Some(vec![-3]));
}

#[test]
fn logs_do_not_see_each_others_events() {
    for event in all_kinds() {
        let arrangement = delta(DifferentialLog::Arrangement, &event);
        let sharing = delta(DifferentialLog::Sharing, &event);
        match event {
            RawEvent::TraceShare { .. } => {
                assert_eq!(arrangement, None);
                assert!(sharing.is_some());
            }
            RawEvent::Batch { .. } | RawEvent::Drop { .. } | RawEvent::Merge { .. } => {
                assert_eq!(sharing, None);
            }
            RawEvent::MergeShortfall { .. } => {
                assert_eq!(arrangement, None);
                assert_eq!(sharing, None);
            }
        }
    }
}

#[test]
fn lengths_beyond_the_signed_range_wrap() {
    let huge = RawEvent::Batch { operator_id: 1, length: u64::MAX };
    assert_eq!(delta(DifferentialLog::Arrangement, &huge), Some(vec![-1, 1]));
    let gone = RawEvent::Drop { operator_id: 1, length: 1u64 << 63 };
    assert_eq!(delta(DifferentialLog::Arrangement, &gone), Some(vec![i64::MIN, -1]));
    let merged = RawEvent::Merge {
        operator_id: 1,
        length1: u64::MAX,
        length2: 1,
        complete: Some(5),
    };
    assert_eq!(delta(DifferentialLog::Arrangement, &merged), Some(vec![5, -1]));
}

#[test]
fn update_carries_key_and_bucket_of_the_event() {
    let logged = LoggedEvent {
        time_ms: 1234,
        worker_id: 3,
        event: RawEvent::Batch { operator_id: 9, length: 10 },
    };
    let update = translate(DifferentialLog::Arrangement, &logged, 1000);
    assert_eq!(
        update,
        Some(Update {
            key: Key { operator_id: 9, worker_id: 3 },
            bucket: 2000,
            delta: vec![10, 1],
        })
    );
    assert_eq!(translate(DifferentialLog::Sharing, &logged, 1000), None);
}

#[test]
fn delta_does_not_depend_on_the_granularity() {
    let logged = LoggedEvent {
        time_ms: 1234,
        worker_id: 3,
        event: RawEvent::Drop { operator_id: 9, length: 77 },
    };
    for g in [0u64, 1, 10, 1000, 1_000_000] {
        let update = translate(DifferentialLog::Arrangement, &logged, g).unwrap();
        assert_eq!(update.delta, vec![-77, -1]);
    }
}

#[test]
fn translate_all_keeps_the_order_and_skips_unused_events() {
    let events: Vec<LoggedEvent> = all_kinds()
        .into_iter()
        .enumerate()
        .map(|(i, event)| LoggedEvent { time_ms: 10 * i as u64, worker_id: 0, event })
        .collect();
    let arrangement = translate_all(DifferentialLog::Arrangement, &events, 10);
    let deltas: Vec<Vec<i64>> = arrangement.iter().map(|u| u.delta.clone()).collect();
    assert_eq!(deltas, vec![vec![10, 1], vec![-2, -1], vec![-10, -1]]);
    let buckets: Vec<u128> = arrangement.iter().map(|u| u.bucket).collect();
    assert_eq!(buckets, vec![10, 20, 40]);
    let sharing = translate_all(DifferentialLog::Sharing, &events, 10);
    assert_eq!(sharing.len(), 1);
    assert_eq!(sharing[0].delta, vec![-4]);
    assert_eq!(sharing[0].bucket, 60);
}

#[test]
fn a_sharing_event_in_the_stream_changes_nothing_for_the_arrangement_log() {
    let mut events = vec![
        LoggedEvent { time_ms: 1, worker_id: 0, event: RawEvent::Batch { operator_id: 1, length: 4 } },
        LoggedEvent { time_ms: 2, worker_id: 0, event: RawEvent::Drop { operator_id: 1, length: 4 } },
    ];
    let without = translate_all(DifferentialLog::Arrangement, &events, 1);
    events.insert(
        1,
        LoggedEvent { time_ms: 1, worker_id: 0, event: RawEvent::TraceShare { operator_id: 1, diff: 5 } },
    );
    let with = translate_all(DifferentialLog::Arrangement, &events, 1);
    assert_eq!(with, without);
}
