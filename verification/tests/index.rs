use differential_logging::event::Key;
use differential_logging::index::Index;
use differential_logging::record::fits;
use differential_logging::record::pack;
use differential_logging::record::project;

#[test]
fn pack_puts_key_before_total() {
    let key = Key { operator_id: 1, worker_id: 0 };
    assert_eq!(pack(key, &vec![10, 1]), vec![1, 0, 10, 1]);
    assert_eq!(pack(Key { operator_id: 4, worker_id: 9 }, &vec![-3]), vec![4, 9, -3]);
    assert_eq!(pack(key, &vec![]), vec![1, 0]);
}

#[test]
fn pack_twice_gives_the_same_record() {
    let key = Key { operator_id: 12, worker_id: 3 };
    let total = vec![i64::MIN, 7];
    let first = pack(key, &total);
    let second = pack(key, &total);
    assert_eq!(first, second);
    assert_eq!(first, vec![12, 3, i64::MIN, 7]);
}

#[test]
fn pack_wraps_identifiers_beyond_the_signed_range() {
    let key = Key { operator_id: u64::MAX, worker_id: 1 << 63 };
    assert_eq!(pack(key, &vec![0]), vec![-1, i64::MIN, 0]);
}

#[test]
fn fits_looks_at_every_column() {
    assert!(fits(&vec![], 0));
    assert!(fits(&vec![0, 1], 4));
    assert!(fits(&vec![3, 3, 0], 4));
    assert!(!fits(&vec![4], 4));
    assert!(!fits(&vec![0, 1, 7], 4));
    assert!(!fits(&vec![0], 0));
}

#[test]
fn project_picks_fields_in_the_order_of_the_columns() {
    let record = vec![1, 0, 10, 2];
    assert_eq!(project(&record, &vec![0, 1]), vec![1, 0]);
    assert_eq!(project(&record, &vec![3, 0]), vec![2, 1]);
    assert_eq!(project(&record, &vec![2, 2]), vec![10, 10]);
    assert_eq!(project(&record, &vec![]), Vec::<i64>::new());
}

#[test]
fn empty_index_holds_nothing() {
    let index = Index::new();
    assert_eq!(index.lookup(&vec![1, 0]), None);
    assert_eq!(index.lookup(&vec![]), None);
    assert_eq!(index.held_since(&vec![1, 0]), None);
}

#[test]
fn upsert_then_lookup() {
    let mut index = Index::new();
    index.upsert(vec![1, 0], 10, vec![1, 0, 10, 1]);
    index.upsert(vec![2, 0], 10, vec![2, 0, 5, 1]);
    assert_eq!(index.lookup(&vec![1, 0]), Some(&vec![1, 0, 10, 1]));
    assert_eq!(index.lookup(&vec![2, 0]), Some(&vec![2, 0, 5, 1]));
    assert_eq!(index.lookup(&vec![3, 0]), None);
    assert_eq!(index.lookup(&vec![1]), None);
    assert_eq!(index.held_since(&vec![2, 0]), Some(10));
}

#[test]
fn later_bucket_replaces_earlier() {
    let mut index = Index::new();
    index.upsert(vec![1, 0], 10, vec![1, 0, 10, 1]);
    index.upsert(vec![1, 0], 20, vec![1, 0, 0, 0]);
    assert_eq!(index.lookup(&vec![1, 0]), Some(&vec![1, 0, 0, 0]));
    assert_eq!(index.held_since(&vec![1, 0]), Some(20));
}

#[test]
fn last_write_within_a_bucket_wins() {
    let mut index = Index::new();
    index.upsert(vec![1], 10, vec![1, 0, 10, 1]);
    index.upsert(vec![1], 10, vec![1, 1, 3, 1]);
    assert_eq!(index.lookup(&vec![1]), Some(&vec![1, 1, 3, 1]));
}

#[test]
fn earlier_bucket_does_not_replace_later() {
    let mut index = Index::new();
    index.upsert(vec![1, 0], 20, vec![1, 0, 0, 0]);
    index.upsert(vec![1, 0], 10, vec![1, 0, 10, 1]);
    assert_eq!(index.lookup(&vec![1, 0]), Some(&vec![1, 0, 0, 0]));
    assert_eq!(index.held_since(&vec![1, 0]), Some(20));
}
