//! Output records: the flat rows that a log is made of.
//!
//! A record holds the two fields of the key, then the coordinates of the
//! total, each as 64 signed bits. The index key of a record is the record's
//! fields at a choice of positions.

use vstd::prelude::*;
use crate::aggregate::AggregateView;
use crate::event::Key;
use crate::wrap::wrap64;
use crate::wrap::wrap_u64;

verus! {

/// A record, with the bucket boundary at which it came to hold.
pub struct Row {
    pub bucket: int,
    pub record: Seq<i64>,
}

/// The record of a key and its total: operator, worker, then the total's
/// coordinates in their order.
pub open spec fn packed(key: Key, total: Seq<i64>) -> Seq<i64> {
    seq![wrap64(key.operator_id as int), wrap64(key.worker_id as int)] + total
}

/// The row that an aggregate is surfaced as.
pub open spec fn row_of(aggregate: AggregateView) -> Row {
    Row { bucket: aggregate.bucket, record: packed(aggregate.key, aggregate.total) }
}

/// The rows that a sequence of aggregates is surfaced as.
pub open spec fn rows_of(aggregates: Seq<AggregateView>) -> Seq<Row> {
    aggregates.map_values(|a: AggregateView| row_of(a))
}

/// Whether every position in `columns` names a field of a record of `arity` fields.
pub open spec fn columns_fit(columns: Seq<usize>, arity: nat) -> bool {
    forall|c: int| 0 <= c < columns.len() ==> columns[c] < arity
}

/// The fields of a record at the positions `columns`, in the order of `columns`.
pub open spec fn projected(record: Seq<i64>, columns: Seq<usize>) -> Seq<i64> {
    Seq::new(columns.len(), |c: int| record[columns[c] as int])
}

/// Packs a key and its total into a record.
pub fn pack(key: Key, total: &Vec<i64>) -> (record: Vec<i64>)
    ensures
        record@ == packed(key, total@),
{
    let mut record: Vec<i64> = Vec::new();
    record.push(wrap_u64(key.operator_id));
    record.push(wrap_u64(key.worker_id));
    let mut i: usize = 0;
    while i < total.len()
        invariant
            i <= total.len(),
            record@ =~= packed(key, total@.take(i as int)),
        decreases total.len() - i,
    {
        record.push(total[i]);
        assert(total@.take(i + 1) =~= total@.take(i as int).push(total[i as int]));
        i += 1;
    }
    assert(total@.take(total.len() as int) =~= total@);
    record
}

/// Whether every position in `columns` names a field of a record of `arity` fields.
pub fn fits(columns: &Vec<usize>, arity: usize) -> (ok: bool)
    ensures
        ok == columns_fit(columns@, arity as nat),
{
    let mut c: usize = 0;
    while c < columns.len()
        invariant
            c <= columns.len(),
            forall|b: int| 0 <= b < c ==> columns[b] < arity,
        decreases columns.len() - c,
    {
        if columns[c] >= arity {
            return false;
        }
        c += 1;
    }
    true
}

/// The index key of a record: its fields at the positions `columns`.
pub fn project(record: &Vec<i64>, columns: &Vec<usize>) -> (key: Vec<i64>)
    requires
        columns_fit(columns@, record.len() as nat),
    ensures
        key@ == projected(record@, columns@),
{
    let mut key: Vec<i64> = Vec::new();
    let mut c: usize = 0;
    while c < columns.len()
        invariant
            c <= columns.len(),
            key.len() == c,
            columns_fit(columns@, record.len() as nat),
            forall|b: int| 0 <= b < c ==> key[b] == record[columns[b] as int],
        decreases columns.len() - c,
    {
        key.push(record[columns[c]]);
        c += 1;
    }
    assert(key@ =~= projected(record@, columns@));
    key
}

} // verus!
