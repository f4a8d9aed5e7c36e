//! Indexes: for each index key, the record that currently holds under it.
//!
//! A row takes the place of the row stored under its index key unless the
//! stored one is of a later bucket. So among the rows of one index key the
//! one of the latest bucket holds, and among those of one bucket the one
//! that came last.

use vstd::prelude::*;
use crate::record::Row;
use crate::record::projected;

verus! {

/// What an index stores under an index key.
pub struct Stored {
    pub bucket: int,
    pub record: Seq<i64>,
}

/// Stores a row under an index key, unless a row of a later bucket is
/// stored there.
pub open spec fn upserted(index: Map<Seq<i64>, Stored>, key: Seq<i64>, row: Row) -> Map<
    Seq<i64>,
    Stored,
> {
    if index.contains_key(key) && index[key].bucket > row.bucket {
        index
    } else {
        index.insert(key, Stored { bucket: row.bucket, record: row.record })
    }
}

/// The index that a sequence of rows builds, keyed by the fields at `columns`.
pub open spec fn index_of(rows: Seq<Row>, columns: Seq<usize>) -> Map<Seq<i64>, Stored>
    decreases rows.len(),
{
    if rows.len() == 0 {
        Map::empty()
    } else {
        upserted(
            index_of(rows.drop_last(), columns),
            projected(rows.last().record, columns),
            rows.last(),
        )
    }
}

/// The position of the row that holds under `key` after `rows`, or -1 if
/// none of the rows has that index key.
pub open spec fn holder(rows: Seq<Row>, columns: Seq<usize>, key: Seq<i64>) -> int
    decreases rows.len(),
{
    if rows.len() == 0 {
        -1
    } else {
        let earlier = holder(rows.drop_last(), columns, key);
        if projected(rows.last().record, columns) == key && (earlier < 0
            || rows[earlier].bucket <= rows.last().bucket) {
            rows.len() - 1
        } else {
            earlier
        }
    }
}

/// The holder of an index key is a row with that index key.
pub proof fn lemma_holder_bounds(rows: Seq<Row>, columns: Seq<usize>, key: Seq<i64>)
    ensures
        -1 <= holder(rows, columns, key) < rows.len(),
        holder(rows, columns, key) >= 0 ==> projected(
            rows[holder(rows, columns, key)].record,
            columns,
        ) == key,
    decreases rows.len(),
{
    if rows.len() > 0 {
        lemma_holder_bounds(rows.drop_last(), columns, key);
        let earlier = holder(rows.drop_last(), columns, key);
        if earlier >= 0 {
            assert(rows.drop_last()[earlier] == rows[earlier]);
        }
    }
}

/// An index stores under each index key the row that holds under it, and
/// nothing under a key that no row has.
pub proof fn lemma_index_stores_holder(rows: Seq<Row>, columns: Seq<usize>, key: Seq<i64>)
    ensures
        index_of(rows, columns).contains_key(key) <==> holder(rows, columns, key) >= 0,
        holder(rows, columns, key) >= 0 ==> index_of(rows, columns)[key] == (Stored {
            bucket: rows[holder(rows, columns, key)].bucket,
            record: rows[holder(rows, columns, key)].record,
        }),
    decreases rows.len(),
{
    if rows.len() > 0 {
        lemma_index_stores_holder(rows.drop_last(), columns, key);
        lemma_index_stores_holder(rows.drop_last(), columns, projected(rows.last().record, columns));
        lemma_holder_bounds(rows.drop_last(), columns, key);
        let earlier = holder(rows.drop_last(), columns, key);
        if earlier >= 0 {
            assert(rows.drop_last()[earlier] == rows[earlier]);
        }
    }
}

/// No row with the same index key is of a later bucket than the holder, and
/// none of the holder's bucket comes after it.
pub proof fn lemma_holder_is_latest(rows: Seq<Row>, columns: Seq<usize>, key: Seq<i64>, j: int)
    requires
        0 <= j < rows.len(),
        projected(rows[j].record, columns) == key,
    ensures
        holder(rows, columns, key) >= 0,
        rows[j].bucket < rows[holder(rows, columns, key)].bucket || (rows[j].bucket
            == rows[holder(rows, columns, key)].bucket && j <= holder(rows, columns, key)),
    decreases rows.len(),
{
    lemma_holder_bounds(rows.drop_last(), columns, key);
    let earlier = holder(rows.drop_last(), columns, key);
    if earlier >= 0 {
        assert(rows.drop_last()[earlier] == rows[earlier]);
    }
    if j < rows.len() - 1 {
        assert(rows.drop_last()[j] == rows[j]);
        lemma_holder_is_latest(rows.drop_last(), columns, key, j);
    }
}

struct Entry {
    key: Vec<i64>,
    bucket: u128,
    record: Vec<i64>,
}

spec fn stored(entry: Entry) -> Stored {
    Stored { bucket: entry.bucket as int, record: entry.record@ }
}

spec fn distinct(entries: Seq<Entry>) -> bool {
    forall|i: int, j: int| 0 <= i < j < entries.len() ==> entries[i].key@ != entries[j].key@
}

spec fn map_of(entries: Seq<Entry>) -> Map<Seq<i64>, Stored>
    decreases entries.len(),
{
    if entries.len() == 0 {
        Map::empty()
    } else {
        map_of(entries.drop_last()).insert(entries.last().key@, stored(entries.last()))
    }
}

proof fn lemma_map_of_absent(entries: Seq<Entry>, key: Seq<i64>)
    requires
        forall|i: int| 0 <= i < entries.len() ==> (#[trigger] entries[i]).key@ != key,
    ensures
        !map_of(entries).contains_key(key),
    decreases entries.len(),
{
    if entries.len() > 0 {
        assert(entries.last() == entries[entries.len() - 1]);
        assert forall|i: int| 0 <= i < entries.drop_last().len() implies (#[trigger] entries.drop_last()[i]).key@
            != key by {
            assert(entries.drop_last()[i] == entries[i]);
        }
        lemma_map_of_absent(entries.drop_last(), key);
    }
}

proof fn lemma_map_of_at(entries: Seq<Entry>, i: int)
    requires
        distinct(entries),
        0 <= i < entries.len(),
    ensures
        map_of(entries).contains_key(entries[i].key@),
        map_of(entries)[entries[i].key@] == stored(entries[i]),
    decreases entries.len(),
{
    if i < entries.len() - 1 {
        assert(entries.drop_last()[i] == entries[i]);
        assert(entries[i].key@ != entries[entries.len() - 1].key@);
        lemma_map_of_at(entries.drop_last(), i);
    }
}

proof fn lemma_map_of_replace(entries: Seq<Entry>, at: int, entry: Entry)
    requires
        distinct(entries),
        0 <= at < entries.len(),
        entries[at].key@ == entry.key@,
    ensures
        distinct(entries.update(at, entry)),
        map_of(entries.update(at, entry)) == map_of(entries).insert(entry.key@, stored(entry)),
    decreases entries.len(),
{
    let next = entries.update(at, entry);
    assert(distinct(next)) by {
        assert forall|i: int, j: int| 0 <= i < j < next.len() implies next[i].key@ != next[j].key@ by {
            assert(next[i].key@ == entries[i].key@);
            assert(next[j].key@ == entries[j].key@);
        }
    }
    if at == entries.len() - 1 {
        assert(next.drop_last() =~= entries.drop_last());
        assert(map_of(next) =~= map_of(entries).insert(entry.key@, stored(entry)));
    } else {
        assert(next.drop_last() =~= entries.drop_last().update(at, entry));
        assert(next.last() == entries.last());
        assert(entries[at].key@ != entries[entries.len() - 1].key@);
        lemma_map_of_replace(entries.drop_last(), at, entry);
        assert(map_of(next) =~= map_of(entries).insert(entry.key@, stored(entry)));
    }
}

fn same(a: &Vec<i64>, b: &Vec<i64>) -> (eq: bool)
    ensures
        eq == (a@ == b@),
{
    if a.len() != b.len() {
        return false;
    }
    let mut i: usize = 0;
    while i < a.len()
        invariant
            i <= a.len(),
            a.len() == b.len(),
            forall|j: int| 0 <= j < i ==> a[j] == b[j],
        decreases a.len() - i,
    {
        if a[i] != b[i] {
            return false;
        }
        i += 1;
    }
    assert(a@ =~= b@);
    true
}

/// A mapping from index keys to the records that hold under them.
pub struct Index {
    entries: Vec<Entry>,
}

impl View for Index {
    type V = Map<Seq<i64>, Stored>;

    closed spec fn view(&self) -> Map<Seq<i64>, Stored> {
        map_of(self.entries@)
    }
}

impl Index {
    #[verifier::type_invariant]
    spec fn no_key_twice(self) -> bool {
        distinct(self.entries@)
    }

    /// An index that stores nothing.
    pub fn new() -> (index: Index)
        ensures
            index@ == Map::<Seq<i64>, Stored>::empty(),
    {
        Index { entries: Vec::new() }
    }

    fn position(&self, key: &Vec<i64>) -> (found: Option<usize>)
        ensures
            found matches Some(at) ==> at < self.entries.len() && self.entries[at as int].key@ == key@,
            found is None ==> forall|i: int|
                0 <= i < self.entries.len() ==> (#[trigger] self.entries[i]).key@ != key@,
    {
        let mut at: usize = 0;
        while at < self.entries.len()
            invariant
                at <= self.entries.len(),
                forall|i: int| 0 <= i < at ==> (#[trigger] self.entries[i]).key@ != key@,
            decreases self.entries.len() - at,
        {
            if same(&self.entries[at].key, key) {
                return Some(at);
            }
            at += 1;
        }
        None
    }

    /// The record that holds under an index key, if any.
    pub fn lookup(&self, key: &Vec<i64>) -> (record: Option<&Vec<i64>>)
        ensures
            record is Some <==> self@.contains_key(key@),
            record matches Some(r) ==> r@ == self@[key@].record,
    {
        proof {
            use_type_invariant(self);
        }
        match self.position(key) {
            Some(at) => {
                proof {
                    lemma_map_of_at(self.entries@, at as int);
                }
                Some(&self.entries[at].record)
            },
            None => {
                proof {
                    lemma_map_of_absent(self.entries@, key@);
                }
                None
            },
        }
    }

    /// The bucket boundary at which the record under an index key came to
    /// hold, if there is one.
    pub fn held_since(&self, key: &Vec<i64>) -> (bucket: Option<u128>)
        ensures
            bucket is Some <==> self@.contains_key(key@),
            bucket matches Some(b) ==> b == self@[key@].bucket,
    {
        proof {
            use_type_invariant(self);
        }
        match self.position(key) {
            Some(at) => {
                proof {
                    lemma_map_of_at(self.entries@, at as int);
                }
                Some(self.entries[at].bucket)
            },
            None => {
                proof {
                    lemma_map_of_absent(self.entries@, key@);
                }
                None
            },
        }
    }

    /// Stores a record under an index key, unless a record of a later
    /// bucket is stored there.
    pub fn upsert(&mut self, key: Vec<i64>, bucket: u128, record: Vec<i64>)
        ensures
            final(self)@ == upserted(
                old(self)@,
                key@,
                Row { bucket: bucket as int, record: record@ },
            ),
    {
        proof {
            use_type_invariant(&*self);
        }
        let ghost before = self.entries@;
        let found = self.position(&key);
        // The entries are taken out for the change and put back after it.
        let mut entries: Vec<Entry> = Vec::new();
        std::mem::swap(&mut self.entries, &mut entries);
        match found {
            Some(at) => {
                proof {
                    lemma_map_of_at(before, at as int);
                }
                if entries[at].bucket <= bucket {
                    let entry = Entry { key, bucket, record };
                    proof {
                        lemma_map_of_replace(before, at as int, entry);
                    }
                    entries.set(at, entry);
                }
            },
            None => {
                proof {
                    lemma_map_of_absent(before, key@);
                }
                let entry = Entry { key, bucket, record };
                entries.push(entry);
                proof {
                    assert(entries@.drop_last() =~= before);
                    assert forall|i: int, j: int| 0 <= i < j < entries@.len() implies entries@[i].key@
                        != entries@[j].key@ by {
                        if j < before.len() {
                            assert(entries@[i] == before[i]);
                            assert(entries@[j] == before[j]);
                        } else {
                            assert(entries@[i] == before[i]);
                        }
                    }
                }
            },
        }
        std::mem::swap(&mut self.entries, &mut entries);
    }
}

} // verus!
