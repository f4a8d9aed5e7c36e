//! Running totals: one per key, over the whole history of a log.
//!
//! Every update is added to the total of its key, coordinate by coordinate.
//! The total is surfaced once for each run of updates that a key receives in
//! one bucket, as it stands at the end of the run. A total is surfaced again
//! when the key next receives an update, in whichever bucket, and whether or
//! not its value differs.

use vstd::prelude::*;
use crate::event::Key;
use crate::translate::Update;
use crate::translate::UpdateView;
use crate::translate::update_views;
use crate::wrap::wrap64;
use crate::wrap::wrap_add;
use crate::wrap::lemma_wrap64_add;

verus! {

/// The total of a key as it stood when its updates of one bucket were in.
#[derive(Clone, Debug, PartialEq, Eq)]
pub struct Aggregate {
    pub key: Key,
    pub bucket: u128,
    pub total: Vec<i64>,
}

/// An [`Aggregate`] as a mathematical value.
pub struct AggregateView {
    pub key: Key,
    pub bucket: int,
    pub total: Seq<i64>,
}

impl View for Aggregate {
    type V = AggregateView;

    open spec fn view(&self) -> AggregateView {
        AggregateView { key: self.key, bucket: self.bucket as int, total: self.total@ }
    }
}

/// The aggregates of a sequence as mathematical values.
pub open spec fn aggregate_views(aggregates: Seq<Aggregate>) -> Seq<AggregateView> {
    aggregates.map_values(|a: Aggregate| a@)
}

/// Coordinate `i` of a vector. A vector too short to have one holds zero there.
pub open spec fn component(vector: Seq<i64>, i: int) -> int {
    if 0 <= i < vector.len() {
        vector[i] as int
    } else {
        0
    }
}

/// The exact sum of coordinate `i` over all the updates of `key`.
pub open spec fn exact_total(updates: Seq<UpdateView>, key: Key, i: int) -> int
    decreases updates.len(),
{
    if updates.len() == 0 {
        0
    } else {
        exact_total(updates.drop_last(), key, i) + if updates.last().key == key {
            component(updates.last().delta, i)
        } else {
            0
        }
    }
}

/// The running total of `key` after `updates`: in each of `width`
/// coordinates the sum of all the deltas of the key, as 64 signed bits hold it.
pub open spec fn running_total(updates: Seq<UpdateView>, key: Key, width: nat) -> Seq<i64> {
    Seq::new(width, |i: int| wrap64(exact_total(updates, key, i)))
}

/// A total with a delta added to it, in each of `width` coordinates.
pub open spec fn added(total: Seq<i64>, delta: Seq<i64>, width: nat) -> Seq<i64> {
    Seq::new(width, |i: int| wrap64(component(total, i) + component(delta, i)))
}

/// Where the latest aggregate of `key` stands among `entries`, or -1 if the
/// key has none.
pub open spec fn last_slot(entries: Seq<AggregateView>, key: Key) -> int
    decreases entries.len(),
{
    if entries.len() == 0 {
        -1
    } else if entries.last().key == key {
        entries.len() - 1
    } else {
        last_slot(entries.drop_last(), key)
    }
}

/// Takes a fresh total in. It replaces the latest aggregate of its key where
/// that one is of the same bucket, and follows all others where not.
pub open spec fn absorb(entries: Seq<AggregateView>, entry: AggregateView) -> Seq<AggregateView> {
    let slot = last_slot(entries, entry.key);
    if slot >= 0 && entries[slot].bucket == entry.bucket {
        entries.update(slot, entry)
    } else {
        entries.push(entry)
    }
}

/// The total that the last of `updates` brings about.
pub open spec fn fresh_total(updates: Seq<UpdateView>, width: nat) -> AggregateView
    recommends
        updates.len() > 0,
{
    AggregateView {
        key: updates.last().key,
        bucket: updates.last().bucket,
        total: running_total(updates, updates.last().key, width),
    }
}

/// The aggregates that a sequence of updates surfaces, in the order in which
/// their runs began.
pub open spec fn aggregates_of(updates: Seq<UpdateView>, width: nat) -> Seq<AggregateView>
    decreases updates.len(),
{
    if updates.len() == 0 {
        Seq::empty()
    } else {
        absorb(aggregates_of(updates.drop_last(), width), fresh_total(updates, width))
    }
}

/// The latest aggregate of a key, where there is one, is of that key, and no
/// aggregate after it is.
pub proof fn lemma_last_slot_bounds(entries: Seq<AggregateView>, key: Key)
    ensures
        -1 <= last_slot(entries, key) < entries.len(),
        last_slot(entries, key) >= 0 ==> entries[last_slot(entries, key)].key == key,
        forall|j: int| last_slot(entries, key) < j < entries.len() ==> (#[trigger] entries[j]).key != key,
    decreases entries.len(),
{
    if entries.len() > 0 && entries.last().key != key {
        lemma_last_slot_bounds(entries.drop_last(), key);
        assert forall|j: int| last_slot(entries, key) < j < entries.len() implies (#[trigger] entries[j]).key
            != key by {
            if j < entries.len() - 1 {
                assert(entries.drop_last()[j] == entries[j]);
            }
        }
    }
}

/// An aggregate that follows all others is the latest of its key.
pub proof fn lemma_last_slot_push(entries: Seq<AggregateView>, entry: AggregateView, key: Key)
    ensures
        last_slot(entries.push(entry), key) == if entry.key == key {
            entries.len() as int
        } else {
            last_slot(entries, key)
        },
{
    assert(entries.push(entry).drop_last() =~= entries);
}

/// Replacing an aggregate by one of the same key moves no key's latest aggregate.
pub proof fn lemma_last_slot_update(entries: Seq<AggregateView>, slot: int, entry: AggregateView, key: Key)
    requires
        0 <= slot < entries.len(),
        entries[slot].key == entry.key,
    ensures
        last_slot(entries.update(slot, entry), key) == last_slot(entries, key),
    decreases entries.len(),
{
    let next = entries.update(slot, entry);
    if slot == entries.len() - 1 {
        assert(next.drop_last() =~= entries.drop_last());
    } else {
        assert(next.drop_last() =~= entries.drop_last().update(slot, entry));
        assert(next.last() == entries.last());
        lemma_last_slot_update(entries.drop_last(), slot, entry, key);
    }
}

/// After a fresh total was taken in, it is the latest aggregate of its key,
/// and the latest aggregate of every other key is the one it was.
pub proof fn lemma_absorb(entries: Seq<AggregateView>, entry: AggregateView, key: Key)
    ensures
        last_slot(absorb(entries, entry), key) >= 0 <==> key == entry.key || last_slot(entries, key)
            >= 0,
        key == entry.key ==> absorb(entries, entry)[last_slot(absorb(entries, entry), key)] == entry,
        key != entry.key ==> last_slot(absorb(entries, entry), key) == last_slot(entries, key),
        key != entry.key && last_slot(entries, key) >= 0 ==> absorb(entries, entry)[last_slot(
            entries,
            key,
        )] == entries[last_slot(entries, key)],
{
    let slot = last_slot(entries, entry.key);
    lemma_last_slot_bounds(entries, entry.key);
    lemma_last_slot_bounds(entries, key);
    if slot >= 0 && entries[slot].bucket == entry.bucket {
        lemma_last_slot_update(entries, slot, entry, key);
    } else {
        lemma_last_slot_push(entries, entry, key);
    }
}

/// A key that no update names has a total of zero.
pub proof fn lemma_exact_total_absent(updates: Seq<UpdateView>, key: Key, i: int)
    requires
        forall|j: int| 0 <= j < updates.len() ==> (#[trigger] updates[j]).key != key,
    ensures
        exact_total(updates, key, i) == 0,
    decreases updates.len(),
{
    if updates.len() > 0 {
        assert(updates.last() == updates[updates.len() - 1]);
        assert forall|j: int| 0 <= j < updates.drop_last().len() implies (#[trigger] updates.drop_last()[j]).key
            != key by {
            assert(updates.drop_last()[j] == updates[j]);
        }
        lemma_exact_total_absent(updates.drop_last(), key, i);
    }
}

/// An update changes the total of its own key only.
pub proof fn lemma_running_total_other(updates: Seq<UpdateView>, key: Key, width: nat)
    requires
        updates.len() > 0,
        updates.last().key != key,
    ensures
        running_total(updates, key, width) == running_total(updates.drop_last(), key, width),
{
    assert(running_total(updates, key, width) =~= running_total(updates.drop_last(), key, width));
}

/// The running total of a key after one more update of that key is the
/// total before it with the delta added.
pub proof fn lemma_running_total_step(updates: Seq<UpdateView>, width: nat)
    requires
        updates.len() > 0,
    ensures
        running_total(updates, updates.last().key, width) == added(
            running_total(updates.drop_last(), updates.last().key, width),
            updates.last().delta,
            width,
        ),
{
    let key = updates.last().key;
    let before = running_total(updates.drop_last(), key, width);
    let after = added(before, updates.last().delta, width);
    assert forall|i: int| 0 <= i < width implies running_total(updates, key, width)[i] == after[i] by {
        lemma_wrap64_add(exact_total(updates.drop_last(), key, i), component(updates.last().delta, i));
    }
    assert(running_total(updates, key, width) =~= after);
}

/// Every key that an update names has an aggregate.
pub proof fn lemma_every_key_has_entry(updates: Seq<UpdateView>, width: nat, j: int)
    requires
        0 <= j < updates.len(),
    ensures
        last_slot(aggregates_of(updates, width), updates[j].key) >= 0,
    decreases updates.len(),
{
    let earlier = aggregates_of(updates.drop_last(), width);
    lemma_absorb(earlier, fresh_total(updates, width), updates[j].key);
    if j < updates.len() - 1 {
        assert(updates.drop_last()[j] == updates[j]);
        lemma_every_key_has_entry(updates.drop_last(), width, j);
    }
}

/// The first update of a key starts its total from zero.
pub proof fn lemma_running_total_first(updates: Seq<UpdateView>, width: nat)
    requires
        updates.len() > 0,
        last_slot(aggregates_of(updates.drop_last(), width), updates.last().key) < 0,
    ensures
        running_total(updates, updates.last().key, width) == added(
            Seq::empty(),
            updates.last().delta,
            width,
        ),
{
    let key = updates.last().key;
    let earlier = updates.drop_last();
    assert forall|j: int| 0 <= j < earlier.len() implies (#[trigger] earlier[j]).key != key by {
        if earlier[j].key == key {
            lemma_every_key_has_entry(earlier, width, j);
        }
    }
    let after = added(Seq::empty(), updates.last().delta, width);
    assert forall|i: int| 0 <= i < width implies running_total(updates, key, width)[i] == after[i] by {
        lemma_exact_total_absent(earlier, key, i);
    }
    assert(running_total(updates, key, width) =~= after);
}

/// The latest aggregate of a key holds the running total of the key.
pub proof fn lemma_last_entry_is_current(updates: Seq<UpdateView>, width: nat, key: Key)
    requires
        last_slot(aggregates_of(updates, width), key) >= 0,
    ensures
        aggregates_of(updates, width)[last_slot(aggregates_of(updates, width), key)].key == key,
        aggregates_of(updates, width)[last_slot(aggregates_of(updates, width), key)].total
            == running_total(updates, key, width),
    decreases updates.len(),
{
    if updates.len() > 0 {
        let earlier = aggregates_of(updates.drop_last(), width);
        lemma_absorb(earlier, fresh_total(updates, width), key);
        if key != updates.last().key {
            lemma_last_entry_is_current(updates.drop_last(), width, key);
            lemma_running_total_other(updates, key, width);
        }
    }
}

/// There are no more aggregates than updates, and every total has the
/// width asked for.
pub proof fn lemma_aggregates_shape(updates: Seq<UpdateView>, width: nat)
    ensures
        aggregates_of(updates, width).len() <= updates.len(),
        forall|j: int|
            0 <= j < aggregates_of(updates, width).len() ==> (#[trigger] aggregates_of(
                updates,
                width,
            )[j]).total.len() == width,
    decreases updates.len(),
{
    if updates.len() > 0 {
        lemma_aggregates_shape(updates.drop_last(), width);
        lemma_last_slot_bounds(aggregates_of(updates.drop_last(), width), updates.last().key);
    }
}

/// Whether some update is of `key`.
pub open spec fn updated(updates: Seq<UpdateView>, key: Key) -> bool {
    exists|j: int| 0 <= j < updates.len() && (#[trigger] updates[j]).key == key
}

/// A key has an aggregate exactly if an update names it.
pub proof fn lemma_entry_iff_updated(updates: Seq<UpdateView>, width: nat, key: Key)
    ensures
        last_slot(aggregates_of(updates, width), key) >= 0 <==> updated(updates, key),
    decreases updates.len(),
{
    if updated(updates, key) {
        let j = choose|j: int| 0 <= j < updates.len() && (#[trigger] updates[j]).key == key;
        lemma_every_key_has_entry(updates, width, j);
    }
    if updates.len() > 0 {
        lemma_absorb(aggregates_of(updates.drop_last(), width), fresh_total(updates, width), key);
        lemma_entry_iff_updated(updates.drop_last(), width, key);
        if updated(updates.drop_last(), key) {
            let j = choose|j: int|
                0 <= j < updates.drop_last().len() && (#[trigger] updates.drop_last()[j]).key == key;
            assert(updates[j] == updates.drop_last()[j]);
        }
        assert(updates[updates.len() - 1] == updates.last());
    }
}

/// Where the latest aggregate of a key stands.
struct Slot {
    key: Key,
    at: usize,
}

/// Whether `slots` holds the place of `key`.
spec fn placed(slots: Seq<Slot>, key: Key) -> bool {
    exists|a: int| 0 <= a < slots.len() && (#[trigger] slots[a]).key == key
}

fn find_slot(slots: &Vec<Slot>, key: Key) -> (found: Option<usize>)
    ensures
        found matches Some(a) ==> a < slots.len() && slots[a as int].key == key,
        found is None ==> !placed(slots@, key),
{
    let mut a: usize = 0;
    while a < slots.len()
        invariant
            a <= slots.len(),
            forall|b: int| 0 <= b < a ==> (#[trigger] slots[b]).key != key,
        decreases slots.len() - a,
    {
        if slots[a].key == key {
            return Some(a);
        }
        a += 1;
    }
    None
}

/// A total with a delta added to it, in each of `width` coordinates.
pub fn add_delta(total: &Vec<i64>, delta: &Vec<i64>, width: usize) -> (sum: Vec<i64>)
    ensures
        sum@ == added(total@, delta@, width as nat),
{
    let mut sum: Vec<i64> = Vec::new();
    let mut i: usize = 0;
    while i < width
        invariant
            i <= width,
            sum.len() == i,
            forall|j: int| 0 <= j < i ==> sum[j] == wrap64(component(total@, j) + component(delta@, j)),
        decreases width - i,
    {
        let t: i64 = if i < total.len() {
            total[i]
        } else {
            0
        };
        let d: i64 = if i < delta.len() {
            delta[i]
        } else {
            0
        };
        sum.push(wrap_add(t, d));
        i += 1;
    }
    assert(sum@ =~= added(total@, delta@, width as nat));
    sum
}

/// The running totals of a log: one for each key that received an update,
/// over all the updates taken in so far. Nothing else changes them.
pub struct Aggregator {
    width: usize,
    surfaced: Vec<Aggregate>,
    slots: Vec<Slot>,
    seen: Ghost<Seq<UpdateView>>,
}

impl Aggregator {
    #[verifier::type_invariant]
    spec fn consistent(self) -> bool {
        &&& aggregate_views(self.surfaced@) == aggregates_of(self.seen@, self.width as nat)
        &&& forall|a: int|
            0 <= a < self.slots.len() ==> (#[trigger] self.slots[a]).at == last_slot(
                aggregate_views(self.surfaced@),
                self.slots[a].key,
            )
        &&& forall|a: int, b: int|
            0 <= a < b < self.slots.len() ==> self.slots[a].key != self.slots[b].key
        &&& forall|j: int|
            0 <= j < self.surfaced.len() ==> placed(self.slots@, (#[trigger] self.surfaced[j]).key)
    }

    /// The updates taken in so far, in their order.
    pub closed spec fn history(&self) -> Seq<UpdateView> {
        self.seen@
    }

    /// The number of coordinates of each total.
    pub closed spec fn breadth(&self) -> nat {
        self.width as nat
    }

    /// An aggregator that has taken nothing in yet.
    pub fn new(width: usize) -> (aggregator: Aggregator)
        ensures
            aggregator.history() == Seq::<UpdateView>::empty(),
            aggregator.breadth() == width,
    {
        let surfaced: Vec<Aggregate> = Vec::new();
        assert(aggregate_views(surfaced@) =~= Seq::<AggregateView>::empty());
        Aggregator { width, surfaced, slots: Vec::new(), seen: Ghost(Seq::empty()) }
    }

    /// Adds an update to the running total of its key.
    pub fn push(&mut self, update: &Update)
        ensures
            final(self).history() == old(self).history().push(update@),
            final(self).breadth() == old(self).breadth(),
    {
        proof {
            use_type_invariant(&*self);
        }
        // The parts are taken out together and put back together, so that
        // the totals and the places of their keys never disagree.
        let mut taken = Aggregator::new(self.width);
        std::mem::swap(self, &mut taken);
        let Aggregator { width, surfaced, slots, seen } = taken;
        let mut out = surfaced;
        let mut slots = slots;
        let ghost before = seen@;
        let ghost now = before.push(update@);
        let ghost entries = aggregate_views(out@);
        let ghost old_slots = slots@;
        let ghost old_out = out@;
        proof {
            assert(now.drop_last() =~= before);
            lemma_last_slot_bounds(entries, update.key);
        }
        match find_slot(&slots, update.key) {
            Some(a) => {
                let at: usize = slots[a].at;
                let total = add_delta(&out[at].total, &update.delta, width);
                proof {
                    lemma_last_entry_is_current(before, width as nat, update.key);
                    lemma_running_total_step(now, width as nat);
                    assert(entries[at as int] == out[at as int]@);
                }
                let same_bucket: bool = out[at].bucket == update.bucket;
                let entry = Aggregate { key: update.key, bucket: update.bucket, total };
                assert(entry@ == fresh_total(now, width as nat));
                if same_bucket {
                    out.set(at, entry);
                    proof {
                        assert(aggregate_views(out@) =~= entries.update(
                            at as int,
                            fresh_total(now, width as nat),
                        ));
                        assert forall|b: int| 0 <= b < slots.len() implies (#[trigger] slots[b]).at
                            == last_slot(aggregate_views(out@), slots[b].key) by {
                            lemma_last_slot_update(
                                entries,
                                at as int,
                                fresh_total(now, width as nat),
                                slots[b].key,
                            );
                        }
                        assert forall|j: int| 0 <= j < out.len() implies placed(
                            slots@,
                            (#[trigger] out[j]).key,
                        ) by {
                            if j == at {
                                assert(slots[a as int].key == update.key);
                            } else {
                                assert(out[j] == old_out[j]);
                            }
                        }
                    }
                } else {
                    out.push(entry);
                    slots.set(a, Slot { key: update.key, at: out.len() - 1 });
                    proof {
                        assert(aggregate_views(out@) =~= entries.push(fresh_total(now, width as nat)));
                        assert forall|b: int| 0 <= b < slots.len() implies (#[trigger] slots[b]).at
                            == last_slot(aggregate_views(out@), slots[b].key) by {
                            lemma_last_slot_push(entries, fresh_total(now, width as nat), slots[b].key);
                            if b != a {
                                assert(slots[b] == old_slots[b]);
                                assert(old_slots[b].key != old_slots[a as int].key);
                            }
                        }
                        assert forall|j: int| 0 <= j < out.len() implies placed(
                            slots@,
                            (#[trigger] out[j]).key,
                        ) by {
                            if j < old_out.len() {
                                assert(out[j] == old_out[j]);
                                let b = choose|b: int|
                                    0 <= b < old_slots.len() && (#[trigger] old_slots[b]).key == old_out[j].key;
                                assert(slots[b].key == old_slots[b].key);
                            } else {
                                assert(slots[a as int].key == update.key);
                            }
                        }
                    }
                }
            },
            None => {
                proof {
                    if last_slot(entries, update.key) >= 0 {
                        assert(placed(slots@, out[last_slot(entries, update.key)].key));
                    }
                    lemma_running_total_first(now, width as nat);
                }
                let nothing: Vec<i64> = Vec::new();
                let total = add_delta(&nothing, &update.delta, width);
                let entry = Aggregate { key: update.key, bucket: update.bucket, total };
                assert(entry@ == fresh_total(now, width as nat));
                out.push(entry);
                slots.push(Slot { key: update.key, at: out.len() - 1 });
                proof {
                    assert(aggregate_views(out@) =~= entries.push(fresh_total(now, width as nat)));
                    assert forall|b: int| 0 <= b < slots.len() implies (#[trigger] slots[b]).at
                        == last_slot(aggregate_views(out@), slots[b].key) by {
                        lemma_last_slot_push(entries, fresh_total(now, width as nat), slots[b].key);
                        if b < old_slots.len() {
                            assert(slots[b] == old_slots[b]);
                        }
                    }
                    assert forall|j: int| 0 <= j < out.len() implies placed(
                        slots@,
                        (#[trigger] out[j]).key,
                    ) by {
                        if j < old_out.len() {
                            assert(out[j] == old_out[j]);
                            let b = choose|b: int|
                                0 <= b < old_slots.len() && (#[trigger] old_slots[b]).key == old_out[j].key;
                            assert(slots[b] == old_slots[b]);
                        } else {
                            assert(slots[slots.len() - 1].key == update.key);
                        }
                    }
                }
            },
        }
        *self = Aggregator { width, surfaced: out, slots, seen: Ghost(now) };
    }

    /// The running total of a key: the sum of all its deltas so far. A key
    /// that received no update has none.
    pub fn total(&self, key: Key) -> (total: Option<&Vec<i64>>)
        ensures
            total is Some <==> updated(self.history(), key),
            total matches Some(t) ==> t@ == running_total(self.history(), key, self.breadth()),
    {
        proof {
            use_type_invariant(self);
            lemma_entry_iff_updated(self.seen@, self.width as nat, key);
            lemma_last_slot_bounds(aggregate_views(self.surfaced@), key);
        }
        match find_slot(&self.slots, key) {
            Some(a) => {
                let at: usize = self.slots[a].at;
                proof {
                    lemma_last_entry_is_current(self.seen@, self.width as nat, key);
                    assert(aggregate_views(self.surfaced@)[at as int] == self.surfaced[at as int]@);
                }
                Some(&self.surfaced[at].total)
            },
            None => {
                proof {
                    let slot = last_slot(aggregate_views(self.surfaced@), key);
                    if slot >= 0 {
                        assert(placed(self.slots@, self.surfaced[slot].key));
                    }
                }
                None
            },
        }
    }

    /// The totals surfaced so far: one for every run of updates that a key
    /// received in one bucket.
    pub fn aggregates(&self) -> (aggregates: &Vec<Aggregate>)
        ensures
            aggregate_views(aggregates@) == aggregates_of(self.history(), self.breadth()),
            aggregates.len() <= self.history().len(),
            forall|j: int|
                0 <= j < aggregates.len() ==> (#[trigger] aggregates[j]).total.len() == self.breadth(),
    {
        proof {
            use_type_invariant(self);
            lemma_aggregates_shape(self.seen@, self.width as nat);
            assert forall|j: int| 0 <= j < self.surfaced.len() implies (#[trigger] self.surfaced[j]).total.len()
                == self.width by {
                assert(aggregate_views(self.surfaced@)[j] == self.surfaced[j]@);
            }
        }
        &self.surfaced
    }

    /// Gives up the aggregator for the totals it has surfaced.
    pub fn into_aggregates(self) -> (aggregates: Vec<Aggregate>)
        ensures
            aggregate_views(aggregates@) == aggregates_of(self.history(), self.breadth()),
            aggregates.len() <= self.history().len(),
            forall|j: int|
                0 <= j < aggregates.len() ==> (#[trigger] aggregates[j]).total.len() == self.breadth(),
    {
        proof {
            use_type_invariant(&self);
            lemma_aggregates_shape(self.seen@, self.width as nat);
            assert forall|j: int| 0 <= j < self.surfaced.len() implies (#[trigger] self.surfaced[j]).total.len()
                == self.width by {
                assert(aggregate_views(self.surfaced@)[j] == self.surfaced[j]@);
            }
        }
        self.surfaced
    }
}

/// Folds updates into running totals and surfaces each total once for every
/// run of updates that its key receives in one bucket.
pub fn aggregate(updates: &Vec<Update>, width: usize) -> (aggregates: Vec<Aggregate>)
    ensures
        aggregate_views(aggregates@) == aggregates_of(update_views(updates@), width as nat),
        aggregates.len() <= updates.len(),
        forall|j: int| 0 <= j < aggregates.len() ==> (#[trigger] aggregates[j]).total.len() == width,
{
    let mut aggregator = Aggregator::new(width);
    let ghost all = update_views(updates@);
    let mut i: usize = 0;
    assert(all.take(0) =~= Seq::<UpdateView>::empty());
    while i < updates.len()
        invariant
            i <= updates.len(),
            all == update_views(updates@),
            aggregator.history() == all.take(i as int),
            aggregator.breadth() == width,
        decreases updates.len() - i,
    {
        aggregator.push(&updates[i]);
        assert(all.take(i + 1) =~= all.take(i as int).push(updates[i as int]@));
        i += 1;
    }
    assert(all.take(updates.len() as int) =~= all);
    aggregator.into_aggregates()
}

} // verus!
