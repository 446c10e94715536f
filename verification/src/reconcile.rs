//! Reconciliation: one reading for each station and interval end, the one of
//! the latest snapshot.

use vstd::prelude::*;
use std::collections::HashMap;
use crate::observation::{Key, ObservationView, RawObservation, views};

verus! {

/// The canonical reading of a station and interval end after the merge. It
/// has the shape of a raw reading, and always an interval end.
pub type ReconciledRecord = RawObservation;

/// The winner of two readings of one station and interval: the incoming one
/// where its snapshot is strictly later, else the one already held.
pub open spec fn winner(existing: ObservationView, incoming: ObservationView) -> ObservationView {
    if existing.download_time < incoming.download_time {
        incoming
    } else {
        existing
    }
}

/// The table after one more reading has been folded in. A reading without an
/// interval end leaves the table as it was.
pub open spec fn fold_in(table: Map<Key, ObservationView>, incoming: ObservationView) -> Map<
    Key,
    ObservationView,
> {
    if !incoming.keyed() {
        table
    } else if table.contains_key(incoming.key()) {
        table.insert(incoming.key(), winner(table[incoming.key()], incoming))
    } else {
        table.insert(incoming.key(), incoming)
    }
}

/// The table that a stream of readings folds into, from the empty table.
pub open spec fn merged(stream: Seq<ObservationView>) -> Map<Key, ObservationView>
    decreases stream.len(),
{
    if stream.len() == 0 {
        Map::empty()
    } else {
        fold_in(merged(stream.drop_last()), stream.last())
    }
}

/// Whether `records` lists `table`: every record has a key, no two records
/// share one, and the records are exactly the table's entries.
pub open spec fn lists(records: Seq<ObservationView>, table: Map<Key, ObservationView>) -> bool {
    &&& forall|i: int| 0 <= i < records.len() ==> (#[trigger] records[i]).keyed()
    &&& forall|i: int, j: int|
        0 <= i < j < records.len() ==> (#[trigger] records[i]).key() != (#[trigger] records[j]).key()
    &&& forall|i: int|
        0 <= i < records.len() ==> table.contains_key((#[trigger] records[i]).key()) && table[records[i].key()]
            == records[i]
    &&& forall|key: Key| #[trigger]
        table.contains_key(key) ==> exists|i: int|
            0 <= i < records.len() && (#[trigger] records[i]).key() == key
}

/// Whether an incoming reading takes the place of the one held under its
/// key: only where its snapshot is strictly later.
pub fn supersedes(existing: &RawObservation, incoming: &RawObservation) -> (later: bool)
    ensures
        later == (existing@.download_time < incoming@.download_time),
        winner(existing@, incoming@) == if later {
            incoming@
        } else {
            existing@
        },
{
    existing.download_time < incoming.download_time
}

/// The keys of a list of records, in the order of the records.
pub open spec fn keys_of(records: Seq<ObservationView>) -> Seq<Key> {
    records.map_values(|record: ObservationView| record.key())
}

/// The keys of a stream in the order in which they are first seen: a keyed
/// reading adds its key at the end where no reading before it had that key.
pub open spec fn first_seen(stream: Seq<ObservationView>) -> Seq<Key>
    decreases stream.len(),
{
    if stream.len() == 0 {
        Seq::empty()
    } else {
        keys_after(
            first_seen(stream.drop_last()),
            merged(stream.drop_last()),
            stream.last(),
        )
    }
}

/// The keys in first-seen order after one more reading.
pub open spec fn keys_after(
    keys: Seq<Key>,
    table: Map<Key, ObservationView>,
    incoming: ObservationView,
) -> Seq<Key> {
    if incoming.keyed() && !table.contains_key(incoming.key()) {
        keys.push(incoming.key())
    } else {
        keys
    }
}

/// The reconciled records of a stream: for each key, in the order in which
/// the keys are first seen, the reading that the fold keeps.
pub open spec fn reconciled(stream: Seq<ObservationView>) -> Seq<ObservationView> {
    first_seen(stream).map_values(|key: Key| merged(stream)[key])
}

/// Picks the winner of two readings of one station and interval.
pub fn merge(existing: RawObservation, incoming: RawObservation) -> (kept: RawObservation)
    ensures
        kept == if existing.download_time < incoming.download_time {
            incoming
        } else {
            existing
        },
        kept@ == winner(existing@, incoming@),
{
    if supersedes(&existing, &incoming) {
        incoming
    } else {
        existing
    }
}

/// The keyed collection that readings are folded into.
///
/// The readings stand in the order in which their keys were first seen. An
/// index by interval end leads to the readings of one interval, among which
/// the station is looked for.
pub struct Reconciler {
    records: Vec<RawObservation>,
    by_interval_end: HashMap<i64, Vec<usize>>,
    table: Ghost<Map<Key, ObservationView>>,
}

impl View for Reconciler {
    type V = Map<Key, ObservationView>;

    closed spec fn view(&self) -> Map<Key, ObservationView> {
        self.table@
    }
}

/// Whether `index` leads from each interval end to the places of exactly the
/// records of that interval.
spec fn indexes(index: Map<i64, Vec<usize>>, records: Seq<ObservationView>) -> bool {
    &&& forall|end: i64, k: int|
        index.contains_key(end) && 0 <= k < index[end]@.len() ==> (#[trigger] index[end]@[k])
            < records.len() && records[index[end]@[k] as int].interval_end == Some(end)
    &&& forall|i: int|
        0 <= i < records.len() ==> index.contains_key(
            (#[trigger] records[i]).interval_end.unwrap(),
        ) && index[records[i].interval_end.unwrap()]@.contains(i as usize)
}

impl Reconciler {
    /// The keys of the readings held, in the order in which they were first
    /// seen; the readings are handed out in this order.
    pub closed spec fn keys(&self) -> Seq<Key> {
        keys_of(views(self.records@))
    }

    /// The collection's invariant: its records are exactly the entries of its
    /// table, and its index finds each of them.
    pub closed spec fn wf(&self) -> bool {
        &&& lists(views(self.records@), self.table@)
        &&& indexes(self.by_interval_end@, views(self.records@))
    }

    /// An empty collection.
    pub fn new() -> (fresh: Reconciler)
        ensures
            fresh.wf(),
            fresh@ == Map::<Key, ObservationView>::empty(),
            fresh.keys() == Seq::<Key>::empty(),
    {
        proof {
            assert(keys_of(Seq::<ObservationView>::empty()) =~= Seq::<Key>::empty());
            assert(views(Seq::<RawObservation>::empty()) =~= Seq::<ObservationView>::empty());
        }
        Reconciler {
            records: Vec::new(),
            by_interval_end: HashMap::new(),
            table: Ghost(Map::empty()),
        }
    }

    /// The number of readings held, one for each key.
    pub fn len(&self) -> (count: usize)
        requires
            self.wf(),
        ensures
            count == self@.dom().len(),
            self@.dom().finite(),
    {
        proof {
            lemma_listed_size(views(self.records@), self.table@);
        }
        self.records.len()
    }

    /// The place of the reading with the key of `incoming`, if one is held.
    fn find(&self, incoming: &RawObservation) -> (place: Option<usize>)
        requires
            self.wf(),
            incoming@.keyed(),
        ensures
            match place {
                Some(at) => at < self.records.len() && self.records[at as int]@.keyed()
                    && self.records[at as int]@.key() == incoming@.key(),
                None => !self@.contains_key(incoming@.key()),
            },
    {
        broadcast use vstd::std_specs::hash::group_hash_axioms;

        let end = match incoming.interval_end {
            Some(end) => end,
            None => {
                return None;
            },
        };
        let ghost held = views(self.records@);
        let mut found: Option<usize> = None;
        if let Some(places) = self.by_interval_end.get(&end) {
            let mut k: usize = 0;
            while k < places.len() && found.is_none()
                invariant
                    k <= places.len(),
                    self.wf(),
                    held == views(self.records@),
                    self.by_interval_end@.contains_key(end),
                    self.by_interval_end@[end] == *places,
                    incoming@.interval_end == Some(end),
                    match found {
                        Some(at) => at < self.records.len() && self.records[at as int]@.keyed()
                            && self.records[at as int]@.key() == incoming@.key(),
                        None => forall|l: int|
                            0 <= l < k ==> held[(#[trigger] places@[l]) as int].station_code
                                != incoming@.station_code,
                    },
                decreases places.len() - k + (if found is None { 1int } else { 0int }),
            {
                let at = places[k];
                proof {
                    assert(self.by_interval_end@[end]@[k as int] < held.len());
                }
                if self.records[at].station_code == incoming.station_code {
                    found = Some(at);
                } else {
                    k += 1;
                }
            }
        }
        proof {
            if found is None && self@.contains_key(incoming@.key()) {
                let i = choose|i: int| 0 <= i < held.len() && (#[trigger] held[i]).key() == incoming@.key();
                assert(held[i].keyed());
                assert(held.len() == self.records.len());
                assert(i == (i as usize) as int);
                assert(self.by_interval_end@.contains_key(end));
                let listed = self.by_interval_end@[end]@;
                assert(listed.contains(i as usize));
                let l = choose|l: int| 0 <= l < listed.len() && listed[l] == i as usize;
                assert(listed[l] as int == i);
                assert(held[listed[l] as int].station_code == incoming@.station_code);
            }
        }
        found
    }

    /// Enters a reading whose key is new, at the end.
    fn enter(&mut self, incoming: RawObservation)
        requires
            old(self).wf(),
            incoming@.keyed(),
            !old(self)@.contains_key(incoming@.key()),
        ensures
            final(self).wf(),
            final(self)@ == old(self)@.insert(incoming@.key(), incoming@),
            final(self).keys() == old(self).keys().push(incoming@.key()),
    {
        broadcast use vstd::std_specs::hash::group_hash_axioms;

        let end = match incoming.interval_end {
            Some(end) => end,
            None => {
                return ;
            },
        };
        let ghost before = views(self.records@);
        let ghost index_before = self.by_interval_end@;
        let ghost key = incoming@.key();
        let place = self.records.len();
        let mut places = match self.by_interval_end.remove(&end) {
            Some(places) => places,
            None => Vec::new(),
        };
        let ghost places_before = places@;
        places.push(place);
        self.by_interval_end.insert(end, places);
        self.table = Ghost(self.table@.insert(key, incoming@));
        self.records.push(incoming);
        proof {
            let after = views(self.records@);
            let index = self.by_interval_end@;
            assert(after =~= before.push(incoming@));
            assert(keys_of(after) =~= keys_of(before).push(key));
            assert forall|k: Key| #[trigger] self.table@.contains_key(k) implies exists|i: int|
                0 <= i < after.len() && (#[trigger] after[i]).key() == k by {
                if k == key {
                    assert(after[before.len() as int].key() == k);
                } else {
                    let i = choose|i: int| 0 <= i < before.len() && (#[trigger] before[i]).key() == k;
                    assert(after[i].key() == k);
                }
            }
            assert forall|i: int| 0 <= i < after.len() implies (#[trigger] after[i]).keyed()
                && self.table@.contains_key(after[i].key()) && self.table@[after[i].key()]
                == after[i] by {
                if i < before.len() {
                    assert(before[i].keyed());
                }
            }
            assert forall|i: int, j: int| 0 <= i < j < after.len() implies (#[trigger] after[i]).key()
                != (#[trigger] after[j]).key() by {
                if j < before.len() {
                    assert(before[i].key() != before[j].key());
                } else {
                    assert(before[i].keyed());
                }
            }
            assert(lists(after, self.table@));
            assert forall|other: i64, k: int|
                index.contains_key(other) && 0 <= k < index[other]@.len() implies (
            #[trigger] index[other]@[k]) < after.len() && after[index[other]@[k] as int].interval_end
                == Some(other) by {
                if other == end {
                    if k < places_before.len() {
                        assert(index_before[end]@[k] < before.len());
                    }
                } else {
                    assert(index_before[other]@[k] < before.len());
                }
            }
            assert forall|i: int| 0 <= i < after.len() implies index.contains_key(
                (#[trigger] after[i]).interval_end.unwrap(),
            ) && index[after[i].interval_end.unwrap()]@.contains(i as usize) by {
                if i < before.len() {
                    assert(before[i].keyed());
                    let other = before[i].interval_end.unwrap();
                    assert(index_before[other]@.contains(i as usize));
                    if other == end {
                        let l = choose|l: int| 0 <= l < places_before.len() && places_before[l] == i as usize;
                        assert(index[end]@[l] == i as usize);
                    }
                } else {
                    assert(index[end]@[places_before.len() as int] == i as usize);
                }
            }
        }
    }

    /// Puts a reading in the place of the one held under its key.
    fn replace(&mut self, at: usize, incoming: RawObservation)
        requires
            old(self).wf(),
            incoming@.keyed(),
            at < old(self).records.len(),
            old(self).records[at as int]@.key() == incoming@.key(),
        ensures
            final(self).wf(),
            final(self)@ == old(self)@.insert(incoming@.key(), incoming@),
            final(self).keys() == old(self).keys(),
    {
        let ghost before = views(self.records@);
        let ghost key = incoming@.key();
        proof {
            assert(before[at as int].keyed());
        }
        self.table = Ghost(self.table@.insert(key, incoming@));
        self.records.set(at, incoming);
        proof {
            let after = views(self.records@);
            let index = self.by_interval_end@;
            assert(after =~= before.update(at as int, incoming@));
            assert(keys_of(after) =~= keys_of(before));
            assert forall|k: Key| #[trigger] self.table@.contains_key(k) implies exists|i: int|
                0 <= i < after.len() && (#[trigger] after[i]).key() == k by {
                if k == key {
                    assert(after[at as int].key() == k);
                } else {
                    let i = choose|i: int| 0 <= i < before.len() && (#[trigger] before[i]).key() == k;
                    assert(after[i].key() == k);
                }
            }
            assert forall|i: int| 0 <= i < after.len() implies (#[trigger] after[i]).keyed()
                && self.table@.contains_key(after[i].key()) && self.table@[after[i].key()]
                == after[i] by {
                if i != at {
                    assert(before[i].keyed());
                    assert(before[i].key() != before[at as int].key());
                }
            }
            assert forall|i: int, j: int| 0 <= i < j < after.len() implies (#[trigger] after[i]).key()
                != (#[trigger] after[j]).key() by {
                assert(before[i].key() != before[j].key());
            }
            assert(lists(after, self.table@));
            assert forall|other: i64, k: int|
                index.contains_key(other) && 0 <= k < index[other]@.len() implies (
            #[trigger] index[other]@[k]) < after.len() && after[index[other]@[k] as int].interval_end
                == Some(other) by {
                assert(index[other]@[k] < before.len());
                assert(before[index[other]@[k] as int].interval_end == Some(other));
            }
            assert forall|i: int| 0 <= i < after.len() implies index.contains_key(
                (#[trigger] after[i]).interval_end.unwrap(),
            ) && index[after[i].interval_end.unwrap()]@.contains(i as usize) by {
                assert(before[i].keyed());
                assert(index[before[i].interval_end.unwrap()]@.contains(i as usize));
            }
        }
    }

    /// Folds one reading in: it enters where its key is new, replaces the
    /// reading held under its key where its snapshot is strictly later, and is
    /// dropped otherwise, or where it has no interval end.
    pub fn insert(&mut self, incoming: RawObservation)
        requires
            old(self).wf(),
        ensures
            final(self).wf(),
            final(self)@ == fold_in(old(self)@, incoming@),
            final(self).keys() == keys_after(old(self).keys(), old(self)@, incoming@),
    {
        if incoming.interval_end.is_none() {
            return ;
        }
        match self.find(&incoming) {
            None => {
                self.enter(incoming);
            },
            Some(at) => {
                proof {
                    assert(views(self.records@)[at as int].keyed());
                }
                if supersedes(&self.records[at], &incoming) {
                    self.replace(at, incoming);
                } else {
                    proof {
                        assert(self.table@ =~= fold_in(self.table@, incoming@));
                    }
                }
            },
        }
    }

    /// Hands the readings out, one for each key, in the order in which their
    /// keys were first seen.
    pub fn into_records(self) -> (records: Vec<ReconciledRecord>)
        requires
            self.wf(),
        ensures
            lists(views(records@), self@),
            keys_of(views(records@)) == self.keys(),
            views(records@) == self.keys().map_values(|key: Key| self@[key]),
    {
        proof {
            let held = views(self.records@);
            assert(held =~= keys_of(held).map_values(|key: Key| self.table@[key])) by {
                assert forall|i: int| 0 <= i < held.len() implies held[i] == self.table@[(
                #[trigger] keys_of(held)[i])] by {
                    assert(self.table@[held[i].key()] == held[i]);
                }
            }
        }
        self.records
    }
}

/// The readings of all batches, batch after batch, as one stream.
pub open spec fn stream_of(batches: Seq<Vec<RawObservation>>) -> Seq<ObservationView>
    decreases batches.len(),
{
    if batches.len() == 0 {
        Seq::empty()
    } else {
        stream_of(batches.drop_last()) + views(batches.last()@)
    }
}

/// Reconciles the readings of all files: the result holds one reading for each
/// station and interval end that occurs, the one that the fold of the whole
/// stream keeps, and none without an interval end. The records stand in the
/// order in which their keys are first seen in the stream, so the same input
/// gives the same records in the same order.
pub fn reconcile(batches: Vec<Vec<RawObservation>>) -> (records: Vec<ReconciledRecord>)
    ensures
        views(records@) == reconciled(stream_of(batches@)),
        lists(views(records@), merged(stream_of(batches@))),
        forall|i: int, j: int|
            0 <= i < j < records.len() ==> (#[trigger] records[i])@.key() != (#[trigger] records[j])@.key(),
{
    let mut store = Reconciler::new();
    let ghost all = batches@;
    for batch in outer: batches.into_iter()
        invariant
            outer.seq() == all,
            store.wf(),
            store@ == merged(stream_of(all.take(outer.index() as int))),
            store.keys() == first_seen(stream_of(all.take(outer.index() as int))),
    {
        let ghost done = stream_of(all.take(outer.index() as int));
        let ghost whole = batch@;
        for reading in inner: batch.into_iter()
            invariant
                inner.seq() == whole,
                store.wf(),
                store@ == merged(done + views(whole.take(inner.index() as int))),
                store.keys() == first_seen(done + views(whole.take(inner.index() as int))),
        {
            proof {
                let seen = whole.take(inner.index() as int);
                let next = whole.take(inner.index() + 1);
                assert(next.drop_last() =~= seen);
                assert(views(next) =~= views(seen).push(reading@));
                assert((done + views(next)).drop_last() =~= done + views(seen));
            }
            store.insert(reading);
        }
        proof {
            let next = all.take(outer.index() + 1);
            assert(whole.take(whole.len() as int) =~= whole);
            assert(next.drop_last() =~= all.take(outer.index() as int));
            assert(next.last() == batch);
        }
    }
    proof {
        assert(all.take(all.len() as int) =~= all);
    }
    let records = store.into_records();
    proof {
        assert forall|i: int, j: int| 0 <= i < j < records.len() implies (#[trigger] records[i])@.key()
            != (#[trigger] records[j])@.key() by {
            assert(views(records@)[i].key() != views(records@)[j].key());
        }
    }
    records
}

/// Whether `stream[at]` is the reading that the fold keeps for its key: no
/// reading of that key comes from a later snapshot, and those before it come
/// from strictly earlier ones.
pub open spec fn kept_at(stream: Seq<ObservationView>, at: int) -> bool {
    &&& 0 <= at < stream.len()
    &&& stream[at].keyed()
    &&& forall|i: int|
        0 <= i < stream.len() && (#[trigger] stream[i]).keyed() && stream[i].key() == stream[at].key()
            ==> stream[i].download_time <= stream[at].download_time && (i < at
            ==> stream[i].download_time < stream[at].download_time)
}

/// Folding a reading in twice gives what folding it in once gives.
pub proof fn law_fold_idempotent(table: Map<Key, ObservationView>, reading: ObservationView)
    ensures
        fold_in(fold_in(table, reading), reading) == fold_in(table, reading),
{
    assert(fold_in(fold_in(table, reading), reading) =~= fold_in(table, reading));
}

/// A stream that ends with the same reading twice reconciles to what it
/// reconciles to with that reading once; alone, the reading is what is kept.
pub proof fn law_merge_idempotent(stream: Seq<ObservationView>, reading: ObservationView)
    ensures
        merged(stream.push(reading).push(reading)) == merged(stream.push(reading)),
        reading.keyed() ==> merged(seq![reading, reading]) == merged(seq![reading]) && merged(
            seq![reading],
        ) == Map::<Key, ObservationView>::empty().insert(reading.key(), reading),
{
    let once = stream.push(reading);
    let twice = once.push(reading);
    assert(twice.drop_last() =~= once);
    assert(once.drop_last() =~= stream);
    law_fold_idempotent(merged(stream), reading);
    let single = seq![reading];
    let double = seq![reading, reading];
    assert(single.drop_last() =~= Seq::<ObservationView>::empty());
    assert(double.drop_last() =~= single);
    assert(merged(single.drop_last()) == Map::<Key, ObservationView>::empty());
    law_fold_idempotent(Map::empty(), reading);
}

/// Two readings that do not tie (same key, same snapshot time, different
/// values) may be folded in in either order.
pub proof fn law_fold_commutes(
    table: Map<Key, ObservationView>,
    first: ObservationView,
    second: ObservationView,
)
    requires
        first == second || !(first.keyed() && second.keyed() && first.key() == second.key()
            && first.download_time == second.download_time),
    ensures
        fold_in(fold_in(table, first), second) == fold_in(fold_in(table, second), first),
{
    assert(fold_in(fold_in(table, first), second) =~= fold_in(fold_in(table, second), first));
}

/// Of two readings with one key, the one of the later snapshot is kept with
/// all its fields, whichever comes first.
pub proof fn law_last_writer_wins(earlier: ObservationView, later: ObservationView)
    requires
        earlier.keyed(),
        later.keyed(),
        earlier.key() == later.key(),
        earlier.download_time < later.download_time,
    ensures
        merged(seq![earlier, later]) == Map::<Key, ObservationView>::empty().insert(
            later.key(),
            later,
        ),
        merged(seq![later, earlier]) == merged(seq![earlier, later]),
{
    let forth = seq![earlier, later];
    let back = seq![later, earlier];
    assert(forth.drop_last() =~= seq![earlier]);
    assert(back.drop_last() =~= seq![later]);
    assert(seq![earlier].drop_last() =~= Seq::<ObservationView>::empty());
    assert(seq![later].drop_last() =~= Seq::<ObservationView>::empty());
    assert(merged(seq![earlier].drop_last()) == Map::<Key, ObservationView>::empty());
    assert(merged(seq![later].drop_last()) == Map::<Key, ObservationView>::empty());
    let none = Map::<Key, ObservationView>::empty();
    assert(merged(seq![earlier]) == fold_in(none, earlier));
    assert(merged(seq![later]) == fold_in(none, later));
    assert(forth.last() == later && back.last() == earlier);
    assert(merged(forth) == fold_in(fold_in(none, earlier), later));
    assert(merged(back) == fold_in(fold_in(none, later), earlier));
    assert(merged(forth) =~= none.insert(later.key(), later));
    assert(merged(back) =~= none.insert(later.key(), later));
}

/// The table of a stream has an entry for exactly the keys that occur in it,
/// and each entry is the first reading among those of the latest snapshot for
/// that key.
pub proof fn law_merged_keeps_latest(stream: Seq<ObservationView>)
    ensures
        forall|i: int|
            0 <= i < stream.len() && (#[trigger] stream[i]).keyed() ==> merged(stream).contains_key(
                stream[i].key(),
            ),
        forall|key: Key| #[trigger]
            merged(stream).contains_key(key) ==> exists|at: int|
                #[trigger] kept_at(stream, at) && stream[at].key() == key && merged(stream)[key]
                    == stream[at],
    decreases stream.len(),
{
    if stream.len() > 0 {
        let rest = stream.drop_last();
        let last = stream.last();
        let end = stream.len() - 1;
        law_merged_keeps_latest(rest);
        assert forall|i: int| 0 <= i < stream.len() && (#[trigger] stream[i]).keyed() implies merged(
            stream,
        ).contains_key(stream[i].key()) by {
            if i < end {
                assert(rest[i].keyed());
            }
        }
        assert forall|key: Key| #[trigger] merged(stream).contains_key(key) implies exists|at: int|
            #[trigger] kept_at(stream, at) && stream[at].key() == key && merged(stream)[key]
                == stream[at] by {
            if merged(rest).contains_key(key) {
                let at = choose|at: int|
                    #[trigger] kept_at(rest, at) && rest[at].key() == key && merged(rest)[key]
                        == rest[at];
                if last.keyed() && last.key() == key && rest[at].download_time
                    < last.download_time {
                    assert forall|i: int|
                        0 <= i < stream.len() && (#[trigger] stream[i]).keyed() && stream[i].key()
                            == key implies stream[i].download_time <= last.download_time && (i
                        < end ==> stream[i].download_time < last.download_time) by {
                        if i < end {
                            assert(rest[i].keyed());
                        }
                    }
                    assert(kept_at(stream, end));
                } else {
                    assert forall|i: int|
                        0 <= i < stream.len() && (#[trigger] stream[i]).keyed() && stream[i].key()
                            == key implies stream[i].download_time <= stream[at].download_time
                        && (i < at ==> stream[i].download_time < stream[at].download_time) by {
                        if i < end {
                            assert(rest[i].keyed());
                        }
                    }
                    assert(kept_at(stream, at));
                }
            } else {
                assert forall|i: int|
                    0 <= i < stream.len() && (#[trigger] stream[i]).keyed() && stream[i].key()
                        == key implies i == end by {
                    if i < end {
                        assert(rest[i].keyed());
                    }
                }
                assert(kept_at(stream, end));
            }
        }
    }
}

/// The place of the first reading with `key` in the stream, and the
/// stream's length where there is none.
pub open spec fn first_place(stream: Seq<ObservationView>, key: Key) -> int
    decreases stream.len(),
{
    if stream.len() == 0 {
        0
    } else {
        let before = first_place(stream.drop_last(), key);
        if before < stream.len() - 1 {
            before
        } else if stream.last().keyed() && stream.last().key() == key {
            stream.len() - 1
        } else {
            stream.len() as int
        }
    }
}

/// `first_place` is the place of the first reading with the key, and the
/// table of the stream has the key exactly where there is such a place.
pub proof fn law_first_place(stream: Seq<ObservationView>, key: Key)
    ensures
        0 <= first_place(stream, key) <= stream.len(),
        first_place(stream, key) < stream.len() ==> stream[first_place(stream, key)].keyed()
            && stream[first_place(stream, key)].key() == key,
        forall|i: int|
            0 <= i < first_place(stream, key) ==> !((#[trigger] stream[i]).keyed() && stream[i].key()
                == key),
        first_place(stream, key) < stream.len() <==> merged(stream).contains_key(key),
    decreases stream.len(),
{
    if stream.len() > 0 {
        let rest = stream.drop_last();
        law_first_place(rest, key);
        assert forall|i: int| 0 <= i < first_place(stream, key) implies !((#[trigger] stream[i]).keyed()
            && stream[i].key() == key) by {
            if i < rest.len() {
                assert(stream[i] == rest[i]);
            }
        }
        if first_place(rest, key) < rest.len() {
            assert(stream[first_place(rest, key)] == rest[first_place(rest, key)]);
        }
    }
}

/// The reconciled records stand in the order of the first places of their
/// keys in the stream: a key that is first seen earlier comes earlier.
pub proof fn law_first_seen_by_first_place(stream: Seq<ObservationView>)
    ensures
        forall|i: int|
            0 <= i < first_seen(stream).len() ==> first_place(
                stream,
                #[trigger] first_seen(stream)[i],
            ) < stream.len(),
        forall|i: int, j: int|
            0 <= i < j < first_seen(stream).len() ==> first_place(
                stream,
                #[trigger] first_seen(stream)[i],
            ) < first_place(stream, #[trigger] first_seen(stream)[j]),
    decreases stream.len(),
{
    if stream.len() > 0 {
        let rest = stream.drop_last();
        let last = stream.last();
        let keys = first_seen(stream);
        let earlier = first_seen(rest);
        law_first_seen_by_first_place(rest);
        assert forall|i: int| 0 <= i < keys.len() implies first_place(stream, #[trigger] keys[i])
            < stream.len() by {
            if i < earlier.len() {
                assert(keys[i] == earlier[i]);
            } else {
                law_first_place(rest, last.key());
            }
        }
        assert forall|i: int, j: int| 0 <= i < j < keys.len() implies first_place(
            stream,
            #[trigger] keys[i],
        ) < first_place(stream, #[trigger] keys[j]) by {
            assert(keys[i] == earlier[i]);
            if j < earlier.len() {
                assert(keys[j] == earlier[j]);
            } else {
                law_first_place(rest, last.key());
            }
        }
    }
}

/// A list of `size` records without a repeated key has a table of `size` entries.
proof fn lemma_listed_size(records: Seq<ObservationView>, table: Map<Key, ObservationView>)
    requires
        lists(records, table),
    ensures
        table.dom().finite(),
        table.dom().len() == records.len(),
    decreases records.len(),
{
    if records.len() == 0 {
        assert(table.dom() =~= Set::<Key>::empty());
    } else {
        let last = records.last();
        let rest = records.drop_last();
        let smaller = table.remove(last.key());
        assert forall|key: Key| #[trigger] smaller.contains_key(key) implies exists|i: int|
            0 <= i < rest.len() && (#[trigger] rest[i]).key() == key by {
            let i = choose|i: int| 0 <= i < records.len() && (#[trigger] records[i]).key() == key;
            assert(rest[i].key() == key);
        }
        assert forall|i: int| 0 <= i < rest.len() implies smaller.contains_key(
            (#[trigger] rest[i]).key(),
        ) && smaller[rest[i].key()] == rest[i] by {
            assert(records[i].key() != records[records.len() - 1].key());
        }
        assert(lists(rest, smaller)) by {
            assert forall|i: int| 0 <= i < rest.len() implies (#[trigger] rest[i]).keyed() by {
                assert(records[i].keyed());
            }
            assert forall|i: int, j: int| 0 <= i < j < rest.len() implies (#[trigger] rest[i]).key()
                != (#[trigger] rest[j]).key() by {
                assert(records[i].key() != records[j].key());
            }
        }
        lemma_listed_size(rest, smaller);
        assert(table.contains_key(records[records.len() - 1].key()));
        assert(table.dom() =~= smaller.dom().insert(last.key()));
    }
}

} // verus!
