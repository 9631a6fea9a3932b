//! The accumulator table: one entry of running statistics per key identity.
//!
//! Entries live in slots, in the order in which their keys were entered. An `FxHashMap`
//! of rustc-hash finds the slot of an identity. A worker owns its table exclusively while it
//! scans; tables of different workers are brought together with `merge`.

use crate::key::{fx_hash, hash_station_name};
use crate::model::{newcomers, TableView};
use crate::stats::{StationReadings, Totals};
use crate::tally::{bare, merged};
use rustc_hash::FxHashMap;
use vstd::prelude::*;
use vstd::slice::slice_to_vec;

verus! {

/// The hasher factory of rustc-hash that `FxHashMap` is built on. Verus sees nothing
/// inside it.
#[verifier::external_type_specification]
#[verifier::external_body]
pub struct ExFxBuildHasher(rustc_hash::FxBuildHasher);

/// Calls `HashMap::get` on an `FxHashMap` with `u64` keys.
///
/// Trusted: the call returns the slot that was last inserted under `id`, and `None` when
/// none was. This is what a hash map does when keys hash and compare the same way every
/// time, as `u64` keys do under the seedless hasher of rustc-hash.
#[verifier::external_body]
fn index_get(index: &FxHashMap<u64, usize>, id: u64) -> (slot: Option<usize>)
    ensures
        slot == (if index@.contains_key(id) {
            Some(index@[id])
        } else {
            None
        }),
{
    index.get(&id).copied()
}

/// Calls `HashMap::insert` on an `FxHashMap` with `u64` keys.
///
/// Trusted: afterwards the map holds `slot` under `id`, in place of what it held under
/// `id` before, and is otherwise unchanged.
#[verifier::external_body]
fn index_insert(index: &mut FxHashMap<u64, usize>, id: u64, slot: usize)
    ensures
        final(index)@ == old(index)@.insert(id, slot),
{
    index.insert(id, slot);
}

/// Per-key running statistics, keyed by key identity.
pub struct StationTable {
    index: FxHashMap<u64, usize>,
    ids: Vec<u64>,
    names: Vec<Vec<u8>>,
    readings: Vec<StationReadings>,
    closed: bool,
    seen: usize,
}

impl View for StationTable {
    type V = TableView;

    closed spec fn view(&self) -> TableView {
        TableView {
            totals: Map::new(
                |k: u64| self.index@.contains_key(k),
                |k: u64| self.readings@[self.index@[k] as int]@,
            ),
            stations: Seq::new(self.ids@.len(), |i: int| (self.ids@[i], self.names@[i]@)),
            closed: self.closed,
            seen: self.seen as nat,
        }
    }
}

impl StationTable {
    /// The index finds exactly the slots, each under the identity it holds, and every slot
    /// holds valid statistics of at most `bound` values.
    spec fn inv(&self, bound: nat) -> bool {
        &&& self.ids@.len() == self.names@.len()
        &&& self.ids@.len() == self.readings@.len()
        &&& forall|k: u64| #[trigger]
            self.index@.contains_key(k) ==> (self.index@[k] as int) < self.ids@.len()
                && self.ids@[self.index@[k] as int] == k
        &&& forall|i: int|
            0 <= i < self.ids@.len() ==> self.index@.contains_key(#[trigger] self.ids@[i])
                && self.index@[self.ids@[i]] == i
        &&& forall|i: int|
            0 <= i < self.readings@.len() ==> (#[trigger] self.readings@[i]).valid()
                && self.readings@[i]@.count <= bound
    }

    /// The table is consistent, and no key has more values than readings were offered.
    pub closed spec fn wf(&self) -> bool {
        self.inv(self.seen as nat)
    }

    /// A well-formed table has a valid view.
    pub proof fn lemma_view_valid(&self)
        requires
            self.wf(),
        ensures
            self@.valid(),
            self@.seen <= usize::MAX,
            self@.stations.len() <= usize::MAX,
    {
        let view = self@;
        assert(self.ids@.len() == self.ids.len());
        assert forall|k: u64| #[trigger] view.totals.contains_key(k) implies view.totals[k].valid()
            && view.totals[k].count <= view.seen by {
            assert(self.index@.contains_key(k));
            assert(self.readings@[self.index@[k] as int].valid());
        }
        assert forall|i: int| 0 <= i < view.stations.len() implies view.totals.contains_key(
            #[trigger] view.stations[i].0,
        ) by {
            assert(self.index@.contains_key(self.ids@[i]));
        }
        assert forall|i: int, j: int| 0 <= i < j < view.stations.len() implies #[trigger]
            view.stations[i].0 != #[trigger] view.stations[j].0 by {
            assert(self.index@[self.ids@[i]] == i);
            assert(self.index@[self.ids@[j]] == j);
        }
        assert forall|k: u64| #[trigger] view.totals.contains_key(k) implies exists|i: int|
            0 <= i < view.stations.len() && #[trigger] view.stations[i].0 == k by {
            assert(self.index@.contains_key(k));
            let i = self.index@[k] as int;
            assert(view.stations[i].0 == k);
        }
    }

    /// An open table without keys.
    pub fn new() -> (table: Self)
        ensures
            table.wf(),
            table@.totals == Map::<u64, Totals>::empty(),
            table@.stations == Seq::<(u64, Seq<u8>)>::empty(),
            !table@.closed,
            table@.seen == 0,
    {
        let table = StationTable {
            index: FxHashMap::default(),
            ids: Vec::new(),
            names: Vec::new(),
            readings: Vec::new(),
            closed: false,
            seen: 0,
        };
        assert(table@.totals =~= Map::<u64, Totals>::empty());
        assert(table@.stations =~= Seq::<(u64, Seq<u8>)>::empty());
        table
    }

    /// Number of keys held.
    pub fn len(&self) -> (n: usize)
        requires
            self.wf(),
        ensures
            n == self@.stations.len(),
    {
        self.ids.len()
    }

    /// Number of readings offered so far.
    pub fn seen(&self) -> (n: usize)
        ensures
            n == self@.seen,
    {
        self.seen
    }

    /// Whether readings of keys not held are dropped.
    pub fn is_closed(&self) -> (closed: bool)
        ensures
            closed == self@.closed,
    {
        self.closed
    }

    /// The statistics held under `id`.
    pub fn lookup(&self, id: u64) -> (found: Option<StationReadings>)
        requires
            self.wf(),
        ensures
            match found {
                Some(readings) => self@.totals.contains_key(id) && readings@ == self@.totals[id]
                    && readings.valid(),
                None => !self@.totals.contains_key(id),
            },
    {
        match index_get(&self.index, id) {
            Some(slot) => Some(self.readings[slot]),
            None => None,
        }
    }

    /// The statistics held for the key `name`.
    pub fn get(&self, name: &[u8]) -> (found: Option<StationReadings>)
        requires
            self.wf(),
        ensures
            match found {
                Some(readings) => self@.totals.contains_key(fx_hash(name@)) && readings@
                    == self@.totals[fx_hash(name@)] && readings.valid(),
                None => !self@.totals.contains_key(fx_hash(name@)),
            },
    {
        self.lookup(hash_station_name(name))
    }

    /// Identity of the key in `slot`.
    pub fn id_at(&self, slot: usize) -> (id: u64)
        requires
            self.wf(),
            slot < self@.stations.len(),
        ensures
            id == self@.stations[slot as int].0,
    {
        self.ids[slot]
    }

    /// Name of the key in `slot`.
    pub fn name_at(&self, slot: usize) -> (name: &[u8])
        requires
            self.wf(),
            slot < self@.stations.len(),
        ensures
            name@ == self@.stations[slot as int].1,
    {
        self.names[slot].as_slice()
    }

    /// Statistics of the key in `slot`.
    pub fn readings_at(&self, slot: usize) -> (readings: StationReadings)
        requires
            self.wf(),
            slot < self@.stations.len(),
        ensures
            self@.totals.contains_key(self@.stations[slot as int].0),
            readings@ == self@.totals[self@.stations[slot as int].0],
            readings.valid(),
    {
        assert(self.index@.contains_key(self.ids@[slot as int]));
        self.readings[slot]
    }

    /// Makes the table closed: from now on readings of keys it does not hold are dropped.
    pub fn close(&mut self)
        requires
            old(self).wf(),
        ensures
            final(self).wf(),
            final(self)@ == old(self)@.close(),
    {
        self.closed = true;
        assert(self@.totals =~= old(self)@.totals);
        assert(self@.stations =~= old(self)@.stations);
    }

    /// Enters the key `name` under `id`.
    ///
    /// An identity that is not held yet gets a slot with nothing seen. An identity that is
    /// held keeps its slot and its statistics and takes the new name.
    pub fn enter(&mut self, id: u64, name: &[u8])
        requires
            old(self).wf(),
        ensures
            final(self).wf(),
            final(self)@ == old(self)@.enter(id, name@),
    {
        match index_get(&self.index, id) {
            Some(slot) => {
                self.names[slot] = slice_to_vec(name);
                proof {
                    assert(self@.totals =~= old(self)@.totals);
                    assert forall|i: int| 0 <= i < self.ids@.len() implies self@.stations[i]
                        == old(self)@.enter(id, name@).stations[i] by {
                        assert(self.index@[self.ids@[i]] == i);
                    }
                    assert(self@.stations =~= old(self)@.enter(id, name@).stations);
                }
            },
            None => {
                self.push_slot(id, name, StationReadings::new(), Ghost(self.seen as nat));
            },
        }
    }

    /// Appends a slot for an identity that the table does not hold.
    fn push_slot(
        &mut self,
        id: u64,
        name: &[u8],
        readings: StationReadings,
        Ghost(bound): Ghost<nat>,
    )
        requires
            old(self).inv(bound),
            !old(self)@.totals.contains_key(id),
            readings.valid(),
            readings@.count <= bound,
        ensures
            final(self).inv(bound),
            final(self)@.totals == old(self)@.totals.insert(id, readings@),
            final(self)@.stations == old(self)@.stations.push((id, name@)),
            final(self).closed == old(self).closed,
            final(self).seen == old(self).seen,
    {
        let slot = self.ids.len();
        index_insert(&mut self.index, id, slot);
        self.ids.push(id);
        self.names.push(slice_to_vec(name));
        self.readings.push(readings);
        proof {
            assert forall|k: u64| #[trigger] self.index@.contains_key(k) implies (
            self.index@[k] as int) < self.ids@.len() && self.ids@[self.index@[k] as int] == k by {
                if k != id {
                    assert(old(self).index@.contains_key(k));
                }
            }
            assert forall|i: int| 0 <= i < self.ids@.len() implies self.index@.contains_key(
                #[trigger] self.ids@[i],
            ) && self.index@[self.ids@[i]] == i by {
                if i < slot {
                    assert(old(self).index@.contains_key(old(self).ids@[i]));
                }
            }
            assert forall|k: u64| #[trigger] self@.totals.contains_key(k) implies self@.totals[k]
                == old(self)@.totals.insert(id, readings@)[k] by {
                if k != id {
                    assert(old(self).index@.contains_key(k));
                }
            }
            assert(self@.totals =~= old(self)@.totals.insert(id, readings@));
            assert(self@.stations =~= old(self)@.stations.push((id, name@)));
        }
    }

    /// Replaces the statistics of a slot.
    fn set_slot(&mut self, slot: usize, readings: StationReadings, Ghost(bound): Ghost<nat>)
        requires
            old(self).inv(bound),
            slot < old(self).ids@.len(),
            readings.valid(),
            readings@.count <= bound,
        ensures
            final(self).inv(bound),
            final(self)@.totals == old(self)@.totals.insert(
                old(self)@.stations[slot as int].0,
                readings@,
            ),
            final(self)@.stations == old(self)@.stations,
            final(self).closed == old(self).closed,
            final(self).seen == old(self).seen,
    {
        let ghost id = self.ids@[slot as int];
        self.readings[slot] = readings;
        proof {
            assert(self.index@.contains_key(id));
            assert forall|k: u64| #[trigger] self@.totals.contains_key(k) implies self@.totals[k]
                == old(self)@.totals.insert(id, readings@)[k] by {
                if k != id {
                    assert(self.index@[k] != slot);
                }
            }
            assert(self@.totals =~= old(self)@.totals.insert(id, readings@));
            assert(self@.stations =~= old(self)@.stations);
        }
    }

    /// Counts `more` readings as offered.
    fn count_seen(&mut self, more: usize, Ghost(bound): Ghost<nat>)
        requires
            old(self).inv(bound),
            old(self).seen + more <= usize::MAX,
        ensures
            final(self).inv(bound),
            final(self)@.totals == old(self)@.totals,
            final(self)@.stations == old(self)@.stations,
            final(self).closed == old(self).closed,
            final(self).seen == old(self).seen + more,
    {
        self.seen = self.seen + more;
        proof {
            assert(self@.totals =~= old(self)@.totals);
            assert(self@.stations =~= old(self)@.stations);
        }
    }

    /// A bound on the values per key may be raised.
    proof fn lemma_inv_widens(&self, bound: nat, wider: nat)
        requires
            self.inv(bound),
            bound <= wider,
        ensures
            self.inv(wider),
    {
    }

    /// Offers one reading to the table.
    ///
    /// A key that is held gets the update rule. A key that is not held is entered under
    /// `name` with the reading as its first value, unless the table is closed, which drops the
    /// reading.
    pub fn observe(&mut self, id: u64, name: &[u8], value: i32)
        requires
            old(self).wf(),
            old(self)@.seen < usize::MAX,
        ensures
            final(self).wf(),
            final(self)@ == old(self)@.observe(id, name@, value),
    {
        let ghost bound = (self.seen + 1) as nat;
        proof {
            self.lemma_inv_widens(self.seen as nat, bound);
        }
        match index_get(&self.index, id) {
            Some(slot) => {
                let mut readings = self.readings[slot];
                readings.record(value);
                self.set_slot(slot, readings, Ghost(bound));
            },
            None => {
                if !self.closed {
                    let mut readings = StationReadings::new();
                    readings.record(value);
                    self.push_slot(id, name, readings, Ghost(bound));
                }
            },
        }
        self.count_seen(1, Ghost(bound));
    }

    /// Resolves the key `name` and offers one reading of it to the table.
    pub fn record(&mut self, name: &[u8], value: i32)
        requires
            old(self).wf(),
            old(self)@.seen < usize::MAX,
        ensures
            final(self).wf(),
            final(self)@ == old(self)@.observe(fx_hash(name@), name@, value),
    {
        self.observe(hash_station_name(name), name, value);
    }

    /// Takes in the statistics of one key that another table gathered.
    fn take_in(&mut self, id: u64, name: &[u8], readings: StationReadings, Ghost(bound): Ghost<nat>)
        requires
            old(self).inv(bound),
            readings.valid(),
            bound <= usize::MAX,
            readings@.count <= bound,
            old(self)@.totals.contains_key(id) ==> old(self)@.totals[id].count + readings@.count
                <= bound,
        ensures
            final(self).inv(bound),
            final(self)@.totals == old(self)@.totals.insert(
                id,
                if old(self)@.totals.contains_key(id) {
                    old(self)@.totals[id].combine(readings@)
                } else {
                    readings@
                },
            ),
            final(self)@.stations == (if old(self)@.totals.contains_key(id) {
                old(self)@.stations
            } else {
                old(self)@.stations.push((id, name@))
            }),
            final(self).closed == old(self).closed,
            final(self).seen == old(self).seen,
    {
        match index_get(&self.index, id) {
            Some(slot) => {
                let mut sum = self.readings[slot];
                assert(self@.totals.contains_key(id));
                sum.merge(&readings);
                self.set_slot(slot, sum, Ghost(bound));
            },
            None => {
                self.push_slot(id, name, readings, Ghost(bound));
            },
        }
    }

    /// Merges the table that another worker gathered into this one.
    ///
    /// Counts and sums are added, minima and maxima taken, key by key. The other table is
    /// left as it is.
    pub fn merge(&mut self, other: &StationTable)
        requires
            old(self).wf(),
            other.wf(),
            old(self)@.seen + other@.seen <= usize::MAX,
        ensures
            final(self).wf(),
            final(self)@ == old(self)@.merge(other@),
    {
        let n = other.ids.len();
        let ghost bound = (self.seen + other.seen) as nat;
        let ghost before = self@;
        proof {
            self.lemma_inv_widens(self.seen as nat, bound);
            old(self).lemma_view_valid();
            assert(newcomers(before.totals, other@.stations.take(0)) =~= Seq::empty());
            assert(self@.stations =~= before.stations + Seq::<(u64, Seq<u8>)>::empty());
            assert(self@.totals =~= merged(before.totals, other.taken(0)));
        }
        let mut i: usize = 0;
        while i < n
            invariant
                0 <= i <= n,
                n == other.ids@.len(),
                other.wf(),
                self.inv(bound),
                before.valid(),
                before == old(self)@,
                bound == before.seen + other.seen,
                bound <= usize::MAX,
                self.seen == before.seen,
                self.closed == before.closed,
                self@.totals == merged(before.totals, other.taken(i as int)),
                self@.stations == before.stations + newcomers(
                    before.totals,
                    other@.stations.take(i as int),
                ),
            decreases n - i,
        {
            let id = other.ids[i];
            let readings = other.readings[i];
            let ghost held = self@.totals;
            proof {
                assert(other.index@.contains_key(id) && other.index@[id] == i);
                assert(!other.taken(i as int).contains_key(id));
                if held.contains_key(id) {
                    assert(before.totals.contains_key(id));
                    assert(held[id] == before.totals[id]);
                }
            }
            self.take_in(id, other.names[i].as_slice(), readings, Ghost(bound));
            proof {
                let next = other.taken(i + 1);
                assert forall|k: u64| #[trigger] self@.totals.contains_key(k) implies self@.totals[k]
                    == merged(before.totals, next)[k] by {
                    if k != id && other.index@.contains_key(k) {
                        assert(other.index@[k] != i);
                    }
                }
                assert forall|k: u64| #[trigger]
                    merged(before.totals, next).contains_key(k) implies self@.totals.contains_key(
                    k,
                ) by {
                    if k != id && other.index@.contains_key(k) {
                        assert(other.index@[k] != i);
                    }
                }
                assert(self@.totals =~= merged(before.totals, next));
                let upto = other@.stations.take(i + 1);
                assert(upto.drop_last() =~= other@.stations.take(i as int));
                assert(upto.last() == (id, other.names@[i as int]@));
                assert(self@.stations =~= before.stations + newcomers(before.totals, upto));
            }
            i += 1;
        }
        self.count_seen(other.seen, Ghost(bound));
        proof {
            assert(other.taken(n as int) =~= other@.totals);
            assert(other@.stations.take(n as int) =~= other@.stations);
        }
    }

    /// The statistics of the keys in the slots before `upto`.
    closed spec fn taken(&self, upto: int) -> Map<u64, Totals> {
        Map::new(
            |k: u64| self.index@.contains_key(k) && self.index@[k] < upto,
            |k: u64| self.readings@[self.index@[k] as int]@,
        )
    }

    /// A table with the same keys, names and policy, and nothing seen: what each worker
    /// starts from.
    pub fn fresh(&self) -> (table: StationTable)
        requires
            self.wf(),
        ensures
            table.wf(),
            table@ == self@.fresh(),
    {
        let n = self.ids.len();
        let mut table = StationTable::new();
        let mut i: usize = 0;
        while i < n
            invariant
                0 <= i <= n,
                n == self.ids@.len(),
                self.wf(),
                table.inv(0),
                table.seen == 0,
                !table.closed,
                table@.stations == self@.stations.take(i as int),
                forall|k: u64| #[trigger]
                    self.index@.contains_key(k) && self.index@[k] < i
                        ==> table@.totals.contains_key(k),
                forall|k: u64| #[trigger]
                    table@.totals.contains_key(k) ==> self.index@.contains_key(k)
                        && self.index@[k] < i && table@.totals[k] == Totals::empty(),
            decreases n - i,
        {
            let id = self.ids[i];
            proof {
                assert(self.index@.contains_key(id) && self.index@[id] == i);
            }
            table.push_slot(id, self.names[i].as_slice(), StationReadings::new(), Ghost(0nat));
            proof {
                assert(table@.stations =~= self@.stations.take(i + 1));
                assert forall|k: u64| #[trigger]
                    self.index@.contains_key(k) && self.index@[k] < i
                        + 1 implies table@.totals.contains_key(k) by {
                    if k != id {
                        assert(self.index@[k] != i);
                    }
                }
            }
            i += 1;
        }
        let ghost filled = table@;
        table.closed = self.closed;
        proof {
            assert(table@.totals =~= filled.totals);
            assert(table@.stations =~= filled.stations);
            assert(table@.stations =~= self@.stations);
            assert forall|k: u64| #[trigger]
                self@.totals.contains_key(k) implies filled.totals.contains_key(k) by {
                assert(self.index@.contains_key(k) && self.index@[k] < n);
            }
            assert(table@.totals =~= bare(self@.totals));
        }
        table
    }
}

} // verus!
