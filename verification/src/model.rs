//! What a table is, as plain mathematics, and what the operations on tables do to it.

use crate::stats::Totals;
use crate::tally::{
    absorb, bare, lemma_absorb_merged, lemma_absorb_sound, lemma_merged_associates,
    lemma_merged_commutes, lemma_merged_sound, lemma_tally_keys, merged, pristine, readings_of,
    sound, tally, Entry,
};
use vstd::prelude::*;

verus! {

/// The stations of `incoming` whose identity `held` lacks, in their order.
pub open spec fn newcomers(held: Map<u64, Totals>, incoming: Seq<(u64, Seq<u8>)>) -> Seq<
    (u64, Seq<u8>),
>
    decreases incoming.len(),
{
    if incoming.len() == 0 {
        Seq::empty()
    } else if held.contains_key(incoming.last().0) {
        newcomers(held, incoming.drop_last())
    } else {
        newcomers(held, incoming.drop_last()).push(incoming.last())
    }
}

/// What a table holds, as plain mathematics.
pub struct TableView {
    /// Statistics by key identity.
    pub totals: Map<u64, Totals>,
    /// Identity and name of each key, in slot order.
    pub stations: Seq<(u64, Seq<u8>)>,
    /// A closed table drops readings of keys it does not hold.
    pub closed: bool,
    /// Number of readings offered to the table so far, dropped ones included.
    pub seen: nat,
}

impl TableView {
    /// The slots list each key of `totals` exactly once, and the statistics are those of at
    /// most `seen` values each.
    pub open spec fn valid(self) -> bool {
        &&& sound(self.totals, self.seen)
        &&& forall|i: int|
            0 <= i < self.stations.len() ==> self.totals.contains_key(#[trigger] self.stations[i].0)
        &&& forall|i: int, j: int|
            0 <= i < j < self.stations.len() ==> #[trigger] self.stations[i].0
                != #[trigger] self.stations[j].0
        &&& forall|k: u64| #[trigger]
            self.totals.contains_key(k) ==> exists|i: int|
                0 <= i < self.stations.len() && #[trigger] self.stations[i].0 == k
    }

    /// The table after one reading of the key `name`, whose identity is `id`.
    pub open spec fn observe(self, id: u64, name: Seq<u8>, value: i32) -> TableView {
        TableView {
            totals: absorb(self.totals, self.closed, id, value as int),
            stations: if self.totals.contains_key(id) || self.closed {
                self.stations
            } else {
                self.stations.push((id, name))
            },
            closed: self.closed,
            seen: self.seen + 1,
        }
    }

    /// The table after the key `name` was entered under `id`: a new identity gets a slot
    /// with nothing seen, an identity that is held gets the new name.
    pub open spec fn enter(self, id: u64, name: Seq<u8>) -> TableView {
        TableView {
            totals: if self.totals.contains_key(id) {
                self.totals
            } else {
                self.totals.insert(id, Totals::empty())
            },
            stations: if self.totals.contains_key(id) {
                Seq::new(
                    self.stations.len(),
                    |i: int|
                        if self.stations[i].0 == id {
                            (id, name)
                        } else {
                            self.stations[i]
                        },
                )
            } else {
                self.stations.push((id, name))
            },
            closed: self.closed,
            seen: self.seen,
        }
    }

    /// The table after the table of another worker was merged into it. Keys that only the
    /// other table holds follow the keys held, in the other table's order.
    pub open spec fn merge(self, other: TableView) -> TableView {
        TableView {
            totals: merged(self.totals, other.totals),
            stations: self.stations + newcomers(self.totals, other.stations),
            closed: self.closed,
            seen: self.seen + other.seen,
        }
    }

    /// A table with the same keys, names and policy, and nothing seen.
    pub open spec fn fresh(self) -> TableView {
        TableView {
            totals: bare(self.totals),
            stations: self.stations,
            closed: self.closed,
            seen: 0,
        }
    }

    /// The same table, closed.
    pub open spec fn close(self) -> TableView {
        TableView { closed: true, ..self }
    }

    /// The table after a sequence of entries, observed in order.
    pub open spec fn observe_all(self, entries: Seq<Entry>) -> TableView
        decreases entries.len(),
    {
        if entries.len() == 0 {
            self
        } else {
            self.observe_all(entries.drop_last()).observe(
                entries.last().id,
                entries.last().name,
                entries.last().value,
            )
        }
    }

    /// The table after a batch of readings that come without their keys: a key that has to
    /// be entered gets the empty name.
    pub open spec fn apply_all(self, readings: Seq<(u64, i32)>) -> TableView
        decreases readings.len(),
    {
        if readings.len() == 0 {
            self
        } else {
            self.apply_all(readings.drop_last()).observe(
                readings.last().0,
                Seq::empty(),
                readings.last().1,
            )
        }
    }

    /// The table after a list of keys was entered, in order.
    pub open spec fn enter_all(self, keys: Seq<(u64, Seq<u8>)>) -> TableView
        decreases keys.len(),
    {
        if keys.len() == 0 {
            self
        } else {
            self.enter_all(keys.drop_last()).enter(keys.last().0, keys.last().1)
        }
    }

    /// The open table without keys.
    pub open spec fn empty() -> TableView {
        TableView { totals: Map::empty(), stations: Seq::empty(), closed: false, seen: 0 }
    }

    /// No key of the table has seen a value, and no reading was offered.
    pub open spec fn pristine(self) -> bool {
        pristine(self.totals) && self.seen == 0
    }
}

/// Stations that are all held bring no newcomer.
pub proof fn lemma_newcomers_held(held: Map<u64, Totals>, incoming: Seq<(u64, Seq<u8>)>)
    requires
        forall|i: int| 0 <= i < incoming.len() ==> held.contains_key(#[trigger] incoming[i].0),
    ensures
        newcomers(held, incoming) == Seq::<(u64, Seq<u8>)>::empty(),
    decreases incoming.len(),
{
    if incoming.len() > 0 {
        assert(held.contains_key(incoming[incoming.len() - 1].0));
        lemma_newcomers_held(held, incoming.drop_last());
    }
}

/// Observing entries gives the totals that absorbing their readings gives; it keeps the
/// policy, counts each entry as seen, and keeps a valid table valid.
pub proof fn lemma_observe_all(view: TableView, entries: Seq<Entry>)
    ensures
        view.observe_all(entries).totals == tally(view.totals, view.closed, readings_of(entries)),
        view.observe_all(entries).closed == view.closed,
        view.observe_all(entries).seen == view.seen + entries.len(),
        view.valid() ==> view.observe_all(entries).valid(),
    decreases entries.len(),
{
    if entries.len() == 0 {
        assert(readings_of(entries) =~= Seq::<(u64, i32)>::empty());
    } else {
        let shorter = entries.drop_last();
        lemma_observe_all(view, shorter);
        assert(readings_of(entries).drop_last() =~= readings_of(shorter));
        if view.valid() {
            lemma_observe_valid(view.observe_all(shorter), entries.last());
        }
    }
}

/// Applying a batch gives the totals that absorbing it gives; it keeps the policy, counts
/// each reading as seen, and keeps a valid table valid.
pub proof fn lemma_apply_all(view: TableView, readings: Seq<(u64, i32)>)
    ensures
        view.apply_all(readings).totals == tally(view.totals, view.closed, readings),
        view.apply_all(readings).closed == view.closed,
        view.apply_all(readings).seen == view.seen + readings.len(),
        view.valid() ==> view.apply_all(readings).valid(),
        view.closed ==> view.apply_all(readings).stations == view.stations,
    decreases readings.len(),
{
    if readings.len() > 0 {
        let shorter = readings.drop_last();
        lemma_apply_all(view, shorter);
        if view.valid() {
            lemma_observe_valid(
                view.apply_all(shorter),
                Entry { id: readings.last().0, name: Seq::empty(), value: readings.last().1 },
            );
        }
    }
}

/// Observing one entry keeps a valid table valid.
pub proof fn lemma_observe_valid(view: TableView, entry: Entry)
    requires
        view.valid(),
    ensures
        view.observe(entry.id, entry.name, entry.value).valid(),
{
    let after = view.observe(entry.id, entry.name, entry.value);
    lemma_absorb_sound(view.totals, view.closed, entry.id, entry.value as int, view.seen);
    if !view.totals.contains_key(entry.id) && !view.closed {
        let last = view.stations.len() as int;
        assert(after.stations[last].0 == entry.id);
        assert forall|i: int, j: int| 0 <= i < j < after.stations.len() implies #[trigger]
            after.stations[i].0 != #[trigger] after.stations[j].0 by {
            if j == last {
                assert(view.totals.contains_key(view.stations[i].0));
            }
        }
        assert forall|k: u64| #[trigger] after.totals.contains_key(k) implies exists|i: int|
            0 <= i < after.stations.len() && #[trigger] after.stations[i].0 == k by {
            if k != entry.id {
                let i = choose|i: int|
                    0 <= i < view.stations.len() && #[trigger] view.stations[i].0 == k;
                assert(after.stations[i].0 == k);
            }
        }
        assert forall|i: int| 0 <= i < after.stations.len() implies after.totals.contains_key(
            #[trigger] after.stations[i].0,
        ) by {
            if i < last {
                assert(view.totals.contains_key(view.stations[i].0));
            }
        }
    } else {
        assert forall|i: int| 0 <= i < after.stations.len() implies after.totals.contains_key(
            #[trigger] after.stations[i].0,
        ) by {
            assert(view.totals.contains_key(view.stations[i].0));
        }
        assert forall|k: u64| #[trigger] after.totals.contains_key(k) implies exists|i: int|
            0 <= i < after.stations.len() && #[trigger] after.stations[i].0 == k by {
            assert(view.totals.contains_key(k));
            let i = choose|i: int|
                0 <= i < view.stations.len() && #[trigger] view.stations[i].0 == k;
            assert(after.stations[i].0 == k);
        }
    }
}

/// Observing one more entry in the second of two tables and then merging is merging and
/// then observing the entry, for tables of one policy that hold the same keys if they are
/// closed.
pub proof fn lemma_merge_observe(a: TableView, b: TableView, entry: Entry)
    requires
        a.closed == b.closed,
        a.closed ==> a.totals.dom() == b.totals.dom(),
    ensures
        a.merge(b.observe(entry.id, entry.name, entry.value)) == a.merge(b).observe(
            entry.id,
            entry.name,
            entry.value,
        ),
{
    let left = a.merge(b.observe(entry.id, entry.name, entry.value));
    let right = a.merge(b).observe(entry.id, entry.name, entry.value);
    lemma_absorb_merged(a.totals, b.totals, a.closed, entry.id, entry.value as int);
    let station = (entry.id, entry.name);
    let known = newcomers(a.totals, b.stations);
    if !a.closed && !b.totals.contains_key(entry.id) {
        let grown = b.stations.push(station);
        assert(grown.drop_last() =~= b.stations);
        assert(grown.last() == station);
        if a.totals.contains_key(entry.id) {
            assert(newcomers(a.totals, grown) == known);
        } else {
            assert(newcomers(a.totals, grown) == known.push(station));
            assert(a.stations + known.push(station) =~= (a.stations + known).push(station));
        }
    }
    assert(left.stations =~= right.stations);
}

/// Merging two tables gives the same statistics per key and the same number of readings
/// in either order.
pub proof fn lemma_merge_commutes(a: TableView, b: TableView)
    ensures
        a.merge(b).totals == b.merge(a).totals,
        a.merge(b).seen == b.merge(a).seen,
{
    lemma_merged_commutes(a.totals, b.totals);
}

/// Merging three tables gives the same statistics per key and the same number of readings
/// however the merges are grouped.
pub proof fn lemma_merge_associates(a: TableView, b: TableView, c: TableView)
    ensures
        a.merge(b).merge(c).totals == a.merge(b.merge(c)).totals,
        a.merge(b).merge(c).seen == a.merge(b.merge(c)).seen,
{
    lemma_merged_associates(a.totals, b.totals, c.totals);
}

/// Merging valid tables gives a valid table.
pub proof fn lemma_merge_valid(a: TableView, b: TableView)
    requires
        a.valid(),
        b.valid(),
    ensures
        a.merge(b).valid(),
{
    let both = a.merge(b);
    let fresh = newcomers(a.totals, b.stations);
    lemma_merged_sound(a.totals, a.seen, b.totals, b.seen);
    lemma_newcomers(a.totals, b.stations);
    assert forall|i: int| 0 <= i < both.stations.len() implies both.totals.contains_key(
        #[trigger] both.stations[i].0,
    ) by {
        if i < a.stations.len() {
            assert(a.totals.contains_key(a.stations[i].0));
        } else {
            let j = i - a.stations.len();
            assert(b.stations.contains(fresh[j]));
            let at = choose|at: int| 0 <= at < b.stations.len() && b.stations[at] == fresh[j];
            assert(b.totals.contains_key(b.stations[at].0));
        }
    }
    assert forall|i: int, j: int| 0 <= i < j < both.stations.len() implies #[trigger]
        both.stations[i].0 != #[trigger] both.stations[j].0 by {
        let n = a.stations.len() as int;
        if j < n {
        } else if i < n {
            assert(a.totals.contains_key(a.stations[i].0));
            assert(!a.totals.contains_key(fresh[j - n].0));
        } else {
            assert(fresh[i - n].0 != fresh[j - n].0);
        }
    }
    assert forall|k: u64| #[trigger] both.totals.contains_key(k) implies exists|i: int|
        0 <= i < both.stations.len() && #[trigger] both.stations[i].0 == k by {
        if a.totals.contains_key(k) {
            let i = choose|i: int| 0 <= i < a.stations.len() && #[trigger] a.stations[i].0 == k;
            assert(both.stations[i].0 == k);
        } else {
            let at = choose|at: int|
                0 <= at < b.stations.len() && #[trigger] b.stations[at].0 == k;
            assert(fresh.contains(b.stations[at]));
            let j = choose|j: int| 0 <= j < fresh.len() && fresh[j] == b.stations[at];
            assert(both.stations[a.stations.len() + j].0 == k);
        }
    }
}

/// The newcomers are the stations of `incoming` that `held` lacks: each of them is such a
/// station, each such station is among them, and stations with different identities stay
/// different.
pub proof fn lemma_newcomers(held: Map<u64, Totals>, incoming: Seq<(u64, Seq<u8>)>)
    ensures
        forall|j: int|
            0 <= j < newcomers(held, incoming).len() ==> incoming.contains(
                #[trigger] newcomers(held, incoming)[j],
            ) && !held.contains_key(newcomers(held, incoming)[j].0),
        forall|i: int|
            0 <= i < incoming.len() && !held.contains_key(incoming[i].0) ==> newcomers(
                held,
                incoming,
            ).contains(#[trigger] incoming[i]),
        (forall|i: int, j: int|
            0 <= i < j < incoming.len() ==> #[trigger] incoming[i].0 != #[trigger] incoming[j].0)
            ==> (forall|i: int, j: int|
            0 <= i < j < newcomers(held, incoming).len() ==> #[trigger] newcomers(
                held,
                incoming,
            )[i].0 != #[trigger] newcomers(held, incoming)[j].0),
    decreases incoming.len(),
{
    let found = newcomers(held, incoming);
    if incoming.len() > 0 {
        let shorter = incoming.drop_last();
        let earlier = newcomers(held, shorter);
        let last = incoming.last();
        lemma_newcomers(held, shorter);
        assert forall|j: int| 0 <= j < found.len() implies incoming.contains(#[trigger] found[j])
            && !held.contains_key(found[j].0) by {
            if j < earlier.len() {
                assert(shorter.contains(earlier[j]));
                let at = choose|at: int| 0 <= at < shorter.len() && shorter[at] == earlier[j];
                assert(incoming[at] == earlier[j]);
            } else {
                assert(incoming[incoming.len() - 1] == last);
            }
        }
        assert forall|i: int|
            0 <= i < incoming.len() && !held.contains_key(incoming[i].0) implies found.contains(
            #[trigger] incoming[i],
        ) by {
            if i < shorter.len() {
                assert(shorter[i] == incoming[i]);
                assert(earlier.contains(shorter[i]));
                let j = choose|j: int| 0 <= j < earlier.len() && earlier[j] == shorter[i];
                assert(found[j] == incoming[i]);
            } else {
                assert(found[found.len() - 1] == last);
            }
        }
        if forall|i: int, j: int|
            0 <= i < j < incoming.len() ==> #[trigger] incoming[i].0 != #[trigger] incoming[j].0 {
            assert forall|i: int, j: int| 0 <= i < j < shorter.len() implies #[trigger]
                shorter[i].0 != #[trigger] shorter[j].0 by {
                assert(incoming[i].0 != incoming[j].0);
            }
            assert forall|i: int, j: int| 0 <= i < j < found.len() implies #[trigger] found[i].0
                != #[trigger] found[j].0 by {
                if j >= earlier.len() {
                    assert(shorter.contains(earlier[i]));
                    let at = choose|at: int| 0 <= at < shorter.len() && shorter[at] == earlier[i];
                    assert(incoming[at].0 != incoming[incoming.len() - 1].0);
                }
            }
        }
    }
}

/// The local-merge law: starting from pristine keys, the table of two chunks of entries is
/// the table of the first chunk merged with the table of the second, names and order of
/// the keys included.
pub proof fn lemma_local_merge(seed: TableView, first: Seq<Entry>, second: Seq<Entry>)
    requires
        seed.valid(),
        seed.pristine(),
    ensures
        seed.observe_all(first + second) == seed.observe_all(first).merge(
            seed.observe_all(second),
        ),
    decreases second.len(),
{
    let a = seed.observe_all(first);
    lemma_observe_all(seed, first);
    lemma_tally_keys(seed.totals, seed.closed, readings_of(first));
    if second.len() == 0 {
        assert(first + second =~= first);
        let both = merged(a.totals, seed.totals);
        assert forall|k: u64| #[trigger] both.contains_key(k) implies both[k] == a.totals[k] by {
            if seed.totals.contains_key(k) {
                assert(a.totals.contains_key(k));
                a.totals[k].lemma_combine_empty();
            }
        }
        assert(both =~= a.totals);
        assert forall|i: int| 0 <= i < seed.stations.len() implies a.totals.contains_key(
            #[trigger] seed.stations[i].0,
        ) by {
            assert(seed.totals.contains_key(seed.stations[i].0));
        }
        lemma_newcomers_held(a.totals, seed.stations);
        assert(a.stations + Seq::<(u64, Seq<u8>)>::empty() =~= a.stations);
    } else {
        let shorter = second.drop_last();
        let b = seed.observe_all(shorter);
        lemma_local_merge(seed, first, shorter);
        assert((first + second).drop_last() =~= first + shorter);
        lemma_observe_all(seed, shorter);
        lemma_tally_keys(seed.totals, seed.closed, readings_of(shorter));
        lemma_merge_observe(a, b, second.last());
    }
}

} // verus!
