//! The aggregation rule on the mathematical model: a table is a map from key identity to
//! `Totals`, readings are absorbed one by one, and tables of different workers are merged.

use crate::stats::Totals;
use vstd::prelude::*;

verus! {

/// One record as the aggregator sees it: the identity of its key, the key itself, and its
/// value in tenths.
pub struct Entry {
    pub id: u64,
    pub name: Seq<u8>,
    pub value: i32,
}

/// The readings of a sequence of entries: identity and value of each, in order.
pub open spec fn readings_of(entries: Seq<Entry>) -> Seq<(u64, i32)> {
    Seq::new(entries.len(), |i: int| (entries[i].id, entries[i].value))
}

/// The table after one more reading.
///
/// A key that the table holds gets the update rule. A key that it does not hold is entered
/// with the reading as its first value, unless the table is closed: a closed table holds a
/// fixed set of keys and drops readings of any other.
pub open spec fn absorb(table: Map<u64, Totals>, closed: bool, id: u64, value: int) -> Map<
    u64,
    Totals,
> {
    if table.contains_key(id) {
        table.insert(id, table[id].observe(value))
    } else if closed {
        table
    } else {
        table.insert(id, Totals::empty().observe(value))
    }
}

/// The table after a sequence of readings, absorbed in order.
pub open spec fn tally(table: Map<u64, Totals>, closed: bool, readings: Seq<(u64, i32)>) -> Map<
    u64,
    Totals,
>
    decreases readings.len(),
{
    if readings.len() == 0 {
        table
    } else {
        absorb(
            tally(table, closed, readings.drop_last()),
            closed,
            readings.last().0,
            readings.last().1 as int,
        )
    }
}

/// Two tables taken together: a key of both gets the combined statistics, a key of one
/// keeps its own.
pub open spec fn merged(a: Map<u64, Totals>, b: Map<u64, Totals>) -> Map<u64, Totals> {
    Map::new(
        |k: u64| a.contains_key(k) || b.contains_key(k),
        |k: u64|
            if a.contains_key(k) && b.contains_key(k) {
                a[k].combine(b[k])
            } else if a.contains_key(k) {
                a[k]
            } else {
                b[k]
            },
    )
}

/// Every key of the table has seen nothing yet.
pub open spec fn pristine(table: Map<u64, Totals>) -> bool {
    forall|k: u64| #[trigger] table.contains_key(k) ==> table[k] == Totals::empty()
}

/// Every entry of the table holds valid statistics of at most `seen` values.
pub open spec fn sound(table: Map<u64, Totals>, seen: nat) -> bool {
    forall|k: u64| #[trigger]
        table.contains_key(k) ==> table[k].valid() && table[k].count <= seen
}

/// Merging does not depend on the order of its operands.
pub proof fn lemma_merged_commutes(a: Map<u64, Totals>, b: Map<u64, Totals>)
    ensures
        merged(a, b) == merged(b, a),
{
    assert forall|k: u64| #[trigger] merged(a, b).contains_key(k) implies merged(a, b)[k]
        == merged(b, a)[k] by {
        if a.contains_key(k) && b.contains_key(k) {
            a[k].lemma_combine_commutes(b[k]);
        }
    }
    assert(merged(a, b) =~= merged(b, a));
}

/// Merging three tables gives the same table however they are grouped.
pub proof fn lemma_merged_associates(a: Map<u64, Totals>, b: Map<u64, Totals>, c: Map<u64, Totals>)
    ensures
        merged(merged(a, b), c) == merged(a, merged(b, c)),
{
    assert forall|k: u64| #[trigger] merged(merged(a, b), c).contains_key(k) implies merged(
        merged(a, b),
        c,
    )[k] == merged(a, merged(b, c))[k] by {
        if a.contains_key(k) && b.contains_key(k) && c.contains_key(k) {
            a[k].lemma_combine_associates(b[k], c[k]);
        }
    }
    assert(merged(merged(a, b), c) =~= merged(a, merged(b, c)));
}

/// Absorbing into a closed table keeps its keys; absorbing into any table keeps the keys
/// it had.
pub proof fn lemma_tally_keys(table: Map<u64, Totals>, closed: bool, readings: Seq<(u64, i32)>)
    ensures
        forall|k: u64| #[trigger]
            table.contains_key(k) ==> tally(table, closed, readings).contains_key(k),
        closed ==> tally(table, closed, readings).dom() == table.dom(),
    decreases readings.len(),
{
    if readings.len() > 0 {
        let before = tally(table, closed, readings.drop_last());
        lemma_tally_keys(table, closed, readings.drop_last());
        assert forall|k: u64| #[trigger] table.contains_key(k) implies tally(
            table,
            closed,
            readings,
        ).contains_key(k) by {
            assert(before.contains_key(k));
        }
        if closed {
            assert(tally(table, closed, readings).dom() =~= table.dom());
        }
    }
}

/// Absorbing one reading keeps a table sound, with one more value seen.
pub proof fn lemma_absorb_sound(
    table: Map<u64, Totals>,
    closed: bool,
    id: u64,
    value: int,
    seen: nat,
)
    requires
        sound(table, seen),
        i32::MIN <= value <= i32::MAX,
    ensures
        sound(absorb(table, closed, id, value), seen + 1),
{
    let after = absorb(table, closed, id, value);
    assert forall|k: u64| #[trigger] after.contains_key(k) implies after[k].valid()
        && after[k].count <= seen + 1 by {
        if k == id {
            if table.contains_key(id) {
                table[id].lemma_observe_valid(value);
            } else {
                Totals::empty().lemma_observe_valid(value);
            }
        } else {
            assert(table.contains_key(k));
        }
    }
}

/// Absorbing readings keeps a table sound, with the number of values seen grown by the
/// number of readings.
pub proof fn lemma_tally_sound(
    table: Map<u64, Totals>,
    closed: bool,
    readings: Seq<(u64, i32)>,
    seen: nat,
)
    requires
        sound(table, seen),
    ensures
        sound(tally(table, closed, readings), seen + readings.len()),
    decreases readings.len(),
{
    if readings.len() > 0 {
        lemma_tally_sound(table, closed, readings.drop_last(), seen);
        lemma_absorb_sound(
            tally(table, closed, readings.drop_last()),
            closed,
            readings.last().0,
            readings.last().1 as int,
            (seen + readings.len() - 1) as nat,
        );
    }
}

/// Merging sound tables gives a sound table that has seen the values of both.
pub proof fn lemma_merged_sound(
    a: Map<u64, Totals>,
    seen_a: nat,
    b: Map<u64, Totals>,
    seen_b: nat,
)
    requires
        sound(a, seen_a),
        sound(b, seen_b),
    ensures
        sound(merged(a, b), seen_a + seen_b),
{
    assert forall|k: u64| #[trigger] merged(a, b).contains_key(k) implies merged(a, b)[k].valid()
        && merged(a, b)[k].count <= seen_a + seen_b by {
        if a.contains_key(k) && b.contains_key(k) {
            a[k].lemma_combine_valid(b[k]);
        }
    }
}

/// Absorbing one more reading into the second of two merged tables is absorbing it into
/// the merged table, when both tables started from the same pristine keys: their keys then
/// agree if they are closed.
pub proof fn lemma_absorb_merged(
    a: Map<u64, Totals>,
    b: Map<u64, Totals>,
    closed: bool,
    id: u64,
    value: int,
)
    requires
        closed ==> a.dom() == b.dom(),
        i32::MIN <= value <= i32::MAX,
    ensures
        merged(a, absorb(b, closed, id, value)) == absorb(merged(a, b), closed, id, value),
{
    let left = merged(a, absorb(b, closed, id, value));
    let right = absorb(merged(a, b), closed, id, value);
    if closed {
        assert(a.contains_key(id) == a.dom().contains(id));
        assert(b.contains_key(id) == b.dom().contains(id));
    }
    assert forall|k: u64| left.contains_key(k) == right.contains_key(k) by {}
    assert forall|k: u64| #[trigger] left.contains_key(k) implies left[k] == right[k] by {
        if k == id {
            if a.contains_key(id) && b.contains_key(id) {
                a[id].lemma_combine_associates(b[id], Totals::empty().observe(value));
                b[id].lemma_observe_is_combine(value);
                a[id].combine(b[id]).lemma_observe_is_combine(value);
            } else if a.contains_key(id) {
                a[id].lemma_observe_is_combine(value);
            }
        }
    }
    assert(left =~= right);
}

/// The local-merge law: from pristine keys, the table of two chunks of readings is the
/// merge of the tables of each chunk.
pub proof fn lemma_tally_merges(
    seed: Map<u64, Totals>,
    closed: bool,
    first: Seq<(u64, i32)>,
    second: Seq<(u64, i32)>,
)
    requires
        pristine(seed),
    ensures
        tally(seed, closed, first + second) == merged(
            tally(seed, closed, first),
            tally(seed, closed, second),
        ),
    decreases second.len(),
{
    let a = tally(seed, closed, first);
    assert(sound(seed, 0));
    if second.len() == 0 {
        assert(first + second =~= first);
        lemma_tally_keys(seed, closed, first);
        lemma_tally_sound(seed, closed, first, 0);
        assert forall|k: u64| #[trigger] merged(a, seed).contains_key(k) implies merged(a, seed)[k]
            == a[k] by {
            if seed.contains_key(k) {
                assert(a.contains_key(k));
                a[k].lemma_combine_empty();
            }
        }
        assert(merged(a, seed) =~= a);
    } else {
        let shorter = second.drop_last();
        let b = tally(seed, closed, shorter);
        lemma_tally_merges(seed, closed, first, shorter);
        assert((first + second).drop_last() =~= first + shorter);
        lemma_tally_keys(seed, closed, first);
        lemma_tally_keys(seed, closed, shorter);
        lemma_absorb_merged(a, b, closed, second.last().0, second.last().1 as int);
    }
}

/// Absorbing readings into a table is merging the table with what the readings give from
/// its keys with nothing seen.
pub proof fn lemma_tally_from(table: Map<u64, Totals>, closed: bool, readings: Seq<(u64, i32)>)
    requires
        forall|k: u64| #[trigger] table.contains_key(k) ==> table[k].valid(),
    ensures
        tally(table, closed, readings) == merged(table, tally(bare(table), closed, readings)),
    decreases readings.len(),
{
    let seed = bare(table);
    if readings.len() == 0 {
        assert forall|k: u64| #[trigger] merged(table, seed).contains_key(k) implies merged(
            table,
            seed,
        )[k] == table[k] by {
            if table.contains_key(k) {
                table[k].lemma_combine_empty();
            }
        }
        assert(merged(table, seed) =~= table);
    } else {
        let shorter = readings.drop_last();
        lemma_tally_from(table, closed, shorter);
        lemma_tally_keys(seed, closed, shorter);
        assert(seed.dom() =~= table.dom());
        lemma_absorb_merged(
            table,
            tally(seed, closed, shorter),
            closed,
            readings.last().0,
            readings.last().1 as int,
        );
    }
}

/// The keys of a table with nothing seen.
pub open spec fn bare(table: Map<u64, Totals>) -> Map<u64, Totals> {
    Map::new(|k: u64| table.contains_key(k), |k: u64| Totals::empty())
}

/// The order of arrival does not matter: two runs of readings give the same table
/// whichever is absorbed first.
pub proof fn lemma_tally_order(
    table: Map<u64, Totals>,
    closed: bool,
    first: Seq<(u64, i32)>,
    second: Seq<(u64, i32)>,
)
    requires
        forall|k: u64| #[trigger] table.contains_key(k) ==> table[k].valid(),
    ensures
        tally(table, closed, first + second) == tally(table, closed, second + first),
{
    let seed = bare(table);
    lemma_tally_from(table, closed, first + second);
    lemma_tally_from(table, closed, second + first);
    lemma_tally_merges(seed, closed, first, second);
    lemma_tally_merges(seed, closed, second, first);
    lemma_merged_commutes(tally(seed, closed, first), tally(seed, closed, second));
}

} // verus!
