use station_stats::key::resolve;
use station_stats::scan::ByteSpan;
use station_stats::stats::StationReadings;
use station_stats::table::StationTable;

fn id_of(name: &[u8]) -> u64 {
    resolve(name, ByteSpan { start: 0, end: name.len() })
}

fn summary(table: &StationTable, name: &[u8]) -> (usize, i32, i32, i128) {
    let r = table.get(name).unwrap();
    (r.count(), r.min(), r.max(), r.sum())
}

fn table_of(records: &[(&[u8], i32)]) -> StationTable {
    let mut table = StationTable::new();
    for (name, value) in records {
        table.record(name, *value);
    }
    table
}

fn same_totals(a: &StationTable, b: &StationTable) {
    assert_eq!(a.len(), b.len());
    assert_eq!(a.seen(), b.seen());
    for slot in 0..a.len() {
        let id = a.id_at(slot);
        assert_eq!(Some(a.readings_at(slot)), b.lookup(id));
    }
}

#[test]
fn fresh_readings_hold_nothing() {
    let r = StationReadings::new();
    assert_eq!(r.count(), 0);
    assert_eq!(r.min(), i32::MAX);
    assert_eq!(r.max(), i32::MIN);
    assert_eq!(r.sum(), 0);
}

#[test]
fn update_rule_counts_and_tracks_extremes() {
    let mut r = StationReadings::new();
    r.record(100);
    assert_eq!((r.count(), r.min(), r.max(), r.sum()), (1, 100, 100, 100));
    r.record(-50);
    assert_eq!((r.count(), r.min(), r.max(), r.sum()), (2, -50, 100, 50));
    r.record(7);
    assert_eq!((r.count(), r.min(), r.max(), r.sum()), (3, -50, 100, 57));
}

#[test]
fn sums_do_not_overflow_at_the_extremes() {
    let mut r = StationReadings::new();
    for _ in 0..1000 {
        r.record(i32::MAX);
    }
    assert_eq!(r.sum(), 1000 * i32::MAX as i128);
    let mut s = StationReadings::new();
    for _ in 0..1000 {
        s.record(i32::MIN);
    }
    assert_eq!(s.sum(), 1000 * i32::MIN as i128);
    r.merge(&s);
    assert_eq!(r.count(), 2000);
    assert_eq!(r.sum(), -1000);
    assert_eq!((r.min(), r.max()), (i32::MIN, i32::MAX));
}

#[test]
fn merging_readings_adds_counts_and_sums() {
    let mut a = StationReadings::new();
    a.record(10);
    a.record(30);
    let mut b = StationReadings::new();
    b.record(-20);
    a.merge(&b);
    assert_eq!((a.count(), a.min(), a.max(), a.sum()), (3, -20, 30, 20));
}

#[test]
fn merging_with_nothing_changes_nothing() {
    let mut a = StationReadings::new();
    a.record(10);
    let before = a;
    a.merge(&StationReadings::new());
    assert_eq!(a, before);
    let mut empty = StationReadings::new();
    empty.merge(&before);
    assert_eq!(empty, before);
}

#[test]
fn new_table_is_open_and_empty() {
    let table = StationTable::new();
    assert_eq!(table.len(), 0);
    assert_eq!(table.seen(), 0);
    assert!(!table.is_closed());
    assert_eq!(table.get(b"Oslo"), None);
}

#[test]
fn open_table_enters_keys_on_first_sight() {
    let table = table_of(&[(b"Oslo", 10), (b"Bergen", -5), (b"Oslo", 30)]);
    assert_eq!(table.len(), 2);
    assert_eq!(table.seen(), 3);
    assert_eq!(summary(&table, b"Oslo"), (2, 10, 30, 40));
    assert_eq!(summary(&table, b"Bergen"), (1, -5, -5, -5));
    assert_eq!(table.get(b"Narvik"), None);
}

#[test]
fn slots_keep_the_order_of_first_sight() {
    let table = table_of(&[(b"Oslo", 10), (b"Bergen", -5), (b"Oslo", 30), (b"Alta", 1)]);
    assert_eq!(table.name_at(0), b"Oslo");
    assert_eq!(table.name_at(1), b"Bergen");
    assert_eq!(table.name_at(2), b"Alta");
    assert_eq!(table.id_at(1), id_of(b"Bergen"));
    assert_eq!(table.readings_at(0).count(), 2);
    assert_eq!(table.lookup(id_of(b"Alta")).unwrap().sum(), 1);
    assert_eq!(table.lookup(id_of(b"Narvik")), None);
}

#[test]
fn closed_table_drops_unknown_keys() {
    let mut table = StationTable::new();
    table.enter(id_of(b"Oslo"), b"Oslo");
    table.close();
    assert!(table.is_closed());
    table.record(b"Oslo", 12);
    table.record(b"Narvik", 99);
    assert_eq!(table.len(), 1);
    assert_eq!(table.seen(), 2);
    assert_eq!(summary(&table, b"Oslo"), (1, 12, 12, 12));
    assert_eq!(table.get(b"Narvik"), None);
}

#[test]
fn entering_a_key_sees_nothing() {
    let mut table = StationTable::new();
    table.enter(id_of(b"Oslo"), b"Oslo");
    assert_eq!(table.len(), 1);
    assert_eq!(table.seen(), 0);
    assert_eq!(table.get(b"Oslo"), Some(StationReadings::new()));
}

#[test]
fn entering_an_identity_again_keeps_the_slot_and_takes_the_name() {
    let mut table = StationTable::new();
    table.enter(7, b"first");
    table.observe(7, b"ignored", 15);
    table.enter(8, b"other");
    table.enter(7, b"second");
    assert_eq!(table.len(), 2);
    assert_eq!(table.name_at(0), b"second");
    assert_eq!(table.name_at(1), b"other");
    assert_eq!(table.lookup(7).unwrap().sum(), 15);
}

#[test]
fn observation_of_a_held_identity_keeps_its_name() {
    let mut table = StationTable::new();
    table.observe(7, b"first", 1);
    table.observe(7, b"second", 2);
    assert_eq!(table.len(), 1);
    assert_eq!(table.name_at(0), b"first");
    assert_eq!(table.lookup(7).unwrap().count(), 2);
}

#[test]
fn merge_combines_shared_keys_and_appends_new_ones() {
    let mut a = table_of(&[(b"Oslo", 10), (b"Bergen", -5)]);
    let b = table_of(&[(b"Alta", 7), (b"Oslo", -30), (b"Oslo", 50)]);
    a.merge(&b);
    assert_eq!(a.len(), 3);
    assert_eq!(a.seen(), 5);
    assert_eq!(summary(&a, b"Oslo"), (3, -30, 50, 30));
    assert_eq!(summary(&a, b"Bergen"), (1, -5, -5, -5));
    assert_eq!(summary(&a, b"Alta"), (1, 7, 7, 7));
    assert_eq!(a.name_at(0), b"Oslo");
    assert_eq!(a.name_at(1), b"Bergen");
    assert_eq!(a.name_at(2), b"Alta");
    assert_eq!(b.len(), 2);
    assert_eq!(summary(&b, b"Oslo"), (2, -30, 50, 20));
}

#[test]
fn merge_order_does_not_change_the_totals() {
    let parts: [&[(&[u8], i32)]; 3] = [
        &[(b"Oslo", 10), (b"Bergen", -5)],
        &[(b"Alta", 7), (b"Oslo", -30)],
        &[(b"Bergen", 100), (b"Oslo", 1), (b"Narvik", 0)],
    ];
    let mut ab_c = table_of(parts[0]);
    ab_c.merge(&table_of(parts[1]));
    ab_c.merge(&table_of(parts[2]));

    let mut bc = table_of(parts[1]);
    bc.merge(&table_of(parts[2]));
    let mut a_bc = table_of(parts[0]);
    a_bc.merge(&bc);

    let mut c_b_a = table_of(parts[2]);
    c_b_a.merge(&table_of(parts[1]));
    c_b_a.merge(&table_of(parts[0]));

    same_totals(&ab_c, &a_bc);
    same_totals(&ab_c, &c_b_a);
    assert_eq!(summary(&ab_c, b"Oslo"), (3, -30, 10, -19));
    assert_eq!(summary(&c_b_a, b"Bergen"), (2, -5, 100, 95));
}

#[test]
fn merged_chunks_equal_one_pass() {
    let all: &[(&[u8], i32)] = &[
        (b"Oslo", 10),
        (b"Bergen", -5),
        (b"Alta", 7),
        (b"Oslo", -30),
        (b"Bergen", 100),
    ];
    let whole = table_of(all);
    let mut merged = table_of(&all[..2]);
    merged.merge(&table_of(&all[2..]));
    same_totals(&whole, &merged);
    for slot in 0..whole.len() {
        assert_eq!(whole.name_at(slot), merged.name_at(slot));
    }
}

#[test]
fn fresh_table_keeps_keys_and_forgets_values() {
    let mut seeded = table_of(&[(b"Oslo", 10), (b"Bergen", -5)]);
    seeded.close();
    let fresh = seeded.fresh();
    assert_eq!(fresh.len(), 2);
    assert_eq!(fresh.seen(), 0);
    assert!(fresh.is_closed());
    assert_eq!(fresh.name_at(0), b"Oslo");
    assert_eq!(fresh.name_at(1), b"Bergen");
    assert_eq!(fresh.get(b"Oslo"), Some(StationReadings::new()));
    assert_eq!(summary(&seeded, b"Oslo"), (1, 10, 10, 10));
}

#[test]
fn consumer_applies_a_batch_in_order() {
    let mut table = StationTable::new();
    table.enter(id_of(b"Oslo"), b"Oslo");
    table.enter(id_of(b"Bergen"), b"Bergen");
    table.close();
    table.consume(&[
        (id_of(b"Oslo"), 10),
        (id_of(b"Bergen"), 20),
        (id_of(b"Narvik"), 30),
        (id_of(b"Oslo"), -40),
    ]);
    assert_eq!(table.seen(), 4);
    assert_eq!(table.len(), 2);
    assert_eq!(summary(&table, b"Oslo"), (2, -40, 10, -30));
    assert_eq!(summary(&table, b"Bergen"), (1, 20, 20, 20));
    table.consume(&[]);
    assert_eq!(table.seen(), 4);
}

#[test]
fn open_consumer_enters_identities_without_a_name() {
    let mut table = StationTable::new();
    table.consume(&[(41, 10), (42, 20), (41, 5)]);
    assert_eq!(table.len(), 2);
    assert_eq!(table.name_at(0), b"");
    assert_eq!(table.id_at(0), 41);
    assert_eq!(table.lookup(41).unwrap().sum(), 15);
    assert_eq!(table.lookup(42).unwrap().count(), 1);
}
