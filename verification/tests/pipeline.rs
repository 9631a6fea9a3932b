use station_stats::batch::{aggregate_batched, drain_chunk, scan_batch, BATCH_SIZE};
use station_stats::catalog::pre_hash_stations;
use station_stats::engine::{aggregate, aggregate_serial, scan_chunk};
use station_stats::key::resolve;
use station_stats::plan::{chunk_end, chunk_indices};
use station_stats::report::{calculate, Reading};
use station_stats::sample::ScanError;
use station_stats::scan::{ByteSpan, FormatFault};
use station_stats::table::StationTable;

fn id_of(name: &[u8]) -> u64 {
    resolve(name, ByteSpan { start: 0, end: name.len() })
}

fn sample_file(lines: usize) -> Vec<u8> {
    let names = ["Oslo", "Bergen", "Alta", "Narvik", "Hammerfest", "X", "Longyearbyen"];
    let mut buf = Vec::new();
    for i in 0..lines {
        let name = names[(i * 5 + i / 3) % names.len()];
        let tenths = ((i as i64 * 7919) % 1999) - 999;
        let sign = if tenths < 0 { "-" } else { "" };
        let line = format!("{};{}{}.{}\n", name, sign, tenths.abs() / 10, tenths.abs() % 10);
        buf.extend_from_slice(line.as_bytes());
    }
    buf
}

fn rows(table: &StationTable) -> Vec<(Vec<u8>, usize, i32, i32, i128)> {
    let mut out = Vec::new();
    for slot in 0..table.len() {
        let r = table.readings_at(slot);
        out.push((table.name_at(slot).to_vec(), r.count(), r.min(), r.max(), r.sum()));
    }
    out
}

fn mean(reading: &Reading) -> f64 {
    reading.sum as f64 / reading.count as f64 / 10.0
}

#[test]
fn three_records_give_the_expected_aggregates() {
    let buf = b"A;10.0\nA;-5.0\nB;3.3\n";
    let table = aggregate(buf, 2, &StationTable::new()).unwrap();
    let a = table.get(b"A").unwrap();
    assert_eq!((a.count(), a.min(), a.max(), a.sum()), (2, -50, 100, 50));
    let b = table.get(b"B").unwrap();
    assert_eq!((b.count(), b.min(), b.max(), b.sum()), (1, 33, 33, 33));

    let report = calculate(&table);
    assert_eq!(report.len(), 2);
    assert_eq!(report[0].station, b"A");
    assert_eq!(report[0].count, 2);
    assert_eq!(report[0].min as f64 / 10.0, -5.0);
    assert_eq!(report[0].max as f64 / 10.0, 10.0);
    assert_eq!(mean(&report[0]), 2.5);
    assert_eq!(report[1].station, b"B");
    assert_eq!(report[1].count, 1);
    assert_eq!(report[1].min as f64 / 10.0, 3.3);
    assert_eq!(report[1].max as f64 / 10.0, 3.3);
    assert_eq!(mean(&report[1]), 3.3);
}

#[test]
fn malformed_line_fails_the_run() {
    let buf = b"A;10.0\nC;abc\nB;3.3\n";
    let fault = ScanError { kind: FormatFault::NonNumeric, offset: 7 };
    assert_eq!(aggregate_serial(buf, &StationTable::new()).err(), Some(fault));
    for workers in [1, 2, 3, 8] {
        assert_eq!(aggregate(buf, workers, &StationTable::new()).err(), Some(fault));
        assert_eq!(
            aggregate_batched(buf, workers, 2, &StationTable::new()).err(),
            Some(fault)
        );
    }
}

#[test]
fn every_kind_of_fault_is_reported_where_its_line_starts() {
    let cases: [(&[u8], FormatFault, usize); 6] = [
        (b"A;1.0\nB;2.0", FormatFault::MissingNewline, 6),
        (b"A;1.0\nB2.0\nC;3.0\n", FormatFault::MissingSeparator, 6),
        (b"A;1.0\nB;2,0\n", FormatFault::NonNumeric, 6),
        (b"A;1.0\nB;2.00\n", FormatFault::BadShape, 6),
        (b"A;1.0\nB;999999999999.0\n", FormatFault::OutOfRange, 6),
        (b"\nA;1.0\n", FormatFault::MissingSeparator, 0),
    ];
    for (buf, kind, offset) in cases {
        let fault = Some(ScanError { kind, offset });
        assert_eq!(aggregate_serial(buf, &StationTable::new()).err(), fault);
        assert_eq!(aggregate(buf, 4, &StationTable::new()).err(), fault);
        assert_eq!(aggregate_batched(buf, 4, 1, &StationTable::new()).err(), fault);
    }
}

#[test]
fn the_first_fault_wins() {
    let buf = b"A;1.0\nB;x\nC;3.0\nD;4\nE;5.0\n";
    let fault = Some(ScanError { kind: FormatFault::NonNumeric, offset: 6 });
    for workers in 1..10 {
        assert_eq!(aggregate(buf, workers, &StationTable::new()).err(), fault);
    }
}

#[test]
fn newline_inside_a_key_is_a_missing_separator() {
    let buf = b"AAAAAAAA\nB;1.0\n";
    let fault = Some(ScanError { kind: FormatFault::MissingSeparator, offset: 0 });
    assert_eq!(aggregate_serial(buf, &StationTable::new()).err(), fault);
    assert_eq!(aggregate(buf, 2, &StationTable::new()).err(), fault);
}

#[test]
fn empty_buffer_gives_an_empty_table() {
    let table = aggregate(b"", 8, &StationTable::new()).unwrap();
    assert_eq!(table.len(), 0);
    assert_eq!(table.seen(), 0);
    assert!(calculate(&table).is_empty());
}

#[test]
fn parallel_run_equals_reference_run() {
    let buf = sample_file(500);
    let reference = aggregate_serial(&buf, &StationTable::new()).unwrap();
    assert_eq!(reference.seen(), 500);
    assert_eq!(reference.len(), 7);
    for workers in [1, 2, 8] {
        let table = aggregate(&buf, workers, &StationTable::new()).unwrap();
        assert_eq!(rows(&table), rows(&reference));
        assert_eq!(table.seen(), reference.seen());
        assert_eq!(calculate(&table), calculate(&reference));
    }
}

#[test]
fn any_number_of_workers_gives_the_same_table() {
    let buf = sample_file(64);
    let reference = rows(&aggregate_serial(&buf, &StationTable::new()).unwrap());
    for workers in 1..80 {
        assert_eq!(rows(&aggregate(&buf, workers, &StationTable::new()).unwrap()), reference);
    }
}

#[test]
fn records_of_the_chunks_add_up_to_the_lines() {
    let buf = sample_file(333);
    let lines = buf.iter().filter(|b| **b == b'\n').count();
    for workers in [1, 2, 3, 8, 50] {
        let starts = chunk_indices(&buf, workers);
        let mut total = 0;
        for i in 0..starts.len() {
            let end = chunk_end(&starts, buf.len(), i);
            let (table, count) = scan_chunk(&buf, starts[i], end, StationTable::new()).unwrap();
            assert_eq!(table.seen(), count);
            total += count;
        }
        assert_eq!(total, lines);
        assert_eq!(total, 333);
    }
}

#[test]
fn worker_loop_counts_and_accumulates() {
    let buf = b"A;10.0\nA;-5.0\nB;3.3\n";
    let (table, count) = scan_chunk(buf, 7, 20, StationTable::new()).unwrap();
    assert_eq!(count, 2);
    assert_eq!(table.seen(), 2);
    assert_eq!(table.get(b"A").unwrap().sum(), -50);
    assert_eq!(table.get(b"B").unwrap().sum(), 33);
    let (table, count) = scan_chunk(buf, 0, 7, table).unwrap();
    assert_eq!(count, 1);
    assert_eq!(table.get(b"A").unwrap().sum(), 50);
    let (table, count) = scan_chunk(buf, 20, 20, table).unwrap();
    assert_eq!(count, 0);
    assert_eq!(table.seen(), 3);
}

#[test]
fn worker_loop_never_reads_past_its_chunk() {
    let buf = b"A;10.0\nA;-5.0\nB;3.3\n";
    assert_eq!(
        scan_chunk(buf, 0, 10, StationTable::new()).err(),
        Some(ScanError { kind: FormatFault::MissingNewline, offset: 7 })
    );
}

#[test]
fn producer_cuts_batches_of_the_given_size() {
    let buf = b"A;1.0\nB;2.0\nC;3.0\nD;4.0\nE;5.0\n";
    let (first, next) = scan_batch(buf, 0, buf.len(), 2).unwrap();
    assert_eq!(first, vec![(id_of(b"A"), 10), (id_of(b"B"), 20)]);
    assert_eq!(next, 12);
    let (second, next) = scan_batch(buf, next, buf.len(), 2).unwrap();
    assert_eq!(second, vec![(id_of(b"C"), 30), (id_of(b"D"), 40)]);
    assert_eq!(next, 24);
    let (last, next) = scan_batch(buf, next, buf.len(), 2).unwrap();
    assert_eq!(last, vec![(id_of(b"E"), 50)]);
    assert_eq!(next, 30);
    let (none, next) = scan_batch(buf, next, buf.len(), 2).unwrap();
    assert!(none.is_empty());
    assert_eq!(next, 30);
}

#[test]
fn producer_stops_at_the_end_of_its_chunk() {
    let buf = b"A;1.0\nB;2.0\nC;3.0\n";
    let (batch, next) = scan_batch(buf, 0, 12, BATCH_SIZE).unwrap();
    assert_eq!(batch.len(), 2);
    assert_eq!(next, 12);
    assert_eq!(scan_batch(buf, 0, buf.len(), 0), Ok((vec![], 0)));
}

#[test]
fn fault_inside_a_batch_gives_no_batch() {
    let buf = b"A;1.0\nB;oops\nC;3.0\n";
    assert_eq!(
        scan_batch(buf, 0, buf.len(), 5),
        Err(ScanError { kind: FormatFault::NonNumeric, offset: 6 })
    );
    assert_eq!(scan_batch(buf, 0, buf.len(), 1), Ok((vec![(id_of(b"A"), 10)], 6)));
}

#[test]
fn draining_a_chunk_feeds_the_consumer() {
    let buf = sample_file(25);
    let seed = pre_hash_stations(b"Oslo;0\nBergen;0\nAlta;0\n").unwrap();
    let (batched, drained) = drain_chunk(&buf, 0, buf.len(), 4, seed.fresh()).unwrap();
    let (direct, scanned) = scan_chunk(&buf, 0, buf.len(), seed.fresh()).unwrap();
    assert_eq!(drained, 25);
    assert_eq!(scanned, 25);
    assert_eq!(rows(&batched), rows(&direct));
    assert_eq!(
        drain_chunk(b"Oslo;1.0\nOslo;2.0\nOslo;x\n", 0, 25, 2, seed.fresh()).err(),
        Some(ScanError { kind: FormatFault::NonNumeric, offset: 18 })
    );
}

#[test]
fn both_shapes_give_the_same_aggregates() {
    let buf = sample_file(400);
    let catalog = b"Oslo;1.0\nBergen;2.0\nAlta;3.0\nNarvik;4.0\nHammerfest;5.0\nX;6.0\n\
        Longyearbyen;7.0\nUnused;8.0\n";
    let seed = pre_hash_stations(catalog).unwrap();
    let merged = aggregate(&buf, 8, &seed).unwrap();
    for workers in [1, 2, 8] {
        for limit in [1, 7, BATCH_SIZE] {
            let consumed = aggregate_batched(&buf, workers, limit, &seed).unwrap();
            assert_eq!(rows(&consumed), rows(&merged));
            assert_eq!(consumed.seen(), 400);
        }
    }
    let open = aggregate(&buf, 3, &StationTable::new()).unwrap();
    let open_batched = aggregate_batched(&buf, 3, 10, &StationTable::new()).unwrap();
    for slot in 0..open.len() {
        assert_eq!(open_batched.lookup(open.id_at(slot)), Some(open.readings_at(slot)));
    }
    assert_eq!(open.len(), open_batched.len());
}

#[test]
fn catalog_seeds_a_closed_table() {
    let seed = pre_hash_stations(b"Oslo;5.9\nBergen;7.7\nAlta;1.1\n").unwrap();
    assert!(seed.is_closed());
    assert_eq!(seed.len(), 3);
    assert_eq!(seed.seen(), 0);
    assert_eq!(seed.name_at(0), b"Oslo");
    assert_eq!(seed.name_at(1), b"Bergen");
    assert_eq!(seed.name_at(2), b"Alta");
    assert_eq!(seed.id_at(2), id_of(b"Alta"));
    assert_eq!(seed.get(b"Bergen").unwrap().count(), 0);
}

#[test]
fn catalog_ignores_what_follows_the_key() {
    let seed = pre_hash_stations(b"Oslo;not a number\nBergen;\nOslo;again;and more\n").unwrap();
    assert_eq!(seed.len(), 2);
    assert_eq!(seed.name_at(0), b"Oslo");
    assert_eq!(seed.name_at(1), b"Bergen");
}

#[test]
fn catalog_with_a_bad_line_is_rejected() {
    assert_eq!(
        pre_hash_stations(b"Oslo;5.9\nBergen\n").err(),
        Some(ScanError { kind: FormatFault::MissingSeparator, offset: 9 })
    );
    assert_eq!(
        pre_hash_stations(b"Oslo;5.9\nBergen;7.7").err(),
        Some(ScanError { kind: FormatFault::MissingNewline, offset: 9 })
    );
    assert_eq!(pre_hash_stations(b"").unwrap().len(), 0);
}

#[test]
fn closed_run_drops_records_of_unknown_keys() {
    let seed = pre_hash_stations(b"A;0.0\nB;0.0\nNever;0.0\n").unwrap();
    let buf = b"A;10.0\nZ;99.9\nA;-5.0\nB;3.3\nZ;1.0\n";
    for workers in [1, 2, 8] {
        let table = aggregate(buf, workers, &seed).unwrap();
        assert_eq!(table.len(), 3);
        assert_eq!(table.seen(), 5);
        assert_eq!(table.get(b"A").unwrap().sum(), 50);
        assert_eq!(table.get(b"B").unwrap().sum(), 33);
        assert_eq!(table.get(b"Z"), None);
        let report = calculate(&table);
        assert_eq!(report.len(), 2);
        assert_eq!(report[0].station, b"A");
        assert_eq!(report[1].station, b"B");
    }
    assert_eq!(seed.get(b"A").unwrap().count(), 0);
}

#[test]
fn report_lists_seen_keys_in_slot_order() {
    let buf = b"Oslo;1.0\nBergen;-2.0\nOslo;3.5\n";
    let report = calculate(&aggregate_serial(buf, &StationTable::new()).unwrap());
    assert_eq!(
        report,
        vec![
            Reading { station: b"Oslo".to_vec(), min: 10, max: 35, sum: 45, count: 2 },
            Reading { station: b"Bergen".to_vec(), min: -20, max: -20, sum: -20, count: 1 },
        ]
    );
    for row in &report {
        assert!(row.min <= row.max);
        assert!(row.count as i128 * row.min as i128 <= row.sum);
        assert!(row.sum <= row.count as i128 * row.max as i128);
    }
}
