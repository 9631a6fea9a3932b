use station_stats::catalog::pre_hash_stations;
use station_stats::engine::aggregate_serial;
use station_stats::sample::ScanError;
use station_stats::scan::FormatFault;
use station_stats::shape::{run, Shape};
use station_stats::table::StationTable;

const INPUT: &[u8] = b"Oslo;1.5\nBergen;-2.0\nOslo;3.5\nAlta;0.0\nBergen;7.1\nOslo;-9.9\n";

fn totals(table: &StationTable) -> Vec<(u64, usize, i32, i32, i128)> {
    let mut out = Vec::new();
    for slot in 0..table.len() {
        let r = table.readings_at(slot);
        out.push((table.id_at(slot), r.count(), r.min(), r.max(), r.sum()));
    }
    out
}

#[test]
fn default_shape_is_local_merge() {
    assert_eq!(Shape::default(), Shape::LocalMerge);
}

#[test]
fn both_shapes_meet_one_contract() {
    let seed = StationTable::new();
    let reference = aggregate_serial(INPUT, &seed).unwrap();
    for workers in [1, 2, 8] {
        for shape in [Shape::LocalMerge, Shape::ProducerConsumer] {
            let table = run(INPUT, workers, shape, &seed).unwrap();
            assert_eq!(totals(&table), totals(&reference));
            assert_eq!(table.seen(), 6);
            assert!(!table.is_closed());
        }
    }
    let oslo = reference.get(b"Oslo").unwrap();
    assert_eq!((oslo.count(), oslo.min(), oslo.max(), oslo.sum()), (3, -99, 35, -49));
}

#[test]
fn closed_seed_gives_the_same_table_in_both_shapes() {
    let seed = pre_hash_stations(b"Bergen;0\nOslo;0\n").unwrap();
    let merged = run(INPUT, 3, Shape::LocalMerge, &seed).unwrap();
    let consumed = run(INPUT, 3, Shape::ProducerConsumer, &seed).unwrap();
    assert_eq!(totals(&merged), totals(&consumed));
    assert_eq!(merged.len(), 2);
    for slot in 0..merged.len() {
        assert_eq!(merged.name_at(slot), consumed.name_at(slot));
    }
    assert_eq!(merged.name_at(0), b"Bergen");
    assert_eq!(merged.get(b"Alta"), None);
    assert_eq!(merged.seen(), 6);
}

#[test]
fn both_shapes_fail_on_the_same_line() {
    let buf = b"Oslo;1.5\nBergen;2\nOslo;x\n";
    let fault = Some(ScanError { kind: FormatFault::BadShape, offset: 9 });
    for shape in [Shape::LocalMerge, Shape::ProducerConsumer] {
        assert_eq!(run(buf, 4, shape, &StationTable::new()).err(), fault);
    }
}
