use station_stats::key::resolve;
use station_stats::sample::read_sample;
use station_stats::scan::{find_next, next_record, ByteSpan, FormatFault, RawRecord};

#[test]
fn finds_the_first_occurrence() {
    assert_eq!(find_next(b"ab;cd;ef", 0, 8, b';'), Some(2));
    assert_eq!(find_next(b"ab;cd;ef", 3, 8, b';'), Some(5));
    assert_eq!(find_next(b"ab;cd;ef", 2, 8, b';'), Some(2));
}

#[test]
fn search_stops_at_the_end_of_the_window() {
    assert_eq!(find_next(b"ab;cd;ef", 0, 2, b';'), None);
    assert_eq!(find_next(b"ab;cd;ef", 3, 5, b';'), None);
    assert_eq!(find_next(b"ab;cd;ef", 6, 8, b';'), None);
}

#[test]
fn search_never_leaves_the_buffer() {
    assert_eq!(find_next(b"abc", 0, 100, b';'), None);
    assert_eq!(find_next(b"abc", 7, 100, b';'), None);
    assert_eq!(find_next(b"", 0, 0, b'\n'), None);
    assert_eq!(find_next(b"abc;", 0, usize::MAX, b';'), Some(3));
}

#[test]
fn empty_or_inverted_window_finds_nothing() {
    assert_eq!(find_next(b";;;", 1, 1, b';'), None);
    assert_eq!(find_next(b";;;", 2, 1, b';'), None);
}

#[test]
fn locates_key_and_value() {
    let buf = b"Hamburg;12.0\nOslo;-3.5\n";
    assert_eq!(
        next_record(buf, 0, buf.len()),
        Ok(RawRecord {
            key: ByteSpan { start: 0, end: 7 },
            value: ByteSpan { start: 8, end: 12 },
        })
    );
    assert_eq!(
        next_record(buf, 13, buf.len()),
        Ok(RawRecord {
            key: ByteSpan { start: 13, end: 17 },
            value: ByteSpan { start: 18, end: 22 },
        })
    );
}

#[test]
fn spans_borrow_from_the_buffer() {
    let buf = b"Hamburg;12.0\n";
    let record = next_record(buf, 0, buf.len()).unwrap();
    assert_eq!(record.key.bytes(buf), b"Hamburg");
    assert_eq!(record.value.bytes(buf), b"12.0");
    assert_eq!(record.key.len(), 7);
    assert_eq!(record.value.len(), 4);
}

#[test]
fn empty_key_and_empty_value_are_located() {
    assert_eq!(
        next_record(b";\n", 0, 2),
        Ok(RawRecord {
            key: ByteSpan { start: 0, end: 0 },
            value: ByteSpan { start: 1, end: 1 },
        })
    );
}

#[test]
fn line_that_runs_past_the_window_is_a_fault() {
    let buf = b"Hamburg;12.0\n";
    assert_eq!(next_record(buf, 0, 12), Err(FormatFault::MissingNewline));
    assert_eq!(next_record(buf, 0, 5), Err(FormatFault::MissingNewline));
    assert_eq!(next_record(b"Hamburg;12.0", 0, 12), Err(FormatFault::MissingNewline));
    assert_eq!(next_record(buf, 13, 13), Err(FormatFault::MissingNewline));
}

#[test]
fn line_without_separator_is_a_fault() {
    assert_eq!(
        next_record(b"Hamburg\nOslo;1.0\n", 0, 17),
        Err(FormatFault::MissingSeparator)
    );
    assert_eq!(next_record(b"\n", 0, 1), Err(FormatFault::MissingSeparator));
}

#[test]
fn key_ends_at_the_first_separator() {
    let buf = b"a;b;1.0\n";
    let record = next_record(buf, 0, buf.len()).unwrap();
    assert_eq!(record.key.bytes(buf), b"a");
    assert_eq!(record.value.bytes(buf), b"b;1.0");
}

#[test]
fn sample_holds_identity_value_and_next_cursor() {
    let buf = b"Hamburg;12.0\nOslo;-3.5\n";
    let first = read_sample(buf, 0, buf.len()).unwrap();
    assert_eq!(first.key, ByteSpan { start: 0, end: 7 });
    assert_eq!(first.value, 120);
    assert_eq!(first.next, 13);
    assert_eq!(first.id, resolve(b"Hamburg", ByteSpan { start: 0, end: 7 }));
    let second = read_sample(buf, first.next, buf.len()).unwrap();
    assert_eq!(second.value, -35);
    assert_eq!(second.next, 23);
    assert_ne!(second.id, first.id);
}

#[test]
fn sample_reports_the_fault_of_the_value() {
    assert_eq!(read_sample(b"C;abc\n", 0, 6), Err(FormatFault::NonNumeric));
    assert_eq!(read_sample(b"C;1.25\n", 0, 7), Err(FormatFault::BadShape));
    assert_eq!(read_sample(b"C;\n", 0, 3), Err(FormatFault::BadShape));
    assert_eq!(
        read_sample(b"C;9999999999.9\n", 0, 15),
        Err(FormatFault::OutOfRange)
    );
    assert_eq!(read_sample(b"C1.0\n", 0, 5), Err(FormatFault::MissingSeparator));
    assert_eq!(read_sample(b"C;1.0", 0, 5), Err(FormatFault::MissingNewline));
}

#[test]
fn equal_keys_resolve_to_equal_identities() {
    let buf = b"Oslo;1.0\nBergen;2.0\nOslo;3.0\n";
    let first = resolve(buf, ByteSpan { start: 0, end: 4 });
    let other = resolve(buf, ByteSpan { start: 9, end: 15 });
    let again = resolve(buf, ByteSpan { start: 20, end: 24 });
    assert_eq!(first, again);
    assert_ne!(first, other);
}
