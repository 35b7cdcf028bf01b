//! End-to-end behaviour of the database: appends, lookups, iteration,
//! duplicate rejection and capacity limits.

use data_pile::DatabaseBuilder;
use data_pile::Error;
use data_pile::Record;

/// Bytes one record occupies in the log: the fixed header plus key and
/// value bytes.
fn record_bytes(key: &[u8], value: &[u8]) -> usize {
    17 + key.len() + value.len()
}

fn fresh_db() -> data_pile::Database {
    DatabaseBuilder::new().open(Vec::new()).unwrap()
}

#[test]
fn empty_append_is_a_noop() {
    let mut db = fresh_db();
    let before = db.flatfile_len();
    db.append(&Vec::new()).unwrap();
    assert_eq!(db.flatfile_len(), before);
    assert!(db.get_by_seqno(0).is_none());
}

#[test]
fn three_records_by_key_seqno_and_iteration() {
    let mut db = fresh_db();
    let records = vec![
        Record::new(b"a", b"1"),
        Record::new(b"b", b"2"),
        Record::new(b"c", b"3"),
    ];
    db.append(&records).unwrap();

    assert_eq!(db.get(b"b").unwrap().value(), b"2");
    assert_eq!(db.get_by_seqno(2).unwrap().value(), b"3");

    let mut iter = db.iter_from_seqno(0).unwrap();
    let mut seen: Vec<Vec<u8>> = Vec::new();
    while let Some(record) = iter.next() {
        seen.push(record.key().to_vec());
    }
    assert_eq!(seen, vec![b"a".to_vec(), b"b".to_vec(), b"c".to_vec()]);
}

#[test]
fn duplicate_key_is_rejected_and_state_kept() {
    let mut db = fresh_db();
    db.append(&vec![Record::new(b"a", b"1")]).unwrap();
    let err = db.append(&vec![Record::new(b"a", b"2")]).unwrap_err();
    assert!(matches!(err, Error::RecordExists(ref k) if k == b"a"));
    assert_eq!(db.get(b"a").unwrap().value(), b"1");
    assert!(db.get_by_seqno(1).is_none());
}

#[test]
fn duplicate_within_one_batch_is_rejected() {
    let mut db = fresh_db();
    let batch = vec![Record::new(b"x", b"1"), Record::new(b"x", b"2")];
    let err = db.append(&batch).unwrap_err();
    assert!(matches!(err, Error::RecordExists(ref k) if k == b"x"));
    assert!(db.get(b"x").is_none());
}

#[test]
fn absent_key_and_out_of_range_seqno_give_none() {
    let mut db = fresh_db();
    db.append(&vec![Record::new(b"k", b"v")]).unwrap();
    assert!(db.get(b"missing").is_none());
    assert!(db.get_by_seqno(1).is_none());
    assert!(db.get_by_seqno(7).is_none());
    // An iterator at the current count does not exist.
    assert!(db.iter_from_seqno(1).is_none());
}

#[test]
fn single_appends_and_one_batch_give_the_same_state() {
    let records = vec![
        Record::new(b"a", b"1"),
        Record::new(b"b", b"2"),
        Record::new(b"c", b"3"),
    ];
    let mut batch_db = fresh_db();
    batch_db.append(&records).unwrap();

    let mut single_db = fresh_db();
    for record in &records {
        single_db
            .append(&vec![Record::new(record.key(), record.value())])
            .unwrap();
    }

    assert_eq!(batch_db.data_bytes(), single_db.data_bytes());
    assert_eq!(batch_db.seqno_bytes(), single_db.seqno_bytes());
    for record in &records {
        assert_eq!(
            batch_db.get(record.key()).unwrap().value(),
            single_db.get(record.key()).unwrap().value()
        );
    }
}

#[test]
fn append_that_exactly_fills_the_map_succeeds() {
    let size = record_bytes(b"a", b"1") + record_bytes(b"b", b"2");
    let mut db = DatabaseBuilder::new()
        .flatfile_map_size(size)
        .open(Vec::new())
        .unwrap();
    db.append(&vec![Record::new(b"a", b"1"), Record::new(b"b", b"2")])
        .unwrap();
    assert_eq!(db.flatfile_len(), size);
    assert_eq!(db.get(b"b").unwrap().value(), b"2");
}

#[test]
fn append_one_byte_over_the_map_fails_cleanly() {
    let size = record_bytes(b"a", b"1") + record_bytes(b"b", b"2") - 1;
    let mut db = DatabaseBuilder::new()
        .flatfile_map_size(size)
        .open(Vec::new())
        .unwrap();
    let err = db
        .append(&vec![Record::new(b"a", b"1"), Record::new(b"b", b"2")])
        .unwrap_err();
    assert!(matches!(err, Error::OutOfSpace));
    assert_eq!(db.flatfile_len(), 0);
    assert!(db.get(b"a").is_none());
}

#[test]
fn map_sized_for_three_records_refuses_the_fourth() {
    let one = record_bytes(b"0", b"v");
    let mut db = DatabaseBuilder::new()
        .flatfile_map_size(3 * one)
        .open(Vec::new())
        .unwrap();
    db.append(&vec![Record::new(b"0", b"v")]).unwrap();
    db.append(&vec![Record::new(b"1", b"v")]).unwrap();
    db.append(&vec![Record::new(b"2", b"v")]).unwrap();
    let err = db.append(&vec![Record::new(b"3", b"v")]).unwrap_err();
    assert!(matches!(err, Error::OutOfSpace));
    for i in 0..3u8 {
        let key = [b'0' + i];
        assert_eq!(db.get(&key).unwrap().value(), b"v");
        assert!(db.get_by_seqno(i as usize).is_some());
    }
    assert!(db.get_by_seqno(3).is_none());
}

#[test]
fn seqno_map_bounds_the_record_count() {
    // Room for exactly two 8-byte entries.
    let mut db = DatabaseBuilder::new()
        .seqno_index_map_size(16)
        .open(Vec::new())
        .unwrap();
    db.append(&vec![Record::new(b"a", b"1"), Record::new(b"b", b"2")])
        .unwrap();
    let err = db.append(&vec![Record::new(b"c", b"3")]).unwrap_err();
    assert!(matches!(err, Error::OutOfSpace));
    assert_eq!(db.get(b"b").unwrap().value(), b"2");
}

#[test]
fn length_never_decreases_across_appends() {
    let mut db = DatabaseBuilder::new()
        .flatfile_map_size(100)
        .open(Vec::new())
        .unwrap();
    let mut last = db.flatfile_len();
    let batches: Vec<Vec<Record>> = vec![
        vec![Record::new(b"a", b"1")],
        vec![Record::new(b"a", b"2")],                           // duplicate: fails
        vec![Record::new(b"b", &[0u8; 90])],                     // too large: fails
        vec![Record::new(b"c", b"3")],
        vec![],
    ];
    for batch in &batches {
        let _ = db.append(batch);
        let len = db.flatfile_len();
        assert!(len >= last);
        last = len;
    }
    assert_eq!(db.get(b"a").unwrap().value(), b"1");
    assert_eq!(db.get(b"c").unwrap().value(), b"3");
}

#[test]
fn iterator_walks_a_snapshot_only() {
    let mut db = fresh_db();
    for i in 0..10u8 {
        db.append(&vec![Record::new(&[i], &[i])]).unwrap();
    }
    let mut iter = db.iter_from_seqno(5).unwrap();
    for i in 10..15u8 {
        db.append(&vec![Record::new(&[i], &[i])]).unwrap();
    }
    let mut seen: Vec<u8> = Vec::new();
    while let Some(record) = iter.next() {
        seen.push(record.key()[0]);
    }
    assert_eq!(seen, vec![5, 6, 7, 8, 9]);
}

#[test]
fn seqno_bytes_are_little_endian_offsets() {
    let mut db = fresh_db();
    db.append(&vec![Record::new(b"a", b"1"), Record::new(b"b", b"2")])
        .unwrap();
    // First record at offset 0, second at 17 + 1 + 1 = 19.
    let mut expected = vec![0u8; 8];
    expected.extend_from_slice(&[19, 0, 0, 0, 0, 0, 0, 0]);
    assert_eq!(db.seqno_bytes(), expected);
}

#[test]
fn error_descriptions_name_the_variant() {
    let mut db = DatabaseBuilder::new()
        .flatfile_map_size(19)
        .open(Vec::new())
        .unwrap();
    db.append(&vec![Record::new(b"a", b"1")]).unwrap();
    let dup = db.append(&vec![Record::new(b"a", b"2")]).unwrap_err();
    assert_eq!(dup.describe(), "record already exists");
    let full = db.append(&vec![Record::new(b"b", b"2")]).unwrap_err();
    assert_eq!(full.describe(), "out of space");
}

#[test]
fn log_bytes_have_the_documented_layout() {
    let mut db = fresh_db();
    db.append(&vec![Record::new(b"ab", b"xyz")]).unwrap();
    let mut expected = vec![1u8];
    expected.extend_from_slice(&[2, 0, 0, 0, 0, 0, 0, 0]);
    expected.extend_from_slice(&[3, 0, 0, 0, 0, 0, 0, 0]);
    expected.extend_from_slice(b"ab");
    expected.extend_from_slice(b"xyz");
    assert_eq!(db.data_bytes(), expected);
}
