//! Recovery: a database reopened over the bytes of its data file answers
//! the same queries, whatever zero-filled tail the file carries.

use data_pile::DatabaseBuilder;
use data_pile::Error;
use data_pile::Record;

#[test]
fn reopen_preserves_all_queries() {
    let mut db = DatabaseBuilder::new().open(Vec::new()).unwrap();
    let records = vec![
        Record::new(b"alpha", b"1"),
        Record::new(b"beta", b"2"),
        Record::new(b"gamma", b"3"),
    ];
    db.append(&records).unwrap();

    let bytes = db.data_bytes();
    let reopened = DatabaseBuilder::new().open(bytes).unwrap();

    for (i, record) in records.iter().enumerate() {
        assert_eq!(reopened.get(record.key()).unwrap().value(), record.value());
        let by_seqno = reopened.get_by_seqno(i).unwrap();
        assert_eq!(by_seqno.key(), record.key());
        assert_eq!(by_seqno.value(), record.value());
    }
    let mut iter = reopened.iter_from_seqno(0).unwrap();
    let mut count = 0;
    while let Some(record) = iter.next() {
        assert_eq!(record.key(), records[count].key());
        count += 1;
    }
    assert_eq!(count, records.len());
}

#[test]
fn zero_filled_tail_is_not_read_as_records() {
    // A data file is pre-extended to the map size; the tail past the
    // written records stays zero and the scan must stop there.
    let mut db = DatabaseBuilder::new().open(Vec::new()).unwrap();
    db.append(&vec![Record::new(b"k", b"v")]).unwrap();
    let mut bytes = db.data_bytes();
    let written = bytes.len();
    bytes.resize(written + 1024, 0);

    let reopened = DatabaseBuilder::new().open(bytes).unwrap();
    assert_eq!(reopened.flatfile_len(), written);
    assert_eq!(reopened.get(b"k").unwrap().value(), b"v");
    assert!(reopened.get_by_seqno(1).is_none());
}

#[test]
fn truncated_tail_record_is_dropped() {
    let mut db = DatabaseBuilder::new().open(Vec::new()).unwrap();
    db.append(&vec![Record::new(b"a", b"1"), Record::new(b"b", b"2")])
        .unwrap();
    let mut bytes = db.data_bytes();
    // Cut into the second record: only the first survives recovery.
    bytes.truncate(bytes.len() - 1);
    let reopened = DatabaseBuilder::new().open(bytes).unwrap();
    assert_eq!(reopened.get(b"a").unwrap().value(), b"1");
    assert!(reopened.get(b"b").is_none());
    assert!(reopened.get_by_seqno(1).is_none());
}

#[test]
fn reopen_refuses_a_log_with_repeated_keys() {
    let mut one = DatabaseBuilder::new().open(Vec::new()).unwrap();
    one.append(&vec![Record::new(b"same", b"1")]).unwrap();
    let mut bytes = one.data_bytes();
    let copy = bytes.clone();
    bytes.extend_from_slice(&copy);

    let err = DatabaseBuilder::new().open(bytes).unwrap_err();
    assert!(matches!(err, Error::RecordExists(ref k) if k == b"same"));
}

#[test]
fn reopen_refuses_more_records_than_the_seqno_map_holds() {
    let mut db = DatabaseBuilder::new().open(Vec::new()).unwrap();
    db.append(&vec![Record::new(b"a", b"1"), Record::new(b"b", b"2")])
        .unwrap();
    let bytes = db.data_bytes();
    let err = DatabaseBuilder::new()
        .seqno_index_map_size(8)
        .open(bytes)
        .unwrap_err();
    assert!(matches!(err, Error::OutOfSpace));
}

#[test]
fn map_size_clamps_what_a_reopen_sees() {
    let mut db = DatabaseBuilder::new().open(Vec::new()).unwrap();
    db.append(&vec![Record::new(b"a", b"1"), Record::new(b"b", b"2")])
        .unwrap();
    let bytes = db.data_bytes();
    // A window that holds only the first record's bytes.
    let reopened = DatabaseBuilder::new()
        .flatfile_map_size(19)
        .open(bytes)
        .unwrap();
    assert_eq!(reopened.get(b"a").unwrap().value(), b"1");
    assert!(reopened.get(b"b").is_none());
}

#[test]
fn thousand_records_survive_a_reopen() {
    let mut db = DatabaseBuilder::new().open(Vec::new()).unwrap();
    // Distinct keys in a scrambled order, from a small multiplicative
    // generator.
    let mut keys: Vec<[u8; 4]> = Vec::new();
    let mut x: u32 = 1;
    for _ in 0..1000 {
        x = x.wrapping_mul(48271) % 0x7fffffff;
        keys.push(x.to_le_bytes());
    }
    for (i, key) in keys.iter().enumerate() {
        let value = (i as u32).to_le_bytes();
        db.append(&vec![Record::new(key, &value)]).unwrap();
    }

    let reopened = DatabaseBuilder::new().open(db.data_bytes()).unwrap();
    for (i, key) in keys.iter().enumerate() {
        let value = (i as u32).to_le_bytes();
        assert_eq!(reopened.get(key).unwrap().value(), value);
        assert_eq!(reopened.get_by_seqno(i).unwrap().key(), key);
    }
    assert!(reopened.get_by_seqno(1000).is_none());
}

#[test]
fn empty_file_opens_an_empty_database() {
    let db = DatabaseBuilder::new().open(Vec::new()).unwrap();
    assert_eq!(db.flatfile_len(), 0);
    assert!(db.get(b"anything").is_none());
    assert!(db.get_by_seqno(0).is_none());
    assert!(db.iter_from_seqno(0).is_none());
}
