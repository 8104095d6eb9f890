use snaildb::record::{read_all_records, read_record, write_record, DecodedRecord, RecordKind};
use snaildb::StoreError;

#[test]
fn record_round_trips_through_the_codec() {
    let mut buf: Vec<u8> = Vec::new();
    write_record(&mut buf, RecordKind::Put, "key", &[10, 20, 30]).unwrap();
    write_record(&mut buf, RecordKind::Delete, "gone", &[]).unwrap();

    let (first, after_first) = read_record(&buf, 0).unwrap().unwrap();
    assert_eq!(
        first,
        DecodedRecord { kind: RecordKind::Put, key: "key".to_string(), value: vec![10, 20, 30] }
    );
    let (second, end) = read_record(&buf, after_first).unwrap().unwrap();
    assert_eq!(
        second,
        DecodedRecord { kind: RecordKind::Delete, key: "gone".to_string(), value: Vec::new() }
    );
    assert_eq!(end, buf.len());
    assert_eq!(read_record(&buf, end).unwrap(), None);
}

#[test]
fn record_layout_is_length_prefixed_little_endian() {
    let mut buf: Vec<u8> = Vec::new();
    write_record(&mut buf, RecordKind::Put, "ab", &[7]).unwrap();
    assert_eq!(
        buf,
        vec![0u8, 2, 0, 0, 0, b'a', b'b', 1, 0, 0, 0, 7]
    );
    let mut del: Vec<u8> = Vec::new();
    write_record(&mut del, RecordKind::Delete, "k", &[]).unwrap();
    assert_eq!(del, vec![1u8, 1, 0, 0, 0, b'k', 0, 0, 0, 0]);
}

#[test]
fn partial_record_is_a_truncation_error_not_absence() {
    let mut buf: Vec<u8> = Vec::new();
    write_record(&mut buf, RecordKind::Put, "key", &[10, 20, 30]).unwrap();
    for cut in 1..buf.len() {
        let r = read_record(&buf[..buf.len() - cut], 0);
        assert_eq!(r.unwrap_err(), StoreError::Truncated, "cut {cut}");
    }
}

#[test]
fn unknown_tag_is_invalid_data() {
    let bytes = vec![7u8, 1, 0, 0, 0, b'a', 0, 0, 0, 0];
    assert_eq!(read_record(&bytes, 0).unwrap_err(), StoreError::InvalidData);
}

#[test]
fn key_bytes_must_be_text() {
    let bytes = vec![0u8, 1, 0, 0, 0, 0xFF, 0, 0, 0, 0];
    assert_eq!(read_record(&bytes, 0).unwrap_err(), StoreError::InvalidData);
}

#[test]
fn reading_a_whole_stream_returns_every_record() {
    let mut buf: Vec<u8> = Vec::new();
    write_record(&mut buf, RecordKind::Put, "one", &[1]).unwrap();
    write_record(&mut buf, RecordKind::Put, "two", &[2, 2]).unwrap();
    write_record(&mut buf, RecordKind::Delete, "three", &[]).unwrap();
    let recs = read_all_records(&buf).unwrap();
    assert_eq!(recs.len(), 3);
    assert_eq!(recs[0].key, "one");
    assert_eq!(recs[1].value, vec![2, 2]);
    assert_eq!(recs[2].kind, RecordKind::Delete);

    assert_eq!(read_all_records(&[]).unwrap().len(), 0);
    assert_eq!(
        read_all_records(&buf[..buf.len() - 1]).unwrap_err(),
        StoreError::Truncated
    );
}

#[test]
fn empty_key_and_empty_payload_are_valid() {
    let mut buf: Vec<u8> = Vec::new();
    write_record(&mut buf, RecordKind::Put, "", &[]).unwrap();
    let (rec, end) = read_record(&buf, 0).unwrap().unwrap();
    assert_eq!(rec.key, "");
    assert_eq!(rec.value, Vec::<u8>::new());
    assert_eq!(end, 9);
}
