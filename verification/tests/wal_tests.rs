use snaildb::record::{read_all_records, RecordKind};
use snaildb::wal::{WalAction, WalWriter, WriteCommand};
use snaildb::StoreError;

fn mirror(file: &mut Vec<u8>, action: &WalAction) {
    match action {
        WalAction::Append(bytes) => file.extend_from_slice(bytes),
        WalAction::Sync => {},
        WalAction::Truncate => file.clear(),
        WalAction::SyncAndStop => {},
    }
}

fn put(key: &str, value: &[u8]) -> WriteCommand {
    WriteCommand::WriteRecord {
        kind: RecordKind::Put,
        key: key.to_string(),
        value: value.to_vec(),
    }
}

#[test]
fn reset_discards_earlier_writes() {
    let mut writer = WalWriter::new();
    let mut file: Vec<u8> = Vec::new();

    for key in ["one", "two", "three"] {
        let action = writer.apply(put(key, &[1])).unwrap();
        assert!(matches!(action, WalAction::Append(_)));
        mirror(&mut file, &action);
    }
    let action = writer.apply(WriteCommand::Reset).unwrap();
    assert!(matches!(action, WalAction::Truncate));
    mirror(&mut file, &action);

    let action = writer.apply(put("four", &[4, 4])).unwrap();
    mirror(&mut file, &action);

    let action = writer.apply(WriteCommand::Shutdown).unwrap();
    assert!(matches!(action, WalAction::SyncAndStop));
    mirror(&mut file, &action);

    // reopening the log shows exactly one record: the post-reset write
    assert_eq!(file, *writer.contents());
    let recs = read_all_records(&file).unwrap();
    assert_eq!(recs.len(), 1);
    assert_eq!(recs[0].kind, RecordKind::Put);
    assert_eq!(recs[0].key, "four");
    assert_eq!(recs[0].value, vec![4, 4]);
}

#[test]
fn flush_acknowledges_and_keeps_the_log() {
    let mut writer = WalWriter::new();
    let mut file: Vec<u8> = Vec::new();
    let action = writer.apply(put("k", &[9])).unwrap();
    mirror(&mut file, &action);
    let before = writer.contents().clone();
    let action = writer.apply(WriteCommand::Flush).unwrap();
    assert!(matches!(action, WalAction::Sync));
    assert_eq!(*writer.contents(), before);
}

#[test]
fn commands_after_shutdown_are_refused() {
    let mut writer = WalWriter::new();
    writer.apply(WriteCommand::Shutdown).unwrap();
    assert!(!writer.running());
    assert_eq!(writer.apply(put("late", &[1])).unwrap_err(), StoreError::Stopped);
    assert_eq!(writer.apply(WriteCommand::Flush).unwrap_err(), StoreError::Stopped);
    assert_eq!(writer.apply(WriteCommand::Reset).unwrap_err(), StoreError::Stopped);
    assert_eq!(
        writer.apply(WriteCommand::Shutdown).unwrap_err(),
        StoreError::Stopped
    );
}

#[test]
fn log_bytes_follow_the_record_codec() {
    let mut writer = WalWriter::new();
    let action = writer.apply(put("ab", &[7])).unwrap();
    match action {
        WalAction::Append(bytes) => {
            assert_eq!(bytes, vec![0u8, 2, 0, 0, 0, b'a', b'b', 1, 0, 0, 0, 7]);
            assert_eq!(*writer.contents(), bytes);
        },
        other => panic!("expected an append, got {other:?}"),
    }
    let action = writer
        .apply(WriteCommand::WriteRecord {
            kind: RecordKind::Delete,
            key: "ab".to_string(),
            value: Vec::new(),
        })
        .unwrap();
    match action {
        WalAction::Append(bytes) => {
            assert_eq!(bytes, vec![1u8, 2, 0, 0, 0, b'a', b'b', 0, 0, 0, 0]);
        },
        other => panic!("expected an append, got {other:?}"),
    }
    assert_eq!(writer.contents().len(), 12 + 11);
}
