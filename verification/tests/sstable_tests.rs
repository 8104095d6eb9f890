use snaildb::sstable::{read_entry_count, SsTable};
use snaildb::value::Value;
use snaildb::StoreError;

fn rec_image(tag: u8, key: &str, val: &[u8]) -> Vec<u8> {
    let mut v = vec![tag];
    v.extend_from_slice(&(key.len() as u32).to_le_bytes());
    v.extend_from_slice(key.as_bytes());
    v.extend_from_slice(&(val.len() as u32).to_le_bytes());
    v.extend_from_slice(val);
    v
}

fn table_image(count: u32, recs: &[Vec<u8>], min: &str, max: &str) -> Vec<u8> {
    let mut v = Vec::new();
    v.extend_from_slice(&count.to_le_bytes());
    for r in recs {
        v.extend_from_slice(r);
    }
    let off = v.len() as u64;
    v.extend_from_slice(&(min.len() as u32).to_le_bytes());
    v.extend_from_slice(min.as_bytes());
    v.extend_from_slice(&(max.len() as u32).to_le_bytes());
    v.extend_from_slice(max.as_bytes());
    v.extend_from_slice(&off.to_le_bytes());
    v
}

#[test]
fn create_then_load_concrete() {
    let entries = vec![
        ("a".to_string(), Value::Present(vec![1, 2])),
        ("b".to_string(), Value::Deleted),
        ("c".to_string(), Value::Present(vec![9])),
    ];
    let (table, image) = SsTable::create("t.db".to_string(), entries).unwrap();
    assert_eq!(table.path().as_str(), "t.db");
    assert_eq!(table.min_key().as_str(), "a");
    assert_eq!(table.max_key().as_str(), "c");
    assert_eq!(image.len(), 55);
    assert_eq!(&image[0..4], &[3, 0, 0, 0]);

    let loaded = SsTable::load("t.db".to_string(), &image).unwrap();
    assert_eq!(loaded.num_entries(), 3);
    assert_eq!(loaded.entry_at(0).key().as_str(), "a");
    assert_eq!(*loaded.entry_at(0).value(), Value::Present(vec![1, 2]));
    assert_eq!(loaded.entry_at(1).key().as_str(), "b");
    assert_eq!(*loaded.entry_at(1).value(), Value::Deleted);
    assert_eq!(loaded.entry_at(2).key().as_str(), "c");
    assert_eq!(*loaded.entry_at(2).value(), Value::Present(vec![9]));
    assert_eq!(loaded.min_key().as_str(), "a");
    assert_eq!(loaded.max_key().as_str(), "c");

    assert_eq!(loaded.get("b"), Some(Value::Deleted));
    assert_eq!(loaded.get("a"), Some(Value::Present(vec![1, 2])));
    assert_eq!(loaded.get("z"), None);
    assert!(loaded.might_contain_key("b"));
    assert!(!loaded.might_contain_key("d"));
}

#[test]
fn footer_is_self_locating_with_varied_key_lengths() {
    let short_key = "a".to_string();
    let long_key = "z".repeat(10_000);
    let entries = vec![
        (short_key.clone(), Value::Present(vec![7])),
        (long_key.clone(), Value::Deleted),
    ];
    let (_, image) = SsTable::create("vary.db".to_string(), entries).unwrap();
    // records: (1+4+1+4+1) + (1+4+10000+4+0); footer offset lives in exactly
    // the final 8 bytes.
    let expected_off: u64 = 4 + 11 + 10009;
    let tail: [u8; 8] = image[image.len() - 8..].try_into().unwrap();
    assert_eq!(u64::from_le_bytes(tail), expected_off);

    let loaded = SsTable::load("vary.db".to_string(), &image).unwrap();
    assert_eq!(loaded.min_key().as_str(), "a");
    assert_eq!(loaded.max_key(), &long_key);
    assert_eq!(loaded.get(&long_key), Some(Value::Deleted));
}

#[test]
fn lookup_matches_linear_scan() {
    let pairs = vec![
        ("apple".to_string(), Value::Present(vec![1])),
        ("banana".to_string(), Value::Deleted),
        ("cherry".to_string(), Value::Present(vec![])),
        ("damson".to_string(), Value::Present(vec![4, 4])),
        ("elder".to_string(), Value::Deleted),
    ];
    let (table, _) = SsTable::create("scan.db".to_string(), pairs.clone()).unwrap();
    let probes = ["apple", "banana", "blank", "cherry", "damson", "elder", "", "zzz", "aardvark"];
    for probe in probes {
        let scanned = pairs.iter().find(|(k, _)| k == probe).map(|(_, v)| v.clone());
        assert_eq!(table.get(probe), scanned, "probe {probe}");
    }
}

#[test]
fn range_filter_has_no_false_negatives() {
    let pairs = vec![
        ("bb".to_string(), Value::Present(vec![1])),
        ("dd".to_string(), Value::Deleted),
        ("ff".to_string(), Value::Present(vec![2])),
    ];
    let (table, _) = SsTable::create("range.db".to_string(), pairs).unwrap();
    for present in ["bb", "dd", "ff"] {
        assert!(table.might_contain_key(present));
    }
    // inside the range but absent: may answer true, never breaks get
    assert_eq!(table.get("cc"), None);
    // outside [min, max]: must answer false
    assert!(!table.might_contain_key("aa"));
    assert!(!table.might_contain_key("ba"));
    assert!(!table.might_contain_key("fff"));
    assert!(!table.might_contain_key("zz"));
}

#[test]
fn truncation_is_detected_for_every_cut() {
    let entries = vec![
        ("a".to_string(), Value::Present(vec![1, 2])),
        ("b".to_string(), Value::Deleted),
        ("c".to_string(), Value::Present(vec![9])),
    ];
    let (_, image) = SsTable::create("cut.db".to_string(), entries).unwrap();
    for cut in 1..image.len() {
        let short = &image[..image.len() - cut];
        let r = SsTable::load("cut.db".to_string(), short);
        assert!(r.is_err(), "cut of {cut} bytes must not load");
    }
    // a cut inside the trailing offset field is reported as truncation
    for cut in 1..=8 {
        let short = &image[..image.len() - cut];
        assert_eq!(
            SsTable::load("cut.db".to_string(), short).unwrap_err(),
            StoreError::Truncated
        );
    }
}

#[test]
fn create_rejects_empty_entry_sequence() {
    let r = SsTable::create("empty.db".to_string(), Vec::new());
    assert_eq!(r.unwrap_err(), StoreError::InvalidInput);
}

#[test]
fn load_rejects_short_and_empty_images() {
    assert_eq!(
        SsTable::load("x".to_string(), &[]).unwrap_err(),
        StoreError::Truncated
    );
    assert_eq!(
        SsTable::load("x".to_string(), &[1, 2]).unwrap_err(),
        StoreError::Truncated
    );
}

#[test]
fn load_rejects_zero_entry_count() {
    assert_eq!(
        SsTable::load("x".to_string(), &[0, 0, 0, 0]).unwrap_err(),
        StoreError::InvalidData
    );
}

#[test]
fn load_rejects_missing_records() {
    // one entry declared, none present
    assert_eq!(
        SsTable::load("x".to_string(), &[1, 0, 0, 0]).unwrap_err(),
        StoreError::Truncated
    );
}

#[test]
fn load_rejects_unknown_record_tag() {
    let recs = vec![rec_image(2, "a", &[])];
    let image = table_image(1, &recs, "a", "a");
    assert_eq!(
        SsTable::load("x".to_string(), &image).unwrap_err(),
        StoreError::InvalidData
    );
}

#[test]
fn load_rejects_key_bytes_that_are_not_text() {
    let mut bad = vec![1u8, 0, 0, 0];
    bad.push(0); // tag
    bad.extend_from_slice(&1u32.to_le_bytes());
    bad.push(0xFF); // not UTF-8
    bad.extend_from_slice(&0u32.to_le_bytes());
    assert_eq!(
        SsTable::load("x".to_string(), &bad).unwrap_err(),
        StoreError::InvalidData
    );
}

#[test]
fn load_rejects_keys_out_of_order() {
    let recs = vec![rec_image(0, "b", &[1]), rec_image(0, "a", &[1])];
    let image = table_image(2, &recs, "b", "a");
    assert_eq!(
        SsTable::load("x".to_string(), &image).unwrap_err(),
        StoreError::InvalidData
    );
}

#[test]
fn load_rejects_tombstone_with_payload() {
    let recs = vec![rec_image(1, "a", &[5])];
    let image = table_image(1, &recs, "a", "a");
    assert_eq!(
        SsTable::load("x".to_string(), &image).unwrap_err(),
        StoreError::InvalidData
    );
}

#[test]
fn load_rejects_footer_that_contradicts_entries() {
    let recs = vec![rec_image(0, "a", &[1])];
    let image = table_image(1, &recs, "x", "a");
    assert_eq!(
        SsTable::load("x".to_string(), &image).unwrap_err(),
        StoreError::InvalidData
    );
}

#[test]
fn load_rejects_wrong_footer_offset() {
    let recs = vec![rec_image(0, "a", &[1])];
    let mut image = table_image(1, &recs, "a", "a");
    let n = image.len();
    let bad_off = 5u64; // record region really ends at 15
    image[n - 8..].copy_from_slice(&bad_off.to_le_bytes());
    assert!(SsTable::load("x".to_string(), &image).is_err());
}

#[test]
fn multibyte_keys_round_trip() {
    let entries = vec![
        ("grüß".to_string(), Value::Present(vec![1])),
        ("日記".to_string(), Value::Deleted),
    ];
    let (_, image) = SsTable::create("utf8.db".to_string(), entries).unwrap();
    let loaded = SsTable::load("utf8.db".to_string(), &image).unwrap();
    assert_eq!(loaded.entry_at(0).key().as_str(), "grüß");
    assert_eq!(loaded.entry_at(1).key().as_str(), "日記");
    assert_eq!(loaded.get("日記"), Some(Value::Deleted));
    assert_eq!(loaded.get("grün"), None);
}

#[test]
fn entry_count_is_read_little_endian() {
    assert_eq!(read_entry_count(&[5, 0, 0, 0, 9, 9]).unwrap(), 5);
    assert_eq!(read_entry_count(&[0x01, 0x02, 0, 0]).unwrap(), 0x0201);
    assert_eq!(read_entry_count(&[1, 2, 3]).unwrap_err(), StoreError::Truncated);
}

#[test]
fn load_rejects_trailing_garbage() {
    let entries = vec![("a".to_string(), Value::Present(vec![1]))];
    let (_, image) = SsTable::create("g.db".to_string(), entries).unwrap();
    let mut padded = image.clone();
    padded.push(0);
    assert!(SsTable::load("g.db".to_string(), &padded).is_err());
    let mut doubled = image.clone();
    doubled.extend_from_slice(&image);
    assert!(SsTable::load("g.db".to_string(), &doubled).is_err());
}

#[test]
fn single_entry_table_and_empty_probe() {
    let entries = vec![("bb".to_string(), Value::Present(vec![3]))];
    let (table, image) = SsTable::create("one.db".to_string(), entries).unwrap();
    assert_eq!(table.min_key().as_str(), "bb");
    assert_eq!(table.max_key().as_str(), "bb");
    assert!(table.might_contain_key("bb"));
    assert!(!table.might_contain_key(""));
    assert_eq!(table.get(""), None);
    assert_eq!(table.get("bb"), Some(Value::Present(vec![3])));
    let loaded = SsTable::load("one.db".to_string(), &image).unwrap();
    assert_eq!(loaded.num_entries(), 1);
}

#[test]
fn value_from_bytes_is_live_data() {
    assert_eq!(Value::from_bytes(vec![1, 2, 3]), Value::Present(vec![1, 2, 3]));
    assert_eq!(Value::from_bytes(Vec::new()), Value::Present(Vec::new()));
}
