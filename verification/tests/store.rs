use actionkv::codec::{encode_record, process_record, StoreError};
use actionkv::engine::ActionKV;

#[test]
fn codec_round_trip() {
    let rec = encode_record(b"key1", b"value one");
    let (kv, next) = process_record(&rec, 0).unwrap();
    assert_eq!(kv.key, b"key1".to_vec());
    assert_eq!(kv.value, b"value one".to_vec());
    assert_eq!(next, rec.len());
}

#[test]
fn codec_round_trip_empty() {
    let rec = encode_record(b"", b"");
    assert_eq!(rec.len(), 12);
    let (kv, next) = process_record(&rec, 0).unwrap();
    assert_eq!(kv.key, Vec::<u8>::new());
    assert_eq!(kv.value, Vec::<u8>::new());
    assert_eq!(next, 12);
}

#[test]
fn checksum_known_value() {
    // CRC-32/IEEE of "123456789" is 0xCBF43926, stored little-endian
    let rec = encode_record(b"123456789", b"");
    assert_eq!(&rec[0..4], &[0x26, 0x39, 0xF4, 0xCB]);
    assert_eq!(&rec[4..8], &[9, 0, 0, 0]);
    assert_eq!(&rec[8..12], &[0, 0, 0, 0]);
}

#[test]
fn checksum_bit_flip_detected() {
    // flipping any single bit in the key/value region is caught
    let rec = encode_record(b"ab", b"cde");
    for byte in 12..rec.len() {
        for bit in 0..8 {
            let mut corrupt = rec.clone();
            corrupt[byte] ^= 1u8 << bit;
            match process_record(&corrupt, 0) {
                Err(StoreError::ChecksumMismatch) => {}
                other => panic!("corruption not detected: {:?}", other),
            }
        }
    }
}

#[test]
fn truncated_record_detected() {
    let rec = encode_record(b"ab", b"cde");
    for cut in 1..rec.len() {
        let mut short = rec.clone();
        short.truncate(cut);
        match process_record(&short, 0) {
            Err(StoreError::TruncatedRecord) => {}
            other => panic!("truncation not detected: {:?}", other),
        }
    }
}

#[test]
fn last_write_wins() {
    let mut store = ActionKV::open(Vec::new());
    store.load().unwrap();
    store.insert(b"k", b"v1");
    store.insert(b"k", b"v2");
    let mut reopened = ActionKV::open(store.log_bytes().clone());
    reopened.load().unwrap();
    assert_eq!(reopened.get(b"k").unwrap(), Some(b"v2".to_vec()));
}

#[test]
fn tombstone_found_with_empty_value() {
    let mut store = ActionKV::open(Vec::new());
    store.load().unwrap();
    store.insert(b"k", b"v");
    let tombstone_offset = store.seek_to_end();
    store.delete(b"k");
    // the deleted key is found with an empty value, not reported absent
    assert_eq!(store.get(b"k").unwrap(), Some(Vec::new()));
    // and a full scan still sees it, at the tombstone's offset
    assert_eq!(store.find(b"k").unwrap(), Some((tombstone_offset, Vec::new())));
}

#[test]
fn truncated_log_keeps_valid_prefix() {
    let mut store = ActionKV::open(Vec::new());
    store.insert(b"a", b"1");
    store.insert(b"b", b"2");
    let mut bytes = store.log_bytes().clone();
    let intact = bytes.len();
    bytes.extend_from_slice(&encode_record(b"c", b"3"));
    // cut partway through the third record's bytes
    bytes.truncate(intact + 7);
    let mut reopened = ActionKV::open(bytes);
    assert_eq!(reopened.load(), Err(StoreError::TruncatedRecord));
    // the first two entries were replayed before the scan stopped
    assert_eq!(reopened.get(b"a").unwrap(), Some(b"1".to_vec()));
    assert_eq!(reopened.get(b"b").unwrap(), Some(b"2".to_vec()));
}

#[test]
fn corrupt_record_fails_load() {
    let mut store = ActionKV::open(Vec::new());
    store.insert(b"a", b"1");
    store.insert(b"b", b"2");
    let mut bytes = store.log_bytes().clone();
    // flip one bit inside the first record's value byte
    bytes[13] ^= 0x01;
    let mut reopened = ActionKV::open(bytes);
    assert_eq!(reopened.load(), Err(StoreError::ChecksumMismatch));
}

#[test]
fn reload_is_idempotent() {
    let mut store = ActionKV::open(Vec::new());
    store.insert(b"a", b"1");
    store.insert(b"b", b"2");
    store.update(b"a", b"3");
    let mut reopened = ActionKV::open(store.log_bytes().clone());
    reopened.load().unwrap();
    let a1 = reopened.get(b"a").unwrap();
    let b1 = reopened.get(b"b").unwrap();
    reopened.load().unwrap();
    assert_eq!(reopened.get(b"a").unwrap(), a1);
    assert_eq!(reopened.get(b"b").unwrap(), b1);
    assert_eq!(a1, Some(b"3".to_vec()));
    assert_eq!(b1, Some(b"2".to_vec()));
}

#[test]
fn offset_from_insert_reads_back() {
    let mut store = ActionKV::open(Vec::new());
    store.insert(b"x", b"1");
    let offset = store.insert_but_ignore_index(b"y", b"2");
    let kv = store.get_at(offset).unwrap();
    assert_eq!(kv.key, b"y".to_vec());
    assert_eq!(kv.value, b"2".to_vec());
}

#[test]
fn end_to_end() {
    let mut store = ActionKV::open(Vec::new());
    store.load().unwrap();
    store.insert(b"a", b"1");
    store.insert(b"b", b"2");
    store.update(b"a", b"3");
    let mut reopened = ActionKV::open(store.log_bytes().clone());
    reopened.load().unwrap();
    assert_eq!(reopened.get(b"a").unwrap(), Some(b"3".to_vec()));
    assert_eq!(reopened.get(b"b").unwrap(), Some(b"2".to_vec()));
    assert_eq!(reopened.get(b"c").unwrap(), None);
}

#[test]
fn find_returns_last_match() {
    let mut store = ActionKV::open(Vec::new());
    store.load().unwrap();
    store.insert(b"k", b"old");
    store.insert(b"other", b"x");
    let last_offset = store.seek_to_end();
    store.insert(b"k", b"new");
    assert_eq!(store.find(b"k").unwrap(), Some((last_offset, b"new".to_vec())));
    assert_eq!(store.find(b"missing").unwrap(), None);
}

#[test]
fn get_before_load_sees_empty_index() {
    let mut store = ActionKV::open(Vec::new());
    store.insert(b"k", b"v");
    let mut reopened = ActionKV::open(store.log_bytes().clone());
    // no load: the index is empty, so nothing is found
    assert_eq!(reopened.get(b"k").unwrap(), None);
}

#[test]
fn empty_key_and_value() {
    let mut store = ActionKV::open(Vec::new());
    store.load().unwrap();
    store.insert(b"", b"");
    assert_eq!(store.get(b"").unwrap(), Some(Vec::new()));
    let mut reopened = ActionKV::open(store.log_bytes().clone());
    reopened.load().unwrap();
    assert_eq!(reopened.get(b"").unwrap(), Some(Vec::new()));
}

#[test]
fn get_at_bad_offset_fails() {
    let mut store = ActionKV::open(Vec::new());
    store.insert(b"k", b"v");
    // offset 1 points into the middle of the record: either the declared
    // lengths run past the log or the checksum cannot match
    assert!(store.get_at(1).is_err());
    // an offset past the end of the log is a truncation
    let end = store.seek_to_end();
    assert_eq!(store.get_at(end + 100).unwrap_err(), StoreError::TruncatedRecord);
}
