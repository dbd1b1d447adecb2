use librustkv::codec::decode;
use librustkv::codec::encode;
use librustkv::KvError;
use librustkv::RustKV;

#[test]
fn round_trip_basic() {
    let rec = encode(b"key1", b"value1");
    let kv = decode(&rec, 0).unwrap();
    assert_eq!(kv.key, b"key1".to_vec());
    assert_eq!(kv.value, b"value1".to_vec());
}

#[test]
fn round_trip_empty_value() {
    let rec = encode(b"some-key", b"");
    let kv = decode(&rec, 0).unwrap();
    assert_eq!(kv.key, b"some-key".to_vec());
    assert_eq!(kv.value, Vec::<u8>::new());
}

#[test]
fn round_trip_empty_key_and_value() {
    let rec = encode(b"", b"");
    assert_eq!(rec.len(), 12);
    let kv = decode(&rec, 0).unwrap();
    assert_eq!(kv.key, Vec::<u8>::new());
    assert_eq!(kv.value, Vec::<u8>::new());
}

#[test]
fn header_layout_exact() {
    // CRC-32 (IEEE) of b"123456789" is the classic check value 0xCBF43926.
    let rec = encode(b"1234", b"56789");
    assert_eq!(rec.len(), 12 + 9);
    assert_eq!(&rec[0..4], &[0x26, 0x39, 0xF4, 0xCB]);
    assert_eq!(&rec[4..8], &[4, 0, 0, 0]);
    assert_eq!(&rec[8..12], &[5, 0, 0, 0]);
    assert_eq!(&rec[12..21], b"123456789");
}

#[test]
fn checksum_matches_crc_crate() {
    let rec = encode(b"abc", b"def");
    let expected = crc::Crc::<u32>::new(&crc::CRC_32_ISO_HDLC).checksum(b"abcdef");
    let stored = u32::from_le_bytes([rec[0], rec[1], rec[2], rec[3]]);
    assert_eq!(stored, expected);
}

#[test]
fn flipping_any_payload_byte_is_corruption() {
    let rec = encode(b"abc", b"xyz");
    for i in 12..rec.len() {
        let mut bad = rec.clone();
        bad[i] ^= 0x01;
        match decode(&bad, 0) {
            Err(KvError::Corrupt) => {}
            other => panic!("payload byte {} flipped: expected corruption, got {:?}", i, other),
        }
    }
}

#[test]
fn flipping_a_checksum_byte_is_corruption() {
    let rec = encode(b"abc", b"xyz");
    for i in 0..4 {
        let mut bad = rec.clone();
        bad[i] ^= 0x80;
        match decode(&bad, 0) {
            Err(KvError::Corrupt) => {}
            other => panic!("checksum byte {} flipped: expected corruption, got {:?}", i, other),
        }
    }
}

#[test]
fn decode_at_end_of_log_is_the_clean_signal() {
    let empty: Vec<u8> = Vec::new();
    assert_eq!(decode(&empty, 0).unwrap_err(), KvError::EndOfLog);
    let rec = encode(b"a", b"1");
    assert_eq!(decode(&rec, rec.len() as u64).unwrap_err(), KvError::EndOfLog);
}

#[test]
fn decode_mid_header_is_truncation() {
    let rec = encode(b"a", b"1");
    let cut: Vec<u8> = rec[0..5].to_vec();
    assert_eq!(decode(&cut, 0).unwrap_err(), KvError::Truncated);
}

#[test]
fn decode_mid_payload_is_truncation() {
    let rec = encode(b"a", b"1");
    let cut: Vec<u8> = rec[0..rec.len() - 1].to_vec();
    assert_eq!(decode(&cut, 0).unwrap_err(), KvError::Truncated);
}

#[test]
fn insert_then_get() {
    let mut store = RustKV::open(Vec::new());
    store.insert(b"key", b"value").unwrap();
    assert_eq!(store.get(b"key").unwrap(), Some(b"value".to_vec()));
    assert_eq!(store.get(b"other").unwrap(), None);
}

#[test]
fn update_without_reload_returns_new_value() {
    let mut store = RustKV::open(Vec::new());
    store.insert(b"k", b"old").unwrap();
    store.update(b"k", b"new").unwrap();
    assert_eq!(store.get(b"k").unwrap(), Some(b"new".to_vec()));
}

#[test]
fn last_write_wins_across_reload() {
    let mut store = RustKV::open(Vec::new());
    store.insert(b"a", b"1").unwrap();
    store.insert(b"a", b"22").unwrap();

    let mut fresh = RustKV::open(store.log.clone());
    fresh.load().unwrap();
    assert_eq!(fresh.get(b"a").unwrap(), Some(b"22".to_vec()));
    // exactly one binding, pointing at the second record's offset
    assert_eq!(fresh.index.len(), 1);
    let first_record_len = 12 + 1 + 1;
    assert_eq!(fresh.index.get(b"a"), Some(first_record_len as u64));
}

#[test]
fn tombstone_reads_back_present_but_empty() {
    let mut store = RustKV::open(Vec::new());
    store.insert(b"k", b"v").unwrap();
    store.delete(b"k").unwrap();
    assert_eq!(store.get(b"k").unwrap(), Some(Vec::new()));
    // a key never written stays missing
    assert_eq!(store.get(b"never").unwrap(), None);
}

#[test]
fn append_offset_reads_back_exactly() {
    let mut store = RustKV::open(Vec::new());
    store.insert(b"first", b"1").unwrap();
    // leave the last read position somewhere else entirely
    let _ = store.get(b"first").unwrap();
    let off = store.insert_but_ignore_index(b"second", b"2").unwrap();
    let kv = store.get_at_position(off).unwrap();
    assert_eq!(kv.key, b"second".to_vec());
    assert_eq!(kv.value, b"2".to_vec());
}

#[test]
fn end_to_end_scenario() {
    let mut store = RustKV::open(Vec::new());
    store.insert(b"a", b"1").unwrap();
    store.insert(b"b", b"2").unwrap();
    store.update(b"a", b"99").unwrap();
    store.delete(b"b").unwrap();

    let mut reloaded = RustKV::open(store.log.clone());
    reloaded.load().unwrap();
    assert_eq!(reloaded.get(b"a").unwrap(), Some(b"99".to_vec()));
    assert_eq!(reloaded.get(b"b").unwrap(), Some(Vec::new()));
    assert_eq!(reloaded.get(b"c").unwrap(), None);
}

#[test]
fn reload_is_idempotent() {
    let mut store = RustKV::open(Vec::new());
    store.insert(b"a", b"1").unwrap();
    store.insert(b"b", b"2").unwrap();
    store.insert(b"a", b"3").unwrap();

    let mut handle = RustKV::open(store.log.clone());
    handle.load().unwrap();
    let len_once = handle.index.len();
    let mut entries_once: Vec<(Vec<u8>, u64)> = Vec::new();
    for i in 0..len_once {
        entries_once.push(handle.index.entry_at(i));
    }

    handle.load().unwrap();
    assert_eq!(handle.index.len(), len_once);
    for (key, off) in entries_once {
        assert_eq!(handle.index.get(&key), Some(off));
    }
}

#[test]
fn load_reports_corruption() {
    let mut store = RustKV::open(Vec::new());
    store.insert(b"a", b"1").unwrap();
    let mut log = store.log.clone();
    let last = log.len() - 1;
    log[last] ^= 0xFF;
    let mut bad = RustKV::open(log);
    assert_eq!(bad.load(), Err(KvError::Corrupt));
}

#[test]
fn load_reports_truncation() {
    let mut store = RustKV::open(Vec::new());
    store.insert(b"a", b"1").unwrap();
    store.insert(b"b", b"2").unwrap();
    let log = store.log.clone();
    let cut: Vec<u8> = log[0..log.len() - 1].to_vec();
    let mut bad = RustKV::open(cut);
    assert_eq!(bad.load(), Err(KvError::Truncated));
}

#[test]
fn load_of_empty_log_succeeds_with_empty_index() {
    let mut store = RustKV::open(Vec::new());
    store.load().unwrap();
    assert_eq!(store.index.len(), 0);
    assert_eq!(store.get(b"anything").unwrap(), None);
}

#[test]
fn index_set_overwrites_and_len_counts_keys() {
    let mut index = librustkv::Index::new();
    assert_eq!(index.len(), 0);
    index.set(b"one", 10);
    index.set(b"two", 20);
    assert_eq!(index.len(), 2);
    index.set(b"one", 30);
    assert_eq!(index.len(), 2);
    assert_eq!(index.get(b"one"), Some(30));
    assert_eq!(index.get(b"two"), Some(20));
    assert_eq!(index.get(b"three"), None);
}
