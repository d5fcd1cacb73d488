use fst_store::bytes::{bytes_eq, bytes_lt, copy_bytes, prefix_upper_bound, starts_with};
use fst_store::codec::{
    round_trip, AddressCodec, AmountCodec, BytesCodec, KeyCodec, StoreCodec, TimestampCodec, TxCodec,
};
use fst_store::error::StoreError;
use fst_store::layout::Layout;
use fst_store::memtable::Memtable;
use fst_store::names::{column_prefix_bytes, padded_id, parse_index_name, parse_segment_id, segment_paths};
use fst_store::progress::{ProgressReport, ProgressTracker};
use fst_store::types::{make_key, Address, Amount, Key, Key16, Timestamp, TxHash, KEY_LEN};
use fst_store::values::{read_value, write_value};

#[test]
fn prefix_upper_bound_cases() {
    assert_eq!(prefix_upper_bound(b""), None);
    assert_eq!(prefix_upper_bound(&[0xFF]), None);
    assert_eq!(prefix_upper_bound(&[0xFF, 0xFF, 0xFF]), None);
    assert_eq!(prefix_upper_bound(b"abc"), Some(b"abd".to_vec()));
    assert_eq!(prefix_upper_bound(&[0x01, 0xFF, 0xFF]), Some(vec![0x02]));
    assert_eq!(prefix_upper_bound(&[0xFF, 0x00, 0xFF]), Some(vec![0xFF, 0x01]));
    assert_eq!(prefix_upper_bound(&[0x00]), Some(vec![0x01]));
    assert_eq!(prefix_upper_bound(&[0xFE]), Some(vec![0xFF]));
}

#[test]
fn byte_order_is_lexicographic() {
    assert!(bytes_lt(b"", b"a"));
    assert!(!bytes_lt(b"", b""));
    assert!(bytes_lt(b"a", b"ab"));
    assert!(!bytes_lt(b"ab", b"a"));
    assert!(bytes_lt(b"ab", b"b"));
    assert!(bytes_lt(&[0x7F], &[0x80]));
    assert!(!bytes_lt(b"same", b"same"));
    assert!(bytes_eq(b"same", b"same"));
    assert!(!bytes_eq(b"same", b"sama"));
    assert!(!bytes_eq(b"same", b"sam"));
    assert!(starts_with(b"prefix and more", b"prefix"));
    assert!(starts_with(b"x", b""));
    assert!(!starts_with(b"pre", b"prefix"));
    assert!(!starts_with(b"prefax", b"prefix"));
    assert_eq!(fst_store::bytes::concat(b"ab", b"cd"), b"abcd".to_vec());
    assert_eq!(fst_store::bytes::concat(b"", b""), Vec::<u8>::new());
    assert_eq!(copy_bytes(b"xyz"), b"xyz".to_vec());
}

#[test]
fn value_records_are_length_prefixed() {
    let mut log = Vec::new();
    write_value(&mut log, b"abc").unwrap();
    write_value(&mut log, b"").unwrap();
    write_value(&mut log, &[7u8; 300]).unwrap();
    assert_eq!(&log[..11], &[3, 0, 0, 0, b'a', b'b', b'c', 0, 0, 0, 0]);
    assert_eq!(&log[11..15], &[0x2C, 0x01, 0, 0]);
    assert_eq!(log.len(), 7 + 4 + 304);
    assert_eq!(read_value(&log, 0).unwrap(), b"abc".to_vec());
    assert_eq!(read_value(&log, 7).unwrap(), Vec::<u8>::new());
    assert_eq!(read_value(&log, 11).unwrap(), vec![7u8; 300]);
    assert!(matches!(read_value(&log, 12), Err(StoreError::Io(_))));
    assert!(matches!(read_value(&log, 312), Err(StoreError::Io(_))));
    assert!(matches!(read_value(&log, u64::MAX), Err(StoreError::Io(_))));
    assert!(matches!(read_value(&[1, 0, 0], 0), Err(StoreError::Io(_))));
}

#[test]
fn memtable_is_a_sorted_map() {
    let mut m = Memtable::new();
    assert!(m.is_empty());
    m.insert(b"b".to_vec(), b"2".to_vec());
    m.insert(b"a".to_vec(), b"1".to_vec());
    m.insert(b"c".to_vec(), b"3".to_vec());
    m.insert(b"b".to_vec(), b"two".to_vec());
    assert_eq!(m.len(), 3);
    assert_eq!(m.key_at(0), &b"a".to_vec());
    assert_eq!(m.key_at(1), &b"b".to_vec());
    assert_eq!(m.value_at(1), &b"two".to_vec());
    assert_eq!(m.key_at(2), &b"c".to_vec());
    assert_eq!(m.get(b"b"), Some(&b"two".to_vec()));
    assert_eq!(m.get(b"bb"), None);
    assert_eq!(m.lower_bound(b""), 0);
    assert_eq!(m.lower_bound(b"b"), 1);
    assert_eq!(m.lower_bound(b"bb"), 2);
    assert_eq!(m.lower_bound(b"z"), 3);
    m.clear();
    assert_eq!(m.len(), 0);
}

#[test]
fn segment_file_names() {
    let (fst, val) = segment_paths(0, 0);
    assert_eq!(fst, b"col0_seg00000000000000000000.fst".to_vec());
    assert_eq!(val, b"col0_seg00000000000000000000.val".to_vec());
    let (fst, val) = segment_paths(255, u64::MAX);
    assert_eq!(fst, b"col255_seg18446744073709551615.fst".to_vec());
    assert_eq!(val, b"col255_seg18446744073709551615.val".to_vec());
    let (fst, _) = segment_paths(17, 1234567890);
    assert_eq!(fst, b"col17_seg00000000001234567890.fst".to_vec());
    assert_eq!(column_prefix_bytes(7), b"col7_seg".to_vec());
    assert_eq!(column_prefix_bytes(42), b"col42_seg".to_vec());
    assert_eq!(padded_id(90210), b"00000000000000090210".to_vec());
}

#[test]
fn segment_file_names_are_read_back() {
    for (col, id) in [(0u8, 0u64), (3, 41), (99, u64::MAX), (255, 1 << 40)] {
        let (fst, val) = segment_paths(col, id);
        assert_eq!(parse_index_name(col, &fst), Some((id, val.clone())));
        assert_eq!(parse_index_name(col, &val), None);
    }
    assert_eq!(parse_index_name(1, b"col1_seg7.fst"), Some((7, b"col1_seg7.val".to_vec())));
    assert_eq!(parse_index_name(1, b"col1_seg+7.fst"), Some((7, b"col1_seg+7.val".to_vec())));
    assert_eq!(parse_index_name(1, b"col1_seg.fst"), None);
    assert_eq!(parse_index_name(1, b"col1_seg7x.fst"), None);
    assert_eq!(parse_index_name(1, b"col1_seg-7.fst"), None);
    assert_eq!(parse_index_name(1, b"col10_seg7.fst"), None);
    assert_eq!(parse_index_name(10, b"col1_seg7.fst"), None);
    assert_eq!(parse_index_name(1, b"col1_seg7.fs"), None);
    assert_eq!(parse_index_name(1, b".fst"), None);
    assert_eq!(parse_segment_id(b"18446744073709551615"), Some(u64::MAX));
    assert_eq!(parse_segment_id(b"18446744073709551616"), None);
    assert_eq!(parse_segment_id(b"99999999999999999999999"), None);
    assert_eq!(parse_segment_id(b"000"), Some(0));
    assert_eq!(parse_segment_id(b"+"), None);
    assert_eq!(parse_segment_id(b""), None);
    assert_eq!(parse_segment_id(b"1+"), None);
}

#[test]
fn layouts_name_consecutive_columns() {
    assert!(matches!(Layout::plain(0), Layout::Plain { key_to_value: 0 }));
    assert!(matches!(Layout::unique_index(2), Layout::UniqueIndex { key_to_value: 2, value_to_key: 3 }));
    assert!(matches!(Layout::range(5), Layout::Range { key_to_value: 5, value_key_btree: 6 }));
    assert!(matches!(
        Layout::dictionary(1),
        Layout::Dictionary {
            key_to_birth_key: 1,
            birth_key_to_value: 2,
            value_to_birth_key: 3,
            birth_key_key_btree: 4
        }
    ));
    assert_eq!(Layout::plain(0).column_count(), 1);
    assert_eq!(Layout::unique_index(0).column_count(), 2);
    assert_eq!(Layout::range(0).column_count(), 2);
    assert_eq!(Layout::dictionary(0).column_count(), 4);
    assert!(Layout::dictionary(0).check());
    assert!(!Layout::dictionary(1).check());
    assert!(!Layout::Range { key_to_value: 0, value_key_btree: 0 }.check());
}

#[test]
fn codecs_round_trip() {
    let key = Key16::from_fields(0x0807060504030201, 0x0C0B0A09, 0x100F0E0D);
    assert_eq!(key.0, [1, 2, 3, 4, 5, 6, 7, 8, 9, 10, 11, 12, 13, 14, 15, 16]);
    assert_eq!(KEY_LEN, 16);
    let bytes = KeyCodec::encode(&key);
    assert_eq!(bytes, key.0.to_vec());
    assert_eq!(KeyCodec::decode(&bytes).unwrap(), key);

    let amount = Amount(0x0102030405060708);
    let bytes = AmountCodec::encode(&amount);
    assert_eq!(bytes, vec![8, 7, 6, 5, 4, 3, 2, 1]);
    assert_eq!(AmountCodec::decode(&bytes).unwrap().0, amount.0);

    let stamp = Timestamp(u64::MAX - 1);
    let bytes = TimestampCodec::encode(&stamp);
    assert_eq!(bytes, vec![0xFE, 0xFF, 0xFF, 0xFF, 0xFF, 0xFF, 0xFF, 0xFF]);
    assert_eq!(TimestampCodec::decode(&bytes).unwrap().0, stamp.0);

    let mut h = [0u8; 32];
    for (i, b) in h.iter_mut().enumerate() {
        *b = (i * 7) as u8;
    }
    let hash = TxHash(h);
    let bytes = TxCodec::encode(&hash);
    assert_eq!(bytes, h.to_vec());
    assert_eq!(TxCodec::decode(&bytes).unwrap().0, h);

    let address = Address(b"bc1qexample".to_vec());
    let bytes = AddressCodec::encode(&address);
    assert_eq!(bytes, b"bc1qexample".to_vec());
    assert_eq!(AddressCodec::decode(&bytes).unwrap().0, address.0);

    let raw = b"raw".to_vec();
    assert_eq!(BytesCodec::decode(&BytesCodec::encode(&raw)).unwrap(), raw);
}

#[test]
fn codecs_reject_wrong_lengths() {
    assert!(matches!(KeyCodec::decode(&[0u8; 15]), Err(StoreError::InvalidInput(_))));
    assert!(matches!(KeyCodec::decode(&[0u8; 17]), Err(StoreError::InvalidInput(_))));
    assert!(matches!(AmountCodec::decode(&[0u8; 7]), Err(StoreError::InvalidInput(_))));
    assert!(matches!(TimestampCodec::decode(&[0u8; 9]), Err(StoreError::InvalidInput(_))));
    assert!(matches!(TxCodec::decode(&[0u8; 31]), Err(StoreError::InvalidInput(_))));
    assert!(AddressCodec::decode(&[]).is_ok());
}

#[test]
fn keys_in_bytes() {
    assert_eq!(make_key(7), Key(7));
    assert_eq!(Key(0x0102030405060708).to_be_bytes(), [1, 2, 3, 4, 5, 6, 7, 8]);
    assert_eq!(make_key(1).to_be_bytes(), [0, 0, 0, 0, 0, 0, 0, 1]);
}

#[test]
fn progress_reports_every_five_seconds() {
    let mut p = ProgressTracker::new("load".to_string(), 100);
    assert_eq!(p.label(), "load");
    assert_eq!(p.total(), 100);
    assert_eq!(p.inserted(), 0);
    p.record(30);
    assert_eq!(p.poll(4), None);
    assert_eq!(p.poll(5), Some(ProgressReport { inserted: 30, total: 100 }));
    p.record(12);
    assert_eq!(p.poll(9), None);
    assert_eq!(p.poll(10), Some(ProgressReport { inserted: 42, total: 100 }));
    assert_eq!(p.poll(3), None);
    p.record(u64::MAX);
    assert_eq!(p.inserted(), u64::MAX);
    p.record(1);
    assert_eq!(p.inserted(), u64::MAX);
}

#[test]
fn errors_in_words() {
    let e = fst_store::error::invalid_input("segment_size must be > 0");
    assert_eq!(e.describe(), "invalid input: segment_size must be > 0");
    let e = fst_store::error::corrupt_segment("missing values file");
    assert_eq!(e.describe(), "corrupt segment: missing values file");
    let e = StoreError::from(std::io::Error::from(std::io::ErrorKind::UnexpectedEof));
    assert!(matches!(e, StoreError::Io(_)));
    assert!(e.describe().starts_with("io error: "));
    assert!(e.describe().len() > "io error: ".len());
    let bad = fst::Map::new(vec![0u8; 4]).err().unwrap();
    let e = StoreError::from(bad);
    assert!(matches!(e, StoreError::Fst(_)));
    assert!(e.describe().starts_with("fst error: "));
    assert!(e.describe().len() > "fst error: ".len());
}

#[test]
fn round_trip_through_every_codec() {
    assert_eq!(round_trip::<Vec<u8>, BytesCodec>(&b"bytes".to_vec()).unwrap(), b"bytes".to_vec());
    assert_eq!(round_trip::<Key16, KeyCodec>(&Key16([9; 16])).unwrap(), Key16([9; 16]));
    assert_eq!(round_trip::<Amount, AmountCodec>(&Amount(77)).unwrap().0, 77);
    assert_eq!(round_trip::<Timestamp, TimestampCodec>(&Timestamp(0)).unwrap().0, 0);
    assert_eq!(round_trip::<TxHash, TxCodec>(&TxHash([3; 32])).unwrap().0, [3; 32]);
    assert_eq!(round_trip::<Address, AddressCodec>(&Address(vec![])).unwrap().0, Vec::<u8>::new());
}
