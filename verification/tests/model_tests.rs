use std::collections::BTreeMap;

use fst_store::bytes::prefix_upper_bound;
use fst_store::codec::BytesCodec;
use fst_store::column::Column;
use fst_store::layout::Layout;
use fst_store::options::StoreOptions;
use fst_store::segment::{SegmentFile, SegmentWriter};
use fst_store::store::Store;

/// Every byte string of up to `len` bytes over the given alphabet, in lexicographic order.
fn words(alphabet: &[u8], len: usize) -> Vec<Vec<u8>> {
    let mut all: Vec<Vec<u8>> = vec![Vec::new()];
    let mut last: Vec<Vec<u8>> = vec![Vec::new()];
    for _ in 0..len {
        let mut next = Vec::new();
        for w in &last {
            for &b in alphabet {
                let mut longer = w.clone();
                longer.push(b);
                next.push(longer);
            }
        }
        all.extend(next.iter().cloned());
        last = next;
    }
    all.sort();
    all
}

/// A small generator of numbers that gives the same numbers on every run.
struct Numbers(u64);

impl Numbers {
    fn next(&mut self, below: u64) -> u64 {
        self.0 = self.0.wrapping_mul(6364136223846793005).wrapping_add(1442695040888963407);
        (self.0 >> 33) % below
    }
}

#[test]
fn segment_ranges_agree_with_a_filter() {
    let all = words(&[0x00, 0x61, 0xFF], 3);
    // every third word is a key
    let keys: Vec<Vec<u8>> = all.iter().cloned().enumerate().filter(|(i, _)| i % 3 == 0).map(|(_, w)| w).collect();
    let mut writer = SegmentWriter::new();
    for (i, k) in keys.iter().enumerate() {
        writer.append(k.clone(), &[i as u8]).unwrap();
    }
    let seg = writer.finish(0).unwrap();
    let entries = seg.entries();
    assert_eq!(entries.iter().map(|e| e.0.clone()).collect::<Vec<_>>(), keys);
    for w in &all {
        let expected = keys.iter().position(|k| k == w).map(|i| vec![i as u8]);
        assert_eq!(seg.get(w).unwrap(), expected);
    }
    for lo in &all {
        let from: Vec<Vec<u8>> = keys.iter().filter(|k| *k >= lo).cloned().collect();
        assert_eq!(seg.keys_in_range(lo, &None), from);
        for hi in &all {
            let between: Vec<Vec<u8>> = keys.iter().filter(|k| *k >= lo && *k < hi).cloned().collect();
            assert_eq!(seg.keys_in_range(lo, &Some(hi.clone())), between);
        }
    }
}

#[test]
fn prefix_ranges_agree_with_starts_with() {
    let all = words(&[0x00, 0x7F, 0xFE, 0xFF], 3);
    for p in &all {
        let bound = prefix_upper_bound(p);
        for w in &all {
            let in_range = w >= p && bound.as_ref().map_or(true, |b| w < b);
            assert_eq!(in_range, w.starts_with(p));
        }
    }
}

#[test]
fn column_agrees_with_an_ordered_map() {
    let all = words(&[0x00, 0x61, 0x62, 0xFF], 3);
    let mut numbers = Numbers(7);
    let mut col = Column::new(0, 5);
    let mut model: BTreeMap<Vec<u8>, Vec<u8>> = BTreeMap::new();
    for step in 0..400u64 {
        let key = all[numbers.next(all.len() as u64) as usize].clone();
        let value = vec![step as u8; numbers.next(4) as usize];
        col.insert(key.clone(), value.clone()).unwrap();
        model.insert(key, value);
        match numbers.next(40) {
            0 => col.flush().unwrap(),
            1 => col.multi_way_merge().unwrap(),
            2 => {
                col.compact(3).unwrap();
            },
            3 => {
                let files: Vec<SegmentFile> = col.files();
                let pending = col.memtable_len();
                let back = Column::open(&files, 0, 5).unwrap();
                assert_eq!(back.segment_count(), col.segment_count());
                if pending == 0 {
                    col = back;
                }
            },
            _ => {},
        }
        if step % 50 == 49 {
            for w in &all {
                assert_eq!(col.get(w).unwrap(), model.get(w).cloned());
            }
            for p in &all {
                let expected: Vec<Vec<u8>> = model.keys().filter(|k| k.starts_with(p)).cloned().collect();
                assert_eq!(col.keys_with_prefix(p).unwrap(), expected);
            }
        }
    }
    col.multi_way_merge().unwrap();
    assert_eq!(col.segment_count(), 1);
    let merged: Vec<(Vec<u8>, Vec<u8>)> =
        col.segment(0).entries().into_iter().map(|(k, off)| (k, col.segment(0).read_value(off).unwrap())).collect();
    let expected: Vec<(Vec<u8>, Vec<u8>)> = model.into_iter().collect();
    assert_eq!(merged, expected);
}

#[test]
fn layouts_agree_with_maps() {
    type ByteStore = Store<Vec<u8>, Vec<u8>, BytesCodec, BytesCodec>;
    let mut numbers = Numbers(11);
    for layout in [Layout::plain(0), Layout::unique_index(0), Layout::range(0), Layout::dictionary(0)] {
        let mut store = ByteStore::open(&Vec::new(), layout, StoreOptions::new(4)).unwrap();
        let mut forward: BTreeMap<Vec<u8>, Vec<u8>> = BTreeMap::new();
        // every key is written once, so that no index entry goes stale; values have one length
        let mut keys: Vec<Vec<u8>> = (0u8..120).map(|i| vec![b'k', i]).collect();
        let mut batch: Vec<(Vec<u8>, Vec<u8>)> = Vec::new();
        while let Some(key) = keys.pop() {
            let value = match layout {
                Layout::UniqueIndex { .. } => vec![b'v', key[1]],
                _ => vec![b'v', numbers.next(9) as u8],
            };
            forward.insert(key.clone(), value.clone());
            batch.push((key, value));
            if batch.len() == 7 || keys.is_empty() {
                let items: Vec<(&Vec<u8>, &Vec<u8>)> = batch.iter().map(|(k, v)| (k, v)).collect();
                store.commit(&items).unwrap();
                batch.clear();
                while let Some(col) = store.take_request() {
                    store.compact(col).unwrap();
                }
            }
        }
        for round in 0..2 {
            for (k, v) in &forward {
                assert_eq!(store.get_value(k).unwrap().as_ref(), Some(v));
            }
            assert_eq!(store.get_value(&b"absent".to_vec()).unwrap(), None);
            for n in 0u8..9 {
                let value = vec![b'v', n];
                let expected: Vec<Vec<u8>> = forward.iter().filter(|(_, v)| **v == value).map(|(k, _)| k.clone()).collect();
                match layout {
                    Layout::Range { .. } | Layout::Dictionary { .. } => {
                        assert_eq!(store.get_keys_for_value(&value).unwrap(), expected);
                    },
                    Layout::UniqueIndex { .. } => {
                        assert_eq!(store.get_key_for_value(&value).unwrap(), expected.first().cloned());
                    },
                    Layout::Plain { .. } => {},
                }
            }
            if round == 0 {
                store.flush().unwrap();
                store.multi_way_merge().unwrap();
                let files = store.files();
                store = ByteStore::open(&files, layout, StoreOptions::new(4)).unwrap();
            }
        }
    }
}
