use fst_store::codec::BytesCodec;
use fst_store::error::StoreError;
use fst_store::layout::Layout;
use fst_store::options::{
    compute_segment_size, StoreOptions, DEFAULT_MEMTABLE_BUDGET_BYTES, MIN_SEGMENT_ROWS,
};
use fst_store::segment::SegmentFile;
use fst_store::compactor::{Compactor, MERGE_THRESHOLD};
use fst_store::store::Store;

type ByteStore = Store<Vec<u8>, Vec<u8>, BytesCodec, BytesCodec>;

fn open_empty(layout: Layout, segment_size: usize) -> ByteStore {
    let files: Vec<SegmentFile> = Vec::new();
    ByteStore::open(&files, layout, StoreOptions { segment_size }).unwrap()
}

fn basic_value_roundtrip(mut store: ByteStore) {
    let k = b"key".to_vec();
    let v1 = b"value1".to_vec();
    let v2 = b"value2".to_vec();

    store.commit(&[(&k, &v1)]).expect("commit");
    assert_eq!(store.get_value(&k).expect("get"), Some(v1.clone()));
    store.flush().expect("flush");
    assert_eq!(store.get_value(&k).expect("get after flush"), Some(v1.clone()));

    store.commit(&[(&k, &v2)]).expect("overwrite commit");
    assert_eq!(store.get_value(&k).expect("get overwrite"), Some(v2.clone()));
    store.flush().expect("flush overwrite");
    assert_eq!(store.get_value(&k).expect("get overwrite after flush"), Some(v2));
}

fn reverse_lookup_unique(mut store: ByteStore) {
    let k = b"k".to_vec();
    let v = b"val".to_vec();
    store.commit(&[(&k, &v)]).expect("commit");
    assert_eq!(store.get_key_for_value(&v).expect("reverse get"), Some(k.clone()));
    store.flush().expect("flush");
    assert_eq!(store.get_key_for_value(&v).expect("reverse after flush"), Some(k));
}

fn multiple_keys_for_value(mut store: ByteStore) {
    let v = b"shared".to_vec();
    let keys = vec![b"a".to_vec(), b"b".to_vec(), b"c".to_vec()];
    for k in &keys {
        store.commit(&[(k, &v)]).expect("commit");
    }
    store.flush().expect("flush");
    let mut got = store.get_keys_for_value(&v).expect("get keys");
    got.sort();
    assert_eq!(got, keys);
}

#[test]
fn writes_and_reads_from_memtable() {
    let mut store = open_empty(Layout::plain(0), 10);

    store.commit(&[(&b"key"[..].to_vec(), &b"value"[..].to_vec())]).unwrap();
    let got = store.get_value(&b"key"[..].to_vec()).unwrap();
    assert_eq!(got, Some(b"value".to_vec()));
    assert!(store.column(0).segment_count() == 0, "no segment should be flushed yet");
    assert!(store.files().is_empty());
}

#[test]
fn flushes_to_segment_and_recovers() {
    let dir: Vec<SegmentFile>;
    {
        let mut store = open_empty(Layout::plain(0), 2);
        store
            .commit(&[(&b"a"[..].to_vec(), &b"1"[..].to_vec()), (&b"b"[..].to_vec(), &b"2"[..].to_vec())])
            .unwrap();
        store.flush().unwrap();
        assert_eq!(store.column(0).segment_count(), 1);
        dir = store.files();
    }

    let store = ByteStore::open(&dir, Layout::plain(0), StoreOptions { segment_size: 2 }).unwrap();
    assert_eq!(store.get_value(&b"a"[..].to_vec()).unwrap(), Some(b"1".to_vec()));
    assert_eq!(store.get_value(&b"b"[..].to_vec()).unwrap(), Some(b"2".to_vec()));
}

#[test]
fn picks_latest_value_across_segments() {
    let mut store = open_empty(Layout::plain(0), 1);
    store.commit(&[(&b"k"[..].to_vec(), &b"old"[..].to_vec())]).unwrap();
    store.flush().unwrap();
    store.commit(&[(&b"k"[..].to_vec(), &b"new"[..].to_vec())]).unwrap();
    assert_eq!(store.get_value(&b"k"[..].to_vec()).unwrap(), Some(b"new".to_vec()));
    store.flush().unwrap();
    assert_eq!(store.get_value(&b"k"[..].to_vec()).unwrap(), Some(b"new".to_vec()));
}

#[test]
fn range_lookup_deduplicates() {
    let mut store = open_empty(Layout::range(0), 2);
    let k1 = b"k1".to_vec();
    let k2 = b"k2".to_vec();
    let k3 = b"k3".to_vec();
    let v1 = b"v1".to_vec();
    let entries = [(&k1, &v1), (&k2, &v1)];
    store.commit(&entries).unwrap();
    store.flush().unwrap();
    store.commit(&[(&k3, &v1)]).unwrap();

    let keys = store.get_keys_for_value(&b"v1"[..].to_vec()).unwrap();
    let mut sorted = keys;
    sorted.sort();
    assert_eq!(sorted, vec![b"k1".to_vec(), b"k2".to_vec(), b"k3".to_vec()]);
}

#[test]
fn store_shared_basic_suite() {
    basic_value_roundtrip(open_empty(Layout::plain(0), 3));
}

#[test]
fn store_shared_reverse_suite() {
    reverse_lookup_unique(open_empty(Layout::unique_index(0), 2));
}

#[test]
fn store_shared_multiple_keys_suite() {
    multiple_keys_for_value(open_empty(Layout::range(0), 2));
}

#[test]
fn sizing_respects_min_and_target_segments() {
    let size = compute_segment_size(10_000_000, 32, DEFAULT_MEMTABLE_BUDGET_BYTES);
    assert_eq!(size, 312_500);
}

#[test]
fn sizing_clamps_to_memtable_budget() {
    let size = compute_segment_size(1_000_000, 1_048_576, DEFAULT_MEMTABLE_BUDGET_BYTES); // 1 MiB KV
    assert_eq!(size, DEFAULT_MEMTABLE_BUDGET_BYTES / 1_048_576);
}

#[test]
fn sizing_handles_zero_rows() {
    let size = compute_segment_size(0, 64, DEFAULT_MEMTABLE_BUDGET_BYTES);
    assert_eq!(size, MIN_SEGMENT_ROWS);
}

#[test]
fn sizing_edge_cases() {
    assert_eq!(compute_segment_size(6_400_001, 1, usize::MAX), 200_001);
    assert_eq!(compute_segment_size(6_400_000, 1, usize::MAX), 200_000);
    assert_eq!(compute_segment_size(u64::MAX, 0, 1_000_000), 1_000_000);
    assert_eq!(compute_segment_size(5, 10, 0), 1);
    assert_eq!(compute_segment_size(5, 10, 25), 2);
    assert_eq!(StoreOptions::default().segment_size, 200_000);
    assert_eq!(StoreOptions::new(7).segment_size, 7);
    assert_eq!(StoreOptions::from_estimates(10_000_000, 32, DEFAULT_MEMTABLE_BUDGET_BYTES).segment_size, 312_500);
    assert_eq!(DEFAULT_MEMTABLE_BUDGET_BYTES, 2 * 1024 * 1024 * 1024);
}

#[test]
fn open_rejects_zero_segment_size_and_misplaced_layout() {
    let files: Vec<SegmentFile> = Vec::new();
    let res = ByteStore::open(&files, Layout::plain(0), StoreOptions { segment_size: 0 });
    assert!(matches!(res, Err(StoreError::InvalidInput(_))));
    let res = ByteStore::open(&files, Layout::range(1), StoreOptions { segment_size: 4 });
    assert!(matches!(res, Err(StoreError::InvalidInput(_))));
    let res = ByteStore::open(&files, Layout::Range { key_to_value: 1, value_key_btree: 0 }, StoreOptions::new(4));
    assert!(res.is_ok());
}

#[test]
fn later_entry_of_a_commit_wins() {
    let mut store = open_empty(Layout::plain(0), 100);
    let k = b"k".to_vec();
    let a = b"a".to_vec();
    let b = b"b".to_vec();
    store.commit(&[(&k, &a), (&k, &b)]).unwrap();
    assert_eq!(store.get_value(&k).unwrap(), Some(b.clone()));
    store.flush().unwrap();
    store.multi_way_merge().unwrap();
    assert_eq!(store.get_value(&k).unwrap(), Some(b));
    assert_eq!(store.get_value(&a).unwrap(), None);
}

#[test]
fn multi_way_merge_preserves_newest() {
    let mut store = open_empty(Layout::plain(0), 1);
    let k = b"k".to_vec();
    store.commit(&[(&k, &b"old".to_vec())]).unwrap();
    store.commit(&[(&k, &b"new".to_vec())]).unwrap();
    store.flush().unwrap();
    assert!(store.column(0).segment_count() >= 2);
    store.multi_way_merge().unwrap();
    assert_eq!(store.column(0).segment_count(), 1);
    assert_eq!(store.get_value(&k).unwrap(), Some(b"new".to_vec()));
}

#[test]
fn flush_leaves_empty_memtables_and_segments_where_written() {
    let mut store = open_empty(Layout::dictionary(0), 100);
    store.flush().unwrap();
    for c in 0..4 {
        assert_eq!(store.column(c).segment_count(), 0);
    }
    store.commit(&[(&b"k".to_vec(), &b"v".to_vec())]).unwrap();
    store.flush().unwrap();
    for c in 0..4 {
        assert_eq!(store.column(c).memtable_len(), 0);
        assert_eq!(store.column(c).segment_count(), 1);
    }
}

#[test]
fn same_write_twice_is_the_same_state() {
    for layout in [Layout::plain(0), Layout::unique_index(0), Layout::range(0), Layout::dictionary(0)] {
        let k = b"k".to_vec();
        let v = b"v".to_vec();
        let mut once = open_empty(layout, 100);
        once.commit(&[(&k, &v)]).unwrap();
        once.flush().unwrap();
        once.multi_way_merge().unwrap();
        let mut twice = open_empty(layout, 100);
        twice.commit(&[(&k, &v)]).unwrap();
        twice.commit(&[(&k, &v)]).unwrap();
        twice.flush().unwrap();
        twice.multi_way_merge().unwrap();
        assert_eq!(once.column_count(), twice.column_count());
        for c in 0..once.column_count() {
            let a = once.column(c);
            let b = twice.column(c);
            assert_eq!(a.segment_count(), 1);
            assert_eq!(b.segment_count(), 1);
            assert_eq!(a.segment(0).image(), b.segment(0).image());
            assert_eq!(a.segment(0).values(), b.segment(0).values());
        }
    }
}

#[test]
fn unique_index_reads_both_ways() {
    let mut store = open_empty(Layout::unique_index(0), 2);
    let k1 = b"k1".to_vec();
    let k2 = b"k2".to_vec();
    let v1 = b"v1".to_vec();
    let v2 = b"v2".to_vec();
    store.commit(&[(&k1, &v1), (&k2, &v2)]).unwrap();
    assert_eq!(store.get_value(&k2).unwrap(), Some(v2.clone()));
    assert_eq!(store.get_key_for_value(&v1).unwrap(), Some(k1));
    assert_eq!(store.get_key_for_value(&b"none".to_vec()).unwrap(), None);
    assert!(matches!(store.get_keys_for_value(&v1), Err(StoreError::InvalidInput(_))));
}

#[test]
fn unsupported_reads_are_invalid_input() {
    let store = open_empty(Layout::plain(0), 2);
    assert!(matches!(store.get_key_for_value(&b"v".to_vec()), Err(StoreError::InvalidInput(_))));
    assert!(matches!(store.get_keys_for_value(&b"v".to_vec()), Err(StoreError::InvalidInput(_))));
    let store = open_empty(Layout::range(0), 2);
    assert!(matches!(store.get_key_for_value(&b"v".to_vec()), Err(StoreError::InvalidInput(_))));
    let store = open_empty(Layout::dictionary(0), 2);
    assert!(matches!(store.get_key_for_value(&b"v".to_vec()), Err(StoreError::InvalidInput(_))));
}

#[test]
fn range_layout_keeps_stale_entry_after_rebinding() {
    let mut store = open_empty(Layout::range(0), 100);
    let k = b"k".to_vec();
    store.commit(&[(&k, &b"v1".to_vec())]).unwrap();
    store.commit(&[(&k, &b"v2".to_vec())]).unwrap();
    assert_eq!(store.get_value(&k).unwrap(), Some(b"v2".to_vec()));
    assert_eq!(store.get_keys_for_value(&b"v2".to_vec()).unwrap(), vec![k.clone()]);
    assert_eq!(store.get_keys_for_value(&b"v1".to_vec()).unwrap(), vec![k]);
}

#[test]
fn dictionary_interning() {
    let mut store = open_empty(Layout::dictionary(0), 100);
    let k1 = b"k1".to_vec();
    let k2 = b"k2".to_vec();
    let k3 = b"k3".to_vec();
    let v = b"v".to_vec();
    store.commit(&[(&k1, &v), (&k2, &v), (&k3, &v)]).unwrap();
    // value -> birth key: exactly one entry, the first key
    assert_eq!(store.column(2).keys_with_prefix(b"").unwrap(), vec![v.clone()]);
    assert_eq!(store.column(2).get(b"v").unwrap(), Some(k1.clone()));
    // birth key -> value
    assert_eq!(store.column(1).get(b"k1").unwrap(), Some(v.clone()));
    assert_eq!(store.column(1).keys_with_prefix(b"").unwrap(), vec![k1.clone()]);
    // key -> birth key
    assert_eq!(store.column(0).get(b"k3").unwrap(), Some(k1.clone()));
    // birth key ++ key
    assert_eq!(
        store.column(3).keys_with_prefix(b"").unwrap(),
        vec![b"k1k1".to_vec(), b"k1k2".to_vec(), b"k1k3".to_vec()]
    );
    assert_eq!(store.get_keys_for_value(&v).unwrap(), vec![k1.clone(), k2.clone(), k3.clone()]);
    assert_eq!(store.get_value(&k2).unwrap(), Some(v.clone()));
    assert_eq!(store.get_keys_for_value(&b"other".to_vec()).unwrap(), Vec::<Vec<u8>>::new());
    // a later commit finds the birth key in the store
    let k4 = b"k4".to_vec();
    store.flush().unwrap();
    store.commit(&[(&k4, &v)]).unwrap();
    assert_eq!(store.column(0).get(b"k4").unwrap(), Some(k1.clone()));
    assert_eq!(store.get_keys_for_value(&v).unwrap(), vec![k1, k2, k3, k4]);
}

#[test]
fn progress_counts_logical_entries() {
    let k1 = b"k1".to_vec();
    let k2 = b"k2".to_vec();
    let v = b"v".to_vec();
    let w = b"w".to_vec();
    let mut plain = open_empty(Layout::plain(0), 100);
    assert!(plain.progress().is_none());
    plain.set_progress("plain", 10);
    plain.commit(&[(&k1, &v), (&k2, &v)]).unwrap();
    assert_eq!(plain.progress().as_ref().unwrap().inserted(), 2);
    assert_eq!(plain.progress().as_ref().unwrap().total(), 10);
    assert_eq!(plain.progress().as_ref().unwrap().label(), "plain");
    let mut range = open_empty(Layout::range(0), 100);
    range.set_progress("range", 10);
    range.commit(&[(&k1, &v), (&k2, &v)]).unwrap();
    assert_eq!(range.progress().as_ref().unwrap().inserted(), 4);
    let mut dict = open_empty(Layout::dictionary(0), 100);
    dict.set_progress("dictionary", 10);
    // v is new for both entries of the commit that introduces it: 4 + 4; w: 4
    dict.commit(&[(&k1, &v), (&k2, &v), (&k1, &w)]).unwrap();
    assert_eq!(dict.progress().as_ref().unwrap().inserted(), 12);
    // in a later commit v is known: 2
    dict.commit(&[(&k2, &v)]).unwrap();
    assert_eq!(dict.progress().as_ref().unwrap().inserted(), 14);
}

#[test]
fn commit_notes_compaction_requests() {
    let mut store = open_empty(Layout::unique_index(0), 1);
    assert_eq!(store.take_request(), None);
    let v = b"v".to_vec();
    for i in 0u8..4 {
        store.commit(&[(&vec![i], &v)]).unwrap();
    }
    assert_eq!(MERGE_THRESHOLD, 4);
    assert_eq!(store.column(0).segment_count(), 4);
    assert_eq!(store.take_request(), Some(0));
    assert_eq!(store.take_request(), Some(1));
    assert_eq!(store.compact(0).unwrap(), true);
    assert_eq!(store.column(0).segment_count(), 1);
    assert_eq!(store.compact(0).unwrap(), false);
    assert_eq!(store.compact(9).unwrap(), false);
    assert_eq!(store.get_value(&vec![2u8]).unwrap(), Some(v.clone()));
    assert_eq!(store.get_key_for_value(&v).unwrap(), Some(vec![3u8]));
    let mut n = 0;
    while store.take_request().is_some() {
        n += 1;
    }
    assert_eq!(n, 6);
}

#[test]
fn store_reopens_every_column() {
    let mut store = open_empty(Layout::dictionary(0), 2);
    let v = b"v".to_vec();
    for i in 0u8..5 {
        store.commit(&[(&vec![b'k', i], &v)]).unwrap();
    }
    store.flush().unwrap();
    let dir = store.files();
    let back = ByteStore::open(&dir, Layout::dictionary(0), StoreOptions::new(2)).unwrap();
    assert_eq!(back.layout().column_count(), 4);
    for c in 0..4 {
        assert_eq!(back.column(c).segment_count(), store.column(c).segment_count());
    }
    assert_eq!(back.get_value(&vec![b'k', 4]).unwrap(), Some(v.clone()));
    assert_eq!(back.get_keys_for_value(&v).unwrap().len(), 5);
}

#[test]
fn store_background_merge_by_hand() {
    let mut store = open_empty(Layout::plain(0), 1);
    let v = b"v".to_vec();
    for i in 0u8..4 {
        store.commit(&[(&vec![i], &v)]).unwrap();
    }
    assert!(store.snapshot_for_merge(7, MERGE_THRESHOLD).unwrap().is_none());
    let (merge_id, col_id, metas) = store.snapshot_for_merge(0, MERGE_THRESHOLD).unwrap().unwrap();
    assert_eq!((merge_id, col_id, metas.len()), (4, 0, 4));
    let mut sources = Vec::new();
    for i in 0..4 {
        let s = store.column(0).segment(i);
        sources.push(fst_store::segment::Segment::open(s.id(), s.image(), s.values().clone()).unwrap());
    }
    // a segment that the column did not ask for is turned down
    let stray = fst_store::merge::merge_segments(&sources, 9).unwrap();
    assert!(matches!(store.finish_merge(0, stray, &metas), Err(StoreError::InvalidInput(_))));
    assert_eq!(store.column(0).segment_count(), 4);
    let merged = fst_store::merge::merge_segments(&sources, merge_id).unwrap();
    assert!(matches!(store.finish_merge(3, merged, &metas), Err(StoreError::InvalidInput(_))));
    let merged = fst_store::merge::merge_segments(&sources, merge_id).unwrap();
    store.finish_merge(0, merged, &metas).unwrap();
    assert_eq!(store.column(0).segment_count(), 1);
    assert_eq!(store.get_value(&vec![3u8]).unwrap(), Some(v));
    store.abort_merge(0);
    store.abort_merge(5);
}

#[test]
fn store_polls_its_progress_counter() {
    let mut store = open_empty(Layout::plain(0), 10);
    assert_eq!(store.poll_progress(100), None);
    store.set_progress("rows", 3);
    store.commit(&[(&b"a".to_vec(), &b"1".to_vec())]).unwrap();
    assert_eq!(store.poll_progress(4), None);
    let report = store.poll_progress(6).unwrap();
    assert_eq!((report.inserted, report.total), (1, 3));
    assert_eq!(store.poll_progress(10), None);
    assert!(store.poll_progress(11).is_some());
}

#[test]
fn dictionary_birth_key_moves_with_its_new_value() {
    // A key that is the birth key of one value and is then bound to a new
    // value becomes the birth key of that value too, and takes the keys
    // filed under it along.
    let mut store = open_empty(Layout::dictionary(0), 100);
    let k1 = b"k1".to_vec();
    let k2 = b"k2".to_vec();
    let v1 = b"v1".to_vec();
    let v2 = b"v2".to_vec();
    store.commit(&[(&k1, &v1), (&k2, &v1)]).unwrap();
    assert_eq!(store.get_value(&k2).unwrap(), Some(v1.clone()));
    store.commit(&[(&k1, &v2)]).unwrap();
    assert_eq!(store.get_value(&k1).unwrap(), Some(v2.clone()));
    assert_eq!(store.get_value(&k2).unwrap(), Some(v2.clone()));
    assert_eq!(store.column(2).get(b"v1").unwrap(), Some(k1.clone()));
    assert_eq!(store.column(2).get(b"v2").unwrap(), Some(k1));
}

#[test]
fn range_scan_needs_values_that_stand_apart() {
    let mut store = open_empty(Layout::range(0), 100);
    store.commit(&[(&b"bc".to_vec(), &b"a".to_vec())]).unwrap();
    // the entry "a" ++ "bc" also starts with "ab"
    assert_eq!(store.get_keys_for_value(&b"ab".to_vec()).unwrap(), vec![b"c".to_vec()]);
    assert_eq!(store.get_keys_for_value(&b"a".to_vec()).unwrap(), vec![b"bc".to_vec()]);
}

#[test]
fn compactor_hands_requests_out_in_order() {
    let mut mailbox = Compactor::new();
    assert_eq!(mailbox.take(), None);
    mailbox.request(2).unwrap();
    mailbox.request(0).unwrap();
    mailbox.request(2).unwrap();
    assert_eq!(mailbox.take(), Some(2));
    assert_eq!(mailbox.take(), Some(0));
    assert_eq!(mailbox.take(), Some(2));
    assert_eq!(mailbox.take(), None);
}

#[test]
fn open_refuses_zero_segment_size_before_it_looks_at_files() {
    let damaged = vec![SegmentFile { name: b"col0_seg00000000000000000000.fst".to_vec(), data: b"damaged".to_vec() }];
    let res = ByteStore::open(&damaged, Layout::plain(0), StoreOptions { segment_size: 0 });
    assert!(matches!(res, Err(StoreError::InvalidInput(_))));
    let res = ByteStore::open(&damaged, Layout::plain(0), StoreOptions { segment_size: 1 });
    assert!(matches!(res, Err(StoreError::CorruptSegment(_))));
}

#[test]
fn reopen_gives_what_the_segments_hold() {
    let mut store = open_empty(Layout::range(0), 2);
    let v = b"v".to_vec();
    for i in 0u8..5 {
        store.commit(&[(&vec![b'k', i], &v)]).unwrap();
    }
    // the fifth row is in the memtables only
    let back = store.reopen(StoreOptions::new(2)).unwrap();
    assert_eq!(back.get_value(&vec![b'k', 3]).unwrap(), Some(v.clone()));
    assert_eq!(back.get_value(&vec![b'k', 4]).unwrap(), None);
    assert_eq!(back.get_keys_for_value(&v).unwrap().len(), 4);
    store.flush().unwrap();
    let back = store.reopen(StoreOptions::new(2)).unwrap();
    assert_eq!(back.get_value(&vec![b'k', 4]).unwrap(), Some(v.clone()));
    assert!(matches!(store.reopen(StoreOptions::new(0)), Err(StoreError::InvalidInput(_))));
}

#[test]
fn writes_and_flushes_leave_a_merge_under_way() {
    let mut store = open_empty(Layout::unique_index(0), 1);
    let v = b"v".to_vec();
    for i in 0u8..4 {
        store.commit(&[(&vec![i], &vec![b'v', i])]).unwrap();
    }
    let (merge_id, _, metas) = store.snapshot_for_merge(0, MERGE_THRESHOLD).unwrap().unwrap();
    assert_eq!((merge_id, metas.len()), (4, 4));
    // the other column is free, the first is taken through every write
    store.commit(&[(&vec![9u8], &v)]).unwrap();
    store.flush().unwrap();
    assert!(store.snapshot_for_merge(0, MERGE_THRESHOLD).unwrap().is_none());
    store.multi_way_merge().unwrap();
    assert!(store.snapshot_for_merge(0, 1).unwrap().is_none());
    assert_eq!(store.column(0).segment_count(), 1);
    assert_eq!(store.column(1).segment_count(), 1);

    // giving the merge up frees the first column and touches nothing else
    let before: Vec<SegmentFile> = store.files();
    store.abort_merge(0);
    let after: Vec<SegmentFile> = store.files();
    assert_eq!(before.len(), after.len());
    for (a, b) in before.iter().zip(after.iter()) {
        assert_eq!(a.name, b.name);
        assert_eq!(a.data, b.data);
    }
    assert_eq!(store.get_value(&vec![9u8]).unwrap(), Some(v));
    assert_eq!(store.get_key_for_value(&vec![b'v', 2]).unwrap(), Some(vec![2u8]));
    assert!(store.snapshot_for_merge(0, 1).unwrap().is_some());
    assert!(store.snapshot_for_merge(1, 1).unwrap().is_some());
}

#[test]
fn failed_commit_keeps_what_was_written_before_the_failure() {
    // a column whose only segment has the last id but one cannot seal again
    let mut donor = open_empty(Layout::plain(0), 1);
    donor.commit(&[(&b"old".to_vec(), &b"o".to_vec())]).unwrap();
    let good = donor.files();
    assert_eq!(good.len(), 2);
    let files = vec![
        SegmentFile { name: b"col1_seg18446744073709551614.fst".to_vec(), data: good[0].data.clone() },
        SegmentFile { name: b"col1_seg18446744073709551614.val".to_vec(), data: good[1].data.clone() },
    ];
    let mut store = ByteStore::open(&files, Layout::unique_index(0), StoreOptions { segment_size: 1 }).unwrap();
    assert_eq!(store.column(1).segment_count(), 1);

    let k = b"k".to_vec();
    let v = b"v".to_vec();
    let later = b"later".to_vec();
    let res = store.commit(&[(&k, &v), (&later, &v)]);
    assert!(matches!(res, Err(StoreError::InvalidInput(_))));
    // the first write of the first entry was made and sealed its memtable
    assert_eq!(store.get_value(&k).unwrap(), Some(v.clone()));
    assert_eq!((store.column(0).segment_count(), store.column(0).memtable_len()), (1, 0));
    // the second put its row into the memtable, which could not be sealed
    assert_eq!(store.get_key_for_value(&v).unwrap(), Some(k.clone()));
    assert_eq!((store.column(1).segment_count(), store.column(1).memtable_len()), (1, 1));
    // the entry after the failing one was not written
    assert_eq!(store.get_value(&later).unwrap(), None);
    // the sealed column alone is noted for compaction
    assert_eq!(store.take_request(), Some(0));
    assert_eq!(store.take_request(), None);
}
