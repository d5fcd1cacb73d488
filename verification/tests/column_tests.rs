use fst_store::column::Column;
use fst_store::merge::merge_segments;
use fst_store::segment::{image_fits, Segment, SegmentFile, SegmentWriter};

fn empty_dir() -> Vec<SegmentFile> {
    Vec::new()
}

#[test]
fn flushes_and_reads_single_segment() {
    let mut col = Column::open(&empty_dir(), 0, 2).unwrap();
    col.insert(b"a".to_vec(), b"1".to_vec()).unwrap();
    col.insert(b"b".to_vec(), b"2".to_vec()).unwrap();
    col.flush().unwrap();
    assert_eq!(col.segment_count(), 1);
    assert_eq!(col.get(b"a").unwrap(), Some(b"1".to_vec()));
    assert_eq!(col.get(b"b").unwrap(), Some(b"2".to_vec()));
}

#[test]
fn multi_way_merge_prefers_newer_segment() {
    let mut col = Column::open(&empty_dir(), 0, 1).unwrap();
    col.insert(b"k".to_vec(), b"old".to_vec()).unwrap();
    col.insert(b"k".to_vec(), b"new".to_vec()).unwrap();
    col.flush().unwrap();
    assert!(col.segment_count() >= 2);
    col.multi_way_merge().unwrap();
    assert_eq!(col.segment_count(), 1);
    assert_eq!(col.get(b"k").unwrap(), Some(b"new".to_vec()));
}

#[test]
fn keys_with_prefix_dedupes_from_segments() {
    let mut col = Column::open(&empty_dir(), 0, 1).unwrap();
    col.insert(b"p1".to_vec(), vec![]).unwrap();
    col.insert(b"p2".to_vec(), vec![]).unwrap();
    col.insert(b"p1".to_vec(), vec![]).unwrap(); // newer duplicate
    col.flush().unwrap();
    let keys = col.keys_with_prefix(b"p").unwrap();
    assert_eq!(keys, vec![b"p1".to_vec(), b"p2".to_vec()]);
}

#[test]
fn insert_reports_sealing_at_threshold() {
    let mut col = Column::new(3, 2);
    assert_eq!(col.id(), 3);
    assert_eq!(col.insert(b"a".to_vec(), b"1".to_vec()).unwrap(), false);
    assert_eq!(col.memtable_len(), 1);
    assert_eq!(col.segment_count(), 0);
    assert_eq!(col.insert(b"b".to_vec(), b"2".to_vec()).unwrap(), true);
    assert_eq!(col.memtable_len(), 0);
    assert_eq!(col.segment_count(), 1);
    assert_eq!(col.segment(0).id(), 0);
}

#[test]
fn overwrite_in_memtable_keeps_one_row() {
    let mut col = Column::new(0, 10);
    col.insert(b"k".to_vec(), b"one".to_vec()).unwrap();
    col.insert(b"k".to_vec(), b"two".to_vec()).unwrap();
    assert_eq!(col.memtable_len(), 1);
    assert_eq!(col.get(b"k").unwrap(), Some(b"two".to_vec()));
    assert_eq!(col.get(b"missing").unwrap(), None);
}

#[test]
fn flush_of_empty_memtable_changes_nothing() {
    let mut col = Column::new(0, 4);
    col.flush().unwrap();
    assert_eq!(col.segment_count(), 0);
    col.insert(b"x".to_vec(), b"y".to_vec()).unwrap();
    col.flush().unwrap();
    col.flush().unwrap();
    assert_eq!(col.segment_count(), 1);
    assert_eq!(col.memtable_len(), 0);
}

#[test]
fn memtable_overrides_segments() {
    let mut col = Column::new(0, 100);
    col.insert(b"k".to_vec(), b"sealed".to_vec()).unwrap();
    col.flush().unwrap();
    col.insert(b"k".to_vec(), b"fresh".to_vec()).unwrap();
    assert_eq!(col.get(b"k").unwrap(), Some(b"fresh".to_vec()));
}

#[test]
fn prefix_scan_spans_memtable_and_generations() {
    let mut col = Column::new(0, 100);
    col.insert(b"ab1".to_vec(), vec![]).unwrap();
    col.insert(b"zz".to_vec(), vec![]).unwrap();
    col.flush().unwrap();
    col.insert(b"ab0".to_vec(), vec![]).unwrap();
    col.insert(b"ab1".to_vec(), vec![1]).unwrap();
    col.insert(b"a".to_vec(), vec![]).unwrap();
    col.flush().unwrap();
    col.insert(b"ab2".to_vec(), vec![]).unwrap();
    col.insert(b"ac".to_vec(), vec![]).unwrap();
    let keys = col.keys_with_prefix(b"ab").unwrap();
    assert_eq!(keys, vec![b"ab0".to_vec(), b"ab1".to_vec(), b"ab2".to_vec()]);
    let all = col.keys_with_prefix(b"").unwrap();
    assert_eq!(
        all,
        vec![b"a".to_vec(), b"ab0".to_vec(), b"ab1".to_vec(), b"ab2".to_vec(), b"ac".to_vec(), b"zz".to_vec()]
    );
    assert_eq!(col.keys_with_prefix(b"b").unwrap(), Vec::<Vec<u8>>::new());
}

#[test]
fn prefix_scan_without_upper_bound() {
    let mut col = Column::new(0, 100);
    col.insert(vec![0xFF, 0xFF, 0x01], vec![]).unwrap();
    col.insert(vec![0xFF, 0x00], vec![]).unwrap();
    col.flush().unwrap();
    col.insert(vec![0xFF, 0xFF], vec![]).unwrap();
    col.insert(vec![0xFE], vec![]).unwrap();
    let keys = col.keys_with_prefix(&[0xFF, 0xFF]).unwrap();
    assert_eq!(keys, vec![vec![0xFF, 0xFF], vec![0xFF, 0xFF, 0x01]]);
}

#[test]
fn merge_is_idempotent_on_single_segment() {
    let mut col = Column::new(0, 100);
    col.insert(b"a".to_vec(), b"1".to_vec()).unwrap();
    col.insert(b"b".to_vec(), b"2".to_vec()).unwrap();
    col.flush().unwrap();
    assert_eq!(col.segment_count(), 1);
    let id_before = col.segment(0).id();
    let image_before = col.segment(0).image();
    col.multi_way_merge().unwrap();
    assert_eq!(col.segment_count(), 1);
    assert_eq!(col.segment(0).id(), id_before);
    assert_eq!(col.segment(0).image(), image_before);
    assert_eq!(col.get(b"a").unwrap(), Some(b"1".to_vec()));
}

#[test]
fn merge_keeps_every_key_once_with_newest_value() {
    let mut col = Column::new(0, 100);
    col.insert(b"a".to_vec(), b"a0".to_vec()).unwrap();
    col.insert(b"b".to_vec(), b"b0".to_vec()).unwrap();
    col.flush().unwrap();
    col.insert(b"b".to_vec(), b"b1".to_vec()).unwrap();
    col.insert(b"c".to_vec(), b"c1".to_vec()).unwrap();
    col.flush().unwrap();
    col.insert(b"a".to_vec(), b"a2".to_vec()).unwrap();
    col.insert(b"".to_vec(), b"empty key".to_vec()).unwrap();
    col.multi_way_merge().unwrap();
    assert_eq!(col.segment_count(), 1);
    assert_eq!(col.memtable_len(), 0);
    assert_eq!(col.segment(0).id(), 3);
    assert_eq!(col.get(b"").unwrap(), Some(b"empty key".to_vec()));
    assert_eq!(col.get(b"a").unwrap(), Some(b"a2".to_vec()));
    assert_eq!(col.get(b"b").unwrap(), Some(b"b1".to_vec()));
    assert_eq!(col.get(b"c").unwrap(), Some(b"c1".to_vec()));
    // the values log holds one record for each of the four keys
    let expected: usize = (4 + 9) + (4 + 2) + (4 + 2) + (4 + 2);
    assert_eq!(col.segment(0).values().len(), expected);
}

#[test]
fn merge_segments_takes_newest_source() {
    let mut old = SegmentWriter::new();
    old.append(b"k".to_vec(), b"old").unwrap();
    old.append(b"only-old".to_vec(), b"x").unwrap();
    let old = old.finish(1).unwrap();
    let mut new = SegmentWriter::new();
    new.append(b"k".to_vec(), b"new").unwrap();
    let new = new.finish(2).unwrap();
    let merged = merge_segments(&vec![old, new], 7).unwrap();
    assert_eq!(merged.id(), 7);
    assert_eq!(merged.get(b"k").unwrap(), Some(b"new".to_vec()));
    assert_eq!(merged.get(b"only-old").unwrap(), Some(b"x".to_vec()));
    assert_eq!(merged.get(b"absent").unwrap(), None);
    assert_eq!(merged.keys_in_range(b"", &None), vec![b"k".to_vec(), b"only-old".to_vec()]);
}

#[test]
fn segment_range_is_half_open() {
    let mut w = SegmentWriter::new();
    for k in [&b"a"[..], b"b", b"c", b"d", b"e"] {
        w.append(k.to_vec(), b"v").unwrap();
    }
    let seg = w.finish(0).unwrap();
    assert_eq!(seg.keys_in_range(b"b", &Some(b"e".to_vec())), vec![b"b".to_vec(), b"c".to_vec(), b"d".to_vec()]);
    assert_eq!(seg.keys_in_range(b"d", &None), vec![b"d".to_vec(), b"e".to_vec()]);
}

#[test]
fn segment_survives_its_files() {
    let mut w = SegmentWriter::new();
    w.append(b"alpha".to_vec(), b"1").unwrap();
    w.append(b"beta".to_vec(), b"22").unwrap();
    let seg = w.finish(5).unwrap();
    let image = seg.image();
    assert_ne!(image, b"alpha".to_vec());
    let values = seg.values().clone();
    assert_eq!(values, vec![1, 0, 0, 0, b'1', 2, 0, 0, 0, b'2', b'2']);
    let again = Segment::open(9, image, values).unwrap();
    assert_eq!(again.id(), 9);
    assert_eq!(again.get(b"alpha").unwrap(), Some(b"1".to_vec()));
    assert_eq!(again.get(b"beta").unwrap(), Some(b"22".to_vec()));
    assert_eq!(again.get(b"gamma").unwrap(), None);
}

#[test]
fn segment_open_rejects_garbage_image() {
    let res = Segment::open(0, b"not an fst".to_vec(), Vec::new());
    assert!(matches!(res, Err(fst_store::error::StoreError::Fst(_))));
    // a well-formed header with a damaged body fails the checksum
    let mut w = SegmentWriter::new();
    w.append(b"alpha".to_vec(), b"1").unwrap();
    w.append(b"beta".to_vec(), b"2").unwrap();
    let mut image = w.finish(0).unwrap().image();
    let mid = image.len() / 2;
    image[mid] ^= 0x5A;
    let res = Segment::open(0, image, Vec::new());
    assert!(matches!(res, Err(fst_store::error::StoreError::Fst(_))));
}

#[test]
fn truncated_values_file_is_an_io_error() {
    let mut w = SegmentWriter::new();
    w.append(b"k".to_vec(), b"value").unwrap();
    let seg = w.finish(0).unwrap();
    let cut = Segment::open(0, seg.image(), vec![5, 0, 0, 0, b'v']).unwrap();
    assert!(matches!(cut.get(b"k"), Err(fst_store::error::StoreError::Io(_))));
    let merged = merge_segments(&vec![cut], 1);
    assert!(matches!(merged, Err(fst_store::error::StoreError::Io(_))));
}

#[test]
fn recovery_orders_segments_and_continues_ids() {
    let mut col = Column::new(2, 1);
    col.insert(b"k".to_vec(), b"v0".to_vec()).unwrap();
    col.insert(b"k".to_vec(), b"v1".to_vec()).unwrap();
    col.insert(b"j".to_vec(), b"w".to_vec()).unwrap();
    let mut files = col.files();
    assert_eq!(files.len(), 6);
    assert_eq!(files[0].name, b"col2_seg00000000000000000000.fst".to_vec());
    assert_eq!(files[1].name, b"col2_seg00000000000000000000.val".to_vec());
    assert_eq!(files[4].name, b"col2_seg00000000000000000002.fst".to_vec());
    files.reverse();
    files.push(SegmentFile { name: b"notes.txt".to_vec(), data: b"ignored".to_vec() });
    let mut back = Column::open(&files, 2, 1).unwrap();
    assert_eq!(back.segment_count(), 3);
    assert_eq!(back.segment(0).id(), 0);
    assert_eq!(back.segment(2).id(), 2);
    assert_eq!(back.get(b"k").unwrap(), Some(b"v1".to_vec()));
    assert_eq!(back.get(b"j").unwrap(), Some(b"w".to_vec()));
    back.insert(b"n".to_vec(), b"x".to_vec()).unwrap();
    assert_eq!(back.segment(3).id(), 3);
    // the files of column 2 are not files of column 1 or 20
    assert_eq!(Column::open(&files, 1, 1).unwrap().segment_count(), 0);
    assert_eq!(Column::open(&files, 20, 1).unwrap().segment_count(), 0);
}

#[test]
fn recovery_rejects_orphan_index_file() {
    let mut col = Column::new(0, 1);
    col.insert(b"k".to_vec(), b"v".to_vec()).unwrap();
    let mut files = col.files();
    files.remove(1);
    let res = Column::open(&files, 0, 1);
    assert!(matches!(res, Err(fst_store::error::StoreError::CorruptSegment(_))));
    // a values file alone is passed over
    let mut files = col.files();
    files.remove(0);
    assert_eq!(Column::open(&files, 0, 1).unwrap().segment_count(), 0);
}

#[test]
fn recovery_rejects_two_spellings_of_one_id() {
    let mut col = Column::new(0, 1);
    col.insert(b"k".to_vec(), b"v".to_vec()).unwrap();
    let files = col.files();
    let mut twice = col.files();
    twice.push(SegmentFile { name: b"col0_seg0.fst".to_vec(), data: files[0].data.clone() });
    twice.push(SegmentFile { name: b"col0_seg0.val".to_vec(), data: files[1].data.clone() });
    let res = Column::open(&twice, 0, 1);
    assert!(matches!(res, Err(fst_store::error::StoreError::CorruptSegment(_))));
}

#[test]
fn recovery_rejects_damaged_index_and_last_id() {
    let mut col = Column::new(0, 1);
    col.insert(b"k".to_vec(), b"v".to_vec()).unwrap();
    let mut files = col.files();
    files[0].data = b"damaged".to_vec();
    assert!(matches!(Column::open(&files, 0, 1), Err(fst_store::error::StoreError::Fst(_))));
    let good = col.files();
    let last = vec![
        SegmentFile { name: b"col0_seg18446744073709551615.fst".to_vec(), data: good[0].data.clone() },
        SegmentFile { name: b"col0_seg18446744073709551615.val".to_vec(), data: good[1].data.clone() },
    ];
    assert!(matches!(Column::open(&last, 0, 1), Err(fst_store::error::StoreError::InvalidInput(_))));
    let too_big = vec![
        SegmentFile { name: b"col0_seg18446744073709551616.fst".to_vec(), data: good[0].data.clone() },
    ];
    assert_eq!(Column::open(&too_big, 0, 1).unwrap().segment_count(), 0);
}

#[test]
fn background_merge_cycle() {
    let mut col = Column::new(1, 1);
    for i in 0u8..3 {
        col.insert(vec![b'k', i], vec![i]).unwrap();
    }
    assert_eq!(col.snapshot_for_merge(4).unwrap().map(|j| j.0), None);
    col.insert(b"k\x00".to_vec(), b"newer".to_vec()).unwrap();
    let (merge_id, col_id, metas) = col.snapshot_for_merge(4).unwrap().unwrap();
    assert_eq!(merge_id, 4);
    assert_eq!(col_id, 1);
    assert_eq!(metas.len(), 4);
    assert_eq!(metas[3].id, 3);
    assert_eq!(metas[3].fst_name, b"col1_seg00000000000000000003.fst".to_vec());
    assert_eq!(metas[3].values_name, b"col1_seg00000000000000000003.val".to_vec());
    // a second request while the first is under way is turned down
    assert!(col.snapshot_for_merge(0).unwrap().is_none());
    // the merge works on the files, while the column takes another write
    let files = col.files();
    let mut sources = Vec::new();
    for m in &metas {
        let image = files.iter().find(|f| f.name == m.fst_name).unwrap().data.clone();
        let values = files.iter().find(|f| f.name == m.values_name).unwrap().data.clone();
        sources.push(Segment::open(m.id, image, values).unwrap());
    }
    let merged = merge_segments(&sources, merge_id).unwrap();
    col.insert(b"k\x01".to_vec(), b"latest".to_vec()).unwrap();
    assert_eq!(col.segment_count(), 5);
    assert!(col.accepts_merge(&merged, &metas));
    col.finish_merge(merged, &metas);
    assert_eq!(col.segment_count(), 2);
    assert_eq!(col.segment(0).id(), 4);
    assert_eq!(col.segment(1).id(), 5);
    assert_eq!(col.get(b"k\x00").unwrap(), Some(b"newer".to_vec()));
    assert_eq!(col.get(b"k\x01").unwrap(), Some(b"latest".to_vec()));
    assert_eq!(col.get(b"k\x02").unwrap(), Some(vec![2]));
    assert!(col.snapshot_for_merge(2).unwrap().is_some());
    col.abort_merge();
    assert!(col.snapshot_for_merge(2).unwrap().is_some());
}

#[test]
fn compact_merges_at_threshold_only() {
    let mut col = Column::new(0, 1);
    col.insert(b"a".to_vec(), b"1".to_vec()).unwrap();
    col.insert(b"b".to_vec(), b"2".to_vec()).unwrap();
    assert_eq!(col.compact(3).unwrap(), false);
    assert_eq!(col.segment_count(), 2);
    col.insert(b"a".to_vec(), b"3".to_vec()).unwrap();
    assert_eq!(col.compact(3).unwrap(), true);
    assert_eq!(col.segment_count(), 1);
    assert_eq!(col.get(b"a").unwrap(), Some(b"3".to_vec()));
    assert_eq!(col.get(b"b").unwrap(), Some(b"2".to_vec()));
}

#[test]
fn snapshot_below_threshold_leaves_the_column_alone() {
    let mut col = Column::new(0, 100);
    col.insert(b"a".to_vec(), b"1".to_vec()).unwrap();
    col.flush().unwrap();
    col.insert(b"b".to_vec(), b"2".to_vec()).unwrap();
    // one segment and a row in the memtable: a threshold of two is not reached
    assert!(col.snapshot_for_merge(2).unwrap().is_none());
    assert_eq!(col.segment_count(), 1);
    assert_eq!(col.memtable_len(), 1);
    assert_eq!(col.compact(2).unwrap(), false);
    assert_eq!(col.segment_count(), 1);
    assert_eq!(col.memtable_len(), 1);
    // at the threshold the memtable is sealed, so that it takes part
    let (merge_id, _, metas) = col.snapshot_for_merge(1).unwrap().unwrap();
    assert_eq!(col.memtable_len(), 0);
    assert_eq!(col.segment_count(), 2);
    assert_eq!(merge_id, 2);
    assert_eq!(metas.iter().map(|m| m.id).collect::<Vec<_>>(), vec![0, 1]);
}

#[test]
fn recovery_reports_the_first_file_that_is_not_in_order() {
    let mut col = Column::new(0, 1);
    col.insert(b"k".to_vec(), b"v".to_vec()).unwrap();
    col.insert(b"l".to_vec(), b"w".to_vec()).unwrap();
    let good = col.files();
    // an index file with a damaged image stands before one without its values file
    let mut files = vec![
        SegmentFile { name: good[0].name.clone(), data: b"damaged".to_vec() },
        SegmentFile { name: good[1].name.clone(), data: good[1].data.clone() },
        SegmentFile { name: good[2].name.clone(), data: good[2].data.clone() },
    ];
    assert!(matches!(Column::open(&files, 0, 1), Err(fst_store::error::StoreError::Fst(_))));
    // and the other way round
    files.swap(0, 2);
    assert!(matches!(Column::open(&files, 0, 1), Err(fst_store::error::StoreError::CorruptSegment(_))));
}

#[test]
fn index_counters_are_held_against_the_machine_word() {
    // too short to hold any counter
    assert!(image_fits(b""));
    assert!(image_fits(&[0xFFu8; 35]));
    // an index that this library wrote
    let mut w = SegmentWriter::new();
    w.append(b"alpha".to_vec(), b"1").unwrap();
    let image = w.finish(0).unwrap().image();
    assert!(image_fits(&image));

    let big: u64 = 1 << 40;
    let fits = big <= usize::MAX as u64;
    // version 3: key count and root address stand before the checksum
    let mut v3 = vec![0u8; 44];
    v3[0] = 3;
    v3[24..32].copy_from_slice(&big.to_le_bytes());
    assert_eq!(image_fits(&v3), fits);
    let mut v3 = vec![0u8; 44];
    v3[0] = 3;
    v3[32..40].copy_from_slice(&big.to_le_bytes());
    assert_eq!(image_fits(&v3), fits);
    // the checksum itself is no counter
    let mut v3 = vec![0u8; 44];
    v3[0] = 3;
    v3[40..44].copy_from_slice(&[0xFF; 4]);
    assert!(image_fits(&v3));
    // version 2: the counters are the last sixteen bytes
    let mut v2 = vec![0u8; 44];
    v2[0] = 2;
    v2[36..44].copy_from_slice(&big.to_le_bytes());
    assert_eq!(image_fits(&v2), fits);
    let mut v2 = vec![0u8; 44];
    v2[0] = 2;
    v2[20..28].copy_from_slice(&big.to_le_bytes());
    assert!(image_fits(&v2));
    // a version that is never parsed
    let mut v9 = vec![0xFFu8; 44];
    v9[0..8].copy_from_slice(&9u64.to_le_bytes());
    assert!(image_fits(&v9));
    let mut v0 = vec![0xFFu8; 44];
    v0[0..8].copy_from_slice(&0u64.to_le_bytes());
    assert!(image_fits(&v0));
}

#[test]
fn segment_open_turns_down_counters_that_do_not_fit() {
    let big: u64 = 1 << 40;
    let mut image = vec![0u8; 44];
    image[0] = 3;
    image[24..32].copy_from_slice(&big.to_le_bytes());
    image[32..40].copy_from_slice(&big.to_le_bytes());
    image[40..44].copy_from_slice(&[0xFF; 4]);
    let res = Segment::open(0, image, Vec::new());
    if big <= usize::MAX as u64 {
        assert!(matches!(res, Err(fst_store::error::StoreError::Fst(_))));
    } else {
        assert!(matches!(res, Err(fst_store::error::StoreError::CorruptSegment(_))));
    }
}

#[test]
fn abort_merge_changes_the_flag_alone() {
    let mut col = Column::new(0, 1);
    col.insert(b"a".to_vec(), b"1".to_vec()).unwrap();
    col.insert(b"b".to_vec(), b"2".to_vec()).unwrap();
    let mut wide = Column::new(0, 10);
    wide.insert(b"p".to_vec(), b"3".to_vec()).unwrap();
    assert!(wide.snapshot_for_merge(1).unwrap().is_none());
    wide.abort_merge();
    assert_eq!((wide.segment_count(), wide.memtable_len()), (0, 1));
    assert_eq!(wide.get(b"p").unwrap(), Some(b"3".to_vec()));

    let (first, _, metas) = col.snapshot_for_merge(2).unwrap().unwrap();
    assert_eq!((first, metas.len()), (2, 2));
    col.abort_merge();
    assert_eq!(col.segment_count(), 2);
    assert_eq!(col.memtable_len(), 0);
    assert_eq!((col.segment(0).id(), col.segment(1).id()), (0, 1));
    assert_eq!(col.get(b"a").unwrap(), Some(b"1".to_vec()));
    // the id that the abandoned merge had taken is not handed out again
    let (second, _, metas) = col.snapshot_for_merge(2).unwrap().unwrap();
    assert_eq!((second, metas.len()), (3, 2));
}
