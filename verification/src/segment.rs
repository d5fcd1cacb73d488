//! Segments: the immutable units of a column. A segment pairs an ordered
//! index from key to offset with a values log that holds one record at each
//! offset.

use vstd::prelude::*;
use crate::bytes::{bytes_eq, lemma_lex_transitive, lex_lt, strictly_ascending};
use crate::error::{corrupt_segment, StoreError, StoreResult};
use crate::memtable::pair_keys;
use crate::names::{index_suffix, is_suffix};
use crate::index::{
    entry_keys, holds_exactly, image_contents, index_contents, index_entries, index_from_entries,
    counters_fit, index_get, index_image, index_keys_between, index_keys_from, index_parse, index_sound,
    index_verify, lists_range, trusted_image,
};
use crate::values::{
    lemma_record_at_end, lemma_record_at_stable, lemma_record_len, read_value, record, record_at,
    write_value,
};

verus! {

/// What a source holds for a key: `None` where it does not hold the key,
/// `Some(None)` where it holds the key but no whole record lies at the key's
/// offset, `Some(Some(v))` where it holds the key with value `v`.
pub type Slot = Option<Option<Seq<u8>>>;

/// An immutable index with its values log.
pub struct Segment {
    id: u64,
    map: fst::Map<Vec<u8>>,
    values: Vec<u8>,
}

/// The identity of a segment and the names of its two files.
#[derive(Debug)]
pub struct SegmentMeta {
    pub id: u64,
    pub fst_name: Vec<u8>,
    pub values_name: Vec<u8>,
}

/// A file of a store's directory: its name and its contents.
#[derive(Debug)]
pub struct SegmentFile {
    pub name: Vec<u8>,
    pub data: Vec<u8>,
}

/// The files can be taken for the files of a store: each that is named as
/// an index file holds a trusted image.
pub open spec fn trusted_files(files: Seq<SegmentFile>) -> bool {
    forall|i: int|
        0 <= i < files.len() && is_suffix(index_suffix(), (#[trigger] files[i]).name@) ==> trusted_image(
            files[i].data@,
        )
}

/// Whether the two counters at the end of an index image fit a `usize` of
/// this machine, so that the image can be handed to the `fst` crate.
pub fn image_fits(image: &[u8]) -> (ok: bool)
    ensures
        ok == counters_fit(image@),
{
    let n: usize = image.len();
    if n < 36 {
        return true;
    }
    let version: u64 = vstd::bytes::u64_from_le_bytes(vstd::slice::slice_subrange(image, 0, 8));
    if version == 0 || version > 3 {
        return true;
    }
    let end: usize = if version <= 2 {
        n
    } else {
        n - 4
    };
    let root: u64 = vstd::bytes::u64_from_le_bytes(vstd::slice::slice_subrange(image, end - 8, end));
    let count: u64 = vstd::bytes::u64_from_le_bytes(vstd::slice::slice_subrange(image, end - 16, end - 8));
    root <= usize::MAX as u64 && count <= usize::MAX as u64
}

/// The position of the first file with the given name, if there is one.
pub fn find_file(files: &Vec<SegmentFile>, name: &[u8]) -> (res: Option<usize>)
    ensures
        match res {
            Some(v) => v < files@.len() && files@[v as int].name@ == name@ && forall|u: int|
                0 <= u < v ==> (#[trigger] files@[u]).name@ != name@,
            None => forall|v: int| 0 <= v < files@.len() ==> (#[trigger] files@[v]).name@ != name@,
        },
{
    let mut v: usize = 0;
    while v < files.len()
        invariant
            0 <= v <= files@.len(),
            forall|u: int| 0 <= u < v ==> (#[trigger] files@[u]).name@ != name@,
        decreases files@.len() - v,
    {
        if bytes_eq(files[v].name.as_slice(), name) {
            return Some(v);
        }
        v += 1;
    }
    None
}

impl Segment {
    /// The segment's id.
    pub closed spec fn spec_id(&self) -> u64 {
        self.id
    }

    /// The offset that the index holds for each key.
    pub closed spec fn offsets(&self) -> Map<Seq<u8>, u64> {
        index_contents(self.map)
    }

    /// The bytes of the values log.
    pub closed spec fn log(&self) -> Seq<u8> {
        self.values@
    }

    /// The index can be read.
    pub closed spec fn wf(&self) -> bool {
        index_sound(self.map)
    }

    /// The segment's files are in the segment format: there are entries in
    /// strictly ascending key order that the segment holds exactly, with the
    /// records of their values end to end in the values log.
    pub open spec fn is_packed(&self) -> bool {
        exists|pairs: Seq<(Seq<u8>, Seq<u8>)>|
            strictly_ascending(#[trigger] pair_keys(pairs)) && sealed(*self, pairs) && packed(*self, pairs)
    }

    /// What the segment holds for `key`.
    pub open spec fn slot(&self, key: Seq<u8>) -> Slot {
        if self.offsets().contains_key(key) {
            Some(record_at(self.log(), self.offsets()[key] as int))
        } else {
            None
        }
    }

    /// The segment's id.
    #[verifier::when_used_as_spec(spec_id)]
    pub fn id(&self) -> (id: u64)
        ensures
            id == self.spec_id(),
    {
        self.id
    }

    /// Reads the value of the record at `offset` in the values log.
    pub fn read_value(&self, offset: u64) -> (res: StoreResult<Vec<u8>>)
        ensures
            match res {
                Ok(v) => record_at(self.log(), offset as int) == Some(v@),
                Err(e) => e is Io && record_at(self.log(), offset as int) is None,
            },
    {
        read_value(self.values.as_slice(), offset)
    }

    /// The value stored under `key`: `Ok(None)` where the segment does not
    /// hold the key, an `Io` error where it holds the key but no whole record
    /// lies at the key's offset.
    pub fn get(&self, key: &[u8]) -> (res: StoreResult<Option<Vec<u8>>>)
        requires
            self.wf(),
        ensures
            match res {
                Ok(None) => self.slot(key@) is None,
                Ok(Some(v)) => self.slot(key@) == Some(Some(v@)),
                Err(e) => e is Io && self.slot(key@) == Some(None::<Seq<u8>>),
            },
    {
        match index_get(&self.map, key) {
            None => Ok(None),
            Some(offset) => {
                match self.read_value(offset) {
                    Ok(v) => Ok(Some(v)),
                    Err(e) => Err(e),
                }
            },
        }
    }

    /// The keys of the segment that lie at or after `lo` and, where `hi` is
    /// given, before `hi`, in strictly ascending order.
    pub fn keys_in_range(&self, lo: &[u8], hi: &Option<Vec<u8>>) -> (keys: Vec<Vec<u8>>)
        requires
            self.wf(),
        ensures
            lists_range(
                keys@,
                self.offsets(),
                lo@,
                match hi {
                    Some(h) => Some(h@),
                    None => None,
                },
            ),
    {
        match hi {
            Some(h) => index_keys_between(&self.map, lo, h.as_slice()),
            None => index_keys_from(&self.map, lo),
        }
    }

    /// Every key of the segment with its offset, in strictly ascending key order.
    pub fn entries(&self) -> (res: Vec<(Vec<u8>, u64)>)
        requires
            self.wf(),
        ensures
            strictly_ascending(entry_keys(res@)),
            holds_exactly(self.offsets(), res@),
    {
        index_entries(&self.map)
    }

    /// Opens a segment from the contents of its two files. The index image
    /// must be one that a segment of this library wrote, or one that the
    /// checks tell to be damaged. Fails with `CorruptSegment` where a counter
    /// of the image does not fit a `usize` of this machine, and else with an
    /// `Fst` error where the image is rejected or its checksum does not match.
    pub fn open(id: u64, image: Vec<u8>, values: Vec<u8>) -> (res: StoreResult<Segment>)
        requires
            trusted_image(image@),
        ensures
            match res {
                Ok(s) => s.wf() && s.spec_id() == id && s.log() == values@ && image_contents(image@) == Some(
                    s.offsets(),
                ),
                Err(e) => image_contents(image@) is None && (if counters_fit(image@) {
                    e is Fst
                } else {
                    e is CorruptSegment
                }),
            },
    {
        if !image_fits(image.as_slice()) {
            return Err(corrupt_segment("index counters do not fit this machine"));
        }
        let map = match index_parse(image) {
            Ok(map) => map,
            Err(e) => {
                return Err(StoreError::Fst(e));
            },
        };
        match index_verify(&map) {
            Ok(()) => Ok(Segment { id, map, values }),
            Err(e) => Err(StoreError::Fst(e)),
        }
    }

    /// The contents of the segment's index file.
    pub fn image(&self) -> (res: Vec<u8>)
        requires
            self.wf(),
        ensures
            image_contents(res@) == Some(self.offsets()),
            counters_fit(res@),
            trusted_image(res@),
    {
        index_image(&self.map)
    }

    /// The contents of the segment's values file.
    pub fn values(&self) -> (res: &Vec<u8>)
        ensures
            res@ == self.log(),
    {
        &self.values
    }
}

/// Builds a segment from entries handed over in ascending key order: each
/// value goes to the end of the values log and its key is indexed at the
/// offset where the record starts.
pub struct SegmentWriter {
    entries: Vec<(Vec<u8>, u64)>,
    log: Vec<u8>,
}

impl SegmentWriter {
    /// The number of entries written.
    pub closed spec fn count(&self) -> nat {
        self.entries@.len()
    }

    /// The key of the `i`-th entry written.
    pub closed spec fn key(&self, i: int) -> Seq<u8> {
        self.entries@[i].0@
    }

    /// The value of the `i`-th entry written, as the log holds it.
    pub closed spec fn value(&self, i: int) -> Option<Seq<u8>> {
        record_at(self.log@, self.entries@[i].1 as int)
    }

    /// The keys written are strictly ascending, the log holds the records
    /// of their values end to end, and each key is indexed where its record starts.
    pub closed spec fn wf(&self) -> bool {
        &&& strictly_ascending(entry_keys(self.entries@))
        &&& forall|i: int| 0 <= i < self.entries@.len() ==> (#[trigger] self.value(i)) is Some
        &&& self.log@ == log_of(self.pairs())
        &&& forall|i: int|
            0 <= i < self.entries@.len() ==> (#[trigger] self.entries@[i]).1 == log_of(self.pairs().take(i)).len()
    }

    /// The entries written so far, as key/value pairs in order.
    pub open spec fn pairs(&self) -> Seq<(Seq<u8>, Seq<u8>)> {
        Seq::new(self.count(), |i: int| (self.key(i), self.value(i)->0))
    }

    /// The keys of the entries written ascend strictly.
    pub proof fn lemma_pairs_ascend(&self)
        requires
            self.wf(),
        ensures
            strictly_ascending(pair_keys(self.pairs())),
    {
        assert(pair_keys(self.pairs()) =~= entry_keys(self.entries@));
    }

    /// A writer that has written nothing.
    pub fn new() -> (w: SegmentWriter)
        ensures
            w.wf(),
            w.count() == 0,
    {
        let w = SegmentWriter { entries: Vec::new(), log: Vec::new() };
        assert(w.pairs() =~= Seq::<(Seq<u8>, Seq<u8>)>::empty());
        w
    }

    /// Writes one entry. The key must be greater than the last one written.
    /// A value of more than `u32::MAX` bytes is refused and nothing is written.
    pub fn append(&mut self, key: Vec<u8>, value: &[u8]) -> (res: StoreResult<()>)
        requires
            old(self).wf(),
            old(self).pairs().len() > 0 ==> lex_lt(old(self).pairs().last().0, key@),
        ensures
            final(self).wf(),
            res is Ok <==> value@.len() <= u32::MAX,
            res is Ok ==> final(self).pairs() == old(self).pairs().push((key@, value@)),
            res matches Err(e) ==> e is InvalidInput && final(self).pairs() == old(self).pairs(),
    {
        let ghost before = *self;
        let ghost k = key@;
        proof {
            if before.pairs().len() > 0 {
                assert(before.pairs().last() == before.pairs()[before.pairs().len() - 1]);
            }
        }
        let offset: u64 = self.log.len() as u64;
        match write_value(&mut self.log, value) {
            Err(e) => {
                proof {
                    assert forall|i: int| 0 <= i < self.entries@.len() implies (#[trigger] self.value(
                        i,
                    )) is Some by {
                        assert(before.value(i) is Some);
                    }
                    assert(self.pairs() =~= before.pairs());
                    assert forall|i: int| 0 <= i < self.entries@.len() implies (#[trigger] self.entries@[i]).1
                        == log_of(self.pairs().take(i)).len() by {
                        assert(before.entries@[i].1 == log_of(before.pairs().take(i)).len());
                    }
                }
                Err(e)
            },
            Ok(()) => {
                self.entries.push((key, offset));
                proof {
                    let n = before.entries@.len() as int;
                    lemma_record_at_end(before.log@, value@);
                    assert forall|i: int| 0 <= i < n implies self.value(i) == before.value(i) by {
                        assert(before.value(i) is Some);
                        lemma_record_at_stable(before.log@, record(value@), before.entries@[i].1 as int);
                    }
                    assert(self.value(n) == Some(value@));
                    assert forall|i: int| 0 <= i < self.entries@.len() implies (#[trigger] self.value(
                        i,
                    )) is Some by {
                        if i < n {
                            assert(self.value(i) == before.value(i));
                        }
                    }
                    assert forall|i: int, j: int| 0 <= i < j < n + 1 implies lex_lt(
                        #[trigger] entry_keys(self.entries@)[i],
                        #[trigger] entry_keys(self.entries@)[j],
                    ) by {
                        let old_keys = entry_keys(before.entries@);
                        if j < n {
                            assert(lex_lt(old_keys[i], old_keys[j]));
                        } else if i < n - 1 {
                            assert(lex_lt(old_keys[i], old_keys[n - 1]));
                            lemma_lex_transitive(old_keys[i], old_keys[n - 1], k);
                        }
                    }
                    assert(self.pairs() =~= before.pairs().push((k, value@)));
                    let was = before.pairs();
                    let now = self.pairs();
                    assert(now.drop_last() =~= was);
                    assert(now.last() == (k, value@));
                    assert(self.log@ == log_of(now));
                    assert forall|i: int| 0 <= i < self.entries@.len() implies (#[trigger] self.entries@[i]).1
                        == log_of(now.take(i)).len() by {
                        if i < n {
                            assert(now.take(i) =~= was.take(i));
                            assert(before.entries@[i].1 == log_of(was.take(i)).len());
                        } else {
                            assert(now.take(i) =~= was);
                        }
                    }
                }
                Ok(())
            },
        }
    }

    /// Seals what was written into a segment with the given id. The segment
    /// holds each key written with its value, and no other key.
    pub fn finish(self, id: u64) -> (res: StoreResult<Segment>)
        requires
            self.wf(),
        ensures
            res matches Ok(s) && s.wf() && s.spec_id() == id && sealed(s, self.pairs()) && packed(s, self.pairs()),
    {
        let ghost entries = self.entries@;
        let ghost log = self.log@;
        let ghost pairs = self.pairs();
        match index_from_entries(self.entries) {
            Ok(map) => {
                let s = Segment { id, map, values: self.log };
                proof {
                    assert forall|i: int| 0 <= i < pairs.len() implies s.slot(#[trigger] pairs[i].0) == Some(
                        Some(pairs[i].1),
                    ) by {
                        assert(s.offsets().contains_key(entries[i].0@));
                        assert(self.value(i) is Some);
                    }
                    assert forall|k: Seq<u8>| (#[trigger] s.slot(k)) is Some implies exists|i: int|
                        0 <= i < pairs.len() && #[trigger] pairs[i].0 == k by {
                        let i = choose|i: int| 0 <= i < entries.len() && #[trigger] entries[i].0@ == k;
                        assert(pairs[i].0 == k);
                    }
                    assert forall|i: int| 0 <= i < pairs.len() implies s.offsets().contains_key(
                        #[trigger] pairs[i].0,
                    ) && s.offsets()[pairs[i].0] == log_of(pairs.take(i)).len() by {
                        assert(s.offsets().contains_key(entries[i].0@));
                        assert(entries[i].1 == log_of(pairs.take(i)).len());
                    }
                }
                Ok(s)
            },
            Err(e) => Err(StoreError::Fst(e)),
        }
    }
}

/// The values log that holds the records of the values of `pairs`, end to end.
pub open spec fn log_of(pairs: Seq<(Seq<u8>, Seq<u8>)>) -> Seq<u8>
    decreases pairs.len(),
{
    if pairs.len() == 0 {
        Seq::empty()
    } else {
        log_of(pairs.drop_last()) + record(pairs.last().1)
    }
}

/// The files of `s` hold `pairs` in the segment format: the values log is
/// the records of the values in key order, and the index gives for each key
/// the offset at which its record starts.
pub open spec fn packed(s: Segment, pairs: Seq<(Seq<u8>, Seq<u8>)>) -> bool {
    &&& s.log() == log_of(pairs)
    &&& forall|i: int|
        0 <= i < pairs.len() ==> s.offsets().contains_key(#[trigger] pairs[i].0) && s.offsets()[pairs[i].0] == log_of(
            pairs.take(i),
        ).len()
}

/// In the segment format the record of a key ends where the record of the
/// next key starts, and the last record ends with the log; so the offsets
/// ascend strictly in key order.
pub proof fn lemma_packed_records(s: Segment, pairs: Seq<(Seq<u8>, Seq<u8>)>, i: int)
    requires
        packed(s, pairs),
        0 <= i < pairs.len(),
    ensures
        s.offsets()[pairs[i].0] + 4 + pairs[i].1.len() == (if i + 1 < pairs.len() {
            s.offsets()[pairs[i + 1].0] as int
        } else {
            s.log().len() as int
        }),
{
    let next = pairs.take(i + 1);
    assert(next.drop_last() =~= pairs.take(i));
    assert(next.last() == pairs[i]);
    lemma_record_len(pairs[i].1);
    assert(log_of(next).len() == log_of(pairs.take(i)).len() + 4 + pairs[i].1.len());
    if i + 1 == pairs.len() {
        assert(next =~= pairs);
    }
}

/// The segment `s` holds each of `pairs` with its value, and no other key.
pub open spec fn sealed(s: Segment, pairs: Seq<(Seq<u8>, Seq<u8>)>) -> bool {
    &&& forall|i: int| 0 <= i < pairs.len() ==> s.slot(#[trigger] pairs[i].0) == Some(Some(pairs[i].1))
    &&& forall|k: Seq<u8>|
        (#[trigger] s.slot(k)) is Some ==> exists|i: int| 0 <= i < pairs.len() && #[trigger] pairs[i].0 == k
}

} // verus!
