//! The store: columns composed by a layout, with typed keys and values that
//! codecs turn into the byte strings of the columns.

use vstd::prelude::*;
use core::marker::PhantomData;
use crate::bytes::{copy_bytes, is_prefix, strictly_ascending, views};
use crate::codec::StoreCodec;
use crate::column::{
    column_files, compact_outcome, compacted, lemma_view_same, merge_failure, open_fails, opened, opens,
    seals, snapshot_outcome, Column,
};
use crate::compactor::{Compactor, MERGE_THRESHOLD};
use crate::error::{invalid_input, StoreError, StoreResult};
use crate::layout::Layout;
use crate::memtable::Memtable;
use crate::model::{
    after_physical, any_blocked, apply, apply_physical, at, blocked, cannot_take, failed_write, goes, grown,
    lemma_after_writes, lemma_goes_so_far, lemma_wrote, one_write, partly_put, put, start, stops_at_write,
    total_weight, value_of,
    weight, writes_go, writes_of, written, ColumnWrite, CommitState, Physical, Shape, Table,
};
use crate::options::StoreOptions;
use crate::progress::{ProgressReport, ProgressTracker, REPORT_INTERVAL_SECS};
use crate::recovery::{holds_column, lemma_reopen_among_succeeds, lemma_reopened, lemma_store_files, reopened};
use crate::segment::{trusted_files, Segment, SegmentFile, SegmentMeta};

verus! {

/// Every number of `requests` is below `n`.
pub open spec fn all_below(requests: Seq<usize>, n: int) -> bool {
    forall|i: int| 0 <= i < requests.len() ==> (#[trigger] requests[i]) < n
}

/// The requests `after` are the requests `before` with more behind them.
pub open spec fn extends(after: Seq<usize>, before: Seq<usize>) -> bool {
    before.len() <= after.len() && after.take(before.len() as int) == before
}

/// Requests that were put behind requests that were put behind others were put behind those.
pub proof fn lemma_extends_chain(a: Seq<usize>, b: Seq<usize>, c: Seq<usize>)
    requires
        extends(a, b),
        extends(b, c),
    ensures
        extends(a, c),
{
    assert(a.take(c.len() as int) =~= a.take(b.len() as int).take(c.len() as int));
}

/// The byte strings that `out` stands for behind `prefix`: for each key its
/// encoding with `prefix` before it.
pub open spec fn prefixed<K, KC: StoreCodec<K>>(out: Seq<K>, prefix: Seq<u8>) -> Seq<Seq<u8>> {
    Seq::new(out.len(), |i: int| prefix + KC::encoded(&out[i]))
}

/// What a scan of table `t` for the keys behind `prefix` gives: the keys, in
/// the ascending order of their entries, one for each entry of the table that
/// starts with `prefix`; or `InvalidInput` where what follows the prefix in
/// some such entry is no key.
pub open spec fn scan_result<K, KC: StoreCodec<K>>(res: StoreResult<Vec<K>>, t: Table, prefix: Seq<u8>) -> bool {
    match res {
        Ok(out) => {
            &&& strictly_ascending(prefixed::<K, KC>(out@, prefix))
            &&& forall|i: int|
                0 <= i < out@.len() ==> t.contains_key(#[trigger] prefixed::<K, KC>(out@, prefix)[i]) && is_prefix(
                    prefix,
                    prefixed::<K, KC>(out@, prefix)[i],
                )
            &&& forall|x: Seq<u8>| #[trigger]
                t.contains_key(x) && is_prefix(prefix, x) ==> exists|i: int|
                    0 <= i < out@.len() && #[trigger] prefixed::<K, KC>(out@, prefix)[i] == x
        },
        Err(e) => e is InvalidInput && exists|x: Seq<u8>|
            #[trigger] t.contains_key(x) && is_prefix(prefix, x) && !KC::decodable(x.skip(prefix.len() as int)),
    }
}

/// The write of an entry stopped at its write at position `n` and left
/// `tables` and `physical`: the writes before that one were made, and that
/// one put its row into a memtable that could not be sealed.
pub open spec fn stopped_after(
    layout: Layout,
    s: CommitState,
    p: Physical,
    thresholds: Seq<int>,
    key: Seq<u8>,
    value: Seq<u8>,
    n: int,
    tables: Seq<Table>,
    physical: Physical,
) -> bool {
    let ws = writes_of(layout, s, key, value);
    &&& stops_at_write(p, thresholds, ws, n)
    &&& tables == partly_put(layout, s, key, value, n + 1)
    &&& physical == failed_write(after_physical(p, thresholds, ws.take(n)), ws[n])
}

/// The write of an entry stopped at one of its writes and left `tables`
/// and `physical`.
pub open spec fn stopped_within(
    layout: Layout,
    s: CommitState,
    p: Physical,
    thresholds: Seq<int>,
    key: Seq<u8>,
    value: Seq<u8>,
    tables: Seq<Table>,
    physical: Physical,
) -> bool {
    exists|n: int| #[trigger] stopped_after(layout, s, p, thresholds, key, value, n, tables, physical)
}

/// A commit of `items` failed with `e` at the entry at position `i` and left
/// `tables` and `physical`: the entries before it are written; the entry
/// itself is not written at all where the birth key of its value cannot be
/// read (`Io`), and is written up to the write after which a memtable could
/// not be sealed (`InvalidInput`).
pub open spec fn failed_at(
    layout: Layout,
    s: CommitState,
    p: Physical,
    thresholds: Seq<int>,
    items: Seq<(Seq<u8>, Seq<u8>)>,
    i: int,
    e: StoreError,
    tables: Seq<Table>,
    physical: Physical,
) -> bool {
    let before = apply(layout, s, items.take(i));
    let reached = apply_physical(layout, s, p, thresholds, items.take(i));
    &&& 0 <= i < items.len()
    &&& goes(layout, s, p, thresholds, items.take(i))
    &&& if blocked(layout, before, items[i].1) {
        e is Io && tables == before.tables && physical == reached
    } else {
        e is InvalidInput && stopped_within(
            layout,
            before,
            reached,
            thresholds,
            items[i].0,
            items[i].1,
            tables,
            physical,
        )
    }
}

/// Opening a store from the files fails at column `i` with the error `e`:
/// every column before it can be rebuilt, and this one cannot, for the
/// reason that `e` gives.
pub open spec fn fails_at(e: StoreError, files: Seq<SegmentFile>, i: int) -> bool {
    &&& forall|c: int| 0 <= c < i ==> #[trigger] opens(files, c as u8)
    &&& open_fails(e, files, i as u8)
}

/// A store's `flush` stopped at column `i`, whose memtable cannot be
/// sealed: the columns before it are sealed and this one and those after it
/// are as they were.
pub open spec fn flush_stopped<K, V, KC: StoreCodec<K>, VC: StoreCodec<V>>(
    before: Store<K, V, KC, VC>,
    after: Store<K, V, KC, VC>,
    i: int,
) -> bool {
    &&& 0 <= i < before.cols().len()
    &&& after.cols().len() == before.cols().len()
    &&& before.cols()[i].pending().len() > 0 && !before.cols()[i].sealable()
    &&& after.cols()[i].pending() == before.cols()[i].pending()
    &&& after.cols()[i].segs() == before.cols()[i].segs()
    &&& after.cols()[i].next_id() == before.cols()[i].next_id()
    &&& forall|j: int|
        0 <= j < i ==> (#[trigger] after.cols()[j]).pending().len() == 0 && seals(
            before.cols()[j],
            after.cols()[j].segs(),
            after.cols()[j].next_id() as int,
        )
    &&& forall|j: int| i < j < before.cols().len() ==> (#[trigger] after.cols()[j]) == before.cols()[j]
}

/// A store's `multi_way_merge` stopped at column `i` with the error `e`:
/// the columns before it are compacted, this one failed as `e` says, and
/// those after it are as they were.
pub open spec fn merge_stopped<K, V, KC: StoreCodec<K>, VC: StoreCodec<V>>(
    before: Store<K, V, KC, VC>,
    after: Store<K, V, KC, VC>,
    i: int,
    e: StoreError,
) -> bool {
    &&& 0 <= i < before.cols().len()
    &&& after.cols().len() == before.cols().len()
    &&& merge_failure(before.cols()[i], after.cols()[i], e)
    &&& forall|j: int|
        0 <= j < i ==> (#[trigger] after.cols()[j]).pending().len() == 0 && compacted(
            before.cols()[j],
            after.cols()[j].segs(),
            after.cols()[j].next_id() as int,
        )
    &&& forall|j: int| i < j < before.cols().len() ==> (#[trigger] after.cols()[j]) == before.cols()[j]
}

/// The byte strings that the items of a commit stand for.
pub open spec fn encode_all<K, V, KC: StoreCodec<K>, VC: StoreCodec<V>>(items: Seq<(&K, &V)>) -> Seq<
    (Seq<u8>, Seq<u8>),
> {
    Seq::new(items.len(), |i: int| (KC::encoded(items[i].0), VC::encoded(items[i].1)))
}

/// No key and no value of `items` is too long for a record.
pub open spec fn all_short(items: Seq<(Seq<u8>, Seq<u8>)>) -> bool {
    forall|i: int| 0 <= i < items.len() ==> (#[trigger] items[i]).0.len() <= u32::MAX && items[i].1.len() <= u32::MAX
}

/// `n` logical entries added to a count that stops at `u64::MAX`.
pub open spec fn counted(before: u64, n: nat) -> u64 {
    if before + n > u64::MAX {
        u64::MAX
    } else {
        (before + n) as u64
    }
}

/// The files `f` are the files of the first `n` of `columns`, one column after the other.
pub open spec fn holds_files(columns: Seq<Column>, n: int, f: Seq<SegmentFile>) -> bool
    decreases n,
{
    if n <= 0 {
        f.len() == 0
    } else {
        exists|cut: int|
            0 <= cut <= f.len() && holds_files(columns, n - 1, #[trigger] f.subrange(0, cut)) && column_files(
                columns[n - 1],
                f.subrange(cut, f.len() as int),
            )
    }
}

/// The birth keys that one commit has met: those that it gave to values
/// that it introduced, and those that it found in the store.
struct BirthCache {
    fresh: Memtable,
    known: Memtable,
}

impl BirthCache {
    spec fn wf(&self) -> bool {
        self.fresh.wf() && self.known.wf()
    }

    /// What the cache knows from the store is what the table holds, for
    /// values that the commit did not introduce.
    spec fn agrees(&self, t: Table) -> bool {
        forall|x: Seq<u8>| #[trigger]
            self.known@.contains_key(x) ==> !self.fresh@.contains_key(x) && at(t, x) == Some(Some(self.known@[x]))
    }

    /// No birth key in the cache is too long for a record.
    spec fn short(&self) -> bool {
        &&& forall|x: Seq<u8>| #[trigger] self.fresh@.contains_key(x) ==> self.fresh@[x].len() <= u32::MAX
        &&& forall|x: Seq<u8>| #[trigger] self.known@.contains_key(x) ==> self.known@[x].len() <= u32::MAX
    }
}

/// A key/value store over the columns of one layout.
pub struct Store<K, V, KC: StoreCodec<K>, VC: StoreCodec<V>> {
    layout: Layout,
    columns: Vec<Column>,
    compactor: Compactor,
    progress: Option<ProgressTracker>,
    _ph: PhantomData<(K, V, KC, VC)>,
}

impl<K, V, KC: StoreCodec<K>, VC: StoreCodec<V>> Store<K, V, KC, VC> {
    /// The store's layout.
    pub closed spec fn spec_layout(&self) -> Layout {
        self.layout
    }

    /// The store's columns, by index.
    pub closed spec fn cols(&self) -> Seq<Column> {
        self.columns@
    }

    /// The columns in which a memtable was sealed and which have not been
    /// handed out for compaction yet, oldest request first.
    pub closed spec fn pending_requests(&self) -> Seq<usize> {
        self.compactor.pending()
    }

    /// The progress counter, if one is installed.
    pub closed spec fn spec_progress(&self) -> Option<ProgressTracker> {
        self.progress
    }

    /// The layout fits, the store has the layout's columns, and each column
    /// is well-formed and knows its index.
    pub open spec fn wf(&self) -> bool {
        &&& self.spec_layout().fits()
        &&& self.cols().len() == self.spec_layout().columns()
        &&& forall|i: int| 0 <= i < self.cols().len() ==> (#[trigger] self.cols()[i]).wf() && self.cols()[i].col_id() == i
        &&& all_below(self.pending_requests(), self.cols().len() as int)
    }

    /// The columns as mappings.
    pub open spec fn tables(&self) -> Seq<Table> {
        Seq::new(self.cols().len(), |i: int| self.cols()[i]@)
    }

    /// The shapes of the columns, by index.
    pub open spec fn shapes(&self) -> Seq<Shape> {
        Seq::new(self.cols().len(), |i: int| self.cols()[i].shape())
    }

    /// For each column, by index, whether a background merge of it is under way.
    pub open spec fn merging(&self) -> Seq<bool> {
        Seq::new(self.cols().len(), |i: int| self.cols()[i].is_merging())
    }

    /// The row thresholds of the columns, by index.
    pub open spec fn thresholds(&self) -> Seq<int> {
        Seq::new(self.cols().len(), |i: int| self.cols()[i].threshold() as int)
    }

    /// The columns as a commit changes them: their shapes, and the columns
    /// noted for compaction.
    pub open spec fn physical(&self) -> Physical {
        Physical { shapes: self.shapes(), noted: self.pending_requests() }
    }

    /// Whatever the store holds can be read.
    pub open spec fn whole(&self) -> bool {
        forall|i: int| 0 <= i < self.cols().len() ==> (#[trigger] self.cols()[i]).whole()
    }

    /// Every segment that `before` has is still in its place.
    pub open spec fn keeps_segments(&self, before: Self) -> bool {
        &&& self.cols().len() == before.cols().len()
        &&& forall|i: int|
            0 <= i < self.cols().len() ==> before.cols()[i].segs().len() <= (#[trigger] self.cols()[i]).segs().len()
                && self.cols()[i].segs().take(before.cols()[i].segs().len() as int) == before.cols()[i].segs()
    }

    /// Every column can take `n` more writes without failing.
    pub open spec fn roomy(&self, n: int) -> bool {
        forall|i: int| 0 <= i < self.cols().len() ==> (#[trigger] self.cols()[i]).roomy(n)
    }

    /// Writes `value` under `key` in column `col`, and notes a compaction
    /// request for the column if its memtable was sealed.
    fn write_column(&mut self, col: u8, key: Vec<u8>, value: Vec<u8>) -> (res: StoreResult<()>)
        requires
            old(self).wf(),
            (col as int) < old(self).cols().len(),
        ensures
            final(self).wf(),
            final(self).spec_layout() == old(self).spec_layout(),
            final(self).spec_progress() == old(self).spec_progress(),
            final(self).tables() == written(old(self).tables(), col as int, key@, value@),
            final(self).thresholds() == old(self).thresholds(),
            final(self).merging() == old(self).merging(),
            final(self).keeps_segments(*old(self)),
            old(self).whole() ==> final(self).whole(),
            res is Ok ==> final(self).physical() == one_write(
                old(self).physical(),
                old(self).thresholds(),
                (ColumnWrite { column: col as int, key: key@, value: value@ }),
            ),
            res is Err ==> final(self).shapes() == old(self).shapes().update(
                col as int,
                grown(old(self).shapes()[col as int], key@, value@),
            ) && final(self).pending_requests() == old(self).pending_requests(),
            res is Err <==> cannot_take(
                old(self).shapes()[col as int],
                old(self).thresholds()[col as int],
                key@,
                value@,
            ),
            extends(final(self).pending_requests(), old(self).pending_requests()),
            res matches Err(e) ==> e is InvalidInput,
            forall|n: int|
                n >= 1 && #[trigger] old(self).roomy(n) && value@.len() <= u32::MAX ==> res is Ok && final(self).roomy(
                    n - 1,
                ),
    {
        let c: usize = col as usize;
        let ghost before = self.columns@;
        let res = self.columns[c].insert(key, value);
        proof {
            assert(self.columns@ =~= before.update(c as int, self.columns@[c as int]));
            assert forall|i: int| 0 <= i < self.cols().len() implies (#[trigger] self.cols()[i]).wf()
                && self.cols()[i].col_id() == i by {
                if i != c {
                    assert(self.cols()[i] == before[i]);
                }
            }
            assert(self.tables() =~= written(old(self).tables(), col as int, key@, value@));
            assert(self.thresholds() =~= old(self).thresholds());
            assert(self.merging() =~= old(self).merging());
            assert(self.shapes() =~= old(self).shapes().update(c as int, self.cols()[c as int].shape()));
            assert forall|i: int| 0 <= i < self.cols().len() implies before[i].segs().len() <= (
            #[trigger] self.cols()[i]).segs().len() && self.cols()[i].segs().take(before[i].segs().len() as int)
                == before[i].segs() by {
                if i != c {
                    assert(self.cols()[i] == before[i]);
                    assert(before[i].segs().take(before[i].segs().len() as int) =~= before[i].segs());
                }
            }
            if old(self).whole() {
                assert forall|i: int| 0 <= i < self.cols().len() implies (#[trigger] self.cols()[i]).whole() by {
                    assert(before[i].whole());
                    if i != c {
                        assert(self.cols()[i] == before[i]);
                    }
                }
            }
            assert forall|n: int|
                n >= 1 && #[trigger] old(self).roomy(n) && value@.len() <= u32::MAX implies res is Ok && self.roomy(
                n - 1,
            ) by {
                assert(before[c as int].roomy(n));
                assert forall|i: int| 0 <= i < self.cols().len() implies (#[trigger] self.cols()[i]).roomy(n - 1) by {
                    if i != c {
                        assert(before[i].roomy(n));
                    }
                }
            }
        }
        let ghost waiting = self.compactor.pending();
        assert(waiting.take(waiting.len() as int) =~= waiting);
        match res {
            Ok(flushed) => {
                if flushed {
                    let noted = self.compactor.request(c);
                    assert(self.compactor.pending().take(waiting.len() as int) =~= waiting);
                    noted?;
                }
                Ok(())
            },
            Err(e) => Err(e),
        }
    }

    /// What `open` makes of the files, the layout and the options. A
    /// segment size of zero is refused before anything else is looked at, and
    /// then a layout that names a column that the store does not have. After
    /// that the first column that cannot be rebuilt gives the error.
    pub open spec fn open_outcome(
        res: StoreResult<Self>,
        files: Seq<SegmentFile>,
        layout: Layout,
        options: StoreOptions,
    ) -> bool {
        &&& options.segment_size == 0 ==> res is Err && res->Err_0 is InvalidInput
        &&& options.segment_size > 0 && !layout.fits() ==> res is Err && res->Err_0 is InvalidInput
        &&& match res {
            Ok(s) => {
                &&& s.wf()
                &&& options.segment_size > 0
                &&& s.spec_layout() == layout
                &&& s.spec_progress() is None
                &&& s.pending_requests().len() == 0
                &&& forall|i: int|
                    0 <= i < s.cols().len() ==> opened(#[trigger] s.cols()[i], files, i as u8, options.segment_size)
            },
            Err(e) => {
                ||| e is InvalidInput && options.segment_size == 0
                ||| e is InvalidInput && !layout.fits()
                ||| exists|i: int| 0 <= i < layout.columns() && #[trigger] fails_at(e, files, i)
            },
        }
    }

    /// Opens a store of the given layout from the files of its directory;
    /// an empty list of files gives an empty store. Each column is rebuilt
    /// from the segment files that carry its index. The files are taken to be
    /// files that a store wrote, whole or damaged: the checks tell of damage,
    /// and nothing can tell whether an image that passes them is an index.
    ///
    /// Fails with `InvalidInput` where `segment_size` is zero or the layout
    /// names a column that a store of its kind does not have, and as the
    /// rebuilding of a column fails.
    pub fn open(files: &Vec<SegmentFile>, layout: Layout, options: StoreOptions) -> (res: StoreResult<Self>)
        requires
            trusted_files(files@),
        ensures
            Self::open_outcome(res, files@, layout, options),
    {
        if options.segment_size == 0 {
            return Err(invalid_input("segment_size must be > 0"));
        }
        if !layout.check() {
            return Err(invalid_input("layout names a column that the store does not have"));
        }
        let count: usize = layout.column_count();
        let mut columns: Vec<Column> = Vec::new();
        let mut idx: usize = 0;
        while idx < count
            invariant
                0 <= idx <= count,
                count == layout.columns(),
                count <= 4,
                columns@.len() == idx,
                options.segment_size > 0,
                layout.fits(),
                trusted_files(files@),
                forall|c: int| 0 <= c < idx ==> #[trigger] opens(files@, c as u8),
                forall|i: int| 0 <= i < idx ==> opened(#[trigger] columns@[i], files@, i as u8, options.segment_size),
            decreases count - idx,
        {
            match Column::open(files, idx as u8, options.segment_size) {
                Ok(c) => {
                    columns.push(c);
                },
                Err(e) => {
                    assert(fails_at(e, files@, idx as int));
                    return Err(e);
                },
            }
            idx += 1;
        }
        Ok(Store { layout, columns, compactor: Compactor::new(), progress: None, _ph: PhantomData })
    }

    /// The store's layout.
    pub fn layout(&self) -> (l: Layout)
        ensures
            l == self.spec_layout(),
    {
        self.layout
    }

    /// The number of columns.
    pub fn column_count(&self) -> (n: usize)
        ensures
            n == self.cols().len(),
    {
        self.columns.len()
    }

    /// The column with index `i`.
    pub fn column(&self, i: usize) -> (c: &Column)
        requires
            i < self.cols().len(),
        ensures
            *c == self.cols()[i as int],
    {
        &self.columns[i]
    }

    /// Installs a progress counter with the given label and expected total.
    pub fn set_progress(&mut self, label: &str, total: u64)
        ensures
            final(self).spec_layout() == old(self).spec_layout(),
            final(self).cols() == old(self).cols(),
            final(self).pending_requests() == old(self).pending_requests(),
            final(self).spec_progress() matches Some(p) && p.spec_label() == label@ && p.spec_total() == total
                && p.spec_inserted() == 0 && p.spec_last_report() == 0,
    {
        self.progress = Some(ProgressTracker::new(String::from_str(label), total));
    }

    /// Asks the progress counter whether a report is due `now` seconds after
    /// it was installed; `None` too where no counter is installed.
    pub fn poll_progress(&mut self, now: u64) -> (res: Option<ProgressReport>)
        ensures
            final(self).spec_layout() == old(self).spec_layout(),
            final(self).cols() == old(self).cols(),
            final(self).pending_requests() == old(self).pending_requests(),
            match old(self).spec_progress() {
                None => res is None && final(self).spec_progress() is None,
                Some(p) => {
                    &&& final(self).spec_progress() matches Some(q) && q.spec_inserted() == p.spec_inserted()
                        && q.spec_total() == p.spec_total() && q.spec_label() == p.spec_label()
                    &&& res is Some <==> now >= p.spec_last_report() + REPORT_INTERVAL_SECS
                    &&& res matches Some(r) ==> r.inserted == p.spec_inserted() && r.total == p.spec_total()
                    &&& final(self).spec_progress()->0.spec_last_report() == (if res is Some {
                        now
                    } else {
                        p.spec_last_report()
                    })
                },
            },
    {
        match &mut self.progress {
            Some(p) => p.poll(now),
            None => None,
        }
    }

    /// The progress counter, if one is installed.
    pub fn progress(&self) -> (p: &Option<ProgressTracker>)
        ensures
            *p == self.spec_progress(),
    {
        &self.progress
    }

    /// Seals the memtable of every column. What the store holds stays as it
    /// was; afterwards every memtable is empty, and a column has a segment
    /// exactly if it had one before or had anything in its memtable.
    pub fn flush(&mut self) -> (res: StoreResult<()>)
        requires
            old(self).wf(),
        ensures
            final(self).wf(),
            final(self).spec_layout() == old(self).spec_layout(),
            final(self).spec_progress() == old(self).spec_progress(),
            final(self).pending_requests() == old(self).pending_requests(),
            final(self).tables() == old(self).tables(),
            final(self).thresholds() == old(self).thresholds(),
            final(self).merging() == old(self).merging(),
            res is Ok ==> forall|i: int|
                0 <= i < final(self).cols().len() ==> {
                    &&& (#[trigger] final(self).cols()[i]).pending().len() == 0
                    &&& final(self).cols()[i].segs().len() > 0 <==> old(self).cols()[i].touched()
                    &&& seals(old(self).cols()[i], final(self).cols()[i].segs(), final(self).cols()[i].next_id() as int)
                },
            res matches Err(e) ==> e is InvalidInput && exists|i: int| #[trigger] flush_stopped(*old(self), *final(self), i),
            (forall|i: int|
                0 <= i < old(self).cols().len() ==> (#[trigger] old(self).cols()[i]).pending().len() == 0 || old(
                    self,
                ).cols()[i].sealable()) ==> res is Ok,
    {
        let mut i: usize = 0;
        while i < self.columns.len()
            invariant
                0 <= i <= self.columns@.len(),
                self.wf(),
                self.layout == old(self).layout,
                self.progress == old(self).progress,
                self.compactor == old(self).compactor,
                self.columns@.len() == old(self).columns@.len(),
                self.tables() == old(self).tables(),
                self.thresholds() == old(self).thresholds(),
                self.merging() == old(self).merging(),
                forall|j: int| i <= j < self.columns@.len() ==> (#[trigger] self.columns@[j]) == old(self).columns@[j],
                forall|j: int|
                    0 <= j < i ==> {
                        &&& (#[trigger] self.cols()[j]).pending().len() == 0
                        &&& self.cols()[j].segs().len() > 0 <==> old(self).cols()[j].touched()
                        &&& seals(old(self).cols()[j], self.cols()[j].segs(), self.cols()[j].next_id() as int)
                    },
            decreases self.columns@.len() - i,
        {
            let ghost before = self.columns@;
            let res = self.columns[i].flush();
            proof {
                assert(self.columns@ =~= before.update(i as int, self.columns@[i as int]));
                lemma_view_same(before[i as int], self.columns@[i as int]);
                assert(self.tables() =~= old(self).tables());
                assert(self.thresholds() =~= old(self).thresholds());
                assert(self.merging() =~= old(self).merging());
                assert forall|j: int| 0 <= j < self.cols().len() implies (#[trigger] self.cols()[j]).wf()
                    && self.cols()[j].col_id() == j by {
                    if j != i {
                        assert(self.cols()[j] == before[j]);
                    }
                }
            }
            match res {
                Ok(()) => {},
                Err(e) => {
                    assert(old(self).cols()[i as int].pending().len() > 0);
                    assert(flush_stopped(*old(self), *self, i as int)) by {
                        assert forall|j: int| 0 <= j < i implies (#[trigger] self.cols()[j]).pending().len() == 0
                            && seals(old(self).cols()[j], self.cols()[j].segs(), self.cols()[j].next_id() as int) by {
                            assert(self.cols()[j] == before[j]);
                        }
                        assert forall|j: int| i < j < self.cols().len() implies (#[trigger] self.cols()[j]) == old(
                            self,
                        ).cols()[j] by {
                            assert(self.cols()[j] == before[j]);
                        }
                    }
                    return Err(e);
                },
            }
            proof {
                assert forall|j: int| 0 <= j < i + 1 implies {
                    &&& (#[trigger] self.cols()[j]).pending().len() == 0
                    &&& self.cols()[j].segs().len() > 0 <==> old(self).cols()[j].touched()
                    &&& seals(old(self).cols()[j], self.cols()[j].segs(), self.cols()[j].next_id() as int)
                } by {
                    if j < i {
                        assert(self.cols()[j] == before[j]);
                    }
                }
            }
            i += 1;
        }
        Ok(())
    }

    /// Compacts every column fully, down to one segment at most. What the
    /// store holds stays as it was.
    pub fn multi_way_merge(&mut self) -> (res: StoreResult<()>)
        requires
            old(self).wf(),
        ensures
            final(self).wf(),
            final(self).spec_layout() == old(self).spec_layout(),
            final(self).spec_progress() == old(self).spec_progress(),
            final(self).pending_requests() == old(self).pending_requests(),
            final(self).tables() == old(self).tables(),
            final(self).thresholds() == old(self).thresholds(),
            final(self).merging() == old(self).merging(),
            res is Ok ==> forall|i: int|
                0 <= i < final(self).cols().len() ==> {
                    &&& (#[trigger] final(self).cols()[i]).pending().len() == 0
                    &&& final(self).cols()[i].segs().len() <= 1
                    &&& compacted(
                        old(self).cols()[i],
                        final(self).cols()[i].segs(),
                        final(self).cols()[i].next_id() as int,
                    )
                },
            res matches Err(e) ==> exists|i: int| #[trigger] merge_stopped(*old(self), *final(self), i, e),
            res is Ok <==> forall|i: int| 0 <= i < old(self).cols().len() ==> (#[trigger] old(self).cols()[i]).mergeable(),
    {
        let mut i: usize = 0;
        while i < self.columns.len()
            invariant
                0 <= i <= self.columns@.len(),
                self.wf(),
                self.layout == old(self).layout,
                self.progress == old(self).progress,
                self.compactor == old(self).compactor,
                self.columns@.len() == old(self).columns@.len(),
                self.tables() == old(self).tables(),
                self.thresholds() == old(self).thresholds(),
                self.merging() == old(self).merging(),
                forall|j: int| i <= j < self.columns@.len() ==> (#[trigger] self.columns@[j]) == old(self).columns@[j],
                forall|j: int|
                    0 <= j < i ==> (#[trigger] self.cols()[j]).pending().len() == 0 && self.cols()[j].segs().len() <= 1
                        && compacted(old(self).cols()[j], self.cols()[j].segs(), self.cols()[j].next_id() as int),
                forall|j: int| 0 <= j < i ==> (#[trigger] old(self).cols()[j]).mergeable(),
            decreases self.columns@.len() - i,
        {
            let ghost before = self.columns@;
            let res = self.columns[i].multi_way_merge();
            proof {
                assert(self.columns@ =~= before.update(i as int, self.columns@[i as int]));
                lemma_view_same(before[i as int], self.columns@[i as int]);
                assert(self.tables() =~= old(self).tables());
                assert(self.thresholds() =~= old(self).thresholds());
                assert(self.merging() =~= old(self).merging());
                assert forall|j: int| 0 <= j < self.cols().len() implies (#[trigger] self.cols()[j]).wf()
                    && self.cols()[j].col_id() == j by {
                    if j != i {
                        assert(self.cols()[j] == before[j]);
                    }
                }
            }
            match res {
                Ok(()) => {},
                Err(e) => {
                    assert(!old(self).cols()[i as int].mergeable());
                    assert(merge_stopped(*old(self), *self, i as int, e)) by {
                        assert forall|j: int| 0 <= j < i implies (#[trigger] self.cols()[j]).pending().len() == 0
                            && compacted(
                            old(self).cols()[j],
                            self.cols()[j].segs(),
                            self.cols()[j].next_id() as int,
                        ) by {
                            assert(self.cols()[j] == before[j]);
                        }
                        assert forall|j: int| i < j < self.cols().len() implies (#[trigger] self.cols()[j]) == old(
                            self,
                        ).cols()[j] by {
                            assert(self.cols()[j] == before[j]);
                        }
                    }
                    return Err(e);
                },
            }
            proof {
                assert forall|j: int| 0 <= j < i + 1 implies (#[trigger] self.cols()[j]).pending().len() == 0
                    && self.cols()[j].segs().len() <= 1 && compacted(
                    old(self).cols()[j],
                    self.cols()[j].segs(),
                    self.cols()[j].next_id() as int,
                ) by {
                    if j < i {
                        assert(self.cols()[j] == before[j]);
                    }
                }
            }
            i += 1;
        }
        Ok(())
    }

    /// Reads what column `col` holds for `key`.
    fn read_column(&self, col: u8, key: &[u8]) -> (res: StoreResult<Option<Vec<u8>>>)
        requires
            self.wf(),
            (col as int) < self.cols().len(),
        ensures
            match res {
                Ok(None) => at(self.tables()[col as int], key@) is None,
                Ok(Some(v)) => at(self.tables()[col as int], key@) == Some(Some(v@)),
                Err(e) => e is Io && at(self.tables()[col as int], key@) == Some(None::<Seq<u8>>),
            },
            self.roomy(0) ==> (res matches Ok(Some(v)) ==> v@.len() <= u32::MAX),
    {
        assert(self.cols()[col as int].wf());
        self.columns[col as usize].get(key)
    }

    /// The value bound to `key`, if there is one.
    ///
    /// Fails with `Io` where the store holds the key but its value cannot be
    /// read, and with `InvalidInput` where the stored bytes are no value.
    pub fn get_value(&self, key: &K) -> (res: StoreResult<Option<V>>)
        requires
            self.wf(),
        ensures
            match res {
                Ok(None) => value_of(self.spec_layout(), self.tables(), KC::encoded(key)) is None,
                Ok(Some(v)) => value_of(self.spec_layout(), self.tables(), KC::encoded(key)) == Some(
                    Some(VC::encoded(&v)),
                ),
                Err(e) => match value_of(self.spec_layout(), self.tables(), KC::encoded(key)) {
                    Some(Some(bytes)) => e is InvalidInput && !VC::decodable(bytes),
                    Some(None) => e is Io,
                    None => false,
                },
            },
    {
        let kbytes: Vec<u8> = KC::encode(key);
        let found: Option<Vec<u8>> = match self.layout {
            Layout::Plain { key_to_value } => self.read_column(key_to_value, kbytes.as_slice())?,
            Layout::UniqueIndex { key_to_value, .. } => self.read_column(key_to_value, kbytes.as_slice())?,
            Layout::Range { key_to_value, .. } => self.read_column(key_to_value, kbytes.as_slice())?,
            Layout::Dictionary { key_to_birth_key, birth_key_to_value, .. } => {
                match self.read_column(key_to_birth_key, kbytes.as_slice())? {
                    Some(pk) => self.read_column(birth_key_to_value, pk.as_slice())?,
                    None => None,
                }
            },
        };
        match found {
            None => Ok(None),
            Some(bytes) => match VC::decode(bytes.as_slice()) {
                Ok(v) => Ok(Some(v)),
                Err(e) => Err(e),
            },
        }
    }

    /// The key bound to `value` in a store of the unique-index layout.
    ///
    /// Fails with `InvalidInput` in any other layout or where the stored
    /// bytes are no key, and with `Io` where the key cannot be read.
    pub fn get_key_for_value(&self, value: &V) -> (res: StoreResult<Option<K>>)
        requires
            self.wf(),
        ensures
            match self.spec_layout() {
                Layout::UniqueIndex { value_to_key, .. } => match res {
                    Ok(None) => at(self.tables()[value_to_key as int], VC::encoded(value)) is None,
                    Ok(Some(k)) => at(self.tables()[value_to_key as int], VC::encoded(value)) == Some(
                        Some(KC::encoded(&k)),
                    ),
                    Err(e) => match at(self.tables()[value_to_key as int], VC::encoded(value)) {
                        Some(Some(bytes)) => e is InvalidInput && !KC::decodable(bytes),
                        Some(None) => e is Io,
                        None => false,
                    },
                },
                _ => res matches Err(e) && e is InvalidInput,
            },
    {
        let vbytes: Vec<u8> = VC::encode(value);
        match self.layout {
            Layout::UniqueIndex { value_to_key, .. } => {
                match self.read_column(value_to_key, vbytes.as_slice())? {
                    None => Ok(None),
                    Some(bytes) => match KC::decode(bytes.as_slice()) {
                        Ok(k) => Ok(Some(k)),
                        Err(e) => Err(e),
                    },
                }
            },
            _ => Err(invalid_input("get_key_for_value not supported for this layout")),
        }
    }

    /// Scans column `col` for the entries that start with `prefix` and
    /// decodes what follows the prefix in each.
    fn keys_under(&self, col: u8, prefix: &[u8]) -> (res: StoreResult<Vec<K>>)
        requires
            self.wf(),
            (col as int) < self.cols().len(),
        ensures
            scan_result::<K, KC>(res, self.tables()[col as int], prefix@),
    {
        assert(self.cols()[col as int].wf());
        let ghost t = self.tables()[col as int];
        let keys: Vec<Vec<u8>> = match self.columns[col as usize].keys_with_prefix(prefix) {
            Ok(keys) => keys,
            Err(e) => {
                assert(false);
                return Err(e);
            },
        };
        let mut out: Vec<K> = Vec::new();
        let mut j: usize = 0;
        while j < keys.len()
            invariant
                0 <= j <= keys@.len(),
                out@.len() == j,
                t == self.tables()[col as int],
                t == self.cols()[col as int]@,
                forall|x: Seq<u8>|
                    (exists|i: int| 0 <= i < keys@.len() && #[trigger] keys@[i]@ == x) <==> (#[trigger] self.cols()[col as int].slot(
                        x,
                    )) is Some && is_prefix(prefix@, x),
                forall|i: int| 0 <= i < j ==> prefix@ + KC::encoded(&#[trigger] out@[i]) == keys@[i]@,
            decreases keys@.len() - j,
        {
            let k: &Vec<u8> = &keys[j];
            proof {
                assert(keys@[j as int]@ == k@);
                assert(self.cols()[col as int].slot(k@) is Some && is_prefix(prefix@, k@));
                assert(prefix@ + k@.skip(prefix@.len() as int) =~= k@);
            }
            if k.len() >= prefix.len() {
                let suffix: &[u8] = vstd::slice::slice_subrange(k.as_slice(), prefix.len(), k.len());
                assert(suffix@ =~= k@.skip(prefix@.len() as int));
                match KC::decode(suffix) {
                    Ok(key) => {
                        out.push(key);
                    },
                    Err(e) => {
                        assert(t.contains_key(k@));
                        return Err(e);
                    },
                }
            }
            j += 1;
        }
        proof {
            let found = prefixed::<K, KC>(out@, prefix@);
            assert(found =~= views(keys@));
            assert forall|i: int| 0 <= i < out@.len() implies t.contains_key(#[trigger] found[i]) && is_prefix(
                prefix@,
                found[i],
            ) by {
                assert(keys@[i]@ == found[i]);
                assert(self.cols()[col as int].slot(found[i]) is Some && is_prefix(prefix@, found[i]));
            }
            assert forall|x: Seq<u8>| #[trigger] t.contains_key(x) && is_prefix(prefix@, x) implies exists|i: int|
                0 <= i < out@.len() && #[trigger] found[i] == x by {
                assert(self.cols()[col as int].slot(x) is Some);
                let i = choose|i: int| 0 <= i < keys@.len() && #[trigger] keys@[i]@ == x;
                assert(found[i] == x);
            }
        }
        Ok(out)
    }

    /// The keys bound to `value`, in the ascending order of their encodings:
    /// in the range layout every key that was written with the value, in the
    /// dictionary layout every key filed under the value's birth key.
    ///
    /// Fails with `InvalidInput` in the other layouts or where stored bytes
    /// are no key, and with `Io` where the value's birth key cannot be read.
    pub fn get_keys_for_value(&self, value: &V) -> (res: StoreResult<Vec<K>>)
        requires
            self.wf(),
        ensures
            match self.spec_layout() {
                Layout::Range { value_key_btree, .. } => scan_result::<K, KC>(
                    res,
                    self.tables()[value_key_btree as int],
                    VC::encoded(value),
                ),
                Layout::Dictionary { value_to_birth_key, birth_key_key_btree, .. } => match at(
                    self.tables()[value_to_birth_key as int],
                    VC::encoded(value),
                ) {
                    Some(Some(pk)) => scan_result::<K, KC>(res, self.tables()[birth_key_key_btree as int], pk),
                    Some(None) => res matches Err(e) && e is Io,
                    None => res matches Ok(out) && out@.len() == 0,
                },
                _ => res matches Err(e) && e is InvalidInput,
            },
    {
        let vbytes: Vec<u8> = VC::encode(value);
        match self.layout {
            Layout::Range { value_key_btree, .. } => self.keys_under(value_key_btree, vbytes.as_slice()),
            Layout::Dictionary { value_to_birth_key, birth_key_key_btree, .. } => {
                match self.read_column(value_to_birth_key, vbytes.as_slice())? {
                    Some(pk) => self.keys_under(birth_key_key_btree, pk.as_slice()),
                    None => Ok(Vec::new()),
                }
            },
            _ => Err(invalid_input("get_keys_for_value not supported for this layout")),
        }
    }

    /// A store keeps its own segments.
    proof fn lemma_keeps_itself(a: Self)
        ensures
            a.keeps_segments(a),
    {
        assert forall|i: int| 0 <= i < a.cols().len() implies (#[trigger] a.cols()[i]).segs().take(
            a.cols()[i].segs().len() as int,
        ) == a.cols()[i].segs() by {
            assert(a.cols()[i].segs().take(a.cols()[i].segs().len() as int) =~= a.cols()[i].segs());
        }
    }

    /// A store that keeps the segments of a store that keeps those of a
    /// third keeps those of the third.
    proof fn lemma_keeps_chain(a: Self, b: Self, c: Self)
        requires
            b.keeps_segments(a),
            c.keeps_segments(b),
        ensures
            c.keeps_segments(a),
    {
        assert forall|i: int| 0 <= i < c.cols().len() implies a.cols()[i].segs().len() <= (#[trigger] c.cols()[i]).segs().len()
            && c.cols()[i].segs().take(a.cols()[i].segs().len() as int) == a.cols()[i].segs() by {
            assert(b.cols()[i].segs().len() <= c.cols()[i].segs().len());
            assert(a.cols()[i].segs().len() <= b.cols()[i].segs().len());
            let n = a.cols()[i].segs().len() as int;
            let m = b.cols()[i].segs().len() as int;
            assert(c.cols()[i].segs().take(n) =~= c.cols()[i].segs().take(m).take(n));
        }
    }

    /// Writing a value that the cache does not hold as known into the table
    /// of birth keys leaves the cache in agreement with the table.
    proof fn lemma_cache_kept(cache: BirthCache, before: Table, after: Table, value: Seq<u8>, pk: Seq<u8>)
        requires
            cache.agrees(before),
            after == before.insert(value, Some(pk)),
            cache.fresh@.contains_key(value) || !before.contains_key(value),
        ensures
            cache.agrees(after),
    {
        assert forall|x: Seq<u8>| #[trigger] cache.known@.contains_key(x) implies !cache.fresh@.contains_key(x) && at(
            after,
            x,
        ) == Some(Some(cache.known@[x])) by {
            assert(at(before, x) == Some(Some(cache.known@[x])));
        }
    }

    /// Writes one entry into the columns that the layout gives it, and says
    /// how many logical entries that was.
    #[verifier::rlimit(60)]
    #[verifier::spinoff_prover]
    fn put_entry(&mut self, cache: &mut BirthCache, kb: Vec<u8>, vb: Vec<u8>) -> (res: StoreResult<u64>)
        requires
            old(self).wf(),
            old(cache).wf(),
            old(self).spec_layout() matches Layout::Dictionary { value_to_birth_key, .. } ==> old(cache).agrees(
                old(self).tables()[value_to_birth_key as int],
            ),
        ensures
            final(self).wf(),
            final(cache).wf(),
            final(self).spec_layout() == old(self).spec_layout(),
            final(self).spec_progress() == old(self).spec_progress(),
            final(self).thresholds() == old(self).thresholds(),
            final(self).merging() == old(self).merging(),
            final(self).keeps_segments(*old(self)),
            old(self).whole() ==> final(self).whole(),
            extends(final(self).pending_requests(), old(self).pending_requests()),
            final(self).spec_layout() matches Layout::Dictionary { value_to_birth_key, .. } ==> final(cache).agrees(
                final(self).tables()[value_to_birth_key as int],
            ),
            res is Ok <==> {
                let s0 = CommitState { tables: old(self).tables(), fresh: old(cache).fresh@ };
                &&& !blocked(old(self).spec_layout(), s0, vb@)
                &&& writes_go(
                    old(self).physical(),
                    old(self).thresholds(),
                    writes_of(old(self).spec_layout(), s0, kb@, vb@),
                )
            },
            res matches Ok(w) ==> {
                let s0 = CommitState { tables: old(self).tables(), fresh: old(cache).fresh@ };
                &&& final(self).tables() == put(old(self).spec_layout(), s0, kb@, vb@).tables
                &&& final(cache).fresh@ == put(old(self).spec_layout(), s0, kb@, vb@).fresh
                &&& w == weight(old(self).spec_layout(), s0, vb@)
                &&& final(self).physical() == after_physical(
                    old(self).physical(),
                    old(self).thresholds(),
                    writes_of(old(self).spec_layout(), s0, kb@, vb@),
                )
            },
            res matches Err(e) ==> {
                let s0 = CommitState { tables: old(self).tables(), fresh: old(cache).fresh@ };
                if blocked(old(self).spec_layout(), s0, vb@) {
                    e is Io && final(self).tables() == old(self).tables() && final(self).physical() == old(
                        self,
                    ).physical()
                } else {
                    e is InvalidInput && stopped_within(
                        old(self).spec_layout(),
                        s0,
                        old(self).physical(),
                        old(self).thresholds(),
                        kb@,
                        vb@,
                        final(self).tables(),
                        final(self).physical(),
                    )
                }
            },
            forall|n: int|
                n >= 4 && #[trigger] old(self).roomy(n) && old(cache).short() && kb@.len() <= u32::MAX && vb@.len()
                    <= u32::MAX ==> final(cache).short() && final(self).roomy(n - 4) && (res is Ok || blocked(
                    old(self).spec_layout(),
                    CommitState { tables: old(self).tables(), fresh: old(cache).fresh@ },
                    vb@,
                )),
    {
        let ghost t0 = self.tables();
        let ghost r0 = self.compactor.pending();
        let ghost p0 = self.physical();
        let ghost th = self.thresholds();
        let ghost k = kb@;
        let ghost v = vb@;
        let ghost s0 = CommitState { tables: t0, fresh: cache.fresh@ };
        let ghost ws = writes_of(self.layout, s0, k, v);
        proof {
            assert(r0.take(r0.len() as int) =~= r0);
            Self::lemma_keeps_itself(*self);
            assert(ws.take(0) =~= Seq::<ColumnWrite>::empty());
        }
        match self.layout {
            Layout::Plain { key_to_value } => {
                let first = self.write_column(key_to_value, kb, vb);
                proof {
                    lemma_after_writes(t0, ws.take(1));
                    assert(self.tables() == partly_put(self.layout, s0, k, v, 1));
                    lemma_wrote(p0, th, ws, 0, p0, self.physical(), first is Err);
                    if first is Err {
                        assert(stopped_after(self.layout, s0, p0, th, k, v, 0, self.tables(), self.physical()));
                    }
                    assert(ws.take(1) =~= ws);
                }
                first?;
                Ok(1)
            },
            Layout::UniqueIndex { key_to_value, value_to_key } => {
                let k2: Vec<u8> = copy_bytes(kb.as_slice());
                let v2: Vec<u8> = copy_bytes(vb.as_slice());
                let first = self.write_column(key_to_value, kb, vb);
                proof {
                    lemma_after_writes(t0, ws.take(1));
                    assert(self.tables() == partly_put(self.layout, s0, k, v, 1));
                    lemma_wrote(p0, th, ws, 0, p0, self.physical(), first is Err);
                    if first is Err {
                        assert(stopped_after(self.layout, s0, p0, th, k, v, 0, self.tables(), self.physical()));
                    }
                }
                first?;
                let ghost r1 = self.compactor.pending();
                let ghost m1 = *self;
                let second = self.write_column(value_to_key, v2, k2);
                proof {
                    lemma_extends_chain(self.compactor.pending(), r1, r0);
                    Self::lemma_keeps_chain(*old(self), m1, *self);
                    lemma_after_writes(t0, ws.take(2));
                    assert(self.tables() == partly_put(self.layout, s0, k, v, 2));
                    lemma_wrote(p0, th, ws, 1, m1.physical(), self.physical(), second is Err);
                    if second is Err {
                        assert(stopped_after(self.layout, s0, p0, th, k, v, 1, self.tables(), self.physical()));
                    }
                    assert(ws.take(2) =~= ws);
                }
                second?;
                Ok(2)
            },
            Layout::Range { key_to_value, value_key_btree } => {
                let vk: Vec<u8> = crate::bytes::concat(vb.as_slice(), kb.as_slice());
                let first = self.write_column(key_to_value, kb, vb);
                proof {
                    lemma_after_writes(t0, ws.take(1));
                    assert(self.tables() == partly_put(self.layout, s0, k, v, 1));
                    lemma_wrote(p0, th, ws, 0, p0, self.physical(), first is Err);
                    if first is Err {
                        assert(stopped_after(self.layout, s0, p0, th, k, v, 0, self.tables(), self.physical()));
                    }
                }
                first?;
                let ghost r1 = self.compactor.pending();
                let ghost m1 = *self;
                let second = self.write_column(value_key_btree, vk, Vec::new());
                proof {
                    lemma_extends_chain(self.compactor.pending(), r1, r0);
                    Self::lemma_keeps_chain(*old(self), m1, *self);
                    lemma_after_writes(t0, ws.take(2));
                    assert(self.tables() == partly_put(self.layout, s0, k, v, 2));
                    lemma_wrote(p0, th, ws, 1, m1.physical(), self.physical(), second is Err);
                    if second is Err {
                        assert(stopped_after(self.layout, s0, p0, th, k, v, 1, self.tables(), self.physical()));
                    }
                    assert(ws.take(2) =~= ws);
                }
                second?;
                Ok(2)
            },
            Layout::Dictionary { key_to_birth_key, birth_key_to_value, value_to_birth_key, birth_key_key_btree } => {
                let ghost known_table = t0[value_to_birth_key as int];
                let ghost fresh0 = cache.fresh@;
                let hit: Option<Vec<u8>> = match cache.fresh.get(vb.as_slice()) {
                    Some(p) => Some(copy_bytes(p.as_slice())),
                    None => None,
                };
                let (pk, is_new): (Vec<u8>, bool) = match hit {
                    Some(p) => (p, true),
                    None => {
                        let seen: Option<Vec<u8>> = match cache.known.get(vb.as_slice()) {
                            Some(p) => Some(copy_bytes(p.as_slice())),
                            None => None,
                        };
                        match seen {
                            Some(p) => (p, false),
                            None => match self.read_column(value_to_birth_key, vb.as_slice()) {
                                Err(e) => {
                                    return Err(e);
                                },
                                Ok(Some(p)) => {
                                    cache.known.insert(copy_bytes(vb.as_slice()), copy_bytes(p.as_slice()));
                                    (p, false)
                                },
                                Ok(None) => {
                                    cache.fresh.insert(copy_bytes(vb.as_slice()), copy_bytes(kb.as_slice()));
                                    (copy_bytes(kb.as_slice()), true)
                                },
                            },
                        }
                    },
                };
                let ghost s1 = put(self.layout, s0, k, v);
                assert(pk@ == crate::model::birth_key(known_table, fresh0, k, v));
                assert(is_new == (fresh0.contains_key(v) || !known_table.contains_key(v)));
                assert(cache.fresh@ =~= s1.fresh);
                assert(cache.agrees(known_table));
                assert(!blocked(self.layout, s0, v));
                let pk_key: Vec<u8> = crate::bytes::concat(pk.as_slice(), kb.as_slice());
                let mut weight: u64 = 2;
                let ghost mut made: int = 0;
                if is_new {
                    weight = 4;
                    let first = self.write_column(
                        value_to_birth_key,
                        copy_bytes(vb.as_slice()),
                        copy_bytes(pk.as_slice()),
                    );
                    proof {
                        Self::lemma_cache_kept(*cache, known_table, self.tables()[value_to_birth_key as int], v, pk@);
                        lemma_after_writes(t0, ws.take(1));
                        assert(self.tables() == partly_put(self.layout, s0, k, v, 1));
                        lemma_wrote(p0, th, ws, 0, p0, self.physical(), first is Err);
                        if first is Err {
                            assert(stopped_after(self.layout, s0, p0, th, k, v, 0, self.tables(), self.physical()));
                        }
                    }
                    first?;
                    let ghost r1 = self.compactor.pending();
                    let ghost m1 = *self;
                    let second = self.write_column(birth_key_to_value, copy_bytes(pk.as_slice()), vb);
                    proof {
                        lemma_extends_chain(self.compactor.pending(), r1, r0);
                        Self::lemma_keeps_chain(*old(self), m1, *self);
                        lemma_after_writes(t0, ws.take(2));
                        assert(self.tables() == partly_put(self.layout, s0, k, v, 2));
                        lemma_wrote(p0, th, ws, 1, m1.physical(), self.physical(), second is Err);
                        if second is Err {
                            assert(stopped_after(self.layout, s0, p0, th, k, v, 1, self.tables(), self.physical()));
                        }
                        made = 2;
                    }
                    second?;
                }
                let ghost r2 = self.compactor.pending();
                let ghost m2 = *self;
                let third = self.write_column(key_to_birth_key, kb, pk);
                proof {
                    lemma_extends_chain(self.compactor.pending(), r2, r0);
                    Self::lemma_keeps_chain(*old(self), m2, *self);
                    lemma_after_writes(t0, ws.take(made));
                    lemma_after_writes(t0, ws.take(made + 1));
                    assert(self.tables() == partly_put(self.layout, s0, k, v, made + 1));
                    lemma_wrote(p0, th, ws, made, m2.physical(), self.physical(), third is Err);
                    if third is Err {
                        assert(stopped_after(self.layout, s0, p0, th, k, v, made, self.tables(), self.physical()));
                    }
                }
                third?;
                let ghost r3 = self.compactor.pending();
                let ghost m3 = *self;
                let fourth = self.write_column(birth_key_key_btree, pk_key, Vec::new());
                proof {
                    lemma_extends_chain(self.compactor.pending(), r3, r0);
                    Self::lemma_keeps_chain(*old(self), m3, *self);
                    lemma_after_writes(t0, ws.take(made + 2));
                    assert(self.tables() == partly_put(self.layout, s0, k, v, made + 2));
                    assert(self.tables() =~= s1.tables);
                    lemma_wrote(p0, th, ws, made + 1, m3.physical(), self.physical(), fourth is Err);
                    if fourth is Err {
                        assert(stopped_after(self.layout, s0, p0, th, k, v, made + 1, self.tables(), self.physical()));
                    }
                    assert(ws.take(made + 2) =~= ws);
                }
                fourth?;
                Ok(weight)
            },
        }
    }

    /// Writes a batch of entries in order, each into the columns that the
    /// layout gives it; of two entries with one key the later wins. Columns
    /// whose memtable was sealed on the way are noted for compaction, and the
    /// progress counter, if there is one, takes the number of logical entries.
    ///
    /// Fails with `InvalidInput` where a memtable cannot be sealed, and with
    /// `Io` where the dictionary layout cannot read the birth key of a value.
    /// The entries before the failing one stay written. Of the failing one
    /// nothing is written after an `Io` error; after `InvalidInput` its
    /// writes up to the failing one are made, and that one has left its row
    /// in the memtable that could not be sealed. A merge that is under way
    /// in a column goes on.
    #[verifier::rlimit(60)]
    #[verifier::spinoff_prover]
    pub fn commit(&mut self, items: &[(&K, &V)]) -> (res: StoreResult<()>)
        requires
            old(self).wf(),
        ensures
            final(self).wf(),
            final(self).spec_layout() == old(self).spec_layout(),
            final(self).thresholds() == old(self).thresholds(),
            final(self).merging() == old(self).merging(),
            final(self).keeps_segments(*old(self)),
            old(self).whole() ==> final(self).whole(),
            extends(final(self).pending_requests(), old(self).pending_requests()),
            res is Ok ==> final(self).tables() == apply(
                old(self).spec_layout(),
                start(old(self).tables()),
                encode_all::<K, V, KC, VC>(items@),
            ).tables,
            res is Ok ==> final(self).physical() == apply_physical(
                old(self).spec_layout(),
                start(old(self).tables()),
                old(self).physical(),
                old(self).thresholds(),
                encode_all::<K, V, KC, VC>(items@),
            ),
            res is Ok <==> goes(
                old(self).spec_layout(),
                start(old(self).tables()),
                old(self).physical(),
                old(self).thresholds(),
                encode_all::<K, V, KC, VC>(items@),
            ),
            res is Ok ==> forall|room: int|
                room >= 4 * items@.len() && #[trigger] old(self).roomy(room) && all_short(
                    encode_all::<K, V, KC, VC>(items@),
                ) ==> final(self).roomy(room - 4 * items@.len()),
            res is Ok ==> match (old(self).spec_progress(), final(self).spec_progress()) {
                (Some(p), Some(q)) => q.spec_label() == p.spec_label() && q.spec_total() == p.spec_total()
                    && q.spec_last_report() == p.spec_last_report() && q.spec_inserted() == counted(
                    p.spec_inserted(),
                    total_weight(old(self).spec_layout(), start(old(self).tables()), encode_all::<K, V, KC, VC>(items@)),
                ),
                (None, None) => true,
                _ => false,
            },
            res is Err ==> final(self).spec_progress() == old(self).spec_progress(),
            res matches Err(e) ==> exists|i: int| #[trigger]
                failed_at(
                    old(self).spec_layout(),
                    start(old(self).tables()),
                    old(self).physical(),
                    old(self).thresholds(),
                    encode_all::<K, V, KC, VC>(items@),
                    i,
                    e,
                    final(self).tables(),
                    final(self).physical(),
                ),
            res matches Err(e) ==> e is Io ==> any_blocked(
                old(self).spec_layout(),
                start(old(self).tables()),
                encode_all::<K, V, KC, VC>(items@),
            ),
            old(self).roomy(4 * (items@.len() as int)) && all_short(encode_all::<K, V, KC, VC>(items@)) && !any_blocked(
                old(self).spec_layout(),
                start(old(self).tables()),
                encode_all::<K, V, KC, VC>(items@),
            ) ==> res is Ok,
    {
        let ghost layout = self.layout;
        let ghost s0 = start(self.tables());
        let ghost enc = encode_all::<K, V, KC, VC>(items@);
        let n: usize = items.len();
        let mut cache = BirthCache { fresh: Memtable::new(), known: Memtable::new() };
        let mut processed: u64 = 0;
        let mut i: usize = 0;
        let ghost p0 = self.physical();
        let ghost th = self.thresholds();
        assert(enc.take(0) =~= Seq::<(Seq<u8>, Seq<u8>)>::empty());
        assert(self.compactor.pending().take(self.compactor.pending().len() as int) =~= self.compactor.pending());
        proof {
            Self::lemma_keeps_itself(*self);
        }
        while i < n
            invariant
                0 <= i <= n,
                n == items@.len(),
                p0 == old(self).physical(),
                th == old(self).thresholds(),
                self.thresholds() == th,
                self.merging() == old(self).merging(),
                self.keeps_segments(*old(self)),
                old(self).whole() ==> self.whole(),
                self.physical() == apply_physical(layout, s0, p0, th, enc.take(i as int)),
                goes(layout, s0, p0, th, enc.take(i as int)),
                forall|room: int|
                    room >= 4 * n && #[trigger] old(self).roomy(room) && all_short(enc) ==> self.roomy(room - 4 * i),
                enc == encode_all::<K, V, KC, VC>(items@),
                s0 == start(old(self).tables()),
                layout == old(self).spec_layout(),
                self.wf(),
                cache.wf(),
                self.spec_layout() == layout,
                self.spec_progress() == old(self).spec_progress(),
                extends(self.pending_requests(), old(self).pending_requests()),
                layout matches Layout::Dictionary { value_to_birth_key, .. } ==> cache.agrees(
                    self.tables()[value_to_birth_key as int],
                ),
                self.tables() == apply(layout, s0, enc.take(i as int)).tables,
                cache.fresh@ == apply(layout, s0, enc.take(i as int)).fresh,
                processed == counted(0, total_weight(layout, s0, enc.take(i as int))),
                old(self).roomy(4 * n) && all_short(enc) ==> self.roomy(4 * (n - i)) && cache.short(),
            decreases n - i,
        {
            let kb: Vec<u8> = KC::encode(items[i].0);
            let vb: Vec<u8> = VC::encode(items[i].1);
            let ghost before = apply(layout, s0, enc.take(i as int));
            let ghost noted = self.compactor.pending();
            let ghost entered = *self;
            proof {
                assert(enc.take(i + 1).drop_last() =~= enc.take(i as int));
                assert(enc.take(i + 1).last() == enc[i as int]);
                assert(enc[i as int] == (kb@, vb@));
                assert(before == (CommitState { tables: self.tables(), fresh: cache.fresh@ }));
                if old(self).roomy(4 * n) && all_short(enc) {
                    assert(self.roomy(4 * (n - i)));
                }
            }
            let outcome = self.put_entry(&mut cache, kb, vb);
            proof {
                lemma_extends_chain(self.compactor.pending(), noted, old(self).compactor.pending());
                Self::lemma_keeps_chain(*old(self), entered, *self);
                if old(self).roomy(4 * n) && all_short(enc) {
                    assert forall|room: int|
                        room >= 4 * n && #[trigger] old(self).roomy(room) && all_short(enc) implies self.roomy(
                        room - 4 * (i + 1),
                    ) by {
                        assert(entered.roomy(room - 4 * i));
                    }
                }
            }
            match outcome {
                Ok(w) => {
                    processed = processed.saturating_add(w);
                },
                Err(e) => {
                    proof {
                        if goes(layout, s0, p0, th, enc) {
                            lemma_goes_so_far(layout, s0, p0, th, enc, i + 1);
                        }
                        assert(failed_at(layout, s0, p0, th, enc, i as int, e, self.tables(), self.physical()));
                        if e is Io {
                            assert(blocked(layout, apply(layout, s0, enc.take(i as int)), enc[i as int].1));
                        }
                        if old(self).roomy(4 * n) && all_short(enc) && !any_blocked(layout, s0, enc) {
                            assert(!blocked(layout, apply(layout, s0, enc.take(i as int)), enc[i as int].1));
                        }
                    }
                    return Err(e);
                },
            }
            i += 1;
        }
        proof {
            assert(enc.take(n as int) =~= enc);
        }
        match &mut self.progress {
            Some(p) => {
                p.record(processed);
            },
            None => {},
        }
        Ok(())
    }

    /// Hands out the oldest compaction request that has not been handed out
    /// yet: the index of a column whose memtable was sealed by a commit.
    pub fn take_request(&mut self) -> (res: Option<usize>)
        requires
            old(self).wf(),
        ensures
            final(self).wf(),
            final(self).spec_layout() == old(self).spec_layout(),
            final(self).spec_progress() == old(self).spec_progress(),
            final(self).cols() == old(self).cols(),
            match res {
                Some(c) => {
                    &&& old(self).pending_requests().len() > 0
                    &&& c == old(self).pending_requests()[0]
                    &&& c < final(self).cols().len()
                    &&& final(self).pending_requests() == old(self).pending_requests().skip(1)
                },
                None => old(self).pending_requests().len() == 0 && final(self).pending_requests().len() == 0,
            },
    {
        let taken = self.compactor.take();
        proof {
            if taken is Some {
                assert(old(self).pending_requests()[0] < self.cols().len());
                assert forall|i: int| 0 <= i < self.pending_requests().len() implies (#[trigger] self.pending_requests()[i])
                    < self.cols().len() by {
                    assert(self.pending_requests()[i] == old(self).pending_requests()[i + 1]);
                }
            }
        }
        taken
    }

    /// The files that hold the segments of all columns: the files of the
    /// first column, then those of the second, and so on.
    pub fn files(&self) -> (res: Vec<SegmentFile>)
        requires
            self.wf(),
        ensures
            holds_files(self.cols(), self.cols().len() as int, res@),
            trusted_files(res@),
    {
        let mut out: Vec<SegmentFile> = Vec::new();
        let mut i: usize = 0;
        while i < self.columns.len()
            invariant
                self.wf(),
                0 <= i <= self.columns@.len(),
                holds_files(self.cols(), i as int, out@),
                trusted_files(out@),
            decreases self.columns@.len() - i,
        {
            assert(self.cols()[i as int].wf());
            let ghost before = out@;
            let mut part: Vec<SegmentFile> = self.columns[i].files();
            let ghost added = part@;
            out.append(&mut part);
            proof {
                assert(out@ == before + added);
                assert((before + added).subrange(0, before.len() as int) =~= before);
                assert((before + added).subrange(before.len() as int, (before + added).len() as int) =~= added);
                assert forall|t: int|
                    0 <= t < out@.len() && crate::names::is_suffix(
                        crate::names::index_suffix(),
                        (#[trigger] out@[t]).name@,
                    ) implies crate::index::trusted_image(out@[t].data@) by {
                    if t < before.len() {
                        assert(out@[t] == before[t]);
                    } else {
                        assert(out@[t] == added[t - before.len()]);
                    }
                }
            }
            i += 1;
        }
        out
    }

    /// A store that is opened from the files of a store has the segments of
    /// that store, column by column, and empty memtables. Where the memtables
    /// of that store were empty, as after `flush`, it holds what that store held.
    pub proof fn lemma_opened_again(first: Self, f: Seq<SegmentFile>, second: Self, options: StoreOptions)
        requires
            first.wf(),
            holds_files(first.cols(), first.cols().len() as int, f),
            Self::open_outcome(Ok(second), f, first.spec_layout(), options),
        ensures
            forall|i: int| 0 <= i < second.cols().len() ==> reopened(#[trigger] second.cols()[i], first.cols()[i]),
            (forall|i: int| 0 <= i < first.cols().len() ==> (#[trigger] first.cols()[i]).pending().len() == 0)
                ==> second.tables() == first.tables(),
    {
        lemma_store_files(first.cols(), first.cols().len() as int, f);
        assert forall|i: int| 0 <= i < second.cols().len() implies reopened(
            #[trigger] second.cols()[i],
            first.cols()[i],
        ) by {
            assert(holds_column(first.cols()[i], f));
            lemma_reopened(first.cols()[i], f, second.cols()[i], options.segment_size);
        }
        if forall|i: int| 0 <= i < first.cols().len() ==> (#[trigger] first.cols()[i]).pending().len() == 0 {
            assert forall|i: int| 0 <= i < second.cols().len() implies second.tables()[i] == first.tables()[i] by {
                assert(reopened(second.cols()[i], first.cols()[i]));
                assert(first.cols()[i].pending().len() == 0);
                assert(first.cols()[i].pending() =~= Seq::<(Seq<u8>, Seq<u8>)>::empty());
                assert(second.cols()[i].pending() =~= Seq::<(Seq<u8>, Seq<u8>)>::empty());
                lemma_view_same(first.cols()[i], second.cols()[i]);
            }
            assert(second.tables() =~= first.tables());
        }
    }

    /// Opening a store from the files of a store succeeds for any segment
    /// size but zero.
    pub proof fn lemma_opens_again(first: Self, f: Seq<SegmentFile>, res: StoreResult<Self>, options: StoreOptions)
        requires
            first.wf(),
            holds_files(first.cols(), first.cols().len() as int, f),
            Self::open_outcome(res, f, first.spec_layout(), options),
            options.segment_size > 0,
        ensures
            res is Ok,
    {
        lemma_store_files(first.cols(), first.cols().len() as int, f);
        if res is Err {
            let e = res->Err_0;
            let i = choose|i: int| 0 <= i < first.spec_layout().columns() && #[trigger] fails_at(e, f, i);
            assert(holds_column(first.cols()[i], f));
            lemma_reopen_among_succeeds(first.cols()[i], f, e);
        }
    }

    /// Opens a second store from the files that hold the segments of this
    /// one, as a store is opened from the directory that this store left.
    /// This succeeds for any segment size but zero. The second store has the
    /// segments of this one, column by column, and empty memtables; so where
    /// this store's memtables are empty it holds what this store holds.
    pub fn reopen(&self, options: StoreOptions) -> (res: StoreResult<Self>)
        requires
            self.wf(),
        ensures
            options.segment_size == 0 ==> res is Err && res->Err_0 is InvalidInput,
            options.segment_size > 0 ==> res is Ok,
            res matches Ok(s) ==> {
                &&& s.wf()
                &&& s.spec_layout() == self.spec_layout()
                &&& s.spec_progress() is None
                &&& s.pending_requests().len() == 0
                &&& forall|i: int|
                    0 <= i < s.cols().len() ==> reopened(#[trigger] s.cols()[i], self.cols()[i]) && s.cols()[i].threshold()
                        == options.segment_size
                &&& (forall|i: int| 0 <= i < self.cols().len() ==> (#[trigger] self.cols()[i]).pending().len() == 0)
                    ==> s.tables() == self.tables()
            },
    {
        let files = self.files();
        let res = Self::open(&files, self.layout, options);
        proof {
            if options.segment_size > 0 {
                Self::lemma_opens_again(*self, files@, res, options);
            }
            if res is Ok {
                Self::lemma_opened_again(*self, files@, res->Ok_0, options);
            }
        }
        res
    }

    /// Runs one whole compaction of column `col` at once, as a compaction
    /// request asks: the column is merged if it has reached the merge
    /// threshold. `Ok(false)` says that no merge was due or that the store
    /// has no such column. What the store holds stays as it was.
    pub fn compact(&mut self, col: usize) -> (res: StoreResult<bool>)
        requires
            old(self).wf(),
        ensures
            final(self).wf(),
            final(self).spec_layout() == old(self).spec_layout(),
            final(self).spec_progress() == old(self).spec_progress(),
            final(self).pending_requests() == old(self).pending_requests(),
            final(self).tables() == old(self).tables(),
            final(self).cols().len() == old(self).cols().len(),
            forall|j: int|
                0 <= j < final(self).cols().len() && j != col ==> (#[trigger] final(self).cols()[j]) == old(self).cols()[j],
            col >= old(self).cols().len() ==> res matches Ok(false),
            col < old(self).cols().len() ==> compact_outcome(
                old(self).cols()[col as int],
                final(self).cols()[col as int],
                MERGE_THRESHOLD,
                res,
            ),
    {
        if col >= self.columns.len() {
            return Ok(false);
        }
        let ghost before = self.columns@;
        let res = self.columns[col].compact(MERGE_THRESHOLD);
        proof {
            assert(self.columns@ =~= before.update(col as int, self.columns@[col as int]));
            lemma_view_same(before[col as int], self.columns@[col as int]);
            assert(self.tables() =~= old(self).tables());
            assert forall|j: int| 0 <= j < self.cols().len() implies (#[trigger] self.cols()[j]).wf()
                && self.cols()[j].col_id() == j by {
                if j != col {
                    assert(self.cols()[j] == before[j]);
                }
            }
        }
        res
    }

    /// Prepares a background merge of column `col`, as
    /// `Column::snapshot_for_merge` does. `Ok(None)` also where the store has
    /// no such column.
    pub fn snapshot_for_merge(&mut self, col: usize, threshold: usize) -> (res: StoreResult<
        Option<(u64, u8, Vec<SegmentMeta>)>,
    >)
        requires
            old(self).wf(),
        ensures
            final(self).wf(),
            final(self).spec_layout() == old(self).spec_layout(),
            final(self).spec_progress() == old(self).spec_progress(),
            final(self).pending_requests() == old(self).pending_requests(),
            final(self).tables() == old(self).tables(),
            final(self).cols().len() == old(self).cols().len(),
            forall|j: int|
                0 <= j < final(self).cols().len() && j != col ==> (#[trigger] final(self).cols()[j]) == old(self).cols()[j],
            col >= old(self).cols().len() ==> res matches Ok(None),
            col < old(self).cols().len() ==> snapshot_outcome(
                old(self).cols()[col as int],
                final(self).cols()[col as int],
                threshold,
                res,
            ),
    {
        if col >= self.columns.len() {
            return Ok(None);
        }
        let ghost before = self.columns@;
        let res = self.columns[col].snapshot_for_merge(threshold);
        proof {
            assert(self.columns@ =~= before.update(col as int, self.columns@[col as int]));
            lemma_view_same(before[col as int], self.columns@[col as int]);
            assert(self.tables() =~= old(self).tables());
            assert forall|j: int| 0 <= j < self.cols().len() implies (#[trigger] self.cols()[j]).wf()
                && self.cols()[j].col_id() == j by {
                if j != col {
                    assert(self.cols()[j] == before[j]);
                }
            }
        }
        res
    }

    /// Ends a background merge of column `col`: the segments that `old_meta`
    /// lists leave the column and `merged` takes their place. Fails with
    /// `InvalidInput`, and changes nothing, where the store has no such
    /// column or the column did not hand out the id of `merged`.
    pub fn finish_merge(&mut self, col: usize, merged: Segment, old_meta: &Vec<SegmentMeta>) -> (res: StoreResult<()>)
        requires
            old(self).wf(),
            merged.wf(),
        ensures
            final(self).wf(),
            final(self).spec_layout() == old(self).spec_layout(),
            final(self).spec_progress() == old(self).spec_progress(),
            final(self).pending_requests() == old(self).pending_requests(),
            res is Ok <==> col < old(self).cols().len() && old(self).cols()[col as int].admits(merged, old_meta@),
            res is Ok ==> {
                &&& final(self).cols().len() == old(self).cols().len()
                &&& !final(self).cols()[col as int].is_merging()
                &&& final(self).cols()[col as int].pending() == old(self).cols()[col as int].pending()
                &&& final(self).cols()[col as int].next_id() == old(self).cols()[col as int].next_id()
                &&& final(self).cols()[col as int].threshold() == old(self).cols()[col as int].threshold()
                &&& final(self).cols()[col as int].segs() == crate::column::placed(
                    crate::column::kept(old(self).cols()[col as int].segs(), old_meta@),
                    merged,
                )
                &&& forall|j: int|
                    0 <= j < final(self).cols().len() && j != col ==> (#[trigger] final(self).cols()[j]) == old(self).cols()[j]
            },
            res matches Err(e) ==> e is InvalidInput && final(self).cols() == old(self).cols(),
    {
        if col >= self.columns.len() {
            return Err(invalid_input("no such column"));
        }
        if !self.columns[col].accepts_merge(&merged, old_meta) {
            return Err(invalid_input("segment does not belong to a merge of this column"));
        }
        let ghost before = self.columns@;
        self.columns[col].finish_merge(merged, old_meta);
        proof {
            assert(self.columns@ =~= before.update(col as int, self.columns@[col as int]));
            assert forall|j: int| 0 <= j < self.cols().len() implies (#[trigger] self.cols()[j]).wf()
                && self.cols()[j].col_id() == j by {
                if j != col {
                    assert(self.cols()[j] == before[j]);
                }
            }
        }
        Ok(())
    }

    /// Gives up a background merge of column `col`, so that the column may
    /// be merged again.
    pub fn abort_merge(&mut self, col: usize)
        requires
            old(self).wf(),
        ensures
            final(self).wf(),
            final(self).spec_layout() == old(self).spec_layout(),
            final(self).spec_progress() == old(self).spec_progress(),
            final(self).pending_requests() == old(self).pending_requests(),
            final(self).tables() == old(self).tables(),
            final(self).cols().len() == old(self).cols().len(),
            forall|j: int|
                0 <= j < final(self).cols().len() && j != col ==> (#[trigger] final(self).cols()[j]) == old(self).cols()[j],
            col < final(self).cols().len() ==> {
                &&& !final(self).cols()[col as int].is_merging()
                &&& final(self).cols()[col as int].pending() == old(self).cols()[col as int].pending()
                &&& final(self).cols()[col as int].segs() == old(self).cols()[col as int].segs()
                &&& final(self).cols()[col as int].next_id() == old(self).cols()[col as int].next_id()
                &&& final(self).cols()[col as int].threshold() == old(self).cols()[col as int].threshold()
            },
    {
        if col < self.columns.len() {
            let ghost before = self.columns@;
            self.columns[col].abort_merge();
            proof {
                assert(self.columns@ =~= before.update(col as int, self.columns@[col as int]));
                lemma_view_same(before[col as int], self.columns@[col as int]);
                assert(self.tables() =~= old(self).tables());
                assert forall|j: int| 0 <= j < self.cols().len() implies (#[trigger] self.cols()[j]).wf()
                    && self.cols()[j].col_id() == j by {
                    if j != col {
                        assert(self.cols()[j] == before[j]);
                    }
                }
            }
        }
    }
}

} // verus!
