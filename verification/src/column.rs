//! A column: one ordered keyspace, made of a memtable and a list of segments
//! in the order of their ids, oldest first. The memtable overrides every
//! segment and a newer segment overrides an older one.

use vstd::prelude::*;
use crate::bytes::{
    bytes_lt, copy_bytes, is_prefix, lemma_lex_transitive, lemma_lex_trichotomy, lemma_prefix_range,
    lex_le, lex_lt, prefix_upper_bound, starts_with, strictly_ascending, upper_bound, views,
};
use crate::index::lists_range;
use crate::error::{invalid_input, StoreError, StoreResult};
use crate::memtable::{lemma_pairs_map, pair_keys, pairs_map, Memtable};
use crate::model::{can_seal, cannot_take, fills, grown, stepped, Shape};
use crate::error::corrupt_segment;
use crate::index::{counters_fit, image_contents, trusted_image};
use crate::names::{index_suffix, is_suffix};
use crate::names::{index_file_id, index_name, parse_index_name, segment_paths, sibling_name, values_name};
use crate::merge::{
    lemma_resolve_at, lemma_resolve_concat, lemma_resolve_single, lemma_resolve_some, merge_segments, resolve,
};
use crate::names::lemma_values_name_ending;
use crate::segment::{
    find_file, packed, sealed, trusted_files, Segment, SegmentFile, SegmentMeta, SegmentWriter, Slot,
};

verus! {

/// A single keyspace of the store.
pub struct Column {
    id: u8,
    memtable: Memtable,
    segments: Vec<Segment>,
    next_segment_id: u64,
    segment_size: usize,
    merging: bool,
}

/// The ids of a list of segments ascend strictly.
pub open spec fn ids_ascending(segs: Seq<Segment>) -> bool {
    forall|i: int, j: int| 0 <= i < j < segs.len() ==> (#[trigger] segs[i]).spec_id() < (#[trigger] segs[j]).spec_id()
}

/// `metas` lists a segment with the id `id`.
pub open spec fn lists_id(metas: Seq<SegmentMeta>, id: u64) -> bool {
    exists|i: int| 0 <= i < metas.len() && (#[trigger] metas[i]).id == id
}

/// Whether `metas` lists a segment with the id `id`.
pub fn has_id(metas: &Vec<SegmentMeta>, id: u64) -> (res: bool)
    ensures
        res == lists_id(metas@, id),
{
    let mut i: usize = 0;
    while i < metas.len()
        invariant
            0 <= i <= metas@.len(),
            forall|j: int| 0 <= j < i ==> (#[trigger] metas@[j]).id != id,
        decreases metas@.len() - i,
    {
        if metas[i].id == id {
            return true;
        }
        i += 1;
    }
    false
}

/// The segments of `segs` that `metas` does not list, in order.
pub open spec fn kept(segs: Seq<Segment>, metas: Seq<SegmentMeta>) -> Seq<Segment>
    decreases segs.len(),
{
    if segs.len() == 0 {
        Seq::empty()
    } else if lists_id(metas, segs.last().spec_id()) {
        kept(segs.drop_last(), metas)
    } else {
        kept(segs.drop_last(), metas).push(segs.last())
    }
}

/// `segs` with `merged` put where its id belongs: behind every segment with
/// a smaller id.
pub open spec fn placed(segs: Seq<Segment>, merged: Segment) -> Seq<Segment>
    decreases segs.len(),
{
    if segs.len() == 0 || segs.last().spec_id() < merged.spec_id() {
        segs.push(merged)
    } else {
        placed(segs.drop_last(), merged).push(segs.last())
    }
}

/// Where `metas` lists every segment, none is kept.
pub proof fn lemma_kept_none(segs: Seq<Segment>, metas: Seq<SegmentMeta>)
    requires
        forall|i: int| 0 <= i < segs.len() ==> lists_id(metas, (#[trigger] segs[i]).spec_id()),
    ensures
        kept(segs, metas) == Seq::<Segment>::empty(),
    decreases segs.len(),
{
    if segs.len() > 0 {
        assert(lists_id(metas, segs[segs.len() - 1].spec_id()));
        assert forall|i: int| 0 <= i < segs.drop_last().len() implies lists_id(
            metas,
            (#[trigger] segs.drop_last()[i]).spec_id(),
        ) by {
            assert(segs.drop_last()[i] == segs[i]);
        }
        lemma_kept_none(segs.drop_last(), metas);
    }
}

/// Where `metas` lists the first `m` segments and no other, the rest is kept.
pub proof fn lemma_kept_rest(segs: Seq<Segment>, metas: Seq<SegmentMeta>, m: int)
    requires
        0 <= m <= segs.len(),
        forall|i: int| 0 <= i < m ==> lists_id(metas, (#[trigger] segs[i]).spec_id()),
        forall|i: int| m <= i < segs.len() ==> !lists_id(metas, (#[trigger] segs[i]).spec_id()),
    ensures
        kept(segs, metas) == segs.subrange(m, segs.len() as int),
    decreases segs.len(),
{
    if segs.len() == m {
        lemma_kept_none(segs, metas);
        assert(segs.subrange(m, segs.len() as int) =~= Seq::<Segment>::empty());
    } else {
        let front = segs.drop_last();
        assert(!lists_id(metas, segs[segs.len() - 1].spec_id()));
        assert forall|i: int| 0 <= i < m implies lists_id(metas, (#[trigger] front[i]).spec_id()) by {
            assert(front[i] == segs[i]);
        }
        assert forall|i: int| m <= i < front.len() implies !lists_id(metas, (#[trigger] front[i]).spec_id()) by {
            assert(front[i] == segs[i]);
        }
        lemma_kept_rest(front, metas, m);
        assert(front.subrange(m, front.len() as int).push(segs.last()) =~= segs.subrange(m, segs.len() as int));
    }
}

/// A background merge keeps what the column holds. Where the segments that
/// were merged are the oldest of the column, every later segment has a
/// greater id than the merged one, and the merged segment holds what the
/// merged ones held together, the segments after `finish_merge` hold for
/// every key what the segments held before.
pub proof fn lemma_background_merge(
    segs: Seq<Segment>,
    metas: Seq<SegmentMeta>,
    merged: Segment,
    m: int,
    key: Seq<u8>,
)
    requires
        0 <= m <= segs.len(),
        forall|i: int| 0 <= i < m ==> lists_id(metas, (#[trigger] segs[i]).spec_id()),
        forall|i: int|
            m <= i < segs.len() ==> !lists_id(metas, (#[trigger] segs[i]).spec_id()) && segs[i].spec_id()
                > merged.spec_id(),
        forall|k: Seq<u8>| #[trigger] merged.slot(k) == resolve(segs.subrange(0, m), k),
    ensures
        resolve(placed(kept(segs, metas), merged), key) == resolve(segs, key),
{
    let old_part = segs.subrange(0, m);
    let rest = segs.subrange(m, segs.len() as int);
    lemma_kept_rest(segs, metas, m);
    assert forall|i: int| 0 <= i < rest.len() implies (#[trigger] rest[i]).spec_id() >= merged.spec_id() by {
        assert(rest[i] == segs[m + i]);
    }
    lemma_placed(rest, merged, 0);
    assert(rest.insert(0, merged) =~= seq![merged] + rest);
    lemma_resolve_concat(seq![merged], rest, key);
    lemma_resolve_single(merged, key);
    assert(old_part + rest =~= segs);
    lemma_resolve_concat(old_part, rest, key);
}

/// Putting a segment where its id belongs is an insertion at the position
/// that parts the smaller ids from the greater.
pub proof fn lemma_placed(segs: Seq<Segment>, merged: Segment, pos: int)
    requires
        0 <= pos <= segs.len(),
        forall|i: int| 0 <= i < pos ==> (#[trigger] segs[i]).spec_id() < merged.spec_id(),
        forall|i: int| pos <= i < segs.len() ==> (#[trigger] segs[i]).spec_id() >= merged.spec_id(),
    ensures
        placed(segs, merged) == segs.insert(pos, merged),
    decreases segs.len(),
{
    if segs.len() == 0 || segs.last().spec_id() < merged.spec_id() {
        if segs.len() > 0 && pos < segs.len() {
            assert(segs[segs.len() - 1].spec_id() >= merged.spec_id());
        }
        assert(segs.push(merged) =~= segs.insert(pos, merged));
    } else {
        if pos == segs.len() {
            assert(segs[pos - 1].spec_id() < merged.spec_id());
        }
        assert forall|i: int| 0 <= i < pos implies (#[trigger] segs.drop_last()[i]).spec_id() < merged.spec_id() by {
            assert(segs.drop_last()[i] == segs[i]);
        }
        assert forall|i: int| pos <= i < segs.drop_last().len() implies (#[trigger] segs.drop_last()[i]).spec_id()
            >= merged.spec_id() by {
            assert(segs.drop_last()[i] == segs[i]);
        }
        lemma_placed(segs.drop_last(), merged, pos);
        assert(segs.drop_last().insert(pos, merged).push(segs.last()) =~= segs.insert(pos, merged));
    }
}

/// The segment `s` is what the index file at position `i` of `files` and
/// the values file beside it hold, read as files of column `col`.
pub open spec fn recovered(s: Segment, col: u8, files: Seq<SegmentFile>, i: int) -> bool {
    &&& s.wf()
    &&& index_file_id(col, files[i].name@) == Some(s.spec_id())
    &&& image_contents(files[i].data@) == Some(s.offsets())
    &&& exists|v: int| #[trigger] first_named(files, sibling_name(files[i].name@), v) && files[v].data@ == s.log()
}

/// The file at position `v` is the first of `files` with the name `name`.
pub open spec fn first_named(files: Seq<SegmentFile>, name: Seq<u8>, v: int) -> bool {
    &&& 0 <= v < files.len()
    &&& files[v].name@ == name
    &&& forall|u: int| 0 <= u < v ==> (#[trigger] files[u]).name@ != name
}

/// One of the first `upto` files of `files` is the index file of `s`.
pub open spec fn has_source(s: Segment, col: u8, files: Seq<SegmentFile>, upto: int) -> bool {
    exists|a: int| 0 <= a < upto && #[trigger] recovered(s, col, files, a)
}

/// One of `segs` is the segment of the index file at position `a` of `files`.
pub open spec fn has_segment(segs: Seq<Segment>, col: u8, files: Seq<SegmentFile>, a: int) -> bool {
    exists|j: int| 0 <= j < segs.len() && #[trigger] recovered(segs[j], col, files, a)
}

/// The file at position `i` of `files` is an index file of column `col`
/// with no values file beside it.
pub open spec fn orphan(col: u8, files: Seq<SegmentFile>, i: int) -> bool {
    &&& index_file_id(col, files[i].name@) is Some
    &&& forall|v: int| 0 <= v < files.len() ==> (#[trigger] files[v]).name@ != sibling_name(files[i].name@)
}

/// The files at two different positions of `files` are index files of
/// column `col` that carry the same segment id.
pub open spec fn clash(col: u8, files: Seq<SegmentFile>, i: int, j: int) -> bool {
    &&& i != j
    &&& index_file_id(col, files[i].name@) is Some
    &&& index_file_id(col, files[i].name@) == index_file_id(col, files[j].name@)
}

/// Of two columns that hold the same for every key, the second with an empty
/// memtable, the first can be read wholly exactly if the segments of the
/// second can.
pub proof fn lemma_whole_kept(before: Column, after: Column)
    requires
        forall|k: Seq<u8>| #[trigger] after.slot(k) == before.slot(k),
        after.pending().len() == 0,
    ensures
        before.whole() <==> after.readable(),
{
    if before.whole() {
        assert forall|k: Seq<u8>| #[trigger] resolve(after.segs(), k) != Some(None::<Seq<u8>>) by {
            assert(after.slot(k) == before.slot(k));
            assert(before.slot(k) != Some(None::<Seq<u8>>));
        }
    }
    if after.readable() {
        assert forall|k: Seq<u8>| #[trigger] before.slot(k) != Some(None::<Seq<u8>>) by {
            assert(after.slot(k) == before.slot(k));
            assert(resolve(after.segs(), k) != Some(None::<Seq<u8>>));
        }
    }
}

/// A column that holds `value` for `key` and otherwise what another column
/// holds is, as a mapping, that other column with `key` bound to `value`.
pub proof fn lemma_view_insert(before: Column, after: Column, key: Seq<u8>, value: Seq<u8>)
    requires
        forall|k: Seq<u8>| #[trigger]
            after.slot(k) == (if k == key {
                Some(Some(value))
            } else {
                before.slot(k)
            }),
    ensures
        after@ == before@.insert(key, Some(value)),
{
    assert forall|k: Seq<u8>| #[trigger] after@.contains_key(k) <==> before@.insert(key, Some(value)).contains_key(
        k,
    ) by {
        assert(after.slot(k) == (if k == key {
            Some(Some(value))
        } else {
            before.slot(k)
        }));
    }
    assert forall|k: Seq<u8>| #[trigger] after@.contains_key(k) implies after@[k] == before@.insert(
        key,
        Some(value),
    )[k] by {
        assert(after.slot(k) == (if k == key {
            Some(Some(value))
        } else {
            before.slot(k)
        }));
    }
    assert(after@ =~= before@.insert(key, Some(value)));
}

/// Two columns that hold the same for every key are the same mapping.
pub proof fn lemma_view_same(before: Column, after: Column)
    requires
        forall|k: Seq<u8>| #[trigger] after.slot(k) == before.slot(k),
    ensures
        after@ == before@,
{
    assert forall|k: Seq<u8>| #[trigger] after@.contains_key(k) <==> before@.contains_key(k) by {
        assert(after.slot(k) == before.slot(k));
    }
    assert forall|k: Seq<u8>| #[trigger] after@.contains_key(k) implies after@[k] == before@[k] by {
        assert(after.slot(k) == before.slot(k));
    }
    assert(after@ =~= before@);
}

/// The files `f` are what `column` keeps on disk: for each segment, oldest
/// first, its index file and then its values file.
pub open spec fn column_files(column: Column, f: Seq<SegmentFile>) -> bool {
    &&& f.len() == 2 * column.segs().len()
    &&& forall|j: int|
        0 <= j < column.segs().len() ==> {
            &&& (#[trigger] f[2 * j]).name@ == index_name(column.col_id(), column.segs()[j].spec_id())
            &&& image_contents(f[2 * j].data@) == Some(column.segs()[j].offsets())
            &&& f[2 * j + 1].name@ == values_name(column.col_id(), column.segs()[j].spec_id())
            &&& f[2 * j + 1].data@ == column.segs()[j].log()
        }
}

/// The column `c` is what the files of a store's directory hold for column
/// `id`: one segment for each index file of the column, in the order of their
/// ids, an empty memtable, and the id after the greatest as the next.
pub open spec fn opened(c: Column, files: Seq<SegmentFile>, id: u8, segment_size: usize) -> bool {
    &&& c.wf()
    &&& c.col_id() == id
    &&& c.threshold() == segment_size
    &&& c.pending().len() == 0
    &&& !c.is_merging()
    &&& c.next_id() == (if c.segs().len() == 0 {
        0int
    } else {
        c.segs().last().spec_id() + 1
    })
    &&& forall|i: int|
        0 <= i < files.len() && index_file_id(id, files[i].name@) is Some ==> #[trigger] has_segment(
            c.segs(),
            id,
            files,
            i,
        )
    &&& forall|j: int| 0 <= j < c.segs().len() ==> has_source(#[trigger] c.segs()[j], id, files, files.len() as int)
    &&& forall|i: int, j: int| 0 <= i < files.len() && 0 <= j < files.len() ==> !#[trigger] clash(id, files, i, j)
}

/// The file at position `i` is in order as a file of column `col`: where
/// it is named as an index file of the column, it has a values file beside
/// it, its image is accepted, and no file before it carries its id.
pub open spec fn in_order(col: u8, files: Seq<SegmentFile>, i: int) -> bool {
    index_file_id(col, files[i].name@) is Some ==> {
        &&& !orphan(col, files, i)
        &&& image_contents(files[i].data@) is Some
        &&& forall|a: int| 0 <= a < i ==> !#[trigger] clash(col, files, a, i)
    }
}

/// Rebuilding column `id` stops at the file at position `i` with the error
/// `e`: every file before it is in order, and this one is an index file
/// without its values file (`CorruptSegment`), else with an image whose
/// counters do not fit this machine (`CorruptSegment`), else with an image
/// that is not accepted (`Fst`), else with the id of a file before it
/// (`CorruptSegment`).
pub open spec fn stops_at(e: StoreError, files: Seq<SegmentFile>, id: u8, i: int) -> bool {
    &&& forall|a: int| 0 <= a < i ==> #[trigger] in_order(id, files, a)
    &&& index_file_id(id, files[i].name@) is Some
    &&& if orphan(id, files, i) {
        e is CorruptSegment
    } else if !counters_fit(files[i].data@) {
        e is CorruptSegment
    } else if image_contents(files[i].data@) is None {
        e is Fst
    } else {
        e is CorruptSegment && exists|a: int| 0 <= a < i && #[trigger] clash(id, files, a, i)
    }
}

/// Why column `id` cannot be rebuilt from the files. The first file that is
/// not in order decides: an index file with no values file beside it, with
/// counters that do not fit this machine or with the id of an earlier one
/// gives `CorruptSegment`, an index image that is not accepted gives `Fst`.
/// Where every file is in order, but no id is left after the greatest, the
/// error is `InvalidInput`.
pub open spec fn open_fails(e: StoreError, files: Seq<SegmentFile>, id: u8) -> bool {
    ||| exists|i: int| 0 <= i < files.len() && #[trigger] stops_at(e, files, id, i)
    ||| {
        &&& e is InvalidInput
        &&& forall|a: int| 0 <= a < files.len() ==> #[trigger] in_order(id, files, a)
        &&& exists|i: int| 0 <= i < files.len() && index_file_id(id, (#[trigger] files[i]).name@) == Some(u64::MAX)
    }
}

/// Column `id` can be rebuilt from the files: no error is a reason why not.
pub open spec fn opens(files: Seq<SegmentFile>, id: u8) -> bool {
    forall|e: StoreError| !#[trigger] open_fails(e, files, id)
}

/// Puts a segment that was rebuilt from the file at position `i` into the
/// list of those rebuilt so far, where its id belongs. Gives `false`, and
/// leaves the list as it was, where a segment of the list has the same id.
#[verifier::rlimit(60)]
#[verifier::spinoff_prover]
fn take_in(segments: &mut Vec<Segment>, seg: Segment, id: u8, files: &Vec<SegmentFile>, i: usize) -> (ok: bool)
    requires
        i < files@.len(),
        recovered(seg, id, files@, i as int),
        ids_ascending(old(segments)@),
        forall|j: int| 0 <= j < old(segments)@.len() ==> (#[trigger] old(segments)@[j]).wf(),
        forall|j: int| 0 <= j < old(segments)@.len() ==> has_source(#[trigger] old(segments)@[j], id, files@, i as int),
    ensures
        ids_ascending(final(segments)@),
        forall|j: int| 0 <= j < final(segments)@.len() ==> (#[trigger] final(segments)@[j]).wf(),
        forall|j: int|
            0 <= j < final(segments)@.len() ==> has_source(#[trigger] final(segments)@[j], id, files@, i + 1),
        forall|a: int| #[trigger]
            has_segment(old(segments)@, id, files@, a) ==> has_segment(final(segments)@, id, files@, a),
        ok ==> has_segment(final(segments)@, id, files@, i as int),
        ok ==> forall|j: int| 0 <= j < old(segments)@.len() ==> (#[trigger] old(segments)@[j]).spec_id() != seg.spec_id(),
        !ok ==> exists|a: int| 0 <= a < i && #[trigger] clash(id, files@, a, i as int),
{
    let ghost rest = segments@;
    let seg_id: u64 = seg.id();
    let mut pos: usize = segments.len();
    while pos > 0 && segments[pos - 1].id() > seg_id
        invariant
            0 <= pos <= segments@.len(),
            segments@ == rest,
            forall|j: int| pos <= j < rest.len() ==> (#[trigger] rest[j]).spec_id() > seg_id,
        decreases pos,
    {
        pos -= 1;
    }
    if pos > 0 && segments[pos - 1].id() == seg_id {
        proof {
            assert(has_source(rest[pos - 1], id, files@, i as int));
            let a = choose|a: int| 0 <= a < i && #[trigger] recovered(rest[pos - 1], id, files@, a);
            assert(clash(id, files@, a, i as int));
            assert forall|j: int| 0 <= j < rest.len() implies has_source(#[trigger] rest[j], id, files@, i + 1) by {
                assert(has_source(rest[j], id, files@, i as int));
                let b = choose|b: int| 0 <= b < i && #[trigger] recovered(rest[j], id, files@, b);
                assert(recovered(rest[j], id, files@, b));
            }
        }
        return false;
    }
    segments.insert(pos, seg);
    proof {
        assert forall|a: int, b: int| 0 <= a < b < segments@.len() implies (#[trigger] segments@[a]).spec_id() < (
        #[trigger] segments@[b]).spec_id() by {
            let a0 = if a < pos { a } else { a - 1 };
            let b0 = if b < pos { b } else { b - 1 };
            if a != pos && b != pos {
                assert(rest[a0].spec_id() < rest[b0].spec_id());
            } else if a == pos {
                assert(rest[b0].spec_id() > seg_id);
            } else {
                if a < pos - 1 {
                    assert(rest[a].spec_id() < rest[pos - 1].spec_id());
                }
            }
        }
        assert forall|j: int| 0 <= j < segments@.len() implies (#[trigger] segments@[j]).wf() by {
            if j != pos {
                let j0 = if j < pos { j } else { j - 1 };
                assert(rest[j0].wf());
            }
        }
        assert forall|j: int| 0 <= j < segments@.len() implies has_source(
            #[trigger] segments@[j],
            id,
            files@,
            i + 1,
        ) by {
            if j != pos {
                let j0 = if j < pos { j } else { j - 1 };
                assert(has_source(rest[j0], id, files@, i as int));
                let a = choose|a: int| 0 <= a < i && #[trigger] recovered(rest[j0], id, files@, a);
                assert(recovered(segments@[j], id, files@, a));
            } else {
                assert(recovered(segments@[j], id, files@, i as int));
            }
        }
        assert forall|a: int| #[trigger] has_segment(rest, id, files@, a) implies has_segment(
            segments@,
            id,
            files@,
            a,
        ) by {
            let j0 = choose|j: int| 0 <= j < rest.len() && #[trigger] recovered(rest[j], id, files@, a);
            let j = if j0 < pos { j0 } else { j0 + 1 };
            assert(segments@[j] == rest[j0]);
            assert(recovered(segments@[j], id, files@, a));
        }
        assert(recovered(segments@[pos as int], id, files@, i as int));
        assert forall|j: int| 0 <= j < rest.len() implies (#[trigger] rest[j]).spec_id() != seg_id by {
            if j < pos {
                if j < pos - 1 {
                    assert(rest[j].spec_id() < rest[pos - 1].spec_id());
                }
            }
        }
    }
    true
}

/// The segment holds exactly the rows of `rows`, in the segment format: it
/// is what a memtable with these rows is sealed into.
pub open spec fn holds_rows(s: Segment, rows: Map<Seq<u8>, Seq<u8>>) -> bool {
    exists|pairs: Seq<(Seq<u8>, Seq<u8>)>|
        strictly_ascending(#[trigger] pair_keys(pairs)) && pairs_map(pairs) == rows && sealed(s, pairs) && packed(
            s,
            pairs,
        )
}

/// `segs` and `next` are the segments and the next id that `before` has once
/// its memtable is sealed: as they were where the memtable is empty, else with
/// one segment more, which holds the memtable's entries in the segment format.
pub open spec fn seals(before: Column, segs: Seq<Segment>, next: int) -> bool {
    if before.pending().len() == 0 {
        segs == before.segs() && next == before.next_id()
    } else {
        &&& segs.len() == before.segs().len() + 1
        &&& segs.drop_last() == before.segs()
        &&& segs.last().spec_id() == before.next_id()
        &&& sealed(segs.last(), before.pending())
        &&& packed(segs.last(), before.pending())
        &&& next == before.next_id() + 1
    }
}

/// `segs` and `next` are the segments and the next id that `before` has once
/// its memtable is sealed and all its segments are merged into one with the
/// next id.
pub open spec fn merges(before: Column, segs: Seq<Segment>, next: int) -> bool {
    let id = if before.pending().len() == 0 {
        before.next_id() as int
    } else {
        before.next_id() + 1
    };
    segs.len() == 1 && segs[0].spec_id() == id && segs[0].is_packed() && next == id + 1
}

/// `segs` and `next` are the segments and the next id that `before` has once
/// it is compacted fully: its memtable sealed and, where that leaves two
/// segments or more, all of them merged into one.
pub open spec fn compacted(before: Column, segs: Seq<Segment>, next: int) -> bool {
    if before.sealed_count() <= 1 {
        seals(before, segs, next)
    } else {
        merges(before, segs, next)
    }
}

/// How `multi_way_merge` fails on the column `before`, and what it leaves:
/// the memtable cannot be sealed, and the column is as it was; or the
/// memtable is sealed, and then no id is left for the merged segment
/// (`InvalidInput`) or something that the segments hold cannot be read (`Io`).
pub open spec fn merge_failure(before: Column, after: Column, e: StoreError) -> bool {
    ||| {
        &&& e is InvalidInput
        &&& before.pending().len() > 0 && !before.sealable()
        &&& after.pending() == before.pending()
        &&& after.segs() == before.segs()
        &&& after.next_id() == before.next_id()
    }
    ||| {
        &&& e is InvalidInput
        &&& after.segs().len() > 1 && after.next_id() == u64::MAX
        &&& after.pending().len() == 0
        &&& seals(before, after.segs(), after.next_id() as int)
    }
    ||| {
        &&& e is Io
        &&& !after.readable()
        &&& after.pending().len() == 0
        &&& seals(before, after.segs(), after.next_id() as int)
    }
}

/// What `snapshot_for_merge` with the given threshold makes of the column
/// `before`: the column `after` and the result `res`.
pub open spec fn snapshot_outcome(
    before: Column,
    after: Column,
    threshold: usize,
    res: StoreResult<Option<(u64, u8, Vec<SegmentMeta>)>>,
) -> bool {
    &&& after.wf()
    &&& after.col_id() == before.col_id()
    &&& after.threshold() == before.threshold()
    &&& forall|k: Seq<u8>| #[trigger] after.slot(k) == before.slot(k)
    &&& res is Err <==> !before.is_merging() && before.segs().len() >= threshold && ((before.pending().len() > 0
        && !before.sealable()) || before.sealed_next() == u64::MAX)
    &&& res matches Ok(job) ==> (job is Some <==> !before.is_merging() && before.segs().len() >= threshold)
    &&& res matches Ok(None) ==> after == before
    &&& res matches Err(e) ==> {
        &&& e is InvalidInput
        &&& !after.is_merging()
        &&& {
            ||| {
                &&& before.pending().len() > 0
                &&& !before.sealable()
                &&& after.pending() == before.pending()
                &&& after.segs() == before.segs()
            }
            ||| {
                &&& after.next_id() == u64::MAX
                &&& after.pending().len() == 0
                &&& seals(before, after.segs(), after.next_id() as int)
            }
        }
    }
    &&& res matches Ok(Some(job)) ==> {
        &&& after.is_merging()
        &&& after.pending().len() == 0
        &&& seals(before, after.segs(), job.0 as int)
        &&& job.0 + 1 == after.next_id()
        &&& forall|i: int| 0 <= i < after.segs().len() ==> (#[trigger] after.segs()[i]).spec_id() < job.0
        &&& job.1 == after.col_id()
        &&& job.2@.len() == after.segs().len()
        &&& forall|i: int|
            0 <= i < job.2@.len() ==> {
                &&& (#[trigger] job.2@[i]).id == after.segs()[i].spec_id()
                &&& job.2@[i].fst_name@ == index_name(job.1, job.2@[i].id)
                &&& job.2@[i].values_name@ == values_name(job.1, job.2@[i].id)
            }
    }
}

/// What `compact` with the given threshold makes of the column `before`:
/// the column `after` and the result `res`.
pub open spec fn compact_outcome(before: Column, after: Column, threshold: usize, res: StoreResult<bool>) -> bool {
    &&& after.wf()
    &&& after.col_id() == before.col_id()
    &&& after.threshold() == before.threshold()
    &&& forall|k: Seq<u8>| #[trigger] after.slot(k) == before.slot(k)
    &&& !before.is_merging() ==> !after.is_merging()
    &&& res is Err <==> !before.is_merging() && before.segs().len() >= threshold && ((before.pending().len() > 0
        && !before.sealable()) || before.sealed_next() == u64::MAX || !before.whole())
    &&& res matches Ok(done) ==> (done <==> !before.is_merging() && before.segs().len() >= threshold)
    &&& res matches Ok(false) ==> after == before
    &&& res matches Ok(true) ==> after.pending().len() == 0 && merges(before, after.segs(), after.next_id() as int)
    &&& res matches Err(e) ==> {
        ||| e is InvalidInput && before.pending().len() > 0 && !before.sealable() && after.pending()
            == before.pending() && after.segs() == before.segs()
        ||| e is InvalidInput && after.next_id() == u64::MAX && seals(before, after.segs(), after.next_id() as int)
        ||| e is Io && !before.whole() && seals(before, after.segs(), after.next_id() - 1)
    }
}

impl Column {
    /// The column's index within its store.
    pub closed spec fn col_id(&self) -> u8 {
        self.id
    }

    /// The memtable's entries, in key order.
    pub closed spec fn pending(&self) -> Seq<(Seq<u8>, Seq<u8>)> {
        self.memtable.pairs()
    }

    /// The segments, oldest first.
    pub closed spec fn segs(&self) -> Seq<Segment> {
        self.segments@
    }

    /// The id that the next segment will get.
    pub closed spec fn next_id(&self) -> u64 {
        self.next_segment_id
    }

    /// The number of rows at which the memtable is sealed.
    pub closed spec fn threshold(&self) -> usize {
        self.segment_size
    }

    /// Whether a background merge of this column is under way.
    pub closed spec fn is_merging(&self) -> bool {
        self.merging
    }

    /// The memtable is sorted, every segment can be read, the segment ids
    /// ascend strictly and lie below the next id.
    pub open spec fn wf(&self) -> bool {
        &&& strictly_ascending(pair_keys(self.pending()))
        &&& forall|i: int| 0 <= i < self.segs().len() ==> (#[trigger] self.segs()[i]).wf()
        &&& ids_ascending(self.segs())
        &&& forall|i: int| 0 <= i < self.segs().len() ==> (#[trigger] self.segs()[i]).spec_id() < self.next_id()
    }

    /// What the column holds for `key`: the memtable decides where it holds
    /// the key, else the newest segment that holds it.
    pub open spec fn slot(&self, key: Seq<u8>) -> Slot {
        if pairs_map(self.pending()).contains_key(key) {
            Some(Some(pairs_map(self.pending())[key]))
        } else {
            resolve(self.segs(), key)
        }
    }

    /// The column as a mapping: each key that it holds, with its value, or
    /// with `None` where no whole record lies behind the key.
    pub open spec fn view(&self) -> Map<Seq<u8>, Option<Seq<u8>>> {
        Map::new(|k: Seq<u8>| self.slot(k) is Some, |k: Seq<u8>| self.slot(k)->0)
    }

    /// The column can take `n` more writes without failing: that many ids
    /// are left and no value in the memtable is too long for a record.
    pub open spec fn roomy(&self, n: int) -> bool {
        &&& self.next_id() + n < u64::MAX
        &&& forall|i: int| 0 <= i < self.pending().len() ==> (#[trigger] self.pending()[i]).1.len() <= u32::MAX
    }

    /// The column's shape: the rows of its memtable and their number, the
    /// number of its segments, and the id that its next segment gets.
    pub open spec fn shape(&self) -> Shape {
        Shape {
            rows: pairs_map(self.pending()),
            count: self.pending().len() as int,
            segments: self.segs().len() as int,
            next: self.next_id() as int,
        }
    }

    /// The column has been written to: it has something in its memtable or
    /// has a segment.
    pub open spec fn touched(&self) -> bool {
        self.pending().len() > 0 || self.segs().len() > 0
    }

    /// Whatever the column holds can be read: no key stands before a record
    /// that is cut short.
    pub open spec fn whole(&self) -> bool {
        forall|k: Seq<u8>| #[trigger] self.slot(k) != Some(None::<Seq<u8>>)
    }

    /// Every key that the segments hold has a whole record behind it.
    pub open spec fn readable(&self) -> bool {
        forall|k: Seq<u8>| #[trigger] resolve(self.segs(), k) != Some(None::<Seq<u8>>)
    }

    /// The number of segments that the column has once its memtable is sealed.
    pub open spec fn sealed_count(&self) -> int {
        if self.pending().len() > 0 {
            self.segs().len() as int + 1
        } else {
            self.segs().len() as int
        }
    }

    /// The id that the next segment gets once the memtable is sealed.
    pub open spec fn sealed_next(&self) -> int {
        if self.pending().len() > 0 {
            self.next_id() + 1
        } else {
            self.next_id() as int
        }
    }

    /// The number of rows that the memtable has once `key` is written to it.
    pub open spec fn rows_with(&self, key: Seq<u8>) -> int {
        if pairs_map(self.pending()).contains_key(key) {
            self.pending().len() as int
        } else {
            self.pending().len() as int + 1
        }
    }

    /// The memtable can still be sealed once `value` is written under `key`:
    /// an id is left, and neither `value` nor the value of another key in
    /// the memtable is too long for a record.
    pub open spec fn sealable_with(&self, key: Seq<u8>, value: Seq<u8>) -> bool {
        &&& self.next_id() < u64::MAX
        &&& value.len() <= u32::MAX
        &&& forall|i: int|
            0 <= i < self.pending().len() && (#[trigger] self.pending()[i]).0 != key ==> self.pending()[i].1.len()
                <= u32::MAX
    }

    /// The column can be compacted fully: its memtable can be sealed and,
    /// where that leaves two segments or more, an id is left for the merged
    /// segment and everything that the column holds can be read.
    pub open spec fn mergeable(&self) -> bool {
        &&& self.pending().len() == 0 || self.sealable()
        &&& self.sealed_count() <= 1 || (self.sealed_next() < u64::MAX && self.whole())
    }

    /// The memtable can be sealed: an id is left for the segment and no value
    /// is too long for a record.
    pub open spec fn sealable(&self) -> bool {
        &&& self.next_id() < u64::MAX
        &&& forall|i: int| 0 <= i < self.pending().len() ==> (#[trigger] self.pending()[i]).1.len() <= u32::MAX
    }

    /// An empty column.
    pub fn new(id: u8, segment_size: usize) -> (c: Column)
        ensures
            c.wf(),
            c.col_id() == id,
            c.threshold() == segment_size,
            c.pending().len() == 0,
            c.segs().len() == 0,
            c.next_id() == 0,
            !c.is_merging(),
            forall|k: Seq<u8>| (#[trigger] c.slot(k)) is None,
    {
        let c = Column {
            id,
            memtable: Memtable::new(),
            segments: Vec::new(),
            next_segment_id: 0,
            segment_size,
            merging: false,
        };
        c
    }

    /// The column's index within its store.
    pub fn id(&self) -> (id: u8)
        ensures
            id == self.col_id(),
    {
        self.id
    }

    /// The number of segments.
    pub fn segment_count(&self) -> (n: usize)
        ensures
            n == self.segs().len(),
    {
        self.segments.len()
    }

    /// The number of keys in the memtable.
    pub fn memtable_len(&self) -> (n: usize)
        ensures
            n == self.pending().len(),
    {
        self.memtable.len()
    }

    /// The segment at position `i`, counted from the oldest.
    pub fn segment(&self, i: usize) -> (s: &Segment)
        requires
            i < self.segs().len(),
        ensures
            *s == self.segs()[i as int],
    {
        &self.segments[i]
    }

    /// Seals the memtable into a new segment, which becomes the newest, and
    /// empties the memtable. Nothing happens where the memtable is empty.
    /// What the column holds for any key stays as it was. Where the memtable
    /// cannot be sealed the call fails and the column stays as it was.
    pub fn flush(&mut self) -> (res: StoreResult<()>)
        requires
            old(self).wf(),
        ensures
            final(self).wf(),
            final(self).col_id() == old(self).col_id(),
            final(self).threshold() == old(self).threshold(),
            final(self).is_merging() == old(self).is_merging(),
            forall|k: Seq<u8>| #[trigger] final(self).slot(k) == old(self).slot(k),
            res is Ok <==> old(self).pending().len() == 0 || old(self).sealable(),
            res is Ok ==> final(self).pending().len() == 0 && (final(self).segs().len() > 0 <==> old(self).touched()),
            final(self).touched() == old(self).touched(),
            final(self).next_id() <= old(self).next_id() + 1,
            res is Ok ==> seals(*old(self), final(self).segs(), final(self).next_id() as int),
            res matches Err(e) ==> e is InvalidInput && final(self).pending() == old(self).pending() && final(self).segs()
                == old(self).segs() && final(self).next_id() == old(self).next_id(),
    {
        if self.memtable.is_empty() {
            return Ok(());
        }
        if self.next_segment_id == u64::MAX {
            return Err(invalid_input("segment ids exhausted"));
        }
        let seg_id: u64 = self.next_segment_id;
        let mut writer = SegmentWriter::new();
        let n: usize = self.memtable.len();
        let ghost pairs = self.memtable.pairs();
        let mut i: usize = 0;
        assert(writer.pairs() =~= pairs.subrange(0, 0));
        while i < n
            invariant
                0 <= i <= n,
                n == pairs.len(),
                pairs == self.memtable.pairs(),
                strictly_ascending(pair_keys(pairs)),
                writer.wf(),
                writer.pairs() == pairs.subrange(0, i as int),
                forall|j: int| 0 <= j < i ==> (#[trigger] pairs[j]).1.len() <= u32::MAX,
                *self == *old(self),
                self.wf(),
            decreases n - i,
        {
            let key: Vec<u8> = copy_bytes(self.memtable.key_at(i).as_slice());
            proof {
                assert(writer.pairs().len() == i);
                if i > 0 {
                    assert(writer.pairs().last() == pairs[i - 1]);
                    assert(lex_lt(pair_keys(pairs)[i - 1], pair_keys(pairs)[i as int]));
                }
            }
            match writer.append(key, self.memtable.value_at(i).as_slice()) {
                Ok(()) => {},
                Err(e) => {
                    assert(pairs[i as int].1.len() > u32::MAX);
                    return Err(e);
                },
            }
            assert(writer.pairs() =~= pairs.subrange(0, i + 1));
            i += 1;
        }
        assert(pairs.subrange(0, n as int) =~= pairs);
        match writer.finish(seg_id) {
            Err(e) => {
                assert(false);
                Err(e)
            },
            Ok(seg) => {
                let ghost old_segs = self.segments@;
                self.segments.push(seg);
                self.next_segment_id = seg_id + 1;
                self.memtable.clear();
                proof {
                    assert(self.segments@.drop_last() =~= old_segs);
                    assert(self.segments@.last() == seg);
                    lemma_pairs_map(pairs);
                    assert forall|k: Seq<u8>| #[trigger] self.slot(k) == old(self).slot(k) by {
                        if seg.slot(k) is Some {
                            let p = choose|p: int| 0 <= p < pairs.len() && #[trigger] pairs[p].0 == k;
                            assert(seg.slot(pairs[p].0) == Some(Some(pairs[p].1)));
                        } else if pairs_map(pairs).contains_key(k) {
                            let p = choose|p: int| 0 <= p < pairs.len() && #[trigger] pairs[p].0 == k;
                            assert(seg.slot(pairs[p].0) == Some(Some(pairs[p].1)));
                        }
                    }
                    assert forall|a: int, b: int| 0 <= a < b < self.segments@.len() implies (
                    #[trigger] self.segments@[a]).spec_id() < (#[trigger] self.segments@[b]).spec_id() by {
                        if b < old_segs.len() {
                            assert(old_segs[a].spec_id() < old_segs[b].spec_id());
                        } else {
                            assert(old_segs[a].spec_id() < seg_id);
                        }
                    }
                }
                Ok(())
            },
        }
    }

    /// Reads the value stored under `key`: from the memtable where it holds
    /// the key, else from the newest segment that holds it. `Ok(None)` where
    /// the column does not hold the key; an `Io` error where the deciding
    /// segment holds the key but no whole record lies at its offset.
    pub fn get(&self, key: &[u8]) -> (res: StoreResult<Option<Vec<u8>>>)
        requires
            self.wf(),
        ensures
            match res {
                Ok(None) => self.slot(key@) is None,
                Ok(Some(v)) => self.slot(key@) == Some(Some(v@)),
                Err(e) => e is Io && self.slot(key@) == Some(None::<Seq<u8>>),
            },
            self.roomy(0) ==> (res matches Ok(Some(v)) ==> v@.len() <= u32::MAX),
    {
        proof {
            if pairs_map(self.pending()).contains_key(key@) {
                let j = crate::memtable::pair_index(self.pending(), key@);
                assert(self.pending()[j].0 == key@);
            }
        }
        match self.memtable.get(key) {
            Some(v) => {
                return Ok(Some(copy_bytes(v.as_slice())));
            },
            None => {},
        }
        let mut i: usize = self.segments.len();
        while i > 0
            invariant
                self.wf(),
                0 <= i <= self.segments@.len(),
                !pairs_map(self.pending()).contains_key(key@),
                forall|j: int| i <= j < self.segments@.len() ==> (#[trigger] self.segments@[j]).slot(key@) is None,
            decreases i,
        {
            i -= 1;
            assert(self.segs()[i as int].wf());
            match self.segments[i].get(key) {
                Ok(None) => {},
                Ok(Some(v)) => {
                    proof {
                        lemma_resolve_at(self.segments@, key@, i as int);
                    }
                    return Ok(Some(v));
                },
                Err(e) => {
                    proof {
                        lemma_resolve_at(self.segments@, key@, i as int);
                    }
                    return Err(e);
                },
            }
        }
        proof {
            lemma_resolve_some(self.segments@, key@);
        }
        Ok(None)
    }

    /// Stores `value` under `key` in the memtable, then seals the memtable if
    /// it has reached the column's row threshold. `Ok(true)` says that it was
    /// sealed. Whether or not sealing succeeds, the column afterwards holds
    /// `value` for `key` and what it held before for every other key.
    #[verifier::rlimit(60)]
    #[verifier::spinoff_prover]
    pub fn insert(&mut self, key: Vec<u8>, value: Vec<u8>) -> (res: StoreResult<bool>)
        requires
            old(self).wf(),
        ensures
            final(self).wf(),
            final(self).col_id() == old(self).col_id(),
            final(self).threshold() == old(self).threshold(),
            final(self).is_merging() == old(self).is_merging(),
            forall|k: Seq<u8>| #[trigger]
                final(self).slot(k) == (if k == key@ {
                    Some(Some(value@))
                } else {
                    old(self).slot(k)
                }),
            res matches Ok(flushed) ==> {
                &&& flushed ==> final(self).pending().len() == 0 && final(self).segs().len() == old(self).segs().len()
                    + 1 && final(self).segs().drop_last() == old(self).segs()
                &&& !flushed ==> final(self).segs() == old(self).segs() && pairs_map(final(self).pending())
                    == pairs_map(old(self).pending()).insert(key@, value@) && final(self).pending().len()
                    < final(self).threshold()
            },
            res matches Err(e) ==> {
                &&& e is InvalidInput
                &&& final(self).segs() == old(self).segs()
                &&& pairs_map(final(self).pending()) == pairs_map(old(self).pending()).insert(key@, value@)
                &&& final(self).pending().len() >= final(self).threshold()
                &&& !final(self).sealable()
            },
            res matches Ok(flushed) ==> flushed == (old(self).rows_with(key@) >= old(self).threshold()),
            res matches Ok(flushed) ==> flushed == fills(old(self).shape(), old(self).threshold() as int, key@),
            res is Ok ==> final(self).shape() == stepped(
                old(self).shape(),
                old(self).threshold() as int,
                key@,
                value@,
            ),
            res is Err ==> final(self).shape() == grown(old(self).shape(), key@, value@),
            res matches Ok(true) ==> {
                &&& final(self).segs().last().spec_id() == old(self).next_id()
                &&& final(self).next_id() == old(self).next_id() + 1
                &&& holds_rows(final(self).segs().last(), pairs_map(old(self).pending()).insert(key@, value@))
            },
            res matches Ok(false) ==> final(self).next_id() == old(self).next_id(),
            old(self).whole() ==> final(self).whole(),
            old(self).segs().len() <= final(self).segs().len() && final(self).segs().take(
                old(self).segs().len() as int,
            ) == old(self).segs(),
            res is Err <==> old(self).rows_with(key@) >= old(self).threshold() && !old(self).sealable_with(
                key@,
                value@,
            ),
            res is Err <==> cannot_take(old(self).shape(), old(self).threshold() as int, key@, value@),
            final(self)@ == old(self)@.insert(key@, Some(value@)),
            final(self).touched(),
            forall|n: int|
                n >= 1 && #[trigger] old(self).roomy(n) && value@.len() <= u32::MAX ==> res is Ok && final(self).roomy(
                    n - 1,
                ),
    {
        let ghost k0 = key@;
        let ghost v0 = value@;
        self.memtable.insert(key, value);
        let ghost mid = *self;
        proof {
            let before = old(self).pending();
            let after = mid.pending();
            lemma_pairs_map(after);
            lemma_pairs_map(before);
            if old(self).sealable_with(k0, v0) {
                assert forall|i: int| 0 <= i < after.len() implies (#[trigger] after[i]).1.len() <= u32::MAX by {
                    let x = after[i].0;
                    assert(pairs_map(after)[x] == after[i].1);
                    if x != k0 {
                        assert(pairs_map(before).contains_key(x));
                        let j = crate::memtable::pair_index(before, x);
                        assert(before[j].0 == x);
                        assert(pairs_map(before)[before[j].0] == before[j].1);
                    }
                }
                assert(mid.sealable());
            }
            if mid.sealable() {
                assert(pairs_map(after).contains_key(k0));
                let j0 = crate::memtable::pair_index(after, k0);
                assert(after[j0].0 == k0);
                assert(pairs_map(after)[after[j0].0] == after[j0].1);
                assert forall|i: int| 0 <= i < before.len() && (#[trigger] before[i]).0 != k0 implies before[i].1.len()
                    <= u32::MAX by {
                    let x = before[i].0;
                    assert(pairs_map(before)[x] == before[i].1);
                    assert(pairs_map(after).contains_key(x));
                    let j = crate::memtable::pair_index(after, x);
                    assert(after[j].0 == x);
                    assert(pairs_map(after)[after[j].0] == after[j].1);
                }
                assert(old(self).sealable_with(k0, v0));
            }
            if value@.len() <= u32::MAX && (forall|i: int|
                0 <= i < before.len() ==> (#[trigger] before[i]).1.len() <= u32::MAX) {
                assert forall|i: int| 0 <= i < after.len() implies (#[trigger] after[i]).1.len() <= u32::MAX by {
                    let x = after[i].0;
                    assert(pairs_map(after)[x] == after[i].1);
                    if x != k0 {
                        assert(pairs_map(before).contains_key(x));
                        let j = crate::memtable::pair_index(before, x);
                        assert(before[j].1.len() <= u32::MAX);
                    }
                }
            }
        }
        assert forall|k: Seq<u8>| #[trigger] mid.slot(k) == (if k == k0 {
            Some(Some(v0))
        } else {
            old(self).slot(k)
        }) by {}
        let res = if self.memtable.len() >= self.segment_size {
            match self.flush() {
                Ok(()) => Ok(true),
                Err(e) => Err(e),
            }
        } else {
            Ok(false)
        };
        proof {
            lemma_view_insert(*old(self), *self, k0, v0);
            assert(pairs_map(Seq::<(Seq<u8>, Seq<u8>)>::empty()) =~= Map::<Seq<u8>, Seq<u8>>::empty());
            assert(mid.shape() == grown(old(self).shape(), k0, v0));
            lemma_pairs_map(mid.pending());
            if mid.sealable() {
                assert forall|k: Seq<u8>| #[trigger] mid.shape().rows.contains_key(k) implies mid.shape().rows[k].len()
                    <= u32::MAX by {
                    let j = crate::memtable::pair_index(mid.pending(), k);
                    assert(mid.pending()[j].0 == k);
                    assert(pairs_map(mid.pending())[mid.pending()[j].0] == mid.pending()[j].1);
                }
            }
            if can_seal(mid.shape()) {
                assert forall|i: int| 0 <= i < mid.pending().len() implies (#[trigger] mid.pending()[i]).1.len()
                    <= u32::MAX by {
                    let k = mid.pending()[i].0;
                    assert(pairs_map(mid.pending()).contains_key(k));
                    assert(pairs_map(mid.pending())[k] == mid.pending()[i].1);
                    assert(mid.shape().rows.contains_key(k));
                    assert(mid.shape().rows[k].len() <= u32::MAX);
                }
            }
            assert(can_seal(mid.shape()) == mid.sealable());
            if res is Ok && res->Ok_0 {
                assert(self.pending() =~= Seq::<(Seq<u8>, Seq<u8>)>::empty());
                assert(self.shape().rows == Map::<Seq<u8>, Seq<u8>>::empty());
                assert(self.shape() == stepped(old(self).shape(), old(self).threshold() as int, k0, v0));
            }
            if res is Ok && res->Ok_0 {
                assert(strictly_ascending(pair_keys(mid.pending())) && pairs_map(mid.pending()) == pairs_map(
                    old(self).pending(),
                ).insert(k0, v0) && sealed(self.segs().last(), mid.pending()) && packed(
                    self.segs().last(),
                    mid.pending(),
                ));
            }
            assert(self.segs().take(old(self).segs().len() as int) =~= old(self).segs());
            if old(self).whole() {
                assert forall|k: Seq<u8>| #[trigger] self.slot(k) != Some(None::<Seq<u8>>) by {
                    assert(old(self).slot(k) != Some(None::<Seq<u8>>));
                }
            }
        }
        res
    }

    /// The keys that the column holds and that start with `prefix`, each
    /// once, in ascending order, whether they come from the memtable or from
    /// a segment of any generation.
    #[verifier::rlimit(60)]
    #[verifier::spinoff_prover]
    pub fn keys_with_prefix(&self, prefix: &[u8]) -> (res: StoreResult<Vec<Vec<u8>>>)
        requires
            self.wf(),
        ensures
            res matches Ok(keys) && strictly_ascending(views(keys@)) && forall|x: Seq<u8>|
                (exists|i: int| 0 <= i < keys@.len() && #[trigger] keys@[i]@ == x) <==> (#[trigger] self.slot(x)) is Some
                    && is_prefix(prefix@, x),
    {
        let mut seen = Memtable::new();
        let range_end: Option<Vec<u8>> = prefix_upper_bound(prefix);
        let ghost p = prefix@;
        let ghost end: Option<Seq<u8>> = upper_bound(p);
        let ghost pairs = self.memtable.pairs();
        let n: usize = self.memtable.len();
        let start: usize = self.memtable.lower_bound(prefix);
        let mut i: usize = start;
        proof {
            lemma_pairs_map(pairs);
            assert forall|j: int| 0 <= j < start implies !is_prefix(p, #[trigger] pairs[j].0) by {
                lemma_prefix_range(p, pairs[j].0);
                lemma_lex_trichotomy(pairs[j].0, p);
            }
        }
        while i < n
            invariant_except_break
                start <= i <= n,
                forall|j: int| 0 <= j < i && is_prefix(p, #[trigger] pairs[j].0) ==> seen@.contains_key(pairs[j].0),
            invariant
                self.wf(),
                n == pairs.len(),
                pairs == self.pending(),
                p == prefix@,
                end == upper_bound(p),
                range_end matches Some(e) ==> end == Some(e@),
                range_end is None ==> end is None,
                seen.wf(),
                forall|j: int| 0 <= j < start ==> lex_lt(#[trigger] pairs[j].0, p),
                forall|j: int| start <= j < n ==> !lex_lt(#[trigger] pairs[j].0, p),
                forall|x: Seq<u8>| #[trigger] seen@.contains_key(x) ==> self.slot(x) is Some && is_prefix(p, x),
            ensures
                forall|j: int| 0 <= j < n && is_prefix(p, #[trigger] pairs[j].0) ==> seen@.contains_key(pairs[j].0),
            decreases n - i,
        {
            let k: &Vec<u8> = self.memtable.key_at(i);
            let in_range: bool = match &range_end {
                Some(e) => bytes_lt(k.as_slice(), e.as_slice()),
                None => starts_with(k.as_slice(), prefix),
            };
            proof {
                lemma_prefix_range(p, k@);
                lemma_lex_trichotomy(k@, p);
            }
            if !in_range {
                proof {
                    assert forall|j: int| i <= j < n implies !is_prefix(p, #[trigger] pairs[j].0) by {
                        lemma_prefix_range(p, pairs[j].0);
                        if j > i {
                            if end is Some && lex_lt(pairs[j].0, end->0) {
                                assert(lex_lt(pair_keys(pairs)[i as int], pair_keys(pairs)[j]));
                                lemma_lex_transitive(k@, pairs[j].0, end->0);
                            }
                        }
                    }
                    assert forall|j: int| 0 <= j < start implies !is_prefix(p, #[trigger] pairs[j].0) by {
                        lemma_prefix_range(p, pairs[j].0);
                        lemma_lex_trichotomy(pairs[j].0, p);
                    }
                }
                break ;
            }
            if starts_with(k.as_slice(), prefix) {
                assert(pairs_map(pairs).contains_key(pairs[i as int].0));
                seen.insert(copy_bytes(k.as_slice()), Vec::new());
            }
            i += 1;
            proof {
                assert forall|j: int| 0 <= j < start implies !is_prefix(p, #[trigger] pairs[j].0) by {
                    lemma_prefix_range(p, pairs[j].0);
                    lemma_lex_trichotomy(pairs[j].0, p);
                }
            }
        }
        let mut t: usize = self.segments.len();
        while t > 0
            invariant
                self.wf(),
                0 <= t <= self.segments@.len(),
                n == pairs.len(),
                pairs == self.pending(),
                p == prefix@,
                end == upper_bound(p),
                range_end matches Some(e) ==> end == Some(e@),
                range_end is None ==> end is None,
                seen.wf(),
                forall|x: Seq<u8>| #[trigger] seen@.contains_key(x) ==> self.slot(x) is Some && is_prefix(p, x),
                forall|j: int| 0 <= j < n && is_prefix(p, #[trigger] pairs[j].0) ==> seen@.contains_key(pairs[j].0),
                forall|u: int, x: Seq<u8>|
                    t <= u < self.segments@.len() && (#[trigger] self.segments@[u].slot(x)) is Some && is_prefix(p, x)
                        ==> seen@.contains_key(x),
            decreases t,
        {
            t -= 1;
            assert(self.segs()[t as int].wf());
            let seg: &Segment = &self.segments[t];
            let keys: Vec<Vec<u8>> = seg.keys_in_range(prefix, &range_end);
            let ghost before = seen@;
            let mut q: usize = 0;
            while q < keys.len()
                invariant_except_break
                    0 <= q <= keys@.len(),
                    forall|r: int| 0 <= r < q ==> seen@.contains_key(#[trigger] keys@[r]@),
                invariant
                    self.wf(),
                    t < self.segments@.len(),
                    *seg == self.segments@[t as int],
                    p == prefix@,
                    end == upper_bound(p),
                    range_end matches Some(e) ==> end == Some(e@),
                    range_end is None ==> end is None,
                    lists_range(keys@, seg.offsets(), p, end),
                    seen.wf(),
                    forall|x: Seq<u8>| #[trigger] before.contains_key(x) ==> seen@.contains_key(x),
                    forall|x: Seq<u8>| #[trigger] seen@.contains_key(x) ==> self.slot(x) is Some && is_prefix(p, x),
                ensures
                    forall|r: int| 0 <= r < keys@.len() ==> seen@.contains_key(#[trigger] keys@[r]@),
                decreases keys@.len() - q,
            {
                let key: &Vec<u8> = &keys[q];
                proof {
                    lemma_prefix_range(p, key@);
                    assert(seg.offsets().contains_key(keys@[q as int]@));
                    assert(seg.slot(key@) is Some);
                    lemma_resolve_some(self.segments@, key@);
                }
                if range_end.is_none() && !starts_with(key.as_slice(), prefix) {
                    break ;
                }
                seen.insert(copy_bytes(key.as_slice()), Vec::new());
                q += 1;
            }
            proof {
                assert forall|u: int, x: Seq<u8>|
                    t <= u < self.segments@.len() && (#[trigger] self.segments@[u].slot(x)) is Some && is_prefix(
                        p,
                        x,
                    ) implies seen@.contains_key(x) by {
                    if u == t {
                        lemma_prefix_range(p, x);
                        let r = choose|r: int| 0 <= r < keys@.len() && #[trigger] keys@[r]@ == x;
                        assert(seen@.contains_key(keys@[r]@));
                    } else {
                        assert(before.contains_key(x));
                    }
                }
            }
        }
        let mut out: Vec<Vec<u8>> = Vec::new();
        let m: usize = seen.len();
        let mut i: usize = 0;
        while i < m
            invariant
                0 <= i <= m,
                m == seen.pairs().len(),
                seen.wf(),
                out@.len() == i,
                forall|j: int| 0 <= j < i ==> (#[trigger] out@[j])@ == seen.pairs()[j].0,
            decreases m - i,
        {
            out.push(copy_bytes(seen.key_at(i).as_slice()));
            i += 1;
        }
        proof {
            assert(views(out@) =~= pair_keys(seen.pairs()));
            assert forall|x: Seq<u8>|
                (exists|i: int| 0 <= i < out@.len() && #[trigger] out@[i]@ == x) <==> (#[trigger] self.slot(x)) is Some
                    && is_prefix(p, x) by {
                if exists|i: int| 0 <= i < out@.len() && #[trigger] out@[i]@ == x {
                    let i = choose|i: int| 0 <= i < out@.len() && #[trigger] out@[i]@ == x;
                    assert(seen.pairs()[i].0 == x);
                    assert(seen@.contains_key(x));
                }
                if self.slot(x) is Some && is_prefix(p, x) {
                    if pairs_map(pairs).contains_key(x) {
                        let j = choose|j: int| 0 <= j < pairs.len() && #[trigger] pairs[j].0 == x;
                        assert(seen@.contains_key(pairs[j].0));
                    } else {
                        lemma_resolve_some(self.segments@, x);
                        let u = choose|u: int|
                            0 <= u < self.segments@.len() && (#[trigger] self.segments@[u]).slot(x) is Some;
                        assert(self.segments@[u].slot(x) is Some);
                    }
                    assert(seen@.contains_key(x));
                    let i = choose|i: int| 0 <= i < seen.pairs().len() && #[trigger] seen.pairs()[i].0 == x;
                    assert(out@[i]@ == x);
                }
            }
        }
        Ok(out)
    }

    /// Compacts the column fully: seals the memtable, then merges all
    /// segments into one where there are two or more. What the column holds
    /// for any key stays as it was. On a column with an empty memtable and at
    /// most one segment nothing changes. Where the merge fails the segments
    /// stay as they were after sealing.
    pub fn multi_way_merge(&mut self) -> (res: StoreResult<()>)
        requires
            old(self).wf(),
        ensures
            final(self).wf(),
            final(self).col_id() == old(self).col_id(),
            final(self).threshold() == old(self).threshold(),
            final(self).is_merging() == old(self).is_merging(),
            forall|k: Seq<u8>| #[trigger] final(self).slot(k) == old(self).slot(k),
            res is Ok ==> final(self).pending().len() == 0 && final(self).segs().len() <= 1,
            res is Ok ==> compacted(*old(self), final(self).segs(), final(self).next_id() as int),
            final(self).touched() == old(self).touched(),
            old(self).pending().len() == 0 && old(self).segs().len() <= 1 ==> {
                &&& res is Ok
                &&& final(self).segs() == old(self).segs()
                &&& final(self).next_id() == old(self).next_id()
            },
            res is Ok <==> old(self).mergeable(),
            res matches Err(e) ==> merge_failure(*old(self), *final(self), e),
    {
        match self.flush() {
            Ok(()) => {},
            Err(e) => {
                return Err(e);
            },
        }
        if self.segments.len() <= 1 {
            return Ok(());
        }
        if self.next_segment_id == u64::MAX {
            return Err(invalid_input("segment ids exhausted"));
        }
        let merge_id: u64 = self.next_segment_id;
        let ghost mid = *self;
        proof {
            lemma_whole_kept(*old(self), mid);
        }
        match merge_segments(&self.segments, merge_id) {
            Err(e) => Err(e),
            Ok(merged) => {
                let mut only: Vec<Segment> = Vec::new();
                only.push(merged);
                self.segments = only;
                self.next_segment_id = merge_id + 1;
                proof {
                    assert(self.segments@ =~= seq![merged]);
                    assert forall|k: Seq<u8>| #[trigger] self.slot(k) == old(self).slot(k) by {
                        lemma_resolve_single(merged, k);
                        assert(merged.slot(k) == resolve(mid.segs(), k));
                        assert(mid.slot(k) == old(self).slot(k));
                    }
                }
                Ok(())
            },
        }
    }

    /// Prepares a background merge. Nothing happens, and `None` is the
    /// answer, while another merge is under way or the column has fewer than
    /// `threshold` segments. Otherwise the memtable is sealed, so that it
    /// takes part, an id is reserved for the merged segment, the column is
    /// marked as merging, and the reserved id, the column's index and the
    /// identity of every segment are handed out.
    pub fn snapshot_for_merge(&mut self, threshold: usize) -> (res: StoreResult<
        Option<(u64, u8, Vec<SegmentMeta>)>,
    >)
        requires
            old(self).wf(),
        ensures
            snapshot_outcome(*old(self), *final(self), threshold, res),
    {
        if self.merging || self.segments.len() < threshold {
            return Ok(None);
        }
        match self.flush() {
            Ok(()) => {},
            Err(e) => {
                return Err(e);
            },
        }
        if self.next_segment_id == u64::MAX {
            return Err(invalid_input("segment ids exhausted"));
        }
        let merge_id: u64 = self.next_segment_id;
        let mut metas: Vec<SegmentMeta> = Vec::new();
        let mut i: usize = 0;
        while i < self.segments.len()
            invariant
                0 <= i <= self.segments@.len(),
                metas@.len() == i,
                forall|j: int|
                    0 <= j < i ==> {
                        &&& (#[trigger] metas@[j]).id == self.segments@[j].spec_id()
                        &&& metas@[j].fst_name@ == index_name(self.id, metas@[j].id)
                        &&& metas@[j].values_name@ == values_name(self.id, metas@[j].id)
                    },
            decreases self.segments@.len() - i,
        {
            let seg_id: u64 = self.segments[i].id();
            let (fst_name, values_name) = segment_paths(self.id, seg_id);
            metas.push(SegmentMeta { id: seg_id, fst_name, values_name });
            i += 1;
        }
        self.next_segment_id = merge_id + 1;
        self.merging = true;
        Ok(Some((merge_id, self.id, metas)))
    }

    /// Gives up a background merge: the column may be merged again.
    pub fn abort_merge(&mut self)
        ensures
            !final(self).is_merging(),
            final(self).col_id() == old(self).col_id(),
            final(self).threshold() == old(self).threshold(),
            final(self).pending() == old(self).pending(),
            final(self).segs() == old(self).segs(),
            final(self).next_id() == old(self).next_id(),
    {
        self.merging = false;
    }

    /// Ends a background merge: the segments that `old_meta` lists leave the
    /// column, `merged` takes the place that its id gives it among those that
    /// stay, and the column may be merged again.
    #[verifier::rlimit(60)]
    #[verifier::spinoff_prover]
    pub fn finish_merge(&mut self, merged: Segment, old_meta: &Vec<SegmentMeta>)
        requires
            old(self).wf(),
            merged.wf(),
            merged.spec_id() < old(self).next_id(),
            forall|i: int|
                0 <= i < old(self).segs().len() && !lists_id(old_meta@, (#[trigger] old(self).segs()[i]).spec_id())
                    ==> old(self).segs()[i].spec_id() != merged.spec_id(),
        ensures
            final(self).wf(),
            !final(self).is_merging(),
            final(self).col_id() == old(self).col_id(),
            final(self).threshold() == old(self).threshold(),
            final(self).pending() == old(self).pending(),
            final(self).next_id() == old(self).next_id(),
            final(self).segs() == placed(kept(old(self).segs(), old_meta@), merged),
    {
        let ghost before = self.segments@;
        let ghost next = self.next_segment_id;
        let ghost gone: int = 0;
        let mut i: usize = 0;
        assert(before.subrange(0, 0) =~= Seq::<Segment>::empty());
        while i < self.segments.len()
            invariant
                0 <= i <= self.segments@.len(),
                0 <= gone,
                self.segments@.len() + gone == before.len(),
                self.segments@.subrange(0, i as int) == kept(before.subrange(0, i + gone), old_meta@),
                self.segments@.subrange(i as int, self.segments@.len() as int) == before.subrange(
                    i + gone,
                    before.len() as int,
                ),
                ids_ascending(self.segments@),
                forall|j: int| 0 <= j < self.segments@.len() ==> (#[trigger] self.segments@[j]).wf(),
                forall|j: int| 0 <= j < self.segments@.len() ==> (#[trigger] self.segments@[j]).spec_id() < next,
                forall|j: int|
                    0 <= j < i ==> !lists_id(old_meta@, (#[trigger] self.segments@[j]).spec_id()) && self.segments@[j].spec_id()
                        != merged.spec_id(),
                forall|j: int|
                    0 <= j < before.len() && !lists_id(old_meta@, (#[trigger] before[j]).spec_id()) ==> before[j].spec_id()
                        != merged.spec_id(),
                self.id == old(self).id,
                self.segment_size == old(self).segment_size,
                self.memtable == old(self).memtable,
                self.next_segment_id == next,
            decreases self.segments@.len() - i,
        {
            let ghost cur = self.segments@;
            let ghost head = before.subrange(0, i + gone + 1);
            proof {
                let tail = cur.subrange(i as int, cur.len() as int);
                let old_tail = before.subrange(i + gone, before.len() as int);
                assert forall|y: int| i <= y < cur.len() implies #[trigger] cur[y] == before[y + gone] by {
                    assert(tail[y - i] == cur[y]);
                    assert(old_tail[y - i] == before[y + gone]);
                }
                assert(cur[i as int] == before[i + gone]);
                assert(head.drop_last() =~= before.subrange(0, i + gone));
                assert(head.last() == before[i + gone]);
            }
            if has_id(old_meta, self.segments[i].id()) {
                self.segments.remove(i);
                proof {
                    gone = gone + 1;
                    assert(self.segments@.subrange(0, i as int) =~= cur.subrange(0, i as int));
                    assert(self.segments@.subrange(i as int, self.segments@.len() as int) =~= before.subrange(
                        i + gone,
                        before.len() as int,
                    ));
                    assert forall|a: int, b: int| 0 <= a < b < self.segments@.len() implies (
                    #[trigger] self.segments@[a]).spec_id() < (#[trigger] self.segments@[b]).spec_id() by {
                        let a0 = if a < i { a } else { a + 1 };
                        let b0 = if b < i { b } else { b + 1 };
                        assert(cur[a0].spec_id() < cur[b0].spec_id());
                    }
                    assert forall|j: int| 0 <= j < self.segments@.len() implies (#[trigger] self.segments@[j]).wf()
                        && self.segments@[j].spec_id() < next by {
                        let j0 = if j < i { j } else { j + 1 };
                        assert(cur[j0].wf());
                    }
                    assert forall|j: int| 0 <= j < i implies !lists_id(
                        old_meta@,
                        (#[trigger] self.segments@[j]).spec_id(),
                    ) && self.segments@[j].spec_id() != merged.spec_id() by {
                        assert(self.segments@[j] == cur[j]);
                    }
                }
            } else {
                proof {
                    assert(cur.subrange(0, i + 1) =~= cur.subrange(0, i as int).push(cur[i as int]));
                    assert(cur.subrange(i + 1, cur.len() as int) =~= before.subrange(
                        i + gone + 1,
                        before.len() as int,
                    ));
                }
                i += 1;
            }
        }
        proof {
            assert(self.segments@.subrange(0, i as int) =~= self.segments@);
            assert(before.subrange(0, before.len() as int) =~= before);
        }
        let ghost rest = self.segments@;
        let mut pos: usize = self.segments.len();
        while pos > 0 && self.segments[pos - 1].id() > merged.id()
            invariant
                0 <= pos <= self.segments@.len(),
                self.segments@ == rest,
                forall|j: int| pos <= j < rest.len() ==> (#[trigger] rest[j]).spec_id() > merged.spec_id(),
            decreases pos,
        {
            pos -= 1;
        }
        proof {
            assert forall|j: int| 0 <= j < pos implies (#[trigger] rest[j]).spec_id() < merged.spec_id() by {
                if j < pos - 1 {
                    assert(rest[j].spec_id() < rest[pos - 1].spec_id());
                }
            }
            lemma_placed(rest, merged, pos as int);
        }
        self.segments.insert(pos, merged);
        self.merging = false;
        proof {
            assert forall|a: int, b: int| 0 <= a < b < self.segments@.len() implies (#[trigger] self.segments@[a]).spec_id()
                < (#[trigger] self.segments@[b]).spec_id() by {
                let a0 = if a < pos { a } else { a - 1 };
                let b0 = if b < pos { b } else { b - 1 };
                if a != pos && b != pos {
                    assert(rest[a0].spec_id() < rest[b0].spec_id());
                } else if a == pos {
                    assert(rest[b0].spec_id() > merged.spec_id());
                } else {
                    assert(rest[a0].spec_id() < merged.spec_id());
                }
            }
            assert forall|j: int| 0 <= j < self.segments@.len() implies (#[trigger] self.segments@[j]).wf()
                && self.segments@[j].spec_id() < next by {
                if j != pos {
                    let j0 = if j < pos { j } else { j - 1 };
                    assert(rest[j0].wf());
                }
            }
        }
    }

    /// Rebuilds column `id` from the files of a store's directory, which are
    /// taken to be files that a store wrote, whole or damaged. Every
    /// file named as an index file of this column becomes a segment, together
    /// with the values file beside it; other files are passed over. The
    /// segments stand in the order of their ids and the next id follows the
    /// greatest. The memtable is empty.
    ///
    /// Fails with `CorruptSegment` where an index file has no values file
    /// beside it or two index files carry one id, with `Fst` where an index
    /// image is not accepted, and with `InvalidInput` where no id is left
    /// after the greatest.
    #[verifier::rlimit(60)]
    #[verifier::spinoff_prover]
    pub fn open(files: &Vec<SegmentFile>, id: u8, segment_size: usize) -> (res: StoreResult<Column>)
        requires
            trusted_files(files@),
        ensures
            match res {
                Ok(c) => opened(c, files@, id, segment_size) && opens(files@, id),
                Err(e) => open_fails(e, files@, id),
            },
    {
        let mut segments: Vec<Segment> = Vec::new();
        let mut i: usize = 0;
        while i < files.len()
            invariant
                0 <= i <= files@.len(),
                trusted_files(files@),
                ids_ascending(segments@),
                forall|j: int| 0 <= j < segments@.len() ==> (#[trigger] segments@[j]).wf(),
                forall|a: int|
                    0 <= a < i && index_file_id(id, files@[a].name@) is Some ==> #[trigger] has_segment(
                        segments@,
                        id,
                        files@,
                        a,
                    ),
                forall|j: int| 0 <= j < segments@.len() ==> has_source(#[trigger] segments@[j], id, files@, i as int),
                forall|a: int, b: int| 0 <= a < i && 0 <= b < i ==> !#[trigger] clash(id, files@, a, b),
                forall|a: int| 0 <= a < i ==> #[trigger] in_order(id, files@, a),
            decreases files@.len() - i,
        {
            let ghost before = segments@;
            match parse_index_name(id, files[i].name.as_slice()) {
                None => {
                    proof {
                        assert forall|j: int| 0 <= j < segments@.len() implies has_source(
                            #[trigger] segments@[j],
                            id,
                            files@,
                            i + 1,
                        ) by {
                            assert(has_source(segments@[j], id, files@, i as int));
                            let a = choose|a: int| 0 <= a < i && #[trigger] recovered(segments@[j], id, files@, a);
                            assert(recovered(segments@[j], id, files@, a));
                        }
                    }
                },
                Some((seg_id, sibling)) => {
                    let v: usize = match find_file(files, sibling.as_slice()) {
                        Some(v) => v,
                        None => {
                            assert(orphan(id, files@, i as int));
                            let e = corrupt_segment("missing values file");
                            assert(stops_at(e, files@, id, i as int));
                            return Err(e);
                        },
                    };
                    let seg = match Segment::open(
                        seg_id,
                        copy_bytes(files[i].data.as_slice()),
                        copy_bytes(files[v].data.as_slice()),
                    ) {
                        Ok(s) => s,
                        Err(e) => {
                            assert(stops_at(e, files@, id, i as int));
                            return Err(e);
                        },
                    };
                    assert(first_named(files@, sibling_name(files@[i as int].name@), v as int));
                    assert(recovered(seg, id, files@, i as int));
                    if !take_in(&mut segments, seg, id, files, i) {
                        let e = corrupt_segment("duplicate segment id");
                        assert(stops_at(e, files@, id, i as int));
                        return Err(e);
                    }
                    proof {
                        assert forall|a: int|
                            0 <= a < i + 1 && index_file_id(id, files@[a].name@) is Some implies #[trigger] has_segment(
                            segments@,
                            id,
                            files@,
                            a,
                        ) by {
                            if a < i {
                                assert(has_segment(before, id, files@, a));
                            }
                        }
                        assert forall|a: int, b: int| 0 <= a < i + 1 && 0 <= b < i + 1 implies !#[trigger] clash(
                            id,
                            files@,
                            a,
                            b,
                        ) by {
                            if a != b && (a == i || b == i) {
                                let other = if a == i { b } else { a };
                                if index_file_id(id, files@[other].name@) == Some(seg_id) {
                                    assert(has_segment(before, id, files@, other));
                                    let j0 = choose|j: int|
                                        0 <= j < before.len() && #[trigger] recovered(before[j], id, files@, other);
                                    assert(before[j0].spec_id() == seg_id);
                                }
                            }
                        }
                    }
                },
            }
            i += 1;
        }
        let next: u64 = if segments.len() == 0 {
            0
        } else {
            let last: u64 = segments[segments.len() - 1].id();
            if last == u64::MAX {
                proof {
                    let j = segments@.len() - 1;
                    assert(has_source(segments@[j], id, files@, files@.len() as int));
                    let a = choose|a: int| 0 <= a < files@.len() && #[trigger] recovered(segments@[j], id, files@, a);
                    assert(index_file_id(id, files@[a].name@) == Some(u64::MAX));
                }
                return Err(invalid_input("segment ids exhausted"));
            }
            proof {
                assert forall|a: int| 0 <= a < files@.len() implies index_file_id(id, (#[trigger] files@[a]).name@)
                    != Some(u64::MAX) by {
                    if index_file_id(id, files@[a].name@) is Some {
                        assert(has_segment(segments@, id, files@, a));
                        let j = choose|j: int|
                            0 <= j < segments@.len() && #[trigger] recovered(segments@[j], id, files@, a);
                        if j < segments@.len() - 1 {
                            assert(segments@[j].spec_id() < segments@[segments@.len() - 1].spec_id());
                        }
                    }
                }
            }
            last + 1
        };
        let c = Column {
            id,
            memtable: Memtable::new(),
            segments,
            next_segment_id: next,
            segment_size,
            merging: false,
        };
        proof {
            assert forall|j: int| 0 <= j < c.segs().len() implies (#[trigger] c.segs()[j]).spec_id() < c.next_id() by {
                if j < c.segs().len() - 1 {
                    assert(c.segs()[j].spec_id() < c.segs()[c.segs().len() - 1].spec_id());
                }
            }
            assert forall|e: StoreError| !#[trigger] open_fails(e, files@, id) by {
                if open_fails(e, files@, id) {
                    if exists|t: int| 0 <= t < files@.len() && #[trigger] stops_at(e, files@, id, t) {
                        let t = choose|t: int| 0 <= t < files@.len() && #[trigger] stops_at(e, files@, id, t);
                        assert(in_order(id, files@, t));
                    } else {
                        let a = choose|a: int|
                            0 <= a < files@.len() && index_file_id(id, (#[trigger] files@[a]).name@) == Some(u64::MAX);
                        assert(has_segment(c.segs(), id, files@, a));
                    }
                }
            }
        }
        Ok(c)
    }

    /// The files that hold the column's segments: for each segment, oldest
    /// first, its index file and then its values file.
    pub fn files(&self) -> (res: Vec<SegmentFile>)
        requires
            self.wf(),
        ensures
            column_files(*self, res@),
            trusted_files(res@),
    {
        let mut out: Vec<SegmentFile> = Vec::new();
        let mut j: usize = 0;
        while j < self.segments.len()
            invariant
                self.wf(),
                0 <= j <= self.segments@.len(),
                out@.len() == 2 * j,
                trusted_files(out@),
                forall|t: int|
                    0 <= t < j ==> {
                        &&& (#[trigger] out@[2 * t]).name@ == index_name(self.id, self.segments@[t].spec_id())
                        &&& image_contents(out@[2 * t].data@) == Some(self.segments@[t].offsets())
                        &&& out@[2 * t + 1].name@ == values_name(self.id, self.segments@[t].spec_id())
                        &&& out@[2 * t + 1].data@ == self.segments@[t].log()
                    },
            decreases self.segments@.len() - j,
        {
            assert(self.segs()[j as int].wf());
            let seg: &Segment = &self.segments[j];
            let (fst_name, values_name) = segment_paths(self.id, seg.id());
            let ghost before = out@;
            out.push(SegmentFile { name: fst_name, data: seg.image() });
            out.push(SegmentFile { name: values_name, data: copy_bytes(seg.values().as_slice()) });
            proof {
                lemma_values_name_ending(self.id, seg.id());
                assert forall|i: int|
                    0 <= i < out@.len() && is_suffix(index_suffix(), (#[trigger] out@[i]).name@) implies trusted_image(
                    out@[i].data@,
                ) by {
                    if i < before.len() {
                        assert(out@[i] == before[i]);
                    }
                }
            }
            j += 1;
        }
        out
    }

    /// `merged` can end a merge that replaces the segments listed in
    /// `old_meta`: its id was handed out by this column and no segment that
    /// stays has it.
    pub open spec fn admits(&self, merged: Segment, old_meta: Seq<SegmentMeta>) -> bool {
        &&& merged.spec_id() < self.next_id()
        &&& forall|i: int|
            0 <= i < self.segs().len() && !lists_id(old_meta, (#[trigger] self.segs()[i]).spec_id()) ==> self.segs()[i].spec_id()
                != merged.spec_id()
    }

    /// Whether `merged` can end a merge that replaces the segments listed in `old_meta`.
    pub fn accepts_merge(&self, merged: &Segment, old_meta: &Vec<SegmentMeta>) -> (ok: bool)
        ensures
            ok == self.admits(*merged, old_meta@),
    {
        if merged.id() >= self.next_segment_id {
            return false;
        }
        let mut i: usize = 0;
        while i < self.segments.len()
            invariant
                0 <= i <= self.segments@.len(),
                forall|j: int|
                    0 <= j < i && !lists_id(old_meta@, (#[trigger] self.segments@[j]).spec_id()) ==> self.segments@[j].spec_id()
                        != merged.spec_id(),
            decreases self.segments@.len() - i,
        {
            if self.segments[i].id() == merged.id() && !has_id(old_meta, self.segments[i].id()) {
                assert(self.segs()[i as int].spec_id() == merged.spec_id());
                return false;
            }
            i += 1;
        }
        true
    }

    /// Runs one whole compaction at once: prepares a merge, merges the
    /// segments and puts the result in their place. `Ok(false)` says that no
    /// merge was due, and then nothing has changed. What the column holds for
    /// any key stays as it was, also where the merge fails; then the segments
    /// stay as they were after sealing and the column may be merged again.
    pub fn compact(&mut self, threshold: usize) -> (res: StoreResult<bool>)
        requires
            old(self).wf(),
        ensures
            compact_outcome(*old(self), *final(self), threshold, res),
    {
        let job = match self.snapshot_for_merge(threshold) {
            Ok(Some(job)) => job,
            Ok(None) => {
                return Ok(false);
            },
            Err(e) => {
                return Err(e);
            },
        };
        let ghost mid = *self;
        proof {
            lemma_whole_kept(*old(self), mid);
        }
        let (merge_id, _col, metas) = job;
        match merge_segments(&self.segments, merge_id) {
            Err(e) => {
                self.abort_merge();
                proof {
                    assert forall|k: Seq<u8>| #[trigger] self.slot(k) == old(self).slot(k) by {
                        assert(self.slot(k) == mid.slot(k));
                        assert(mid.slot(k) == old(self).slot(k));
                    }
                }
                Err(e)
            },
            Ok(merged) => {
                proof {
                    assert forall|i: int| 0 <= i < mid.segs().len() implies lists_id(
                        metas@,
                        (#[trigger] mid.segs()[i]).spec_id(),
                    ) by {
                        assert(metas@[i].id == mid.segs()[i].spec_id());
                    }
                    lemma_kept_none(mid.segs(), metas@);
                }
                self.finish_merge(merged, &metas);
                proof {
                    assert(self.segments@ =~= seq![merged]);
                    assert forall|k: Seq<u8>| #[trigger] self.slot(k) == old(self).slot(k) by {
                        lemma_resolve_single(merged, k);
                        assert(merged.slot(k) == resolve(mid.segs(), k));
                        assert(mid.slot(k) == old(self).slot(k));
                    }
                }
                Ok(true)
            },
        }
    }
}

} // verus!
