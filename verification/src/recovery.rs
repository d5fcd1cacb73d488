//! What holds of a store that is opened again from the files that a store
//! left: each column has the segments that were written, and holds for every
//! key what those segments held, whatever files of other columns stand
//! beside its own.

use vstd::prelude::*;
use crate::column::{
    clash, column_files, first_named, has_segment, has_source, open_fails, opened, orphan, recovered, Column,
};
use crate::index::image_contents;
use crate::names::{lemma_index_name_of_other_column, lemma_values_name_ending};
use crate::names::is_suffix;
use crate::error::StoreError;
use crate::merge::resolve;
use crate::names::{
    column_prefix, index_file_id, index_name, index_suffix, lemma_index_name_parses, lemma_padded_value, padded,
    sibling_name, ten_to, values_name, values_suffix,
};
use crate::segment::{Segment, SegmentFile};
use crate::store::holds_files;

verus! {

/// The ids of a list of segments, in order.
pub open spec fn ids_of(segs: Seq<Segment>) -> Seq<u64> {
    Seq::new(segs.len(), |i: int| segs[i].spec_id())
}

/// The numbers of a sequence ascend strictly.
pub open spec fn ascending(s: Seq<u64>) -> bool {
    forall|i: int, j: int| 0 <= i < j < s.len() ==> s[i] < s[j]
}

/// Two strictly ascending sequences with the same members are the same sequence.
pub proof fn lemma_same_members(a: Seq<u64>, b: Seq<u64>)
    requires
        ascending(a),
        ascending(b),
        forall|x: u64| a.contains(x) <==> b.contains(x),
    ensures
        a == b,
    decreases a.len(),
{
    if a.len() == 0 {
        if b.len() > 0 {
            assert(b.contains(b[0]));
        }
        assert(a =~= b);
    } else {
        assert(a.contains(a.last()));
        assert(b.contains(a.last()));
        let ib = choose|i: int| 0 <= i < b.len() && b[i] == a.last();
        assert(b.contains(b.last()));
        assert(a.contains(b.last()));
        let ia = choose|i: int| 0 <= i < a.len() && a[i] == b.last();
        assert(a.last() == b.last());
        let a0 = a.drop_last();
        let b0 = b.drop_last();
        assert forall|x: u64| a0.contains(x) <==> b0.contains(x) by {
            if a0.contains(x) {
                let i = choose|i: int| 0 <= i < a0.len() && a0[i] == x;
                assert(a[i] == x);
                assert(a.contains(x));
                let j = choose|j: int| 0 <= j < b.len() && b[j] == x;
                assert(b0[j] == x);
            }
            if b0.contains(x) {
                let i = choose|i: int| 0 <= i < b0.len() && b0[i] == x;
                assert(b[i] == x);
                assert(b.contains(x));
                let j = choose|j: int| 0 <= j < a.len() && a[j] == x;
                assert(a0[j] == x);
            }
        }
        lemma_same_members(a0, b0);
        assert(a =~= a0.push(a.last()));
        assert(b =~= b0.push(b.last()));
    }
}

/// Two lists of segments that hold the same, position by position, hold the same as lists.
pub proof fn lemma_resolve_alike(a: Seq<Segment>, b: Seq<Segment>, key: Seq<u8>)
    requires
        a.len() == b.len(),
        forall|i: int| 0 <= i < a.len() ==> (#[trigger] a[i]).slot(key) == b[i].slot(key),
    ensures
        resolve(a, key) == resolve(b, key),
    decreases a.len(),
{
    if a.len() > 0 {
        assert(a.last().slot(key) == b.last().slot(key)) by {
            assert(a[a.len() - 1].slot(key) == b[a.len() - 1].slot(key));
        }
        assert forall|i: int| 0 <= i < a.drop_last().len() implies (#[trigger] a.drop_last()[i]).slot(key)
            == b.drop_last()[i].slot(key) by {
            assert(a[i].slot(key) == b[i].slot(key));
        }
        lemma_resolve_alike(a.drop_last(), b.drop_last(), key);
    }
}

/// The names of the values files of two segments of one column differ if the ids do.
pub proof fn lemma_values_name_tells_id(col: u8, a: u64, b: u64)
    requires
        values_name(col, a) == values_name(col, b),
    ensures
        a == b,
{
    reveal_with_fuel(ten_to, 21);
    lemma_padded_value(a as nat, 20);
    lemma_padded_value(b as nat, 20);
    let p = column_prefix(col);
    let na = values_name(col, a);
    let nb = values_name(col, b);
    assert(na.subrange(p.len() as int, p.len() as int + 20) =~= padded(a as nat, 20));
    assert(nb.subrange(p.len() as int, p.len() as int + 20) =~= padded(b as nat, 20));
}

/// The name of a values file is not the name of an index file.
pub proof fn lemma_values_name_is_no_index_name(col: u8, a: u64, b: u64)
    ensures
        values_name(col, a) != index_name(col, b),
{
    reveal_with_fuel(ten_to, 21);
    lemma_padded_value(a as nat, 20);
    lemma_padded_value(b as nat, 20);
    let p = column_prefix(col);
    let na = values_name(col, a);
    let nb = index_name(col, b);
    assert(na[p.len() as int + 21] == values_suffix()[1]);
    assert(nb[p.len() as int + 21] == index_suffix()[1]);
}

/// The file at position `a` is the index file of segment `j` of the column.
pub open spec fn index_file_at(f: Seq<SegmentFile>, a: int, c: Column, j: int) -> bool {
    &&& f[a].name@ == index_name(c.col_id(), c.segs()[j].spec_id())
    &&& image_contents(f[a].data@) == Some(c.segs()[j].offsets())
}

/// The files hold the index file of segment `j` of the column.
pub open spec fn has_index_file(f: Seq<SegmentFile>, c: Column, j: int) -> bool {
    exists|a: int| 0 <= a < f.len() && #[trigger] index_file_at(f, a, c, j)
}

/// The file at position `a` is the index file of a segment of the column.
pub open spec fn is_index_file_of(f: Seq<SegmentFile>, a: int, c: Column) -> bool {
    exists|j: int| 0 <= j < c.segs().len() && #[trigger] index_file_at(f, a, c, j)
}

/// The file at position `v` bears the name of the values file of segment `j` of the column.
pub open spec fn values_file_at(f: Seq<SegmentFile>, v: int, c: Column, j: int) -> bool {
    f[v].name@ == values_name(c.col_id(), c.segs()[j].spec_id())
}

/// The files hold a values file for segment `j` of the column.
pub open spec fn has_values_file(f: Seq<SegmentFile>, c: Column, j: int) -> bool {
    exists|v: int| 0 <= v < f.len() && #[trigger] values_file_at(f, v, c, j)
}

/// The files hold the segments of the column, wherever they stand: the
/// index file and the values file of each segment, no other index file of
/// the column, none twice, and under the name of a values file only its log.
pub open spec fn holds_column(c: Column, f: Seq<SegmentFile>) -> bool {
    &&& forall|j: int| 0 <= j < c.segs().len() ==> #[trigger] has_index_file(f, c, j)
    &&& forall|j: int| 0 <= j < c.segs().len() ==> #[trigger] has_values_file(f, c, j)
    &&& forall|a: int|
        0 <= a < f.len() && index_file_id(c.col_id(), f[a].name@) is Some ==> #[trigger] is_index_file_of(f, a, c)
    &&& forall|v: int, j: int|
        0 <= v < f.len() && 0 <= j < c.segs().len() && #[trigger] values_file_at(f, v, c, j) ==> f[v].data@
            == c.segs()[j].log()
    &&& forall|a: int, b: int| 0 <= a < f.len() && 0 <= b < f.len() ==> !#[trigger] clash(c.col_id(), f, a, b)
}

/// The file is none of column `col`: it is not named as an index file of
/// the column, nor as a values file of it.
pub open spec fn foreign(col: u8, file: SegmentFile) -> bool {
    &&& index_file_id(col, file.name@) is None
    &&& forall|id: u64| file.name@ != #[trigger] values_name(col, id)
}

/// No file of `f` is one of column `col`.
pub open spec fn all_foreign(col: u8, f: Seq<SegmentFile>) -> bool {
    forall|i: int| 0 <= i < f.len() ==> foreign(col, #[trigger] f[i])
}

/// The files that a column keeps hold the segments of the column.
pub proof fn lemma_own_files(c: Column, f: Seq<SegmentFile>)
    requires
        c.wf(),
        column_files(c, f),
    ensures
        holds_column(c, f),
{
    let col = c.col_id();
    assert forall|j: int| 0 <= j < c.segs().len() implies #[trigger] has_index_file(f, c, j) by {
        assert(f[2 * j].name@ == index_name(col, c.segs()[j].spec_id()));
        assert(index_file_at(f, 2 * j, c, j));
    }
    assert forall|j: int| 0 <= j < c.segs().len() implies #[trigger] has_values_file(f, c, j) by {
        assert(f[2 * j].name@ == index_name(col, c.segs()[j].spec_id()));
        assert(values_file_at(f, 2 * j + 1, c, j));
    }
    assert forall|a: int| 0 <= a < f.len() && index_file_id(col, f[a].name@) is Some implies #[trigger] is_index_file_of(
        f,
        a,
        c,
    ) by {
        let j = a / 2;
        assert(f[2 * j].name@ == index_name(col, c.segs()[j].spec_id()));
        lemma_index_name_parses(col, c.segs()[j].spec_id());
        if a % 2 == 1 {
            assert(f[2 * j + 1].name@ == values_name(col, c.segs()[j].spec_id()));
            assert(false);
        }
        assert(index_file_at(f, a, c, j));
    }
    assert forall|v: int, j: int|
        0 <= v < f.len() && 0 <= j < c.segs().len() && #[trigger] values_file_at(f, v, c, j) implies f[v].data@
        == c.segs()[j].log() by {
        let t = v / 2;
        assert(f[2 * t].name@ == index_name(col, c.segs()[t].spec_id()));
        if v % 2 == 0 {
            lemma_values_name_is_no_index_name(col, c.segs()[j].spec_id(), c.segs()[t].spec_id());
            assert(false);
        }
        assert(f[2 * t + 1].name@ == values_name(col, c.segs()[t].spec_id()));
        lemma_values_name_tells_id(col, c.segs()[j].spec_id(), c.segs()[t].spec_id());
        if t < j {
            assert(c.segs()[t].spec_id() < c.segs()[j].spec_id());
        } else if j < t {
            assert(c.segs()[j].spec_id() < c.segs()[t].spec_id());
        }
    }
    assert forall|a: int, b: int| 0 <= a < f.len() && 0 <= b < f.len() implies !#[trigger] clash(col, f, a, b) by {
        if clash(col, f, a, b) {
            let s = a / 2;
            let t = b / 2;
            assert(f[2 * s].name@ == index_name(col, c.segs()[s].spec_id()));
            assert(f[2 * t].name@ == index_name(col, c.segs()[t].spec_id()));
            lemma_index_name_parses(col, c.segs()[s].spec_id());
            lemma_index_name_parses(col, c.segs()[t].spec_id());
            if a % 2 == 1 {
                assert(f[2 * s + 1].name@ == values_name(col, c.segs()[s].spec_id()));
                assert(false);
            }
            if b % 2 == 1 {
                assert(f[2 * t + 1].name@ == values_name(col, c.segs()[t].spec_id()));
                assert(false);
            }
            if s < t {
                assert(c.segs()[s].spec_id() < c.segs()[t].spec_id());
            } else if t < s {
                assert(c.segs()[t].spec_id() < c.segs()[s].spec_id());
            }
        }
    }
}

/// The files that a column keeps are none of another column.
pub proof fn lemma_files_of_other_column(c: Column, f: Seq<SegmentFile>, col: u8)
    requires
        column_files(c, f),
        c.col_id() != col,
    ensures
        all_foreign(col, f),
{
    let own = c.col_id();
    assert forall|i: int| 0 <= i < f.len() implies foreign(col, #[trigger] f[i]) by {
        let j = i / 2;
        let id = c.segs()[j].spec_id();
        assert(f[2 * j].name@ == index_name(own, id));
        assert(f[2 * j + 1].name@ == values_name(own, id));
        lemma_index_name_of_other_column(own, col, id);
        lemma_values_name_ending(own, id);
        lemma_index_name_parses(own, id);
        assert forall|other: u64| f[i].name@ != #[trigger] values_name(col, other) by {
            lemma_index_name_parses(col, other);
            lemma_values_name_ending(col, other);
            if f[i].name@ == values_name(col, other) {
                if i % 2 == 0 {
                    assert(is_suffix(index_suffix(), index_name(own, id)));
                } else {
                    // the two index names would be one, and name a file of both columns
                    let a = index_name(own, id);
                    let b = index_name(col, other);
                    assert(sibling_name(a) == sibling_name(b));
                    assert(a =~= sibling_name(a).subrange(0, sibling_name(a).len() - 4) + index_suffix());
                    assert(b =~= sibling_name(b).subrange(0, sibling_name(b).len() - 4) + index_suffix());
                    assert(false);
                }
            }
        }
    }
}

/// Files that hold the segments of a column still do so with files before
/// and behind them that are none of the column.
pub proof fn lemma_holds_among(c: Column, pre: Seq<SegmentFile>, g: Seq<SegmentFile>, post: Seq<SegmentFile>)
    requires
        holds_column(c, g),
        all_foreign(c.col_id(), pre),
        all_foreign(c.col_id(), post),
    ensures
        holds_column(c, pre + g + post),
{
    let col = c.col_id();
    let f = pre + g + post;
    let p = pre.len() as int;
    assert forall|i: int| 0 <= i < f.len() implies (if p <= i < p + g.len() {
        f[i] == g[i - p]
    } else {
        foreign(col, #[trigger] f[i])
    }) by {
        if i < p {
            assert(f[i] == pre[i]);
        } else if i >= p + g.len() {
            assert(f[i] == post[i - p - g.len()]);
        }
    }
    assert forall|j: int| 0 <= j < c.segs().len() implies #[trigger] has_index_file(f, c, j) by {
        assert(has_index_file(g, c, j));
        let a = choose|a: int| 0 <= a < g.len() && #[trigger] index_file_at(g, a, c, j);
        assert(f[a + p] == g[a]);
        assert(index_file_at(f, a + p, c, j));
    }
    assert forall|j: int| 0 <= j < c.segs().len() implies #[trigger] has_values_file(f, c, j) by {
        assert(has_values_file(g, c, j));
        let v = choose|v: int| 0 <= v < g.len() && #[trigger] values_file_at(g, v, c, j);
        assert(f[v + p] == g[v]);
        assert(values_file_at(f, v + p, c, j));
    }
    assert forall|a: int| 0 <= a < f.len() && index_file_id(col, f[a].name@) is Some implies #[trigger] is_index_file_of(
        f,
        a,
        c,
    ) by {
        assert(p <= a < p + g.len()) by {
            assert(f[a] == f[a]);
        }
        assert(is_index_file_of(g, a - p, c));
        let j = choose|j: int| 0 <= j < c.segs().len() && #[trigger] index_file_at(g, a - p, c, j);
        assert(index_file_at(f, a, c, j));
    }
    assert forall|v: int, j: int|
        0 <= v < f.len() && 0 <= j < c.segs().len() && #[trigger] values_file_at(f, v, c, j) implies f[v].data@
        == c.segs()[j].log() by {
        if p <= v < p + g.len() {
            assert(values_file_at(g, v - p, c, j));
        } else {
            assert(foreign(col, f[v]));
            assert(f[v].name@ != values_name(col, c.segs()[j].spec_id()));
        }
    }
    assert forall|a: int, b: int| 0 <= a < f.len() && 0 <= b < f.len() implies !#[trigger] clash(col, f, a, b) by {
        if clash(col, f, a, b) {
            assert(foreign(col, f[a]) || p <= a < p + g.len());
            assert(foreign(col, f[b]) || p <= b < p + g.len());
            assert(clash(col, g, a - p, b - p));
        }
    }
}

/// A column that is rebuilt from files that hold the segments of a column
/// has the same segments, by id, index and values log, and holds for every
/// key what that column's segments hold.
pub proof fn lemma_reopen_among(c: Column, f: Seq<SegmentFile>, back: Column, segment_size: usize, key: Seq<u8>)
    requires
        c.wf(),
        holds_column(c, f),
        opened(back, f, c.col_id(), segment_size),
    ensures
        back.segs().len() == c.segs().len(),
        forall|j: int|
            0 <= j < c.segs().len() ==> (#[trigger] back.segs()[j]).spec_id() == c.segs()[j].spec_id()
                && back.segs()[j].offsets() == c.segs()[j].offsets() && back.segs()[j].log() == c.segs()[j].log(),
        resolve(back.segs(), key) == resolve(c.segs(), key),
        back.next_id() <= c.next_id(),
{
    let col = c.col_id();
    let a = ids_of(back.segs());
    let b = ids_of(c.segs());
    assert forall|x: u64| a.contains(x) <==> b.contains(x) by {
        if a.contains(x) {
            let t = choose|t: int| 0 <= t < a.len() && a[t] == x;
            assert(has_source(back.segs()[t], col, f, f.len() as int));
            let src = choose|src: int| 0 <= src < f.len() && #[trigger] recovered(back.segs()[t], col, f, src);
            let j = lemma_recovered_among(c, f, back.segs()[t], src);
            assert(b[j] == x);
        }
        if b.contains(x) {
            let j = choose|j: int| 0 <= j < b.len() && b[j] == x;
            assert(has_index_file(f, c, j));
            let src = choose|src: int| 0 <= src < f.len() && #[trigger] index_file_at(f, src, c, j);
            lemma_index_name_parses(col, c.segs()[j].spec_id());
            assert(has_segment(back.segs(), col, f, src));
            let t = choose|t: int| 0 <= t < back.segs().len() && #[trigger] recovered(back.segs()[t], col, f, src);
            assert(a[t] == x);
        }
    }
    assert(ascending(a)) by {
        assert forall|i: int, j: int| 0 <= i < j < a.len() implies a[i] < a[j] by {
            assert(back.segs()[i].spec_id() < back.segs()[j].spec_id());
        }
    }
    assert(ascending(b)) by {
        assert forall|i: int, j: int| 0 <= i < j < b.len() implies b[i] < b[j] by {
            assert(c.segs()[i].spec_id() < c.segs()[j].spec_id());
        }
    }
    lemma_same_members(a, b);
    assert(a.len() == b.len());
    assert forall|j: int| 0 <= j < c.segs().len() implies (#[trigger] back.segs()[j]).spec_id() == c.segs()[j].spec_id()
        && back.segs()[j].offsets() == c.segs()[j].offsets() && back.segs()[j].log() == c.segs()[j].log() by {
        assert(a[j] == b[j]);
        assert(has_source(back.segs()[j], col, f, f.len() as int));
        let src = choose|src: int| 0 <= src < f.len() && #[trigger] recovered(back.segs()[j], col, f, src);
        let t = lemma_recovered_among(c, f, back.segs()[j], src);
        if t < j {
            assert(c.segs()[t].spec_id() < c.segs()[j].spec_id());
        } else if j < t {
            assert(c.segs()[j].spec_id() < c.segs()[t].spec_id());
        }
    }
    lemma_resolve_alike(back.segs(), c.segs(), key);
    if c.segs().len() > 0 {
        assert(back.segs().last() == back.segs()[c.segs().len() - 1]);
        assert(c.segs()[c.segs().len() - 1].spec_id() < c.next_id());
    }
}

/// A segment rebuilt from files that hold the segments of a column is one
/// of the column's segments: it has the id, the index and the values log of
/// one of them.
pub proof fn lemma_recovered_among(c: Column, f: Seq<SegmentFile>, s: Segment, a: int) -> (j: int)
    requires
        c.wf(),
        holds_column(c, f),
        0 <= a < f.len(),
        recovered(s, c.col_id(), f, a),
    ensures
        0 <= j < c.segs().len(),
        s.spec_id() == c.segs()[j].spec_id(),
        s.offsets() == c.segs()[j].offsets(),
        s.log() == c.segs()[j].log(),
{
    let col = c.col_id();
    assert(is_index_file_of(f, a, c));
    let j = choose|j: int| 0 <= j < c.segs().len() && #[trigger] index_file_at(f, a, c, j);
    lemma_index_name_parses(col, c.segs()[j].spec_id());
    let v = choose|v: int| #[trigger] first_named(f, sibling_name(f[a].name@), v) && f[v].data@ == s.log();
    assert(values_file_at(f, v, c, j));
    j
}

/// Files that hold the segments of a column can be opened as that column:
/// none of the reasons for which rebuilding a column fails holds of them.
pub proof fn lemma_reopen_among_succeeds(c: Column, f: Seq<SegmentFile>, e: StoreError)
    requires
        c.wf(),
        holds_column(c, f),
    ensures
        !open_fails(e, f, c.col_id()),
{
    let col = c.col_id();
    assert forall|i: int| 0 <= i < f.len() implies !#[trigger] orphan(col, f, i) by {
        if index_file_id(col, f[i].name@) is Some {
            assert(is_index_file_of(f, i, c));
            let j = choose|j: int| 0 <= j < c.segs().len() && #[trigger] index_file_at(f, i, c, j);
            lemma_index_name_parses(col, c.segs()[j].spec_id());
            assert(has_values_file(f, c, j));
            let v = choose|v: int| 0 <= v < f.len() && #[trigger] values_file_at(f, v, c, j);
            assert(f[v].name@ == sibling_name(f[i].name@));
        }
    }
    assert forall|i: int| 0 <= i < f.len() && index_file_id(col, (#[trigger] f[i]).name@) is Some implies image_contents(
        f[i].data@,
    ) is Some && index_file_id(col, f[i].name@) != Some(u64::MAX) by {
        assert(is_index_file_of(f, i, c));
        let j = choose|j: int| 0 <= j < c.segs().len() && #[trigger] index_file_at(f, i, c, j);
        lemma_index_name_parses(col, c.segs()[j].spec_id());
        assert(c.segs()[j].spec_id() < c.next_id());
    }
}

/// The files of the first `n` columns of a store hold the segments of each
/// of these columns, and are none of any later column.
pub proof fn lemma_store_files(cols: Seq<Column>, n: int, f: Seq<SegmentFile>)
    requires
        0 <= n <= cols.len(),
        holds_files(cols, n, f),
        forall|i: int| 0 <= i < cols.len() ==> (#[trigger] cols[i]).wf() && cols[i].col_id() == i,
    ensures
        forall|i: int| 0 <= i < n ==> holds_column(#[trigger] cols[i], f),
        forall|col: u8| col >= n ==> #[trigger] all_foreign(col, f),
    decreases n,
{
    if n > 0 {
        let cut = choose|cut: int|
            0 <= cut <= f.len() && holds_files(cols, n - 1, #[trigger] f.subrange(0, cut)) && column_files(
                cols[n - 1],
                f.subrange(cut, f.len() as int),
            );
        let before = f.subrange(0, cut);
        let own = f.subrange(cut, f.len() as int);
        let c = cols[n - 1];
        let none = Seq::<SegmentFile>::empty();
        lemma_store_files(cols, n - 1, before);
        assert(before + own =~= f);
        lemma_own_files(c, own);
        assert(all_foreign(c.col_id(), before));
        lemma_holds_among(c, before, own, none);
        assert(before + own + none =~= f);
        assert forall|i: int| 0 <= i < n implies holds_column(#[trigger] cols[i], f) by {
            if i < n - 1 {
                lemma_files_of_other_column(c, own, cols[i].col_id());
                lemma_holds_among(cols[i], none, before, own);
                assert(none + before + own =~= f);
            }
        }
        assert forall|col: u8| col >= n implies #[trigger] all_foreign(col, f) by {
            assert(all_foreign(col, before));
            lemma_files_of_other_column(c, own, col);
            assert forall|i: int| 0 <= i < f.len() implies foreign(col, #[trigger] f[i]) by {
                if i < cut {
                    assert(f[i] == before[i]);
                } else {
                    assert(f[i] == own[i - cut]);
                }
            }
        }
    }
}

/// The column `back` is the column `c` as it is opened again from files
/// that hold its segments: it has the same segments, by id, index and values
/// log, in the same order, and an empty memtable; so its segments hold for
/// every key what those of `c` hold.
pub open spec fn reopened(back: Column, c: Column) -> bool {
    &&& back.wf()
    &&& back.col_id() == c.col_id()
    &&& back.pending().len() == 0
    &&& !back.is_merging()
    &&& back.segs().len() == c.segs().len()
    &&& forall|j: int|
        0 <= j < c.segs().len() ==> (#[trigger] back.segs()[j]).spec_id() == c.segs()[j].spec_id()
            && back.segs()[j].offsets() == c.segs()[j].offsets() && back.segs()[j].log() == c.segs()[j].log()
    &&& forall|k: Seq<u8>| #[trigger] resolve(back.segs(), k) == resolve(c.segs(), k)
    &&& back.next_id() == (if back.segs().len() == 0 {
        0int
    } else {
        back.segs().last().spec_id() + 1
    })
}

/// A column opened from files that hold the segments of a column is that
/// column opened again.
pub proof fn lemma_reopened(c: Column, f: Seq<SegmentFile>, back: Column, segment_size: usize)
    requires
        c.wf(),
        holds_column(c, f),
        opened(back, f, c.col_id(), segment_size),
    ensures
        reopened(back, c),
{
    lemma_reopen_among(c, f, back, segment_size, Seq::empty());
    assert forall|k: Seq<u8>| #[trigger] resolve(back.segs(), k) == resolve(c.segs(), k) by {
        lemma_reopen_among(c, f, back, segment_size, k);
    }
}

/// A column that is rebuilt from the files of a column has the same
/// segments, by id, index and values log, and holds for every key what that
/// column's segments hold.
pub proof fn lemma_reopen(c: Column, f: Seq<SegmentFile>, back: Column, segment_size: usize, key: Seq<u8>)
    requires
        c.wf(),
        column_files(c, f),
        opened(back, f, c.col_id(), segment_size),
    ensures
        back.segs().len() == c.segs().len(),
        forall|j: int|
            0 <= j < c.segs().len() ==> (#[trigger] back.segs()[j]).spec_id() == c.segs()[j].spec_id()
                && back.segs()[j].offsets() == c.segs()[j].offsets() && back.segs()[j].log() == c.segs()[j].log(),
        resolve(back.segs(), key) == resolve(c.segs(), key),
        back.next_id() <= c.next_id(),
{
    lemma_own_files(c, f);
    lemma_reopen_among(c, f, back, segment_size, key);
}

/// The files of a column can be opened again: none of the reasons for
/// which rebuilding a column fails holds of them.
pub proof fn lemma_reopen_succeeds(c: Column, f: Seq<SegmentFile>, e: StoreError)
    requires
        c.wf(),
        column_files(c, f),
    ensures
        !open_fails(e, f, c.col_id()),
{
    lemma_own_files(c, f);
    lemma_reopen_among_succeeds(c, f, e);
}

} // verus!
