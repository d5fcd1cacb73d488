//! The layouts as mathematics: what a write does to the tables of a store
//! and what a read finds in them. A table is a column seen as a mapping.

use vstd::prelude::*;
use crate::layout::Layout;

verus! {

/// A column as a mapping from key to value; `None` stands for a value that
/// cannot be read.
pub type Table = Map<Seq<u8>, Option<Seq<u8>>>;

/// What a table holds for `key`: `None` where it does not hold the key.
pub open spec fn at(t: Table, key: Seq<u8>) -> Option<Option<Seq<u8>>> {
    if t.contains_key(key) {
        Some(t[key])
    } else {
        None
    }
}

/// The table holds `key` with the value `value`.
pub open spec fn binds(t: Table, key: Seq<u8>, value: Seq<u8>) -> bool {
    at(t, key) == Some(Some(value))
}

/// The tables with `value` written under `key` in table `c`.
pub open spec fn written(tables: Seq<Table>, c: int, key: Seq<u8>, value: Seq<u8>) -> Seq<Table> {
    tables.update(c, tables[c].insert(key, Some(value)))
}

/// The state of a commit in progress: the tables, and for each value that
/// this commit introduced the birth key that it gave the value.
pub struct CommitState {
    pub tables: Seq<Table>,
    pub fresh: Map<Seq<u8>, Seq<u8>>,
}

/// The birth key under which the dictionary layout files `value`, written
/// under `key`: the one that this commit gave it, else the one that the
/// store holds for it, else `key` itself.
pub open spec fn birth_key(value_to_birth: Table, fresh: Map<Seq<u8>, Seq<u8>>, key: Seq<u8>, value: Seq<u8>) -> Seq<
    u8,
> {
    if fresh.contains_key(value) {
        fresh[value]
    } else if value_to_birth.contains_key(value) && value_to_birth[value] is Some {
        value_to_birth[value]->0
    } else {
        key
    }
}

/// The dictionary layout cannot file `value` because the store holds a birth
/// key for it that cannot be read.
pub open spec fn blocked(layout: Layout, s: CommitState, value: Seq<u8>) -> bool {
    match layout {
        Layout::Dictionary { value_to_birth_key, .. } => !s.fresh.contains_key(value) && at(
            s.tables[value_to_birth_key as int],
            value,
        ) == Some(None::<Seq<u8>>),
        _ => false,
    }
}

/// The state after one entry is written in the given layout.
pub open spec fn put(layout: Layout, s: CommitState, key: Seq<u8>, value: Seq<u8>) -> CommitState {
    match layout {
        Layout::Plain { key_to_value } => CommitState {
            tables: written(s.tables, key_to_value as int, key, value),
            fresh: s.fresh,
        },
        Layout::UniqueIndex { key_to_value, value_to_key } => CommitState {
            tables: written(written(s.tables, key_to_value as int, key, value), value_to_key as int, value, key),
            fresh: s.fresh,
        },
        Layout::Range { key_to_value, value_key_btree } => CommitState {
            tables: written(
                written(s.tables, key_to_value as int, key, value),
                value_key_btree as int,
                value + key,
                Seq::empty(),
            ),
            fresh: s.fresh,
        },
        Layout::Dictionary { key_to_birth_key, birth_key_to_value, value_to_birth_key, birth_key_key_btree } => {
            let known = s.tables[value_to_birth_key as int];
            let pk = birth_key(known, s.fresh, key, value);
            let introduced = !s.fresh.contains_key(value) && !known.contains_key(value);
            let is_new = s.fresh.contains_key(value) || !known.contains_key(value);
            let interned = if is_new {
                written(written(s.tables, value_to_birth_key as int, value, pk), birth_key_to_value as int, pk, value)
            } else {
                s.tables
            };
            CommitState {
                tables: written(
                    written(interned, key_to_birth_key as int, key, pk),
                    birth_key_key_btree as int,
                    pk + key,
                    Seq::empty(),
                ),
                fresh: if introduced {
                    s.fresh.insert(value, key)
                } else {
                    s.fresh
                },
            }
        },
    }
}

/// One write into a column: the column's index, the key and the value.
pub struct ColumnWrite {
    pub column: int,
    pub key: Seq<u8>,
    pub value: Seq<u8>,
}

/// The writes that one entry makes in the given layout, in the order in
/// which they are made.
pub open spec fn writes_of(layout: Layout, s: CommitState, key: Seq<u8>, value: Seq<u8>) -> Seq<ColumnWrite> {
    match layout {
        Layout::Plain { key_to_value } => seq![ColumnWrite { column: key_to_value as int, key, value }],
        Layout::UniqueIndex { key_to_value, value_to_key } => seq![
            ColumnWrite { column: key_to_value as int, key, value },
            ColumnWrite { column: value_to_key as int, key: value, value: key },
        ],
        Layout::Range { key_to_value, value_key_btree } => seq![
            ColumnWrite { column: key_to_value as int, key, value },
            ColumnWrite { column: value_key_btree as int, key: value + key, value: Seq::empty() },
        ],
        Layout::Dictionary { key_to_birth_key, birth_key_to_value, value_to_birth_key, birth_key_key_btree } => {
            let known = s.tables[value_to_birth_key as int];
            let pk = birth_key(known, s.fresh, key, value);
            let filing = seq![
                ColumnWrite { column: key_to_birth_key as int, key, value: pk },
                ColumnWrite { column: birth_key_key_btree as int, key: pk + key, value: Seq::empty() },
            ];
            if s.fresh.contains_key(value) || !known.contains_key(value) {
                seq![
                    ColumnWrite { column: value_to_birth_key as int, key: value, value: pk },
                    ColumnWrite { column: birth_key_to_value as int, key: pk, value },
                ] + filing
            } else {
                filing
            }
        },
    }
}

/// The tables after the given writes are made in order.
pub open spec fn after_writes(tables: Seq<Table>, writes: Seq<ColumnWrite>) -> Seq<Table>
    decreases writes.len(),
{
    if writes.len() == 0 {
        tables
    } else {
        written(
            after_writes(tables, writes.drop_last()),
            writes.last().column,
            writes.last().key,
            writes.last().value,
        )
    }
}

/// The tables after the first `n` writes of an entry are made.
pub open spec fn partly_put(layout: Layout, s: CommitState, key: Seq<u8>, value: Seq<u8>, n: int) -> Seq<Table> {
    after_writes(s.tables, writes_of(layout, s, key, value).take(n))
}

/// An entry is written by making its writes in order.
pub proof fn lemma_put_is_its_writes(layout: Layout, s: CommitState, key: Seq<u8>, value: Seq<u8>)
    ensures
        put(layout, s, key, value).tables == partly_put(
            layout,
            s,
            key,
            value,
            writes_of(layout, s, key, value).len() as int,
        ),
{
    let ws = writes_of(layout, s, key, value);
    assert(ws.take(ws.len() as int) =~= ws);
    lemma_after_writes(s.tables, ws);
}

/// The tables after up to four writes, written out.
pub proof fn lemma_after_writes(tables: Seq<Table>, ws: Seq<ColumnWrite>)
    requires
        ws.len() <= 4,
    ensures
        ws.len() == 0 ==> after_writes(tables, ws) == tables,
        ws.len() == 1 ==> after_writes(tables, ws) == written(tables, ws[0].column, ws[0].key, ws[0].value),
        ws.len() == 2 ==> after_writes(tables, ws) == written(
            written(tables, ws[0].column, ws[0].key, ws[0].value),
            ws[1].column,
            ws[1].key,
            ws[1].value,
        ),
        ws.len() == 3 ==> after_writes(tables, ws) == written(
            written(written(tables, ws[0].column, ws[0].key, ws[0].value), ws[1].column, ws[1].key, ws[1].value),
            ws[2].column,
            ws[2].key,
            ws[2].value,
        ),
        ws.len() == 4 ==> after_writes(tables, ws) == written(
            written(
                written(written(tables, ws[0].column, ws[0].key, ws[0].value), ws[1].column, ws[1].key, ws[1].value),
                ws[2].column,
                ws[2].key,
                ws[2].value,
            ),
            ws[3].column,
            ws[3].key,
            ws[3].value,
        ),
    decreases ws.len(),
{
    if ws.len() > 0 {
        lemma_after_writes(tables, ws.drop_last());
        assert(ws.last() == ws[ws.len() - 1]);
        assert forall|i: int| 0 <= i < ws.len() - 1 implies ws.drop_last()[i] == ws[i] by {}
    }
}

/// The shape of a column: the rows of its memtable and their number, the
/// number of its segments, and the id that its next segment gets.
pub struct Shape {
    pub rows: Map<Seq<u8>, Seq<u8>>,
    pub count: int,
    pub segments: int,
    pub next: int,
}

/// The shape after `value` is written under `key` into the memtable.
pub open spec fn grown(s: Shape, key: Seq<u8>, value: Seq<u8>) -> Shape {
    Shape {
        rows: s.rows.insert(key, value),
        count: if s.rows.contains_key(key) {
            s.count
        } else {
            s.count + 1
        },
        segments: s.segments,
        next: s.next,
    }
}

/// A write of `key` fills the memtable up to the row threshold, so that it is sealed.
pub open spec fn fills(s: Shape, threshold: int, key: Seq<u8>) -> bool {
    grown(s, key, Seq::empty()).count >= threshold
}

/// The shape after a write that succeeds: the memtable has the row, or, where
/// the write filled it, is empty again, with one segment and one id more.
pub open spec fn stepped(s: Shape, threshold: int, key: Seq<u8>, value: Seq<u8>) -> Shape {
    if fills(s, threshold, key) {
        Shape { rows: Map::empty(), count: 0, segments: s.segments + 1, next: s.next + 1 }
    } else {
        grown(s, key, value)
    }
}

/// The memtable of the shape can be sealed: an id is left and no value in
/// it is too long for a record.
pub open spec fn can_seal(s: Shape) -> bool {
    &&& s.next < u64::MAX
    &&& forall|k: Seq<u8>| #[trigger] s.rows.contains_key(k) ==> s.rows[k].len() <= u32::MAX
}

/// A write of `value` under `key` fails: it fills the memtable, and the
/// memtable with this row cannot be sealed.
pub open spec fn cannot_take(s: Shape, threshold: int, key: Seq<u8>, value: Seq<u8>) -> bool {
    fills(s, threshold, key) && !can_seal(grown(s, key, value))
}

/// The columns of a store as a commit changes them: their shapes, and the
/// columns noted for compaction, oldest request first.
pub struct Physical {
    pub shapes: Seq<Shape>,
    pub noted: Seq<usize>,
}

/// The columns after one write that succeeds. A column whose memtable the
/// write filled is noted for compaction.
pub open spec fn one_write(p: Physical, thresholds: Seq<int>, w: ColumnWrite) -> Physical {
    Physical {
        shapes: p.shapes.update(
            w.column,
            stepped(p.shapes[w.column], thresholds[w.column], w.key, w.value),
        ),
        noted: if fills(p.shapes[w.column], thresholds[w.column], w.key) {
            p.noted.push(w.column as usize)
        } else {
            p.noted
        },
    }
}

/// The columns after one write that fails: the row stands in the memtable,
/// which could not be sealed, and no column is noted.
pub open spec fn failed_write(p: Physical, w: ColumnWrite) -> Physical {
    Physical { shapes: p.shapes.update(w.column, grown(p.shapes[w.column], w.key, w.value)), noted: p.noted }
}

/// The columns after the given writes succeed in order.
pub open spec fn after_physical(p: Physical, thresholds: Seq<int>, writes: Seq<ColumnWrite>) -> Physical
    decreases writes.len(),
{
    if writes.len() == 0 {
        p
    } else {
        one_write(after_physical(p, thresholds, writes.drop_last()), thresholds, writes.last())
    }
}

/// The columns after the entries of `items` are written in order, each by
/// the writes that the layout gives it.
pub open spec fn apply_physical(
    layout: Layout,
    s: CommitState,
    p: Physical,
    thresholds: Seq<int>,
    items: Seq<(Seq<u8>, Seq<u8>)>,
) -> Physical
    decreases items.len(),
{
    if items.len() == 0 {
        p
    } else {
        after_physical(
            apply_physical(layout, s, p, thresholds, items.drop_last()),
            thresholds,
            writes_of(layout, apply(layout, s, items.drop_last()), items.last().0, items.last().1),
        )
    }
}

/// Each of the given writes succeeds, made in order.
pub open spec fn writes_go(p: Physical, thresholds: Seq<int>, writes: Seq<ColumnWrite>) -> bool
    decreases writes.len(),
{
    writes.len() == 0 || {
        let front = after_physical(p, thresholds, writes.drop_last());
        let w = writes.last();
        &&& writes_go(p, thresholds, writes.drop_last())
        &&& !cannot_take(front.shapes[w.column], thresholds[w.column], w.key, w.value)
    }
}

/// The writes, made in order, stop at the write at position `n`: each one
/// before it succeeds and it fails.
pub open spec fn stops_at_write(p: Physical, thresholds: Seq<int>, writes: Seq<ColumnWrite>, n: int) -> bool {
    &&& 0 <= n < writes.len()
    &&& writes_go(p, thresholds, writes.take(n))
    &&& cannot_take(
        after_physical(p, thresholds, writes.take(n)).shapes[writes[n].column],
        thresholds[writes[n].column],
        writes[n].key,
        writes[n].value,
    )
}

/// Each entry of `items` can be written, in order: the birth key of its
/// value can be read where the layout asks for it, and each of its writes
/// succeeds.
pub open spec fn goes(
    layout: Layout,
    s: CommitState,
    p: Physical,
    thresholds: Seq<int>,
    items: Seq<(Seq<u8>, Seq<u8>)>,
) -> bool
    decreases items.len(),
{
    items.len() == 0 || {
        let front = items.drop_last();
        &&& goes(layout, s, p, thresholds, front)
        &&& !blocked(layout, apply(layout, s, front), items.last().1)
        &&& writes_go(
            apply_physical(layout, s, p, thresholds, front),
            thresholds,
            writes_of(layout, apply(layout, s, front), items.last().0, items.last().1),
        )
    }
}

/// What the write at position `j` adds to the writes before it.
pub proof fn lemma_next_write(p: Physical, thresholds: Seq<int>, ws: Seq<ColumnWrite>, j: int)
    requires
        0 <= j < ws.len(),
    ensures
        after_physical(p, thresholds, ws.take(j + 1)) == one_write(
            after_physical(p, thresholds, ws.take(j)),
            thresholds,
            ws[j],
        ),
        writes_go(p, thresholds, ws.take(j + 1)) == (writes_go(p, thresholds, ws.take(j)) && !cannot_take(
            after_physical(p, thresholds, ws.take(j)).shapes[ws[j].column],
            thresholds[ws[j].column],
            ws[j].key,
            ws[j].value,
        )),
{
    assert(ws.take(j + 1).drop_last() =~= ws.take(j));
    assert(ws.take(j + 1).last() == ws[j]);
}

/// What one more write, made or failed, says of the writes so far.
pub proof fn lemma_wrote(
    p: Physical,
    thresholds: Seq<int>,
    ws: Seq<ColumnWrite>,
    j: int,
    before: Physical,
    after: Physical,
    failed: bool,
)
    requires
        0 <= j < ws.len(),
        before == after_physical(p, thresholds, ws.take(j)),
        writes_go(p, thresholds, ws.take(j)),
        failed == cannot_take(before.shapes[ws[j].column], thresholds[ws[j].column], ws[j].key, ws[j].value),
        !failed ==> after == one_write(before, thresholds, ws[j]),
    ensures
        failed ==> !writes_go(p, thresholds, ws),
        !failed ==> after == after_physical(p, thresholds, ws.take(j + 1)) && writes_go(
            p,
            thresholds,
            ws.take(j + 1),
        ),
{
    lemma_next_write(p, thresholds, ws, j);
    if failed && writes_go(p, thresholds, ws) {
        lemma_writes_go_so_far(p, thresholds, ws, j + 1);
    }
}

/// Writes that all succeed do so up to any point.
pub proof fn lemma_writes_go_so_far(p: Physical, thresholds: Seq<int>, ws: Seq<ColumnWrite>, n: int)
    requires
        0 <= n <= ws.len(),
        writes_go(p, thresholds, ws),
    ensures
        writes_go(p, thresholds, ws.take(n)),
    decreases ws.len(),
{
    if n == ws.len() {
        assert(ws.take(n) =~= ws);
    } else {
        lemma_writes_go_so_far(p, thresholds, ws.drop_last(), n);
        assert(ws.drop_last().take(n) =~= ws.take(n));
    }
}

/// Entries that can all be written can be written up to any point.
pub proof fn lemma_goes_so_far(
    layout: Layout,
    s: CommitState,
    p: Physical,
    thresholds: Seq<int>,
    items: Seq<(Seq<u8>, Seq<u8>)>,
    n: int,
)
    requires
        0 <= n <= items.len(),
        goes(layout, s, p, thresholds, items),
    ensures
        goes(layout, s, p, thresholds, items.take(n)),
    decreases items.len(),
{
    if n == items.len() {
        assert(items.take(n) =~= items);
    } else {
        lemma_goes_so_far(layout, s, p, thresholds, items.drop_last(), n);
        assert(items.drop_last().take(n) =~= items.take(n));
    }
}

/// The number of logical entries that one write counts for.
pub open spec fn weight(layout: Layout, s: CommitState, value: Seq<u8>) -> nat {
    match layout {
        Layout::Plain { .. } => 1,
        Layout::UniqueIndex { .. } => 2,
        Layout::Range { .. } => 2,
        Layout::Dictionary { value_to_birth_key, .. } => if s.fresh.contains_key(value)
            || !s.tables[value_to_birth_key as int].contains_key(value) {
            4
        } else {
            2
        },
    }
}

/// The state after the entries of `items` are written in order.
pub open spec fn apply(layout: Layout, s: CommitState, items: Seq<(Seq<u8>, Seq<u8>)>) -> CommitState
    decreases items.len(),
{
    if items.len() == 0 {
        s
    } else {
        put(layout, apply(layout, s, items.drop_last()), items.last().0, items.last().1)
    }
}

/// The number of logical entries that writing `items` in order counts for.
pub open spec fn total_weight(layout: Layout, s: CommitState, items: Seq<(Seq<u8>, Seq<u8>)>) -> nat
    decreases items.len(),
{
    if items.len() == 0 {
        0
    } else {
        total_weight(layout, s, items.drop_last()) + weight(
            layout,
            apply(layout, s, items.drop_last()),
            items.last().1,
        )
    }
}

/// Some entry of `items` cannot be written because its value is blocked.
pub open spec fn any_blocked(layout: Layout, s: CommitState, items: Seq<(Seq<u8>, Seq<u8>)>) -> bool {
    exists|i: int| 0 <= i < items.len() && #[trigger] blocked(layout, apply(layout, s, items.take(i)), items[i].1)
}

/// A commit starts from the store's tables and has introduced no value yet.
pub open spec fn start(tables: Seq<Table>) -> CommitState {
    CommitState { tables, fresh: Map::empty() }
}

/// What a store of the given layout holds as the value of `key`.
pub open spec fn value_of(layout: Layout, tables: Seq<Table>, key: Seq<u8>) -> Option<Option<Seq<u8>>> {
    match layout {
        Layout::Plain { key_to_value } => at(tables[key_to_value as int], key),
        Layout::UniqueIndex { key_to_value, .. } => at(tables[key_to_value as int], key),
        Layout::Range { key_to_value, .. } => at(tables[key_to_value as int], key),
        Layout::Dictionary { key_to_birth_key, birth_key_to_value, .. } => match at(
            tables[key_to_birth_key as int],
            key,
        ) {
            Some(Some(pk)) => at(tables[birth_key_to_value as int], pk),
            Some(None) => Some(None),
            None => None,
        },
    }
}

} // verus!
