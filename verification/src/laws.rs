//! What holds of the layouts whatever is written: the newest write of a key
//! wins, writing an entry twice is writing it once, the range index finds
//! exactly the keys bound to a value, and the dictionary keeps one birth key
//! per value.

use vstd::prelude::*;
use crate::bytes::is_prefix;
use crate::codec::StoreCodec;
use crate::layout::Layout;
use crate::model::{apply, at, binds, blocked, put, start, value_of, CommitState, Table};
use crate::store::{prefixed, scan_result};

verus! {

/// The value that the last entry of `items` with the key `key` binds to it.
pub open spec fn last_bound(items: Seq<(Seq<u8>, Seq<u8>)>, key: Seq<u8>) -> Option<Seq<u8>>
    decreases items.len(),
{
    if items.len() == 0 {
        None
    } else if items.last().0 == key {
        Some(items.last().1)
    } else {
        last_bound(items.drop_last(), key)
    }
}

/// The tables are those of a store of the given layout.
pub open spec fn shaped(layout: Layout, tables: Seq<Table>) -> bool {
    layout.fits() && tables.len() == layout.columns()
}

/// Writing an entry keeps the number of tables.
pub proof fn lemma_put_shape(layout: Layout, s: CommitState, key: Seq<u8>, value: Seq<u8>)
    requires
        shaped(layout, s.tables),
    ensures
        shaped(layout, put(layout, s, key, value).tables),
{
}

/// Writing entries keeps the number of tables.
pub proof fn lemma_apply_shape(layout: Layout, s: CommitState, items: Seq<(Seq<u8>, Seq<u8>)>)
    requires
        shaped(layout, s.tables),
    ensures
        shaped(layout, apply(layout, s, items).tables),
    decreases items.len(),
{
    if items.len() > 0 {
        lemma_apply_shape(layout, s, items.drop_last());
        lemma_put_shape(layout, apply(layout, s, items.drop_last()), items.last().0, items.last().1);
    }
}

/// In the plain, unique-index and range layouts a commit leaves every key
/// that it mentions bound to the value of the last entry that mentions it,
/// and every other key as it was. Sealing and merging do not change the
/// tables, so this holds before and after any of them.
pub proof fn lemma_last_write_wins(layout: Layout, s: CommitState, items: Seq<(Seq<u8>, Seq<u8>)>, key: Seq<u8>)
    requires
        shaped(layout, s.tables),
        !(layout is Dictionary),
    ensures
        value_of(layout, apply(layout, s, items).tables, key) == (match last_bound(items, key) {
            Some(v) => Some(Some(v)),
            None => value_of(layout, s.tables, key),
        }),
    decreases items.len(),
{
    if items.len() > 0 {
        lemma_last_write_wins(layout, s, items.drop_last(), key);
        lemma_apply_shape(layout, s, items.drop_last());
    }
}

/// In the plain, unique-index and range layouts two commits, one after the
/// other, leave the tables as one commit of all their entries does. So the
/// newest write of a key wins over any number of commits, whatever sealing
/// and merging went on between them.
pub proof fn lemma_commits_compose(
    layout: Layout,
    s: CommitState,
    first: Seq<(Seq<u8>, Seq<u8>)>,
    second: Seq<(Seq<u8>, Seq<u8>)>,
)
    requires
        shaped(layout, s.tables),
        !(layout is Dictionary),
    ensures
        apply(layout, start(apply(layout, s, first).tables), second).tables == apply(
            layout,
            s,
            first + second,
        ).tables,
    decreases second.len(),
{
    if second.len() == 0 {
        assert(first + second =~= first);
    } else {
        lemma_commits_compose(layout, s, first, second.drop_last());
        assert((first + second).drop_last() =~= first + second.drop_last());
        assert((first + second).last() == second.last());
    }
}

/// Writing an entry a second time, in a commit of its own, changes nothing.
pub proof fn lemma_put_twice(layout: Layout, tables: Seq<Table>, key: Seq<u8>, value: Seq<u8>)
    requires
        shaped(layout, tables),
        !blocked(layout, start(tables), value),
    ensures
        put(layout, start(put(layout, start(tables), key, value).tables), key, value).tables == put(
            layout,
            start(tables),
            key,
            value,
        ).tables,
        !blocked(layout, start(put(layout, start(tables), key, value).tables), value),
{
    let once = put(layout, start(tables), key, value).tables;
    let twice = put(layout, start(once), key, value).tables;
    assert(twice.len() == once.len());
    assert forall|c: int| 0 <= c < once.len() implies twice[c] =~= once[c] by {}
    assert(twice =~= once);
}

/// A commit of one entry made twice leaves the store as the commit made once.
pub proof fn lemma_commit_twice(layout: Layout, tables: Seq<Table>, key: Seq<u8>, value: Seq<u8>)
    requires
        shaped(layout, tables),
        !blocked(layout, start(tables), value),
    ensures
        apply(layout, start(apply(layout, start(tables), seq![(key, value)]).tables), seq![(key, value)]).tables
            == apply(layout, start(tables), seq![(key, value)]).tables,
{
    let items = seq![(key, value)];
    assert(items.drop_last() =~= Seq::<(Seq<u8>, Seq<u8>)>::empty());
    assert(items.last() == (key, value));
    reveal_with_fuel(apply, 2);
    assert(apply(layout, start(tables), items) == put(layout, start(tables), key, value));
    let once = put(layout, start(tables), key, value).tables;
    assert(apply(layout, start(once), items) == put(layout, start(once), key, value));
    lemma_put_twice(layout, tables, key, value);
}

/// The index of a range-layout store mirrors its bindings: it holds
/// `value ++ key` exactly for the keys bound to a value.
pub open spec fn range_mirrors(bindings: Table, index: Table) -> bool {
    forall|x: Seq<u8>| #[trigger]
        index.contains_key(x) <==> exists|k: Seq<u8>, v: Seq<u8>| #[trigger] binds(bindings, k, v) && x == v + k
}

/// No value bound in `bindings` starts with `value` or is what `value` starts
/// with, unless it is `value` itself. This holds wherever all values have one length.
pub open spec fn stands_apart(bindings: Table, value: Seq<u8>) -> bool {
    forall|k: Seq<u8>, v: Seq<u8>| #[trigger]
        binds(bindings, k, v) ==> v == value || (!is_prefix(value, v) && !is_prefix(v, value))
}

/// The index of an empty range-layout store mirrors its bindings.
pub proof fn lemma_range_empty(layout: Layout)
    requires
        layout.fits(),
    ensures
        range_sound(layout, Seq::new(layout.columns(), |i: int| Map::empty())),
{
}

/// Two byte strings behind one prefix are equal if the whole strings are.
pub proof fn lemma_concat_cancel(p: Seq<u8>, a: Seq<u8>, b: Seq<u8>)
    requires
        p + a == p + b,
    ensures
        a == b,
{
    assert((p + a).skip(p.len() as int) =~= a);
    assert((p + b).skip(p.len() as int) =~= b);
}

/// The key `key` can be bound to `value` without leaving a stale entry in
/// the range index: it is unbound, or bound to `value` already.
pub open spec fn binds_afresh(layout: Layout, tables: Seq<Table>, key: Seq<u8>, value: Seq<u8>) -> bool {
    layout matches Layout::Range { key_to_value, .. } ==> at(tables[key_to_value as int], key) is None || at(
        tables[key_to_value as int],
        key,
    ) == Some(Some(value))
}

/// The index of a range-layout store mirrors its bindings.
pub open spec fn range_sound(layout: Layout, tables: Seq<Table>) -> bool {
    layout matches Layout::Range { key_to_value, value_key_btree } ==> range_mirrors(
        tables[key_to_value as int],
        tables[value_key_btree as int],
    )
}

/// Writing a key that is unbound, or bound to the same value already, keeps
/// the range index a mirror of the bindings. (Binding a key to another value
/// leaves the entry of the old value in the index.)
pub proof fn lemma_range_put_mirrors(layout: Layout, s: CommitState, key: Seq<u8>, value: Seq<u8>)
    requires
        shaped(layout, s.tables),
        range_sound(layout, s.tables),
        binds_afresh(layout, s.tables, key, value),
    ensures
        range_sound(layout, put(layout, s, key, value).tables),
{
    match layout {
        Layout::Range { key_to_value, value_key_btree } => {
            let bindings = s.tables[key_to_value as int];
            let index = s.tables[value_key_btree as int];
            let after = put(layout, s, key, value).tables;
            let bindings2 = after[key_to_value as int];
            let index2 = after[value_key_btree as int];
            assert(bindings2 == bindings.insert(key, Some(value)));
            assert(index2 == index.insert(value + key, Some(Seq::<u8>::empty())));
            assert forall|x: Seq<u8>| #[trigger]
                index2.contains_key(x) <==> exists|k: Seq<u8>, v: Seq<u8>| #[trigger] binds(bindings2, k, v) && x == v + k by {
                if index2.contains_key(x) {
                    if x == value + key {
                        assert(binds(bindings2, key, value) && x == value + key);
                    } else {
                        assert(index.contains_key(x));
                        let (k, v) = choose|k: Seq<u8>, v: Seq<u8>| #[trigger] binds(bindings, k, v) && x == v + k;
                        assert(binds(bindings2, k, v) && x == v + k);
                    }
                }
                if exists|k: Seq<u8>, v: Seq<u8>| #[trigger] binds(bindings2, k, v) && x == v + k {
                    let (k, v) = choose|k: Seq<u8>, v: Seq<u8>| #[trigger] binds(bindings2, k, v) && x == v + k;
                    if k != key {
                        assert(binds(bindings, k, v) && x == v + k);
                        assert(index.contains_key(x));
                    }
                }
            }
        },
        _ => {},
    }
}

/// A commit in which every entry binds its key afresh keeps the range index
/// a mirror of the bindings.
pub proof fn lemma_range_commit_mirrors(layout: Layout, s: CommitState, items: Seq<(Seq<u8>, Seq<u8>)>)
    requires
        shaped(layout, s.tables),
        range_sound(layout, s.tables),
        forall|i: int|
            0 <= i < items.len() ==> binds_afresh(
                layout,
                apply(layout, s, #[trigger] items.take(i)).tables,
                items[i].0,
                items[i].1,
            ),
    ensures
        range_sound(layout, apply(layout, s, items).tables),
    decreases items.len(),
{
    if items.len() > 0 {
        let front = items.drop_last();
        assert forall|i: int| 0 <= i < front.len() implies binds_afresh(
            layout,
            apply(layout, s, #[trigger] front.take(i)).tables,
            front[i].0,
            front[i].1,
        ) by {
            assert(front.take(i) =~= items.take(i));
        }
        lemma_range_commit_mirrors(layout, s, front);
        lemma_apply_shape(layout, s, front);
        assert(items.take(items.len() - 1) =~= front);
        lemma_range_put_mirrors(layout, apply(layout, s, front), items.last().0, items.last().1);
    }
}

/// In a range-layout store whose index mirrors its bindings, the index
/// entries that start with a value are exactly `value ++ key` for the keys
/// bound to that value, provided the value stands apart from the others.
pub proof fn lemma_range_scan_exact(bindings: Table, index: Table, value: Seq<u8>, x: Seq<u8>)
    requires
        range_mirrors(bindings, index),
        stands_apart(bindings, value),
    ensures
        (index.contains_key(x) && is_prefix(value, x)) <==> (exists|k: Seq<u8>| #[trigger]
            binds(bindings, k, value) && x == value + k),
{
    if index.contains_key(x) && is_prefix(value, x) {
        let (k, v) = choose|k: Seq<u8>, v: Seq<u8>| #[trigger] binds(bindings, k, v) && x == v + k;
        assert(at(bindings, k) == Some(Some(v)));
        if v != value {
            if value.len() <= v.len() {
                assert(v.subrange(0, value.len() as int) =~= x.subrange(0, value.len() as int));
                assert(is_prefix(value, v));
            } else {
                assert(value.subrange(0, v.len() as int) =~= x.subrange(0, value.len() as int).subrange(
                    0,
                    v.len() as int,
                ));
                assert(x.subrange(0, value.len() as int).subrange(0, v.len() as int) =~= v);
                assert(is_prefix(v, value));
            }
        }
        assert(binds(bindings, k, value) && x == value + k);
    }
    if exists|k: Seq<u8>| #[trigger] binds(bindings, k, value) && x == value + k {
        let k = choose|k: Seq<u8>| #[trigger] binds(bindings, k, value) && x == value + k;
        assert(binds(bindings, k, value) && x == value + k);
        assert(index.contains_key(x));
        assert(x.subrange(0, value.len() as int) =~= value);
    }
}

/// In a range-layout store whose index mirrors its bindings, the keys that
/// a scan for a value gives are exactly the keys bound to the value,
/// provided the value stands apart from the others.
pub proof fn lemma_range_keys_exact<K, KC: StoreCodec<K>>(
    out: Vec<K>,
    bindings: Table,
    index: Table,
    value: Seq<u8>,
    key: Seq<u8>,
)
    requires
        scan_result::<K, KC>(Ok(out), index, value),
        range_mirrors(bindings, index),
        stands_apart(bindings, value),
    ensures
        (exists|i: int| 0 <= i < out@.len() && KC::encoded(&#[trigger] out@[i]) == key) <==> at(bindings, key) == Some(
            Some(value),
        ),
{
    let found = prefixed::<K, KC>(out@, value);
    let x = value + key;
    lemma_range_scan_exact(bindings, index, value, x);
    if exists|i: int| 0 <= i < out@.len() && KC::encoded(&#[trigger] out@[i]) == key {
        let i = choose|i: int| 0 <= i < out@.len() && KC::encoded(&#[trigger] out@[i]) == key;
        assert(found[i] == x);
        assert(index.contains_key(found[i]) && is_prefix(value, found[i]));
        let k = choose|k: Seq<u8>| #[trigger] binds(bindings, k, value) && x == value + k;
        lemma_concat_cancel(value, k, key);
    }
    if at(bindings, key) == Some(Some(value)) {
        assert(binds(bindings, key, value) && x == value + key);
        assert(index.contains_key(x) && is_prefix(value, x));
        let i = choose|i: int| 0 <= i < out@.len() && #[trigger] found[i] == x;
        lemma_concat_cancel(value, KC::encoded(&out@[i]), key);
    }
}

/// In the dictionary layout the value of a key is the value filed under the
/// key's birth key.
pub proof fn lemma_dictionary_value(layout: Layout, tables: Seq<Table>, key: Seq<u8>, value: Seq<u8>)
    requires
        layout is Dictionary,
    ensures
        layout matches Layout::Dictionary { key_to_birth_key, birth_key_to_value, .. } && (value_of(
            layout,
            tables,
            key,
        ) == Some(Some(value)) <==> exists|pk: Seq<u8>| #[trigger]
            at(tables[key_to_birth_key as int], key) == Some(Some(pk)) && at(
                tables[birth_key_to_value as int],
                pk,
            ) == Some(Some(value))),
{
    match layout {
        Layout::Dictionary { key_to_birth_key, birth_key_to_value, .. } => {
            if value_of(layout, tables, key) == Some(Some(value)) {
                let pk = at(tables[key_to_birth_key as int], key)->0->0;
                assert(at(tables[key_to_birth_key as int], key) == Some(Some(pk)) && at(
                    tables[birth_key_to_value as int],
                    pk,
                ) == Some(Some(value)));
            }
        },
        _ => {},
    }
}

/// What a commit has introduced is in the store: each value that the commit
/// gave a birth key is filed under that birth key.
pub open spec fn fresh_filed(layout: Layout, s: CommitState) -> bool {
    layout matches Layout::Dictionary { value_to_birth_key, .. } ==> forall|v: Seq<u8>| #[trigger]
        s.fresh.contains_key(v) ==> at(s.tables[value_to_birth_key as int], v) == Some(Some(s.fresh[v]))
}

/// A value has one birth key for good: once the dictionary layout has filed
/// a value under a birth key, no later write files it under another.
pub proof fn lemma_birth_key_stays(
    layout: Layout,
    s: CommitState,
    key: Seq<u8>,
    value: Seq<u8>,
    v: Seq<u8>,
    pk: Seq<u8>,
)
    requires
        shaped(layout, s.tables),
        fresh_filed(layout, s),
        layout matches Layout::Dictionary { value_to_birth_key, .. } && at(s.tables[value_to_birth_key as int], v)
            == Some(Some(pk)),
    ensures
        fresh_filed(layout, put(layout, s, key, value)),
        layout matches Layout::Dictionary { value_to_birth_key, .. } && at(
            put(layout, s, key, value).tables[value_to_birth_key as int],
            v,
        ) == Some(Some(pk)),
{
    lemma_fresh_filed(layout, s, key, value);
}

/// Writing an entry keeps what the commit has introduced filed in the store.
pub proof fn lemma_fresh_filed(layout: Layout, s: CommitState, key: Seq<u8>, value: Seq<u8>)
    requires
        shaped(layout, s.tables),
        fresh_filed(layout, s),
    ensures
        fresh_filed(layout, put(layout, s, key, value)),
{
    match layout {
        Layout::Dictionary { value_to_birth_key, .. } => {
            let after = put(layout, s, key, value);
            assert forall|v: Seq<u8>| #[trigger] after.fresh.contains_key(v) implies at(
                after.tables[value_to_birth_key as int],
                v,
            ) == Some(Some(after.fresh[v])) by {
                if s.fresh.contains_key(v) {
                    assert(at(s.tables[value_to_birth_key as int], v) == Some(Some(s.fresh[v])));
                }
            }
        },
        _ => {},
    }
}

/// A dictionary-layout store is sound where every value is filed under its
/// birth key in both directions and every key's birth key has a value.
pub open spec fn dictionary_sound(layout: Layout, tables: Seq<Table>) -> bool {
    layout matches Layout::Dictionary { key_to_birth_key, birth_key_to_value, value_to_birth_key, .. } ==> {
        &&& forall|v: Seq<u8>, pk: Seq<u8>| #[trigger]
            binds(tables[value_to_birth_key as int], v, pk) ==> binds(tables[birth_key_to_value as int], pk, v)
        &&& forall|k: Seq<u8>, pk: Seq<u8>| #[trigger]
            binds(tables[key_to_birth_key as int], k, pk) ==> at(tables[birth_key_to_value as int], pk) is Some
                && at(tables[birth_key_to_value as int], pk)->0 is Some
    }
}

/// An empty dictionary-layout store is sound.
pub proof fn lemma_dictionary_empty(layout: Layout)
    requires
        layout.fits(),
    ensures
        dictionary_sound(layout, Seq::new(layout.columns(), |i: int| Map::empty())),
{
}

/// In a sound dictionary-layout store a write binds its key to its value,
/// leaves every other key as it was and keeps the store sound, provided the
/// key is not the birth key of another value already where the write
/// introduces its value. (Where it is, the write takes that birth key over,
/// and the keys filed under it change their value with it.)
pub proof fn lemma_dictionary_put(layout: Layout, s: CommitState, key: Seq<u8>, value: Seq<u8>, other: Seq<u8>)
    requires
        shaped(layout, s.tables),
        layout is Dictionary,
        dictionary_sound(layout, s.tables),
        fresh_filed(layout, s),
        !blocked(layout, s, value),
        layout matches Layout::Dictionary { birth_key_to_value, value_to_birth_key, .. } && (
        s.tables[value_to_birth_key as int].contains_key(value) || !s.tables[birth_key_to_value as int].contains_key(
            key,
        )),
    ensures
        dictionary_sound(layout, put(layout, s, key, value).tables),
        fresh_filed(layout, put(layout, s, key, value)),
        value_of(layout, put(layout, s, key, value).tables, key) == Some(Some(value)),
        other != key ==> value_of(layout, put(layout, s, key, value).tables, other) == value_of(
            layout,
            s.tables,
            other,
        ),
{
    lemma_fresh_filed(layout, s, key, value);
    match layout {
        Layout::Dictionary { key_to_birth_key, birth_key_to_value, value_to_birth_key, birth_key_key_btree } => {
            let after = put(layout, s, key, value).tables;
            let v2pk = s.tables[value_to_birth_key as int];
            let pk2v = s.tables[birth_key_to_value as int];
            let k2pk = s.tables[key_to_birth_key as int];
            let pk = crate::model::birth_key(v2pk, s.fresh, key, value);
            let is_new = s.fresh.contains_key(value) || !v2pk.contains_key(value);
            if s.fresh.contains_key(value) {
                assert(binds(v2pk, value, pk));
                assert(binds(pk2v, pk, value));
            } else if v2pk.contains_key(value) {
                assert(binds(v2pk, value, pk));
                assert(binds(pk2v, pk, value));
            }
            assert(after[value_to_birth_key as int] =~= (if is_new {
                v2pk.insert(value, Some(pk))
            } else {
                v2pk
            }));
            assert(after[birth_key_to_value as int] =~= (if is_new {
                pk2v.insert(pk, Some(value))
            } else {
                pk2v
            }));
            assert(after[key_to_birth_key as int] =~= k2pk.insert(key, Some(pk)));
            assert(binds(after[birth_key_to_value as int], pk, value));
            assert forall|v: Seq<u8>, p: Seq<u8>| #[trigger]
                binds(after[value_to_birth_key as int], v, p) implies binds(after[birth_key_to_value as int], p, v) by {
                if v != value {
                    assert(binds(v2pk, v, p));
                    assert(binds(pk2v, p, v));
                } else if !is_new {
                    assert(binds(v2pk, v, p));
                }
            }
            assert forall|k: Seq<u8>, p: Seq<u8>| #[trigger]
                binds(after[key_to_birth_key as int], k, p) implies at(after[birth_key_to_value as int], p) is Some
                && at(after[birth_key_to_value as int], p)->0 is Some by {
                if k != key {
                    assert(binds(k2pk, k, p));
                }
            }
            if other != key {
                if at(k2pk, other) is Some && at(k2pk, other)->0 is Some {
                    let p = at(k2pk, other)->0->0;
                    assert(binds(k2pk, other, p));
                }
            }
        },
        _ => {},
    }
}

/// The write of `value` under `key` can be filed: the birth key of the value
/// can be read, and where the write introduces the value, `key` is not the
/// birth key of another value already.
pub open spec fn files_cleanly(layout: Layout, s: CommitState, key: Seq<u8>, value: Seq<u8>) -> bool {
    layout matches Layout::Dictionary { birth_key_to_value, value_to_birth_key, .. } ==> !blocked(layout, s, value) && (
    s.tables[value_to_birth_key as int].contains_key(value) || !s.tables[birth_key_to_value as int].contains_key(key))
}

/// In a sound dictionary-layout store a commit in which every write can be
/// filed cleanly keeps the store sound, leaves every key that it mentions
/// bound to the value of the last entry that mentions it, and every other
/// key as it was.
pub proof fn lemma_dictionary_commit(layout: Layout, s: CommitState, items: Seq<(Seq<u8>, Seq<u8>)>, key: Seq<u8>)
    requires
        shaped(layout, s.tables),
        layout is Dictionary,
        dictionary_sound(layout, s.tables),
        fresh_filed(layout, s),
        forall|i: int|
            0 <= i < items.len() ==> files_cleanly(layout, apply(layout, s, #[trigger] items.take(i)), items[i].0, items[i].1),
    ensures
        dictionary_sound(layout, apply(layout, s, items).tables),
        fresh_filed(layout, apply(layout, s, items)),
        value_of(layout, apply(layout, s, items).tables, key) == (match last_bound(items, key) {
            Some(v) => Some(Some(v)),
            None => value_of(layout, s.tables, key),
        }),
    decreases items.len(),
{
    if items.len() > 0 {
        let front = items.drop_last();
        assert forall|i: int| 0 <= i < front.len() implies files_cleanly(
            layout,
            apply(layout, s, #[trigger] front.take(i)),
            front[i].0,
            front[i].1,
        ) by {
            assert(front.take(i) =~= items.take(i));
        }
        lemma_dictionary_commit(layout, s, front, key);
        lemma_apply_shape(layout, s, front);
        assert(items.take(items.len() - 1) =~= front);
        lemma_dictionary_put(layout, apply(layout, s, front), items.last().0, items.last().1, key);
    }
}

} // verus!
