//! The memtable: the sorted in-memory buffer of a column's newest writes.
//! Keys are unique, a later write of a key replaces the earlier one, and the
//! entries are kept in ascending key order.

use vstd::prelude::*;
use crate::bytes::{
    bytes_eq, bytes_lt, lemma_lex_transitive, lemma_lex_trichotomy, lex_lt, strictly_ascending,
};

verus! {

/// The keys of a list of key/value pairs, in order.
pub open spec fn pair_keys(pairs: Seq<(Seq<u8>, Seq<u8>)>) -> Seq<Seq<u8>> {
    Seq::new(pairs.len(), |i: int| pairs[i].0)
}

/// A position at which `key` stands in a list of key/value pairs.
pub open spec fn pair_index(pairs: Seq<(Seq<u8>, Seq<u8>)>, key: Seq<u8>) -> int {
    choose|i: int| 0 <= i < pairs.len() && #[trigger] pairs[i].0 == key
}

/// The mapping that a list of key/value pairs stands for.
pub open spec fn pairs_map(pairs: Seq<(Seq<u8>, Seq<u8>)>) -> Map<Seq<u8>, Seq<u8>> {
    Map::new(
        |k: Seq<u8>| exists|i: int| 0 <= i < pairs.len() && #[trigger] pairs[i].0 == k,
        |k: Seq<u8>| pairs[pair_index(pairs, k)].1,
    )
}

/// In a list with strictly ascending keys each pair is found under its key.
pub proof fn lemma_pairs_map(pairs: Seq<(Seq<u8>, Seq<u8>)>)
    requires
        strictly_ascending(pair_keys(pairs)),
    ensures
        forall|i: int|
            0 <= i < pairs.len() ==> pairs_map(pairs).contains_key(#[trigger] pairs[i].0) && pairs_map(
                pairs,
            )[pairs[i].0] == pairs[i].1,
{
    let keys = pair_keys(pairs);
    assert forall|i: int| 0 <= i < pairs.len() implies pairs_map(pairs).contains_key(#[trigger] pairs[i].0)
        && pairs_map(pairs)[pairs[i].0] == pairs[i].1 by {
        let k = pairs[i].0;
        let j = pair_index(pairs, k);
        assert(pairs_map(pairs).contains_key(k));
        if i < j {
            assert(lex_lt(keys[i], keys[j]));
            lemma_lex_trichotomy(keys[i], keys[j]);
        } else if j < i {
            assert(lex_lt(keys[j], keys[i]));
            lemma_lex_trichotomy(keys[j], keys[i]);
        }
    }
}

/// The sorted buffer of writes that have not been sealed into a segment.
pub struct Memtable {
    entries: Vec<(Vec<u8>, Vec<u8>)>,
}

impl Memtable {
    /// The entries as pairs of byte strings, in key order.
    pub closed spec fn pairs(&self) -> Seq<(Seq<u8>, Seq<u8>)> {
        Seq::new(self.entries@.len(), |i: int| (self.entries@[i].0@, self.entries@[i].1@))
    }

    /// The keys are in strictly ascending order, so none occurs twice.
    pub open spec fn wf(&self) -> bool {
        strictly_ascending(pair_keys(self.pairs()))
    }

    /// The mapping from key to value that the memtable holds.
    pub open spec fn view(&self) -> Map<Seq<u8>, Seq<u8>> {
        pairs_map(self.pairs())
    }

    /// An empty memtable.
    pub fn new() -> (m: Memtable)
        ensures
            m.wf(),
            m.pairs() == Seq::<(Seq<u8>, Seq<u8>)>::empty(),
            m@ == Map::<Seq<u8>, Seq<u8>>::empty(),
    {
        let m = Memtable { entries: Vec::new() };
        assert(m.pairs() =~= Seq::<(Seq<u8>, Seq<u8>)>::empty());
        assert(m@ =~= Map::<Seq<u8>, Seq<u8>>::empty());
        m
    }

    /// The number of keys held.
    pub fn len(&self) -> (n: usize)
        ensures
            n == self.pairs().len(),
    {
        self.entries.len()
    }

    /// Whether no key is held.
    pub fn is_empty(&self) -> (b: bool)
        ensures
            b == (self.pairs().len() == 0),
    {
        self.entries.len() == 0
    }

    /// The key of the entry at position `i` in key order.
    pub fn key_at(&self, i: usize) -> (key: &Vec<u8>)
        requires
            i < self.pairs().len(),
        ensures
            key@ == self.pairs()[i as int].0,
    {
        &self.entries[i].0
    }

    /// The value of the entry at position `i` in key order.
    pub fn value_at(&self, i: usize) -> (value: &Vec<u8>)
        requires
            i < self.pairs().len(),
        ensures
            value@ == self.pairs()[i as int].1,
    {
        &self.entries[i].1
    }

    /// The position of the first entry whose key is not before `key`: every
    /// entry before it has a smaller key, every entry from it on has not.
    pub fn lower_bound(&self, key: &[u8]) -> (pos: usize)
        requires
            self.wf(),
        ensures
            pos <= self.pairs().len(),
            forall|i: int| 0 <= i < pos ==> lex_lt(#[trigger] self.pairs()[i].0, key@),
            forall|i: int| pos <= i < self.pairs().len() ==> !lex_lt(#[trigger] self.pairs()[i].0, key@),
    {
        let mut lo: usize = 0;
        let mut hi: usize = self.entries.len();
        while lo < hi
            invariant
                self.wf(),
                0 <= lo <= hi <= self.pairs().len(),
                self.pairs().len() == self.entries@.len(),
                forall|i: int| 0 <= i < lo ==> lex_lt(#[trigger] self.pairs()[i].0, key@),
                forall|i: int| hi <= i < self.pairs().len() ==> !lex_lt(#[trigger] self.pairs()[i].0, key@),
            decreases hi - lo,
        {
            let mid: usize = lo + (hi - lo) / 2;
            let ghost keys = pair_keys(self.pairs());
            if bytes_lt(self.entries[mid].0.as_slice(), key) {
                assert forall|i: int| 0 <= i < mid + 1 implies lex_lt(#[trigger] self.pairs()[i].0, key@) by {
                    if i < mid {
                        assert(lex_lt(keys[i], keys[mid as int]));
                        lemma_lex_transitive(keys[i], keys[mid as int], key@);
                    }
                }
                lo = mid + 1;
            } else {
                assert forall|i: int| mid <= i < self.pairs().len() implies !lex_lt(
                    #[trigger] self.pairs()[i].0,
                    key@,
                ) by {
                    if mid < i && lex_lt(keys[i], key@) {
                        assert(lex_lt(keys[mid as int], keys[i]));
                        lemma_lex_transitive(keys[mid as int], keys[i], key@);
                    }
                }
                hi = mid;
            }
        }
        lo
    }

    /// The value stored under `key`, if there is one.
    pub fn get(&self, key: &[u8]) -> (res: Option<&Vec<u8>>)
        requires
            self.wf(),
        ensures
            match res {
                Some(v) => self@.contains_key(key@) && self@[key@] == v@,
                None => !self@.contains_key(key@),
            },
    {
        let pos = self.lower_bound(key);
        proof {
            lemma_pairs_map(self.pairs());
        }
        if pos < self.entries.len() && bytes_eq(self.entries[pos].0.as_slice(), key) {
            assert(self.pairs()[pos as int].0 == key@);
            Some(&self.entries[pos].1)
        } else {
            proof {
                if self@.contains_key(key@) {
                    let i = choose|i: int| 0 <= i < self.pairs().len() && #[trigger] self.pairs()[i].0 == key@;
                    lemma_lex_trichotomy(key@, key@);
                    if i > pos {
                        let keys = pair_keys(self.pairs());
                        assert(lex_lt(keys[pos as int], keys[i]));
                        lemma_lex_trichotomy(keys[pos as int], key@);
                    }
                }
            }
            None
        }
    }

    /// Stores `value` under `key`, in place of what was stored under it before.
    pub fn insert(&mut self, key: Vec<u8>, value: Vec<u8>)
        requires
            old(self).wf(),
        ensures
            final(self).wf(),
            final(self)@ == old(self)@.insert(key@, value@),
            final(self).pairs().len() == old(self).pairs().len() + (if old(self)@.contains_key(key@) {
                0int
            } else {
                1int
            }),
    {
        let pos = self.lower_bound(key.as_slice());
        let ghost before = self.pairs();
        let ghost k = key@;
        let ghost v = value@;
        proof {
            lemma_pairs_map(before);
        }
        if pos < self.entries.len() && bytes_eq(self.entries[pos].0.as_slice(), key.as_slice()) {
            self.entries[pos] = (key, value);
            proof {
                let after = self.pairs();
                assert(after =~= before.update(pos as int, (k, v)));
                assert(pair_keys(after) =~= pair_keys(before));
                lemma_pairs_map(after);
                assert(before[pos as int].0 == k);
                assert forall|x: Seq<u8>| #[trigger] pairs_map(after).contains_key(x) <==> pairs_map(
                    before,
                ).insert(k, v).contains_key(x) by {
                    if pairs_map(after).contains_key(x) {
                        let i = choose|i: int| 0 <= i < after.len() && #[trigger] after[i].0 == x;
                        assert(before[i].0 == x);
                    }
                    if pairs_map(before).contains_key(x) {
                        let i = choose|i: int| 0 <= i < before.len() && #[trigger] before[i].0 == x;
                        assert(after[i].0 == x);
                    }
                    if x == k {
                        assert(after[pos as int].0 == x);
                    }
                }
                assert forall|x: Seq<u8>| #[trigger] pairs_map(after).contains_key(x) implies pairs_map(
                    after,
                )[x] == pairs_map(before).insert(k, v)[x] by {
                    let i = choose|i: int| 0 <= i < after.len() && #[trigger] after[i].0 == x;
                    assert(pairs_map(after)[after[i].0] == after[i].1);
                    if i != pos {
                        assert(before[i].0 == x);
                        assert(pairs_map(before)[before[i].0] == before[i].1);
                        if i < pos {
                            assert(lex_lt(pair_keys(before)[i], pair_keys(before)[pos as int]));
                        } else {
                            assert(lex_lt(pair_keys(before)[pos as int], pair_keys(before)[i]));
                        }
                        lemma_lex_trichotomy(x, k);
                    }
                }
                assert(pairs_map(after) =~= pairs_map(before).insert(k, v));
            }
        } else {
            proof {
                if pairs_map(before).contains_key(k) {
                    let i = choose|i: int| 0 <= i < before.len() && #[trigger] before[i].0 == k;
                    lemma_lex_trichotomy(k, k);
                    if i > pos {
                        let keys = pair_keys(before);
                        assert(lex_lt(keys[pos as int], keys[i]));
                        lemma_lex_trichotomy(keys[pos as int], k);
                    }
                }
            }
            self.entries.insert(pos, (key, value));
            proof {
                let after = self.pairs();
                assert(after =~= before.insert(pos as int, (k, v)));
                let keys = pair_keys(before);
                assert forall|i: int, j: int| 0 <= i < j < after.len() implies lex_lt(
                    #[trigger] pair_keys(after)[i],
                    #[trigger] pair_keys(after)[j],
                ) by {
                    if j < pos {
                        assert(lex_lt(keys[i], keys[j]));
                    } else if j == pos {
                        assert(lex_lt(before[i].0, k));
                    } else if i == pos {
                        lemma_lex_trichotomy(before[j - 1].0, k);
                    } else if i < pos {
                        assert(lex_lt(keys[i], keys[j - 1]));
                    } else {
                        assert(lex_lt(keys[i - 1], keys[j - 1]));
                    }
                }
                lemma_pairs_map(after);
                assert forall|x: Seq<u8>| #[trigger] pairs_map(after).contains_key(x) <==> pairs_map(
                    before,
                ).insert(k, v).contains_key(x) by {
                    if pairs_map(after).contains_key(x) {
                        let i = choose|i: int| 0 <= i < after.len() && #[trigger] after[i].0 == x;
                        if i < pos {
                            assert(before[i].0 == x);
                        } else if i > pos {
                            assert(before[i - 1].0 == x);
                        }
                    }
                    if pairs_map(before).contains_key(x) {
                        let i = choose|i: int| 0 <= i < before.len() && #[trigger] before[i].0 == x;
                        if i < pos {
                            assert(after[i].0 == x);
                        } else {
                            assert(after[i + 1].0 == x);
                        }
                    }
                    if x == k {
                        assert(after[pos as int].0 == x);
                    }
                }
                assert forall|x: Seq<u8>| #[trigger] pairs_map(after).contains_key(x) implies pairs_map(
                    after,
                )[x] == pairs_map(before).insert(k, v)[x] by {
                    let i = choose|i: int| 0 <= i < after.len() && #[trigger] after[i].0 == x;
                    assert(pairs_map(after)[after[i].0] == after[i].1);
                    if i < pos {
                        assert(before[i].0 == x);
                        assert(pairs_map(before)[before[i].0] == before[i].1);
                    } else if i > pos {
                        assert(before[i - 1].0 == x);
                        assert(pairs_map(before)[before[i - 1].0] == before[i - 1].1);
                    }
                }
                assert(pairs_map(after) =~= pairs_map(before).insert(k, v));
            }
        }
    }

    /// Drops every entry.
    pub fn clear(&mut self)
        ensures
            final(self).wf(),
            final(self).pairs() == Seq::<(Seq<u8>, Seq<u8>)>::empty(),
            final(self)@ == Map::<Seq<u8>, Seq<u8>>::empty(),
    {
        self.entries.clear();
        assert(self.pairs() =~= Seq::<(Seq<u8>, Seq<u8>)>::empty());
        assert(self@ =~= Map::<Seq<u8>, Seq<u8>>::empty());
    }
}

} // verus!
