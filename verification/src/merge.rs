//! Multi-way merge: several segments of one column become one, in which
//! each key stands once, with the value of the newest segment that holds it.

use vstd::prelude::*;
use crate::bytes::{
    bytes_eq, bytes_lt, copy_bytes, lemma_lex_transitive, lemma_lex_trichotomy, lex_lt, strictly_ascending,
};
use crate::error::StoreResult;
use crate::index::{entry_keys, holds_exactly};
use crate::memtable::pair_keys;
use crate::segment::{packed, sealed, Segment, SegmentWriter, Slot};

verus! {

/// What a list of segments, oldest first, holds for `key`: the newest
/// segment that holds the key decides.
pub open spec fn resolve(segs: Seq<Segment>, key: Seq<u8>) -> Slot
    decreases segs.len(),
{
    if segs.len() == 0 {
        None
    } else if segs.last().slot(key) is Some {
        segs.last().slot(key)
    } else {
        resolve(segs.drop_last(), key)
    }
}

/// Where segment `j` holds the key and no later segment does, segment `j` decides.
pub proof fn lemma_resolve_at(segs: Seq<Segment>, key: Seq<u8>, j: int)
    requires
        0 <= j < segs.len(),
        segs[j].slot(key) is Some,
        forall|i: int| j < i < segs.len() ==> (#[trigger] segs[i]).slot(key) is None,
    ensures
        resolve(segs, key) == segs[j].slot(key),
    decreases segs.len(),
{
    if j < segs.len() - 1 {
        assert(segs.last() == segs[segs.len() - 1]);
        assert forall|i: int| j < i < segs.drop_last().len() implies (#[trigger] segs.drop_last()[i]).slot(
            key,
        ) is None by {
            assert(segs.drop_last()[i] == segs[i]);
        }
        lemma_resolve_at(segs.drop_last(), key, j);
    }
}

/// A key is held by the list exactly if some segment of it holds the key.
pub proof fn lemma_resolve_some(segs: Seq<Segment>, key: Seq<u8>)
    ensures
        resolve(segs, key) is Some <==> exists|i: int| 0 <= i < segs.len() && (#[trigger] segs[i]).slot(key) is Some,
    decreases segs.len(),
{
    if segs.len() > 0 {
        lemma_resolve_some(segs.drop_last(), key);
        if segs.last().slot(key) is Some {
            assert(segs[segs.len() - 1].slot(key) is Some);
        } else if resolve(segs.drop_last(), key) is Some {
            let i = choose|i: int|
                0 <= i < segs.drop_last().len() && (#[trigger] segs.drop_last()[i]).slot(key) is Some;
            assert(segs[i].slot(key) is Some);
        } else {
            assert forall|i: int| 0 <= i < segs.len() implies !((#[trigger] segs[i]).slot(key) is Some) by {
                if i < segs.len() - 1 {
                    assert(segs.drop_last()[i] == segs[i]);
                }
            }
        }
    }
}

/// Of two lists put one behind the other, the later decides where it holds
/// the key, else the earlier.
pub proof fn lemma_resolve_concat(older: Seq<Segment>, newer: Seq<Segment>, key: Seq<u8>)
    ensures
        resolve(older + newer, key) == (if resolve(newer, key) is Some {
            resolve(newer, key)
        } else {
            resolve(older, key)
        }),
    decreases newer.len(),
{
    if newer.len() == 0 {
        assert(older + newer =~= older);
    } else {
        assert((older + newer).last() == newer.last());
        assert((older + newer).drop_last() =~= older + newer.drop_last());
        lemma_resolve_concat(older, newer.drop_last(), key);
    }
}

/// A list of one segment holds what that segment holds.
pub proof fn lemma_resolve_single(s: Segment, key: Seq<u8>)
    ensures
        resolve(seq![s], key) == s.slot(key),
{
    let segs = seq![s];
    assert(segs.last() == s);
    assert(segs.drop_last().len() == 0);
    assert(resolve(segs.drop_last(), key) is None);
}

/// `key` is among the keys of `pairs`.
spec fn emitted(pairs: Seq<(Seq<u8>, Seq<u8>)>, key: Seq<u8>) -> bool {
    exists|p: int| 0 <= p < pairs.len() && #[trigger] pairs[p].0 == key
}

/// The sorted entries of each source, with the position up to which each has been merged.
spec fn runs_model(sources: Seq<Segment>, runs: Seq<Vec<(Vec<u8>, u64)>>) -> bool {
    &&& runs.len() == sources.len()
    &&& forall|j: int|
        0 <= j < runs.len() ==> strictly_ascending(entry_keys((#[trigger] runs[j])@)) && holds_exactly(
            sources[j].offsets(),
            runs[j]@,
        )
}

/// Each cursor stands inside its run or at its end.
spec fn cursors_fit(runs: Seq<Vec<(Vec<u8>, u64)>>, cursors: Seq<usize>) -> bool {
    &&& cursors.len() == runs.len()
    &&& forall|j: int| 0 <= j < runs.len() ==> (#[trigger] cursors[j]) <= runs[j]@.len()
}

/// The number of entries that lie at or after the cursors.
spec fn remaining(runs: Seq<Vec<(Vec<u8>, u64)>>, cursors: Seq<usize>) -> int
    decreases runs.len(),
{
    if runs.len() == 0 || cursors.len() != runs.len() {
        0
    } else {
        remaining(runs.drop_last(), cursors.drop_last()) + runs.last()@.len() - cursors.last()
    }
}

proof fn lemma_remaining(runs: Seq<Vec<(Vec<u8>, u64)>>, before: Seq<usize>, after: Seq<usize>)
    requires
        cursors_fit(runs, before),
        cursors_fit(runs, after),
        forall|j: int| 0 <= j < runs.len() ==> before[j] <= after[j],
    ensures
        0 <= remaining(runs, after) <= remaining(runs, before),
        (exists|j: int| 0 <= j < runs.len() && before[j] < after[j]) ==> remaining(runs, after) < remaining(
            runs,
            before,
        ),
    decreases runs.len(),
{
    if runs.len() > 0 {
        let n = runs.len() - 1;
        assert forall|j: int| 0 <= j < n implies (#[trigger] before.drop_last()[j]) <= runs.drop_last()[j]@.len()
            && (#[trigger] after.drop_last()[j]) <= runs.drop_last()[j]@.len() && before.drop_last()[j]
            <= after.drop_last()[j] by {
            assert(before.drop_last()[j] == before[j]);
            assert(after.drop_last()[j] == after[j]);
            assert(runs.drop_last()[j] == runs[j]);
        }
        lemma_remaining(runs.drop_last(), before.drop_last(), after.drop_last());
        assert(before.last() == before[n]);
        assert(after.last() == after[n]);
        assert(runs.last() == runs[n]);
        if exists|j: int| 0 <= j < runs.len() && before[j] < after[j] {
            let j = choose|j: int| 0 <= j < runs.len() && before[j] < after[j];
            if j < n {
                assert(before.drop_last()[j] < after.drop_last()[j]);
            }
        }
    }
}

/// The run whose next entry has the smallest key; among runs that share
/// that key, the newest. `None` once every run is exhausted.
fn pick(runs: &Vec<Vec<(Vec<u8>, u64)>>, cursors: &Vec<usize>) -> (best: Option<usize>)
    requires
        cursors_fit(runs@, cursors@),
    ensures
        match best {
            Some(b) => {
                &&& b < runs@.len()
                &&& cursors@[b as int] < runs@[b as int]@.len()
                &&& forall|j: int|
                    0 <= j < runs@.len() && cursors@[j] < runs@[j]@.len() ==> !lex_lt(
                        (#[trigger] runs@[j])@[cursors@[j] as int].0@,
                        runs@[b as int]@[cursors@[b as int] as int].0@,
                    )
                &&& forall|j: int|
                    b < j < runs@.len() && cursors@[j] < runs@[j]@.len() ==> lex_lt(
                        runs@[b as int]@[cursors@[b as int] as int].0@,
                        (#[trigger] runs@[j])@[cursors@[j] as int].0@,
                    )
            },
            None => forall|j: int| 0 <= j < runs@.len() ==> (#[trigger] cursors@[j]) == runs@[j]@.len(),
        },
{
    let mut best: Option<usize> = None;
    let mut j: usize = runs.len();
    while j > 0
        invariant
            cursors_fit(runs@, cursors@),
            0 <= j <= runs@.len(),
            match best {
                Some(b) => {
                    &&& j <= b < runs@.len()
                    &&& cursors@[b as int] < runs@[b as int]@.len()
                    &&& forall|i: int|
                        j <= i < runs@.len() && cursors@[i] < runs@[i]@.len() ==> !lex_lt(
                            (#[trigger] runs@[i])@[cursors@[i] as int].0@,
                            runs@[b as int]@[cursors@[b as int] as int].0@,
                        )
                    &&& forall|i: int|
                        b < i < runs@.len() && cursors@[i] < runs@[i]@.len() ==> lex_lt(
                            runs@[b as int]@[cursors@[b as int] as int].0@,
                            (#[trigger] runs@[i])@[cursors@[i] as int].0@,
                        )
                },
                None => forall|i: int| j <= i < runs@.len() ==> (#[trigger] cursors@[i]) == runs@[i]@.len(),
            },
        decreases j,
    {
        j -= 1;
        if cursors[j] < runs[j].len() {
            let head: &Vec<u8> = &runs[j][cursors[j]].0;
            match best {
                None => {
                    proof {
                        lemma_lex_trichotomy(head@, head@);
                    }
                    best = Some(j);
                },
                Some(b) => {
                    let old_head: &Vec<u8> = &runs[b][cursors[b]].0;
                    if bytes_lt(head.as_slice(), old_head.as_slice()) {
                        proof {
                            lemma_lex_trichotomy(head@, head@);
                            assert forall|i: int|
                                j <= i < runs@.len() && cursors@[i] < runs@[i]@.len() implies !lex_lt(
                                (#[trigger] runs@[i])@[cursors@[i] as int].0@,
                                head@,
                            ) by {
                                let h = runs@[i]@[cursors@[i] as int].0@;
                                if i > j && lex_lt(h, head@) {
                                    lemma_lex_transitive(h, head@, old_head@);
                                }
                            }
                            assert forall|i: int|
                                j < i < runs@.len() && cursors@[i] < runs@[i]@.len() implies lex_lt(
                                head@,
                                (#[trigger] runs@[i])@[cursors@[i] as int].0@,
                            ) by {
                                let h = runs@[i]@[cursors@[i] as int].0@;
                                lemma_lex_trichotomy(h, old_head@);
                                if h == old_head@ {
                                } else {
                                    lemma_lex_transitive(head@, old_head@, h);
                                }
                            }
                        }
                        best = Some(j);
                    }
                },
            }
        }
    }
    best
}

/// Moves each cursor whose next entry has the key `key` past that entry.
fn advance(runs: &Vec<Vec<(Vec<u8>, u64)>>, cursors: &mut Vec<usize>, key: &[u8])
    requires
        cursors_fit(runs@, old(cursors)@),
    ensures
        cursors_fit(runs@, final(cursors)@),
        forall|j: int|
            0 <= j < runs@.len() ==> (#[trigger] final(cursors)@[j]) == (if old(cursors)@[j] < runs@[j]@.len()
                && runs@[j]@[old(cursors)@[j] as int].0@ == key@ {
                old(cursors)@[j] + 1
            } else {
                old(cursors)@[j] as int
            }),
{
    let ghost before = cursors@;
    let mut j: usize = 0;
    while j < runs.len()
        invariant
            0 <= j <= runs@.len(),
            cursors_fit(runs@, before),
            cursors@.len() == before.len(),
            forall|i: int| j <= i < runs@.len() ==> (#[trigger] cursors@[i]) == before[i],
            forall|i: int|
                0 <= i < j ==> (#[trigger] cursors@[i]) == (if before[i] < runs@[i]@.len() && runs@[i]@[before[i] as int].0@
                    == key@ {
                    before[i] + 1
                } else {
                    before[i] as int
                }),
        decreases runs@.len() - j,
    {
        let c: usize = cursors[j];
        if c < runs[j].len() && bytes_eq(runs[j][c].0.as_slice(), key) {
            cursors[j] = c + 1;
        }
        j += 1;
    }
}

/// Merges segments of one column, given oldest first, into one segment with
/// the id `new_id`. The result holds each key that any source holds, once,
/// with the value of the newest source that holds it. It fails with an `Io`
/// error exactly if, for some key, that value cannot be read from its source.
#[verifier::rlimit(60)]
#[verifier::spinoff_prover]
pub fn merge_segments(sources: &Vec<Segment>, new_id: u64) -> (res: StoreResult<Segment>)
    requires
        forall|i: int| 0 <= i < sources@.len() ==> (#[trigger] sources@[i]).wf(),
    ensures
        match res {
            Ok(m) => {
                &&& m.wf()
                &&& m.spec_id() == new_id
                &&& m.is_packed()
                &&& forall|k: Seq<u8>| #[trigger] m.slot(k) == resolve(sources@, k)
                &&& forall|k: Seq<u8>| #[trigger] resolve(sources@, k) != Some(None::<Seq<u8>>)
            },
            Err(e) => e is Io && exists|k: Seq<u8>| #[trigger] resolve(sources@, k) == Some(None::<Seq<u8>>),
        },
{
    let n: usize = sources.len();
    let mut runs: Vec<Vec<(Vec<u8>, u64)>> = Vec::new();
    let mut cursors: Vec<usize> = Vec::new();
    let mut i: usize = 0;
    while i < n
        invariant
            0 <= i <= n,
            n == sources@.len(),
            runs@.len() == i,
            cursors@.len() == i,
            forall|j: int| 0 <= j < sources@.len() ==> (#[trigger] sources@[j]).wf(),
            forall|j: int| 0 <= j < i ==> (#[trigger] cursors@[j]) == 0,
            forall|j: int|
                0 <= j < i ==> strictly_ascending(entry_keys((#[trigger] runs@[j])@)) && holds_exactly(
                    sources@[j].offsets(),
                    runs@[j]@,
                ),
        decreases n - i,
    {
        assert(sources@[i as int].wf());
        runs.push(sources[i].entries());
        cursors.push(0);
        i += 1;
    }
    let mut writer = SegmentWriter::new();
    loop
        invariant
            n == sources@.len(),
            runs_model(sources@, runs@),
            cursors_fit(runs@, cursors@),
            writer.wf(),
            strictly_ascending(pair_keys(writer.pairs())),
            forall|p: int|
                0 <= p < writer.pairs().len() ==> resolve(sources@, (#[trigger] writer.pairs()[p]).0) == Some(
                    Some(writer.pairs()[p].1),
                ),
            forall|j: int, q: int|
                0 <= j < runs@.len() && 0 <= q < cursors@[j] ==> emitted(writer.pairs(), (#[trigger] runs@[j]@[q]).0@),
            forall|j: int, q: int|
                0 <= j < runs@.len() && cursors@[j] <= q < runs@[j]@.len() && writer.pairs().len() > 0 ==> lex_lt(
                    writer.pairs().last().0,
                    (#[trigger] runs@[j]@[q]).0@,
                ),
        ensures
            forall|j: int| 0 <= j < runs@.len() ==> (#[trigger] cursors@[j]) == runs@[j]@.len(),
        decreases remaining(runs@, cursors@),
    {
        let best = pick(&runs, &cursors);
        match best {
            None => {
                break ;
            },
            Some(b) => {
                let c: usize = cursors[b];
                let key: Vec<u8> = copy_bytes(runs[b][c].0.as_slice());
                let offset: u64 = runs[b][c].1;
                let ghost k = key@;
                let ghost out = writer.pairs();
                let ghost old_cursors = cursors@;
                proof {
                    // The picked source holds the key and no newer source does.
                    assert(sources@[b as int].offsets().contains_key(runs@[b as int]@[c as int].0@));
                    assert forall|j: int| b < j < sources@.len() implies (#[trigger] sources@[j]).slot(k) is None by {
                        if sources@[j].slot(k) is Some {
                            let run = runs@[j]@;
                            let q = choose|q: int| 0 <= q < run.len() && #[trigger] run[q].0@ == k;
                            let keys = entry_keys(run);
                            if q < cursors@[j] {
                                assert(emitted(out, runs@[j]@[q].0@));
                                let p = choose|p: int| 0 <= p < out.len() && #[trigger] out[p].0 == k;
                                let last = out.len() - 1;
                                assert(lex_lt(out.last().0, runs@[b as int]@[c as int].0@));
                                if p < last {
                                    assert(lex_lt(pair_keys(out)[p], pair_keys(out)[last]));
                                    lemma_lex_transitive(out[p].0, out[last].0, k);
                                }
                                lemma_lex_trichotomy(k, k);
                            } else if q == cursors@[j] {
                                assert(lex_lt(k, runs@[j]@[cursors@[j] as int].0@));
                                lemma_lex_trichotomy(k, k);
                            } else {
                                assert(lex_lt(keys[cursors@[j] as int], keys[q]));
                                assert(!lex_lt(runs@[j]@[cursors@[j] as int].0@, k));
                            }
                        }
                    }
                    lemma_resolve_at(sources@, k, b as int);
                }
                let value = match sources[b].read_value(offset) {
                    Ok(v) => v,
                    Err(e) => {
                        assert(resolve(sources@, k) == Some(None::<Seq<u8>>));
                        return Err(e);
                    },
                };
                proof {
                    vstd::bytes::lemma_auto_spec_u32_to_from_le_bytes();
                    if out.len() > 0 {
                        assert(lex_lt(out.last().0, (runs@[b as int]@[c as int]).0@));
                    }
                }
                match writer.append(key, value.as_slice()) {
                    Ok(()) => {},
                    Err(e) => {
                        return Err(e);
                    },
                }
                advance(&runs, &mut cursors, runs[b][c].0.as_slice());
                proof {
                    let count = out.len() as int;
                    let now = writer.pairs();
                    assert(now == out.push((k, value@)));
                    writer.lemma_pairs_ascend();
                    assert forall|p: int| 0 <= p < now.len() implies resolve(sources@, (#[trigger] now[p]).0) == Some(
                        Some(now[p].1),
                    ) by {
                        if p < count {
                            assert(now[p] == out[p]);
                        }
                    }
                    assert forall|j: int, q: int| 0 <= j < runs@.len() && 0 <= q < cursors@[j] implies emitted(
                        now,
                        (#[trigger] runs@[j]@[q]).0@,
                    ) by {
                        if q < old_cursors[j] {
                            assert(emitted(out, runs@[j]@[q].0@));
                            let p = choose|p: int| 0 <= p < out.len() && #[trigger] out[p].0 == runs@[j]@[q].0@;
                            assert(now[p].0 == runs@[j]@[q].0@);
                        } else {
                            assert(now[count].0 == runs@[j]@[q].0@);
                        }
                    }
                    assert forall|j: int, q: int|
                        0 <= j < runs@.len() && cursors@[j] <= q < runs@[j]@.len() && now.len() > 0 implies lex_lt(
                        now.last().0,
                        (#[trigger] runs@[j]@[q]).0@,
                    ) by {
                        let keys = entry_keys(runs@[j]@);
                        let h = old_cursors[j] as int;
                        if cursors@[j] == old_cursors[j] {
                            assert(!lex_lt(runs@[j]@[h].0@, k));
                            lemma_lex_trichotomy(runs@[j]@[h].0@, k);
                            if q > h {
                                assert(lex_lt(keys[h], keys[q]));
                                lemma_lex_transitive(k, keys[h], keys[q]);
                            }
                        } else {
                            assert(lex_lt(keys[h], keys[q]));
                        }
                    }
                    assert(old_cursors[b as int] < cursors@[b as int]);
                    lemma_remaining(runs@, old_cursors, cursors@);
                }
            },
        }
    }
    let ghost pairs = writer.pairs();
    match writer.finish(new_id) {
        Ok(m) => {
            proof {
                assert(strictly_ascending(pair_keys(pairs)) && sealed(m, pairs) && packed(m, pairs));
                assert forall|k: Seq<u8>|
                    #![trigger m.slot(k)]
                    #![trigger resolve(sources@, k)]
                    m.slot(k) == resolve(sources@, k) && resolve(sources@, k) != Some(None::<Seq<u8>>) by {
                    lemma_resolve_some(sources@, k);
                    if m.slot(k) is Some {
                        let p = choose|p: int| 0 <= p < pairs.len() && #[trigger] pairs[p].0 == k;
                        assert(m.slot(pairs[p].0) == Some(Some(pairs[p].1)));
                        assert(resolve(sources@, pairs[p].0) == Some(Some(pairs[p].1)));
                    } else if resolve(sources@, k) is Some {
                        let j = choose|j: int| 0 <= j < sources@.len() && (#[trigger] sources@[j]).slot(k) is Some;
                        let run = runs@[j]@;
                        let q = choose|q: int| 0 <= q < run.len() && #[trigger] run[q].0@ == k;
                        assert(cursors@[j] == runs@[j]@.len());
                        assert(emitted(pairs, runs@[j]@[q].0@));
                        let p = choose|p: int| 0 <= p < pairs.len() && #[trigger] pairs[p].0 == k;
                        assert(m.slot(pairs[p].0) is Some);
                    }
                }
            }
            Ok(m)
        },
        Err(e) => Err(e),
    }
}

} // verus!
