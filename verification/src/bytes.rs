//! Byte strings under lexicographic order: comparison, prefixes and the
//! upper bound of a prefix range.

use vstd::prelude::*;

verus! {

/// The first index at or after `i` where `a` and `b` differ or one of them ends.
pub open spec fn first_diff_from(a: Seq<u8>, b: Seq<u8>, i: int) -> int
    decreases a.len() - i,
{
    if i < 0 || i >= a.len() || i >= b.len() || a[i] != b[i] {
        i
    } else {
        first_diff_from(a, b, i + 1)
    }
}

/// The length of the longest common prefix of `a` and `b`.
pub open spec fn first_diff(a: Seq<u8>, b: Seq<u8>) -> int {
    first_diff_from(a, b, 0)
}

/// `a` comes strictly before `b` in lexicographic byte order.
pub open spec fn lex_lt(a: Seq<u8>, b: Seq<u8>) -> bool {
    let d = first_diff(a, b);
    d < b.len() && (d == a.len() || a[d] < b[d])
}

/// `a` comes before `b` in lexicographic byte order, or equals it.
pub open spec fn lex_le(a: Seq<u8>, b: Seq<u8>) -> bool {
    a == b || lex_lt(a, b)
}

/// `key` starts with `prefix`.
pub open spec fn is_prefix(prefix: Seq<u8>, key: Seq<u8>) -> bool {
    prefix.len() <= key.len() && key.subrange(0, prefix.len() as int) == prefix
}

/// The byte strings that a list of vectors holds.
pub open spec fn views(keys: Seq<Vec<u8>>) -> Seq<Seq<u8>> {
    Seq::new(keys.len(), |i: int| keys[i]@)
}

/// A sequence of byte strings in strictly ascending lexicographic order.
pub open spec fn strictly_ascending(keys: Seq<Seq<u8>>) -> bool {
    forall|i: int, j: int| 0 <= i < j < keys.len() ==> lex_lt(#[trigger] keys[i], #[trigger] keys[j])
}

/// What `first_diff_from` returns: the two strings agree from `i` up to it,
/// and there they differ or one ends.
pub proof fn lemma_first_diff_from(a: Seq<u8>, b: Seq<u8>, i: int)
    requires
        0 <= i <= a.len(),
        i <= b.len(),
    ensures
        i <= first_diff_from(a, b, i) <= a.len(),
        first_diff_from(a, b, i) <= b.len(),
        forall|j: int| i <= j < first_diff_from(a, b, i) ==> a[j] == b[j],
        first_diff_from(a, b, i) < a.len() && first_diff_from(a, b, i) < b.len() ==> a[first_diff_from(
            a,
            b,
            i,
        )] != b[first_diff_from(a, b, i)],
    decreases a.len() - i,
{
    if i >= a.len() || i >= b.len() || a[i] != b[i] {
    } else {
        lemma_first_diff_from(a, b, i + 1);
    }
}

/// Any index with the defining property of the first difference is the first difference.
pub proof fn lemma_first_diff_unique(a: Seq<u8>, b: Seq<u8>, d: int)
    requires
        0 <= d <= a.len(),
        d <= b.len(),
        forall|j: int| 0 <= j < d ==> a[j] == b[j],
        d < a.len() && d < b.len() ==> a[d] != b[d],
    ensures
        first_diff(a, b) == d,
{
    lemma_first_diff_from(a, b, 0);
    let e = first_diff(a, b);
    if e < d {
        assert(a[e] == b[e]);
    } else if d < e {
        assert(a[d] == b[d]);
    }
}

/// The first difference does not depend on the order of the two strings.
pub proof fn lemma_first_diff_symmetric(a: Seq<u8>, b: Seq<u8>)
    ensures
        first_diff(a, b) == first_diff(b, a),
{
    lemma_first_diff_from(a, b, 0);
    lemma_first_diff_unique(b, a, first_diff(a, b));
}

/// Two strings whose first difference lies at the end of both are equal.
pub proof fn lemma_first_diff_equal(a: Seq<u8>, b: Seq<u8>)
    ensures
        (first_diff(a, b) == a.len() && first_diff(a, b) == b.len()) <==> a == b,
{
    lemma_first_diff_from(a, b, 0);
    if first_diff(a, b) == a.len() && first_diff(a, b) == b.len() {
        assert(a =~= b);
    }
    if a == b {
        lemma_first_diff_unique(a, b, a.len() as int);
    }
}

/// Lexicographic order is a strict total order: exactly one of `a < b`,
/// `a == b`, `b < a` holds.
pub proof fn lemma_lex_trichotomy(a: Seq<u8>, b: Seq<u8>)
    ensures
        lex_lt(a, b) || a == b || lex_lt(b, a),
        !(lex_lt(a, b) && a == b),
        !(lex_lt(b, a) && a == b),
        !(lex_lt(a, b) && lex_lt(b, a)),
{
    lemma_first_diff_from(a, b, 0);
    lemma_first_diff_symmetric(a, b);
    lemma_first_diff_equal(a, b);
}

/// Lexicographic order is transitive.
pub proof fn lemma_lex_transitive(a: Seq<u8>, b: Seq<u8>, c: Seq<u8>)
    requires
        lex_lt(a, b),
        lex_lt(b, c),
    ensures
        lex_lt(a, c),
{
    lemma_first_diff_from(a, b, 0);
    lemma_first_diff_from(b, c, 0);
    let d1 = first_diff(a, b);
    let d2 = first_diff(b, c);
    let d = if d1 <= d2 { d1 } else { d2 };
    assert forall|j: int| 0 <= j < d implies a[j] == c[j] by {
        assert(a[j] == b[j]);
        assert(b[j] == c[j]);
    }
    if d < a.len() && d < c.len() {
        if d1 < d2 {
            assert(b[d] == c[d]);
        } else if d2 < d1 {
            assert(a[d] == b[d]);
        }
    }
    lemma_first_diff_unique(a, c, d);
}

/// In a strictly ascending sequence no string occurs twice.
pub proof fn lemma_ascending_distinct(keys: Seq<Seq<u8>>)
    requires
        strictly_ascending(keys),
    ensures
        forall|i: int, j: int| 0 <= i < keys.len() && 0 <= j < keys.len() && i != j ==> keys[i] != keys[j],
{
    assert forall|i: int, j: int| 0 <= i < keys.len() && 0 <= j < keys.len() && i != j implies keys[i]
        != keys[j] by {
        if i < j {
            lemma_lex_trichotomy(keys[i], keys[j]);
        } else {
            lemma_lex_trichotomy(keys[j], keys[i]);
        }
    }
}

/// Whether `a` comes strictly before `b` in lexicographic byte order.
pub fn bytes_lt(a: &[u8], b: &[u8]) -> (res: bool)
    ensures
        res == lex_lt(a@, b@),
{
    let mut i: usize = 0;
    while i < a.len() && i < b.len() && a[i] == b[i]
        invariant
            0 <= i <= a.len(),
            i <= b.len(),
            forall|j: int| 0 <= j < i ==> a@[j] == b@[j],
        decreases a.len() - i,
    {
        i += 1;
    }
    proof {
        lemma_first_diff_unique(a@, b@, i as int);
    }
    i < b.len() && (i == a.len() || a[i] < b[i])
}

/// Whether `a` and `b` hold the same bytes.
pub fn bytes_eq(a: &[u8], b: &[u8]) -> (res: bool)
    ensures
        res == (a@ == b@),
{
    if a.len() != b.len() {
        return false;
    }
    let mut i: usize = 0;
    while i < a.len()
        invariant
            0 <= i <= a.len(),
            a.len() == b.len(),
            forall|j: int| 0 <= j < i ==> a@[j] == b@[j],
        decreases a.len() - i,
    {
        if a[i] != b[i] {
            return false;
        }
        i += 1;
    }
    assert(a@ =~= b@);
    true
}

/// Whether `key` starts with `prefix`.
pub fn starts_with(key: &[u8], prefix: &[u8]) -> (res: bool)
    ensures
        res == is_prefix(prefix@, key@),
{
    if prefix.len() > key.len() {
        return false;
    }
    let mut i: usize = 0;
    while i < prefix.len()
        invariant
            0 <= i <= prefix.len(),
            prefix.len() <= key.len(),
            forall|j: int| 0 <= j < i ==> key@[j] == prefix@[j],
        decreases prefix.len() - i,
    {
        if key[i] != prefix[i] {
            assert(key@.subrange(0, prefix@.len() as int)[i as int] == key@[i as int]);
            return false;
        }
        i += 1;
    }
    assert(key@.subrange(0, prefix@.len() as int) =~= prefix@);
    true
}

/// A copy of the bytes of `src`.
pub fn copy_bytes(src: &[u8]) -> (out: Vec<u8>)
    ensures
        out@ == src@,
{
    let mut out: Vec<u8> = Vec::with_capacity(src.len());
    let mut i: usize = 0;
    while i < src.len()
        invariant
            0 <= i <= src.len(),
            out@ == src@.subrange(0, i as int),
        decreases src.len() - i,
    {
        out.push(src[i]);
        assert(out@ =~= src@.subrange(0, i + 1));
        i += 1;
    }
    assert(src@.subrange(0, src@.len() as int) =~= src@);
    out
}

/// The bytes of `a` followed by the bytes of `b`.
pub fn concat(a: &[u8], b: &[u8]) -> (out: Vec<u8>)
    ensures
        out@ == a@ + b@,
{
    let mut out: Vec<u8> = copy_bytes(a);
    let mut i: usize = 0;
    while i < b.len()
        invariant
            0 <= i <= b.len(),
            out@ == a@ + b@.subrange(0, i as int),
        decreases b.len() - i,
    {
        out.push(b[i]);
        assert(out@ =~= a@ + b@.subrange(0, i + 1));
        i += 1;
    }
    assert(b@.subrange(0, b@.len() as int) =~= b@);
    out
}

/// The index of the last byte of `p` that is not `0xFF`, or -1 if there is none.
pub open spec fn last_below_max(p: Seq<u8>) -> int
    decreases p.len(),
{
    if p.len() == 0 {
        -1
    } else if p.last() != 0xFFu8 {
        p.len() - 1
    } else {
        last_below_max(p.drop_last())
    }
}

/// The smallest byte string that is greater than every string starting with
/// `p`: the last byte below `0xFF` is incremented and what follows it is cut
/// off. There is none where `p` is empty or holds only `0xFF`.
pub open spec fn upper_bound(p: Seq<u8>) -> Option<Seq<u8>> {
    let i = last_below_max(p);
    if i < 0 {
        None
    } else {
        Some(p.subrange(0, i).push((p[i] + 1) as u8))
    }
}

/// What `last_below_max` returns: the byte there is below `0xFF` and every
/// later byte is `0xFF`.
pub proof fn lemma_last_below_max(p: Seq<u8>)
    ensures
        -1 <= last_below_max(p) < p.len(),
        last_below_max(p) >= 0 ==> p[last_below_max(p)] != 0xFFu8,
        forall|j: int| last_below_max(p) < j < p.len() ==> p[j] == 0xFFu8,
    decreases p.len(),
{
    if p.len() > 0 && p.last() == 0xFFu8 {
        lemma_last_below_max(p.drop_last());
        assert forall|j: int| last_below_max(p) < j < p.len() implies p[j] == 0xFFu8 by {
            if j < p.len() - 1 {
                assert(p.drop_last()[j] == p[j]);
            }
        }
    }
}

/// The empty prefix has no upper bound.
pub proof fn lemma_upper_bound_empty()
    ensures
        upper_bound(Seq::<u8>::empty()) is None,
{
}

/// A prefix has no upper bound exactly if every byte of it is `0xFF`.
pub proof fn lemma_upper_bound_none(p: Seq<u8>)
    ensures
        upper_bound(p) is None <==> (forall|j: int| 0 <= j < p.len() ==> p[j] == 0xFFu8),
{
    lemma_last_below_max(p);
    if last_below_max(p) >= 0 {
        assert(p[last_below_max(p)] != 0xFFu8);
    }
}

/// A string starts with `p` exactly if it lies in the half-open range from
/// `p` to the upper bound of `p`, or at or after `p` where there is no upper
/// bound.
pub proof fn lemma_prefix_range(p: Seq<u8>, k: Seq<u8>)
    ensures
        is_prefix(p, k) <==> (lex_le(p, k) && (upper_bound(p) matches Some(ub) ==> lex_lt(k, ub))),
{
    lemma_last_below_max(p);
    lemma_first_diff_from(p, k, 0);
    let i = last_below_max(p);
    let d = first_diff(p, k);
    if is_prefix(p, k) {
        assert forall|j: int| 0 <= j < p.len() implies p[j] == k[j] by {
            assert(k.subrange(0, p.len() as int)[j] == k[j]);
        }
        lemma_first_diff_unique(p, k, p.len() as int);
        lemma_first_diff_equal(p, k);
        if i >= 0 {
            let ub = upper_bound(p)->0;
            lemma_first_diff_unique(k, ub, i);
        }
    }
    if lex_le(p, k) && (upper_bound(p) matches Some(ub) ==> lex_lt(k, ub)) {
        lemma_first_diff_equal(p, k);
        if d < p.len() {
            assert(p[d] < k[d]);
            assert(d <= i);
            let ub = upper_bound(p)->0;
            if d < i {
                lemma_first_diff_unique(k, ub, d);
            } else {
                if k[i] == ub[i] {
                    lemma_first_diff_unique(k, ub, i + 1);
                } else {
                    lemma_first_diff_unique(k, ub, i);
                }
            }
            assert(false);
        }
        assert(k.subrange(0, p.len() as int) =~= p);
    }
}

/// The exclusive upper end of the range of keys that start with `prefix`, if
/// there is one.
pub fn prefix_upper_bound(prefix: &[u8]) -> (res: Option<Vec<u8>>)
    ensures
        res matches Some(v) ==> upper_bound(prefix@) == Some(v@),
        res is None ==> upper_bound(prefix@) is None,
{
    let mut i: usize = prefix.len();
    assert(prefix@.subrange(0, i as int) =~= prefix@);
    while i > 0
        invariant
            0 <= i <= prefix.len(),
                last_below_max(prefix@) == last_below_max(prefix@.subrange(0, i as int)),
        decreases i,
    {
        if prefix[i - 1] != u8::MAX {
            let mut out: Vec<u8> = copy_bytes(vstd::slice::slice_subrange(prefix, 0, i - 1));
            out.push(prefix[i - 1] + 1);
            proof {
                lemma_last_below_max(prefix@);
            }
            return Some(out);
        }
        assert(prefix@.subrange(0, i as int).drop_last() =~= prefix@.subrange(0, i - 1));
        i -= 1;
    }
    None
}

} // verus!
