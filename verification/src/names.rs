//! The names of segment files. Segment `id` of column `col` lives in the
//! files `col{col}_seg{id}.fst` and `col{col}_seg{id}.val`, the id written
//! with twenty decimal digits so that names sort as ids do.

use vstd::prelude::*;
use crate::bytes::{copy_bytes, is_prefix, starts_with};

verus! {

/// The ASCII digit for `d`.
pub open spec fn digit(d: nat) -> u8 {
    (0x30 + d) as u8
}

/// `n` in decimal, without leading zeros.
pub open spec fn decimal(n: nat) -> Seq<u8>
    decreases n,
{
    if n < 10 {
        seq![digit(n)]
    } else {
        decimal(n / 10).push(digit(n % 10))
    }
}

/// The last `width` decimal digits of `n`, with leading zeros.
pub open spec fn padded(n: nat, width: nat) -> Seq<u8>
    decreases width,
{
    if width == 0 {
        Seq::empty()
    } else {
        padded(n / 10, (width - 1) as nat).push(digit(n % 10))
    }
}

/// The number that a string of decimal digits stands for.
pub open spec fn decimal_value(s: Seq<u8>) -> nat
    decreases s.len(),
{
    if s.len() == 0 {
        0
    } else {
        decimal_value(s.drop_last()) * 10 + (s.last() - 0x30) as nat
    }
}

/// Every byte of `s` is an ASCII digit.
pub open spec fn all_digits(s: Seq<u8>) -> bool {
    forall|i: int| 0 <= i < s.len() ==> 0x30 <= #[trigger] s[i] <= 0x39
}

/// The id that the text `s` stands for: decimal digits, at least one, with
/// an optional `+` before them, of a value that fits 64 bits.
pub open spec fn parse_id(s: Seq<u8>) -> Option<u64> {
    let d = if s.len() > 0 && s[0] == 0x2Bu8 {
        s.skip(1)
    } else {
        s
    };
    if d.len() > 0 && all_digits(d) && decimal_value(d) <= u64::MAX {
        Some(decimal_value(d) as u64)
    } else {
        None
    }
}

/// `col`, the bytes with which the name of every segment file starts.
pub open spec fn name_head() -> Seq<u8> {
    seq![0x63u8, 0x6Fu8, 0x6Cu8]
}

/// `_seg`, which stands between the column and the segment id.
pub open spec fn name_middle() -> Seq<u8> {
    seq![0x5Fu8, 0x73u8, 0x65u8, 0x67u8]
}

/// `.fst`, the ending of an index file's name.
pub open spec fn index_suffix() -> Seq<u8> {
    seq![0x2Eu8, 0x66u8, 0x73u8, 0x74u8]
}

/// `.val`, the ending of a values file's name.
pub open spec fn values_suffix() -> Seq<u8> {
    seq![0x2Eu8, 0x76u8, 0x61u8, 0x6Cu8]
}

/// What the names of the segment files of column `col` start with.
pub open spec fn column_prefix(col: u8) -> Seq<u8> {
    name_head() + decimal(col as nat) + name_middle()
}

/// The name of the index file of segment `id` of column `col`.
pub open spec fn index_name(col: u8, id: u64) -> Seq<u8> {
    column_prefix(col) + padded(id as nat, 20) + index_suffix()
}

/// The name of the values file of segment `id` of column `col`.
pub open spec fn values_name(col: u8, id: u64) -> Seq<u8> {
    column_prefix(col) + padded(id as nat, 20) + values_suffix()
}

/// `name` ends with `suffix`.
pub open spec fn is_suffix(suffix: Seq<u8>, name: Seq<u8>) -> bool {
    suffix.len() <= name.len() && name.subrange(name.len() - suffix.len(), name.len() as int) == suffix
}

/// The text between the column prefix and the `.fst` ending of `name`, if
/// `name` has both.
pub open spec fn id_text(col: u8, name: Seq<u8>) -> Option<Seq<u8>> {
    let prefix = column_prefix(col);
    if is_prefix(prefix, name) && is_suffix(index_suffix(), name) && prefix.len() + 4 <= name.len() {
        Some(name.subrange(prefix.len() as int, name.len() - 4))
    } else {
        None
    }
}

/// The segment id that `name` carries, if it names an index file of column `col`.
pub open spec fn index_file_id(col: u8, name: Seq<u8>) -> Option<u64> {
    match id_text(col, name) {
        Some(text) => parse_id(text),
        None => None,
    }
}

/// The name of the values file that belongs to the index file `name` of
/// column `col`: the same name with `.val` in place of `.fst`.
pub open spec fn sibling_name(name: Seq<u8>) -> Seq<u8> {
    name.subrange(0, name.len() - 4) + values_suffix()
}

/// The bytes `col{col}_seg`.
pub fn column_prefix_bytes(col: u8) -> (out: Vec<u8>)
    ensures
        out@ == column_prefix(col),
{
    let mut out: Vec<u8> = Vec::new();
    out.push(0x63);
    out.push(0x6F);
    out.push(0x6C);
    proof {
        reveal_with_fuel(decimal, 3);
    }
    if col >= 100 {
        out.push(0x30 + col / 100);
        out.push(0x30 + (col / 10) % 10);
        out.push(0x30 + col % 10);
    } else if col >= 10 {
        out.push(0x30 + col / 10);
        out.push(0x30 + col % 10);
    } else {
        out.push(0x30 + col);
    }
    out.push(0x5F);
    out.push(0x73);
    out.push(0x65);
    out.push(0x67);
    assert(out@ =~= column_prefix(col));
    out
}

/// `id` in twenty decimal digits.
pub fn padded_id(id: u64) -> (out: Vec<u8>)
    ensures
        out@ == padded(id as nat, 20),
{
    let mut rev: Vec<u8> = Vec::new();
    let mut n: u64 = id;
    let mut j: usize = 0;
    while j < 20
        invariant
            0 <= j <= 20,
            rev@.len() == j,
            padded(id as nat, 20) == padded(n as nat, (20 - j) as nat) + rev@.reverse(),
        decreases 20 - j,
    {
        let d: u8 = (n % 10) as u8;
        proof {
            let rest = padded((n / 10) as nat, (19 - j) as nat);
            assert(padded(n as nat, (20 - j) as nat) == rest.push(digit((n % 10) as nat)));
            assert(rest.push((0x30 + d) as u8) + rev@.reverse() =~= rest + rev@.push((0x30 + d) as u8).reverse());
        }
        rev.push(0x30 + d);
        n = n / 10;
        j += 1;
    }
    let mut out: Vec<u8> = Vec::new();
    let mut i: usize = 20;
    while i > 0
        invariant
            0 <= i <= 20,
            rev@.len() == 20,
            out@ == rev@.reverse().subrange(0, 20 - i),
        decreases i,
    {
        i -= 1;
        out.push(rev[i]);
        assert(out@ =~= rev@.reverse().subrange(0, 20 - i));
    }
    assert(out@ =~= rev@.reverse());
    assert(padded(n as nat, 0) + rev@.reverse() =~= rev@.reverse());
    out
}

/// The names of the index file and of the values file of segment `id` of
/// column `col`.
pub fn segment_paths(col: u8, id: u64) -> (names: (Vec<u8>, Vec<u8>))
    ensures
        names.0@ == index_name(col, id),
        names.1@ == values_name(col, id),
{
    let prefix = column_prefix_bytes(col);
    let digits = padded_id(id);
    let stem = crate::bytes::concat(prefix.as_slice(), digits.as_slice());
    let mut index: Vec<u8> = copy_bytes(stem.as_slice());
    index.push(0x2E);
    index.push(0x66);
    index.push(0x73);
    index.push(0x74);
    let mut values: Vec<u8> = stem;
    values.push(0x2E);
    values.push(0x76);
    values.push(0x61);
    values.push(0x6C);
    assert(index@ =~= index_name(col, id));
    assert(values@ =~= values_name(col, id));
    (index, values)
}

/// Reads a segment id from its text.
pub fn parse_segment_id(text: &[u8]) -> (res: Option<u64>)
    ensures
        res == parse_id(text@),
{
    let start: usize = if text.len() > 0 && text[0] == 0x2B {
        1
    } else {
        0
    };
    let ghost d = if start == 1 {
        text@.skip(1)
    } else {
        text@
    };
    if start == text.len() {
        return None;
    }
    let mut value: u64 = 0;
    let mut i: usize = start;
    while i < text.len()
        invariant
            start <= i <= text.len(),
            start == (if text@.len() > 0 && text@[0] == 0x2Bu8 {
                1int
            } else {
                0int
            }),
            d == (if start == 1 {
                text@.skip(1)
            } else {
                text@
            }),
            d.len() == text@.len() - start,
            forall|j: int| 0 <= j < d.len() ==> d[j] == text@[j + start],
            all_digits(d.subrange(0, i - start)),
            value == decimal_value(d.subrange(0, i - start)),
        decreases text.len() - i,
    {
        let b: u8 = text[i];
        let ghost part = d.subrange(0, i - start);
        let ghost next = d.subrange(0, i + 1 - start);
        proof {
            assert(next.drop_last() =~= part);
            assert(next.last() == b);
        }
        if b < 0x30 || b > 0x39 {
            assert(d[i - start] == b);
            return None;
        }
        let digit: u64 = (b - 0x30) as u64;
        if value > (u64::MAX - digit) / 10 {
            proof {
                assert(decimal_value(next) > u64::MAX);
                lemma_value_grows(d, i + 1 - start);
            }
            return None;
        }
        value = value * 10 + digit;
        i += 1;
    }
    assert(d.subrange(0, d.len() as int) =~= d);
    Some(value)
}

/// The value of a string of digits is at least the value of each of its beginnings.
pub proof fn lemma_value_grows(d: Seq<u8>, n: int)
    requires
        0 <= n <= d.len(),
    ensures
        decimal_value(d.subrange(0, n)) <= decimal_value(d) || !all_digits(d),
    decreases d.len() - n,
{
    if n < d.len() {
        lemma_value_grows(d, n + 1);
        let next = d.subrange(0, n + 1);
        assert(next.drop_last() =~= d.subrange(0, n));
        if all_digits(d) {
            assert(next.last() == d[n]);
        }
    } else {
        assert(d.subrange(0, n) =~= d);
    }
}

/// Tells whether `name` names an index file of column `col`, and if so gives
/// the segment id that it carries and the name of the values file beside it.
pub fn parse_index_name(col: u8, name: &[u8]) -> (res: Option<(u64, Vec<u8>)>)
    ensures
        match res {
            Some((id, sibling)) => index_file_id(col, name@) == Some(id) && sibling@ == sibling_name(name@),
            None => index_file_id(col, name@) is None,
        },
{
    let prefix = column_prefix_bytes(col);
    if !starts_with(name, prefix.as_slice()) || name.len() < 4 || name.len() - 4 < prefix.len() {
        return None;
    }
    let cut: usize = name.len() - 4;
    if name[cut] != 0x2E || name[cut + 1] != 0x66 || name[cut + 2] != 0x73 || name[cut + 3] != 0x74 {
        proof {
            let tail = name@.subrange(name@.len() - 4, name@.len() as int);
            assert(tail[0] == name@[cut as int]);
            assert(tail[1] == name@[cut + 1]);
            assert(tail[2] == name@[cut + 2]);
            assert(tail[3] == name@[cut + 3]);
        }
        return None;
    }
    assert(name@.subrange(name@.len() - 4, name@.len() as int) =~= index_suffix());
    match parse_segment_id(vstd::slice::slice_subrange(name, prefix.len(), cut)) {
        None => None,
        Some(id) => {
            let mut sibling: Vec<u8> = copy_bytes(vstd::slice::slice_subrange(name, 0, cut));
            sibling.push(0x2E);
            sibling.push(0x76);
            sibling.push(0x61);
            sibling.push(0x6C);
            assert(sibling@ =~= sibling_name(name@));
            Some((id, sibling))
        },
    }
}

/// The least number that does not fit `width` decimal digits.
pub open spec fn ten_to(width: nat) -> nat
    decreases width,
{
    if width == 0 {
        1
    } else {
        10 * ten_to((width - 1) as nat)
    }
}

/// A number written with leading zeros is read back as itself, if its digits fit the width.
pub proof fn lemma_padded_value(n: nat, width: nat)
    requires
        n < ten_to(width),
    ensures
        padded(n, width).len() == width,
        all_digits(padded(n, width)),
        decimal_value(padded(n, width)) == n,
    decreases width,
{
    if width > 0 {
        let rest = padded(n / 10, (width - 1) as nat);
        lemma_padded_value(n / 10, (width - 1) as nat);
        assert(padded(n, width).drop_last() =~= rest);
        assert(padded(n, width).last() == digit(n % 10));
        assert forall|i: int| 0 <= i < padded(n, width).len() implies 0x30 <= #[trigger] padded(n, width)[i]
            <= 0x39 by {
            if i < width - 1 {
                assert(padded(n, width)[i] == rest[i]);
            }
        }
    }
}

/// The name that a segment's index file is given is read back as the
/// segment's id, with the name of the segment's values file as the name
/// beside it; and the values file's name is not taken for an index file.
pub proof fn lemma_index_name_parses(col: u8, id: u64)
    ensures
        index_file_id(col, index_name(col, id)) == Some(id),
        sibling_name(index_name(col, id)) == values_name(col, id),
        index_file_id(col, values_name(col, id)) is None,
{
    reveal_with_fuel(ten_to, 21);
    lemma_padded_value(id as nat, 20);
    let prefix = column_prefix(col);
    let digits = padded(id as nat, 20);
    let name = index_name(col, id);
    assert(name.subrange(0, prefix.len() as int) =~= prefix);
    assert(name.subrange(name.len() - 4, name.len() as int) =~= index_suffix());
    assert(name.subrange(prefix.len() as int, name.len() - 4) =~= digits);
    assert(digits[0] != 0x2Bu8);
    assert(name.subrange(0, name.len() - 4) + values_suffix() =~= values_name(col, id));
    let other = values_name(col, id);
    assert(other.subrange(other.len() - 4, other.len() as int)[1] == 0x76u8);
    assert(index_suffix()[1] == 0x66u8);
}

/// The name of a values file does not end as the name of an index file does.
pub proof fn lemma_values_name_ending(col: u8, id: u64)
    ensures
        !is_suffix(index_suffix(), values_name(col, id)),
{
    let name = values_name(col, id);
    assert(name.subrange(name.len() - 4, name.len() as int)[1] == 0x76u8);
    assert(index_suffix()[1] == 0x66u8);
}

/// The decimal digits of a number below a thousand.
pub proof fn lemma_decimal_small(n: nat)
    requires
        n < 1000,
    ensures
        n < 10 ==> decimal(n) == seq![digit(n)],
        10 <= n < 100 ==> decimal(n) == seq![digit(n / 10), digit(n % 10)],
        100 <= n ==> decimal(n) == seq![digit(n / 100), digit((n / 10) % 10), digit(n % 10)],
{
    reveal_with_fuel(decimal, 3);
    if 10 <= n < 100 {
        assert(decimal(n) =~= seq![digit(n / 10), digit(n % 10)]);
    } else if 100 <= n {
        assert(decimal(n / 10) =~= seq![digit(n / 100), digit((n / 10) % 10)]);
        assert(decimal(n) =~= seq![digit(n / 100), digit((n / 10) % 10), digit(n % 10)]);
    }
}

/// The name of an index file of one column is not taken for a file of another column.
pub proof fn lemma_index_name_of_other_column(col: u8, other: u8, id: u64)
    requires
        col != other,
    ensures
        index_file_id(other, index_name(col, id)) is None,
{
    reveal_with_fuel(decimal, 3);
    reveal_with_fuel(ten_to, 21);
    lemma_padded_value(id as nat, 20);
    let name = index_name(col, id);
    let prefix = column_prefix(other);
    let own = column_prefix(col);
    if is_prefix(prefix, name) {
        let head = name.subrange(0, prefix.len() as int);
        assert(head == prefix);
        assert forall|i: int| 0 <= i < prefix.len() implies prefix[i] == name[i] by {
            assert(head[i] == name[i]);
        }
        assert forall|i: int| 0 <= i < own.len() implies own[i] == name[i] by {}
        let a = decimal(col as nat);
        let b = decimal(other as nat);
        assert(own =~= name_head() + a + name_middle());
        assert(prefix =~= name_head() + b + name_middle());
        lemma_decimal_small(col as nat);
        lemma_decimal_small(other as nat);
        if a.len() == b.len() {
            assert forall|i: int| 0 <= i < a.len() implies a[i] == b[i] by {
                assert(own[3 + i] == a[i]);
                assert(prefix[3 + i] == b[i]);
            }
            assert(a =~= b);
            if a.len() == 1 {
                assert(a[0] == b[0]);
            } else if a.len() == 2 {
                assert(a[0] == b[0] && a[1] == b[1]);
            } else {
                assert(a[0] == b[0] && a[1] == b[1] && a[2] == b[2]);
            }
            assert(false);
        } else if b.len() < a.len() {
            assert(prefix[3 + b.len() as int] == 0x5Fu8);
            assert(own[3 + b.len() as int] == a[b.len() as int]);
            assert(false);
        } else {
            assert(prefix[3 + a.len() as int] == b[a.len() as int]);
            if 3 + a.len() < own.len() {
                assert(own[3 + a.len() as int] == 0x5Fu8);
            }
            assert(false);
        }
    }
}

} // verus!
