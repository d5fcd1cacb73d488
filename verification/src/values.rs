//! The values log of a segment: records laid end to end, each a 32-bit
//! little-endian length followed by that many bytes of value.

use vstd::prelude::*;
use vstd::bytes::{spec_u32_from_le_bytes, spec_u32_to_le_bytes, u32_from_le_bytes, u32_to_le_bytes};
use crate::bytes::copy_bytes;
use crate::error::{invalid_input, unexpected_eof, StoreError, StoreResult};

verus! {

/// The record that stores `value`.
pub open spec fn record(value: Seq<u8>) -> Seq<u8> {
    spec_u32_to_le_bytes(value.len() as u32) + value
}

/// The value of the record that starts at `offset` in `log`, if a whole
/// record lies there.
pub open spec fn record_at(log: Seq<u8>, offset: int) -> Option<Seq<u8>> {
    if 0 <= offset && offset + 4 <= log.len() {
        let n = spec_u32_from_le_bytes(log.subrange(offset, offset + 4)) as int;
        if offset + 4 + n <= log.len() {
            Some(log.subrange(offset + 4, offset + 4 + n))
        } else {
            None
        }
    } else {
        None
    }
}

/// A record takes four bytes more than its value.
pub proof fn lemma_record_len(value: Seq<u8>)
    ensures
        record(value).len() == value.len() + 4,
{
    vstd::bytes::lemma_auto_spec_u32_to_from_le_bytes();
}

/// A record appended to a log is read back at the log's former end.
pub proof fn lemma_record_at_end(log: Seq<u8>, value: Seq<u8>)
    requires
        value.len() <= u32::MAX,
    ensures
        record_at(log + record(value), log.len() as int) == Some(value),
{
    vstd::bytes::lemma_auto_spec_u32_to_from_le_bytes();
    let n = log.len() as int;
    let full = log + record(value);
    let head = spec_u32_to_le_bytes(value.len() as u32);
    assert(full.subrange(n, n + 4) =~= head);
    assert(full.subrange(n + 4, n + 4 + value.len()) =~= value);
}

/// A record that a log holds is still read at the same offset after the log grows.
pub proof fn lemma_record_at_stable(log: Seq<u8>, more: Seq<u8>, offset: int)
    requires
        record_at(log, offset) is Some,
    ensures
        record_at(log + more, offset) == record_at(log, offset),
{
    let full = log + more;
    assert(full.subrange(offset, offset + 4) =~= log.subrange(offset, offset + 4));
    let n = spec_u32_from_le_bytes(log.subrange(offset, offset + 4)) as int;
    assert(full.subrange(offset + 4, offset + 4 + n) =~= log.subrange(offset + 4, offset + 4 + n));
}

/// Appends the record of `value` to `log`. A value of more than `u32::MAX`
/// bytes is refused and the log stays as it was.
pub fn write_value(log: &mut Vec<u8>, value: &[u8]) -> (res: StoreResult<()>)
    ensures
        res is Ok <==> value@.len() <= u32::MAX,
        res is Ok ==> final(log)@ == old(log)@ + record(value@),
        res matches Err(e) ==> e is InvalidInput && final(log)@ == old(log)@,
{
    if value.len() > u32::MAX as usize {
        return Err(invalid_input("value too large"));
    }
    let head: Vec<u8> = u32_to_le_bytes(value.len() as u32);
    let ghost before = log@;
    let mut i: usize = 0;
    proof {
        vstd::bytes::lemma_auto_spec_u32_to_from_le_bytes();
    }
    while i < 4
        invariant
            0 <= i <= 4,
            head@.len() == 4,
            log@ == before + head@.subrange(0, i as int),
        decreases 4 - i,
    {
        log.push(head[i]);
        assert(log@ =~= before + head@.subrange(0, i + 1));
        i += 1;
    }
    assert(head@.subrange(0, 4) =~= head@);
    let mut j: usize = 0;
    while j < value.len()
        invariant
            0 <= j <= value.len(),
            log@ == before + head@ + value@.subrange(0, j as int),
        decreases value.len() - j,
    {
        log.push(value[j]);
        assert(log@ =~= before + head@ + value@.subrange(0, j + 1));
        j += 1;
    }
    assert(value@.subrange(0, value@.len() as int) =~= value@);
    assert(log@ =~= before + record(value@));
    Ok(())
}

/// Reads the value of the record that starts at `offset` in `log`. Where no
/// whole record lies there the read fails as a read past the end of a file does.
pub fn read_value(log: &[u8], offset: u64) -> (res: StoreResult<Vec<u8>>)
    ensures
        match res {
            Ok(v) => record_at(log@, offset as int) == Some(v@),
            Err(e) => e is Io && record_at(log@, offset as int) is None,
        },
{
    let len: usize = log.len();
    if offset > usize::MAX as u64 || len < 4 || offset as usize > len - 4 {
        return Err(StoreError::Io(unexpected_eof()));
    }
    let start: usize = offset as usize;
    let n: u32 = u32_from_le_bytes(vstd::slice::slice_subrange(log, start, start + 4));
    let body: usize = start + 4;
    if n as u64 > (len - body) as u64 {
        return Err(StoreError::Io(unexpected_eof()));
    }
    let end: usize = body + n as usize;
    Ok(copy_bytes(vstd::slice::slice_subrange(log, body, end)))
}

} // verus!
