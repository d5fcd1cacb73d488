//! The kinds of keys and values that an indexer keeps in the store.

use vstd::prelude::*;
use vstd::bytes::{spec_u32_to_le_bytes, spec_u64_to_le_bytes, u32_to_le_bytes, u64_to_le_bytes};

verus! {

/// The length in bytes of a composite key.
pub const KEY_LEN: usize = 16;

/// A numeric key.
#[derive(Clone, Copy, Debug, PartialEq, Eq, Hash)]
pub struct Key(pub u64);

/// A composite key of sixteen bytes.
#[derive(Clone, Copy, Debug, PartialEq, Eq, Hash)]
pub struct Key16(pub [u8; 16]);

/// An amount of coins.
#[derive(Clone, Copy, Debug)]
pub struct Amount(pub u64);

/// The hash of a transaction.
#[derive(Clone, Debug)]
pub struct TxHash(pub [u8; 32]);

/// A point in time.
#[derive(Clone, Copy, Debug)]
pub struct Timestamp(pub u64);

/// An address in its text form.
#[derive(Clone, Debug)]
pub struct Address(pub Vec<u8>);

impl Key {
    /// The key's number in eight bytes, most significant first.
    pub fn to_be_bytes(self) -> (out: [u8; 8])
        ensures
            out@ == spec_u64_to_le_bytes(self.0).reverse(),
    {
        let le: Vec<u8> = u64_to_le_bytes(self.0);
        proof {
            vstd::bytes::lemma_auto_spec_u64_to_from_le_bytes();
        }
        let out: [u8; 8] = [le[7], le[6], le[5], le[4], le[3], le[2], le[1], le[0]];
        assert(out@ =~= le@.reverse());
        out
    }
}

impl Key16 {
    /// The key made of `a`, `b` and `c`, each in little-endian bytes, in this order.
    pub fn from_fields(a: u64, b: u32, c: u32) -> (key: Self)
        ensures
            key.0@ == spec_u64_to_le_bytes(a) + spec_u32_to_le_bytes(b) + spec_u32_to_le_bytes(c),
    {
        let x: Vec<u8> = u64_to_le_bytes(a);
        let y: Vec<u8> = u32_to_le_bytes(b);
        let z: Vec<u8> = u32_to_le_bytes(c);
        proof {
            vstd::bytes::lemma_auto_spec_u64_to_from_le_bytes();
            vstd::bytes::lemma_auto_spec_u32_to_from_le_bytes();
        }
        let out: [u8; 16] = [
            x[0],
            x[1],
            x[2],
            x[3],
            x[4],
            x[5],
            x[6],
            x[7],
            y[0],
            y[1],
            y[2],
            y[3],
            z[0],
            z[1],
            z[2],
            z[3],
        ];
        assert(out@ =~= x@ + y@ + z@);
        Key16(out)
    }
}

/// The key with the number `i`.
pub fn make_key(i: u64) -> (key: Key)
    ensures
        key.0 == i,
{
    Key(i)
}

} // verus!
