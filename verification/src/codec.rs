//! Codecs: how typed keys and values become the byte strings that the
//! columns hold, and back.

use vstd::prelude::*;
use vstd::bytes::{spec_u64_from_le_bytes, spec_u64_to_le_bytes, u64_from_le_bytes, u64_to_le_bytes};
use crate::bytes::copy_bytes;
use crate::error::{invalid_input, StoreError};
use crate::types::{Address, Amount, Key16, Timestamp, TxHash};

verus! {

/// A codec for values of type `T`. Encoding cannot fail; decoding accepts
/// exactly what `decodable` admits, which includes every encoding, and gives
/// a value whose encoding is the bytes decoded.
pub trait StoreCodec<T> {
    /// The bytes that stand for `value`.
    spec fn encoded(value: &T) -> Seq<u8>;

    /// Whether `bytes` stand for a value.
    spec fn decodable(bytes: Seq<u8>) -> bool;

    /// What was encoded can be decoded.
    proof fn lemma_encoded_decodable(value: &T)
        ensures
            Self::decodable(Self::encoded(value)),
    ;

    /// Encodes `value`.
    fn encode(value: &T) -> (out: Vec<u8>)
        ensures
            out@ == Self::encoded(value),
    ;

    /// Decodes `bytes`, or fails with `InvalidInput` where they stand for no value.
    fn decode(bytes: &[u8]) -> (res: Result<T, StoreError>)
        ensures
            match res {
                Ok(v) => Self::decodable(bytes@) && Self::encoded(&v) == bytes@,
                Err(e) => e is InvalidInput && !Self::decodable(bytes@),
            },
    ;
}

/// The codec of byte strings themselves.
pub struct BytesCodec;

/// The codec of composite keys: the sixteen bytes as they are.
pub struct KeyCodec;

/// The codec of amounts: eight bytes, little-endian.
pub struct AmountCodec;

/// The codec of transaction hashes: the thirty-two bytes as they are.
pub struct TxCodec;

/// The codec of timestamps: eight bytes, little-endian.
pub struct TimestampCodec;

/// The codec of addresses: the bytes of the text.
pub struct AddressCodec;

impl StoreCodec<Vec<u8>> for BytesCodec {
    open spec fn encoded(value: &Vec<u8>) -> Seq<u8> {
        value@
    }

    open spec fn decodable(bytes: Seq<u8>) -> bool {
        true
    }

    proof fn lemma_encoded_decodable(value: &Vec<u8>) {
    }

    fn encode(value: &Vec<u8>) -> (out: Vec<u8>) {
        copy_bytes(value.as_slice())
    }

    fn decode(bytes: &[u8]) -> (res: Result<Vec<u8>, StoreError>) {
        Ok(copy_bytes(bytes))
    }
}

impl StoreCodec<Key16> for KeyCodec {
    open spec fn encoded(value: &Key16) -> Seq<u8> {
        value.0@
    }

    open spec fn decodable(bytes: Seq<u8>) -> bool {
        bytes.len() == 16
    }

    proof fn lemma_encoded_decodable(value: &Key16) {
    }

    fn encode(value: &Key16) -> (out: Vec<u8>) {
        copy_bytes(value.0.as_slice())
    }

    fn decode(bytes: &[u8]) -> (res: Result<Key16, StoreError>) {
        if bytes.len() != 16 {
            return Err(invalid_input("bad key length"));
        }
        let arr: [u8; 16] = [
            bytes[0],
            bytes[1],
            bytes[2],
            bytes[3],
            bytes[4],
            bytes[5],
            bytes[6],
            bytes[7],
            bytes[8],
            bytes[9],
            bytes[10],
            bytes[11],
            bytes[12],
            bytes[13],
            bytes[14],
            bytes[15],
        ];
        assert(arr@ =~= bytes@);
        Ok(Key16(arr))
    }
}

impl StoreCodec<Amount> for AmountCodec {
    open spec fn encoded(value: &Amount) -> Seq<u8> {
        spec_u64_to_le_bytes(value.0)
    }

    open spec fn decodable(bytes: Seq<u8>) -> bool {
        bytes.len() == 8
    }

    proof fn lemma_encoded_decodable(value: &Amount) {
        vstd::bytes::lemma_auto_spec_u64_to_from_le_bytes();
    }

    fn encode(value: &Amount) -> (out: Vec<u8>) {
        u64_to_le_bytes(value.0)
    }

    fn decode(bytes: &[u8]) -> (res: Result<Amount, StoreError>) {
        if bytes.len() != 8 {
            return Err(invalid_input("bad amount"));
        }
        proof {
            vstd::bytes::lemma_auto_spec_u64_to_from_le_bytes();
        }
        Ok(Amount(u64_from_le_bytes(bytes)))
    }
}

impl StoreCodec<TxHash> for TxCodec {
    open spec fn encoded(value: &TxHash) -> Seq<u8> {
        value.0@
    }

    open spec fn decodable(bytes: Seq<u8>) -> bool {
        bytes.len() == 32
    }

    proof fn lemma_encoded_decodable(value: &TxHash) {
    }

    fn encode(value: &TxHash) -> (out: Vec<u8>) {
        copy_bytes(value.0.as_slice())
    }

    fn decode(bytes: &[u8]) -> (res: Result<TxHash, StoreError>) {
        if bytes.len() != 32 {
            return Err(invalid_input("bad tx hash"));
        }
        let arr: [u8; 32] = [
            bytes[0],
            bytes[1],
            bytes[2],
            bytes[3],
            bytes[4],
            bytes[5],
            bytes[6],
            bytes[7],
            bytes[8],
            bytes[9],
            bytes[10],
            bytes[11],
            bytes[12],
            bytes[13],
            bytes[14],
            bytes[15],
            bytes[16],
            bytes[17],
            bytes[18],
            bytes[19],
            bytes[20],
            bytes[21],
            bytes[22],
            bytes[23],
            bytes[24],
            bytes[25],
            bytes[26],
            bytes[27],
            bytes[28],
            bytes[29],
            bytes[30],
            bytes[31],
        ];
        assert(arr@ =~= bytes@);
        Ok(TxHash(arr))
    }
}

impl StoreCodec<Timestamp> for TimestampCodec {
    open spec fn encoded(value: &Timestamp) -> Seq<u8> {
        spec_u64_to_le_bytes(value.0)
    }

    open spec fn decodable(bytes: Seq<u8>) -> bool {
        bytes.len() == 8
    }

    proof fn lemma_encoded_decodable(value: &Timestamp) {
        vstd::bytes::lemma_auto_spec_u64_to_from_le_bytes();
    }

    fn encode(value: &Timestamp) -> (out: Vec<u8>) {
        u64_to_le_bytes(value.0)
    }

    fn decode(bytes: &[u8]) -> (res: Result<Timestamp, StoreError>) {
        if bytes.len() != 8 {
            return Err(invalid_input("bad timestamp"));
        }
        proof {
            vstd::bytes::lemma_auto_spec_u64_to_from_le_bytes();
        }
        Ok(Timestamp(u64_from_le_bytes(bytes)))
    }
}

impl StoreCodec<Address> for AddressCodec {
    open spec fn encoded(value: &Address) -> Seq<u8> {
        value.0@
    }

    open spec fn decodable(bytes: Seq<u8>) -> bool {
        true
    }

    proof fn lemma_encoded_decodable(value: &Address) {
    }

    fn encode(value: &Address) -> (out: Vec<u8>) {
        copy_bytes(value.0.as_slice())
    }

    fn decode(bytes: &[u8]) -> (res: Result<Address, StoreError>) {
        Ok(Address(copy_bytes(bytes)))
    }
}

/// Encodes a value and decodes it again. Whatever the codec, this succeeds
/// and gives a value with the same encoding.
pub fn round_trip<T, C: StoreCodec<T>>(value: &T) -> (res: Result<T, StoreError>)
    ensures
        res matches Ok(v) && C::encoded(&v) == C::encoded(value),
{
    let bytes: Vec<u8> = C::encode(value);
    proof {
        C::lemma_encoded_decodable(value);
    }
    C::decode(bytes.as_slice())
}

/// Two byte strings with one encoding hold the same bytes.
pub proof fn lemma_bytes_round_trip(a: Vec<u8>, b: Vec<u8>)
    requires
        BytesCodec::encoded(&a) == BytesCodec::encoded(&b),
    ensures
        a@ == b@,
{
}

/// Two composite keys with one encoding hold the same bytes.
pub proof fn lemma_key_round_trip(a: Key16, b: Key16)
    requires
        KeyCodec::encoded(&a) == KeyCodec::encoded(&b),
    ensures
        a.0@ == b.0@,
{
}

/// Two transaction hashes with one encoding hold the same bytes.
pub proof fn lemma_tx_round_trip(a: TxHash, b: TxHash)
    requires
        TxCodec::encoded(&a) == TxCodec::encoded(&b),
    ensures
        a.0@ == b.0@,
{
}

/// Two addresses with one encoding hold the same bytes.
pub proof fn lemma_address_round_trip(a: Address, b: Address)
    requires
        AddressCodec::encoded(&a) == AddressCodec::encoded(&b),
    ensures
        a.0@ == b.0@,
{
}

/// An amount that is decoded from its encoding is the amount itself.
pub proof fn lemma_amount_round_trip(a: Amount, b: Amount)
    requires
        AmountCodec::encoded(&a) == AmountCodec::encoded(&b),
    ensures
        a == b,
{
    vstd::bytes::lemma_auto_spec_u64_to_from_le_bytes();
    assert(spec_u64_from_le_bytes(spec_u64_to_le_bytes(a.0)) == a.0);
    assert(spec_u64_from_le_bytes(spec_u64_to_le_bytes(b.0)) == b.0);
}

/// A timestamp that is decoded from its encoding is the timestamp itself.
pub proof fn lemma_timestamp_round_trip(a: Timestamp, b: Timestamp)
    requires
        TimestampCodec::encoded(&a) == TimestampCodec::encoded(&b),
    ensures
        a == b,
{
    vstd::bytes::lemma_auto_spec_u64_to_from_le_bytes();
    assert(spec_u64_from_le_bytes(spec_u64_to_le_bytes(a.0)) == a.0);
    assert(spec_u64_from_le_bytes(spec_u64_to_le_bytes(b.0)) == b.0);
}

} // verus!
