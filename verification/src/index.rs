//! The ordered key-to-offset index of a segment, kept in a map of the `fst`
//! crate. Everything here is taken on trust from that crate: the items below
//! state what its maps do, and the rest of the library is proved against
//! these statements.

use vstd::prelude::*;
use vstd::bytes::spec_u64_from_le_bytes;
use crate::bytes::{lex_le, lex_lt, strictly_ascending, views};

verus! {

#[verifier::external_type_specification]
#[verifier::external_body]
#[verifier::reject_recursive_types(D)]
pub struct ExIndexMap<D>(fst::Map<D>);

#[verifier::external_type_specification]
#[verifier::external_body]
pub struct ExIndexError(fst::Error);

/// The key-to-offset pairs that an index map holds.
pub uninterp spec fn index_contents(m: fst::Map<Vec<u8>>) -> Map<Seq<u8>, u64>;

/// The bytes behind an index map are a transducer as the builder of the
/// `fst` crate writes it, in its current format, with the checksum at the
/// end. The crate asks this of whoever opens a map from bytes, and reads such
/// a map without panicking. It offers no test for it: the checksum tells of
/// damage, not of validity. So this holds of the maps that the crate builds
/// and of maps opened from bytes that the builder wrote, and of no others.
pub uninterp spec fn index_sound(m: fst::Map<Vec<u8>>) -> bool;

/// The bytes are an image that the builder of the `fst` crate wrote: the
/// bytes behind a map that it built.
pub uninterp spec fn built_image(image: Seq<u8>) -> bool;

/// The bytes behind an index map: what the map was opened from, and what is
/// written to its index file.
pub uninterp spec fn index_bytes(m: fst::Map<Vec<u8>>) -> Seq<u8>;

/// The contents of the map that the `fst` crate opens from a byte image:
/// `None` where it rejects the image.
pub uninterp spec fn parsed_contents(image: Seq<u8>) -> Option<Map<Seq<u8>, u64>>;

/// The checksum that a byte image carries is the checksum of its bytes.
pub uninterp spec fn checksum_matches(image: Seq<u8>) -> bool;

/// The two counters at the end of an image, the number of keys and the
/// address of the root, fit a `usize` of this machine. The `fst` crate reads
/// them when it opens an image of at least 36 bytes whose version it knows
/// (1 to 3), and panics on a counter that does not fit; from version 3 on a
/// checksum of four bytes stands behind them. Where pointers have 64 bits this
/// holds of every image.
pub open spec fn counters_fit(image: Seq<u8>) -> bool {
    let n = image.len() as int;
    if n < 36 {
        true
    } else {
        let version = spec_u64_from_le_bytes(image.subrange(0, 8));
        let end = if version <= 2 {
            n
        } else {
            n - 4
        };
        version == 0 || version > 3 || (spec_u64_from_le_bytes(image.subrange(end - 8, end)) <= usize::MAX
            && spec_u64_from_le_bytes(image.subrange(end - 16, end - 8)) <= usize::MAX)
    }
}

/// The contents of the map that a byte image stands for: `None` where its
/// counters do not fit this machine, the `fst` crate rejects the image, or
/// its checksum does not match.
pub open spec fn image_contents(image: Seq<u8>) -> Option<Map<Seq<u8>, u64>> {
    if counters_fit(image) && checksum_matches(image) {
        parsed_contents(image)
    } else {
        None
    }
}

/// The image can be taken for an index: where the `fst` crate accepts it and
/// its checksum matches, the builder wrote it. This cannot be tested; it is
/// what a store asks of the files that it is opened from.
pub open spec fn trusted_image(image: Seq<u8>) -> bool {
    image_contents(image) is Some ==> built_image(image)
}

/// The keys of a list of index entries, in order.
pub open spec fn entry_keys(entries: Seq<(Vec<u8>, u64)>) -> Seq<Seq<u8>> {
    Seq::new(entries.len(), |i: int| entries[i].0@)
}

/// `contents` holds the pairs listed in `entries` and no others.
pub open spec fn holds_exactly(contents: Map<Seq<u8>, u64>, entries: Seq<(Vec<u8>, u64)>) -> bool {
    &&& forall|i: int|
        0 <= i < entries.len() ==> contents.contains_key(#[trigger] entries[i].0@) && contents[entries[i].0@]
            == entries[i].1
    &&& forall|k: Seq<u8>| #[trigger]
        contents.contains_key(k) ==> exists|i: int| 0 <= i < entries.len() && #[trigger] entries[i].0@ == k
}

/// `keys` lists, in strictly ascending order, the keys of `contents` that lie
/// at or after `lo` and, where `hi` is given, before `hi`.
pub open spec fn lists_range(
    keys: Seq<Vec<u8>>,
    contents: Map<Seq<u8>, u64>,
    lo: Seq<u8>,
    hi: Option<Seq<u8>>,
) -> bool {
    &&& strictly_ascending(views(keys))
    &&& forall|i: int|
        0 <= i < keys.len() ==> contents.contains_key(#[trigger] keys[i]@) && lex_le(lo, keys[i]@) && (hi
            matches Some(h) ==> lex_lt(keys[i]@, h))
    &&& forall|k: Seq<u8>| #[trigger]
        contents.contains_key(k) && lex_le(lo, k) && (hi matches Some(h) ==> lex_lt(k, h)) ==> exists|
            i: int,
        | 0 <= i < keys.len() && #[trigger] keys[i]@ == k
}

/// `fst::Map::from_iter`: builds a map in memory from pairs listed in key
/// order. The crate's builder takes each key that is greater than the one
/// before it and fails on the first that is not; writing to memory cannot
/// fail. So on strictly ascending keys the map is built and holds exactly the
/// pairs given, and on any other input the call fails.
#[verifier::external_body]
pub(crate) fn index_from_entries(entries: Vec<(Vec<u8>, u64)>) -> (res: Result<
    fst::Map<Vec<u8>>,
    fst::Error,
>)
    ensures
        res is Ok <==> strictly_ascending(entry_keys(entries@)),
        res matches Ok(m) ==> index_sound(m) && built_image(index_bytes(m)) && holds_exactly(
            index_contents(m),
            entries@,
        ),
{
    fst::Map::from_iter(entries)
}

/// `fst::Map::get`: the offset stored under `key`, if the map holds the key.
#[verifier::external_body]
pub(crate) fn index_get(m: &fst::Map<Vec<u8>>, key: &[u8]) -> (res: Option<u64>)
    requires
        index_sound(*m),
    ensures
        res == (if index_contents(*m).contains_key(key@) {
            Some(index_contents(*m)[key@])
        } else {
            None
        }),
{
    m.get(key)
}

/// `fst::Map::stream` with `into_byte_vec`: every pair of the map, in
/// strictly ascending key order.
#[verifier::external_body]
pub(crate) fn index_entries(m: &fst::Map<Vec<u8>>) -> (res: Vec<(Vec<u8>, u64)>)
    requires
        index_sound(*m),
    ensures
        strictly_ascending(entry_keys(res@)),
        holds_exactly(index_contents(*m), res@),
{
    m.stream().into_byte_vec()
}

/// `fst::Map::range` with `ge`, `lt` and `into_byte_keys`: the keys of the
/// map in the half-open range from `lo` to `hi`, in strictly ascending order.
#[verifier::external_body]
pub(crate) fn index_keys_between(m: &fst::Map<Vec<u8>>, lo: &[u8], hi: &[u8]) -> (res: Vec<Vec<u8>>)
    requires
        index_sound(*m),
    ensures
        lists_range(res@, index_contents(*m), lo@, Some(hi@)),
{
    fst::IntoStreamer::into_stream(m.range().ge(lo).lt(hi)).into_byte_keys()
}

/// `fst::Map::range` with `ge` and `into_byte_keys`: the keys of the map at
/// or after `lo`, in strictly ascending order.
#[verifier::external_body]
pub(crate) fn index_keys_from(m: &fst::Map<Vec<u8>>, lo: &[u8]) -> (res: Vec<Vec<u8>>)
    requires
        index_sound(*m),
    ensures
        lists_range(res@, index_contents(*m), lo@, None),
{
    fst::IntoStreamer::into_stream(m.range().ge(lo)).into_byte_keys()
}

/// `fst::Map::new`: opens a map from its byte image, which the map keeps.
/// The crate checks the header of the image only; the map is sound where the
/// builder wrote the image. It panics, where pointers have fewer than 64
/// bits, on a counter that does not fit a `usize`: such an image is left out.
#[verifier::external_body]
pub(crate) fn index_parse(image: Vec<u8>) -> (res: Result<fst::Map<Vec<u8>>, fst::Error>)
    requires
        counters_fit(image@),
    ensures
        match res {
            Ok(m) => index_bytes(m) == image@ && parsed_contents(image@) == Some(index_contents(m)) && (
            built_image(image@) ==> index_sound(m)),
            Err(_) => parsed_contents(image@) is None,
        },
{
    fst::Map::new(image)
}

/// `raw::Fst::verify`: computes the checksum of the map's bytes and holds it
/// against the one that they carry. It fails where the bytes carry none or
/// another. This tells of accidental damage and says nothing of validity.
#[verifier::external_body]
pub(crate) fn index_verify(m: &fst::Map<Vec<u8>>) -> (res: Result<(), fst::Error>)
    ensures
        res is Ok <==> checksum_matches(index_bytes(*m)),
{
    m.as_fst().verify()
}

/// `raw::Fst::as_bytes`: the byte image of a map. The image of a sound map
/// is what the builder wrote: its counters are those of a map on this
/// machine, it carries its checksum, and it opens again to a map with the
/// same contents.
#[verifier::external_body]
pub(crate) fn index_image(m: &fst::Map<Vec<u8>>) -> (res: Vec<u8>)
    requires
        index_sound(*m),
    ensures
        res@ == index_bytes(*m),
        built_image(res@),
        counters_fit(res@),
        checksum_matches(res@),
        parsed_contents(res@) == Some(index_contents(*m)),
{
    m.as_fst().as_bytes().to_vec()
}

} // verus!
