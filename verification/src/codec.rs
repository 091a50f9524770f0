//! The schema of the state-value index table: typed encode/decode for its key
//! and value, under a stable column-family name.
//!
//! Byte layout, bit-exact for on-disk compatibility:
//!
//! ```text
//! key_bytes   = state_key_encoding || big_endian_u64(version)   (length >= 9)
//! value_bytes = single byte                                     (nibble count)
//! ```
//!
//! The state key's encoding comes first, verbatim and with no stored length;
//! the version is a fixed-width eight-byte big-endian suffix.  That fixed,
//! final suffix is what makes byte order match `(key bytes, version)` order.

use vstd::prelude::*;
use crate::error::CodecError;
use crate::lex::{is_prefix_of, lemma_lex_append_cancel, lemma_lex_from_diff,
    lemma_lex_lt_characterize, lex_lt};
use crate::state_key::{valid_key_bytes, StateKey};
use crate::version_bytes::{append_byte, append_version_be, be_bytes_of, be_value_of,
    lemma_be_bytes_round_trip, lemma_be_order_iff, lemma_be_round_trip, read_version_be,
    VERSION_SIZE};

verus! {

/// Name of the column family under which the underlying ordered store keeps
/// this table.  It carries no behavior; it must never change without a
/// migration plan.
pub const STATE_VALUE_INDEX_CF_NAME: &'static str = "state_value_index";

/// The encoded index key: state-key bytes, then the eight-byte version suffix.
pub open spec fn spec_encode_key(key: Seq<u8>, version: u64) -> Seq<u8> {
    key + be_bytes_of(version)
}

/// The state-key part of an encoded index key: everything but the trailing
/// eight bytes.
pub open spec fn key_bytes_part(data: Seq<u8>) -> Seq<u8>
    recommends
        data.len() > 8,
{
    data.take(data.len() - 8)
}

/// The version part of an encoded index key: the trailing eight bytes.
pub open spec fn version_bytes_part(data: Seq<u8>) -> Seq<u8>
    recommends
        data.len() > 8,
{
    data.skip(data.len() - 8)
}

/// What decoding an encoded index key yields, when it yields anything: the
/// blob must be strictly longer than the version suffix and its prefix must
/// be a well-formed state-key encoding.
pub open spec fn spec_decode_key(data: Seq<u8>) -> Option<(Seq<u8>, u64)> {
    if data.len() > 8 && valid_key_bytes(key_bytes_part(data)) {
        Some((key_bytes_part(data), be_value_of(version_bytes_part(data))))
    } else {
        None
    }
}

/// The encoded index value: exactly one byte, the nibble count untransformed.
pub open spec fn spec_encode_value(nibbles: u8) -> Seq<u8> {
    seq![nibbles]
}

/// What decoding an index value yields: the byte itself, of exactly one byte
/// of input.
pub open spec fn spec_decode_value(data: Seq<u8>) -> Option<u8> {
    if data.len() == 1 {
        Some(data[0])
    } else {
        None
    }
}

/// Encodes `(key, version)` as a single ordered byte string: the key's own
/// self-delimiting encoding, then the version as eight big-endian bytes.
pub fn encode_key(key: &StateKey, version: u64) -> (r: Vec<u8>)
    requires
        key.well_formed(),
    ensures
        r@ == spec_encode_key(key@, version),
        r@.len() == key@.len() + 8,
{
    let mut encoded = key.encode();
    append_version_be(&mut encoded, version);
    encoded
}

/// Decodes an index key blob back into `(key, version)`.  A blob of length at
/// most eight is corrupt or foreign and is rejected as a length error; a
/// malformed state-key prefix propagates the inner decoder's failure.
pub fn decode_key(data: &[u8]) -> (r: Result<(StateKey, u64), CodecError>)
    ensures
        data@.len() <= 8 ==> r == Err::<(StateKey, u64), CodecError>(CodecError::LengthError),
        data@.len() > 8 && !valid_key_bytes(key_bytes_part(data@)) ==> r == Err::<
            (StateKey, u64),
            CodecError,
        >(CodecError::InnerCodecError),
        spec_decode_key(data@) matches Some(kv) ==> (r matches Ok(p) && p.0@ == kv.0 && p.1
            == kv.1 && p.0.well_formed()),
{
    if data.len() <= VERSION_SIZE {
        return Err(CodecError::LengthError);
    }
    let key_len = data.len() - VERSION_SIZE;
    let key_slice = vstd::slice::slice_subrange(data, 0, key_len);
    proof {
        assert(key_slice@ =~= key_bytes_part(data@));
    }
    let key = match StateKey::decode(key_slice) {
        Ok(k) => k,
        Err(e) => {
            return Err(e);
        },
    };
    let version_slice = vstd::slice::slice_subrange(data, key_len, data.len());
    proof {
        assert(version_slice@ =~= version_bytes_part(data@));
    }
    let version = read_version_be(version_slice);
    Ok((key, version))
}

/// Encodes the nibble count: exactly one byte, no transformation.
pub fn encode_value(nibbles: u8) -> (r: Vec<u8>)
    ensures
        r@ == spec_encode_value(nibbles),
        r@.len() == 1,
{
    let mut encoded: Vec<u8> = Vec::new();
    append_byte(&mut encoded, nibbles);
    proof {
        assert(encoded@ =~= seq![nibbles]);
    }
    encoded
}

/// Decodes the nibble count: requires exactly one byte of input, and rejects
/// anything else as a length error rather than truncating or padding.
pub fn decode_value(data: &[u8]) -> (r: Result<u8, CodecError>)
    ensures
        data@.len() == 1 ==> r == Ok::<u8, CodecError>(data@[0]),
        data@.len() != 1 ==> r == Err::<u8, CodecError>(CodecError::LengthError),
{
    if data.len() != 1 {
        return Err(CodecError::LengthError);
    }
    Ok(data[0])
}

/// Round-trip law: decoding an encoded `(key, version)` pair yields the pair
/// back, for every well-formed key and every version.
pub proof fn lemma_key_codec_round_trip(key: Seq<u8>, version: u64)
    requires
        valid_key_bytes(key),
    ensures
        spec_decode_key(spec_encode_key(key, version)) == Some((key, version)),
{
    let e = spec_encode_key(key, version);
    assert(e.len() == key.len() + 8);
    assert(key_bytes_part(e) =~= key);
    assert(version_bytes_part(e) =~= be_bytes_of(version));
    lemma_be_round_trip(version);
}

/// No other data may follow: a decodable blob is exactly the encoding of what
/// it decodes to, so decoding is a two-sided inverse of encoding.
pub proof fn lemma_key_codec_encode_decode(data: Seq<u8>)
    requires
        spec_decode_key(data) is Some,
    ensures
        spec_encode_key(spec_decode_key(data)->Some_0.0, spec_decode_key(data)->Some_0.1)
            == data,
{
    lemma_be_bytes_round_trip(version_bytes_part(data));
    assert(key_bytes_part(data) + version_bytes_part(data) =~= data);
}

/// Order-isomorphism law: for a fixed key, version order and byte-
/// lexicographic order of the encodings coincide, in both directions.
pub proof fn lemma_same_key_version_order(key: Seq<u8>, v1: u64, v2: u64)
    ensures
        lex_lt(spec_encode_key(key, v1), spec_encode_key(key, v2)) <==> v1 < v2,
{
    lemma_be_order_iff(v1, v2);
    lemma_lex_append_cancel(key, be_bytes_of(v1), be_bytes_of(v2));
}

/// Cross-key ordering law: for two distinct keys ordered by their own byte
/// encodings, neither a prefix of the other, every encoded entry of the
/// smaller key precedes every encoded entry of the larger one, whatever the
/// versions.
pub proof fn lemma_cross_key_order(k1: Seq<u8>, k2: Seq<u8>, v1: u64, v2: u64)
    requires
        lex_lt(k1, k2),
        !is_prefix_of(k1, k2),
    ensures
        lex_lt(spec_encode_key(k1, v1), spec_encode_key(k2, v2)),
{
    lemma_lex_lt_characterize(k1, k2);
    let i = choose|i: int|
        0 <= i < k1.len() && i < k2.len() && k1.take(i) == k2.take(i) && k1[i] < k2[i];
    let e1 = spec_encode_key(k1, v1);
    let e2 = spec_encode_key(k2, v2);
    assert(e1.take(i) =~= k1.take(i));
    assert(e2.take(i) =~= k2.take(i));
    assert(e1[i] == k1[i] && e2[i] == k2[i]);
    lemma_lex_from_diff(e1, e2, i);
}

/// Value round-trip law: every nibble count decodes back from its encoding.
pub proof fn lemma_value_codec_round_trip(nibbles: u8)
    ensures
        spec_decode_value(spec_encode_value(nibbles)) == Some(nibbles),
{
}

} // verus!
