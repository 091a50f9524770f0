//! The codec framework: a logical table ("schema") pairs a key type and a
//! value type with typed encode/decode contracts, registered under a stable
//! column-family name that the underlying ordered store uses to physically
//! separate tables.
//!
//! Every codec obeys the same contract shape: encoding is exact and decoding
//! accepts precisely the well-formed blobs, failing with a typed error —
//! never a panic, never a silent truncation — on everything else.  A decoded
//! value re-encodes to the very blob it came from, which makes decode a
//! two-sided inverse of encode.

use vstd::prelude::*;
use crate::codec::{decode_key, decode_value, encode_key, encode_value,
    lemma_key_codec_encode_decode, spec_decode_key, spec_decode_value, spec_encode_key,
    spec_encode_value, STATE_VALUE_INDEX_CF_NAME};
use crate::error::CodecError;
use crate::state_key::StateKey;

verus! {

/// Typed key codec of a schema: `Self` is the logical key type.
pub trait KeyCodec where Self: Sized {
    /// Which abstract keys are valid to encode.
    spec fn wf_key(&self) -> bool;

    /// The byte encoding of this key.
    spec fn key_encoding(&self) -> Seq<u8>;

    /// Whether a blob is the well-formed encoding of some key.
    spec fn key_decodes(data: Seq<u8>) -> bool;

    /// Encoding is exact: the emitted bytes are the key's encoding.
    fn encode_key(&self) -> (r: Vec<u8>)
        requires
            self.wf_key(),
        ensures
            r@ == self.key_encoding(),
    ;

    /// Decoding accepts exactly the well-formed blobs, and what it accepts it
    /// reads back losslessly: the decoded key is valid and re-encodes to the
    /// input, byte for byte.
    fn decode_key(data: &[u8]) -> (r: Result<Self, CodecError>)
        ensures
            Self::key_decodes(data@) ==> (r matches Ok(k) && k.wf_key() && k.key_encoding()
                == data@),
            !Self::key_decodes(data@) ==> r is Err,
    ;
}

/// Typed value codec of a schema: `Self` is the logical value type.
pub trait ValueCodec where Self: Sized {
    /// The byte encoding of this value.
    spec fn value_encoding(&self) -> Seq<u8>;

    /// Whether a blob is the well-formed encoding of some value.
    spec fn value_decodes(data: Seq<u8>) -> bool;

    /// Encoding is exact: the emitted bytes are the value's encoding.
    fn encode_value(&self) -> (r: Vec<u8>)
        ensures
            r@ == self.value_encoding(),
    ;

    /// Decoding accepts exactly the well-formed blobs, losslessly.
    fn decode_value(data: &[u8]) -> (r: Result<Self, CodecError>)
        ensures
            Self::value_decodes(data@) ==> (r matches Ok(v) && v.value_encoding() == data@),
            !Self::value_decodes(data@) ==> r is Err,
    ;
}

/// The state-value index table: keys are `(state key, version)` pairs, values
/// are nibble counts, physically separated under its column-family name.
pub struct StateValueIndexSchema;

impl StateValueIndexSchema {
    /// The table's physical namespace inside the shared ordered store.
    pub fn column_family_name() -> (r: &'static str)
        ensures
            r@ == STATE_VALUE_INDEX_CF_NAME@,
    {
        STATE_VALUE_INDEX_CF_NAME
    }
}

impl KeyCodec for (StateKey, u64) {
    open spec fn wf_key(&self) -> bool {
        self.0.well_formed()
    }

    open spec fn key_encoding(&self) -> Seq<u8> {
        spec_encode_key(self.0@, self.1)
    }

    open spec fn key_decodes(data: Seq<u8>) -> bool {
        spec_decode_key(data) is Some
    }

    fn encode_key(&self) -> (r: Vec<u8>) {
        encode_key(&self.0, self.1)
    }

    fn decode_key(data: &[u8]) -> (r: Result<(StateKey, u64), CodecError>) {
        let r = decode_key(data);
        proof {
            if spec_decode_key(data@) is Some {
                lemma_key_codec_encode_decode(data@);
            }
        }
        r
    }
}

impl ValueCodec for u8 {
    open spec fn value_encoding(&self) -> Seq<u8> {
        spec_encode_value(*self)
    }

    open spec fn value_decodes(data: Seq<u8>) -> bool {
        spec_decode_value(data) is Some
    }

    fn encode_value(&self) -> (r: Vec<u8>) {
        encode_value(*self)
    }

    fn decode_value(data: &[u8]) -> (r: Result<u8, CodecError>) {
        decode_value(data)
    }
}

} // verus!
