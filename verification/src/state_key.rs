//! The logical state key: a self-describing byte-encodable identifier of a
//! piece of versioned state (a resource or a table entry).
//!
//! The index treats the key as an opaque blob plus its byte length.  Its
//! encoding is self-delimiting: one leading discriminant byte naming the kind
//! of key, followed by the payload, with no trailing length or terminator.
//! The index's own codec relies on exactly that: it strips a fixed eight-byte
//! suffix and hands all remaining bytes, verbatim, to this decoder.

use vstd::prelude::*;
use crate::error::CodecError;

verus! {

/// Discriminant byte of a key naming a resource under an account address.
pub const KIND_RESOURCE: u8 = 0;

/// Discriminant byte of a key naming a table entry.
pub const KIND_TABLE_ITEM: u8 = 1;

/// A byte string is a well-formed state-key encoding when it is non-empty and
/// opens with a recognized kind discriminant.
pub open spec fn valid_key_bytes(s: Seq<u8>) -> bool {
    s.len() >= 1 && (s[0] == KIND_RESOURCE || s[0] == KIND_TABLE_ITEM)
}

/// An opaque, self-describing identifier of a piece of versioned state.  The
/// value held is its own byte encoding, always well-formed.
#[derive(Clone, Debug, PartialEq, Eq)]
pub struct StateKey {
    bytes: Vec<u8>,
}

impl View for StateKey {
    type V = Seq<u8>;

    closed spec fn view(&self) -> Seq<u8> {
        self.bytes@
    }
}

impl StateKey {
    pub open spec fn well_formed(&self) -> bool {
        valid_key_bytes(self@)
    }

    /// Self-delimiting decoder: accepts exactly the well-formed encodings and
    /// rejects anything else as an inner-codec failure, never a panic.
    pub fn decode(data: &[u8]) -> (r: Result<StateKey, CodecError>)
        ensures
            valid_key_bytes(data@) ==> (r matches Ok(k) && k@ == data@ && k.well_formed()),
            !valid_key_bytes(data@) ==> r == Err::<StateKey, CodecError>(
                CodecError::InnerCodecError,
            ),
    {
        if data.len() == 0 {
            return Err(CodecError::InnerCodecError);
        }
        let kind = data[0];
        if kind != KIND_RESOURCE && kind != KIND_TABLE_ITEM {
            return Err(CodecError::InnerCodecError);
        }
        Ok(StateKey { bytes: vstd::slice::slice_to_vec(data) })
    }

    /// Self-delimiting encoder: the key's bytes, verbatim.
    pub fn encode(&self) -> (r: Vec<u8>)
        ensures
            r@ == self@,
    {
        vstd::slice::slice_to_vec(self.bytes.as_slice())
    }

    /// The key's own bytes, borrowed.
    pub fn as_bytes(&self) -> (r: &[u8])
        ensures
            r@ == self@,
    {
        self.bytes.as_slice()
    }

    /// The key's byte length.
    pub fn len(&self) -> (r: usize)
        ensures
            r == self@.len(),
    {
        self.bytes.len()
    }
}

} // verus!
