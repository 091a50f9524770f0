use vstd::prelude::*;

verus! {

/// Typed failure of a codec `decode`.  Codec errors are always surfaced to the
/// caller; a malformed record aborts the specific read instead of being
/// silently coerced (no truncation, no zero-fill).
#[derive(Clone, Copy, Debug, PartialEq, Eq, Structural)]
pub enum CodecError {
    /// The input length is inconsistent with the fixed-width portion of the
    /// schema: a value that is not exactly one byte, or a key blob that is not
    /// strictly longer than the eight-byte version suffix.
    LengthError,
    /// The state key's own decoder rejected the prefix bytes; the failure is
    /// propagated unchanged, not reinterpreted.
    InnerCodecError,
}

} // verus!
