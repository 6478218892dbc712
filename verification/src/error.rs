use vstd::prelude::*;

verus! {

/// The ways reading, writing or decoding an object can fail.
///
/// Every structural violation of the on-disk formats surfaces as one of
/// these values; no malformed input makes the library panic.
#[derive(Clone, Copy, PartialEq, Eq, Structural, Debug)]
pub enum ObjectError {
    /// The hash has no backing file in the store.
    NotFound,
    /// A frame header delimiter is missing, a declared length does not
    /// match the payload, a tree record is truncated, or a mail-map
    /// continuation runs off the end of the buffer.
    Corrupt,
    /// The caller requested a type that differs from the stored one.
    TypeMismatch,
    /// The frame names a type outside blob, commit, tag and tree.
    UnsupportedType,
    /// A tree entry's mode integer is outside the fixed set.
    UnknownMode,
    /// Bytes are not valid text where text is required.
    InvalidEncoding,
    /// A mail map lacks the empty-key message entry at serialize time.
    MissingMessage,
}

} // verus!
