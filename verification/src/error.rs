//! The error type for the codec. Every failure of a construction or
//! serialization path maps to exactly one of these kinds.

use vstd::prelude::*;

verus! {

/// The error kinds of the codec.
#[derive(Clone, Copy, Debug, PartialEq, Eq, Structural)]
pub enum SeedPhraserError {
    /// A secret of zero bits was requested.
    ZeroBitSecret,
    /// A requested bit count is not a multiple of eight.
    BitsNotByteAligned,
    /// An entropy or word-sequence length does not fit the block format and
    /// re-padding was not allowed.
    BadSequenceLength,
    /// A language code is not in the closed set of supported codes.
    UnrecognizableLanguage,
    /// An input/output format name is not in the closed set of format names.
    UnknownFormat,
    /// The phrase codec rejected a block: an unsupported block size, an
    /// unknown word, or a checksum failure.
    FailedGeneratingMnemonic,
    /// A decimal integer (the padding marker of a phrase) is malformed or
    /// out of range.
    FailedToParseInteger,
    /// A byte payload is not well-formed hexadecimal.
    MalformedHex,
    /// A byte payload is not well-formed base64.
    MalformedBase64,
}

} // verus!
