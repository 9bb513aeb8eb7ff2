//! The failures a decode can end in.

use vstd::prelude::*;

verus! {

/// A violation of the fixed file or frame layout.
#[derive(Clone, Copy, Debug, PartialEq, Eq, Structural)]
pub enum FormatError {
    /// The first four bytes are not the replay magic number.
    BadMagic,
    /// The input ends before a field, a block or a frame is complete.
    Truncated,
    /// The first metadata block is empty or is not a battle configuration.
    BadMetadata,
}

/// A failure while decrypting or inflating the binary segment.
#[derive(Clone, Copy, Debug, PartialEq, Eq, Structural)]
pub enum CryptoError {
    /// The ciphertext is not a whole number of eight-byte blocks.
    BadLength,
    /// The decrypted bytes are not a well-formed zlib stream.
    Decompress,
}

/// Why a replay file could not be decoded.
#[derive(Clone, Copy, Debug, PartialEq, Eq, Structural)]
pub enum ParseError {
    Format(FormatError),
    Crypto(CryptoError),
}

impl FormatError {
    /// A sentence that names the failure.
    pub open spec fn message_of(self) -> &'static str {
        match self {
            FormatError::BadMagic => "invalid magic number, expected 11343212",
            FormatError::Truncated => "the input ends before the data is complete",
            FormatError::BadMetadata => "the first metadata block holds no battle configuration",
        }
    }

    /// A sentence that names the failure.
    pub fn message(&self) -> (text: &'static str)
        ensures
            text == self.message_of(),
    {
        match self {
            FormatError::BadMagic => "invalid magic number, expected 11343212",
            FormatError::Truncated => "the input ends before the data is complete",
            FormatError::BadMetadata => "the first metadata block holds no battle configuration",
        }
    }
}

impl CryptoError {
    /// A sentence that names the failure.
    pub open spec fn message_of(self) -> &'static str {
        match self {
            CryptoError::BadLength => "encrypted data length is not a multiple of the block size",
            CryptoError::Decompress => "the decrypted data is no zlib stream",
        }
    }

    /// A sentence that names the failure.
    pub fn message(&self) -> (text: &'static str)
        ensures
            text == self.message_of(),
    {
        match self {
            CryptoError::BadLength => "encrypted data length is not a multiple of the block size",
            CryptoError::Decompress => "the decrypted data is no zlib stream",
        }
    }
}

impl ParseError {
    /// A sentence that names the failure.
    pub open spec fn message_of(self) -> &'static str {
        match self {
            ParseError::Format(e) => e.message_of(),
            ParseError::Crypto(e) => e.message_of(),
        }
    }

    /// A sentence that names the failure.
    pub fn message(&self) -> (text: &'static str)
        ensures
            text == self.message_of(),
    {
        match self {
            ParseError::Format(e) => e.message(),
            ParseError::Crypto(e) => e.message(),
        }
    }
}

} // verus!
