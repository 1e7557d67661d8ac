//! The ways decoding can fail.

use vstd::prelude::*;

verus! {

/// An error met while decoding bencode.
#[derive(Debug, PartialEq)]
pub enum DecoderError {
    /// no bytes to read
    Empty,
    /// unknown type
    UnknownType(String),
    /// unexpected extra data
    UnexpectedExtraData,
    /// no terminator found
    MissingTerminator,
    /// invalid integer syntax
    InvalidIntegerSyntax,
    /// invalid byte for type
    InvalidByte(u8),
    /// integer is leading with zeros
    IntegerLeadingZero,
    /// integer is negative zero
    IntegerNegativeZero,
    /// string length mismatch: expected this many bytes
    StringInvalidLength(usize),
    /// string is not valid UTF-8
    StringInvalidUtf8,
    /// expected dictionary key to be string
    DictionaryInvalidKeyType,
    /// dictionary keys are not in sorted order
    DictionaryUnsortedKeys,
}

/// The model of a decoder error: the same cases, with the text of `UnknownType` as characters.
pub enum DecodeFailure {
    Empty,
    UnknownType(Seq<char>),
    UnexpectedExtraData,
    MissingTerminator,
    InvalidIntegerSyntax,
    InvalidByte(u8),
    IntegerLeadingZero,
    IntegerNegativeZero,
    StringInvalidLength(usize),
    StringInvalidUtf8,
    DictionaryInvalidKeyType,
    DictionaryUnsortedKeys,
}

impl View for DecoderError {
    type V = DecodeFailure;

    open spec fn view(&self) -> DecodeFailure {
        match self {
            DecoderError::Empty => DecodeFailure::Empty,
            DecoderError::UnknownType(s) => DecodeFailure::UnknownType(s@),
            DecoderError::UnexpectedExtraData => DecodeFailure::UnexpectedExtraData,
            DecoderError::MissingTerminator => DecodeFailure::MissingTerminator,
            DecoderError::InvalidIntegerSyntax => DecodeFailure::InvalidIntegerSyntax,
            DecoderError::InvalidByte(b) => DecodeFailure::InvalidByte(*b),
            DecoderError::IntegerLeadingZero => DecodeFailure::IntegerLeadingZero,
            DecoderError::IntegerNegativeZero => DecodeFailure::IntegerNegativeZero,
            DecoderError::StringInvalidLength(n) => DecodeFailure::StringInvalidLength(*n),
            DecoderError::StringInvalidUtf8 => DecodeFailure::StringInvalidUtf8,
            DecoderError::DictionaryInvalidKeyType => DecodeFailure::DictionaryInvalidKeyType,
            DecoderError::DictionaryUnsortedKeys => DecodeFailure::DictionaryUnsortedKeys,
        }
    }
}

} // verus!
