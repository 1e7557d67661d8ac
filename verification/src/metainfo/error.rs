//! The ways reading a metainfo file can fail.

use vstd::prelude::*;

verus! {

/// An error met while reading a metainfo dictionary.
#[derive(Debug, PartialEq)]
pub enum MetainfoError {
    /// expected a dictionary
    NotADictionary,
    /// not a valid UTF-8 string
    InvalidUtf8String,
    /// couldn't find the key
    MissingKey(String),
    /// wrong value type for key
    WrongValueType(String),
    /// couldn't parse integer
    IntegerOverflow,
    /// pieces length must be multiple of 20
    InvalidPiecesLength,
}

/// The model of a metainfo error: the same cases, keys as characters.
pub enum MetainfoFailure {
    NotADictionary,
    InvalidUtf8String,
    MissingKey(Seq<char>),
    WrongValueType(Seq<char>),
    IntegerOverflow,
    InvalidPiecesLength,
}

impl View for MetainfoError {
    type V = MetainfoFailure;

    open spec fn view(&self) -> MetainfoFailure {
        match self {
            MetainfoError::NotADictionary => MetainfoFailure::NotADictionary,
            MetainfoError::InvalidUtf8String => MetainfoFailure::InvalidUtf8String,
            MetainfoError::MissingKey(k) => MetainfoFailure::MissingKey(k@),
            MetainfoError::WrongValueType(k) => MetainfoFailure::WrongValueType(k@),
            MetainfoError::IntegerOverflow => MetainfoFailure::IntegerOverflow,
            MetainfoError::InvalidPiecesLength => MetainfoFailure::InvalidPiecesLength,
        }
    }
}

} // verus!
