//! The ways talking to a tracker can fail.

use vstd::prelude::*;

use crate::protocol::decoder::error::{DecodeFailure, DecoderError};

verus! {

/// The error of an HTTP request, from the `reqwest` crate; carried as it is.
#[verifier::external_type_specification]
#[verifier::external_body]
pub struct ExRequestError(reqwest::Error);

/// An error met while asking a tracker for peers.
#[derive(Debug)]
pub enum TrackerError {
    /// could not calculate info_hash
    InfoHash(String),
    /// could not find an announce url
    NoAnnounce,
    /// could not parse url
    UrlParse(String),
    /// an error has occurred while handling the request
    RequestError(reqwest::Error),
    /// an error has occurred while trying to decode the response
    Bencode(DecoderError),
    /// expected another type of value
    WrongBencodeType(String),
    /// response is invalid
    InvalidResponse,
    /// the tracker refused the request, giving this reason
    ResponseFailure(String),
    /// the response lacks this key
    ResponseKeyMissing(String),
}

/// The model of a tracker error: the same cases, texts as characters.
pub enum TrackerFailure {
    InfoHash(Seq<char>),
    NoAnnounce,
    UrlParse(Seq<char>),
    RequestError,
    Bencode(DecodeFailure),
    WrongBencodeType(Seq<char>),
    InvalidResponse,
    ResponseFailure(Seq<char>),
    ResponseKeyMissing(Seq<char>),
}

impl View for TrackerError {
    type V = TrackerFailure;

    open spec fn view(&self) -> TrackerFailure {
        match self {
            TrackerError::InfoHash(s) => TrackerFailure::InfoHash(s@),
            TrackerError::NoAnnounce => TrackerFailure::NoAnnounce,
            TrackerError::UrlParse(s) => TrackerFailure::UrlParse(s@),
            TrackerError::RequestError(_) => TrackerFailure::RequestError,
            TrackerError::Bencode(e) => TrackerFailure::Bencode(e@),
            TrackerError::WrongBencodeType(s) => TrackerFailure::WrongBencodeType(s@),
            TrackerError::InvalidResponse => TrackerFailure::InvalidResponse,
            TrackerError::ResponseFailure(s) => TrackerFailure::ResponseFailure(s@),
            TrackerError::ResponseKeyMissing(s) => TrackerFailure::ResponseKeyMissing(s@),
        }
    }
}

} // verus!
