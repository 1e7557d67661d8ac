//! The byte-string reader of integers and strings, and the values it reads.

use vstd::prelude::*;

pub mod deserializer;

use crate::protocol::BencodeValue;

verus! {

/// A value read by the `Deserializer`: an integer of up to 128 bits, or a byte string.
#[derive(Debug, PartialEq)]
pub enum Bencode {
    /// An integer, written between an 'i' and an 'e' in base 10.
    Integer(i128),
    /// A byte string, written as its length in base 10, a ':' and the raw bytes.
    String(Vec<u8>),
}

impl Bencode {
    /// The model of a value.
    pub open spec fn value(self) -> BencodeValue {
        match self {
            Bencode::Integer(n) => BencodeValue::Integer(n as int),
            Bencode::String(bytes) => BencodeValue::String(bytes@),
        }
    }
}

impl View for Bencode {
    type V = BencodeValue;

    open spec fn view(&self) -> BencodeValue {
        self.value()
    }
}

} // verus!
