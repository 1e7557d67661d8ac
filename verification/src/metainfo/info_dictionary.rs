//! The `info` dictionary of a metainfo file.

use vstd::prelude::*;
use vstd::utf8::encode_utf8;

use crate::metainfo::error::{MetainfoError, MetainfoFailure};
use crate::metainfo::util::{
    bytes_entry, extract_bytes_from_dict, extract_integer_from_dict, extract_string_from_dict,
    integer_entry, lemma_number_and_bytes_entries, lemma_string_entry_is_utf8_text, string_entry,
};
use crate::protocol::{Bencode, BencodeValue};

verus! {

/// The model of an info dictionary: its name, its piece length and its piece hashes.
pub type InfoModel = (Seq<char>, u64, Seq<u8>);

/// What reading an info dictionary out of a value gives: a dictionary with a UTF-8 `name`, an
/// unsigned `piece length` and `pieces` whose length is a multiple of 20.
pub open spec fn info_from(value: BencodeValue) -> Result<InfoModel, MetainfoFailure> {
    match value {
        BencodeValue::Dictionary(d) => match string_entry(d, "name"@) {
            Err(e) => Err(e),
            Ok(name) => match integer_entry(d, "piece length"@) {
                Err(e) => Err(e),
                Ok(piece_length) => match bytes_entry(d, "pieces"@) {
                    Err(e) => Err(e),
                    Ok(pieces) => if pieces.len() % 20 != 0 {
                        Err(MetainfoFailure::InvalidPiecesLength)
                    } else {
                        Ok((name, piece_length, pieces))
                    },
                },
            },
        },
        _ => Err(MetainfoFailure::NotADictionary),
    }
}

/// An info dictionary read out of a value holds the value's entries: its name encodes as UTF-8
/// to the bytes of `name`, its piece length is the integer `piece length`, and its piece hashes
/// are the bytes of `pieces`, whose length is a multiple of 20.
pub proof fn lemma_info_holds_entries(value: BencodeValue)
    requires
        info_from(value) is Ok,
    ensures
        ({
            let m = info_from(value)->Ok_0;
            &&& value matches BencodeValue::Dictionary(d)
            &&& d.dom().contains("name"@)
            &&& d["name"@] == BencodeValue::String(encode_utf8(m.0))
            &&& d.dom().contains("piece length"@)
            &&& d["piece length"@] == BencodeValue::Integer(m.1 as int)
            &&& d.dom().contains("pieces"@)
            &&& d["pieces"@] == BencodeValue::String(m.2)
            &&& m.2.len() % 20 == 0
        }),
{
    let d = value->Dictionary_0;
    lemma_string_entry_is_utf8_text(d, "name"@);
    lemma_number_and_bytes_entries(d, "piece length"@);
    lemma_number_and_bytes_entries(d, "pieces"@);
}

/// The `info` dictionary: what the files are called and how they are split into pieces.
#[derive(Debug)]
pub struct InfoDictionary {
    /// The name key maps to a UTF-8 encoded string which is the suggested name to save the file (or
    /// directory) as. It is purely advisory.
    pub name: String,
    /// piece length maps to the number of bytes in each piece the file is split into.
    /// For the purposes of transfer, files are split into fixed-size pieces which are all the same
    /// length except for possibly the last one which may be truncated.
    pub piece_length: u64,
    /// pieces maps to a string whose length is a multiple of 20.
    /// It is to be subdivided into strings of length 20,
    /// each of which is the SHA1 hash of the piece at the corresponding index.
    pieces: Vec<u8>,
}

impl InfoDictionary {
    /// The piece hashes, concatenated.
    pub closed spec fn pieces_seq(&self) -> Seq<u8> {
        self.pieces@
    }

    /// The suggested name.
    pub closed spec fn name_of(&self) -> Seq<char> {
        self.name@
    }

    /// The number of bytes in each piece.
    pub closed spec fn piece_length_of(&self) -> u64 {
        self.piece_length
    }

    /// The model of this dictionary: its name, piece length and piece hashes.
    pub open spec fn model(&self) -> InfoModel {
        (self.name_of(), self.piece_length_of(), self.pieces_seq())
    }

    pub fn new(name: String, piece_length: u64, pieces: Vec<u8>) -> (r: Self)
        ensures
            r.name_of() == name@,
            r.piece_length_of() == piece_length,
            r.pieces_seq() == pieces@,
    {
        InfoDictionary { name, piece_length, pieces }
    }

    /// The suggested name.
    pub fn name(&self) -> (r: &String)
        ensures
            r@ == self.name_of(),
    {
        &self.name
    }

    /// The number of bytes in each piece.
    pub fn piece_length(&self) -> (r: u64)
        ensures
            r == self.piece_length_of(),
    {
        self.piece_length
    }

    /// The number of whole 20-byte piece hashes.
    pub fn piece_count(&self) -> (n: usize)
        ensures
            n == self.pieces_seq().len() / 20,
    {
        self.pieces.len() / 20
    }

    /// Reads an info dictionary out of a decoded value.
    pub fn try_from(value: Bencode) -> (r: Result<Self, MetainfoError>)
        ensures
            r is Ok <==> info_from(value.value()) is Ok,
            r matches Ok(info) ==> info_from(value.value()) == Ok::<_, MetainfoFailure>(info.model())
                && info.pieces_seq().len() % 20 == 0,
            r matches Err(e) ==> info_from(value.value()) == Err::<InfoModel, _>(e@),
    {
        let dict = match value {
            Bencode::Dictionary(d) => d,
            _ => {
                return Err(MetainfoError::NotADictionary);
            },
        };
        let name = extract_string_from_dict(&dict, "name")?;
        let piece_length = extract_integer_from_dict(&dict, "piece length")?;
        let pieces = extract_bytes_from_dict(&dict, "pieces")?;
        if pieces.len() % 20 != 0 {
            return Err(MetainfoError::InvalidPiecesLength);
        }
        Ok(Self::new(name, piece_length, pieces))
    }
}

} // verus!
