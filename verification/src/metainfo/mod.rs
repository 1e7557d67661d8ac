//! Metainfo files (also known as .torrent files).

use vstd::prelude::*;
use vstd::utf8::encode_utf8;

pub mod error;
pub mod info_dictionary;
pub mod util;

use crate::metainfo::error::{MetainfoError, MetainfoFailure};
use crate::metainfo::info_dictionary::{info_from, InfoDictionary, InfoModel};
use crate::metainfo::util::{
    extract_bencode_from_dict, extract_optional_string_from_dict, lemma_string_entry_is_utf8_text,
    optional_string_entry, value_entry,
};
use crate::protocol::{Bencode, BencodeValue};

verus! {

/// The model of a metainfo file: its tracker URL, if any, and its info dictionary.
pub type MetainfoModel = (Option<Seq<char>>, InfoModel);

/// What reading a metainfo file out of a value gives: a dictionary with an optional UTF-8
/// `announce` and an `info` entry that is an info dictionary.
pub open spec fn metainfo_from(value: BencodeValue) -> Result<MetainfoModel, MetainfoFailure> {
    match value {
        BencodeValue::Dictionary(d) => match optional_string_entry(d, "announce"@) {
            Err(e) => Err(e),
            Ok(announce) => match value_entry(d, "info"@) {
                Err(e) => Err(e),
                Ok(info) => match info_from(info) {
                    Err(e) => Err(e),
                    Ok(info) => Ok((announce, info)),
                },
            },
        },
        _ => Err(MetainfoFailure::NotADictionary),
    }
}

/// A metainfo file read out of a value holds the value's entries: its tracker URL, when there is
/// one, encodes as UTF-8 to the bytes of `announce`, and there is none exactly when `announce` is
/// absent; its info dictionary is the one read out of `info`.
pub proof fn lemma_metainfo_holds_entries(value: BencodeValue)
    requires
        metainfo_from(value) is Ok,
    ensures
        ({
            let m = metainfo_from(value)->Ok_0;
            &&& value matches BencodeValue::Dictionary(d)
            &&& (m.0 matches Some(a) ==> d.dom().contains("announce"@) && d["announce"@]
                == BencodeValue::String(encode_utf8(a)))
            &&& (m.0 is None <==> !d.dom().contains("announce"@))
            &&& d.dom().contains("info"@)
            &&& info_from(d["info"@]) == Ok::<_, MetainfoFailure>(m.1)
        }),
{
    let d = value->Dictionary_0;
    lemma_string_entry_is_utf8_text(d, "announce"@);
}

/// Metainfo files (also known as .torrent files) are bencoded dictionaries.
/// NOTE: All strings in a .torrent file that contains text must be UTF-8 encoded.
#[derive(Debug)]
pub struct Metainfo {
    /// The URL of the tracker.
    pub announce: Option<String>,
    /// This maps to a dictionary.
    pub info: InfoDictionary,
}

impl Metainfo {
    /// The model of this metainfo file.
    pub open spec fn model(&self) -> MetainfoModel {
        (
            match self.announce {
                Some(s) => Some(s@),
                None => None,
            },
            self.info.model(),
        )
    }

    fn new(announce: Option<String>, info: InfoDictionary) -> (r: Self)
        ensures
            r.model() == (
                match announce {
                    Some(s) => Some(s@),
                    None => None,
                },
                info.model(),
            ),
    {
        Self { announce, info }
    }

    /// Reads a metainfo file out of a decoded value.
    pub fn try_from(value: Bencode) -> (r: Result<Self, MetainfoError>)
        ensures
            r is Ok <==> metainfo_from(value.value()) is Ok,
            r matches Ok(m) ==> metainfo_from(value.value()) == Ok::<_, MetainfoFailure>(m.model()),
            r matches Err(e) ==> metainfo_from(value.value()) == Err::<MetainfoModel, _>(e@),
    {
        let dict = match value {
            Bencode::Dictionary(d) => d,
            _ => {
                return Err(MetainfoError::NotADictionary);
            },
        };
        let announce = extract_optional_string_from_dict(&dict, "announce")?;
        let info = extract_bencode_from_dict(&dict, "info")?;
        let info = InfoDictionary::try_from(info)?;
        Ok(Self::new(announce, info))
    }
}

} // verus!
