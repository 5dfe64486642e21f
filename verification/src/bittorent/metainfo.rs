//! Torrent metainfo read by looking its fields up, checking each as it is
//! read.
use vstd::prelude::*;
use vstd::utf8::{decode_utf8, valid_utf8};
use crate::bittorent::encoding::{BValue, Bencoding, DecodeError, decode_value, dict_get, encode_value};
use crate::bittorent::torrent::{
    InfoError, InfoFields, key_announce, key_info, key_length, key_name, key_piece_length,
    key_pieces, piece_hashes, split_pieces,
};
use crate::bittorent::{sha1_digest, sha1_hash};
use crate::text::str_from_utf8;

pub use crate::bittorent::torrent::Info;

verus! {

/// A torrent's metainfo.
pub struct MetaInfo {
    pub announce: String,
    pub info: Info,
}

/// Why bytes are not metainfo.
#[derive(Debug, Clone, Copy, PartialEq, Eq)]
pub enum MetaInfoError {
    Decode(DecodeError),
    NotDictionary,
    /// No byte string `announce`.
    MissingAnnounce,
    /// The announce URL is not UTF-8.
    InvalidAnnounce,
    /// No `info`.
    MissingInfo,
    Info(InfoError),
}

/// What the `info` value describes, its fields checked as they are read.
pub open spec fn metainfo_info(v: BValue) -> Result<InfoFields, InfoError> {
    match v {
        BValue::Dictionary(d) => match dict_get(d, key_length()) {
            Some(BValue::Integer(length)) => match dict_get(d, key_piece_length()) {
                Some(BValue::Integer(plength)) => match dict_get(d, key_name()) {
                    Some(BValue::Raw(name)) => if !valid_utf8(name) {
                        Err(InfoError::InvalidName)
                    } else {
                        match dict_get(d, key_pieces()) {
                            Some(BValue::Raw(pieces)) => if pieces.len() % 20 != 0 {
                                Err(InfoError::InvalidPieces)
                            } else {
                                Ok(
                                    InfoFields {
                                        length: length as u64,
                                        name: decode_utf8(name),
                                        piece_length: plength as u64,
                                        pieces: piece_hashes(pieces),
                                        hash: sha1_digest(encode_value(v)),
                                    },
                                )
                            },
                            _ => Err(InfoError::MissingPieces),
                        }
                    },
                    _ => Err(InfoError::MissingName),
                },
                _ => Err(InfoError::MissingPieceLength),
            },
            _ => Err(InfoError::MissingLength),
        },
        _ => Err(InfoError::NotDictionary),
    }
}

/// What metainfo bytes hold: the announce URL and the info.
pub open spec fn decode_metainfo(data: Seq<u8>) -> Result<(Seq<char>, InfoFields), MetaInfoError> {
    match decode_value(data) {
        Err(e) => Err(MetaInfoError::Decode(e)),
        Ok(BValue::Dictionary(d)) => match dict_get(d, key_announce()) {
            Some(BValue::Raw(url)) => if !valid_utf8(url) {
                Err(MetaInfoError::InvalidAnnounce)
            } else {
                match dict_get(d, key_info()) {
                    Some(info) => match metainfo_info(info) {
                        Ok(fields) => Ok((decode_utf8(url), fields)),
                        Err(e) => Err(MetaInfoError::Info(e)),
                    },
                    None => Err(MetaInfoError::MissingInfo),
                }
            },
            _ => Err(MetaInfoError::MissingAnnounce),
        },
        Ok(_) => Err(MetaInfoError::NotDictionary),
    }
}

/// Reads the `info` value of metainfo.
fn read_info(info: &Bencoding) -> (r: Result<Info, InfoError>)
    ensures
        match r {
            Ok(i) => metainfo_info(info@) == Ok::<InfoFields, InfoError>(i.fields()),
            Err(e) => metainfo_info(info@) == Err::<InfoFields, InfoError>(e),
        },
{
    let info_hash = sha1_hash(info.encode().as_slice());
    let dict = match info {
        Bencoding::Dictionary(d) => d,
        _ => {
            return Err(InfoError::NotDictionary);
        },
    };
    proof {
        reveal_strlit("length");
        reveal_strlit("piece length");
        reveal_strlit("name");
        reveal_strlit("pieces");
        assert("length"@ =~= key_length());
        assert("piece length"@ =~= key_piece_length());
        assert("name"@ =~= key_name());
        assert("pieces"@ =~= key_pieces());
    }
    let length = match dict.get("length") {
        Some(Bencoding::Integer(length)) => *length,
        _ => {
            return Err(InfoError::MissingLength);
        },
    };
    let plength = match dict.get("piece length") {
        Some(Bencoding::Integer(plength)) => *plength,
        _ => {
            return Err(InfoError::MissingPieceLength);
        },
    };
    let name = match dict.get("name") {
        Some(Bencoding::Raw(name)) => name,
        _ => {
            return Err(InfoError::MissingName);
        },
    };
    let name = match str_from_utf8(name.as_slice()) {
        Ok(text) => text.to_owned(),
        Err(_) => {
            return Err(InfoError::InvalidName);
        },
    };
    let pieces = match dict.get("pieces") {
        Some(Bencoding::Raw(pieces)) => pieces,
        _ => {
            return Err(InfoError::MissingPieces);
        },
    };
    let hashes = match split_pieces(pieces.as_slice()) {
        Some(h) => h,
        None => {
            return Err(InfoError::InvalidPieces);
        },
    };
    Ok(
        Info {
            length: length as u64,
            name,
            piece_length: plength as u64,
            pieces: hashes,
            hash: info_hash,
        },
    )
}

/// The info hash of metainfo is the SHA-1 digest of the bencoding of the
/// whole value stored under `info`, whatever keys beyond the four read it
/// holds.
pub proof fn law_metainfo_info_hash(data: Seq<u8>)
    ensures
        decode_metainfo(data) matches Ok((_, f)) ==> (decode_value(data) matches Ok(
            BValue::Dictionary(d),
        ) && dict_get(d, key_info()) matches Some(iv) && f.hash == sha1_digest(encode_value(iv))),
{
}

impl MetaInfo {
    /// Reads metainfo from the bytes of a torrent file.
    pub fn from_bytes(data: Vec<u8>) -> (r: Result<MetaInfo, MetaInfoError>)
        ensures
            match r {
                Ok(m) => decode_metainfo(data@) == Ok::<(Seq<char>, InfoFields), MetaInfoError>(
                    (m.announce@, m.info.fields()),
                ),
                Err(e) => decode_metainfo(data@) == Err::<(Seq<char>, InfoFields), MetaInfoError>(
                    e,
                ),
            },
    {
        let value = match Bencoding::decode(data) {
            Ok(v) => v,
            Err(e) => {
                return Err(MetaInfoError::Decode(e));
            },
        };
        let dict = match value {
            Bencoding::Dictionary(d) => d,
            _ => {
                return Err(MetaInfoError::NotDictionary);
            },
        };
        proof {
            reveal_strlit("announce");
            reveal_strlit("info");
            assert("announce"@ =~= key_announce());
            assert("info"@ =~= key_info());
        }
        let url = match dict.get("announce") {
            Some(Bencoding::Raw(url)) => url,
            _ => {
                return Err(MetaInfoError::MissingAnnounce);
            },
        };
        let announce = match str_from_utf8(url.as_slice()) {
            Ok(text) => text.to_owned(),
            Err(_) => {
                return Err(MetaInfoError::InvalidAnnounce);
            },
        };
        let info = match dict.get("info") {
            Some(info) => info,
            None => {
                return Err(MetaInfoError::MissingInfo);
            },
        };
        match read_info(info) {
            Ok(info) => Ok(MetaInfo { announce, info }),
            Err(e) => Err(MetaInfoError::Info(e)),
        }
    }
}

} // verus!
