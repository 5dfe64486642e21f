//! Torrent files: a bencoded dictionary with the tracker (`announce`) and the
//! `info` dictionary, whose SHA-1 identifies the torrent.
use vstd::prelude::*;
use vstd::utf8::{decode_utf8, valid_utf8};
use crate::bittorent::encoding::{
    BValue, Bencoding, DecodeError, Dict, decode_value, dict_get, dict_remove, encode_value,
    law_dict_get_remove,
};
use crate::bittorent::{sha1_digest, sha1_hash};
use crate::text::{copy_range, str_from_utf8};

verus! {

/// What a torrent's `info` dictionary describes.
pub struct Info {
    pub length: u64,
    pub name: String,
    pub piece_length: u64,
    pub pieces: Vec<[u8; 20]>,
    pub hash: [u8; 20],
}

/// A torrent file.
pub struct Torrent {
    pub announce: String,
    pub info: Info,
}

/// Why an `info` dictionary does not describe a torrent.
#[derive(Debug, Clone, Copy, PartialEq, Eq)]
pub enum InfoError {
    NotDictionary,
    /// No integer `length`.
    MissingLength,
    /// No integer `piece length`.
    MissingPieceLength,
    /// No byte string `name`.
    MissingName,
    /// No byte string `pieces`.
    MissingPieces,
    /// The name is not UTF-8.
    InvalidName,
    /// The length of `pieces` is no multiple of 20.
    InvalidPieces,
}

/// Why bytes are not a torrent file.
#[derive(Debug, Clone, Copy, PartialEq, Eq)]
pub enum TorrentError {
    Decode(DecodeError),
    NotDictionary,
    /// No byte string `announce`.
    MissingAnnounce,
    /// No `info`.
    MissingInfo,
    Info(InfoError),
    /// The announce URL is not UTF-8.
    InvalidAnnounce,
}

/// The mathematical value of an `Info`.
pub struct InfoFields {
    pub length: u64,
    pub name: Seq<char>,
    pub piece_length: u64,
    pub pieces: Seq<Seq<u8>>,
    pub hash: Seq<u8>,
}

pub open spec fn key_length() -> Seq<char> {
    seq!['l', 'e', 'n', 'g', 't', 'h']
}

pub open spec fn key_piece_length() -> Seq<char> {
    seq!['p', 'i', 'e', 'c', 'e', ' ', 'l', 'e', 'n', 'g', 't', 'h']
}

pub open spec fn key_name() -> Seq<char> {
    seq!['n', 'a', 'm', 'e']
}

pub open spec fn key_pieces() -> Seq<char> {
    seq!['p', 'i', 'e', 'c', 'e', 's']
}

pub open spec fn key_announce() -> Seq<char> {
    seq!['a', 'n', 'n', 'o', 'u', 'n', 'c', 'e']
}

pub open spec fn key_info() -> Seq<char> {
    seq!['i', 'n', 'f', 'o']
}

/// The 20-byte hashes that `pieces` holds one after the other.
pub open spec fn piece_hashes(p: Seq<u8>) -> Seq<Seq<u8>> {
    Seq::new(p.len() / 20, |i: int| p.subrange(20 * i, 20 * i + 20))
}

/// What an `info` dictionary describes, checked in the order the fields are
/// taken out of it.
pub open spec fn decode_info(v: BValue) -> Result<InfoFields, InfoError> {
    match v {
        BValue::Dictionary(d) => match dict_get(d, key_length()) {
            Some(BValue::Integer(length)) => match dict_get(d, key_piece_length()) {
                Some(BValue::Integer(plength)) => match dict_get(d, key_name()) {
                    Some(BValue::Raw(name)) => match dict_get(d, key_pieces()) {
                        Some(BValue::Raw(pieces)) => if !valid_utf8(name) {
                            Err(InfoError::InvalidName)
                        } else if pieces.len() % 20 != 0 {
                            Err(InfoError::InvalidPieces)
                        } else {
                            Ok(
                                InfoFields {
                                    length: length as u64,
                                    name: decode_utf8(name),
                                    piece_length: plength as u64,
                                    pieces: piece_hashes(pieces),
                                    hash: sha1_digest(encode_value(v)),
                                },
                            )
                        },
                        _ => Err(InfoError::MissingPieces),
                    },
                    _ => Err(InfoError::MissingName),
                },
                _ => Err(InfoError::MissingPieceLength),
            },
            _ => Err(InfoError::MissingLength),
        },
        _ => Err(InfoError::NotDictionary),
    }
}

/// What a torrent file holds: its announce URL and its info.
pub open spec fn decode_torrent(data: Seq<u8>) -> Result<(Seq<char>, InfoFields), TorrentError> {
    match decode_value(data) {
        Err(e) => Err(TorrentError::Decode(e)),
        Ok(BValue::Dictionary(d)) => match dict_get(d, key_announce()) {
            Some(BValue::Raw(announce)) => match dict_get(d, key_info()) {
                Some(info) => match decode_info(info) {
                    Err(e) => Err(TorrentError::Info(e)),
                    Ok(fields) => if valid_utf8(announce) {
                        Ok((decode_utf8(announce), fields))
                    } else {
                        Err(TorrentError::InvalidAnnounce)
                    },
                },
                None => Err(TorrentError::MissingInfo),
            },
            _ => Err(TorrentError::MissingAnnounce),
        },
        Ok(_) => Err(TorrentError::NotDictionary),
    }
}

/// The info hash is the SHA-1 digest of the bencoding of the whole `info`
/// value, whatever keys beyond the four read it holds.
pub proof fn law_info_hash_whole_value(v: BValue)
    ensures
        decode_info(v) matches Ok(f) ==> f.hash == sha1_digest(encode_value(v)),
{
}

/// The info hash of a torrent file is the SHA-1 digest of the bencoding of
/// the whole value stored under `info` in it.
pub proof fn law_torrent_info_hash(data: Seq<u8>)
    ensures
        decode_torrent(data) matches Ok((_, f)) ==> (decode_value(data) matches Ok(
            BValue::Dictionary(d),
        ) && dict_get(d, key_info()) matches Some(iv) && f.hash == sha1_digest(encode_value(iv))),
{
}

impl Info {
    /// The mathematical value of this info.
    pub open spec fn fields(&self) -> InfoFields {
        InfoFields {
            length: self.length,
            name: self.name@,
            piece_length: self.piece_length,
            pieces: self.pieces@.map_values(|a: [u8; 20]| a@),
            hash: self.hash@,
        }
    }

    /// Reads a torrent's `info` dictionary; its hash is the SHA-1 of its
    /// bencoding.
    pub fn decode(bencoded: Bencoding) -> (r: Result<Info, InfoError>)
        ensures
            match r {
                Ok(info) => decode_info(bencoded@) == Ok::<InfoFields, InfoError>(info.fields()),
                Err(e) => decode_info(bencoded@) == Err::<InfoFields, InfoError>(e),
            },
    {
        let ghost v = bencoded@;
        let info_hash = sha1_hash(bencoded.encode().as_slice());
        let mut dict = match bencoded {
            Bencoding::Dictionary(d) => d,
            _ => {
                return Err(InfoError::NotDictionary);
            },
        };
        let ghost d = dict@;
        proof {
            reveal_strlit("length");
            reveal_strlit("piece length");
            reveal_strlit("name");
            reveal_strlit("pieces");
            assert("length"@ =~= key_length());
            assert("piece length"@ =~= key_piece_length());
            assert("name"@ =~= key_name());
            assert("pieces"@ =~= key_pieces());
        }
        let length = match dict.remove("length") {
            Some(Bencoding::Integer(length)) => length,
            _ => {
                return Err(InfoError::MissingLength);
            },
        };
        proof {
            law_dict_get_remove(d, key_length(), key_piece_length());
            law_dict_get_remove(d, key_length(), key_name());
            law_dict_get_remove(d, key_length(), key_pieces());
        }
        let ghost d1 = dict@;
        let plength = match dict.remove("piece length") {
            Some(Bencoding::Integer(plength)) => plength,
            _ => {
                return Err(InfoError::MissingPieceLength);
            },
        };
        proof {
            law_dict_get_remove(d1, key_piece_length(), key_name());
            law_dict_get_remove(d1, key_piece_length(), key_pieces());
        }
        let ghost d2 = dict@;
        let name = match dict.remove("name") {
            Some(Bencoding::Raw(name)) => name,
            _ => {
                return Err(InfoError::MissingName);
            },
        };
        proof {
            law_dict_get_remove(d2, key_name(), key_pieces());
        }
        let pieces = match dict.remove("pieces") {
            Some(Bencoding::Raw(pieces)) => pieces,
            _ => {
                return Err(InfoError::MissingPieces);
            },
        };
        let name = match str_from_utf8(name.as_slice()) {
            Ok(text) => text.to_owned(),
            Err(_) => {
                return Err(InfoError::InvalidName);
            },
        };
        let hashes = match split_pieces(pieces.as_slice()) {
            Some(h) => h,
            None => {
                return Err(InfoError::InvalidPieces);
            },
        };
        let info = Info {
            name,
            pieces: hashes,
            piece_length: plength as u64,
            length: length as u64,
            hash: info_hash,
        };
        proof {
            assert(info.fields().pieces =~= piece_hashes(pieces@));
        }
        Ok(info)
    }
}

/// Cuts `pieces` into 20-byte hashes; `None` when its length is no multiple
/// of 20.
pub fn split_pieces(pieces: &[u8]) -> (r: Option<Vec<[u8; 20]>>)
    ensures
        match r {
            Some(h) => pieces@.len() % 20 == 0 && h@.map_values(|a: [u8; 20]| a@) == piece_hashes(
                pieces@,
            ),
            None => pieces@.len() % 20 != 0,
        },
{
    if pieces.len() % 20 != 0 {
        return None;
    }
    let plen = pieces.len();
    let n = plen / 20;
    let mut out: Vec<[u8; 20]> = Vec::new();
    let mut i: usize = 0;
    while i < n
        invariant
            plen == pieces@.len(),
            n == pieces@.len() / 20,
            pieces@.len() % 20 == 0,
            i <= n,
            out@.len() == i,
            forall|j: int| 0 <= j < i ==> #[trigger] out@[j]@ == pieces@.subrange(20 * j, 20 * j + 20),
        decreases n - i,
    {
        let mut chunk = [0u8; 20];
        let mut k: usize = 0;
        assert(20 * i + 20 <= plen) by (nonlinear_arith)
            requires
                i < n,
                n == plen / 20,
        ;
        let base = 20 * i;
        while k < 20
            invariant
                i < n,
                base == 20 * i,
                base + 20 <= plen,
                plen == pieces@.len(),
                n == pieces@.len() / 20,
                k <= 20,
                forall|m: int| 0 <= m < k ==> chunk@[m] == pieces@[20 * i + m],
            decreases 20 - k,
        {
            chunk[k] = pieces[base + k];
            k = k + 1;
        }
        assert(chunk@ =~= pieces@.subrange(20 * i as int, 20 * i as int + 20));
        out.push(chunk);
        i = i + 1;
    }
    assert(out@.map_values(|a: [u8; 20]| a@) =~= piece_hashes(pieces@));
    Some(out)
}

impl Torrent {
    /// Reads a torrent file.
    pub fn from_bytes(data: Vec<u8>) -> (r: Result<Torrent, TorrentError>)
        ensures
            match r {
                Ok(t) => decode_torrent(data@) == Ok::<(Seq<char>, InfoFields), TorrentError>(
                    (t.announce@, t.info.fields()),
                ),
                Err(e) => decode_torrent(data@) == Err::<(Seq<char>, InfoFields), TorrentError>(
                    e,
                ),
            },
    {
        let ghost bytes = data@;
        let value = match Bencoding::decode(data) {
            Ok(v) => v,
            Err(e) => {
                return Err(TorrentError::Decode(e));
            },
        };
        let mut dict = match value {
            Bencoding::Dictionary(d) => d,
            _ => {
                return Err(TorrentError::NotDictionary);
            },
        };
        let ghost d = dict@;
        proof {
            reveal_strlit("announce");
            reveal_strlit("info");
            assert("announce"@ =~= key_announce());
            assert("info"@ =~= key_info());
            law_dict_get_remove(d, key_announce(), key_info());
        }
        let announce = match dict.remove("announce") {
            Some(Bencoding::Raw(a)) => a,
            _ => {
                return Err(TorrentError::MissingAnnounce);
            },
        };
        let bencoded = match dict.remove("info") {
            Some(b) => b,
            None => {
                return Err(TorrentError::MissingInfo);
            },
        };
        let info = match Info::decode(bencoded) {
            Ok(info) => info,
            Err(e) => {
                return Err(TorrentError::Info(e));
            },
        };
        let announce = match str_from_utf8(announce.as_slice()) {
            Ok(text) => text.to_owned(),
            Err(_) => {
                return Err(TorrentError::InvalidAnnounce);
            },
        };
        Ok(Torrent { announce, info })
    }
}

} // verus!
