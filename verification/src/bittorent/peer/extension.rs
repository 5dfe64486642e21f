//! The extension protocol (BEP 10) and the metadata extension (BEP 9): a byte
//! naming the extension message, then a bencoded dictionary, then, for
//! metadata pieces, the data.
use vstd::prelude::*;
use vstd::utf8::encode_utf8;
use crate::bittorent::encoding::{
    BValue, Bencoding, DecodeError, Dict, decode_value, dict_get, dict_insert, dict_remove,
    encode_bytes, encode_entries, encode_value, entries_well_formed, keys_sorted, lemma_dict_insert_sorted,
    lemma_dict_insert_well_formed, law_decode_encode, law_dict_get_insert, law_dict_get_remove,
    well_formed,
};
use crate::bittorent::peer::{
    HandshakeError, handshake_bytes, handshake_reply, handshake_reply_check, handshake_with,
    law_handshake_echo,
};
use crate::bittorent::peer_message::{Message, MessageId, frame};
use crate::bittorent::torrent::{Info, InfoError, InfoFields, decode_info};
use crate::text::{copy_range, decimal, push_bytes};

verus! {

/// The extension ids a peer announces in its extension handshake.
pub struct ExtensionHandshakeMeta {
    pub ut_metadata: u8,
    pub ut_pex: Option<u8>,
}

/// An extension handshake.
pub struct ExtensionHandshakeMessage {
    pub id: u8,
    pub m: ExtensionHandshakeMeta,
}

/// The kind of a metadata message.
#[derive(Debug, PartialEq, Eq, Structural, Clone, Copy)]
pub enum ExtensionMessageType {
    Request,
    Data,
    Reject,
}

/// A metadata message.
pub struct ExtensionMessage {
    pub id: u8,
    pub msg_type: ExtensionMessageType,
    pub piece: u32,
    pub payload: Vec<u8>,
}

/// Why bytes are not an extension message.
#[derive(Debug, Clone, Copy, PartialEq, Eq)]
pub enum ExtensionError {
    /// No bytes at all.
    Empty,
    Decode(DecodeError),
    /// What follows the first byte is no dictionary.
    NotDictionary,
    /// No dictionary `m`.
    MissingM,
    /// No integer `ut_metadata` in `m`.
    MissingUtMetadata,
    /// No integer `msg_type`.
    MissingMsgType,
    /// `msg_type` is not 0, 1 or 2.
    InvalidMsgType,
    /// No integer `piece`.
    MissingPiece,
    /// No integer `total_size`.
    MissingTotalSize,
    /// A peer message that is not an extension message.
    UnexpectedMessage,
}

pub open spec fn key_m() -> Seq<char> {
    seq!['m']
}

pub open spec fn key_ut_metadata() -> Seq<char> {
    seq!['u', 't', '_', 'm', 'e', 't', 'a', 'd', 'a', 't', 'a']
}

pub open spec fn key_ut_pex() -> Seq<char> {
    seq!['u', 't', '_', 'p', 'e', 'x']
}

pub open spec fn key_msg_type() -> Seq<char> {
    seq!['m', 's', 'g', '_', 't', 'y', 'p', 'e']
}

pub open spec fn key_piece() -> Seq<char> {
    seq!['p', 'i', 'e', 'c', 'e']
}

pub open spec fn key_total_size() -> Seq<char> {
    seq!['t', 'o', 't', 'a', 'l', '_', 's', 'i', 'z', 'e']
}

/// The dictionary of an extension handshake, built as a `BTreeMap` is.
pub open spec fn handshake_value(ut_metadata: u8, ut_pex: Option<u8>) -> BValue {
    let inner = dict_insert(Seq::empty(), key_ut_metadata(), BValue::Integer(ut_metadata as i64));
    let inner = match ut_pex {
        Some(p) => dict_insert(inner, key_ut_pex(), BValue::Integer(p as i64)),
        None => inner,
    };
    BValue::Dictionary(dict_insert(Seq::empty(), key_m(), BValue::Dictionary(inner)))
}

/// The bytes of an extension handshake.
pub open spec fn encode_handshake(id: u8, ut_metadata: u8, ut_pex: Option<u8>) -> Seq<u8> {
    seq![id] + encode_value(handshake_value(ut_metadata, ut_pex))
}

/// What an extension handshake holds: its id, and the ids of the metadata and
/// peer exchange extensions.
pub open spec fn decode_handshake(bytes: Seq<u8>) -> Result<(u8, u8, Option<u8>), ExtensionError> {
    if bytes.len() == 0 {
        Err(ExtensionError::Empty)
    } else {
        match decode_value(bytes.skip(1)) {
            Err(e) => Err(ExtensionError::Decode(e)),
            Ok(BValue::Dictionary(d)) => match dict_get(d, key_m()) {
                Some(BValue::Dictionary(md)) => match dict_get(md, key_ut_metadata()) {
                    Some(BValue::Integer(x)) => {
                        let pex = match dict_get(dict_remove(md, key_ut_metadata()), key_ut_pex()) {
                            Some(BValue::Integer(p)) => Some(p as u8),
                            _ => None,
                        };
                        Ok((bytes[0], x as u8, pex))
                    },
                    _ => Err(ExtensionError::MissingUtMetadata),
                },
                _ => Err(ExtensionError::MissingM),
            },
            Ok(_) => Err(ExtensionError::NotDictionary),
        }
    }
}

impl ExtensionMessageType {
    pub open spec fn code(self) -> u8 {
        match self {
            ExtensionMessageType::Request => 0,
            ExtensionMessageType::Data => 1,
            ExtensionMessageType::Reject => 2,
        }
    }

    pub open spec fn of_code(b: u8) -> Option<ExtensionMessageType> {
        if b == 0 {
            Some(ExtensionMessageType::Request)
        } else if b == 1 {
            Some(ExtensionMessageType::Data)
        } else if b == 2 {
            Some(ExtensionMessageType::Reject)
        } else {
            None
        }
    }

    /// The byte that stands for this kind.
    pub fn as_byte(self) -> (b: u8)
        ensures
            b == self.code(),
    {
        match self {
            ExtensionMessageType::Request => 0,
            ExtensionMessageType::Data => 1,
            ExtensionMessageType::Reject => 2,
        }
    }

    /// The kind that a byte stands for.
    pub fn try_from(value: u8) -> (r: Result<ExtensionMessageType, ExtensionError>)
        ensures
            match r {
                Ok(t) => ExtensionMessageType::of_code(value) == Some(t),
                Err(e) => ExtensionMessageType::of_code(value) is None && e
                    == ExtensionError::InvalidMsgType,
            },
    {
        match value {
            0 => Ok(ExtensionMessageType::Request),
            1 => Ok(ExtensionMessageType::Data),
            2 => Ok(ExtensionMessageType::Reject),
            _ => Err(ExtensionError::InvalidMsgType),
        }
    }
}

/// Every kind is read back from its byte.
pub proof fn law_extension_type_roundtrip(t: ExtensionMessageType)
    ensures
        ExtensionMessageType::of_code(t.code()) == Some(t),
{
}

/// The dictionary of a metadata message, built as a `BTreeMap` is.
pub open spec fn message_value(msg_type: ExtensionMessageType, piece: u32) -> BValue {
    let d = dict_insert(Seq::empty(), key_msg_type(), BValue::Integer(msg_type.code() as i64));
    BValue::Dictionary(dict_insert(d, key_piece(), BValue::Integer(piece as i64)))
}

/// The bytes of a metadata message.
pub open spec fn encode_message(id: u8, msg_type: ExtensionMessageType, piece: u32, payload: Seq<u8>) -> Seq<u8> {
    seq![id] + encode_value(message_value(msg_type, piece)) + payload
}

/// The fields of a metadata message's dictionary: kind, piece and the size
/// of the data that ends the message.
pub open spec fn message_fields(bytes: Seq<u8>) -> Result<(ExtensionMessageType, u32, usize), ExtensionError> {
    if bytes.len() == 0 {
        Err(ExtensionError::Empty)
    } else {
        match decode_value(bytes.skip(1)) {
            Err(e) => Err(ExtensionError::Decode(e)),
            Ok(BValue::Dictionary(d)) => match dict_get(d, key_msg_type()) {
                Some(BValue::Integer(t)) => match ExtensionMessageType::of_code(t as u8) {
                    None => Err(ExtensionError::InvalidMsgType),
                    Some(msg_type) => match dict_get(d, key_piece()) {
                        Some(BValue::Integer(p)) => match dict_get(d, key_total_size()) {
                            Some(BValue::Integer(size)) => Ok((msg_type, p as u32, size as usize)),
                            _ => Err(ExtensionError::MissingTotalSize),
                        },
                        _ => Err(ExtensionError::MissingPiece),
                    },
                },
                _ => Err(ExtensionError::MissingMsgType),
            },
            Ok(_) => Err(ExtensionError::NotDictionary),
        }
    }
}

/// Whether taking the last `total_size` bytes as the data is possible: the
/// message is cut there, and a size larger than the message panics.
pub open spec fn message_fits(bytes: Seq<u8>) -> bool {
    match message_fields(bytes) {
        Ok((_, _, size)) => size <= bytes.len(),
        Err(_) => true,
    }
}

/// What a metadata message holds: id, kind, piece, and its last
/// `total_size` bytes as data.
pub open spec fn decode_message(bytes: Seq<u8>) -> Result<(u8, ExtensionMessageType, u32, Seq<u8>), ExtensionError> {
    match message_fields(bytes) {
        Ok((msg_type, piece, size)) => Ok(
            (bytes[0], msg_type, piece, bytes.subrange(bytes.len() - size, bytes.len() as int)),
        ),
        Err(e) => Err(e),
    }
}

/// A dictionary of one entry.
fn single(key: &str, value: Bencoding) -> (d: Dict)
    ensures
        d@ == dict_insert(Seq::empty(), key@, value@),
{
    let mut d = Dict::new();
    d.insert(key.to_owned(), value);
    d
}

impl ExtensionHandshakeMessage {
    pub fn new(id: u8, ut_metadata: u8, ut_pex: Option<u8>) -> (m: Self)
        ensures
            m.id == id,
            m.m.ut_metadata == ut_metadata,
            m.m.ut_pex == ut_pex,
    {
        ExtensionHandshakeMessage { id, m: ExtensionHandshakeMeta { ut_metadata, ut_pex } }
    }

    /// The bytes of this handshake: its id, then the dictionary
    /// `{"m": {"ut_metadata": .., "ut_pex": ..}}`.
    pub fn encode(self) -> (r: Vec<u8>)
        ensures
            r@ == encode_handshake(self.id, self.m.ut_metadata, self.m.ut_pex),
    {
        proof {
            reveal_strlit("m");
            reveal_strlit("ut_metadata");
            reveal_strlit("ut_pex");
            assert("m"@ =~= key_m());
            assert("ut_metadata"@ =~= key_ut_metadata());
            assert("ut_pex"@ =~= key_ut_pex());
        }
        let mut bytes: Vec<u8> = Vec::new();
        bytes.push(self.id);
        let mut m = single("ut_metadata", Bencoding::Integer(self.m.ut_metadata as i64));
        if let Some(ut_pex) = self.m.ut_pex {
            m.insert("ut_pex".to_owned(), Bencoding::Integer(ut_pex as i64));
        }
        let dict = single("m", Bencoding::Dictionary(m));
        Bencoding::Dictionary(dict).encode_into(&mut bytes);
        assert(bytes@ =~= encode_handshake(self.id, self.m.ut_metadata, self.m.ut_pex));
        bytes
    }

    /// Reads an extension handshake.
    pub fn decode(bytes: Vec<u8>) -> (r: Result<Self, ExtensionError>)
        ensures
            match r {
                Ok(m) => decode_handshake(bytes@) == Ok::<(u8, u8, Option<u8>), ExtensionError>(
                    (m.id, m.m.ut_metadata, m.m.ut_pex),
                ),
                Err(e) => decode_handshake(bytes@) == Err::<(u8, u8, Option<u8>), ExtensionError>(
                    e,
                ),
            },
    {
        if bytes.len() == 0 {
            return Err(ExtensionError::Empty);
        }
        let id = bytes[0];
        let rest = copy_range(bytes.as_slice(), 1, bytes.len());
        assert(rest@ =~= bytes@.skip(1));
        let mut dict = match Bencoding::decode(rest) {
            Ok(Bencoding::Dictionary(d)) => d,
            Ok(_) => {
                return Err(ExtensionError::NotDictionary);
            },
            Err(e) => {
                return Err(ExtensionError::Decode(e));
            },
        };
        proof {
            reveal_strlit("m");
            reveal_strlit("ut_metadata");
            reveal_strlit("ut_pex");
            assert("m"@ =~= key_m());
            assert("ut_metadata"@ =~= key_ut_metadata());
            assert("ut_pex"@ =~= key_ut_pex());
        }
        let mut metadata = match dict.remove("m") {
            Some(Bencoding::Dictionary(md)) => md,
            _ => {
                return Err(ExtensionError::MissingM);
            },
        };
        let ut_metadata = match metadata.remove("ut_metadata") {
            Some(Bencoding::Integer(x)) => x,
            _ => {
                return Err(ExtensionError::MissingUtMetadata);
            },
        };
        let ut_pex = match metadata.remove("ut_pex") {
            Some(Bencoding::Integer(p)) => Some(p as u8),
            _ => None,
        };
        Ok(
            ExtensionHandshakeMessage {
                id,
                m: ExtensionHandshakeMeta { ut_metadata: ut_metadata as u8, ut_pex },
            },
        )
    }
}

/// A UTF-8 encoding takes at most 4 bytes per character.
pub proof fn lemma_encode_utf8_len(s: Seq<char>)
    ensures
        encode_utf8(s).len() <= 4 * s.len(),
    decreases s.len(),
{
    if s.len() > 0 {
        lemma_encode_utf8_len(s.drop_first());
    }
}

/// Reading the bytes of an extension handshake gives back its id and the
/// extension ids it announces.
pub proof fn law_handshake_roundtrip(id: u8, ut_metadata: u8, ut_pex: Option<u8>)
    ensures
        decode_handshake(encode_handshake(id, ut_metadata, ut_pex)) == Ok::<
            (u8, u8, Option<u8>),
            ExtensionError,
        >((id, ut_metadata, ut_pex)),
{
    let e: Seq<(Seq<char>, BValue)> = Seq::empty();
    let md = BValue::Integer(ut_metadata as i64);
    lemma_encode_utf8_len(key_ut_metadata());
    lemma_encode_utf8_len(key_ut_pex());
    lemma_encode_utf8_len(key_m());
    let inner0 = dict_insert(e, key_ut_metadata(), md);
    lemma_dict_insert_sorted(e, key_ut_metadata(), md);
    lemma_dict_insert_well_formed(e, key_ut_metadata(), md);
    let inner = match ut_pex {
        Some(p) => {
            lemma_dict_insert_sorted(inner0, key_ut_pex(), BValue::Integer(p as i64));
            lemma_dict_insert_well_formed(inner0, key_ut_pex(), BValue::Integer(p as i64));
            dict_insert(inner0, key_ut_pex(), BValue::Integer(p as i64))
        },
        None => inner0,
    };
    assert(well_formed(BValue::Dictionary(inner)));
    lemma_dict_insert_sorted(e, key_m(), BValue::Dictionary(inner));
    lemma_dict_insert_well_formed(e, key_m(), BValue::Dictionary(inner));
    let v = handshake_value(ut_metadata, ut_pex);
    law_decode_encode(v);
    let bytes = encode_handshake(id, ut_metadata, ut_pex);
    assert(bytes.skip(1) =~= encode_value(v));
    law_dict_get_insert(e, key_m(), BValue::Dictionary(inner), key_m());
    law_dict_get_insert(e, key_ut_metadata(), md, key_ut_metadata());
    assert(key_ut_metadata() != key_ut_pex()) by {
        assert(key_ut_metadata().len() != key_ut_pex().len());
    }
    law_dict_get_remove(inner, key_ut_metadata(), key_ut_pex());
    match ut_pex {
        Some(p) => {
            law_dict_get_insert(inner0, key_ut_pex(), BValue::Integer(p as i64), key_ut_metadata());
            law_dict_get_insert(inner0, key_ut_pex(), BValue::Integer(p as i64), key_ut_pex());
        },
        None => {
            law_dict_get_insert(e, key_ut_metadata(), md, key_ut_pex());
        },
    }
}

impl ExtensionMessage {
    pub fn new(id: u8, msg_type: ExtensionMessageType, piece: u32, payload: Vec<u8>) -> (m: Self)
        ensures
            m.id == id,
            m.msg_type == msg_type,
            m.piece == piece,
            m.payload@ == payload@,
    {
        ExtensionMessage { id, msg_type, piece, payload }
    }

    /// The bytes of this message: its id, the dictionary
    /// `{"msg_type": .., "piece": ..}`, then the payload.
    pub fn encode(self) -> (r: Vec<u8>)
        ensures
            r@ == encode_message(self.id, self.msg_type, self.piece, self.payload@),
    {
        proof {
            reveal_strlit("msg_type");
            reveal_strlit("piece");
            assert("msg_type"@ =~= key_msg_type());
            assert("piece"@ =~= key_piece());
        }
        let mut bytes: Vec<u8> = Vec::new();
        bytes.push(self.id);
        let mut dict = single("msg_type", Bencoding::Integer(self.msg_type.as_byte() as i64));
        dict.insert("piece".to_owned(), Bencoding::Integer(self.piece as i64));
        Bencoding::Dictionary(dict).encode_into(&mut bytes);
        push_bytes(&mut bytes, self.payload.as_slice());
        assert(bytes@ =~= encode_message(self.id, self.msg_type, self.piece, self.payload@));
        bytes
    }

    /// The fields of a metadata message's dictionary.
    fn fields(bytes: &Vec<u8>) -> (r: Result<(ExtensionMessageType, u32, usize), ExtensionError>)
        ensures
            match r {
                Ok(f) => message_fields(bytes@) == Ok::<(ExtensionMessageType, u32, usize), ExtensionError>(f),
                Err(e) => message_fields(bytes@) == Err::<(ExtensionMessageType, u32, usize), ExtensionError>(e),
            },
    {
        if bytes.len() == 0 {
            return Err(ExtensionError::Empty);
        }
        let rest = copy_range(bytes.as_slice(), 1, bytes.len());
        assert(rest@ =~= bytes@.skip(1));
        let mut dict = match Bencoding::decode(rest) {
            Ok(Bencoding::Dictionary(d)) => d,
            Ok(_) => {
                return Err(ExtensionError::NotDictionary);
            },
            Err(e) => {
                return Err(ExtensionError::Decode(e));
            },
        };
        let ghost d = dict@;
        proof {
            reveal_strlit("msg_type");
            reveal_strlit("piece");
            reveal_strlit("total_size");
            assert("msg_type"@ =~= key_msg_type());
            assert("piece"@ =~= key_piece());
            assert("total_size"@ =~= key_total_size());
            assert(key_msg_type() != key_piece()) by {
                assert(key_msg_type().len() != key_piece().len());
            }
            assert(key_msg_type() != key_total_size()) by {
                assert(key_msg_type()[0] != key_total_size()[0]);
            }
            assert(key_piece() != key_total_size()) by {
                assert(key_piece().len() != key_total_size().len());
            }
            law_dict_get_remove(d, key_msg_type(), key_piece());
            law_dict_get_remove(d, key_msg_type(), key_total_size());
            law_dict_get_remove(dict_remove(d, key_msg_type()), key_piece(), key_total_size());
        }
        let msg_type = match dict.remove("msg_type") {
            Some(Bencoding::Integer(t)) => match ExtensionMessageType::try_from(t as u8) {
                Ok(m) => m,
                Err(e) => {
                    return Err(e);
                },
            },
            _ => {
                return Err(ExtensionError::MissingMsgType);
            },
        };
        let piece = match dict.remove("piece") {
            Some(Bencoding::Integer(p)) => p as u32,
            _ => {
                return Err(ExtensionError::MissingPiece);
            },
        };
        let total_size = match dict.remove("total_size") {
            Some(Bencoding::Integer(s)) => s as usize,
            _ => {
                return Err(ExtensionError::MissingTotalSize);
            },
        };
        Ok((msg_type, piece, total_size))
    }

    /// Whether `decode` can take the data of these bytes: their dictionary's
    /// `total_size` is no larger than they are.
    pub fn payload_fits(bytes: &Vec<u8>) -> (r: bool)
        ensures
            r == message_fits(bytes@),
    {
        match Self::fields(bytes) {
            Ok((_, _, size)) => size <= bytes.len(),
            Err(_) => true,
        }
    }

    /// Reads a metadata message: its last `total_size` bytes are the data.
    pub fn decode(bytes: Vec<u8>) -> (r: Result<Self, ExtensionError>)
        requires
            message_fits(bytes@),
        ensures
            match r {
                Ok(m) => decode_message(bytes@) == Ok::<
                    (u8, ExtensionMessageType, u32, Seq<u8>),
                    ExtensionError,
                >((m.id, m.msg_type, m.piece, m.payload@)),
                Err(e) => decode_message(bytes@) == Err::<
                    (u8, ExtensionMessageType, u32, Seq<u8>),
                    ExtensionError,
                >(e),
            },
    {
        match Self::fields(&bytes) {
            Ok((msg_type, piece, total_size)) => {
                let id = bytes[0];
                let payload = copy_range(bytes.as_slice(), bytes.len() - total_size, bytes.len());
                Ok(ExtensionMessage { id, msg_type, piece, payload })
            },
            Err(e) => Err(e),
        }
    }
}

// ---------------------------------------------------------------------------
// Sizes of the small messages this client sends
// ---------------------------------------------------------------------------

/// A decimal text has no more digits than the number, plus one.
proof fn lemma_decimal_len(n: nat)
    ensures
        decimal(n).len() <= n + 1,
    decreases n,
{
    if n >= 10 {
        lemma_decimal_len(n / 10);
    }
}

/// The length of an entry's bencoding: its key as a byte string, then its
/// value.
spec fn entry_len(e: (Seq<char>, BValue)) -> nat {
    (encode_bytes(encode_utf8(e.0)) + encode_value(e.1)).len()
}

/// The entries' bencodings take no more than `c` bytes each.
proof fn lemma_entries_len(d: Seq<(Seq<char>, BValue)>, c: nat)
    requires
        forall|i: int| 0 <= i < d.len() ==> entry_len(#[trigger] d[i]) <= c,
    ensures
        encode_entries(d).len() <= d.len() * c,
    decreases d.len(),
{
    if d.len() > 0 {
        let p = d.subrange(0, d.len() - 1);
        assert forall|i: int| 0 <= i < p.len() implies entry_len(#[trigger] p[i]) <= c by {
            assert(p[i] == d[i]);
        }
        lemma_entries_len(p, c);
        assert(entry_len(d[d.len() - 1]) <= c);
        let n = d.len();
        assert((n - 1) * c + c == n * c) by (nonlinear_arith);
    }
}

/// Inserting adds at most one entry.
proof fn lemma_dict_insert_len(d: Seq<(Seq<char>, BValue)>, k: Seq<char>, v: BValue)
    ensures
        dict_insert(d, k, v).len() <= d.len() + 1,
    decreases d.len(),
{
    if d.len() > 0 && !crate::bittorent::encoding::key_lt(k, d[0].0) && k != d[0].0 {
        lemma_dict_insert_len(d.drop_first(), k, v);
    }
}

/// An entry of a short key and a small integer is short.
proof fn lemma_small_entry(k: Seq<char>, i: i64)
    requires
        k.len() <= 11,
        0 <= i <= 255,
    ensures
        entry_len((k, BValue::Integer(i))) <= 400,
{
    lemma_encode_utf8_len(k);
    lemma_decimal_len(encode_utf8(k).len());
    lemma_decimal_len(i as nat);
}

/// The extension handshake this client sends fits easily in a message.
proof fn lemma_handshake_len()
    ensures
        encode_handshake(0, 1, None).len() < 1000,
{
    let e: Seq<(Seq<char>, BValue)> = Seq::empty();
    let inner = dict_insert(e, key_ut_metadata(), BValue::Integer(1));
    assert(inner =~= seq![(key_ut_metadata(), BValue::Integer(1))]);
    lemma_small_entry(key_ut_metadata(), 1);
    lemma_entries_len(inner, 400);
    let outer = dict_insert(e, key_m(), BValue::Dictionary(inner));
    assert(outer =~= seq![(key_m(), BValue::Dictionary(inner))]);
    lemma_encode_utf8_len(key_m());
    lemma_decimal_len(encode_utf8(key_m()).len());
    assert(entry_len(outer[0]) <= 500);
    lemma_entries_len(outer, 500);
}

/// A metadata request fits easily in a message.
proof fn lemma_request_len()
    ensures
        encode_value(message_value(ExtensionMessageType::Request, 0)).len() < 1000,
{
    let e: Seq<(Seq<char>, BValue)> = Seq::empty();
    let zero = BValue::Integer(0);
    let d1 = dict_insert(e, key_msg_type(), zero);
    assert(d1 =~= seq![(key_msg_type(), zero)]);
    let d2 = dict_insert(d1, key_piece(), zero);
    lemma_dict_insert_len(d1, key_piece(), zero);
    lemma_small_entry(key_msg_type(), 0);
    lemma_small_entry(key_piece(), 0);
    assert forall|i: int| 0 <= i < d2.len() implies entry_len(#[trigger] d2[i]) <= 400 by {
        crate::bittorent::encoding::lemma_dict_insert_members(d1, key_piece(), zero, i);
    }
    lemma_entries_len(d2, 400);
    assert(ExtensionMessageType::Request.code() == 0);
}

// ---------------------------------------------------------------------------
// The extension handshake
// ---------------------------------------------------------------------------

/// The reserved bytes of a handshake that announces the extension protocol.
pub open spec fn extension_reserved() -> Seq<u8> {
    seq![0u8, 0, 0, 0, 0, 0x10, 0, 0]
}

/// The handshake that opens a connection to a peer, announcing the
/// extension protocol.
pub fn extension_handshake_request(info_hash: &[u8], peer_id: &str) -> (r: Vec<u8>)
    ensures
        r@ == handshake_bytes(extension_reserved(), info_hash@, encode_utf8(peer_id@)),
{
    let reserved: Vec<u8> = vec![0u8, 0, 0, 0, 0, 0x10, 0, 0];
    assert(reserved@ =~= extension_reserved());
    handshake_with(reserved.as_slice(), info_hash, peer_id)
}

/// What a peer's handshake gives when the extension protocol is needed: its
/// peer id, once the protocol, the info hash and the extension bit are
/// checked.
pub open spec fn extension_reply_check(buf: Seq<u8>, info_hash: Seq<u8>) -> Result<Seq<u8>, HandshakeError> {
    match handshake_reply_check(buf, info_hash) {
        Ok(id) => if buf[25] != 0x10 {
            Err(HandshakeError::NoExtension)
        } else {
            Ok(id)
        },
        Err(e) => Err(e),
    }
}

/// A peer that answers with the extension handshake it was sent is
/// accepted, and its peer id comes back.
pub proof fn law_extension_handshake_echo(info_hash: Seq<u8>, peer_id: Seq<u8>)
    requires
        info_hash.len() == 20,
        peer_id.len() == 20,
    ensures
        extension_reply_check(handshake_bytes(extension_reserved(), info_hash, peer_id), info_hash)
            == Ok::<Seq<u8>, HandshakeError>(peer_id),
{
    let b = handshake_bytes(extension_reserved(), info_hash, peer_id);
    law_handshake_echo(extension_reserved(), info_hash, peer_id);
    assert(b[25] == extension_reserved()[5]);
}

/// Of the reserved bytes, only the sixth decides whether a peer supports the
/// extension protocol: a reply that passes the plain checks is accepted, with
/// its peer id, exactly when that byte is `0x10`, whatever the other reserved
/// bytes hold.
pub proof fn law_extension_bit_only(buf: Seq<u8>, info_hash: Seq<u8>)
    requires
        buf.len() == 68,
        handshake_reply_check(buf, info_hash) is Ok,
    ensures
        extension_reply_check(buf, info_hash) == if buf[25] == 0x10 {
            Ok::<Seq<u8>, HandshakeError>(buf.subrange(48, 68))
        } else {
            Err::<Seq<u8>, HandshakeError>(HandshakeError::NoExtension)
        },
{
}

/// Checks a peer's handshake, which must announce the extension protocol,
/// and returns its peer id.
pub fn extension_handshake_reply(buf: &[u8; 68], info_hash: &[u8]) -> (r: Result<Vec<u8>, HandshakeError>)
    ensures
        match r {
            Ok(id) => extension_reply_check(buf@, info_hash@) == Ok::<Seq<u8>, HandshakeError>(id@),
            Err(e) => extension_reply_check(buf@, info_hash@) == Err::<Seq<u8>, HandshakeError>(e),
        },
{
    let id = match handshake_reply(buf, info_hash) {
        Ok(id) => id,
        Err(e) => {
            return Err(e);
        },
    };
    if buf[25] != 0x10 {
        return Err(HandshakeError::NoExtension);
    }
    Ok(id)
}

/// The extension handshake that this client sends: id 0, metadata extension
/// as 1, no peer exchange.
pub fn extension_handshake_message() -> (r: Vec<u8>)
    ensures
        r@ == frame(MessageId::Extension, encode_handshake(0, 1, None)),
{
    let payload = ExtensionHandshakeMessage::new(0, 1, None).encode();
    proof {
        lemma_handshake_len();
    }
    Message::new(MessageId::Extension, payload).into_bytes()
}

/// What a peer's extension handshake announces.
pub open spec fn extension_meta(id: MessageId, payload: Seq<u8>) -> Result<(u8, Option<u8>), ExtensionError> {
    if id != MessageId::Extension {
        Err(ExtensionError::UnexpectedMessage)
    } else {
        match decode_handshake(payload) {
            Ok((_, ut_metadata, ut_pex)) => Ok((ut_metadata, ut_pex)),
            Err(e) => Err(e),
        }
    }
}

/// Reads the extension handshake a peer answers with.
pub fn read_extension_handshake(msg: Message) -> (r: Result<ExtensionHandshakeMeta, ExtensionError>)
    ensures
        match r {
            Ok(m) => extension_meta(msg.id, msg.payload@) == Ok::<(u8, Option<u8>), ExtensionError>(
                (m.ut_metadata, m.ut_pex),
            ),
            Err(e) => extension_meta(msg.id, msg.payload@) == Err::<(u8, Option<u8>), ExtensionError>(
                e,
            ),
        },
{
    if msg.id != MessageId::Extension {
        return Err(ExtensionError::UnexpectedMessage);
    }
    match ExtensionHandshakeMessage::decode(msg.payload) {
        Ok(m) => Ok(m.m),
        Err(e) => Err(e),
    }
}

// ---------------------------------------------------------------------------
// The torrent's info from a peer
// ---------------------------------------------------------------------------

/// Why a peer's metadata gives no info.
#[derive(Debug, Clone, Copy, PartialEq, Eq)]
pub enum MetadataError {
    Extension(ExtensionError),
    Decode(DecodeError),
    Info(InfoError),
}

/// The request for the first piece of a torrent's metadata.
pub fn metadata_request(meta: &ExtensionHandshakeMeta) -> (r: Vec<u8>)
    ensures
        r@ == frame(
            MessageId::Extension,
            encode_message(meta.ut_metadata, ExtensionMessageType::Request, 0, Seq::empty()),
        ),
{
    let ext = ExtensionMessage::new(meta.ut_metadata, ExtensionMessageType::Request, 0, Vec::new());
    let payload = ext.encode();
    proof {
        lemma_request_len();
    }
    Message::new(MessageId::Extension, payload).into_bytes()
}

/// The info that a metadata message carries.
pub open spec fn metadata_info(payload: Seq<u8>) -> Result<InfoFields, MetadataError> {
    match decode_message(payload) {
        Err(e) => Err(MetadataError::Extension(e)),
        Ok((_, _, _, data)) => match decode_value(data) {
            Err(e) => Err(MetadataError::Decode(e)),
            Ok(v) => match decode_info(v) {
                Ok(f) => Ok(f),
                Err(e) => Err(MetadataError::Info(e)),
            },
        },
    }
}

/// Reads the torrent's info from a metadata message.
pub fn read_metadata(msg: Message) -> (r: Result<Info, MetadataError>)
    requires
        message_fits(msg.payload@),
    ensures
        match r {
            Ok(info) => metadata_info(msg.payload@) == Ok::<InfoFields, MetadataError>(info.fields()),
            Err(e) => metadata_info(msg.payload@) == Err::<InfoFields, MetadataError>(e),
        },
{
    let ext = match ExtensionMessage::decode(msg.payload) {
        Ok(m) => m,
        Err(e) => {
            return Err(MetadataError::Extension(e));
        },
    };
    let value = match Bencoding::decode(ext.payload) {
        Ok(v) => v,
        Err(e) => {
            return Err(MetadataError::Decode(e));
        },
    };
    match Info::decode(value) {
        Ok(info) => Ok(info),
        Err(e) => Err(MetadataError::Info(e)),
    }
}

} // verus!
