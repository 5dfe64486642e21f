//! The handshake as a value, and the announce request built from a torrent's
//! metainfo.
use vstd::prelude::*;
use vstd::utf8::{decode_utf8, encode_utf8, valid_utf8};
use crate::bittorent::metainfo::MetaInfo;
use crate::bittorent::peer::{generate_peer_id, is_alphanumeric_char, tracker_query, tracker_url};
use crate::text::{copy_range, push_bytes, str_from_utf8};

verus! {

broadcast use vstd::utf8::group_utf8_lib;

/// A handshake between two peers.
pub struct Handshake {
    pub protocol: String,
    pub reserved: [u8; 8],
    pub info_hash: [u8; 20],
    pub peer_id: [u8; 20],
}

/// Why bytes are no handshake.
#[derive(Debug, Clone, Copy, PartialEq, Eq)]
pub enum ConnectionError {
    /// The bytes end before the handshake does.
    UnexpectedEnd,
    /// The protocol name is not UTF-8.
    InvalidProtocol,
}

/// The bytes of a handshake: the length of the protocol name, cut to a byte,
/// the name, the reserved bytes, the info hash and the peer id.
pub open spec fn handshake_message(
    protocol: Seq<char>,
    reserved: Seq<u8>,
    info_hash: Seq<u8>,
    peer_id: Seq<u8>,
) -> Seq<u8> {
    let p = encode_utf8(protocol);
    seq![p.len() as u8] + p + reserved + info_hash + peer_id
}

/// The handshake that bytes start with: protocol, reserved bytes, info hash,
/// peer id, and the number of bytes it takes.
pub open spec fn read_handshake(data: Seq<u8>) -> Result<
    (Seq<char>, Seq<u8>, Seq<u8>, Seq<u8>, int),
    ConnectionError,
> {
    if data.len() < 1 {
        Err(ConnectionError::UnexpectedEnd)
    } else {
        let n = data[0] as int;
        if data.len() < n + 49 {
            Err(ConnectionError::UnexpectedEnd)
        } else {
            let p = data.subrange(1, n + 1);
            if !valid_utf8(p) {
                Err(ConnectionError::InvalidProtocol)
            } else {
                Ok(
                    (
                        decode_utf8(p),
                        data.subrange(n + 1, n + 9),
                        data.subrange(n + 9, n + 29),
                        data.subrange(n + 29, n + 49),
                        n + 49,
                    ),
                )
            }
        }
    }
}

/// The 8 bytes at `at`.
fn array8(data: &[u8], at: usize) -> (r: [u8; 8])
    requires
        at + 8 <= data@.len(),
    ensures
        r@ == data@.subrange(at as int, at + 8),
{
    let mut r = [0u8; 8];
    let len = data.len();
    let mut k: usize = 0;
    while k < 8
        invariant
            k <= 8,
            len == data@.len(),
            at + 8 <= data@.len(),
            forall|m: int| 0 <= m < k ==> r@[m] == data@[at + m],
        decreases 8 - k,
    {
        r[k] = data[at + k];
        k = k + 1;
    }
    assert(r@ =~= data@.subrange(at as int, at + 8));
    r
}

/// The 20 bytes at `at`.
fn array20(data: &[u8], at: usize) -> (r: [u8; 20])
    requires
        at + 20 <= data@.len(),
    ensures
        r@ == data@.subrange(at as int, at + 20),
{
    let mut r = [0u8; 20];
    let len = data.len();
    let mut k: usize = 0;
    while k < 20
        invariant
            k <= 20,
            len == data@.len(),
            at + 20 <= data@.len(),
            forall|m: int| 0 <= m < k ==> r@[m] == data@[at + m],
        decreases 20 - k,
    {
        r[k] = data[at + k];
        k = k + 1;
    }
    assert(r@ =~= data@.subrange(at as int, at + 20));
    r
}

impl Handshake {
    /// The handshake of the BitTorrent protocol, no reserved bit set.
    pub fn new(info_hash: [u8; 20], peer_id: [u8; 20]) -> (h: Self)
        ensures
            h.protocol@ == "BitTorrent protocol"@,
            h.reserved@ == seq![0u8, 0, 0, 0, 0, 0, 0, 0],
            h.info_hash == info_hash,
            h.peer_id == peer_id,
    {
        let h = Handshake {
            protocol: "BitTorrent protocol".to_owned(),
            reserved: [0u8; 8],
            info_hash,
            peer_id,
        };
        assert(h.reserved@ =~= seq![0u8, 0, 0, 0, 0, 0, 0, 0]);
        h
    }

    /// Reads the handshake that `data` starts with, as a peer sends it, and
    /// says how many bytes it takes.
    pub fn from_bytes(data: &[u8]) -> (r: Result<(Handshake, usize), ConnectionError>)
        ensures
            match r {
                Ok((h, n)) => read_handshake(data@) == Ok::<
                    (Seq<char>, Seq<u8>, Seq<u8>, Seq<u8>, int),
                    ConnectionError,
                >((h.protocol@, h.reserved@, h.info_hash@, h.peer_id@, n as int)),
                Err(e) => read_handshake(data@) == Err::<
                    (Seq<char>, Seq<u8>, Seq<u8>, Seq<u8>, int),
                    ConnectionError,
                >(e),
            },
    {
        if data.len() < 1 {
            return Err(ConnectionError::UnexpectedEnd);
        }
        let n = data[0] as usize;
        if data.len() < n + 49 {
            return Err(ConnectionError::UnexpectedEnd);
        }
        let protocol = copy_range(data, 1, n + 1);
        let reserved = array8(data, n + 1);
        let info_hash = array20(data, n + 9);
        let peer_id = array20(data, n + 29);
        let protocol = match str_from_utf8(protocol.as_slice()) {
            Ok(text) => text.to_owned(),
            Err(_) => {
                return Err(ConnectionError::InvalidProtocol);
            },
        };
        Ok((Handshake { protocol, reserved, info_hash, peer_id }, n + 49))
    }

    /// The bytes of this handshake.
    pub fn into_bytes(self) -> (r: Vec<u8>)
        ensures
            r@ == handshake_message(
                self.protocol@,
                self.reserved@,
                self.info_hash@,
                self.peer_id@,
            ),
    {
        let name = self.protocol.as_str().as_bytes();
        #[verifier::truncate]
        let n = name.len() as u8;
        let mut bytes: Vec<u8> = Vec::new();
        bytes.push(n);
        push_bytes(&mut bytes, name);
        push_bytes(&mut bytes, self.reserved.as_slice());
        push_bytes(&mut bytes, self.info_hash.as_slice());
        push_bytes(&mut bytes, self.peer_id.as_slice());
        assert(bytes@ =~= handshake_message(
            self.protocol@,
            self.reserved@,
            self.info_hash@,
            self.peer_id@,
        ));
        bytes
    }
}

/// Reading the bytes of a handshake gives it back, when its protocol name
/// takes fewer than 256 bytes.
pub proof fn law_handshake_bytes_roundtrip(
    protocol: Seq<char>,
    reserved: Seq<u8>,
    info_hash: Seq<u8>,
    peer_id: Seq<u8>,
)
    requires
        encode_utf8(protocol).len() < 256,
        reserved.len() == 8,
        info_hash.len() == 20,
        peer_id.len() == 20,
    ensures
        read_handshake(handshake_message(protocol, reserved, info_hash, peer_id)) == Ok::<
            (Seq<char>, Seq<u8>, Seq<u8>, Seq<u8>, int),
            ConnectionError,
        >(
            (
                protocol,
                reserved,
                info_hash,
                peer_id,
                handshake_message(protocol, reserved, info_hash, peer_id).len() as int,
            ),
        ),
{
    let p = encode_utf8(protocol);
    let m = handshake_message(protocol, reserved, info_hash, peer_id);
    let n = p.len() as int;
    assert((p.len() as u8) as int == n);
    assert(m[0] as int == n);
    assert(m.subrange(1, n + 1) =~= p);
    assert(m.subrange(n + 1, n + 9) =~= reserved);
    assert(m.subrange(n + 9, n + 29) =~= info_hash);
    assert(m.subrange(n + 29, n + 49) =~= peer_id);
}

/// The announce request for a torrent: port 6881, nothing uploaded or
/// downloaded yet, all of it left, compact peers.
pub fn peers_discovery_url(metainfo: &MetaInfo, peer_id: &str) -> (r: String)
    ensures
        r@ == tracker_query(
            metainfo.announce@,
            metainfo.info.hash@,
            peer_id@,
            6881,
            0,
            0,
            metainfo.info.length,
            true,
        ),
{
    tracker_url(
        metainfo.announce.as_str(),
        metainfo.info.hash.as_slice(),
        peer_id,
        6881,
        0,
        0,
        metainfo.info.length,
        true,
    )
}

/// A random peer id: 20 ASCII letters and digits, so 20 bytes in UTF-8.
pub fn random_peer_id() -> (r: String)
    ensures
        r@.len() == 20,
        forall|i: int| 0 <= i < 20 ==> is_alphanumeric_char(#[trigger] r@[i]),
        encode_utf8(r@) == Seq::new(20, |i: int| r@[i] as u8),
{
    generate_peer_id()
}

} // verus!
