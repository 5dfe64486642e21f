//! The peer side of the protocol: the tracker request and its answer, the
//! handshake, the bitfield and block requests.
pub mod extension;

use vstd::prelude::*;
use crate::bittorent::encoding::{BValue, Bencoding, DecodeError, decode_value, dict_get};
use crate::bittorent::peer_message::{Message, MessageId, be_u32, frame, push_be_u32};
use crate::bittorent::magnet::{hex_char_value, hex_pair, url_decode};
use crate::bittorent::{hex_digit, hex_encode, hex_text};
use crate::text::{ascii_chars, bytes_equal, copy_range, decimal, push_bytes, push_char, push_decimal_text};
use vstd::utf8::{encode_utf8, is_ascii_chars, is_ascii_chars_encode_utf8};

verus! {

// ---------------------------------------------------------------------------
// The tracker request
// ---------------------------------------------------------------------------

/// The decimal text of `n`.
pub open spec fn decimal_text(n: nat) -> Seq<char> {
    ascii_chars(decimal(n))
}

/// Bytes escaped for a URL: each as `%` and its two lowercase hexadecimal
/// digits.
pub open spec fn url_escape(b: Seq<u8>) -> Seq<char>
    decreases b.len(),
{
    if b.len() == 0 {
        Seq::empty()
    } else {
        url_escape(b.drop_last()) + seq!['%'] + hex_text(seq![b.last()])
    }
}

/// The URL of an announce request to a tracker.
pub open spec fn tracker_query(
    url: Seq<char>,
    info_hash: Seq<u8>,
    peer_id: Seq<char>,
    port: u16,
    uploaded: u32,
    downloaded: u32,
    left: u64,
    compact: bool,
) -> Seq<char> {
    url + "?info_hash="@ + url_escape(info_hash) + "&peer_id="@ + peer_id + "&port="@
        + decimal_text(port as nat) + "&uploaded="@ + decimal_text(uploaded as nat)
        + "&downloaded="@ + decimal_text(downloaded as nat) + "&left="@ + decimal_text(
        left as nat,
    ) + "&compact="@ + decimal_text(
        if compact {
            1
        } else {
            0
        },
    )
}

/// Each byte is escaped as `%` and its two lowercase hexadecimal digits, in
/// order, three characters per byte: no byte is left as itself.
pub proof fn law_url_escape_bytes(b: Seq<u8>)
    ensures
        url_escape(b).len() == 3 * b.len(),
        forall|i: int|
            0 <= i < b.len() ==> url_escape(b).subrange(3 * i, 3 * i + 3) == seq!['%'] + hex_text(
                seq![#[trigger] b[i]],
            ),
    decreases b.len(),
{
    if b.len() > 0 {
        let front = b.drop_last();
        let x = b.last();
        law_url_escape_bytes(front);
        let one = seq![x];
        assert(one.drop_first() =~= Seq::<u8>::empty());
        assert(hex_text(Seq::<u8>::empty()) =~= Seq::<char>::empty());
        assert(one[0] == x);
        let h = hex_text(one);
        assert(h =~= seq![hex_digit((x / 16) as int), hex_digit((x % 16) as int)]);
        let e = url_escape(b);
        let f = url_escape(front);
        assert(e =~= f + (seq!['%'] + h));
        assert forall|i: int| 0 <= i < b.len() implies e.subrange(3 * i, 3 * i + 3) == seq!['%']
            + hex_text(seq![#[trigger] b[i]]) by {
            if i < b.len() - 1 {
                assert(front[i] == b[i]);
                assert(f.subrange(3 * i, 3 * i + 3) == seq!['%'] + hex_text(seq![front[i]]));
                assert(e.subrange(3 * i, 3 * i + 3) =~= f.subrange(3 * i, 3 * i + 3));
            } else {
                assert(b[i] == x);
                assert(e.subrange(3 * i, 3 * i + 3) =~= seq!['%'] + h);
            }
        }
    }
}

/// Escapes every byte for a URL.
pub fn url_encode(bytes: &[u8]) -> (r: String)
    ensures
        r@ == url_escape(bytes@),
{
    let mut s = String::new();
    let mut i: usize = 0;
    while i < bytes.len()
        invariant
            i <= bytes@.len(),
            s@ == url_escape(bytes@.take(i as int)),
        decreases bytes@.len() - i,
    {
        let one: Vec<u8> = vec![bytes[i]];
        let digits = hex_encode(one.as_slice());
        s.append("%");
        s.append(digits.as_str());
        proof {
            reveal_strlit("%");
            assert(one@ =~= seq![bytes@[i as int]]);
            let t = bytes@.take(i + 1);
            assert(t.drop_last() =~= bytes@.take(i as int));
            assert(t.last() == bytes@[i as int]);
            assert(s@ =~= url_escape(t));
        }
        i = i + 1;
    }
    assert(bytes@.take(i as int) =~= bytes@);
    s
}

/// Percent-decoding text that ends with whole escapes decodes the rest after
/// it.
proof fn lemma_url_decode_append(x: Seq<char>, y: Seq<char>)
    requires
        url_decode(x) is Some,
    ensures
        url_decode(x + y) == match url_decode(y) {
            Some(r) => Some(url_decode(x)->0 + r),
            None => None::<Seq<char>>,
        },
    decreases x.len(),
{
    if x.len() == 0 {
        assert(x + y =~= y);
        assert(url_decode(x)->0 =~= Seq::<char>::empty());
        if let Some(r) = url_decode(y) {
            assert(Seq::<char>::empty() + r =~= r);
        }
    } else if x[0] == '%' {
        assert((x + y).skip(3) =~= x.skip(3) + y);
        lemma_url_decode_append(x.skip(3), y);
        if let Some(r) = url_decode(y) {
            let c = seq![(hex_pair(x[1], x[2])->0 as u8) as char];
            assert(c + (url_decode(x.skip(3))->0 + r) =~= (c + url_decode(x.skip(3))->0) + r);
        }
    } else {
        assert((x + y).drop_first() =~= x.drop_first() + y);
        lemma_url_decode_append(x.drop_first(), y);
        if let Some(r) = url_decode(y) {
            let c = seq![x[0]];
            assert(c + (url_decode(x.drop_first())->0 + r) =~= (c + url_decode(x.drop_first())->0)
                + r);
        }
    }
}

/// A lowercase hexadecimal digit reads back as its value.
proof fn lemma_hex_digit_value(n: int)
    requires
        0 <= n < 16,
    ensures
        hex_char_value(hex_digit(n)) == Some(n),
{
}

/// Percent-decoding undoes the escaping of bytes: each `%` and two digits
/// give back the character whose code is the byte.
pub proof fn law_url_decode_escape(b: Seq<u8>)
    ensures
        url_decode(url_escape(b)) == Some(ascii_chars(b)),
    decreases b.len(),
{
    if b.len() == 0 {
        assert(ascii_chars(b) =~= Seq::<char>::empty());
    } else {
        let front = b.drop_last();
        let x = b.last();
        law_url_decode_escape(front);
        let one = seq![x];
        assert(one.drop_first() =~= Seq::<u8>::empty());
        assert(hex_text(Seq::<u8>::empty()) =~= Seq::<char>::empty());
        assert(one[0] == x);
        let hi = hex_digit((x / 16) as int);
        let lo = hex_digit((x % 16) as int);
        let h = hex_text(one);
        assert(h =~= seq![hi, lo]);
        lemma_hex_digit_value((x / 16) as int);
        lemma_hex_digit_value((x % 16) as int);
        let tail = seq!['%'] + h;
        assert(tail =~= seq!['%', hi, lo]);
        assert(tail.skip(3) =~= Seq::<char>::empty());
        assert(url_decode(Seq::<char>::empty()) == Some(Seq::<char>::empty()));
        assert(hex_pair(hi, lo) == Some((x / 16) as int * 16 + (x % 16) as int));
        assert(((x / 16) as int * 16 + (x % 16) as int) as u8 == x);
        assert(seq![x as char] + Seq::<char>::empty() =~= seq![x as char]);
        assert(url_decode(tail) =~= Some(seq![x as char]));
        lemma_url_decode_append(url_escape(front), tail);
        assert(url_escape(b) =~= url_escape(front) + tail);
        assert(ascii_chars(b) =~= ascii_chars(front) + seq![x as char]);
    }
}

/// Appends the decimal text of `n` after `part`.
fn push_field(s: &mut String, part: &str, n: u64)
    ensures
        final(s)@ == old(s)@ + part@ + decimal_text(n as nat),
{
    s.append(part);
    push_decimal_text(s, n);
}

/// The URL that asks a tracker for peers of the torrent with `info_hash`.
pub fn tracker_url(
    url: &str,
    info_hash: &[u8],
    peer_id: &str,
    port: u16,
    uploaded: u32,
    downloaded: u32,
    left: u64,
    compact: bool,
) -> (r: String)
    ensures
        r@ == tracker_query(url@, info_hash@, peer_id@, port, uploaded, downloaded, left, compact),
{
    let mut s = url.to_owned();
    s.append("?info_hash=");
    let escaped = url_encode(info_hash);
    s.append(escaped.as_str());
    s.append("&peer_id=");
    s.append(peer_id);
    push_field(&mut s, "&port=", port as u64);
    push_field(&mut s, "&uploaded=", uploaded as u64);
    push_field(&mut s, "&downloaded=", downloaded as u64);
    push_field(&mut s, "&left=", left);
    let flag: u64 = if compact {
        1
    } else {
        0
    };
    push_field(&mut s, "&compact=", flag);
    assert(s@ =~= tracker_query(
        url@,
        info_hash@,
        peer_id@,
        port,
        uploaded,
        downloaded,
        left,
        compact,
    ));
    s
}

// ---------------------------------------------------------------------------
// The tracker's answer
// ---------------------------------------------------------------------------

/// Why a tracker's answer is not understood.
#[derive(Debug, Clone, Copy, PartialEq, Eq)]
pub enum TrackerError {
    Decode(DecodeError),
    /// The answer is not a dictionary.
    NotDictionary,
    /// No integer `interval`.
    MissingInterval,
    /// No byte string `peers`.
    MissingPeers,
}

/// What a tracker answers: the interval to ask again after, and the peers
/// in compact form.
pub open spec fn tracker_fields(body: Seq<u8>) -> Result<(u64, Seq<u8>), TrackerError> {
    match decode_value(body) {
        Err(e) => Err(TrackerError::Decode(e)),
        Ok(BValue::Dictionary(d)) => match dict_get(d, "interval"@) {
            Some(BValue::Integer(interval)) => match dict_get(d, "peers"@) {
                Some(BValue::Raw(peers)) => Ok((interval as u64, peers)),
                _ => Err(TrackerError::MissingPeers),
            },
            _ => Err(TrackerError::MissingInterval),
        },
        Ok(_) => Err(TrackerError::NotDictionary),
    }
}

/// Reads a tracker's answer: the interval, and the peers, six bytes each.
pub fn tracker_response(body: Vec<u8>) -> (r: Result<(u64, Vec<u8>), TrackerError>)
    ensures
        match r {
            Ok((interval, peers)) => tracker_fields(body@) == Ok::<(u64, Seq<u8>), TrackerError>(
                (interval, peers@),
            ),
            Err(e) => tracker_fields(body@) == Err::<(u64, Seq<u8>), TrackerError>(e),
        },
{
    let data = match Bencoding::decode(body) {
        Ok(Bencoding::Dictionary(d)) => d,
        Ok(_) => {
            return Err(TrackerError::NotDictionary);
        },
        Err(e) => {
            return Err(TrackerError::Decode(e));
        },
    };
    let interval = match data.get("interval") {
        Some(Bencoding::Integer(i)) => *i,
        _ => {
            return Err(TrackerError::MissingInterval);
        },
    };
    let peers = match data.get("peers") {
        Some(Bencoding::Raw(p)) => p.clone(),
        _ => {
            return Err(TrackerError::MissingPeers);
        },
    };
    Ok((interval as u64, peers))
}

/// The address `a.b.c.d:port` of a peer in compact form: four bytes of IPv4
/// address, then the port in two big-endian bytes.
pub open spec fn peer_address(a: Seq<u8>) -> Seq<char> {
    decimal_text(a[0] as nat) + seq!['.'] + decimal_text(a[1] as nat) + seq!['.'] + decimal_text(
        a[2] as nat,
    ) + seq!['.'] + decimal_text(a[3] as nat) + seq![':'] + decimal_text(
        (a[4] as nat) * 256 + a[5] as nat,
    )
}

/// The addresses of the peers of a compact list, six bytes each.
pub open spec fn peer_list(peers: Seq<u8>) -> Seq<Seq<char>> {
    Seq::new(peers.len() / 6, |i: int| peer_address(peers.subrange(6 * i, 6 * i + 6)))
}

/// The address of the peer whose six bytes start at `at`.
fn peer_address_at(peers: &[u8], at: usize) -> (r: String)
    requires
        at + 6 <= peers@.len(),
    ensures
        r@ == peer_address(peers@.subrange(at as int, at + 6)),
{
    let mut s = String::new();
    push_decimal_text(&mut s, peers[at] as u64);
    s.append(".");
    push_decimal_text(&mut s, peers[at + 1] as u64);
    s.append(".");
    push_decimal_text(&mut s, peers[at + 2] as u64);
    s.append(".");
    push_decimal_text(&mut s, peers[at + 3] as u64);
    s.append(":");
    let port: u64 = (peers[at + 4] as u64) * 256 + peers[at + 5] as u64;
    push_decimal_text(&mut s, port);
    proof {
        reveal_strlit(".");
        reveal_strlit(":");
        let a = peers@.subrange(at as int, at + 6);
        assert(a[0] == peers@[at as int] && a[1] == peers@[at + 1] && a[2] == peers@[at + 2]);
        assert(a[3] == peers@[at + 3] && a[4] == peers@[at + 4] && a[5] == peers@[at + 5]);
        assert(s@ =~= peer_address(a));
    }
    s
}

/// The addresses of a compact peer list.
///
/// The list holds six bytes per peer; a shorter last chunk is no address.
pub fn peer_addresses(peers: &[u8]) -> (r: Vec<String>)
    requires
        peers@.len() % 6 == 0,
    ensures
        r@.len() == peer_list(peers@).len(),
        forall|i: int| 0 <= i < r@.len() ==> #[trigger] r@[i]@ == peer_list(peers@)[i],
{
    let mut out: Vec<String> = Vec::new();
    let len = peers.len();
    let n = len / 6;
    let mut i: usize = 0;
    while i < n
        invariant
            i <= n,
            len == peers@.len(),
            n == peers@.len() / 6,
            peers@.len() % 6 == 0,
            out@.len() == i,
            forall|j: int| 0 <= j < i ==> #[trigger] out@[j]@ == peer_list(peers@)[j],
        decreases n - i,
    {
        assert(6 * i + 6 <= peers@.len());
        let s = peer_address_at(peers, 6 * i);
        out.push(s);
        i = i + 1;
    }
    out
}

// ---------------------------------------------------------------------------
// Peer ids
// ---------------------------------------------------------------------------

/// An ASCII letter or digit.
pub open spec fn is_alphanumeric(b: u8) -> bool {
    (48 <= b <= 57) || (65 <= b <= 90) || (97 <= b <= 122)
}

/// A random ASCII letter or digit.
///
/// Trusted: samples `rand::distr::Alphanumeric` with the thread's generator
/// (`rand::rng()`); that distribution picks one of `A`-`Z`, `a`-`z`, `0`-`9`.
/// Which one is left to chance, and unsaid.
#[verifier::external_body]
fn random_alphanumeric() -> (b: u8)
    ensures
        is_alphanumeric(b),
{
    rand::RngExt::sample(&mut rand::rng(), rand::distr::Alphanumeric)
}

/// An ASCII letter or digit, as a character.
pub open spec fn is_alphanumeric_char(c: char) -> bool {
    ('0' <= c <= '9') || ('A' <= c <= 'Z') || ('a' <= c <= 'z')
}

/// A random peer id: 20 ASCII letters and digits, so 20 bytes in UTF-8, one
/// per character.
pub fn generate_peer_id() -> (r: String)
    ensures
        r@.len() == 20,
        forall|i: int| 0 <= i < 20 ==> is_alphanumeric_char(#[trigger] r@[i]),
        encode_utf8(r@) == Seq::new(20, |i: int| r@[i] as u8),
{
    let mut s = String::new();
    let mut k: usize = 0;
    while k < 20
        invariant
            k <= 20,
            s@.len() == k,
            forall|i: int| 0 <= i < k ==> is_alphanumeric_char(#[trigger] s@[i]),
        decreases 20 - k,
    {
        let b = random_alphanumeric();
        push_char(&mut s, b as char);
        assert(is_alphanumeric_char(s@[k as int]));
        k = k + 1;
    }
    proof {
        assert(is_ascii_chars(s@));
        is_ascii_chars_encode_utf8(s@);
        assert(encode_utf8(s@) =~= Seq::new(20, |i: int| s@[i] as u8));
    }
    s
}

// ---------------------------------------------------------------------------
// The bitfield
// ---------------------------------------------------------------------------

/// The bits of a byte, the highest first.
pub open spec fn byte_bits(x: u8) -> Seq<bool> {
    Seq::new(8, |j: int| (x >> ((7 - j) as u8)) & 1u8 == 1u8)
}

/// The pieces that a bitfield says a peer has, one bit each, the highest bit
/// of the first byte for piece 0.
pub open spec fn bitfield_bits(b: Seq<u8>) -> Seq<bool>
    decreases b.len(),
{
    if b.len() == 0 {
        Seq::empty()
    } else {
        bitfield_bits(b.drop_last()) + byte_bits(b.last())
    }
}

/// Each byte of a bitfield gives eight pieces, its highest bit first: bit
/// `j` of byte `k` stands for piece `8 * k + j`.
pub proof fn law_bitfield_bits(b: Seq<u8>)
    ensures
        bitfield_bits(b).len() == 8 * b.len(),
        forall|k: int, j: int|
            0 <= k < b.len() && 0 <= j < 8 ==> bitfield_bits(b)[8 * k + j] == #[trigger] byte_bits(
                b[k],
            )[j],
    decreases b.len(),
{
    if b.len() > 0 {
        let front = b.drop_last();
        law_bitfield_bits(front);
        assert forall|k: int, j: int| 0 <= k < b.len() && 0 <= j < 8 implies bitfield_bits(b)[8 * k
            + j] == #[trigger] byte_bits(b[k])[j] by {
            if k < b.len() - 1 {
                assert(front[k] == b[k]);
                assert(byte_bits(front[k])[j] == bitfield_bits(front)[8 * k + j]);
            }
        }
    }
}

/// Which pieces a bitfield says a peer has.
pub fn bitfield_pieces(bitfield: &[u8]) -> (r: Vec<bool>)
    ensures
        r@ == bitfield_bits(bitfield@),
{
    let mut pieces: Vec<bool> = Vec::new();
    let mut k: usize = 0;
    while k < bitfield.len()
        invariant
            k <= bitfield@.len(),
            pieces@ == bitfield_bits(bitfield@.take(k as int)),
        decreases bitfield@.len() - k,
    {
        let byte = bitfield[k];
        let ghost before = pieces@;
        let mut j: u8 = 0;
        while j < 8
            invariant
                j <= 8,
                pieces@ == before + byte_bits(byte).take(j as int),
            decreases 8 - j,
        {
            let bit = (byte >> (7 - j)) & 1u8 == 1u8;
            pieces.push(bit);
            assert(byte_bits(byte)[j as int] == bit);
            assert(byte_bits(byte).take(j + 1) =~= byte_bits(byte).take(j as int).push(bit));
            j = j + 1;
        }
        proof {
            let t = bitfield@.take(k + 1);
            assert(t.drop_last() =~= bitfield@.take(k as int));
            assert(byte_bits(byte).take(8) =~= byte_bits(byte));
        }
        k = k + 1;
    }
    assert(bitfield@.take(k as int) =~= bitfield@);
    pieces
}

// ---------------------------------------------------------------------------
// The handshake
// ---------------------------------------------------------------------------

/// The bytes of `BitTorrent protocol`.
pub open spec fn protocol_name() -> Seq<u8> {
    seq![66u8, 105, 116, 84, 111, 114, 114, 101, 110, 116, 32, 112, 114, 111, 116, 111, 99, 111, 108]
}

/// A handshake: the protocol name after its length, the reserved bytes, the
/// info hash and the peer id.
pub open spec fn handshake_bytes(reserved: Seq<u8>, info_hash: Seq<u8>, peer_id: Seq<u8>) -> Seq<u8> {
    seq![19u8] + protocol_name() + reserved + info_hash + peer_id
}

/// The bytes of the protocol name.
pub fn protocol_bytes() -> (r: Vec<u8>)
    ensures
        r@ == protocol_name(),
{
    let r: Vec<u8> = vec![66u8, 105, 116, 84, 111, 114, 114, 101, 110, 116, 32, 112, 114, 111, 116, 111, 99, 111, 108];
    assert(r@ =~= protocol_name());
    r
}

/// A handshake with the given reserved bytes.
pub fn handshake_with(reserved: &[u8], info_hash: &[u8], peer_id: &str) -> (r: Vec<u8>)
    ensures
        r@ == handshake_bytes(reserved@, info_hash@, encode_utf8(peer_id@)),
{
    let mut buf: Vec<u8> = Vec::new();
    buf.push(19);
    let name = protocol_bytes();
    push_bytes(&mut buf, name.as_slice());
    push_bytes(&mut buf, reserved);
    push_bytes(&mut buf, info_hash);
    push_bytes(&mut buf, peer_id.as_bytes());
    assert(buf@ =~= handshake_bytes(reserved@, info_hash@, encode_utf8(peer_id@)));
    buf
}

/// The handshake that opens a connection to a peer: no reserved bit set.
pub fn handshake_request(info_hash: &[u8], peer_id: &str) -> (r: Vec<u8>)
    ensures
        r@ == handshake_bytes(seq![0u8, 0, 0, 0, 0, 0, 0, 0], info_hash@, encode_utf8(peer_id@)),
{
    let reserved: Vec<u8> = vec![0u8, 0, 0, 0, 0, 0, 0, 0];
    assert(reserved@ =~= seq![0u8, 0, 0, 0, 0, 0, 0, 0]);
    handshake_with(reserved.as_slice(), info_hash, peer_id)
}

/// Why a peer's handshake is refused.
#[derive(Debug, Clone, Copy, PartialEq, Eq)]
pub enum HandshakeError {
    /// The first byte is not 19.
    ProtocolLength,
    /// The protocol is not `BitTorrent protocol`.
    Protocol,
    /// The peer serves another torrent.
    InfoHash,
    /// The peer does not announce the extension protocol.
    NoExtension,
}

/// What the 68 bytes of a peer's handshake give: its peer id, once the
/// protocol and the info hash are checked.
pub open spec fn handshake_reply_check(buf: Seq<u8>, info_hash: Seq<u8>) -> Result<Seq<u8>, HandshakeError> {
    if buf[0] != 19 {
        Err(HandshakeError::ProtocolLength)
    } else if buf.subrange(1, 20) != protocol_name() {
        Err(HandshakeError::Protocol)
    } else if buf.subrange(28, 48) != info_hash {
        Err(HandshakeError::InfoHash)
    } else {
        Ok(buf.subrange(48, 68))
    }
}

/// A peer that answers with the handshake it was sent is accepted, and
/// its peer id comes back.
pub proof fn law_handshake_echo(reserved: Seq<u8>, info_hash: Seq<u8>, peer_id: Seq<u8>)
    requires
        reserved.len() == 8,
        info_hash.len() == 20,
        peer_id.len() == 20,
    ensures
        handshake_reply_check(handshake_bytes(reserved, info_hash, peer_id), info_hash) == Ok::<
            Seq<u8>,
            HandshakeError,
        >(peer_id),
{
    let b = handshake_bytes(reserved, info_hash, peer_id);
    assert(b.subrange(1, 20) =~= protocol_name());
    assert(b.subrange(28, 48) =~= info_hash);
    assert(b.subrange(48, 68) =~= peer_id);
}

/// Checks a peer's handshake and returns its peer id.
pub fn handshake_reply(buf: &[u8; 68], info_hash: &[u8]) -> (r: Result<Vec<u8>, HandshakeError>)
    ensures
        match r {
            Ok(id) => handshake_reply_check(buf@, info_hash@) == Ok::<Seq<u8>, HandshakeError>(id@),
            Err(e) => handshake_reply_check(buf@, info_hash@) == Err::<Seq<u8>, HandshakeError>(e),
        },
{
    let b = buf.as_slice();
    assert(b@ == buf@);
    if b[0] != 19 {
        return Err(HandshakeError::ProtocolLength);
    }
    let name = protocol_bytes();
    let got = copy_range(b, 1, 20);
    if !bytes_equal(got.as_slice(), name.as_slice()) {
        return Err(HandshakeError::Protocol);
    }
    let hash = copy_range(b, 28, 48);
    if !bytes_equal(hash.as_slice(), info_hash) {
        return Err(HandshakeError::InfoHash);
    }
    Ok(copy_range(b, 48, 68))
}

// ---------------------------------------------------------------------------
// Blocks
// ---------------------------------------------------------------------------

/// The bytes of a request for `length` bytes at `offset` of a piece.
pub open spec fn block_request_bytes(piece_index: u32, offset: u32, length: u32) -> Seq<u8> {
    frame(
        MessageId::Request,
        be_u32(piece_index as nat) + be_u32(offset as nat) + be_u32(length as nat),
    )
}

/// Asks a peer for `length` bytes at `offset` of a piece.
pub fn block_request(piece_index: u32, offset: u32, length: u32) -> (r: Vec<u8>)
    ensures
        r@ == block_request_bytes(piece_index, offset, length),
{
    let mut payload: Vec<u8> = Vec::new();
    push_be_u32(&mut payload, piece_index);
    push_be_u32(&mut payload, offset);
    push_be_u32(&mut payload, length);
    let ghost p = payload@;
    assert(p =~= be_u32(piece_index as nat) + be_u32(offset as nat) + be_u32(length as nat));
    Message::new(MessageId::Request, payload).into_bytes()
}

/// Why a block is not received.
#[derive(Debug, Clone, Copy, PartialEq, Eq)]
pub enum BlockError {
    /// A piece message shorter than its index and offset.
    ShortPiece,
    /// A piece message for another piece.
    WrongPiece,
    /// A piece message for another offset.
    WrongOffset,
    /// A message that is none of choke, unchoke and piece.
    UnexpectedMessage,
}

/// What to do after a message, while a block is awaited.
pub enum BlockStep {
    /// The peer choked: wait for it to unchoke.
    AwaitUnchoke,
    /// Nothing yet: read the next message.
    KeepWaiting,
    /// The block's data.
    Block(Vec<u8>),
    Failed(BlockError),
}

/// The data of a piece message that answers a request for the block at
/// `offset` of piece `piece_index`.
pub open spec fn piece_block(piece_index: u32, offset: u32, payload: Seq<u8>) -> Result<Seq<u8>, BlockError> {
    if payload.len() < 8 {
        Err(BlockError::ShortPiece)
    } else if payload.subrange(0, 4) != be_u32(piece_index as nat) {
        Err(BlockError::WrongPiece)
    } else if payload.subrange(4, 8) != be_u32(offset as nat) {
        Err(BlockError::WrongOffset)
    } else {
        Ok(payload.skip(8))
    }
}

/// A piece message that names the requested piece and offset carries the
/// block: what follows them is its data.
pub proof fn law_piece_block(piece_index: u32, offset: u32, data: Seq<u8>)
    ensures
        piece_block(piece_index, offset, be_u32(piece_index as nat) + be_u32(offset as nat) + data)
            == Ok::<Seq<u8>, BlockError>(data),
{
    let p = be_u32(piece_index as nat) + be_u32(offset as nat) + data;
    assert(p.subrange(0, 4) =~= be_u32(piece_index as nat));
    assert(p.subrange(4, 8) =~= be_u32(offset as nat));
    assert(p.skip(8) =~= data);
}

/// What a message means while the block at `offset` of piece `piece_index`
/// is awaited.
pub fn block_reply(piece_index: u32, offset: u32, msg: Message) -> (r: BlockStep)
    ensures
        match msg.id {
            MessageId::Choke => r is AwaitUnchoke,
            MessageId::Unchoke => r is KeepWaiting,
            MessageId::Piece => match piece_block(piece_index, offset, msg.payload@) {
                Ok(d) => r matches BlockStep::Block(b) && b@ == d,
                Err(e) => r == BlockStep::Failed(e),
            },
            _ => r == BlockStep::Failed(BlockError::UnexpectedMessage),
        },
{
    match msg.id {
        MessageId::Choke => BlockStep::AwaitUnchoke,
        MessageId::Unchoke => BlockStep::KeepWaiting,
        MessageId::Piece => {
            let payload = msg.payload;
            if payload.len() < 8 {
                return BlockStep::Failed(BlockError::ShortPiece);
            }
            let mut want: Vec<u8> = Vec::new();
            push_be_u32(&mut want, piece_index);
            let got = copy_range(payload.as_slice(), 0, 4);
            if !bytes_equal(got.as_slice(), want.as_slice()) {
                return BlockStep::Failed(BlockError::WrongPiece);
            }
            let mut want: Vec<u8> = Vec::new();
            push_be_u32(&mut want, offset);
            let got = copy_range(payload.as_slice(), 4, 8);
            if !bytes_equal(got.as_slice(), want.as_slice()) {
                return BlockStep::Failed(BlockError::WrongOffset);
            }
            let data = copy_range(payload.as_slice(), 8, payload.len());
            assert(data@ =~= payload@.skip(8));
            BlockStep::Block(data)
        },
        _ => BlockStep::Failed(BlockError::UnexpectedMessage),
    }
}

} // verus!
