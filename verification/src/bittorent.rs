//! The BitTorrent side of the library: bencoding, torrent files, magnet links,
//! the tracker and peer protocols, and the bookkeeping of piece downloads.
pub mod connection;
pub mod downloader;
pub mod encoding;
pub mod magnet;
pub mod metainfo;
pub mod peer;
pub mod peer_message;
pub mod torrent;

use vstd::prelude::*;
use vstd::utf8::encode_utf8;
use crate::bittorent::magnet::Magnet;
use crate::bittorent::peer::decimal_text;
use crate::bittorent::torrent::{Info, InfoFields};
use crate::bittorent::encoding::{Bencoding, DecodeError, decode_value, display_text};
use crate::text::{copy_range, push_decimal_text};

verus! {

/// What the command line asks for.
pub enum Command {
    Decode { encoded_value: String },
    Info { torrent: String },
    Peers { torrent: String },
    Handshake { torrent: String, addr: String },
    DownloadPiece { output: Option<String>, torrent: String, piece_index: u32 },
    Download { output: Option<String>, torrent: String },
    MagnetParse { link: String },
    MagnetHandshake { link: String },
    MagnetInfo { link: String },
    MagnetDownloadPiece { output: Option<String>, link: String, piece_index: u32 },
    MagnetDownload { output: Option<String>, link: String },
}

/// The parsed command line.
pub struct Cli {
    pub command: Command,
}

// ---------------------------------------------------------------------------
// SHA-1
// ---------------------------------------------------------------------------

/// The SHA-1 digest of a byte string, as the `sha1` crate computes it.
pub uninterp spec fn sha1_digest(data: Seq<u8>) -> Seq<u8>;

/// The SHA-1 digest of `data`.
///
/// Trusted: calls `Sha1::digest` of the `sha1` crate (through its `Digest`
/// trait); the contract only names the result, a function of the bytes.
#[verifier::external_body]
pub(crate) fn sha1_hash(data: &[u8]) -> (r: [u8; 20])
    ensures
        r@ == sha1_digest(data@),
{
    <sha1::Sha1 as sha1::Digest>::digest(data).into()
}

// ---------------------------------------------------------------------------
// Hexadecimal text
// ---------------------------------------------------------------------------

/// The lowercase hexadecimal digit of `n < 16`.
pub open spec fn hex_digit(n: int) -> char {
    if n < 10 {
        (n + 48) as char
    } else {
        (n + 87) as char
    }
}

/// Two lowercase hexadecimal digits per byte, the high half first.
pub open spec fn hex_text(b: Seq<u8>) -> Seq<char>
    decreases b.len(),
{
    if b.len() == 0 {
        Seq::empty()
    } else {
        seq![hex_digit((b[0] / 16) as int), hex_digit((b[0] % 16) as int)] + hex_text(b.drop_first())
    }
}

/// The value of a hexadecimal digit of either case.
pub open spec fn hex_value(c: u8) -> Option<int> {
    if 48 <= c <= 57 {
        Some(c - 48)
    } else if 65 <= c <= 70 {
        Some(c - 55)
    } else if 97 <= c <= 102 {
        Some(c - 87)
    } else {
        None
    }
}

/// The bytes that hexadecimal text denotes: an even number of digits of
/// either case, two per byte.
pub open spec fn hex_bytes(s: Seq<u8>) -> Option<Seq<u8>>
    decreases s.len(),
{
    if s.len() % 2 != 0 {
        None
    } else if s.len() == 0 {
        Some(Seq::empty())
    } else {
        match (hex_value(s[0]), hex_value(s[1]), hex_bytes(s.skip(2))) {
            (Some(h), Some(l), Some(rest)) => Some(seq![(h * 16 + l) as u8] + rest),
            _ => None,
        }
    }
}

/// Hexadecimal text of bytes.
///
/// Trusted: calls `hex::encode`, which writes each byte as two lowercase
/// hexadecimal digits, the high half first.
#[verifier::external_body]
pub(crate) fn hex_encode(data: &[u8]) -> (r: String)
    ensures
        r@ == hex_text(data@),
{
    hex::encode(data)
}

#[verifier::external_type_specification]
#[verifier::external_body]
pub struct ExFromHexError(hex::FromHexError);

/// The bytes that hexadecimal text denotes.
///
/// Trusted: calls `hex::decode`, which fails on text of odd length or with a
/// byte that is no hexadecimal digit, and otherwise reads two digits of either
/// case per byte.
#[verifier::external_body]
pub(crate) fn hex_decode(text: &str) -> (r: Result<Vec<u8>, hex::FromHexError>)
    ensures
        match r {
            Ok(v) => hex_bytes(encode_utf8(text@)) == Some(v@),
            Err(_) => hex_bytes(encode_utf8(text@)) is None,
        },
{
    hex::decode(text)
}

// ---------------------------------------------------------------------------
// What the commands print
// ---------------------------------------------------------------------------

/// The lines that describe a torrent: its tracker, length, info hash, piece
/// length, then each piece's hash.
pub open spec fn info_report(tracker: Seq<char>, info: InfoFields) -> Seq<Seq<char>> {
    seq![
        "Tracker URL: "@ + tracker,
        "Length: "@ + decimal_text(info.length as nat),
        "Info Hash: "@ + hex_text(info.hash),
        "Piece Length: "@ + decimal_text(info.piece_length as nat),
        "Piece Hashes:"@,
    ] + info.pieces.map_values(|p: Seq<u8>| hex_text(p))
}

/// The text of each line.
pub open spec fn texts(lines: Seq<String>) -> Seq<Seq<char>> {
    lines.map_values(|l: String| l@)
}

/// A line of a label followed by text.
fn labelled(label: &str, text: &str) -> (r: String)
    ensures
        r@ == label@ + text@,
{
    let mut s = label.to_owned();
    s.append(text);
    s
}

/// The lines that describe a torrent.
pub fn info_lines(tracker: &str, info: &Info) -> (r: Vec<String>)
    ensures
        texts(r@) == info_report(tracker@, info.fields()),
{
    let mut lines: Vec<String> = Vec::new();
    lines.push(labelled("Tracker URL: ", tracker));
    let mut length = "Length: ".to_owned();
    push_decimal_text(&mut length, info.length);
    lines.push(length);
    let hash = hex_encode(info.hash.as_slice());
    lines.push(labelled("Info Hash: ", hash.as_str()));
    let mut piece_length = "Piece Length: ".to_owned();
    push_decimal_text(&mut piece_length, info.piece_length);
    lines.push(piece_length);
    lines.push("Piece Hashes:".to_owned());
    let ghost head = texts(lines@);
    let ghost pieces = info.fields().pieces;
    let n = info.pieces.len();
    let mut i: usize = 0;
    while i < n
        invariant
            i <= n,
            n == info.pieces@.len(),
            pieces == info.pieces@.map_values(|a: [u8; 20]| a@),
            texts(lines@) == head + pieces.take(i as int).map_values(|p: Seq<u8>| hex_text(p)),
        decreases n - i,
    {
        let line = hex_encode(info.pieces[i].as_slice());
        let ghost before = lines@;
        let ghost text = line@;
        lines.push(line);
        proof {
            assert(texts(lines@) =~= texts(before).push(text));
            assert(pieces[i as int] == info.pieces@[i as int]@);
            assert(pieces.take(i + 1) =~= pieces.take(i as int).push(pieces[i as int]));
            assert(pieces.take(i + 1).map_values(|p: Seq<u8>| hex_text(p)) =~= pieces.take(
                i as int,
            ).map_values(|p: Seq<u8>| hex_text(p)).push(text));
            assert(texts(lines@) =~= head + pieces.take(i + 1).map_values(|p: Seq<u8>| hex_text(p)));
        }
        i = i + 1;
    }
    assert(pieces.take(n as int) =~= pieces);
    assert(texts(lines@) =~= info_report(tracker@, info.fields()));
    lines
}

/// The lines that describe a magnet link: its tracker and info hash.
pub fn magnet_lines(magnet: &Magnet) -> (r: Vec<String>)
    ensures
        texts(r@) == seq![
            "Tracker URL: "@ + magnet.tracker_url@,
            "Info Hash: "@ + hex_text(magnet.info_hash@),
        ],
{
    let mut lines: Vec<String> = Vec::new();
    lines.push(labelled("Tracker URL: ", magnet.tracker_url.as_str()));
    let hash = hex_encode(magnet.info_hash.as_slice());
    lines.push(labelled("Info Hash: ", hash.as_str()));
    assert(texts(lines@) =~= seq![
        "Tracker URL: "@ + magnet.tracker_url@,
        "Info Hash: "@ + hex_text(magnet.info_hash@),
    ]);
    lines
}

/// What the `decode` command prints: the text that shows the value that the
/// bytes of `encoded_value` start with.
pub fn decode_command(encoded_value: String) -> (r: Result<String, DecodeError>)
    ensures
        match decode_value(encode_utf8(encoded_value@)) {
            Ok(v) => r matches Ok(t) && t@ == display_text(v),
            Err(e) => r == Err::<String, DecodeError>(e),
        },
{
    let bytes = encoded_value.as_str().as_bytes();
    let data = copy_range(bytes, 0, bytes.len());
    assert(data@ =~= encode_utf8(encoded_value@));
    match Bencoding::decode(data) {
        Ok(v) => Ok(v.to_display_string()),
        Err(e) => Err(e),
    }
}

/// The line that shows a peer's id.
pub fn peer_id_line(peer_id: &[u8]) -> (r: String)
    ensures
        r@ == "Peer ID: "@ + hex_text(peer_id@),
{
    let hash = hex_encode(peer_id);
    labelled("Peer ID: ", hash.as_str())
}

/// The line that shows the id a peer gives the metadata extension.
pub fn metadata_id_line(ut_metadata: u8) -> (r: String)
    ensures
        r@ == "Peer Metadata Extension ID: "@ + decimal_text(ut_metadata as nat),
{
    let mut s = "Peer Metadata Extension ID: ".to_owned();
    push_decimal_text(&mut s, ut_metadata as u64);
    s
}

/// The line that reports progress after piece `index` of `total`.
pub fn progress_line(index: usize, total: usize) -> (r: String)
    requires
        index < total,
    ensures
        r@ == "Downloaded "@ + decimal_text((index + 1) as nat) + "/"@ + decimal_text(total as nat)
            + " pieces"@,
{
    let mut s = "Downloaded ".to_owned();
    push_decimal_text(&mut s, (index + 1) as u64);
    s.append("/");
    push_decimal_text(&mut s, total as u64);
    s.append(" pieces");
    s
}

} // verus!
