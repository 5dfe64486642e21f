use my_bittorrent::bittorent::encoding::{Bencoding, DecodeError, Dict};
use my_bittorrent::bittorent::peer::{
    bitfield_pieces, block_reply, block_request, generate_peer_id, handshake_reply,
    handshake_request, peer_addresses, tracker_response, tracker_url, url_encode, BlockError,
    BlockStep, HandshakeError, TrackerError,
};
use my_bittorrent::bittorent::magnet::decode_url;
use my_bittorrent::bittorent::peer_message::{Message, MessageError, MessageId};

#[test]
fn url_encode_escapes_every_byte() {
    assert_eq!(url_encode(&[0x00, 0xab, 0x7f]), "%00%ab%7f");
    assert_eq!(url_encode(&[]), "");
}

#[test]
fn tracker_url_lists_every_parameter() {
    let url = tracker_url(
        "http://tracker.example/announce",
        &[0x12, 0xff],
        "abcdefghij0123456789",
        6881,
        0,
        5,
        92063,
        true,
    );
    assert_eq!(
        url,
        "http://tracker.example/announce?info_hash=%12%ff&peer_id=abcdefghij0123456789&port=6881&uploaded=0&downloaded=5&left=92063&compact=1"
    );
    let url = tracker_url("u", &[], "p", 1, 2, 3, 4, false);
    assert_eq!(url, "u?info_hash=&peer_id=p&port=1&uploaded=2&downloaded=3&left=4&compact=0");
}

#[test]
fn tracker_response_reads_interval_and_peers() {
    let body = Bencoding::Dictionary(Dict::from_entries(vec![
        (String::from("interval"), Bencoding::Integer(60)),
        (
            String::from("peers"),
            Bencoding::Raw(vec![165, 232, 41, 73, 0xc9, 0x0b, 10, 0, 0, 1, 0, 80]),
        ),
    ]))
    .encode();
    let (interval, peers) = tracker_response(body).unwrap();
    assert_eq!(interval, 60);
    assert_eq!(
        peer_addresses(&peers),
        vec![String::from("165.232.41.73:51467"), String::from("10.0.0.1:80")]
    );
}

#[test]
fn tracker_response_casts_a_negative_interval() {
    let body = b"d8:intervali-1e5:peers0:e".to_vec();
    let (interval, peers) = tracker_response(body).unwrap();
    assert_eq!(interval, u64::MAX);
    assert!(peers.is_empty());
}

#[test]
fn tracker_response_errors() {
    assert_eq!(
        tracker_response(Vec::new()).err(),
        Some(TrackerError::Decode(DecodeError::UnexpectedEnd))
    );
    assert_eq!(tracker_response(b"le".to_vec()).err(), Some(TrackerError::NotDictionary));
    assert_eq!(
        tracker_response(b"d5:peers0:e".to_vec()).err(),
        Some(TrackerError::MissingInterval)
    );
    assert_eq!(
        tracker_response(b"d8:intervali1e5:peersi3ee".to_vec()).err(),
        Some(TrackerError::MissingPeers)
    );
}

#[test]
fn generated_peer_ids_are_twenty_letters_or_digits() {
    let id = generate_peer_id();
    assert_eq!(id.len(), 20);
    assert!(id.bytes().all(|b| b.is_ascii_alphanumeric()));
}

#[test]
fn bitfield_pieces_reads_the_highest_bit_first() {
    assert_eq!(
        bitfield_pieces(&[0b1010_0000, 0b0000_0001]),
        vec![
            true, false, true, false, false, false, false, false, false, false, false, false,
            false, false, false, true
        ]
    );
    assert!(bitfield_pieces(&[]).is_empty());
}

#[test]
fn handshake_request_bytes() {
    let hash = [7u8; 20];
    let bytes = handshake_request(&hash, "abcdefghij0123456789");
    assert_eq!(bytes.len(), 68);
    assert_eq!(bytes[0], 19);
    assert_eq!(&bytes[1..20], b"BitTorrent protocol");
    assert_eq!(&bytes[20..28], &[0u8; 8]);
    assert_eq!(&bytes[28..48], &hash);
    assert_eq!(&bytes[48..], b"abcdefghij0123456789");
}

fn reply(hash: [u8; 20]) -> [u8; 68] {
    let mut buf = [0u8; 68];
    let bytes = handshake_request(&hash, "ZYXWVUTSRQPONMLKJIHG");
    buf.copy_from_slice(&bytes);
    buf
}

#[test]
fn handshake_reply_gives_the_peer_id() {
    let hash = [3u8; 20];
    let id = handshake_reply(&reply(hash), &hash).unwrap();
    assert_eq!(id, b"ZYXWVUTSRQPONMLKJIHG".to_vec());
}

#[test]
fn handshake_reply_errors() {
    let hash = [3u8; 20];
    let mut buf = reply(hash);
    assert_eq!(handshake_reply(&buf, &[4u8; 20]).err(), Some(HandshakeError::InfoHash));
    buf[5] = b'x';
    assert_eq!(handshake_reply(&buf, &hash).err(), Some(HandshakeError::Protocol));
    buf[0] = 18;
    assert_eq!(handshake_reply(&buf, &hash).err(), Some(HandshakeError::ProtocolLength));
}

#[test]
fn block_request_frames_three_numbers() {
    let bytes = block_request(1, 16384, 100);
    assert_eq!(bytes, vec![0, 0, 0, 13, 6, 0, 0, 0, 1, 0, 0, 0x40, 0, 0, 0, 0, 100]);
    let (msg, n) = Message::from_bytes(&bytes).unwrap();
    assert_eq!(n, 17);
    assert_eq!(msg.id, MessageId::Request);
}

#[test]
fn block_reply_steps() {
    let piece = Message::new(MessageId::Piece, vec![0, 0, 0, 2, 0, 0, 0x40, 0, 9, 8, 7]);
    match block_reply(2, 16384, piece) {
        BlockStep::Block(data) => assert_eq!(data, vec![9, 8, 7]),
        _ => panic!("expected the block"),
    }
    assert!(matches!(
        block_reply(2, 0, Message::new(MessageId::Choke, Vec::new())),
        BlockStep::AwaitUnchoke
    ));
    assert!(matches!(
        block_reply(2, 0, Message::new(MessageId::Unchoke, Vec::new())),
        BlockStep::KeepWaiting
    ));
    assert!(matches!(
        block_reply(2, 0, Message::new(MessageId::Have, Vec::new())),
        BlockStep::Failed(BlockError::UnexpectedMessage)
    ));
    assert!(matches!(
        block_reply(2, 0, Message::new(MessageId::Piece, vec![0, 0, 0])),
        BlockStep::Failed(BlockError::ShortPiece)
    ));
    assert!(matches!(
        block_reply(3, 0, Message::new(MessageId::Piece, vec![0, 0, 0, 2, 0, 0, 0, 0])),
        BlockStep::Failed(BlockError::WrongPiece)
    ));
    assert!(matches!(
        block_reply(2, 1, Message::new(MessageId::Piece, vec![0, 0, 0, 2, 0, 0, 0, 0])),
        BlockStep::Failed(BlockError::WrongOffset)
    ));
}

#[test]
fn message_frames_round_trip() {
    let bytes = Message::new(MessageId::Bitfield, vec![0xf0, 0x0f]).into_bytes();
    assert_eq!(bytes, vec![0, 0, 0, 3, 5, 0xf0, 0x0f]);
    let (msg, n) = Message::from_bytes(&bytes).unwrap();
    assert_eq!(n, 7);
    assert_eq!(msg.id, MessageId::Bitfield);
    assert_eq!(msg.payload, vec![0xf0, 0x0f]);
}

#[test]
fn message_errors() {
    assert_eq!(Message::from_bytes(&[0, 0]).err(), Some(MessageError::UnexpectedEnd));
    assert_eq!(Message::from_bytes(&[0, 0, 0, 0]).err(), Some(MessageError::ZeroLength));
    assert_eq!(Message::from_bytes(&[0, 0, 0, 1, 42]).err(), Some(MessageError::InvalidId(42)));
    assert_eq!(Message::from_bytes(&[0, 0, 0, 3, 5, 1]).err(), Some(MessageError::UnexpectedEnd));
}

#[test]
fn message_ids_round_trip() {
    for b in 0u8..=20 {
        match MessageId::try_from(b) {
            Ok(id) => assert_eq!(id.as_byte(), b),
            Err(e) => assert_eq!(e, MessageError::InvalidId(b)),
        }
    }
    assert_eq!(MessageId::Extension.as_byte(), 20);
    assert!(MessageId::try_from(10).is_err());
}

#[test]
fn percent_decoding_undoes_url_encode() {
    let bytes = [0x00u8, 0x41, 0x7f, 0xe9, 0xff];
    let decoded = decode_url(&url_encode(&bytes)).unwrap();
    let expected: String = bytes.iter().map(|&b| b as char).collect();
    assert_eq!(decoded, expected);
}

#[test]
fn a_generated_peer_id_makes_a_68_byte_handshake() {
    let id = generate_peer_id();
    assert_eq!(id.as_bytes().len(), 20);
    assert_eq!(handshake_request(&[5u8; 20], &id).len(), 68);
}
