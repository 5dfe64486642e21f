use my_bittorrent::bittorent::connection::{
    peers_discovery_url, random_peer_id, ConnectionError, Handshake,
};
use my_bittorrent::bittorent::metainfo::MetaInfo;
use my_bittorrent::bittorent::torrent::Info;

#[test]
fn handshake_bytes_round_trip() {
    let h = Handshake::new([1u8; 20], [2u8; 20]);
    assert_eq!(h.protocol, "BitTorrent protocol");
    let bytes = h.into_bytes();
    assert_eq!(bytes.len(), 68);
    assert_eq!(bytes[0], 19);
    assert_eq!(&bytes[1..20], b"BitTorrent protocol");
    let (back, n) = Handshake::from_bytes(&bytes).unwrap();
    assert_eq!(n, 68);
    assert_eq!(back.protocol, "BitTorrent protocol");
    assert_eq!(back.reserved, [0u8; 8]);
    assert_eq!(back.info_hash, [1u8; 20]);
    assert_eq!(back.peer_id, [2u8; 20]);
}

#[test]
fn handshake_errors() {
    assert_eq!(Handshake::from_bytes(&[]).err(), Some(ConnectionError::UnexpectedEnd));
    assert_eq!(Handshake::from_bytes(&[3, b'a', b'b']).err(), Some(ConnectionError::UnexpectedEnd));
    let mut bytes = vec![1u8, 0xff];
    bytes.extend([0u8; 48]);
    assert_eq!(Handshake::from_bytes(&bytes).err(), Some(ConnectionError::InvalidProtocol));
}

#[test]
fn handshake_length_byte_is_cut() {
    let h = Handshake {
        protocol: "x".repeat(300),
        reserved: [0; 8],
        info_hash: [0; 20],
        peer_id: [0; 20],
    };
    let bytes = h.into_bytes();
    assert_eq!(bytes[0], 44);
    assert_eq!(bytes.len(), 1 + 300 + 48);
}

#[test]
fn peers_discovery_url_asks_for_everything_left() {
    let meta = MetaInfo {
        announce: String::from("http://t/a"),
        info: Info {
            length: 777,
            name: String::from("n"),
            piece_length: 1,
            pieces: Vec::new(),
            hash: [0xab; 20],
        },
    };
    let url = peers_discovery_url(&meta, "PEERPEERPEERPEERPEER");
    let hash = "%ab".repeat(20);
    assert_eq!(
        url,
        format!(
            "http://t/a?info_hash={hash}&peer_id=PEERPEERPEERPEERPEER&port=6881&uploaded=0&downloaded=0&left=777&compact=1"
        )
    );
}

#[test]
fn random_peer_ids_are_twenty_letters_or_digits() {
    let id = random_peer_id();
    assert_eq!(id.len(), 20);
    assert!(id.chars().all(|c| c.is_ascii_alphanumeric()));
}
