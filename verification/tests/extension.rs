use my_bittorrent::bittorent::encoding::{Bencoding, DecodeError, Dict};
use my_bittorrent::bittorent::peer::HandshakeError;
use my_bittorrent::bittorent::peer::extension::{
    extension_handshake_message, extension_handshake_reply, extension_handshake_request,
    metadata_request, read_extension_handshake, read_metadata, ExtensionError,
    ExtensionHandshakeMessage, ExtensionHandshakeMeta, ExtensionMessage, ExtensionMessageType,
    MetadataError,
};
use my_bittorrent::bittorent::peer_message::{Message, MessageId};
use my_bittorrent::bittorent::torrent::InfoError;

#[test]
fn extension_handshake_encoding() {
    let bytes = ExtensionHandshakeMessage::new(0, 1, None).encode();
    assert_eq!(bytes, b"\x00d1:md11:ut_metadatai1eee".to_vec());
    let bytes = ExtensionHandshakeMessage::new(3, 16, Some(2)).encode();
    assert_eq!(bytes, b"\x03d1:md11:ut_metadatai16e6:ut_pexi2eee".to_vec());
}

#[test]
fn extension_handshake_round_trip() {
    let bytes = ExtensionHandshakeMessage::new(7, 200, Some(9)).encode();
    let m = ExtensionHandshakeMessage::decode(bytes).unwrap();
    assert_eq!(m.id, 7);
    assert_eq!(m.m.ut_metadata, 200);
    assert_eq!(m.m.ut_pex, Some(9));
}

#[test]
fn extension_handshake_decode_errors() {
    assert!(matches!(ExtensionHandshakeMessage::decode(Vec::new()), Err(ExtensionError::Empty)));
    assert!(matches!(
        ExtensionHandshakeMessage::decode(b"\x00i1e".to_vec()),
        Err(ExtensionError::NotDictionary)
    ));
    assert!(matches!(
        ExtensionHandshakeMessage::decode(b"\x00de".to_vec()),
        Err(ExtensionError::MissingM)
    ));
    assert!(matches!(
        ExtensionHandshakeMessage::decode(b"\x00d1:mdee".to_vec()),
        Err(ExtensionError::MissingUtMetadata)
    ));
    assert!(matches!(
        ExtensionHandshakeMessage::decode(b"\x00x".to_vec()),
        Err(ExtensionError::Decode(DecodeError::InvalidLength))
    ));
}

#[test]
fn extension_handshake_keeps_only_the_low_byte() {
    let m = ExtensionHandshakeMessage::decode(b"\x00d1:md11:ut_metadatai258e6:ut_pexs3:abcee".to_vec());
    assert!(m.is_err());
    let m = ExtensionHandshakeMessage::decode(b"\x00d1:md11:ut_metadatai258e6:ut_pex3:abcee".to_vec())
        .unwrap();
    assert_eq!(m.m.ut_metadata, 2);
    assert_eq!(m.m.ut_pex, None);
}

#[test]
fn extension_message_encoding() {
    let bytes = ExtensionMessage::new(4, ExtensionMessageType::Data, 1, vec![0xaa]).encode();
    assert_eq!(bytes, b"\x04d8:msg_typei1e5:piecei1ee\xaa".to_vec());
}

#[test]
fn extension_message_decode_takes_the_last_bytes() {
    let bytes = b"\x05d8:msg_typei1e5:piecei0e10:total_sizei3ee\x01\x02\x03".to_vec();
    assert!(ExtensionMessage::payload_fits(&bytes));
    let m = ExtensionMessage::decode(bytes).unwrap();
    assert_eq!(m.id, 5);
    assert_eq!(m.msg_type, ExtensionMessageType::Data);
    assert_eq!(m.piece, 0);
    assert_eq!(m.payload, vec![1, 2, 3]);
}

#[test]
fn extension_message_decode_errors() {
    assert!(matches!(
        ExtensionMessage::decode(b"\x05d5:piecei0ee".to_vec()),
        Err(ExtensionError::MissingMsgType)
    ));
    assert!(matches!(
        ExtensionMessage::decode(b"\x05d8:msg_typei7e5:piecei0ee".to_vec()),
        Err(ExtensionError::InvalidMsgType)
    ));
    assert!(matches!(
        ExtensionMessage::decode(b"\x05d8:msg_typei2ee".to_vec()),
        Err(ExtensionError::MissingPiece)
    ));
    assert!(matches!(
        ExtensionMessage::decode(b"\x05d8:msg_typei2e5:piecei0ee".to_vec()),
        Err(ExtensionError::MissingTotalSize)
    ));
    let too_big = b"\x05d8:msg_typei1e5:piecei0e10:total_sizei99ee".to_vec();
    assert!(!ExtensionMessage::payload_fits(&too_big));
}

#[test]
fn extension_message_types() {
    assert_eq!(ExtensionMessageType::try_from(0), Ok(ExtensionMessageType::Request));
    assert_eq!(ExtensionMessageType::try_from(1), Ok(ExtensionMessageType::Data));
    assert_eq!(ExtensionMessageType::try_from(2), Ok(ExtensionMessageType::Reject));
    assert_eq!(ExtensionMessageType::try_from(3), Err(ExtensionError::InvalidMsgType));
    assert_eq!(ExtensionMessageType::Reject.as_byte(), 2);
}

#[test]
fn extension_handshake_request_sets_the_extension_bit() {
    let hash = [1u8; 20];
    let bytes = extension_handshake_request(&hash, "abcdefghij0123456789");
    assert_eq!(bytes.len(), 68);
    assert_eq!(&bytes[20..28], &[0, 0, 0, 0, 0, 0x10, 0, 0]);
    let mut buf = [0u8; 68];
    buf.copy_from_slice(&bytes);
    assert_eq!(
        extension_handshake_reply(&buf, &hash).unwrap(),
        b"abcdefghij0123456789".to_vec()
    );
    buf[25] = 0;
    assert_eq!(extension_handshake_reply(&buf, &hash).err(), Some(HandshakeError::NoExtension));
}

#[test]
fn extension_handshake_message_is_framed() {
    let bytes = extension_handshake_message();
    let payload = b"\x00d1:md11:ut_metadatai1eee";
    assert_eq!(&bytes[4..], &[&[20u8][..], &payload[..]].concat()[..]);
    assert_eq!(bytes[3] as usize, payload.len() + 1);
}

#[test]
fn read_extension_handshake_checks_the_message_id() {
    let payload = ExtensionHandshakeMessage::new(0, 5, Some(6)).encode();
    let meta = read_extension_handshake(Message::new(MessageId::Extension, payload.clone()))
        .unwrap();
    assert_eq!(meta.ut_metadata, 5);
    assert_eq!(meta.ut_pex, Some(6));
    assert!(matches!(
        read_extension_handshake(Message::new(MessageId::Bitfield, payload)),
        Err(ExtensionError::UnexpectedMessage)
    ));
}

#[test]
fn metadata_request_bytes() {
    let meta = ExtensionHandshakeMeta { ut_metadata: 3, ut_pex: None };
    let bytes = metadata_request(&meta);
    let payload = b"\x03d8:msg_typei0e5:piecei0ee";
    assert_eq!(&bytes[4..], &[&[20u8][..], &payload[..]].concat()[..]);
}

fn info_bytes() -> Vec<u8> {
    Bencoding::Dictionary(Dict::from_entries(vec![
        (String::from("length"), Bencoding::Integer(10)),
        (String::from("name"), Bencoding::Raw(b"f".to_vec())),
        (String::from("piece length"), Bencoding::Integer(10)),
        (String::from("pieces"), Bencoding::Raw(vec![9u8; 20])),
    ]))
    .encode()
}

#[test]
fn read_metadata_gives_the_info() {
    let info = info_bytes();
    let mut payload = b"\x01d8:msg_typei1e5:piecei0e10:total_sizei".to_vec();
    payload.extend(info.len().to_string().into_bytes());
    payload.extend(b"ee");
    payload.extend(&info);
    let info = read_metadata(Message::new(MessageId::Extension, payload)).unwrap();
    assert_eq!(info.length, 10);
    assert_eq!(info.name, "f");
    assert_eq!(info.pieces, vec![[9u8; 20]]);
}

#[test]
fn read_metadata_errors() {
    let payload = b"\x01d8:msg_typei1e5:piecei0e10:total_sizei3eei1e".to_vec();
    assert!(matches!(
        read_metadata(Message::new(MessageId::Extension, payload)),
        Err(MetadataError::Info(InfoError::NotDictionary))
    ));
    let payload = b"\x01d8:msg_typei1e5:piecei0e10:total_sizei1eex".to_vec();
    assert!(matches!(
        read_metadata(Message::new(MessageId::Extension, payload)),
        Err(MetadataError::Decode(DecodeError::InvalidLength))
    ));
    assert!(matches!(
        read_metadata(Message::new(MessageId::Extension, Vec::new())),
        Err(MetadataError::Extension(ExtensionError::Empty))
    ));
}
