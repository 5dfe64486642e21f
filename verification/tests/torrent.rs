use my_bittorrent::bittorent::encoding::{Bencoding, DecodeError, Dict};
use my_bittorrent::bittorent::metainfo::{MetaInfo, MetaInfoError};
use my_bittorrent::bittorent::torrent::{split_pieces, Info, InfoError, Torrent, TorrentError};
use sha1::Digest;

fn info_value(pieces: Vec<u8>) -> Bencoding {
    Bencoding::Dictionary(Dict::from_entries(vec![
        (String::from("length"), Bencoding::Integer(92063)),
        (String::from("name"), Bencoding::Raw(b"sample.txt".to_vec())),
        (String::from("piece length"), Bencoding::Integer(32768)),
        (String::from("pieces"), Bencoding::Raw(pieces)),
    ]))
}

fn pieces() -> Vec<u8> {
    (0u8..60).collect()
}

fn torrent_bytes() -> Vec<u8> {
    Bencoding::Dictionary(Dict::from_entries(vec![
        (
            String::from("announce"),
            Bencoding::Raw(b"http://tracker.example/announce".to_vec()),
        ),
        (String::from("info"), info_value(pieces())),
    ]))
    .encode()
}

#[test]
fn torrent_from_bytes_reads_every_field() {
    let torrent = Torrent::from_bytes(torrent_bytes()).unwrap();
    assert_eq!(torrent.announce, "http://tracker.example/announce");
    assert_eq!(torrent.info.length, 92063);
    assert_eq!(torrent.info.name, "sample.txt");
    assert_eq!(torrent.info.piece_length, 32768);
    assert_eq!(torrent.info.pieces.len(), 3);
    assert_eq!(torrent.info.pieces[1].to_vec(), (20u8..40).collect::<Vec<u8>>());
    let expected: [u8; 20] = sha1::Sha1::digest(info_value(pieces()).encode()).into();
    assert_eq!(torrent.info.hash, expected);
}

#[test]
fn metainfo_reads_the_same_torrent() {
    let meta = MetaInfo::from_bytes(torrent_bytes()).unwrap();
    let torrent = Torrent::from_bytes(torrent_bytes()).unwrap();
    assert_eq!(meta.announce, torrent.announce);
    assert_eq!(meta.info.hash, torrent.info.hash);
    assert_eq!(meta.info.pieces, torrent.info.pieces);
    assert_eq!(meta.info.length, torrent.info.length);
}

#[test]
fn info_decode_hashes_the_bencoding() {
    let value = info_value(pieces());
    let bytes = value.encode();
    let info = Info::decode(value).unwrap();
    let expected: [u8; 20] = sha1::Sha1::digest(&bytes).into();
    assert_eq!(info.hash, expected);
    assert_ne!(info.hash.to_vec(), bytes[..20].to_vec());
}

#[test]
fn info_errors() {
    assert_eq!(Info::decode(Bencoding::Integer(1)).err(), Some(InfoError::NotDictionary));
    assert_eq!(
        Info::decode(Bencoding::Dictionary(Dict::new())).err(),
        Some(InfoError::MissingLength)
    );
    assert_eq!(Info::decode(info_value(vec![1, 2, 3])).err(), Some(InfoError::InvalidPieces));
    let bad_name = Bencoding::Dictionary(Dict::from_entries(vec![
        (String::from("length"), Bencoding::Integer(1)),
        (String::from("name"), Bencoding::Raw(vec![0xff])),
        (String::from("piece length"), Bencoding::Integer(1)),
        (String::from("pieces"), Bencoding::Raw(Vec::new())),
    ]));
    assert_eq!(Info::decode(bad_name).err(), Some(InfoError::InvalidName));
}

#[test]
fn torrent_errors() {
    assert_eq!(
        Torrent::from_bytes(b"i1e".to_vec()).err(),
        Some(TorrentError::NotDictionary)
    );
    assert_eq!(
        Torrent::from_bytes(Vec::new()).err(),
        Some(TorrentError::Decode(DecodeError::UnexpectedEnd))
    );
    assert_eq!(
        Torrent::from_bytes(b"de".to_vec()).err(),
        Some(TorrentError::MissingAnnounce)
    );
    assert_eq!(
        Torrent::from_bytes(b"d8:announce1:xe".to_vec()).err(),
        Some(TorrentError::MissingInfo)
    );
    assert_eq!(
        MetaInfo::from_bytes(b"d8:announce1:xe".to_vec()).err(),
        Some(MetaInfoError::MissingInfo)
    );
    assert_eq!(
        MetaInfo::from_bytes(b"d8:announce1:\xff4:infodee".to_vec()).err(),
        Some(MetaInfoError::InvalidAnnounce)
    );
}

#[test]
fn split_pieces_cuts_twenty_byte_hashes() {
    let hashes = split_pieces(&pieces()).unwrap();
    assert_eq!(hashes.len(), 3);
    assert_eq!(hashes[2][19], 59);
    assert!(split_pieces(&[0u8; 21]).is_none());
    assert_eq!(split_pieces(&[]).unwrap().len(), 0);
}

#[test]
fn info_missing_fields() {
    let d = |entries: Vec<(&str, Bencoding)>| {
        Bencoding::Dictionary(Dict::from_entries(
            entries.into_iter().map(|(k, v)| (String::from(k), v)).collect(),
        ))
    };
    assert_eq!(
        Info::decode(d(vec![("length", Bencoding::Integer(1))])).err(),
        Some(InfoError::MissingPieceLength)
    );
    assert_eq!(
        Info::decode(d(vec![
            ("length", Bencoding::Integer(1)),
            ("piece length", Bencoding::Integer(1)),
        ]))
        .err(),
        Some(InfoError::MissingName)
    );
    assert_eq!(
        Info::decode(d(vec![
            ("length", Bencoding::Integer(1)),
            ("piece length", Bencoding::Integer(1)),
            ("name", Bencoding::Raw(b"n".to_vec())),
        ]))
        .err(),
        Some(InfoError::MissingPieces)
    );
}

#[test]
fn torrent_info_and_announce_errors() {
    assert_eq!(
        Torrent::from_bytes(b"d8:announce1:x4:infoi1ee".to_vec()).err(),
        Some(TorrentError::Info(InfoError::NotDictionary))
    );
    let bad_announce = Bencoding::Dictionary(Dict::from_entries(vec![
        (String::from("announce"), Bencoding::Raw(vec![0xff])),
        (String::from("info"), info_value(pieces())),
    ]))
    .encode();
    assert_eq!(
        Torrent::from_bytes(bad_announce.clone()).err(),
        Some(TorrentError::InvalidAnnounce)
    );
    assert_eq!(
        MetaInfo::from_bytes(bad_announce).err(),
        Some(MetaInfoError::InvalidAnnounce)
    );
    assert_eq!(
        MetaInfo::from_bytes(b"d8:announce1:x4:infoi1ee".to_vec()).err(),
        Some(MetaInfoError::Info(InfoError::NotDictionary))
    );
    assert_eq!(MetaInfo::from_bytes(b"le".to_vec()).err(), Some(MetaInfoError::NotDictionary));
    assert_eq!(MetaInfo::from_bytes(b"de".to_vec()).err(), Some(MetaInfoError::MissingAnnounce));
    assert_eq!(
        MetaInfo::from_bytes(b"x".to_vec()).err(),
        Some(MetaInfoError::Decode(DecodeError::InvalidLength))
    );
}
