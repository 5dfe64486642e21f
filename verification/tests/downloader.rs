use my_bittorrent::bittorent::downloader::{
    block_span, connect_target, number_of_blocks, peer_serves, piece_plan, piece_size,
    retain_live, DownloadError, PieceDownload, BLOCK_SIZE, MAX_CONNECTING_PEERS,
};
use my_bittorrent::bittorent::torrent::Info;
use sha1::Digest;

#[test]
fn piece_sizes_cover_the_file() {
    assert_eq!(piece_size(92063, 32768, 0), 32768);
    assert_eq!(piece_size(92063, 32768, 1), 32768);
    assert_eq!(piece_size(92063, 32768, 2), 26527);
    assert_eq!(piece_size(92063, 32768, 3), 0);
    let total: u64 = (0..3).map(|i| piece_size(92063, 32768, i) as u64).sum();
    assert_eq!(total, 92063);
}

#[test]
fn piece_size_is_cut_to_32_bits() {
    assert_eq!(piece_size(1 << 40, 1 << 33, 0), 0);
    assert_eq!(piece_size((1 << 32) + 5, (1 << 32) + 5, 0), 5);
}

#[test]
fn blocks_tile_a_piece() {
    assert_eq!(BLOCK_SIZE, 16384);
    assert_eq!(number_of_blocks(0), 0);
    assert_eq!(number_of_blocks(16384), 1);
    assert_eq!(number_of_blocks(16385), 2);
    assert_eq!(number_of_blocks(26527), 2);
    assert_eq!(block_span(26527, 0), (0, 16384));
    assert_eq!(block_span(26527, 1), (16384, 10143));
    let piece = 100_000u32;
    let mut next = 0;
    for i in 0..number_of_blocks(piece) {
        let (offset, length) = block_span(piece, i);
        assert_eq!(offset, next);
        assert!(length > 0 && length <= BLOCK_SIZE);
        next = offset + length;
    }
    assert_eq!(next, piece);
}

#[test]
fn connect_target_is_capped() {
    assert_eq!(MAX_CONNECTING_PEERS, 24);
    assert_eq!(connect_target(3), 3);
    assert_eq!(connect_target(24), 24);
    assert_eq!(connect_target(100), 24);
}

#[test]
fn piece_download_hands_out_each_block_once() {
    let mut d = PieceDownload::new(4, 40000);
    assert_eq!(d.block_total(), 3);
    assert_eq!(d.next_block(), Some((0, 0, 16384)));
    assert_eq!(d.next_block(), Some((1, 16384, 16384)));
    d.block_failed(0);
    assert_eq!(d.next_block(), Some((0, 0, 16384)));
    assert_eq!(d.next_block(), Some((2, 32768, 7232)));
    assert_eq!(d.next_block(), None);
    assert!(!d.is_complete());
}

fn filled(len: usize, byte: u8) -> Vec<u8> {
    vec![byte; len]
}

#[test]
fn piece_download_assembles_and_checks_the_piece() {
    let mut d = PieceDownload::new(0, 20000);
    let (i0, _, l0) = d.next_block().unwrap();
    let (i1, _, l1) = d.next_block().unwrap();
    d.block_received(i1, filled(l1 as usize, 2));
    assert!(!d.is_complete());
    d.block_received(i0, filled(l0 as usize, 1));
    assert!(d.is_complete());
    assert_eq!(d.downloaded(), 2);
    let mut expected = filled(16384, 1);
    expected.extend(filled(3616, 2));
    let hash: [u8; 20] = sha1::Sha1::digest(&expected).into();
    let piece = d.finish(&hash).unwrap();
    assert_eq!(piece, expected);
}

#[test]
fn piece_download_refuses_a_wrong_checksum() {
    let mut d = PieceDownload::new(0, 3);
    let (i, _, _) = d.next_block().unwrap();
    d.block_received(i, vec![1, 2, 3]);
    assert_eq!(d.finish(&[0u8; 20]), Err(DownloadError::ChecksumMismatch));
}

#[test]
fn peer_serves_needs_a_live_peer_with_the_piece() {
    assert_eq!(peer_serves(false, &[true, false], 0), Ok(true));
    assert_eq!(peer_serves(false, &[true, false], 1), Ok(false));
    assert_eq!(peer_serves(true, &[true], 0), Ok(false));
    assert_eq!(peer_serves(true, &[], 5), Ok(false));
    assert_eq!(peer_serves(false, &[true], 5), Err(DownloadError::MissingBitfieldEntry));
}

#[test]
fn piece_plan_finds_length_and_hash() {
    let info = Info {
        length: 50,
        name: String::from("x"),
        piece_length: 20,
        pieces: vec![[1u8; 20], [2u8; 20], [3u8; 20]],
        hash: [0u8; 20],
    };
    assert_eq!(piece_plan(&info, 2), Ok((10, [3u8; 20])));
    assert_eq!(piece_plan(&info, 0), Ok((20, [1u8; 20])));
    assert_eq!(piece_plan(&info, 3), Err(DownloadError::PieceOutOfRange));
}

#[test]
fn retain_live_keeps_order() {
    let kept = retain_live(vec!["a", "b", "c", "d"], &[false, true, false, true]);
    assert_eq!(kept, vec!["a", "c"]);
    let none: Vec<u8> = retain_live(Vec::new(), &[]);
    assert!(none.is_empty());
}

#[test]
fn piece_plan_refuses_out_of_range_before_any_product() {
    let info = Info {
        length: 1,
        name: String::from("x"),
        piece_length: u64::MAX,
        pieces: vec![[1u8; 20]],
        hash: [0u8; 20],
    };
    assert_eq!(piece_plan(&info, 7), Err(DownloadError::PieceOutOfRange));
}
