use my_bittorrent::bittorent::magnet::Magnet;
use my_bittorrent::bittorent::torrent::Info;
use my_bittorrent::bittorent::{info_lines, magnet_lines, metadata_id_line, peer_id_line, progress_line};

#[test]
fn info_lines_describe_a_torrent() {
    let info = Info {
        length: 92063,
        name: String::from("sample.txt"),
        piece_length: 32768,
        pieces: vec![[0xe8; 20], [0x6f; 20]],
        hash: [0xd6; 20],
    };
    let lines = info_lines("http://t/announce", &info);
    assert_eq!(
        lines,
        vec![
            String::from("Tracker URL: http://t/announce"),
            String::from("Length: 92063"),
            format!("Info Hash: {}", "d6".repeat(20)),
            String::from("Piece Length: 32768"),
            String::from("Piece Hashes:"),
            "e8".repeat(20),
            "6f".repeat(20),
        ]
    );
}

#[test]
fn magnet_lines_describe_a_link() {
    let magnet = Magnet {
        file_name: String::from("f"),
        tracker_url: String::from("http://t"),
        info_hash: [0x0a; 20],
    };
    assert_eq!(
        magnet_lines(&magnet),
        vec![String::from("Tracker URL: http://t"), format!("Info Hash: {}", "0a".repeat(20))]
    );
}

#[test]
fn single_lines() {
    assert_eq!(peer_id_line(&[0x00, 0xff]), "Peer ID: 00ff");
    assert_eq!(metadata_id_line(16), "Peer Metadata Extension ID: 16");
    assert_eq!(progress_line(0, 3), "Downloaded 1/3 pieces");
}
