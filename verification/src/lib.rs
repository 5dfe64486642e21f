//! A small BitTorrent client library: bencoding, magnet links, torrent
//! metainfo, the peer wire protocol and the bookkeeping of a piece download.
pub mod bencoding;
pub mod text;
pub mod bittorent;
