# my_bittorrent

A small BitTorrent client: it reads `.torrent` files and magnet links, asks
trackers for peers, talks the peer wire protocol (with the extension protocol
for torrent metadata) and downloads pieces from several peers at once,
checking each against its SHA-1 hash.

The library under `src/` is verified with Verus: each public function states
in its contract what it returns, over mathematical models of bencoded values,
messages and download state, and laws such as "decoding an encoding gives the
value back" or "the blocks of a piece tile it" are proved as proof functions.

- `src/bencoding.rs`: the text decoder of the `decode` command.
- `src/bittorent/encoding.rs`: bencoding of byte strings, integers, lists and
  dictionaries (keys kept sorted), encoding, decoding and display.
- `src/bittorent/torrent.rs`, `metainfo.rs`: torrent files and their info.
- `src/bittorent/magnet.rs`: magnet links.
- `src/bittorent/peer.rs`, `peer/extension.rs`, `peer_message.rs`,
  `connection.rs`: tracker requests and answers, handshakes, peer messages,
  blocks, the extension handshake and metadata.
- `src/bittorent/downloader.rs`: piece and block sizes, the state of a piece
  download, and the assembled, hash-checked piece.
- `src/text.rs`: decimal text, byte and character helpers.

`app/` holds the program around the library: the command line, files, HTTP
and TCP, and the concurrent download.
