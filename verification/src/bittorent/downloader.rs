//! The bookkeeping of a download: how long each piece is, the blocks a
//! piece is asked for in, which blocks are still to be asked for, and the
//! piece assembled from them and checked against its hash.
use vstd::prelude::*;
use crate::bittorent::torrent::Info;
use crate::bittorent::{sha1_digest, sha1_hash};
use crate::text::{bytes_equal, push_bytes};
use vstd::arithmetic::div_mod::{lemma_fundamental_div_mod, lemma_mod_bound};

verus! {

/// The size of the blocks a piece is asked for in.
pub const BLOCK_SIZE: u32 = 16 * 1024;

/// The most peers a download connects to.
pub const MAX_CONNECTING_PEERS: usize = 24;

// ---------------------------------------------------------------------------
// Pieces and blocks
// ---------------------------------------------------------------------------

/// The length of the `i`-th chunk when `total` bytes are cut into chunks of
/// `size`: the full size, or what is left, or nothing.
pub open spec fn chunk_len(total: int, size: int, i: int) -> int {
    let rest = total - i * size;
    if rest <= 0 {
        0
    } else if rest < size {
        rest
    } else {
        size
    }
}

/// The lengths of the first `n` chunks, added up.
pub open spec fn chunks_total(total: int, size: int, n: nat) -> int
    decreases n,
{
    if n == 0 {
        0
    } else {
        chunks_total(total, size, (n - 1) as nat) + chunk_len(total, size, n - 1)
    }
}

/// How many chunks of `size` cover `total` bytes.
pub open spec fn chunk_count(total: int, size: int) -> int {
    if total % size == 0 {
        total / size
    } else {
        total / size + 1
    }
}

/// The number of blocks of a piece: enough to cover it.
pub open spec fn block_count(piece_length: int) -> int {
    chunk_count(piece_length, BLOCK_SIZE as int)
}

/// Enough chunks cover the bytes, and every chunk but past the count starts
/// inside them.
pub proof fn lemma_chunk_count(total: int, size: int, i: int)
    requires
        0 <= total,
        0 < size,
    ensures
        0 <= chunk_count(total, size),
        chunk_count(total, size) * size >= total,
        0 <= i < chunk_count(total, size) ==> i * size < total,
{
    lemma_fundamental_div_mod(total, size);
    lemma_mod_bound(total, size);
    let q = total / size;
    let r = total % size;
    assert(q >= 0) by (nonlinear_arith)
        requires
            total >= 0,
            size > 0,
            total == size * q + r,
            0 <= r < size,
    ;
    if r == 0 {
        assert(q * size == total) by (nonlinear_arith)
            requires
                total == size * q + r,
                r == 0,
        ;
        if 0 <= i < q {
            assert(i * size < total) by (nonlinear_arith)
                requires
                    0 <= i < q,
                    total == size * q,
                    size > 0,
            ;
        }
    } else {
        assert((q + 1) * size >= total) by (nonlinear_arith)
            requires
                total == size * q + r,
                r < size,
        ;
        if 0 <= i <= q {
            assert(i * size < total) by (nonlinear_arith)
                requires
                    0 <= i <= q,
                    total == size * q + r,
                    r > 0,
                    size > 0,
            ;
        }
    }
}

/// The first `n` chunks cover `n` full sizes, or all the bytes.
pub proof fn lemma_chunks_total(total: int, size: int, n: nat)
    requires
        0 <= total,
        0 <= size,
    ensures
        chunks_total(total, size, n) == if n * size < total {
            n * size
        } else {
            total
        },
    decreases n,
{
    if n > 0 {
        let m = (n - 1) as nat;
        lemma_chunks_total(total, size, m);
        assert(m * size + size == n * size) by (nonlinear_arith)
            requires
                m + 1 == n,
        ;
        assert(m * size >= 0) by (nonlinear_arith)
            requires
                size >= 0,
        ;
        assert(n - 1 == m as int);
        let c = chunk_len(total, size, m as int);
        assert(chunks_total(total, size, n) == chunks_total(total, size, m) + c);
        let ms = m * size;
        let ns = n * size;
        assert(ms + size == ns);
        assert(c == if total - ms <= 0 {
            0
        } else if total - ms < size {
            total - ms
        } else {
            size
        });
        if ms >= total {
            assert(chunks_total(total, size, m) == total);
            assert(c == 0);
        } else {
            assert(chunks_total(total, size, m) == ms);
        }
    } else {
        assert(n * size == 0) by (nonlinear_arith)
            requires
                n == 0,
        ;
    }
}

/// The pieces of a file add up to its length: once `n` pieces of the
/// nominal length reach the end, the sizes of the first `n` pieces sum to the
/// file's length.
pub proof fn law_pieces_cover_file(length: u64, piece_length: u64, n: nat)
    requires
        n * piece_length >= length,
    ensures
        chunks_total(length as int, piece_length as int, n) == length,
{
    lemma_chunks_total(length as int, piece_length as int, n);
}

/// The blocks of a piece tile it: none is empty, none is longer than a
/// block, each starts where the ones before it end, at a multiple of the
/// block size, and together they are the whole piece.
pub proof fn law_blocks_tile_piece(piece_length: u32)
    ensures
        chunks_total(piece_length as int, BLOCK_SIZE as int, block_count(piece_length as int) as nat)
            == piece_length,
        forall|i: int|
            0 <= i < block_count(piece_length as int) ==> 0 < #[trigger] chunk_len(
                piece_length as int,
                BLOCK_SIZE as int,
                i,
            ) <= BLOCK_SIZE && chunks_total(piece_length as int, BLOCK_SIZE as int, i as nat) == i
                * BLOCK_SIZE,
{
    let pl = piece_length as int;
    let bs = BLOCK_SIZE as int;
    let n = block_count(pl);
    lemma_chunk_count(pl, bs, 0);
    lemma_chunks_total(pl, bs, n as nat);
    assert forall|i: int| 0 <= i < n implies 0 < #[trigger] chunk_len(pl, bs, i) <= bs
        && chunks_total(pl, bs, i as nat) == i * bs by {
        lemma_chunk_count(pl, bs, i);
        lemma_chunks_total(pl, bs, i as nat);
    }
}

/// The size of a piece of a file of `length` bytes cut into pieces of
/// `piece_length`, cut to 32 bits.
pub fn piece_size(length: u64, piece_length: u64, piece_index: u32) -> (r: u32)
    requires
        piece_index * piece_length <= u64::MAX,
    ensures
        r == chunk_len(length as int, piece_length as int, piece_index as int) as u32,
{
    let start = piece_index as u64 * piece_length;
    let rest = if length >= start {
        length - start
    } else {
        0
    };
    let size = if rest < piece_length {
        rest
    } else {
        piece_length
    };
    #[verifier::truncate]
    let r = size as u32;
    r
}

/// The number of blocks of a piece.
pub fn number_of_blocks(piece_length: u32) -> (r: u32)
    ensures
        r == block_count(piece_length as int),
{
    let n = piece_length / BLOCK_SIZE;
    proof {
        let pl = piece_length as int;
        let bs = BLOCK_SIZE as int;
        lemma_fundamental_div_mod(pl, bs);
        lemma_mod_bound(pl, bs);
        assert(n * bs == pl - pl % bs) by (nonlinear_arith)
            requires
                pl == bs * (pl / bs) + pl % bs,
                n == pl / bs,
        ;
    }
    if n * BLOCK_SIZE < piece_length {
        n + 1
    } else {
        n
    }
}

/// Where block `idx` of a piece starts, and how long it is.
pub fn block_span(piece_length: u32, idx: u32) -> (r: (u32, u32))
    requires
        idx < block_count(piece_length as int),
    ensures
        r.0 == idx * BLOCK_SIZE,
        r.1 == chunk_len(piece_length as int, BLOCK_SIZE as int, idx as int),
{
    proof {
        lemma_chunk_count(piece_length as int, BLOCK_SIZE as int, idx as int);
    }
    let offset = idx * BLOCK_SIZE;
    let rest = piece_length - offset;
    let length = if rest < BLOCK_SIZE {
        rest
    } else {
        BLOCK_SIZE
    };
    (offset, length)
}

/// How many peers a download waits for: all of them, up to a limit.
pub fn connect_target(total_addrs: usize) -> (r: usize)
    ensures
        r == if total_addrs < MAX_CONNECTING_PEERS {
            total_addrs
        } else {
            MAX_CONNECTING_PEERS
        },
{
    if total_addrs < MAX_CONNECTING_PEERS {
        total_addrs
    } else {
        MAX_CONNECTING_PEERS
    }
}

// ---------------------------------------------------------------------------
// Downloading a piece
// ---------------------------------------------------------------------------

/// Why a piece is not downloaded.
#[derive(Debug, Clone, Copy, PartialEq, Eq)]
pub enum DownloadError {
    /// The torrent has no piece of that index.
    PieceOutOfRange,
    /// A peer's bitfield has no bit for the piece.
    MissingBitfieldEntry,
    /// The assembled piece does not have the piece's hash.
    ChecksumMismatch,
}

/// The blocks one after the other.
pub open spec fn joined(blocks: Seq<Seq<u8>>) -> Seq<u8>
    decreases blocks.len(),
{
    if blocks.len() == 0 {
        Seq::empty()
    } else {
        joined(blocks.drop_last()) + blocks.last()
    }
}

/// A piece assembled from blocks that each hold their span is the piece's
/// length, and each block stands at its offset in it.
pub proof fn law_assembled_piece(piece_length: u32, blocks: Seq<Seq<u8>>)
    requires
        blocks.len() == block_count(piece_length as int),
        forall|i: int|
            0 <= i < blocks.len() ==> (#[trigger] blocks[i]).len() == chunk_len(
                piece_length as int,
                BLOCK_SIZE as int,
                i,
            ),
    ensures
        joined(blocks).len() == piece_length,
        forall|i: int|
            0 <= i < blocks.len() ==> joined(blocks).subrange(
                i * BLOCK_SIZE,
                i * BLOCK_SIZE + blocks[i].len(),
            ) == #[trigger] blocks[i],
{
    law_blocks_tile_piece(piece_length);
    lemma_joined_offsets(piece_length as int, blocks);
}

/// Each block of a joined sequence stands after the ones before it.
proof fn lemma_joined_offsets(pl: int, blocks: Seq<Seq<u8>>)
    requires
        0 <= pl,
        blocks.len() <= block_count(pl),
        forall|i: int|
            0 <= i < blocks.len() ==> (#[trigger] blocks[i]).len() == chunk_len(
                pl,
                BLOCK_SIZE as int,
                i,
            ),
    ensures
        joined(blocks).len() == chunks_total(pl, BLOCK_SIZE as int, blocks.len()),
        forall|i: int|
            0 <= i < blocks.len() ==> joined(blocks).subrange(
                i * BLOCK_SIZE,
                i * BLOCK_SIZE + blocks[i].len(),
            ) == #[trigger] blocks[i],
    decreases blocks.len(),
{
    let bs = BLOCK_SIZE as int;
    if blocks.len() > 0 {
        let front = blocks.drop_last();
        let n = blocks.len();
        assert forall|i: int| 0 <= i < front.len() implies (#[trigger] front[i]).len() == chunk_len(
            pl,
            bs,
            i,
        ) by {
            assert(front[i] == blocks[i]);
        }
        lemma_joined_offsets(pl, front);
        let j = joined(blocks);
        let f = joined(front);
        lemma_chunks_total(pl, bs, (n - 1) as nat);
        lemma_chunk_count(pl, bs, n - 1);
        assert(f.len() == (n - 1) * bs);
        assert forall|i: int| 0 <= i < n implies j.subrange(i * bs, i * bs + blocks[i].len())
            == #[trigger] blocks[i] by {
            if i < n - 1 {
                lemma_chunk_count(pl, bs, i);
                lemma_chunks_total(pl, bs, i as nat);
                lemma_chunks_total(pl, bs, (i + 1) as nat);
                assert((i + 1) * bs <= (n - 1) * bs) by (nonlinear_arith)
                    requires
                        i + 1 <= n - 1,
                        bs >= 0,
                ;
                assert(i * bs + blocks[i].len() <= f.len());
                assert(front[i] == blocks[i]);
                assert(j.subrange(i * bs, i * bs + blocks[i].len()) =~= f.subrange(
                    i * bs,
                    i * bs + front[i].len(),
                ));
            } else {
                assert(j.subrange(i * bs, i * bs + blocks[i].len()) =~= blocks.last());
            }
        }
    }
}

/// The state of a piece's download: which blocks have been asked for, the
/// data received so far, and how many blocks arrived.
pub struct PieceDownload {
    piece_index: u32,
    piece_length: u32,
    states: Vec<bool>,
    blocks: Vec<Vec<u8>>,
    downloaded: u32,
}

impl PieceDownload {
    /// Which blocks have been asked for and not given back.
    pub closed spec fn requested(&self) -> Seq<bool> {
        self.states@
    }

    /// The data of each block, empty until it arrives.
    pub closed spec fn received(&self) -> Seq<Seq<u8>> {
        self.blocks@.map_values(|b: Vec<u8>| b@)
    }

    /// How many blocks arrived.
    pub closed spec fn arrived(&self) -> nat {
        self.downloaded as nat
    }

    pub closed spec fn index(&self) -> u32 {
        self.piece_index
    }

    pub closed spec fn length(&self) -> u32 {
        self.piece_length
    }

    /// One state and one block per block of the piece.
    pub closed spec fn wf(&self) -> bool {
        &&& self.states@.len() == block_count(self.piece_length as int)
        &&& self.blocks@.len() == block_count(self.piece_length as int)
    }

    /// A download of piece `piece_index`, `piece_length` bytes long, with
    /// nothing asked for yet.
    pub fn new(piece_index: u32, piece_length: u32) -> (d: Self)
        ensures
            d.wf(),
            d.requested().len() == block_count(piece_length as int),
            d.received().len() == block_count(piece_length as int),
            d.index() == piece_index,
            d.length() == piece_length,
            d.requested() == Seq::new(block_count(piece_length as int) as nat, |i: int| false),
            d.received() == Seq::new(
                block_count(piece_length as int) as nat,
                |i: int| Seq::<u8>::empty(),
            ),
            d.arrived() == 0,
    {
        let n = number_of_blocks(piece_length);
        let mut states: Vec<bool> = Vec::new();
        let mut blocks: Vec<Vec<u8>> = Vec::new();
        let mut i: u32 = 0;
        while i < n
            invariant
                i <= n,
                states@ == Seq::new(i as nat, |k: int| false),
                blocks@.len() == i,
                forall|k: int| 0 <= k < i ==> (#[trigger] blocks@[k])@ == Seq::<u8>::empty(),
            decreases n - i,
        {
            states.push(false);
            blocks.push(Vec::new());
            i = i + 1;
            assert(states@ =~= Seq::new(i as nat, |k: int| false));
        }
        assert(blocks@.map_values(|b: Vec<u8>| b@) =~= Seq::new(
            n as nat,
            |k: int| Seq::<u8>::empty(),
        ));
        PieceDownload { piece_index, piece_length, states, blocks, downloaded: 0 }
    }

    pub fn piece_index(&self) -> (r: u32)
        ensures
            r == self.index(),
    {
        self.piece_index
    }

    pub fn piece_length(&self) -> (r: u32)
        ensures
            r == self.length(),
    {
        self.piece_length
    }

    /// The number of blocks of the piece.
    pub fn block_total(&self) -> (r: u32)
        ensures
            r == block_count(self.length() as int),
    {
        number_of_blocks(self.piece_length)
    }

    /// How many blocks arrived.
    pub fn downloaded(&self) -> (r: u32)
        ensures
            r == self.arrived(),
    {
        self.downloaded
    }

    /// Whether as many blocks arrived as the piece has.
    pub fn is_complete(&self) -> (r: bool)
        ensures
            r == (self.arrived() == block_count(self.length() as int)),
    {
        self.downloaded == number_of_blocks(self.piece_length)
    }

    /// Hands out the first block not yet asked for, marking it asked for:
    /// its index, offset and length.
    pub fn next_block(&mut self) -> (r: Option<(u32, u32, u32)>)
        requires
            old(self).wf(),
        ensures
            final(self).wf(),
            final(self).requested().len() == block_count(final(self).length() as int),
            final(self).received().len() == block_count(final(self).length() as int),
            final(self).index() == old(self).index(),
            final(self).length() == old(self).length(),
            final(self).received() == old(self).received(),
            final(self).arrived() == old(self).arrived(),
            match r {
                Some((i, offset, length)) => {
                    &&& i < old(self).requested().len()
                    &&& i < block_count(old(self).length() as int)
                    &&& !old(self).requested()[i as int]
                    &&& forall|j: int| 0 <= j < i ==> old(self).requested()[j]
                    &&& final(self).requested() == old(self).requested().update(i as int, true)
                    &&& offset == i * BLOCK_SIZE
                    &&& length == chunk_len(old(self).length() as int, BLOCK_SIZE as int, i as int)
                },
                None => {
                    &&& forall|j: int| 0 <= j < old(self).requested().len() ==> old(self).requested()[j]
                    &&& final(self).requested() == old(self).requested()
                },
            },
    {
        let n = self.states.len();
        let mut i: usize = 0;
        while i < n
            invariant
                i <= n,
                n == self.states@.len(),
                old(self).wf(),
                self.states@ == old(self).states@,
                self.blocks@ == old(self).blocks@,
                self.piece_index == old(self).piece_index,
                self.piece_length == old(self).piece_length,
                self.downloaded == old(self).downloaded,
                forall|j: int| 0 <= j < i ==> self.states@[j],
            decreases n - i,
        {
            if !self.states[i] {
                self.states[i] = true;
                assert(i < block_count(self.piece_length as int));
                let (offset, length) = block_span(self.piece_length, i as u32);
                return Some((i as u32, offset, length));
            }
            i = i + 1;
        }
        None
    }

    /// Stores the data of block `idx`, which arrived.
    pub fn block_received(&mut self, idx: u32, data: Vec<u8>)
        requires
            old(self).wf(),
            idx < block_count(old(self).length() as int),
            old(self).arrived() < u32::MAX,
        ensures
            final(self).wf(),
            final(self).requested().len() == block_count(final(self).length() as int),
            final(self).received().len() == block_count(final(self).length() as int),
            final(self).index() == old(self).index(),
            final(self).length() == old(self).length(),
            final(self).requested() == old(self).requested(),
            final(self).received() == old(self).received().update(idx as int, data@),
            final(self).arrived() == old(self).arrived() + 1,
    {
        let ghost before = self.blocks@;
        self.blocks[idx as usize] = data;
        self.downloaded = self.downloaded + 1;
        assert(self.blocks@.map_values(|b: Vec<u8>| b@) =~= before.map_values(|b: Vec<u8>| b@).update(
            idx as int,
            data@,
        ));
    }

    /// Gives block `idx` back, to be asked for again.
    pub fn block_failed(&mut self, idx: u32)
        requires
            old(self).wf(),
            idx < block_count(old(self).length() as int),
        ensures
            final(self).wf(),
            final(self).requested().len() == block_count(final(self).length() as int),
            final(self).received().len() == block_count(final(self).length() as int),
            final(self).index() == old(self).index(),
            final(self).length() == old(self).length(),
            final(self).requested() == old(self).requested().update(idx as int, false),
            final(self).received() == old(self).received(),
            final(self).arrived() == old(self).arrived(),
    {
        self.states[idx as usize] = false;
    }

    /// The piece: its blocks one after the other, once its SHA-1 digest is
    /// the expected one.
    pub fn finish(self, hash: &[u8; 20]) -> (r: Result<Vec<u8>, DownloadError>)
        ensures
            match r {
                Ok(piece) => piece@ == joined(self.received()) && sha1_digest(piece@) == hash@,
                Err(e) => e == DownloadError::ChecksumMismatch && sha1_digest(
                    joined(self.received()),
                ) != hash@,
            },
    {
        let mut piece: Vec<u8> = Vec::new();
        let n = self.blocks.len();
        let ghost blocks = self.received();
        let mut i: usize = 0;
        while i < n
            invariant
                i <= n,
                n == self.blocks@.len(),
                blocks == self.blocks@.map_values(|b: Vec<u8>| b@),
                piece@ == joined(blocks.take(i as int)),
            decreases n - i,
        {
            push_bytes(&mut piece, self.blocks[i].as_slice());
            proof {
                let t = blocks.take(i + 1);
                assert(t.drop_last() =~= blocks.take(i as int));
                assert(t.last() == self.blocks@[i as int]@);
            }
            i = i + 1;
        }
        assert(blocks.take(i as int) =~= blocks);
        let checksum = sha1_hash(piece.as_slice());
        if bytes_equal(checksum.as_slice(), hash.as_slice()) {
            Ok(piece)
        } else {
            Err(DownloadError::ChecksumMismatch)
        }
    }
}

/// Whether a peer takes part in downloading a piece: it was not dropped,
/// and its bitfield says it has the piece.
pub fn peer_serves(dropped: bool, pieces: &[bool], piece_index: u32) -> (r: Result<bool, DownloadError>)
    ensures
        match r {
            Ok(b) => (dropped && !b) || (!dropped && piece_index < pieces@.len() && b
                == pieces@[piece_index as int]),
            Err(e) => !dropped && piece_index >= pieces@.len() && e
                == DownloadError::MissingBitfieldEntry,
        },
{
    if dropped {
        return Ok(false);
    }
    if piece_index as usize >= pieces.len() {
        return Err(DownloadError::MissingBitfieldEntry);
    }
    Ok(pieces[piece_index as usize])
}

/// The length of piece `piece_index` of a torrent and its hash, when the
/// torrent has that piece.
pub fn piece_plan(info: &Info, piece_index: u32) -> (r: Result<(u32, [u8; 20]), DownloadError>)
    requires
        piece_index < info.pieces@.len() ==> piece_index * info.piece_length <= u64::MAX,
    ensures
        match r {
            Ok((size, hash)) => {
                &&& piece_index < info.pieces@.len()
                &&& hash == info.pieces@[piece_index as int]
                &&& size == chunk_len(
                    info.length as int,
                    info.piece_length as int,
                    piece_index as int,
                ) as u32
            },
            Err(e) => piece_index >= info.pieces@.len() && e == DownloadError::PieceOutOfRange,
        },
{
    if piece_index as usize >= info.pieces.len() {
        return Err(DownloadError::PieceOutOfRange);
    }
    let hash = info.pieces[piece_index as usize];
    let size = piece_size(info.length, info.piece_length, piece_index);
    Ok((size, hash))
}

/// The peers that were not dropped, in their order.
pub open spec fn kept<T>(items: Seq<T>, dropped: Seq<bool>) -> Seq<T>
    decreases items.len(),
{
    if items.len() == 0 {
        Seq::empty()
    } else {
        let rest = kept(items.drop_last(), dropped.take(items.len() - 1));
        if dropped[items.len() - 1] {
            rest
        } else {
            rest.push(items.last())
        }
    }
}

/// Keeps the peers that were not dropped, in their order.
pub fn retain_live<T>(items: Vec<T>, dropped: &[bool]) -> (r: Vec<T>)
    requires
        dropped@.len() == items@.len(),
    ensures
        r@ == kept(items@, dropped@),
{
    let ghost all = items@;
    let mut items = items;
    let mut out: Vec<T> = Vec::new();
    let n = dropped.len();
    let mut i: usize = 0;
    while i < n
        invariant
            i <= n,
            n == dropped@.len(),
            all.len() == n,
            items@ == all.skip(i as int),
            out@ == kept(all.take(i as int), dropped@.take(i as int)),
        decreases n - i,
    {
        let item = items.remove(0);
        proof {
            let t = all.take(i + 1);
            assert(t.drop_last() =~= all.take(i as int));
            assert(dropped@.take(i + 1).take(i as int) =~= dropped@.take(i as int));
            assert(t.last() == all[i as int]);
            assert(items@ =~= all.skip(i + 1));
        }
        if !dropped[i] {
            out.push(item);
        }
        i = i + 1;
    }
    assert(all.take(n as int) =~= all);
    assert(dropped@.take(n as int) =~= dropped@);
    out
}

} // verus!
