//! The state of a download, and what each operation does to it.
use vstd::prelude::*;

use crate::bitfield;
use crate::bytes;
use crate::digest;
use crate::peer::BLOCK_SIZE;
use crate::piece::BlockRequest;

verus! {

/// The blocks of a piece that is not complete.
#[verifier::ext_equal]
pub struct Blocks {
    /// The blocks that were asked for, by where they begin, and whom they were
    /// asked of.
    pub pending: Map<u32, u32>,
    /// Where the blocks begin that the piece is busy with.
    pub active: Set<u32>,
    /// Where the blocks begin that came in.
    pub received: Set<u32>,
    /// What came in.
    pub buffer: Seq<u8>,
}

/// The state of a download.
#[verifier::ext_equal]
pub struct Download {
    pub total_pieces: u32,
    pub piece_length: u64,
    pub last_piece_length: u64,
    pub total_length: u64,
    pub downloaded: u64,
    pub uploaded: u64,
    /// Which pieces are complete.
    pub have: Seq<bool>,
    /// The digests of the pieces.
    pub hashes: Seq<Seq<u8>>,
    pub blocks: Seq<Blocks>,
}

/// Nothing asked for, nothing received.
pub open spec fn no_blocks() -> Blocks {
    Blocks {
        pending: Map::empty(),
        active: Set::empty(),
        received: Set::empty(),
        buffer: Seq::empty(),
    }
}

/// There is a record for each piece.
pub open spec fn valid(d: Download) -> bool {
    &&& d.have.len() == d.total_pieces
    &&& d.blocks.len() == d.total_pieces
    &&& d.hashes.len() >= d.total_pieces
}

/// Whether `n` is a multiple of `unit`; of nothing only nothing is.
pub open spec fn multiple(n: u64, unit: u64) -> bool {
    if unit == 0 {
        n == 0
    } else {
        n % unit == 0
    }
}

/// A download of which nothing is there yet: as many pieces as the low 32 bits
/// of the number of digests say.
pub open spec fn fresh(piece_length: u64, total_length: u64, hashes: Seq<Seq<u8>>) -> Download {
    let total = bytes::low32(hashes.len() as int) as u32;
    Download {
        total_pieces: total,
        piece_length,
        last_piece_length: if total == 0 {
            0
        } else if multiple(total_length, piece_length) {
            piece_length
        } else {
            (total_length % piece_length) as u64
        },
        total_length,
        downloaded: 0,
        uploaded: 0,
        have: Seq::new(total as nat, |i: int| false),
        hashes,
        blocks: Seq::new(total as nat, |i: int| no_blocks()),
    }
}

/// The length of the piece numbered `i`: the last one is shorter where the
/// pieces do not fill the content evenly.
pub open spec fn piece_len(d: Download, i: int) -> u64 {
    if i == d.total_pieces - 1 && !multiple(d.total_length, d.piece_length) {
        d.last_piece_length
    } else {
        d.piece_length
    }
}

/// The number of blocks of a piece of `len` bytes: all are full but for the
/// last one.
pub open spec fn block_count(len: int) -> int {
    (len + BLOCK_SIZE - 1) / (BLOCK_SIZE as int)
}

/// Where the block numbered `b` begins.
pub open spec fn block_begin(b: int) -> u32 {
    (b * BLOCK_SIZE) as u32
}

/// The length of the block numbered `b` of a piece of `len` bytes.
pub open spec fn block_len(len: int, b: int) -> int {
    if len - b * BLOCK_SIZE < BLOCK_SIZE {
        len - b * BLOCK_SIZE
    } else {
        BLOCK_SIZE as int
    }
}

/// Whether the piece numbered `i` is complete. A piece that does not exist
/// counts as complete.
pub open spec fn holds(d: Download, i: int) -> bool {
    i < d.have.len() ==> d.have[i]
}

/// Whether every piece is complete.
pub open spec fn complete(d: Download) -> bool {
    forall|i: int| 0 <= i < d.have.len() ==> #[trigger] d.have[i]
}

/// Whether a peer with the pieces `bits` has one that is not complete here.
pub open spec fn needs(d: Download, bits: Seq<u8>) -> bool {
    exists|i: u32|
        i < d.total_pieces && !holds(d, i as int) && #[trigger] bitfield::has_bit(bits, i)
}

/// The number of pieces that are complete.
pub open spec fn count_held(have: Seq<bool>) -> nat
    decreases have.len(),
{
    if have.len() == 0 {
        0
    } else {
        count_held(have.drop_last()) + if have.last() {
            1nat
        } else {
            0
        }
    }
}

/// Whether a block of the piece numbered `i` may be asked for, of a peer with
/// the pieces `bits`.
pub open spec fn eligible(d: Download, bits: Seq<u8>, i: int) -> bool {
    &&& 0 <= i < d.total_pieces
    &&& !holds(d, i)
    &&& bitfield::has_bit(bits, i as u32)
    &&& d.blocks[i].active.len() < block_count(piece_len(d, i) as int)
}

/// Whether the piece numbered `i` comes before that numbered `j`: fewer of its
/// blocks are asked for, or as many and it is the earlier one.
pub open spec fn comes_before(d: Download, i: int, j: int) -> bool {
    ||| d.blocks[i].active.len() < d.blocks[j].active.len()
    ||| d.blocks[i].active.len() == d.blocks[j].active.len() && i <= j
}

/// Whether the piece numbered `i` is the one to ask a peer for.
pub open spec fn chosen(d: Download, bits: Seq<u8>, i: int) -> bool {
    &&& eligible(d, bits, i)
    &&& forall|j: int| #[trigger] eligible(d, bits, j) ==> comes_before(d, i, j)
}

/// Whether the block numbered `b` was neither asked for nor received.
pub open spec fn open_block(d: Download, i: int, b: int) -> bool {
    &&& 0 <= b < block_count(piece_len(d, i) as int)
    &&& !d.blocks[i].pending.contains_key(block_begin(b))
    &&& !d.blocks[i].received.contains(block_begin(b))
}

/// Whether the block numbered `b` is the first that was neither asked for nor
/// received.
pub open spec fn first_open(d: Download, i: int, b: int) -> bool {
    &&& open_block(d, i, b)
    &&& forall|c: int| 0 <= c < b ==> !#[trigger] open_block(d, i, c)
}

/// The request for a block.
pub open spec fn block_request(d: Download, i: int, b: int) -> BlockRequest {
    BlockRequest {
        piece_index: i as u32,
        begin: block_begin(b),
        length: block_len(piece_len(d, i) as int, b) as u32,
    }
}

/// A download whose blocks of the piece numbered `i` are other ones.
pub open spec fn with_blocks(d: Download, i: int, blocks: Blocks) -> Download {
    Download { blocks: d.blocks.update(i, blocks), ..d }
}

/// After a block is asked for.
pub open spec fn requested(d: Download, r: BlockRequest, peer: u32) -> Download {
    let b = d.blocks[r.piece_index as int];
    with_blocks(
        d,
        r.piece_index as int,
        Blocks {
            pending: b.pending.insert(r.begin, peer),
            active: b.active.insert(r.begin),
            ..b
        },
    )
}

/// What a peer is asked for next, and what that does to the download.
pub open spec fn next_is(
    d: Download,
    bits: Seq<u8>,
    peer: u32,
    next: Option<BlockRequest>,
    after: Download,
) -> bool {
    match next {
        Some(r) => {
            let i = r.piece_index as int;
            let b = (r.begin / BLOCK_SIZE) as int;
            &&& chosen(d, bits, i)
            &&& first_open(d, i, b)
            &&& r == block_request(d, i, b)
            &&& after == requested(d, r, peer)
        },
        None => {
            &&& forall|i: int, b: int|
                #![trigger open_block(d, i, b), chosen(d, bits, i)]
                chosen(d, bits, i) ==> !open_block(d, i, b)
            &&& after == d
        },
    }
}

/// A buffer into which data was put, grown with zeros where that is needed.
pub open spec fn placed(buffer: Seq<u8>, begin: int, data: Seq<u8>) -> Seq<u8> {
    let end = begin + data.len();
    Seq::new(
        if buffer.len() < end {
            end as nat
        } else {
            buffer.len()
        },
        |k: int|
            if begin <= k < end {
                data[k - begin]
            } else if k < buffer.len() {
                buffer[k]
            } else {
                0u8
            },
    )
}

/// After a block came in, and the piece where that was its last block. Blocks of
/// a piece that is complete are dropped.
pub open spec fn received(d: Download, i: int, begin: u32, data: Seq<u8>) -> (
    Download,
    Option<Seq<u8>>,
) {
    if d.have[i] {
        (d, None)
    } else {
        let b = d.blocks[i];
        let buffer = placed(b.buffer, begin as int, data);
        let got = b.received.insert(begin);
        let full = got.len() >= block_count(piece_len(d, i) as int);
        (
            with_blocks(
                d,
                i,
                Blocks {
                    pending: b.pending.remove(begin),
                    active: b.active.remove(begin),
                    received: got,
                    buffer: if full {
                        Seq::empty()
                    } else {
                        buffer
                    },
                },
            ),
            if full {
                Some(buffer)
            } else {
                None
            },
        )
    }
}

/// Whether data has the digest of the piece numbered `i`.
pub open spec fn verified(d: Download, i: int, data: Seq<u8>) -> bool {
    digest::sha1(data) == d.hashes[i]
}

/// After the piece numbered `i` is complete.
pub open spec fn completed(d: Download, i: int, length: u64) -> Download {
    let b = d.blocks[i];
    Download {
        have: d.have.update(i, true),
        downloaded: (d.downloaded + length) as u64,
        blocks: d.blocks.update(
            i,
            Blocks { active: Set::empty(), received: Set::empty(), ..b },
        ),
        ..d
    }
}

/// After what came in of the piece numbered `i` is dropped.
pub open spec fn discarded(d: Download, i: int) -> Download {
    if i < d.blocks.len() {
        with_blocks(d, i, no_blocks())
    } else {
        d
    }
}

/// Where the blocks begin that a peer was asked for and that are still pending.
pub open spec fn asked_of(b: Blocks, peer: u32) -> Set<u32> {
    Set::new(|begin: u32| b.pending.contains_key(begin) && b.pending[begin] == peer)
}

/// The blocks of a piece after what a peer was asked for is no longer pending.
pub open spec fn released(b: Blocks, peer: u32) -> Blocks {
    Blocks {
        pending: b.pending.remove_keys(asked_of(b, peer)),
        active: b.active.difference(asked_of(b, peer)),
        ..b
    }
}

/// After all that a peer was asked for is no longer pending.
pub open spec fn cancelled(d: Download, peer: u32) -> Download {
    Download { blocks: Seq::new(d.blocks.len(), |i: int| released(d.blocks[i], peer)), ..d }
}

/// Whether what was read completes the piece numbered `i`.
pub open spec fn restorable(d: Download, i: int, data: Option<Seq<u8>>) -> bool {
    &&& !d.have[i]
    &&& data matches Some(bytes)
    &&& bytes.len() == piece_len(d, i)
    &&& verified(d, i, bytes)
}

/// After what was read of the piece numbered `i` is looked at.
pub open spec fn restored(d: Download, i: int, data: Option<Seq<u8>>) -> Download {
    if restorable(d, i, data) {
        Download {
            have: d.have.update(i, true),
            downloaded: (d.downloaded + piece_len(d, i)) as u64,
            ..d
        }
    } else {
        d
    }
}

/// The number of pieces that what was read completes.
pub open spec fn restored_count(d: Download, reads: Seq<Option<Seq<u8>>>) -> int
    decreases reads.len(),
{
    if reads.len() == 0 {
        0
    } else {
        restored_count(d, reads.drop_last()) + if restorable(d, reads.len() - 1, reads.last()) {
            1int
        } else {
            0
        }
    }
}

/// The length of the pieces that what was read completes.
pub open spec fn restored_length(d: Download, reads: Seq<Option<Seq<u8>>>) -> int
    decreases reads.len(),
{
    if reads.len() == 0 {
        0
    } else {
        restored_length(d, reads.drop_last()) + if restorable(d, reads.len() - 1, reads.last()) {
            piece_len(d, reads.len() - 1) as int
        } else {
            0
        }
    }
}

/// After what was read of the first pieces is looked at.
pub open spec fn resumed(d: Download, reads: Seq<Option<Seq<u8>>>) -> Download {
    Download {
        have: Seq::new(
            d.have.len(),
            |i: int| d.have[i] || i < reads.len() && restorable(d, i, reads[i]),
        ),
        downloaded: (d.downloaded + restored_length(d, reads)) as u64,
        ..d
    }
}

} // verus!
