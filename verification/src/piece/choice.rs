//! What each operation on a download does, and what it leaves alone.
use vstd::prelude::*;

use crate::bitfield;
use crate::digest;
use crate::piece::model;
use crate::piece::model::Download;
use crate::piece::BlockRequest;

verus! {

/// How many blocks of the piece numbered `i` wait for their answers.
pub open spec fn busy(d: Download, i: int) -> nat {
    d.blocks[i].active.len()
}

/// Whether a peer has the piece numbered `i`, it is not complete here, and not all
/// of its blocks wait for their answers.
pub open spec fn wanted(d: Download, bits: Seq<u8>, i: int) -> bool {
    &&& 0 <= i < d.have.len()
    &&& !d.have[i]
    &&& bitfield::has_bit(bits, i as u32)
    &&& busy(d, i) * 16384 < model::piece_len(d, i)
}

/// A block is asked for of the piece with the fewest requests that wait, among all
/// that the peer has and that are not complete; of the earliest one of these.
pub proof fn law_least_busy_first(
    d: Download,
    bits: Seq<u8>,
    peer: u32,
    r: BlockRequest,
    after: Download,
    j: int,
)
    requires
        model::valid(d),
        model::next_is(d, bits, peer, Some(r), after),
        wanted(d, bits, j),
    ensures
        wanted(d, bits, r.piece_index as int),
        busy(d, r.piece_index as int) <= busy(d, j),
        busy(d, r.piece_index as int) == busy(d, j) ==> r.piece_index <= j,
{
    lemma_wanted(d, bits, j);
    lemma_wanted(d, bits, r.piece_index as int);
    assert(model::eligible(d, bits, j));
}

proof fn lemma_wanted(d: Download, bits: Seq<u8>, i: int)
    requires
        model::valid(d),
    ensures
        wanted(d, bits, i) <==> model::eligible(d, bits, i),
{
    if 0 <= i < d.total_pieces {
        let len = model::piece_len(d, i) as int;
        let n = busy(d, i) as int;
        assert(n < model::block_count(len) <==> n * 16384 < len);
    }
}

/// The blocks of a piece are asked for from its front on: a request is for the
/// first block that neither waits for its answer nor came in, and for all of it.
pub proof fn law_lowest_block_first(
    d: Download,
    bits: Seq<u8>,
    peer: u32,
    r: BlockRequest,
    after: Download,
    c: int,
)
    requires
        model::valid(d),
        model::next_is(d, bits, peer, Some(r), after),
        model::piece_len(d, r.piece_index as int) <= u32::MAX,
        0 <= c,
        c * 16384 < r.begin,
    ensures
        ({
            let b = d.blocks[r.piece_index as int];
            b.pending.contains_key((c * 16384) as u32) || b.received.contains((c * 16384) as u32)
        }),
{
    let i = r.piece_index as int;
    assert(!model::open_block(d, i, c));
}

/// A request begins at a multiple of the length of blocks, and asks for a full
/// block or for all that is left of the piece.
pub proof fn law_request_length(
    d: Download,
    bits: Seq<u8>,
    peer: u32,
    r: BlockRequest,
    after: Download,
)
    requires
        model::next_is(d, bits, peer, Some(r), after),
        model::piece_len(d, r.piece_index as int) <= u32::MAX,
    ensures
        r.begin % 16384 == 0,
        r.begin < model::piece_len(d, r.piece_index as int),
        r.length == if model::piece_len(d, r.piece_index as int) - r.begin < 16384 {
            model::piece_len(d, r.piece_index as int) - r.begin
        } else {
            16384
        },
{
}

/// A request changes nothing but that its block now waits for the peer.
pub proof fn law_request_recorded(
    d: Download,
    bits: Seq<u8>,
    peer: u32,
    r: BlockRequest,
    after: Download,
    j: int,
)
    requires
        model::valid(d),
        model::next_is(d, bits, peer, Some(r), after),
        0 <= j < d.total_pieces,
    ensures
        ({
            let (b, c) = (d.blocks[j], after.blocks[j]);
            &&& j != r.piece_index ==> c == b
            &&& j == r.piece_index ==> {
                &&& c.pending == b.pending.insert(r.begin, peer)
                &&& c.active == b.active.insert(r.begin)
                &&& c.received == b.received
                &&& c.buffer == b.buffer
            }
            &&& after.have == d.have
            &&& after.hashes == d.hashes
            &&& after.downloaded == d.downloaded
            &&& after.blocks.len() == d.blocks.len()
            &&& after.total_pieces == d.total_pieces
        }),
{
}

/// Nothing is asked for only where there is nothing to ask for: a peer that has a
/// piece that is not complete is asked for a block, as long as each such piece has
/// one that neither waits nor came in. Where nothing is asked for, nothing changes.
pub proof fn law_asked_while_open(
    d: Download,
    bits: Seq<u8>,
    peer: u32,
    next: Option<BlockRequest>,
    after: Download,
    i: int,
)
    requires
        model::valid(d),
        model::next_is(d, bits, peer, next, after),
    ensures
        next is None ==> after == d,
        wanted(d, bits, i) && (forall|j: int| #[trigger]
            wanted(d, bits, j) ==> exists|b: int| #[trigger] free_block(d, j, b)) ==> next is Some,
        (forall|j: int| !#[trigger] wanted(d, bits, j)) ==> next is None,
{
    if wanted(d, bits, i) && (forall|j: int| #[trigger]
        wanted(d, bits, j) ==> exists|b: int| #[trigger] free_block(d, j, b)) && next is None {
        lemma_wanted(d, bits, i);
        let best = lemma_chosen(d, bits, d.total_pieces as int, i);
        lemma_wanted(d, bits, best);
        assert(wanted(d, bits, best));
        let b = choose|b: int| #[trigger] free_block(d, best, b);
        assert(model::chosen(d, bits, best));
        assert(model::open_block(d, best, b));
    }
    if let Some(r) = next {
        lemma_wanted(d, bits, r.piece_index as int);
    }
}

/// Whether the block that begins at `16384 * b` neither waits for its answer nor
/// came in.
pub open spec fn free_block(d: Download, i: int, b: int) -> bool {
    &&& 0 <= b
    &&& b * 16384 < model::piece_len(d, i)
    &&& !d.blocks[i].pending.contains_key((b * 16384) as u32)
    &&& !d.blocks[i].received.contains((b * 16384) as u32)
}

/// Among the first `n` pieces there is one that comes before all others that may be
/// asked for.
proof fn lemma_chosen(d: Download, bits: Seq<u8>, n: int, i: int) -> (best: int)
    requires
        model::valid(d),
        0 <= i < n <= d.total_pieces,
        model::eligible(d, bits, i),
    ensures
        0 <= best < n,
        model::eligible(d, bits, best),
        forall|j: int| j < n && #[trigger] model::eligible(d, bits, j) ==> model::comes_before(
            d,
            best,
            j,
        ),
    decreases n,
{
    if exists|k: int| 0 <= k < n - 1 && #[trigger] model::eligible(d, bits, k) {
        let k = choose|k: int| 0 <= k < n - 1 && #[trigger] model::eligible(d, bits, k);
        let best = lemma_chosen(d, bits, n - 1, k);
        if model::eligible(d, bits, n - 1) && !model::comes_before(d, best, n - 1) {
            n - 1
        } else {
            best
        }
    } else {
        i
    }
}

/// Data is that of a piece exactly where its SHA-1 digest is the one that the
/// torrent gives.
pub proof fn law_verified_by_digest(d: Download, i: int, data: Seq<u8>)
    ensures
        model::verified(d, i, data) <==> digest::sha1(data) == d.hashes[i],
{
}

/// A block that comes in is put where it belongs, is not waited for any more, and
/// changes nothing else. A block of a complete piece changes nothing.
pub proof fn law_block_stored(d: Download, i: int, begin: u32, data: Seq<u8>, j: int, k: int)
    requires
        model::valid(d),
        0 <= i < d.total_pieces,
        0 <= j < d.total_pieces,
    ensures
        ({
            let (after, piece) = model::received(d, i, begin, data);
            let (b, c) = (d.blocks[i], after.blocks[i]);
            &&& after.have == d.have
            &&& after.hashes == d.hashes
            &&& after.downloaded == d.downloaded
            &&& after.total_pieces == d.total_pieces
            &&& after.blocks.len() == d.blocks.len()
            &&& j != i ==> after.blocks[j] == d.blocks[j]
            &&& d.have[i] ==> after == d && piece is None
            &&& !d.have[i] ==> {
                &&& c.received == b.received.insert(begin)
                &&& c.pending == b.pending.remove(begin)
                &&& c.active == b.active.remove(begin)
                &&& piece is Some <==> c.received.len() * 16384 >= model::piece_len(d, i)
                &&& ({
                    let buffer = match piece {
                        Some(data) => data,
                        None => c.buffer,
                    };
                    &&& piece is Some ==> c.buffer.len() == 0
                    &&& buffer.len() >= begin + data.len()
                    &&& buffer.len() == begin + data.len() || buffer.len() == b.buffer.len()
                    &&& begin <= k < begin + data.len() ==> buffer[k] == data[k - begin]
                    &&& 0 <= k < b.buffer.len() && !(begin <= k < begin + data.len())
                        ==> buffer[k] == b.buffer[k]
                    &&& b.buffer.len() <= k < begin ==> buffer[k] == 0
                })
            }
        }),
{
    if !d.have[i] {
        let len = model::piece_len(d, i) as int;
        let n = d.blocks[i].received.insert(begin).len() as int;
        assert(n >= model::block_count(len) <==> n * 16384 >= len);
    }
}

/// A piece that is counted as complete is complete, its length counts as
/// downloaded, and every other piece stays as it is.
pub proof fn law_piece_counted(d: Download, i: int, length: u64, j: int)
    requires
        model::valid(d),
        0 <= i < d.total_pieces,
        0 <= j < d.total_pieces,
        d.downloaded + length <= u64::MAX,
    ensures
        ({
            let after = model::completed(d, i, length);
            &&& after.have.len() == d.have.len()
            &&& after.have[j] <==> d.have[j] || j == i
            &&& after.downloaded == d.downloaded + length
            &&& j != i ==> after.blocks[j] == d.blocks[j]
            &&& busy(after, i) == 0
            &&& after.hashes == d.hashes
            &&& after.total_pieces == d.total_pieces
            &&& after.uploaded == d.uploaded
        }),
{
}

/// A piece that is dropped starts anew, and nothing else changes.
pub proof fn law_piece_dropped(d: Download, i: int, j: int)
    requires
        model::valid(d),
        0 <= i < d.total_pieces,
        0 <= j < d.total_pieces,
    ensures
        ({
            let after = model::discarded(d, i);
            &&& after.have == d.have
            &&& after.downloaded == d.downloaded
            &&& after.hashes == d.hashes
            &&& after.total_pieces == d.total_pieces
            &&& j != i ==> after.blocks[j] == d.blocks[j]
            &&& after.blocks[i].pending == Map::<u32, u32>::empty()
            &&& after.blocks[i].active == Set::<u32>::empty()
            &&& after.blocks[i].received == Set::<u32>::empty()
            &&& after.blocks[i].buffer == Seq::<u8>::empty()
        }),
{
}

/// When a download is taken up, a piece is complete exactly where it was complete
/// or what was read of it is as long as the piece and has its digest.
pub proof fn law_found_on_disk(d: Download, reads: Seq<Option<Seq<u8>>>, i: int)
    requires
        model::valid(d),
        reads.len() == d.total_pieces,
        0 <= i < d.total_pieces,
    ensures
        ({
            let after = model::resumed(d, reads);
            &&& after.have.len() == d.have.len()
            &&& after.have[i] <==> d.have[i] || (reads[i] is Some && reads[i]->0.len()
                == model::piece_len(d, i) && digest::sha1(reads[i]->0) == d.hashes[i])
            &&& after.blocks == d.blocks
            &&& after.hashes == d.hashes
            &&& after.total_pieces == d.total_pieces
            &&& after.uploaded == d.uploaded
        }),
{
}

/// As many pieces are found as become complete.
pub proof fn law_found_counted(d: Download, reads: Seq<Option<Seq<u8>>>)
    requires
        model::valid(d),
        reads.len() == d.total_pieces,
    ensures
        model::count_held(model::resumed(d, reads).have) == model::count_held(d.have)
            + model::restored_count(d, reads),
{
    lemma_found_counted(d, reads, reads.len() as int);
    assert(reads.take(reads.len() as int) =~= reads);
    assert(d.have.take(reads.len() as int) =~= d.have);
    let after = model::resumed(d, reads).have;
    assert(after.take(reads.len() as int) =~= after);
}

proof fn lemma_found_counted(d: Download, reads: Seq<Option<Seq<u8>>>, n: int)
    requires
        model::valid(d),
        reads.len() == d.total_pieces,
        0 <= n <= reads.len(),
    ensures
        model::count_held(model::resumed(d, reads).have.take(n)) == model::count_held(
            d.have.take(n),
        ) + model::restored_count(d, reads.take(n)),
    decreases n,
{
    let after = model::resumed(d, reads).have;
    if n > 0 {
        lemma_found_counted(d, reads, n - 1);
        assert(after.take(n).drop_last() =~= after.take(n - 1));
        assert(d.have.take(n).drop_last() =~= d.have.take(n - 1));
        assert(reads.take(n).drop_last() =~= reads.take(n - 1));
        assert(reads.take(n).last() == reads[n - 1]);
    }
}

/// Complete pieces are counted one by one.
pub proof fn law_held_counted(have: Seq<bool>, held: bool)
    ensures
        model::count_held(Seq::empty()) == 0,
        model::count_held(have.push(held)) == model::count_held(have) + if held {
            1int
        } else {
            0
        },
{
    assert(have.push(held).drop_last() =~= have);
}

/// A download is complete when every piece is, and a peer is needed as long as it
/// has one that is not.
pub proof fn law_needed(d: Download, bits: Seq<u8>)
    requires
        model::valid(d),
    ensures
        model::complete(d) <==> forall|i: int| 0 <= i < d.total_pieces ==> #[trigger] d.have[i],
        forall|i: int|
            0 <= i ==> (#[trigger] model::holds(d, i) <==> i >= d.total_pieces || d.have[i]),
        model::needs(d, bits) <==> exists|i: u32|
            i < d.total_pieces && #[trigger] bitfield::has_bit(bits, i) && !d.have[i as int],
{
    if model::needs(d, bits) {
        let i = choose|i: u32|
            i < d.total_pieces && !model::holds(d, i as int) && #[trigger] bitfield::has_bit(
                bits,
                i,
            );
        assert(bitfield::has_bit(bits, i) && !d.have[i as int]);
    }
    if exists|i: u32|
        i < d.total_pieces && #[trigger] bitfield::has_bit(bits, i) && !d.have[i as int] {
        let i = choose|i: u32|
            i < d.total_pieces && #[trigger] bitfield::has_bit(bits, i) && !d.have[i as int];
        assert(!model::holds(d, i as int));
    }
}

/// A new download has the digests of the torrent, and nothing else.
pub proof fn law_starts_empty(piece_length: u64, total_length: u64, hashes: Seq<Seq<u8>>, i: int)
    requires
        hashes.len() <= u32::MAX,
        0 <= i < hashes.len(),
    ensures
        ({
            let d = model::fresh(piece_length, total_length, hashes);
            &&& model::valid(d)
            &&& d.total_pieces == hashes.len()
            &&& d.hashes == hashes
            &&& d.downloaded == 0
            &&& d.uploaded == 0
            &&& d.total_length == total_length
            &&& d.piece_length == piece_length
            &&& !d.have[i]
            &&& d.blocks[i].pending == Map::<u32, u32>::empty()
            &&& d.blocks[i].active == Set::<u32>::empty()
            &&& d.blocks[i].received == Set::<u32>::empty()
            &&& d.blocks[i].buffer == Seq::<u8>::empty()
        }),
{
}

/// All pieces have the length that the torrent gives, but for the last one where
/// the content is no multiple of it: that one has what is left over.
pub proof fn law_piece_lengths(piece_length: u64, total_length: u64, hashes: Seq<Seq<u8>>, i: int)
    requires
        0 < piece_length,
        hashes.len() <= u32::MAX,
        0 <= i < hashes.len(),
    ensures
        ({
            let len = model::piece_len(model::fresh(piece_length, total_length, hashes), i);
            &&& i < hashes.len() - 1 ==> len == piece_length
            &&& i == hashes.len() - 1 && total_length % piece_length == 0 ==> len == piece_length
            &&& i == hashes.len() - 1 && total_length % piece_length != 0 ==> len == total_length
                % piece_length
        }),
{
}

/// Taking back what a peer was asked for takes back every block that waits for it
/// and no other.
pub proof fn law_taken_back(d: Download, peer: u32, i: int, begin: u32)
    requires
        model::valid(d),
        0 <= i < d.total_pieces,
    ensures
        ({
            let (b, c) = (d.blocks[i], model::cancelled(d, peer).blocks[i]);
            let mine = b.pending.contains_key(begin) && b.pending[begin] == peer;
            &&& c.pending.contains_key(begin) <==> b.pending.contains_key(begin) && !mine
            &&& c.pending.contains_key(begin) ==> c.pending[begin] == b.pending[begin]
            &&& c.active.contains(begin) <==> b.active.contains(begin) && !mine
            &&& c.received == b.received
            &&& c.buffer == b.buffer
            &&& model::cancelled(d, peer).have == d.have
            &&& model::cancelled(d, peer).hashes == d.hashes
            &&& model::cancelled(d, peer).downloaded == d.downloaded
            &&& model::cancelled(d, peer).total_pieces == d.total_pieces
        }),
{
}

} // verus!
