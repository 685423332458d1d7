//! The pieces of a download: which are complete, what to ask for next, and the
//! blocks that came in.
pub mod choice;
pub mod laws;
pub mod model;
pub mod runs;

use std::collections::{HashMap, HashSet};

use vstd::prelude::*;

use crate::bitfield;
use crate::bitfield::test_bit;
use crate::bytes;
use crate::bytes::{low_word, same_bytes};
use crate::digest::sha1_digest;
use crate::metainfo;
use crate::peer::BLOCK_SIZE;
use crate::piece::model::{Blocks, Download};

verus! {

/// A part of a piece to ask a peer for.
#[derive(Debug, Clone, Copy, PartialEq, Eq, Structural)]
pub struct BlockRequest {
    pub piece_index: u32,
    pub begin: u32,
    pub length: u32,
}

/// The blocks of a piece.
struct PieceBlocks {
    pending: HashMap<u32, u32>,
    active: HashSet<u32>,
    received: HashSet<u32>,
    buffer: Vec<u8>,
}

/// What is kept of each piece.
pub struct PieceRecords {
    have: Vec<bool>,
    piece_hashes: Vec<[u8; 20]>,
    blocks: Vec<PieceBlocks>,
}

/// Which pieces are complete, which blocks were asked for and which came in.
pub struct PieceManager {
    pub total_pieces: u32,
    pub piece_length: u64,
    pub last_piece_length: u64,
    pub total_length: u64,
    pub records: PieceRecords,
    pub downloaded: u64,
    pub uploaded: u64,
}

impl View for PieceBlocks {
    type V = Blocks;

    closed spec fn view(&self) -> Blocks {
        Blocks {
            pending: self.pending@,
            active: self.active@,
            received: self.received@,
            buffer: self.buffer@,
        }
    }
}

impl PieceRecords {
    /// Which pieces are complete.
    pub closed spec fn have_model(&self) -> Seq<bool> {
        self.have@
    }

    /// The digests of the pieces.
    pub closed spec fn hashes_model(&self) -> Seq<Seq<u8>> {
        metainfo::digest_models(self.piece_hashes@)
    }

    /// The blocks of the pieces.
    pub closed spec fn blocks_model(&self) -> Seq<Blocks> {
        Seq::new(self.blocks@.len(), |i: int| self.blocks@[i]@)
    }
}

impl View for PieceManager {
    type V = Download;

    open spec fn view(&self) -> Download {
        Download {
            total_pieces: self.total_pieces,
            piece_length: self.piece_length,
            last_piece_length: self.last_piece_length,
            total_length: self.total_length,
            downloaded: self.downloaded,
            uploaded: self.uploaded,
            have: self.records.have_model(),
            hashes: self.records.hashes_model(),
            blocks: self.records.blocks_model(),
        }
    }
}

impl PieceBlocks {
    /// Nothing asked for, nothing received.
    fn new() -> (out: Self)
        ensures
            out@ == model::no_blocks(),
    {
        let out = PieceBlocks {
            pending: HashMap::new(),
            active: HashSet::new(),
            received: HashSet::new(),
            buffer: Vec::new(),
        };
        assert(out@ =~= model::no_blocks());
        out
    }

    /// Where the blocks begin that a peer was asked for.
    fn asked_of(&self, peer: u32) -> (out: Vec<u32>)
        ensures
            out@.to_set() == model::asked_of(self@, peer),
    {
        broadcast use vstd::std_specs::hash::group_hash_axioms;

        let ghost asked = model::asked_of(self@, peer);
        let mut out: Vec<u32> = Vec::new();
        let ghost mut seen: Seq<u32> = Seq::empty();
        for begin in it: self.pending.keys()
            invariant
                it.seq().unref().to_set() == self.pending@.dom(),
                asked == model::asked_of(self@, peer),
                seen == it.seq().unref().take(it.index() as int),
                it.index() == it.seq().len() ==> seen == it.seq().unref(),
                it.index() == it.seq().len() ==> seen.to_set() == self.pending@.dom(),
                forall|x: u32| #[trigger]
                    out@.contains(x) <==> seen.contains(x) && asked.contains(x),
        {
            let ghost before = out@;
            let ghost had = seen;
            proof {
                let all = it.seq().unref();
                assert(all[it.index() as int] == *begin);
                assert(all.to_set().contains(*begin));
                seen = had.push(*begin);
                assert(seen =~= all.take(it.index() + 1));
                if it.index() + 1 == all.len() {
                    assert(seen =~= all);
                    assert(seen.to_set() == self.pending@.dom());
                }
                lemma_push_contains(had, *begin);
                lemma_push_contains(before, *begin);
            }
            match self.pending.get(begin) {
                Some(asked_peer) => if *asked_peer == peer {
                    out.push(*begin);
                },
                None => {},
            }
        }
        assert(out@.to_set() =~= asked) by {
            assert forall|x: u32| asked.contains(x) implies out@.contains(x) by {
                assert(seen.to_set().contains(x));
            }
        }
        out
    }

    /// Takes back what a peer was asked for.
    fn release(&mut self, peer: u32)
        ensures
            final(self)@ == model::released(old(self)@, peer),
    {
        broadcast use vstd::std_specs::hash::group_hash_axioms;

        let ghost before = self@;
        let begins = self.asked_of(peer);
        let mut i: usize = 0;
        assert(begins@.take(0).to_set() =~= Set::empty());
        assert(self.pending@ =~= before.pending.remove_keys(begins@.take(0).to_set()));
        assert(self.active@ =~= before.active.difference(begins@.take(0).to_set()));
        while i < begins.len()
            invariant
                i <= begins@.len(),
                self.pending@ == before.pending.remove_keys(begins@.take(i as int).to_set()),
                self.active@ == before.active.difference(begins@.take(i as int).to_set()),
                self.received@ == before.received,
                self.buffer@ == before.buffer,
            decreases begins@.len() - i,
        {
            let begin = begins[i];
            proof {
                let gone = begins@.take(i as int);
                assert(begins@.take(i + 1) =~= gone.push(begin));
                lemma_push_contains(gone, begin);
                assert(begins@.take(i + 1).to_set() =~= gone.to_set().insert(begin));
                let now = gone.to_set().insert(begin);
                assert(before.pending.remove_keys(now) =~= before.pending.remove_keys(
                    gone.to_set(),
                ).remove(begin));
                assert(before.active.difference(now) =~= before.active.difference(
                    gone.to_set(),
                ).remove(begin));
            }
            self.pending.remove(&begin);
            self.active.remove(&begin);
            i = i + 1;
        }
        assert(begins@.take(i as int) =~= begins@);
        assert(self@ =~= model::released(before, peer));
    }
}

/// What a sequence holds after something is added.
proof fn lemma_push_contains(s: Seq<u32>, x: u32)
    ensures
        forall|y: u32| #[trigger] s.push(x).contains(y) <==> s.contains(y) || y == x,
{
    assert forall|y: u32| #[trigger] s.push(x).contains(y) <==> s.contains(y) || y == x by {
        if s.contains(y) {
            let n = choose|n: int| 0 <= n < s.len() && s[n] == y;
            assert(s.push(x)[n] == y);
        }
        assert(s.push(x)[s.len() as int] == x);
        if s.push(x).contains(y) && y != x {
            let n = choose|n: int| 0 <= n < s.push(x).len() && s.push(x)[n] == y;
            assert(s[n] == y);
        }
    }
}

/// The number of blocks of a piece.
fn block_count(len: u64) -> (n: u64)
    ensures
        n == model::block_count(len as int),
{
    len / (BLOCK_SIZE as u64) + if len % (BLOCK_SIZE as u64) == 0 {
        0
    } else {
        1
    }
}

impl PieceManager {
    /// A download of which nothing is there yet.
    pub fn new(piece_length: u64, total_length: u64, piece_hashes: Vec<[u8; 20]>) -> (out: Self)
        requires
            piece_length == 0 ==> total_length == 0 || bytes::low32(
                piece_hashes@.len() as int,
            ) == 0,
        ensures
            model::valid(out@),
            out@ == model::fresh(
                piece_length,
                total_length,
                metainfo::digest_models(piece_hashes@),
            ),
    {
        let total_pieces = low_word(piece_hashes.len());
        let last_piece_length = if total_pieces == 0 {
            0
        } else if total_length.is_multiple_of(piece_length) {
            piece_length
        } else {
            total_length % piece_length
        };
        let mut have: Vec<bool> = Vec::new();
        let mut blocks: Vec<PieceBlocks> = Vec::new();
        let mut i: u32 = 0;
        while i < total_pieces
            invariant
                i <= total_pieces,
                have@ == Seq::new(i as nat, |k: int| false),
                blocks@.len() == i,
                forall|k: int| 0 <= k < i ==> (#[trigger] blocks@[k])@ == model::no_blocks(),
            decreases total_pieces - i,
        {
            have.push(false);
            blocks.push(PieceBlocks::new());
            i = i + 1;
            assert(have@ =~= Seq::new(i as nat, |k: int| false));
        }
        let out = PieceManager {
            total_pieces,
            piece_length,
            last_piece_length,
            total_length,
            records: PieceRecords { have, piece_hashes, blocks },
            downloaded: 0,
            uploaded: 0,
        };
        assert(out@ =~= model::fresh(
            piece_length,
            total_length,
            metainfo::digest_models(piece_hashes@),
        ));
        out
    }

    /// Whether every piece is complete.
    pub fn is_complete(&self) -> (complete: bool)
        ensures
            complete == model::complete(self@),
    {
        let mut i: usize = 0;
        while i < self.records.have.len()
            invariant
                i <= self.records.have@.len(),
                forall|k: int| 0 <= k < i ==> #[trigger] self.records.have@[k],
            decreases self.records.have@.len() - i,
        {
            if !self.records.have[i] {
                assert(!self@.have[i as int]);
                return false;
            }
            i = i + 1;
        }
        true
    }

    /// The number of pieces that are complete.
    pub fn completed_pieces(&self) -> (n: usize)
        ensures
            n == model::count_held(self@.have),
    {
        let mut n: usize = 0;
        let mut i: usize = 0;
        while i < self.records.have.len()
            invariant
                i <= self.records.have@.len(),
                n <= i,
                n == model::count_held(self.records.have@.take(i as int)),
            decreases self.records.have@.len() - i,
        {
            assert(self.records.have@.take(i + 1).drop_last() =~= self.records.have@.take(i as int));
            if self.records.have[i] {
                n = n + 1;
            }
            i = i + 1;
        }
        assert(self.records.have@.take(i as int) =~= self.records.have@);
        n
    }

    /// The length of a piece.
    pub fn piece_length(&self, piece_idx: u32) -> (n: u64)
        requires
            self@.total_pieces > 0,
        ensures
            n == model::piece_len(self@, piece_idx as int),
    {
        if piece_idx == self.total_pieces - 1 && !self.total_length.is_multiple_of(
            self.piece_length,
        ) {
            self.last_piece_length
        } else {
            self.piece_length
        }
    }

    /// Whether a piece is complete, or does not exist.
    pub fn has_piece(&self, piece_idx: u32) -> (held: bool)
        ensures
            held == model::holds(self@, piece_idx as int),
    {
        let i = piece_idx as usize;
        if i < self.records.have.len() {
            self.records.have[i]
        } else {
            true
        }
    }

    /// Whether a peer has the piece.
    pub fn peer_has_piece(bitfield: &[u8], piece_idx: u32) -> (has: bool)
        ensures
            has == bitfield::has_bit(bitfield@, piece_idx),
    {
        test_bit(bitfield, piece_idx)
    }

    /// Whether a peer has a piece that is not complete here.
    pub fn need_piece(&self, peer_bitfield: &[u8]) -> (need: bool)
        ensures
            need == model::needs(self@, peer_bitfield@),
    {
        let mut i: u32 = 0;
        while i < self.total_pieces
            invariant
                i <= self.total_pieces,
                forall|k: u32|
                    k < i && !model::holds(self@, k as int)
                        ==> !#[trigger] bitfield::has_bit(peer_bitfield@, k),
            decreases self.total_pieces - i,
        {
            if !self.has_piece(i) && Self::peer_has_piece(peer_bitfield, i) {
                return true;
            }
            i = i + 1;
        }
        false
    }

    /// Whether 32 bits hold the offsets of the piece to ask a peer for.
    pub fn choice_fits(&self, peer_bitfield: &[u8]) -> (out: bool)
        requires
            model::valid(self@),
        ensures
            out == forall|i: int| #[trigger]
                model::chosen(self@, peer_bitfield@, i) ==> model::piece_len(self@, i) <= u32::MAX,
    {
        match self.choose_piece(peer_bitfield) {
            Some(piece_idx) => {
                let ghost first = piece_idx as int;
                assert forall|i: int| #[trigger] model::chosen(self@, peer_bitfield@, i) implies i
                    == first by {
                    assert(model::eligible(self@, peer_bitfield@, first));
                    assert(model::comes_before(self@, i, first));
                    assert(model::comes_before(self@, first, i));
                }
                self.piece_length(piece_idx) <= u32::MAX as u64
            },
            None => true,
        }
    }

    /// The piece to ask a peer for: the one with the fewest blocks asked for.
    fn choose_piece(&self, peer_bitfield: &[u8]) -> (out: Option<u32>)
        requires
            model::valid(self@),
        ensures
            match out {
                Some(i) => model::chosen(self@, peer_bitfield@, i as int),
                None => forall|i: int| !#[trigger] model::eligible(self@, peer_bitfield@, i),
            },
    {
        broadcast use vstd::std_specs::hash::group_hash_axioms;

        let mut best: Option<u32> = None;
        let mut best_count: usize = 0;
        let mut i: u32 = 0;
        while i < self.total_pieces
            invariant
                model::valid(self@),
                i <= self.total_pieces,
                match best {
                    Some(p) => {
                        &&& p < i
                        &&& best_count == self@.blocks[p as int].active.len()
                        &&& model::eligible(self@, peer_bitfield@, p as int)
                        &&& forall|j: int|
                            j < i && #[trigger] model::eligible(self@, peer_bitfield@, j)
                                ==> model::comes_before(self@, p as int, j)
                    },
                    None => forall|j: int|
                        j < i ==> !#[trigger] model::eligible(self@, peer_bitfield@, j),
                },
            decreases self.total_pieces - i,
        {
            if !self.has_piece(i) && Self::peer_has_piece(peer_bitfield, i) {
                let count = self.records.blocks[i as usize].active.len();
                assert(count == self@.blocks[i as int].active.len());
                let better = match best {
                    Some(_) => count < best_count,
                    None => true,
                };
                if (count as u64) < block_count(self.piece_length(i)) {
                    assert(model::eligible(self@, peer_bitfield@, i as int));
                    if better {
                        best = Some(i);
                        best_count = count;
                    }
                }
            }
            i = i + 1;
        }
        best
    }

    /// What to ask a peer for next: the first block that was neither asked for
    /// nor received, of the piece with the fewest blocks asked for among those
    /// that the peer has.
    pub fn next_request(&mut self, peer_id: u32, peer_bitfield: &[u8]) -> (out: Option<
        BlockRequest,
    >)
        requires
            model::valid(old(self)@),
            forall|i: int| #[trigger]
                model::chosen(old(self)@, peer_bitfield@, i) ==> model::piece_len(old(self)@, i)
                    <= u32::MAX,
        ensures
            model::valid(final(self)@),
            model::next_is(old(self)@, peer_bitfield@, peer_id, out, final(self)@),
    {
        broadcast use vstd::std_specs::hash::group_hash_axioms;

        let ghost before = self@;
        let piece_idx = match self.choose_piece(peer_bitfield) {
            Some(i) => i,
            None => return None,
        };
        let piece_len = self.piece_length(piece_idx);
        let needed = block_count(piece_len);
        let mut block: u64 = 0;
        while block < needed
            invariant
                before == old(self)@,
                self@ == before,
                model::valid(before),
                model::chosen(before, peer_bitfield@, piece_idx as int),
                piece_len == model::piece_len(before, piece_idx as int),
                piece_len <= u32::MAX,
                needed == model::block_count(piece_len as int),
                block <= needed,
                forall|c: int|
                    0 <= c < block ==> !#[trigger] model::open_block(before, piece_idx as int, c),
            decreases needed - block,
        {
            let begin = (block as u32) * BLOCK_SIZE;
            assert(begin == model::block_begin(block as int));
            let blocks = &self.records.blocks[piece_idx as usize];
            assert(blocks@ == before.blocks[piece_idx as int]);
            if !blocks.pending.contains_key(&begin) && !blocks.received.contains(&begin) {
                let rest = piece_len as u32 - begin;
                let length = if BLOCK_SIZE <= rest {
                    BLOCK_SIZE
                } else {
                    rest
                };
                let entry = &mut self.records.blocks[piece_idx as usize];
                entry.pending.insert(begin, peer_id);
                entry.active.insert(begin);
                let request = BlockRequest { piece_index: piece_idx, begin, length };
                assert(model::open_block(before, piece_idx as int, block as int));
                assert(begin / BLOCK_SIZE == block);
                assert(self@ =~= model::requested(before, request, peer_id));
                return Some(request);
            }
            block = block + 1;
        }
        proof {
            assert forall|i: int, b: int|
                #![trigger model::open_block(before, i, b), model::chosen(before, peer_bitfield@, i)]
                model::chosen(before, peer_bitfield@, i) implies !model::open_block(before, i, b) by {
                assert(model::comes_before(before, i, piece_idx as int));
                assert(model::comes_before(before, piece_idx as int, i));
            }
        }
        None
    }

    /// Puts a block into the piece that it is part of. Where it is the last one,
    /// the piece comes back.
    pub fn block_received(&mut self, piece_idx: u32, begin: u32, data: &[u8]) -> (out: Option<
        Vec<u8>,
    >)
        requires
            model::valid(old(self)@),
            piece_idx < old(self)@.total_pieces,
            !old(self)@.have[piece_idx as int] ==> begin + data@.len() <= usize::MAX,
        ensures
            model::valid(final(self)@),
            final(self)@ == model::received(old(self)@, piece_idx as int, begin, data@).0,
            match out {
                Some(piece) => Some(piece@),
                None => None,
            } == model::received(old(self)@, piece_idx as int, begin, data@).1,
    {
        broadcast use vstd::std_specs::hash::group_hash_axioms;

        let ghost before = self@;
        let i = piece_idx as usize;
        if self.records.have[i] {
            return None;
        }
        let needed = block_count(self.piece_length(piece_idx));
        let entry = &mut self.records.blocks[i];
        entry.pending.remove(&begin);
        entry.active.remove(&begin);
        place(&mut entry.buffer, begin as usize, data);
        entry.received.insert(begin);
        if entry.received.len() as u64 >= needed {
            let mut piece: Vec<u8> = Vec::new();
            std::mem::swap(&mut piece, &mut entry.buffer);
            assert(self@.blocks =~= model::received(before, i as int, begin, data@).0.blocks);
            return Some(piece);
        }
        assert(self@.blocks =~= model::received(before, i as int, begin, data@).0.blocks);
        None
    }

    /// Whether data has the digest of the piece.
    pub fn verify_piece(&self, piece_idx: u32, data: &[u8]) -> (ok: bool)
        requires
            piece_idx < self@.hashes.len(),
        ensures
            ok == model::verified(self@, piece_idx as int, data@),
    {
        let digest = sha1_digest(data);
        same_bytes(digest.as_slice(), self.records.piece_hashes[piece_idx as usize].as_slice())
    }

    /// Counts a piece as complete.
    pub fn mark_complete(&mut self, piece_idx: u32, length: u64)
        requires
            model::valid(old(self)@),
            piece_idx < old(self)@.total_pieces,
            old(self)@.downloaded + length <= u64::MAX,
        ensures
            model::valid(final(self)@),
            final(self)@ == model::completed(old(self)@, piece_idx as int, length),
    {
        let ghost before = self@;
        let i = piece_idx as usize;
        self.records.have.set(i, true);
        self.downloaded = self.downloaded + length;
        let entry = &mut self.records.blocks[i];
        entry.received.clear();
        entry.active.clear();
        assert(self@ =~= model::completed(before, i as int, length));
    }

    /// Drops what came in of a piece, so that all of it is asked for again.
    pub fn discard_piece(&mut self, piece_idx: u32)
        ensures
            final(self)@ == model::discarded(old(self)@, piece_idx as int),
    {
        let ghost before = self@;
        let i = piece_idx as usize;
        if i < self.records.blocks.len() {
            self.records.blocks.set(i, PieceBlocks::new());
            assert(self@ =~= model::discarded(before, i as int));
        }
    }

    /// Takes back all that a peer was asked for and has not given, so that it can
    /// be asked for again.
    pub fn cancel_requests(&mut self, peer_id: u32)
        ensures
            final(self)@ == model::cancelled(old(self)@, peer_id),
    {
        let ghost before = self@;
        let mut i: usize = 0;
        while i < self.records.blocks.len()
            invariant
                i <= self.records.blocks@.len(),
                before == old(self)@,
                before.blocks.len() == self.records.blocks@.len(),
                self@ == (Download { blocks: self@.blocks, ..before }),
                forall|j: int| #![trigger self@.blocks[j]]
                    0 <= j < before.blocks.len() ==> self@.blocks[j] == if j < i {
                        model::released(before.blocks[j], peer_id)
                    } else {
                        before.blocks[j]
                    },
            decreases self.records.blocks@.len() - i,
        {
            let ghost now = self@;
            assert(now.blocks[i as int] == self.records.blocks@[i as int]@);
            let entry = &mut self.records.blocks[i];
            entry.release(peer_id);
            assert(self@.blocks =~= now.blocks.update(
                i as int,
                model::released(before.blocks[i as int], peer_id),
            ));
            i = i + 1;
        }
        assert(self@ =~= model::cancelled(before, peer_id));
    }

    /// Counts a piece as complete where what was read of it is all of it and has
    /// its digest.
    pub fn restore_piece(&mut self, piece_idx: u32, data: Option<Vec<u8>>) -> (restored: bool)
        requires
            model::valid(old(self)@),
            piece_idx < old(self)@.total_pieces,
            model::restorable(old(self)@, piece_idx as int, read_model(data))
                ==> old(self)@.downloaded + model::piece_len(old(self)@, piece_idx as int)
                <= u64::MAX,
        ensures
            model::valid(final(self)@),
            restored == model::restorable(old(self)@, piece_idx as int, read_model(data)),
            final(self)@ == model::restored(old(self)@, piece_idx as int, read_model(data)),
    {
        let ghost before = self@;
        let i = piece_idx as usize;
        if self.records.have[i] {
            return false;
        }
        let len = self.piece_length(piece_idx);
        match data {
            Some(bytes) => {
                if bytes.len() as u64 == len && self.verify_piece(piece_idx, bytes.as_slice()) {
                    self.records.have.set(i, true);
                    self.downloaded = self.downloaded + len;
                    assert(self@ =~= model::restored(before, i as int, Some(bytes@)));
                    return true;
                }
            },
            None => {},
        }
        false
    }

    /// Counts the pieces as complete that `read` gives back whole, and says how
    /// many they are. `read` is asked for each piece that is not complete, by its
    /// number and length.
    pub fn resume_from(&mut self, read: impl Fn(u32, u64) -> Option<Vec<u8>>) -> (restored: u32)
        requires
            model::valid(old(self)@),
            forall|i: int|
                0 <= i < old(self)@.total_pieces && !old(self)@.have[i] ==> call_requires(
                    read,
                    (i as u32, #[trigger] model::piece_len(old(self)@, i)),
                ),
            forall|reads: Seq<Option<Vec<u8>>>|
                reads.len() <= old(self)@.total_pieces && #[trigger] reads_of(
                    old(self)@,
                    read,
                    reads,
                ) ==> old(self)@.downloaded + model::restored_length(
                    old(self)@,
                    read_models(reads),
                ) <= u64::MAX,
        ensures
            model::valid(final(self)@),
            exists|reads: Seq<Option<Vec<u8>>>|
                {
                    &&& reads.len() == old(self)@.total_pieces
                    &&& #[trigger] reads_of(old(self)@, read, reads)
                    &&& restored == model::restored_count(old(self)@, read_models(reads))
                    &&& final(self)@ == model::resumed(old(self)@, read_models(reads))
                    &&& forall|i: int|
                        0 <= i < old(self)@.total_pieces && !old(self)@.have[i] ==> call_ensures(
                            read,
                            (i as u32, model::piece_len(old(self)@, i)),
                            #[trigger] reads[i],
                        )
                },
    {
        let ghost before = self@;
        let ghost mut reads: Seq<Option<Vec<u8>>> = Seq::empty();
        let mut restored: u32 = 0;
        let mut i: u32 = 0;
        assert(read_models(reads) =~= Seq::empty());
        assert(self@ =~= model::resumed(before, read_models(reads)));
        while i < self.total_pieces
            invariant
                before == old(self)@,
                model::valid(before),
                self@ == model::resumed(before, read_models(reads)),
                reads.len() == i,
                i <= before.total_pieces,
                restored <= i,
                restored == model::restored_count(before, read_models(reads)),
                reads_of(before, read, reads),
                before.downloaded + model::restored_length(before, read_models(reads)) <= u64::MAX,
                forall|k: int|
                    0 <= k < before.total_pieces && !before.have[k] ==> call_requires(
                        read,
                        (k as u32, #[trigger] model::piece_len(before, k)),
                    ),
                forall|more: Seq<Option<Vec<u8>>>|
                    more.len() <= before.total_pieces && #[trigger] reads_of(before, read, more)
                        ==> before.downloaded + model::restored_length(before, read_models(more))
                        <= u64::MAX,
            decreases before.total_pieces - i,
        {
            let data = if self.records.have[i as usize] {
                None
            } else {
                let len = self.piece_length(i);
                assert(len == model::piece_len(before, i as int));
                read(i, len)
            };
            let ghost more = reads.push(data);
            proof {
                assert(self@.have[i as int] == before.have[i as int]);
                assert(read_models(more).drop_last() =~= read_models(reads));
                assert(read_models(more).last() == read_model(data));
                assert(reads_of(before, read, more));
                laws::lemma_restored_length_nonnegative(before, read_models(reads));
            }
            if self.restore_piece(i, data) {
                restored = restored + 1;
            }
            assert(self@ =~= model::resumed(before, read_models(more)));
            proof {
                reads = more;
            }
            i = i + 1;
        }
        restored
    }
}

/// What was read.
pub open spec fn read_model(data: Option<Vec<u8>>) -> Option<Seq<u8>> {
    match data {
        Some(bytes) => Some(bytes@),
        None => None,
    }
}

/// What was read of the first pieces.
pub open spec fn read_models(reads: Seq<Option<Vec<u8>>>) -> Seq<Option<Seq<u8>>> {
    Seq::new(reads.len(), |i: int| read_model(reads[i]))
}

/// Whether `read` can give this back of the first pieces. Of pieces that are
/// complete nothing is read.
pub open spec fn reads_of<F: Fn(u32, u64) -> Option<Vec<u8>>>(
    d: Download,
    read: F,
    reads: Seq<Option<Vec<u8>>>,
) -> bool {
    forall|i: int|
        0 <= i < reads.len() ==> if d.have[i] {
            reads[i] is None
        } else {
            call_ensures(read, (i as u32, model::piece_len(d, i)), #[trigger] reads[i])
        }
}

/// Puts data into a buffer, which grows with zeros where that is needed.
fn place(buffer: &mut Vec<u8>, begin: usize, data: &[u8])
    requires
        begin + data@.len() <= usize::MAX,
    ensures
        final(buffer)@ == model::placed(old(buffer)@, begin as int, data@),
{
    let ghost before = buffer@;
    let end = begin + data.len();
    if buffer.len() < end {
        buffer.resize(end, 0);
    }
    let mut k: usize = 0;
    while k < data.len()
        invariant
            k <= data@.len(),
            end == begin + data@.len(),
            buffer@.len() == if before.len() < end {
                end as nat
            } else {
                before.len()
            },
            forall|j: int| 0 <= j < k ==> buffer@[begin + j] == #[trigger] data@[j],
            forall|j: int|
                0 <= j < buffer@.len() && !(begin <= j < begin + k) ==> #[trigger] buffer@[j]
                    == if j < before.len() {
                    before[j]
                } else {
                    0u8
                },
        decreases data@.len() - k,
    {
        buffer.set(begin + k, data[k]);
        k = k + 1;
    }
    assert forall|j: int| begin <= j < end implies #[trigger] buffer@[j] == data@[j - begin] by {
        assert(buffer@[begin + (j - begin)] == data@[j - begin]);
    }
    assert(buffer@ =~= model::placed(before, begin as int, data@));
}

} // verus!
