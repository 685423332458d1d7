//! A session with one peer: what its messages change, and what it is asked for.
use vstd::prelude::*;

use crate::bitfield;
use crate::bitfield::{empty_bitfield, set_bit};
use crate::peer::message::{Message, PeerMessage};
use crate::piece::laws;
use crate::piece::model;
use crate::piece::model::Download;
use crate::piece::{BlockRequest, PieceManager};

verus! {

/// How many requests may wait for their answers.
pub const MAX_PIPELINE: u32 = 5;

/// What is known of a peer.
#[derive(Debug)]
pub struct PeerSession {
    /// By which number what the peer is asked for is known. No two sessions have
    /// the same.
    pub peer_id: u32,
    /// The pieces that the peer has.
    pub peer_bitfield: Vec<u8>,
    /// Whether the peer gives nothing.
    pub am_choked: bool,
    pub requests_in_flight: u32,
    pub got_bitfield: bool,
    pub checked_interest: bool,
}

/// What a [`PeerSession`] knows.
#[verifier::ext_equal]
pub struct SessionModel {
    pub peer: u32,
    pub bits: Seq<u8>,
    pub choked: bool,
    pub in_flight: u32,
    pub got_bitfield: bool,
    pub checked_interest: bool,
}

impl View for PeerSession {
    type V = SessionModel;

    open spec fn view(&self) -> SessionModel {
        SessionModel {
            peer: self.peer_id,
            bits: self.peer_bitfield@,
            choked: self.am_choked,
            in_flight: self.requests_in_flight,
            got_bitfield: self.got_bitfield,
            checked_interest: self.checked_interest,
        }
    }
}

/// What is to be done after a message.
#[derive(Debug)]
pub enum Reaction {
    /// Go on.
    Continue,
    /// End the session: the peer has nothing that is needed.
    Disconnect,
    /// Write a piece to disk, and then say whether that worked.
    Write { piece_index: u32, length: u64, data: Vec<u8> },
    /// Go on: a piece did not have its digest and was dropped.
    Dropped(u32),
}

/// What a [`Reaction`] says.
pub enum ReactionModel {
    Continue,
    Disconnect,
    Write { piece_index: u32, length: u64, data: Seq<u8> },
    Dropped(u32),
}

impl View for Reaction {
    type V = ReactionModel;

    open spec fn view(&self) -> ReactionModel {
        match *self {
            Reaction::Continue => ReactionModel::Continue,
            Reaction::Disconnect => ReactionModel::Disconnect,
            Reaction::Write { piece_index, length, data } => ReactionModel::Write {
                piece_index,
                length,
                data: data@,
            },
            Reaction::Dropped(piece_index) => ReactionModel::Dropped(piece_index),
        }
    }
}

/// A session in which nothing happened yet: the peer has no pieces and gives
/// nothing.
pub open spec fn new_session(peer: u32, total_pieces: u32) -> SessionModel {
    SessionModel {
        peer,
        bits: Seq::new(bitfield::bytes_for(total_pieces) as nat, |i: int| 0u8),
        choked: true,
        in_flight: 0,
        got_bitfield: false,
        checked_interest: false,
    }
}

/// What follows where a peer may have nothing that is needed.
pub open spec fn if_needed(d: Download, bits: Seq<u8>) -> ReactionModel {
    if model::needs(d, bits) {
        ReactionModel::Continue
    } else {
        ReactionModel::Disconnect
    }
}

/// After a message of a peer: what is known of it, the download, and what is to
/// be done. What a peer was asked for that now gives nothing is taken back.
pub open spec fn after_message(s: SessionModel, d: Download, m: Message) -> (
    SessionModel,
    Download,
    ReactionModel,
) {
    match m {
        Message::Choke => (
            SessionModel { choked: true, in_flight: 0, ..s },
            model::cancelled(d, s.peer),
            ReactionModel::Continue,
        ),
        Message::Unchoke => (SessionModel { choked: false, ..s }, d, ReactionModel::Continue),
        Message::Bitfield(bits) => (
            SessionModel { bits, got_bitfield: true, ..s },
            d,
            if_needed(d, bits),
        ),
        Message::Have(index) => {
            let bits = bitfield::with_bit(s.bits, index);
            if s.got_bitfield && !s.checked_interest {
                (SessionModel { bits, checked_interest: true, ..s }, d, if_needed(d, bits))
            } else {
                (SessionModel { bits, ..s }, d, ReactionModel::Continue)
            }
        },
        Message::Piece(index, begin, data) => {
            let next = SessionModel {
                in_flight: if s.in_flight > 0 {
                    (s.in_flight - 1) as u32
                } else {
                    0
                },
                ..s
            };
            let (after, piece) = model::received(d, index as int, begin, data);
            match piece {
                None => (next, after, ReactionModel::Continue),
                Some(data) => if model::verified(after, index as int, data) {
                    (
                        next,
                        after,
                        ReactionModel::Write {
                            piece_index: index,
                            length: model::piece_len(after, index as int),
                            data,
                        },
                    )
                } else {
                    (
                        next,
                        model::discarded(after, index as int),
                        ReactionModel::Dropped(index),
                    )
                },
            }
        },
        _ => (s, d, ReactionModel::Continue),
    }
}

/// The pieces that are complete, as a bitfield: one bit for each.
pub fn build_bitfield(pm: &PieceManager) -> (bits: Vec<u8>)
    ensures
        bits@.len() == bitfield::bytes_for(pm@.total_pieces),
        forall|i: u32| #[trigger]
            bitfield::has_bit(bits@, i) <==> i < pm@.total_pieces && model::holds(pm@, i as int),
{
    let mut bits = empty_bitfield(pm.total_pieces);
    let mut i: u32 = 0;
    proof {
        assert forall|j: u32| !#[trigger] bitfield::has_bit(bits@, j) by {
            bitfield::lemma_no_bit(bits@, j);
        }
    }
    while i < pm.total_pieces
        invariant
            i <= pm.total_pieces,
            bits@.len() == bitfield::bytes_for(pm@.total_pieces),
            forall|j: u32| #[trigger]
                bitfield::has_bit(bits@, j) <==> j < i && model::holds(pm@, j as int),
        decreases pm.total_pieces - i,
    {
        if pm.has_piece(i) {
            let ghost before = bits@;
            set_bit(&mut bits, i);
            proof {
                assert forall|j: u32| #[trigger] bitfield::has_bit(bits@, j) <==> j < i + 1
                    && model::holds(pm@, j as int) by {
                    bitfield::law_bit_set(before, i, j);
                }
            }
        }
        i = i + 1;
    }
    bits
}

/// What a peer is told first: the pieces that are complete, unless there are
/// none, and that something is wanted of it.
pub fn opening_messages(pm: &PieceManager) -> (out: Vec<PeerMessage>)
    requires
        model::valid(pm@),
    ensures
        out@.last()@ == Message::Interested,
        model::count_held(pm@.have) == 0 ==> out@.len() == 1,
        model::count_held(pm@.have) > 0 ==> {
            &&& out@.len() == 2
            &&& out@[0]@ matches Message::Bitfield(bits)
            &&& bits.len() == bitfield::bytes_for(pm@.total_pieces)
            &&& forall|i: u32| #[trigger]
                bitfield::has_bit(bits, i) <==> i < pm@.total_pieces && pm@.have[i as int]
        },
{
    let mut out: Vec<PeerMessage> = Vec::new();
    if pm.completed_pieces() > 0 {
        out.push(PeerMessage::Bitfield(build_bitfield(pm)));
    }
    out.push(PeerMessage::Interested);
    out
}

impl PeerSession {
    /// No more requests wait for their answers than may.
    pub open spec fn well_formed(&self) -> bool {
        self.requests_in_flight <= MAX_PIPELINE
    }

    /// A session in which nothing happened yet.
    pub fn new(peer_id: u32, total_pieces: u32) -> (out: Self)
        ensures
            out.well_formed(),
            out@ == new_session(peer_id, total_pieces),
    {
        PeerSession {
            peer_id,
            peer_bitfield: empty_bitfield(total_pieces),
            am_choked: true,
            requests_in_flight: 0,
            got_bitfield: false,
            checked_interest: false,
        }
    }

    /// Takes in a message of the peer.
    pub fn handle(&mut self, pm: &mut PieceManager, msg: PeerMessage) -> (out: Reaction)
        requires
            old(self).well_formed(),
            model::valid(old(pm)@),
            msg@ matches Message::Piece(index, begin, data) ==> {
                &&& index < old(pm)@.total_pieces
                &&& !old(pm)@.have[index as int] ==> begin + data.len() <= usize::MAX
            },
        ensures
            final(self).well_formed(),
            model::valid(final(pm)@),
            (final(self)@, final(pm)@, out@) == after_message(old(self)@, old(pm)@, msg@),
    {
        match msg {
            PeerMessage::Choke => {
                self.am_choked = true;
                self.requests_in_flight = 0;
                pm.cancel_requests(self.peer_id);
                Reaction::Continue
            },
            PeerMessage::Unchoke => {
                self.am_choked = false;
                Reaction::Continue
            },
            PeerMessage::Bitfield(bits) => {
                self.peer_bitfield = bits;
                self.got_bitfield = true;
                self.continue_if_needed(pm)
            },
            PeerMessage::Have(index) => {
                set_bit(&mut self.peer_bitfield, index);
                if !self.checked_interest && self.got_bitfield {
                    self.checked_interest = true;
                    self.continue_if_needed(pm)
                } else {
                    Reaction::Continue
                }
            },
            PeerMessage::Piece(index, begin, data) => {
                if self.requests_in_flight > 0 {
                    self.requests_in_flight = self.requests_in_flight - 1;
                }
                match pm.block_received(index, begin, data.as_slice()) {
                    None => Reaction::Continue,
                    Some(piece) => if pm.verify_piece(index, piece.as_slice()) {
                        let length = pm.piece_length(index);
                        Reaction::Write { piece_index: index, length, data: piece }
                    } else {
                        pm.discard_piece(index);
                        Reaction::Dropped(index)
                    },
                }
            },
            _ => Reaction::Continue,
        }
    }

    /// Go on only where the peer has something that is needed.
    fn continue_if_needed(&self, pm: &PieceManager) -> (out: Reaction)
        ensures
            out@ == if_needed(pm@, self@.bits),
    {
        if pm.need_piece(self.peer_bitfield.as_slice()) {
            Reaction::Continue
        } else {
            Reaction::Disconnect
        }
    }

    /// Whether what the peer would be asked for lies within the 32 bits that a
    /// request has for it.
    pub fn can_ask(&self, pm: &PieceManager) -> (out: bool)
        requires
            model::valid(pm@),
        ensures
            out == within_reach(self@, pm@),
    {
        if self.requests_in_flight >= MAX_PIPELINE || self.am_choked || pm.is_complete() {
            return true;
        }
        let bits = self.peer_bitfield.as_slice();
        assert(bits@ == self@.bits);
        pm.choice_fits(bits)
    }

    /// What to ask the peer for next. Nothing where it gives nothing, where
    /// enough requests wait for their answers or where the download is complete.
    pub fn next_request(&mut self, pm: &mut PieceManager) -> (out: Option<BlockRequest>)
        requires
            old(self).well_formed(),
            model::valid(old(pm)@),
            within_reach(old(self)@, old(pm)@),
        ensures
            final(self).well_formed(),
            model::valid(final(pm)@),
            asks(old(self)@, old(pm)@, out, final(self)@, final(pm)@),
    {
        if self.requests_in_flight >= MAX_PIPELINE || self.am_choked {
            return None;
        }
        if pm.is_complete() {
            return None;
        }
        let bits = self.peer_bitfield.as_slice();
        assert(bits@ == old(self)@.bits);
        assert(pm@ == old(pm)@);
        match pm.next_request(self.peer_id, bits) {
            Some(request) => {
                self.requests_in_flight = self.requests_in_flight + 1;
                Some(request)
            },
            None => None,
        }
    }

    /// What to do next, once a message is dealt with.
    pub fn next_step(&mut self, pm: &mut PieceManager) -> (out: NextStep)
        requires
            old(self).well_formed(),
            model::valid(old(pm)@),
            within_reach(old(self)@, old(pm)@),
        ensures
            final(self).well_formed(),
            model::valid(final(pm)@),
            step_is(old(self)@, old(pm)@, out, final(self)@, final(pm)@),
    {
        if pm.is_complete() {
            return NextStep::Leave;
        }
        match self.next_request(pm) {
            Some(request) => NextStep::Ask(request),
            None => NextStep::Listen,
        }
    }
}

/// What to do next in a session.
#[derive(Debug)]
pub enum NextStep {
    /// Ask the peer for a block, and look again what to do next.
    Ask(BlockRequest),
    /// Wait for a message.
    Listen,
    /// End the session: the download is complete.
    Leave,
}

/// Whether what a peer would be asked for lies in a piece whose offsets 32 bits
/// hold.
pub open spec fn within_reach(s: SessionModel, d: Download) -> bool {
    s.choked || s.in_flight >= MAX_PIPELINE || model::complete(d) || forall|i: int| #[trigger]
        model::chosen(d, s.bits, i) ==> model::piece_len(d, i) <= u32::MAX
}

/// What a peer is asked for next, and what that changes.
pub open spec fn asks(
    s: SessionModel,
    d: Download,
    next: Option<BlockRequest>,
    s_after: SessionModel,
    d_after: Download,
) -> bool {
    if s.choked || s.in_flight >= MAX_PIPELINE || model::complete(d) {
        next is None && s_after == s && d_after == d
    } else {
        &&& model::next_is(d, s.bits, s.peer, next, d_after)
        &&& s_after == if next is Some {
            SessionModel { in_flight: (s.in_flight + 1) as u32, ..s }
        } else {
            s
        }
    }
}

/// What to do next, and what that changes: a complete download needs the peer no
/// more.
pub open spec fn step_is(
    s: SessionModel,
    d: Download,
    step: NextStep,
    s_after: SessionModel,
    d_after: Download,
) -> bool {
    if model::complete(d) {
        step == NextStep::Leave && s_after == s && d_after == d
    } else {
        match step {
            NextStep::Ask(request) => asks(s, d, Some(request), s_after, d_after),
            NextStep::Listen => asks(s, d, None, s_after, d_after),
            NextStep::Leave => false,
        }
    }
}

/// Counts a piece as complete that was written, and drops one that was not.
pub fn settle_piece(pm: &mut PieceManager, piece_index: u32, length: u64, written: bool)
    requires
        model::valid(old(pm)@),
        piece_index < old(pm)@.total_pieces,
        written ==> old(pm)@.downloaded + length <= u64::MAX,
    ensures
        model::valid(final(pm)@),
        final(pm)@ == if written {
            model::completed(old(pm)@, piece_index as int, length)
        } else {
            model::discarded(old(pm)@, piece_index as int)
        },
{
    if written {
        pm.mark_complete(piece_index, length);
    } else {
        pm.discard_piece(piece_index);
    }
}

/// Only data that has the digest of the piece is written, and as the length of
/// the piece counts.
pub proof fn law_only_verified_written(
    s: SessionModel,
    d: Download,
    m: Message,
    piece_index: u32,
    length: u64,
    data: Seq<u8>,
)
    requires
        model::valid(d),
        m matches Message::Piece(index, _, _) ==> index < d.total_pieces,
        after_message(s, d, m).2 == (ReactionModel::Write { piece_index, length, data }),
    ensures
        model::verified(d, piece_index as int, data),
        length == model::piece_len(d, piece_index as int),
        !d.have[piece_index as int],
{
}

/// A piece that does not have its digest leaves no trace: it is not complete, and
/// all of it can be asked for again.
pub proof fn law_mismatch_asked_again(
    s: SessionModel,
    d: Download,
    m: Message,
    piece_index: u32,
)
    requires
        model::valid(d),
        m matches Message::Piece(index, _, _) ==> index < d.total_pieces,
        after_message(s, d, m).2 == ReactionModel::Dropped(piece_index),
    ensures
        !after_message(s, d, m).1.have[piece_index as int],
        after_message(s, d, m).1.blocks[piece_index as int] == model::no_blocks(),
        after_message(s, d, m).1.downloaded == d.downloaded,
{
}

/// Messages change nothing of the download but for blocks of pieces: those that
/// come in, and those that a peer was asked for that now gives nothing.
pub proof fn law_messages_keep_pieces(s: SessionModel, d: Download, m: Message)
    requires
        model::valid(d),
        m matches Message::Piece(index, _, _) ==> index < d.total_pieces,
    ensures
        model::valid(after_message(s, d, m).1),
        after_message(s, d, m).1.have == d.have,
        after_message(s, d, m).1.downloaded == d.downloaded,
        !(m is Piece) && !(m is Choke) ==> after_message(s, d, m).1 == d,
{
}

/// A peer that gives nothing any more is asked for nothing: no request of it
/// waits, and what it was asked for and has not given can be asked for again, of
/// any peer. What others were asked for stays pending.
pub proof fn law_choke_cancels(s: SessionModel, d: Download, i: int, b: int)
    requires
        model::valid(d),
        0 <= i < d.total_pieces,
        0 <= b < model::block_count(model::piece_len(d, i) as int),
        !d.blocks[i].received.contains(model::block_begin(b)),
        d.blocks[i].pending.contains_key(model::block_begin(b)),
    ensures
        after_message(s, d, Message::Choke).0.in_flight == 0,
        after_message(s, d, Message::Choke).0.choked,
        model::open_block(after_message(s, d, Message::Choke).1, i, b)
            <==> d.blocks[i].pending[model::block_begin(b)] == s.peer,
{
    laws::law_cancelled_requested_again(d, s.peer, i, b);
}

/// When the last block of a piece comes in, whatever the order of the blocks
/// was, and the blocks are those of the piece, then the piece is written.
pub proof fn law_last_block_writes_piece(
    s: SessionModel,
    d: Download,
    index: u32,
    content: Seq<u8>,
    order: Seq<int>,
)
    requires
        model::valid(d),
        index < d.total_pieces,
        !d.have[index as int],
        d.blocks[index as int].received == Set::<u32>::empty(),
        d.blocks[index as int].buffer == Seq::<u8>::empty(),
        content.len() == model::piece_len(d, index as int),
        0 < content.len() <= u32::MAX,
        model::verified(d, index as int, content),
        laws::block_order(content.len() as int, order),
        order.len() == model::block_count(content.len() as int),
    ensures
        after_message(
            s,
            laws::after_blocks(d, index as int, content, order.drop_last()),
            Message::Piece(
                index,
                model::block_begin(order.last()),
                laws::block_of(content, order.last()),
            ),
        ).2 == (ReactionModel::Write {
            piece_index: index,
            length: model::piece_len(d, index as int),
            data: content,
        }),
{
    laws::law_blocks_reassemble(d, index as int, content, order);
    laws::law_blocks_keep_rest(d, index as int, content, order.drop_last());
}

/// Messages and requests keep a download tidy.
pub proof fn law_session_keeps_tidy(
    s: SessionModel,
    d: Download,
    m: Message,
    next: Option<BlockRequest>,
    s_after: SessionModel,
    d_after: Download,
)
    requires
        laws::tidy(d),
        m matches Message::Piece(index, _, _) ==> index < d.total_pieces,
    ensures
        laws::tidy(after_message(s, d, m).1),
        asks(s, d, next, s_after, d_after) ==> laws::tidy(d_after),
{
    laws::lemma_cancelled_tidy(d, s.peer);
    if let Message::Piece(index, begin, data) = m {
        let after = model::received(d, index as int, begin, data).0;
        laws::law_kept_tidy(
            d,
            s.bits,
            s.peer,
            next,
            d_after,
            index as int,
            begin,
            data,
            0,
            Seq::empty(),
        );
        laws::law_kept_tidy(
            after,
            s.bits,
            s.peer,
            next,
            d_after,
            index as int,
            begin,
            data,
            0,
            Seq::empty(),
        );
    }
    if asks(s, d, next, s_after, d_after) && d.total_pieces > 0 {
        laws::law_kept_tidy(
            d,
            s.bits,
            s.peer,
            next,
            d_after,
            0,
            0,
            Seq::empty(),
            0,
            Seq::empty(),
        );
    }
}

} // verus!
