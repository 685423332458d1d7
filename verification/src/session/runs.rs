//! What holds over any sequence of events of a session with one peer.
use vstd::prelude::*;

use crate::peer::message::Message;
use crate::piece::model;
use crate::piece::model::Download;
use crate::piece::BlockRequest;
use crate::session::peer;
use crate::session::peer::{ReactionModel, SessionModel, MAX_PIPELINE};

verus! {

/// An event of a session: a message of the peer, or that it was looked for
/// something to ask the peer for. What others do to the download in between is
/// not told.
pub enum Event {
    Message { d: Download, m: Message },
    Asked { d: Download, next: Option<BlockRequest>, after: Download },
}

/// Whether an event turns what is known of a peer into `after`.
pub open spec fn moves(s: SessionModel, e: Event, after: SessionModel) -> bool {
    match e {
        Event::Message { d, m } => after == peer::after_message(s, d, m).0,
        Event::Asked { d, next, after: d_after } => peer::asks(s, d, next, after, d_after),
    }
}

/// Whether the events are those of a session from its start on.
pub open spec fn talk(
    states: Seq<SessionModel>,
    events: Seq<Event>,
    peer: u32,
    total_pieces: u32,
) -> bool {
    &&& states.len() == events.len() + 1
    &&& states[0] == peer::new_session(peer, total_pieces)
    &&& forall|k: int|
        0 <= k < events.len() ==> moves(states[k], #[trigger] events[k], states[k + 1])
}

/// Whether an event sends a request.
pub open spec fn sends(e: Event) -> bool {
    e matches Event::Asked { next: Some(_), .. }
}

/// The number of requests that the events from `from` up to `n` send.
pub open spec fn sent(events: Seq<Event>, from: int, n: int) -> int
    decreases n - from,
{
    if n <= from {
        0
    } else {
        sent(events, from, n - 1) + if sends(events[n - 1]) {
            1int
        } else {
            0
        }
    }
}

/// The number of blocks that the events from `from` up to `n` bring.
pub open spec fn brought(events: Seq<Event>, from: int, n: int) -> int
    decreases n - from,
{
    if n <= from {
        0
    } else {
        brought(events, from, n - 1) + if events[n - 1] matches Event::Message {
            m: Message::Piece(..),
            ..
        } {
            1int
        } else {
            0
        }
    }
}

/// Whether an event takes back all requests.
pub open spec fn chokes(e: Event) -> bool {
    e matches Event::Message { m: Message::Choke, .. }
}

/// Whether the last message of the first `n` events that says so says that the
/// peer gives something.
pub open spec fn unchoked(events: Seq<Event>, n: int) -> bool
    decreases n,
{
    n > 0 && match events[n - 1] {
        Event::Message { m: Message::Unchoke, .. } => true,
        Event::Message { m: Message::Choke, .. } => false,
        _ => unchoked(events, n - 1),
    }
}

proof fn lemma_talk(
    states: Seq<SessionModel>,
    events: Seq<Event>,
    peer: u32,
    total_pieces: u32,
    n: int,
)
    requires
        talk(states, events, peer, total_pieces),
        0 <= n <= events.len(),
    ensures
        states[n].choked == !unchoked(events, n),
        states[n].in_flight <= MAX_PIPELINE,
    decreases n,
{
    if n > 0 {
        lemma_talk(states, events, peer, total_pieces, n - 1);
        assert(moves(states[n - 1], events[n - 1], states[n]));
    }
}

proof fn lemma_unanswered(
    states: Seq<SessionModel>,
    events: Seq<Event>,
    peer: u32,
    total_pieces: u32,
    from: int,
    n: int,
)
    requires
        talk(states, events, peer, total_pieces),
        0 <= from <= n <= events.len(),
        forall|k: int| from <= k < n ==> !chokes(#[trigger] events[k]),
    ensures
        sent(events, from, n) - brought(events, from, n) <= states[n].in_flight,
    decreases n - from,
{
    if n > from {
        lemma_unanswered(states, events, peer, total_pieces, from, n - 1);
        lemma_talk(states, events, peer, total_pieces, n - 1);
        assert(moves(states[n - 1], events[n - 1], states[n]));
        assert(!chokes(events[n - 1]));
    }
}

/// As long as the peer does not take all requests back, no more requests are sent
/// than blocks come in and may be unanswered besides: from the start of the
/// session up to the first time that it does, and from any moment on up to the
/// next.
pub proof fn law_unanswered_bounded(
    states: Seq<SessionModel>,
    events: Seq<Event>,
    peer: u32,
    total_pieces: u32,
    from: int,
    n: int,
)
    requires
        talk(states, events, peer, total_pieces),
        0 <= from <= n <= events.len(),
        forall|k: int| from <= k < n ==> !chokes(#[trigger] events[k]),
    ensures
        sent(events, from, n) - brought(events, from, n) <= MAX_PIPELINE,
{
    lemma_unanswered(states, events, peer, total_pieces, from, n);
    lemma_talk(states, events, peer, total_pieces, n);
}

/// A request is sent only while the last word of the peer is that it gives
/// something.
pub proof fn law_requests_while_unchoked(
    states: Seq<SessionModel>,
    events: Seq<Event>,
    peer: u32,
    total_pieces: u32,
    n: int,
)
    requires
        talk(states, events, peer, total_pieces),
        0 <= n < events.len(),
        sends(events[n]),
    ensures
        unchoked(events, n),
{
    lemma_talk(states, events, peer, total_pieces, n);
    assert(moves(states[n], events[n], states[n + 1]));
}

/// An event of a session that has the download to itself: a message of the peer,
/// that a piece was written or could not be, or that it was looked for something
/// to ask the peer for.
pub enum TaskEvent {
    Message(Message),
    Settled { piece_index: u32, length: u64, written: bool },
    Asked(Option<BlockRequest>),
}

/// What is known of the peer, and the download.
pub struct TaskState {
    pub s: SessionModel,
    pub d: Download,
}

/// What is to be done after an event.
pub open spec fn reaction(t: TaskState, e: TaskEvent) -> ReactionModel {
    match e {
        TaskEvent::Message(m) => peer::after_message(t.s, t.d, m).2,
        _ => ReactionModel::Continue,
    }
}

/// Whether an event turns one state into another.
pub open spec fn steps(t: TaskState, e: TaskEvent, after: TaskState) -> bool {
    match e {
        TaskEvent::Message(m) => {
            &&& m matches Message::Piece(index, _, _) ==> index < t.d.total_pieces
            &&& after.s == peer::after_message(t.s, t.d, m).0
            &&& after.d == peer::after_message(t.s, t.d, m).1
        },
        TaskEvent::Settled { piece_index, length, written } => {
            &&& piece_index < t.d.total_pieces
            &&& written ==> t.d.downloaded + length <= u64::MAX
            &&& after.s == t.s
            &&& after.d == if written {
                model::completed(t.d, piece_index as int, length)
            } else {
                model::discarded(t.d, piece_index as int)
            }
        },
        TaskEvent::Asked(next) => peer::asks(t.s, t.d, next, after.s, after.d),
    }
}

/// Whether it was said of a piece whether it was written right after it was to be
/// written.
pub open spec fn settles(before: TaskState, e: TaskEvent, next: TaskEvent) -> bool {
    match (reaction(before, e), next) {
        (
            ReactionModel::Write { piece_index, length, .. },
            TaskEvent::Settled { piece_index: i, length: n, .. },
        ) => i == piece_index && n == length,
        (ReactionModel::Write { .. }, _) => false,
        (_, TaskEvent::Settled { .. }) => false,
        _ => true,
    }
}

/// Whether the events are those of a session that has the download to itself.
pub open spec fn task(states: Seq<TaskState>, events: Seq<TaskEvent>) -> bool {
    &&& states.len() == events.len() + 1
    &&& model::valid(states[0].d)
    &&& events.len() > 0 ==> !(events[0] is Settled)
    &&& forall|k: int|
        0 <= k < events.len() ==> steps(states[k], #[trigger] events[k], states[k + 1])
    &&& forall|k: int|
        0 <= k < events.len() - 1 ==> settles(states[k], #[trigger] events[k], events[k + 1])
}

proof fn lemma_task_valid(states: Seq<TaskState>, events: Seq<TaskEvent>, n: int)
    requires
        task(states, events),
        0 <= n <= events.len(),
    ensures
        model::valid(states[n].d),
    decreases n,
{
    if n > 0 {
        lemma_task_valid(states, events, n - 1);
        assert(steps(states[n - 1], events[n - 1], states[n]));
    }
}

/// Data is written only where it has the digest of its piece, which is not
/// complete then.
pub proof fn law_task_writes_verified(
    states: Seq<TaskState>,
    events: Seq<TaskEvent>,
    k: int,
    piece_index: u32,
    length: u64,
    data: Seq<u8>,
)
    requires
        task(states, events),
        0 <= k < events.len(),
        reaction(states[k], events[k]) == (ReactionModel::Write { piece_index, length, data }),
    ensures
        piece_index < states[k].d.total_pieces,
        model::verified(states[k].d, piece_index as int, data),
        length == model::piece_len(states[k].d, piece_index as int),
        !states[k].d.have[piece_index as int],
        !states[k + 1].d.have[piece_index as int],
        states[k + 1].d.downloaded == states[k].d.downloaded,
{
    lemma_task_valid(states, events, k);
    assert(steps(states[k], events[k], states[k + 1]));
}

/// Whether data of the piece was found to have its digest, was written, and the
/// event says so.
pub open spec fn written_now(
    states: Seq<TaskState>,
    events: Seq<TaskEvent>,
    k: int,
    i: int,
) -> bool {
    &&& k > 0
    &&& events[k] matches TaskEvent::Settled { piece_index, length, written }
    &&& written
    &&& piece_index == i
    &&& length == model::piece_len(states[k].d, i)
    &&& reaction(states[k - 1], events[k - 1]) matches ReactionModel::Write {
        piece_index: index,
        data,
        ..
    }
    &&& index == i
    &&& model::verified(states[k - 1].d, i, data)
}

/// A piece becomes complete, and its length counts as downloaded, only when its
/// data was found to have its digest and was written; and what is complete stays
/// so.
pub proof fn law_task_completes_written(
    states: Seq<TaskState>,
    events: Seq<TaskEvent>,
    k: int,
    i: int,
)
    requires
        task(states, events),
        0 <= k < events.len(),
        0 <= i < states[k].d.total_pieces,
    ensures
        states[k].d.have[i] ==> states[k + 1].d.have[i],
        states[k + 1].d.have[i] && !states[k].d.have[i] <==> written_now(states, events, k, i),
        written_now(states, events, k, i) ==> states[k + 1].d.downloaded
            == states[k].d.downloaded + model::piece_len(states[k].d, i),
        !(exists|j: int|
            0 <= j < states[k].d.total_pieces && #[trigger] written_now(states, events, k, j))
            ==> states[k + 1].d.downloaded == states[k].d.downloaded,
{
    lemma_task_valid(states, events, k);
    assert(steps(states[k], events[k], states[k + 1]));
    if let TaskEvent::Settled { piece_index, length, written } = events[k] {
        lemma_task_valid(states, events, k - 1);
        assert(steps(states[k - 1], events[k - 1], states[k]));
        assert(settles(states[k - 1], events[k - 1], events[k]));
        if written {
            assert(written_now(states, events, k, piece_index as int));
        }
    }
}

/// A piece that does not have its digest, or that could not be written, is not
/// complete, does not count as downloaded, and all of its blocks can be asked for
/// again.
pub proof fn law_task_failure_leaves_no_trace(
    states: Seq<TaskState>,
    events: Seq<TaskEvent>,
    k: int,
    i: int,
    b: int,
)
    requires
        task(states, events),
        0 <= k < events.len(),
        ({
            ||| reaction(states[k], events[k]) == ReactionModel::Dropped(i as u32)
            ||| events[k] matches TaskEvent::Settled { piece_index, written: false, .. }
                && piece_index == i as u32
        }),
        0 <= i < states[k].d.total_pieces,
        0 <= b < model::block_count(model::piece_len(states[k].d, i) as int),
    ensures
        !states[k + 1].d.have[i],
        states[k + 1].d.downloaded == states[k].d.downloaded,
        model::open_block(states[k + 1].d, i, b),
{
    lemma_task_valid(states, events, k);
    assert(steps(states[k], events[k], states[k + 1]));
    if events[k] is Settled {
        lemma_task_valid(states, events, k - 1);
        assert(steps(states[k - 1], events[k - 1], states[k]));
        assert(settles(states[k - 1], events[k - 1], events[k]));
    }
}

} // verus!
