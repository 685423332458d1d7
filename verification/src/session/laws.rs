//! What holds of what is known of peers and of what follows from their messages.
use vstd::prelude::*;
use vstd::utf8::*;

use crate::bitfield;
use crate::digest;
use crate::peer::message::Message;
use crate::piece::choice;
use crate::piece::model;
use crate::piece::model::Download;
use crate::piece::BlockRequest;
use crate::scan;
use crate::session;
use crate::session::peer;
use crate::session::peer::{ReactionModel, SessionModel};
use crate::session::runs;
use crate::session::runs::Event;
use crate::session::swarm;
use crate::session::swarm::Outcome;
use crate::tracker;
use crate::tracker::PeerAddr;
use crate::unique;

verus! {

/// After a peer says that it has a piece, whatever it said before, it is known to
/// have that piece, where its bitfield has room for it; and what is known of all
/// other pieces stays.
pub proof fn law_have_known(s: SessionModel, d: Download, i: u32, j: u32)
    ensures
        bitfield::has_bit(peer::after_message(s, d, Message::Have(i)).0.bits, j) <==> {
            ||| bitfield::has_bit(s.bits, j)
            ||| j == i && i / 8 < s.bits.len()
        },
        peer::after_message(s, d, Message::Have(i)).0.bits.len() == s.bits.len(),
{
    bitfield::law_bit_set(s.bits, i, j);
}

/// A bitfield says all that is known of the pieces of a peer, and messages that are
/// neither that nor tell of a piece change nothing of it.
pub proof fn law_bitfield_known(s: SessionModel, d: Download, m: Message, bits: Seq<u8>)
    ensures
        m == Message::Bitfield(bits) ==> peer::after_message(s, d, m).0.bits == bits,
        !(m is Bitfield) && !(m is Have) ==> peer::after_message(s, d, m).0.bits == s.bits,
        m is Bitfield ==> peer::after_message(s, d, m).0.got_bitfield,
        !(m is Bitfield) ==> peer::after_message(s, d, m).0.got_bitfield == s.got_bitfield,
{
}

/// Whether an event is a bitfield.
pub open spec fn gives_bitfield(e: Event) -> bool {
    e matches Event::Message { m: Message::Bitfield(_), .. }
}

/// Whether an event names a piece as one that the peer has, where its bitfield has
/// `size` bytes.
pub open spec fn names_piece(e: Event, size: nat, j: u32) -> bool {
    match e {
        Event::Message { m: Message::Bitfield(bits), .. } => bitfield::has_bit(bits, j),
        Event::Message { m: Message::Have(i), .. } => i == j && i / 8 < size,
        _ => false,
    }
}

/// At every moment of a session, a piece is known to be the peer's exactly where a
/// message named it and no bitfield came after that message.
pub proof fn law_known_pieces(
    states: Seq<SessionModel>,
    events: Seq<Event>,
    peer: u32,
    total_pieces: u32,
    n: int,
    j: u32,
)
    requires
        runs::talk(states, events, peer, total_pieces),
        0 <= n <= events.len(),
    ensures
        bitfield::has_bit(states[n].bits, j) <==> exists|k: int|
            0 <= k < n && #[trigger] names_piece(events[k], states[k].bits.len(), j) && (forall|
                l: int,
            |
                k < l < n ==> !gives_bitfield(#[trigger] events[l])),
    decreases n,
{
    if n == 0 {
        bitfield::lemma_no_bit(states[0].bits, j);
    } else {
        law_known_pieces(states, events, peer, total_pieces, n - 1, j);
        assert(runs::moves(states[n - 1], events[n - 1], states[n]));
        let (e, s) = (events[n - 1], states[n - 1]);
        let size = s.bits.len();
        if names_piece(e, size, j) {
            if let Event::Message { d, m: Message::Have(i) } = e {
                law_have_known(s, d, i, j);
            }
            assert(names_piece(events[n - 1], states[n - 1].bits.len(), j));
        } else {
            if let Event::Message { d, m: Message::Have(i) } = e {
                law_have_known(s, d, i, j);
            }
            if !gives_bitfield(e) {
                assert(bitfield::has_bit(states[n].bits, j) == bitfield::has_bit(s.bits, j));
                if bitfield::has_bit(s.bits, j) {
                    let k = choose|k: int|
                        0 <= k < n - 1 && #[trigger] names_piece(
                            events[k],
                            states[k].bits.len(),
                            j,
                        ) && (forall|l: int|
                            k < l < n - 1 ==> !gives_bitfield(#[trigger] events[l]));
                    assert forall|l: int| k < l < n implies !gives_bitfield(
                        #[trigger] events[l],
                    ) by {}
                }
            }
        }
    }
}

/// The bitfield of a peer has room for every piece until the peer sends one.
pub proof fn law_room_for_all(
    states: Seq<SessionModel>,
    events: Seq<Event>,
    peer: u32,
    total_pieces: u32,
    n: int,
    j: u32,
)
    requires
        runs::talk(states, events, peer, total_pieces),
        0 <= n <= events.len(),
        forall|l: int| 0 <= l < n ==> !gives_bitfield(#[trigger] events[l]),
        j < total_pieces,
    ensures
        j / 8 < states[n].bits.len(),
    decreases n,
{
    if n > 0 {
        law_room_for_all(states, events, peer, total_pieces, n - 1, j);
        assert(runs::moves(states[n - 1], events[n - 1], states[n]));
        assert(!gives_bitfield(events[n - 1]));
    }
}

/// A peer gives something exactly where its last word on that is that it does.
pub proof fn law_gives_when_unchoked(
    states: Seq<SessionModel>,
    events: Seq<Event>,
    peer: u32,
    total_pieces: u32,
    n: int,
)
    requires
        runs::talk(states, events, peer, total_pieces),
        0 <= n <= events.len(),
    ensures
        states[n].choked <==> !exists|k: int|
            0 <= k < n && #[trigger] unchokes(events[k]) && (forall|l: int|
                k < l < n ==> !runs::chokes(#[trigger] events[l])),
    decreases n,
{
    if n > 0 {
        law_gives_when_unchoked(states, events, peer, total_pieces, n - 1);
        assert(runs::moves(states[n - 1], events[n - 1], states[n]));
        let e = events[n - 1];
        if unchokes(e) {
            assert(unchokes(events[n - 1]));
        } else if !runs::chokes(e) {
            assert(states[n].choked == states[n - 1].choked);
            if !states[n - 1].choked {
                let k = choose|k: int|
                    0 <= k < n - 1 && #[trigger] unchokes(events[k]) && (forall|l: int|
                        k < l < n - 1 ==> !runs::chokes(#[trigger] events[l]));
                assert forall|l: int| k < l < n implies !runs::chokes(#[trigger] events[l]) by {}
            }
        }
    }
}

/// Whether an event is that the peer gives something.
pub open spec fn unchokes(e: Event) -> bool {
    e matches Event::Message { m: Message::Unchoke, .. }
}

/// A session starts with a peer that gives nothing and has nothing, of which
/// nothing was asked.
pub proof fn law_session_starts(peer: u32, total_pieces: u32, j: u32)
    ensures
        ({
            let s = peer::new_session(peer, total_pieces);
            &&& s.peer == peer
            &&& s.choked
            &&& s.in_flight == 0
            &&& !s.got_bitfield
            &&& !bitfield::has_bit(s.bits, j)
            &&& j < total_pieces ==> j / 8 < s.bits.len()
        }),
{
    bitfield::lemma_no_bit(peer::new_session(peer, total_pieces).bits, j);
}

/// What a message does to the requests that wait: a block answers one, a choke
/// takes all back, and all else leaves them.
pub proof fn law_requests_waiting(s: SessionModel, d: Download, m: Message)
    ensures
        ({
            let after = peer::after_message(s, d, m).0;
            &&& after.peer == s.peer
            &&& m is Choke ==> after.in_flight == 0 && after.choked
            &&& m is Unchoke ==> after.in_flight == s.in_flight && !after.choked
            &&& m is Piece && s.in_flight > 0 ==> after.in_flight == s.in_flight - 1
            &&& m is Piece && s.in_flight == 0 ==> after.in_flight == 0
            &&& !(m is Piece) && !(m is Choke) ==> after.in_flight == s.in_flight
            &&& !(m is Choke) && !(m is Unchoke) ==> after.choked == s.choked
        }),
{
}

/// A session is left exactly when a bitfield, or the first word of a piece after
/// one, shows that the peer has no piece that is not complete here.
pub proof fn law_left_when_useless(s: SessionModel, d: Download, m: Message)
    requires
        model::valid(d),
    ensures
        ({
            let (after, _, reaction) = peer::after_message(s, d, m);
            reaction == ReactionModel::Disconnect <==> {
                &&& m is Bitfield || (m is Have && s.got_bitfield && !s.checked_interest)
                &&& forall|i: u32|
                    i < d.total_pieces && #[trigger] bitfield::has_bit(after.bits, i)
                        ==> d.have[i as int]
            }
        }),
        m is Have && s.got_bitfield ==> peer::after_message(s, d, m).0.checked_interest,
        !(m is Have && s.got_bitfield) ==> peer::after_message(s, d, m).0.checked_interest
            == s.checked_interest,
{
    let after = peer::after_message(s, d, m).0;
    choice::law_needed(d, after.bits);
}

/// A block goes to its piece; where it is the last one, the piece is written where
/// its digest is right and dropped where it is not. Nothing else is written or
/// dropped.
pub proof fn law_block_handled(s: SessionModel, d: Download, m: Message)
    requires
        model::valid(d),
        m matches Message::Piece(index, _, _) ==> index < d.total_pieces,
    ensures
        ({
            let (_, after, reaction) = peer::after_message(s, d, m);
            &&& reaction is Write || reaction is Dropped ==> m is Piece
            &&& m matches Message::Piece(index, begin, data) ==> {
                let (stored, piece) = model::received(d, index as int, begin, data);
                &&& piece is None ==> reaction == ReactionModel::Continue && after == stored
                &&& piece is Some && digest::sha1(piece->0) == d.hashes[index as int] ==> {
                    &&& reaction matches ReactionModel::Write { piece_index, length, data }
                    &&& piece_index == index
                    &&& length == model::piece_len(d, index as int)
                    &&& data == piece->0
                    &&& after == stored
                }
                &&& piece is Some && digest::sha1(piece->0) != d.hashes[index as int] ==> {
                    &&& reaction == ReactionModel::Dropped(index)
                    &&& after == model::discarded(stored, index as int)
                }
            }
        }),
{
}

/// A peer that gives something is asked for a block while fewer than five requests
/// wait and it has a piece that is not complete, as long as each such piece has a
/// block that neither waits nor came in; and it is asked only for what it has.
pub proof fn law_peer_asked(
    s: SessionModel,
    d: Download,
    next: Option<BlockRequest>,
    s_after: SessionModel,
    d_after: Download,
    i: int,
)
    requires
        model::valid(d),
        peer::asks(s, d, next, s_after, d_after),
    ensures
        s.choked || s.in_flight >= 5 ==> next is None,
        !s.choked && s.in_flight < 5 && choice::wanted(d, s.bits, i) && (forall|j: int| #[trigger]
            choice::wanted(d, s.bits, j) ==> exists|b: int| #[trigger]
                choice::free_block(d, j, b)) ==> next is Some,
        next matches Some(r) ==> bitfield::has_bit(s.bits, r.piece_index)
            && d_after.blocks[r.piece_index as int].pending.contains_key(r.begin)
            && d_after.blocks[r.piece_index as int].pending[r.begin] == s.peer,
        s_after == (SessionModel {
            in_flight: (s.in_flight + if next is Some {
                1int
            } else {
                0
            }) as u32,
            ..s
        }),
{
    if !s.choked && s.in_flight < 5 && !model::complete(d) {
        choice::law_asked_while_open(d, s.bits, s.peer, next, d_after, i);
    }
    if model::complete(d) && choice::wanted(d, s.bits, i) {
        assert(d.have[i]);
    }
}

/// A session ends exactly when the download is complete.
pub proof fn law_left_when_complete(
    s: SessionModel,
    d: Download,
    step: peer::NextStep,
    s_after: SessionModel,
    d_after: Download,
)
    requires
        model::valid(d),
        peer::step_is(s, d, step, s_after, d_after),
    ensures
        step is Leave <==> forall|i: int| 0 <= i < d.total_pieces ==> #[trigger] d.have[i],
        step matches peer::NextStep::Ask(r) ==> peer::asks(s, d, Some(r), s_after, d_after),
        step is Listen ==> peer::asks(s, d, None, s_after, d_after),
{
}

/// Of an answer the first hundred peers are taken, in its order.
pub proof fn law_first_peers(peers: Seq<PeerAddr>, k: int)
    ensures
        swarm::first_peers(peers).len() == if peers.len() < 100 {
            peers.len()
        } else {
            100
        },
        0 <= k < swarm::first_peers(peers).len() ==> swarm::first_peers(peers)[k] == peers[k],
{
}

/// The newcomers stand in the order in which they were named.
pub proof fn law_newcomers_in_order(known: Seq<PeerAddr>, peers: Seq<PeerAddr>)
    ensures
        swarm::newcomers(known, peers) == unique::unique(peers).filter(
            |x: PeerAddr| !known.contains(x),
        ),
    decreases peers.len(),
{
    let stranger = |x: PeerAddr| !known.contains(x);
    reveal(Seq::filter);
    if peers.len() > 0 {
        let rest = peers.drop_last();
        law_newcomers_in_order(known, rest);
        swarm::law_newcomers(known, rest);
        unique::law_unique(rest);
        let front = unique::unique(rest);
        let last = peers.last();
        assert(rest.contains(last) <==> front.contains(last));
        if !front.contains(last) {
            assert(front.push(last).drop_last() =~= front);
        }
    }
}

/// The peers that an answer names.
pub open spec fn peers_of(o: Outcome) -> Seq<PeerAddr> {
    match o {
        Ok((peers, _)) => peers,
        Err(_) => Seq::empty(),
    }
}

/// The answers of all trackers are taken together, tracker by tracker, each address
/// once. It is an error only where no tracker answered, and then the last error is
/// told. Where no tracker gave an interval, it is zero.
pub proof fn law_answers_merged(outcomes: Seq<Outcome>, why: Seq<char>)
    ensures
        swarm::merged(outcomes) is Ok <==> exists|i: int|
            0 <= i < outcomes.len() && #[trigger] outcomes[i] is Ok,
        swarm::merged(outcomes) matches Ok((peers, _)) ==> peers == unique::unique(
            Seq::new(outcomes.len(), |i: int| peers_of(outcomes[i])).flatten(),
        ),
        swarm::merged(outcomes) is Err && outcomes.len() > 0 && outcomes.last() == Err::<
            (Seq<PeerAddr>, u32),
            _,
        >(why) ==> swarm::merged(outcomes) == Err::<(Seq<PeerAddr>, u32), _>(
            "all trackers failed: "@ + why,
        ),
        swarm::merged(outcomes) matches Ok((_, interval)) ==> (interval == 0 <==> forall|i: int|
            0 <= i < outcomes.len() ==> (#[trigger] outcomes[i] matches Ok((_, n)) ==> n == 0)),
{
    let lists = Seq::new(outcomes.len(), |i: int| peers_of(outcomes[i]));
    lists.lemma_flatten_and_flatten_alt_are_equivalent();
    lemma_all_peers(outcomes);
    if swarm::merged(outcomes) is Ok {
        let interval = (swarm::merged(outcomes)->Ok_0).1;
        if interval == 0 {
            assert forall|i: int| 0 <= i < outcomes.len() implies (#[trigger] outcomes[i] matches Ok(
                (_, n),
            ) ==> n == 0) by {
                if outcomes[i] is Ok && (outcomes[i]->Ok_0).1 > 0 {
                    swarm::law_merged_interval(outcomes, i);
                }
            }
        } else {
            swarm::law_merged_interval_given(outcomes);
            let i = choose|i: int|
                0 <= i < outcomes.len() && (#[trigger] outcomes[i] matches Ok((_, n)) && n
                    == interval);
            assert(outcomes[i] is Ok && (outcomes[i]->Ok_0).1 != 0);
        }
    }
}

proof fn lemma_all_peers(outcomes: Seq<Outcome>)
    ensures
        swarm::all_peers(outcomes) == Seq::new(
            outcomes.len(),
            |i: int| peers_of(outcomes[i]),
        ).flatten_alt(),
    decreases outcomes.len(),
{
    let lists = Seq::new(outcomes.len(), |i: int| peers_of(outcomes[i]));
    if outcomes.len() > 0 {
        let rest = outcomes.drop_last();
        lemma_all_peers(rest);
        assert(lists.drop_last() =~= Seq::new(rest.len(), |i: int| peers_of(rest[i])));
        assert(lists.last() == peers_of(outcomes.last()));
        assert(swarm::all_peers(rest) + Seq::<PeerAddr>::empty() =~= swarm::all_peers(rest));
    }
}

/// What is missing and what is there make up the whole.
pub proof fn law_missing(total: u64, downloaded: u64)
    ensures
        downloaded <= total ==> swarm::missing(total, downloaded) + downloaded == total,
        downloaded > total ==> swarm::missing(total, downloaded) == 0,
{
}

/// An identification has twenty bytes: the name and version of this client, and
/// twelve digits, one for each random byte.
pub proof fn law_peer_id(random: Seq<u8>, i: int)
    requires
        random.len() == 12,
    ensures
        session::peer_id_of(random).len() == 20,
        session::peer_id_of(random).take(8) == seq![45u8, 84, 79, 48, 48, 48, 49, 45],
        0 <= i < 12 ==> 48 <= session::peer_id_of(random)[8 + i] <= 57,
        0 <= i < 12 && random[i] < 208 ==> (session::peer_id_of(random)[8 + i] - 48) == (random[i]
            + 48) % 10,
        0 <= i < 12 && random[i] >= 208 ==> (session::peer_id_of(random)[8 + i] - 48) == (random[i]
            - 208) % 10,
{
    reveal_strlit("-TO0001-");
    is_ascii_chars_encode_utf8("-TO0001-"@);
    let prefix = session::client_id_prefix();
    assert forall|k: int| 0 <= k < 8 implies prefix[k] == ("-TO0001-"@[k]) as u8 by {}
    assert(prefix =~= seq![45u8, 84, 79, 48, 48, 48, 49, 45]);
    assert(session::peer_id_of(random).take(8) =~= prefix);
}

/// The trackers that are asked besides those of a torrent.
pub proof fn law_default_trackers()
    ensures
        session::default_tracker_texts() == seq![
            "udp://tracker.opentrackr.org:1337/announce"@,
            "https://tracker.gbitt.info/announce"@,
        ],
{
}

/// A text counts as a tracker exactly where it can be asked.
pub proof fn law_tracker_like(s: Seq<char>)
    ensures
        session::tracker_like(s) <==> tracker::kind_of(s) is Some,
{
}

/// The trackers of a list: what stands between the commas, without the white space
/// around it, where it can be asked; in order and each once.
pub proof fn law_listed_trackers(raw: Seq<char>)
    ensures
        session::listed_trackers(raw) == unique::unique(
            scan::split(raw, ',').map_values(|part: Seq<char>| scan::trimmed(part)).filter(
                |part: Seq<char>| tracker::kind_of(part) is Some,
            ),
        ),
{
    lemma_tracker_like_among(scan::split(raw, ','));
}

proof fn lemma_tracker_like_among(parts: Seq<Seq<char>>)
    ensures
        session::tracker_like_among(parts) == parts.map_values(
            |part: Seq<char>| scan::trimmed(part),
        ).filter(|part: Seq<char>| tracker::kind_of(part) is Some),
    decreases parts.len(),
{
    reveal(Seq::filter);
    let trimmed = parts.map_values(|part: Seq<char>| scan::trimmed(part));
    if parts.len() > 0 {
        let rest = parts.drop_last();
        lemma_tracker_like_among(rest);
        assert(trimmed.drop_last() =~= rest.map_values(|part: Seq<char>| scan::trimmed(part)));
    }
}

/// The override counts where it names a tracker, and then alone; else the trackers
/// of the torrent are asked and after them the default ones, each once.
pub proof fn law_effective_trackers(builtin: Seq<Seq<char>>, raw: Seq<char>)
    ensures
        session::listed_trackers(raw).len() > 0 ==> session::effective(builtin, Some(raw))
            == session::listed_trackers(raw),
        session::listed_trackers(raw).len() == 0 ==> session::effective(builtin, Some(raw))
            == session::effective(builtin, None),
        session::effective(builtin, None) == unique::unique(
            builtin + seq![
                "udp://tracker.opentrackr.org:1337/announce"@,
                "https://tracker.gbitt.info/announce"@,
            ],
        ),
{
}

/// How many peers are talked to at the same time, and how long is waited.
pub proof fn law_limits()
    ensures
        session::MAX_CONCURRENT_PEERS == 20,
        session::PORT == 6881,
        peer::MAX_PIPELINE == 5,
        swarm::MAX_PEERS == 100,
        swarm::CONNECT_ATTEMPTS == 3,
        swarm::RECONNECT_DELAY_SECS == 5,
        swarm::RE_ANNOUNCE_SECS == 60,
        crate::peer::BLOCK_SIZE == 16384,
        crate::peer::CONNECT_TIMEOUT_SECS == 5,
        crate::peer::RECV_TIMEOUT_SECS == 120,
        crate::peer::HANDSHAKE_LEN == 68,
{
}

} // verus!
