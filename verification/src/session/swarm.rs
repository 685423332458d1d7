//! The peers of a download: what trackers answer and whom to talk to.
use vstd::prelude::*;
use vstd::string::*;

use crate::error::Error;
use crate::text::joined;
use crate::tracker::{Announce, AnnounceResponse, PeerAddr, TrackerEvent};
use crate::unique;

verus! {

/// How many peers are taken from one answer.
pub const MAX_PEERS: usize = 100;

/// How often a connection to a peer is tried.
pub const CONNECT_ATTEMPTS: u32 = 3;

/// How long to wait before a connection is tried again, in seconds.
pub const RECONNECT_DELAY_SECS: u64 = 5;

/// How long to wait before trackers are asked again, in seconds.
pub const RE_ANNOUNCE_SECS: u64 = 60;

/// What a tracker answered: the addresses and the interval, or an error.
pub type Outcome = Result<(Seq<PeerAddr>, u32), Seq<char>>;

/// What a tracker answered.
pub open spec fn outcome_of(r: Result<AnnounceResponse, Error>) -> Outcome {
    match r {
        Ok(answer) => Ok((answer.peers@, answer.interval)),
        Err(e) => Err(e.text()),
    }
}

/// What the trackers answered.
pub open spec fn outcomes_of(rs: Seq<Result<AnnounceResponse, Error>>) -> Seq<Outcome> {
    Seq::new(rs.len(), |i: int| outcome_of(rs[i]))
}

/// The addresses that the trackers gave, one tracker after the other.
pub open spec fn all_peers(outcomes: Seq<Outcome>) -> Seq<PeerAddr>
    decreases outcomes.len(),
{
    if outcomes.len() == 0 {
        Seq::empty()
    } else {
        match outcomes.last() {
            Ok((peers, _)) => all_peers(outcomes.drop_last()) + peers,
            Err(_) => all_peers(outcomes.drop_last()),
        }
    }
}

/// The shortest interval that a tracker gave, but for zero.
pub open spec fn shortest_interval(outcomes: Seq<Outcome>) -> Option<u32>
    decreases outcomes.len(),
{
    if outcomes.len() == 0 {
        None
    } else {
        let front = shortest_interval(outcomes.drop_last());
        match (outcomes.last(), front) {
            (Ok((_, interval)), None) if interval > 0 => Some(interval),
            (Ok((_, interval)), Some(shortest)) if interval > 0 && interval < shortest => Some(
                interval,
            ),
            _ => front,
        }
    }
}

/// Whether some tracker answered.
pub open spec fn any_answered(outcomes: Seq<Outcome>) -> bool {
    exists|i: int| 0 <= i < outcomes.len() && (#[trigger] outcomes[i]) is Ok
}

/// The last error, or nothing where there was none.
pub open spec fn last_error(outcomes: Seq<Outcome>) -> Seq<char>
    decreases outcomes.len(),
{
    if outcomes.len() == 0 {
        Seq::empty()
    } else {
        match outcomes.last() {
            Ok(_) => last_error(outcomes.drop_last()),
            Err(e) => e,
        }
    }
}

/// What the trackers answered together: every address once, and the shortest
/// interval. Only where none of them answered, it is an error.
pub open spec fn merged(outcomes: Seq<Outcome>) -> Outcome {
    if any_answered(outcomes) {
        Ok(
            (
                unique::unique(all_peers(outcomes)),
                match shortest_interval(outcomes) {
                    Some(interval) => interval,
                    None => 0,
                },
            ),
        )
    } else {
        Err("all trackers failed: "@ + last_error(outcomes))
    }
}

/// Whether `list` holds `addr`.
fn holds_addr(list: &Vec<PeerAddr>, addr: PeerAddr) -> (found: bool)
    ensures
        found == list@.contains(addr),
{
    let mut i: usize = 0;
    while i < list.len()
        invariant
            i <= list@.len(),
            forall|j: int| 0 <= j < i ==> #[trigger] list@[j] != addr,
        decreases list@.len() - i,
    {
        if list[i] == addr {
            return true;
        }
        i = i + 1;
    }
    false
}

/// Adds the addresses to `list` that it does not hold.
fn add_addrs(list: &mut Vec<PeerAddr>, more: &Vec<PeerAddr>, Ghost(before): Ghost<Seq<PeerAddr>>)
    requires
        old(list)@ == unique::unique(before),
    ensures
        final(list)@ == unique::unique(before + more@),
{
    let mut i: usize = 0;
    assert(before + more@.take(0) =~= before);
    while i < more.len()
        invariant
            i <= more@.len(),
            list@ == unique::unique(before + more@.take(i as int)),
        decreases more@.len() - i,
    {
        proof {
            unique::lemma_unique_push(before + more@.take(i as int), more@[i as int]);
            assert(before + more@.take(i + 1) =~= (before + more@.take(i as int)).push(
                more@[i as int],
            ));
        }
        if !holds_addr(list, more[i]) {
            list.push(more[i]);
        }
        i = i + 1;
    }
    assert(more@.take(i as int) =~= more@);
}

/// What the trackers answered together.
pub fn merge_responses(outcomes: &Vec<Result<AnnounceResponse, Error>>) -> (result: Result<
    AnnounceResponse,
    Error,
>)
    ensures
        match merged(outcomes_of(outcomes@)) {
            Ok((peers, interval)) => {
                &&& result matches Ok(r)
                &&& r.peers@ == peers
                &&& r.interval == interval
            },
            Err(e) => {
                &&& result matches Err(Error::Tracker(why))
                &&& why@ == e
            },
        },
{
    let ghost all = outcomes_of(outcomes@);
    let mut peers: Vec<PeerAddr> = Vec::new();
    let mut interval: Option<u32> = None;
    let mut any: bool = false;
    let mut last: String = String::new();
    let mut i: usize = 0;
    assert(all.take(0) =~= Seq::empty());
    assert(last@ =~= Seq::empty());
    while i < outcomes.len()
        invariant
            i <= outcomes@.len(),
            all == outcomes_of(outcomes@),
            peers@ == unique::unique(all_peers(all.take(i as int))),
            interval == shortest_interval(all.take(i as int)),
            interval matches Some(n) ==> n > 0,
            any == any_answered(all.take(i as int)),
            last@ == last_error(all.take(i as int)),
        decreases outcomes@.len() - i,
    {
        let ghost now = all.take(i + 1);
        assert(now.drop_last() =~= all.take(i as int));
        assert(now.last() == outcome_of(outcomes@[i as int]));
        match &outcomes[i] {
            Ok(answer) => {
                any = true;
                assert(now[i as int] is Ok);
                add_addrs(&mut peers, &answer.peers, Ghost(all_peers(all.take(i as int))));
                if answer.interval > 0 {
                    interval = match interval {
                        Some(shortest) => if answer.interval < shortest {
                            Some(answer.interval)
                        } else {
                            Some(shortest)
                        },
                        None => Some(answer.interval),
                    };
                }
            },
            Err(e) => {
                last = e.to_string();
                assert(any_answered(now) ==> any_answered(all.take(i as int))) by {
                    if any_answered(now) {
                        let k = choose|k: int| 0 <= k < now.len() && (#[trigger] now[k]) is Ok;
                        assert(all.take(i as int)[k] is Ok);
                    }
                }
                assert(any_answered(all.take(i as int)) ==> any_answered(now)) by {
                    if any_answered(all.take(i as int)) {
                        let k = choose|k: int|
                            0 <= k < i && (#[trigger] all.take(i as int)[k]) is Ok;
                        assert(now[k] is Ok);
                    }
                }
            },
        }
        i = i + 1;
    }
    assert(all.take(i as int) =~= all);
    if !any {
        return Err(Error::Tracker(joined("all trackers failed: ", last.as_str())));
    }
    Ok(
        AnnounceResponse {
            peers,
            interval: match interval {
                Some(n) => n,
                None => 0,
            },
        },
    )
}

/// The peers that trackers named.
pub struct KnownPeers {
    pub addrs: Vec<PeerAddr>,
}

/// The addresses that are not among those that are known, each once.
pub open spec fn newcomers(known: Seq<PeerAddr>, peers: Seq<PeerAddr>) -> Seq<PeerAddr>
    decreases peers.len(),
{
    if peers.len() == 0 {
        Seq::empty()
    } else {
        let front = newcomers(known, peers.drop_last());
        let last = peers.last();
        if known.contains(last) || front.contains(last) {
            front
        } else {
            front.push(last)
        }
    }
}

/// The first addresses, as many as may be taken.
pub open spec fn first_peers(peers: Seq<PeerAddr>) -> Seq<PeerAddr> {
    if peers.len() <= MAX_PEERS {
        peers
    } else {
        peers.take(MAX_PEERS as int)
    }
}

/// The first addresses, as many as may be taken.
fn truncated(peers: Vec<PeerAddr>) -> (out: Vec<PeerAddr>)
    ensures
        out@ == first_peers(peers@),
{
    let mut out = peers;
    out.truncate(MAX_PEERS);
    assert(out@ =~= first_peers(peers@));
    out
}

impl KnownPeers {
    /// No peer is known twice.
    pub open spec fn well_formed(&self) -> bool {
        self.addrs@.no_duplicates()
    }

    /// The peers of the first answer: whom is known, and whom to talk to.
    pub fn start(peers: Vec<PeerAddr>) -> (out: (Self, Vec<PeerAddr>))
        ensures
            out.0.well_formed(),
            out.0.addrs@ == unique::unique(first_peers(peers@)),
            out.1@ == first_peers(peers@),
    {
        let contacts = truncated(peers);
        let mut addrs: Vec<PeerAddr> = Vec::new();
        let ghost none: Seq<PeerAddr> = Seq::empty();
        assert(addrs@ =~= unique::unique(none));
        add_addrs(&mut addrs, &contacts, Ghost(none));
        assert(none + contacts@ =~= contacts@);
        proof {
            unique::law_unique(contacts@);
        }
        (KnownPeers { addrs }, contacts)
    }

    /// Takes in the peers of a later answer, and says whom of them to talk to:
    /// those that were not known.
    pub fn meet(&mut self, peers: &Vec<PeerAddr>) -> (contacts: Vec<PeerAddr>)
        requires
            old(self).well_formed(),
        ensures
            final(self).well_formed(),
            final(self).addrs@ == old(self).addrs@ + newcomers(old(self).addrs@, peers@),
            contacts@ == first_peers(newcomers(old(self).addrs@, peers@)),
    {
        let ghost known = self.addrs@;
        let mut fresh: Vec<PeerAddr> = Vec::new();
        let mut i: usize = 0;
        assert(peers@.take(0) =~= Seq::empty());
        assert(known + fresh@ =~= known);
        while i < peers.len()
            invariant
                i <= peers@.len(),
                fresh@ == newcomers(known, peers@.take(i as int)),
                self.addrs@ == known + fresh@,
                self.addrs@.no_duplicates(),
            decreases peers@.len() - i,
        {
            assert(peers@.take(i + 1).drop_last() =~= peers@.take(i as int));
            let addr = peers[i];
            proof {
                lemma_contains_either(known, fresh@, addr);
            }
            if !holds_addr(&self.addrs, addr) {
                let ghost before = self.addrs@;
                self.addrs.push(addr);
                fresh.push(addr);
                assert(self.addrs@ =~= known + fresh@);
                assert(self.addrs@.no_duplicates()) by {
                    assert forall|a: int, b: int|
                        0 <= a < b < self.addrs@.len() implies self.addrs@[a] != self.addrs@[b] by {
                        assert(before.contains(before[a]));
                    }
                }
            }
            i = i + 1;
        }
        assert(peers@.take(i as int) =~= peers@);
        truncated(fresh)
    }
}

proof fn lemma_contains_either(a: Seq<PeerAddr>, b: Seq<PeerAddr>, x: PeerAddr)
    ensures
        (a + b).contains(x) <==> a.contains(x) || b.contains(x),
{
    if a.contains(x) {
        let i = choose|i: int| 0 <= i < a.len() && a[i] == x;
        assert((a + b)[i] == x);
    }
    if b.contains(x) {
        let i = choose|i: int| 0 <= i < b.len() && b[i] == x;
        assert((a + b)[a.len() + i] == x);
    }
    if (a + b).contains(x) {
        let i = choose|i: int| 0 <= i < (a + b).len() && (a + b)[i] == x;
        if i < a.len() {
            assert(a[i] == x);
        } else {
            assert(b[i - a.len()] == x);
        }
    }
}

/// A newcomer is one of the peers and was not known; and every peer that was not
/// known is a newcomer, once.
pub proof fn law_newcomers(known: Seq<PeerAddr>, peers: Seq<PeerAddr>)
    ensures
        newcomers(known, peers).no_duplicates(),
        forall|x: PeerAddr| #[trigger]
            newcomers(known, peers).contains(x) <==> peers.contains(x) && !known.contains(x),
    decreases peers.len(),
{
    if peers.len() > 0 {
        let rest = peers.drop_last();
        let front = newcomers(known, rest);
        let all = newcomers(known, peers);
        law_newcomers(known, rest);
        assert(peers =~= rest.push(peers.last()));
        assert forall|x: PeerAddr| #[trigger] all.contains(x) <==> peers.contains(x)
            && !known.contains(x) by {
            assert(peers =~= rest + seq![peers.last()]);
            lemma_contains_either(rest, seq![peers.last()], x);
            assert(seq![peers.last()].contains(x) <==> x == peers.last()) by {
                assert(seq![peers.last()][0] == peers.last());
            }
            assert(front.contains(x) <==> rest.contains(x) && !known.contains(x));
            if all != front {
                assert(all =~= front + seq![peers.last()]);
                lemma_contains_either(front, seq![peers.last()], x);
            }
        }
    }
}

/// The bytes that are still missing, as far as is known.
pub open spec fn missing(total: u64, downloaded: u64) -> u64 {
    if downloaded < total {
        (total - downloaded) as u64
    } else {
        0
    }
}

/// The bytes that are still missing.
pub fn left(total: u64, downloaded: u64) -> (n: u64)
    ensures
        n == missing(total, downloaded),
{
    total.saturating_sub(downloaded)
}

/// What trackers are told.
pub fn announcement(
    info_hash: [u8; 20],
    peer_id: [u8; 20],
    port: u16,
    uploaded: u64,
    downloaded: u64,
    left: u64,
    event: Option<TrackerEvent>,
) -> (out: Announce)
    ensures
        out == (Announce { info_hash, peer_id, port, uploaded, downloaded, left, event }),
{
    Announce { info_hash, peer_id, port, uploaded, downloaded, left, event }
}

/// What trackers are told at the end: that the download was completed, unless it
/// was complete at the start.
pub fn closing_event(complete_at_start: bool) -> (out: Option<TrackerEvent>)
    ensures
        out == if complete_at_start {
            None
        } else {
            Some(TrackerEvent::Completed)
        },
{
    if complete_at_start {
        None
    } else {
        Some(TrackerEvent::Completed)
    }
}

/// What trackers are told when it is time to ask them again: how much is missing,
/// as no event, and nothing more once the download is complete.
pub fn reannounce(total: u64, downloaded: u64, complete: bool) -> (out: Option<
    (u64, Option<TrackerEvent>),
>)
    ensures
        out == if complete {
            None
        } else {
            Some((missing(total, downloaded), None::<TrackerEvent>))
        },
{
    if complete {
        None
    } else {
        Some((left(total, downloaded), None))
    }
}

/// How many seconds to wait before a connection is tried again that failed, if it
/// is tried again. `attempt` attempts failed before this one.
pub open spec fn retry_delay(attempt: int) -> Option<u64> {
    if attempt + 1 < CONNECT_ATTEMPTS {
        Some(RECONNECT_DELAY_SECS)
    } else {
        None
    }
}

/// How many seconds to wait after an attempt to connect before the next one, if
/// there is a next one. `attempt` attempts came before this one.
pub open spec fn pause_after(attempt: int, connected: bool) -> Option<u64> {
    if connected {
        None
    } else {
        retry_delay(attempt)
    }
}

/// How many seconds to wait after an attempt to connect before the next one, if
/// there is a next one. `attempt` attempts came before this one.
pub fn after_attempt(attempt: u32, connected: bool) -> (out: Option<u64>)
    ensures
        out == if connected {
            None
        } else {
            retry_delay(attempt as int)
        },
        out == pause_after(attempt as int, connected),
{
    if !connected && attempt < CONNECT_ATTEMPTS - 1 {
        Some(RECONNECT_DELAY_SECS)
    } else {
        None
    }
}

/// Whether a peer was tried so often, with these outcomes: there was another
/// attempt only where a pause was due after the one before.
pub open spec fn attempts(connected: Seq<bool>) -> bool {
    forall|k: int| 0 <= k < connected.len() - 1 ==> pause_after(k, #[trigger] connected[k]) is Some
}

/// A peer is tried no more often than may be, with a pause after each attempt
/// that fails, and never again once an attempt succeeded.
pub proof fn law_attempts_bounded(connected: Seq<bool>, k: int)
    requires
        attempts(connected),
        0 <= k < connected.len(),
    ensures
        connected.len() <= CONNECT_ATTEMPTS,
        k < connected.len() - 1 ==> pause_after(k, connected[k]) == Some(RECONNECT_DELAY_SECS),
        connected[k] ==> k == connected.len() - 1,
{
    if connected.len() > 1 {
        let last = connected.len() - 2;
        assert(pause_after(last, connected[last]) is Some);
    }
    if k < connected.len() - 1 {
        assert(pause_after(k, connected[k]) is Some);
    }
}

/// Every address that a tracker gave is among those of the merged answer, once.
pub proof fn law_merged_peers(outcomes: Seq<Outcome>, i: int, x: PeerAddr)
    requires
        0 <= i < outcomes.len(),
        outcomes[i] matches Ok((peers, _)) && peers.contains(x),
    ensures
        merged(outcomes) matches Ok((peers, _)) && peers.contains(x) && peers.no_duplicates(),
{
    lemma_all_peers_contains(outcomes, i, x);
    unique::law_unique(all_peers(outcomes));
    assert(unique::unique(all_peers(outcomes)).contains(x));
}

proof fn lemma_all_peers_contains(outcomes: Seq<Outcome>, i: int, x: PeerAddr)
    requires
        0 <= i < outcomes.len(),
        outcomes[i] matches Ok((peers, _)) && peers.contains(x),
    ensures
        all_peers(outcomes).contains(x),
    decreases outcomes.len(),
{
    let front = all_peers(outcomes.drop_last());
    if i == outcomes.len() - 1 {
        lemma_contains_either(front, (outcomes[i]->Ok_0).0, x);
    } else {
        lemma_all_peers_contains(outcomes.drop_last(), i, x);
        if let Ok((peers, _)) = outcomes.last() {
            lemma_contains_either(front, peers, x);
        }
    }
}

/// The merged interval is no longer than that of any tracker that gave one.
pub proof fn law_merged_interval(outcomes: Seq<Outcome>, i: int)
    requires
        0 <= i < outcomes.len(),
        outcomes[i] matches Ok((_, interval)) && interval > 0,
    ensures
        merged(outcomes) matches Ok((_, shortest)) && 0 < shortest <= (outcomes[i]->Ok_0).1,
{
    lemma_shortest(outcomes, i);
}

/// A merged interval that is not zero is one that a tracker gave.
pub proof fn law_merged_interval_given(outcomes: Seq<Outcome>)
    requires
        merged(outcomes) matches Ok((_, shortest)) && shortest > 0,
    ensures
        exists|i: int|
            0 <= i < outcomes.len() && (#[trigger] outcomes[i] matches Ok((_, interval))
                && interval == (merged(outcomes)->Ok_0).1),
{
    lemma_shortest_given(outcomes);
}

proof fn lemma_shortest_given(outcomes: Seq<Outcome>)
    ensures
        shortest_interval(outcomes) matches Some(n) ==> exists|i: int|
            0 <= i < outcomes.len() && (#[trigger] outcomes[i] matches Ok((_, interval))
                && interval == n),
    decreases outcomes.len(),
{
    if outcomes.len() > 0 {
        let front = outcomes.drop_last();
        lemma_shortest_given(front);
        let all = shortest_interval(outcomes);
        if all is Some {
            if all == shortest_interval(front) {
                let i = choose|i: int|
                    0 <= i < front.len() && (#[trigger] front[i] matches Ok((_, interval))
                        && interval == all->0);
                assert(outcomes[i] == front[i]);
            } else {
                assert(outcomes[outcomes.len() - 1] is Ok);
            }
        }
    }
}

proof fn lemma_shortest(outcomes: Seq<Outcome>, i: int)
    requires
        0 <= i < outcomes.len(),
        outcomes[i] matches Ok((_, interval)) && interval > 0,
    ensures
        shortest_interval(outcomes) matches Some(n) && 0 < n <= (outcomes[i]->Ok_0).1,
    decreases outcomes.len(),
{
    lemma_shortest_positive(outcomes.drop_last());
    if i < outcomes.len() - 1 {
        lemma_shortest(outcomes.drop_last(), i);
    }
}

proof fn lemma_shortest_positive(outcomes: Seq<Outcome>)
    ensures
        shortest_interval(outcomes) matches Some(n) ==> n > 0,
    decreases outcomes.len(),
{
    if outcomes.len() > 0 {
        lemma_shortest_positive(outcomes.drop_last());
    }
}

} // verus!
