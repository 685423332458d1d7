//! A run: when trackers are asked, whom to talk to, and when it ends.
use vstd::prelude::*;

use crate::error::Error;
use crate::session::swarm;
use crate::session::swarm::{closing_event, left, reannounce, KnownPeers};
use crate::tracker::{PeerAddr, TrackerEvent};
use crate::unique;

verus! {

/// How far the download is.
#[derive(Debug, Clone, Copy, PartialEq, Eq, Structural)]
pub struct Status {
    pub total: u64,
    pub downloaded: u64,
    /// Whether every piece is complete.
    pub complete: bool,
}

/// How far a run is.
#[derive(Debug, Clone, Copy, PartialEq, Eq, Structural)]
pub enum Stage {
    /// What is on disk is looked at.
    Resuming,
    /// The trackers are asked for the first time.
    Starting,
    /// Peers are talked to.
    Downloading,
    /// The trackers are told that the download is complete.
    Closing,
    Ended,
}

/// A run.
pub struct Run {
    pub stage: Stage,
    pub complete_at_start: bool,
    /// Whether the trackers are asked again and again.
    pub asking: bool,
    /// Whether the progress is shown again and again.
    pub showing: bool,
    pub known: KnownPeers,
}

/// What a [`Run`] is.
#[verifier::ext_equal]
pub struct RunModel {
    pub stage: Stage,
    pub complete_at_start: bool,
    pub asking: bool,
    pub showing: bool,
    pub known: Seq<PeerAddr>,
}

impl View for Run {
    type V = RunModel;

    open spec fn view(&self) -> RunModel {
        RunModel {
            stage: self.stage,
            complete_at_start: self.complete_at_start,
            asking: self.asking,
            showing: self.showing,
            known: self.known.addrs@,
        }
    }
}

/// What happens in a run.
#[derive(Debug)]
pub enum RunEvent {
    /// What is on disk was looked at.
    Resumed(Status),
    /// The trackers named these peers.
    Answered(Vec<PeerAddr>),
    /// No tracker answered.
    Unanswered(Error),
    /// It is time to ask the trackers again.
    TimeToAsk(Status),
    /// It is time to show the progress.
    TimeToShow(Status),
}

/// What a [`RunEvent`] says.
pub enum EventModel {
    Resumed(Status),
    Answered(Seq<PeerAddr>),
    Unanswered(Error),
    TimeToAsk(Status),
    TimeToShow(Status),
}

impl View for RunEvent {
    type V = EventModel;

    open spec fn view(&self) -> EventModel {
        match *self {
            RunEvent::Resumed(status) => EventModel::Resumed(status),
            RunEvent::Answered(peers) => EventModel::Answered(peers@),
            RunEvent::Unanswered(e) => EventModel::Unanswered(e),
            RunEvent::TimeToAsk(status) => EventModel::TimeToAsk(status),
            RunEvent::TimeToShow(status) => EventModel::TimeToShow(status),
        }
    }
}

/// What is to be done in a run.
#[derive(Debug)]
pub enum RunAction {
    /// Tell the trackers how much is there and how much is missing, and of the
    /// event.
    Announce { downloaded: u64, left: u64, event: Option<TrackerEvent> },
    /// Talk to these peers, ask the trackers again later, and show the progress
    /// from now on.
    Begin(Vec<PeerAddr>),
    /// Talk to these peers too, and ask the trackers again later.
    Meet(Vec<PeerAddr>),
    /// Ask the trackers again later.
    AskLater,
    /// Show the progress again later.
    ShowLater,
    /// Nothing.
    Rest,
    /// End the run with this error.
    Fail(Error),
    /// End the run well.
    Finish,
}

/// What a [`RunAction`] says.
pub enum ActionModel {
    Announce { downloaded: u64, left: u64, event: Option<TrackerEvent> },
    Begin(Seq<PeerAddr>),
    Meet(Seq<PeerAddr>),
    AskLater,
    ShowLater,
    Rest,
    Fail(Error),
    Finish,
}

impl View for RunAction {
    type V = ActionModel;

    open spec fn view(&self) -> ActionModel {
        match *self {
            RunAction::Announce { downloaded, left, event } => ActionModel::Announce {
                downloaded,
                left,
                event,
            },
            RunAction::Begin(peers) => ActionModel::Begin(peers@),
            RunAction::Meet(peers) => ActionModel::Meet(peers@),
            RunAction::AskLater => ActionModel::AskLater,
            RunAction::ShowLater => ActionModel::ShowLater,
            RunAction::Rest => ActionModel::Rest,
            RunAction::Fail(e) => ActionModel::Fail(e),
            RunAction::Finish => ActionModel::Finish,
        }
    }
}

/// A run in which nothing happened yet.
pub open spec fn new_run() -> RunModel {
    RunModel {
        stage: Stage::Resuming,
        complete_at_start: false,
        asking: false,
        showing: false,
        known: Seq::empty(),
    }
}

/// What trackers are told.
pub open spec fn told(status: Status, event: Option<TrackerEvent>) -> ActionModel {
    ActionModel::Announce {
        downloaded: status.downloaded,
        left: swarm::missing(status.total, status.downloaded),
        event,
    }
}

/// What follows once asking or showing has stopped: the end of the run where the
/// other has stopped too. The trackers are told of it, unless the download was
/// complete at the start.
pub open spec fn stopped(r: RunModel, status: Status) -> (RunModel, ActionModel) {
    if r.asking || r.showing {
        (r, ActionModel::Rest)
    } else if r.complete_at_start {
        (RunModel { stage: Stage::Ended, ..r }, ActionModel::Finish)
    } else {
        (
            RunModel { stage: Stage::Closing, ..r },
            told(status, Some(TrackerEvent::Completed)),
        )
    }
}

/// After an event: the run, and what is to be done.
pub open spec fn after_event(r: RunModel, e: EventModel) -> (RunModel, ActionModel) {
    match (r.stage, e) {
        (Stage::Resuming, EventModel::Resumed(status)) => (
            RunModel { stage: Stage::Starting, complete_at_start: status.complete, ..r },
            told(status, Some(TrackerEvent::Started)),
        ),
        (Stage::Starting, EventModel::Answered(peers)) => (
            RunModel {
                stage: Stage::Downloading,
                asking: true,
                showing: true,
                known: unique::unique(swarm::first_peers(peers)),
                ..r
            },
            ActionModel::Begin(swarm::first_peers(peers)),
        ),
        (Stage::Starting, EventModel::Unanswered(why)) => (
            RunModel { stage: Stage::Ended, ..r },
            ActionModel::Fail(why),
        ),
        (Stage::Downloading, EventModel::TimeToAsk(status)) => if !r.asking {
            (r, ActionModel::Rest)
        } else if status.complete {
            stopped(RunModel { asking: false, ..r }, status)
        } else {
            (r, told(status, None))
        },
        (Stage::Downloading, EventModel::TimeToShow(status)) => if !r.showing {
            (r, ActionModel::Rest)
        } else if status.complete {
            stopped(RunModel { showing: false, ..r }, status)
        } else {
            (r, ActionModel::ShowLater)
        },
        (Stage::Downloading, EventModel::Answered(peers)) => (
            RunModel { known: r.known + swarm::newcomers(r.known, peers), ..r },
            ActionModel::Meet(swarm::first_peers(swarm::newcomers(r.known, peers))),
        ),
        (Stage::Downloading, EventModel::Unanswered(_)) => (r, ActionModel::AskLater),
        (Stage::Closing, EventModel::Answered(_)) => (
            RunModel { stage: Stage::Ended, ..r },
            ActionModel::Finish,
        ),
        (Stage::Closing, EventModel::Unanswered(_)) => (
            RunModel { stage: Stage::Ended, ..r },
            ActionModel::Finish,
        ),
        _ => (r, ActionModel::Rest),
    }
}

impl Run {
    /// No peer is known twice.
    pub open spec fn well_formed(&self) -> bool {
        self.known.well_formed()
    }

    /// A run in which nothing happened yet.
    pub fn new() -> (out: Self)
        ensures
            out.well_formed(),
            out@ == new_run(),
    {
        let out = Run {
            stage: Stage::Resuming,
            complete_at_start: false,
            asking: false,
            showing: false,
            known: KnownPeers { addrs: Vec::new() },
        };
        assert(out@ =~= new_run());
        out
    }

    /// What is to be done after an event.
    pub fn next(&mut self, event: RunEvent) -> (out: RunAction)
        requires
            old(self).well_formed(),
        ensures
            final(self).well_formed(),
            (final(self)@, out@) == after_event(old(self)@, event@),
    {
        match event {
            RunEvent::Resumed(status) => if self.stage == Stage::Resuming {
                self.stage = Stage::Starting;
                self.complete_at_start = status.complete;
                RunAction::Announce {
                    downloaded: status.downloaded,
                    left: left(status.total, status.downloaded),
                    event: Some(TrackerEvent::Started),
                }
            } else {
                RunAction::Rest
            },
            RunEvent::Answered(peers) => match self.stage {
                Stage::Starting => {
                    let (known, contacts) = KnownPeers::start(peers);
                    self.stage = Stage::Downloading;
                    self.asking = true;
                    self.showing = true;
                    self.known = known;
                    RunAction::Begin(contacts)
                },
                Stage::Downloading => RunAction::Meet(self.known.meet(&peers)),
                Stage::Closing => {
                    self.stage = Stage::Ended;
                    RunAction::Finish
                },
                _ => RunAction::Rest,
            },
            RunEvent::Unanswered(why) => match self.stage {
                Stage::Starting => {
                    self.stage = Stage::Ended;
                    RunAction::Fail(why)
                },
                Stage::Downloading => RunAction::AskLater,
                Stage::Closing => {
                    self.stage = Stage::Ended;
                    RunAction::Finish
                },
                _ => RunAction::Rest,
            },
            RunEvent::TimeToAsk(status) => if self.stage == Stage::Downloading && self.asking {
                match reannounce(status.total, status.downloaded, status.complete) {
                    Some((left, event)) => RunAction::Announce {
                        downloaded: status.downloaded,
                        left,
                        event,
                    },
                    None => {
                        self.asking = false;
                        self.stop(status)
                    },
                }
            } else {
                RunAction::Rest
            },
            RunEvent::TimeToShow(status) => if self.stage == Stage::Downloading && self.showing {
                if status.complete {
                    self.showing = false;
                    self.stop(status)
                } else {
                    RunAction::ShowLater
                }
            } else {
                RunAction::Rest
            },
        }
    }

    /// What is to be done once asking or showing has stopped.
    fn stop(&mut self, status: Status) -> (out: RunAction)
        requires
            old(self).well_formed(),
        ensures
            final(self).well_formed(),
            (final(self)@, out@) == stopped(old(self)@, status),
    {
        if self.asking || self.showing {
            return RunAction::Rest;
        }
        match closing_event(self.complete_at_start) {
            Some(event) => {
                self.stage = Stage::Closing;
                RunAction::Announce {
                    downloaded: status.downloaded,
                    left: left(status.total, status.downloaded),
                    event: Some(event),
                }
            },
            None => {
                self.stage = Stage::Ended;
                RunAction::Finish
            },
        }
    }
}

/// The run after its first `n` events.
pub open spec fn run_after(events: Seq<EventModel>, n: int) -> RunModel
    decreases n,
{
    if n <= 0 {
        new_run()
    } else {
        after_event(run_after(events, n - 1), events[n - 1]).0
    }
}

/// What is to be done after event `k`.
pub open spec fn action(events: Seq<EventModel>, k: int) -> ActionModel {
    after_event(run_after(events, k), events[k]).1
}

/// Whether it was time to ask and the download was complete, within the first `n`
/// events.
pub open spec fn asked_when_complete(events: Seq<EventModel>, n: int) -> bool {
    exists|i: int|
        0 <= i < n && (#[trigger] events[i] matches EventModel::TimeToAsk(s) && s.complete)
}

/// Whether it was time to show and the download was complete, within the first
/// `n` events.
pub open spec fn shown_when_complete(events: Seq<EventModel>, n: int) -> bool {
    exists|i: int|
        0 <= i < n && (#[trigger] events[i] matches EventModel::TimeToShow(s) && s.complete)
}

proof fn lemma_stopped_when_complete(events: Seq<EventModel>, n: int)
    requires
        0 <= n <= events.len(),
    ensures
        ({
            let r = run_after(events, n);
            &&& r.stage == Stage::Downloading && !r.asking ==> asked_when_complete(events, n)
            &&& r.stage == Stage::Downloading && !r.showing ==> shown_when_complete(events, n)
            &&& r.stage == Stage::Closing ==> asked_when_complete(events, n)
                && shown_when_complete(events, n)
        }),
    decreases n,
{
    if n > 0 {
        lemma_stopped_when_complete(events, n - 1);
        lemma_more_events(events, n - 1);
        match events[n - 1] {
            EventModel::TimeToAsk(s) if s.complete => {
                assert(asked_when_complete(events, n));
            },
            EventModel::TimeToShow(s) if s.complete => {
                assert(shown_when_complete(events, n));
            },
            _ => {},
        }
    }
}

proof fn lemma_more_events(events: Seq<EventModel>, n: int)
    ensures
        asked_when_complete(events, n) ==> asked_when_complete(events, n + 1),
        shown_when_complete(events, n) ==> shown_when_complete(events, n + 1),
{
}

/// A run ends well only when the download is complete: both asking and showing
/// found it so.
pub proof fn law_ends_well_when_complete(events: Seq<EventModel>, k: int)
    requires
        0 <= k < events.len(),
        action(events, k) == ActionModel::Finish,
    ensures
        asked_when_complete(events, k + 1),
        shown_when_complete(events, k + 1),
{
    lemma_stopped_when_complete(events, k);
    lemma_more_events(events, k);
    match events[k] {
        EventModel::TimeToAsk(s) => {
            assert(asked_when_complete(events, k + 1));
        },
        EventModel::TimeToShow(s) => {
            assert(shown_when_complete(events, k + 1));
        },
        _ => {},
    }
}

/// How far a stage is.
pub open spec fn rank(stage: Stage) -> int {
    match stage {
        Stage::Resuming => 0,
        Stage::Starting => 1,
        Stage::Downloading => 2,
        Stage::Closing => 3,
        Stage::Ended => 4,
    }
}

proof fn lemma_forward(events: Seq<EventModel>, k: int, n: int)
    requires
        0 <= k <= n <= events.len(),
    ensures
        rank(run_after(events, k).stage) <= rank(run_after(events, n).stage),
    decreases n - k,
{
    if k < n {
        lemma_forward(events, k, n - 1);
    }
}

/// Where no tracker answers when they are asked for the first time, the run ends
/// with that error.
pub proof fn law_first_failure_ends(events: Seq<EventModel>, k: int, why: Error)
    requires
        0 <= k < events.len(),
        run_after(events, k).stage == Stage::Starting,
        events[k] == EventModel::Unanswered(why),
    ensures
        action(events, k) == ActionModel::Fail(why),
        run_after(events, k + 1).stage == Stage::Ended,
{
}

/// A run fails only where no tracker answered and no peer was talked to yet: once
/// peers are talked to, trackers that do not answer end nothing.
pub proof fn law_later_failures_end_nothing(events: Seq<EventModel>, k: int, n: int)
    requires
        0 <= k < n < events.len(),
        action(events, k) is Begin,
    ensures
        !(action(events, n) is Fail),
        events[n] is Unanswered && run_after(events, n).stage == Stage::Downloading ==> action(
            events,
            n,
        ) == ActionModel::AskLater && run_after(events, n + 1) == run_after(events, n),
        events[n] is Unanswered && run_after(events, n).stage == Stage::Closing ==> action(
            events,
            n,
        ) == ActionModel::Finish,
{
    lemma_forward(events, k + 1, n);
}

/// What trackers are told of: that the download started, when they are asked for
/// the first time, and never again; that it is complete, at most once, after that,
/// and only if it was not complete at the start; and otherwise of nothing.
pub proof fn law_events_told(events: Seq<EventModel>, k: int, n: int)
    requires
        0 <= k < n < events.len(),
        action(events, k) is Announce,
        action(events, n) is Announce,
    ensures
        action(events, n)->event != Some(TrackerEvent::Started),
        action(events, n)->event != Some(TrackerEvent::Stopped),
        action(events, k)->event != Some(TrackerEvent::Completed),
        action(events, n)->event == Some(TrackerEvent::Completed) ==> !run_after(
            events,
            n,
        ).complete_at_start,
{
    lemma_forward(events, k + 1, n);
}

/// The first thing that trackers are told is that the download started.
pub proof fn law_started_first(events: Seq<EventModel>, n: int)
    requires
        0 <= n < events.len(),
        action(events, n) is Announce,
        forall|k: int| 0 <= k < n ==> !(#[trigger] action(events, k) is Announce),
    ensures
        action(events, n)->event == Some(TrackerEvent::Started),
{
    lemma_still_resuming(events, n);
}

proof fn lemma_still_resuming(events: Seq<EventModel>, n: int)
    requires
        0 <= n <= events.len(),
        forall|k: int| 0 <= k < n ==> !(#[trigger] action(events, k) is Announce),
    ensures
        run_after(events, n) == new_run(),
    decreases n,
{
    if n > 0 {
        lemma_still_resuming(events, n - 1);
        assert(!(action(events, n - 1) is Announce));
    }
}

/// Once a run has ended, nothing is done any more.
pub proof fn law_ended_rests(events: Seq<EventModel>, k: int, n: int)
    requires
        0 <= k < n < events.len(),
        action(events, k) is Fail || action(events, k) is Finish,
    ensures
        action(events, n) == ActionModel::Rest,
{
    lemma_forward(events, k + 1, n);
}

/// No peer is talked to twice on account of later answers, nor one of the first
/// answer again: whom a later answer names and who is known is not met.
pub proof fn law_known_not_met(events: Seq<EventModel>, n: int, x: PeerAddr)
    requires
        0 <= n < events.len(),
        action(events, n) matches ActionModel::Meet(peers) && peers.contains(x),
    ensures
        !run_after(events, n).known.contains(x),
        run_after(events, n + 1).known.contains(x),
{
    let known = run_after(events, n).known;
    let peers = events[n]->Answered_0;
    let fresh = swarm::newcomers(known, peers);
    swarm::law_newcomers(known, peers);
    let met = swarm::first_peers(fresh);
    let i = choose|i: int| 0 <= i < met.len() && met[i] == x;
    assert(fresh[i] == x);
    assert(fresh.contains(x));
    assert((known + fresh)[known.len() + i] == x);
}

/// What trackers are told is how much is there and how much is missing of the
/// whole, as it is at that moment.
pub proof fn law_counts_told(events: Seq<EventModel>, n: int)
    requires
        0 <= n < events.len(),
        action(events, n) is Announce,
    ensures
        ({
            let status = match events[n] {
                EventModel::Resumed(s) => s,
                EventModel::TimeToAsk(s) => s,
                EventModel::TimeToShow(s) => s,
                _ => arbitrary(),
            };
            &&& events[n] is Resumed || events[n] is TimeToAsk || events[n] is TimeToShow
            &&& action(events, n)->downloaded == status.downloaded
            &&& status.downloaded <= status.total ==> action(events, n)->left + status.downloaded
                == status.total
            &&& status.downloaded > status.total ==> action(events, n)->left == 0
        }),
{
}

/// The peers of the first answer are talked to, the first hundred of them, in its
/// order; and they are known from then on.
pub proof fn law_first_answer_begins(events: Seq<EventModel>, n: int, peers: Seq<PeerAddr>, k: int)
    requires
        0 <= n < events.len(),
        run_after(events, n).stage == Stage::Starting,
        events[n] == EventModel::Answered(peers),
    ensures
        action(events, n) matches ActionModel::Begin(met) && {
            &&& met.len() == if peers.len() < 100 {
                peers.len()
            } else {
                100
            }
            &&& 0 <= k < met.len() ==> met[k] == peers[k]
            &&& forall|x: PeerAddr| #[trigger]
                run_after(events, n + 1).known.contains(x) <==> met.contains(x)
        },
        run_after(events, n + 1).stage == Stage::Downloading,
        run_after(events, n + 1).asking,
        run_after(events, n + 1).showing,
{
    let met = swarm::first_peers(peers);
    unique::law_unique(met);
    assert(run_after(events, n + 1).known == unique::unique(met));
}

/// Of a later answer every peer is talked to that was not known, unless there are
/// more than a hundred of them; and all of them are known from then on.
pub proof fn law_newcomers_met(events: Seq<EventModel>, n: int, peers: Seq<PeerAddr>, x: PeerAddr)
    requires
        0 <= n < events.len(),
        run_after(events, n).stage == Stage::Downloading,
        events[n] == EventModel::Answered(peers),
    ensures
        ({
            let known = run_after(events, n).known;
            &&& action(events, n) matches ActionModel::Meet(met)
            &&& met.len() <= 100
            &&& met.len() < 100 ==> (met.contains(x) <==> peers.contains(x) && !known.contains(x))
            &&& met.contains(x) ==> peers.contains(x) && !known.contains(x)
            &&& known.contains(x) || peers.contains(x) <==> run_after(
                events,
                n + 1,
            ).known.contains(x)
        }),
        run_after(events, n + 1).stage == Stage::Downloading,
{
    let known = run_after(events, n).known;
    let fresh = swarm::newcomers(known, peers);
    let met = swarm::first_peers(fresh);
    swarm::law_newcomers(known, peers);
    if met.contains(x) {
        let i = choose|i: int| 0 <= i < met.len() && met[i] == x;
        assert(fresh[i] == x);
        assert(fresh.contains(x));
    }
    if known.contains(x) {
        let i = choose|i: int| 0 <= i < known.len() && known[i] == x;
        assert((known + fresh)[i] == x);
    }
    if fresh.contains(x) {
        let i = choose|i: int| 0 <= i < fresh.len() && fresh[i] == x;
        assert((known + fresh)[known.len() + i] == x);
    }
    if (known + fresh).contains(x) {
        let i = choose|i: int| 0 <= i < (known + fresh).len() && (known + fresh)[i] == x;
        if i < known.len() {
            assert(known[i] == x);
        } else {
            assert(fresh[i - known.len()] == x);
        }
    }
}

/// While the download is not complete, a run goes on: trackers are asked and the
/// progress is shown whenever it is time, again and again.
pub proof fn law_goes_on(events: Seq<EventModel>, n: int, status: Status)
    requires
        0 <= n < events.len(),
        run_after(events, n).stage == Stage::Downloading,
        !status.complete,
    ensures
        events[n] == EventModel::TimeToAsk(status) && run_after(events, n).asking ==> action(
            events,
            n,
        ) is Announce && action(events, n)->event is None && run_after(events, n + 1)
            == run_after(events, n),
        events[n] == EventModel::TimeToShow(status) && run_after(events, n).showing ==> action(
            events,
            n,
        ) == ActionModel::ShowLater && run_after(events, n + 1) == run_after(events, n),
{
}

/// When the download is complete, asking stops the next time that it is time to
/// ask, and showing the next time that it is time to show. With the later of the two
/// the run ends: where the download was not complete at the start, the trackers are
/// told that it is now, and the run ends when they answered or did not.
pub proof fn law_comes_to_an_end(events: Seq<EventModel>, n: int, status: Status)
    requires
        0 <= n < events.len(),
        status.complete,
    ensures
        ({
            let (r, next) = (run_after(events, n), run_after(events, n + 1));
            let asked = events[n] == EventModel::TimeToAsk(status) && r.asking;
            let shown = events[n] == EventModel::TimeToShow(status) && r.showing;
            &&& r.stage == Stage::Downloading && asked ==> !next.asking && next.showing == r.showing
            &&& r.stage == Stage::Downloading && shown ==> !next.showing && next.asking == r.asking
            &&& r.stage == Stage::Downloading && (asked && r.showing || shown && r.asking)
                ==> next.stage == Stage::Downloading && action(events, n) == ActionModel::Rest
            &&& r.stage == Stage::Downloading && (asked && !r.showing || shown && !r.asking) ==> {
                &&& r.complete_at_start ==> action(events, n) == ActionModel::Finish && next.stage
                    == Stage::Ended
                &&& !r.complete_at_start ==> (action(events, n) is Announce && action(
                    events,
                    n,
                )->event == Some(TrackerEvent::Completed)) && next.stage == Stage::Closing
            }
            &&& r.stage == Stage::Closing && (events[n] is Answered || events[n] is Unanswered)
                ==> action(events, n) == ActionModel::Finish && next.stage == Stage::Ended
        }),
{
}

/// Whether the download was complete at the start is what was found on disk.
pub proof fn law_start_remembered(events: Seq<EventModel>, k: int, n: int, status: Status)
    requires
        0 <= k < n <= events.len(),
        run_after(events, k).stage == Stage::Resuming,
        events[k] == EventModel::Resumed(status),
    ensures
        run_after(events, n).complete_at_start == status.complete,
        action(events, k) is Announce && action(events, k)->event == Some(TrackerEvent::Started),
        run_after(events, k + 1).stage == Stage::Starting,
    decreases n,
{
    if n > k + 1 {
        law_start_remembered(events, k, n - 1, status);
        lemma_forward(events, k + 1, n - 1);
    }
}

/// What is not waited for changes nothing.
pub proof fn law_unexpected_ignored(r: RunModel, e: EventModel)
    ensures
        r.stage == Stage::Resuming && !(e is Resumed) ==> after_event(r, e) == (
            r,
            ActionModel::Rest,
        ),
        r.stage == Stage::Starting && !(e is Answered || e is Unanswered) ==> after_event(r, e) == (
            r,
            ActionModel::Rest,
        ),
        r.stage == Stage::Downloading && e is Resumed ==> after_event(r, e) == (
            r,
            ActionModel::Rest,
        ),
        r.stage == Stage::Closing && !(e is Answered || e is Unanswered) ==> after_event(r, e) == (
            r,
            ActionModel::Rest,
        ),
        r.stage == Stage::Ended ==> after_event(r, e) == (r, ActionModel::Rest),
{
}

/// The peers that are known change only by answers.
pub proof fn law_known_kept(r: RunModel, e: EventModel)
    requires
        !(e is Answered),
    ensures
        after_event(r, e).0.known == r.known,
{
}

} // verus!
