use torentino_pure::error::Error;
use torentino_pure::metainfo::Metainfo;
use torentino_pure::peer::message::PeerMessage;
use torentino_pure::piece::PieceManager;
use torentino_pure::session::lifecycle::{Run, RunAction, RunEvent, Stage, Status};
use torentino_pure::session::peer::{
    build_bitfield, opening_messages, settle_piece, NextStep, PeerSession, Reaction,
};
use torentino_pure::session::swarm::{
    after_attempt, announcement, closing_event, left, merge_responses, reannounce, KnownPeers,
};
use torentino_pure::session::{
    byte_unit, effective_trackers, generate_peer_id, parse_tracker_list, peer_id_from, ByteUnit,
    Session,
};
use torentino_pure::storage::model::PathStyle;
use torentino_pure::tracker::{AnnounceResponse, PeerAddr, TrackerEvent};
use torentino_pure::unique::merge_unique;

fn builtin() -> Vec<String> {
    vec!["http://torrent.ubuntu.com:6969/announce".to_string()]
}

#[test]
fn env_override_replaces_everything() {
    let t = effective_trackers(
        builtin(),
        Some("udp://tracker.opentrackr.org:1337/announce, https://tracker.gbitt.info/announce"),
    );
    assert_eq!(
        t,
        vec![
            "udp://tracker.opentrackr.org:1337/announce",
            "https://tracker.gbitt.info/announce",
        ]
    );
}

#[test]
fn no_env_appends_defaults_after_builtin() {
    let t = effective_trackers(builtin(), None);
    assert_eq!(
        t.first().map(String::as_str),
        Some("http://torrent.ubuntu.com:6969/announce")
    );
    assert!(t
        .iter()
        .any(|s| s == "udp://tracker.opentrackr.org:1337/announce"));
    assert!(t.iter().any(|s| s == "https://tracker.gbitt.info/announce"));
}

#[test]
fn invalid_env_falls_back_to_defaults() {
    let t = effective_trackers(builtin(), Some("ftp://bad, not a url"));
    assert_eq!(
        t.first().map(String::as_str),
        Some("http://torrent.ubuntu.com:6969/announce")
    );
}

#[test]
fn empty_env_counts_as_unset() {
    let t = effective_trackers(builtin(), Some("  "));
    assert_eq!(
        t.first().map(String::as_str),
        Some("http://torrent.ubuntu.com:6969/announce")
    );
}

#[test]
fn defaults_deduped_against_builtin() {
    let mut t = builtin();
    t.push("udp://tracker.opentrackr.org:1337/announce".to_string());
    let t = effective_trackers(t, None);
    assert_eq!(
        t.iter()
            .filter(|s| *s == "udp://tracker.opentrackr.org:1337/announce")
            .count(),
        1
    );
}

#[test]
fn lists_of_trackers() {
    assert_eq!(
        parse_tracker_list("\u{a0}udp://a ,,http://b,udp://a,\thttps://c\n, HTTP://d"),
        vec!["udp://a", "http://b", "https://c"]
    );
    assert!(parse_tracker_list("").is_empty());
    let all = effective_trackers(vec![], None);
    assert_eq!(
        all,
        vec![
            "udp://tracker.opentrackr.org:1337/announce",
            "https://tracker.gbitt.info/announce",
        ]
    );
}

#[test]
fn repetitions_are_dropped() {
    let list = vec!["b".to_string(), "a".to_string(), "b".to_string()];
    assert_eq!(merge_unique(list), vec!["b", "a"]);
}

#[test]
fn identifications() {
    let id = peer_id_from(&[0, 1, 9, 10, 207, 208, 255, 2, 3, 4, 5, 6]);
    assert_eq!(&id[..8], b"-TO0001-");
    assert_eq!(&id[8..], b"897850701234");
    let random = generate_peer_id();
    assert_eq!(&random[..8], b"-TO0001-");
    assert!(random[8..].iter().all(|b| b.is_ascii_digit()));
    let others: Vec<[u8; 20]> = (0..8).map(|_| generate_peer_id()).collect();
    assert!(others.iter().any(|id| *id != random));
}

#[test]
fn bitfields_say_what_is_complete() {
    let mut pm = PieceManager::new(1, 10, vec![[0; 20]; 10]);
    assert_eq!(build_bitfield(&pm), vec![0, 0]);
    pm.mark_complete(0, 1);
    pm.mark_complete(9, 1);
    assert_eq!(build_bitfield(&pm), vec![0b1000_0000, 0b0100_0000]);
}

#[test]
fn peers_are_told_what_is_complete() {
    let mut pm = PieceManager::new(1, 10, vec![[0; 20]; 10]);
    let opening = opening_messages(&pm);
    assert_eq!(opening.len(), 1);
    assert!(matches!(opening[0], PeerMessage::Interested));
    pm.mark_complete(1, 1);
    let opening = opening_messages(&pm);
    assert_eq!(opening.len(), 2);
    match &opening[0] {
        PeerMessage::Bitfield(bits) => assert_eq!(bits, &vec![0b0100_0000, 0]),
        other => panic!("{other:?}"),
    }
    assert!(matches!(opening[1], PeerMessage::Interested));
}

fn one_piece() -> PieceManager {
    // The digest of 7232 times the letter b.
    let hex = "c6adf58139e2466ec763833ea847b07ea9bcc1a2";
    let mut digest = [0u8; 20];
    for (i, byte) in digest.iter_mut().enumerate() {
        *byte = u8::from_str_radix(&hex[2 * i..2 * i + 2], 16).unwrap();
    }
    PieceManager::new(16384, 7232, vec![digest])
}

#[test]
fn a_peer_is_asked_only_while_it_gives() {
    let mut pm = one_piece();
    let mut session = PeerSession::new(7, 1);
    assert!(matches!(
        session.handle(&mut pm, PeerMessage::Bitfield(vec![0b1000_0000])),
        Reaction::Continue
    ));
    assert!(session.next_request(&mut pm).is_none());
    session.handle(&mut pm, PeerMessage::Unchoke);
    let request = session.next_request(&mut pm).unwrap();
    assert_eq!((request.piece_index, request.begin, request.length), (0, 0, 7232));
    assert_eq!(session.requests_in_flight, 1);
    assert!(session.next_request(&mut pm).is_none());
    session.handle(&mut pm, PeerMessage::Choke);
    assert!(session.am_choked);
    assert_eq!(session.requests_in_flight, 0);
    assert!(session.next_request(&mut pm).is_none());
}

#[test]
fn requests_are_taken_back_when_a_peer_chokes() {
    let mut pm = PieceManager::new(16384 * 8, 16384 * 8, vec![[0; 20]]);
    let mut first = PeerSession::new(1, 1);
    let mut second = PeerSession::new(2, 1);
    for session in [&mut first, &mut second] {
        session.handle(&mut pm, PeerMessage::Bitfield(vec![0x80]));
        session.handle(&mut pm, PeerMessage::Unchoke);
    }
    for block in 0..3 {
        assert_eq!(first.next_request(&mut pm).unwrap().begin, block * 16384);
    }
    assert_eq!(second.next_request(&mut pm).unwrap().begin, 3 * 16384);
    first.handle(&mut pm, PeerMessage::Piece(0, 16384, vec![0; 16384]));
    first.handle(&mut pm, PeerMessage::Choke);
    let mut begins = vec![];
    while let Some(r) = second.next_request(&mut pm) {
        begins.push(r.begin / 16384);
    }
    // Not the block that came in, nor the one that the second was asked for.
    assert_eq!(begins, vec![0, 2, 4, 5]);
}

#[test]
fn a_session_ends_when_all_is_complete() {
    let mut pm = one_piece();
    let mut session = PeerSession::new(7, 1);
    assert!(matches!(session.next_step(&mut pm), NextStep::Listen));
    session.handle(&mut pm, PeerMessage::Bitfield(vec![0x80]));
    session.handle(&mut pm, PeerMessage::Unchoke);
    assert!(session.can_ask(&pm));
    match session.next_step(&mut pm) {
        NextStep::Ask(r) => assert_eq!((r.piece_index, r.begin, r.length), (0, 0, 7232)),
        other => panic!("{other:?}"),
    }
    assert!(matches!(session.next_step(&mut pm), NextStep::Listen));
    settle_piece(&mut pm, 0, 7232, true);
    assert!(matches!(session.next_step(&mut pm), NextStep::Leave));
}

#[test]
fn pieces_too_long_for_requests_are_noticed() {
    let length = 1u64 << 33;
    let mut pm = PieceManager::new(length, length, vec![[0; 20]]);
    let mut session = PeerSession::new(7, 1);
    session.handle(&mut pm, PeerMessage::Bitfield(vec![0x80]));
    assert!(session.can_ask(&pm));
    session.handle(&mut pm, PeerMessage::Unchoke);
    assert!(!session.can_ask(&pm));
}

#[test]
fn pieces_are_verified_before_they_are_written() {
    let mut pm = one_piece();
    let mut session = PeerSession::new(7, 1);
    assert!(matches!(
        session.handle(&mut pm, PeerMessage::Piece(0, 0, vec![b'x'; 7232])),
        Reaction::Dropped(0)
    ));
    match session.handle(&mut pm, PeerMessage::Piece(0, 0, vec![b'b'; 7232])) {
        Reaction::Write {
            piece_index,
            length,
            data,
        } => {
            assert_eq!((piece_index, length), (0, 7232));
            assert_eq!(data, vec![b'b'; 7232]);
        }
        other => panic!("{other:?}"),
    }
    settle_piece(&mut pm, 0, 7232, false);
    assert!(!pm.is_complete());
    settle_piece(&mut pm, 0, 7232, true);
    assert!(pm.is_complete());
    assert_eq!(pm.downloaded, 7232);
}

#[test]
fn a_peer_without_anything_needed_is_left() {
    let mut pm = one_piece();
    let mut session = PeerSession::new(7, 1);
    assert!(matches!(
        session.handle(&mut pm, PeerMessage::Bitfield(vec![0])),
        Reaction::Disconnect
    ));
    let mut session = PeerSession::new(7, 1);
    assert!(matches!(
        session.handle(&mut pm, PeerMessage::Have(5)),
        Reaction::Continue
    ));
    session.handle(&mut pm, PeerMessage::Bitfield(vec![0]));
    assert!(matches!(
        session.handle(&mut pm, PeerMessage::Have(9)),
        Reaction::Disconnect
    ));
    assert!(session.checked_interest);
    assert!(matches!(
        session.handle(&mut pm, PeerMessage::Have(0)),
        Reaction::Continue
    ));
    assert_eq!(session.peer_bitfield, vec![0b1000_0000]);
}

#[test]
fn the_pipeline_is_bounded() {
    let mut pm = PieceManager::new(16384 * 8, 16384 * 8, vec![[0; 20]]);
    let mut session = PeerSession::new(7, 1);
    session.handle(&mut pm, PeerMessage::Bitfield(vec![0x80]));
    session.handle(&mut pm, PeerMessage::Unchoke);
    let mut begins = vec![];
    while let Some(r) = session.next_request(&mut pm) {
        begins.push(r.begin / 16384);
    }
    assert_eq!(begins, vec![0, 1, 2, 3, 4]);
    session.handle(&mut pm, PeerMessage::Piece(0, 16384, vec![0; 16384]));
    assert_eq!(session.requests_in_flight, 4);
    assert_eq!(session.next_request(&mut pm).unwrap().begin, 5 * 16384);
}

fn addr(n: u32) -> PeerAddr {
    PeerAddr::V4 { ip: n, port: 6881 }
}

fn answer(peers: Vec<u32>, interval: u32) -> Result<AnnounceResponse, Error> {
    Ok(AnnounceResponse {
        peers: peers.into_iter().map(addr).collect(),
        interval,
    })
}

#[test]
fn answers_are_merged() {
    let outcomes = vec![
        answer(vec![1, 2, 1], 0),
        Err(Error::Tracker("down".to_string())),
        answer(vec![3, 2], 1800),
        answer(vec![], 900),
    ];
    let merged = merge_responses(&outcomes).unwrap();
    assert_eq!(merged.peers, vec![addr(1), addr(2), addr(3)]);
    assert_eq!(merged.interval, 900);
    assert_eq!(merge_responses(&vec![answer(vec![], 0)]).unwrap().interval, 0);
}

#[test]
fn only_failures_are_a_failure() {
    let outcomes = vec![
        Err(Error::Tracker("first".to_string())),
        Err(Error::Io("second".to_string())),
    ];
    assert_eq!(
        merge_responses(&outcomes).unwrap_err().to_string(),
        "tracker: all trackers failed: io: second"
    );
    assert_eq!(
        merge_responses(&vec![]).unwrap_err().to_string(),
        "tracker: all trackers failed: "
    );
}

#[test]
fn peers_are_met_once() {
    let (mut known, contacts) = KnownPeers::start((0..150).map(addr).collect());
    assert_eq!(contacts.len(), 100);
    assert_eq!(known.addrs.len(), 100);
    let next = known.meet(&(90..320).map(addr).collect());
    assert_eq!(next.len(), 100);
    assert_eq!(next[0], addr(100));
    assert_eq!(known.addrs.len(), 320);
    assert!(known.meet(&vec![addr(5), addr(319)]).is_empty());
    assert_eq!(known.meet(&vec![addr(7), addr(900), addr(900)]), vec![addr(900)]);
}

#[test]
fn what_trackers_are_told_later() {
    assert_eq!(left(10, 4), 6);
    assert_eq!(left(10, 40), 0);
    assert_eq!(reannounce(10, 4, false), Some((6, None)));
    assert_eq!(reannounce(10, 10, false), Some((0, None)));
    assert_eq!(reannounce(10, 10, true), None);
}

#[test]
fn what_trackers_are_told() {
    let a = announcement([1; 20], [2; 20], 3, 4, 5, 6, Some(TrackerEvent::Stopped));
    assert_eq!((a.info_hash, a.peer_id, a.port), ([1; 20], [2; 20], 3));
    assert_eq!((a.uploaded, a.downloaded, a.left), (4, 5, 6));
    assert_eq!(a.event, Some(TrackerEvent::Stopped));
}

#[test]
fn what_trackers_are_told_at_the_end() {
    assert_eq!(closing_event(false), Some(TrackerEvent::Completed));
    assert_eq!(closing_event(true), None);
}

#[test]
fn connections_are_tried_three_times() {
    assert_eq!(after_attempt(0, false), Some(5));
    assert_eq!(after_attempt(1, false), Some(5));
    assert_eq!(after_attempt(2, false), None);
    assert_eq!(after_attempt(u32::MAX, false), None);
    assert_eq!(after_attempt(0, true), None);
    assert_eq!(after_attempt(1, true), None);
}

#[test]
fn units_of_bytes() {
    assert_eq!(byte_unit(0), ByteUnit::Bytes);
    assert_eq!(byte_unit(1023), ByteUnit::Bytes);
    assert_eq!(byte_unit(1024), ByteUnit::Kibibytes);
    assert_eq!(byte_unit(1024 * 1024), ByteUnit::Mebibytes);
    assert_eq!(byte_unit(1024 * 1024 * 1024 - 1), ByteUnit::Mebibytes);
    assert_eq!(byte_unit(1024 * 1024 * 1024), ByteUnit::Gibibytes);
}

#[test]
fn sessions_start_from_a_torrent() {
    let mut data = b"d8:announce8:udp://tr4:infod6:lengthi3e4:name1:n12:piece lengthi2e6:pieces40:".to_vec();
    data.extend_from_slice(&[1; 40]);
    data.extend_from_slice(b"ee");
    let metainfo = Metainfo::from_bytes(&data).unwrap();
    let session = Session::new(metainfo, None, PathStyle::Unix).unwrap();
    assert_eq!(session.port, 6881);
    assert_eq!(session.piece_manager.total_pieces, 2);
    assert_eq!(session.piece_manager.piece_length(1), 1);
    assert_eq!(session.disk_manager.name(), "n");
    assert_eq!(session.trackers.len(), 3);
    assert_eq!(session.trackers[0], "udp://tr");
    assert_eq!(&session.peer_id[..8], b"-TO0001-");
}

#[test]
fn sessions_refuse_files_outside_their_folder() {
    let data = b"d8:announce1:u4:infod6:lengthi3e4:name2:..12:piece lengthi4e6:pieces0:ee";
    let metainfo = Metainfo::from_bytes(data).unwrap();
    match Session::new(metainfo, None, PathStyle::Unix) {
        Ok(_) => panic!("the session was started"),
        Err(e) => assert_eq!(
            e.to_string(),
            "metainfo: file path does not stay inside its folder"
        ),
    }
}

#[test]
fn no_more_than_five_requests_are_unanswered() {
    let mut pm = PieceManager::new(16384 * 16, 16384 * 16, vec![[0; 20]]);
    let mut session = PeerSession::new(7, 1);
    let (mut sent, mut brought) = (0, 0);
    let (mut sent_before, mut brought_before) = (0, 0);
    let mut unchoked = false;
    let messages = vec![
        PeerMessage::Bitfield(vec![0x80]),
        PeerMessage::Unchoke,
        PeerMessage::Piece(0, 0, vec![0; 16384]),
        PeerMessage::Piece(0, 16384, vec![0; 16384]),
        PeerMessage::Choke,
        PeerMessage::Piece(0, 32768, vec![0; 16384]),
        PeerMessage::KeepAlive,
        PeerMessage::Unchoke,
    ];
    for msg in messages {
        match &msg {
            PeerMessage::Unchoke => unchoked = true,
            PeerMessage::Choke => {
                unchoked = false;
                (sent_before, brought_before) = (sent, brought);
            }
            PeerMessage::Piece(..) => brought += 1,
            _ => {}
        }
        session.handle(&mut pm, msg);
        while session.next_request(&mut pm).is_some() {
            assert!(unchoked);
            sent += 1;
        }
        assert!((sent - sent_before) - (brought - brought_before) <= 5);
        assert!(session.requests_in_flight <= 5);
    }
    // Seven before the choke, and then the four that were taken back and one more.
    assert_eq!((sent, brought), (12, 3));
}

fn status(downloaded: u64, complete: bool) -> Status {
    Status {
        total: 10,
        downloaded,
        complete,
    }
}

fn told(action: RunAction) -> (u64, Option<TrackerEvent>) {
    match action {
        RunAction::Announce {
            downloaded,
            left,
            event,
        } => {
            assert_eq!(downloaded + left, 10);
            (left, event)
        }
        other => panic!("{other:?}"),
    }
}

#[test]
fn a_run_from_its_start_to_its_end() {
    let mut run = Run::new();
    assert_eq!(
        told(run.next(RunEvent::Resumed(status(4, false)))),
        (6, Some(TrackerEvent::Started))
    );
    match run.next(RunEvent::Answered(vec![addr(1), addr(2)])) {
        RunAction::Begin(peers) => assert_eq!(peers, vec![addr(1), addr(2)]),
        other => panic!("{other:?}"),
    }
    assert!(matches!(
        run.next(RunEvent::TimeToShow(status(5, false))),
        RunAction::ShowLater
    ));
    assert_eq!(told(run.next(RunEvent::TimeToAsk(status(5, false)))), (5, None));
    assert!(matches!(
        run.next(RunEvent::Unanswered(Error::Tracker("down".to_string()))),
        RunAction::AskLater
    ));
    assert_eq!(told(run.next(RunEvent::TimeToAsk(status(10, false)))), (0, None));
    match run.next(RunEvent::Answered(vec![addr(2), addr(3)])) {
        RunAction::Meet(peers) => assert_eq!(peers, vec![addr(3)]),
        other => panic!("{other:?}"),
    }
    assert!(matches!(
        run.next(RunEvent::TimeToShow(status(10, true))),
        RunAction::Rest
    ));
    assert_eq!(
        told(run.next(RunEvent::TimeToAsk(status(10, true)))),
        (0, Some(TrackerEvent::Completed))
    );
    assert!(matches!(
        run.next(RunEvent::Unanswered(Error::Tracker("down".to_string()))),
        RunAction::Finish
    ));
    assert_eq!(run.stage, Stage::Ended);
    assert!(matches!(
        run.next(RunEvent::TimeToShow(status(10, true))),
        RunAction::Rest
    ));
}

#[test]
fn a_run_of_a_complete_download_tells_nothing_at_its_end() {
    let mut run = Run::new();
    assert_eq!(
        told(run.next(RunEvent::Resumed(status(10, true)))),
        (0, Some(TrackerEvent::Started))
    );
    assert!(matches!(
        run.next(RunEvent::Answered(vec![])),
        RunAction::Begin(_)
    ));
    assert!(matches!(
        run.next(RunEvent::TimeToAsk(status(10, true))),
        RunAction::Rest
    ));
    assert!(matches!(
        run.next(RunEvent::TimeToShow(status(10, true))),
        RunAction::Finish
    ));
}

#[test]
fn a_run_that_no_tracker_answers_fails() {
    let mut run = Run::new();
    told(run.next(RunEvent::Resumed(status(0, false))));
    match run.next(RunEvent::Unanswered(Error::Tracker("down".to_string()))) {
        RunAction::Fail(e) => assert_eq!(e.to_string(), "tracker: down"),
        other => panic!("{other:?}"),
    }
    assert_eq!(run.stage, Stage::Ended);
}
