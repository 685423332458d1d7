use torentino_pure::tracker::http::{
    announce_url, http_request, parse_answer, parse_compact_ipv4, parse_head, parse_response,
    request_failed, transport, urlencoded_bytes, with_parsed, Fetch, FetchStep, HttpResponse,
    PeerList, Transport,
};
use torentino_pure::tracker::udp::{
    connect_response, no_address, lookup_failed, timeout_ms, tracker_endpoint, AnnounceStep,
    Announcing, ConnectStep, Connecting,
};
use torentino_pure::tracker::weburl::TrackerUrl;
use torentino_pure::tracker::{
    parse_compact_peers, tracker_kind, Announce, PeerAddr, TrackerEvent, TrackerKind,
};

fn announce() -> Announce {
    Announce {
        info_hash: [0x1f; 20],
        peer_id: *b"-TO0001-012345678901",
        port: 6881,
        uploaded: 1,
        downloaded: 2,
        left: 3,
        event: Some(TrackerEvent::Started),
    }
}

#[test]
fn kinds_of_trackers() {
    assert_eq!(tracker_kind("udp://x").unwrap(), TrackerKind::Udp);
    assert_eq!(tracker_kind("http://x").unwrap(), TrackerKind::Http);
    assert_eq!(tracker_kind("https://x").unwrap(), TrackerKind::Http);
    assert_eq!(
        tracker_kind("ws://x").unwrap_err().to_string(),
        "tracker: unsupported tracker scheme: ws://x"
    );
    assert!(tracker_kind("UDP://x").is_err());
}

#[test]
fn names_of_events() {
    assert_eq!(TrackerEvent::Started.as_str(), "started");
    assert_eq!(TrackerEvent::Completed.as_str(), "completed");
    assert_eq!(TrackerEvent::Stopped.as_str(), "stopped");
}

#[test]
fn compact_addresses() {
    let bytes = [127, 0, 0, 1, 0x1a, 0xe1, 10, 0, 0, 2, 0, 80, 9];
    let expected = vec![
        PeerAddr::V4 {
            ip: 0x7f000001,
            port: 6881,
        },
        PeerAddr::V4 {
            ip: 0x0a000002,
            port: 80,
        },
    ];
    assert_eq!(parse_compact_peers(&bytes), expected);
    assert_eq!(parse_compact_ipv4(&bytes[..12]).unwrap(), expected);
    assert_eq!(
        parse_compact_ipv4(&bytes).unwrap_err().to_string(),
        "tracker: compact peer data not multiple of 6"
    );
}

#[test]
fn bytes_in_urls() {
    assert_eq!(urlencoded_bytes(&[0, 0x1a, 0xff, b'a']), "%00%1A%FF%61");
    assert_eq!(urlencoded_bytes(&[]), "");
}

#[test]
fn announce_urls() {
    let url = announce_url("http://t/announce", &announce());
    assert_eq!(
        url,
        format!(
            "http://t/announce?info_hash={}&peer_id={}&port=6881&uploaded=1&downloaded=2&left=3\
             &compact=1&no_peer_id=1&numwant=50&event=started",
            "%1F".repeat(20),
            "%2D%54%4F%30%30%30%31%2D%30%31%32%33%34%35%36%37%38%39%30%31"
        )
    );
}

#[test]
fn compact_answers() {
    let answer = parse_answer(b"d8:intervali1800e5:peers6:\x01\x02\x03\x04\x00\x50e").unwrap();
    assert_eq!(answer.interval, 1800);
    let response = with_parsed(answer, &vec![]);
    assert_eq!(
        response.peers,
        vec![PeerAddr::V4 {
            ip: 0x01020304,
            port: 80
        }]
    );
    let default = parse_answer(b"d5:peers0:e").unwrap();
    assert_eq!(default.interval, 300);
    let wrapped = parse_answer(b"d8:intervali-1e5:peers0:e").unwrap();
    assert_eq!(wrapped.interval, u32::MAX);
}

#[test]
fn named_answers() {
    let answer = parse_answer(
        b"d5:peersld2:ip7:1.2.3.44:porti80eed2:ip1:x4:porti-1eed2:ip1:yei7eee",
    )
    .unwrap();
    match &answer.peers {
        PeerList::Names(names) => assert_eq!(names, &vec!["1.2.3.4:80", "x:-1"]),
        other => panic!("{other:?}"),
    }
    let addr = PeerAddr::V4 {
        ip: 0x01020304,
        port: 80,
    };
    assert_eq!(with_parsed(answer, &vec![Some(addr), None]).peers, vec![addr]);
}

fn refusal(body: &[u8]) -> String {
    parse_answer(body).unwrap_err().to_string()
}

#[test]
fn answers_that_are_refused() {
    assert_eq!(
        refusal(b"<html>"),
        "tracker: failed to decode tracker response: bencode error: unexpected byte: 60"
    );
    assert_eq!(refusal(b"i1e"), "tracker: tracker response not a dict");
    assert_eq!(
        refusal(b"d14:failure reason4:nope5:peers0:e"),
        "tracker: tracker error: nope"
    );
    assert_eq!(
        refusal(b"d14:failure reasoni1ee"),
        "tracker: tracker error: <non-string failure reason>"
    );
    assert_eq!(refusal(b"de"), "tracker: no peers in response");
    assert_eq!(refusal(b"d5:peersi1ee"), "tracker: no peers in response");
    assert_eq!(
        refusal(b"d5:peers1:xe"),
        "tracker: compact peer data not multiple of 6"
    );
}

#[test]
fn heads_of_responses() {
    let (status, location) = parse_head(
        "HTTP/1.1 302 Found\r\nLOCATION: \t/first\r\nLocation:/second \r\r\nX-Location: no\r\n\r\n",
    );
    assert_eq!(status, 302);
    assert_eq!(location.as_deref(), Some("/second"));
    assert_eq!(parse_head("HTTP/1.1 +200\n").0, 200);
    assert_eq!(parse_head("HTTP/1.1\n").0, 0);
    assert_eq!(parse_head("HTTP/1.1 65536\n").0, 0);
    assert_eq!(parse_head("HTTP/1.1 2x\n").0, 0);
    assert_eq!(parse_head("Location: a\n").1, None);
}

#[test]
fn whole_responses() {
    let r = parse_response(b"HTTP/1.1 200 OK\nA: b\r\n\r\nbody\r\n\r\n").unwrap();
    assert_eq!((r.status, r.location.is_none()), (200, true));
    assert_eq!(r.body, b"body\r\n\r\n");
    let r = parse_response(b"HTTP/1.0 404 No\n\nrest").unwrap();
    assert_eq!((r.status, r.body.as_slice()), (404, &b"rest"[..]));
    let r = parse_response(b"HTTP/1.0 301 \xff\nlocation: /\xff\n\n").unwrap();
    assert_eq!(r.location.as_deref(), Some("/\u{fffd}"));
    assert_eq!(
        parse_response(b"HTTP/1.1 200 OK\r\n").unwrap_err(),
        "malformed HTTP response: missing header terminator"
    );
}

#[test]
fn requests_for_urls() {
    let fetch = Fetch::start("HTTP://Tracker.Example:8080/a b?x=1#f").unwrap();
    assert_eq!(fetch.url.text, "http://tracker.example:8080/a%20b?x=1#f");
    let request = http_request(&fetch.url).unwrap();
    assert_eq!(request.host, "tracker.example");
    assert_eq!(request.address, "tracker.example:8080");
    assert_eq!(
        request.text,
        "GET /a%20b?x=1 HTTP/1.1\r\nHost: tracker.example\r\nConnection: close\r\n\r\n"
    );
    assert_eq!(transport(&fetch.url).unwrap(), Transport::Plain);
    let secure = Fetch::start("https://t").unwrap();
    assert_eq!(http_request(&secure.url).unwrap().address, "t:443");
    assert_eq!(transport(&secure.url).unwrap(), Transport::Tls);
    assert!(Fetch::start("not a url").is_err());
}

#[test]
fn requests_that_cannot_be_made() {
    let mail = Fetch::start("mailto:a").unwrap();
    assert_eq!(http_request(&mail.url).unwrap_err(), "no host in URL");
    let udp = Fetch::start("udp://t").unwrap();
    assert_eq!(http_request(&udp.url).unwrap_err(), "unknown port");
    assert_eq!(transport(&udp.url).unwrap_err(), "unsupported scheme: udp");
    assert_eq!(
        request_failed("why").to_string(),
        "tracker: HTTP request failed: why"
    );
}

fn redirect(location: &str) -> HttpResponse {
    HttpResponse {
        status: 302,
        location: Some(location.to_string()),
        body: vec![],
    }
}

#[test]
fn redirections_are_followed_five_times() {
    let mut fetch = Fetch::start("http://t/a/b").unwrap();
    for n in 0..5 {
        match fetch.next(redirect("c")) {
            FetchStep::Follow(next) => {
                assert_eq!(next.url.text, "http://t/a/c");
                assert_eq!(next.redirects_left, 4 - n);
                fetch = next;
            }
            other => panic!("{other:?}"),
        }
    }
    match fetch.next(redirect("c")) {
        FetchStep::Failed(why) => assert_eq!(why, "too many HTTP redirects"),
        other => panic!("{other:?}"),
    }
}

#[test]
fn other_steps() {
    let fetch = Fetch::start("http://t/").unwrap();
    let ok = HttpResponse {
        status: 204,
        location: Some("x".to_string()),
        body: vec![1, 2],
    };
    match fetch.next(ok) {
        FetchStep::Done(body) => assert_eq!(body, vec![1, 2]),
        other => panic!("{other:?}"),
    }
    let lost = HttpResponse {
        status: 301,
        location: None,
        body: vec![],
    };
    match fetch.next(lost) {
        FetchStep::Failed(why) => assert_eq!(why, "HTTP status 301"),
        other => panic!("{other:?}"),
    }
    match fetch.next(redirect("http://[bad")) {
        FetchStep::Failed(why) => assert_eq!(why, "invalid IPv6 address"),
        other => panic!("{other:?}"),
    }
    let url = TrackerUrl {
        text: "http://u/".to_string(),
        scheme: "http".to_string(),
        host: Some("u".to_string()),
        port: None,
        known_port: Some(80),
        path: "/".to_string(),
        query: None,
    };
    match fetch.redirect(Ok(url)) {
        FetchStep::Follow(next) => assert_eq!(next.redirects_left, 4),
        other => panic!("{other:?}"),
    }
}

#[test]
fn endpoints_of_udp_trackers() {
    assert_eq!(
        tracker_endpoint("udp://Tracker.Example:1337/announce").unwrap(),
        ("tracker.example".to_string(), 1337)
    );
    assert_eq!(
        tracker_endpoint("udp://t").unwrap(),
        ("t".to_string(), 80)
    );
    assert_eq!(
        tracker_endpoint("mailto:x").unwrap_err().to_string(),
        "tracker: no host in URL"
    );
    assert_eq!(
        tracker_endpoint("x").unwrap_err().to_string(),
        "tracker: bad URL: relative URL without a base"
    );
    assert_eq!(
        lookup_failed("t", 80, "why").to_string(),
        "tracker: resolve t:80: why"
    );
    assert_eq!(
        no_address("t", 80).to_string(),
        "tracker: cannot resolve tracker addr: t:80"
    );
}

#[test]
fn patience_doubles() {
    assert_eq!(timeout_ms(0), 15000);
    assert_eq!(timeout_ms(1), 30000);
    assert_eq!(timeout_ms(7), 1920000);
    assert_eq!(timeout_ms(8), 3840000);
}

#[test]
fn connecting() {
    let c = Connecting::first(0x01020304);
    assert_eq!((c.attempt, c.transaction_id), (0, 0x01020304));
    assert_eq!(
        c.request(),
        vec![0, 0, 4, 0x17, 0x27, 0x10, 0x19, 0x80, 0, 0, 0, 0, 1, 2, 3, 4]
    );
    let response = [0, 0, 0, 0, 1, 2, 3, 4, 0, 0, 0, 0, 0, 0, 1, 0];
    assert_eq!(connect_response(&response, 0x01020304), Some(256));
    assert_eq!(connect_response(&response, 0x01020305), None);
    match c.next(Some(&response), "addr") {
        ConnectStep::Connected(id) => assert_eq!(id, 256),
        other => panic!("{other:?}"),
    }
    match c.follow(None, "addr", 77) {
        ConnectStep::Again(next) => assert_eq!((next.attempt, next.transaction_id), (1, 77)),
        other => panic!("{other:?}"),
    }
    let last = Connecting {
        attempt: 8,
        transaction_id: 1,
    };
    match last.next(Some(&response), "1.2.3.4:80") {
        ConnectStep::Failed(e) => assert_eq!(
            e.to_string(),
            "tracker: UDP connect to 1.2.3.4:80 failed after 8 retries"
        ),
        other => panic!("{other:?}"),
    }
    assert_eq!(Connecting::start().attempt, 0);
    let ids: Vec<u32> = (0..8).map(|_| Connecting::start().transaction_id).collect();
    assert!(ids.iter().any(|id| *id != ids[0]));
}

#[test]
fn announcing() {
    let a = Announcing::numbered(5, 0, 6, 7);
    assert_eq!(
        (a.attempt, a.connection_id, a.transaction_id, a.key),
        (0, 5, 6, 7)
    );
    let request = a.request(&announce());
    assert_eq!(request.len(), 98);
    assert_eq!(&request[..16], &[0, 0, 0, 0, 0, 0, 0, 5, 0, 0, 0, 1, 0, 0, 0, 6]);
    assert_eq!(&request[16..36], &[0x1f; 20]);
    assert_eq!(&request[36..56], b"-TO0001-012345678901");
    assert_eq!(&request[56..64], &[0, 0, 0, 0, 0, 0, 0, 2]);
    assert_eq!(&request[64..72], &[0, 0, 0, 0, 0, 0, 0, 3]);
    assert_eq!(&request[72..80], &[0, 0, 0, 0, 0, 0, 0, 1]);
    assert_eq!(
        &request[80..],
        &[0, 0, 0, 2, 0, 0, 0, 0, 0, 0, 0, 7, 0, 0, 0, 50, 0x1a, 0xe1]
    );
    let mut response = vec![0, 0, 0, 1, 0, 0, 0, 6, 0, 0, 1, 0];
    response.extend_from_slice(&[0; 8]);
    response.extend_from_slice(&[1, 2, 3, 4, 0, 80, 9]);
    match a.next(Some(&response), 0) {
        AnnounceStep::Announced(r) => {
            assert_eq!(r.interval, 256);
            assert_eq!(
                r.peers,
                vec![PeerAddr::V4 {
                    ip: 0x01020304,
                    port: 80
                }]
            );
        }
        other => panic!("{other:?}"),
    }
    match a.follow(Some(&response[..19]), 59_999, 8, 9) {
        AnnounceStep::Again(next) => assert_eq!(
            (next.attempt, next.connection_id, next.transaction_id, next.key),
            (1, 5, 8, 9)
        ),
        other => panic!("{other:?}"),
    }
    let last = Announcing { attempt: 8, ..a };
    match last.next(None, 60_000) {
        AnnounceStep::Failed(e) => assert_eq!(
            e.to_string(),
            "tracker: UDP announce failed after retries"
        ),
        other => panic!("{other:?}"),
    }
    assert_eq!(Announcing::start(9, 3).connection_id, 9);
    assert_eq!(Announcing::start(9, 3).attempt, 3);
}

#[test]
fn requests_are_sent_again_eight_times() {
    let mut sent = 1;
    let mut c = Connecting::start();
    loop {
        match c.next(None, "a") {
            ConnectStep::Again(next) => {
                assert_eq!(next.attempt, c.attempt + 1);
                c = next;
                sent += 1;
            }
            ConnectStep::Failed(_) => break,
            other => panic!("{other:?}"),
        }
    }
    assert_eq!(sent, 9);
    let mut sent = 1;
    let mut a = Announcing::start(1, 0);
    while let AnnounceStep::Again(next) = a.next(Some(&[0; 30]), 0) {
        a = next;
        sent += 1;
    }
    assert_eq!(sent, 9);
}

#[test]
fn connections_are_opened_again_after_a_minute() {
    let (mut sent, mut opened) = (1, 1);
    let mut a = Announcing::start(1, 0);
    let mut age_ms = 0;
    loop {
        age_ms += timeout_ms(a.attempt);
        match a.next(None, age_ms) {
            AnnounceStep::Again(next) => {
                assert!(age_ms < 60_000);
                assert_eq!(next.connection_id, a.connection_id);
                a = next;
            }
            AnnounceStep::Reconnect(attempt) => {
                assert!(age_ms >= 60_000);
                opened += 1;
                age_ms = 0;
                a = Announcing::start(opened, attempt);
            }
            AnnounceStep::Failed(_) => break,
            other => panic!("{other:?}"),
        }
        sent += 1;
    }
    // After 15, 45 and 105 seconds, and then after every request.
    assert_eq!((sent, opened), (9, 7));
}

#[test]
fn no_event_is_told_of() {
    let news = Announce {
        event: None,
        ..announce()
    };
    let url = announce_url("http://t/announce", &news);
    assert!(url.ends_with("&compact=1&no_peer_id=1&numwant=50"));
    let request = Announcing::numbered(5, 0, 6, 7).request(&news);
    assert_eq!(&request[80..84], &[0, 0, 0, 0]);
    let stopped = Announce {
        event: Some(TrackerEvent::Stopped),
        ..announce()
    };
    assert!(announce_url("u", &stopped).ends_with("&event=stopped"));
    let request = Announcing::numbered(5, 0, 6, 7).request(&stopped);
    assert_eq!(&request[80..84], &[0, 0, 0, 3]);
    let completed = Announce {
        event: Some(TrackerEvent::Completed),
        ..announce()
    };
    let request = Announcing::numbered(5, 0, 6, 7).request(&completed);
    assert_eq!(&request[80..84], &[0, 0, 0, 1]);
}
