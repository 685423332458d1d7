//! What holds of what HTTP trackers are sent and of what they answer.
use vstd::prelude::*;
use vstd::utf8::*;

use crate::bencode::grammar;
use crate::bencode::grammar::Bencode;
use crate::scan;
use crate::scan::laws as scanning;
use crate::text;
use crate::tracker;
use crate::tracker::http;
use crate::tracker::http::{FetchStep, HttpResponse, PeersModel};
use crate::tracker::laws as trackers;
use crate::tracker::weburl;
use crate::tracker::weburl::UrlModel;
use crate::tracker::{Announce, PeerAddr, TrackerEvent};

verus! {

/// The number that a hexadecimal digit denotes.
pub open spec fn hex_value(c: char) -> int {
    if '0' <= c <= '9' {
        c as u32 - 48
    } else if 'A' <= c <= 'F' {
        c as u32 - 55
    } else {
        -1
    }
}

/// Every byte is written as a percent sign and two hexadecimal digits, which denote
/// it.
pub proof fn law_percent_denotes(data: Seq<u8>, i: int)
    ensures
        http::percent_encoded(data).len() == 3 * data.len(),
        0 <= i < data.len() ==> {
            let s = http::percent_encoded(data);
            &&& s[3 * i] == '%'
            &&& 0 <= hex_value(s[3 * i + 1]) < 16
            &&& 0 <= hex_value(s[3 * i + 2]) < 16
            &&& hex_value(s[3 * i + 1]) * 16 + hex_value(s[3 * i + 2]) == data[i]
        },
{
    if 0 <= i < data.len() {
        let s = http::percent_encoded(data);
        assert(3 * i % 3 == 0 && (3 * i + 1) % 3 == 1 && (3 * i + 2) % 3 == 2);
        assert((3 * i + 1) / 3 == i && (3 * i + 2) / 3 == i);
        assert(s[3 * i + 1] == http::hex_digit(data[i] / 16));
        assert(s[3 * i + 2] == http::hex_digit(data[i] % 16));
        lemma_hex_value(data[i] / 16);
        lemma_hex_value(data[i] % 16);
    }
}

proof fn lemma_hex_value(n: u8)
    requires
        n < 16,
    ensures
        hex_value(http::hex_digit(n)) == n,
{
}

/// What a tracker is told of an event stands at the end of the URL, by its name,
/// and is all that the URL has more than one that tells of no event.
pub proof fn law_announce_event(url: Seq<char>, a: Announce, b: Announce)
    requires
        a.event is None,
        b == (Announce { event: b.event, ..a }),
    ensures
        b.event matches Some(e) ==> http::announce_text(url, b) == http::announce_text(url, a)
            + "&event="@ + match e {
            TrackerEvent::Started => "started"@,
            TrackerEvent::Completed => "completed"@,
            TrackerEvent::Stopped => "stopped"@,
        },
        b.event is None ==> http::announce_text(url, b) == http::announce_text(url, a),
{
    let plain = http::announce_text(url, a);
    if let Some(e) = b.event {
        let name = match e {
            TrackerEvent::Started => "started"@,
            TrackerEvent::Completed => "completed"@,
            TrackerEvent::Stopped => "stopped"@,
        };
        assert(plain =~= plain + Seq::<char>::empty());
        assert(http::announce_text(url, b) =~= plain + "&event="@ + name);
    }
}

/// The parameters that a tracker is told, by their names.
pub open spec fn parameters(a: Announce) -> Seq<Seq<char>> {
    let fixed = seq![
        "info_hash="@ + http::percent_encoded(a.info_hash@),
        "peer_id="@ + http::percent_encoded(a.peer_id@),
        "port="@ + http::shown(a.port as nat),
        "uploaded="@ + http::shown(a.uploaded as nat),
        "downloaded="@ + http::shown(a.downloaded as nat),
        "left="@ + http::shown(a.left as nat),
        "compact=1"@,
        "no_peer_id=1"@,
        "numwant="@ + http::shown(50),
    ];
    match a.event {
        None => fixed,
        Some(TrackerEvent::Started) => fixed.push("event=started"@),
        Some(TrackerEvent::Completed) => fixed.push("event=completed"@),
        Some(TrackerEvent::Stopped) => fixed.push("event=stopped"@),
    }
}

/// The URL is that of the tracker, a question mark and the parameters, with `&`
/// between them: who splits it there reads back all that the tracker is told.
pub proof fn law_announce_parameters(url: Seq<char>, a: Announce)
    ensures
        ({
            let s = http::announce_text(url, a);
            &&& url.len() < s.len()
            &&& s.take(url.len() as int) == url
            &&& s[url.len() as int] == '?'
            &&& scan::split(s.skip(url.len() + 1int), '&') == parameters(a)
        }),
{
    let none = Announce { event: None, ..a };
    law_announce_event(url, none, a);
    lemma_parameters(url, none);
    let q = query(none);
    let s = http::announce_text(url, a);
    match a.event {
        None => {
            lemma_behind_mark(url, q);
        },
        Some(e) => {
            lemma_event_item(e);
            let item = event_item(e);
            let name = event_word(e);
            let plain = http::announce_text(url, none);
            assert(plain + "&event="@ + name =~= plain + ("&event="@ + name));
            assert(url.push('?') + q + (seq!['&'] + item) =~= url.push('?') + (q.push('&') + item));
            lemma_behind_mark(url, q.push('&') + item);
            lemma_one_more_item(q, item);
        },
    }
}

/// What stands behind the question mark.
proof fn lemma_behind_mark(url: Seq<char>, q: Seq<char>)
    ensures
        ({
            let s = url.push('?') + q;
            &&& url.len() < s.len()
            &&& s.take(url.len() as int) == url
            &&& s[url.len() as int] == '?'
            &&& s.skip(url.len() + 1int) == q
        }),
{
    let s = url.push('?') + q;
    assert(s.take(url.len() as int) =~= url);
    assert(s.skip(url.len() + 1int) =~= q);
}

/// The parameter that tells of an event.
spec fn event_item(e: TrackerEvent) -> Seq<char> {
    match e {
        TrackerEvent::Started => "event=started"@,
        TrackerEvent::Completed => "event=completed"@,
        TrackerEvent::Stopped => "event=stopped"@,
    }
}

/// The word for an event.
spec fn event_word(e: TrackerEvent) -> Seq<char> {
    match e {
        TrackerEvent::Started => "started"@,
        TrackerEvent::Completed => "completed"@,
        TrackerEvent::Stopped => "stopped"@,
    }
}

proof fn lemma_event_item(e: TrackerEvent)
    ensures
        plain(event_item(e)),
        "&event="@ + event_word(e) == seq!['&'] + event_item(e),
{
    reveal_strlit("&event=");
    match e {
        TrackerEvent::Started => {
            reveal_strlit("started");
            reveal_strlit("event=started");
        },
        TrackerEvent::Completed => {
            reveal_strlit("completed");
            reveal_strlit("event=completed");
        },
        TrackerEvent::Stopped => {
            reveal_strlit("stopped");
            reveal_strlit("event=stopped");
        },
    }
    assert("&event="@ + event_word(e) =~= seq!['&'] + event_item(e));
}

/// Whether a text holds no `&`.
spec fn plain(s: Seq<char>) -> bool {
    forall|i: int| 0 <= i < s.len() ==> #[trigger] s[i] != '&'
}

proof fn lemma_one_more_item(q: Seq<char>, item: Seq<char>)
    requires
        plain(item),
    ensures
        scan::split(q.push('&') + item, '&') == scan::split(q, '&').push(item),
{
    scanning::law_split_between(q, item, '&');
    scanning::law_split_between(item, Seq::empty(), '&');
    assert(scan::split(q, '&') + seq![item] =~= scan::split(q, '&').push(item));
}

/// What stands behind the question mark where there is no event.
spec fn query(a: Announce) -> Seq<char> {
    let p = parameters(a);
    p[0].push('&') + p[1] + seq!['&'] + p[2] + seq!['&'] + p[3] + seq!['&'] + p[4] + seq!['&']
        + p[5] + seq!['&'] + p[6] + seq!['&'] + p[7] + seq!['&'] + p[8]
}

proof fn lemma_plain_joined(a: Seq<char>, b: Seq<char>)
    requires
        plain(a),
        plain(b),
    ensures
        plain(a + b),
{
}

proof fn lemma_percent_plain(data: Seq<u8>)
    ensures
        plain(http::percent_encoded(data)),
{
    let s = http::percent_encoded(data);
    assert forall|k: int| 0 <= k < s.len() implies #[trigger] s[k] != '&' by {
        let b = data[k / 3];
        assert(0 <= k / 3 < data.len());
        lemma_hex_value(b / 16);
        lemma_hex_value(b % 16);
    }
}

proof fn lemma_shown_plain(n: nat)
    ensures
        plain(http::shown(n)),
{
    text::lemma_digits_value(n);
    let s = http::shown(n);
    assert forall|k: int| 0 <= k < s.len() implies #[trigger] s[k] != '&' by {
        assert(text::is_digit(text::digits(n)[k]));
    }
}

proof fn lemma_literals_plain()
    ensures
        plain("info_hash="@),
        plain("peer_id="@),
        plain("port="@),
        plain("uploaded="@),
        plain("downloaded="@),
        plain("left="@),
        plain("compact=1"@),
        plain("no_peer_id=1"@),
        plain("numwant="@),
        "?info_hash="@ == seq!['?'] + "info_hash="@,
        "&peer_id="@ == seq!['&'] + "peer_id="@,
        "&port="@ == seq!['&'] + "port="@,
        "&uploaded="@ == seq!['&'] + "uploaded="@,
        "&downloaded="@ == seq!['&'] + "downloaded="@,
        "&left="@ == seq!['&'] + "left="@,
        "&compact=1&no_peer_id=1&numwant="@ == seq!['&'] + "compact=1"@ + seq!['&']
            + "no_peer_id=1"@ + seq!['&'] + "numwant="@,
{
    reveal_strlit("info_hash=");
    reveal_strlit("peer_id=");
    reveal_strlit("port=");
    reveal_strlit("uploaded=");
    reveal_strlit("downloaded=");
    reveal_strlit("left=");
    reveal_strlit("compact=1");
    reveal_strlit("no_peer_id=1");
    reveal_strlit("numwant=");
    reveal_strlit("?info_hash=");
    reveal_strlit("&peer_id=");
    reveal_strlit("&port=");
    reveal_strlit("&uploaded=");
    reveal_strlit("&downloaded=");
    reveal_strlit("&left=");
    reveal_strlit("&compact=1&no_peer_id=1&numwant=");
    assert("?info_hash="@ =~= seq!['?'] + "info_hash="@);
    assert("&peer_id="@ =~= seq!['&'] + "peer_id="@);
    assert("&port="@ =~= seq!['&'] + "port="@);
    assert("&uploaded="@ =~= seq!['&'] + "uploaded="@);
    assert("&downloaded="@ =~= seq!['&'] + "downloaded="@);
    assert("&left="@ =~= seq!['&'] + "left="@);
    assert("&compact=1&no_peer_id=1&numwant="@ =~= seq!['&'] + "compact=1"@ + seq!['&']
        + "no_peer_id=1"@ + seq!['&'] + "numwant="@);
}

/// Texts behind a text that begins with `u`.
proof fn lemma_behind(u: Seq<char>, q: Seq<char>, name: Seq<char>, value: Seq<char>)
    ensures
        (u + q) + (seq!['&'] + name) + value == u + (q + seq!['&'] + (name + value)),
{
    assert((u + q) + (seq!['&'] + name) + value =~= u + (q + seq!['&'] + (name + value)));
}

proof fn lemma_parameters(url: Seq<char>, a: Announce)
    requires
        a.event is None,
    ensures
        http::announce_text(url, a) == url.push('?') + query(a),
        scan::split(query(a), '&') == parameters(a),
{
    lemma_literals_plain();
    let p = parameters(a);
    lemma_percent_plain(a.info_hash@);
    lemma_percent_plain(a.peer_id@);
    lemma_shown_plain(a.port as nat);
    lemma_shown_plain(a.uploaded as nat);
    lemma_shown_plain(a.downloaded as nat);
    lemma_shown_plain(a.left as nat);
    lemma_shown_plain(50);
    assert forall|k: int| 0 <= k < 9 implies plain(#[trigger] p[k]) by {}
    let u = url.push('?');
    let q0 = p[0];
    let q1 = q0 + seq!['&'] + p[1];
    let q2 = q1 + seq!['&'] + p[2];
    let q3 = q2 + seq!['&'] + p[3];
    let q4 = q3 + seq!['&'] + p[4];
    let q5 = q4 + seq!['&'] + p[5];
    let q6 = q5 + seq!['&'] + p[6];
    let q7 = q6 + seq!['&'] + p[7];
    let q8 = q7 + seq!['&'] + p[8];
    let t0 = url + "?info_hash="@ + http::percent_encoded(a.info_hash@);
    assert(t0 =~= u + q0);
    lemma_behind(u, q0, "peer_id="@, http::percent_encoded(a.peer_id@));
    lemma_behind(u, q1, "port="@, http::shown(a.port as nat));
    lemma_behind(u, q2, "uploaded="@, http::shown(a.uploaded as nat));
    lemma_behind(u, q3, "downloaded="@, http::shown(a.downloaded as nat));
    lemma_behind(u, q4, "left="@, http::shown(a.left as nat));
    let t5 = u + q5;
    let last = http::shown(50);
    assert(t5 + "&compact=1&no_peer_id=1&numwant="@ + last =~= u + q8);
    assert(http::announce_text(url, a) =~= u + q8) by {
        assert(u + q8 =~= (u + q8) + Seq::<char>::empty());
    }
    assert(q0.push('&') =~= q0 + seq!['&']);
    assert(query(a) =~= q8);
    scanning::law_split_between(q0, Seq::empty(), '&');
    lemma_item(q0, p[1]);
    lemma_item(q1, p[2]);
    lemma_item(q2, p[3]);
    lemma_item(q3, p[4]);
    lemma_item(q4, p[5]);
    lemma_item(q5, p[6]);
    lemma_item(q6, p[7]);
    lemma_item(q7, p[8]);
    assert(scan::split(q8, '&') =~= p);
}

proof fn lemma_item(q: Seq<char>, item: Seq<char>)
    requires
        plain(item),
    ensures
        scan::split(q + seq!['&'] + item, '&') == scan::split(q, '&').push(item),
{
    lemma_one_more_item(q, item);
    assert(q.push('&') =~= q + seq!['&']);
}

/// The bytes of the keys that trackers use.
proof fn lemma_keys_differ()
    ensures
        encode_utf8("ip"@) != encode_utf8("port"@),
{
    reveal_strlit("ip");
    reveal_strlit("port");
    is_ascii_chars_encode_utf8("ip"@);
    is_ascii_chars_encode_utf8("port"@);
}

/// How a tracker names a peer by its IP address and its port.
pub open spec fn peer_entry(ip: Seq<char>, port: int) -> Bencode {
    Bencode::Dict(
        seq![
            (encode_utf8("ip"@), Bencode::Bytes(encode_utf8(ip))),
            (encode_utf8("port"@), Bencode::Int(port)),
        ],
    )
}

/// Peers that are named by their IP addresses and ports are read, each of them and
/// in order: the one, a colon, the other. What is no dictionary is skipped.
pub proof fn law_peer_entries_read(items: Seq<Bencode>, ip: Seq<char>, port: int, other: Bencode)
    requires
        !(other is Dict),
    ensures
        http::peer_names(Seq::empty()) == Seq::<Seq<char>>::empty(),
        http::peer_names(items.push(peer_entry(ip, port))) == http::peer_names(items).push(
            ip + ":"@ + text::ascii_chars(text::decimal(port)),
        ),
        http::peer_names(items.push(other)) == http::peer_names(items),
{
    lemma_keys_differ();
    encode_utf8_valid_utf8(ip);
    encode_utf8_decode_utf8(ip);
    let v = peer_entry(ip, port);
    assert(items.push(v).drop_last() =~= items);
    assert(items.push(other).drop_last() =~= items);
    let d = v->Dict_0;
    assert(d.drop_first()[0] == d[1]);
    reveal_with_fuel(grammar::lookup, 3);
}

/// A peer is named exactly where there is a text for its IP address and a number
/// for its port.
pub proof fn law_peer_named(v: Bencode)
    ensures
        http::peer_name(v) is Some <==> v is Dict && ({
            let ip = grammar::lookup(v->Dict_0, encode_utf8("ip"@));
            let port = grammar::lookup(v->Dict_0, encode_utf8("port"@));
            &&& ip is Some && ip->0 is Bytes && valid_utf8(ip->0->Bytes_0)
            &&& port is Some && port->0 is Int
        }),
{
}

/// What a tracker answers, by what its dictionary holds.
pub proof fn law_answer_read(
    d: Seq<(Seq<u8>, Bencode)>,
    rest: Seq<u8>,
    addrs: Seq<PeerAddr>,
    items: Seq<Bencode>,
    why: Seq<char>,
    n: int,
)
    requires
        grammar::valid(Bencode::Dict(d)),
        forall|i: int| 0 <= i < addrs.len() ==> (#[trigger] addrs[i]) is V4,
    ensures
        ({
            let answer = http::answer_said(grammar::encoding(Bencode::Dict(d)) + rest);
            let failure = grammar::lookup(d, encode_utf8("failure reason"@));
            let peers = grammar::lookup(d, encode_utf8("peers"@));
            let interval = grammar::lookup(d, encode_utf8("interval"@));
            &&& failure == Some(Bencode::Bytes(encode_utf8(why))) ==> answer == Err::<
                http::AnswerModel,
                _,
            >("tracker error: "@ + why)
            &&& failure is Some ==> answer is Err
            &&& failure is None ==> {
                &&& peers == Some(Bencode::Bytes(trackers::compact_list(addrs))) ==> (answer
                    matches Ok(a) && a.peers == PeersModel::Addrs(addrs))
                &&& peers == Some(Bencode::List(items)) ==> (answer matches Ok(a) && a.peers
                    == PeersModel::Names(http::peer_names(items)))
                &&& answer is Ok <==> peers is Some && (peers->0 is List || peers->0 is Bytes
                    && peers->0->Bytes_0.len() % 6 == 0)
                &&& answer is Ok && interval == Some(Bencode::Int(n)) ==> answer->Ok_0.interval
                    == n % 4294967296
                &&& answer is Ok && (interval is None || !(interval->0 is Int))
                    ==> answer->Ok_0.interval == 300
            }
        }),
{
    crate::bencode::laws::law_encoding_read_back(Bencode::Dict(d), rest);
    encode_utf8_valid_utf8(why);
    encode_utf8_decode_utf8(why);
    trackers::law_compact_list_read_back(addrs, Seq::empty());
    assert(trackers::compact_list(addrs) + Seq::<u8>::empty() =~= trackers::compact_list(addrs));
    trackers::lemma_compact_list(addrs);
}

/// Bytes that are no dictionary are no answer.
pub proof fn law_answer_is_dictionary(body: Seq<u8>)
    requires
        http::answer_said(body) is Ok,
    ensures
        grammar::decoded(body) matches Ok((Bencode::Dict(_), _)),
{
}

/// Of the texts that may be addresses those are kept that are, in order.
pub proof fn law_made_out(parsed: Seq<Option<PeerAddr>>, addr: PeerAddr)
    ensures
        http::made_out(Seq::empty()) == Seq::<PeerAddr>::empty(),
        http::made_out(parsed.push(Some(addr))) == http::made_out(parsed).push(addr),
        http::made_out(parsed.push(None)) == http::made_out(parsed),
{
    assert(parsed.push(Some(addr)).drop_last() =~= parsed);
    assert(parsed.push(None).drop_last() =~= parsed);
}

/// Bytes are found where they occur first, and nowhere where they do not occur.
pub proof fn law_found_first(s: Seq<u8>, pattern: Seq<u8>, p: int)
    requires
        pattern.len() > 0,
    ensures
        http::find(s, pattern) == Some(p) <==> {
            &&& occurs(s, pattern, p)
            &&& forall|q: int| 0 <= q < p ==> !#[trigger] occurs(s, pattern, q)
        },
        http::find(s, pattern) is None <==> forall|q: int| !#[trigger] occurs(s, pattern, q),
    decreases s.len(),
{
    if s.len() >= pattern.len() {
        assert(s.take(pattern.len() as int) =~= s.subrange(0, pattern.len() as int));
        if s.take(pattern.len() as int) == pattern {
            assert(occurs(s, pattern, 0));
        } else {
            let t = s.skip(1);
            law_found_first(t, pattern, p - 1);
            assert(!occurs(s, pattern, 0));
            assert forall|q: int| q > 0 implies #[trigger] occurs(s, pattern, q) == occurs(
                t,
                pattern,
                q - 1,
            ) by {
                if q + pattern.len() <= s.len() {
                    assert(s.subrange(q, q + pattern.len()) =~= t.subrange(
                        q - 1,
                        q - 1 + pattern.len(),
                    ));
                }
            }
            if http::find(s, pattern) == Some(p) {
                assert(http::find(t, pattern) == Some(p - 1));
                assert(p > 0) by {
                    assert(occurs(t, pattern, p - 1));
                }
                assert forall|q: int| 0 <= q < p implies !#[trigger] occurs(s, pattern, q) by {
                    if q > 0 {
                        assert(!occurs(t, pattern, q - 1));
                    }
                }
            }
            if occurs(s, pattern, p) && (forall|q: int|
                0 <= q < p ==> !#[trigger] occurs(s, pattern, q)) {
                assert(p > 0);
                assert forall|q: int| 0 <= q < p - 1 implies !#[trigger] occurs(t, pattern, q) by {
                    assert(!occurs(s, pattern, q + 1));
                }
            }
            if http::find(s, pattern) is None {
                assert forall|q: int| !#[trigger] occurs(s, pattern, q) by {
                    if q > 0 {
                        assert(!occurs(t, pattern, q - 1));
                    }
                }
            }
            if forall|q: int| !#[trigger] occurs(s, pattern, q) {
                assert forall|q: int| !#[trigger] occurs(t, pattern, q) by {
                    if q >= 0 {
                        assert(!occurs(s, pattern, q + 1));
                    }
                }
            }
        }
    }
}

/// Whether the bytes of `pattern` stand at `p`.
pub open spec fn occurs(s: Seq<u8>, pattern: Seq<u8>, p: int) -> bool {
    0 <= p && p + pattern.len() <= s.len() && s.subrange(p, p + pattern.len()) == pattern
}

/// Whether an empty line ends at `p + 4`.
pub open spec fn empty_line_at(s: Seq<u8>, p: int) -> bool {
    occurs(s, seq![13u8, 10, 13, 10], p)
}

/// Whether two line feeds end at `p + 2`.
pub open spec fn feeds_at(s: Seq<u8>, p: int) -> bool {
    occurs(s, seq![10u8, 10], p)
}

/// The body of a response is what follows its first empty line; where lines end
/// with a line feed alone, what follows the first two of them.
pub proof fn law_body_behind_empty_line(s: Seq<u8>, p: int)
    ensures
        empty_line_at(s, p) && (forall|q: int| 0 <= q < p ==> !#[trigger] empty_line_at(s, q))
            ==> http::body_start(s) == Some(p + 4),
        (forall|q: int| !#[trigger] empty_line_at(s, q)) && feeds_at(s, p) && (forall|q: int|
            0 <= q < p ==> !#[trigger] feeds_at(s, q)) ==> http::body_start(s) == Some(p + 2),
        (forall|q: int| !#[trigger] empty_line_at(s, q)) && (forall|q: int|
            !#[trigger] feeds_at(s, q)) ==> http::body_start(s) is None,
{
    let blank = seq![13u8, 10, 13, 10];
    let feeds = seq![10u8, 10];
    law_found_first(s, blank, p);
    law_found_first(s, feeds, p);
    assert forall|q: int| #[trigger] occurs(s, blank, q) == empty_line_at(s, q) by {}
    assert forall|q: int| #[trigger] occurs(s, feeds, q) == feeds_at(s, q) by {}
}

/// The status of a response is the number behind the first word of its first line,
/// whatever follows.
pub proof fn law_status_read(
    version: Seq<char>,
    n: nat,
    c: char,
    reason: Seq<char>,
    lines: Seq<char>,
)
    requires
        scan::is_white(c),
        c != '\n',
        version.len() > 0,
        forall|i: int| 0 <= i < version.len() ==> !scan::is_white(#[trigger] version[i]),
        forall|i: int| 0 <= i < reason.len() ==> #[trigger] reason[i] != '\n',
    ensures
        http::head_status(
            ((version.push(' ') + http::shown(n).push(c)) + reason).push('\n') + lines,
        ) == if n <= 65535 {
            n as u16
        } else {
            0
        },
{
    let number = http::shown(n);
    let first = (version.push(' ') + number.push(c)) + reason;
    text::lemma_digits_value(n);
    assert forall|i: int| 0 <= i < number.len() implies !scan::is_white(
        #[trigger] number[i],
    ) by {
        assert(text::is_digit(text::digits(n)[i]));
    }
    assert forall|i: int| 0 <= i < first.len() implies #[trigger] first[i] != '\n' by {
        if i < version.len() {
            assert(first[i] == version[i]);
            assert(!scan::is_white(version[i]));
        } else if version.len() < i <= version.len() + number.len() {
            assert(first[i] == number[i - version.len() - 1]);
        } else if i > version.len() + number.len() + 1 {
            assert(first[i] == reason[i - version.len() - number.len() - 2]);
        }
    }
    scanning::law_split_between(first, lines, '\n');
    assert(scan::split(first.push('\n') + lines, '\n')[0] == first);
    let tail = number.push(c) + reason;
    assert(first =~= version.push(' ') + tail);
    scanning::law_words(version, ' ', tail);
    scanning::law_words(number, c, reason);
    assert(scan::words(first)[1] == number);
    scanning::law_number16_read_back(n);
}

/// A line says where the content is to be found where its name is `location`,
/// however that is written: behind the colon, without the white space around it. A
/// carriage return at its end does not count. Other lines do not say so.
pub proof fn law_location_line(name: Seq<char>, value: Seq<char>)
    requires
        forall|i: int| 0 <= i < name.len() ==> #[trigger] name[i] != ':',
        (name.push(':') + value).last() != '\r',
    ensures
        ({
            let line = name.push(':') + value;
            let said = if scan::same_but_case(name, "location"@) {
                Some(scan::trimmed(value))
            } else {
                None
            };
            &&& http::line_location(line) == said
            &&& http::line_location(line.push('\r')) == said
        }),
{
    let line = name.push(':') + value;
    scanning::law_trimmed_end(line, '\r');
    assert(scan::trimmed_end(line, '\r') =~= line);
    assert(line.push('\r').drop_last() =~= line);
    assert forall|i: int| 0 <= i < name.len() implies #[trigger] line[i] != ':' by {
        assert(line[i] == name[i]);
    }
    scan::lemma_first_of(line, ':', name.len() as int);
    assert(line.take(name.len() as int) =~= name);
    assert(line.skip(name.len() + 1int) =~= value);
}

/// Of the lines of a head behind the first one, the last that says where the
/// content is to be found counts.
pub proof fn law_location_last(
    first: Seq<char>,
    rest: Seq<char>,
    lines: Seq<Seq<char>>,
    line: Seq<char>,
)
    requires
        forall|i: int| 0 <= i < first.len() ==> #[trigger] first[i] != '\n',
    ensures
        http::head_location(first.push('\n') + rest) == http::lines_location(
            scan::split(rest, '\n'),
        ),
        http::lines_location(Seq::empty()) is None,
        http::line_location(line) is Some ==> http::lines_location(lines.push(line))
            == http::line_location(line),
        http::line_location(line) is None ==> http::lines_location(lines.push(line))
            == http::lines_location(lines),
{
    scanning::law_split_between(first, rest, '\n');
    let all = scan::split(first.push('\n') + rest, '\n');
    assert(all.skip(1) =~= scan::split(rest, '\n'));
    assert(lines.push(line).drop_last() =~= lines);
}

/// What is sent for a URL: the path and the query behind a question mark, the host,
/// and that the connection ends with the answer.
pub proof fn law_request_sent(url: UrlModel, host: Seq<char>)
    ensures
        url.query matches Some(q) ==> http::request_text(url, host) == "GET "@ + (url.path + "?"@
            + q) + " HTTP/1.1\r\nHost: "@ + host + "\r\nConnection: close\r\n\r\n"@,
        url.query is None ==> http::request_text(url, host) == "GET "@ + url.path
            + " HTTP/1.1\r\nHost: "@ + host + "\r\nConnection: close\r\n\r\n"@,
{
}

/// A success ends with the body of the response; a redirection is followed to the
/// place that it names, seen from the URL that was asked for, while there are any
/// left; all else fails.
pub proof fn law_response_followed(
    url: Seq<char>,
    left: usize,
    response: HttpResponse,
    step: FetchStep,
)
    requires
        http::response_follows(url, left, response, step),
    ensures
        200 <= response.status <= 299 <==> step is Done,
        step matches FetchStep::Done(body) ==> body@ == response.body@,
        step matches FetchStep::Follow(next) ==> {
            &&& 300 <= response.status <= 399
            &&& response.location matches Some(location)
            &&& weburl::joined_url(url, location@) == Ok::<_, Seq<char>>(next.url@)
            &&& next.redirects_left + 1 == left
        },
        300 <= response.status <= 399 && left > 0 && (response.location matches Some(location)
            && weburl::joined_url(url, location@) is Ok) ==> step is Follow,
{
}

/// How often and how long HTTP trackers are waited for.
pub proof fn law_limits()
    ensures
        http::MAX_REDIRECTS == 5,
        http::TIMEOUT_SECS == 30,
        http::MAX_NUM_WANT == 50,
{
}

} // verus!
