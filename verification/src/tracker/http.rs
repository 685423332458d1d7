//! HTTP trackers.
pub mod laws;

use vstd::prelude::*;
use vstd::slice::slice_subrange;
use vstd::string::*;
use vstd::utf8::*;

use crate::bencode::grammar;
use crate::bencode::grammar::Bencode;
use crate::bencode::{decode, list_model, BencodeDict, BencodeValue};
use crate::bytes::copy_bytes;
use crate::error::Error;
use crate::metainfo;
use crate::scan;
use crate::scan::{
    equal_but_case, parse_number16, second_word, split_text, trim, trim_end,
};
use crate::text;
use crate::text::{ascii_text, integer_text, joined, number_text};
use crate::tracker;
use crate::tracker::weburl;
use crate::tracker::weburl::{join_url, parse_url, TrackerUrl, UrlModel};
use crate::tracker::{parse_compact_peers, Announce, AnnounceResponse, PeerAddr};
use crate::unique;

verus! {

/// How many peers to ask for.
pub const MAX_NUM_WANT: u32 = 50;

/// How many redirections are followed.
pub const MAX_REDIRECTS: usize = 5;

/// How long to wait for a response, in seconds.
pub const TIMEOUT_SECS: u64 = 30;

/// The hexadecimal digit of a number below 16.
pub open spec fn hex_digit(n: u8) -> char {
    if n < 10 {
        (48 + n) as char
    } else {
        (55 + n) as char
    }
}

/// Bytes as they are written in a URL: a percent sign and two hexadecimal digits
/// each.
pub open spec fn percent_encoded(data: Seq<u8>) -> Seq<char> {
    Seq::new(
        3 * data.len(),
        |k: int|
            if k % 3 == 0 {
                '%'
            } else if k % 3 == 1 {
                hex_digit(data[k / 3] / 16)
            } else {
                hex_digit(data[k / 3] % 16)
            },
    )
}

/// The byte of a hexadecimal digit.
fn hex_byte(n: u8) -> (out: u8)
    requires
        n < 16,
    ensures
        out as char == hex_digit(n),
        out < 128,
{
    if n < 10 {
        48 + n
    } else {
        55 + n
    }
}

/// Bytes as they are written in a URL.
pub fn urlencoded_bytes(data: &[u8]) -> (out: String)
    ensures
        out@ == percent_encoded(data@),
{
    let mut bytes: Vec<u8> = Vec::new();
    let mut i: usize = 0;
    while i < data.len()
        invariant
            i <= data@.len(),
            bytes@.len() == 3 * i,
            forall|k: int| 0 <= k < bytes@.len() ==> #[trigger] bytes@[k] < 128,
            forall|k: int|
                0 <= k < bytes@.len() ==> (#[trigger] bytes@[k]) as char == percent_encoded(
                    data@,
                )[k],
        decreases data@.len() - i,
    {
        bytes.push(37);
        bytes.push(hex_byte(data[i] / 16));
        bytes.push(hex_byte(data[i] % 16));
        i = i + 1;
    }
    let out = ascii_text(bytes.as_slice());
    assert(out@ =~= percent_encoded(data@));
    out
}

/// Bytes that are written alike are alike.
pub proof fn law_percent_unambiguous(a: Seq<u8>, b: Seq<u8>)
    requires
        percent_encoded(a) == percent_encoded(b),
    ensures
        a == b,
{
    assert(percent_encoded(a).len() == 3 * a.len());
    assert(percent_encoded(b).len() == 3 * b.len());
    assert forall|i: int| 0 <= i < a.len() implies a[i] == b[i] by {
        assert((3 * i + 1) / 3 == i && (3 * i + 1) % 3 == 1);
        assert((3 * i + 2) / 3 == i && (3 * i + 2) % 3 == 2);
        assert(percent_encoded(a)[3 * i + 1] == hex_digit(a[i] / 16));
        assert(percent_encoded(b)[3 * i + 1] == hex_digit(b[i] / 16));
        assert(percent_encoded(a)[3 * i + 2] == hex_digit(a[i] % 16));
        assert(percent_encoded(b)[3 * i + 2] == hex_digit(b[i] % 16));
        lemma_hex_digit(a[i] / 16, b[i] / 16);
        lemma_hex_digit(a[i] % 16, b[i] % 16);
    }
    assert(a =~= b);
}

proof fn lemma_hex_digit(m: u8, n: u8)
    requires
        m < 16,
        n < 16,
        hex_digit(m) == hex_digit(n),
    ensures
        m == n,
{
    assert(hex_digit(m) as u32 == hex_digit(n) as u32);
}

/// A number as it is shown.
pub open spec fn shown(n: nat) -> Seq<char> {
    text::ascii_chars(text::digits(n))
}

/// What tells a tracker of an event, if there is one.
pub open spec fn event_text(event: Option<tracker::TrackerEvent>) -> Seq<char> {
    match event {
        Some(e) => "&event="@ + tracker::event_name(e),
        None => Seq::empty(),
    }
}

/// The URL by which a tracker is told something.
pub open spec fn announce_text(url: Seq<char>, a: Announce) -> Seq<char> {
    url + "?info_hash="@ + percent_encoded(a.info_hash@) + "&peer_id="@ + percent_encoded(
        a.peer_id@,
    ) + "&port="@ + shown(a.port as nat) + "&uploaded="@ + shown(a.uploaded as nat)
        + "&downloaded="@ + shown(a.downloaded as nat) + "&left="@ + shown(a.left as nat)
        + "&compact=1&no_peer_id=1&numwant="@ + shown(MAX_NUM_WANT as nat) + event_text(a.event)
}

/// The URL by which a tracker is told something.
pub fn announce_url(tracker_url: &str, a: &Announce) -> (out: String)
    ensures
        out@ == announce_text(tracker_url@, *a),
        a.event matches Some(e) ==> "&event="@.len() + tracker::event_name(e).len() <= out@.len()
            && out@.skip(out@.len() - "&event="@.len() - tracker::event_name(e).len())
            == "&event="@ + tracker::event_name(e),
{
    let mut out = joined(tracker_url, "?info_hash=");
    out.append(urlencoded_bytes(a.info_hash.as_slice()).as_str());
    out.append("&peer_id=");
    out.append(urlencoded_bytes(a.peer_id.as_slice()).as_str());
    out.append("&port=");
    out.append(number_text(a.port as u64).as_str());
    out.append("&uploaded=");
    out.append(number_text(a.uploaded).as_str());
    out.append("&downloaded=");
    out.append(number_text(a.downloaded).as_str());
    out.append("&left=");
    out.append(number_text(a.left).as_str());
    out.append("&compact=1&no_peer_id=1&numwant=");
    out.append(number_text(MAX_NUM_WANT as u64).as_str());
    match a.event {
        Some(event) => {
            let ghost before = out@;
            out.append("&event=");
            out.append(event.as_str());
            assert(out@ =~= before + event_text(a.event));
            assert(out@.skip(before.len() as int) =~= "&event="@ + tracker::event_name(event));
        },
        None => {
            assert(out@ =~= out@ + event_text(a.event));
        },
    }
    out
}

/// The peers that a tracker names: by their addresses, or by texts that may be
/// addresses.
#[derive(Debug)]
pub enum PeerList {
    Addrs(Vec<PeerAddr>),
    Names(Vec<String>),
}

/// What a tracker answers.
#[derive(Debug)]
pub struct HttpAnswer {
    pub interval: u32,
    pub peers: PeerList,
}

/// What a [`PeerList`] says.
pub enum PeersModel {
    Addrs(Seq<PeerAddr>),
    Names(Seq<Seq<char>>),
}

/// What an [`HttpAnswer`] says.
pub struct AnswerModel {
    pub interval: u32,
    pub peers: PeersModel,
}

impl View for HttpAnswer {
    type V = AnswerModel;

    open spec fn view(&self) -> AnswerModel {
        AnswerModel {
            interval: self.interval,
            peers: match self.peers {
                PeerList::Addrs(addrs) => PeersModel::Addrs(addrs@),
                PeerList::Names(names) => PeersModel::Names(unique::texts(names@)),
            },
        }
    }
}

/// The address of a peer as a dictionary gives it: its IP address and its port.
pub open spec fn peer_name(v: Bencode) -> Option<Seq<char>> {
    match grammar::dict_of(v) {
        Some(d) => match (metainfo::text_field(d, "ip"@), metainfo::int_field(d, "port"@)) {
            (Some(ip), Some(port)) => Some(ip + ":"@ + text::ascii_chars(text::decimal(port))),
            _ => None,
        },
        None => None,
    }
}

/// The addresses among the items.
pub open spec fn peer_names(items: Seq<Bencode>) -> Seq<Seq<char>>
    decreases items.len(),
{
    if items.len() == 0 {
        Seq::empty()
    } else {
        let front = peer_names(items.drop_last());
        match peer_name(items.last()) {
            Some(name) => front.push(name),
            None => front,
        }
    }
}

/// The peers that a dictionary names, or what is wrong with them.
pub open spec fn peers_said(d: Seq<(Seq<u8>, Bencode)>) -> Result<PeersModel, Seq<char>> {
    match metainfo::field(d, "peers"@) {
        Some(Bencode::Bytes(bytes)) => if bytes.len() % 6 == 0 {
            Ok(PeersModel::Addrs(tracker::compact_addrs(bytes)))
        } else {
            Err("compact peer data not multiple of 6"@)
        },
        Some(Bencode::List(items)) => Ok(PeersModel::Names(peer_names(items))),
        _ => Err("no peers in response"@),
    }
}

/// The low 32 bits of the interval in a dictionary, or 300 where there is none.
pub open spec fn interval_said(d: Seq<(Seq<u8>, Bencode)>) -> u32 {
    match metainfo::int_field(d, "interval"@) {
        Some(n) => (n % 0x1_0000_0000) as u32,
        None => 300,
    }
}

/// What a tracker answers, or why it does not.
pub open spec fn answer_said(body: Seq<u8>) -> Result<AnswerModel, Seq<char>> {
    match grammar::decoded(body) {
        Err(e) => Err("failed to decode tracker response: "@ + ("bencode error: "@ + e)),
        Ok((v, _)) => match grammar::dict_of(v) {
            None => Err("tracker response not a dict"@),
            Some(d) => match metainfo::field(d, "failure reason"@) {
                Some(failure) => Err(
                    "tracker error: "@ + match grammar::text_of(failure) {
                        Some(why) => why,
                        None => "<non-string failure reason>"@,
                    },
                ),
                None => match peers_said(d) {
                    Err(e) => Err(e),
                    Ok(peers) => Ok(AnswerModel { interval: interval_said(d), peers }),
                },
            },
        },
    }
}

/// The low 32 bits of a number.
fn low_word(n: i64) -> (out: u32)
    ensures
        out == n as int % 0x1_0000_0000,
{
    let word = n as u32;
    assert(word == n % 0x1_0000_0000) by (bit_vector)
        requires
            word == n as u32,
    ;
    word
}

/// The addresses among the items.
pub fn parse_dict_peers(items: &[BencodeValue]) -> (out: Vec<String>)
    ensures
        unique::texts(out@) == peer_names(list_model(items@)),
{
    let ghost all = list_model(items@);
    let mut out: Vec<String> = Vec::new();
    let mut i: usize = 0;
    assert(all.take(0) =~= Seq::empty());
    assert(unique::texts(out@) =~= Seq::empty());
    while i < items.len()
        invariant
            i <= items@.len(),
            all == list_model(items@),
            unique::texts(out@) == peer_names(all.take(i as int)),
        decreases items@.len() - i,
    {
        assert(all.take(i + 1).drop_last() =~= all.take(i as int));
        assert(all.take(i + 1).last() == items@[i as int]@);
        let ghost before = unique::texts(out@);
        match items[i].as_dict() {
            Some(d) => {
                let ip = match d.get("ip".as_bytes()) {
                    Some(v) => v.as_str(),
                    None => None,
                };
                let port = match d.get("port".as_bytes()) {
                    Some(v) => v.as_int(),
                    None => None,
                };
                match (ip, port) {
                    (Some(ip), Some(port)) => {
                        let mut name = joined(ip, ":");
                        name.append(integer_text(port).as_str());
                        out.push(name);
                        assert(unique::texts(out@) =~= before.push(name@));
                    },
                    _ => {},
                }
            },
            None => {},
        }
        i = i + 1;
    }
    assert(all.take(i as int) =~= all);
    out
}

/// The addresses that the bytes denote, where they are whole ones.
pub fn parse_compact_ipv4(data: &[u8]) -> (result: Result<Vec<PeerAddr>, Error>)
    ensures
        match result {
            Ok(addrs) => data@.len() % 6 == 0 && addrs@ == tracker::compact_addrs(data@),
            Err(e) => {
                &&& data@.len() % 6 != 0
                &&& e matches Error::Tracker(why)
                &&& why@ == "compact peer data not multiple of 6"@
            },
        },
{
    if data.len() % 6 != 0 {
        return Err(Error::Tracker("compact peer data not multiple of 6".to_string()));
    }
    Ok(parse_compact_peers(data))
}

/// The peers that a dictionary names.
pub fn parse_peers(dict: &BencodeDict) -> (result: Result<PeerList, Error>)
    ensures
        match result {
            Ok(PeerList::Addrs(addrs)) => peers_said(dict@) == Ok::<_, Seq<char>>(
                PeersModel::Addrs(addrs@),
            ),
            Ok(PeerList::Names(names)) => peers_said(dict@) == Ok::<_, Seq<char>>(
                PeersModel::Names(unique::texts(names@)),
            ),
            Err(e) => e matches Error::Tracker(why) && peers_said(dict@) == Err::<PeersModel, _>(
                why@,
            ),
        },
{
    match dict.get("peers".as_bytes()) {
        Some(v) => {
            match v.as_bytes() {
                Some(bytes) => {
                    return match parse_compact_ipv4(bytes) {
                        Ok(addrs) => Ok(PeerList::Addrs(addrs)),
                        Err(e) => Err(e),
                    };
                },
                None => {},
            }
            match v.as_list() {
                Some(items) => {
                    return Ok(PeerList::Names(parse_dict_peers(items)));
                },
                None => {},
            }
        },
        None => {},
    }
    Err(Error::Tracker("no peers in response".to_string()))
}

/// What a tracker answers.
pub fn parse_answer(body: &[u8]) -> (result: Result<HttpAnswer, Error>)
    ensures
        match result {
            Ok(answer) => answer_said(body@) == Ok::<_, Seq<char>>(answer@),
            Err(e) => e matches Error::Tracker(why) && answer_said(body@) == Err::<AnswerModel, _>(
                why@,
            ),
        },
{
    let top = match decode(body) {
        Ok((top, _)) => top,
        Err(e) => {
            return Err(
                Error::Tracker(
                    joined("failed to decode tracker response: ", e.to_string().as_str()),
                ),
            );
        },
    };
    let dict = match top.as_dict() {
        Some(d) => d,
        None => {
            return Err(Error::Tracker("tracker response not a dict".to_string()));
        },
    };
    match dict.get("failure reason".as_bytes()) {
        Some(failure) => {
            let why = match failure.as_str() {
                Some(why) => why,
                None => "<non-string failure reason>",
            };
            return Err(Error::Tracker(joined("tracker error: ", why)));
        },
        None => {},
    }
    let interval = match dict.get("interval".as_bytes()) {
        Some(v) => match v.as_int() {
            Some(n) => low_word(n),
            None => 300,
        },
        None => 300,
    };
    match parse_peers(dict) {
        Ok(peers) => Ok(HttpAnswer { interval, peers }),
        Err(e) => Err(e),
    }
}

/// The addresses that were made out.
pub open spec fn made_out(parsed: Seq<Option<PeerAddr>>) -> Seq<PeerAddr>
    decreases parsed.len(),
{
    if parsed.len() == 0 {
        Seq::empty()
    } else {
        match parsed.last() {
            Some(addr) => made_out(parsed.drop_last()).push(addr),
            None => made_out(parsed.drop_last()),
        }
    }
}

/// The answer, once the texts that may be addresses were looked at: `parsed`
/// holds what each of them is.
pub fn with_parsed(answer: HttpAnswer, parsed: &Vec<Option<PeerAddr>>) -> (out: AnnounceResponse)
    ensures
        out.interval == answer.interval,
        out.peers@ == match answer@.peers {
            PeersModel::Addrs(addrs) => addrs,
            PeersModel::Names(_) => made_out(parsed@),
        },
{
    match answer.peers {
        PeerList::Addrs(peers) => AnnounceResponse { peers, interval: answer.interval },
        PeerList::Names(_) => {
            let mut peers: Vec<PeerAddr> = Vec::new();
            let mut i: usize = 0;
            assert(parsed@.take(0) =~= Seq::empty());
            while i < parsed.len()
                invariant
                    i <= parsed@.len(),
                    peers@ == made_out(parsed@.take(i as int)),
                decreases parsed@.len() - i,
            {
                assert(parsed@.take(i + 1).drop_last() =~= parsed@.take(i as int));
                match parsed[i] {
                    Some(addr) => peers.push(addr),
                    None => {},
                }
                i = i + 1;
            }
            assert(parsed@.take(i as int) =~= parsed@);
            AnnounceResponse { peers, interval: answer.interval }
        },
    }
}

/// Where `pattern` occurs first.
pub open spec fn find(s: Seq<u8>, pattern: Seq<u8>) -> Option<int>
    decreases s.len(),
{
    if s.len() < pattern.len() {
        None
    } else if s.take(pattern.len() as int) == pattern {
        Some(0int)
    } else if s.len() == 0 {
        None
    } else {
        match find(s.skip(1), pattern) {
            Some(p) => Some(p + 1),
            None => None,
        }
    }
}

/// Where the body of a response begins: behind the first empty line, or else
/// behind the first two line feeds.
pub open spec fn body_start(s: Seq<u8>) -> Option<int> {
    match find(s, seq![13u8, 10, 13, 10]) {
        Some(p) => Some(p + 4),
        None => match find(s, seq![10u8, 10]) {
            Some(p) => Some(p + 2),
            None => None,
        },
    }
}

/// The text of bytes, with replacement characters where they are not valid
/// UTF-8.
pub uninterp spec fn lossy_text(bytes: Seq<u8>) -> Seq<char>;

/// The text of bytes, by `String::from_utf8_lossy`: what it returns is a function
/// of the bytes alone, and is the text that they encode where they are valid
/// UTF-8.
#[verifier::external_body]
fn from_utf8_lossy(bytes: &[u8]) -> (out: String)
    ensures
        out@ == lossy_text(bytes@),
        valid_utf8(bytes@) ==> out@ == decode_utf8(bytes@),
{
    String::from_utf8_lossy(bytes).into_owned()
}

/// The status in the head of a response: the second word of its first line, or 0
/// where that is no number.
pub open spec fn head_status(head: Seq<char>) -> u16 {
    let words = scan::words(scan::split(head, '\n')[0]);
    if words.len() > 1 {
        match scan::number16(words[1]) {
            Some(n) => n,
            None => 0,
        }
    } else {
        0
    }
}

/// Where a line of a head says that the content is to be found.
pub open spec fn line_location(line: Seq<char>) -> Option<Seq<char>> {
    let l = scan::trimmed_end(line, '\r');
    let p = scan::first_of(l, ':');
    if 0 <= p < l.len() && scan::same_but_case(l.take(p), "location"@) {
        Some(scan::trimmed(l.skip(p + 1)))
    } else {
        None
    }
}

/// Where the last of the lines that say so says that the content is to be found.
pub open spec fn lines_location(lines: Seq<Seq<char>>) -> Option<Seq<char>>
    decreases lines.len(),
{
    if lines.len() == 0 {
        None
    } else {
        match line_location(lines.last()) {
            Some(location) => Some(location),
            None => lines_location(lines.drop_last()),
        }
    }
}

/// Where the head of a response says that the content is to be found.
pub open spec fn head_location(head: Seq<char>) -> Option<Seq<char>> {
    lines_location(scan::split(head, '\n').skip(1))
}

/// A response to an HTTP request.
#[derive(Debug)]
pub struct HttpResponse {
    pub status: u16,
    pub location: Option<String>,
    pub body: Vec<u8>,
}

/// Where `pattern` occurs first.
fn find_bytes(s: &[u8], pattern: &[u8]) -> (out: Option<usize>)
    requires
        pattern@.len() > 0,
    ensures
        match out {
            Some(p) => find(s@, pattern@) == Some(p as int) && p + pattern@.len() <= s@.len(),
            None => find(s@, pattern@) is None,
        },
{
    let mut i: usize = 0;
    assert(s@.skip(0) =~= s@);
    if s.len() < pattern.len() {
        return None;
    }
    let last = s.len() - pattern.len();
    while i <= last
        invariant
            pattern@.len() > 0,
            last == s@.len() - pattern@.len(),
            i <= last + 1,
            match find(s@.skip(i as int), pattern@) {
                Some(p) => find(s@, pattern@) == Some(p + i),
                None => find(s@, pattern@) is None,
            },
        decreases last + 1 - i,
    {
        let ghost rest = s@.skip(i as int);
        assert(rest.skip(1) =~= s@.skip(i + 1));
        assert(i + pattern.len() <= s.len());
        let window = slice_subrange(s, i, i + pattern.len());
        assert(window@ =~= rest.take(pattern@.len() as int));
        if crate::bytes::same_bytes(window, pattern) {
            return Some(i);
        }
        i = i + 1;
    }
    None
}

/// Where the body of a response begins.
fn find_body(s: &[u8]) -> (out: Option<usize>)
    ensures
        match out {
            Some(p) => body_start(s@) == Some(p as int) && p <= s@.len(),
            None => body_start(s@) is None,
        },
{
    let blank: [u8; 4] = [13, 10, 13, 10];
    let feeds: [u8; 2] = [10, 10];
    assert(blank@ =~= seq![13u8, 10, 13, 10]);
    assert(feeds@ =~= seq![10u8, 10]);
    match find_bytes(s, blank.as_slice()) {
        Some(p) => {
            assert(p + 4 <= s.len());
            Some(p + 4)
        },
        None => match find_bytes(s, feeds.as_slice()) {
            Some(p) => {
                assert(p + 2 <= s.len());
                Some(p + 2)
            },
            None => None,
        },
    }
}

/// Where a line of a head says that the content is to be found.
fn parse_location(line: &str) -> (out: Option<String>)
    ensures
        weburl::text_of(out) == line_location(line@),
{
    let l = trim_end(line, '\r');
    match scan::find_char(l, ':') {
        Some(p) => {
            let name = l.substring_char(0, p);
            assert(name@ =~= l@.take(p as int));
            if equal_but_case(name, "location") {
                let len = l.unicode_len();
                let value = l.substring_char(p + 1, len);
                assert(value@ =~= l@.skip(p + 1));
                Some(trim(value).to_string())
            } else {
                None
            }
        },
        None => None,
    }
}

/// What the head of a response says: its status, and where the content is to be
/// found.
pub fn parse_head(head: &str) -> (out: (u16, Option<String>))
    ensures
        out.0 == head_status(head@),
        weburl::text_of(out.1) == head_location(head@),
{
    let lines = split_text(head, '\n');
    let ghost all = scan::split(head@, '\n');
    assert(all.len() > 0);
    assert(scan::slices(lines@)[0] == lines@[0]@);
    let status = match second_word(lines[0]) {
        Some(word) => match parse_number16(word) {
            Some(n) => n,
            None => 0,
        },
        None => 0,
    };
    let mut location: Option<String> = None;
    let mut i: usize = 1;
    assert(all.skip(1).take(0) =~= Seq::empty());
    while i < lines.len()
        invariant
            1 <= i <= lines@.len(),
            all == scan::slices(lines@),
            weburl::text_of(location) == lines_location(all.skip(1).take(i - 1)),
        decreases lines@.len() - i,
    {
        assert(all.skip(1).take(i as int).drop_last() =~= all.skip(1).take(i - 1));
        assert(all.skip(1).take(i as int).last() == lines@[i as int]@);
        match parse_location(lines[i]) {
            Some(found) => {
                location = Some(found);
            },
            None => {},
        }
        i = i + 1;
    }
    assert(all.skip(1).take(i - 1) =~= all.skip(1));
    (status, location)
}

/// Reads a response.
pub fn parse_response(data: &[u8]) -> (result: Result<HttpResponse, String>)
    ensures
        match result {
            Ok(r) => {
                &&& body_start(data@) matches Some(p)
                &&& r.status == head_status(lossy_text(data@.take(p)))
                &&& weburl::text_of(r.location) == head_location(lossy_text(data@.take(p)))
                &&& r.body@ == data@.skip(p)
            },
            Err(e) => {
                &&& body_start(data@) is None
                &&& e@ == "malformed HTTP response: missing header terminator"@
            },
        },
{
    match find_body(data) {
        Some(p) => {
            let head = slice_subrange(data, 0, p);
            assert(head@ =~= data@.take(p as int));
            let rest = slice_subrange(data, p, data.len());
            assert(rest@ =~= data@.skip(p as int));
            let (status, location) = parse_head(from_utf8_lossy(head).as_str());
            Ok(HttpResponse { status, location, body: copy_bytes(rest) })
        },
        None => Err("malformed HTTP response: missing header terminator".to_string()),
    }
}

/// A request to an HTTP server.
#[derive(Debug)]
pub struct HttpRequest {
    pub host: String,
    /// The host and the port to connect to.
    pub address: String,
    /// What is sent.
    pub text: String,
}

/// What is requested of a server: the path and the query.
pub open spec fn target(url: UrlModel) -> Seq<char> {
    match url.query {
        Some(q) => url.path + "?"@ + q,
        None => url.path,
    }
}

/// What is sent for a URL.
pub open spec fn request_text(url: UrlModel, host: Seq<char>) -> Seq<char> {
    "GET "@ + target(url) + " HTTP/1.1\r\nHost: "@ + host + "\r\nConnection: close\r\n\r\n"@
}

/// The request for a URL.
pub fn http_request(url: &TrackerUrl) -> (result: Result<HttpRequest, String>)
    ensures
        match (url@.host, url@.known_port) {
            (None, _) => result matches Err(e) && e@ == "no host in URL"@,
            (Some(_), None) => result matches Err(e) && e@ == "unknown port"@,
            (Some(host), Some(port)) => {
                &&& result matches Ok(r)
                &&& r.host@ == host
                &&& r.address@ == host + ":"@ + shown(port as nat)
                &&& r.text@ == request_text(url@, host)
            },
        },
{
    let host = match &url.host {
        Some(host) => host.clone(),
        None => {
            return Err("no host in URL".to_string());
        },
    };
    let port = match url.known_port {
        Some(port) => port,
        None => {
            return Err("unknown port".to_string());
        },
    };
    let mut path = url.path.clone();
    match &url.query {
        Some(q) => {
            path.append("?");
            path.append(q.as_str());
        },
        None => {},
    }
    assert(path@ == target(url@));
    let mut address = joined(host.as_str(), ":");
    address.append(number_text(port as u64).as_str());
    let mut text = joined("GET ", path.as_str());
    text.append(" HTTP/1.1\r\nHost: ");
    text.append(host.as_str());
    text.append("\r\nConnection: close\r\n\r\n");
    Ok(HttpRequest { host, address, text })
}

/// How a server is talked to.
#[derive(Debug, Clone, Copy, PartialEq, Eq, Structural)]
pub enum Transport {
    Tls,
    Plain,
}

/// How the server of a URL is talked to.
pub fn transport(url: &TrackerUrl) -> (result: Result<Transport, String>)
    ensures
        match result {
            Ok(Transport::Tls) => url@.scheme == "https"@,
            Ok(Transport::Plain) => url@.scheme == "http"@ && url@.scheme != "https"@,
            Err(e) => {
                &&& url@.scheme != "https"@
                &&& url@.scheme != "http"@
                &&& e@ == "unsupported scheme: "@ + url@.scheme
            },
        },
{
    if url.scheme == "https".to_string() {
        Ok(Transport::Tls)
    } else if url.scheme == "http".to_string() {
        Ok(Transport::Plain)
    } else {
        Err(joined("unsupported scheme: ", url.scheme.as_str()))
    }
}

/// A request that waits for its response.
#[derive(Debug)]
pub struct Fetch {
    pub url: TrackerUrl,
    /// How many redirections may still be followed.
    pub redirects_left: usize,
}

/// What follows a request.
#[derive(Debug)]
pub enum FetchStep {
    Done(Vec<u8>),
    Follow(Fetch),
    Failed(String),
}

/// Whether `step` follows a redirection to `url`.
pub open spec fn redirect_follows(
    redirects_left: usize,
    url: Result<UrlModel, Seq<char>>,
    step: FetchStep,
) -> bool {
    match url {
        Err(e) => step matches FetchStep::Failed(why) && why@ == e,
        Ok(u) => if redirects_left > 0 {
            &&& step matches FetchStep::Follow(next)
            &&& next.url@ == u
            &&& next.redirects_left == redirects_left - 1
        } else {
            step matches FetchStep::Failed(why) && why@ == "too many HTTP redirects"@
        },
    }
}

/// Whether `step` follows a response to the request for `url`: the body where it
/// is a success, another request where it is a redirection that says where to, and
/// else a failure.
pub open spec fn response_follows(
    url: Seq<char>,
    redirects_left: usize,
    response: HttpResponse,
    step: FetchStep,
) -> bool {
    if 200 <= response.status < 300 {
        step matches FetchStep::Done(body) && body@ == response.body@
    } else if 300 <= response.status < 400 && response.location is Some {
        redirect_follows(
            redirects_left,
            weburl::joined_url(url, response.location->0@),
            step,
        )
    } else {
        step matches FetchStep::Failed(why) && why@ == "HTTP status "@ + shown(
            response.status as nat,
        )
    }
}

impl Fetch {
    /// The first request for a URL.
    pub fn start(url: &str) -> (result: Result<Self, String>)
        ensures
            match result {
                Ok(fetch) => {
                    &&& weburl::parsed_url(url@) == Ok::<_, Seq<char>>(fetch.url@)
                    &&& fetch.redirects_left == MAX_REDIRECTS
                },
                Err(e) => weburl::parsed_url(url@) == Err::<UrlModel, _>(e@),
            },
    {
        match parse_url(url) {
            Ok(url) => Ok(Fetch { url, redirects_left: MAX_REDIRECTS }),
            Err(e) => Err(e),
        }
    }

    /// What follows a redirection to `url`.
    pub fn redirect(&self, url: Result<TrackerUrl, String>) -> (out: FetchStep)
        ensures
            redirect_follows(self.redirects_left, weburl::url_model(url), out),
    {
        match url {
            Err(e) => FetchStep::Failed(e),
            Ok(url) => if self.redirects_left > 0 {
                FetchStep::Follow(Fetch { url, redirects_left: self.redirects_left - 1 })
            } else {
                FetchStep::Failed("too many HTTP redirects".to_string())
            },
        }
    }

    /// What follows a response.
    pub fn next(&self, response: HttpResponse) -> (out: FetchStep)
        ensures
            response_follows(self.url@.text, self.redirects_left, response, out),
    {
        if response.status >= 200 && response.status < 300 {
            return FetchStep::Done(response.body);
        }
        if response.status >= 300 && response.status < 400 {
            match &response.location {
                Some(location) => {
                    return self.redirect(join_url(self.url.text.as_str(), location.as_str()));
                },
                None => {},
            }
        }
        FetchStep::Failed(joined("HTTP status ", number_text(response.status as u64).as_str()))
    }
}

/// No more redirections are followed than may be: a chain of requests, each of
/// which follows a redirection from the one before, has at most one request more
/// than that.
pub proof fn law_redirects_bounded(chain: Seq<Fetch>)
    requires
        chain.len() > 0,
        chain[0].redirects_left == MAX_REDIRECTS,
        forall|i: int|
            0 <= i < chain.len() - 1 ==> redirect_follows(
                (#[trigger] chain[i]).redirects_left,
                Ok(chain[i + 1].url@),
                FetchStep::Follow(chain[i + 1]),
            ),
    ensures
        chain.len() <= MAX_REDIRECTS + 1,
{
    lemma_redirects_left(chain, chain.len() - 1);
}

proof fn lemma_redirects_left(chain: Seq<Fetch>, n: int)
    requires
        chain[0].redirects_left == MAX_REDIRECTS,
        forall|i: int|
            0 <= i < chain.len() - 1 ==> redirect_follows(
                (#[trigger] chain[i]).redirects_left,
                Ok(chain[i + 1].url@),
                FetchStep::Follow(chain[i + 1]),
            ),
        0 <= n < chain.len(),
    ensures
        chain[n].redirects_left == MAX_REDIRECTS - n,
    decreases n,
{
    if n > 0 {
        lemma_redirects_left(chain, n - 1);
        assert(redirect_follows(
            chain[n - 1].redirects_left,
            Ok(chain[n].url@),
            FetchStep::Follow(chain[n]),
        ));
    }
}

/// The error where a request fails.
pub fn request_failed(why: &str) -> (e: Error)
    ensures
        e matches Error::Tracker(s) && s@ == "HTTP request failed: "@ + why@,
{
    Error::Tracker(joined("HTTP request failed: ", why))
}

} // verus!
