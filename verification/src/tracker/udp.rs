//! UDP trackers.
use vstd::prelude::*;
use vstd::slice::slice_subrange;
use vstd::string::*;

use crate::bytes;
use crate::bytes::{push_be16, push_be32, push_be64, push_bytes, read_be32, read_be64};
use crate::error::Error;
use crate::random::random_u32;
use crate::scan;
use crate::scan::lowercase;
use crate::text;
use crate::text::{joined, number_text};
use crate::tracker;
use crate::tracker::weburl;
use crate::tracker::weburl::{parse_url, TrackerUrl};
use crate::tracker::{parse_compact_peers, Announce, AnnounceResponse, TrackerEvent};

verus! {

/// What a connect request begins with.
pub const PROTOCOL_ID: u64 = 0x41727101980;

/// The action of connecting.
pub const CONNECT: u32 = 0;

/// The action of announcing.
pub const ANNOUNCE: u32 = 1;

/// How long to wait for the first answer, in milliseconds.
pub const TIMEOUT_MS: u64 = 15000;

/// How often a request is sent again.
pub const MAX_RETRIES: u32 = 8;

/// How many bytes of a response are looked at.
pub const MAX_RESPONSE: usize = 1024;

/// How many peers to ask for.
pub const NUM_WANT: u32 = 50;

/// How long a connection may be used, in milliseconds.
pub const CONNECTION_MS: u64 = 60000;

/// The number of an event, or of none.
pub open spec fn event_number(event: Option<TrackerEvent>) -> u32 {
    match event {
        None => 0,
        Some(TrackerEvent::Completed) => 1,
        Some(TrackerEvent::Started) => 2,
        Some(TrackerEvent::Stopped) => 3,
    }
}

/// A connect request.
pub open spec fn connect_bytes(transaction_id: u32) -> Seq<u8> {
    bytes::be64(PROTOCOL_ID) + bytes::be32(CONNECT) + bytes::be32(transaction_id)
}

/// An announce request.
pub open spec fn announce_bytes(
    connection_id: u64,
    transaction_id: u32,
    key: u32,
    a: Announce,
) -> Seq<u8> {
    bytes::be64(connection_id) + bytes::be32(ANNOUNCE) + bytes::be32(transaction_id) + a.info_hash@
        + a.peer_id@ + bytes::be64(a.downloaded) + bytes::be64(a.left) + bytes::be64(a.uploaded)
        + bytes::be32(event_number(a.event)) + bytes::be32(0) + bytes::be32(key) + bytes::be32(
        NUM_WANT,
    ) + bytes::be16(a.port)
}

/// Writes a connect request.
pub fn connect_request(transaction_id: u32) -> (out: Vec<u8>)
    ensures
        out@ == connect_bytes(transaction_id),
        out@.len() == 16,
{
    let mut out: Vec<u8> = Vec::new();
    push_be64(&mut out, PROTOCOL_ID);
    push_be32(&mut out, CONNECT);
    push_be32(&mut out, transaction_id);
    assert(out@ =~= connect_bytes(transaction_id));
    out
}

/// Writes an announce request.
pub fn announce_request(connection_id: u64, transaction_id: u32, key: u32, a: &Announce) -> (out:
    Vec<u8>)
    ensures
        out@ == announce_bytes(connection_id, transaction_id, key, *a),
        out@.len() == 98,
{
    let event: u32 = match a.event {
        None => 0,
        Some(TrackerEvent::Completed) => 1,
        Some(TrackerEvent::Started) => 2,
        Some(TrackerEvent::Stopped) => 3,
    };
    let mut out: Vec<u8> = Vec::new();
    push_be64(&mut out, connection_id);
    push_be32(&mut out, ANNOUNCE);
    push_be32(&mut out, transaction_id);
    push_bytes(&mut out, a.info_hash.as_slice());
    push_bytes(&mut out, a.peer_id.as_slice());
    push_be64(&mut out, a.downloaded);
    push_be64(&mut out, a.left);
    push_be64(&mut out, a.uploaded);
    push_be32(&mut out, event);
    push_be32(&mut out, 0);
    push_be32(&mut out, key);
    push_be32(&mut out, NUM_WANT);
    push_be16(&mut out, a.port);
    assert(out@ =~= announce_bytes(connection_id, transaction_id, key, *a));
    out
}

/// Whether a response is to the request for `action` with the identification
/// `transaction_id`.
pub open spec fn answers(response: Seq<u8>, action: u32, transaction_id: u32) -> bool {
    &&& bytes::be32_value(response.subrange(0, 4)) == action
    &&& bytes::be32_value(response.subrange(4, 8)) == transaction_id
}

/// The connection that a connect response opens, if it is to the request.
pub open spec fn connection_of(response: Seq<u8>, transaction_id: u32) -> Option<u64> {
    if answers(response, CONNECT, transaction_id) {
        Some(bytes::be64_value(response.subrange(8, 16)) as u64)
    } else {
        None
    }
}

/// The connection that a connect response opens. The 16 bytes are those of a
/// buffer of zeros into which the response was received.
pub fn connect_response(response: &[u8], transaction_id: u32) -> (out: Option<u64>)
    requires
        response@.len() == 16,
    ensures
        out == connection_of(response@, transaction_id),
{
    let action = read_be32(response, 0);
    let id = read_be32(response, 4);
    if action != CONNECT || id != transaction_id {
        return None;
    }
    Some(read_be64(response, 8))
}

/// What an announce response says, if it is to the request: the interval and the
/// addresses.
pub open spec fn announced(response: Seq<u8>, transaction_id: u32) -> Option<
    (u32, Seq<tracker::PeerAddr>),
> {
    if response.len() >= 20 && answers(response, ANNOUNCE, transaction_id) {
        Some(
            (
                bytes::be32_value(response.subrange(8, 12)) as u32,
                tracker::compact_addrs(response.skip(20)),
            ),
        )
    } else {
        None
    }
}

/// What an announce response says. One that is too short, or that is not to the
/// request, says nothing.
pub fn announce_response(response: &[u8], transaction_id: u32) -> (out: Option<AnnounceResponse>)
    ensures
        match out {
            Some(r) => announced(response@, transaction_id) == Some((r.interval, r.peers@)),
            None => announced(response@, transaction_id) is None,
        },
{
    if response.len() < 20 {
        return None;
    }
    let action = read_be32(response, 0);
    let id = read_be32(response, 4);
    if action != ANNOUNCE || id != transaction_id {
        return None;
    }
    let data = slice_subrange(response, 20, response.len());
    assert(data@ =~= response@.skip(20));
    Some(AnnounceResponse { peers: parse_compact_peers(data), interval: read_be32(response, 8) })
}

/// How long to wait for an answer, in milliseconds: twice as long each time.
pub open spec fn patience(attempt: nat) -> int {
    TIMEOUT_MS * vstd::arithmetic::power2::pow2(attempt)
}

/// How long to wait for an answer, in milliseconds.
pub fn timeout_ms(attempt: u32) -> (ms: u64)
    requires
        attempt <= MAX_RETRIES,
    ensures
        ms == patience(attempt as nat),
        TIMEOUT_MS <= ms <= 256 * TIMEOUT_MS,
{
    let mut ms: u64 = TIMEOUT_MS;
    let mut i: u32 = 0;
    proof {
        vstd::arithmetic::power2::lemma2_to64();
    }
    while i < attempt
        invariant
            i <= attempt <= 8,
            ms == patience(i as nat),
            TIMEOUT_MS <= ms <= 256 * TIMEOUT_MS,
            i == 0 ==> ms == 15000,
            i == 1 ==> ms == 30000,
            i == 2 ==> ms == 60000,
            i == 3 ==> ms == 120000,
            i == 4 ==> ms == 240000,
            i == 5 ==> ms == 480000,
            i == 6 ==> ms == 960000,
            i == 7 ==> ms == 1920000,
        decreases attempt - i,
    {
        proof {
            vstd::arithmetic::power2::lemma_pow2_unfold((i + 1) as nat);
        }
        ms = ms * 2;
        i = i + 1;
    }
    ms
}

/// A connect request that waits for its answer.
#[derive(Debug, Clone, Copy, PartialEq, Eq, Structural)]
pub struct Connecting {
    /// How many requests were sent before.
    pub attempt: u32,
    pub transaction_id: u32,
}

/// What follows a connect request.
#[derive(Debug)]
pub enum ConnectStep {
    Connected(u64),
    Again(Connecting),
    Failed(Error),
}

/// The bytes that were received, if any were.
pub open spec fn received(response: Option<&[u8]>) -> Option<Seq<u8>> {
    match response {
        Some(r) => Some(r@),
        None => None,
    }
}

/// Whether `step` follows a connect request: the connection where the answer
/// opens one, else another request until there were enough of them.
pub open spec fn connect_follows(
    c: Connecting,
    response: Option<Seq<u8>>,
    addr: Seq<char>,
    next_id: u32,
    step: ConnectStep,
) -> bool {
    let connection = match response {
        Some(r) => connection_of(r, c.transaction_id),
        None => None,
    };
    match connection {
        Some(id) => step == ConnectStep::Connected(id),
        None => if c.attempt < MAX_RETRIES {
            step == ConnectStep::Again(
                Connecting { attempt: (c.attempt + 1) as u32, transaction_id: next_id },
            )
        } else {
            &&& step matches ConnectStep::Failed(Error::Tracker(why))
            &&& why@ == "UDP connect to "@ + addr + " failed after "@ + text::ascii_chars(
                text::digits(MAX_RETRIES as nat),
            ) + " retries"@
        },
    }
}

impl Connecting {
    /// The first request, with a random identification.
    pub fn start() -> (out: Self)
        ensures
            out.attempt == 0,
    {
        Self::first(random_u32())
    }

    /// The first request, with the identification `transaction_id`.
    pub fn first(transaction_id: u32) -> (out: Self)
        ensures
            out == (Connecting { attempt: 0, transaction_id }),
    {
        Connecting { attempt: 0, transaction_id }
    }

    /// The bytes of the request.
    pub fn request(&self) -> (out: Vec<u8>)
        ensures
            out@ == connect_bytes(self.transaction_id),
    {
        connect_request(self.transaction_id)
    }

    /// What follows, when the next request has the identification `next_id`.
    pub fn follow(&self, response: Option<&[u8]>, addr: &str, next_id: u32) -> (out: ConnectStep)
        requires
            self.attempt <= MAX_RETRIES,
            response matches Some(r) ==> r@.len() == 16,
        ensures
            connect_follows(*self, received(response), addr@, next_id, out),
    {
        match response {
            Some(r) => match connect_response(r, self.transaction_id) {
                Some(id) => return ConnectStep::Connected(id),
                None => {},
            },
            None => {},
        }
        if self.attempt < MAX_RETRIES {
            ConnectStep::Again(Connecting { attempt: self.attempt + 1, transaction_id: next_id })
        } else {
            let mut why = joined("UDP connect to ", addr);
            why.append(" failed after ");
            why.append(number_text(MAX_RETRIES as u64).as_str());
            why.append(" retries");
            ConnectStep::Failed(Error::Tracker(why))
        }
    }

    /// What follows, when the next request has a random identification.
    pub fn next(&self, response: Option<&[u8]>, addr: &str) -> (out: ConnectStep)
        requires
            self.attempt <= MAX_RETRIES,
            response matches Some(r) ==> r@.len() == 16,
        ensures
            exists|next_id: u32|
                connect_follows(*self, received(response), addr@, next_id, out),
    {
        self.follow(response, addr, random_u32())
    }
}

/// An announce request that waits for its answer.
#[derive(Debug, Clone, Copy, PartialEq, Eq, Structural)]
pub struct Announcing {
    /// How many requests were sent before.
    pub attempt: u32,
    pub connection_id: u64,
    pub transaction_id: u32,
    pub key: u32,
}

/// What follows an announce request.
#[derive(Debug)]
pub enum AnnounceStep {
    Announced(AnnounceResponse),
    /// Another request follows over the same connection.
    Again(Announcing),
    /// Another request follows over a new connection, after so many requests.
    Reconnect(u32),
    Failed(Error),
}

/// Whether `step` follows an announce request: what the answer says where it is
/// to the request, else another request until there were enough of them. It needs
/// a new connection where the one at hand is `age_ms` old and may no longer be
/// used.
pub open spec fn announce_follows(
    a: Announcing,
    response: Option<Seq<u8>>,
    age_ms: u64,
    next_id: u32,
    next_key: u32,
    step: AnnounceStep,
) -> bool {
    let answer = match response {
        Some(r) => announced(r, a.transaction_id),
        None => None,
    };
    match answer {
        Some((interval, peers)) => step matches AnnounceStep::Announced(r) && r.interval
            == interval && r.peers@ == peers,
        None => if a.attempt < MAX_RETRIES && age_ms >= CONNECTION_MS {
            step == AnnounceStep::Reconnect((a.attempt + 1) as u32)
        } else if a.attempt < MAX_RETRIES {
            step == AnnounceStep::Again(
                Announcing {
                    attempt: (a.attempt + 1) as u32,
                    connection_id: a.connection_id,
                    transaction_id: next_id,
                    key: next_key,
                },
            )
        } else {
            step matches AnnounceStep::Failed(Error::Tracker(why)) && why@
                == "UDP announce failed after retries"@
        },
    }
}

impl Announcing {
    /// A request over a connection after `attempt` others, with a random
    /// identification and key.
    pub fn start(connection_id: u64, attempt: u32) -> (out: Self)
        ensures
            out.attempt == attempt,
            out.connection_id == connection_id,
    {
        Self::numbered(connection_id, attempt, random_u32(), random_u32())
    }

    /// A request over a connection after `attempt` others, with the identification
    /// `transaction_id` and the key `key`.
    pub fn numbered(connection_id: u64, attempt: u32, transaction_id: u32, key: u32) -> (out: Self)
        ensures
            out == (Announcing { attempt, connection_id, transaction_id, key }),
    {
        Announcing { attempt, connection_id, transaction_id, key }
    }

    /// The bytes of the request.
    pub fn request(&self, a: &Announce) -> (out: Vec<u8>)
        ensures
            out@ == announce_bytes(self.connection_id, self.transaction_id, self.key, *a),
    {
        announce_request(self.connection_id, self.transaction_id, self.key, a)
    }

    /// What follows, when the connection is `age_ms` milliseconds old and the next
    /// request has the identification `next_id` and the key `next_key`.
    pub fn follow(
        &self,
        response: Option<&[u8]>,
        age_ms: u64,
        next_id: u32,
        next_key: u32,
    ) -> (out: AnnounceStep)
        requires
            self.attempt <= MAX_RETRIES,
        ensures
            announce_follows(*self, received(response), age_ms, next_id, next_key, out),
    {
        match response {
            Some(r) => match announce_response(r, self.transaction_id) {
                Some(answer) => return AnnounceStep::Announced(answer),
                None => {},
            },
            None => {},
        }
        if self.attempt < MAX_RETRIES && age_ms >= CONNECTION_MS {
            AnnounceStep::Reconnect(self.attempt + 1)
        } else if self.attempt < MAX_RETRIES {
            AnnounceStep::Again(
                Announcing {
                    attempt: self.attempt + 1,
                    connection_id: self.connection_id,
                    transaction_id: next_id,
                    key: next_key,
                },
            )
        } else {
            AnnounceStep::Failed(Error::Tracker("UDP announce failed after retries".to_string()))
        }
    }

    /// What follows, when the connection is `age_ms` milliseconds old and the next
    /// request has a random identification and key.
    pub fn next(&self, response: Option<&[u8]>, age_ms: u64) -> (out: AnnounceStep)
        requires
            self.attempt <= MAX_RETRIES,
        ensures
            exists|next_id: u32, next_key: u32|
                announce_follows(*self, received(response), age_ms, next_id, next_key, out),
    {
        self.follow(response, age_ms, random_u32(), random_u32())
    }
}

/// No more connect requests are sent than may be.
pub proof fn law_connects_bounded(
    chain: Seq<Connecting>,
    responses: Seq<Option<Seq<u8>>>,
    addr: Seq<char>,
)
    requires
        chain.len() > 0,
        chain[0].attempt == 0,
        forall|i: int|
            0 <= i < chain.len() - 1 ==> connect_follows(
                #[trigger] chain[i],
                responses[i],
                addr,
                chain[i + 1].transaction_id,
                ConnectStep::Again(chain[i + 1]),
            ),
    ensures
        chain.len() <= MAX_RETRIES + 1,
{
    lemma_connect_attempt(chain, responses, addr, chain.len() - 1);
}

proof fn lemma_connect_attempt(
    chain: Seq<Connecting>,
    responses: Seq<Option<Seq<u8>>>,
    addr: Seq<char>,
    n: int,
)
    requires
        chain[0].attempt == 0,
        forall|i: int|
            0 <= i < chain.len() - 1 ==> connect_follows(
                #[trigger] chain[i],
                responses[i],
                addr,
                chain[i + 1].transaction_id,
                ConnectStep::Again(chain[i + 1]),
            ),
        0 <= n < chain.len(),
    ensures
        chain[n].attempt == n <= MAX_RETRIES,
    decreases n,
{
    if n > 0 {
        lemma_connect_attempt(chain, responses, addr, n - 1);
        assert(connect_follows(
            chain[n - 1],
            responses[n - 1],
            addr,
            chain[n].transaction_id,
            ConnectStep::Again(chain[n]),
        ));
    }
}

/// Whether `next` is the request that follows on `a`, over the same connection or
/// over a new one.
pub open spec fn next_announce(
    a: Announcing,
    response: Option<Seq<u8>>,
    age_ms: u64,
    next: Announcing,
) -> bool {
    ||| announce_follows(
        a,
        response,
        age_ms,
        next.transaction_id,
        next.key,
        AnnounceStep::Again(next),
    )
    ||| announce_follows(
        a,
        response,
        age_ms,
        next.transaction_id,
        next.key,
        AnnounceStep::Reconnect(next.attempt),
    )
}

/// Whether the announce requests follow on each other. `ages[i]` is how old the
/// connection was when the wait for an answer to request `i` ended.
pub open spec fn announces(
    chain: Seq<Announcing>,
    responses: Seq<Option<Seq<u8>>>,
    ages: Seq<u64>,
) -> bool {
    &&& chain.len() > 0
    &&& chain[0].attempt == 0
    &&& forall|i: int|
        0 <= i < chain.len() - 1 ==> next_announce(
            #[trigger] chain[i],
            responses[i],
            ages[i],
            chain[i + 1],
        )
}

/// No more announce requests are sent than may be, over however many connections.
pub proof fn law_announces_bounded(
    chain: Seq<Announcing>,
    responses: Seq<Option<Seq<u8>>>,
    ages: Seq<u64>,
)
    requires
        announces(chain, responses, ages),
    ensures
        chain.len() <= MAX_RETRIES + 1,
{
    lemma_announce_attempt(chain, responses, ages, chain.len() - 1);
}

/// A connection is used again while it is young enough, and only then: after that
/// the next request asks for a new one.
pub proof fn law_connection_expires(
    chain: Seq<Announcing>,
    responses: Seq<Option<Seq<u8>>>,
    ages: Seq<u64>,
    i: int,
    step: AnnounceStep,
)
    requires
        announces(chain, responses, ages),
        0 <= i < chain.len() - 1,
        announce_follows(
            chain[i],
            responses[i],
            ages[i],
            chain[i + 1].transaction_id,
            chain[i + 1].key,
            step,
        ),
    ensures
        ages[i] < CONNECTION_MS ==> step == AnnounceStep::Again(chain[i + 1]) && chain[i
            + 1].connection_id == chain[i].connection_id,
        ages[i] >= CONNECTION_MS ==> step == AnnounceStep::Reconnect(chain[i + 1].attempt),
{
    assert(next_announce(chain[i], responses[i], ages[i], chain[i + 1]));
}

proof fn lemma_announce_attempt(
    chain: Seq<Announcing>,
    responses: Seq<Option<Seq<u8>>>,
    ages: Seq<u64>,
    n: int,
)
    requires
        announces(chain, responses, ages),
        0 <= n < chain.len(),
    ensures
        chain[n].attempt == n <= MAX_RETRIES,
    decreases n,
{
    if n > 0 {
        lemma_announce_attempt(chain, responses, ages, n - 1);
        assert(next_announce(chain[n - 1], responses[n - 1], ages[n - 1], chain[n]));
    }
}

/// A connect response opens the connection that it names, and only for the
/// request that it is to.
pub proof fn law_connect_answered(transaction_id: u32, other_id: u32, connection_id: u64)
    ensures
        connection_of(
            bytes::be32(CONNECT) + bytes::be32(transaction_id) + bytes::be64(connection_id),
            other_id,
        ) == if other_id == transaction_id {
            Some(connection_id)
        } else {
            None
        },
{
    let r = bytes::be32(CONNECT) + bytes::be32(transaction_id) + bytes::be64(connection_id);
    bytes::lemma_be32_value(CONNECT);
    bytes::lemma_be32_value(transaction_id);
    bytes::lemma_be64_value(connection_id);
    assert(r.subrange(0, 4) =~= bytes::be32(CONNECT));
    assert(r.subrange(4, 8) =~= bytes::be32(transaction_id));
    assert(r.subrange(8, 16) =~= bytes::be64(connection_id));
}

/// An announce response gives its interval and its addresses to the request that
/// it is to, and nothing to another.
pub proof fn law_announce_answered(
    transaction_id: u32,
    other_id: u32,
    interval: u32,
    leechers: u32,
    seeders: u32,
    peers: Seq<u8>,
)
    ensures
        announced(
            bytes::be32(ANNOUNCE) + bytes::be32(transaction_id) + bytes::be32(interval)
                + bytes::be32(leechers) + bytes::be32(seeders) + peers,
            other_id,
        ) == if other_id == transaction_id {
            Some((interval, tracker::compact_addrs(peers)))
        } else {
            None
        },
{
    let r = bytes::be32(ANNOUNCE) + bytes::be32(transaction_id) + bytes::be32(interval)
        + bytes::be32(leechers) + bytes::be32(seeders) + peers;
    bytes::lemma_be32_value(ANNOUNCE);
    bytes::lemma_be32_value(transaction_id);
    bytes::lemma_be32_value(interval);
    assert(r.subrange(0, 4) =~= bytes::be32(ANNOUNCE));
    assert(r.subrange(4, 8) =~= bytes::be32(transaction_id));
    assert(r.subrange(8, 12) =~= bytes::be32(interval));
    assert(r.skip(20) =~= peers);
}

/// The host and the port of a UDP tracker: the port is 80 where the URL names
/// none.
pub open spec fn endpoint_of(url: Result<weburl::UrlModel, Seq<char>>) -> Result<
    (Seq<char>, u16),
    Seq<char>,
> {
    match url {
        Err(e) => Err("bad URL: "@ + e),
        Ok(u) => match u.host {
            None => Err("no host in URL"@),
            Some(host) => Ok(
                (
                    host.map_values(|c: char| scan::lower(c)),
                    match u.port {
                        Some(port) => port,
                        None => 80,
                    },
                ),
            ),
        },
    }
}

/// Whether `result` is the endpoint, or the error, that is expected.
pub open spec fn endpoint_is(
    result: Result<(String, u16), Error>,
    expected: Result<(Seq<char>, u16), Seq<char>>,
) -> bool {
    match result {
        Ok((host, port)) => expected == Ok::<_, Seq<char>>((host@, port)),
        Err(e) => e matches Error::Tracker(why) && expected == Err::<(Seq<char>, u16), _>(why@),
    }
}

/// The host and the port of a UDP tracker with this URL.
pub fn url_endpoint(url: Result<TrackerUrl, String>) -> (result: Result<(String, u16), Error>)
    ensures
        endpoint_is(result, endpoint_of(weburl::url_model(url))),
{
    match url {
        Err(e) => Err(Error::Tracker(joined("bad URL: ", e.as_str()))),
        Ok(u) => match u.host {
            None => Err(Error::Tracker("no host in URL".to_string())),
            Some(host) => {
                let port = match u.port {
                    Some(port) => port,
                    None => 80,
                };
                Ok((lowercase(host.as_str()), port))
            },
        },
    }
}

/// The host and the port of a UDP tracker.
pub fn tracker_endpoint(url: &str) -> (result: Result<(String, u16), Error>)
    ensures
        endpoint_is(result, endpoint_of(weburl::parsed_url(url@))),
{
    url_endpoint(parse_url(url))
}

/// A host and a port, as they are shown.
pub open spec fn shown_endpoint(host: Seq<char>, port: u16) -> Seq<char> {
    host + ":"@ + text::ascii_chars(text::digits(port as nat))
}

/// A host and a port, as they are shown.
pub fn show_endpoint(host: &str, port: u16) -> (out: String)
    ensures
        out@ == shown_endpoint(host@, port),
{
    let mut out = joined(host, ":");
    out.append(number_text(port as u64).as_str());
    out
}

/// The error where the address of a tracker cannot be looked up.
pub fn lookup_failed(host: &str, port: u16, why: &str) -> (e: Error)
    ensures
        e matches Error::Tracker(s) && s@ == "resolve "@ + shown_endpoint(host@, port) + ": "@
            + why@,
{
    let mut out = joined("resolve ", show_endpoint(host, port).as_str());
    out.append(": ");
    out.append(why);
    Error::Tracker(out)
}

/// The error where a tracker has no address.
pub fn no_address(host: &str, port: u16) -> (e: Error)
    ensures
        e matches Error::Tracker(s) && s@ == "cannot resolve tracker addr: "@ + shown_endpoint(
            host@,
            port,
        ),
{
    Error::Tracker(joined("cannot resolve tracker addr: ", show_endpoint(host, port).as_str()))
}

} // verus!
