//! What holds of what is sent to trackers and of what they answer.
use vstd::prelude::*;

use crate::bytes;
use crate::scan;
use crate::tracker;
use crate::tracker::udp;
use crate::tracker::udp::{AnnounceStep, Announcing, ConnectStep, Connecting};
use crate::tracker::weburl::UrlModel;
use crate::tracker::{Announce, PeerAddr, TrackerEvent, TrackerKind};

verus! {

/// Every six bytes are an address: four of the IP address and two of the port, the
/// highest first. There are as many addresses as there are six bytes.
pub proof fn law_compact_bytes_denote(s: Seq<u8>, i: int)
    ensures
        tracker::compact_addrs(s).len() == s.len() / 6,
        0 <= i < s.len() / 6 ==> tracker::compact_addrs(s)[i] == (PeerAddr::V4 {
            ip: (s[6 * i] * 16777216 + s[6 * i + 1] * 65536 + s[6 * i + 2] * 256 + s[6 * i
                + 3]) as u32,
            port: (s[6 * i + 4] * 256 + s[6 * i + 5]) as u16,
        }),
{
    if 0 <= i < s.len() / 6 {
        let chunk = s.subrange(6 * i, 6 * i + 6);
        assert(chunk.take(4)[0] == s[6 * i] && chunk.take(4)[1] == s[6 * i + 1]);
        assert(chunk.take(4)[2] == s[6 * i + 2] && chunk.take(4)[3] == s[6 * i + 3]);
        assert(chunk.subrange(4, 6)[0] == s[6 * i + 4]);
        assert(chunk.subrange(4, 6)[1] == s[6 * i + 5]);
    }
}

/// How addresses are written, one after the other. Only those of four bytes are.
pub open spec fn compact_list(addrs: Seq<PeerAddr>) -> Seq<u8>
    decreases addrs.len(),
{
    if addrs.len() == 0 {
        Seq::empty()
    } else {
        let front = compact_list(addrs.drop_last());
        match addrs.last() {
            PeerAddr::V4 { ip, port } => front + bytes::be32(ip) + bytes::be16(port),
            PeerAddr::V6 { .. } => front,
        }
    }
}

/// A list of addresses that is written is read back, every one of them and in
/// order, however long it is. Fewer than six bytes behind it change nothing.
pub proof fn law_compact_list_read_back(addrs: Seq<PeerAddr>, rest: Seq<u8>)
    requires
        forall|i: int| 0 <= i < addrs.len() ==> (#[trigger] addrs[i]) is V4,
        rest.len() < 6,
    ensures
        tracker::compact_addrs(compact_list(addrs) + rest) == addrs,
{
    lemma_compact_list(addrs);
    let s = compact_list(addrs) + rest;
    law_compact_bytes_denote(s, 0);
    assert forall|i: int| 0 <= i < addrs.len() implies tracker::compact_addrs(s)[i]
        == #[trigger] addrs[i] by {
        law_compact_bytes_denote(s, i);
        assert(written_at(compact_list(addrs), addrs, i));
    }
    assert(tracker::compact_addrs(s) =~= addrs);
}

/// Whether the address at `i` stands where it is read.
pub open spec fn written_at(s: Seq<u8>, addrs: Seq<PeerAddr>, i: int) -> bool {
    addrs[i] == (PeerAddr::V4 {
        ip: (s[6 * i] * 16777216 + s[6 * i + 1] * 65536 + s[6 * i + 2] * 256 + s[6 * i + 3]) as u32,
        port: (s[6 * i + 4] * 256 + s[6 * i + 5]) as u16,
    })
}

pub proof fn lemma_compact_list(addrs: Seq<PeerAddr>)
    requires
        forall|i: int| 0 <= i < addrs.len() ==> (#[trigger] addrs[i]) is V4,
    ensures
        compact_list(addrs).len() == 6 * addrs.len(),
        forall|i: int|
            0 <= i < addrs.len() ==> #[trigger] written_at(compact_list(addrs), addrs, i),
    decreases addrs.len(),
{
    if addrs.len() > 0 {
        let rest = addrs.drop_last();
        let front = compact_list(rest);
        assert forall|i: int| 0 <= i < rest.len() implies (#[trigger] rest[i]) is V4 by {
            assert(addrs[i] is V4);
        }
        lemma_compact_list(rest);
        assert(addrs[addrs.len() - 1] is V4);
        let (ip, port) = (addrs.last()->V4_ip, addrs.last()->V4_port);
        bytes::lemma_be32_value(ip);
        bytes::lemma_be16_value(port);
        let s = compact_list(addrs);
        assert(s =~= front + bytes::be32(ip) + bytes::be16(port));
        assert forall|i: int| 0 <= i < addrs.len() implies #[trigger] written_at(s, addrs, i) by {
            if i < rest.len() {
                assert(written_at(front, rest, i));
                assert(s[6 * i] == front[6 * i] && s[6 * i + 1] == front[6 * i + 1]);
                assert(s[6 * i + 2] == front[6 * i + 2] && s[6 * i + 3] == front[6 * i + 3]);
                assert(s[6 * i + 4] == front[6 * i + 4] && s[6 * i + 5] == front[6 * i + 5]);
            } else {
                let n = front.len() as int;
                assert(s[n] == bytes::be32(ip)[0] && s[n + 1] == bytes::be32(ip)[1]);
                assert(s[n + 2] == bytes::be32(ip)[2] && s[n + 3] == bytes::be32(ip)[3]);
                assert(s[n + 4] == bytes::be16(port)[0] && s[n + 5] == bytes::be16(port)[1]);
            }
        }
    }
}

/// Trackers are told of events by these names and numbers.
pub proof fn law_events_named(e: TrackerEvent)
    ensures
        e is Started ==> tracker::event_name(e) == "started"@ && udp::event_number(Some(e)) == 2,
        e is Completed ==> tracker::event_name(e) == "completed"@ && udp::event_number(Some(e))
            == 1,
        e is Stopped ==> tracker::event_name(e) == "stopped"@ && udp::event_number(Some(e)) == 3,
        udp::event_number(None) == 0,
{
}

/// A tracker is reached as the scheme in front of its URL says, whatever follows,
/// and not at all where the scheme is another.
pub proof fn law_kind_by_scheme(url: Seq<char>, rest: Seq<char>)
    ensures
        tracker::kind_of("udp://"@ + rest) == Some(TrackerKind::Udp),
        tracker::kind_of("http://"@ + rest) == Some(TrackerKind::Http),
        tracker::kind_of("https://"@ + rest) == Some(TrackerKind::Http),
        tracker::kind_of(url) is Some ==> exists|tail: Seq<char>|
            #![trigger "udp://"@ + tail]
            url == "udp://"@ + tail || url == "http://"@ + tail || url == "https://"@ + tail,
{
    reveal_strlit("udp://");
    reveal_strlit("http://");
    reveal_strlit("https://");
    assert(("udp://"@ + rest).subrange(0, 6) =~= "udp://"@);
    assert(("http://"@ + rest).subrange(0, 7) =~= "http://"@);
    assert(("https://"@ + rest).subrange(0, 8) =~= "https://"@);
    assert("udp://"@[0] == 'u' && "http://"@[0] == 'h' && "https://"@[0] == 'h');
    assert(("http://"@ + rest).subrange(0, 6)[0] == 'h');
    assert(("https://"@ + rest).subrange(0, 6)[0] == 'h');
    if "udp://"@.is_prefix_of(url) {
        assert(url =~= "udp://"@ + url.skip(6));
    } else if "http://"@.is_prefix_of(url) {
        assert(url =~= "http://"@ + url.skip(7));
        let other = "udp://"@ + url.skip(7);
    } else if "https://"@.is_prefix_of(url) {
        assert(url =~= "https://"@ + url.skip(8));
        let other = "udp://"@ + url.skip(8);
    }
}

/// A connect request, byte by byte.
pub proof fn law_connect_layout(transaction_id: u32)
    ensures
        ({
            let s = udp::connect_bytes(transaction_id);
            &&& s.len() == 16
            &&& s.subrange(0, 8) == seq![0u8, 0, 4, 23, 39, 16, 25, 128]
            &&& s.subrange(8, 12) == seq![0u8, 0, 0, 0]
            &&& s.subrange(12, 16) == bytes::be32(transaction_id)
        }),
{
    let s = udp::connect_bytes(transaction_id);
    assert(s.subrange(0, 8) =~= seq![0u8, 0, 4, 23, 39, 16, 25, 128]);
    assert(s.subrange(8, 12) =~= seq![0u8, 0, 0, 0]);
    assert(s.subrange(12, 16) =~= bytes::be32(transaction_id));
}

/// Where everything stands in an announce request.
pub proof fn law_announce_layout(connection_id: u64, transaction_id: u32, key: u32, a: Announce)
    ensures
        ({
            let s = udp::announce_bytes(connection_id, transaction_id, key, a);
            &&& s.len() == 98
            &&& s.subrange(0, 8) == bytes::be64(connection_id)
            &&& s.subrange(8, 12) == seq![0u8, 0, 0, 1]
            &&& s.subrange(12, 16) == bytes::be32(transaction_id)
            &&& s.subrange(16, 36) == a.info_hash@
            &&& s.subrange(36, 56) == a.peer_id@
            &&& s.subrange(56, 64) == bytes::be64(a.downloaded)
            &&& s.subrange(64, 72) == bytes::be64(a.left)
            &&& s.subrange(72, 80) == bytes::be64(a.uploaded)
            &&& s.subrange(80, 84) == match a.event {
                None => seq![0u8, 0, 0, 0],
                Some(TrackerEvent::Completed) => seq![0u8, 0, 0, 1],
                Some(TrackerEvent::Started) => seq![0u8, 0, 0, 2],
                Some(TrackerEvent::Stopped) => seq![0u8, 0, 0, 3],
            }
            &&& s.subrange(84, 88) == seq![0u8, 0, 0, 0]
            &&& s.subrange(88, 92) == bytes::be32(key)
            &&& s.subrange(92, 96) == seq![0u8, 0, 0, 50]
            &&& s.subrange(96, 98) == bytes::be16(a.port)
        }),
{
    let s = udp::announce_bytes(connection_id, transaction_id, key, a);
    let event = bytes::be32(udp::event_number(a.event));
    assert(s.subrange(0, 8) =~= bytes::be64(connection_id));
    assert(s.subrange(8, 12) =~= bytes::be32(1));
    assert(s.subrange(12, 16) =~= bytes::be32(transaction_id));
    assert(s.subrange(16, 36) =~= a.info_hash@);
    assert(s.subrange(36, 56) =~= a.peer_id@);
    assert(s.subrange(56, 64) =~= bytes::be64(a.downloaded));
    assert(s.subrange(64, 72) =~= bytes::be64(a.left));
    assert(s.subrange(72, 80) =~= bytes::be64(a.uploaded));
    assert(s.subrange(80, 84) =~= event);
    assert(s.subrange(84, 88) =~= bytes::be32(0));
    assert(s.subrange(88, 92) =~= bytes::be32(key));
    assert(s.subrange(92, 96) =~= bytes::be32(50));
    assert(s.subrange(96, 98) =~= bytes::be16(a.port));
    assert(bytes::be32(0) =~= seq![0u8, 0, 0, 0]);
    assert(bytes::be32(1) =~= seq![0u8, 0, 0, 1]);
    assert(bytes::be32(2) =~= seq![0u8, 0, 0, 2]);
    assert(bytes::be32(3) =~= seq![0u8, 0, 0, 3]);
    assert(bytes::be32(50) =~= seq![0u8, 0, 0, 50]);
}

/// A connect response counts exactly where its action is that of connecting and
/// its identification is that of the request. The connection is named behind them.
pub proof fn law_connection_taken(r: Seq<u8>, transaction_id: u32)
    requires
        r.len() >= 16,
    ensures
        udp::connection_of(r, transaction_id) is Some <==> r.subrange(0, 4) == seq![0u8, 0, 0, 0]
            && r.subrange(4, 8) == bytes::be32(transaction_id),
        udp::connection_of(r, transaction_id) matches Some(id) ==> bytes::be64(id) == r.subrange(
            8,
            16,
        ),
{
    lemma_word_equal(r.subrange(0, 4), 0);
    lemma_word_equal(r.subrange(4, 8), transaction_id);
    assert(bytes::be32(0) =~= seq![0u8, 0, 0, 0]);
    let eight = r.subrange(8, 16);
    let high = bytes::be32_value(eight);
    let low = bytes::be32_value(eight.skip(4));
    let id = bytes::be64_value(eight) as u64;
    assert(bytes::be64_value(eight) == high * 0x1_0000_0000 + low);
    assert(id / 0x1_0000_0000 == high && id % 0x1_0000_0000 == low);
    lemma_word_equal(eight.take(4), high as u32);
    lemma_word_equal(eight.skip(4), low as u32);
    assert(bytes::be64(id) =~= eight);
}

/// Four bytes denote a number exactly where they are how it is written.
proof fn lemma_word_equal(s: Seq<u8>, n: u32)
    requires
        s.len() == 4,
    ensures
        bytes::be32_value(s) == n <==> s == bytes::be32(n),
{
    bytes::lemma_be32_value(n);
    if bytes::be32_value(s) == n {
        let (a, b, c, d) = (s[0] as int, s[1] as int, s[2] as int, s[3] as int);
        let v = n as int;
        assert(v == ((a * 256 + b) * 256 + c) * 256 + d);
        assert(v % 256 == d && v / 256 == (a * 256 + b) * 256 + c);
        assert(v / 0x1_0000 == a * 256 + b);
        assert(v / 0x100_0000 == a);
        assert(bytes::be32(n) =~= s);
    }
}

/// An announce response counts exactly where it is long enough, its action is that
/// of announcing and its identification is that of the request. It names every
/// address behind its first twenty bytes.
pub proof fn law_announce_taken(r: Seq<u8>, transaction_id: u32)
    ensures
        udp::announced(r, transaction_id) is Some <==> r.len() >= 20 && r.subrange(0, 4)
            == seq![0u8, 0, 0, 1] && r.subrange(4, 8) == bytes::be32(transaction_id),
        udp::announced(r, transaction_id) matches Some((interval, peers)) ==> bytes::be32(interval)
            == r.subrange(8, 12) && peers == tracker::compact_addrs(r.skip(20)),
{
    if r.len() >= 20 {
        lemma_word_equal(r.subrange(0, 4), 1);
        lemma_word_equal(r.subrange(4, 8), transaction_id);
        assert(bytes::be32(1) =~= seq![0u8, 0, 0, 1]);
        let interval = bytes::be32_value(r.subrange(8, 12)) as u32;
        lemma_word_equal(r.subrange(8, 12), interval);
    }
}

/// The first wait is of fifteen seconds, and each one after it is twice as long.
pub proof fn law_patience_doubles(n: nat)
    ensures
        udp::patience(0) == 15000,
        udp::patience(n + 1) == 2 * udp::patience(n),
{
    vstd::arithmetic::power2::lemma2_to64();
    vstd::arithmetic::power2::lemma_pow2_unfold(n + 1);
}

/// An answer to a connect request ends the wait with the connection that it names;
/// without one, and after anything that is no answer to it, the next request
/// follows, as the one after this, up to eight times.
pub proof fn law_connect_waits(
    c: Connecting,
    connection_id: u64,
    other: Option<Seq<u8>>,
    addr: Seq<char>,
    next_id: u32,
    step: ConnectStep,
)
    requires
        other matches Some(r) ==> r.len() >= 16 && !(r.subrange(0, 4) == seq![0u8, 0, 0, 0]
            && r.subrange(4, 8) == bytes::be32(c.transaction_id)),
    ensures
        udp::connect_follows(
            c,
            Some(
                seq![0u8, 0, 0, 0] + bytes::be32(c.transaction_id) + bytes::be64(connection_id),
            ),
            addr,
            next_id,
            step,
        ) ==> step == ConnectStep::Connected(connection_id),
        udp::connect_follows(c, other, addr, next_id, step) && c.attempt < 8 ==> step
            == ConnectStep::Again(
            Connecting { attempt: (c.attempt + 1) as u32, transaction_id: next_id },
        ),
        udp::connect_follows(c, other, addr, next_id, step) && c.attempt >= 8 ==> step is Failed,
{
    udp::law_connect_answered(c.transaction_id, c.transaction_id, connection_id);
    assert(bytes::be32(0) =~= seq![0u8, 0, 0, 0]);
    if let Some(r) = other {
        law_connection_taken(r, c.transaction_id);
    }
}

/// An answer to an announce request ends the wait with the peers that it names;
/// without one, and after anything that is no answer to it, the next request
/// follows, up to eight times, over the same connection while that is less than a
/// minute old, and over a new one after that.
pub proof fn law_announce_waits(
    a: Announcing,
    interval: u32,
    leechers: u32,
    seeders: u32,
    peers: Seq<PeerAddr>,
    other: Option<Seq<u8>>,
    age_ms: u64,
    next_id: u32,
    next_key: u32,
    step: AnnounceStep,
)
    requires
        forall|i: int| 0 <= i < peers.len() ==> (#[trigger] peers[i]) is V4,
        other matches Some(r) ==> !(r.len() >= 20 && r.subrange(0, 4) == seq![0u8, 0, 0, 1]
            && r.subrange(4, 8) == bytes::be32(a.transaction_id)),
    ensures
        udp::announce_follows(
            a,
            Some(
                bytes::be32(1) + bytes::be32(a.transaction_id) + bytes::be32(interval)
                    + bytes::be32(leechers) + bytes::be32(seeders) + compact_list(peers),
            ),
            age_ms,
            next_id,
            next_key,
            step,
        ) ==> (step matches AnnounceStep::Announced(r) && r.interval == interval && r.peers@
            == peers),
        udp::announce_follows(a, other, age_ms, next_id, next_key, step) && a.attempt < 8 && age_ms
            < 60000 ==> step == AnnounceStep::Again(
            Announcing {
                attempt: (a.attempt + 1) as u32,
                connection_id: a.connection_id,
                transaction_id: next_id,
                key: next_key,
            },
        ),
        udp::announce_follows(a, other, age_ms, next_id, next_key, step) && a.attempt < 8 && age_ms
            >= 60000 ==> step == AnnounceStep::Reconnect((a.attempt + 1) as u32),
        udp::announce_follows(a, other, age_ms, next_id, next_key, step) && a.attempt >= 8 ==> step
            is Failed,
{
    udp::law_announce_answered(
        a.transaction_id,
        a.transaction_id,
        interval,
        leechers,
        seeders,
        compact_list(peers),
    );
    if let Some(r) = other {
        law_announce_taken(r, a.transaction_id);
    }
    law_compact_list_read_back(peers, Seq::empty());
    assert(compact_list(peers) + Seq::<u8>::empty() =~= compact_list(peers));
}

/// A UDP tracker is asked at the host and the port of its URL, the host in small
/// letters, and at port 80 where the URL names none.
pub proof fn law_endpoint(url: UrlModel, why: Seq<char>, k: int)
    ensures
        url.host is None ==> udp::endpoint_of(Ok(url)) is Err,
        udp::endpoint_of(Err(why)) is Err,
        url.host matches Some(host) ==> {
            &&& udp::endpoint_of(Ok(url)) matches Ok((h, port))
            &&& h.len() == host.len()
            &&& 0 <= k < host.len() ==> h[k] == scan::lower(host[k])
            &&& url.port matches Some(p) ==> port == p
            &&& url.port is None ==> port == 80
        },
{
}

/// How often and how long UDP trackers are waited for, and what they are asked for.
pub proof fn law_limits()
    ensures
        udp::MAX_RETRIES == 8,
        udp::TIMEOUT_MS == 15000,
        udp::CONNECTION_MS == 60000,
        udp::MAX_RESPONSE == 1024,
        udp::NUM_WANT == 50,
{
}

} // verus!
