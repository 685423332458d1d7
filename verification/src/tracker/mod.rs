//! Trackers: asking for the addresses of peers.
pub mod http;
pub mod laws;
pub mod udp;
pub mod weburl;

use vstd::prelude::*;
use vstd::string::*;

use crate::bytes;
use crate::bytes::{read_be16, read_be32};
use crate::error::Error;
use crate::scan::starts_with;
use crate::text::joined;

verus! {

/// The address of a peer: its IP address, the first byte as the highest one, and
/// its port.
#[derive(Debug, Clone, Copy, PartialEq, Eq, Structural, Hash)]
pub enum PeerAddr {
    V4 { ip: u32, port: u16 },
    V6 { ip6: u128, port: u16, flowinfo: u32, scope_id: u32 },
}

/// What a tracker answers: the addresses of peers, and after how many seconds it
/// wants to be asked again.
#[derive(Debug)]
pub struct AnnounceResponse {
    pub peers: Vec<PeerAddr>,
    pub interval: u32,
}

/// Why a tracker is asked.
#[derive(Debug, Clone, Copy, PartialEq, Eq, Structural)]
pub enum TrackerEvent {
    Started,
    Completed,
    Stopped,
}

/// What is told to a tracker.
#[derive(Debug, Clone)]
pub struct Announce {
    pub info_hash: [u8; 20],
    pub peer_id: [u8; 20],
    pub port: u16,
    pub uploaded: u64,
    pub downloaded: u64,
    pub left: u64,
    pub event: Option<TrackerEvent>,
}

/// How a tracker is reached.
#[derive(Debug, Clone, Copy, PartialEq, Eq, Structural)]
pub enum TrackerKind {
    Udp,
    Http,
}

/// The name of an event.
pub open spec fn event_name(event: TrackerEvent) -> Seq<char> {
    match event {
        TrackerEvent::Started => "started"@,
        TrackerEvent::Completed => "completed"@,
        TrackerEvent::Stopped => "stopped"@,
    }
}

impl TrackerEvent {
    /// The name of the event.
    pub fn as_str(&self) -> (out: &str)
        ensures
            out@ == event_name(*self),
            *self is Started ==> out@ == "started"@,
            *self is Completed ==> out@ == "completed"@,
            *self is Stopped ==> out@ == "stopped"@,
    {
        match self {
            TrackerEvent::Started => "started",
            TrackerEvent::Completed => "completed",
            TrackerEvent::Stopped => "stopped",
        }
    }
}

/// How the tracker at `url` is reached, by the scheme of its URL.
pub open spec fn kind_of(url: Seq<char>) -> Option<TrackerKind> {
    if "udp://"@.is_prefix_of(url) {
        Some(TrackerKind::Udp)
    } else if "http://"@.is_prefix_of(url) || "https://"@.is_prefix_of(url) {
        Some(TrackerKind::Http)
    } else {
        None
    }
}

/// How the tracker is reached. Schemes other than `udp`, `http` and `https` are
/// refused.
pub fn tracker_kind(tracker_url: &str) -> (result: Result<TrackerKind, Error>)
    ensures
        match result {
            Ok(kind) => kind_of(tracker_url@) == Some(kind),
            Err(e) => {
                &&& kind_of(tracker_url@) is None
                &&& e matches Error::Tracker(why)
                &&& why@ == "unsupported tracker scheme: "@ + tracker_url@
            },
        },
        "udp://"@.is_prefix_of(tracker_url@) ==> result matches Ok(TrackerKind::Udp),
        "http://"@.is_prefix_of(tracker_url@) ==> result matches Ok(TrackerKind::Http),
        "https://"@.is_prefix_of(tracker_url@) ==> result matches Ok(TrackerKind::Http),
{
    proof {
        reveal_strlit("udp://");
        reveal_strlit("http://");
        reveal_strlit("https://");
        assert("udp://"@[0] == 'u' && "http://"@[0] == 'h' && "https://"@[0] == 'h');
        if "udp://"@.is_prefix_of(tracker_url@) {
            assert(tracker_url@.subrange(0, 6)[0] == 'u');
        }
        if "http://"@.is_prefix_of(tracker_url@) {
            assert(tracker_url@.subrange(0, 7)[0] == 'h');
        }
        if "https://"@.is_prefix_of(tracker_url@) {
            assert(tracker_url@.subrange(0, 8)[0] == 'h');
        }
    }
    if starts_with(tracker_url, "udp://") {
        Ok(TrackerKind::Udp)
    } else if starts_with(tracker_url, "http://") || starts_with(tracker_url, "https://") {
        Ok(TrackerKind::Http)
    } else {
        Err(Error::Tracker(joined("unsupported tracker scheme: ", tracker_url)))
    }
}

/// The address that six bytes denote: four of the IP address, two of the port.
pub open spec fn compact_addr(s: Seq<u8>) -> PeerAddr {
    PeerAddr::V4 {
        ip: bytes::be32_value(s.take(4)) as u32,
        port: bytes::be16_value(s.subrange(4, 6)) as u16,
    }
}

/// The addresses that the bytes denote, six bytes each; bytes that are left over
/// denote none.
pub open spec fn compact_addrs(s: Seq<u8>) -> Seq<PeerAddr> {
    Seq::new((s.len() / 6) as nat, |i: int| compact_addr(s.subrange(6 * i, 6 * i + 6)))
}

/// The addresses that the bytes denote.
pub fn parse_compact_peers(data: &[u8]) -> (out: Vec<PeerAddr>)
    ensures
        out@ == compact_addrs(data@),
        out@.len() == data@.len() / 6,
        forall|i: int|
            0 <= i < data@.len() / 6 ==> #[trigger] out@[i] == (PeerAddr::V4 {
                ip: (data@[6 * i] * 16777216 + data@[6 * i + 1] * 65536 + data@[6 * i + 2] * 256
                    + data@[6 * i + 3]) as u32,
                port: (data@[6 * i + 4] * 256 + data@[6 * i + 5]) as u16,
            }),
{
    let mut out: Vec<PeerAddr> = Vec::new();
    let count = data.len() / 6;
    let mut i: usize = 0;
    while i < count
        invariant
            i <= count,
            count == data@.len() / 6,
            out@ == compact_addrs(data@).take(i as int),
        decreases count - i,
    {
        assert(6 * i + 6 <= data.len());
        let addr = PeerAddr::V4 {
            ip: read_be32(data, 6 * i),
            port: read_be16(data, 6 * i + 4),
        };
        let ghost chunk = data@.subrange(6 * i, 6 * i + 6);
        assert(chunk.take(4) =~= data@.subrange(6 * i, 6 * i + 4));
        assert(chunk.subrange(4, 6) =~= data@.subrange(6 * i + 4, 6 * i + 6));
        out.push(addr);
        i = i + 1;
        assert(out@ =~= compact_addrs(data@).take(i as int));
    }
    assert(compact_addrs(data@).take(i as int) =~= compact_addrs(data@));
    out
}

/// How an address is written in six bytes.
pub open spec fn compact_bytes(ip: u32, port: u16) -> Seq<u8> {
    bytes::be32(ip) + bytes::be16(port)
}

/// An address that is written in six bytes is read back.
pub proof fn law_compact_read_back(ip: u32, port: u16)
    ensures
        compact_addr(compact_bytes(ip, port)) == (PeerAddr::V4 { ip, port }),
{
    let s = compact_bytes(ip, port);
    bytes::lemma_be32_value(ip);
    bytes::lemma_be16_value(port);
    assert(s.take(4) =~= bytes::be32(ip));
    assert(s.subrange(4, 6) =~= bytes::be16(port));
}

} // verus!
