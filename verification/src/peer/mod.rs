//! The peer wire protocol.
pub mod laws;
pub mod message;

use vstd::prelude::*;
use vstd::slice::slice_subrange;

use crate::bytes;
use crate::bytes::{push_bytes, read_be32, same_bytes};
use crate::peer::message::{decode_message, Message, PeerMessage};

verus! {

/// The length of the blocks that pieces are requested in.
pub const BLOCK_SIZE: u32 = 16384;

/// How long to wait for a connection, in seconds.
pub const CONNECT_TIMEOUT_SECS: u64 = 5;

/// How long to wait for a message, in seconds.
pub const RECV_TIMEOUT_SECS: u64 = 120;

/// The number of bytes of a handshake.
pub const HANDSHAKE_LEN: usize = 68;

/// The name of the protocol.
pub open spec fn protocol_name() -> Seq<u8> {
    vstd::utf8::encode_utf8("BitTorrent protocol"@)
}

/// How a handshake is written: the name of the protocol behind its length,
/// eight zero bytes, the torrent's identity, the client's.
pub open spec fn handshake_bytes(info_hash: Seq<u8>, peer_id: Seq<u8>) -> Seq<u8> {
    seq![19u8] + protocol_name() + Seq::new(8, |i: int| 0u8) + info_hash + peer_id
}

/// The torrent's identity in a handshake.
pub open spec fn handshake_info_hash(handshake: Seq<u8>) -> Seq<u8> {
    handshake.subrange(28, 48)
}

/// Writes a handshake.
pub fn handshake(info_hash: &[u8; 20], peer_id: &[u8; 20]) -> (out: Vec<u8>)
    ensures
        out@ == handshake_bytes(info_hash@, peer_id@),
{
    let mut out: Vec<u8> = Vec::new();
    out.push(19);
    push_bytes(&mut out, "BitTorrent protocol".as_bytes());
    let mut i: usize = 0;
    let ghost named = out@;
    while i < 8
        invariant
            i <= 8,
            out@ == named + Seq::new(i as nat, |j: int| 0u8),
        decreases 8 - i,
    {
        out.push(0);
        i = i + 1;
        assert(out@ =~= named + Seq::new(i as nat, |j: int| 0u8));
    }
    push_bytes(&mut out, info_hash.as_slice());
    push_bytes(&mut out, peer_id.as_slice());
    assert(out@ =~= handshake_bytes(info_hash@, peer_id@));
    out
}

/// Whether a peer's handshake is for the torrent.
pub fn handshake_matches(response: &[u8], info_hash: &[u8; 20]) -> (matches: bool)
    requires
        response@.len() == HANDSHAKE_LEN,
    ensures
        matches == (handshake_info_hash(response@) == info_hash@),
{
    same_bytes(slice_subrange(response, 28, 48), info_hash.as_slice())
}

/// A handshake has its fixed length, and names the torrent that it was written
/// for.
pub proof fn law_handshake_names_torrent(info_hash: Seq<u8>, peer_id: Seq<u8>)
    requires
        info_hash.len() == 20,
        peer_id.len() == 20,
    ensures
        handshake_bytes(info_hash, peer_id).len() == HANDSHAKE_LEN,
        handshake_info_hash(handshake_bytes(info_hash, peer_id)) == info_hash,
        handshake_bytes(info_hash, peer_id).skip(48) == peer_id,
{
    lemma_protocol_name();
    assert(handshake_info_hash(handshake_bytes(info_hash, peer_id)) =~= info_hash);
    assert(handshake_bytes(info_hash, peer_id).skip(48) =~= peer_id);
}

proof fn lemma_protocol_name()
    ensures
        protocol_name().len() == 19,
{
    reveal_strlit("BitTorrent protocol");
    vstd::utf8::is_ascii_chars_encode_utf8("BitTorrent protocol"@);
}

/// The message that the content of a frame is: a frame without content keeps
/// the connection alive.
pub open spec fn frame_message(body: Seq<u8>) -> Result<Message, Seq<char>> {
    if body.len() == 0 {
        Ok(Message::KeepAlive)
    } else {
        message::decoded(body[0], body.skip(1))
    }
}

/// The length of the content of a frame, by the four bytes in front of it.
pub fn frame_length(prefix: &[u8; 4]) -> (n: u32)
    ensures
        n == bytes::be32_value(prefix@),
{
    assert(prefix@.subrange(0, 4) =~= prefix@);
    read_be32(prefix.as_slice(), 0)
}

/// The message that the content of a frame is.
pub fn decode_frame(body: &[u8]) -> (result: Result<PeerMessage, String>)
    ensures
        match result {
            Ok(m) => frame_message(body@) == Ok::<_, Seq<char>>(m@),
            Err(e) => frame_message(body@) == Err::<Message, _>(e@),
        },
{
    if body.len() == 0 {
        return Ok(PeerMessage::KeepAlive);
    }
    let payload = slice_subrange(body, 1, body.len());
    assert(payload@ =~= body@.skip(1));
    decode_message(body[0], payload)
}

/// A message that is written is read back: the bytes in front give the length
/// of the rest, and the rest is the message. Only messages of an unknown kind,
/// which are written as keep-alives, and contents too long for a length of 32
/// bits are left out.
pub proof fn law_message_read_back(m: Message)
    requires
        !(m is Unknown),
        m matches Message::Bitfield(bits) ==> bits.len() + 1 <= u32::MAX,
        m matches Message::Piece(_, _, data) ==> data.len() + 9 <= u32::MAX,
    ensures
        message::encoded(m).len() >= 4,
        bytes::be32_value(message::encoded(m).take(4)) == message::encoded(m).len() - 4,
        frame_message(message::encoded(m).skip(4)) == Ok::<_, Seq<char>>(m),
{
    match m {
        Message::Have(index) => lemma_have_read_back(index),
        Message::Bitfield(bits) => lemma_bitfield_read_back(bits),
        Message::Request(a, b, c) => lemma_words_read_back(m, 6, a, b, c),
        Message::Cancel(a, b, c) => lemma_words_read_back(m, 8, a, b, c),
        Message::Piece(index, begin, data) => lemma_piece_read_back(index, begin, data),
        _ => lemma_bare_read_back(m),
    }
}

/// What the bytes give that came from a peer and were not taken yet.
#[derive(Debug)]
pub enum Received {
    /// A message, and how many bytes it takes.
    Message(PeerMessage, usize),
    /// Nothing yet: at least so many bytes more are needed.
    More(usize),
    /// The peer ended the connection between messages.
    Ended,
    /// The peer ended the connection within a message.
    Cut,
    /// No message that can be read.
    Bad(String),
}

/// What a [`Received`] says.
pub enum ReceivedModel {
    Message(Message, int),
    More(int),
    Ended,
    Cut,
    Bad(Seq<char>),
}

impl View for Received {
    type V = ReceivedModel;

    open spec fn view(&self) -> ReceivedModel {
        match *self {
            Received::Message(m, taken) => ReceivedModel::Message(m@, taken as int),
            Received::More(n) => ReceivedModel::More(n as int),
            Received::Ended => ReceivedModel::Ended,
            Received::Cut => ReceivedModel::Cut,
            Received::Bad(why) => ReceivedModel::Bad(why@),
        }
    }
}

/// What the bytes give that were not taken yet, after which the connection ended
/// or not.
pub open spec fn received(unread: Seq<u8>, ended: bool) -> ReceivedModel {
    if unread.len() < 4 {
        if ended {
            ReceivedModel::Ended
        } else {
            ReceivedModel::More(4 - unread.len())
        }
    } else {
        let end = 4 + bytes::be32_value(unread.take(4));
        if unread.len() < end {
            if ended {
                ReceivedModel::Cut
            } else {
                ReceivedModel::More(end - unread.len())
            }
        } else {
            match frame_message(unread.subrange(4, end)) {
                Ok(m) => ReceivedModel::Message(m, end),
                Err(why) => ReceivedModel::Bad(why),
            }
        }
    }
}

/// What the bytes give that were not taken yet, after which the connection ended
/// or not.
pub fn receive(unread: &[u8], ended: bool) -> (out: Received)
    ensures
        out@ == received(unread@, ended),
{
    let have = unread.len();
    if have < 4 {
        return if ended {
            Received::Ended
        } else {
            Received::More(4 - have)
        };
    }
    let prefix = [unread[0], unread[1], unread[2], unread[3]];
    assert(prefix@ =~= unread@.take(4));
    let length = frame_length(&prefix) as usize;
    if have - 4 < length {
        return if ended {
            Received::Cut
        } else {
            Received::More(length - (have - 4))
        };
    }
    match decode_frame(slice_subrange(unread, 4, 4 + length)) {
        Ok(m) => Received::Message(m, 4 + length),
        Err(why) => Received::Bad(why),
    }
}

/// What is written is received, whatever follows it, and what follows it is left.
/// Only messages of an unknown kind, which are written as keep-alives, and contents
/// too long for a length of 32 bits are left out.
pub proof fn law_message_received(m: Message, rest: Seq<u8>, ended: bool)
    requires
        !(m is Unknown),
        m matches Message::Bitfield(bits) ==> bits.len() + 1 <= u32::MAX,
        m matches Message::Piece(_, _, data) ==> data.len() + 9 <= u32::MAX,
    ensures
        received(message::encoded(m) + rest, ended) == ReceivedModel::Message(
            m,
            message::encoded(m).len() as int,
        ),
        (message::encoded(m) + rest).skip(message::encoded(m).len() as int) == rest,
{
    law_message_read_back(m);
    let s = message::encoded(m);
    assert((s + rest).take(4) =~= s.take(4));
    assert((s + rest).subrange(4, s.len() as int) =~= s.skip(4));
    assert((s + rest).skip(s.len() as int) =~= rest);
}

/// As long as a message is not there as a whole, nothing is received and nothing
/// is lost: more is waited for, and where the connection ends, it ended within the
/// message, or between messages where not even its length is there.
pub proof fn law_part_not_received(m: Message, n: int)
    requires
        !(m is Unknown),
        m matches Message::Bitfield(bits) ==> bits.len() + 1 <= u32::MAX,
        m matches Message::Piece(_, _, data) ==> data.len() + 9 <= u32::MAX,
        0 <= n < message::encoded(m).len(),
    ensures
        ({
            let part = message::encoded(m).take(n);
            &&& received(part, false) matches ReceivedModel::More(k) && 0 < k
                <= message::encoded(m).len() - n
            &&& received(part, true) == if n < 4 {
                ReceivedModel::Ended
            } else {
                ReceivedModel::Cut
            }
        }),
{
    law_message_read_back(m);
    let s = message::encoded(m);
    if n >= 4 {
        assert(s.take(n).take(4) =~= s.take(4));
    }
}

/// Where the connection ends and not even a length is there, nothing is received.
pub proof fn law_end_between_messages(unread: Seq<u8>)
    requires
        unread.len() < 4,
    ensures
        received(unread, true) == ReceivedModel::Ended,
{
}

/// Whether a message is read back as it is written.
spec fn read_back(m: Message) -> bool {
    let s = message::encoded(m);
    &&& s.len() >= 4
    &&& bytes::be32_value(s.take(4)) == s.len() - 4
    &&& frame_message(s.skip(4)) == Ok::<_, Seq<char>>(m)
}

proof fn lemma_bare_read_back(m: Message)
    requires
        m is KeepAlive || m is Choke || m is Unchoke || m is Interested || m is NotInterested,
    ensures
        read_back(m),
{
}

proof fn lemma_have_read_back(index: u32)
    ensures
        read_back(Message::Have(index)),
{
    let body = message::encoded(Message::Have(index)).skip(4);
    bytes::lemma_be32_value(index);
    assert(body[0] == 4);
    assert(body.skip(1).subrange(0, 4) =~= bytes::be32(index));
}

proof fn lemma_bitfield_read_back(bits: Seq<u8>)
    requires
        bits.len() + 1 <= u32::MAX,
    ensures
        read_back(Message::Bitfield(bits)),
{
    let s = message::encoded(Message::Bitfield(bits));
    bytes::lemma_be32_value((1 + bits.len()) as u32);
    assert(s.take(4) =~= bytes::be32((1 + bits.len()) as u32));
    assert(s.skip(4)[0] == 5);
    assert(s.skip(4).skip(1) =~= bits);
}

proof fn lemma_words_read_back(m: Message, id: u8, a: u32, b: u32, c: u32)
    requires
        (m == Message::Request(a, b, c) && id == 6) || (m == Message::Cancel(a, b, c) && id == 8),
    ensures
        read_back(m),
{
    let s = message::encoded(m);
    assert(s =~= seq![0u8, 0, 0, 13, id] + message::three(a, b, c));
    assert(s.take(4) =~= seq![0u8, 0, 0, 13]);
    assert(s.skip(4)[0] == id);
    assert(s.skip(4).skip(1) =~= message::three(a, b, c));
    lemma_three(a, b, c, s.skip(4).skip(1));
}

proof fn lemma_piece_read_back(index: u32, begin: u32, data: Seq<u8>)
    requires
        data.len() + 9 <= u32::MAX,
    ensures
        read_back(Message::Piece(index, begin, data)),
{
    let prefix = bytes::be32((9 + data.len()) as u32);
    bytes::lemma_be32_value((9 + data.len()) as u32);
    bytes::lemma_be32_value(index);
    bytes::lemma_be32_value(begin);
    lemma_piece_layout(prefix, 7, bytes::be32(index), bytes::be32(begin), data);
    assert(message::encoded(Message::Piece(index, begin, data)) == prefix + seq![7u8]
        + bytes::be32(index) + bytes::be32(begin) + data);
}

/// Where the parts of a written block stand.
proof fn lemma_piece_layout(prefix: Seq<u8>, id: u8, a: Seq<u8>, b: Seq<u8>, data: Seq<u8>)
    requires
        prefix.len() == 4,
        a.len() == 4,
        b.len() == 4,
    ensures
        ({
            let s = prefix + seq![id] + a + b + data;
            &&& s.len() == 13 + data.len()
            &&& s.take(4) == prefix
            &&& s.skip(4)[0] == id
            &&& s.skip(4).skip(1).len() == 8 + data.len()
            &&& s.skip(4).skip(1).subrange(0, 4) == a
            &&& s.skip(4).skip(1).subrange(4, 8) == b
            &&& s.skip(4).skip(1).skip(8) == data
        }),
{
    let s = prefix + seq![id] + a + b + data;
    assert(s.take(4) =~= prefix);
    assert(s.skip(4).skip(1).subrange(0, 4) =~= a);
    assert(s.skip(4).skip(1).subrange(4, 8) =~= b);
    assert(s.skip(4).skip(1).skip(8) =~= data);
}

proof fn lemma_three(a: u32, b: u32, c: u32, payload: Seq<u8>)
    requires
        payload =~= message::three(a, b, c),
    ensures
        message::word(payload, 0) == a,
        message::word(payload, 4) == b,
        message::word(payload, 8) == c,
{
    bytes::lemma_be32_value(a);
    bytes::lemma_be32_value(b);
    bytes::lemma_be32_value(c);
    assert(payload.subrange(0, 4) =~= bytes::be32(a));
    assert(payload.subrange(4, 8) =~= bytes::be32(b));
    assert(payload.subrange(8, 12) =~= bytes::be32(c));
}

} // verus!
