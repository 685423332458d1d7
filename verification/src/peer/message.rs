//! The messages that peers exchange.
use vstd::prelude::*;
use vstd::slice::slice_subrange;
use vstd::string::*;

use crate::bytes;
use crate::bytes::{copy_bytes, low_word, push_be32, push_bytes, read_be32};

verus! {

/// A message to or from a peer.
#[derive(Debug, Clone)]
pub enum PeerMessage {
    KeepAlive,
    Choke,
    Unchoke,
    Interested,
    NotInterested,
    Have(u32),
    Bitfield(Vec<u8>),
    Request(u32, u32, u32),
    Piece(u32, u32, Vec<u8>),
    Cancel(u32, u32, u32),
    Unknown(u8),
}

/// The kinds of message that have a payload format.
#[derive(Debug, Clone, Copy, PartialEq, Eq, Structural)]
pub enum MessageId {
    Choke,
    Unchoke,
    Interested,
    NotInterested,
    Have,
    Bitfield,
    Request,
    Piece,
    Cancel,
}

/// What a [`PeerMessage`] says.
pub enum Message {
    KeepAlive,
    Choke,
    Unchoke,
    Interested,
    NotInterested,
    Have(u32),
    Bitfield(Seq<u8>),
    Request(u32, u32, u32),
    Piece(u32, u32, Seq<u8>),
    Cancel(u32, u32, u32),
    Unknown(u8),
}

impl View for PeerMessage {
    type V = Message;

    open spec fn view(&self) -> Message {
        match *self {
            PeerMessage::KeepAlive => Message::KeepAlive,
            PeerMessage::Choke => Message::Choke,
            PeerMessage::Unchoke => Message::Unchoke,
            PeerMessage::Interested => Message::Interested,
            PeerMessage::NotInterested => Message::NotInterested,
            PeerMessage::Have(index) => Message::Have(index),
            PeerMessage::Bitfield(bits) => Message::Bitfield(bits@),
            PeerMessage::Request(index, begin, length) => Message::Request(index, begin, length),
            PeerMessage::Piece(index, begin, data) => Message::Piece(index, begin, data@),
            PeerMessage::Cancel(index, begin, length) => Message::Cancel(index, begin, length),
            PeerMessage::Unknown(id) => Message::Unknown(id),
        }
    }
}

/// The number of a kind of message.
pub open spec fn id_number(id: MessageId) -> u8 {
    match id {
        MessageId::Choke => 0,
        MessageId::Unchoke => 1,
        MessageId::Interested => 2,
        MessageId::NotInterested => 3,
        MessageId::Have => 4,
        MessageId::Bitfield => 5,
        MessageId::Request => 6,
        MessageId::Piece => 7,
        MessageId::Cancel => 8,
    }
}

impl MessageId {
    /// The kind with the number `id`.
    pub fn from_u8(id: u8) -> (out: Option<Self>)
        ensures
            out is Some <==> id <= 8,
            out matches Some(kind) ==> id_number(kind) == id,
            id == 0 <==> out == Some(MessageId::Choke),
            id == 1 <==> out == Some(MessageId::Unchoke),
            id == 2 <==> out == Some(MessageId::Interested),
            id == 3 <==> out == Some(MessageId::NotInterested),
            id == 4 <==> out == Some(MessageId::Have),
            id == 5 <==> out == Some(MessageId::Bitfield),
            id == 6 <==> out == Some(MessageId::Request),
            id == 7 <==> out == Some(MessageId::Piece),
            id == 8 <==> out == Some(MessageId::Cancel),
    {
        match id {
            0 => Some(MessageId::Choke),
            1 => Some(MessageId::Unchoke),
            2 => Some(MessageId::Interested),
            3 => Some(MessageId::NotInterested),
            4 => Some(MessageId::Have),
            5 => Some(MessageId::Bitfield),
            6 => Some(MessageId::Request),
            7 => Some(MessageId::Piece),
            8 => Some(MessageId::Cancel),
            _ => None,
        }
    }

    /// The number of the kind.
    pub fn to_u8(self) -> (id: u8)
        ensures
            id == id_number(self),
            id <= 8,
            id == 0 <==> self is Choke,
            id == 1 <==> self is Unchoke,
            id == 2 <==> self is Interested,
            id == 3 <==> self is NotInterested,
            id == 4 <==> self is Have,
            id == 5 <==> self is Bitfield,
            id == 6 <==> self is Request,
            id == 7 <==> self is Piece,
            id == 8 <==> self is Cancel,
    {
        match self {
            MessageId::Choke => 0,
            MessageId::Unchoke => 1,
            MessageId::Interested => 2,
            MessageId::NotInterested => 3,
            MessageId::Have => 4,
            MessageId::Bitfield => 5,
            MessageId::Request => 6,
            MessageId::Piece => 7,
            MessageId::Cancel => 8,
        }
    }
}

/// No two kinds of message have the same number.
pub proof fn law_id_numbers_differ(a: MessageId, b: MessageId)
    requires
        id_number(a) == id_number(b),
    ensures
        a == b,
{
}

/// Three numbers of 32 bits.
pub open spec fn three(a: u32, b: u32, c: u32) -> Seq<u8> {
    bytes::be32(a) + bytes::be32(b) + bytes::be32(c)
}

/// How a message is written: the length of what follows, the number of its
/// kind, its payload. A message of an unknown kind is written as a keep-alive.
pub open spec fn encoded(m: Message) -> Seq<u8> {
    match m {
        Message::KeepAlive => seq![0u8, 0, 0, 0],
        Message::Choke => seq![0u8, 0, 0, 1, 0],
        Message::Unchoke => seq![0u8, 0, 0, 1, 1],
        Message::Interested => seq![0u8, 0, 0, 1, 2],
        Message::NotInterested => seq![0u8, 0, 0, 1, 3],
        Message::Have(index) => seq![0u8, 0, 0, 5, 4] + bytes::be32(index),
        Message::Bitfield(bits) => bytes::be32((1 + bytes::low32(bits.len() as int)) as u32)
            + seq![5u8] + bits,
        Message::Request(index, begin, length) => seq![0u8, 0, 0, 13, 6] + three(
            index,
            begin,
            length,
        ),
        Message::Piece(index, begin, data) => bytes::be32(
            (9 + bytes::low32(data.len() as int)) as u32,
        ) + seq![7u8] + bytes::be32(index) + bytes::be32(begin) + data,
        Message::Cancel(index, begin, length) => seq![0u8, 0, 0, 13, 8] + three(
            index,
            begin,
            length,
        ),
        Message::Unknown(_) => seq![0u8, 0, 0, 0],
    }
}

/// Whether the length in front of a written message is a number of 32 bits.
pub open spec fn length_fits(m: Message) -> bool {
    match m {
        Message::Bitfield(bits) => 1 + bytes::low32(bits.len() as int) <= u32::MAX,
        Message::Piece(_, _, data) => 9 + bytes::low32(data.len() as int) <= u32::MAX,
        _ => true,
    }
}

/// The number of 32 bits at `at` in a payload.
pub open spec fn word(payload: Seq<u8>, at: int) -> u32 {
    bytes::be32_value(payload.subrange(at, at + 4)) as u32
}

/// The message of the kind numbered `id` with the payload, or what is wrong
/// with the payload.
pub open spec fn decoded(id: u8, payload: Seq<u8>) -> Result<Message, Seq<char>> {
    if id == 0 {
        Ok(Message::Choke)
    } else if id == 1 {
        Ok(Message::Unchoke)
    } else if id == 2 {
        Ok(Message::Interested)
    } else if id == 3 {
        Ok(Message::NotInterested)
    } else if id == 4 {
        if payload.len() < 4 {
            Err("have message too short"@)
        } else {
            Ok(Message::Have(word(payload, 0)))
        }
    } else if id == 5 {
        Ok(Message::Bitfield(payload))
    } else if id == 6 {
        if payload.len() < 12 {
            Err("request message too short"@)
        } else {
            Ok(Message::Request(word(payload, 0), word(payload, 4), word(payload, 8)))
        }
    } else if id == 7 {
        if payload.len() < 8 {
            Err("piece message too short"@)
        } else {
            Ok(Message::Piece(word(payload, 0), word(payload, 4), payload.skip(8)))
        }
    } else if id == 8 {
        if payload.len() < 12 {
            Err("cancel message too short"@)
        } else {
            Ok(Message::Cancel(word(payload, 0), word(payload, 4), word(payload, 8)))
        }
    } else {
        Ok(Message::Unknown(id))
    }
}

/// The length and the kind of a message of fixed length.
fn header(length: u8, id: u8) -> (out: Vec<u8>)
    ensures
        out@ == seq![0u8, 0, 0, length, id],
{
    let mut out: Vec<u8> = Vec::new();
    out.push(0);
    out.push(0);
    out.push(0);
    out.push(length);
    out.push(id);
    assert(out@ =~= seq![0u8, 0, 0, length, id]);
    out
}

/// A message with three numbers.
fn three_words(id: u8, a: u32, b: u32, c: u32) -> (out: Vec<u8>)
    ensures
        out@ == seq![0u8, 0, 0, 13, id] + three(a, b, c),
{
    let mut out = header(13, id);
    push_be32(&mut out, a);
    push_be32(&mut out, b);
    push_be32(&mut out, c);
    assert(out@ =~= seq![0u8, 0, 0, 13, id] + three(a, b, c));
    out
}

/// A message without content.
fn empty_frame() -> (out: Vec<u8>)
    ensures
        out@ == seq![0u8, 0, 0, 0],
{
    let mut out: Vec<u8> = Vec::new();
    push_be32(&mut out, 0);
    assert(out@ =~= seq![0u8, 0, 0, 0]);
    out
}

/// Writes a message.
pub fn encode_message(msg: &PeerMessage) -> (out: Vec<u8>)
    requires
        length_fits(msg@),
    ensures
        out@ == encoded(msg@),
        *msg is KeepAlive || *msg is Unknown <==> out@.len() == 4,
        *msg is Choke <==> out@.len() > 4 && out@[4] == 0,
        *msg is Unchoke <==> out@.len() > 4 && out@[4] == 1,
        *msg is Interested <==> out@.len() > 4 && out@[4] == 2,
        *msg is NotInterested <==> out@.len() > 4 && out@[4] == 3,
        *msg is Have <==> out@.len() > 4 && out@[4] == 4,
        *msg is Bitfield <==> out@.len() > 4 && out@[4] == 5,
        *msg is Request <==> out@.len() > 4 && out@[4] == 6,
        *msg is Piece <==> out@.len() > 4 && out@[4] == 7,
        *msg is Cancel <==> out@.len() > 4 && out@[4] == 8,
{
    match msg {
        PeerMessage::KeepAlive => empty_frame(),
        PeerMessage::Choke => header(1, 0),
        PeerMessage::Unchoke => header(1, 1),
        PeerMessage::Interested => header(1, 2),
        PeerMessage::NotInterested => header(1, 3),
        PeerMessage::Have(index) => {
            let mut out = header(5, 4);
            push_be32(&mut out, *index);
            out
        },
        PeerMessage::Bitfield(bits) => {
            let mut out: Vec<u8> = Vec::new();
            push_be32(&mut out, 1 + low_word(bits.len()));
            out.push(5);
            push_bytes(&mut out, bits.as_slice());
            assert(out@ =~= encoded(msg@));
            out
        },
        PeerMessage::Request(index, begin, length) => three_words(6, *index, *begin, *length),
        PeerMessage::Piece(index, begin, data) => {
            let mut out: Vec<u8> = Vec::new();
            push_be32(&mut out, 9 + low_word(data.len()));
            out.push(7);
            push_be32(&mut out, *index);
            push_be32(&mut out, *begin);
            push_bytes(&mut out, data.as_slice());
            assert(out@ =~= encoded(msg@));
            out
        },
        PeerMessage::Cancel(index, begin, length) => three_words(8, *index, *begin, *length),
        PeerMessage::Unknown(_) => empty_frame(),
    }
}

/// Reads a message of the kind numbered `id`.
pub fn decode_message(id: u8, payload: &[u8]) -> (result: Result<PeerMessage, String>)
    ensures
        match result {
            Ok(m) => decoded(id, payload@) == Ok::<_, Seq<char>>(m@),
            Err(e) => decoded(id, payload@) == Err::<Message, _>(e@),
        },
        id == 0 <==> result matches Ok(PeerMessage::Choke),
        id == 1 <==> result matches Ok(PeerMessage::Unchoke),
        id == 2 <==> result matches Ok(PeerMessage::Interested),
        id == 3 <==> result matches Ok(PeerMessage::NotInterested),
        id == 4 && payload@.len() >= 4 <==> result matches Ok(PeerMessage::Have(_)),
        id == 5 <==> result matches Ok(PeerMessage::Bitfield(_)),
        id == 6 && payload@.len() >= 12 <==> result matches Ok(PeerMessage::Request(_, _, _)),
        id == 7 && payload@.len() >= 8 <==> result matches Ok(PeerMessage::Piece(_, _, _)),
        id == 8 && payload@.len() >= 12 <==> result matches Ok(PeerMessage::Cancel(_, _, _)),
        id > 8 <==> result matches Ok(PeerMessage::Unknown(_)),
{
    match MessageId::from_u8(id) {
        Some(MessageId::Choke) => Ok(PeerMessage::Choke),
        Some(MessageId::Unchoke) => Ok(PeerMessage::Unchoke),
        Some(MessageId::Interested) => Ok(PeerMessage::Interested),
        Some(MessageId::NotInterested) => Ok(PeerMessage::NotInterested),
        Some(MessageId::Have) => {
            if payload.len() < 4 {
                return Err("have message too short".to_string());
            }
            Ok(PeerMessage::Have(read_be32(payload, 0)))
        },
        Some(MessageId::Bitfield) => Ok(PeerMessage::Bitfield(copy_bytes(payload))),
        Some(MessageId::Request) => {
            if payload.len() < 12 {
                return Err("request message too short".to_string());
            }
            Ok(
                PeerMessage::Request(
                    read_be32(payload, 0),
                    read_be32(payload, 4),
                    read_be32(payload, 8),
                ),
            )
        },
        Some(MessageId::Piece) => {
            if payload.len() < 8 {
                return Err("piece message too short".to_string());
            }
            let data = slice_subrange(payload, 8, payload.len());
            assert(data@ =~= payload@.skip(8));
            Ok(PeerMessage::Piece(read_be32(payload, 0), read_be32(payload, 4), copy_bytes(data)))
        },
        Some(MessageId::Cancel) => {
            if payload.len() < 12 {
                return Err("cancel message too short".to_string());
            }
            Ok(
                PeerMessage::Cancel(
                    read_be32(payload, 0),
                    read_be32(payload, 4),
                    read_be32(payload, 8),
                ),
            )
        },
        None => Ok(PeerMessage::Unknown(id)),
    }
}

} // verus!
