//! What holds of the bytes that peers exchange.
use vstd::prelude::*;
use vstd::utf8::*;

use crate::bytes;
use crate::peer;
use crate::peer::message;
use crate::peer::message::{Message, MessageId};
use crate::peer::ReceivedModel;

verus! {

/// The kinds of message have the numbers that all clients agree on.
pub proof fn law_kinds_numbered(id: MessageId)
    ensures
        id is Choke <==> message::id_number(id) == 0,
        id is Unchoke <==> message::id_number(id) == 1,
        id is Interested <==> message::id_number(id) == 2,
        id is NotInterested <==> message::id_number(id) == 3,
        id is Have <==> message::id_number(id) == 4,
        id is Bitfield <==> message::id_number(id) == 5,
        id is Request <==> message::id_number(id) == 6,
        id is Piece <==> message::id_number(id) == 7,
        id is Cancel <==> message::id_number(id) == 8,
{
}

/// The fifth byte of a written message is the number of its kind; keep-alives end
/// before it.
pub proof fn law_messages_numbered(m: Message)
    ensures
        m is KeepAlive || m is Unknown <==> message::encoded(m).len() == 4,
        message::encoded(m).len() >= 4,
        m is Choke <==> message::encoded(m).len() > 4 && message::encoded(m)[4] == 0,
        m is Unchoke <==> message::encoded(m).len() > 4 && message::encoded(m)[4] == 1,
        m is Interested <==> message::encoded(m).len() > 4 && message::encoded(m)[4] == 2,
        m is NotInterested <==> message::encoded(m).len() > 4 && message::encoded(m)[4] == 3,
        m is Have <==> message::encoded(m).len() > 4 && message::encoded(m)[4] == 4,
        m is Bitfield <==> message::encoded(m).len() > 4 && message::encoded(m)[4] == 5,
        m is Request <==> message::encoded(m).len() > 4 && message::encoded(m)[4] == 6,
        m is Piece <==> message::encoded(m).len() > 4 && message::encoded(m)[4] == 7,
        m is Cancel <==> message::encoded(m).len() > 4 && message::encoded(m)[4] == 8,
{
}

/// What the four bytes at `at` denote, the highest first.
pub open spec fn four(s: Seq<u8>, at: int) -> int {
    s[at] * 16777216 + s[at + 1] * 65536 + s[at + 2] * 256 + s[at + 3]
}

/// Where the numbers of a message stand: the length of what follows in front,
/// behind the number of the kind first the piece, then where in it, then how much,
/// the highest byte of each first.
pub proof fn law_message_fields(m: Message)
    requires
        m matches Message::Bitfield(bits) ==> bits.len() + 1 <= u32::MAX,
        m matches Message::Piece(_, _, data) ==> data.len() + 9 <= u32::MAX,
    ensures
        ({
            let s = message::encoded(m);
            &&& four(s, 0) == s.len() - 4
            &&& m is Choke || m is Unchoke || m is Interested || m is NotInterested ==> s.len() == 5
            &&& m matches Message::Have(index) ==> s.len() == 9 && four(s, 5) == index
            &&& m matches Message::Bitfield(bits) ==> s.skip(5) == bits
            &&& m matches Message::Request(index, begin, length) ==> {
                &&& s.len() == 17
                &&& four(s, 5) == index
                &&& four(s, 9) == begin
                &&& four(s, 13) == length
            }
            &&& m matches Message::Piece(index, begin, data) ==> {
                &&& s.len() >= 13
                &&& four(s, 5) == index
                &&& four(s, 9) == begin
                &&& s.skip(13) == data
            }
            &&& m matches Message::Cancel(index, begin, length) ==> {
                &&& s.len() == 17
                &&& four(s, 5) == index
                &&& four(s, 9) == begin
                &&& four(s, 13) == length
            }
        }),
{
    match m {
        Message::Have(index) => {
            lemma_word_at(seq![0u8, 0, 0, 5, 4], index, Seq::empty());
            assert(seq![0u8, 0, 0, 5, 4] + bytes::be32(index) + Seq::<u8>::empty()
                =~= message::encoded(m));
        },
        Message::Bitfield(bits) => {
            let front = bytes::be32((1 + bits.len()) as u32);
            lemma_word_at(Seq::empty(), (1 + bits.len()) as u32, seq![5u8] + bits);
            assert(Seq::<u8>::empty() + front + (seq![5u8] + bits) =~= message::encoded(m));
            assert(message::encoded(m).skip(5) =~= bits);
        },
        Message::Request(index, begin, length) => lemma_three_at(m, 6, index, begin, length),
        Message::Piece(index, begin, data) => lemma_piece_at(index, begin, data),
        Message::Cancel(index, begin, length) => lemma_three_at(m, 8, index, begin, length),
        _ => {},
    }
}

/// A number that is written between other bytes.
proof fn lemma_word_at(before: Seq<u8>, n: u32, after: Seq<u8>)
    ensures
        four(before + bytes::be32(n) + after, before.len() as int) == n,
{
    let s = before + bytes::be32(n) + after;
    let at = before.len() as int;
    bytes::lemma_be32_value(n);
    assert(s[at] == bytes::be32(n)[0]);
    assert(s[at + 1] == bytes::be32(n)[1]);
    assert(s[at + 2] == bytes::be32(n)[2]);
    assert(s[at + 3] == bytes::be32(n)[3]);
}

proof fn lemma_three_at(m: Message, id: u8, a: u32, b: u32, c: u32)
    requires
        (m == Message::Request(a, b, c) && id == 6) || (m == Message::Cancel(a, b, c) && id == 8),
    ensures
        ({
            let s = message::encoded(m);
            &&& s.len() == 17
            &&& four(s, 0) == 13
            &&& four(s, 5) == a
            &&& four(s, 9) == b
            &&& four(s, 13) == c
        }),
{
    let s = message::encoded(m);
    let head = seq![0u8, 0, 0, 13, id];
    let (x, y, z) = (bytes::be32(a), bytes::be32(b), bytes::be32(c));
    lemma_word_at(head, a, y + z);
    lemma_word_at(head + x, b, z);
    lemma_word_at(head + x + y, c, Seq::empty());
    assert(s =~= head + x + (y + z));
    assert(s =~= head + x + y + z);
    assert(s =~= head + x + y + z + Seq::<u8>::empty());
}

proof fn lemma_piece_at(index: u32, begin: u32, data: Seq<u8>)
    requires
        data.len() + 9 <= u32::MAX,
    ensures
        ({
            let s = message::encoded(Message::Piece(index, begin, data));
            &&& s.len() == 13 + data.len()
            &&& four(s, 0) == 9 + data.len()
            &&& four(s, 5) == index
            &&& four(s, 9) == begin
            &&& s.skip(13) == data
        }),
{
    let s = message::encoded(Message::Piece(index, begin, data));
    let n = (9 + data.len()) as u32;
    let (w, x, y) = (bytes::be32(n), bytes::be32(index), bytes::be32(begin));
    lemma_word_at(Seq::empty(), n, seq![7u8] + x + y + data);
    lemma_word_at(w + seq![7u8], index, y + data);
    lemma_word_at(w + seq![7u8] + x, begin, data);
    assert(s =~= Seq::<u8>::empty() + w + (seq![7u8] + x + y + data));
    assert(s =~= w + seq![7u8] + x + (y + data));
    assert(s.skip(13) =~= data);
}

/// A message is read by its number, and a message of a kind that is not known is
/// no error.
pub proof fn law_read_by_number(id: u8, payload: Seq<u8>)
    ensures
        ({
            let r = message::decoded(id, payload);
            &&& id == 0 <==> r == Ok::<_, Seq<char>>(Message::Choke)
            &&& id == 1 <==> r == Ok::<_, Seq<char>>(Message::Unchoke)
            &&& id == 2 <==> r == Ok::<_, Seq<char>>(Message::Interested)
            &&& id == 3 <==> r == Ok::<_, Seq<char>>(Message::NotInterested)
            &&& id == 4 && payload.len() >= 4 ==> r == Ok::<_, Seq<char>>(
                Message::Have(four(payload, 0) as u32),
            )
            &&& id == 5 ==> r == Ok::<_, Seq<char>>(Message::Bitfield(payload))
            &&& id == 6 && payload.len() >= 12 ==> r == Ok::<_, Seq<char>>(
                Message::Request(
                    four(payload, 0) as u32,
                    four(payload, 4) as u32,
                    four(payload, 8) as u32,
                ),
            )
            &&& id == 7 && payload.len() >= 8 ==> r == Ok::<_, Seq<char>>(
                Message::Piece(
                    four(payload, 0) as u32,
                    four(payload, 4) as u32,
                    payload.skip(8),
                ),
            )
            &&& id == 8 && payload.len() >= 12 ==> r == Ok::<_, Seq<char>>(
                Message::Cancel(
                    four(payload, 0) as u32,
                    four(payload, 4) as u32,
                    four(payload, 8) as u32,
                ),
            )
            &&& id > 8 ==> r == Ok::<_, Seq<char>>(Message::Unknown(id))
            &&& r is Err <==> {
                ||| id == 4 && payload.len() < 4
                ||| id == 6 && payload.len() < 12
                ||| id == 7 && payload.len() < 8
                ||| id == 8 && payload.len() < 12
            }
        }),
{
}

/// Where the parts of a handshake stand, byte by byte.
pub proof fn law_handshake_layout(info_hash: Seq<u8>, peer_id: Seq<u8>)
    requires
        info_hash.len() == 20,
        peer_id.len() == 20,
    ensures
        ({
            let s = peer::handshake_bytes(info_hash, peer_id);
            &&& s.len() == 68
            &&& s[0] == 19
            &&& s.subrange(1, 20) == seq![
                66u8, 105, 116, 84, 111, 114, 114, 101, 110, 116, 32,
                112, 114, 111, 116, 111, 99, 111, 108,
            ]
            &&& forall|k: int| 20 <= k < 28 ==> #[trigger] s[k] == 0
            &&& s.subrange(28, 48) == info_hash
            &&& s.subrange(48, 68) == peer_id
        }),
{
    reveal_strlit("BitTorrent protocol");
    is_ascii_chars_encode_utf8("BitTorrent protocol"@);
    let s = peer::handshake_bytes(info_hash, peer_id);
    let name = peer::protocol_name();
    assert forall|k: int| 0 <= k < 19 implies name[k] == ("BitTorrent protocol"@[k]) as u8 by {}
    assert(s.subrange(1, 20) =~= name);
    assert(name =~= seq![
        66u8, 105, 116, 84, 111, 114, 114, 101, 110, 116, 32,
        112, 114, 111, 116, 111, 99, 111, 108,
    ]);
    assert(s.subrange(28, 48) =~= info_hash);
    assert(s.subrange(48, 68) =~= peer_id);
}

/// A handshake is accepted exactly for the torrent that stands in it.
pub proof fn law_handshake_accepted(response: Seq<u8>, k: int)
    requires
        response.len() == 68,
        0 <= k < 20,
    ensures
        peer::handshake_info_hash(response).len() == 20,
        peer::handshake_info_hash(response)[k] == response[28 + k],
{
}

/// A frame that is there as a whole is taken as a whole: its length in front, its
/// content behind, whether or not the content can be read.
pub proof fn law_frame_taken(body: Seq<u8>, rest: Seq<u8>, ended: bool)
    requires
        body.len() <= u32::MAX,
    ensures
        peer::received(bytes::be32(body.len() as u32) + body + rest, ended) == if body.len() == 0 {
            ReceivedModel::Message(Message::KeepAlive, 4)
        } else {
            match message::decoded(body[0], body.skip(1)) {
                Ok(m) => ReceivedModel::Message(m, 4int + body.len()),
                Err(why) => ReceivedModel::Bad(why),
            }
        },
{
    let s = bytes::be32(body.len() as u32) + body + rest;
    bytes::lemma_be32_value(body.len() as u32);
    assert(s.take(4) =~= bytes::be32(body.len() as u32));
    assert(s.subrange(4, 4int + body.len()) =~= body);
}

/// A frame that is not there as a whole is waited for, exactly as many bytes as are
/// missing of its length or of what that announces; where the connection ends, it
/// ended between frames or within one.
pub proof fn law_frame_awaited(unread: Seq<u8>)
    ensures
        unread.len() < 4 ==> {
            &&& peer::received(unread, false) == ReceivedModel::More(4 - unread.len())
            &&& peer::received(unread, true) == ReceivedModel::Ended
        },
        unread.len() >= 4 && unread.len() < 4 + four(unread, 0) ==> {
            &&& peer::received(unread, false) == ReceivedModel::More(
                4 + four(unread, 0) - unread.len(),
            )
            &&& peer::received(unread, true) == ReceivedModel::Cut
        },
        unread.len() >= 4 && unread.len() >= 4 + four(unread, 0) ==> {
            ||| peer::received(unread, false) is Message
            ||| peer::received(unread, false) is Bad
        },
{
}

} // verus!
