use torentino_pure::peer::message::{decode_message, encode_message, MessageId, PeerMessage};
use torentino_pure::peer::{
    decode_frame, frame_length, handshake, handshake_matches, receive, Received, BLOCK_SIZE,
    HANDSHAKE_LEN,
};

fn shown(m: &PeerMessage) -> String {
    format!("{m:?}")
}

fn read_back(m: PeerMessage) {
    let bytes = encode_message(&m);
    let prefix = [bytes[0], bytes[1], bytes[2], bytes[3]];
    assert_eq!(frame_length(&prefix) as usize, bytes.len() - 4);
    let back = decode_frame(&bytes[4..]).unwrap();
    assert_eq!(shown(&back), shown(&m));
}

#[test]
fn messages_are_read_back() {
    read_back(PeerMessage::KeepAlive);
    read_back(PeerMessage::Choke);
    read_back(PeerMessage::Unchoke);
    read_back(PeerMessage::Interested);
    read_back(PeerMessage::NotInterested);
    read_back(PeerMessage::Have(0x01020304));
    read_back(PeerMessage::Bitfield(vec![0xff, 0x80]));
    read_back(PeerMessage::Request(1, 16384, 16384));
    read_back(PeerMessage::Piece(1, 16384, vec![1, 2, 3]));
    read_back(PeerMessage::Cancel(1, 2, 3));
}

#[test]
fn messages_are_taken_from_a_stream() {
    let first = encode_message(&PeerMessage::Have(7));
    let mut stream = first.clone();
    stream.extend(encode_message(&PeerMessage::KeepAlive));
    for ended in [false, true] {
        match receive(&stream, ended) {
            Received::Message(m, taken) => {
                assert_eq!(shown(&m), "Have(7)");
                assert_eq!(taken, first.len());
                assert!(matches!(
                    receive(&stream[taken..], ended),
                    Received::Message(PeerMessage::KeepAlive, 4)
                ));
            }
            other => panic!("{other:?}"),
        }
    }
    for n in 0..first.len() {
        let wanted = if n < 4 { 4 - n } else { first.len() - n };
        match receive(&first[..n], false) {
            Received::More(k) => assert_eq!(k, wanted),
            other => panic!("{other:?}"),
        }
    }
    assert!(matches!(receive(&[], true), Received::Ended));
    assert!(matches!(receive(&first[..3], true), Received::Ended));
    assert!(matches!(receive(&first[..4], true), Received::Cut));
    assert!(matches!(receive(&first[..8], true), Received::Cut));
    match receive(&[0, 0, 0, 2, 4, 0], false) {
        Received::Bad(why) => assert_eq!(why, "have message too short"),
        other => panic!("{other:?}"),
    }
}

#[test]
fn messages_are_written_exactly() {
    assert_eq!(encode_message(&PeerMessage::KeepAlive), vec![0, 0, 0, 0]);
    assert_eq!(encode_message(&PeerMessage::Unchoke), vec![0, 0, 0, 1, 1]);
    assert_eq!(
        encode_message(&PeerMessage::Have(258)),
        vec![0, 0, 0, 5, 4, 0, 0, 1, 2]
    );
    assert_eq!(
        encode_message(&PeerMessage::Bitfield(vec![9])),
        vec![0, 0, 0, 2, 5, 9]
    );
    assert_eq!(
        encode_message(&PeerMessage::Request(1, 2, 3)),
        vec![0, 0, 0, 13, 6, 0, 0, 0, 1, 0, 0, 0, 2, 0, 0, 0, 3]
    );
    assert_eq!(
        encode_message(&PeerMessage::Piece(1, 2, vec![7])),
        vec![0, 0, 0, 10, 7, 0, 0, 0, 1, 0, 0, 0, 2, 7]
    );
    assert_eq!(encode_message(&PeerMessage::Unknown(20)), vec![0, 0, 0, 0]);
}

#[test]
fn short_messages_are_refused() {
    assert_eq!(
        decode_message(4, &[0, 0, 0]).unwrap_err(),
        "have message too short"
    );
    assert_eq!(
        decode_message(6, &[0; 11]).unwrap_err(),
        "request message too short"
    );
    assert_eq!(
        decode_message(7, &[0; 7]).unwrap_err(),
        "piece message too short"
    );
    assert_eq!(
        decode_message(8, &[0; 11]).unwrap_err(),
        "cancel message too short"
    );
}

#[test]
fn unknown_messages_are_kept_apart() {
    assert_eq!(shown(&decode_message(20, &[1]).unwrap()), "Unknown(20)");
    assert_eq!(shown(&decode_message(9, &[]).unwrap()), "Unknown(9)");
}

#[test]
fn message_numbers() {
    for n in 0..9u8 {
        assert_eq!(MessageId::from_u8(n).unwrap().to_u8(), n);
    }
    assert!(MessageId::from_u8(9).is_none());
    assert_eq!(MessageId::from_u8(7), Some(MessageId::Piece));
}

#[test]
fn handshake_names_the_torrent() {
    let h = handshake(&[7; 20], &[9; 20]);
    assert_eq!(h.len(), HANDSHAKE_LEN);
    assert_eq!(h[0], 19);
    assert_eq!(&h[1..20], b"BitTorrent protocol");
    assert_eq!(&h[20..28], &[0; 8]);
    assert_eq!(&h[28..48], &[7; 20]);
    assert_eq!(&h[48..], &[9; 20]);
    assert!(handshake_matches(&h, &[7; 20]));
    assert!(!handshake_matches(&h, &[9; 20]));
}

#[test]
fn blocks_have_sixteen_kibibytes() {
    assert_eq!(BLOCK_SIZE, 16 * 1024);
}
