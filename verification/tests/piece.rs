use torentino_pure::piece::{BlockRequest, PieceManager};

fn digest(hex: &str) -> [u8; 20] {
    let mut out = [0u8; 20];
    for (i, byte) in out.iter_mut().enumerate() {
        *byte = u8::from_str_radix(&hex[2 * i..2 * i + 2], 16).unwrap();
    }
    out
}

/// Two pieces, of 32768 and of 7232 bytes.
fn two_pieces() -> PieceManager {
    PieceManager::new(
        32768,
        40000,
        vec![
            digest("94b0a80707ea5daee9093efe9d9433533c4ce482"),
            digest("c6adf58139e2466ec763833ea847b07ea9bcc1a2"),
        ],
    )
}

fn request(piece_index: u32, begin: u32, length: u32) -> Option<BlockRequest> {
    Some(BlockRequest {
        piece_index,
        begin,
        length,
    })
}

#[test]
fn lengths_of_pieces() {
    let pm = two_pieces();
    assert_eq!(pm.total_pieces, 2);
    assert_eq!(pm.piece_length(0), 32768);
    assert_eq!(pm.piece_length(1), 7232);
    assert_eq!(pm.last_piece_length, 7232);
    let even = PieceManager::new(10, 20, vec![[0; 20], [0; 20]]);
    assert_eq!(even.piece_length(1), 10);
    assert_eq!(even.last_piece_length, 10);
    let none = PieceManager::new(0, 5, vec![]);
    assert_eq!(none.last_piece_length, 0);
    assert!(none.is_complete());
}

#[test]
fn requests_go_to_the_least_busy_piece() {
    let mut pm = two_pieces();
    let both = [0b1100_0000];
    assert_eq!(pm.next_request(0, &both), request(0, 0, 16384));
    assert_eq!(pm.next_request(0, &both), request(1, 0, 7232));
    assert_eq!(pm.next_request(0, &both), request(0, 16384, 16384));
    assert_eq!(pm.next_request(0, &both), None);
}

#[test]
fn requests_follow_what_the_peer_has() {
    let mut pm = two_pieces();
    assert!(pm.need_piece(&[0b0100_0000]));
    assert!(!pm.need_piece(&[0b0011_1111]));
    assert!(!pm.need_piece(&[]));
    assert_eq!(pm.next_request(0, &[0b0011_1111]), None);
    assert_eq!(pm.next_request(0, &[0b0100_0000]), request(1, 0, 7232));
    assert_eq!(pm.next_request(0, &[0b0100_0000]), None);
}

#[test]
fn blocks_are_put_together_in_any_order() {
    let mut pm = two_pieces();
    assert_eq!(pm.block_received(0, 16384, &[b'a'; 16384]), None);
    let piece = pm.block_received(0, 0, &[b'a'; 16384]).unwrap();
    assert_eq!(piece, vec![b'a'; 32768]);
    assert!(pm.verify_piece(0, &piece));
    assert!(!pm.verify_piece(1, &piece));
    pm.mark_complete(0, 32768);
    assert!(pm.has_piece(0));
    assert_eq!(pm.downloaded, 32768);
    assert_eq!(pm.completed_pieces(), 1);
    assert!(!pm.is_complete());
    assert_eq!(pm.block_received(0, 0, &[1]), None);
    assert_eq!(pm.next_request(0, &[0b1000_0000]), None);
}

#[test]
fn gaps_are_filled_with_zeros() {
    let mut pm = PieceManager::new(4, 4, vec![[0; 20]]);
    let piece = pm.block_received(0, 2, &[5]).unwrap();
    assert_eq!(piece, vec![0, 0, 5]);
}

#[test]
fn a_block_that_comes_twice_counts_once() {
    let mut pm = two_pieces();
    assert_eq!(pm.block_received(0, 0, &[1; 16384]), None);
    assert_eq!(pm.block_received(0, 0, &[b'a'; 16384]), None);
    let piece = pm.block_received(0, 16384, &[b'a'; 16384]).unwrap();
    assert!(pm.verify_piece(0, &piece));
}

#[test]
fn dropped_pieces_are_asked_for_again() {
    let mut pm = two_pieces();
    let first = [0b1000_0000];
    assert_eq!(pm.next_request(0, &first), request(0, 0, 16384));
    assert_eq!(pm.block_received(0, 0, &[0; 16384]), None);
    assert_eq!(pm.next_request(0, &first), request(0, 16384, 16384));
    pm.discard_piece(0);
    assert_eq!(pm.next_request(0, &first), request(0, 0, 16384));
    assert_eq!(pm.next_request(0, &first), request(0, 16384, 16384));
    pm.discard_piece(99);
}

#[test]
fn pieces_on_disk_are_counted() {
    let mut pm = two_pieces();
    let restored = pm.resume_from(|index, length| {
        if index == 0 {
            Some(vec![b'a'; length as usize])
        } else {
            Some(vec![b'x'; length as usize])
        }
    });
    assert_eq!(restored, 1);
    assert_eq!(pm.downloaded, 32768);
    assert!(pm.has_piece(0));
    assert!(!pm.has_piece(1));
    assert_eq!(pm.resume_from(|_, _| None), 0);
    let last = pm.resume_from(|index, length| {
        assert_eq!((index, length), (1, 7232));
        Some(vec![b'b'; 7232])
    });
    assert_eq!(last, 1);
    assert!(pm.is_complete());
    assert_eq!(pm.downloaded, 40000);
}

#[test]
fn a_piece_of_the_wrong_length_is_not_restored() {
    let mut pm = two_pieces();
    assert!(!pm.restore_piece(0, Some(vec![b'a'; 32767])));
    assert!(!pm.restore_piece(0, None));
    assert!(pm.restore_piece(0, Some(vec![b'a'; 32768])));
    assert!(!pm.restore_piece(0, Some(vec![b'a'; 32768])));
}

#[test]
fn bits_are_counted_from_the_high_one() {
    assert!(PieceManager::peer_has_piece(&[0b1000_0000], 0));
    assert!(PieceManager::peer_has_piece(&[0, 0b0000_0001], 15));
    assert!(!PieceManager::peer_has_piece(&[0, 0b0000_0001], 14));
    assert!(!PieceManager::peer_has_piece(&[0xff], 8));
}

#[test]
fn pieces_that_do_not_exist_count_as_held() {
    let pm = two_pieces();
    assert!(pm.has_piece(2));
    assert!(pm.has_piece(u32::MAX));
    assert!(!pm.has_piece(1));
}

#[test]
fn requests_cover_a_piece_once() {
    let mut pm = PieceManager::new(16384 * 3 + 5, 16384 * 3 + 5, vec![[0; 20]]);
    let mut next = 0;
    while let Some(r) = pm.next_request(1, &[0x80]) {
        assert_eq!(r.begin, next);
        assert!(r.length > 0 && r.length <= 16384);
        next += r.length;
    }
    assert_eq!(next, 16384 * 3 + 5);
}

#[test]
fn all_blocks_are_handed_out_once() {
    let total = 16384 * 5 + 7;
    let mut pm = PieceManager::new(16384 * 2 + 1, total, vec![[0; 20]; 3]);
    let mut requests = vec![];
    while let Some(r) = pm.next_request(0, &[0b1110_0000]) {
        requests.push((r.piece_index, r.begin, r.length));
    }
    let mut sorted = requests.clone();
    sorted.sort();
    sorted.dedup();
    assert_eq!(sorted.len(), requests.len());
    assert_eq!(requests.len(), 3 + 3 + 2);
    assert_eq!(requests.iter().map(|r| r.2 as u64).sum::<u64>(), total);
    assert_eq!(pm.block_received(0, 0, &[0; 16384]), None);
    assert_eq!(pm.next_request(0, &[0b1110_0000]), None);
    pm.mark_complete(1, 1);
    assert_eq!(pm.next_request(0, &[0b1110_0000]), None);
    pm.discard_piece(0);
    assert_eq!(pm.next_request(0, &[0b1110_0000]), request(0, 0, 16384));
}

#[test]
fn requests_are_taken_back_by_peer() {
    let mut pm = PieceManager::new(16384 * 4, 16384 * 4, vec![[0; 20]]);
    assert_eq!(pm.next_request(1, &[0x80]), request(0, 0, 16384));
    assert_eq!(pm.next_request(2, &[0x80]), request(0, 16384, 16384));
    assert_eq!(pm.next_request(1, &[0x80]), request(0, 32768, 16384));
    pm.cancel_requests(1);
    assert_eq!(pm.next_request(3, &[0x80]), request(0, 0, 16384));
    assert_eq!(pm.next_request(3, &[0x80]), request(0, 32768, 16384));
    assert_eq!(pm.next_request(3, &[0x80]), request(0, 49152, 16384));
    assert_eq!(pm.next_request(3, &[0x80]), None);
    pm.cancel_requests(9);
    assert_eq!(pm.next_request(3, &[0x80]), None);
    assert!(pm.choice_fits(&[0x80]));
}
