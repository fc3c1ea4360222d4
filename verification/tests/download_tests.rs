use bittorrent_starter_rust::download::{
    block_count, block_size, piece_size, u32_from_be, u32_to_be, Phase, PieceAssemblyBuffer,
    PieceSession, Request, SessionError, Step, BLOCK_SIZE,
};
use bittorrent_starter_rust::hashing::read_vecu8_to_string;
use bittorrent_starter_rust::peer::{Message, MessageId};

const ABC_SHA1: [u8; 20] = [
    0xa9, 0x99, 0x3e, 0x36, 0x47, 0x06, 0x81, 0x6a, 0xba, 0x3e, 0x25, 0x71, 0x78, 0x50, 0xc2, 0x6c,
    0x9c, 0xd0, 0xd8, 0x9d,
];

fn message(id: MessageId, payload: Vec<u8>) -> Message {
    Message { id, payload: Box::new(payload) }
}

fn piece_payload(index: u32, begin: u32, block: &[u8]) -> Vec<u8> {
    let mut payload = Vec::new();
    payload.extend_from_slice(&index.to_be_bytes());
    payload.extend_from_slice(&begin.to_be_bytes());
    payload.extend_from_slice(block);
    payload
}

fn sent(step: Step) -> Message {
    match step {
        Step::Send(m) => m,
        other => panic!("nothing to send: {:?}", other),
    }
}

#[test]
fn final_piece_is_shorter() {
    let size = piece_size(1048576 + 100, 1048576, 1, 2);
    assert_eq!(size, 100);
    assert_eq!(block_count(size), 1);
    assert_eq!(block_size(size, 0), 100);
    assert!(block_size(size, 0) < BLOCK_SIZE);
}

#[test]
fn piece_sizes() {
    assert_eq!(piece_size(1048576 + 100, 1048576, 0, 2), 1048576);
    assert_eq!(piece_size(2 * 1048576, 1048576, 1, 2), 1048576);
    assert_eq!(piece_size(92063, 32768, 2, 3), 26527);
    assert_eq!(piece_size(92063, 32768, 1, 3), 32768);
}

#[test]
fn block_counts_and_sizes() {
    assert_eq!(block_count(0), 0);
    assert_eq!(block_count(1), 1);
    assert_eq!(block_count(16384), 1);
    assert_eq!(block_count(16385), 2);
    assert_eq!(block_count(32768), 2);
    assert_eq!(block_size(32768, 0), 16384);
    assert_eq!(block_size(32768, 1), 16384);
    assert_eq!(block_size(26527, 0), 16384);
    assert_eq!(block_size(26527, 1), 10143);
}

#[test]
fn big_endian_words() {
    assert_eq!(u32_to_be(0x01020304), [1, 2, 3, 4]);
    assert_eq!(u32_to_be(16384), [0, 0, 0x40, 0]);
    assert_eq!(u32_from_be(&[0xff, 0xff, 0xff, 0xff]), u32::MAX);
    assert_eq!(u32_from_be(&[0, 0, 1, 2]), 258);
}

#[test]
fn request_fields_and_bytes() {
    let mut r = Request::new(3, 16384, 10143);
    assert_eq!(r.index(), 3);
    assert_eq!(r.begin(), 16384);
    assert_eq!(r.length(), 10143);
    assert_eq!(r.as_bytes_mut(), vec![0, 0, 0, 3, 0, 0, 0x40, 0, 0, 0, 0x27, 0x9f]);
}

#[test]
fn session_downloads_and_verifies_a_piece() {
    let mut s = PieceSession::new(0, 3, ABC_SHA1);
    let m = sent(s.on_message(&message(MessageId::Bitfield, vec![0x80])));
    assert_eq!(m.id, MessageId::Interested);
    assert!(m.payload.is_empty());
    assert_eq!(s.phase, Phase::AwaitingUnchoke);
    let m = sent(s.on_message(&message(MessageId::Unchoke, Vec::new())));
    assert_eq!(m.id, MessageId::Request);
    assert_eq!(*m.payload, vec![0, 0, 0, 0, 0, 0, 0, 0, 0, 0, 0, 3]);
    assert_eq!(s.phase, Phase::Requesting);
    match s.on_message(&message(MessageId::Piece, piece_payload(0, 0, b"abc"))) {
        Step::Complete(bytes) => assert_eq!(bytes, b"abc".to_vec()),
        other => panic!("not complete: {:?}", other),
    }
    assert_eq!(s.phase, Phase::Done);
}

#[test]
fn session_refuses_a_piece_with_the_wrong_digest() {
    let mut s = PieceSession::new(0, 3, ABC_SHA1);
    sent(s.on_message(&message(MessageId::Bitfield, vec![0x80])));
    sent(s.on_message(&message(MessageId::Unchoke, Vec::new())));
    match s.on_message(&message(MessageId::Piece, piece_payload(0, 0, b"abd"))) {
        Step::Abort(e) => assert_eq!(e, SessionError::Integrity),
        other => panic!("not refused: {:?}", other),
    }
    assert_eq!(s.phase, Phase::Failed);
}

#[test]
fn session_requests_blocks_in_ascending_order() {
    let size: u32 = 16384 + 100;
    let mut s = PieceSession::new(5, size, [0u8; 20]);
    sent(s.on_message(&message(MessageId::Bitfield, Vec::new())));
    let m = sent(s.on_message(&message(MessageId::Unchoke, Vec::new())));
    assert_eq!(*m.payload, vec![0, 0, 0, 5, 0, 0, 0, 0, 0, 0, 0x40, 0]);
    let m = sent(s.on_message(&message(MessageId::Piece, piece_payload(5, 0, &[1u8; 16384]))));
    assert_eq!(m.id, MessageId::Request);
    assert_eq!(*m.payload, vec![0, 0, 0, 5, 0, 0, 0x40, 0, 0, 0, 0, 100]);
    assert_eq!(s.buffer.data.len(), 16384);
    match s.on_message(&message(MessageId::Piece, piece_payload(5, 16384, &[2u8; 100]))) {
        Step::Abort(e) => assert_eq!(e, SessionError::Integrity),
        other => panic!("not refused: {:?}", other),
    }
}

#[test]
fn session_refuses_unexpected_messages() {
    let mut s = PieceSession::new(0, 3, ABC_SHA1);
    match s.on_message(&message(MessageId::Unchoke, Vec::new())) {
        Step::Abort(e) => assert_eq!(e, SessionError::Protocol),
        other => panic!("not refused: {:?}", other),
    }
    assert_eq!(s.phase, Phase::Failed);

    let mut s = PieceSession::new(0, 3, ABC_SHA1);
    sent(s.on_message(&message(MessageId::Bitfield, Vec::new())));
    match s.on_message(&message(MessageId::Have, vec![0, 0, 0, 1])) {
        Step::Abort(e) => assert_eq!(e, SessionError::Protocol),
        other => panic!("not refused: {:?}", other),
    }

    let mut s = PieceSession::new(0, 3, ABC_SHA1);
    sent(s.on_message(&message(MessageId::Bitfield, Vec::new())));
    match s.on_message(&message(MessageId::Unchoke, vec![1])) {
        Step::Abort(e) => assert_eq!(e, SessionError::Protocol),
        other => panic!("not refused: {:?}", other),
    }
}

#[test]
fn session_refuses_a_block_that_was_not_asked_for() {
    let cases: Vec<Vec<u8>> = vec![
        piece_payload(1, 0, b"abc"),
        piece_payload(0, 1, b"abc"),
        piece_payload(0, 0, b"ab"),
        piece_payload(0, 0, b"abcd"),
        vec![0, 0, 0, 0, 0, 0, 0],
    ];
    for payload in cases {
        let mut s = PieceSession::new(0, 3, ABC_SHA1);
        sent(s.on_message(&message(MessageId::Bitfield, Vec::new())));
        sent(s.on_message(&message(MessageId::Unchoke, Vec::new())));
        match s.on_message(&message(MessageId::Piece, payload)) {
            Step::Abort(e) => assert_eq!(e, SessionError::Protocol),
            other => panic!("not refused: {:?}", other),
        }
        assert!(s.buffer.data.is_empty());
    }
}

#[test]
fn session_stays_closed_once_done() {
    let mut s = PieceSession::new(0, 3, ABC_SHA1);
    sent(s.on_message(&message(MessageId::Bitfield, Vec::new())));
    sent(s.on_message(&message(MessageId::Unchoke, Vec::new())));
    s.on_message(&message(MessageId::Piece, piece_payload(0, 0, b"abc")));
    match s.on_message(&message(MessageId::Piece, piece_payload(0, 0, b"abc"))) {
        Step::Abort(e) => assert_eq!(e, SessionError::Protocol),
        other => panic!("not refused: {:?}", other),
    }
    assert_eq!(s.phase, Phase::Done);
    assert_eq!(s.buffer.data, b"abc".to_vec());
}

#[test]
fn text_of_a_byte_string() {
    assert_eq!(read_vecu8_to_string(b"hello"), Some("hello".to_string()));
    assert_eq!(
        read_vecu8_to_string(&[0xff]),
        Some("85e53271e14006f0265921d02d4d736cdc580b0b".to_string())
    );
}

#[test]
fn assembly_buffer_fills_block_by_block() {
    let mut b = PieceAssemblyBuffer::new(16384 + 100);
    assert_eq!(b.filled(), 0);
    assert!(!b.is_complete());
    assert_eq!(b.next_block_len(), 16384);
    b.append(&[1u8; 16384]);
    assert_eq!(b.filled(), 16384);
    assert!(!b.is_complete());
    assert_eq!(b.next_block_len(), 100);
    b.append(&[2u8; 100]);
    assert_eq!(b.filled(), 16484);
    assert!(b.is_complete());
    assert_eq!(b.next_block_len(), 0);
    assert_eq!(b.data[16383], 1);
    assert_eq!(b.data[16384], 2);
}

#[test]
fn assembly_buffer_of_an_empty_piece_is_complete() {
    let b = PieceAssemblyBuffer::new(0);
    assert!(b.is_complete());
    assert_eq!(b.filled(), 0);
}
