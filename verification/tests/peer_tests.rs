use bittorrent_starter_rust::peer::{
    FrameError, Handshake, HandshakeError, Message, MessageFramer, MessageId,
};
use bytes::BytesMut;

#[test]
fn test_bytes_mut() {
    let info_hash = [
        0xd6, 0x9f, 0x91, 0xe6, 0xb2, 0xae, 0x4c, 0x54, 0x24, 0x68, 0xd1, 0x07, 0x3a, 0x71, 0xd4,
        0xea, 0x13, 0x87, 0x9a, 0x7f,
    ];
    let handshake = Handshake::new(info_hash, *b"-0-1-2-3-4-5-6-7-8-9");
    let bytes = handshake.to_btyes();
    println!("{:?}", bytes);
    assert_eq!(bytes.len(), 68);
}

#[test]
fn handshake_record_layout() {
    let h = Handshake::new([7u8; 20], *b"00112233445566778899");
    assert_eq!(h.length, 19);
    assert_eq!(&h.bittorrent, b"BitTorrent protocol");
    assert_eq!(h.reserved, [0u8; 8]);
    let bytes = h.to_btyes();
    assert_eq!(bytes[0], 19);
    assert_eq!(&bytes[1..20], b"BitTorrent protocol");
    assert_eq!(&bytes[20..28], &[0u8; 8]);
    assert_eq!(&bytes[28..48], &[7u8; 20]);
    assert_eq!(&bytes[48..68], b"00112233445566778899");
}

#[test]
fn handshake_reads_back_what_it_wrote() {
    let h = Handshake::new([9u8; 20], *b"abcdefghijklmnopqrst");
    let back = Handshake::from_bytes(&h.to_btyes());
    assert_eq!(back.length, 19);
    assert_eq!(back.bittorrent, h.bittorrent);
    assert_eq!(back.reserved, [0u8; 8]);
    assert_eq!(back.info_hash, [9u8; 20]);
    assert_eq!(&back.peer_id, b"abcdefghijklmnopqrst");
}

#[test]
fn handshake_reply_is_checked() {
    let ours = Handshake::new([1u8; 20], *b"-0-1-2-3-4-5-6-7-8-9");
    let theirs = Handshake::new([1u8; 20], *b"remote-peer-id-00001");
    assert_eq!(ours.check_reply(&theirs.to_btyes()), Ok(*b"remote-peer-id-00001"));
    let other = Handshake::new([2u8; 20], *b"remote-peer-id-00001");
    assert_eq!(ours.check_reply(&other.to_btyes()), Err(HandshakeError::InfoHashMismatch));
    assert_eq!(ours.check_reply(&theirs.to_btyes()[..67]), Err(HandshakeError::Truncated));
    let mut wrong = theirs.to_btyes();
    wrong[0] = 18;
    assert_eq!(ours.check_reply(&wrong), Err(HandshakeError::WrongProtocol));
}

#[test]
fn message_ids_on_the_wire() {
    let all = [
        (MessageId::Choke, 0u8),
        (MessageId::Unchoke, 1),
        (MessageId::Interested, 2),
        (MessageId::NotInterested, 3),
        (MessageId::Have, 4),
        (MessageId::Bitfield, 5),
        (MessageId::Request, 6),
        (MessageId::Piece, 7),
        (MessageId::Cancel, 9),
    ];
    for (id, byte) in all {
        assert_eq!(id.to_byte(), byte);
        assert_eq!(MessageId::from_byte(byte), Some(id));
    }
    assert_eq!(MessageId::from_byte(8), None);
    assert_eq!(MessageId::from_byte(10), None);
    assert_eq!(MessageId::from_byte(255), None);
}

#[test]
fn framer_needs_four_bytes() {
    let mut framer = MessageFramer;
    let mut buf = BytesMut::from(&[0u8, 0, 0][..]);
    assert!(framer.decode(&mut buf).unwrap().is_none());
    assert_eq!(&buf[..], &[0u8, 0, 0]);
}

#[test]
fn framer_skips_keep_alive_across_deliveries() {
    let mut framer = MessageFramer;
    let mut buf = BytesMut::new();
    buf.extend_from_slice(&[0, 0, 0, 0]);
    assert!(framer.decode(&mut buf).unwrap().is_none());
    assert!(buf.is_empty());
    buf.extend_from_slice(&[0, 0, 0, 1, 1]);
    let msg = framer.decode(&mut buf).unwrap().unwrap();
    assert_eq!(msg.id, MessageId::Unchoke);
    assert!(msg.payload.is_empty());
    assert!(buf.is_empty());
    assert!(framer.decode(&mut buf).unwrap().is_none());
}

#[test]
fn framer_skips_keep_alive_before_a_buffered_message() {
    let mut framer = MessageFramer;
    let mut buf = BytesMut::from(&[0u8, 0, 0, 0, 0, 0, 0, 0, 0, 0, 0, 1, 1, 0, 0][..]);
    let msg = framer.decode(&mut buf).unwrap().unwrap();
    assert_eq!(msg.id, MessageId::Unchoke);
    assert_eq!(&buf[..], &[0u8, 0]);
}

#[test]
fn framer_keeps_a_partial_frame() {
    let mut framer = MessageFramer;
    let mut buf = BytesMut::new();
    buf.extend_from_slice(&[0, 0, 0]);
    assert!(framer.decode(&mut buf).unwrap().is_none());
    assert_eq!(buf.len(), 3);
    buf.extend_from_slice(&[5, 4, 0, 0]);
    assert!(framer.decode(&mut buf).unwrap().is_none());
    assert_eq!(buf.len(), 7);
    buf.extend_from_slice(&[0, 9, 0xaa]);
    let msg = framer.decode(&mut buf).unwrap().unwrap();
    assert_eq!(msg.id, MessageId::Have);
    assert_eq!(*msg.payload, vec![0u8, 0, 0, 9]);
    assert_eq!(&buf[..], &[0xaau8]);
}

#[test]
fn framer_refuses_a_frame_over_the_ceiling() {
    let mut framer = MessageFramer;
    let mut buf = BytesMut::from(&[0u8, 1, 0, 1][..]);
    assert_eq!(
        framer.decode(&mut buf).unwrap_err(),
        FrameError::TooLarge { length: 65537 }
    );
    assert_eq!(buf.len(), 4);
}

#[test]
fn framer_accepts_a_frame_at_the_ceiling() {
    let mut framer = MessageFramer;
    let mut buf = BytesMut::from(&[0u8, 1, 0, 0, 7][..]);
    assert!(framer.decode(&mut buf).unwrap().is_none());
    buf.extend_from_slice(&vec![3u8; 65535]);
    let msg = framer.decode(&mut buf).unwrap().unwrap();
    assert_eq!(msg.id, MessageId::Piece);
    assert_eq!(msg.payload.len(), 65535);
    assert!(buf.is_empty());
}

#[test]
fn framer_refuses_an_unknown_id() {
    let mut framer = MessageFramer;
    let mut buf = BytesMut::from(&[0u8, 0, 0, 1, 8][..]);
    assert_eq!(framer.decode(&mut buf).unwrap_err(), FrameError::InvalidId { id: 8 });
    assert_eq!(buf.len(), 5);
}

#[test]
fn framer_encodes_a_message() {
    let mut framer = MessageFramer;
    let mut buf = BytesMut::from(&[0xeeu8][..]);
    let msg = Message { id: MessageId::Request, payload: Box::new(vec![1, 2, 3]) };
    framer.encode(msg, &mut buf).unwrap();
    assert_eq!(&buf[..], &[0xeeu8, 0, 0, 0, 4, 6, 1, 2, 3]);
    let empty = Message { id: MessageId::Interested, payload: Box::new(Vec::new()) };
    let mut out = BytesMut::new();
    framer.encode(empty, &mut out).unwrap();
    assert_eq!(&out[..], &[0u8, 0, 0, 1, 2]);
}

#[test]
fn framer_refuses_to_encode_over_the_ceiling() {
    let mut framer = MessageFramer;
    let mut buf = BytesMut::new();
    let msg = Message { id: MessageId::Piece, payload: Box::new(vec![0u8; 65536]) };
    assert_eq!(framer.encode(msg, &mut buf).unwrap_err(), FrameError::TooLarge { length: 65537 });
    assert!(buf.is_empty());
    let msg = Message { id: MessageId::Piece, payload: Box::new(vec![0u8; 65535]) };
    framer.encode(msg, &mut buf).unwrap();
    assert_eq!(&buf[..5], &[0u8, 1, 0, 0, 7]);
    assert_eq!(buf.len(), 65540);
}

#[test]
fn framer_reads_back_what_it_wrote() {
    let mut framer = MessageFramer;
    let mut buf = BytesMut::new();
    let payload: Vec<u8> = (0..300u32).map(|i| (i % 251) as u8).collect();
    framer
        .encode(Message { id: MessageId::Bitfield, payload: Box::new(payload.clone()) }, &mut buf)
        .unwrap();
    buf.extend_from_slice(&[1, 2]);
    let msg = framer.decode(&mut buf).unwrap().unwrap();
    assert_eq!(msg.id, MessageId::Bitfield);
    assert_eq!(*msg.payload, payload);
    assert_eq!(&buf[..], &[1u8, 2]);
}

#[test]
fn framer_encodes_where_there_is_room() {
    let mut framer = MessageFramer;
    let mut buf = BytesMut::new();
    let msg = Message { id: MessageId::Have, payload: Box::new(vec![0, 0, 0, 2]) };
    assert_eq!(framer.encode_if_room(msg, &mut buf), Some(Ok(())));
    assert_eq!(&buf[..], &[0u8, 0, 0, 5, 4, 0, 0, 0, 2]);
    let big = Message { id: MessageId::Piece, payload: Box::new(vec![0u8; 65536]) };
    assert_eq!(
        framer.encode_if_room(big, &mut buf),
        Some(Err(FrameError::TooLarge { length: 65537 }))
    );
    assert_eq!(buf.len(), 9);
}
