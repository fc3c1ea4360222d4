//! The peer wire protocol: the handshake record and the length-prefixed frames.
use bytes::BytesMut;
use vstd::prelude::*;

verus! {

/// The largest frame body, message id included, that is sent or accepted.
pub const MAX: usize = 65536;

/// The length of a handshake record.
pub const HANDSHAKE_LEN: usize = 68;

// ---------------------------------------------------------------------------
// Handshake
// ---------------------------------------------------------------------------

#[derive(Debug)]
pub struct Handshake {
    pub length: u8,
    pub bittorrent: [u8; 19],
    pub reserved: [u8; 8],
    pub info_hash: [u8; 20],
    pub peer_id: [u8; 20],
}

/// Why a handshake reply is refused.
#[derive(Debug, Clone, Copy, PartialEq, Eq, Structural)]
pub enum HandshakeError {
    /// Fewer than 68 bytes arrived.
    Truncated,
    /// The protocol-name length is not 19.
    WrongProtocol,
    /// The reply names another info hash than the one sent.
    InfoHashMismatch,
}

/// The protocol name, "BitTorrent protocol" in ASCII.
pub open spec fn protocol_name() -> Seq<u8> {
    seq![
        66u8, 105u8, 116u8, 84u8, 111u8, 114u8, 114u8, 101u8, 110u8, 116u8, 32u8, 112u8, 114u8,
        111u8, 116u8, 111u8, 99u8, 111u8, 108u8,
    ]
}

/// The 68 bytes of a handshake on the wire. The reserved bytes are sent as zero.
pub open spec fn handshake_bytes(h: Handshake) -> Seq<u8> {
    seq![h.length] + h.bittorrent@ + Seq::new(8, |i: int| 0u8) + h.info_hash@ + h.peer_id@
}

impl Handshake {
    pub fn new(info_hash: [u8; 20], peer_id: [u8; 20]) -> (h: Self)
        ensures
            h.length == 19,
            h.bittorrent@ == protocol_name(),
            h.reserved@ == Seq::new(8, |i: int| 0u8),
            h.info_hash == info_hash,
            h.peer_id == peer_id,
    {
        let h = Self {
            length: 19,
            bittorrent: [
                66u8, 105u8, 116u8, 84u8, 111u8, 114u8, 114u8, 101u8, 110u8, 116u8, 32u8, 112u8,
                114u8, 111u8, 116u8, 111u8, 99u8, 111u8, 108u8,
            ],
            reserved: [0u8; 8],
            info_hash,
            peer_id,
        };
        assert(h.bittorrent@ =~= protocol_name());
        assert(h.reserved@ =~= Seq::new(8, |i: int| 0u8));
        h
    }

    pub fn to_btyes(&self) -> (bytes: [u8; 68])
        ensures
            bytes@ == handshake_bytes(*self),
    {
        let mut bytes = [0u8; 68];
        bytes[0] = self.length;
        let mut i: usize = 0;
        while i < 19
            invariant
                i <= 19,
                bytes@.len() == 68,
                bytes@[0] == self.length,
                forall|j: int| 0 <= j < i ==> bytes@[1 + j] == self.bittorrent@[j],
                forall|j: int| 20 <= j < 68 ==> bytes@[j] == 0u8,
            decreases 19 - i,
        {
            bytes[1 + i] = self.bittorrent[i];
            i = i + 1;
        }
        i = 0;
        while i < 20
            invariant
                i <= 20,
                bytes@.len() == 68,
                bytes@[0] == self.length,
                forall|j: int| 0 <= j < 19 ==> bytes@[1 + j] == self.bittorrent@[j],
                forall|j: int| 20 <= j < 28 ==> bytes@[j] == 0u8,
                forall|j: int| 0 <= j < i ==> bytes@[28 + j] == self.info_hash@[j],
                forall|j: int| 0 <= j < i ==> bytes@[48 + j] == self.peer_id@[j],
            decreases 20 - i,
        {
            bytes[28 + i] = self.info_hash[i];
            bytes[48 + i] = self.peer_id[i];
            i = i + 1;
        }
        assert(bytes@ =~= handshake_bytes(*self));
        bytes
    }

    pub fn from_bytes(bytes: &[u8]) -> (h: Self)
        requires
            bytes@.len() >= 68,
        ensures
            h.length == bytes@[0],
            h.bittorrent@ == bytes@.subrange(1, 20),
            h.reserved@ == bytes@.subrange(20, 28),
            h.info_hash@ == bytes@.subrange(28, 48),
            h.peer_id@ == bytes@.subrange(48, 68),
    {
        let mut h = Self {
            length: bytes[0],
            bittorrent: [0u8; 19],
            reserved: [0u8; 8],
            info_hash: [0u8; 20],
            peer_id: [0u8; 20],
        };
        let mut i: usize = 0;
        while i < 20
            invariant
                i <= 20,
                bytes@.len() >= 68,
                h.length == bytes@[0],
                forall|j: int| 0 <= j < i && j < 19 ==> h.bittorrent@[j] == bytes@[1 + j],
                forall|j: int| 0 <= j < i && j < 8 ==> h.reserved@[j] == bytes@[20 + j],
                forall|j: int| 0 <= j < i ==> h.info_hash@[j] == bytes@[28 + j],
                forall|j: int| 0 <= j < i ==> h.peer_id@[j] == bytes@[48 + j],
            decreases 20 - i,
        {
            if i < 19 {
                h.bittorrent[i] = bytes[1 + i];
            }
            if i < 8 {
                h.reserved[i] = bytes[20 + i];
            }
            h.info_hash[i] = bytes[28 + i];
            h.peer_id[i] = bytes[48 + i];
            i = i + 1;
        }
        assert(h.bittorrent@ =~= bytes@.subrange(1, 20));
        assert(h.reserved@ =~= bytes@.subrange(20, 28));
        assert(h.info_hash@ =~= bytes@.subrange(28, 48));
        assert(h.peer_id@ =~= bytes@.subrange(48, 68));
        h
    }

    /// Checks the peer's reply to this handshake and gives the peer's id.
    pub fn check_reply(&self, reply: &[u8]) -> (r: Result<[u8; 20], HandshakeError>)
        ensures
            match r {
                Ok(id) => reply@.len() >= 68 && reply@[0] == 19 && reply@.subrange(28, 48)
                    == self.info_hash@ && id@ == reply@.subrange(48, 68),
                Err(HandshakeError::Truncated) => reply@.len() < 68,
                Err(HandshakeError::WrongProtocol) => reply@.len() >= 68 && reply@[0] != 19,
                Err(HandshakeError::InfoHashMismatch) => reply@.len() >= 68 && reply@[0] == 19
                    && reply@.subrange(28, 48) != self.info_hash@,
            },
    {
        if reply.len() < 68 {
            return Err(HandshakeError::Truncated);
        }
        if reply[0] != 19 {
            return Err(HandshakeError::WrongProtocol);
        }
        let theirs = Handshake::from_bytes(reply);
        let mut i: usize = 0;
        while i < 20
            invariant
                i <= 20,
                reply@.len() >= 68,
                reply@[0] == 19,
                theirs.info_hash@ == reply@.subrange(28, 48),
                forall|j: int| 0 <= j < i ==> self.info_hash@[j] == reply@[28 + j],
            decreases 20 - i,
        {
            if self.info_hash[i] != theirs.info_hash[i] {
                assert(self.info_hash@[i as int] != theirs.info_hash@[i as int]);
                return Err(HandshakeError::InfoHashMismatch);
            }
            assert(theirs.info_hash@[i as int] == reply@.subrange(28, 48)[i as int]);
            i = i + 1;
        }
        assert(self.info_hash@ =~= reply@.subrange(28, 48));
        Ok(theirs.peer_id)
    }
}

// ---------------------------------------------------------------------------
// Messages
// ---------------------------------------------------------------------------

#[derive(Debug, Clone, Copy, PartialEq, Eq, Structural)]
pub enum MessageId {
    Choke,
    Unchoke,
    Interested,
    NotInterested,
    Have,
    Bitfield,
    Request,
    Piece,
    Cancel,
}

/// The byte that stands for a message id on the wire.
pub open spec fn id_byte(id: MessageId) -> u8 {
    match id {
        MessageId::Choke => 0,
        MessageId::Unchoke => 1,
        MessageId::Interested => 2,
        MessageId::NotInterested => 3,
        MessageId::Have => 4,
        MessageId::Bitfield => 5,
        MessageId::Request => 6,
        MessageId::Piece => 7,
        MessageId::Cancel => 9,
    }
}

/// The message id that a byte stands for, if any.
pub open spec fn id_of_byte(b: u8) -> Option<MessageId> {
    if b == 0 {
        Some(MessageId::Choke)
    } else if b == 1 {
        Some(MessageId::Unchoke)
    } else if b == 2 {
        Some(MessageId::Interested)
    } else if b == 3 {
        Some(MessageId::NotInterested)
    } else if b == 4 {
        Some(MessageId::Have)
    } else if b == 5 {
        Some(MessageId::Bitfield)
    } else if b == 6 {
        Some(MessageId::Request)
    } else if b == 7 {
        Some(MessageId::Piece)
    } else if b == 9 {
        Some(MessageId::Cancel)
    } else {
        None
    }
}

impl MessageId {
    pub fn to_byte(self) -> (b: u8)
        ensures
            b == id_byte(self),
            id_of_byte(b) == Some(self),
    {
        match self {
            MessageId::Choke => 0,
            MessageId::Unchoke => 1,
            MessageId::Interested => 2,
            MessageId::NotInterested => 3,
            MessageId::Have => 4,
            MessageId::Bitfield => 5,
            MessageId::Request => 6,
            MessageId::Piece => 7,
            MessageId::Cancel => 9,
        }
    }

    pub fn from_byte(b: u8) -> (id: Option<MessageId>)
        ensures
            id == id_of_byte(b),
    {
        match b {
            0 => Some(MessageId::Choke),
            1 => Some(MessageId::Unchoke),
            2 => Some(MessageId::Interested),
            3 => Some(MessageId::NotInterested),
            4 => Some(MessageId::Have),
            5 => Some(MessageId::Bitfield),
            6 => Some(MessageId::Request),
            7 => Some(MessageId::Piece),
            9 => Some(MessageId::Cancel),
            _ => None,
        }
    }
}

#[derive(Debug, Clone)]
pub struct Message {
    pub id: MessageId,
    pub payload: Box<Vec<u8>>,
}

/// Why a frame is refused.
#[derive(Debug, Clone, Copy, PartialEq, Eq, Structural)]
pub enum FrameError {
    /// The frame's body would be longer than `MAX`.
    TooLarge { length: usize },
    /// The byte in the id's place stands for no message.
    InvalidId { id: u8 },
}

// ---------------------------------------------------------------------------
// The byte buffer
// ---------------------------------------------------------------------------

/// `bytes::BytesMut`, the growable byte buffer that a framed connection reads
/// into and writes from. Nothing is known of what is inside one but through
/// `buffer_bytes`.
#[verifier::external_type_specification]
#[verifier::external_body]
pub struct ExBytesMut(bytes::BytesMut);

/// The bytes that a buffer holds, front first.
pub uninterp spec fn buffer_bytes(b: BytesMut) -> Seq<u8>;

/// `BytesMut::len`: the number of bytes that the buffer holds.
#[verifier::external_body]
fn buffer_len(src: &BytesMut) -> (n: usize)
    ensures
        n == buffer_bytes(*src).len(),
{
    src.len()
}

/// Indexing a `BytesMut` through its slice: the byte at position `i`.
#[verifier::external_body]
fn buffer_byte(src: &BytesMut, i: usize) -> (b: u8)
    requires
        i < buffer_bytes(*src).len(),
    ensures
        b == buffer_bytes(*src)[i as int],
{
    src[i]
}

/// Slicing a `BytesMut`: a copy of the bytes from `from` up to `to`.
#[verifier::external_body]
fn buffer_range(src: &BytesMut, from: usize, to: usize) -> (out: Vec<u8>)
    requires
        from <= to <= buffer_bytes(*src).len(),
    ensures
        out@ == buffer_bytes(*src).subrange(from as int, to as int),
{
    src[from..to].to_vec()
}

/// `Buf::advance` on a `BytesMut`: drops the first `n` bytes and keeps the rest.
#[verifier::external_body]
fn buffer_advance(src: &mut BytesMut, n: usize)
    requires
        n <= buffer_bytes(*old(src)).len(),
    ensures
        buffer_bytes(*final(src)) == buffer_bytes(*old(src)).skip(n as int),
{
    bytes::Buf::advance(src, n)
}

/// `BytesMut::extend_from_slice`: appends the given bytes behind those held.
/// It panics where the new length overflows; no allocation is larger than
/// `isize::MAX`, so lengths up to that are asked for.
#[verifier::external_body]
fn buffer_extend(dst: &mut BytesMut, more: &[u8])
    requires
        buffer_bytes(*old(dst)).len() + more@.len() <= isize::MAX,
    ensures
        buffer_bytes(*final(dst)) == buffer_bytes(*old(dst)) + more@,
{
    dst.extend_from_slice(more)
}

/// `BufMut::put_u8` on a `BytesMut`: appends one byte behind those held, by
/// way of `extend_from_slice`.
#[verifier::external_body]
fn buffer_put_u8(dst: &mut BytesMut, b: u8)
    requires
        buffer_bytes(*old(dst)).len() + 1 <= isize::MAX,
    ensures
        buffer_bytes(*final(dst)) == buffer_bytes(*old(dst)).push(b),
{
    bytes::BufMut::put_u8(dst, b)
}

// ---------------------------------------------------------------------------
// Framing
// ---------------------------------------------------------------------------

/// The number that four bytes hold, most significant byte first.
pub open spec fn be_value(b0: u8, b1: u8, b2: u8, b3: u8) -> int {
    b0 * 16777216 + b1 * 65536 + b2 * 256 + b3
}

/// The four bytes that hold `n`, most significant byte first.
pub open spec fn be_bytes(n: int) -> Seq<u8> {
    seq![
        (n / 16777216 % 256) as u8,
        (n / 65536 % 256) as u8,
        (n / 256 % 256) as u8,
        (n % 256) as u8,
    ]
}

/// Four bytes are the big-endian bytes of the number they hold.
pub proof fn lemma_be_bytes_of_value(b0: u8, b1: u8, b2: u8, b3: u8)
    ensures
        be_bytes(be_value(b0, b1, b2, b3)) == seq![b0, b1, b2, b3],
        0 <= be_value(b0, b1, b2, b3) <= u32::MAX,
{
    let x = be_value(b0, b1, b2, b3);
    let lo: int = b2 * 256 + b3;
    let mid: int = b1 * 65536 + lo;
    assert(0 <= lo < 65536);
    assert(0 <= mid < 16777216);
    assert(x == b0 * 16777216 + mid);
    assert(x / 16777216 == b0);
    assert(x / 65536 == b0 * 256 + b1);
    assert(x / 256 == b0 * 65536 + b1 * 256 + b2);
    assert(be_bytes(x) =~= seq![b0, b1, b2, b3]);
}

/// A message on the wire: the length of what follows, the id, the payload.
pub open spec fn frame_bytes(id: MessageId, payload: Seq<u8>) -> Seq<u8> {
    be_bytes(payload.len() as int + 1) + seq![id_byte(id)] + payload
}

/// What one attempt to take a message from a receive buffer comes to, `rest`
/// being what the buffer holds afterwards.
pub enum FrameOutcome {
    /// No whole frame is buffered yet.
    Incomplete { rest: Seq<u8> },
    /// A frame declares a body longer than `MAX`.
    TooLarge { length: int, rest: Seq<u8> },
    /// A whole frame is buffered, and its id byte stands for no message.
    InvalidId { byte: u8, rest: Seq<u8> },
    /// A message was taken from the front.
    Frame { id: MessageId, payload: Seq<u8>, rest: Seq<u8> },
}

/// Takes one message from the front of `buf`. Keep-alives, frames of length 0,
/// are dropped on the way; a partial or refused frame stays in the buffer.
pub open spec fn frame_outcome(buf: Seq<u8>) -> FrameOutcome
    decreases buf.len(),
{
    if buf.len() < 4 {
        FrameOutcome::Incomplete { rest: buf }
    } else {
        let length = be_value(buf[0], buf[1], buf[2], buf[3]);
        if length == 0 {
            frame_outcome(buf.skip(4))
        } else if length > MAX {
            FrameOutcome::TooLarge { length, rest: buf }
        } else if buf.len() < 4 + length {
            FrameOutcome::Incomplete { rest: buf }
        } else {
            match id_of_byte(buf[4]) {
                None => FrameOutcome::InvalidId { byte: buf[4], rest: buf },
                Some(id) => FrameOutcome::Frame {
                    id,
                    payload: buf.subrange(5, 4 + length),
                    rest: buf.skip(4 + length),
                },
            }
        }
    }
}

pub struct MessageFramer;

impl MessageFramer {
    /// Tries to take one message from the receive buffer `src`.
    pub fn decode(&mut self, src: &mut BytesMut) -> (r: Result<Option<Message>, FrameError>)
        ensures
            match frame_outcome(buffer_bytes(*old(src))) {
                FrameOutcome::Incomplete { rest } => r == Ok::<Option<Message>, FrameError>(None)
                    && buffer_bytes(*final(src)) == rest,
                FrameOutcome::TooLarge { length, rest } => r == Err::<Option<Message>, FrameError>(
                    FrameError::TooLarge { length: length as usize },
                ) && buffer_bytes(*final(src)) == rest,
                FrameOutcome::InvalidId { byte, rest } => r == Err::<Option<Message>, FrameError>(
                    FrameError::InvalidId { id: byte },
                ) && buffer_bytes(*final(src)) == rest,
                FrameOutcome::Frame { id, payload, rest } => r is Ok && r->Ok_0 is Some
                    && r->Ok_0->Some_0.id == id && r->Ok_0->Some_0.payload@ == payload
                    && buffer_bytes(*final(src)) == rest,
            },
    {
        loop
            invariant
                frame_outcome(buffer_bytes(*old(src))) == frame_outcome(buffer_bytes(*src)),
            decreases buffer_bytes(*src).len(),
        {
            let buffered = buffer_len(src);
            if buffered < 4 {
                return Ok(None);
            }
            let b0 = buffer_byte(src, 0);
            let b1 = buffer_byte(src, 1);
            let b2 = buffer_byte(src, 2);
            let b3 = buffer_byte(src, 3);
            let length: u64 = b0 as u64 * 16777216 + b1 as u64 * 65536 + b2 as u64 * 256
                + b3 as u64;
            if length == 0 {
                buffer_advance(src, 4);
            } else if length > 65536 {
                return Err(FrameError::TooLarge { length: length as usize });
            } else {
                let length: usize = length as usize;
                if buffered - 4 < length {
                    return Ok(None);
                }
                let tag = buffer_byte(src, 4);
                match MessageId::from_byte(tag) {
                    None => {
                        return Err(FrameError::InvalidId { id: tag });
                    },
                    Some(id) => {
                        let data = buffer_range(src, 5, 4 + length);
                        buffer_advance(src, 4 + length);
                        return Ok(Some(Message { id, payload: Box::new(data) }));
                    },
                }
            }
        }
    }

    /// Appends `item` to the send buffer `dst` as one frame where the buffer has
    /// room for it within the largest allocation, and says `None` and leaves
    /// the buffer as it is where it has not.
    pub fn encode_if_room(&mut self, item: Message, dst: &mut BytesMut) -> (r: Option<
        Result<(), FrameError>,
    >)
        ensures
            match r {
                None => buffer_bytes(*old(dst)).len() + item.payload@.len() + 5 > isize::MAX
                    && buffer_bytes(*final(dst)) == buffer_bytes(*old(dst)),
                Some(Ok(_)) => item.payload@.len() + 1 <= MAX && buffer_bytes(*final(dst))
                    == buffer_bytes(*old(dst)) + frame_bytes(item.id, item.payload@),
                Some(Err(e)) => item.payload@.len() + 1 > MAX && e == (FrameError::TooLarge {
                    length: (item.payload@.len() + 1) as usize,
                }) && buffer_bytes(*final(dst)) == buffer_bytes(*old(dst)),
            },
    {
        let held = buffer_len(dst);
        let most: usize = isize::MAX as usize - 5;
        if held > most || item.payload.len() > most - held {
            return None;
        }
        Some(self.encode(item, dst))
    }

    /// Appends `item` to the send buffer `dst` as one frame. The buffer must
    /// have room for it within the largest allocation.
    pub fn encode(&mut self, item: Message, dst: &mut BytesMut) -> (r: Result<(), FrameError>)
        requires
            buffer_bytes(*old(dst)).len() + item.payload@.len() + 5 <= isize::MAX,
        ensures
            item.payload@.len() + 1 <= MAX ==> r is Ok && buffer_bytes(*final(dst)) == buffer_bytes(
                *old(dst),
            ) + frame_bytes(item.id, item.payload@),
            item.payload@.len() + 1 > MAX ==> r == Err::<(), FrameError>(
                FrameError::TooLarge { length: (item.payload@.len() + 1) as usize },
            ) && buffer_bytes(*final(dst)) == buffer_bytes(*old(dst)),
    {
        let n = item.payload.len();
        if n >= MAX {
            return Err(FrameError::TooLarge { length: n + 1 });
        }
        let body: usize = n + 1;
        let mut prefix: Vec<u8> = Vec::new();
        prefix.push((body / 16777216 % 256) as u8);
        prefix.push((body / 65536 % 256) as u8);
        prefix.push((body / 256 % 256) as u8);
        prefix.push((body % 256) as u8);
        assert(prefix@ =~= be_bytes(body as int));
        buffer_extend(dst, prefix.as_slice());
        buffer_put_u8(dst, item.id.to_byte());
        buffer_extend(dst, item.payload.as_slice());
        assert(buffer_bytes(*dst) =~= buffer_bytes(*old(dst)) + frame_bytes(
            item.id,
            item.payload@,
        ));
        Ok(())
    }
}

/// A frame that was written out is read back as the message it was made from,
/// and what stood behind it is left in the buffer.
pub proof fn lemma_frame_round_trip(id: MessageId, payload: Seq<u8>, rest: Seq<u8>)
    requires
        payload.len() + 1 <= MAX,
    ensures
        frame_outcome(frame_bytes(id, payload) + rest) == (FrameOutcome::Frame {
            id,
            payload,
            rest,
        }),
{
    let n: int = payload.len() as int + 1;
    let buf = frame_bytes(id, payload) + rest;
    assert(buf[0] == be_bytes(n)[0]);
    assert(buf[1] == be_bytes(n)[1]);
    assert(buf[2] == be_bytes(n)[2]);
    assert(buf[3] == be_bytes(n)[3]);
    assert(buf[4] == id_byte(id));
    assert(be_value(buf[0], buf[1], buf[2], buf[3]) == n);
    assert(buf.subrange(5, 4 + n) =~= payload);
    assert(buf.skip(4 + n) =~= rest);
}

/// A keep-alive at the front of the buffer yields no message of its own: what
/// is taken is what would be taken from the bytes behind it.
pub proof fn lemma_keep_alive_is_skipped(rest: Seq<u8>)
    ensures
        frame_outcome(seq![0u8, 0u8, 0u8, 0u8] + rest) == frame_outcome(rest),
{
    let buf = seq![0u8, 0u8, 0u8, 0u8] + rest;
    assert(buf.skip(4) =~= rest);
}

/// While only a part of a frame has arrived, nothing is taken and nothing is
/// dropped from the buffer.
pub proof fn lemma_partial_frame_waits(id: MessageId, payload: Seq<u8>, arrived: int)
    requires
        payload.len() + 1 <= MAX,
        0 <= arrived < frame_bytes(id, payload).len(),
    ensures
        frame_outcome(frame_bytes(id, payload).take(arrived)) == (FrameOutcome::Incomplete {
            rest: frame_bytes(id, payload).take(arrived),
        }),
{
    let n: int = payload.len() as int + 1;
    let whole = frame_bytes(id, payload);
    let buf = whole.take(arrived);
    if arrived >= 4 {
        assert(buf[0] == be_bytes(n)[0]);
        assert(buf[1] == be_bytes(n)[1]);
        assert(buf[2] == be_bytes(n)[2]);
        assert(buf[3] == be_bytes(n)[3]);
        assert(be_value(buf[0], buf[1], buf[2], buf[3]) == n);
    }
}

} // verus!
