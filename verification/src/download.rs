//! Downloading one piece from one peer: block arithmetic, block requests, and
//! the session's decisions from message to message.
use crate::bencode::bytes_equal;
use crate::hashing::{sha1_digest, sha1_of};
use crate::peer::{be_bytes, be_value, lemma_be_bytes_of_value, Message, MessageId};
use vstd::prelude::*;

verus! {

/// The size of a block, the unit in which a piece is requested.
pub const BLOCK_SIZE: usize = 16384;

/// The size of piece `piece_index` of `piece_count`: the last piece holds what is
/// left of the content, every other piece is of the nominal length.
pub open spec fn piece_size_of(
    total_length: int,
    piece_length: int,
    piece_index: int,
    piece_count: int,
) -> int {
    if piece_index == piece_count - 1 && total_length % piece_length != 0 {
        total_length % piece_length
    } else {
        piece_length
    }
}

/// The number of blocks in a piece of `piece_size` bytes.
pub open spec fn block_count_of(piece_size: int) -> int {
    (piece_size + 16383) / 16384
}

/// The size of block `block` of a piece: the last block holds what is left of
/// the piece, every other block is a full one.
pub open spec fn block_size_of(piece_size: int, block: int) -> int {
    if block == block_count_of(piece_size) - 1 && piece_size % 16384 != 0 {
        piece_size % 16384
    } else {
        16384
    }
}

pub fn piece_size(
    total_length: usize,
    piece_length: usize,
    piece_index: usize,
    piece_count: usize,
) -> (size: usize)
    requires
        piece_length > 0,
        piece_index < piece_count,
    ensures
        size == piece_size_of(
            total_length as int,
            piece_length as int,
            piece_index as int,
            piece_count as int,
        ),
{
    if piece_index == piece_count - 1 {
        let md = total_length % piece_length;
        if md == 0 {
            piece_length
        } else {
            md
        }
    } else {
        piece_length
    }
}

pub fn block_count(piece_size: usize) -> (count: usize)
    ensures
        count == block_count_of(piece_size as int),
{
    if piece_size % BLOCK_SIZE == 0 {
        piece_size / BLOCK_SIZE
    } else {
        piece_size / BLOCK_SIZE + 1
    }
}

pub fn block_size(piece_size: usize, block: usize) -> (size: usize)
    requires
        block < block_count_of(piece_size as int),
    ensures
        size == block_size_of(piece_size as int, block as int),
        block * 16384 + size <= piece_size,
        block == block_count_of(piece_size as int) - 1 ==> block * 16384 + size == piece_size,
{
    let count = block_count(piece_size);
    if block == count - 1 {
        let md = piece_size % BLOCK_SIZE;
        if md == 0 {
            BLOCK_SIZE
        } else {
            md
        }
    } else {
        BLOCK_SIZE
    }
}

// ---------------------------------------------------------------------------
// Block requests
// ---------------------------------------------------------------------------

/// The four bytes of `x`, most significant byte first.
pub fn u32_to_be(x: u32) -> (b: [u8; 4])
    ensures
        b@ == be_bytes(x as int),
        be_value(b@[0], b@[1], b@[2], b@[3]) == x,
{
    let b = [
        (x / 16777216 % 256) as u8,
        (x / 65536 % 256) as u8,
        (x / 256 % 256) as u8,
        (x % 256) as u8,
    ];
    assert(b@ =~= be_bytes(x as int));
    b
}

/// The number that four bytes hold, most significant byte first.
pub fn u32_from_be(b: &[u8; 4]) -> (x: u32)
    ensures
        x == be_value(b@[0], b@[1], b@[2], b@[3]),
        be_bytes(x as int) == b@,
{
    let x: u32 = b[0] as u32 * 16777216 + b[1] as u32 * 65536 + b[2] as u32 * 256 + b[3] as u32;
    proof {
        lemma_be_bytes_of_value(b@[0], b@[1], b@[2], b@[3]);
        assert(be_bytes(x as int) =~= b@);
    }
    x
}

/// The payload of a `request` message: piece index, offset in the piece and
/// length, each in four bytes.
pub open spec fn request_payload(index: int, begin: int, length: int) -> Seq<u8> {
    be_bytes(index) + be_bytes(begin) + be_bytes(length)
}

pub struct Request {
    index: [u8; 4],
    begin: [u8; 4],
    length: [u8; 4],
}

impl Request {
    /// The piece index that the request names.
    pub closed spec fn index_value(&self) -> int {
        be_value(self.index@[0], self.index@[1], self.index@[2], self.index@[3])
    }

    /// The offset in the piece that the request names.
    pub closed spec fn begin_value(&self) -> int {
        be_value(self.begin@[0], self.begin@[1], self.begin@[2], self.begin@[3])
    }

    /// The length that the request asks for.
    pub closed spec fn length_value(&self) -> int {
        be_value(self.length@[0], self.length@[1], self.length@[2], self.length@[3])
    }

    pub fn new(index: u32, begin: u32, length: u32) -> (r: Self)
        ensures
            r.index_value() == index,
            r.begin_value() == begin,
            r.length_value() == length,
    {
        Self { index: u32_to_be(index), begin: u32_to_be(begin), length: u32_to_be(length) }
    }

    pub fn index(&self) -> (v: u32)
        ensures
            v == self.index_value(),
    {
        u32_from_be(&self.index)
    }

    pub fn begin(&self) -> (v: u32)
        ensures
            v == self.begin_value(),
    {
        u32_from_be(&self.begin)
    }

    pub fn length(&self) -> (v: u32)
        ensures
            v == self.length_value(),
    {
        u32_from_be(&self.length)
    }

    /// The request's twelve bytes, as they go on the wire.
    pub fn as_bytes_mut(&mut self) -> (bytes: Vec<u8>)
        ensures
            *final(self) == *old(self),
            bytes@ == request_payload(
                old(self).index_value(),
                old(self).begin_value(),
                old(self).length_value(),
            ),
    {
        let mut bytes: Vec<u8> = Vec::new();
        let mut i: usize = 0;
        while i < 4
            invariant
                i <= 4,
                bytes@ == self.index@.take(i as int),
            decreases 4 - i,
        {
            bytes.push(self.index[i]);
            assert(bytes@ =~= self.index@.take(i + 1));
            i = i + 1;
        }
        i = 0;
        while i < 4
            invariant
                i <= 4,
                bytes@ == self.index@ + self.begin@.take(i as int),
            decreases 4 - i,
        {
            bytes.push(self.begin[i]);
            assert(bytes@ =~= self.index@ + self.begin@.take(i + 1));
            i = i + 1;
        }
        i = 0;
        while i < 4
            invariant
                i <= 4,
                bytes@ == self.index@ + self.begin@ + self.length@.take(i as int),
            decreases 4 - i,
        {
            bytes.push(self.length[i]);
            assert(bytes@ =~= self.index@ + self.begin@ + self.length@.take(i + 1));
            i = i + 1;
        }
        proof {
            lemma_be_bytes_of_value(self.index@[0], self.index@[1], self.index@[2], self.index@[3]);
            lemma_be_bytes_of_value(self.begin@[0], self.begin@[1], self.begin@[2], self.begin@[3]);
            lemma_be_bytes_of_value(
                self.length@[0],
                self.length@[1],
                self.length@[2],
                self.length@[3],
            );
            assert(self.index@ =~= be_bytes(self.index_value()));
            assert(self.begin@ =~= be_bytes(self.begin_value()));
            assert(self.length@ =~= be_bytes(self.length_value()));
            assert(bytes@ =~= self.index@ + self.begin@ + self.length@);
        }
        bytes
    }
}

// ---------------------------------------------------------------------------
// The session
// ---------------------------------------------------------------------------

/// Where a session stands.
#[derive(Debug, Clone, Copy, PartialEq, Eq, Structural)]
pub enum Phase {
    /// The handshake is done; the peer's bitfield is awaited.
    AwaitingBitfield,
    /// Interest was declared; the peer's unchoke is awaited.
    AwaitingUnchoke,
    /// A block was requested; its `piece` message is awaited.
    Requesting,
    /// The piece was assembled and its digest is the expected one.
    Done,
    /// The session was aborted.
    Failed,
}

/// Why a session is aborted.
#[derive(Debug, Clone, Copy, PartialEq, Eq, Structural)]
pub enum SessionError {
    /// A message that the session's phase does not allow, or a malformed payload.
    Protocol,
    /// The assembled piece does not have the expected digest.
    Integrity,
}

/// What the session asks of its driver after a message.
#[derive(Debug)]
pub enum Step {
    /// Send this message, then hand over the next message received.
    Send(Message),
    /// The piece is complete and verified: these are its bytes.
    Complete(Vec<u8>),
    /// Close the connection.
    Abort(SessionError),
}

/// The model of a `Step`.
pub enum Reply {
    Send { id: MessageId, payload: Seq<u8> },
    Complete { piece: Seq<u8> },
    Abort { error: SessionError },
}

/// The assembly buffer of one piece: the blocks that arrived so far, in the
/// order of their offsets. The number of bytes filled is the length of `data`,
/// and the blocks filled are those that start below it.
#[derive(Debug)]
pub struct PieceAssemblyBuffer {
    pub piece_size: u32,
    pub data: Vec<u8>,
}

impl PieceAssemblyBuffer {
    /// The buffer never holds more than the piece.
    pub open spec fn wf(&self) -> bool {
        self.data@.len() <= self.piece_size
    }

    /// An empty buffer for a piece of `piece_size` bytes.
    pub fn new(piece_size: u32) -> (b: Self)
        ensures
            b.wf(),
            b.piece_size == piece_size,
            b.data@ == Seq::<u8>::empty(),
    {
        Self { piece_size, data: Vec::new() }
    }

    /// The number of bytes filled, which is the offset of the next block.
    pub fn filled(&self) -> (n: usize)
        ensures
            n == self.data@.len(),
    {
        self.data.len()
    }

    /// Whether the whole piece is there.
    pub fn is_complete(&self) -> (r: bool)
        ensures
            r == (self.data@.len() >= self.piece_size),
    {
        self.data.len() >= self.piece_size as usize
    }

    /// The length of the block that is due next.
    pub fn next_block_len(&self) -> (n: u32)
        requires
            self.wf(),
        ensures
            n == block_len_at(self.piece_size as int, self.data@.len() as int),
    {
        let left: usize = self.piece_size as usize - self.data.len();
        if left < BLOCK_SIZE {
            left as u32
        } else {
            16384u32
        }
    }

    /// Appends a block behind the bytes filled so far.
    pub fn append(&mut self, block: &[u8])
        requires
            old(self).wf(),
            block@.len() <= block_len_at(
                old(self).piece_size as int,
                old(self).data@.len() as int,
            ),
        ensures
            final(self).wf(),
            final(self).piece_size == old(self).piece_size,
            final(self).data@ == old(self).data@ + block@,
    {
        let mut i: usize = 0;
        while i < block.len()
            invariant
                i <= block@.len(),
                self.piece_size == old(self).piece_size,
                self.data@ == old(self).data@ + block@.take(i as int),
            decreases block@.len() - i,
        {
            self.data.push(block[i]);
            assert(self.data@ =~= old(self).data@ + block@.take(i + 1));
            i = i + 1;
        }
        assert(block@.take(block@.len() as int) =~= block@);
    }
}

/// The download of one piece from one peer.
#[derive(Debug)]
pub struct PieceSession {
    pub phase: Phase,
    pub piece_index: u32,
    pub expected_hash: [u8; 20],
    pub buffer: PieceAssemblyBuffer,
}

/// The length of the block at `offset` in a piece of `piece_size` bytes.
pub open spec fn block_len_at(piece_size: int, offset: int) -> int {
    if piece_size - offset < 16384 {
        piece_size - offset
    } else {
        16384
    }
}

/// The block at offset `16384 * block` is block `block`, of the size that the
/// piece's block arithmetic gives.
pub proof fn lemma_block_len_is_block_size(piece_size: int, block: int)
    requires
        piece_size >= 0,
        0 <= block < block_count_of(piece_size),
    ensures
        block_len_at(piece_size, 16384 * block) == block_size_of(piece_size, block),
{
}

/// What follows once `received` is what the buffer holds: the request for the
/// next block, or, with the piece assembled, the verdict on its digest.
pub open spec fn proceed(s: PieceSession, received: Seq<u8>) -> (Phase, Seq<u8>, Reply) {
    if received.len() < s.buffer.piece_size {
        (
            Phase::Requesting,
            received,
            Reply::Send {
                id: MessageId::Request,
                payload: request_payload(
                    s.piece_index as int,
                    received.len() as int,
                    block_len_at(s.buffer.piece_size as int, received.len() as int),
                ),
            },
        )
    } else if sha1_digest(received) == s.expected_hash@ {
        (Phase::Done, received, Reply::Complete { piece: received })
    } else {
        (Phase::Failed, received, Reply::Abort { error: SessionError::Integrity })
    }
}

/// Whether a `piece` payload answers the request that is outstanding: it names
/// the piece and the offset asked for and carries a block of the length asked for.
pub open spec fn answers_request(s: PieceSession, payload: Seq<u8>) -> bool {
    &&& payload.len() >= 8
    &&& payload.subrange(0, 4) == be_bytes(s.piece_index as int)
    &&& payload.subrange(4, 8) == be_bytes(s.buffer.data@.len() as int)
    &&& payload.len() - 8 == block_len_at(s.buffer.piece_size as int, s.buffer.data@.len() as int)
}

/// The session's decision on a message: its next phase, what its buffer then
/// holds, and what it asks of its driver.
pub open spec fn reply_of(s: PieceSession, id: MessageId, payload: Seq<u8>) -> (
    Phase,
    Seq<u8>,
    Reply,
) {
    let refused = (Phase::Failed, s.buffer.data@, Reply::Abort { error: SessionError::Protocol });
    match s.phase {
        Phase::AwaitingBitfield => if id == MessageId::Bitfield {
            (
                Phase::AwaitingUnchoke,
                s.buffer.data@,
                Reply::Send { id: MessageId::Interested, payload: Seq::empty() },
            )
        } else {
            refused
        },
        Phase::AwaitingUnchoke => if id == MessageId::Unchoke && payload.len() == 0 {
            proceed(s, s.buffer.data@)
        } else {
            refused
        },
        Phase::Requesting => if id == MessageId::Piece && answers_request(s, payload) {
            proceed(s, s.buffer.data@ + payload.skip(8))
        } else {
            refused
        },
        Phase::Done => (Phase::Done, s.buffer.data@, Reply::Abort { error: SessionError::Protocol }),
        Phase::Failed => refused,
    }
}

/// Whether a `Step` is what the model prescribes.
pub open spec fn step_matches(step: Step, reply: Reply) -> bool {
    match (step, reply) {
        (Step::Send(m), Reply::Send { id, payload }) => m.id == id && m.payload@ == payload,
        (Step::Complete(bytes), Reply::Complete { piece }) => bytes@ == piece,
        (Step::Abort(e), Reply::Abort { error }) => e == error,
        _ => false,
    }
}

impl PieceSession {
    /// The buffer is sound, and while a block is awaited the piece is not yet
    /// whole.
    pub open spec fn wf(&self) -> bool {
        &&& self.buffer.wf()
        &&& self.phase == Phase::Requesting ==> self.buffer.data@.len() < self.buffer.piece_size
    }

    /// A session right after the handshake, for the piece `piece_index` of
    /// `piece_size` bytes with the digest `expected_hash`.
    pub fn new(piece_index: u32, piece_size: u32, expected_hash: [u8; 20]) -> (s: Self)
        ensures
            s.wf(),
            s.phase == Phase::AwaitingBitfield,
            s.piece_index == piece_index,
            s.buffer.piece_size == piece_size,
            s.expected_hash == expected_hash,
            s.buffer.data@ == Seq::<u8>::empty(),
    {
        Self {
            phase: Phase::AwaitingBitfield,
            piece_index,
            expected_hash,
            buffer: PieceAssemblyBuffer::new(piece_size),
        }
    }

    /// Requests the next block, or, with the piece assembled, checks its digest.
    fn advance(&mut self) -> (step: Step)
        requires
            old(self).buffer.data@.len() <= old(self).buffer.piece_size,
        ensures
            final(self).wf(),
            final(self).piece_index == old(self).piece_index,
            final(self).buffer.piece_size == old(self).buffer.piece_size,
            final(self).expected_hash == old(self).expected_hash,
            final(self).phase == proceed(*old(self), old(self).buffer.data@).0,
            final(self).buffer.data@ == proceed(*old(self), old(self).buffer.data@).1,
            step_matches(step, proceed(*old(self), old(self).buffer.data@).2),
    {
        if !self.buffer.is_complete() {
            let have: usize = self.buffer.filled();
            let length: u32 = self.buffer.next_block_len();
            let mut request = Request::new(self.piece_index, have as u32, length);
            let payload = request.as_bytes_mut();
            self.phase = Phase::Requesting;
            Step::Send(Message { id: MessageId::Request, payload: Box::new(payload) })
        } else {
            let digest = sha1_of(self.buffer.data.as_slice());
            if bytes_equal(digest.as_slice(), self.expected_hash.as_slice()) {
                self.phase = Phase::Done;
                Step::Complete(self.buffer.data.clone())
            } else {
                self.phase = Phase::Failed;
                Step::Abort(SessionError::Integrity)
            }
        }
    }

    /// Takes the next message from the peer and decides what to do. The first
    /// message must be a bitfield, which is answered by declaring interest; then
    /// an unchoke with no payload is awaited; then each block is requested in turn
    /// and its `piece` message must name the piece and the offset asked for. Once
    /// the piece is whole it is handed out only if its SHA-1 digest is the
    /// expected one. Any other message aborts the session; one that comes after
    /// the piece was handed out is refused and leaves the session done.
    pub fn on_message(&mut self, msg: &Message) -> (step: Step)
        requires
            old(self).wf(),
        ensures
            final(self).wf(),
            final(self).piece_index == old(self).piece_index,
            final(self).buffer.piece_size == old(self).buffer.piece_size,
            final(self).expected_hash == old(self).expected_hash,
            final(self).phase == reply_of(*old(self), msg.id, msg.payload@).0,
            final(self).buffer.data@ == reply_of(*old(self), msg.id, msg.payload@).1,
            step_matches(step, reply_of(*old(self), msg.id, msg.payload@).2),
            step is Complete ==> sha1_digest(step->Complete_0@) == old(self).expected_hash@,
    {
        match self.phase {
            Phase::AwaitingBitfield => {
                if msg.id == MessageId::Bitfield {
                    self.phase = Phase::AwaitingUnchoke;
                    return Step::Send(
                        Message { id: MessageId::Interested, payload: Box::new(Vec::new()) },
                    );
                }
            },
            Phase::AwaitingUnchoke => {
                if msg.id == MessageId::Unchoke && msg.payload.len() == 0 {
                    return self.advance();
                }
            },
            Phase::Requesting => {
                if msg.id == MessageId::Piece && self.accepts(msg.payload.as_slice()) {
                    let block = vstd::slice::slice_subrange(
                        msg.payload.as_slice(),
                        8,
                        msg.payload.len(),
                    );
                    assert(block@ =~= msg.payload@.skip(8));
                    self.buffer.append(block);
                    return self.advance();
                }
            },
            Phase::Done => {
                return Step::Abort(SessionError::Protocol);
            },
            Phase::Failed => {},
        }
        self.phase = Phase::Failed;
        Step::Abort(SessionError::Protocol)
    }

    /// Whether a `piece` payload answers the outstanding request.
    fn accepts(&self, payload: &[u8]) -> (r: bool)
        requires
            self.wf(),
            self.phase == Phase::Requesting,
        ensures
            r == answers_request(*self, payload@),
    {
        if payload.len() < 8 {
            return false;
        }
        let have: usize = self.buffer.filled();
        let length: usize = self.buffer.next_block_len() as usize;
        let index = u32_to_be(self.piece_index);
        let begin = u32_to_be(have as u32);
        let named = bytes_equal(vstd::slice::slice_subrange(payload, 0, 4), index.as_slice())
            && bytes_equal(vstd::slice::slice_subrange(payload, 4, 8), begin.as_slice());
        named && payload.len() - 8 == length
    }
}

} // verus!
