//! The states of a download session and the transition between them.

use vstd::prelude::*;
use crate::digest::sha1_digest;
use crate::wire::{Frame, ProtocolError};

verus! {

/// The length of every block of a piece but the last.
pub const BLOCK_SIZE: u32 = 16384;

/// How many requests are kept outstanding when nothing else is asked for.
pub const DEFAULT_PIPELINE: usize = 5;

/// Where a block of the piece stands.
#[derive(Debug, Clone, Copy, PartialEq, Eq, Structural)]
pub enum BlockStatus {
    /// Not asked for yet.
    Pending,
    /// Asked for and not yet here.
    Requested,
    /// Written into the piece buffer.
    Received,
}

/// Why a session failed.
#[derive(Debug, Clone, Copy, PartialEq, Eq, Structural)]
pub enum SessionError {
    /// The peer broke the protocol, went away or fell silent.
    Protocol(ProtocolError),
    /// The assembled piece does not have the expected SHA-1 digest.
    HashMismatch,
    /// The connection failed.
    Io,
}

/// The state of a session.
#[derive(Debug, Clone, Copy, PartialEq, Eq, Structural)]
pub enum Phase {
    /// Waiting for the peer's bitfield.
    AwaitBitfield,
    /// The `interested` message is to be written.
    SendInterested,
    /// Waiting for the peer to unchoke.
    AwaitUnchoke,
    /// Blocks are being asked for and received.
    Requesting,
    /// Every block is here; the digest of the piece is to be checked.
    Verifying,
    /// The piece is complete and has the expected digest.
    Done,
    /// The session failed; the piece buffer is gone.
    Failed(SessionError),
}

/// What happened on the connection, as a mathematical object.
pub enum EventView {
    /// A message arrived.
    Message(Frame),
    /// Bytes arrived that are no message.
    Malformed(ProtocolError),
    /// What was to be written has been written.
    Written,
    /// Nothing arrived in time.
    TimedOut,
    /// The peer closed the connection.
    Closed,
    /// Reading or writing failed.
    IoFailed,
}

/// What the caller is to do next, as a mathematical object.
pub enum ActionView {
    /// Read the next message.
    Read,
    /// Write these messages, in this order.
    Write(Seq<Frame>),
    /// Check the digest of the assembled piece.
    Verify,
    /// Take the piece: the download is done.
    Complete,
    /// Give up on this session.
    Abort(SessionError),
}

/// A download session as a mathematical object.
pub struct SessionState {
    /// The index of the piece in the torrent.
    pub piece_index: u32,
    /// The length of the piece in bytes.
    pub piece_len: nat,
    /// The SHA-1 digest that the piece must have.
    pub expected: Seq<u8>,
    /// The most requests that may be outstanding at once.
    pub pipeline: nat,
    /// The state of the session.
    pub phase: Phase,
    /// The status of each block, by offset.
    pub blocks: Seq<BlockStatus>,
    /// The piece buffer.
    pub buffer: Seq<u8>,
}

/// The number of blocks of a piece of `piece_len` bytes.
pub open spec fn block_count(piece_len: nat) -> nat {
    (piece_len + 16383) / 16384
}

/// The length of block `k` of a piece of `piece_len` bytes: 16384 but for
/// a shorter last block.
pub open spec fn block_len(piece_len: nat, k: nat) -> nat {
    if 16384 * (k + 1) <= piece_len {
        16384
    } else {
        (piece_len - 16384 * k) as nat
    }
}

/// The request for block `k` of a piece.
pub open spec fn request_for(piece_index: u32, piece_len: nat, k: nat) -> Frame {
    Frame::Request {
        index: piece_index,
        begin: (16384 * k) as u32,
        length: block_len(piece_len, k) as u32,
    }
}

/// `buf` with `data` written over the bytes from `at` on.
pub open spec fn write_at(buf: Seq<u8>, at: int, data: Seq<u8>) -> Seq<u8> {
    buf.subrange(0, at) + data + buf.subrange(at + data.len(), buf.len() as int)
}

/// The index of the first pending block at or after `from`, or the
/// number of blocks when none is pending.
pub open spec fn first_pending(blocks: Seq<BlockStatus>, from: int) -> int
    decreases blocks.len() - from,
{
    if 0 <= from < blocks.len() && blocks[from] != BlockStatus::Pending {
        first_pending(blocks, from + 1)
    } else {
        from
    }
}

/// The number of blocks that are asked for and not yet here.
pub open spec fn count_requested(blocks: Seq<BlockStatus>) -> nat
    decreases blocks.len(),
{
    if blocks.len() == 0 {
        0
    } else {
        count_requested(blocks.drop_last()) + if blocks.last() == BlockStatus::Requested {
            1nat
        } else {
            0nat
        }
    }
}

/// Whether every block is pending.
pub open spec fn all_pending(blocks: Seq<BlockStatus>) -> bool {
    forall|k: int| 0 <= k < blocks.len() ==> blocks[k] == BlockStatus::Pending
}

/// Whether every block is here.
pub open spec fn all_received(blocks: Seq<BlockStatus>) -> bool {
    forall|k: int| 0 <= k < blocks.len() ==> blocks[k] == BlockStatus::Received
}

/// Whether the pending blocks are the last ones: blocks are asked for
/// in the order of their offsets.
pub open spec fn pending_last(blocks: Seq<BlockStatus>) -> bool {
    forall|i: int, j: int|
        0 <= i <= j < blocks.len() && blocks[i] == BlockStatus::Pending ==> blocks[j]
            == BlockStatus::Pending
}

/// What a session answers when nothing changes its state.
pub open spec fn idle_action(phase: Phase) -> ActionView {
    match phase {
        Phase::SendInterested => ActionView::Write(seq![Frame::Interested]),
        Phase::Verifying => ActionView::Verify,
        Phase::Done => ActionView::Complete,
        Phase::Failed(e) => ActionView::Abort(e),
        _ => ActionView::Read,
    }
}

/// The session failed with `e`: the piece buffer is discarded.
pub open spec fn failed(s: SessionState, e: SessionError) -> (SessionState, ActionView) {
    (SessionState { phase: Phase::Failed(e), buffer: Seq::empty(), ..s }, ActionView::Abort(e))
}

/// A session for a piece before anything has happened.
pub open spec fn initial_state(
    piece_index: u32,
    piece_len: nat,
    expected: Seq<u8>,
    pipeline: nat,
) -> SessionState {
    SessionState {
        piece_index,
        piece_len,
        expected,
        pipeline,
        phase: Phase::AwaitBitfield,
        blocks: Seq::new(block_count(piece_len), |k: int| BlockStatus::Pending),
        buffer: Seq::new(piece_len, |i: int| 0u8),
    }
}

/// The peer unchoked: the first blocks are asked for, as many as the
/// pipeline holds.
pub open spec fn start_requests(s: SessionState) -> (SessionState, ActionView) {
    let n = s.blocks.len();
    let m = if s.pipeline < n {
        s.pipeline
    } else {
        n
    };
    (
        SessionState {
            phase: Phase::Requesting,
            blocks: Seq::new(
                n,
                |k: int|
                    if k < m {
                        BlockStatus::Requested
                    } else {
                        BlockStatus::Pending
                    },
            ),
            ..s
        },
        ActionView::Write(
            Seq::new(m, |k: int| request_for(s.piece_index, s.piece_len, k as nat)),
        ),
    )
}

/// Whether a `piece` message answers a request that is outstanding: it
/// is for this piece, starts at the offset of a requested block and has
/// that block's length.
pub open spec fn block_expected(s: SessionState, index: u32, begin: u32, block: Seq<u8>) -> bool {
    let k = begin as int / 16384;
    &&& index == s.piece_index
    &&& begin as int % 16384 == 0
    &&& k < s.blocks.len()
    &&& s.blocks[k] == BlockStatus::Requested
    &&& block.len() == block_len(s.piece_len, k as nat)
}

/// A block arrived while requesting. One that is expected is written into
/// the buffer at its offset; then the next pending block is asked for,
/// or, when every block is here, the piece goes to verification.
pub open spec fn on_block(s: SessionState, index: u32, begin: u32, block: Seq<u8>) -> (
    SessionState,
    ActionView,
) {
    if !block_expected(s, index, begin, block) {
        failed(s, SessionError::Protocol(ProtocolError::UnexpectedBlock))
    } else {
        let k = begin as int / 16384;
        let buffer = write_at(s.buffer, begin as int, block);
        let blocks = s.blocks.update(k, BlockStatus::Received);
        let p = first_pending(blocks, 0);
        if p < blocks.len() {
            (
                SessionState { blocks: blocks.update(p, BlockStatus::Requested), buffer, ..s },
                ActionView::Write(seq![request_for(s.piece_index, s.piece_len, p as nat)]),
            )
        } else if all_received(blocks) {
            (SessionState { phase: Phase::Verifying, blocks, buffer, ..s }, ActionView::Verify)
        } else {
            (SessionState { blocks, buffer, ..s }, ActionView::Read)
        }
    }
}

/// A message arrived.
pub open spec fn on_message(s: SessionState, m: Frame) -> (SessionState, ActionView) {
    match s.phase {
        Phase::AwaitBitfield => match m {
            Frame::Have { .. } => (s, ActionView::Read),
            Frame::Bitfield { .. } => (
                SessionState { phase: Phase::SendInterested, ..s },
                ActionView::Write(seq![Frame::Interested]),
            ),
            _ => failed(s, SessionError::Protocol(ProtocolError::UnexpectedMessage)),
        },
        Phase::AwaitUnchoke => match m {
            Frame::Choke => (s, ActionView::Read),
            Frame::Have { .. } => (s, ActionView::Read),
            Frame::KeepAlive => (s, ActionView::Read),
            Frame::Unchoke => start_requests(s),
            _ => failed(s, SessionError::Protocol(ProtocolError::UnexpectedMessage)),
        },
        Phase::Requesting => match m {
            Frame::Piece { index, begin, block } => on_block(s, index, begin, block),
            Frame::Choke => failed(s, SessionError::Protocol(ProtocolError::Choked)),
            Frame::KeepAlive => (s, ActionView::Read),
            Frame::Have { .. } => (s, ActionView::Read),
            Frame::Unchoke => (s, ActionView::Read),
            _ => failed(s, SessionError::Protocol(ProtocolError::UnexpectedMessage)),
        },
        Phase::SendInterested => failed(
            s,
            SessionError::Protocol(ProtocolError::UnexpectedMessage),
        ),
        _ => (s, idle_action(s.phase)),
    }
}

/// One transition of the session, up to the check of the digest. A
/// session that is verifying, done or failed stays as it is.
pub open spec fn advance(s: SessionState, e: EventView) -> (SessionState, ActionView) {
    match s.phase {
        Phase::Verifying => (s, idle_action(s.phase)),
        Phase::Done => (s, idle_action(s.phase)),
        Phase::Failed(_) => (s, idle_action(s.phase)),
        _ => match e {
            EventView::TimedOut => failed(s, SessionError::Protocol(ProtocolError::TimedOut)),
            EventView::Closed => failed(s, SessionError::Protocol(ProtocolError::Closed)),
            EventView::IoFailed => failed(s, SessionError::Io),
            EventView::Malformed(e) => failed(s, SessionError::Protocol(e)),
            EventView::Written => if s.phase == Phase::SendInterested {
                (SessionState { phase: Phase::AwaitUnchoke, ..s }, ActionView::Read)
            } else {
                (s, ActionView::Read)
            },
            EventView::Message(m) => on_message(s, m),
        },
    }
}

/// The end of verification: with the expected digest the session is
/// done, with any other it fails and the buffer is discarded. A session
/// that is not verifying stays as it is.
pub open spec fn conclude(s: SessionState, digest: Seq<u8>) -> (SessionState, ActionView) {
    if s.phase == Phase::Verifying {
        if digest == s.expected {
            (SessionState { phase: Phase::Done, ..s }, ActionView::Complete)
        } else {
            failed(s, SessionError::HashMismatch)
        }
    } else {
        (s, idle_action(s.phase))
    }
}

/// One whole transition: `advance`, and when that completes the piece,
/// the check of its SHA-1 digest.
pub open spec fn step(s: SessionState, e: EventView) -> (SessionState, ActionView) {
    let (s1, a1) = advance(s, e);
    if s1.phase == Phase::Verifying {
        conclude(s1, sha1_digest(s1.buffer))
    } else {
        (s1, a1)
    }
}

impl SessionState {
    /// Well-formedness of a session.
    pub open spec fn wf(self) -> bool {
        &&& 0 < self.piece_len <= u32::MAX
        &&& self.pipeline >= 1
        &&& self.expected.len() == 20
        &&& self.blocks.len() == block_count(self.piece_len)
        &&& match self.phase {
            Phase::AwaitBitfield => all_pending(self.blocks) && self.buffer.len() == self.piece_len,
            Phase::SendInterested => all_pending(self.blocks) && self.buffer.len()
                == self.piece_len,
            Phase::AwaitUnchoke => all_pending(self.blocks) && self.buffer.len() == self.piece_len,
            Phase::Requesting => {
                &&& self.buffer.len() == self.piece_len
                &&& pending_last(self.blocks)
                &&& 1 <= count_requested(self.blocks) <= self.pipeline
            },
            Phase::Verifying => all_received(self.blocks) && self.buffer.len() == self.piece_len,
            Phase::Done => all_received(self.blocks) && self.buffer.len() == self.piece_len,
            Phase::Failed(_) => self.buffer.len() == 0,
        }
    }
}

} // verus!
