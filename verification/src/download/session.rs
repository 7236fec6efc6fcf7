//! The download session: the state machine as it runs.

use vstd::prelude::*;
use crate::bytes::bytes_eq;
use crate::digest::sha1;
use crate::download::laws::{
    lemma_blocks_cover, lemma_count_prefix, lemma_count_update, lemma_count_zero,
    lemma_first_pending, lemma_first_pending_is, lemma_on_block_wf, lemma_start_requests_wf,
};
use crate::download::state::{
    advance, block_count, conclude, count_requested, failed, first_pending, initial_state,
    on_block, on_message, request_for, start_requests, step, write_at, ActionView, BlockStatus,
    EventView, Phase, SessionError, SessionState, BLOCK_SIZE,
};
use crate::metainfo::{piece_count, piece_size, Metainfo, TorrentMetadata};
use crate::wire::{parse_frame, Frame, Message, ProtocolError};

verus! {

/// What happened on the connection.
#[derive(Debug, PartialEq, Eq)]
pub enum Event {
    /// A message arrived.
    Message(Message),
    /// Bytes arrived that are no message.
    Malformed(ProtocolError),
    /// What was to be written has been written.
    Written,
    /// Nothing arrived in time.
    TimedOut,
    /// The peer closed the connection.
    Closed,
    /// Reading or writing failed.
    IoFailed,
}

impl View for Event {
    type V = EventView;

    open spec fn view(&self) -> EventView {
        match self {
            Event::Message(m) => EventView::Message(m@),
            Event::Malformed(e) => EventView::Malformed(*e),
            Event::Written => EventView::Written,
            Event::TimedOut => EventView::TimedOut,
            Event::Closed => EventView::Closed,
            Event::IoFailed => EventView::IoFailed,
        }
    }
}

/// What the bytes that have arrived so far amount to: nothing while
/// they hold no whole message, else the first message and the number of
/// bytes it takes; bytes that are no message are an event of their own
/// and are used up.
pub open spec fn next_event(buf: Seq<u8>) -> Option<(EventView, int)> {
    match parse_frame(buf) {
        Ok(None) => None,
        Ok(Some((m, n))) => Some((EventView::Message(m), n)),
        Err(e) => Some((EventView::Malformed(e), buf.len() as int)),
    }
}

impl Event {
    /// Takes the next event out of the bytes that have arrived so far.
    /// Gives the event and the number of bytes that it used up, or `None`
    /// when more bytes are needed.
    pub fn read(buf: &[u8]) -> (r: Option<(Event, usize)>)
        ensures
            match r {
                Some((event, used)) => next_event(buf@) == Some((event@, used as int)) && used
                    <= buf.len(),
                None => next_event(buf@) is None,
            },
    {
        match Message::parse_framed(buf) {
            Ok(None) => None,
            Ok(Some((message, used))) => Some((Event::Message(message), used)),
            Err(e) => Some((Event::Malformed(e), buf.len())),
        }
    }
}

/// What the caller is to do next.
#[derive(Debug, PartialEq, Eq)]
pub enum Action {
    /// Read the next message.
    Read,
    /// Write these messages, in this order.
    Write(Vec<Message>),
    /// Check the digest of the assembled piece.
    Verify,
    /// Take the piece: the download is done.
    Complete,
    /// Give up on this session.
    Abort(SessionError),
}

/// The views of a run of messages.
pub open spec fn frames_of(messages: Seq<Message>) -> Seq<Frame> {
    Seq::new(messages.len(), |i: int| messages[i]@)
}

impl View for Action {
    type V = ActionView;

    open spec fn view(&self) -> ActionView {
        match self {
            Action::Read => ActionView::Read,
            Action::Write(messages) => ActionView::Write(frames_of(messages@)),
            Action::Verify => ActionView::Verify,
            Action::Complete => ActionView::Complete,
            Action::Abort(e) => ActionView::Abort(*e),
        }
    }
}

/// Why no session can be started.
#[derive(Debug, Clone, Copy, PartialEq, Eq, Structural)]
pub enum StartError {
    /// The torrent has no piece of that index.
    NoSuchPiece,
    /// The metainfo file lists no hash for the piece.
    MissingHash,
    /// The piece is longer than an offset on the wire can say.
    PieceTooLarge,
    /// The piece has no bytes.
    EmptyPiece,
    /// The pipeline holds no request.
    ZeroPipeline,
}

/// The session that starts for a piece of `piece_len` bytes.
pub open spec fn start_session(
    piece_index: u32,
    piece_len: nat,
    expected: Seq<u8>,
    pipeline: nat,
) -> Result<SessionState, StartError> {
    if piece_len == 0 {
        Err(StartError::EmptyPiece)
    } else if pipeline == 0 {
        Err(StartError::ZeroPipeline)
    } else {
        Ok(initial_state(piece_index, piece_len, expected, pipeline))
    }
}

/// The session that starts for piece `piece_index` of a torrent. The
/// length of the piece is computed from the lengths in the metadata, and
/// its digest is the one that the metadata lists at that index.
pub open spec fn new_session(meta: Metainfo, piece_index: u32, pipeline: nat) -> Result<
    SessionState,
    StartError,
> {
    if piece_index >= piece_count(meta.length, meta.piece_length) {
        Err(StartError::NoSuchPiece)
    } else if piece_index >= meta.piece_hashes.len() {
        Err(StartError::MissingHash)
    } else if piece_size(meta.length, meta.piece_length, piece_index as nat) > u32::MAX {
        Err(StartError::PieceTooLarge)
    } else {
        start_session(
            piece_index,
            piece_size(meta.length, meta.piece_length, piece_index as nat),
            meta.piece_hashes[piece_index as int],
            pipeline,
        )
    }
}

/// The download of one piece from one peer.
#[derive(Debug)]
pub struct Session {
    piece_index: u32,
    piece_len: u32,
    expected: [u8; 20],
    pipeline: usize,
    phase: Phase,
    blocks: Vec<BlockStatus>,
    buffer: Vec<u8>,
    in_flight: usize,
    next: usize,
}

impl View for Session {
    type V = SessionState;

    closed spec fn view(&self) -> SessionState {
        SessionState {
            piece_index: self.piece_index,
            piece_len: self.piece_len as nat,
            expected: self.expected@,
            pipeline: self.pipeline as nat,
            phase: self.phase,
            blocks: self.blocks@,
            buffer: self.buffer@,
        }
    }
}

/// Writes `data` into `buffer` at offset `at`.
fn write_block(buffer: &mut Vec<u8>, at: usize, data: &Vec<u8>)
    requires
        at + data@.len() <= old(buffer)@.len(),
    ensures
        final(buffer)@ == write_at(old(buffer)@, at as int, data@),
{
    let ghost before = buffer@;
    let mut j: usize = 0;
    assert(buffer@ =~= write_at(before, at as int, data@.subrange(0, 0)));
    while j < data.len()
        invariant
            j <= data.len(),
            at + data@.len() <= before.len(),
            buffer.len() == before.len(),
            buffer@ == write_at(before, at as int, data@.subrange(0, j as int)),
        decreases data.len() - j,
    {
        buffer.set(at + j, data[j]);
        j += 1;
        assert(buffer@ =~= write_at(before, at as int, data@.subrange(0, j as int)));
    }
    assert(data@.subrange(0, data@.len() as int) == data@);
}

impl Session {
    #[verifier::type_invariant]
    spec fn inv(self) -> bool {
        &&& self@.wf()
        &&& self.phase == Phase::Requesting ==> self.in_flight == count_requested(self.blocks@)
            && self.next == first_pending(self.blocks@, 0)
    }

    /// Starts a session for a piece of `piece_len` bytes that must have
    /// the digest `expected`, with at most `pipeline` requests
    /// outstanding.
    pub fn start(piece_index: u32, piece_len: u32, expected: [u8; 20], pipeline: usize) -> (r:
        Result<Session, StartError>)
        ensures
            match r {
                Ok(s) => start_session(piece_index, piece_len as nat, expected@, pipeline as nat)
                    == Ok::<SessionState, StartError>(s@),
                Err(e) => start_session(piece_index, piece_len as nat, expected@, pipeline as nat)
                    == Err::<SessionState, StartError>(e),
            },
    {
        if piece_len == 0 {
            return Err(StartError::EmptyPiece);
        }
        if pipeline == 0 {
            return Err(StartError::ZeroPipeline);
        }
        let count = (piece_len / BLOCK_SIZE) as usize + if piece_len % BLOCK_SIZE != 0 {
            1usize
        } else {
            0usize
        };
        let mut blocks: Vec<BlockStatus> = Vec::new();
        let mut k: usize = 0;
        while k < count
            invariant
                k <= count,
                blocks@.len() == k,
                forall|i: int| 0 <= i < k ==> blocks@[i] == BlockStatus::Pending,
            decreases count - k,
        {
            blocks.push(BlockStatus::Pending);
            k += 1;
        }
        let mut buffer: Vec<u8> = Vec::new();
        let mut i: usize = 0;
        while i < piece_len as usize
            invariant
                i <= piece_len,
                buffer@.len() == i,
                forall|j: int| 0 <= j < i ==> buffer@[j] == 0u8,
            decreases piece_len - i,
        {
            buffer.push(0u8);
            i += 1;
        }
        let ghost init = initial_state(piece_index, piece_len as nat, expected@, pipeline as nat);
        assert(blocks@ =~= init.blocks);
        assert(buffer@ =~= init.buffer);
        Ok(
            Session {
                piece_index,
                piece_len,
                expected,
                pipeline,
                phase: Phase::AwaitBitfield,
                blocks,
                buffer,
                in_flight: 0,
                next: 0,
            },
        )
    }

    /// Starts a session for piece `piece_index` of a torrent, with at
    /// most `pipeline` requests outstanding.
    pub fn new(meta: &TorrentMetadata, piece_index: u32, pipeline: usize) -> (r: Result<
        Session,
        StartError,
    >)
        ensures
            match r {
                Ok(s) => new_session(meta@, piece_index, pipeline as nat) == Ok::<
                    SessionState,
                    StartError,
                >(s@),
                Err(e) => new_session(meta@, piece_index, pipeline as nat) == Err::<
                    SessionState,
                    StartError,
                >(e),
            },
    {
        let size = match meta.piece_size(piece_index as u64) {
            None => {
                return Err(StartError::NoSuchPiece);
            },
            Some(size) => size,
        };
        let expected: [u8; 20] = match meta.piece_hash(piece_index as usize) {
            None => {
                return Err(StartError::MissingHash);
            },
            Some(hash) => *hash,
        };
        if size > 0xffff_ffff {
            return Err(StartError::PieceTooLarge);
        }
        Session::start(piece_index, size as u32, expected, pipeline)
    }

    /// The state of the session.
    pub fn phase(&self) -> (r: Phase)
        ensures
            r == self@.phase,
    {
        self.phase
    }

    /// The index of the piece in the torrent.
    pub fn piece_index(&self) -> (r: u32)
        ensures
            r == self@.piece_index,
    {
        self.piece_index
    }

    /// The length of the piece in bytes.
    pub fn piece_len(&self) -> (r: u32)
        ensures
            r == self@.piece_len,
    {
        self.piece_len
    }

    /// The number of blocks of the piece.
    pub fn block_count(&self) -> (r: usize)
        ensures
            r == self@.blocks.len(),
    {
        self.blocks.len()
    }

    /// The status of block `k`, if the piece has such a block.
    pub fn block_status(&self, k: usize) -> (r: Option<BlockStatus>)
        ensures
            match r {
                Some(status) => k < self@.blocks.len() && status == self@.blocks[k as int],
                None => k >= self@.blocks.len(),
            },
    {
        if k < self.blocks.len() {
            Some(self.blocks[k])
        } else {
            None
        }
    }

    /// The piece, once the session is done; `None` in every other state.
    pub fn piece(&self) -> (r: Option<&Vec<u8>>)
        ensures
            match r {
                Some(bytes) => self@.phase == Phase::Done && bytes@ == self@.buffer && bytes@.len()
                    == self@.piece_len,
                None => self@.phase != Phase::Done,
            },
    {
        proof {
            use_type_invariant(self);
        }
        match self.phase {
            Phase::Done => Some(&self.buffer),
            _ => None,
        }
    }

    fn fail(self, e: SessionError) -> (r: (Session, Action))
        ensures
            (r.0@, r.1@) == failed(self@, e),
    {
        proof {
            use_type_invariant(&self);
        }
        let Session { piece_index, piece_len, expected, pipeline, blocks, in_flight, next, .. } =
            self;
        (
            Session {
                piece_index,
                piece_len,
                expected,
                pipeline,
                phase: Phase::Failed(e),
                blocks,
                buffer: Vec::new(),
                in_flight,
                next,
            },
            Action::Abort(e),
        )
    }

    fn enter(self, phase: Phase) -> (r: Session)
        requires
            self@.phase == Phase::AwaitBitfield && phase == Phase::SendInterested || self@.phase
                == Phase::SendInterested && phase == Phase::AwaitUnchoke || self@.phase
                == Phase::Verifying && phase == Phase::Done,
        ensures
            r@ == (SessionState { phase, ..self@ }),
    {
        proof {
            use_type_invariant(&self);
        }
        let Session {
            piece_index,
            piece_len,
            expected,
            pipeline,
            blocks,
            buffer,
            in_flight,
            next,
            ..
        } = self;
        Session { piece_index, piece_len, expected, pipeline, phase, blocks, buffer, in_flight, next }
    }

    fn request(&self, k: usize) -> (m: Message)
        requires
            k < self@.blocks.len(),
        ensures
            m@ == request_for(self@.piece_index, self@.piece_len, k as nat),
    {
        proof {
            use_type_invariant(self);
            lemma_blocks_cover(self@.piece_len, k as nat);
        }
        let begin: u32 = BLOCK_SIZE * (k as u32);
        let remaining: u32 = self.piece_len - begin;
        let length: u32 = if remaining >= BLOCK_SIZE {
            BLOCK_SIZE
        } else {
            remaining
        };
        Message::Request { index: self.piece_index, begin, length }
    }

    fn begin_requests(self) -> (r: (Session, Action))
        requires
            self@.phase == Phase::AwaitUnchoke,
        ensures
            (r.0@, r.1@) == start_requests(self@),
    {
        proof {
            use_type_invariant(&self);
            lemma_start_requests_wf(self@);
        }
        let ghost s = self@;
        let n = self.blocks.len();
        let m = if self.pipeline < n {
            self.pipeline
        } else {
            n
        };
        let mut requests: Vec<Message> = Vec::new();
        let mut k: usize = 0;
        while k < m
            invariant
                k <= m <= n,
                n == s.blocks.len(),
                self@ == s,
                requests@.len() == k,
                forall|i: int|
                    0 <= i < k ==> (#[trigger] requests@[i])@ == request_for(
                        s.piece_index,
                        s.piece_len,
                        i as nat,
                    ),
            decreases m - k,
        {
            let message = self.request(k);
            requests.push(message);
            k += 1;
        }
        let Session { piece_index, piece_len, expected, pipeline, blocks, buffer, .. } = self;
        let mut blocks = blocks;
        let mut k: usize = 0;
        while k < m
            invariant
                k <= m <= n,
                blocks@.len() == n,
                forall|i: int| 0 <= i < k ==> blocks@[i] == BlockStatus::Requested,
                forall|i: int| k <= i < n ==> blocks@[i] == BlockStatus::Pending,
            decreases m - k,
        {
            blocks.set(k, BlockStatus::Requested);
            k += 1;
        }
        proof {
            assert(blocks@ =~= start_requests(s).0.blocks);
            assert(frames_of(requests@) =~= start_requests(s).1->Write_0);
            lemma_count_prefix(blocks@, m as int);
            lemma_first_pending_is(blocks@, 0, m as int);
        }
        (
            Session {
                piece_index,
                piece_len,
                expected,
                pipeline,
                phase: Phase::Requesting,
                blocks,
                buffer,
                in_flight: m,
                next: m,
            },
            Action::Write(requests),
        )
    }

    fn take_block(self, index: u32, begin: u32, block: Vec<u8>) -> (r: (Session, Action))
        requires
            self@.phase == Phase::Requesting,
        ensures
            (r.0@, r.1@) == on_block(self@, index, begin, block@),
    {
        proof {
            use_type_invariant(&self);
        }
        let ghost s = self@;
        let k = (begin / BLOCK_SIZE) as usize;
        if index != self.piece_index || begin % BLOCK_SIZE != 0 || k >= self.blocks.len()
            || self.blocks[k] != BlockStatus::Requested {
            return self.fail(SessionError::Protocol(ProtocolError::UnexpectedBlock));
        }
        proof {
            lemma_blocks_cover(s.piece_len, k as nat);
        }
        let remaining: u32 = self.piece_len - begin;
        let length: u32 = if remaining >= BLOCK_SIZE {
            BLOCK_SIZE
        } else {
            remaining
        };
        if block.len() != length as usize {
            return self.fail(SessionError::Protocol(ProtocolError::UnexpectedBlock));
        }
        let following = if self.next < self.blocks.len() {
            Some(self.request(self.next))
        } else {
            None
        };
        let Session {
            piece_index,
            piece_len,
            expected,
            pipeline,
            phase,
            blocks,
            buffer,
            in_flight,
            next,
        } = self;
        let mut blocks = blocks;
        let mut buffer = buffer;
        write_block(&mut buffer, begin as usize, &block);
        blocks.set(k, BlockStatus::Received);
        proof {
            lemma_on_block_wf(s, index, begin, block@);
            lemma_first_pending(s.blocks, 0);
            lemma_count_update(s.blocks, k as int, BlockStatus::Received);
            lemma_first_pending_is(blocks@, 0, next as int);
        }
        match following {
            Some(message) => {
                proof {
                    lemma_count_update(blocks@, next as int, BlockStatus::Requested);
                    lemma_first_pending_is(
                        blocks@.update(next as int, BlockStatus::Requested),
                        0,
                        next + 1,
                    );
                }
                blocks.set(next, BlockStatus::Requested);
                let mut requests: Vec<Message> = Vec::new();
                requests.push(message);
                assert(frames_of(requests@) =~= seq![
                    request_for(s.piece_index, s.piece_len, next as nat),
                ]);
                (
                    Session {
                        piece_index,
                        piece_len,
                        expected,
                        pipeline,
                        phase,
                        blocks,
                        buffer,
                        in_flight,
                        next: next + 1,
                    },
                    Action::Write(requests),
                )
            },
            None => {
                proof {
                    lemma_count_zero(blocks@);
                }
                if in_flight == 1 {
                    (
                        Session {
                            piece_index,
                            piece_len,
                            expected,
                            pipeline,
                            phase: Phase::Verifying,
                            blocks,
                            buffer,
                            in_flight: 0,
                            next,
                        },
                        Action::Verify,
                    )
                } else {
                    (
                        Session {
                            piece_index,
                            piece_len,
                            expected,
                            pipeline,
                            phase,
                            blocks,
                            buffer,
                            in_flight: in_flight - 1,
                            next,
                        },
                        Action::Read,
                    )
                }
            },
        }
    }

    fn take_message(self, message: Message) -> (r: (Session, Action))
        requires
            self@.phase != Phase::Verifying,
            self@.phase != Phase::Done,
            !(self@.phase is Failed),
        ensures
            (r.0@, r.1@) == on_message(self@, message@),
    {
        let unexpected = SessionError::Protocol(ProtocolError::UnexpectedMessage);
        match self.phase {
            Phase::AwaitBitfield => match message {
                Message::Have { .. } => (self, Action::Read),
                Message::Bitfield { .. } => {
                    let mut messages: Vec<Message> = Vec::new();
                    messages.push(Message::Interested);
                    assert(frames_of(messages@) =~= seq![Frame::Interested]);
                    (self.enter(Phase::SendInterested), Action::Write(messages))
                },
                _ => self.fail(unexpected),
            },
            Phase::AwaitUnchoke => match message {
                Message::Choke => (self, Action::Read),
                Message::Have { .. } => (self, Action::Read),
                Message::KeepAlive => (self, Action::Read),
                Message::Unchoke => self.begin_requests(),
                _ => self.fail(unexpected),
            },
            Phase::Requesting => match message {
                Message::Piece { index, begin, block } => self.take_block(index, begin, block),
                Message::Choke => self.fail(SessionError::Protocol(ProtocolError::Choked)),
                Message::KeepAlive => (self, Action::Read),
                Message::Have { .. } => (self, Action::Read),
                Message::Unchoke => (self, Action::Read),
                _ => self.fail(unexpected),
            },
            _ => self.fail(unexpected),
        }
    }

    /// One transition of the session, up to the check of the digest:
    /// takes what happened on the connection and says what to do next.
    /// When the last block arrives the session goes to `Verifying` and
    /// asks for the digest to be checked.
    pub fn advance(self, event: Event) -> (r: (Session, Action))
        ensures
            (r.0@, r.1@) == advance(self@, event@),
    {
        match self.phase {
            Phase::Verifying => (self, Action::Verify),
            Phase::Done => (self, Action::Complete),
            Phase::Failed(e) => (self, Action::Abort(e)),
            _ => match event {
                Event::TimedOut => self.fail(SessionError::Protocol(ProtocolError::TimedOut)),
                Event::Closed => self.fail(SessionError::Protocol(ProtocolError::Closed)),
                Event::IoFailed => self.fail(SessionError::Io),
                Event::Malformed(e) => self.fail(SessionError::Protocol(e)),
                Event::Written => match self.phase {
                    Phase::SendInterested => (self.enter(Phase::AwaitUnchoke), Action::Read),
                    _ => (self, Action::Read),
                },
                Event::Message(message) => self.take_message(message),
            },
        }
    }

    /// Ends verification with the digest that was computed of the
    /// assembled piece: the session is done when it is the expected one,
    /// and fails when it is not. Outside verification nothing changes.
    pub fn conclude(self, digest: &[u8; 20]) -> (r: (Session, Action))
        ensures
            (r.0@, r.1@) == conclude(self@, digest@),
    {
        proof {
            use_type_invariant(&self);
        }
        match self.phase {
            Phase::Verifying => {
                if bytes_eq(digest.as_slice(), self.expected.as_slice()) {
                    (self.enter(Phase::Done), Action::Complete)
                } else {
                    self.fail(SessionError::HashMismatch)
                }
            },
            Phase::SendInterested => {
                let mut messages: Vec<Message> = Vec::new();
                messages.push(Message::Interested);
                assert(frames_of(messages@) =~= seq![Frame::Interested]);
                (self, Action::Write(messages))
            },
            Phase::Done => (self, Action::Complete),
            Phase::Failed(e) => (self, Action::Abort(e)),
            _ => (self, Action::Read),
        }
    }

    /// One whole transition: takes what happened on the connection and
    /// says what to do next. When the last block arrives the SHA-1
    /// digest of the piece is computed and checked at once, so that the
    /// session ends in `Done` or in `Failed`.
    pub fn step(self, event: Event) -> (r: (Session, Action))
        ensures
            (r.0@, r.1@) == step(self@, event@),
    {
        let (session, action) = self.advance(event);
        match session.phase {
            Phase::Verifying => {
                let digest = sha1(session.buffer.as_slice());
                session.conclude(&digest)
            },
            _ => (session, action),
        }
    }
}

} // verus!
