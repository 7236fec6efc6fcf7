//! What holds of every download session.

use vstd::prelude::*;
use crate::digest::sha1_digest;
use crate::download::state::{
    advance, all_received, block_count, block_expected, block_len, conclude,
    count_requested, first_pending, initial_state, on_block, pending_last, start_requests, step,
    write_at, ActionView, BlockStatus, EventView, Phase, SessionError, SessionState,
};
use crate::wire::Frame;

verus! {

/// What `first_pending` finds: no block before it is pending, and the
/// block at it is, if there is one.
pub(crate) proof fn lemma_first_pending(blocks: Seq<BlockStatus>, from: int)
    requires
        0 <= from <= blocks.len(),
    ensures
        from <= first_pending(blocks, from) <= blocks.len(),
        forall|i: int|
            from <= i < first_pending(blocks, from) ==> blocks[i] != BlockStatus::Pending,
        first_pending(blocks, from) < blocks.len() ==> blocks[first_pending(blocks, from)]
            == BlockStatus::Pending,
    decreases blocks.len() - from,
{
    if from < blocks.len() && blocks[from] != BlockStatus::Pending {
        lemma_first_pending(blocks, from + 1);
    }
}

/// The first index with a pending block, after blocks that are not, is
/// what `first_pending` finds.
pub(crate) proof fn lemma_first_pending_is(blocks: Seq<BlockStatus>, from: int, p: int)
    requires
        0 <= from <= p <= blocks.len(),
        forall|i: int| from <= i < p ==> blocks[i] != BlockStatus::Pending,
        p < blocks.len() ==> blocks[p] == BlockStatus::Pending,
    ensures
        first_pending(blocks, from) == p,
    decreases p - from,
{
    if from < p {
        lemma_first_pending_is(blocks, from + 1, p);
    }
}

/// How a change of one block's status changes the number of outstanding
/// requests.
pub(crate) proof fn lemma_count_update(blocks: Seq<BlockStatus>, k: int, status: BlockStatus)
    requires
        0 <= k < blocks.len(),
    ensures
        count_requested(blocks.update(k, status)) == count_requested(blocks) - (if blocks[k]
            == BlockStatus::Requested {
            1int
        } else {
            0int
        }) + (if status == BlockStatus::Requested {
            1int
        } else {
            0int
        }),
    decreases blocks.len(),
{
    let updated = blocks.update(k, status);
    if k == blocks.len() - 1 {
        assert(updated.drop_last() =~= blocks.drop_last());
    } else {
        lemma_count_update(blocks.drop_last(), k, status);
        assert(updated.drop_last() =~= blocks.drop_last().update(k, status));
    }
}

/// No request is outstanding exactly when no block has that status.
pub(crate) proof fn lemma_count_zero(blocks: Seq<BlockStatus>)
    ensures
        count_requested(blocks) == 0 <==> forall|k: int|
            0 <= k < blocks.len() ==> blocks[k] != BlockStatus::Requested,
    decreases blocks.len(),
{
    if blocks.len() > 0 {
        let head = blocks.drop_last();
        lemma_count_zero(head);
        if count_requested(blocks) == 0 {
            assert forall|k: int| 0 <= k < blocks.len() implies blocks[k]
                != BlockStatus::Requested by {
                if k < head.len() {
                    assert(head[k] == blocks[k]);
                }
            }
        } else if blocks.last() != BlockStatus::Requested {
            let k = choose|k: int| 0 <= k < head.len() && head[k] == BlockStatus::Requested;
            assert(blocks[k] == BlockStatus::Requested);
        }
    }
}

/// When the first `m` blocks are requested and the others pending, `m`
/// requests are outstanding.
pub(crate) proof fn lemma_count_prefix(blocks: Seq<BlockStatus>, m: int)
    requires
        0 <= m <= blocks.len(),
        forall|k: int| 0 <= k < m ==> blocks[k] == BlockStatus::Requested,
        forall|k: int| m <= k < blocks.len() ==> blocks[k] == BlockStatus::Pending,
    ensures
        count_requested(blocks) == m,
    decreases blocks.len(),
{
    if blocks.len() > 0 {
        let head = blocks.drop_last();
        if m == blocks.len() {
            lemma_count_prefix(head, m - 1);
        } else {
            lemma_count_prefix(head, m);
        }
    }
}

/// A piece of at least one byte has at least one block, the blocks have
/// between 1 and 16384 bytes, and together they are the piece.
pub proof fn lemma_blocks_cover(piece_len: nat, k: nat)
    requires
        piece_len > 0,
        k < block_count(piece_len),
    ensures
        block_count(piece_len) >= 1,
        0 < block_len(piece_len, k) <= 16384,
        16384 * k + block_len(piece_len, k) <= piece_len,
        k + 1 < block_count(piece_len) ==> block_len(piece_len, k) == 16384,
        k + 1 == block_count(piece_len) ==> 16384 * k + block_len(piece_len, k) == piece_len,
{
}

/// Writes at offsets that do not overlap can be made in either order:
/// the buffer that results is the same.
pub proof fn lemma_writes_commute(buf: Seq<u8>, at1: int, data1: Seq<u8>, at2: int, data2: Seq<u8>)
    requires
        0 <= at1,
        at1 + data1.len() <= buf.len(),
        0 <= at2,
        at2 + data2.len() <= buf.len(),
        at1 + data1.len() <= at2 || at2 + data2.len() <= at1,
    ensures
        write_at(write_at(buf, at1, data1), at2, data2) == write_at(
            write_at(buf, at2, data2),
            at1,
            data1,
        ),
{
    assert(write_at(write_at(buf, at1, data1), at2, data2) =~= write_at(
        write_at(buf, at2, data2),
        at1,
        data1,
    ));
}

/// A write changes the bytes it covers and no others, and keeps the
/// length of the buffer.
pub proof fn lemma_write_at(buf: Seq<u8>, at: int, data: Seq<u8>)
    requires
        0 <= at,
        at + data.len() <= buf.len(),
    ensures
        write_at(buf, at, data).len() == buf.len(),
        forall|i: int| at <= i < at + data.len() ==> write_at(buf, at, data)[i] == data[i - at],
        forall|i: int|
            0 <= i < buf.len() && !(at <= i < at + data.len()) ==> write_at(buf, at, data)[i]
                == buf[i],
{
}

/// Whether every block of the session that is here holds the bytes that
/// `content` has at the block's offset.
pub open spec fn agrees(s: SessionState, content: Seq<u8>) -> bool {
    &&& content.len() == s.piece_len
    &&& s.buffer.len() == s.piece_len
    &&& forall|i: int|
        0 <= i < s.piece_len && s.blocks[i / 16384] == BlockStatus::Received ==> s.buffer[i]
            == content[i]
}

/// The `piece` message that carries block `k` of `content`.
pub open spec fn content_block(piece_index: u32, content: Seq<u8>, k: nat) -> Frame {
    Frame::Piece {
        index: piece_index,
        begin: (16384 * k) as u32,
        block: content.subrange(16384 * k as int, 16384 * k + block_len(content.len(), k) as int),
    }
}

/// A block of `content` that was asked for is accepted whenever it
/// arrives, and is written where it belongs: the blocks that are here,
/// this one among them, still hold what `content` has at their offsets.
/// Nothing is said of the order in which blocks arrive, so the order
/// does not matter.
pub proof fn lemma_block_keeps_content(s: SessionState, content: Seq<u8>, k: nat)
    requires
        s.wf(),
        s.phase == Phase::Requesting,
        agrees(s, content),
        k < s.blocks.len(),
        s.blocks[k as int] == BlockStatus::Requested,
    ensures
        ({
            let after = advance(
                s,
                EventView::Message(content_block(s.piece_index, content, k)),
            ).0;
            &&& after.phase == Phase::Requesting || after.phase == Phase::Verifying
            &&& after.blocks[k as int] == BlockStatus::Received
            &&& agrees(after, content)
        }),
{
    lemma_blocks_cover(s.piece_len, k);
    let begin = (16384 * k) as u32;
    let block = content.subrange(16384 * k as int, 16384 * k + block_len(content.len(), k) as int);
    assert(block_expected(s, s.piece_index, begin, block));
    let after = on_block(s, s.piece_index, begin, block).0;
    let buffer = write_at(s.buffer, begin as int, block);
    let blocks = s.blocks.update(k as int, BlockStatus::Received);
    lemma_write_at(s.buffer, begin as int, block);
    lemma_first_pending(blocks, 0);
    assert(after.buffer == buffer);
    assert forall|i: int|
        0 <= i < after.piece_len && after.blocks[i / 16384]
            == BlockStatus::Received implies after.buffer[i] == content[i] by {
        if i / 16384 == k {
            assert(begin <= i < begin + block.len());
            assert(buffer[i] == block[i - begin]);
        } else {
            assert(s.blocks[i / 16384] == BlockStatus::Received);
            assert(!(begin <= i < begin + block.len()));
        }
    }
}

/// Once every block is here the buffer is the content that the blocks
/// were cut from.
pub proof fn lemma_complete_is_content(s: SessionState, content: Seq<u8>)
    requires
        s.blocks.len() == block_count(s.piece_len),
        all_received(s.blocks),
        agrees(s, content),
    ensures
        s.buffer == content,
{
    assert forall|i: int| 0 <= i < s.piece_len implies s.buffer[i] == content[i] by {
        assert(0 <= i / 16384 < s.blocks.len());
    }
    assert(s.buffer =~= content);
}

/// Whether an event, if it brings a block, brings the bytes that
/// `content` has at the block's offset.
pub open spec fn from_content(e: EventView, content: Seq<u8>) -> bool {
    match e {
        EventView::Message(Frame::Piece { index, begin, block }) => begin + block.len()
            <= content.len() ==> block == content.subrange(
            begin as int,
            begin + block.len() as int,
        ),
        _ => true,
    }
}

/// The session after a run of events, each taken by a whole transition.
pub open spec fn run(s: SessionState, events: Seq<EventView>) -> SessionState
    decreases events.len(),
{
    if events.len() == 0 {
        s
    } else {
        step(run(s, events.drop_last()), events.last()).0
    }
}

/// A transition changes neither the piece that a session is for nor what
/// is expected of it.
pub proof fn lemma_step_keeps_piece(s: SessionState, e: EventView)
    ensures
        step(s, e).0.piece_index == s.piece_index,
        step(s, e).0.piece_len == s.piece_len,
        step(s, e).0.expected == s.expected,
        step(s, e).0.pipeline == s.pipeline,
{
}

/// A transition on an event that brings nothing but bytes of `content`
/// leaves a session that has failed or whose blocks, as far as they are
/// here, hold what `content` has at their offsets.
pub proof fn lemma_step_keeps_content(s: SessionState, e: EventView, content: Seq<u8>)
    requires
        s.wf(),
        s.phase is Failed || agrees(s, content),
        content.len() == s.piece_len,
        from_content(e, content),
    ensures
        step(s, e).0.phase is Failed || agrees(step(s, e).0, content),
{
    if !(s.phase is Failed) {
        match e {
            EventView::Message(Frame::Piece { index, begin, block }) => {
                if s.phase == Phase::Requesting && block_expected(s, index, begin, block) {
                    let k = (begin as int / 16384) as nat;
                    lemma_blocks_cover(s.piece_len, k);
                    assert(block == content.subrange(16384 * k as int, 16384 * k + block_len(
                        content.len(),
                        k,
                    ) as int));
                    assert(EventView::Message(content_block(s.piece_index, content, k)) == e);
                    lemma_block_keeps_content(s, content, k);
                }
            },
            _ => {},
        }
    }
}

/// Whatever happens on the connection, and in whatever order the blocks
/// arrive: as long as every block that arrives is cut from `content`, a
/// session that started for a piece is well-formed after any run of
/// events, and if it is done, its buffer is `content` and `content` has
/// the expected digest. A piece whose digest is not the expected one is
/// therefore never handed out.
pub proof fn lemma_run(s: SessionState, events: Seq<EventView>, content: Seq<u8>)
    requires
        s.wf(),
        s.phase == Phase::AwaitBitfield,
        content.len() == s.piece_len,
        forall|i: int| 0 <= i < events.len() ==> from_content(#[trigger] events[i], content),
    ensures
        run(s, events).wf(),
        run(s, events).piece_len == s.piece_len,
        run(s, events).expected == s.expected,
        run(s, events).phase is Failed || agrees(run(s, events), content),
        run(s, events).phase != Phase::Verifying,
        run(s, events).phase == Phase::Done ==> run(s, events).buffer == content && sha1_digest(
            content,
        ) == s.expected,
    decreases events.len(),
{
    if events.len() > 0 {
        let before = run(s, events.drop_last());
        let e = events.last();
        assert forall|i: int| 0 <= i < events.drop_last().len() implies from_content(
            #[trigger] events.drop_last()[i],
            content,
        ) by {
            assert(events.drop_last()[i] == events[i]);
        }
        lemma_run(s, events.drop_last(), content);
        assert(from_content(events[events.len() - 1], content));
        lemma_step_wf(before, e);
        lemma_step_keeps_piece(before, e);
        lemma_step_keeps_content(before, e, content);
        let after = step(before, e).0;
        if after.phase == Phase::Done {
            if before.phase != Phase::Done {
                lemma_done_is_verified(before, e);
            }
            lemma_complete_is_content(after, content);
        }
    }
}

/// The session that a piece starts with is well-formed.
pub proof fn lemma_initial_wf(piece_index: u32, piece_len: nat, expected: Seq<u8>, pipeline: nat)
    requires
        0 < piece_len <= u32::MAX,
        expected.len() == 20,
        pipeline >= 1,
    ensures
        initial_state(piece_index, piece_len, expected, pipeline).wf(),
{
}

/// After the first requests, as many are outstanding as the pipeline
/// holds or the piece has blocks.
pub(crate) proof fn lemma_start_requests_wf(s: SessionState)
    requires
        s.wf(),
        s.phase == Phase::AwaitUnchoke,
    ensures
        start_requests(s).0.wf(),
{
    let n = s.blocks.len() as int;
    let m = if s.pipeline < n {
        s.pipeline as int
    } else {
        n
    };
    let blocks = start_requests(s).0.blocks;
    lemma_blocks_cover(s.piece_len, 0);
    lemma_count_prefix(blocks, m);
}

/// What a block that is written leaves behind.
pub(crate) proof fn lemma_on_block_wf(s: SessionState, index: u32, begin: u32, block: Seq<u8>)
    requires
        s.wf(),
        s.phase == Phase::Requesting,
    ensures
        on_block(s, index, begin, block).0.wf(),
{
    if block_expected(s, index, begin, block) {
        let k = begin as int / 16384;
        lemma_blocks_cover(s.piece_len, k as nat);
        let buffer = write_at(s.buffer, begin as int, block);
        let blocks = s.blocks.update(k, BlockStatus::Received);
        let p = first_pending(blocks, 0);
        lemma_first_pending(blocks, 0);
        lemma_count_update(s.blocks, k, BlockStatus::Received);
        assert(pending_last(blocks));
        if p < blocks.len() {
            let next = blocks.update(p, BlockStatus::Requested);
            lemma_count_update(blocks, p, BlockStatus::Requested);
            assert(pending_last(next)) by {
                assert forall|i: int, j: int|
                    0 <= i <= j < next.len() && next[i] == BlockStatus::Pending implies next[j]
                    == BlockStatus::Pending by {
                    assert(blocks[i] == BlockStatus::Pending);
                    assert(i > p);
                    assert(blocks[j] == BlockStatus::Pending);
                }
            }
        } else if all_received(blocks) {
        } else {
            lemma_count_zero(blocks);
        }
    }
}

/// Every transition keeps a session well-formed.
pub proof fn lemma_advance_wf(s: SessionState, e: EventView)
    requires
        s.wf(),
    ensures
        advance(s, e).0.wf(),
{
    match e {
        EventView::Message(m) => {
            if s.phase == Phase::AwaitUnchoke {
                lemma_start_requests_wf(s);
            }
            if s.phase == Phase::Requesting {
                match m {
                    Frame::Piece { index, begin, block } => {
                        lemma_on_block_wf(s, index, begin, block);
                    },
                    _ => {},
                }
            }
        },
        _ => {},
    }
}

/// The end of verification keeps a session well-formed.
pub proof fn lemma_conclude_wf(s: SessionState, digest: Seq<u8>)
    requires
        s.wf(),
    ensures
        conclude(s, digest).0.wf(),
{
}

/// A whole transition keeps a session well-formed, and never leaves it
/// waiting for verification.
pub proof fn lemma_step_wf(s: SessionState, e: EventView)
    requires
        s.wf(),
    ensures
        step(s, e).0.wf(),
        step(s, e).0.phase != Phase::Verifying,
{
    lemma_advance_wf(s, e);
    lemma_conclude_wf(advance(s, e).0, sha1_digest(advance(s, e).0.buffer));
}

/// No piece is handed out unverified: a transition ends in `Done` only
/// with a whole buffer whose SHA-1 digest is the expected one, and a
/// whole buffer with any other digest ends in `Failed` with the buffer
/// discarded.
pub proof fn lemma_done_is_verified(s: SessionState, e: EventView)
    requires
        s.wf(),
        s.phase != Phase::Done,
    ensures
        step(s, e).0.phase == Phase::Done ==> {
            &&& step(s, e).1 == ActionView::Complete
            &&& step(s, e).0.buffer.len() == s.piece_len
            &&& sha1_digest(step(s, e).0.buffer) == s.expected
        },
        advance(s, e).0.phase == Phase::Verifying && sha1_digest(advance(s, e).0.buffer)
            != s.expected ==> {
            &&& step(s, e).0.phase == Phase::Failed(SessionError::HashMismatch)
            &&& step(s, e).1 == ActionView::Abort(SessionError::HashMismatch)
            &&& step(s, e).0.buffer.len() == 0
        },
{
    lemma_advance_wf(s, e);
}

/// A session that is done or has failed stays so, whatever happens.
pub proof fn lemma_terminal(s: SessionState, e: EventView)
    requires
        s.phase == Phase::Done || s.phase is Failed,
    ensures
        step(s, e).0 == s,
{
}

/// While blocks are asked for, at least one request and at most as many
/// as the pipeline holds are outstanding.
pub proof fn lemma_pipeline_bound(s: SessionState, e: EventView)
    requires
        s.wf(),
    ensures
        step(s, e).0.phase == Phase::Requesting ==> 1 <= count_requested(step(s, e).0.blocks)
            <= s.pipeline,
{
    lemma_step_wf(s, e);
}

} // verus!
