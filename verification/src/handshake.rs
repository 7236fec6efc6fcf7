//! The peer handshake: 68 bytes sent, 68 bytes received and checked.

use vstd::prelude::*;
use vstd::string::{is_ascii, StringSliceAdditionalSpecFns};
use crate::bytes::{bytes_eq, push_bytes};

verus! {

/// The length in bytes of a handshake message.
pub const HANDSHAKE_LEN: usize = 68;

/// The protocol identifier, `BitTorrent protocol`.
pub open spec fn protocol_id() -> Seq<u8> {
    "BitTorrent protocol".spec_bytes()
}

/// The protocol identifier has 19 bytes.
pub proof fn lemma_protocol_id()
    ensures
        protocol_id().len() == 19,
{
    reveal_strlit("BitTorrent protocol");
    assert(is_ascii("BitTorrent protocol"));
}

/// The handshake message: the length of the protocol identifier, the
/// identifier, eight reserved zero bytes, the info hash and the peer id
/// of the sender.
pub open spec fn handshake_message(info_hash: Seq<u8>, peer_id: Seq<u8>) -> Seq<u8> {
    seq![19u8] + protocol_id() + Seq::new(8, |i: int| 0u8) + info_hash + peer_id
}

/// Why a handshake failed.
#[derive(Debug, Clone, Copy, PartialEq, Eq, Structural)]
pub enum HandshakeError {
    /// Fewer than 68 bytes arrived.
    ShortRead,
    /// The reply does not start with the protocol identifier and its
    /// length.
    BadProtocol,
    /// The reply is for another torrent.
    InfoHashMismatch,
}

/// What a peer's reply to a handshake for `info_hash` says: the peer id
/// of the remote side, or why the handshake failed. Of a longer reply
/// only the first 68 bytes are looked at.
pub open spec fn check_reply(reply: Seq<u8>, info_hash: Seq<u8>) -> Result<
    Seq<u8>,
    HandshakeError,
> {
    if reply.len() < 68 {
        Err(HandshakeError::ShortRead)
    } else if reply[0] != 19 || reply.subrange(1, 20) != protocol_id() {
        Err(HandshakeError::BadProtocol)
    } else if reply.subrange(28, 48) != info_hash {
        Err(HandshakeError::InfoHashMismatch)
    } else {
        Ok(reply.subrange(48, 68))
    }
}

/// A peer that echoes the info hash is accepted: the reply that a peer
/// with id `remote_id` sends for the same torrent passes the check and
/// gives that id.
pub proof fn lemma_handshake_accepts(info_hash: Seq<u8>, remote_id: Seq<u8>)
    requires
        info_hash.len() == 20,
        remote_id.len() == 20,
    ensures
        handshake_message(info_hash, remote_id).len() == 68,
        check_reply(handshake_message(info_hash, remote_id), info_hash) == Ok::<
            Seq<u8>,
            HandshakeError,
        >(remote_id),
{
    let m = handshake_message(info_hash, remote_id);
    lemma_protocol_id();
    assert(m.subrange(1, 20) =~= protocol_id());
    assert(m.subrange(28, 48) =~= info_hash);
    assert(m.subrange(48, 68) =~= remote_id);
}

/// A reply for another torrent is refused, whatever else it holds.
pub proof fn lemma_handshake_refuses(reply: Seq<u8>, info_hash: Seq<u8>)
    requires
        reply.len() >= 68,
        reply.subrange(28, 48) != info_hash,
    ensures
        check_reply(reply, info_hash) is Err,
{
}

/// What a successful handshake gives.
#[derive(Debug, Clone, Copy, PartialEq, Eq)]
pub struct HandshakeResult {
    /// The peer id of the remote side.
    pub peer_id: [u8; 20],
}

/// The state of a handshake.
#[derive(Debug, Clone, Copy, PartialEq, Eq)]
pub enum Handshake {
    /// The handshake message for this info hash has been sent.
    Sent { info_hash: [u8; 20] },
    /// The peer answered for the same torrent.
    Verified(HandshakeResult),
    /// The handshake failed; the connection is not to be used.
    Failed(HandshakeError),
}

/// A handshake as a mathematical object.
pub enum HandshakeView {
    Sent { info_hash: Seq<u8> },
    Verified { peer_id: Seq<u8> },
    Failed(HandshakeError),
}

impl View for Handshake {
    type V = HandshakeView;

    open spec fn view(&self) -> HandshakeView {
        match self {
            Handshake::Sent { info_hash } => HandshakeView::Sent { info_hash: info_hash@ },
            Handshake::Verified(result) => HandshakeView::Verified { peer_id: result.peer_id@ },
            Handshake::Failed(e) => HandshakeView::Failed(*e),
        }
    }
}

/// The state after the peer's reply: a handshake that was sent is
/// verified or has failed; one that is verified or has failed stays so.
pub open spec fn after_reply(state: HandshakeView, reply: Seq<u8>) -> HandshakeView {
    match state {
        HandshakeView::Sent { info_hash } => match check_reply(reply, info_hash) {
            Ok(peer_id) => HandshakeView::Verified { peer_id },
            Err(e) => HandshakeView::Failed(e),
        },
        _ => state,
    }
}

/// Builds the handshake message for a torrent.
pub fn build_handshake(info_hash: &[u8; 20], peer_id: &[u8; 20]) -> (message: Vec<u8>)
    ensures
        message@ == handshake_message(info_hash@, peer_id@),
        message@.len() == 68,
{
    let mut message: Vec<u8> = Vec::new();
    message.push(19u8);
    push_bytes(&mut message, "BitTorrent protocol".as_bytes());
    let reserved = [0u8; 8];
    push_bytes(&mut message, reserved.as_slice());
    push_bytes(&mut message, info_hash.as_slice());
    push_bytes(&mut message, peer_id.as_slice());
    proof {
        lemma_protocol_id();
    }
    assert(reserved@ =~= Seq::new(8, |i: int| 0u8));
    assert(message@ =~= handshake_message(info_hash@, peer_id@));
    message
}

/// Checks a peer's reply to the handshake for `info_hash`.
pub fn check_handshake(reply: &[u8], info_hash: &[u8; 20]) -> (r: Result<
    HandshakeResult,
    HandshakeError,
>)
    ensures
        match r {
            Ok(result) => check_reply(reply@, info_hash@) == Ok::<Seq<u8>, HandshakeError>(
                result.peer_id@,
            ),
            Err(e) => check_reply(reply@, info_hash@) == Err::<Seq<u8>, HandshakeError>(e),
        },
{
    if reply.len() < 68 {
        return Err(HandshakeError::ShortRead);
    }
    let id = "BitTorrent protocol".as_bytes();
    if reply[0] != 19 || !bytes_eq(vstd::slice::slice_subrange(reply, 1, 20), id) {
        return Err(HandshakeError::BadProtocol);
    }
    if !bytes_eq(vstd::slice::slice_subrange(reply, 28, 48), info_hash.as_slice()) {
        return Err(HandshakeError::InfoHashMismatch);
    }
    let mut peer_id = [0u8; 20];
    let mut i: usize = 0;
    while i < 20
        invariant
            i <= 20,
            reply@.len() >= 68,
            forall|k: int| 0 <= k < i ==> peer_id@[k] == reply@[48 + k],
        decreases 20 - i,
    {
        peer_id[i] = reply[48 + i];
        i += 1;
    }
    assert(peer_id@ =~= reply@.subrange(48, 68));
    Ok(HandshakeResult { peer_id })
}

impl Handshake {
    /// Begins a handshake: gives the state `Sent` and the message to
    /// write to the connection.
    pub fn begin(info_hash: [u8; 20], peer_id: &[u8; 20]) -> (r: (Handshake, Vec<u8>))
        ensures
            r.0@ == (HandshakeView::Sent { info_hash: info_hash@ }),
            r.1@ == handshake_message(info_hash@, peer_id@),
    {
        let message = build_handshake(&info_hash, peer_id);
        (Handshake::Sent { info_hash }, message)
    }

    /// Takes the bytes that were read in reply, all 68 or as many as
    /// arrived before the connection ended.
    pub fn receive(self, reply: &[u8]) -> (next: Handshake)
        ensures
            next@ == after_reply(self@, reply@),
    {
        match self {
            Handshake::Sent { info_hash } => match check_handshake(reply, &info_hash) {
                Ok(result) => Handshake::Verified(result),
                Err(e) => Handshake::Failed(e),
            },
            _ => self,
        }
    }
}

} // verus!
