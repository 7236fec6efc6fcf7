//! The tracker announce: the query that is sent and the peers that come
//! back.

use vstd::prelude::*;
use vstd::string::StringSliceAdditionalSpecFns;
use crate::bencode::decode::{decode, spec_decode, MAX_DEPTH};
use crate::bencode::value::{dict_get, Bencode, BencodeValue};
use crate::bytes::{be16_value, be32_value, decimal, push_bytes, push_decimal, read_u16, read_u32};
use crate::metainfo::TorrentMetadata;

verus! {

/// The port that is announced when the client listens on none.
pub const DEFAULT_PORT: u16 = 6881;

/// `?`, which starts the query of a URL.
pub const QUERY_START: u8 = 63;

/// `&`, which stands between the parameters of a query.
pub const PARAMETER_SEPARATOR: u8 = 38;

/// `%`, which starts an escaped byte.
pub const ESCAPE: u8 = 37;

/// A peer of the swarm: an IPv4 address and a port.
#[derive(Debug, Clone, Copy, PartialEq, Eq, Structural)]
pub struct Peer {
    /// The address, its first octet in the most significant byte.
    pub ip: u32,
    /// The port.
    pub port: u16,
}

/// Why an announce gave no peers.
#[derive(Debug, Clone, Copy, PartialEq, Eq, Structural)]
pub enum TrackerError {
    /// The request did not succeed.
    Transport,
    /// The response is not a bencoded dictionary.
    InvalidBody,
    /// The response has no `peers`.
    MissingPeers,
    /// `peers` is not a string of entries of six bytes.
    MalformedPeers,
    /// The tracker knows no peer.
    NoPeers,
}

/// The dictionary key `peers`.
pub open spec fn peers_key() -> Seq<u8> {
    "peers".spec_bytes()
}

/// Entry `i` of a compact peer list: four bytes of address and two of
/// port, each most significant byte first.
pub open spec fn peer_at(list: Seq<u8>, i: int) -> Peer {
    Peer {
        ip: be32_value(list.subrange(6 * i, 6 * i + 4)),
        port: be16_value(list.subrange(6 * i + 4, 6 * i + 6)),
    }
}

/// The peers of a compact peer list, in its order.
pub open spec fn compact_peers(list: Seq<u8>) -> Result<Seq<Peer>, TrackerError> {
    if list.len() % 6 != 0 {
        Err(TrackerError::MalformedPeers)
    } else {
        Ok(Seq::new((list.len() / 6) as nat, |i: int| peer_at(list, i)))
    }
}

/// The peers that an announce gave. `success` says whether the
/// transport reported success, `body` is what it brought.
pub open spec fn announce_response(success: bool, body: Seq<u8>) -> Result<
    Seq<Peer>,
    TrackerError,
> {
    if !success {
        Err(TrackerError::Transport)
    } else {
        match spec_decode(body, MAX_DEPTH as nat) {
            Ok((Bencode::Dictionary(d), _)) => match dict_get(d, peers_key()) {
                None => Err(TrackerError::MissingPeers),
                Some(Bencode::ByteString(list)) => compact_peers(list),
                Some(_) => Err(TrackerError::MalformedPeers),
            },
            _ => Err(TrackerError::InvalidBody),
        }
    }
}

/// Whether a byte stands for itself in a query: letters, digits and
/// `-`, `.`, `_`, `~`.
pub open spec fn is_unreserved(b: u8) -> bool {
    (48 <= b <= 57) || (65 <= b <= 90) || (97 <= b <= 122) || b == 45 || b == 46 || b == 95 || b
        == 126
}

/// The upper-case hexadecimal digit for a value below 16.
pub open spec fn hex_upper(n: int) -> u8 {
    if n < 10 {
        (48 + n) as u8
    } else {
        (55 + n) as u8
    }
}

/// A byte as it stands in a query: itself, or `%` and two hexadecimal
/// digits.
pub open spec fn percent_encode_byte(b: u8) -> Seq<u8> {
    if is_unreserved(b) {
        seq![b]
    } else {
        seq![ESCAPE, hex_upper(b as int / 16), hex_upper(b as int % 16)]
    }
}

/// A byte string as it stands in a query.
pub open spec fn percent_encode(s: Seq<u8>) -> Seq<u8>
    decreases s.len(),
{
    if s.len() == 0 {
        Seq::empty()
    } else {
        percent_encode(s.drop_last()) + percent_encode_byte(s.last())
    }
}

/// The query of an announce: the info hash and the peer id
/// percent-encoded, the port, nothing uploaded or downloaded, `left`
/// bytes to go, and a compact peer list asked for.
pub open spec fn announce_query(info_hash: Seq<u8>, peer_id: Seq<u8>, port: u16, left: nat) -> Seq<
    u8,
> {
    "info_hash=".spec_bytes() + percent_encode(info_hash) + "&peer_id=".spec_bytes()
        + percent_encode(peer_id) + "&port=".spec_bytes() + decimal(port as nat)
        + "&uploaded=0&downloaded=0&left=".spec_bytes() + decimal(left)
        + "&compact=1".spec_bytes()
}

/// The URL of an announce: the announce URL and the query, joined by `?`
/// or, when the announce URL has a query of its own, by `&`.
pub open spec fn announce_url(
    announce: Seq<u8>,
    info_hash: Seq<u8>,
    peer_id: Seq<u8>,
    port: u16,
    left: nat,
) -> Seq<u8> {
    announce + seq![
        if announce.contains(QUERY_START) {
            PARAMETER_SEPARATOR
        } else {
            QUERY_START
        },
    ] + announce_query(info_hash, peer_id, port, left)
}

fn hex_upper_of(n: u8) -> (c: u8)
    requires
        n < 16,
    ensures
        c == hex_upper(n as int),
{
    if n < 10 {
        48 + n
    } else {
        55 + n
    }
}

fn unreserved(b: u8) -> (r: bool)
    ensures
        r == is_unreserved(b),
{
    (48 <= b && b <= 57) || (65 <= b && b <= 90) || (97 <= b && b <= 122) || b == 45 || b == 46
        || b == 95 || b == 126
}

/// Appends `s` to `out` as it stands in a query.
pub fn push_percent_encoded(out: &mut Vec<u8>, s: &[u8])
    ensures
        final(out)@ == old(out)@ + percent_encode(s@),
{
    let ghost before = out@;
    let mut i: usize = 0;
    assert(s@.subrange(0, 0) =~= Seq::<u8>::empty());
    assert(out@ =~= before + percent_encode(s@.subrange(0, 0)));
    while i < s.len()
        invariant
            i <= s.len(),
            out@ == before + percent_encode(s@.subrange(0, i as int)),
        decreases s.len() - i,
    {
        let b = s[i];
        let ghost prev = out@;
        if unreserved(b) {
            out.push(b);
        } else {
            out.push(ESCAPE);
            out.push(hex_upper_of(b / 16));
            out.push(hex_upper_of(b % 16));
        }
        proof {
            let next = s@.subrange(0, i + 1);
            assert(next.drop_last() =~= s@.subrange(0, i as int));
            assert(next.last() == b);
            assert(out@ =~= prev + percent_encode_byte(b));
            assert(out@ =~= before + percent_encode(next));
        }
        i += 1;
    }
    assert(s@.subrange(0, s.len() as int) == s@);
}

/// Builds the query of an announce.
pub fn build_announce_query(info_hash: &[u8; 20], peer_id: &[u8; 20], port: u16, left: u64) -> (out:
    Vec<u8>)
    ensures
        out@ == announce_query(info_hash@, peer_id@, port, left as nat),
{
    let mut out: Vec<u8> = Vec::new();
    push_bytes(&mut out, "info_hash=".as_bytes());
    push_percent_encoded(&mut out, info_hash.as_slice());
    push_bytes(&mut out, "&peer_id=".as_bytes());
    push_percent_encoded(&mut out, peer_id.as_slice());
    push_bytes(&mut out, "&port=".as_bytes());
    push_decimal(&mut out, port as u64);
    push_bytes(&mut out, "&uploaded=0&downloaded=0&left=".as_bytes());
    push_decimal(&mut out, left);
    push_bytes(&mut out, "&compact=1".as_bytes());
    assert(out@ =~= announce_query(info_hash@, peer_id@, port, left as nat));
    out
}

/// Builds the URL of an announce to the tracker at `announce`.
pub fn build_announce_url(
    announce: &[u8],
    info_hash: &[u8; 20],
    peer_id: &[u8; 20],
    port: u16,
    left: u64,
) -> (out: Vec<u8>)
    ensures
        out@ == announce_url(announce@, info_hash@, peer_id@, port, left as nat),
{
    let mut has_query = false;
    let mut i: usize = 0;
    while i < announce.len()
        invariant
            i <= announce.len(),
            has_query == announce@.subrange(0, i as int).contains(QUERY_START),
        decreases announce.len() - i,
    {
        proof {
            let next = announce@.subrange(0, i + 1);
            let prev = announce@.subrange(0, i as int);
            if prev.contains(QUERY_START) {
                let k = choose|k: int| 0 <= k < prev.len() && prev[k] == QUERY_START;
                assert(next[k] == QUERY_START);
            }
            if next.contains(QUERY_START) && announce@[i as int] != QUERY_START {
                let k = choose|k: int| 0 <= k < next.len() && next[k] == QUERY_START;
                assert(prev[k] == QUERY_START);
            }
            if announce@[i as int] == QUERY_START {
                assert(next[i as int] == QUERY_START);
            }
        }
        if announce[i] == QUERY_START {
            has_query = true;
        }
        i += 1;
    }
    assert(announce@.subrange(0, announce.len() as int) == announce@);
    let mut out: Vec<u8> = Vec::new();
    push_bytes(&mut out, announce);
    out.push(if has_query { PARAMETER_SEPARATOR } else { QUERY_START });
    let query = build_announce_query(info_hash, peer_id, port, left);
    push_bytes(&mut out, query.as_slice());
    assert(out@ =~= announce_url(announce@, info_hash@, peer_id@, port, left as nat));
    out
}

/// Builds the URL of the announce for a torrent of which nothing has
/// been downloaded yet.
pub fn announce_url_for(meta: &TorrentMetadata, peer_id: &[u8; 20], port: u16) -> (out: Vec<u8>)
    ensures
        out@ == announce_url(
            meta@.announce,
            meta@.info_hash,
            peer_id@,
            port,
            meta@.length,
        ),
{
    build_announce_url(
        meta.announce().as_slice(),
        meta.info_hash(),
        peer_id,
        port,
        meta.length(),
    )
}

/// Reads a compact peer list.
pub fn parse_compact_peers(list: &[u8]) -> (r: Result<Vec<Peer>, TrackerError>)
    ensures
        match r {
            Ok(peers) => compact_peers(list@) == Ok::<Seq<Peer>, TrackerError>(peers@),
            Err(e) => compact_peers(list@) == Err::<Seq<Peer>, TrackerError>(e),
        },
{
    let total = list.len();
    if total % 6 != 0 {
        return Err(TrackerError::MalformedPeers);
    }
    let count = total / 6;
    let mut peers: Vec<Peer> = Vec::new();
    let mut i: usize = 0;
    while i < count
        invariant
            i <= count,
            total == list@.len(),
            6 * count == total,
            peers@.len() == i,
            forall|k: int| 0 <= k < i ==> peers@[k] == peer_at(list@, k),
        decreases count - i,
    {
        let ip = read_u32(list, 6 * i);
        let port = read_u16(list, 6 * i + 4);
        peers.push(Peer { ip, port });
        i += 1;
    }
    assert(peers@ =~= compact_peers(list@)->Ok_0);
    Ok(peers)
}

/// Reads what an announce brought. `success` says whether the transport
/// reported success, `body` is the response body.
pub fn parse_announce_response(success: bool, body: &[u8]) -> (r: Result<Vec<Peer>, TrackerError>)
    ensures
        match r {
            Ok(peers) => announce_response(success, body@) == Ok::<Seq<Peer>, TrackerError>(
                peers@,
            ),
            Err(e) => announce_response(success, body@) == Err::<Seq<Peer>, TrackerError>(e),
        },
{
    if !success {
        return Err(TrackerError::Transport);
    }
    let top = match decode(body) {
        Ok((top, _)) => top,
        Err(_) => {
            return Err(TrackerError::InvalidBody);
        },
    };
    let d = match &top {
        BencodeValue::Dictionary(d) => d,
        _ => {
            return Err(TrackerError::InvalidBody);
        },
    };
    match d.get("peers".as_bytes()) {
        None => Err(TrackerError::MissingPeers),
        Some(v) => match v {
            BencodeValue::ByteString(list) => parse_compact_peers(list.as_slice()),
            _ => Err(TrackerError::MalformedPeers),
        },
    }
}

/// Picks the peer to connect to: the first that the tracker named.
pub fn select_peer(peers: &[Peer]) -> (r: Result<Peer, TrackerError>)
    ensures
        match r {
            Ok(peer) => peers@.len() > 0 && peer == peers@[0],
            Err(e) => peers@.len() == 0 && e == TrackerError::NoPeers,
        },
{
    if peers.len() == 0 {
        Err(TrackerError::NoPeers)
    } else {
        Ok(peers[0])
    }
}

impl Peer {
    /// The four octets of the address, in the order in which they are
    /// written.
    pub fn octets(&self) -> (r: [u8; 4])
        ensures
            r@ == crate::bytes::be32(self.ip),
    {
        let r = [
            (self.ip / 0x100_0000) as u8,
            (self.ip / 0x1_0000 % 256) as u8,
            (self.ip / 256 % 256) as u8,
            (self.ip % 256) as u8,
        ];
        assert(r@ =~= crate::bytes::be32(self.ip));
        r
    }
}

} // verus!
