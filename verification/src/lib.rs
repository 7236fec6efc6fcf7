//! A BitTorrent client core: the bencode codec, metainfo loading, the
//! tracker announce, the peer handshake and the download of one piece.
//!
//! Every function here computes on plain values and carries a contract
//! that is proved of it; connections, files and clocks belong to the
//! caller.
//!
//! - [`bencode`]: values, `encode`, `decode`, and the proof that decoding
//!   undoes encoding.
//! - [`metainfo`]: the metadata of a torrent, its info hash and the
//!   lengths of its pieces.
//! - [`tracker`]: the announce URL and the compact peer list.
//! - [`handshake`]: the 68-byte handshake and its check.
//! - [`wire`]: peer wire messages and their framing.
//! - [`download`]: the session that asks for the blocks of a piece,
//!   assembles them and checks the digest.
//! - [`digest`]: SHA-1, by the `sha1` crate, and hexadecimal text.
//! - [`bytes`]: decimal numbers, byte order and the order on byte
//!   strings.

pub mod bytes;
pub mod digest;
pub mod bencode;
pub mod metainfo;
pub mod tracker;
pub mod handshake;
pub mod wire;
pub mod download;
