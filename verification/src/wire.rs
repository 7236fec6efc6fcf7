//! Peer wire messages and their framing: a four-byte big-endian length,
//! then that many bytes, the first of which names the message.

use vstd::prelude::*;
use crate::bytes::{
    be32, be32_value, copy_range, lemma_be32_roundtrip, push_bytes, push_u32, read_u32,
};

verus! {

/// Message id of `choke`.
pub const ID_CHOKE: u8 = 0;

/// Message id of `unchoke`.
pub const ID_UNCHOKE: u8 = 1;

/// Message id of `interested`.
pub const ID_INTERESTED: u8 = 2;

/// Message id of `not_interested`.
pub const ID_NOT_INTERESTED: u8 = 3;

/// Message id of `have`.
pub const ID_HAVE: u8 = 4;

/// Message id of `bitfield`.
pub const ID_BITFIELD: u8 = 5;

/// Message id of `request`.
pub const ID_REQUEST: u8 = 6;

/// Message id of `piece`.
pub const ID_PIECE: u8 = 7;

/// Message id of `cancel`.
pub const ID_CANCEL: u8 = 8;

/// How a peer broke the wire protocol.
#[derive(Debug, Clone, Copy, PartialEq, Eq, Structural)]
pub enum ProtocolError {
    /// A message id that the protocol does not know.
    UnknownMessage,
    /// A message whose length does not fit its id.
    MalformedFrame,
    /// A message that the state of the session does not allow; before
    /// anything else a peer must send its bitfield.
    UnexpectedMessage,
    /// A block that was not asked for, or of the wrong length.
    UnexpectedBlock,
    /// The peer choked while blocks were outstanding.
    Choked,
    /// The peer closed the connection before the piece was complete.
    Closed,
    /// The peer did not answer in time.
    TimedOut,
}

/// A peer wire message as a mathematical object.
pub enum Frame {
    KeepAlive,
    Choke,
    Unchoke,
    Interested,
    NotInterested,
    Have { index: u32 },
    Bitfield { bits: Seq<u8> },
    Request { index: u32, begin: u32, length: u32 },
    Piece { index: u32, begin: u32, block: Seq<u8> },
    Cancel { index: u32, begin: u32, length: u32 },
}

/// A peer wire message.
#[derive(Debug, Clone, PartialEq, Eq)]
pub enum Message {
    KeepAlive,
    Choke,
    Unchoke,
    Interested,
    NotInterested,
    Have { index: u32 },
    Bitfield { bits: Vec<u8> },
    Request { index: u32, begin: u32, length: u32 },
    Piece { index: u32, begin: u32, block: Vec<u8> },
    Cancel { index: u32, begin: u32, length: u32 },
}

impl View for Message {
    type V = Frame;

    open spec fn view(&self) -> Frame {
        match self {
            Message::KeepAlive => Frame::KeepAlive,
            Message::Choke => Frame::Choke,
            Message::Unchoke => Frame::Unchoke,
            Message::Interested => Frame::Interested,
            Message::NotInterested => Frame::NotInterested,
            Message::Have { index } => Frame::Have { index: *index },
            Message::Bitfield { bits } => Frame::Bitfield { bits: bits@ },
            Message::Request { index, begin, length } => Frame::Request {
                index: *index,
                begin: *begin,
                length: *length,
            },
            Message::Piece { index, begin, block } => Frame::Piece {
                index: *index,
                begin: *begin,
                block: block@,
            },
            Message::Cancel { index, begin, length } => Frame::Cancel {
                index: *index,
                begin: *begin,
                length: *length,
            },
        }
    }
}

/// What follows the length prefix of a message: nothing for a
/// keep-alive, else the id and what the message carries.
pub open spec fn payload(m: Frame) -> Seq<u8> {
    match m {
        Frame::KeepAlive => Seq::empty(),
        Frame::Choke => seq![ID_CHOKE],
        Frame::Unchoke => seq![ID_UNCHOKE],
        Frame::Interested => seq![ID_INTERESTED],
        Frame::NotInterested => seq![ID_NOT_INTERESTED],
        Frame::Have { index } => seq![ID_HAVE] + be32(index),
        Frame::Bitfield { bits } => seq![ID_BITFIELD] + bits,
        Frame::Request { index, begin, length } => seq![ID_REQUEST] + be32(index) + be32(begin)
            + be32(length),
        Frame::Piece { index, begin, block } => seq![ID_PIECE] + be32(index) + be32(begin) + block,
        Frame::Cancel { index, begin, length } => seq![ID_CANCEL] + be32(index) + be32(begin)
            + be32(length),
    }
}

/// A message on the wire: the length of its payload in four bytes, then
/// the payload.
pub open spec fn frame(m: Frame) -> Seq<u8> {
    be32(payload(m).len() as u32) + payload(m)
}

/// The message that a payload holds.
pub open spec fn parse_payload(p: Seq<u8>) -> Result<Frame, ProtocolError> {
    if p.len() == 0 {
        Ok(Frame::KeepAlive)
    } else if p[0] == ID_CHOKE || p[0] == ID_UNCHOKE || p[0] == ID_INTERESTED || p[0]
        == ID_NOT_INTERESTED {
        if p.len() != 1 {
            Err(ProtocolError::MalformedFrame)
        } else if p[0] == ID_CHOKE {
            Ok(Frame::Choke)
        } else if p[0] == ID_UNCHOKE {
            Ok(Frame::Unchoke)
        } else if p[0] == ID_INTERESTED {
            Ok(Frame::Interested)
        } else {
            Ok(Frame::NotInterested)
        }
    } else if p[0] == ID_HAVE {
        if p.len() != 5 {
            Err(ProtocolError::MalformedFrame)
        } else {
            Ok(Frame::Have { index: be32_value(p.subrange(1, 5)) })
        }
    } else if p[0] == ID_BITFIELD {
        Ok(Frame::Bitfield { bits: p.subrange(1, p.len() as int) })
    } else if p[0] == ID_REQUEST || p[0] == ID_CANCEL {
        if p.len() != 13 {
            Err(ProtocolError::MalformedFrame)
        } else if p[0] == ID_REQUEST {
            Ok(
                Frame::Request {
                    index: be32_value(p.subrange(1, 5)),
                    begin: be32_value(p.subrange(5, 9)),
                    length: be32_value(p.subrange(9, 13)),
                },
            )
        } else {
            Ok(
                Frame::Cancel {
                    index: be32_value(p.subrange(1, 5)),
                    begin: be32_value(p.subrange(5, 9)),
                    length: be32_value(p.subrange(9, 13)),
                },
            )
        }
    } else if p[0] == ID_PIECE {
        if p.len() < 9 {
            Err(ProtocolError::MalformedFrame)
        } else {
            Ok(
                Frame::Piece {
                    index: be32_value(p.subrange(1, 5)),
                    begin: be32_value(p.subrange(5, 9)),
                    block: p.subrange(9, p.len() as int),
                },
            )
        }
    } else {
        Err(ProtocolError::UnknownMessage)
    }
}

/// The first message in `buf` and the number of bytes it takes, or `None`
/// while `buf` does not yet hold a whole message.
pub open spec fn parse_frame(buf: Seq<u8>) -> Result<Option<(Frame, int)>, ProtocolError> {
    if buf.len() < 4 {
        Ok(None)
    } else {
        let len = be32_value(buf.subrange(0, 4)) as int;
        if buf.len() < 4 + len {
            Ok(None)
        } else {
            match parse_payload(buf.subrange(4, 4 + len)) {
                Ok(m) => Ok(Some((m, 4 + len))),
                Err(e) => Err(e),
            }
        }
    }
}

/// Every message is read back from its payload.
pub proof fn lemma_parse_payload(m: Frame)
    ensures
        parse_payload(payload(m)) == Ok::<Frame, ProtocolError>(m),
{
    let p = payload(m);
    match m {
        Frame::Have { index } => {
            lemma_be32_roundtrip(index);
            assert(p.subrange(1, 5) =~= be32(index));
        },
        Frame::Bitfield { bits } => {
            assert(p.subrange(1, p.len() as int) =~= bits);
        },
        Frame::Request { index, begin, length } => {
            lemma_be32_roundtrip(index);
            lemma_be32_roundtrip(begin);
            lemma_be32_roundtrip(length);
            assert(p.subrange(1, 5) =~= be32(index));
            assert(p.subrange(5, 9) =~= be32(begin));
            assert(p.subrange(9, 13) =~= be32(length));
        },
        Frame::Cancel { index, begin, length } => {
            lemma_be32_roundtrip(index);
            lemma_be32_roundtrip(begin);
            lemma_be32_roundtrip(length);
            assert(p.subrange(1, 5) =~= be32(index));
            assert(p.subrange(5, 9) =~= be32(begin));
            assert(p.subrange(9, 13) =~= be32(length));
        },
        Frame::Piece { index, begin, block } => {
            lemma_be32_roundtrip(index);
            lemma_be32_roundtrip(begin);
            assert(p.subrange(1, 5) =~= be32(index));
            assert(p.subrange(5, 9) =~= be32(begin));
            assert(p.subrange(9, p.len() as int) =~= block);
        },
        _ => {},
    }
}

/// Framing round trip: a message whose payload length fits in four
/// bytes is read back from its frame, whatever bytes follow, together
/// with the length of the frame.
pub proof fn lemma_parse_frame(m: Frame, rest: Seq<u8>)
    requires
        payload(m).len() <= u32::MAX,
    ensures
        parse_frame(frame(m) + rest) == Ok::<Option<(Frame, int)>, ProtocolError>(
            Some((m, frame(m).len() as int)),
        ),
{
    let p = payload(m);
    let buf = frame(m) + rest;
    lemma_be32_roundtrip(p.len() as u32);
    assert(buf.subrange(0, 4) =~= be32(p.len() as u32));
    assert(buf.subrange(4, 4 + p.len() as int) =~= p);
    lemma_parse_payload(m);
}

impl Message {
    /// Reads the message that a payload holds: the bytes that follow a
    /// length prefix.
    pub fn parse(p: &[u8]) -> (r: Result<Message, ProtocolError>)
        ensures
            match r {
                Ok(m) => parse_payload(p@) == Ok::<Frame, ProtocolError>(m@),
                Err(e) => parse_payload(p@) == Err::<Frame, ProtocolError>(e),
            },
    {
        let n = p.len();
        if n == 0 {
            return Ok(Message::KeepAlive);
        }
        let id = p[0];
        if id == ID_CHOKE || id == ID_UNCHOKE || id == ID_INTERESTED || id == ID_NOT_INTERESTED {
            if n != 1 {
                Err(ProtocolError::MalformedFrame)
            } else if id == ID_CHOKE {
                Ok(Message::Choke)
            } else if id == ID_UNCHOKE {
                Ok(Message::Unchoke)
            } else if id == ID_INTERESTED {
                Ok(Message::Interested)
            } else {
                Ok(Message::NotInterested)
            }
        } else if id == ID_HAVE {
            if n != 5 {
                Err(ProtocolError::MalformedFrame)
            } else {
                Ok(Message::Have { index: read_u32(p, 1) })
            }
        } else if id == ID_BITFIELD {
            Ok(Message::Bitfield { bits: copy_range(p, 1, n) })
        } else if id == ID_REQUEST || id == ID_CANCEL {
            if n != 13 {
                Err(ProtocolError::MalformedFrame)
            } else {
                let index = read_u32(p, 1);
                let begin = read_u32(p, 5);
                let length = read_u32(p, 9);
                if id == ID_REQUEST {
                    Ok(Message::Request { index, begin, length })
                } else {
                    Ok(Message::Cancel { index, begin, length })
                }
            }
        } else if id == ID_PIECE {
            if n < 9 {
                Err(ProtocolError::MalformedFrame)
            } else {
                let index = read_u32(p, 1);
                let begin = read_u32(p, 5);
                Ok(Message::Piece { index, begin, block: copy_range(p, 9, n) })
            }
        } else {
            Err(ProtocolError::UnknownMessage)
        }
    }

    /// Reads the first message in `buf`. Gives the message and the number
    /// of bytes it takes, or `None` while `buf` does not yet hold a whole
    /// message.
    pub fn parse_framed(buf: &[u8]) -> (r: Result<Option<(Message, usize)>, ProtocolError>)
        ensures
            match r {
                Ok(Some((m, n))) => parse_frame(buf@) == Ok::<Option<(Frame, int)>, ProtocolError>(
                    Some((m@, n as int)),
                ) && 4 <= n <= buf.len(),
                Ok(None) => parse_frame(buf@) == Ok::<Option<(Frame, int)>, ProtocolError>(None),
                Err(e) => parse_frame(buf@) == Err::<Option<(Frame, int)>, ProtocolError>(e),
            },
    {
        if buf.len() < 4 {
            return Ok(None);
        }
        let len = read_u32(buf, 0) as usize;
        if buf.len() - 4 < len {
            return Ok(None);
        }
        let body = vstd::slice::slice_subrange(buf, 4, 4 + len);
        match Message::parse(body) {
            Ok(m) => Ok(Some((m, 4 + len))),
            Err(e) => Err(e),
        }
    }


    /// Writes the message as it goes on the wire, or `None` when its
    /// payload is too long for the four-byte length prefix.
    pub fn encode(&self) -> (r: Option<Vec<u8>>)
        ensures
            match r {
                Some(out) => out@ == frame(self@) && payload(self@).len() <= u32::MAX,
                None => payload(self@).len() > u32::MAX,
            },
    {
        let mut out: Vec<u8> = Vec::new();
        match self {
            Message::KeepAlive => {
                push_u32(&mut out, 0);
            },
            Message::Choke => {
                push_u32(&mut out, 1);
                out.push(ID_CHOKE);
            },
            Message::Unchoke => {
                push_u32(&mut out, 1);
                out.push(ID_UNCHOKE);
            },
            Message::Interested => {
                push_u32(&mut out, 1);
                out.push(ID_INTERESTED);
            },
            Message::NotInterested => {
                push_u32(&mut out, 1);
                out.push(ID_NOT_INTERESTED);
            },
            Message::Have { index } => {
                push_u32(&mut out, 5);
                out.push(ID_HAVE);
                push_u32(&mut out, *index);
            },
            Message::Bitfield { bits } => {
                if bits.len() > 0xffff_fffe {
                    return None;
                }
                push_u32(&mut out, (bits.len() + 1) as u32);
                out.push(ID_BITFIELD);
                push_bytes(&mut out, bits.as_slice());
            },
            Message::Request { index, begin, length } => {
                push_u32(&mut out, 13);
                out.push(ID_REQUEST);
                push_u32(&mut out, *index);
                push_u32(&mut out, *begin);
                push_u32(&mut out, *length);
            },
            Message::Piece { index, begin, block } => {
                if block.len() > 0xffff_fff6 {
                    return None;
                }
                push_u32(&mut out, (block.len() + 9) as u32);
                out.push(ID_PIECE);
                push_u32(&mut out, *index);
                push_u32(&mut out, *begin);
                push_bytes(&mut out, block.as_slice());
            },
            Message::Cancel { index, begin, length } => {
                push_u32(&mut out, 13);
                out.push(ID_CANCEL);
                push_u32(&mut out, *index);
                push_u32(&mut out, *begin);
                push_u32(&mut out, *length);
            },
        }
        assert(out@ =~= frame(self@));
        Some(out)
    }
}

} // verus!
