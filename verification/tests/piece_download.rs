use bittorrent::bencode::encode::encode;
use bittorrent::bencode::value::{BencodeValue, Dictionary};
use bittorrent::download::session::{Action, Event, Session, StartError};
use bittorrent::download::state::{
    BlockStatus, Phase, SessionError, BLOCK_SIZE, DEFAULT_PIPELINE,
};
use bittorrent::metainfo::TorrentMetadata;
use bittorrent::wire::{Message, ProtocolError};
use sha1::{Digest, Sha1};

const PIECE: u32 = 3;
const LEN: usize = 40000;

fn content(len: usize) -> Vec<u8> {
    (0..len).map(|i| (i * 31 + i / 7) as u8).collect()
}

fn digest(data: &[u8]) -> [u8; 20] {
    Sha1::digest(data).into()
}

fn block(data: &[u8], k: usize) -> Message {
    let begin = k * 16384;
    let end = std::cmp::min(begin + 16384, data.len());
    Message::Piece { index: PIECE, begin: begin as u32, block: data[begin..end].to_vec() }
}

fn request(k: u32, length: u32) -> Message {
    Message::Request { index: PIECE, begin: k * 16384, length }
}

fn received(m: Message) -> Event {
    Event::Message(m)
}

fn unchoked(data: &[u8], pipeline: usize) -> (Session, Action) {
    let session = Session::start(PIECE, data.len() as u32, digest(data), pipeline).unwrap();
    let (session, action) = session.step(received(Message::Bitfield { bits: vec![0xff] }));
    assert_eq!(action, Action::Write(vec![Message::Interested]));
    let (session, action) = session.step(Event::Written);
    assert_eq!(action, Action::Read);
    session.step(received(Message::Unchoke))
}

fn failed_with(session: &Session, action: &Action, e: SessionError) {
    assert_eq!(session.phase(), Phase::Failed(e));
    assert_eq!(action, &Action::Abort(e));
    assert_eq!(session.piece(), None);
}

#[test]
fn session_walks_through_the_states() {
    let data = content(LEN);
    let session = Session::start(PIECE, LEN as u32, digest(&data), 2).unwrap();
    assert_eq!(session.phase(), Phase::AwaitBitfield);
    assert_eq!(session.piece_index(), PIECE);
    assert_eq!(session.piece_len(), 40000);
    assert_eq!(session.block_count(), 3);

    let (session, action) = session.step(received(Message::Have { index: 1 }));
    assert_eq!((session.phase(), &action), (Phase::AwaitBitfield, &Action::Read));

    let (session, action) = session.step(received(Message::Bitfield { bits: vec![0xf0] }));
    assert_eq!(session.phase(), Phase::SendInterested);
    assert_eq!(action, Action::Write(vec![Message::Interested]));

    let (session, action) = session.step(Event::Written);
    assert_eq!((session.phase(), &action), (Phase::AwaitUnchoke, &Action::Read));

    for quiet in [Message::Choke, Message::Have { index: 0 }, Message::KeepAlive] {
        let (next, action) = session_clone_step(&data, quiet);
        assert_eq!((next.phase(), &action), (Phase::AwaitUnchoke, &Action::Read));
    }

    let (session, action) = session.step(received(Message::Unchoke));
    assert_eq!(session.phase(), Phase::Requesting);
    assert_eq!(
        action,
        Action::Write(vec![request(0, 16384), request(1, 16384)])
    );
    assert_eq!(session.block_status(0), Some(BlockStatus::Requested));
    assert_eq!(session.block_status(1), Some(BlockStatus::Requested));
    assert_eq!(session.block_status(2), Some(BlockStatus::Pending));
    assert_eq!(session.block_status(3), None);

    let (session, action) = session.step(Event::Written);
    assert_eq!((session.phase(), &action), (Phase::Requesting, &Action::Read));

    let (session, action) = session.step(received(block(&data, 0)));
    assert_eq!(action, Action::Write(vec![request(2, 40000 - 32768)]));
    assert_eq!(session.block_status(0), Some(BlockStatus::Received));
    assert_eq!(session.block_status(2), Some(BlockStatus::Requested));

    let (session, action) = session.step(received(block(&data, 1)));
    assert_eq!((session.phase(), &action), (Phase::Requesting, &Action::Read));
    assert_eq!(session.piece(), None);

    let (session, action) = session.step(received(block(&data, 2)));
    assert_eq!((session.phase(), &action), (Phase::Done, &Action::Complete));
    assert_eq!(session.piece(), Some(&data));

    let (session, action) = session.step(Event::Closed);
    assert_eq!((session.phase(), &action), (Phase::Done, &Action::Complete));
    assert_eq!(session.piece(), Some(&data));
}

fn session_clone_step(data: &[u8], m: Message) -> (Session, Action) {
    let session = Session::start(PIECE, data.len() as u32, digest(data), 2).unwrap();
    let (session, _) = session.step(received(Message::Bitfield { bits: vec![] }));
    let (session, _) = session.step(Event::Written);
    session.step(received(m))
}

#[test]
fn altered_block_fails_verification() {
    let data = content(LEN);
    let (session, _) = unchoked(&data, 5);
    let (session, _) = session.step(received(block(&data, 0)));
    let mut altered = data.clone();
    altered[20000] ^= 0x01;
    let (session, _) = session.step(received(block(&altered, 1)));
    assert_eq!(session.phase(), Phase::Requesting);
    let (session, action) = session.step(received(block(&data, 2)));
    failed_with(&session, &action, SessionError::HashMismatch);
    let (session, action) = session.step(received(block(&data, 1)));
    failed_with(&session, &action, SessionError::HashMismatch);
}

#[test]
fn blocks_in_reverse_order_assemble_the_same_piece() {
    let data = content(LEN);
    let (forward, _) = unchoked(&data, 5);
    let (forward, _) = forward.step(received(block(&data, 0)));
    let (forward, _) = forward.step(received(block(&data, 1)));
    let (forward, action) = forward.step(received(block(&data, 2)));
    assert_eq!(action, Action::Complete);

    let (backward, action) = unchoked(&data, 5);
    assert_eq!(
        action,
        Action::Write(vec![request(0, 16384), request(1, 16384), request(2, 7232)])
    );
    let (backward, action) = backward.step(received(block(&data, 2)));
    assert_eq!(action, Action::Read);
    let (backward, action) = backward.step(received(block(&data, 1)));
    assert_eq!(action, Action::Read);
    let (backward, action) = backward.step(received(block(&data, 0)));
    assert_eq!(action, Action::Complete);

    assert_eq!(backward.piece(), forward.piece());
    assert_eq!(backward.piece(), Some(&data));
}

#[test]
fn advance_stops_before_verification() {
    let data = content(20000);
    let session = Session::start(PIECE, 20000, digest(&data), 1).unwrap();
    let (session, _) = session.advance(received(Message::Bitfield { bits: vec![] }));
    let (session, _) = session.advance(Event::Written);
    let (session, action) = session.advance(received(Message::Unchoke));
    assert_eq!(action, Action::Write(vec![request(0, 16384)]));
    let (session, action) = session.advance(received(block(&data, 0)));
    assert_eq!(action, Action::Write(vec![request(1, 20000 - 16384)]));
    let (session, action) = session.advance(received(block(&data, 1)));
    assert_eq!((session.phase(), &action), (Phase::Verifying, &Action::Verify));
    assert_eq!(session.piece(), None);
    let (session, action) = session.advance(received(Message::KeepAlive));
    assert_eq!((session.phase(), &action), (Phase::Verifying, &Action::Verify));
    let (session, action) = session.conclude(&digest(&data));
    assert_eq!((session.phase(), &action), (Phase::Done, &Action::Complete));
    assert_eq!(session.piece(), Some(&data));
}

#[test]
fn conclude_with_another_digest_fails() {
    let data = content(100);
    let session = Session::start(PIECE, 100, digest(&data), 1).unwrap();
    let (session, _) = session.advance(received(Message::Bitfield { bits: vec![] }));
    let (session, _) = session.advance(Event::Written);
    let (session, _) = session.advance(received(Message::Unchoke));
    let (session, action) = session.advance(received(block(&data, 0)));
    assert_eq!(action, Action::Verify);
    let mut wrong = digest(&data);
    wrong[0] ^= 0x80;
    let (session, action) = session.conclude(&wrong);
    failed_with(&session, &action, SessionError::HashMismatch);
}

#[test]
fn conclude_outside_verification_changes_nothing() {
    let data = content(100);
    let session = Session::start(PIECE, 100, digest(&data), 1).unwrap();
    let (session, action) = session.conclude(&digest(&data));
    assert_eq!((session.phase(), &action), (Phase::AwaitBitfield, &Action::Read));
    let (session, _) = session.step(received(Message::Bitfield { bits: vec![] }));
    let (session, action) = session.conclude(&digest(&data));
    assert_eq!(session.phase(), Phase::SendInterested);
    assert_eq!(action, Action::Write(vec![Message::Interested]));
}

#[test]
fn first_message_must_be_the_bitfield() {
    for m in [
        Message::Unchoke,
        Message::Choke,
        Message::KeepAlive,
        Message::Interested,
        Message::Piece { index: PIECE, begin: 0, block: vec![0; 100] },
    ] {
        let session = Session::start(PIECE, 100, [0; 20], 1).unwrap();
        let (session, action) = session.step(received(m));
        failed_with(
            &session,
            &action,
            SessionError::Protocol(ProtocolError::UnexpectedMessage),
        );
    }
}

#[test]
fn silence_and_closing_fail_the_session() {
    let session = Session::start(PIECE, 100, [0; 20], 1).unwrap();
    let (session, action) = session.step(Event::TimedOut);
    failed_with(&session, &action, SessionError::Protocol(ProtocolError::TimedOut));

    let session = Session::start(PIECE, 100, [0; 20], 1).unwrap();
    let (session, action) = session.step(Event::Closed);
    failed_with(&session, &action, SessionError::Protocol(ProtocolError::Closed));

    let session = Session::start(PIECE, 100, [0; 20], 1).unwrap();
    let (session, action) = session.step(Event::IoFailed);
    failed_with(&session, &action, SessionError::Io);

    let data = content(LEN);
    let (session, _) = unchoked(&data, 5);
    let (session, _) = session.step(received(block(&data, 0)));
    let (session, action) = session.step(Event::Closed);
    failed_with(&session, &action, SessionError::Protocol(ProtocolError::Closed));

    let (session, _) = unchoked(&data, 5);
    let (session, action) = session.step(Event::TimedOut);
    failed_with(&session, &action, SessionError::Protocol(ProtocolError::TimedOut));
}

#[test]
fn bytes_that_are_no_message_fail_the_session() {
    assert_eq!(Event::read(&[0, 0, 0]), None);
    assert_eq!(Event::read(&[0, 0, 0, 1]), None);
    assert_eq!(
        Event::read(&[0, 0, 0, 1, 1, 0, 0]),
        Some((Event::Message(Message::Unchoke), 5))
    );
    assert_eq!(
        Event::read(&[0, 0, 0, 0]),
        Some((Event::Message(Message::KeepAlive), 4))
    );
    let (event, used) = Event::read(&[0, 0, 0, 2, 77, 0, 9]).unwrap();
    assert_eq!(event, Event::Malformed(ProtocolError::UnknownMessage));
    assert_eq!(used, 7);
    let data = content(LEN);
    let (session, _) = unchoked(&data, 5);
    let (session, action) = session.step(event);
    failed_with(
        &session,
        &action,
        SessionError::Protocol(ProtocolError::UnknownMessage),
    );
    let session = Session::start(PIECE, 100, [0; 20], 1).unwrap();
    let (session, action) = session.step(Event::Malformed(ProtocolError::MalformedFrame));
    failed_with(
        &session,
        &action,
        SessionError::Protocol(ProtocolError::MalformedFrame),
    );
}

#[test]
fn choke_while_requesting_fails_the_session() {
    let data = content(LEN);
    let (session, _) = unchoked(&data, 5);
    let (session, _) = session.step(received(block(&data, 1)));
    let (session, action) = session.step(received(Message::Choke));
    failed_with(&session, &action, SessionError::Protocol(ProtocolError::Choked));
}

#[test]
fn harmless_messages_while_requesting_are_ignored() {
    let data = content(LEN);
    let (mut session, _) = unchoked(&data, 5);
    for m in [Message::KeepAlive, Message::Have { index: 9 }, Message::Unchoke] {
        let (next, action) = session.step(received(m));
        assert_eq!((next.phase(), &action), (Phase::Requesting, &Action::Read));
        session = next;
    }
    let (session, action) = session.step(received(Message::Bitfield { bits: vec![] }));
    failed_with(
        &session,
        &action,
        SessionError::Protocol(ProtocolError::UnexpectedMessage),
    );
}

#[test]
fn unexpected_blocks_fail_the_session() {
    let data = content(LEN);
    let unexpected = SessionError::Protocol(ProtocolError::UnexpectedBlock);

    let (session, _) = unchoked(&data, 2);
    let (session, action) = session.step(received(block(&data, 2)));
    failed_with(&session, &action, unexpected);

    let (session, _) = unchoked(&data, 5);
    let (session, _) = session.step(received(block(&data, 0)));
    let (session, action) = session.step(received(block(&data, 0)));
    failed_with(&session, &action, unexpected);

    let (session, _) = unchoked(&data, 5);
    let wrong_index = Message::Piece { index: PIECE + 1, begin: 0, block: data[..16384].to_vec() };
    let (session, action) = session.step(received(wrong_index));
    failed_with(&session, &action, unexpected);

    let (session, _) = unchoked(&data, 5);
    let odd_offset = Message::Piece { index: PIECE, begin: 1, block: data[1..16385].to_vec() };
    let (session, action) = session.step(received(odd_offset));
    failed_with(&session, &action, unexpected);

    let (session, _) = unchoked(&data, 5);
    let beyond = Message::Piece { index: PIECE, begin: 3 * 16384, block: vec![0; 16384] };
    let (session, action) = session.step(received(beyond));
    failed_with(&session, &action, unexpected);

    let (session, _) = unchoked(&data, 5);
    let short = Message::Piece { index: PIECE, begin: 0, block: data[..16383].to_vec() };
    let (session, action) = session.step(received(short));
    failed_with(&session, &action, unexpected);

    let (session, _) = unchoked(&data, 5);
    let long = Message::Piece { index: PIECE, begin: 32768, block: data[32768..].iter().chain(&[0u8]).copied().collect() };
    let (session, action) = session.step(received(long));
    failed_with(&session, &action, unexpected);
}

#[test]
fn message_before_interested_is_written_fails() {
    let session = Session::start(PIECE, 100, [0; 20], 1).unwrap();
    let (session, _) = session.step(received(Message::Bitfield { bits: vec![] }));
    let (session, action) = session.step(received(Message::Unchoke));
    failed_with(
        &session,
        &action,
        SessionError::Protocol(ProtocolError::UnexpectedMessage),
    );
}

#[test]
fn pipeline_bounds_outstanding_requests() {
    let data = content(10 * 16384);
    let (mut session, action) = unchoked(&data, DEFAULT_PIPELINE);
    assert_eq!(
        action,
        Action::Write((0..5).map(|k| request(k, BLOCK_SIZE)).collect())
    );
    for k in 0..10usize {
        let outstanding = (0..10)
            .filter(|&j| session.block_status(j) == Some(BlockStatus::Requested))
            .count();
        assert!(outstanding >= 1 && outstanding <= DEFAULT_PIPELINE);
        let (next, action) = session.step(received(block(&data, k)));
        if k + 5 < 10 {
            assert_eq!(action, Action::Write(vec![request(k as u32 + 5, BLOCK_SIZE)]));
        } else if k < 9 {
            assert_eq!(action, Action::Read);
        } else {
            assert_eq!(action, Action::Complete);
        }
        session = next;
    }
    assert_eq!(session.piece(), Some(&data));
}

#[test]
fn piece_of_exactly_one_block() {
    let data = content(16384);
    let (session, action) = unchoked(&data, 5);
    assert_eq!(action, Action::Write(vec![request(0, 16384)]));
    let (session, action) = session.step(received(block(&data, 0)));
    assert_eq!(action, Action::Complete);
    assert_eq!(session.piece(), Some(&data));
}

#[test]
fn session_cannot_start_without_bytes_or_pipeline() {
    assert_eq!(
        Session::start(0, 0, [0; 20], 5).err(),
        Some(StartError::EmptyPiece)
    );
    assert_eq!(
        Session::start(0, 100, [0; 20], 0).err(),
        Some(StartError::ZeroPipeline)
    );
    assert_eq!(
        Session::start(0, 0, [0; 20], 0).err(),
        Some(StartError::EmptyPiece)
    );
}

fn torrent(length: i64, piece_length: i64, hashes: &[[u8; 20]]) -> TorrentMetadata {
    let mut pieces = Vec::new();
    for h in hashes {
        pieces.extend_from_slice(h);
    }
    let mut info = Dictionary::new();
    info.insert(b"name".to_vec(), BencodeValue::ByteString(b"f".to_vec()));
    info.insert(b"length".to_vec(), BencodeValue::Integer(length));
    info.insert(b"piece length".to_vec(), BencodeValue::Integer(piece_length));
    info.insert(b"pieces".to_vec(), BencodeValue::ByteString(pieces));
    let mut top = Dictionary::new();
    top.insert(b"announce".to_vec(), BencodeValue::ByteString(b"http://t/a".to_vec()));
    top.insert(b"info".to_vec(), BencodeValue::Dictionary(info));
    TorrentMetadata::parse(&encode(&BencodeValue::Dictionary(top))).unwrap()
}

#[test]
fn session_for_a_piece_of_a_torrent() {
    let data = content(50000);
    let hashes = [digest(&data[..32768]), digest(&data[32768..])];
    let meta = torrent(50000, 32768, &hashes);

    let first = Session::new(&meta, 0, 5).unwrap();
    assert_eq!(first.piece_len(), 32768);
    assert_eq!(first.block_count(), 2);

    let last = Session::new(&meta, 1, 5).unwrap();
    assert_eq!(last.piece_index(), 1);
    assert_eq!(last.piece_len(), 50000 - 32768);
    assert_eq!(last.block_count(), 2);
    let (last, _) = last.step(received(Message::Bitfield { bits: vec![] }));
    let (last, _) = last.step(Event::Written);
    let (last, action) = last.step(received(Message::Unchoke));
    assert_eq!(
        action,
        Action::Write(vec![
            Message::Request { index: 1, begin: 0, length: 16384 },
            Message::Request { index: 1, begin: 16384, length: 848 },
        ])
    );
    let (last, _) = last.step(received(Message::Piece {
        index: 1,
        begin: 16384,
        block: data[32768 + 16384..].to_vec(),
    }));
    let (last, action) = last.step(received(Message::Piece {
        index: 1,
        begin: 0,
        block: data[32768..32768 + 16384].to_vec(),
    }));
    assert_eq!(action, Action::Complete);
    assert_eq!(last.piece(), Some(&data[32768..].to_vec()));
}

#[test]
fn twelve_pieces_of_equal_length() {
    let meta = torrent(12 * 262144, 262144, &[[0u8; 20]; 12]);
    for index in 0..12 {
        let session = Session::new(&meta, index, DEFAULT_PIPELINE).unwrap();
        assert_eq!(session.piece_len(), 262144);
        assert_eq!(session.block_count(), 16);
    }
    assert_eq!(
        Session::new(&meta, 12, DEFAULT_PIPELINE).err(),
        Some(StartError::NoSuchPiece)
    );
}

#[test]
fn twelfth_piece_of_a_file_that_ends_early() {
    let meta = torrent(2949120, 262144, &[[0u8; 20]; 12]);
    for index in 0..11 {
        let session = Session::new(&meta, index, DEFAULT_PIPELINE).unwrap();
        assert_eq!(session.piece_len(), 262144);
    }
    let last = Session::new(&meta, 11, DEFAULT_PIPELINE).unwrap();
    assert_eq!(last.piece_len(), 65536);
    assert_eq!(last.block_count(), 4);
    assert_eq!(
        Session::new(&meta, 12, DEFAULT_PIPELINE).err(),
        Some(StartError::NoSuchPiece)
    );
}

#[test]
fn session_needs_a_piece_and_its_hash() {
    let meta = torrent(50000, 32768, &[[1u8; 20]]);
    assert!(Session::new(&meta, 0, 5).is_ok());
    assert_eq!(Session::new(&meta, 1, 5).err(), Some(StartError::MissingHash));
    assert_eq!(Session::new(&meta, 2, 5).err(), Some(StartError::NoSuchPiece));
    assert_eq!(Session::new(&meta, 0, 0).err(), Some(StartError::ZeroPipeline));
    let huge = torrent(1 << 40, 1 << 33, &[[1u8; 20]]);
    assert_eq!(Session::new(&huge, 0, 5).err(), Some(StartError::PieceTooLarge));
}
