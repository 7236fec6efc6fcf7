use bittorrent::wire::{Message, ProtocolError};

fn framed(m: &Message) -> Vec<u8> {
    m.encode().unwrap()
}

#[test]
fn keep_alive_is_a_zero_length() {
    assert_eq!(framed(&Message::KeepAlive), vec![0, 0, 0, 0]);
    assert_eq!(Message::parse(&[]), Ok(Message::KeepAlive));
}

#[test]
fn messages_without_payload() {
    assert_eq!(framed(&Message::Choke), vec![0, 0, 0, 1, 0]);
    assert_eq!(framed(&Message::Unchoke), vec![0, 0, 0, 1, 1]);
    assert_eq!(framed(&Message::Interested), vec![0, 0, 0, 1, 2]);
    assert_eq!(framed(&Message::NotInterested), vec![0, 0, 0, 1, 3]);
    assert_eq!(Message::parse(&[0]), Ok(Message::Choke));
    assert_eq!(Message::parse(&[1]), Ok(Message::Unchoke));
    assert_eq!(Message::parse(&[2]), Ok(Message::Interested));
    assert_eq!(Message::parse(&[3]), Ok(Message::NotInterested));
}

#[test]
fn request_is_three_big_endian_words() {
    let m = Message::Request { index: 1, begin: 16384, length: 0x0102_0304 };
    assert_eq!(
        framed(&m),
        vec![0, 0, 0, 13, 6, 0, 0, 0, 1, 0, 0, 0x40, 0, 1, 2, 3, 4]
    );
    assert_eq!(Message::parse(&framed(&m)[4..]), Ok(m));
}

#[test]
fn cancel_and_have() {
    let cancel = Message::Cancel { index: 0xffff_ffff, begin: 0, length: 16384 };
    assert_eq!(
        framed(&cancel),
        vec![0, 0, 0, 13, 8, 255, 255, 255, 255, 0, 0, 0, 0, 0, 0, 0x40, 0]
    );
    assert_eq!(Message::parse(&framed(&cancel)[4..]), Ok(cancel));
    let have = Message::Have { index: 258 };
    assert_eq!(framed(&have), vec![0, 0, 0, 5, 4, 0, 0, 1, 2]);
    assert_eq!(Message::parse(&framed(&have)[4..]), Ok(have));
}

#[test]
fn piece_carries_its_block() {
    let m = Message::Piece { index: 2, begin: 32768, block: vec![9, 8, 7] };
    assert_eq!(
        framed(&m),
        vec![0, 0, 0, 12, 7, 0, 0, 0, 2, 0, 0, 0x80, 0, 9, 8, 7]
    );
    assert_eq!(Message::parse(&framed(&m)[4..]), Ok(m));
    let empty = Message::Piece { index: 0, begin: 0, block: vec![] };
    assert_eq!(Message::parse(&framed(&empty)[4..]), Ok(empty));
}

#[test]
fn bitfield_carries_its_bits() {
    let m = Message::Bitfield { bits: vec![0xff, 0x80] };
    assert_eq!(framed(&m), vec![0, 0, 0, 3, 5, 0xff, 0x80]);
    assert_eq!(Message::parse(&[5, 0xff, 0x80]), Ok(m));
    assert_eq!(Message::parse(&[5]), Ok(Message::Bitfield { bits: vec![] }));
}

#[test]
fn unknown_id_is_rejected() {
    assert_eq!(Message::parse(&[9]), Err(ProtocolError::UnknownMessage));
    assert_eq!(Message::parse(&[20, 0, 0]), Err(ProtocolError::UnknownMessage));
    assert_eq!(Message::parse(&[255]), Err(ProtocolError::UnknownMessage));
}

#[test]
fn wrong_payload_length_is_rejected() {
    assert_eq!(Message::parse(&[0, 0]), Err(ProtocolError::MalformedFrame));
    assert_eq!(Message::parse(&[2, 1]), Err(ProtocolError::MalformedFrame));
    assert_eq!(Message::parse(&[4, 0, 0, 1]), Err(ProtocolError::MalformedFrame));
    assert_eq!(
        Message::parse(&[6, 0, 0, 0, 1, 0, 0, 0, 0, 0, 0, 64]),
        Err(ProtocolError::MalformedFrame)
    );
    assert_eq!(
        Message::parse(&[8, 0, 0, 0, 1, 0, 0, 0, 0, 0, 0, 64, 0, 0]),
        Err(ProtocolError::MalformedFrame)
    );
    assert_eq!(
        Message::parse(&[7, 0, 0, 0, 1, 0, 0, 0]),
        Err(ProtocolError::MalformedFrame)
    );
}

#[test]
fn framed_parse_waits_for_a_whole_message() {
    let m = Message::Piece { index: 2, begin: 32768, block: vec![9, 8, 7] };
    let bytes = framed(&m);
    for cut in 0..bytes.len() {
        assert_eq!(Message::parse_framed(&bytes[..cut]), Ok(None));
    }
    assert_eq!(Message::parse_framed(&bytes), Ok(Some((m, 16))));
}

#[test]
fn framed_parse_leaves_what_follows() {
    let mut bytes = framed(&Message::Unchoke);
    bytes.extend_from_slice(&framed(&Message::Have { index: 7 }));
    assert_eq!(Message::parse_framed(&bytes), Ok(Some((Message::Unchoke, 5))));
    assert_eq!(
        Message::parse_framed(&bytes[5..]),
        Ok(Some((Message::Have { index: 7 }, 9)))
    );
    assert_eq!(Message::parse_framed(&bytes[14..]), Ok(None));
}

#[test]
fn framed_parse_reports_a_bad_message() {
    assert_eq!(
        Message::parse_framed(&[0, 0, 0, 1, 42]),
        Err(ProtocolError::UnknownMessage)
    );
    assert_eq!(
        Message::parse_framed(&[0, 0, 0, 2, 1, 0]),
        Err(ProtocolError::MalformedFrame)
    );
}
