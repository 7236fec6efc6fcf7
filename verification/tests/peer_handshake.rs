use bittorrent::handshake::{
    build_handshake, check_handshake, Handshake, HandshakeError, HandshakeResult, HANDSHAKE_LEN,
};

const INFO_HASH: [u8; 20] = [
    0xd6, 0x9f, 0x91, 0xe6, 0xb2, 0xae, 0x4c, 0x54, 0x24, 0x68, 0xd1, 0x07, 0x3a, 0x71, 0xd4, 0xea,
    0x13, 0x87, 0x9a, 0x7f,
];
const LOCAL_ID: [u8; 20] = *b"00112233445566778899";
const REMOTE_ID: [u8; 20] = *b"-RN0.0.0-abcdefghijk";

#[test]
fn handshake_message_layout() {
    let message = build_handshake(&INFO_HASH, &LOCAL_ID);
    assert_eq!(message.len(), 68);
    assert_eq!(message.len(), HANDSHAKE_LEN);
    assert_eq!(message[0], 19);
    assert_eq!(&message[1..20], b"BitTorrent protocol");
    assert_eq!(&message[20..28], &[0u8; 8]);
    assert_eq!(&message[28..48], &INFO_HASH);
    assert_eq!(&message[48..68], &LOCAL_ID);
}

#[test]
fn reply_for_the_same_torrent_gives_the_remote_peer_id() {
    let reply = build_handshake(&INFO_HASH, &REMOTE_ID);
    assert_eq!(
        check_handshake(&reply, &INFO_HASH),
        Ok(HandshakeResult { peer_id: REMOTE_ID })
    );
}

#[test]
fn mismatched_info_hash_fails_the_handshake() {
    let mut other = INFO_HASH;
    other[19] ^= 1;
    let reply = build_handshake(&other, &REMOTE_ID);
    assert_eq!(
        check_handshake(&reply, &INFO_HASH),
        Err(HandshakeError::InfoHashMismatch)
    );
    let (state, _) = Handshake::begin(INFO_HASH, &LOCAL_ID);
    assert_eq!(
        state.receive(&reply),
        Handshake::Failed(HandshakeError::InfoHashMismatch)
    );
}

#[test]
fn short_reply_fails_the_handshake() {
    let reply = build_handshake(&INFO_HASH, &REMOTE_ID);
    assert_eq!(
        check_handshake(&reply[..67], &INFO_HASH),
        Err(HandshakeError::ShortRead)
    );
    assert_eq!(check_handshake(&[], &INFO_HASH), Err(HandshakeError::ShortRead));
}

#[test]
fn wrong_protocol_fails_the_handshake() {
    let mut reply = build_handshake(&INFO_HASH, &REMOTE_ID);
    reply[0] = 18;
    assert_eq!(
        check_handshake(&reply, &INFO_HASH),
        Err(HandshakeError::BadProtocol)
    );
    let mut reply = build_handshake(&INFO_HASH, &REMOTE_ID);
    reply[5] = b'x';
    assert_eq!(
        check_handshake(&reply, &INFO_HASH),
        Err(HandshakeError::BadProtocol)
    );
}

#[test]
fn reserved_bytes_of_the_reply_are_not_checked() {
    let mut reply = build_handshake(&INFO_HASH, &REMOTE_ID);
    reply[25] = 0x10;
    reply[27] = 0x04;
    assert_eq!(
        check_handshake(&reply, &INFO_HASH),
        Ok(HandshakeResult { peer_id: REMOTE_ID })
    );
}

#[test]
fn handshake_goes_from_sent_to_verified() {
    let (state, message) = Handshake::begin(INFO_HASH, &LOCAL_ID);
    assert_eq!(state, Handshake::Sent { info_hash: INFO_HASH });
    assert_eq!(message, build_handshake(&INFO_HASH, &LOCAL_ID));
    let reply = build_handshake(&INFO_HASH, &REMOTE_ID);
    let state = state.receive(&reply);
    assert_eq!(state, Handshake::Verified(HandshakeResult { peer_id: REMOTE_ID }));
    assert_eq!(state.receive(&[]), state);
}

#[test]
fn failed_handshake_stays_failed() {
    let (state, _) = Handshake::begin(INFO_HASH, &LOCAL_ID);
    let state = state.receive(&[19, 66]);
    assert_eq!(state, Handshake::Failed(HandshakeError::ShortRead));
    let reply = build_handshake(&INFO_HASH, &REMOTE_ID);
    assert_eq!(state.receive(&reply), state);
}
