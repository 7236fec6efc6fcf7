use bittorrent::bencode::decode::DecodeError;
use bittorrent::bencode::encode::encode;
use bittorrent::bencode::value::{BencodeValue, Dictionary};
use bittorrent::digest::{sha1, to_hex};
use bittorrent::metainfo::{Field, MetadataError, TorrentMetadata};
use sha1::{Digest, Sha1};

fn bytes(s: &[u8]) -> BencodeValue {
    BencodeValue::ByteString(s.to_vec())
}

fn info_dictionary(length: i64, piece_length: i64, pieces: &[u8]) -> Dictionary {
    let mut info = Dictionary::new();
    info.insert(b"name".to_vec(), bytes(b"sample.txt"));
    info.insert(b"length".to_vec(), BencodeValue::Integer(length));
    info.insert(b"piece length".to_vec(), BencodeValue::Integer(piece_length));
    info.insert(b"pieces".to_vec(), bytes(pieces));
    info
}

fn metainfo_file(length: i64, piece_length: i64, pieces: &[u8]) -> Vec<u8> {
    let mut top = Dictionary::new();
    top.insert(
        b"announce".to_vec(),
        bytes(b"http://tracker.example/announce"),
    );
    top.insert(
        b"info".to_vec(),
        BencodeValue::Dictionary(info_dictionary(length, piece_length, pieces)),
    );
    encode(&BencodeValue::Dictionary(top))
}

fn hashes(count: usize) -> Vec<u8> {
    let mut pieces = Vec::new();
    for i in 0..count {
        for j in 0..20 {
            pieces.push((i * 20 + j) as u8);
        }
    }
    pieces
}

fn file_without(field: &[u8], in_info: bool) -> Vec<u8> {
    let mut info = Dictionary::new();
    for (key, value) in [
        (&b"name"[..], bytes(b"sample.txt")),
        (&b"length"[..], BencodeValue::Integer(100)),
        (&b"piece length"[..], BencodeValue::Integer(50)),
        (&b"pieces"[..], bytes(&hashes(2))),
    ] {
        if !(in_info && key == field) {
            info.insert(key.to_vec(), value);
        }
    }
    let mut top = Dictionary::new();
    if in_info || field != b"announce" {
        top.insert(b"announce".to_vec(), bytes(b"http://t/a"));
    }
    if in_info || field != b"info" {
        top.insert(b"info".to_vec(), BencodeValue::Dictionary(info));
    }
    encode(&BencodeValue::Dictionary(top))
}

fn file_with(field: &[u8], value: BencodeValue) -> Vec<u8> {
    let mut info = info_dictionary(100, 50, &hashes(2));
    let mut top = Dictionary::new();
    top.insert(b"announce".to_vec(), bytes(b"http://t/a"));
    if field == b"announce" || field == b"info" {
        top.insert(b"info".to_vec(), BencodeValue::Dictionary(info));
        top.insert(field.to_vec(), value);
    } else {
        info.insert(field.to_vec(), value);
        top.insert(b"info".to_vec(), BencodeValue::Dictionary(info));
    }
    encode(&BencodeValue::Dictionary(top))
}

#[test]
fn sha1_of_known_inputs() {
    assert_eq!(
        to_hex(&sha1(b"abc")),
        b"a9993e364706816aba3e25717850c26c9cd0d89d".to_vec()
    );
    assert_eq!(
        to_hex(&sha1(b"")),
        b"da39a3ee5e6b4b0d3255bfef95601890afd80709".to_vec()
    );
}

#[test]
fn hex_of_bytes() {
    assert_eq!(to_hex(&[0x00, 0x0f, 0xa5, 0xff]), b"000fa5ff".to_vec());
    assert_eq!(to_hex(&[]), Vec::<u8>::new());
}

#[test]
fn loads_the_fields_of_a_metainfo_file() {
    let pieces = hashes(3);
    let meta = TorrentMetadata::parse(&metainfo_file(92063, 32768, &pieces)).unwrap();
    assert_eq!(meta.announce(), &b"http://tracker.example/announce".to_vec());
    assert_eq!(meta.name(), &b"sample.txt".to_vec());
    assert_eq!(meta.length(), 92063);
    assert_eq!(meta.piece_length(), 32768);
    assert_eq!(meta.hash_count(), 3);
    for i in 0..3 {
        assert_eq!(&meta.piece_hash(i).unwrap()[..], &pieces[20 * i..20 * i + 20]);
    }
    assert_eq!(meta.piece_hash(3), None);
}

#[test]
fn info_hash_is_the_digest_of_the_encoded_info_dictionary() {
    let pieces = hashes(3);
    let meta = TorrentMetadata::parse(&metainfo_file(92063, 32768, &pieces)).unwrap();
    let encoded = encode(&BencodeValue::Dictionary(info_dictionary(92063, 32768, &pieces)));
    let expected: [u8; 20] = Sha1::digest(&encoded).into();
    assert_eq!(meta.info_hash(), &expected);
    assert_eq!(meta.info_hash_hex(), to_hex(&expected));
}

#[test]
fn info_hash_does_not_depend_on_the_order_of_keys_in_the_file() {
    let sorted = b"d8:announce10:http://t/a4:infod6:lengthi100e4:name1:f12:piece lengthi50e6:pieces0:ee";
    let shuffled = b"d4:infod6:pieces0:4:name1:f12:piece lengthi50e6:lengthi100ee8:announce10:http://t/ae";
    let a = TorrentMetadata::parse(sorted).unwrap();
    let b = TorrentMetadata::parse(shuffled).unwrap();
    assert_eq!(a, b);
    let expected: [u8; 20] =
        Sha1::digest(b"d6:lengthi100e4:name1:f12:piece lengthi50e6:pieces0:e").into();
    assert_eq!(b.info_hash(), &expected);
}

#[test]
fn exact_multiple_gives_twelve_full_pieces() {
    let meta = TorrentMetadata::parse(&metainfo_file(12 * 262144, 262144, &hashes(12))).unwrap();
    assert_eq!(meta.length(), 3145728);
    assert_eq!(meta.piece_count(), 12);
    for i in 0..12 {
        assert_eq!(meta.piece_size(i), Some(262144));
    }
    assert_eq!(meta.piece_size(12), None);
}

#[test]
fn twelve_pieces_with_a_quarter_piece_at_the_end() {
    let meta = TorrentMetadata::parse(&metainfo_file(2949120, 262144, &hashes(12))).unwrap();
    assert_eq!(meta.piece_count(), 12);
    for i in 0..11 {
        assert_eq!(meta.piece_size(i), Some(262144));
    }
    assert_eq!(meta.piece_size(11), Some(65536));
    assert_eq!(11 * 262144 + 65536, 2949120);
    assert_eq!(meta.piece_size(12), None);
}

#[test]
fn last_piece_holds_the_remainder() {
    let meta = TorrentMetadata::parse(&metainfo_file(92063, 32768, &hashes(3))).unwrap();
    assert_eq!(meta.piece_count(), 3);
    assert_eq!(meta.piece_size(0), Some(32768));
    assert_eq!(meta.piece_size(1), Some(32768));
    assert_eq!(meta.piece_size(2), Some(92063 % 32768));
    assert_eq!(meta.piece_size(2), Some(26527));
    assert_eq!(meta.piece_size(3), None);
    assert_eq!(32768 * 2 + 26527, 92063);
}

#[test]
fn a_file_shorter_than_one_piece_has_one_piece() {
    let meta = TorrentMetadata::parse(&metainfo_file(10, 32768, &hashes(1))).unwrap();
    assert_eq!(meta.piece_count(), 1);
    assert_eq!(meta.piece_size(0), Some(10));
}

#[test]
fn malformed_file_is_rejected() {
    assert_eq!(
        TorrentMetadata::parse(b"d8:announce"),
        Err(MetadataError::Malformed(DecodeError::Truncated))
    );
    assert_eq!(
        TorrentMetadata::parse(b"li1ee"),
        Err(MetadataError::NotADictionary)
    );
}

#[test]
fn missing_fields_are_rejected() {
    assert_eq!(
        TorrentMetadata::parse(&file_without(b"announce", false)),
        Err(MetadataError::Missing(Field::Announce))
    );
    assert_eq!(
        TorrentMetadata::parse(&file_without(b"info", false)),
        Err(MetadataError::Missing(Field::Info))
    );
    assert_eq!(
        TorrentMetadata::parse(&file_without(b"name", true)),
        Err(MetadataError::Missing(Field::Name))
    );
    assert_eq!(
        TorrentMetadata::parse(&file_without(b"length", true)),
        Err(MetadataError::Missing(Field::Length))
    );
    assert_eq!(
        TorrentMetadata::parse(&file_without(b"piece length", true)),
        Err(MetadataError::Missing(Field::PieceLength))
    );
    assert_eq!(
        TorrentMetadata::parse(&file_without(b"pieces", true)),
        Err(MetadataError::Missing(Field::Pieces))
    );
}

#[test]
fn mistyped_fields_are_rejected() {
    assert_eq!(
        TorrentMetadata::parse(&file_with(b"announce", BencodeValue::Integer(1))),
        Err(MetadataError::WrongType(Field::Announce))
    );
    assert_eq!(
        TorrentMetadata::parse(&file_with(b"info", bytes(b"x"))),
        Err(MetadataError::WrongType(Field::Info))
    );
    assert_eq!(
        TorrentMetadata::parse(&file_with(b"name", BencodeValue::Integer(1))),
        Err(MetadataError::WrongType(Field::Name))
    );
    assert_eq!(
        TorrentMetadata::parse(&file_with(b"length", bytes(b"100"))),
        Err(MetadataError::WrongType(Field::Length))
    );
    assert_eq!(
        TorrentMetadata::parse(&file_with(b"piece length", BencodeValue::List(vec![]))),
        Err(MetadataError::WrongType(Field::PieceLength))
    );
    assert_eq!(
        TorrentMetadata::parse(&file_with(b"pieces", BencodeValue::Integer(20))),
        Err(MetadataError::WrongType(Field::Pieces))
    );
}

#[test]
fn lengths_must_be_positive() {
    assert_eq!(
        TorrentMetadata::parse(&metainfo_file(0, 50, &hashes(1))),
        Err(MetadataError::NotPositive(Field::Length))
    );
    assert_eq!(
        TorrentMetadata::parse(&metainfo_file(-5, 50, &hashes(1))),
        Err(MetadataError::NotPositive(Field::Length))
    );
    assert_eq!(
        TorrentMetadata::parse(&metainfo_file(100, 0, &hashes(1))),
        Err(MetadataError::NotPositive(Field::PieceLength))
    );
}

#[test]
fn pieces_must_be_whole_hashes() {
    assert_eq!(
        TorrentMetadata::parse(&metainfo_file(100, 50, &[7u8; 39])),
        Err(MetadataError::PiecesLength)
    );
    assert!(TorrentMetadata::parse(&metainfo_file(100, 50, &[7u8; 40])).is_ok());
}

#[test]
fn from_value_reads_a_decoded_file() {
    let mut top = Dictionary::new();
    top.insert(b"announce".to_vec(), bytes(b"http://t/a"));
    top.insert(
        b"info".to_vec(),
        BencodeValue::Dictionary(info_dictionary(100, 50, &hashes(2))),
    );
    let meta = TorrentMetadata::from_value(&BencodeValue::Dictionary(top)).unwrap();
    assert_eq!(meta.length(), 100);
    assert_eq!(
        TorrentMetadata::from_value(&BencodeValue::Integer(1)),
        Err(MetadataError::NotADictionary)
    );
}
