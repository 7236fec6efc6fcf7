use bittorrent::bencode::decode::{decode, decode_bounded, DecodeError, MAX_DEPTH};
use bittorrent::bencode::encode::encode;
use bittorrent::bencode::value::{BencodeValue, Dictionary};

fn bytes(s: &str) -> BencodeValue {
    BencodeValue::ByteString(s.as_bytes().to_vec())
}

fn sample_dictionary() -> BencodeValue {
    let mut d = Dictionary::new();
    d.insert(b"hello".to_vec(), BencodeValue::Integer(52));
    d.insert(b"foo".to_vec(), bytes("bar"));
    BencodeValue::Dictionary(d)
}

#[test]
fn decodes_a_byte_string() {
    assert_eq!(decode(b"5:hello"), Ok((bytes("hello"), 7)));
}

#[test]
fn decodes_an_integer() {
    assert_eq!(decode(b"i52e"), Ok((BencodeValue::Integer(52), 4)));
}

#[test]
fn decodes_a_list() {
    let expected = BencodeValue::List(vec![bytes("hello"), BencodeValue::Integer(52)]);
    assert_eq!(decode(b"l5:helloi52ee"), Ok((expected, 13)));
}

#[test]
fn decodes_a_dictionary() {
    assert_eq!(decode(b"d3:foo3:bar5:helloi52ee"), Ok((sample_dictionary(), 23)));
}

#[test]
fn encodes_dictionary_keys_in_ascending_order() {
    assert_eq!(encode(&sample_dictionary()), b"d3:foo3:bar5:helloi52ee".to_vec());
}

#[test]
fn decoding_sorts_dictionary_keys() {
    let (v, n) = decode(b"d5:helloi52e3:foo3:bare").unwrap();
    assert_eq!(n, 23);
    assert_eq!(v, sample_dictionary());
    assert_eq!(encode(&v), b"d3:foo3:bar5:helloi52ee".to_vec());
}

#[test]
fn a_repeated_key_keeps_the_last_value() {
    let (v, _) = decode(b"d1:ai1e1:ai2ee").unwrap();
    let mut d = Dictionary::new();
    d.insert(b"a".to_vec(), BencodeValue::Integer(2));
    assert_eq!(v, BencodeValue::Dictionary(d));
}

#[test]
fn round_trip_of_a_nested_value() {
    let mut inner = Dictionary::new();
    inner.insert(b"zeta".to_vec(), BencodeValue::List(vec![]));
    inner.insert(b"alpha".to_vec(), BencodeValue::Integer(-7));
    inner.insert(b"".to_vec(), bytes(""));
    let v = BencodeValue::List(vec![
        BencodeValue::Integer(0),
        BencodeValue::Integer(i64::MIN),
        BencodeValue::Integer(i64::MAX),
        bytes("spam"),
        BencodeValue::Dictionary(inner),
        sample_dictionary(),
    ]);
    let encoded = encode(&v);
    let len = encoded.len();
    assert_eq!(decode(&encoded), Ok((v, len)));
}

#[test]
fn decode_leaves_trailing_bytes() {
    assert_eq!(decode(b"i-3e5:hello"), Ok((BencodeValue::Integer(-3), 4)));
}

#[test]
fn encodes_integers() {
    assert_eq!(encode(&BencodeValue::Integer(0)), b"i0e".to_vec());
    assert_eq!(encode(&BencodeValue::Integer(-42)), b"i-42e".to_vec());
    assert_eq!(
        encode(&BencodeValue::Integer(i64::MIN)),
        b"i-9223372036854775808e".to_vec()
    );
}

#[test]
fn zero_and_its_spellings() {
    assert_eq!(decode(b"i0e"), Ok((BencodeValue::Integer(0), 3)));
    assert_eq!(decode(b"i-0e"), Ok((BencodeValue::Integer(0), 4)));
    assert_eq!(decode(b"i00e"), Err(DecodeError::InvalidInteger));
    assert_eq!(decode(b"i-01e"), Err(DecodeError::InvalidInteger));
}

#[test]
fn length_prefix_is_any_run_of_digits() {
    assert_eq!(decode(b"0:"), Ok((bytes(""), 2)));
    assert_eq!(decode(b"03:abc"), Ok((bytes("abc"), 6)));
    assert_eq!(decode(b"3:abcdef"), Ok((bytes("abc"), 5)));
}

#[test]
fn extreme_integers() {
    assert_eq!(
        decode(b"i9223372036854775807e"),
        Ok((BencodeValue::Integer(i64::MAX), 21))
    );
    assert_eq!(
        decode(b"i-9223372036854775808e"),
        Ok((BencodeValue::Integer(i64::MIN), 22))
    );
}

#[test]
fn empty_containers() {
    assert_eq!(decode(b"le"), Ok((BencodeValue::List(vec![]), 2)));
    assert_eq!(
        decode(b"de"),
        Ok((BencodeValue::Dictionary(Dictionary::new()), 2))
    );
    assert_eq!(encode(&BencodeValue::List(vec![])), b"le".to_vec());
    assert_eq!(
        encode(&BencodeValue::Dictionary(Dictionary::new())),
        b"de".to_vec()
    );
}

#[test]
fn truncated_input_is_rejected() {
    assert_eq!(decode(b""), Err(DecodeError::Truncated));
    assert_eq!(decode(b"5:hell"), Err(DecodeError::Truncated));
    assert_eq!(decode(b"5"), Err(DecodeError::Truncated));
    assert_eq!(decode(b"i"), Err(DecodeError::Truncated));
    assert_eq!(decode(b"i-"), Err(DecodeError::Truncated));
    assert_eq!(decode(b"d3:foo"), Err(DecodeError::Truncated));
    assert_eq!(decode(b"l3:fo"), Err(DecodeError::Truncated));
    assert_eq!(decode(b"99999999999999999999999999:x"), Err(DecodeError::Truncated));
}

#[test]
fn missing_terminator_is_rejected() {
    assert_eq!(decode(b"i52"), Err(DecodeError::MissingTerminator));
    assert_eq!(decode(b"i52x"), Err(DecodeError::MissingTerminator));
    assert_eq!(decode(b"i-7"), Err(DecodeError::MissingTerminator));
    assert_eq!(decode(b"l"), Err(DecodeError::MissingTerminator));
    assert_eq!(decode(b"l5:hello"), Err(DecodeError::MissingTerminator));
    assert_eq!(decode(b"li1ei2e"), Err(DecodeError::MissingTerminator));
    assert_eq!(decode(b"d"), Err(DecodeError::MissingTerminator));
    assert_eq!(decode(b"d3:fooi1e"), Err(DecodeError::MissingTerminator));
    assert_eq!(decode(b"d3:fooli1e"), Err(DecodeError::MissingTerminator));
}

#[test]
fn bad_length_prefix_is_rejected() {
    assert_eq!(decode(b"x"), Err(DecodeError::InvalidLength));
    assert_eq!(decode(b"-5:hello"), Err(DecodeError::InvalidLength));
    assert_eq!(decode(b"5x:hello"), Err(DecodeError::InvalidLength));
}

#[test]
fn bad_integers_are_rejected() {
    assert_eq!(decode(b"ie"), Err(DecodeError::InvalidInteger));
    assert_eq!(decode(b"i-e"), Err(DecodeError::InvalidInteger));
    assert_eq!(decode(b"i052e"), Err(DecodeError::InvalidInteger));
    assert_eq!(decode(b"i9223372036854775808e"), Err(DecodeError::InvalidInteger));
    assert_eq!(decode(b"i-9223372036854775809e"), Err(DecodeError::InvalidInteger));
    assert_eq!(decode(b"i5-2e"), Err(DecodeError::MissingTerminator));
}

#[test]
fn dictionary_key_must_be_a_byte_string() {
    assert_eq!(decode(b"di1e3:fooe"), Err(DecodeError::KeyNotByteString));
}

#[test]
fn nesting_is_bounded() {
    let mut deep = Vec::new();
    for _ in 0..MAX_DEPTH + 1 {
        deep.push(b'l');
    }
    for _ in 0..MAX_DEPTH + 1 {
        deep.push(b'e');
    }
    assert_eq!(decode(&deep), Err(DecodeError::TooDeep));
    assert!(decode(&deep[1..]).is_ok());
    assert_eq!(decode_bounded(b"li1ee", 0), Err(DecodeError::TooDeep));
    assert_eq!(
        decode_bounded(b"li1ee", 1),
        Ok((BencodeValue::List(vec![BencodeValue::Integer(1)]), 5))
    );
}

#[test]
fn dictionary_lookup() {
    let v = sample_dictionary();
    match &v {
        BencodeValue::Dictionary(d) => {
            assert_eq!(d.len(), 2);
            assert_eq!(d.get(b"hello"), Some(&BencodeValue::Integer(52)));
            assert_eq!(d.get(b"foo"), Some(&bytes("bar")));
            assert_eq!(d.get(b"missing"), None);
            assert_eq!(d.entry(0), Some((&b"foo".to_vec(), &bytes("bar"))));
            assert_eq!(d.entry(1), Some((&b"hello".to_vec(), &BencodeValue::Integer(52))));
            assert_eq!(d.entry(2), None);
        }
        _ => panic!("not a dictionary"),
    }
}
