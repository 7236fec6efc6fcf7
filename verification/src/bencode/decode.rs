//! Decoding bytes to a bencode value by recursive descent.

use vstd::prelude::*;
use vstd::slice::slice_subrange;
use crate::bencode::value::{
    dict_insert, lemma_dict_insert_wf, Bencode, BencodeValue, Dictionary, COLON, DICT_START, END,
    INTEGER_START, LIST_START, MINUS, ZERO,
};
use crate::bytes::{
    copy_bytes, digit, digits_end, digits_value, is_digit, lemma_digits_end_is_run, parse_digits,
    scan_digits,
};

verus! {

/// How deep lists and dictionaries may nest in input given to `decode`.
pub const MAX_DEPTH: usize = 64;

/// Why a run of bytes is not a bencode value.
#[derive(Debug, Clone, Copy, PartialEq, Eq, Structural)]
pub enum DecodeError {
    /// The input ends where a value or the digits of an integer must
    /// start, or within a byte string.
    Truncated,
    /// Where a byte string must start, its length is not a decimal number
    /// followed by a colon.
    InvalidLength,
    /// An integer has no digits, a leading zero, or does not fit in 64 bits.
    InvalidInteger,
    /// The `e` that ends an integer, a list or a dictionary is missing:
    /// the digits of an integer are followed by something else or by
    /// nothing, or the input ends within a list or a dictionary.
    MissingTerminator,
    /// Where a dictionary key must start there is no byte string.
    KeyNotByteString,
    /// Lists and dictionaries nest deeper than the limit.
    TooDeep,
}

/// The byte string that starts at `pos`, and where it ends.
pub open spec fn decode_bytes_at(s: Seq<u8>, pos: int) -> Result<(Seq<u8>, int), DecodeError> {
    let end = digits_end(s, pos);
    if pos >= s.len() {
        Err(DecodeError::Truncated)
    } else if end == pos {
        Err(DecodeError::InvalidLength)
    } else if end >= s.len() {
        Err(DecodeError::Truncated)
    } else if s[end] != COLON {
        Err(DecodeError::InvalidLength)
    } else {
        let n = digits_value(s.subrange(pos, end));
        if end + 1 + n > s.len() {
            Err(DecodeError::Truncated)
        } else {
            Ok((s.subrange(end + 1, end + 1 + n), end + 1 + n))
        }
    }
}

/// The integer whose `i` stands at `pos`, and where it ends.
pub open spec fn decode_int_at(s: Seq<u8>, pos: int) -> Result<(int, int), DecodeError> {
    let negative = pos + 1 < s.len() && s[pos + 1] == MINUS;
    let start = if negative {
        pos + 2
    } else {
        pos + 1
    };
    let end = digits_end(s, start);
    let magnitude = digits_value(s.subrange(start, end));
    let value = if negative {
        -magnitude
    } else {
        magnitude as int
    };
    if start >= s.len() {
        Err(DecodeError::Truncated)
    } else if end == start {
        Err(DecodeError::InvalidInteger)
    } else if s[start] == ZERO && end > start + 1 {
        Err(DecodeError::InvalidInteger)
    } else if end >= s.len() || s[end] != END {
        Err(DecodeError::MissingTerminator)
    } else if value < i64::MIN || value > i64::MAX {
        Err(DecodeError::InvalidInteger)
    } else {
        Ok((value, end + 1))
    }
}

/// The value that starts at `pos`, and where it ends, with lists and
/// dictionaries allowed to nest `depth` deep.
pub open spec fn decode_value(s: Seq<u8>, pos: int, depth: nat) -> Result<(Bencode, int), DecodeError>
    decreases depth, 0nat, 0nat,
{
    if pos < 0 || pos >= s.len() {
        Err(DecodeError::Truncated)
    } else if s[pos] == INTEGER_START {
        match decode_int_at(s, pos) {
            Ok((i, next)) => Ok((Bencode::Integer(i), next)),
            Err(e) => Err(e),
        }
    } else if s[pos] == LIST_START {
        if depth == 0 {
            Err(DecodeError::TooDeep)
        } else {
            match decode_list_at(s, pos + 1, (depth - 1) as nat, Seq::empty()) {
                Ok((items, next)) => Ok((Bencode::List(items), next)),
                Err(e) => Err(e),
            }
        }
    } else if s[pos] == DICT_START {
        if depth == 0 {
            Err(DecodeError::TooDeep)
        } else {
            match decode_dict_at(s, pos + 1, (depth - 1) as nat, Seq::empty()) {
                Ok((entries, next)) => Ok((Bencode::Dictionary(entries), next)),
                Err(e) => Err(e),
            }
        }
    } else {
        match decode_bytes_at(s, pos) {
            Ok((b, next)) => Ok((Bencode::ByteString(b), next)),
            Err(e) => Err(e),
        }
    }
}

/// The rest of a list: the items from `pos` up to the closing `e`, after
/// the items `acc` that were read before. Every item takes at least one
/// byte, so the test on `next` always holds; it is there to show that the
/// definition is well-founded.
pub open spec fn decode_list_at(s: Seq<u8>, pos: int, depth: nat, acc: Seq<Bencode>) -> Result<
    (Seq<Bencode>, int),
    DecodeError,
>
    decreases depth, 1nat, s.len() - pos,
{
    if pos < 0 || pos >= s.len() {
        Err(DecodeError::MissingTerminator)
    } else if s[pos] == END {
        Ok((acc, pos + 1))
    } else {
        match decode_value(s, pos, depth) {
            Err(e) => Err(e),
            Ok((item, next)) => if pos < next <= s.len() {
                decode_list_at(s, next, depth, acc.push(item))
            } else {
                Err(DecodeError::Truncated)
            },
        }
    }
}

/// The rest of a dictionary: the entries from `pos` up to the closing
/// `e`, stored into the entries `acc` that were read before. A key that
/// occurs again replaces the earlier entry. As for a list, the test on
/// `next` always holds.
pub open spec fn decode_dict_at(
    s: Seq<u8>,
    pos: int,
    depth: nat,
    acc: Seq<(Seq<u8>, Bencode)>,
) -> Result<(Seq<(Seq<u8>, Bencode)>, int), DecodeError>
    decreases depth, 1nat, s.len() - pos,
{
    if pos < 0 || pos >= s.len() {
        Err(DecodeError::MissingTerminator)
    } else if s[pos] == END {
        Ok((acc, pos + 1))
    } else if !is_digit(s[pos]) {
        Err(DecodeError::KeyNotByteString)
    } else {
        match decode_bytes_at(s, pos) {
            Err(e) => Err(e),
            Ok((key, after_key)) => match decode_value(s, after_key, depth) {
                Err(e) => Err(e),
                Ok((value, next)) => if pos < next <= s.len() {
                    decode_dict_at(s, next, depth, dict_insert(acc, key, value))
                } else {
                    Err(DecodeError::Truncated)
                },
            },
        }
    }
}

/// The value at the start of `s` and the number of bytes it takes.
pub open spec fn spec_decode(s: Seq<u8>, max_depth: nat) -> Result<(Bencode, int), DecodeError> {
    decode_value(s, 0, max_depth)
}

/// Whether the outcome `r` of a decoder is the outcome `expected` that the
/// grammar gives.
pub open spec fn decode_matches(
    r: Result<(BencodeValue, usize), DecodeError>,
    expected: Result<(Bencode, int), DecodeError>,
) -> bool {
    match r {
        Ok((v, n)) => expected == Ok::<(Bencode, int), DecodeError>((v@, n as int)),
        Err(e) => expected == Err::<(Bencode, int), DecodeError>(e),
    }
}

/// The views of the items of a list.
pub open spec fn item_views(items: Seq<BencodeValue>) -> Seq<Bencode> {
    Seq::new(items.len(), |i: int| items[i]@)
}

fn decode_bytes(s: &[u8], pos: usize) -> (r: Result<(Vec<u8>, usize), DecodeError>)
    requires
        pos <= s.len(),
    ensures
        match r {
            Ok((b, next)) => decode_bytes_at(s@, pos as int) == Ok::<(Seq<u8>, int), DecodeError>(
                (b@, next as int),
            ) && pos < next <= s.len(),
            Err(e) => decode_bytes_at(s@, pos as int) == Err::<(Seq<u8>, int), DecodeError>(e),
        },
{
    if pos >= s.len() {
        return Err(DecodeError::Truncated);
    }
    let end = scan_digits(s, pos);
    proof {
        lemma_digits_end_is_run(s@, pos as int);
    }
    if end == pos {
        Err(DecodeError::InvalidLength)
    } else if end >= s.len() {
        Err(DecodeError::Truncated)
    } else if s[end] != COLON {
        Err(DecodeError::InvalidLength)
    } else {
        let available = s.len() - end - 1;
        match parse_digits(s, pos, end) {
            None => Err(DecodeError::Truncated),
            Some(n) => {
                if n > available as u64 {
                    Err(DecodeError::Truncated)
                } else {
                    let n = n as usize;
                    let body = slice_subrange(s, end + 1, end + 1 + n);
                    Ok((copy_bytes(body), end + 1 + n))
                }
            },
        }
    }
}

fn decode_int(s: &[u8], pos: usize) -> (r: Result<(i64, usize), DecodeError>)
    requires
        pos < s.len(),
    ensures
        match r {
            Ok((i, next)) => decode_int_at(s@, pos as int) == Ok::<(int, int), DecodeError>(
                (i as int, next as int),
            ) && pos < next <= s.len(),
            Err(e) => decode_int_at(s@, pos as int) == Err::<(int, int), DecodeError>(e),
        },
{
    let negative = pos + 1 < s.len() && s[pos + 1] == MINUS;
    let start = if negative {
        pos + 2
    } else {
        pos + 1
    };
    if start >= s.len() {
        return Err(DecodeError::Truncated);
    }
    let end = scan_digits(s, start);
    proof {
        lemma_digits_end_is_run(s@, start as int);
    }
    if end == start {
        Err(DecodeError::InvalidInteger)
    } else if s[start] == ZERO && end > start + 1 {
        Err(DecodeError::InvalidInteger)
    } else if end >= s.len() || s[end] != END {
        Err(DecodeError::MissingTerminator)
    } else {
        match parse_digits(s, start, end) {
            None => Err(DecodeError::InvalidInteger),
            Some(magnitude) => {
                if negative {
                    if magnitude > 0x8000_0000_0000_0000 {
                        Err(DecodeError::InvalidInteger)
                    } else if magnitude == 0x8000_0000_0000_0000 {
                        Ok((i64::MIN, end + 1))
                    } else {
                        Ok((-(magnitude as i64), end + 1))
                    }
                } else {
                    if magnitude > 0x7fff_ffff_ffff_ffff {
                        Err(DecodeError::InvalidInteger)
                    } else {
                        Ok((magnitude as i64, end + 1))
                    }
                }
            },
        }
    }
}

fn decode_list(s: &[u8], pos: usize, depth: usize) -> (r: Result<
    (Vec<BencodeValue>, usize),
    DecodeError,
>)
    requires
        pos <= s.len(),
    ensures
        match r {
            Ok((items, next)) => decode_list_at(s@, pos as int, depth as nat, Seq::empty()) == Ok::<
                (Seq<Bencode>, int),
                DecodeError,
            >((item_views(items@), next as int)) && pos < next <= s.len() && forall|k: int|
                0 <= k < items@.len() ==> (#[trigger] items@[k])@.wf(),
            Err(e) => decode_list_at(s@, pos as int, depth as nat, Seq::empty()) == Err::<
                (Seq<Bencode>, int),
                DecodeError,
            >(e),
        },
    decreases depth, 1nat,
{
    let mut items: Vec<BencodeValue> = Vec::new();
    let mut p = pos;
    assert(item_views(items@) =~= Seq::<Bencode>::empty());
    loop
        invariant
            pos <= p <= s.len(),
            decode_list_at(s@, pos as int, depth as nat, Seq::empty()) == decode_list_at(
                s@,
                p as int,
                depth as nat,
                item_views(items@),
            ),
            forall|k: int| 0 <= k < items@.len() ==> (#[trigger] items@[k])@.wf(),
        decreases s.len() - p,
    {
        if p >= s.len() {
            return Err(DecodeError::MissingTerminator);
        }
        if s[p] == END {
            return Ok((items, p + 1));
        }
        match decode_at(s, p, depth) {
            Err(e) => {
                return Err(e);
            },
            Ok((item, next)) => {
                proof {
                    assert(item_views(items@.push(item)) =~= item_views(items@).push(item@));
                }
                items.push(item);
                p = next;
            },
        }
    }
}

fn decode_dict(s: &[u8], pos: usize, depth: usize) -> (r: Result<(Dictionary, usize), DecodeError>)
    requires
        pos <= s.len(),
    ensures
        match r {
            Ok((d, next)) => decode_dict_at(s@, pos as int, depth as nat, Seq::empty()) == Ok::<
                (Seq<(Seq<u8>, Bencode)>, int),
                DecodeError,
            >((d@, next as int)) && pos < next <= s.len() && Bencode::Dictionary(d@).wf(),
            Err(e) => decode_dict_at(s@, pos as int, depth as nat, Seq::empty()) == Err::<
                (Seq<(Seq<u8>, Bencode)>, int),
                DecodeError,
            >(e),
        },
    decreases depth, 1nat,
{
    let mut dict = Dictionary::new();
    let mut p = pos;
    loop
        invariant
            pos <= p <= s.len(),
            decode_dict_at(s@, pos as int, depth as nat, Seq::empty()) == decode_dict_at(
                s@,
                p as int,
                depth as nat,
                dict@,
            ),
            Bencode::Dictionary(dict@).wf(),
        decreases s.len() - p,
    {
        if p >= s.len() {
            return Err(DecodeError::MissingTerminator);
        }
        if s[p] == END {
            return Ok((dict, p + 1));
        }
        if !digit(s[p]) {
            return Err(DecodeError::KeyNotByteString);
        }
        match decode_bytes(s, p) {
            Err(e) => {
                return Err(e);
            },
            Ok((key, after_key)) => match decode_at(s, after_key, depth) {
                Err(e) => {
                    return Err(e);
                },
                Ok((value, next)) => {
                    proof {
                        lemma_dict_insert_wf(dict@, key@, value@);
                    }
                    dict.insert(key, value);
                    p = next;
                },
            },
        }
    }
}

/// Decodes the value that starts at `pos`, with lists and dictionaries
/// allowed to nest `depth` deep. On success gives the value and the
/// position after it.
pub fn decode_at(s: &[u8], pos: usize, depth: usize) -> (r: Result<
    (BencodeValue, usize),
    DecodeError,
>)
    ensures
        decode_matches(r, decode_value(s@, pos as int, depth as nat)),
        r matches Ok((v, next)) ==> v@.wf() && pos < next <= s.len(),
    decreases depth, 0nat,
{
    if pos >= s.len() {
        Err(DecodeError::Truncated)
    } else if s[pos] == INTEGER_START {
        match decode_int(s, pos) {
            Ok((i, next)) => Ok((BencodeValue::Integer(i), next)),
            Err(e) => Err(e),
        }
    } else if s[pos] == LIST_START {
        if depth == 0 {
            Err(DecodeError::TooDeep)
        } else {
            match decode_list(s, pos + 1, depth - 1) {
                Ok((items, next)) => {
                    let v = BencodeValue::List(items);
                    assert(v@ =~= Bencode::List(item_views(items@))) by {
                        assert(v@->List_0 =~= item_views(items@));
                    }
                    assert(v@.wf()) by {
                        assert forall|k: int| 0 <= k < v@->List_0.len() implies (
                        #[trigger] v@->List_0[k]).wf() by {
                            assert(items@[k]@.wf());
                        }
                    }
                    Ok((v, next))
                },
                Err(e) => Err(e),
            }
        }
    } else if s[pos] == DICT_START {
        if depth == 0 {
            Err(DecodeError::TooDeep)
        } else {
            match decode_dict(s, pos + 1, depth - 1) {
                Ok((d, next)) => Ok((BencodeValue::Dictionary(d), next)),
                Err(e) => Err(e),
            }
        }
    } else {
        match decode_bytes(s, pos) {
            Ok((b, next)) => Ok((BencodeValue::ByteString(b), next)),
            Err(e) => Err(e),
        }
    }
}

/// Decodes the value at the start of `input`, with lists and dictionaries
/// allowed to nest `max_depth` deep. On success gives the value and the
/// number of bytes it took; bytes after it are left alone.
pub fn decode_bounded(input: &[u8], max_depth: usize) -> (r: Result<
    (BencodeValue, usize),
    DecodeError,
>)
    ensures
        decode_matches(r, spec_decode(input@, max_depth as nat)),
        r matches Ok((v, n)) ==> v@.wf() && 0 < n <= input.len(),
{
    decode_at(input, 0, max_depth)
}

/// Decodes the value at the start of `input`. On success gives the value
/// and the number of bytes it took; bytes after it are left alone.
pub fn decode(input: &[u8]) -> (r: Result<(BencodeValue, usize), DecodeError>)
    ensures
        decode_matches(r, spec_decode(input@, MAX_DEPTH as nat)),
        r matches Ok((v, n)) ==> v@.wf() && 0 < n <= input.len(),
{
    decode_at(input, 0, MAX_DEPTH)
}

} // verus!
