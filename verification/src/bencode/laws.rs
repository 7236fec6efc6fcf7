//! What holds of the codec as a whole: decoding undoes encoding.

use vstd::prelude::*;
use crate::bencode::decode::{
    decode_bytes_at, decode_dict_at, decode_int_at, decode_list_at, decode_value, spec_decode,
    DecodeError,
};
use crate::bencode::encode::{
    encode_bytes, encode_entries, encode_int, encode_items, encode_value,
};
use crate::bencode::value::{
    dict_insert, keys_ascending, lemma_dict_insert_all, lemma_dict_insert_ascending,
    lemma_dict_insert_wf, Bencode, COLON, DICT_START, END, INTEGER_START, LIST_START, MINUS, ZERO,
};
use crate::bytes::{
    decimal, is_digit, lemma_decimal, lemma_digits_end, lemma_digits_end_is_run,
    lemma_lex_irreflexive, lemma_lex_transitive, lex_lt,
};

verus! {

/// Whether the bytes `t` stand in `s` at `pos`.
pub open spec fn has_at(s: Seq<u8>, pos: int, t: Seq<u8>) -> bool {
    0 <= pos && pos + t.len() <= s.len() && s.subrange(pos, pos + t.len()) == t
}

proof fn lemma_has_at_index(s: Seq<u8>, pos: int, t: Seq<u8>, j: int)
    requires
        has_at(s, pos, t),
        0 <= j < t.len(),
    ensures
        s[pos + j] == t[j],
{
    assert(s.subrange(pos, pos + t.len())[j] == s[pos + j]);
}

proof fn lemma_has_at_concat(s: Seq<u8>, pos: int, a: Seq<u8>, b: Seq<u8>)
    requires
        has_at(s, pos, a + b),
    ensures
        has_at(s, pos, a),
        has_at(s, pos + a.len(), b),
{
    let whole = s.subrange(pos, pos + (a + b).len());
    assert forall|j: int| 0 <= j < a.len() implies s.subrange(pos, pos + a.len())[j] == a[j] by {
        assert(whole[j] == (a + b)[j]);
    }
    assert(s.subrange(pos, pos + a.len()) =~= a);
    assert forall|j: int| 0 <= j < b.len() implies s.subrange(
        pos + a.len(),
        pos + a.len() + b.len(),
    )[j] == b[j] by {
        assert(whole[a.len() + j] == (a + b)[a.len() + j]);
    }
    assert(s.subrange(pos + a.len(), pos + a.len() + b.len()) =~= b);
}

/// A decimal number that stands at `pos` and is followed by something
/// other than a digit is the run of digits that starts at `pos`.
proof fn lemma_decimal_at(s: Seq<u8>, pos: int, n: nat)
    requires
        has_at(s, pos, decimal(n)),
        pos + decimal(n).len() < s.len(),
        !is_digit(s[pos + decimal(n).len()]),
    ensures
        crate::bytes::digits_end(s, pos) == pos + decimal(n).len(),
        crate::bytes::digits_value(s.subrange(pos, pos + decimal(n).len())) == n,
        is_digit(s[pos]),
        s[pos] == ZERO <==> n == 0,
{
    lemma_decimal(n);
    let d = decimal(n);
    assert forall|i: int| pos <= i < pos + d.len() implies is_digit(#[trigger] s[i]) by {
        lemma_has_at_index(s, pos, d, i - pos);
        assert(is_digit(d[i - pos]));
    }
    lemma_digits_end(s, pos, pos + d.len());
    lemma_has_at_index(s, pos, d, 0);
}

/// A byte string is decoded from its encoding.
proof fn lemma_roundtrip_bytes(s: Seq<u8>, pos: int, b: Seq<u8>)
    requires
        has_at(s, pos, encode_bytes(b)),
    ensures
        decode_bytes_at(s, pos) == Ok::<(Seq<u8>, int), DecodeError>(
            (b, pos + encode_bytes(b).len()),
        ),
        is_digit(s[pos]),
{
    let d = decimal(b.len());
    lemma_decimal(b.len());
    assert(encode_bytes(b) == (d + seq![COLON]) + b);
    lemma_has_at_concat(s, pos, d + seq![COLON], b);
    lemma_has_at_concat(s, pos, d, seq![COLON]);
    lemma_has_at_index(s, pos + d.len(), seq![COLON], 0);
    lemma_decimal_at(s, pos, b.len());
}

/// An integer of 64 bits is decoded from its encoding.
proof fn lemma_roundtrip_int(s: Seq<u8>, pos: int, i: int)
    requires
        has_at(s, pos, encode_int(i)),
        i64::MIN <= i <= i64::MAX,
    ensures
        decode_int_at(s, pos) == Ok::<(int, int), DecodeError>((i, pos + encode_int(i).len())),
        s[pos] == INTEGER_START,
{
    if i < 0 {
        let n = (-i) as nat;
        let d = decimal(n);
        lemma_decimal(n);
        assert(encode_int(i) == (seq![INTEGER_START, MINUS] + d) + seq![END]);
        lemma_has_at_concat(s, pos, seq![INTEGER_START, MINUS] + d, seq![END]);
        lemma_has_at_concat(s, pos, seq![INTEGER_START, MINUS], d);
        lemma_has_at_index(s, pos, seq![INTEGER_START, MINUS], 0);
        lemma_has_at_index(s, pos, seq![INTEGER_START, MINUS], 1);
        lemma_has_at_index(s, pos + 2 + d.len(), seq![END], 0);
        lemma_decimal_at(s, pos + 2, n);
    } else {
        let n = i as nat;
        let d = decimal(n);
        lemma_decimal(n);
        assert(encode_int(i) == (seq![INTEGER_START] + d) + seq![END]);
        lemma_has_at_concat(s, pos, seq![INTEGER_START] + d, seq![END]);
        lemma_has_at_concat(s, pos, seq![INTEGER_START], d);
        lemma_has_at_index(s, pos, seq![INTEGER_START], 0);
        lemma_has_at_index(s, pos + 1 + d.len(), seq![END], 0);
        lemma_decimal_at(s, pos + 1, n);
    }
}

/// A value is decoded from its encoding wherever that stands.
proof fn lemma_roundtrip_at(s: Seq<u8>, pos: int, v: Bencode, depth: nat)
    requires
        has_at(s, pos, encode_value(v)),
        v.wf(),
        v.within_depth(depth),
    ensures
        decode_value(s, pos, depth) == Ok::<(Bencode, int), DecodeError>(
            (v, pos + encode_value(v).len()),
        ),
        encode_value(v).len() > 0,
        s[pos] != END,
    decreases v, 0nat,
{
    match v {
        Bencode::Integer(i) => {
            lemma_roundtrip_int(s, pos, i);
            lemma_decimal((-i) as nat);
            lemma_decimal(i as nat);
        },
        Bencode::ByteString(b) => {
            lemma_roundtrip_bytes(s, pos, b);
            lemma_decimal(b.len());
        },
        Bencode::List(items) => {
            let body = encode_items(items, 0);
            assert(encode_value(v) == (seq![LIST_START] + body) + seq![END]);
            lemma_has_at_concat(s, pos, seq![LIST_START] + body, seq![END]);
            lemma_has_at_concat(s, pos, seq![LIST_START], body);
            lemma_has_at_index(s, pos, seq![LIST_START], 0);
            lemma_has_at_index(s, pos + 1 + body.len(), seq![END], 0);
            assert(items.subrange(0, 0) =~= Seq::<Bencode>::empty());
            lemma_roundtrip_items(s, pos + 1, items, 0, (depth - 1) as nat);
        },
        Bencode::Dictionary(entries) => {
            let body = encode_entries(entries, 0);
            assert(encode_value(v) == (seq![DICT_START] + body) + seq![END]);
            lemma_has_at_concat(s, pos, seq![DICT_START] + body, seq![END]);
            lemma_has_at_concat(s, pos, seq![DICT_START], body);
            lemma_has_at_index(s, pos, seq![DICT_START], 0);
            lemma_has_at_index(s, pos + 1 + body.len(), seq![END], 0);
            assert(entries.subrange(0, 0) =~= Seq::<(Seq<u8>, Bencode)>::empty());
            lemma_roundtrip_entries(s, pos + 1, entries, 0, (depth - 1) as nat);
        },
    }
}

/// The items of a list from index `k` on are decoded from their
/// encodings and the closing `e`.
proof fn lemma_roundtrip_items(s: Seq<u8>, pos: int, items: Seq<Bencode>, k: int, depth: nat)
    requires
        0 <= k <= items.len(),
        has_at(s, pos, encode_items(items, k)),
        pos + encode_items(items, k).len() < s.len(),
        s[pos + encode_items(items, k).len()] == END,
        forall|j: int| 0 <= j < items.len() ==> (#[trigger] items[j]).wf(),
        forall|j: int| 0 <= j < items.len() ==> (#[trigger] items[j]).within_depth(depth),
    ensures
        decode_list_at(s, pos, depth, items.subrange(0, k)) == Ok::<
            (Seq<Bencode>, int),
            DecodeError,
        >((items, pos + encode_items(items, k).len() + 1)),
    decreases items, items.len() - k,
{
    if k == items.len() {
        assert(items.subrange(0, k) == items);
    } else {
        let first = encode_value(items[k]);
        let others = encode_items(items, k + 1);
        lemma_has_at_concat(s, pos, first, others);
        lemma_roundtrip_at(s, pos, items[k], depth);
        assert(items.subrange(0, k).push(items[k]) =~= items.subrange(0, k + 1));
        lemma_roundtrip_items(s, pos + first.len(), items, k + 1, depth);
    }
}

/// The entries of a dictionary from index `k` on are decoded from their
/// encodings and the closing `e`.
proof fn lemma_roundtrip_entries(
    s: Seq<u8>,
    pos: int,
    entries: Seq<(Seq<u8>, Bencode)>,
    k: int,
    depth: nat,
)
    requires
        0 <= k <= entries.len(),
        has_at(s, pos, encode_entries(entries, k)),
        pos + encode_entries(entries, k).len() < s.len(),
        s[pos + encode_entries(entries, k).len()] == END,
        keys_ascending(entries),
        forall|j: int| 0 <= j < entries.len() ==> (#[trigger] entries[j]).1.wf(),
        forall|j: int| 0 <= j < entries.len() ==> (#[trigger] entries[j]).1.within_depth(depth),
    ensures
        decode_dict_at(s, pos, depth, entries.subrange(0, k)) == Ok::<
            (Seq<(Seq<u8>, Bencode)>, int),
            DecodeError,
        >((entries, pos + encode_entries(entries, k).len() + 1)),
    decreases entries, entries.len() - k,
{
    if k == entries.len() {
        assert(entries.subrange(0, k) == entries);
    } else {
        let key = encode_bytes(entries[k].0);
        let value = encode_value(entries[k].1);
        let others = encode_entries(entries, k + 1);
        assert(encode_entries(entries, k) == (key + value) + others);
        lemma_has_at_concat(s, pos, key + value, others);
        lemma_has_at_concat(s, pos, key, value);
        lemma_roundtrip_bytes(s, pos, entries[k].0);
        lemma_roundtrip_at(s, pos + key.len(), entries[k].1, depth);
        let acc = entries.subrange(0, k);
        assert(dict_insert(acc, entries[k].0, entries[k].1) == acc.push(entries[k])) by {
            if k > 0 {
                assert(acc.last() == entries[k - 1]);
                assert(lex_lt(entries[k - 1].0, entries[k].0));
                lemma_lex_irreflexive(entries[k].0);
                if lex_lt(entries[k].0, entries[k - 1].0) {
                    lemma_lex_transitive(entries[k].0, entries[k - 1].0, entries[k].0);
                }
            }
        }
        assert(acc.push(entries[k]) =~= entries.subrange(0, k + 1));
        lemma_roundtrip_entries(s, pos + key.len() + value.len(), entries, k + 1, depth);
    }
}

/// What decodes is a value: it takes at least one byte and no more than
/// there are, it is well-formed, its dictionaries having ascending keys
/// in whatever order the input had them, and it nests no deeper than the
/// limit.
pub proof fn lemma_decode_value(s: Seq<u8>, pos: int, depth: nat)
    ensures
        decode_value(s, pos, depth) matches Ok((v, next)) ==> {
            &&& 0 <= pos < next <= s.len()
            &&& v.wf()
            &&& v.within_depth(depth)
        },
    decreases depth, 0nat, 0nat,
{
    if 0 <= pos < s.len() {
        if s[pos] == INTEGER_START {
            let start = if pos + 1 < s.len() && s[pos + 1] == MINUS {
                pos + 2
            } else {
                pos + 1
            };
            if start <= s.len() {
                lemma_digits_end_is_run(s, start);
            }
        } else if s[pos] == LIST_START {
            if depth > 0 {
                lemma_decode_list(s, pos + 1, (depth - 1) as nat, Seq::empty());
            }
        } else if s[pos] == DICT_START {
            if depth > 0 {
                lemma_decode_dict(s, pos + 1, (depth - 1) as nat, Seq::empty());
            }
        } else {
            lemma_digits_end_is_run(s, pos);
        }
    }
}

/// The items of a list that decodes are values, as `lemma_decode_value`
/// says, if those read before are.
proof fn lemma_decode_list(s: Seq<u8>, pos: int, depth: nat, acc: Seq<Bencode>)
    requires
        forall|j: int| 0 <= j < acc.len() ==> (#[trigger] acc[j]).wf(),
        forall|j: int| 0 <= j < acc.len() ==> (#[trigger] acc[j]).within_depth(depth),
    ensures
        decode_list_at(s, pos, depth, acc) matches Ok((items, next)) ==> {
            &&& 0 <= pos < next <= s.len()
            &&& forall|j: int| 0 <= j < items.len() ==> (#[trigger] items[j]).wf()
            &&& forall|j: int| 0 <= j < items.len() ==> (#[trigger] items[j]).within_depth(depth)
        },
    decreases depth, 1nat, s.len() - pos,
{
    if 0 <= pos < s.len() && s[pos] != END {
        lemma_decode_value(s, pos, depth);
        match decode_value(s, pos, depth) {
            Ok((item, next)) => {
                if pos < next <= s.len() {
                    let more = acc.push(item);
                    assert forall|j: int| 0 <= j < more.len() implies (#[trigger] more[j]).wf()
                        && more[j].within_depth(depth) by {
                        if j < acc.len() {
                            assert(more[j] == acc[j]);
                        }
                    }
                    lemma_decode_list(s, next, depth, more);
                }
            },
            Err(_) => {},
        }
    }
}

/// The entries of a dictionary that decodes have ascending keys and
/// values as `lemma_decode_value` says, if those read before have.
proof fn lemma_decode_dict(s: Seq<u8>, pos: int, depth: nat, acc: Seq<(Seq<u8>, Bencode)>)
    requires
        keys_ascending(acc),
        forall|j: int| 0 <= j < acc.len() ==> (#[trigger] acc[j]).1.wf(),
        forall|j: int| 0 <= j < acc.len() ==> (#[trigger] acc[j]).1.within_depth(depth),
    ensures
        decode_dict_at(s, pos, depth, acc) matches Ok((entries, next)) ==> {
            &&& 0 <= pos < next <= s.len()
            &&& keys_ascending(entries)
            &&& forall|j: int| 0 <= j < entries.len() ==> (#[trigger] entries[j]).1.wf()
            &&& forall|j: int|
                0 <= j < entries.len() ==> (#[trigger] entries[j]).1.within_depth(depth)
        },
    decreases depth, 1nat, s.len() - pos,
{
    if 0 <= pos < s.len() && s[pos] != END && is_digit(s[pos]) {
        lemma_digits_end_is_run(s, pos);
        match decode_bytes_at(s, pos) {
            Ok((key, after_key)) => {
                lemma_decode_value(s, after_key, depth);
                match decode_value(s, after_key, depth) {
                    Ok((value, next)) => {
                        if pos < next <= s.len() {
                            lemma_dict_insert_ascending(acc, key, value);
                            lemma_dict_insert_wf(acc, key, value);
                            lemma_dict_insert_all(
                                acc,
                                key,
                                value,
                                |e: (Seq<u8>, Bencode)| e.1.within_depth(depth),
                            );
                            lemma_decode_dict(s, next, depth, dict_insert(acc, key, value));
                        }
                    },
                    Err(_) => {},
                }
            },
            Err(_) => {},
        }
    }
}

/// Round trip: the encoding of a well-formed value, whatever bytes follow
/// it, decodes to that value and the length of the encoding, provided the
/// value nests no deeper than the decoder's limit.
pub proof fn lemma_decode_encode(v: Bencode, rest: Seq<u8>, max_depth: nat)
    requires
        v.wf(),
        v.within_depth(max_depth),
    ensures
        spec_decode(encode_value(v) + rest, max_depth) == Ok::<(Bencode, int), DecodeError>(
            (v, encode_value(v).len() as int),
        ),
{
    let s = encode_value(v) + rest;
    assert(s.subrange(0, encode_value(v).len() as int) =~= encode_value(v));
    lemma_roundtrip_at(s, 0, v, max_depth);
}

/// The canonical encoding tells values apart: two well-formed values
/// with the same encoding are the same value.
pub proof fn lemma_encode_injective(a: Bencode, b: Bencode, depth: nat)
    requires
        a.wf(),
        b.wf(),
        a.within_depth(depth),
        b.within_depth(depth),
        encode_value(a) == encode_value(b),
    ensures
        a == b,
{
    lemma_decode_encode(a, Seq::empty(), depth);
    lemma_decode_encode(b, Seq::empty(), depth);
}

} // verus!
