//! Encoding a bencode value to bytes.

use vstd::prelude::*;
use crate::bencode::value::{
    Bencode, BencodeValue, COLON, DICT_START, END, INTEGER_START, LIST_START, MINUS,
};
use crate::bytes::{decimal, push_bytes, push_decimal};

verus! {

/// The encoding of an integer: `i`, the decimal digits with a leading `-`
/// when negative, `e`.
pub open spec fn encode_int(i: int) -> Seq<u8> {
    if i < 0 {
        seq![INTEGER_START, MINUS] + decimal((-i) as nat) + seq![END]
    } else {
        seq![INTEGER_START] + decimal(i as nat) + seq![END]
    }
}

/// The encoding of a byte string: its length in decimal, `:`, its bytes.
pub open spec fn encode_bytes(b: Seq<u8>) -> Seq<u8> {
    decimal(b.len()) + seq![COLON] + b
}

/// The encoding of a value. A list is `l`, its items, `e`; a dictionary
/// is `d`, each key followed by its value, `e`.
pub open spec fn encode_value(v: Bencode) -> Seq<u8>
    decreases v, 0nat,
{
    match v {
        Bencode::Integer(i) => encode_int(i),
        Bencode::ByteString(b) => encode_bytes(b),
        Bencode::List(items) => seq![LIST_START] + encode_items(items, 0) + seq![END],
        Bencode::Dictionary(entries) => seq![DICT_START] + encode_entries(entries, 0) + seq![END],
    }
}

/// The encodings of `items[from..]`, one after the other.
pub open spec fn encode_items(items: Seq<Bencode>, from: int) -> Seq<u8>
    decreases items, items.len() - from,
{
    if 0 <= from < items.len() {
        encode_value(items[from]) + encode_items(items, from + 1)
    } else {
        Seq::empty()
    }
}

/// The encodings of `entries[from..]`, one after the other, each a key
/// and its value.
pub open spec fn encode_entries(entries: Seq<(Seq<u8>, Bencode)>, from: int) -> Seq<u8>
    decreases entries, entries.len() - from,
{
    if 0 <= from < entries.len() {
        encode_bytes(entries[from].0) + encode_value(entries[from].1) + encode_entries(
            entries,
            from + 1,
        )
    } else {
        Seq::empty()
    }
}

/// Appends the encoding of `v` to `out`. The value is well-formed, as
/// every value is that was built through `Dictionary::insert`, so the
/// keys of each dictionary go out in ascending order.
pub fn encode_into(v: &BencodeValue, out: &mut Vec<u8>)
    ensures
        final(out)@ == old(out)@ + encode_value(v@),
        v@.wf(),
    decreases v,
{
    let ghost start = out@;
    match v {
        BencodeValue::Integer(i) => {
            out.push(INTEGER_START);
            if *i < 0 {
                out.push(MINUS);
                let magnitude: u64 = (-(*i + 1)) as u64 + 1;
                push_decimal(out, magnitude);
            } else {
                push_decimal(out, *i as u64);
            }
            out.push(END);
            assert(out@ =~= start + encode_int(*i as int));
        },
        BencodeValue::ByteString(b) => {
            push_decimal(out, b.len() as u64);
            out.push(COLON);
            push_bytes(out, b.as_slice());
            assert(out@ =~= start + encode_bytes(b@));
        },
        BencodeValue::List(items) => {
            let ghost view = v@->List_0;
            out.push(LIST_START);
            let mut k: usize = 0;
            while k < items.len()
                invariant
                    k <= items.len(),
                    v@ == Bencode::List(view),
                    *v == BencodeValue::List(*items),
                    forall|j: int| 0 <= j < k ==> (#[trigger] view[j]).wf(),
                    out@ + encode_items(view, k as int) == start + seq![LIST_START] + encode_items(
                        view,
                        0,
                    ),
                decreases items.len() - k,
            {
                let ghost before = out@;
                encode_into(&items[k], out);
                proof {
                    assert(view[k as int] == items[k as int]@);
                    assert(out@ + encode_items(view, k + 1) =~= before + encode_items(
                        view,
                        k as int,
                    ));
                }
                k += 1;
            }
            out.push(END);
            assert(out@ =~= start + encode_value(v@));
        },
        BencodeValue::Dictionary(d) => {
            let ghost view = d@;
            out.push(DICT_START);
            let n = d.len();
            let mut k: usize = 0;
            assert(decreases_to!(v => d));
            while k < n
                invariant
                    k <= n,
                    decreases_to!(v => d),
                    n == view.len(),
                    view == d@,
                    *v == BencodeValue::Dictionary(*d),
                    forall|j: int| 0 <= j < k ==> (#[trigger] view[j]).1.wf(),
                    out@ + encode_entries(view, k as int) == start + seq![DICT_START] + encode_entries(
                        view,
                        0,
                    ),
                decreases n - k,
            {
                let ghost before = out@;
                let key = d.key(k);
                push_decimal(out, key.len() as u64);
                out.push(COLON);
                push_bytes(out, key.as_slice());
                encode_into(d.value(k), out);
                proof {
                    assert(out@ + encode_entries(view, k + 1) =~= before + encode_entries(
                        view,
                        k as int,
                    ));
                }
                k += 1;
            }
            out.push(END);
            assert(out@ =~= start + encode_value(v@));
        },
    }
}

/// The canonical encoding of `v`: the keys of each dictionary go out
/// in ascending order, whatever the order in which they were inserted.
pub fn encode(v: &BencodeValue) -> (out: Vec<u8>)
    ensures
        out@ == encode_value(v@),
        v@.wf(),
{
    let mut out: Vec<u8> = Vec::new();
    encode_into(v, &mut out);
    out
}

} // verus!
