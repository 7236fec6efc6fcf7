//! SHA-1 digests and their hexadecimal form.

use vstd::prelude::*;
use sha1::Digest;

verus! {

/// The SHA-1 digest of `data`, as the `sha1` crate computes it.
pub uninterp spec fn sha1_digest(data: Seq<u8>) -> Seq<u8>;

/// Calls `sha1::Sha1::digest` on `data`.
///
/// Trusted: the 20 bytes returned are the digest that `sha1_digest` names.
/// Nothing else is claimed of the hash function.
#[verifier::external_body]
pub(crate) fn sha1_bytes(data: &[u8]) -> (digest: [u8; 20])
    ensures
        digest@ == sha1_digest(data@),
{
    sha1::Sha1::digest(data).into()
}

/// SHA-1 of `data`.
pub fn sha1(data: &[u8]) -> (digest: [u8; 20])
    ensures
        digest@ == sha1_digest(data@),
{
    sha1_bytes(data)
}

/// The lower-case hexadecimal digit for a value below 16.
pub open spec fn hex_digit(n: int) -> u8 {
    if n < 10 {
        (48 + n) as u8
    } else {
        (87 + n) as u8
    }
}

/// The lower-case hexadecimal form of `data`, two digits for each byte.
pub open spec fn hex_encode(data: Seq<u8>) -> Seq<u8> {
    Seq::new(
        2 * data.len(),
        |i: int|
            if i % 2 == 0 {
                hex_digit(data[i / 2] as int / 16)
            } else {
                hex_digit(data[i / 2] as int % 16)
            },
    )
}

fn hex_digit_of(n: u8) -> (c: u8)
    requires
        n < 16,
    ensures
        c == hex_digit(n as int),
{
    if n < 10 {
        48 + n
    } else {
        87 + n
    }
}

/// Writes `data` in lower-case hexadecimal, as ASCII bytes.
pub fn to_hex(data: &[u8]) -> (out: Vec<u8>)
    ensures
        out@ == hex_encode(data@),
{
    let mut out: Vec<u8> = Vec::new();
    let mut i: usize = 0;
    while i < data.len()
        invariant
            i <= data.len(),
            out@.len() == 2 * i,
            forall|k: int| 0 <= k < out@.len() ==> out@[k] == hex_encode(data@)[k],
        decreases data.len() - i,
    {
        out.push(hex_digit_of(data[i] / 16));
        out.push(hex_digit_of(data[i] % 16));
        i += 1;
    }
    assert(out@ =~= hex_encode(data@));
    out
}

} // verus!
