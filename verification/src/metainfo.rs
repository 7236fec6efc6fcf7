//! Torrent metadata: what a metainfo file says of one torrent.

use vstd::prelude::*;
use vstd::string::StringSliceAdditionalSpecFns;
use vstd::arithmetic::div_mod::{lemma_fundamental_div_mod, lemma_mod_bound};
use vstd::arithmetic::mul::lemma_mul_is_distributive_sub;
use crate::bencode::decode::{decode, spec_decode, DecodeError, MAX_DEPTH};
use crate::bencode::encode::{encode, encode_value};
use crate::bencode::value::{dict_get, Bencode, BencodeValue, Dictionary};
use crate::bytes::copy_bytes;
use crate::digest::{sha1, sha1_digest, to_hex, hex_encode};

verus! {

/// A field of a metainfo file, named by its dictionary key.
#[derive(Debug, Clone, Copy, PartialEq, Eq, Structural)]
pub enum Field {
    /// `announce`
    Announce,
    /// `info`
    Info,
    /// `name`
    Name,
    /// `length`
    Length,
    /// `piece length`
    PieceLength,
    /// `pieces`
    Pieces,
}

/// Why a metainfo file is not accepted.
#[derive(Debug, Clone, Copy, PartialEq, Eq, Structural)]
pub enum MetadataError {
    /// The file is not bencode.
    Malformed(DecodeError),
    /// The top-level value is not a dictionary.
    NotADictionary,
    /// A required field is absent.
    Missing(Field),
    /// A field holds a value of the wrong kind.
    WrongType(Field),
    /// A length is zero or negative.
    NotPositive(Field),
    /// The length of `pieces` is not a multiple of 20.
    PiecesLength,
}

/// The dictionary key of a field.
pub open spec fn field_key(field: Field) -> Seq<u8> {
    match field {
        Field::Announce => "announce".spec_bytes(),
        Field::Info => "info".spec_bytes(),
        Field::Name => "name".spec_bytes(),
        Field::Length => "length".spec_bytes(),
        Field::PieceLength => "piece length".spec_bytes(),
        Field::Pieces => "pieces".spec_bytes(),
    }
}

/// Torrent metadata as a mathematical object.
pub struct Metainfo {
    /// The announce URL of the tracker.
    pub announce: Seq<u8>,
    /// The suggested file name.
    pub name: Seq<u8>,
    /// The length of the file in bytes.
    pub length: nat,
    /// The length of every piece but the last.
    pub piece_length: nat,
    /// The SHA-1 digests of the pieces, in order.
    pub piece_hashes: Seq<Seq<u8>>,
    /// The SHA-1 digest of the encoded info dictionary.
    pub info_hash: Seq<u8>,
}

impl Metainfo {
    /// Well-formedness: the lengths are positive, and the info hash and
    /// every piece hash have 20 bytes.
    pub open spec fn wf(self) -> bool {
        &&& 0 < self.length <= i64::MAX
        &&& 0 < self.piece_length <= i64::MAX
        &&& self.info_hash.len() == 20
        &&& forall|i: int|
            0 <= i < self.piece_hashes.len() ==> (#[trigger] self.piece_hashes[i]).len() == 20
    }
}

/// The number of pieces of a file of `length` bytes cut into pieces of
/// `piece_length` bytes.
pub open spec fn piece_count(length: nat, piece_length: nat) -> nat {
    if length % piece_length == 0 {
        length / piece_length
    } else {
        length / piece_length + 1
    }
}

/// The length of piece `index`: `piece_length` for every piece but the
/// last, which holds what is left of the file.
pub open spec fn piece_size(length: nat, piece_length: nat, index: nat) -> nat {
    if index + 1 < piece_count(length, piece_length) {
        piece_length
    } else if index + 1 == piece_count(length, piece_length) {
        (length - piece_length * index) as nat
    } else {
        0
    }
}

/// The value of a field that must hold a byte string.
pub open spec fn bytes_field(d: Seq<(Seq<u8>, Bencode)>, field: Field) -> Result<
    Seq<u8>,
    MetadataError,
> {
    match dict_get(d, field_key(field)) {
        None => Err(MetadataError::Missing(field)),
        Some(Bencode::ByteString(b)) => Ok(b),
        Some(_) => Err(MetadataError::WrongType(field)),
    }
}

/// The value of a field that must hold a positive integer.
pub open spec fn positive_field(d: Seq<(Seq<u8>, Bencode)>, field: Field) -> Result<
    nat,
    MetadataError,
> {
    match dict_get(d, field_key(field)) {
        None => Err(MetadataError::Missing(field)),
        Some(Bencode::Integer(i)) => if i > 0 {
            Ok(i as nat)
        } else {
            Err(MetadataError::NotPositive(field))
        },
        Some(_) => Err(MetadataError::WrongType(field)),
    }
}

/// The value of a field that must hold a dictionary.
pub open spec fn dict_field(d: Seq<(Seq<u8>, Bencode)>, field: Field) -> Result<
    Seq<(Seq<u8>, Bencode)>,
    MetadataError,
> {
    match dict_get(d, field_key(field)) {
        None => Err(MetadataError::Missing(field)),
        Some(Bencode::Dictionary(inner)) => Ok(inner),
        Some(_) => Err(MetadataError::WrongType(field)),
    }
}

/// `pieces` cut into hashes of 20 bytes.
pub open spec fn split_hashes(pieces: Seq<u8>) -> Seq<Seq<u8>> {
    Seq::new((pieces.len() / 20) as nat, |i: int| pieces.subrange(20 * i, 20 * i + 20))
}

/// The info hash of a torrent: the SHA-1 digest of its info dictionary
/// in canonical encoding.
pub open spec fn info_hash_of(info: Bencode) -> Seq<u8> {
    sha1_digest(encode_value(info))
}

/// The metadata that a decoded metainfo file holds. The fields are
/// looked at in this order: `announce`, `info`, and in `info`: `name`,
/// `length`, `piece length`, `pieces`; the first that is absent or of the
/// wrong kind decides the error.
pub open spec fn metainfo_of(top: Bencode) -> Result<Metainfo, MetadataError> {
    match top {
        Bencode::Dictionary(d) => match bytes_field(d, Field::Announce) {
            Err(e) => Err(e),
            Ok(announce) => match dict_field(d, Field::Info) {
                Err(e) => Err(e),
                Ok(info) => match bytes_field(info, Field::Name) {
                    Err(e) => Err(e),
                    Ok(name) => match positive_field(info, Field::Length) {
                        Err(e) => Err(e),
                        Ok(length) => match positive_field(info, Field::PieceLength) {
                            Err(e) => Err(e),
                            Ok(piece_length) => match bytes_field(info, Field::Pieces) {
                                Err(e) => Err(e),
                                Ok(pieces) => if pieces.len() % 20 != 0 {
                                    Err(MetadataError::PiecesLength)
                                } else {
                                    Ok(
                                        Metainfo {
                                            announce,
                                            name,
                                            length,
                                            piece_length,
                                            piece_hashes: split_hashes(pieces),
                                            info_hash: info_hash_of(Bencode::Dictionary(info)),
                                        },
                                    )
                                },
                            },
                        },
                    },
                },
            },
        },
        _ => Err(MetadataError::NotADictionary),
    }
}

/// The metadata that the bytes of a metainfo file hold. Bytes after the
/// top-level dictionary are not looked at.
pub open spec fn parse_metainfo(bytes: Seq<u8>) -> Result<Metainfo, MetadataError> {
    match spec_decode(bytes, MAX_DEPTH as nat) {
        Err(e) => Err(MetadataError::Malformed(e)),
        Ok((top, _)) => metainfo_of(top),
    }
}

/// The pieces of a file cover it exactly: every piece but the last has
/// `piece_length` bytes, and the last has between 1 and `piece_length`.
/// When the file length is no multiple of `piece_length` the last piece
/// has the remainder; when it is, the last piece is a full one.
pub proof fn lemma_piece_sizes(length: nat, piece_length: nat)
    requires
        length > 0,
        piece_length > 0,
    ensures
        piece_count(length, piece_length) >= 1,
        forall|i: nat|
            i + 1 < piece_count(length, piece_length) ==> #[trigger] piece_size(
                length,
                piece_length,
                i,
            ) == piece_length,
        0 < last_piece_size(length, piece_length) <= piece_length,
        length == piece_length * (piece_count(length, piece_length) - 1) + last_piece_size(
            length,
            piece_length,
        ),
        length % piece_length != 0 ==> last_piece_size(length, piece_length) == length
            % piece_length,
        length % piece_length == 0 ==> last_piece_size(length, piece_length) == piece_length,
{
    let q = length as int / piece_length as int;
    let r = length as int % piece_length as int;
    lemma_fundamental_div_mod(length as int, piece_length as int);
    lemma_mod_bound(length as int, piece_length as int);
    lemma_mul_is_distributive_sub(piece_length as int, q, 1);
    assert(q >= 0) by (nonlinear_arith)
        requires
            q == length as int / piece_length as int,
            piece_length > 0,
    ;
    if r == 0 {
        assert(q >= 1) by (nonlinear_arith)
            requires
                length == piece_length * q,
                length > 0,
                piece_length > 0,
        ;
    }
}

/// The length of the last piece.
pub open spec fn last_piece_size(length: nat, piece_length: nat) -> nat {
    piece_size(length, piece_length, (piece_count(length, piece_length) - 1) as nat)
}

/// The views of a run of hashes.
pub open spec fn hash_views(hashes: Seq<[u8; 20]>) -> Seq<Seq<u8>> {
    Seq::new(hashes.len(), |i: int| hashes[i]@)
}

/// What a metainfo file says of one torrent.
#[derive(Debug, PartialEq, Eq)]
pub struct TorrentMetadata {
    announce: Vec<u8>,
    name: Vec<u8>,
    length: u64,
    piece_length: u64,
    piece_hashes: Vec<[u8; 20]>,
    info_hash: [u8; 20],
}

impl View for TorrentMetadata {
    type V = Metainfo;

    closed spec fn view(&self) -> Metainfo {
        Metainfo {
            announce: self.announce@,
            name: self.name@,
            length: self.length as nat,
            piece_length: self.piece_length as nat,
            piece_hashes: hash_views(self.piece_hashes@),
            info_hash: self.info_hash@,
        }
    }
}

fn key_bytes(field: Field) -> (key: &'static [u8])
    ensures
        key@ == field_key(field),
{
    match field {
        Field::Announce => "announce".as_bytes(),
        Field::Info => "info".as_bytes(),
        Field::Name => "name".as_bytes(),
        Field::Length => "length".as_bytes(),
        Field::PieceLength => "piece length".as_bytes(),
        Field::Pieces => "pieces".as_bytes(),
    }
}

fn read_bytes_field<'a>(d: &'a Dictionary, field: Field) -> (r: Result<&'a Vec<u8>, MetadataError>)
    ensures
        match r {
            Ok(b) => bytes_field(d@, field) == Ok::<Seq<u8>, MetadataError>(b@),
            Err(e) => bytes_field(d@, field) == Err::<Seq<u8>, MetadataError>(e),
        },
{
    let key = key_bytes(field);
    match d.get(key) {
        None => Err(MetadataError::Missing(field)),
        Some(v) => match v {
            BencodeValue::ByteString(b) => Ok(b),
            _ => Err(MetadataError::WrongType(field)),
        },
    }
}

fn read_positive_field(d: &Dictionary, field: Field) -> (r: Result<u64, MetadataError>)
    ensures
        match r {
            Ok(n) => positive_field(d@, field) == Ok::<nat, MetadataError>(n as nat) && 0 < n
                <= i64::MAX,
            Err(e) => positive_field(d@, field) == Err::<nat, MetadataError>(e),
        },
{
    let key = key_bytes(field);
    match d.get(key) {
        None => Err(MetadataError::Missing(field)),
        Some(v) => match v {
            BencodeValue::Integer(i) => if *i > 0 {
                Ok(*i as u64)
            } else {
                Err(MetadataError::NotPositive(field))
            },
            _ => Err(MetadataError::WrongType(field)),
        },
    }
}

/// Cuts the `pieces` string into hashes of 20 bytes.
fn split_piece_hashes(pieces: &[u8]) -> (hashes: Vec<[u8; 20]>)
    requires
        pieces@.len() % 20 == 0,
    ensures
        hash_views(hashes@) == split_hashes(pieces@),
{
    let total = pieces.len();
    let count = total / 20;
    let mut hashes: Vec<[u8; 20]> = Vec::new();
    let mut i: usize = 0;
    while i < count
        invariant
            i <= count,
            total == pieces@.len(),
            20 * count == total,
            hashes@.len() == i,
            forall|k: int| 0 <= k < i ==> (#[trigger] hashes@[k])@ == pieces@.subrange(
                20 * k,
                20 * k + 20,
            ),
        decreases count - i,
    {
        let mut hash = [0u8; 20];
        let mut j: usize = 0;
        while j < 20
            invariant
                j <= 20,
                i < count,
                total == pieces@.len(),
                20 * count == total,
                forall|k: int| 0 <= k < j ==> hash@[k] == pieces@[20 * i + k],
            decreases 20 - j,
        {
            hash[j] = pieces[20 * i + j];
            j += 1;
        }
        assert(hash@ =~= pieces@.subrange(20 * i, 20 * i + 20));
        hashes.push(hash);
        i += 1;
    }
    assert(hash_views(hashes@) =~= split_hashes(pieces@));
    hashes
}

impl TorrentMetadata {
    #[verifier::type_invariant]
    spec fn lengths_positive(self) -> bool {
        0 < self.length <= i64::MAX && 0 < self.piece_length <= i64::MAX
    }

    /// Loads the metadata from the bytes of a metainfo file.
    pub fn parse(bytes: &[u8]) -> (r: Result<TorrentMetadata, MetadataError>)
        ensures
            match r {
                Ok(meta) => parse_metainfo(bytes@) == Ok::<Metainfo, MetadataError>(meta@)
                    && meta@.wf(),
                Err(e) => parse_metainfo(bytes@) == Err::<Metainfo, MetadataError>(e),
            },
    {
        match decode(bytes) {
            Err(e) => Err(MetadataError::Malformed(e)),
            Ok((top, _)) => TorrentMetadata::from_value(&top),
        }
    }

    /// Takes the metadata out of a decoded metainfo file.
    pub fn from_value(top: &BencodeValue) -> (r: Result<TorrentMetadata, MetadataError>)
        ensures
            match r {
                Ok(meta) => metainfo_of(top@) == Ok::<Metainfo, MetadataError>(meta@)
                    && meta@.wf(),
                Err(e) => metainfo_of(top@) == Err::<Metainfo, MetadataError>(e),
            },
    {
        let d = match top {
            BencodeValue::Dictionary(d) => d,
            _ => {
                return Err(MetadataError::NotADictionary);
            },
        };
        let announce = match read_bytes_field(d, Field::Announce) {
            Ok(b) => copy_bytes(b.as_slice()),
            Err(e) => {
                return Err(e);
            },
        };
        let info_key = key_bytes(Field::Info);
        let info_value = match d.get(info_key) {
            None => {
                return Err(MetadataError::Missing(Field::Info));
            },
            Some(v) => v,
        };
        let info = match info_value {
            BencodeValue::Dictionary(info) => info,
            _ => {
                return Err(MetadataError::WrongType(Field::Info));
            },
        };
        let name = match read_bytes_field(info, Field::Name) {
            Ok(b) => copy_bytes(b.as_slice()),
            Err(e) => {
                return Err(e);
            },
        };
        let length = match read_positive_field(info, Field::Length) {
            Ok(n) => n,
            Err(e) => {
                return Err(e);
            },
        };
        let piece_length = match read_positive_field(info, Field::PieceLength) {
            Ok(n) => n,
            Err(e) => {
                return Err(e);
            },
        };
        let pieces = match read_bytes_field(info, Field::Pieces) {
            Ok(b) => b,
            Err(e) => {
                return Err(e);
            },
        };
        if pieces.len() % 20 != 0 {
            return Err(MetadataError::PiecesLength);
        }
        let piece_hashes = split_piece_hashes(pieces.as_slice());
        let encoded = encode(info_value);
        let info_hash = sha1(encoded.as_slice());
        Ok(TorrentMetadata { announce, name, length, piece_length, piece_hashes, info_hash })
    }

    /// The announce URL of the tracker.
    pub fn announce(&self) -> (r: &Vec<u8>)
        ensures
            r@ == self@.announce,
    {
        &self.announce
    }

    /// The suggested file name.
    pub fn name(&self) -> (r: &Vec<u8>)
        ensures
            r@ == self@.name,
    {
        &self.name
    }

    /// The length of the file in bytes.
    pub fn length(&self) -> (r: u64)
        ensures
            r == self@.length,
            r > 0,
    {
        proof {
            use_type_invariant(self);
        }
        self.length
    }

    /// The length of every piece but the last.
    pub fn piece_length(&self) -> (r: u64)
        ensures
            r == self@.piece_length,
            r > 0,
    {
        proof {
            use_type_invariant(self);
        }
        self.piece_length
    }

    /// The info hash: the SHA-1 digest of the encoded info dictionary.
    pub fn info_hash(&self) -> (r: &[u8; 20])
        ensures
            r@ == self@.info_hash,
    {
        &self.info_hash
    }

    /// The info hash in hexadecimal.
    pub fn info_hash_hex(&self) -> (r: Vec<u8>)
        ensures
            r@ == hex_encode(self@.info_hash),
    {
        to_hex(self.info_hash.as_slice())
    }

    /// The number of piece hashes that the file lists.
    pub fn hash_count(&self) -> (r: usize)
        ensures
            r == self@.piece_hashes.len(),
    {
        self.piece_hashes.len()
    }

    /// The hash of piece `index`, if the file lists one.
    pub fn piece_hash(&self, index: usize) -> (r: Option<&[u8; 20]>)
        ensures
            match r {
                Some(h) => index < self@.piece_hashes.len() && h@
                    == self@.piece_hashes[index as int],
                None => index >= self@.piece_hashes.len(),
            },
    {
        if index < self.piece_hashes.len() {
            Some(&self.piece_hashes[index])
        } else {
            None
        }
    }

    /// The number of pieces that the file is cut into.
    pub fn piece_count(&self) -> (r: u64)
        ensures
            r == piece_count(self@.length, self@.piece_length),
            r >= 1,
    {
        proof {
            use_type_invariant(self);
            lemma_piece_sizes(self@.length, self@.piece_length);
        }
        if self.length % self.piece_length == 0 {
            self.length / self.piece_length
        } else {
            self.length / self.piece_length + 1
        }
    }

    /// The length of piece `index`, or `None` when the file has no such
    /// piece.
    pub fn piece_size(&self, index: u64) -> (r: Option<u64>)
        ensures
            match r {
                Some(n) => index < piece_count(self@.length, self@.piece_length) && n
                    == piece_size(self@.length, self@.piece_length, index as nat) && 0 < n
                    <= self@.piece_length,
                None => index >= piece_count(self@.length, self@.piece_length),
            },
    {
        let count = self.piece_count();
        proof {
            use_type_invariant(self);
            lemma_piece_sizes(self@.length, self@.piece_length);
        }
        if index >= count {
            None
        } else if index + 1 < count {
            Some(self.piece_length)
        } else if self.length % self.piece_length == 0 {
            Some(self.piece_length)
        } else {
            Some(self.length % self.piece_length)
        }
    }
}

} // verus!
