//! The torrent metainfo: a typed view over a decoded torrent file, its info
//! digest, and how the file splits into pieces.

use crate::bencode::{
    decode, dict_find, encode, encoding, entries_model, lemma_entries_model, lookup, parse_value,
    BValue, BencodeError, Value,
};
use crate::hashing::{base16_lower, hex_lower, sha1_digest, sha1_of};
use vstd::prelude::*;
use vstd::slice::slice_to_vec;
use vstd::utf8::{decode_utf8, valid_utf8};

verus! {

/// The `info` dictionary of a single-file torrent.
#[derive(Debug)]
pub struct Info {
    pub name: String,
    pub length: usize,
    pub piece_length: usize,
    pub pieces: Vec<u8>,
}

/// A torrent: the tracker URL, the typed `info` fields, and the `info`
/// dictionary as it was read, which the info digest is computed from.
#[derive(Debug)]
pub struct Meta {
    pub announce: String,
    pub info: Info,
    pub info_value: Value,
}

/// Why bytes are not a single-file torrent.
#[derive(Debug, Clone, Copy, PartialEq, Eq, Structural)]
pub enum MetainfoError {
    /// The bytes are not bencode.
    Decode(BencodeError),
    /// A required key is absent.
    MissingField,
    /// A value has the wrong kind or is out of range.
    TypeMismatch,
    /// The `pieces` blob is not a whole number of 20-byte digests.
    BadPiecesLength,
}

/// The content of a torrent, as mathematical values.
pub struct MetaModel {
    pub announce: Seq<char>,
    pub name: Seq<char>,
    pub length: nat,
    pub piece_length: nat,
    pub pieces: Seq<u8>,
    pub info: BValue,
}

/// The key `announce`.
pub open spec fn key_announce() -> Seq<u8> {
    seq![97u8, 110, 110, 111, 117, 110, 99, 101]
}

/// The key `info`.
pub open spec fn key_info() -> Seq<u8> {
    seq![105u8, 110, 102, 111]
}

/// The key `name`.
pub open spec fn key_name() -> Seq<u8> {
    seq![110u8, 97, 109, 101]
}

/// The key `length`.
pub open spec fn key_length() -> Seq<u8> {
    seq![108u8, 101, 110, 103, 116, 104]
}

/// The key `piece length`.
pub open spec fn key_piece_length() -> Seq<u8> {
    seq![112u8, 105, 101, 99, 101, 32, 108, 101, 110, 103, 116, 104]
}

/// The key `pieces`.
pub open spec fn key_pieces() -> Seq<u8> {
    seq![112u8, 105, 101, 99, 101, 115]
}

/// A text field: a byte string that is valid UTF-8.
pub open spec fn text_field(entries: Seq<(Seq<u8>, BValue)>, key: Seq<u8>) -> Result<Seq<char>, MetainfoError> {
    match lookup(entries, key) {
        None => Err(MetainfoError::MissingField),
        Some(BValue::Bytes(b)) => if valid_utf8(b) {
            Ok(decode_utf8(b))
        } else {
            Err(MetainfoError::TypeMismatch)
        },
        Some(_) => Err(MetainfoError::TypeMismatch),
    }
}

/// A count field: an integer from `min` up to `usize::MAX`.
pub open spec fn count_field(entries: Seq<(Seq<u8>, BValue)>, key: Seq<u8>, min: int) -> Result<nat, MetainfoError> {
    match lookup(entries, key) {
        None => Err(MetainfoError::MissingField),
        Some(BValue::Int(i)) => if min <= i <= usize::MAX {
            Ok(i as nat)
        } else {
            Err(MetainfoError::TypeMismatch)
        },
        Some(_) => Err(MetainfoError::TypeMismatch),
    }
}

/// A raw bytes field.
pub open spec fn bytes_field(entries: Seq<(Seq<u8>, BValue)>, key: Seq<u8>) -> Result<Seq<u8>, MetainfoError> {
    match lookup(entries, key) {
        None => Err(MetainfoError::MissingField),
        Some(BValue::Bytes(b)) => Ok(b),
        Some(_) => Err(MetainfoError::TypeMismatch),
    }
}

/// The torrent that a decoded value describes: fields are checked in the
/// order announce, info, name, length, piece length, pieces.
pub open spec fn meta_model(v: BValue) -> Result<MetaModel, MetainfoError> {
    match v {
        BValue::Dict(top) => match text_field(top, key_announce()) {
            Err(e) => Err(e),
            Ok(announce) => match lookup(top, key_info()) {
                None => Err(MetainfoError::MissingField),
                Some(BValue::Dict(info)) => match text_field(info, key_name()) {
                    Err(e) => Err(e),
                    Ok(name) => match count_field(info, key_length(), 0) {
                        Err(e) => Err(e),
                        Ok(length) => match count_field(info, key_piece_length(), 1) {
                            Err(e) => Err(e),
                            Ok(piece_length) => match bytes_field(info, key_pieces()) {
                                Err(e) => Err(e),
                                Ok(pieces) => if pieces.len() % 20 != 0 {
                                    Err(MetainfoError::BadPiecesLength)
                                } else {
                                    Ok(
                                        MetaModel {
                                            announce,
                                            name,
                                            length,
                                            piece_length,
                                            pieces,
                                            info: BValue::Dict(info),
                                        },
                                    )
                                },
                            },
                        },
                    },
                },
                Some(_) => Err(MetainfoError::TypeMismatch),
            },
        },
        _ => Err(MetainfoError::TypeMismatch),
    }
}

/// The torrent that a file's bytes describe.
pub open spec fn metainfo_of(b: Seq<u8>) -> Result<MetaModel, MetainfoError> {
    match parse_value(b) {
        Err(e) => Err(MetainfoError::Decode(e)),
        Ok((v, _)) => meta_model(v),
    }
}

/// The number of pieces: the length divided by the piece length, rounded up.
pub open spec fn piece_count_of(length: nat, piece_length: nat) -> nat {
    if piece_length == 0 {
        0
    } else if length % piece_length == 0 {
        length / piece_length
    } else {
        length / piece_length + 1
    }
}

/// The size of piece `i`: the piece length, but for the last piece, which
/// holds what is left.
pub open spec fn piece_size_of(length: nat, piece_length: nat, i: nat) -> int {
    if i + 1 < piece_count_of(length, piece_length) {
        piece_length as int
    } else {
        length - (piece_count_of(length, piece_length) - 1) * piece_length
    }
}

/// The sizes of the first `k` pieces, added up.
pub open spec fn pieces_total(length: nat, piece_length: nat, k: nat) -> int
    decreases k,
{
    if k == 0 {
        0
    } else {
        pieces_total(length, piece_length, (k - 1) as nat) + piece_size_of(length, piece_length, (k - 1) as nat)
    }
}

/// Relies on `String::from_utf8`: it accepts exactly valid UTF-8, and the
/// string holds the characters that the bytes encode.
#[verifier::external_body]
fn utf8_text(b: Vec<u8>) -> (r: Option<String>)
    ensures
        r is Some <==> valid_utf8(b@),
        r matches Some(t) ==> t@ == decode_utf8(b@),
{
    String::from_utf8(b).ok()
}

fn text_entry(entries: &Vec<(Vec<u8>, Value)>, key: &[u8]) -> (r: Result<String, MetainfoError>)
    ensures
        text_field(entries_model(entries@), key@) == match r {
            Ok(t) => Ok::<Seq<char>, MetainfoError>(t@),
            Err(e) => Err(e),
        },
{
    proof {
        lemma_entries_model(entries@);
    }
    match dict_find(entries, key) {
        None => Err(MetainfoError::MissingField),
        Some(i) => match &entries[i].1 {
            Value::ByteString(b) => match utf8_text(slice_to_vec(b.as_slice())) {
                Some(t) => Ok(t),
                None => Err(MetainfoError::TypeMismatch),
            },
            _ => Err(MetainfoError::TypeMismatch),
        },
    }
}

pub(crate) fn count_entry(entries: &Vec<(Vec<u8>, Value)>, key: &[u8], min: i64) -> (r: Result<usize, MetainfoError>)
    requires
        min >= 0,
    ensures
        count_field(entries_model(entries@), key@, min as int) == match r {
            Ok(n) => Ok::<nat, MetainfoError>(n as nat),
            Err(e) => Err(e),
        },
{
    proof {
        lemma_entries_model(entries@);
    }
    match dict_find(entries, key) {
        None => Err(MetainfoError::MissingField),
        Some(i) => match &entries[i].1 {
            Value::Integer(n) => if *n >= min && (*n as u128) <= (usize::MAX as u128) {
                Ok(*n as usize)
            } else {
                Err(MetainfoError::TypeMismatch)
            },
            _ => Err(MetainfoError::TypeMismatch),
        },
    }
}

pub(crate) fn bytes_entry(entries: &Vec<(Vec<u8>, Value)>, key: &[u8]) -> (r: Result<Vec<u8>, MetainfoError>)
    ensures
        bytes_field(entries_model(entries@), key@) == match r {
            Ok(b) => Ok::<Seq<u8>, MetainfoError>(b@),
            Err(e) => Err(e),
        },
{
    proof {
        lemma_entries_model(entries@);
    }
    match dict_find(entries, key) {
        None => Err(MetainfoError::MissingField),
        Some(i) => match &entries[i].1 {
            Value::ByteString(b) => Ok(slice_to_vec(b.as_slice())),
            _ => Err(MetainfoError::TypeMismatch),
        },
    }
}

/// Facts about rounding the piece count up: enough pieces to hold the
/// length, and the last one not empty.
pub proof fn lemma_piece_count(length: nat, piece_length: nat)
    requires
        piece_length > 0,
    ensures
        piece_count_of(length, piece_length) * piece_length >= length,
        piece_count_of(length, piece_length) == 0 <==> length == 0,
        piece_count_of(length, piece_length) > 0 ==> (piece_count_of(length, piece_length) - 1)
            * piece_length < length,
        piece_count_of(length, piece_length) <= length,
{
    let q = length / piece_length;
    let r = length % piece_length;
    assert(length == q * piece_length + r && 0 <= r < piece_length) by (nonlinear_arith)
        requires
            q == length / piece_length,
            r == length % piece_length,
            piece_length > 0,
    ;
    assert(q * piece_length >= q) by (nonlinear_arith)
        requires
            piece_length > 0,
            q >= 0,
    ;
    if r == 0 {
        if q > 0 {
            assert((q - 1) * piece_length == q * piece_length - piece_length) by (nonlinear_arith);
        } else {
            assert(q * piece_length == 0) by (nonlinear_arith)
                requires
                    q == 0,
            ;
        }
    } else {
        assert((q + 1) * piece_length == q * piece_length + piece_length) by (nonlinear_arith);
        assert(q + 1 <= length) by (nonlinear_arith)
            requires
                length == q * piece_length + r,
                0 < r < piece_length,
                q >= 0,
                piece_length > 0,
        ;
    }
}

/// The first `k` pieces, all before the last one, hold `k` piece lengths.
proof fn lemma_full_pieces_total(length: nat, piece_length: nat, k: nat)
    requires
        piece_length > 0,
        k < piece_count_of(length, piece_length),
    ensures
        pieces_total(length, piece_length, k) == k * piece_length,
    decreases k,
{
    if k > 0 {
        lemma_full_pieces_total(length, piece_length, (k - 1) as nat);
        assert((k - 1) * piece_length + piece_length == k * piece_length) by (nonlinear_arith);
        assert(piece_size_of(length, piece_length, (k - 1) as nat) == piece_length);
    } else {
        assert(k * piece_length == 0) by (nonlinear_arith)
            requires
                k == 0,
        ;
    }
}

/// The pieces add up to the file length, and their number is the length
/// divided by the piece length, rounded up.
pub proof fn lemma_piece_split(length: nat, piece_length: nat)
    requires
        piece_length > 0,
    ensures
        pieces_total(length, piece_length, piece_count_of(length, piece_length)) == length,
        piece_count_of(length, piece_length) * piece_length >= length,
        piece_count_of(length, piece_length) == 0 || (piece_count_of(length, piece_length) - 1)
            * piece_length < length,
{
    lemma_piece_count(length, piece_length);
    let count = piece_count_of(length, piece_length);
    if count > 0 {
        lemma_full_pieces_total(length, piece_length, (count - 1) as nat);
    }
}

/// The digest of a torrent is taken over its `info` dictionary as it stands
/// in the file, whatever surrounds it there.
pub proof fn lemma_info_is_file_info(b: Seq<u8>)
    ensures
        metainfo_of(b) matches Ok(m) ==> parse_value(b) matches Ok((BValue::Dict(top), _)) && lookup(
            top,
            key_info(),
        ) == Some(m.info),
{
}

impl Meta {
    /// The content of this torrent, as mathematical values.
    pub open spec fn view(&self) -> MetaModel {
        MetaModel {
            announce: self.announce@,
            name: self.info.name@,
            length: self.info.length as nat,
            piece_length: self.info.piece_length as nat,
            pieces: self.info.pieces@,
            info: self.info_value@,
        }
    }

    /// What the piece functions need: a positive piece length and whole
    /// 20-byte digests.
    pub open spec fn wf(&self) -> bool {
        &&& self.info.piece_length > 0
        &&& self.info.pieces@.len() % 20 == 0
    }

    /// The torrent that a decoded value describes.
    pub fn from_value(v: Value) -> (r: Result<Meta, MetainfoError>)
        ensures
            meta_model(v@) == match r {
                Ok(m) => Ok::<MetaModel, MetainfoError>(m@),
                Err(e) => Err(e),
            },
            r matches Ok(m) ==> m.wf(),
    {
        let mut top = match v {
            Value::Dictionary(top) => top,
            _ => {
                return Err(MetainfoError::TypeMismatch);
            },
        };
        let announce_key: Vec<u8> = vec![97u8, 110, 110, 111, 117, 110, 99, 101];
        let info_key: Vec<u8> = vec![105u8, 110, 102, 111];
        let name_key: Vec<u8> = vec![110u8, 97, 109, 101];
        let length_key: Vec<u8> = vec![108u8, 101, 110, 103, 116, 104];
        let piece_length_key: Vec<u8> = vec![112u8, 105, 101, 99, 101, 32, 108, 101, 110, 103, 116, 104];
        let pieces_key: Vec<u8> = vec![112u8, 105, 101, 99, 101, 115];
        assert(announce_key@ == key_announce());
        assert(info_key@ == key_info());
        assert(name_key@ == key_name());
        assert(length_key@ == key_length());
        assert(piece_length_key@ == key_piece_length());
        assert(pieces_key@ == key_pieces());
        let announce = match text_entry(&top, announce_key.as_slice()) {
            Ok(t) => t,
            Err(e) => {
                return Err(e);
            },
        };
        let index = match dict_find(&top, info_key.as_slice()) {
            Some(i) => i,
            None => {
                return Err(MetainfoError::MissingField);
            },
        };
        let ghost top_model = entries_model(top@);
        let (_, info_value) = top.remove(index);
        let info = match &info_value {
            Value::Dictionary(info) => info,
            _ => {
                return Err(MetainfoError::TypeMismatch);
            },
        };
        let name = match text_entry(info, name_key.as_slice()) {
            Ok(t) => t,
            Err(e) => {
                return Err(e);
            },
        };
        let length = match count_entry(info, length_key.as_slice(), 0) {
            Ok(n) => n,
            Err(e) => {
                return Err(e);
            },
        };
        let piece_length = match count_entry(info, piece_length_key.as_slice(), 1) {
            Ok(n) => n,
            Err(e) => {
                return Err(e);
            },
        };
        let pieces = match bytes_entry(info, pieces_key.as_slice()) {
            Ok(b) => b,
            Err(e) => {
                return Err(e);
            },
        };
        if pieces.len() % 20 != 0 {
            return Err(MetainfoError::BadPiecesLength);
        }
        Ok(Meta { announce, info: Info { name, length, piece_length, pieces }, info_value })
    }

    /// The 20-byte SHA-1 digest of the bencoded `info` dictionary, in the
    /// key order in which it was read.
    pub fn calculate_info_hash(&self) -> (r: Vec<u8>)
        ensures
            r@ == sha1_of(encoding(self.info_value@)),
            r@.len() == 20,
    {
        let bytes = encode(&self.info_value);
        sha1_digest(bytes.as_slice())
    }

    /// The info digest as lowercase hexadecimal text.
    pub fn calculate_info_hash_hexed(&self) -> (r: String)
        ensures
            r@ == hex_lower(sha1_of(encoding(self.info_value@))),
    {
        let digest = self.calculate_info_hash();
        base16_lower(digest.as_slice())
    }

    /// How many pieces the file has.
    pub fn piece_count(&self) -> (r: usize)
        requires
            self.wf(),
        ensures
            r == piece_count_of(self.info.length as nat, self.info.piece_length as nat),
    {
        proof {
            lemma_piece_count(self.info.length as nat, self.info.piece_length as nat);
        }
        let length = self.info.length;
        let piece_length = self.info.piece_length;
        if length % piece_length == 0 {
            length / piece_length
        } else {
            length / piece_length + 1
        }
    }

    /// The size of piece `i`: the piece length, but for the last piece,
    /// which holds what is left of the file.
    pub fn piece_length(&self, i: usize) -> (r: usize)
        requires
            self.wf(),
            i < piece_count_of(self.info.length as nat, self.info.piece_length as nat),
        ensures
            r == piece_size_of(self.info.length as nat, self.info.piece_length as nat, i as nat),
            0 < r <= self.info.piece_length,
    {
        let length = self.info.length;
        let piece_length = self.info.piece_length;
        proof {
            lemma_piece_count(length as nat, piece_length as nat);
        }
        let count = self.piece_count();
        if i + 1 < count {
            piece_length
        } else {
            let full = count - 1;
            assert(full * piece_length < length);
            assert(length - full * piece_length <= piece_length) by (nonlinear_arith)
                requires
                    count * piece_length >= length,
                    full == count - 1,
            ;
            length - full * piece_length
        }
    }

    /// The expected digest of each piece: the `pieces` blob cut into
    /// 20-byte slices.
    pub fn piece_hashes(&self) -> (r: Vec<Vec<u8>>)
        requires
            self.wf(),
        ensures
            r@.len() == self.info.pieces@.len() / 20,
            forall|i: int|
                0 <= i < r@.len() ==> #[trigger] r@[i]@ == self.info.pieces@.subrange(
                    20 * i,
                    20 * i + 20,
                ),
    {
        let pieces = &self.info.pieces;
        let total = pieces.len();
        let n = total / 20;
        let mut out: Vec<Vec<u8>> = Vec::new();
        let mut i: usize = 0;
        while i < n
            invariant
                i <= n,
                n == total / 20,
                total == pieces@.len(),
                out@.len() == i,
                forall|k: int|
                    0 <= k < i ==> #[trigger] out@[k]@ == pieces@.subrange(20 * k, 20 * k + 20),
            decreases n - i,
        {
            assert(20 * i + 20 <= total) by (nonlinear_arith)
                requires
                    i < n,
                    n == total / 20,
            ;
            let chunk = slice_to_vec(&pieces.as_slice()[20 * i..20 * i + 20]);
            out.push(chunk);
            i += 1;
        }
        out
    }

    /// Reads a torrent from the bytes of a `.torrent` file.
    pub fn from_bytes(bytes: &[u8]) -> (r: Result<Meta, MetainfoError>)
        ensures
            metainfo_of(bytes@) == match r {
                Ok(m) => Ok::<MetaModel, MetainfoError>(m@),
                Err(e) => Err(e),
            },
            r matches Ok(m) ==> m.wf(),
    {
        match decode(bytes) {
            Ok((v, _)) => Meta::from_value(v),
            Err(e) => Err(MetainfoError::Decode(e)),
        }
    }
}

} // verus!
