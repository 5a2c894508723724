use vstd::prelude::*;

use crate::value::{deep_entries, enc, SpecValue, Value};
use sha1::Digest;
use vstd::string::{is_ascii, is_ascii_spec_bytes};

verus! {

/// The 20-byte SHA-1 digest of a byte sequence; a function of the bytes
/// alone, named here and computed only by `compute_hash`.
pub uninterp spec fn sha1_of(b: Seq<u8>) -> Seq<u8>;

/// Relies on sha1::Sha1 through its Digest interface: feeding the bytes and
/// finalizing yields the 20-byte SHA-1 digest, a function of the bytes
/// alone.
#[verifier::external_body]
fn compute_hash(bytes: &Vec<u8>) -> (r: Vec<u8>)
    ensures
        r@ == sha1_of(bytes@),
        r@.len() == 20,
{
    let mut hasher = sha1::Sha1::new();
    hasher.update(bytes.as_slice());
    hasher.finalize().to_vec()
}

/// The characters that a byte sequence decodes to as UTF-8, if it is
/// well-formed; a function of the bytes alone, named here and computed only
/// by `bytes_to_string`.
pub uninterp spec fn utf8_decode(b: Seq<u8>) -> Option<Seq<char>>;

/// Relies on String::from_utf8: it succeeds exactly on well-formed UTF-8
/// input, and the characters depend on the bytes alone.
#[verifier::external_body]
fn bytes_to_string(bytes: &Vec<u8>) -> (r: Option<String>)
    ensures
        r matches Some(t) ==> utf8_decode(bytes@) == Some(t@),
        r is Some <==> utf8_decode(bytes@) is Some,
{
    match String::from_utf8(bytes.clone()) {
        Ok(t) => Some(t),
        Err(_) => None,
    }
}

/// The bytes of the `announce` key.
pub open spec fn key_announce() -> Seq<u8> {
    seq![97u8, 110u8, 110u8, 111u8, 117u8, 110u8, 99u8, 101u8]
}

/// The bytes of the `info` key.
pub open spec fn key_info() -> Seq<u8> {
    seq![105u8, 110u8, 102u8, 111u8]
}

/// The bytes of the `length` key.
pub open spec fn key_length() -> Seq<u8> {
    seq![108u8, 101u8, 110u8, 103u8, 116u8, 104u8]
}

/// The bytes of the `name` key.
pub open spec fn key_name() -> Seq<u8> {
    seq![110u8, 97u8, 109u8, 101u8]
}

/// The bytes of the `piece length` key.
pub open spec fn key_piece_length() -> Seq<u8> {
    seq![112u8, 105u8, 101u8, 99u8, 101u8, 32u8, 108u8, 101u8, 110u8, 103u8, 116u8, 104u8]
}

/// The bytes of the `pieces` key.
pub open spec fn key_pieces() -> Seq<u8> {
    seq![112u8, 105u8, 101u8, 99u8, 101u8, 115u8]
}

/// The value stored under a key in a dictionary body, if any: the first
/// entry with that key (in a decoded dictionary, keys are unique).
pub open spec fn spec_dict_get(d: Seq<(Seq<u8>, SpecValue)>, k: Seq<u8>) -> Option<SpecValue>
    decreases d.len(),
{
    if d.len() == 0 {
        None
    } else if d[0].0 == k {
        Some(d[0].1)
    } else {
        spec_dict_get(d.drop_first(), k)
    }
}

/// The `pieces` byte string split into consecutive 20-byte chunks.
pub open spec fn chunk20(b: Seq<u8>) -> Seq<Seq<u8>> {
    Seq::new((b.len() / 20) as nat, |i: int| b.subrange(20 * i, 20 * i + 20))
}

/// The mathematical content of a projected torrent record.
pub struct SpecTorrent {
    pub announce: Seq<char>,
    pub length: int,
    pub name: Seq<char>,
    pub piece_length: int,
    pub pieces: Seq<Seq<u8>>,
    pub info_hash: Seq<u8>,
}

/// What projecting the `info` sub-dictionary yields, if anything: the
/// length, the name, the piece length, and the 20-byte piece digests. A
/// `pieces` string whose length is not a multiple of 20 yields nothing.
pub open spec fn spec_project_info(v: SpecValue) -> Option<(int, Seq<char>, int, Seq<Seq<u8>>)> {
    match v {
        SpecValue::Dict(d) => {
            match (
                spec_dict_get(d, key_length()),
                spec_dict_get(d, key_name()),
                spec_dict_get(d, key_piece_length()),
                spec_dict_get(d, key_pieces()),
            ) {
                (
                    Some(SpecValue::Int(length)),
                    Some(SpecValue::Bytes(nm)),
                    Some(SpecValue::Int(piece_length)),
                    Some(SpecValue::Bytes(ps)),
                ) => {
                    if ps.len() % 20 == 0 {
                        match utf8_decode(nm) {
                            Some(name) => Some((length, name, piece_length, chunk20(ps))),
                            None => None,
                        }
                    } else {
                        None
                    }
                },
                _ => None,
            }
        },
        _ => None,
    }
}

/// What projecting a decoded value yields, if anything: the value must be a
/// dictionary holding a text `announce` byte string and an `info`
/// sub-dictionary with the required fields; the info-hash is the SHA-1
/// digest of the canonical encoding of the raw `info` sub-value alone.
pub open spec fn spec_project(v: SpecValue) -> Option<SpecTorrent> {
    match v {
        SpecValue::Dict(d) => {
            match (spec_dict_get(d, key_announce()), spec_dict_get(d, key_info())) {
                (Some(SpecValue::Bytes(a)), Some(info)) => {
                    match (spec_project_info(info), utf8_decode(a)) {
                        (Some(si), Some(announce)) => Some(
                            SpecTorrent {
                                announce: announce,
                                length: si.0,
                                name: si.1,
                                piece_length: si.2,
                                pieces: si.3,
                                info_hash: sha1_of(enc(info)),
                            },
                        ),
                        _ => None,
                    }
                },
                _ => None,
            }
        },
        _ => None,
    }
}

/// Whether two byte sequences are equal.
fn bytes_eq(a: &[u8], b: &[u8]) -> (r: bool)
    ensures
        r == (a@ == b@),
{
    if a.len() != b.len() {
        return false;
    }
    let mut i: usize = 0;
    while i < a.len()
        invariant
            i <= a@.len(),
            a@.len() == b@.len(),
            forall|j: int| 0 <= j < i ==> a@[j] == b@[j],
        decreases a@.len() - i,
    {
        if a[i] != b[i] {
            return false;
        }
        i = i + 1;
    }
    proof {
        assert(a@ =~= b@);
    }
    true
}

/// Looks a key up in a dictionary's entry vector.
fn dict_get<'a>(entries: &'a Vec<(Vec<u8>, Value)>, key: &[u8]) -> (r: Option<&'a Value>)
    ensures
        match r {
            Some(v) => spec_dict_get(deep_entries(entries@), key@) == Some(v.deep()),
            None => spec_dict_get(deep_entries(entries@), key@) is None,
        },
{
    let ghost d = deep_entries(entries@);
    proof {
        assert(d.skip(0) =~= d);
    }
    let mut i: usize = 0;
    while i < entries.len()
        invariant
            i <= entries@.len(),
            d == deep_entries(entries@),
            spec_dict_get(d, key@) == spec_dict_get(d.skip(i as int), key@),
        decreases entries@.len() - i,
    {
        proof {
            assert(d.skip(i as int)[0] == d[i as int]);
            assert(d.skip(i as int).drop_first() =~= d.skip(i as int + 1));
        }
        if bytes_eq(entries[i].0.as_slice(), key) {
            return Some(&entries[i].1);
        }
        i = i + 1;
    }
    proof {
        assert(d.skip(i as int) =~= Seq::<(Seq<u8>, SpecValue)>::empty());
    }
    None
}

/// Why a well-formed bencode value is not valid torrent metadata.
#[derive(Debug, Clone, Copy, PartialEq, Eq, Structural)]
pub enum TorrentError {
    InvalidMetadata,
}

/// A typed torrent-metadata record: the tracker URL, the typed `info`
/// fields, and the torrent's identity, the SHA-1 digest of the canonical
/// encoding of the raw `info` sub-value.
#[derive(Debug)]
pub struct Torrent {
    pub announce: String,
    pub info: Info,
    pub info_hash: Vec<u8>,
}

/// The typed fields of the `info` sub-dictionary. `pieces` holds the
/// 20-byte digest of each piece, split out of the concatenated `pieces`
/// byte string.
#[derive(Debug)]
pub struct Info {
    pub length: isize,
    pub name: String,
    pub piece_length: isize,
    pub pieces: Vec<Vec<u8>>,
}

/// The views of the piece digests.
pub open spec fn deep_pieces(s: Seq<Vec<u8>>) -> Seq<Seq<u8>> {
    Seq::new(
        s.len(),
        |i: int|
            if 0 <= i < s.len() {
                s[i]@
            } else {
                Seq::empty()
            },
    )
}

impl Info {
    /// The mathematical content of this record: length, name, piece length
    /// and piece digests.
    pub open spec fn deep(self) -> (int, Seq<char>, int, Seq<Seq<u8>>) {
        (self.length as int, self.name@, self.piece_length as int, deep_pieces(self.pieces@))
    }

    /// Projects the `info` sub-value into its typed fields; fails with
    /// `InvalidMetadata` exactly when the specification-level projection of
    /// the value yields nothing.
    pub fn from_value(v: &Value) -> (r: Result<Info, TorrentError>)
        ensures
            match r {
                Ok(info) => spec_project_info(v.deep()) == Some(info.deep()),
                Err(e) => e == TorrentError::InvalidMetadata && spec_project_info(v.deep())
                    is None,
            },
    {
        let info_dict = match v {
            Value::Dictionary(d) => d,
            _ => {
                return Err(TorrentError::InvalidMetadata);
            },
        };
        proof {
            crate::value::lemma_deep_dictionary(*info_dict);
        }
        let length_key = "length".as_bytes();
        proof {
            reveal_strlit("length");
            is_ascii_spec_bytes("length");
            assert(length_key@ =~= key_length());
        }
        let length: isize = match dict_get(info_dict, length_key) {
            Some(Value::Integer(l)) => *l,
            _ => {
                return Err(TorrentError::InvalidMetadata);
            },
        };
        let name_key = "name".as_bytes();
        proof {
            reveal_strlit("name");
            is_ascii_spec_bytes("name");
            assert(name_key@ =~= key_name());
        }
        let name_bytes = match dict_get(info_dict, name_key) {
            Some(Value::ByteString(b)) => b,
            _ => {
                return Err(TorrentError::InvalidMetadata);
            },
        };
        let piece_length_key = "piece length".as_bytes();
        proof {
            reveal_strlit("piece length");
            is_ascii_spec_bytes("piece length");
            assert(piece_length_key@ =~= key_piece_length());
        }
        let piece_length: isize = match dict_get(info_dict, piece_length_key) {
            Some(Value::Integer(l)) => *l,
            _ => {
                return Err(TorrentError::InvalidMetadata);
            },
        };
        let pieces_key = "pieces".as_bytes();
        proof {
            reveal_strlit("pieces");
            is_ascii_spec_bytes("pieces");
            assert(pieces_key@ =~= key_pieces());
        }
        let pieces_bytes = match dict_get(info_dict, pieces_key) {
            Some(Value::ByteString(b)) => b,
            _ => {
                return Err(TorrentError::InvalidMetadata);
            },
        };
        if pieces_bytes.len() % 20 != 0 {
            return Err(TorrentError::InvalidMetadata);
        }
        let name = match bytes_to_string(name_bytes) {
            Some(s) => s,
            None => {
                return Err(TorrentError::InvalidMetadata);
            },
        };
        let pieces = chunk_pieces(pieces_bytes);
        Ok(Info { length, name, piece_length, pieces })
    }
}

/// Splits the concatenated digest string into its 20-byte chunks.
fn chunk_pieces(b: &Vec<u8>) -> (r: Vec<Vec<u8>>)
    requires
        b@.len() % 20 == 0,
    ensures
        deep_pieces(r@) == chunk20(b@),
{
    let mut r: Vec<Vec<u8>> = Vec::new();
    let mut off: usize = 0;
    while off < b.len()
        invariant
            off <= b@.len(),
            off % 20 == 0,
            b@.len() % 20 == 0,
            r@.len() == off / 20,
            forall|i: int|
                0 <= i < r@.len() ==> (#[trigger] r@[i])@ == b@.subrange(20 * i, 20 * i + 20),
        decreases b@.len() - off,
    {
        let chunk = vstd::slice::slice_to_vec(
            vstd::slice::slice_subrange(b.as_slice(), off, off + 20),
        );
        r.push(chunk);
        off = off + 20;
    }
    proof {
        assert(deep_pieces(r@) =~= chunk20(b@));
    }
    r
}

impl Torrent {
    /// The mathematical content of this record.
    pub open spec fn deep(self) -> SpecTorrent {
        SpecTorrent {
            announce: self.announce@,
            length: self.info.deep().0,
            name: self.info.deep().1,
            piece_length: self.info.deep().2,
            pieces: self.info.deep().3,
            info_hash: self.info_hash@,
        }
    }

    /// Projects a decoded bencode value into a typed torrent-metadata
    /// record, computing the SHA-1 info-hash over the canonical
    /// re-encoding of the raw `info` sub-value alone. Fails with
    /// `InvalidMetadata` exactly when the specification-level projection of
    /// the value yields nothing: when the value is not a dictionary, when
    /// `announce` is missing, not a byte string or not text, when `info` is
    /// missing or malformed, or when the `pieces` length is not a multiple
    /// of 20.
    pub fn from_value(value: Value) -> (r: Result<Torrent, TorrentError>)
        ensures
            match r {
                Ok(t) => spec_project(value.deep()) == Some(t.deep()),
                Err(e) => e == TorrentError::InvalidMetadata && spec_project(value.deep())
                    is None,
            },
    {
        let dict = match &value {
            Value::Dictionary(d) => d,
            _ => {
                return Err(TorrentError::InvalidMetadata);
            },
        };
        proof {
            crate::value::lemma_deep_dictionary(*dict);
        }
        let announce_key = "announce".as_bytes();
        proof {
            reveal_strlit("announce");
            is_ascii_spec_bytes("announce");
            assert(announce_key@ =~= key_announce());
        }
        let announce_bytes = match dict_get(dict, announce_key) {
            Some(Value::ByteString(b)) => b,
            _ => {
                return Err(TorrentError::InvalidMetadata);
            },
        };
        let info_key = "info".as_bytes();
        proof {
            reveal_strlit("info");
            is_ascii_spec_bytes("info");
            assert(info_key@ =~= key_info());
        }
        let info_value = match dict_get(dict, info_key) {
            Some(v) => v,
            None => {
                return Err(TorrentError::InvalidMetadata);
            },
        };
        let info = match Info::from_value(info_value) {
            Ok(i) => i,
            Err(e) => {
                return Err(e);
            },
        };
        let encoded = info_value.encode();
        let info_hash = compute_hash(&encoded);
        let announce = match bytes_to_string(announce_bytes) {
            Some(s) => s,
            None => {
                return Err(TorrentError::InvalidMetadata);
            },
        };
        Ok(Torrent { announce, info, info_hash })
    }
}

} // verus!
