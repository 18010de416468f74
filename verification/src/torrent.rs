//! The typed torrent metadata model: projection of a decoded bencode
//! dictionary onto announce URL, piece size, piece hashes and file layout,
//! and derivation of the SHA-1 info hash from the exact `info` subtree.

use vstd::prelude::*;
use crate::bencode::{BencodeValue, encoded, encode, value_eq, lemma_encoded_injective};
use crate::decoder::{decode, ParseError};
use crate::chunks::split_chunks;
use crate::digest::{sha1_of, sha1_digest};
use crate::text::{utf8_chars, string_from_utf8};

verus! {

broadcast use vstd::std_specs::vec::group_vec_axioms;

/// The key or position at which a schema check failed.
#[derive(Debug, Clone, Copy, PartialEq, Eq, Structural)]
pub enum TorrentField {
    Root,
    Announce,
    Info,
    Name,
    PieceLength,
    Pieces,
    Length,
    Files,
    Path,
    Interval,
    Peers,
}

/// Why a structurally valid bencode value fails to project onto the model.
#[derive(Debug, Clone, Copy, PartialEq, Eq, Structural)]
pub enum SchemaErrorKind {
    /// A required key is absent.
    Missing,
    /// The key holds a value of the wrong kind (or an out-of-range integer).
    WrongType,
    /// A text field is not valid UTF-8.
    NotUtf8,
    /// A fixed-record byte string whose length is not a whole number of records.
    BadLength,
    /// Neither `length` nor `files` is present.
    LayoutMissing,
    /// Both `length` and `files` are present.
    LayoutAmbiguous,
    /// A file path with zero segments.
    EmptyPath,
}

/// A structurally valid bencode value that does not fit the torrent or
/// tracker-response shape.
#[derive(Debug, Clone, Copy, PartialEq, Eq, Structural)]
pub struct SchemaError {
    pub field: TorrentField,
    pub kind: SchemaErrorKind,
}

/// Any failure to turn raw bytes into the typed model.
#[derive(Debug, Clone, Copy, PartialEq, Eq, Structural)]
pub enum TorrentError {
    Parse(ParseError),
    Schema(SchemaError),
}

/// One file of a multi-file torrent: its byte length and its path segments
/// (never empty; the last segment is the file name).
#[derive(Debug, Clone, PartialEq, Eq)]
pub struct File {
    pub length: usize,
    pub path: Vec<String>,
}

/// The file layout: one single file with its length, or a list of files.
#[derive(Debug, Clone, PartialEq, Eq)]
pub enum Keys {
    SingleFile { length: usize },
    MultiFile { files: Vec<File> },
}

/// The 20-byte SHA-1 piece hashes, one entry per piece.
#[derive(Debug, Clone, PartialEq, Eq)]
pub struct Pieces(pub Vec<Vec<u8>>);

/// The `info` dictionary, typed: suggested name, bytes per piece, the piece
/// hashes, and the file layout.
#[derive(Debug, Clone, PartialEq, Eq)]
pub struct Info {
    pub name: String,
    pub piece_len: usize,
    pub pieces: Pieces,
    pub keys: Keys,
}

/// A parsed torrent file: tracker URL, typed `info`, and the info hash,
/// computed once at parse time from the exact decoded `info` subtree.
#[derive(Debug, Clone, PartialEq, Eq)]
pub struct Torrent {
    pub announce: String,
    pub info: Info,
    pub info_hash: Vec<u8>,
}

/// First-match lookup in a decoded dictionary's entry list.
pub open spec fn dict_lookup(pairs: Seq<(Vec<u8>, BencodeValue)>, key: Seq<u8>) -> Option<
    BencodeValue,
>
    decreases pairs.len(),
{
    if pairs.len() == 0 {
        None
    } else if pairs[0].0@ == key {
        Some(pairs[0].1)
    } else {
        dict_lookup(pairs.drop_first(), key)
    }
}

pub open spec fn key_announce() -> Seq<u8> {
    seq![97u8, 110u8, 110u8, 111u8, 117u8, 110u8, 99u8, 101u8]
}

pub open spec fn key_info() -> Seq<u8> {
    seq![105u8, 110u8, 102u8, 111u8]
}

pub open spec fn key_name() -> Seq<u8> {
    seq![110u8, 97u8, 109u8, 101u8]
}

pub open spec fn key_piece_length() -> Seq<u8> {
    seq![112u8, 105u8, 101u8, 99u8, 101u8, 32u8, 108u8, 101u8, 110u8, 103u8, 116u8, 104u8]
}

pub open spec fn key_pieces() -> Seq<u8> {
    seq![112u8, 105u8, 101u8, 99u8, 101u8, 115u8]
}

pub open spec fn key_length() -> Seq<u8> {
    seq![108u8, 101u8, 110u8, 103u8, 116u8, 104u8]
}

pub open spec fn key_files() -> Seq<u8> {
    seq![102u8, 105u8, 108u8, 101u8, 115u8]
}

pub open spec fn key_path() -> Seq<u8> {
    seq![112u8, 97u8, 116u8, 104u8]
}

/// `p` holds exactly the 20-byte records of `raw`, in order.
pub open spec fn pieces_matches(p: Pieces, raw: Seq<u8>) -> bool {
    &&& raw.len() as int % 20 == 0
    &&& p.0@.len() == raw.len() as int / 20
    &&& forall|i: int| 0 <= i < p.0@.len()
        ==> (#[trigger] p.0@[i])@ == raw.subrange(i * 20, (i + 1) * 20)
}

/// `f` is the typed projection of the file dictionary `v`.
pub open spec fn file_matches(f: File, v: BencodeValue) -> bool {
    &&& v matches BencodeValue::Dictionary(fp)
    &&& dict_lookup(fp@, key_length()) matches Some(BencodeValue::Integer(l))
        && l == f.length
    &&& dict_lookup(fp@, key_path()) matches Some(BencodeValue::List(segs))
        && f.path@.len() == segs@.len()
        && f.path@.len() >= 1
        && (forall|i: int| 0 <= i < segs@.len()
            ==> ((#[trigger] segs@[i]) matches BencodeValue::ByteString(b)
                && utf8_chars(b@) == Some(f.path@[i]@)))
}

/// `info` is the typed projection of the `info` dictionary `v`.
pub open spec fn info_matches(info: Info, v: BencodeValue) -> bool {
    &&& v matches BencodeValue::Dictionary(ps)
    &&& dict_lookup(ps@, key_name()) matches Some(BencodeValue::ByteString(nm))
        && utf8_chars(nm@) == Some(info.name@)
    &&& dict_lookup(ps@, key_piece_length()) matches Some(BencodeValue::Integer(pl))
        && pl == info.piece_len && pl >= 1
    &&& dict_lookup(ps@, key_pieces()) matches Some(BencodeValue::ByteString(pc))
        && pieces_matches(info.pieces, pc@)
    &&& match info.keys {
        Keys::SingleFile { length } => {
            &&& dict_lookup(ps@, key_length()) matches Some(BencodeValue::Integer(l))
                && l == length
            &&& dict_lookup(ps@, key_files()) is None
        },
        Keys::MultiFile { files } => {
            &&& dict_lookup(ps@, key_files()) matches Some(BencodeValue::List(fs))
                && files@.len() == fs@.len()
                && (forall|i: int| 0 <= i < fs@.len()
                    ==> file_matches(#[trigger] files@[i], fs@[i]))
            &&& dict_lookup(ps@, key_length()) is None
        },
    }
}

/// `t` is the typed projection of the whole torrent dictionary `v`, and its
/// stored info hash is the SHA-1 digest of the exact encoding of the `info`
/// subtree of `v`.
pub open spec fn torrent_matches(t: Torrent, v: BencodeValue) -> bool {
    &&& v matches BencodeValue::Dictionary(ps)
    &&& dict_lookup(ps@, key_announce()) matches Some(BencodeValue::ByteString(a))
        && utf8_chars(a@) == Some(t.announce@)
    &&& dict_lookup(ps@, key_info()) matches Some(iv)
        && info_matches(t.info, iv)
        && t.info_hash@ == sha1_of(encoded(iv))
}


/// `v` has the shape `parse_file` accepts: a dictionary with an in-range
/// `length` integer and a non-empty `path` list of UTF-8 byte strings.
pub open spec fn file_shaped(v: BencodeValue) -> bool {
    &&& v matches BencodeValue::Dictionary(fp)
    &&& dict_lookup(fp@, key_length()) matches Some(BencodeValue::Integer(l))
        && 0 <= l <= usize::MAX
    &&& dict_lookup(fp@, key_path()) matches Some(BencodeValue::List(segs))
        && segs@.len() >= 1
        && (forall|i: int| 0 <= i < segs@.len()
            ==> ((#[trigger] segs@[i]) matches BencodeValue::ByteString(b)
                && utf8_chars(b@) is Some))
}

/// `v` has the shape `parse_info` accepts: UTF-8 `name`, an in-range
/// positive `piece length`, a whole-record `pieces` string, and exactly one
/// of an in-range `length` or a list of well-shaped file dictionaries.
pub open spec fn info_shaped(v: BencodeValue) -> bool {
    &&& v matches BencodeValue::Dictionary(ps)
    &&& dict_lookup(ps@, key_name()) matches Some(BencodeValue::ByteString(nm))
        && utf8_chars(nm@) is Some
    &&& dict_lookup(ps@, key_piece_length()) matches Some(BencodeValue::Integer(pl))
        && 1 <= pl <= usize::MAX
    &&& dict_lookup(ps@, key_pieces()) matches Some(BencodeValue::ByteString(pc))
        && pc@.len() as int % 20 == 0
    &&& {
        ||| (dict_lookup(ps@, key_length()) matches Some(BencodeValue::Integer(l))
            && 0 <= l <= usize::MAX
            && dict_lookup(ps@, key_files()) is None)
        ||| (dict_lookup(ps@, key_files()) matches Some(BencodeValue::List(fs))
            && dict_lookup(ps@, key_length()) is None
            && (forall|i: int| 0 <= i < fs@.len() ==> file_shaped(#[trigger] fs@[i])))
    }
}

/// `v` has the shape `parse_torrent` accepts: a dictionary with a UTF-8
/// `announce` byte string and a well-shaped `info` dictionary.
pub open spec fn torrent_shaped(v: BencodeValue) -> bool {
    &&& v matches BencodeValue::Dictionary(ps)
    &&& dict_lookup(ps@, key_announce()) matches Some(BencodeValue::ByteString(a))
        && utf8_chars(a@) is Some
    &&& dict_lookup(ps@, key_info()) matches Some(iv) && info_shaped(iv)
}

/// Equivalence of optional values: both absent, or structurally equivalent.
pub open spec fn value_eq_opt(a: Option<BencodeValue>, b: Option<BencodeValue>) -> bool {
    match (a, b) {
        (Option::None, Option::None) => true,
        (Option::Some(x), Option::Some(y)) => value_eq(x, y),
        _ => false,
    }
}

/// First-match lookup respects structural equivalence of the entry lists.
pub proof fn lemma_dict_lookup_value_eq(
    a: Seq<(Vec<u8>, BencodeValue)>,
    b: Seq<(Vec<u8>, BencodeValue)>,
    key: Seq<u8>,
)
    requires
        a.len() == b.len(),
        forall|i: int| 0 <= i < a.len()
            ==> (#[trigger] a[i]).0@ == b[i].0@ && value_eq(a[i].1, b[i].1),
    ensures
        value_eq_opt(dict_lookup(a, key), dict_lookup(b, key)),
    decreases a.len(),
{
    if a.len() == 0 {
    } else if a[0].0@ == key {
        assert(b[0].0@ == key);
    } else {
        assert(b[0].0@ != key);
        assert forall|i: int| 0 <= i < a.drop_first().len()
            implies (#[trigger] a.drop_first()[i]).0@ == b.drop_first()[i].0@
                && value_eq(a.drop_first()[i].1, b.drop_first()[i].1) by {
            assert(a.drop_first()[i] == a[i + 1]);
            assert(b.drop_first()[i] == b[i + 1]);
            assert(a[i + 1].0@ == b[i + 1].0@ && value_eq(a[i + 1].1, b[i + 1].1));
        }
        lemma_dict_lookup_value_eq(a.drop_first(), b.drop_first(), key);
    }
}

/// The file shape only reads values up to structural equivalence.
pub proof fn lemma_file_shaped_value_eq(v1: BencodeValue, v2: BencodeValue)
    requires
        file_shaped(v1),
        value_eq(v1, v2),
    ensures
        file_shaped(v2),
{
    let fp1 = v1->Dictionary_0;
    let fp2 = v2->Dictionary_0;
    lemma_dict_lookup_value_eq(fp1@, fp2@, key_length());
    lemma_dict_lookup_value_eq(fp1@, fp2@, key_path());
    let segs1 = dict_lookup(fp1@, key_path()).unwrap()->List_0;
    let segs2 = dict_lookup(fp2@, key_path()).unwrap()->List_0;
    assert(value_eq(dict_lookup(fp1@, key_path()).unwrap(),
        dict_lookup(fp2@, key_path()).unwrap()));
    assert forall|i: int| 0 <= i < segs2@.len()
        implies ((#[trigger] segs2@[i]) matches BencodeValue::ByteString(b)
            && utf8_chars(b@) is Some) by {
        assert(segs1@[i] matches BencodeValue::ByteString(b) && utf8_chars(b@) is Some);
        assert(value_eq(segs1@[i], segs2@[i]));
    }
}

/// The info shape only reads values up to structural equivalence.
pub proof fn lemma_info_shaped_value_eq(v1: BencodeValue, v2: BencodeValue)
    requires
        info_shaped(v1),
        value_eq(v1, v2),
    ensures
        info_shaped(v2),
{
    let ps1 = v1->Dictionary_0;
    let ps2 = v2->Dictionary_0;
    lemma_dict_lookup_value_eq(ps1@, ps2@, key_name());
    lemma_dict_lookup_value_eq(ps1@, ps2@, key_piece_length());
    lemma_dict_lookup_value_eq(ps1@, ps2@, key_pieces());
    lemma_dict_lookup_value_eq(ps1@, ps2@, key_length());
    lemma_dict_lookup_value_eq(ps1@, ps2@, key_files());
    if dict_lookup(ps1@, key_files()) is Some {
        let fs1 = dict_lookup(ps1@, key_files()).unwrap()->List_0;
        let fs2 = dict_lookup(ps2@, key_files()).unwrap()->List_0;
        assert(value_eq(dict_lookup(ps1@, key_files()).unwrap(),
            dict_lookup(ps2@, key_files()).unwrap()));
        assert forall|i: int| 0 <= i < fs2@.len()
            implies file_shaped(#[trigger] fs2@[i]) by {
            assert(file_shaped(fs1@[i]));
            assert(value_eq(fs1@[i], fs2@[i]));
            lemma_file_shaped_value_eq(fs1@[i], fs2@[i]);
        }
    }
}

/// The torrent shape only reads values up to structural equivalence.
pub proof fn lemma_torrent_shaped_value_eq(v1: BencodeValue, v2: BencodeValue)
    requires
        torrent_shaped(v1),
        value_eq(v1, v2),
    ensures
        torrent_shaped(v2),
{
    let ps1 = v1->Dictionary_0;
    let ps2 = v2->Dictionary_0;
    lemma_dict_lookup_value_eq(ps1@, ps2@, key_announce());
    lemma_dict_lookup_value_eq(ps1@, ps2@, key_info());
    lemma_info_shaped_value_eq(dict_lookup(ps1@, key_info()).unwrap(),
        dict_lookup(ps2@, key_info()).unwrap());
}

/// Converts a decoded bencode integer to `usize`, rejecting values
/// outside the machine's range.
pub(crate) fn i64_to_usize(v: i64) -> (r: Option<usize>)
    ensures
        (r matches Some(u) ==> u == v),
        (r is None <==> !(0 <= v <= usize::MAX)),
{
    if v < 0 {
        None
    } else if (v as u64) > (usize::MAX as u64) {
        None
    } else {
        Some(v as usize)
    }
}

/// Byte-wise equality of two byte vectors.
fn bytes_eq(a: &Vec<u8>, b: &Vec<u8>) -> (r: bool)
    ensures
        r <==> a@ == b@,
{
    if a.len() != b.len() {
        return false;
    }
    let mut i: usize = 0;
    while i < a.len()
        invariant
            i <= a@.len(),
            a@.len() == b@.len(),
            forall|j: int| 0 <= j < i ==> a@[j] == b@[j],
        decreases a@.len() - i,
    {
        if a[i] != b[i] {
            return false;
        }
        i = i + 1;
    }
    proof {
        assert(a@ =~= b@);
    }
    true
}

proof fn lemma_dict_lookup_skip(pairs: Seq<(Vec<u8>, BencodeValue)>, key: Seq<u8>, i: int)
    requires
        0 <= i < pairs.len(),
        pairs.skip(i)[0].0@ != key,
    ensures
        dict_lookup(pairs.skip(i), key) == dict_lookup(pairs.skip(i + 1), key),
{
    assert(pairs.skip(i).drop_first() =~= pairs.skip(i + 1));
}

/// Finds the first entry of a decoded dictionary whose key is `key`.
#[verifier::loop_isolation(false)]
pub fn dict_get<'a>(pairs: &'a Vec<(Vec<u8>, BencodeValue)>, key: &Vec<u8>) -> (r: Option<
    &'a BencodeValue,
>)
    ensures
        (r matches Some(v) ==> dict_lookup(pairs@, key@) == Some(*v)),
        (r is None ==> dict_lookup(pairs@, key@) is None),
{
    let mut i: usize = 0;
    proof {
        assert(pairs@.skip(0) =~= pairs@);
    }
    while i < pairs.len()
        invariant
            i <= pairs@.len(),
            dict_lookup(pairs@, key@) == dict_lookup(pairs@.skip(i as int), key@),
        decreases pairs@.len() - i,
    {
        proof {
            assert(pairs@.skip(i as int)[0] == pairs@[i as int]);
        }
        if bytes_eq(&pairs[i].0, key) {
            return Some(&pairs[i].1);
        }
        proof {
            lemma_dict_lookup_skip(pairs@, key@, i as int);
        }
        i = i + 1;
    }
    proof {
        assert(pairs@.skip(pairs@.len() as int).len() == 0);
    }
    None
}

/// Projects one entry of the `files` list onto a `File`. Complete: it
/// accepts every well-shaped file dictionary.
#[verifier::loop_isolation(false)]
fn parse_file(v: &BencodeValue) -> (r: Result<File, SchemaError>)
    ensures
        (r matches Ok(f) ==> file_matches(f, *v)),
        file_shaped(*v) ==> r is Ok,
{
    let fp = match v {
        BencodeValue::Dictionary(fp) => fp,
        _ => {
            return Err(SchemaError { field: TorrentField::Files, kind: SchemaErrorKind::WrongType });
        },
    };
    let length: usize = {
        let klen: Vec<u8> = vec![108u8, 101u8, 110u8, 103u8, 116u8, 104u8];
        proof {
            assert(klen@ =~= key_length());
        }
        match dict_get(fp, &klen) {
            Some(BencodeValue::Integer(l)) => {
                match i64_to_usize(*l) {
                    Some(u) => u,
                    None => {
                        return Err(SchemaError {
                            field: TorrentField::Length,
                            kind: SchemaErrorKind::WrongType,
                        });
                    },
                }
            },
            Some(_) => {
                return Err(SchemaError {
                    field: TorrentField::Length,
                    kind: SchemaErrorKind::WrongType,
                });
            },
            None => {
                return Err(SchemaError {
                    field: TorrentField::Length,
                    kind: SchemaErrorKind::Missing,
                });
            },
        }
    };
    let kpath: Vec<u8> = vec![112u8, 97u8, 116u8, 104u8];
    proof {
        assert(kpath@ =~= key_path());
    }
    let segs = match dict_get(fp, &kpath) {
        Some(BencodeValue::List(segs)) => segs,
        Some(_) => {
            return Err(SchemaError { field: TorrentField::Path, kind: SchemaErrorKind::WrongType });
        },
        None => {
            return Err(SchemaError { field: TorrentField::Path, kind: SchemaErrorKind::Missing });
        },
    };
    if segs.len() == 0 {
        return Err(SchemaError { field: TorrentField::Path, kind: SchemaErrorKind::EmptyPath });
    }
    let mut path: Vec<String> = Vec::new();
    let mut i: usize = 0;
    while i < segs.len()
        invariant
            i <= segs@.len(),
            path@.len() == i,
            forall|j: int| 0 <= j < i
                ==> ((#[trigger] segs@[j]) matches BencodeValue::ByteString(b)
                    && utf8_chars(b@) == Some(path@[j]@)),
        decreases segs@.len() - i,
    {
        let seg = match &segs[i] {
            BencodeValue::ByteString(b) => b,
            _ => {
                return Err(SchemaError {
                    field: TorrentField::Path,
                    kind: SchemaErrorKind::WrongType,
                });
            },
        };
        let owned = clone_bytes(seg);
        match string_from_utf8(owned) {
            Some(s) => {
                path.push(s);
            },
            None => {
                return Err(SchemaError {
                    field: TorrentField::Path,
                    kind: SchemaErrorKind::NotUtf8,
                });
            },
        }
        i = i + 1;
    }
    Ok(File { length, path })
}

/// Copies a byte vector.
fn clone_bytes(v: &Vec<u8>) -> (r: Vec<u8>)
    ensures
        r@ == v@,
{
    let mut r: Vec<u8> = Vec::new();
    let mut i: usize = 0;
    while i < v.len()
        invariant
            i <= v@.len(),
            r@ == v@.take(i as int),
        decreases v@.len() - i,
    {
        r.push(v[i]);
        proof {
            assert(v@.take(i as int).push(v@[i as int]) =~= v@.take(i as int + 1));
        }
        i = i + 1;
    }
    proof {
        assert(v@.take(v@.len() as int) =~= v@);
    }
    r
}

/// Projects the decoded `info` dictionary onto the typed `Info`. Complete:
/// it accepts every well-shaped `info` dictionary.
#[verifier::loop_isolation(false)]
pub fn parse_info(v: &BencodeValue) -> (r: Result<Info, SchemaError>)
    ensures
        (r matches Ok(info) ==> info_matches(info, *v)),
        info_shaped(*v) ==> r is Ok,
{
    let ps = match v {
        BencodeValue::Dictionary(ps) => ps,
        _ => {
            return Err(SchemaError { field: TorrentField::Info, kind: SchemaErrorKind::WrongType });
        },
    };
    let kname: Vec<u8> = vec![110u8, 97u8, 109u8, 101u8];
    proof {
        assert(kname@ =~= key_name());
    }
    let name: String = match dict_get(ps, &kname) {
        Some(BencodeValue::ByteString(nm)) => {
            match string_from_utf8(clone_bytes(nm)) {
                Some(s) => s,
                None => {
                    return Err(SchemaError {
                        field: TorrentField::Name,
                        kind: SchemaErrorKind::NotUtf8,
                    });
                },
            }
        },
        Some(_) => {
            return Err(SchemaError { field: TorrentField::Name, kind: SchemaErrorKind::WrongType });
        },
        None => {
            return Err(SchemaError { field: TorrentField::Name, kind: SchemaErrorKind::Missing });
        },
    };
    let kpl: Vec<u8> = vec![
        112u8, 105u8, 101u8, 99u8, 101u8, 32u8, 108u8, 101u8, 110u8, 103u8, 116u8, 104u8,
    ];
    proof {
        assert(kpl@ =~= key_piece_length());
    }
    let piece_len: usize = match dict_get(ps, &kpl) {
        Some(BencodeValue::Integer(pl)) => {
            match i64_to_usize(*pl) {
                Some(u) if u >= 1 => u,
                _ => {
                    return Err(SchemaError {
                        field: TorrentField::PieceLength,
                        kind: SchemaErrorKind::WrongType,
                    });
                },
            }
        },
        Some(_) => {
            return Err(SchemaError {
                field: TorrentField::PieceLength,
                kind: SchemaErrorKind::WrongType,
            });
        },
        None => {
            return Err(SchemaError {
                field: TorrentField::PieceLength,
                kind: SchemaErrorKind::Missing,
            });
        },
    };
    let kpieces: Vec<u8> = vec![112u8, 105u8, 101u8, 99u8, 101u8, 115u8];
    proof {
        assert(kpieces@ =~= key_pieces());
    }
    let pieces: Pieces = match dict_get(ps, &kpieces) {
        Some(BencodeValue::ByteString(pc)) => {
            match split_chunks(pc, 20) {
                Ok(chunks) => Pieces(chunks),
                Err(_) => {
                    return Err(SchemaError {
                        field: TorrentField::Pieces,
                        kind: SchemaErrorKind::BadLength,
                    });
                },
            }
        },
        Some(_) => {
            return Err(SchemaError {
                field: TorrentField::Pieces,
                kind: SchemaErrorKind::WrongType,
            });
        },
        None => {
            return Err(SchemaError { field: TorrentField::Pieces, kind: SchemaErrorKind::Missing });
        },
    };
    let klen: Vec<u8> = vec![108u8, 101u8, 110u8, 103u8, 116u8, 104u8];
    proof {
        assert(klen@ =~= key_length());
    }
    let kfiles: Vec<u8> = vec![102u8, 105u8, 108u8, 101u8, 115u8];
    proof {
        assert(kfiles@ =~= key_files());
    }
    let length_entry = dict_get(ps, &klen);
    let files_entry = dict_get(ps, &kfiles);
    let keys: Keys = match (length_entry, files_entry) {
        (Some(lv), None) => {
            match lv {
                BencodeValue::Integer(l) => {
                    match i64_to_usize(*l) {
                        Some(u) => Keys::SingleFile { length: u },
                        None => {
                            return Err(SchemaError {
                                field: TorrentField::Length,
                                kind: SchemaErrorKind::WrongType,
                            });
                        },
                    }
                },
                _ => {
                    return Err(SchemaError {
                        field: TorrentField::Length,
                        kind: SchemaErrorKind::WrongType,
                    });
                },
            }
        },
        (None, Some(fv)) => {
            match fv {
                BencodeValue::List(fs) => {
                    let mut files: Vec<File> = Vec::new();
                    let mut i: usize = 0;
                    while i < fs.len()
                        invariant
                            i <= fs@.len(),
                            files@.len() == i,
                            forall|j: int| 0 <= j < i
                                ==> file_matches(#[trigger] files@[j], fs@[j]),
                        decreases fs@.len() - i,
                    {
                        match parse_file(&fs[i]) {
                            Ok(f) => {
                                files.push(f);
                            },
                            Err(e) => {
                                return Err(e);
                            },
                        }
                        i = i + 1;
                    }
                    Keys::MultiFile { files }
                },
                _ => {
                    return Err(SchemaError {
                        field: TorrentField::Files,
                        kind: SchemaErrorKind::WrongType,
                    });
                },
            }
        },
        (Some(_), Some(_)) => {
            return Err(SchemaError {
                field: TorrentField::Length,
                kind: SchemaErrorKind::LayoutAmbiguous,
            });
        },
        (None, None) => {
            return Err(SchemaError {
                field: TorrentField::Length,
                kind: SchemaErrorKind::LayoutMissing,
            });
        },
    };
    Ok(Info { name, piece_len, pieces, keys })
}

/// Some bencoded value encodes to exactly `bytes` and projects onto `t`.
pub open spec fn torrent_source(t: Torrent, bytes: Seq<u8>) -> bool {
    exists|v: BencodeValue| encoded(v) == bytes && #[trigger] torrent_matches(t, v)
}

/// Parses a whole torrent file: decodes the buffer, projects the required
/// keys, and derives the info hash by re-encoding the exact `info` subtree
/// (in its original key order) and hashing it with SHA-1. Complete: it
/// accepts every buffer that encodes a well-shaped torrent dictionary.
pub fn parse_torrent(bytes: &Vec<u8>) -> (r: Result<Torrent, TorrentError>)
    ensures
        (r matches Ok(t) ==> torrent_source(t, bytes@)),
        (exists|v: BencodeValue| encoded(v) == bytes@ && #[trigger] torrent_shaped(v))
            ==> r is Ok,
{
    let value = match decode(bytes) {
        Ok(v) => v,
        Err(e) => {
            proof {
                if exists|v: BencodeValue| encoded(v) == bytes@ && #[trigger] torrent_shaped(v) {
                    let v = choose|v: BencodeValue|
                        encoded(v) == bytes@ && #[trigger] torrent_shaped(v);
                    assert(exists|w: BencodeValue| encoded(w) == bytes@);
                    assert(false);
                }
            }
            return Err(TorrentError::Parse(e));
        },
    };
    proof {
        // a shaped witness encodes to the same bytes as the decoded value,
        // so by injectivity the decoded value is shaped too
        if exists|v: BencodeValue| encoded(v) == bytes@ && #[trigger] torrent_shaped(v) {
            let v = choose|v: BencodeValue|
                encoded(v) == bytes@ && #[trigger] torrent_shaped(v);
            lemma_encoded_injective(v, value);
            lemma_torrent_shaped_value_eq(v, value);
        }
    }
    let ps = match &value {
        BencodeValue::Dictionary(ps) => ps,
        _ => {
            return Err(TorrentError::Schema(SchemaError {
                field: TorrentField::Root,
                kind: SchemaErrorKind::WrongType,
            }));
        },
    };
    let kann: Vec<u8> = vec![97u8, 110u8, 110u8, 111u8, 117u8, 110u8, 99u8, 101u8];
    proof {
        assert(kann@ =~= key_announce());
    }
    let announce: String = match dict_get(ps, &kann) {
        Some(BencodeValue::ByteString(a)) => {
            match string_from_utf8(clone_bytes(a)) {
                Some(s) => s,
                None => {
                    return Err(TorrentError::Schema(SchemaError {
                        field: TorrentField::Announce,
                        kind: SchemaErrorKind::NotUtf8,
                    }));
                },
            }
        },
        Some(_) => {
            return Err(TorrentError::Schema(SchemaError {
                field: TorrentField::Announce,
                kind: SchemaErrorKind::WrongType,
            }));
        },
        None => {
            return Err(TorrentError::Schema(SchemaError {
                field: TorrentField::Announce,
                kind: SchemaErrorKind::Missing,
            }));
        },
    };
    let kinfo: Vec<u8> = vec![105u8, 110u8, 102u8, 111u8];
    proof {
        assert(kinfo@ =~= key_info());
    }
    let iv = match dict_get(ps, &kinfo) {
        Some(iv) => iv,
        None => {
            return Err(TorrentError::Schema(SchemaError {
                field: TorrentField::Info,
                kind: SchemaErrorKind::Missing,
            }));
        },
    };
    let info = match parse_info(iv) {
        Ok(info) => info,
        Err(e) => {
            return Err(TorrentError::Schema(e));
        },
    };
    let info_bytes = encode(iv);
    let info_hash = sha1_digest(&info_bytes);
    let t = Torrent { announce, info, info_hash };
    proof {
        assert(torrent_source(t, bytes@)) by {
            assert(encoded(value) == bytes@ && torrent_matches(t, value));
        }
    }
    Ok(t)
}

/// The `info` entry of a decoded top-level dictionary, if any.
pub open spec fn info_subtree(v: BencodeValue) -> Option<BencodeValue> {
    match v {
        BencodeValue::Dictionary(ps) => dict_lookup(ps@, key_info()),
        _ => None,
    }
}

/// Info-hash stability: a torrent's hash is a function of the encoded bytes
/// of its source's `info` subtree alone. Two parses whose `info` subtrees
/// encode to the same bytes carry the same hash, whatever the bytes outside
/// the subtree (a different `announce`, extra keys) look like; and hashing
/// the same subtree twice cannot differ.
pub proof fn lemma_info_hash_from_info_only(
    t1: Torrent,
    v1: BencodeValue,
    t2: Torrent,
    v2: BencodeValue,
)
    requires
        torrent_matches(t1, v1),
        torrent_matches(t2, v2),
        encoded(info_subtree(v1).unwrap()) == encoded(info_subtree(v2).unwrap()),
    ensures
        t1.info_hash@ == t2.info_hash@,
{
    assert(info_subtree(v1) is Some);
    assert(info_subtree(v2) is Some);
    assert(t1.info_hash@ == sha1_of(encoded(info_subtree(v1).unwrap())));
    assert(t2.info_hash@ == sha1_of(encoded(info_subtree(v2).unwrap())));
}


} // verus!
