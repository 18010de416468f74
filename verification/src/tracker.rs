//! The tracker wire formats: the percent-encoded request query string, and
//! the response with its compact 6-byte peer entries.

use vstd::prelude::*;
use crate::bencode::{BencodeValue, encoded, push_bytes, value_eq, lemma_encoded_injective};
use crate::decoder::decode;
use crate::chunks::split_chunks;
use crate::torrent::{dict_get, dict_lookup, value_eq_opt, lemma_dict_lookup_value_eq,
    SchemaError, SchemaErrorKind, TorrentField,
    TorrentError};
use crate::text::{percent_all, percent_byte, form_encoded, ascii_chars,
    is_ascii_bytes, ascii_string, push_hex_byte_upper, lemma_percent_all_push,
    lemma_form_encoded_push, lemma_percent_all_ascii, lemma_form_encoded_ascii};
use crate::numbers::{digits_of, push_decimal, lemma_digits_of_canonical};

verus! {

broadcast use vstd::std_specs::vec::group_vec_axioms;

/// One tracker request: the raw 20-byte info hash and peer id, and the
/// scalar transfer counters. Immutable once built.
#[derive(Debug, Clone, PartialEq, Eq)]
pub struct TrackerRequest {
    /// The torrent's 20-byte SHA-1 info hash (raw bytes, not hex).
    pub info_hash: Vec<u8>,
    /// The client's 20-byte identifier (raw bytes).
    pub peer_id: Vec<u8>,
    /// The port the client listens on.
    pub port: u16,
    /// Total bytes uploaded so far.
    pub uploaded: usize,
    /// Total bytes downloaded so far.
    pub downloaded: usize,
    /// Bytes left to download.
    pub left: usize,
    /// Whether the compact peer-list representation is requested (0 or 1).
    pub compact: usize,
}

/// One peer from a compact tracker response: an IPv4 address in network
/// byte order and a big-endian port.
#[derive(Debug, Clone, Copy, PartialEq, Eq)]
pub struct Peer {
    pub ip: [u8; 4],
    pub port: u16,
}

/// The ordered peer list of a tracker response.
#[derive(Debug, Clone, PartialEq, Eq)]
pub struct Peers(pub Vec<Peer>);

/// A decoded tracker response: poll interval and the peer list.
#[derive(Debug, Clone, PartialEq, Eq)]
pub struct TrackerResponse {
    pub interval: usize,
    pub peers: Peers,
}

pub open spec fn key_interval() -> Seq<u8> {
    seq![105u8, 110u8, 116u8, 101u8, 114u8, 118u8, 97u8, 108u8]
}

pub open spec fn key_peers() -> Seq<u8> {
    seq![112u8, 101u8, 101u8, 114u8, 115u8]
}

/// `p` is the peer packed in the 6-byte record `rec`.
pub open spec fn peer_matches(p: Peer, rec: Seq<u8>) -> bool {
    &&& rec.len() == 6
    &&& p.ip@ == rec.subrange(0, 4)
    &&& p.port == rec[4] * 256 + rec[5]
}

/// `resp` is the typed projection of the bencoded response dictionary `v`.
pub open spec fn response_matches(resp: TrackerResponse, v: BencodeValue) -> bool {
    &&& v matches BencodeValue::Dictionary(ps)
    &&& dict_lookup(ps@, key_interval()) matches Some(BencodeValue::Integer(iv))
        && iv == resp.interval && iv >= 1
    &&& dict_lookup(ps@, key_peers()) matches Some(BencodeValue::ByteString(pb))
        && pb@.len() as int % 6 == 0
        && resp.peers.0@.len() == pb@.len() as int / 6
        && (forall|i: int| 0 <= i < resp.peers.0@.len()
            ==> peer_matches(#[trigger] resp.peers.0@[i], pb@.subrange(i * 6, (i + 1) * 6)))
}

/// `v` has the shape `parse_tracker_response` accepts: a dictionary with an
/// in-range positive `interval` integer and a whole-record `peers` string.
pub open spec fn response_shaped(v: BencodeValue) -> bool {
    &&& v matches BencodeValue::Dictionary(ps)
    &&& dict_lookup(ps@, key_interval()) matches Some(BencodeValue::Integer(iv))
        && 1 <= iv <= usize::MAX
    &&& dict_lookup(ps@, key_peers()) matches Some(BencodeValue::ByteString(pb))
        && pb@.len() as int % 6 == 0
}

/// The response shape only reads values up to structural equivalence.
pub proof fn lemma_response_shaped_value_eq(v1: BencodeValue, v2: BencodeValue)
    requires
        response_shaped(v1),
        value_eq(v1, v2),
    ensures
        response_shaped(v2),
{
    let ps1 = v1->Dictionary_0;
    let ps2 = v2->Dictionary_0;
    lemma_dict_lookup_value_eq(ps1@, ps2@, key_interval());
    lemma_dict_lookup_value_eq(ps1@, ps2@, key_peers());
}

/// Percent-encodes raw bytes unconditionally, every byte as `%XX`: the
/// encoding a 20-byte info hash needs, since it is not valid text.
#[verifier::loop_isolation(false)]
pub fn urlencode(t: &Vec<u8>) -> (r: String)
    ensures
        r@ == ascii_chars(percent_all(t@)),
{
    let mut out: Vec<u8> = Vec::new();
    let mut i: usize = 0;
    while i < t.len()
        invariant
            i <= t@.len(),
            out@ == percent_all(t@.take(i as int)),
        decreases t@.len() - i,
    {
        proof {
            lemma_percent_all_push(t@.take(i as int), t@[i as int]);
            assert(t@.take(i as int).push(t@[i as int]) =~= t@.take(i as int + 1));
        }
        let ghost pre = out@;
        out.push(37);
        push_hex_byte_upper(&mut out, t[i]);
        proof {
            assert(out@ =~= pre + percent_byte(t@[i as int]));
        }
        i = i + 1;
    }
    proof {
        assert(t@.take(t@.len() as int) =~= t@);
        lemma_percent_all_ascii(t@);
    }
    ascii_string(out)
}

/// Appends the conventional percent-encoding of `s` to `out`.
#[verifier::loop_isolation(false)]
fn push_form_encoded(out: &mut Vec<u8>, s: &Vec<u8>)
    ensures
        final(out)@ == old(out)@ + form_encoded(s@),
{
    let ghost base = out@;
    let mut i: usize = 0;
    while i < s.len()
        invariant
            i <= s@.len(),
            out@ == base + form_encoded(s@.take(i as int)),
        decreases s@.len() - i,
    {
        proof {
            lemma_form_encoded_push(s@.take(i as int), s@[i as int]);
            assert(s@.take(i as int).push(s@[i as int]) =~= s@.take(i as int + 1));
        }
        let ghost pre = out@;
        let b = s[i];
        if (48 <= b && b <= 57) || (65 <= b && b <= 90) || (97 <= b && b <= 122)
            || b == 45 || b == 46 || b == 95 || b == 126 {
            out.push(b);
            proof {
                assert(out@ =~= pre + seq![b]);
            }
        } else {
            out.push(37);
            push_hex_byte_upper(out, b);
            proof {
                assert(out@ =~= pre + percent_byte(b));
            }
        }
        i = i + 1;
    }
    proof {
        assert(s@.take(s@.len() as int) =~= s@);
    }
}

pub open spec fn lit_info_hash() -> Seq<u8> {
    seq![105u8, 110u8, 102u8, 111u8, 95u8, 104u8, 97u8, 115u8, 104u8, 61u8]
}

pub open spec fn lit_peer_id() -> Seq<u8> {
    seq![38u8, 112u8, 101u8, 101u8, 114u8, 95u8, 105u8, 100u8, 61u8]
}

pub open spec fn lit_port() -> Seq<u8> {
    seq![38u8, 112u8, 111u8, 114u8, 116u8, 61u8]
}

pub open spec fn lit_uploaded() -> Seq<u8> {
    seq![38u8, 117u8, 112u8, 108u8, 111u8, 97u8, 100u8, 101u8, 100u8, 61u8]
}

pub open spec fn lit_downloaded() -> Seq<u8> {
    seq![38u8, 100u8, 111u8, 119u8, 110u8, 108u8, 111u8, 97u8, 100u8, 101u8, 100u8, 61u8]
}

pub open spec fn lit_left() -> Seq<u8> {
    seq![38u8, 108u8, 101u8, 102u8, 116u8, 61u8]
}

pub open spec fn lit_compact() -> Seq<u8> {
    seq![38u8, 99u8, 111u8, 109u8, 112u8, 97u8, 99u8, 116u8, 61u8]
}

/// The whole query string, in declaration order: the info hash with every
/// byte as `%XX`, the peer id conventionally percent-encoded, then the
/// decimal scalar fields.
pub open spec fn query_text(req: TrackerRequest) -> Seq<u8> {
    lit_info_hash() + percent_all(req.info_hash@)
        + lit_peer_id() + form_encoded(req.peer_id@)
        + lit_port() + digits_of(req.port as nat)
        + lit_uploaded() + digits_of(req.uploaded as nat)
        + lit_downloaded() + digits_of(req.downloaded as nat)
        + lit_left() + digits_of(req.left as nat)
        + lit_compact() + digits_of(req.compact as nat)
}

proof fn lemma_digits_ascii(n: nat)
    ensures
        is_ascii_bytes(digits_of(n)),
{
    lemma_digits_of_canonical(n);
}

proof fn lemma_ascii_concat(a: Seq<u8>, b: Seq<u8>)
    requires
        is_ascii_bytes(a),
        is_ascii_bytes(b),
    ensures
        is_ascii_bytes(a + b),
{
    assert forall|i: int| 0 <= i < (a + b).len() implies #[trigger] (a + b)[i] < 128 by {
        if i < a.len() {
            assert((a + b)[i] == a[i]);
        } else {
            assert((a + b)[i] == b[i - a.len()]);
        }
    }
}

/// Builds the tracker GET query string for `req`: stable declaration-order
/// parameters, with the raw info hash percent-encoded byte by byte.
pub fn build_query(req: &TrackerRequest) -> (r: String)
    ensures
        r@ == ascii_chars(query_text(*req)),
{
    let mut out: Vec<u8> = Vec::new();
    let l1: Vec<u8> = vec![105u8, 110u8, 102u8, 111u8, 95u8, 104u8, 97u8, 115u8, 104u8, 61u8];
    proof {
        assert(l1@ =~= lit_info_hash());
    }
    push_bytes(&mut out, &l1);
    let mut i: usize = 0;
    let ghost pre_hash = out@;
    while i < req.info_hash.len()
        invariant
            i <= req.info_hash@.len(),
            out@ == pre_hash + percent_all(req.info_hash@.take(i as int)),
        decreases req.info_hash@.len() - i,
    {
        proof {
            lemma_percent_all_push(req.info_hash@.take(i as int), req.info_hash@[i as int]);
            assert(req.info_hash@.take(i as int).push(req.info_hash@[i as int])
                =~= req.info_hash@.take(i as int + 1));
        }
        let ghost pre = out@;
        out.push(37);
        push_hex_byte_upper(&mut out, req.info_hash[i]);
        proof {
            assert(out@ =~= pre + percent_byte(req.info_hash@[i as int]));
        }
        i = i + 1;
    }
    proof {
        assert(req.info_hash@.take(req.info_hash@.len() as int) =~= req.info_hash@);
    }
    let l2: Vec<u8> = vec![38u8, 112u8, 101u8, 101u8, 114u8, 95u8, 105u8, 100u8, 61u8];
    proof {
        assert(l2@ =~= lit_peer_id());
    }
    push_bytes(&mut out, &l2);
    push_form_encoded(&mut out, &req.peer_id);
    let l3: Vec<u8> = vec![38u8, 112u8, 111u8, 114u8, 116u8, 61u8];
    proof {
        assert(l3@ =~= lit_port());
    }
    push_bytes(&mut out, &l3);
    push_decimal(&mut out, req.port as u64);
    let l4: Vec<u8> = vec![38u8, 117u8, 112u8, 108u8, 111u8, 97u8, 100u8, 101u8, 100u8, 61u8];
    proof {
        assert(l4@ =~= lit_uploaded());
    }
    push_bytes(&mut out, &l4);
    push_decimal(&mut out, req.uploaded as u64);
    let l5: Vec<u8> = vec![
        38u8, 100u8, 111u8, 119u8, 110u8, 108u8, 111u8, 97u8, 100u8, 101u8, 100u8, 61u8,
    ];
    proof {
        assert(l5@ =~= lit_downloaded());
    }
    push_bytes(&mut out, &l5);
    push_decimal(&mut out, req.downloaded as u64);
    let l6: Vec<u8> = vec![38u8, 108u8, 101u8, 102u8, 116u8, 61u8];
    proof {
        assert(l6@ =~= lit_left());
    }
    push_bytes(&mut out, &l6);
    push_decimal(&mut out, req.left as u64);
    let l7: Vec<u8> = vec![38u8, 99u8, 111u8, 109u8, 112u8, 97u8, 99u8, 116u8, 61u8];
    proof {
        assert(l7@ =~= lit_compact());
    }
    push_bytes(&mut out, &l7);
    push_decimal(&mut out, req.compact as u64);
    proof {
        assert(out@ =~= query_text(*req));
        lemma_percent_all_ascii(req.info_hash@);
        lemma_form_encoded_ascii(req.peer_id@);
        lemma_digits_ascii(req.port as nat);
        lemma_digits_ascii(req.uploaded as nat);
        lemma_digits_ascii(req.downloaded as nat);
        lemma_digits_ascii(req.left as nat);
        lemma_digits_ascii(req.compact as nat);
        lemma_ascii_concat(lit_info_hash(), percent_all(req.info_hash@));
        let q1 = lit_info_hash() + percent_all(req.info_hash@);
        lemma_ascii_concat(q1, lit_peer_id());
        let q2 = q1 + lit_peer_id();
        lemma_ascii_concat(q2, form_encoded(req.peer_id@));
        let q3 = q2 + form_encoded(req.peer_id@);
        lemma_ascii_concat(q3, lit_port());
        let q4 = q3 + lit_port();
        lemma_ascii_concat(q4, digits_of(req.port as nat));
        let q5 = q4 + digits_of(req.port as nat);
        lemma_ascii_concat(q5, lit_uploaded());
        let q6 = q5 + lit_uploaded();
        lemma_ascii_concat(q6, digits_of(req.uploaded as nat));
        let q7 = q6 + digits_of(req.uploaded as nat);
        lemma_ascii_concat(q7, lit_downloaded());
        let q8 = q7 + lit_downloaded();
        lemma_ascii_concat(q8, digits_of(req.downloaded as nat));
        let q9 = q8 + digits_of(req.downloaded as nat);
        lemma_ascii_concat(q9, lit_left());
        let q10 = q9 + lit_left();
        lemma_ascii_concat(q10, digits_of(req.left as nat));
        let q11 = q10 + digits_of(req.left as nat);
        lemma_ascii_concat(q11, lit_compact());
        let q12 = q11 + lit_compact();
        lemma_ascii_concat(q12, digits_of(req.compact as nat));
        assert(q12 + digits_of(req.compact as nat) =~= query_text(*req));
        assert(is_ascii_bytes(out@));
    }
    ascii_string(out)
}

/// Unpacks a compact peer byte string: one peer per 6-byte record.
/// Fails precisely when the length is not a multiple of 6.
#[verifier::loop_isolation(false)]
pub fn peers_from_bytes(pb: &Vec<u8>) -> (r: Result<Peers, SchemaError>)
    ensures
        (r is Ok <==> pb@.len() as int % 6 == 0),
        (r matches Ok(peers) ==> {
            &&& peers.0@.len() == pb@.len() as int / 6
            &&& forall|i: int| 0 <= i < peers.0@.len()
                ==> peer_matches(#[trigger] peers.0@[i], pb@.subrange(i * 6, (i + 1) * 6))
        }),
        (r matches Err(e) ==> e == (SchemaError {
            field: TorrentField::Peers,
            kind: SchemaErrorKind::BadLength,
        })),
{
    let chunks = match split_chunks(pb, 6) {
        Ok(chunks) => chunks,
        Err(_) => {
            return Err(SchemaError { field: TorrentField::Peers, kind: SchemaErrorKind::BadLength });
        },
    };
    let mut peers: Vec<Peer> = Vec::new();
    let mut i: usize = 0;
    while i < chunks.len()
        invariant
            i <= chunks@.len(),
            peers@.len() == i,
            forall|j: int| 0 <= j < chunks@.len()
                ==> (#[trigger] chunks@[j])@ == pb@.subrange(j * 6, (j + 1) * 6),
            forall|j: int| 0 <= j < i
                ==> peer_matches(#[trigger] peers@[j], pb@.subrange(j * 6, (j + 1) * 6)),
        decreases chunks@.len() - i,
    {
        let chunk = &chunks[i];
        proof {
            assert(chunk@ == pb@.subrange(i as int * 6, (i as int + 1) * 6));
            assert(chunk@.len() == 6);
        }
        let peer = Peer {
            ip: [chunk[0], chunk[1], chunk[2], chunk[3]],
            port: (chunk[4] as u16) * 256 + (chunk[5] as u16),
        };
        proof {
            assert(peer.ip@ =~= chunk@.subrange(0, 4));
            assert(chunk@.subrange(0, 4) =~= pb@.subrange(i as int * 6, (i as int + 1) * 6).subrange(0, 4));
        }
        peers.push(peer);
        i = i + 1;
    }
    Ok(Peers(peers))
}

/// Some bencoded value encodes to exactly `bytes` and projects onto `resp`.
pub open spec fn response_source(resp: TrackerResponse, bytes: Seq<u8>) -> bool {
    exists|v: BencodeValue| encoded(v) == bytes && #[trigger] response_matches(resp, v)
}

/// The 6-byte compact record for one peer: the four address octets in
/// network order, then the port in big-endian order.
pub open spec fn peer_record(p: Peer) -> Seq<u8> {
    seq![p.ip@[0], p.ip@[1], p.ip@[2], p.ip@[3],
        (p.port as int / 256) as u8, (p.port as int % 256) as u8]
}

/// A peer matches its own packed record.
pub proof fn lemma_peer_record_matches(p: Peer)
    ensures
        peer_matches(p, peer_record(p)),
{
    assert(peer_record(p).subrange(0, 4) =~= p.ip@);
    assert(p.port as int / 256 * 256 + p.port as int % 256 == p.port as int) by {
        vstd::arithmetic::div_mod::lemma_fundamental_div_mod(p.port as int, 256);
    }
}

/// Packing is the inverse of matching: the only record a peer matches is
/// its own packed record, so unpack-then-pack reproduces the bytes.
pub proof fn lemma_peer_record_of_match(p: Peer, rec: Seq<u8>)
    requires
        peer_matches(p, rec),
    ensures
        peer_record(p) == rec,
{
    assert(p.port as int / 256 == rec[4] && p.port as int % 256 == rec[5]) by {
        vstd::arithmetic::div_mod::lemma_fundamental_div_mod_converse(
            p.port as int, 256, rec[4] as int, rec[5] as int);
    }
    assert(peer_record(p) =~= rec) by {
        assert forall|i: int| 0 <= i < 4 implies p.ip@[i] == rec[i] by {
            assert(p.ip@[i] == rec.subrange(0, 4)[i]);
        }
    }
}

/// Packs a peer list back into the compact byte string: one 6-byte record
/// per peer, in order. Total, and the exact inverse of `peers_from_bytes`.
#[verifier::loop_isolation(false)]
pub fn peers_to_bytes(peers: &Peers) -> (r: Vec<u8>)
    ensures
        r@.len() == 6 * peers.0@.len(),
        forall|i: int| 0 <= i < peers.0@.len()
            ==> r@.subrange(i * 6, (i + 1) * 6) == peer_record(#[trigger] peers.0@[i]),
{
    let mut out: Vec<u8> = Vec::new();
    let mut i: usize = 0;
    while i < peers.0.len()
        invariant
            i <= peers.0@.len(),
            out@.len() == 6 * i,
            forall|j: int| 0 <= j < i
                ==> out@.subrange(j * 6, (j + 1) * 6) == peer_record(#[trigger] peers.0@[j]),
        decreases peers.0@.len() - i,
    {
        let ghost pre = out@;
        let p = &peers.0[i];
        out.push(p.ip[0]);
        out.push(p.ip[1]);
        out.push(p.ip[2]);
        out.push(p.ip[3]);
        out.push((p.port / 256) as u8);
        out.push((p.port % 256) as u8);
        proof {
            assert(out@ =~= pre + peer_record(*p));
            assert forall|j: int| 0 <= j < i + 1
                implies out@.subrange(j * 6, (j + 1) * 6)
                    == peer_record(#[trigger] peers.0@[j]) by {
                if j < i {
                    assert(out@.subrange(j * 6, (j + 1) * 6)
                        =~= pre.subrange(j * 6, (j + 1) * 6));
                } else {
                    assert(out@.subrange(j * 6, (j + 1) * 6) =~= peer_record(*p));
                }
            }
        }
        i = i + 1;
    }
    out
}

/// Decodes a whole tracker response body: a bencoded dictionary with an
/// `interval` integer and a compact `peers` byte string. Complete: it
/// accepts every buffer that encodes a well-shaped response dictionary.
pub fn parse_tracker_response(bytes: &Vec<u8>) -> (r: Result<TrackerResponse, TorrentError>)
    ensures
        (r matches Ok(resp) ==> response_source(resp, bytes@)),
        (exists|v: BencodeValue| encoded(v) == bytes@ && #[trigger] response_shaped(v))
            ==> r is Ok,
{
    let value = match decode(bytes) {
        Ok(v) => v,
        Err(e) => {
            proof {
                if exists|v: BencodeValue| encoded(v) == bytes@ && #[trigger] response_shaped(v) {
                    let v = choose|v: BencodeValue|
                        encoded(v) == bytes@ && #[trigger] response_shaped(v);
                    assert(exists|w: BencodeValue| encoded(w) == bytes@);
                    assert(false);
                }
            }
            return Err(TorrentError::Parse(e));
        },
    };
    proof {
        // a shaped witness encodes to the same bytes as the decoded value,
        // so by injectivity the decoded value is shaped too
        if exists|v: BencodeValue| encoded(v) == bytes@ && #[trigger] response_shaped(v) {
            let v = choose|v: BencodeValue|
                encoded(v) == bytes@ && #[trigger] response_shaped(v);
            lemma_encoded_injective(v, value);
            lemma_response_shaped_value_eq(v, value);
        }
    }
    let ps = match &value {
        BencodeValue::Dictionary(ps) => ps,
        _ => {
            return Err(TorrentError::Schema(SchemaError {
                field: TorrentField::Root,
                kind: SchemaErrorKind::WrongType,
            }));
        },
    };
    let kint: Vec<u8> = vec![105u8, 110u8, 116u8, 101u8, 114u8, 118u8, 97u8, 108u8];
    proof {
        assert(kint@ =~= key_interval());
    }
    let interval: usize = match dict_get(ps, &kint) {
        Some(BencodeValue::Integer(iv)) => {
            match crate::torrent::i64_to_usize(*iv) {
                Some(u) if u >= 1 => u,
                _ => {
                    return Err(TorrentError::Schema(SchemaError {
                        field: TorrentField::Interval,
                        kind: SchemaErrorKind::WrongType,
                    }));
                },
            }
        },
        Some(_) => {
            return Err(TorrentError::Schema(SchemaError {
                field: TorrentField::Interval,
                kind: SchemaErrorKind::WrongType,
            }));
        },
        None => {
            return Err(TorrentError::Schema(SchemaError {
                field: TorrentField::Interval,
                kind: SchemaErrorKind::Missing,
            }));
        },
    };
    let kpeers: Vec<u8> = vec![112u8, 101u8, 101u8, 114u8, 115u8];
    proof {
        assert(kpeers@ =~= key_peers());
    }
    let peers: Peers = match dict_get(ps, &kpeers) {
        Some(BencodeValue::ByteString(pb)) => {
            match peers_from_bytes(pb) {
                Ok(peers) => peers,
                Err(e) => {
                    return Err(TorrentError::Schema(e));
                },
            }
        },
        Some(_) => {
            return Err(TorrentError::Schema(SchemaError {
                field: TorrentField::Peers,
                kind: SchemaErrorKind::WrongType,
            }));
        },
        None => {
            return Err(TorrentError::Schema(SchemaError {
                field: TorrentField::Peers,
                kind: SchemaErrorKind::Missing,
            }));
        },
    };
    let resp = TrackerResponse { interval, peers };
    proof {
        assert(response_source(resp, bytes@)) by {
            assert(encoded(value) == bytes@ && response_matches(resp, value));
        }
    }
    Ok(resp)
}

} // verus!
