use bittorrent::bencode::{encode, BencodeValue};
use bittorrent::chunks::{join_chunks, split_chunks};
use bittorrent::tracker::{
    build_query, parse_tracker_response, peers_from_bytes, peers_to_bytes, urlencode, Peer,
    Peers, TrackerRequest,
};
use bittorrent::torrent::TorrentError;

fn bytes(s: &str) -> Vec<u8> {
    s.as_bytes().to_vec()
}

#[test]
fn split_fails_exactly_on_ragged_lengths() {
    assert!(split_chunks(&vec![0u8; 25], 20).is_err());
    assert!(split_chunks(&vec![0u8; 40], 20).is_ok());
    assert!(split_chunks(&Vec::new(), 20).is_ok());
    let e = split_chunks(&vec![0u8; 7], 6).unwrap_err();
    assert_eq!(e.length, 7);
    assert_eq!(e.chunk_size, 6);
}

#[test]
fn split_yields_consecutive_records() {
    let data: Vec<u8> = (0u8..12).collect();
    let chunks = split_chunks(&data, 6).unwrap();
    assert_eq!(chunks.len(), 2);
    assert_eq!(chunks[0], vec![0, 1, 2, 3, 4, 5]);
    assert_eq!(chunks[1], vec![6, 7, 8, 9, 10, 11]);
}

#[test]
fn join_inverts_split() {
    let data: Vec<u8> = (0u8..60).collect();
    let chunks = split_chunks(&data, 20).unwrap();
    assert_eq!(join_chunks(&chunks), data);
    let empty = split_chunks(&Vec::new(), 6).unwrap();
    assert_eq!(join_chunks(&empty), Vec::<u8>::new());
}

#[test]
fn compact_peer_entry_decodes_address_and_port() {
    let peers = peers_from_bytes(&vec![127, 0, 0, 1, 0x1a, 0xe1]).unwrap();
    assert_eq!(peers.0.len(), 1);
    assert_eq!(peers.0[0].ip, [127, 0, 0, 1]);
    assert_eq!(peers.0[0].port, 6881);
}

#[test]
fn peers_pack_to_compact_records() {
    let peers = Peers(vec![
        Peer { ip: [127, 0, 0, 1], port: 6881 },
        Peer { ip: [10, 0, 0, 2], port: 80 },
    ]);
    assert_eq!(
        peers_to_bytes(&peers),
        vec![127, 0, 0, 1, 0x1a, 0xe1, 10, 0, 0, 2, 0, 80]
    );
}

#[test]
fn peers_pack_inverts_unpack() {
    let raw = vec![127u8, 0, 0, 1, 0x1a, 0xe1, 10, 0, 0, 2, 0, 80, 192, 168, 1, 9, 255, 255];
    let peers = peers_from_bytes(&raw).unwrap();
    assert_eq!(peers_to_bytes(&peers), raw);
    assert_eq!(peers_to_bytes(&Peers(Vec::new())), Vec::<u8>::new());
}

#[test]
fn compact_peers_reject_ragged_length() {
    assert!(peers_from_bytes(&vec![127, 0, 0, 1, 0x1a]).is_err());
}

#[test]
fn parses_tracker_response() {
    let body = encode(&BencodeValue::Dictionary(vec![
        (bytes("interval"), BencodeValue::Integer(1800)),
        (
            bytes("peers"),
            BencodeValue::ByteString(vec![127, 0, 0, 1, 0x1a, 0xe1, 10, 0, 0, 2, 0, 80]),
        ),
    ]));
    let resp = parse_tracker_response(&body).unwrap();
    assert_eq!(resp.interval, 1800);
    assert_eq!(resp.peers.0.len(), 2);
    assert_eq!(resp.peers.0[0].ip, [127, 0, 0, 1]);
    assert_eq!(resp.peers.0[0].port, 6881);
    assert_eq!(resp.peers.0[1].ip, [10, 0, 0, 2]);
    assert_eq!(resp.peers.0[1].port, 80);
}

#[test]
fn rejects_non_positive_interval() {
    let body = encode(&BencodeValue::Dictionary(vec![
        (bytes("interval"), BencodeValue::Integer(0)),
        (bytes("peers"), BencodeValue::ByteString(Vec::new())),
    ]));
    assert!(matches!(
        parse_tracker_response(&body),
        Err(TorrentError::Schema(_))
    ));
}

#[test]
fn rejects_response_with_ragged_peer_list() {
    let body = encode(&BencodeValue::Dictionary(vec![
        (bytes("interval"), BencodeValue::Integer(1800)),
        (bytes("peers"), BencodeValue::ByteString(vec![1, 2, 3])),
    ]));
    assert!(matches!(
        parse_tracker_response(&body),
        Err(TorrentError::Schema(_))
    ));
}

#[test]
fn urlencode_percent_encodes_every_byte() {
    let mut hash = vec![0x1a];
    hash.extend(vec![0u8; 19]);
    let s = urlencode(&hash);
    assert_eq!(s.len(), 60);
    assert!(s.starts_with("%1A%00"));
}

#[test]
fn query_string_has_stable_field_order_and_raw_hash() {
    let mut info_hash = vec![0x1a];
    info_hash.extend(vec![0xffu8; 19]);
    let req = TrackerRequest {
        info_hash,
        peer_id: bytes("00112233445566778899"),
        port: 6881,
        uploaded: 0,
        downloaded: 0,
        left: 1234,
        compact: 1,
    };
    let q = build_query(&req);
    assert!(q.starts_with("info_hash=%1A%FF"));
    assert!(q.contains("%1A"));
    assert!(q.contains("&peer_id=00112233445566778899"));
    assert!(q.ends_with("&port=6881&uploaded=0&downloaded=0&left=1234&compact=1"));
}

#[test]
fn query_string_percent_encodes_reserved_peer_id_bytes() {
    let req = TrackerRequest {
        info_hash: vec![0u8; 20],
        peer_id: bytes("a b"),
        port: 1,
        uploaded: 0,
        downloaded: 0,
        left: 0,
        compact: 0,
    };
    let q = build_query(&req);
    assert!(q.contains("&peer_id=a%20b&"));
}
