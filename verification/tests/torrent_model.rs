use bittorrent::bencode::{encode, BencodeValue};
use bittorrent::text::to_hex;
use bittorrent::torrent::{
    parse_torrent, Keys, SchemaErrorKind, TorrentError, TorrentField,
};
use sha1::{Digest, Sha1};

fn bytes(s: &str) -> Vec<u8> {
    s.as_bytes().to_vec()
}

fn entry(key: &str, v: BencodeValue) -> (Vec<u8>, BencodeValue) {
    (bytes(key), v)
}

/// A well-formed single-file info dictionary (keys in ascending order).
fn single_file_info(name: &str, length: i64) -> BencodeValue {
    BencodeValue::Dictionary(vec![
        entry("length", BencodeValue::Integer(length)),
        entry("name", BencodeValue::ByteString(bytes(name))),
        entry("piece length", BencodeValue::Integer(256)),
        entry("pieces", BencodeValue::ByteString(vec![7u8; 40])),
    ])
}

fn torrent_bytes(announce: &str, info: BencodeValue) -> Vec<u8> {
    encode(&BencodeValue::Dictionary(vec![
        entry("announce", BencodeValue::ByteString(bytes(announce))),
        entry("info", info),
    ]))
}

#[test]
fn parses_single_file_torrent() {
    let info = single_file_info("sample.txt", 1234);
    let file = torrent_bytes("http://tracker.example/announce", info);
    let t = parse_torrent(&file).unwrap();
    assert_eq!(t.announce, "http://tracker.example/announce");
    assert_eq!(t.info.name, "sample.txt");
    assert_eq!(t.info.piece_len, 256);
    assert_eq!(t.info.pieces.0.len(), 2);
    assert_eq!(t.info.pieces.0[0], vec![7u8; 20]);
    assert_eq!(t.info.keys, Keys::SingleFile { length: 1234 });
}

#[test]
fn info_hash_is_sha1_of_the_info_subtree() {
    let info = single_file_info("sample.txt", 1234);
    let info_encoding = encode(&info);
    let file = torrent_bytes("http://tracker.example/announce", info);
    let t = parse_torrent(&file).unwrap();

    let mut hasher = Sha1::new();
    hasher.update(&info_encoding);
    let expected: Vec<u8> = hasher.finalize().to_vec();
    assert_eq!(t.info_hash, expected);
    assert_eq!(t.info_hash.len(), 20);
}

#[test]
fn info_hash_ignores_bytes_outside_info() {
    let a = parse_torrent(&torrent_bytes("http://one.example", single_file_info("f", 9))).unwrap();
    let b = parse_torrent(&torrent_bytes("http://two.example/longer", single_file_info("f", 9)))
        .unwrap();
    assert_eq!(a.info_hash, b.info_hash);
}

#[test]
fn info_hash_changes_with_info_contents() {
    let a = parse_torrent(&torrent_bytes("http://t.example", single_file_info("f", 9))).unwrap();
    let b = parse_torrent(&torrent_bytes("http://t.example", single_file_info("g", 9))).unwrap();
    assert_ne!(a.info_hash, b.info_hash);
}

#[test]
fn info_hash_hex_projection() {
    let t = parse_torrent(&torrent_bytes("http://t.example", single_file_info("f", 9))).unwrap();
    let hex = to_hex(&t.info_hash);
    assert_eq!(hex.len(), 40);
    assert!(hex.chars().all(|c| c.is_ascii_hexdigit() && !c.is_ascii_uppercase()));
}

#[test]
fn rejects_pieces_not_multiple_of_twenty() {
    let info = BencodeValue::Dictionary(vec![
        entry("length", BencodeValue::Integer(5)),
        entry("name", BencodeValue::ByteString(bytes("f"))),
        entry("piece length", BencodeValue::Integer(256)),
        entry("pieces", BencodeValue::ByteString(vec![7u8; 25])),
    ]);
    let err = parse_torrent(&torrent_bytes("http://t.example", info)).unwrap_err();
    match err {
        TorrentError::Schema(e) => {
            assert_eq!(e.field, TorrentField::Pieces);
            assert_eq!(e.kind, SchemaErrorKind::BadLength);
        }
        other => panic!("expected a schema error, got {:?}", other),
    }
}

#[test]
fn rejects_missing_announce() {
    let file = encode(&BencodeValue::Dictionary(vec![entry(
        "info",
        single_file_info("f", 9),
    )]));
    let err = parse_torrent(&file).unwrap_err();
    match err {
        TorrentError::Schema(e) => {
            assert_eq!(e.field, TorrentField::Announce);
            assert_eq!(e.kind, SchemaErrorKind::Missing);
        }
        other => panic!("expected a schema error, got {:?}", other),
    }
}

#[test]
fn rejects_announce_that_is_not_utf8() {
    let file = encode(&BencodeValue::Dictionary(vec![
        entry("announce", BencodeValue::ByteString(vec![0xff, 0xfe])),
        entry("info", single_file_info("f", 9)),
    ]));
    let err = parse_torrent(&file).unwrap_err();
    match err {
        TorrentError::Schema(e) => {
            assert_eq!(e.field, TorrentField::Announce);
            assert_eq!(e.kind, SchemaErrorKind::NotUtf8);
        }
        other => panic!("expected a schema error, got {:?}", other),
    }
}

#[test]
fn rejects_both_length_and_files() {
    let info = BencodeValue::Dictionary(vec![
        entry("files", BencodeValue::List(Vec::new())),
        entry("length", BencodeValue::Integer(5)),
        entry("name", BencodeValue::ByteString(bytes("f"))),
        entry("piece length", BencodeValue::Integer(256)),
        entry("pieces", BencodeValue::ByteString(vec![7u8; 20])),
    ]);
    let err = parse_torrent(&torrent_bytes("http://t.example", info)).unwrap_err();
    match err {
        TorrentError::Schema(e) => assert_eq!(e.kind, SchemaErrorKind::LayoutAmbiguous),
        other => panic!("expected a schema error, got {:?}", other),
    }
}

#[test]
fn rejects_neither_length_nor_files() {
    let info = BencodeValue::Dictionary(vec![
        entry("name", BencodeValue::ByteString(bytes("f"))),
        entry("piece length", BencodeValue::Integer(256)),
        entry("pieces", BencodeValue::ByteString(vec![7u8; 20])),
    ]);
    let err = parse_torrent(&torrent_bytes("http://t.example", info)).unwrap_err();
    match err {
        TorrentError::Schema(e) => assert_eq!(e.kind, SchemaErrorKind::LayoutMissing),
        other => panic!("expected a schema error, got {:?}", other),
    }
}

#[test]
fn parses_multi_file_layout() {
    let one = BencodeValue::Dictionary(vec![
        entry("length", BencodeValue::Integer(10)),
        entry(
            "path",
            BencodeValue::List(vec![
                BencodeValue::ByteString(bytes("disc1")),
                BencodeValue::ByteString(bytes("track01.mp3")),
            ]),
        ),
    ]);
    let two = BencodeValue::Dictionary(vec![
        entry("length", BencodeValue::Integer(3)),
        entry(
            "path",
            BencodeValue::List(vec![BencodeValue::ByteString(bytes("cover.jpg"))]),
        ),
    ]);
    let info = BencodeValue::Dictionary(vec![
        entry("files", BencodeValue::List(vec![one, two])),
        entry("name", BencodeValue::ByteString(bytes("my-album"))),
        entry("piece length", BencodeValue::Integer(256)),
        entry("pieces", BencodeValue::ByteString(vec![7u8; 20])),
    ]);
    let t = parse_torrent(&torrent_bytes("http://t.example", info)).unwrap();
    match &t.info.keys {
        Keys::MultiFile { files } => {
            assert_eq!(files.len(), 2);
            assert_eq!(files[0].length, 10);
            assert_eq!(files[0].path, vec!["disc1".to_string(), "track01.mp3".to_string()]);
            assert_eq!(files[1].length, 3);
            assert_eq!(files[1].path, vec!["cover.jpg".to_string()]);
        }
        other => panic!("expected a multi-file layout, got {:?}", other),
    }
}

#[test]
fn rejects_empty_file_path() {
    let bad = BencodeValue::Dictionary(vec![
        entry("length", BencodeValue::Integer(10)),
        entry("path", BencodeValue::List(Vec::new())),
    ]);
    let info = BencodeValue::Dictionary(vec![
        entry("files", BencodeValue::List(vec![bad])),
        entry("name", BencodeValue::ByteString(bytes("x"))),
        entry("piece length", BencodeValue::Integer(256)),
        entry("pieces", BencodeValue::ByteString(vec![7u8; 20])),
    ]);
    let err = parse_torrent(&torrent_bytes("http://t.example", info)).unwrap_err();
    match err {
        TorrentError::Schema(e) => {
            assert_eq!(e.field, TorrentField::Path);
            assert_eq!(e.kind, SchemaErrorKind::EmptyPath);
        }
        other => panic!("expected a schema error, got {:?}", other),
    }
}

#[test]
fn rejects_wrong_type_for_piece_length() {
    let info = BencodeValue::Dictionary(vec![
        entry("length", BencodeValue::Integer(5)),
        entry("name", BencodeValue::ByteString(bytes("f"))),
        entry("piece length", BencodeValue::ByteString(bytes("256"))),
        entry("pieces", BencodeValue::ByteString(vec![7u8; 20])),
    ]);
    let err = parse_torrent(&torrent_bytes("http://t.example", info)).unwrap_err();
    match err {
        TorrentError::Schema(e) => {
            assert_eq!(e.field, TorrentField::PieceLength);
            assert_eq!(e.kind, SchemaErrorKind::WrongType);
        }
        other => panic!("expected a schema error, got {:?}", other),
    }
}

#[test]
fn rejects_negative_file_length() {
    let info = BencodeValue::Dictionary(vec![
        entry("length", BencodeValue::Integer(-5)),
        entry("name", BencodeValue::ByteString(bytes("f"))),
        entry("piece length", BencodeValue::Integer(256)),
        entry("pieces", BencodeValue::ByteString(vec![7u8; 20])),
    ]);
    let err = parse_torrent(&torrent_bytes("http://t.example", info)).unwrap_err();
    match err {
        TorrentError::Schema(e) => {
            assert_eq!(e.field, TorrentField::Length);
            assert_eq!(e.kind, SchemaErrorKind::WrongType);
        }
        other => panic!("expected a schema error, got {:?}", other),
    }
}

#[test]
fn reports_parse_errors_from_malformed_files() {
    let err = parse_torrent(&bytes("not bencode")).unwrap_err();
    assert!(matches!(err, TorrentError::Parse(_)));
}
