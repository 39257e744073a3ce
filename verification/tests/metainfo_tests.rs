use risuko_bt::bencode::{encode_to_vec, Value};
use risuko_bt::meta::hash::{sha1, sha256, Id20, Id32};
use risuko_bt::meta::lengths::{Lengths, LengthsError};
use risuko_bt::meta::metainfo::{
    parse_info_v2_from_bytes, parse_torrent, MetaError, MetaVersion, TorrentInfoHashes,
};

fn synth_single_file(name: &str, piece_len: u32, data_len: u64) -> Vec<u8> {
    let piece_count = data_len.div_ceil(piece_len as u64);
    let pieces = vec![0u8; (piece_count * 20) as usize];
    let info = Value::Dict(vec![
        (b"length".to_vec(), Value::Int(data_len as i64)),
        (b"name".to_vec(), Value::Bytes(name.as_bytes().to_vec())),
        (b"piece length".to_vec(), Value::Int(piece_len as i64)),
        (b"pieces".to_vec(), Value::Bytes(pieces)),
    ]);
    let top = Value::Dict(vec![
        (
            b"announce".to_vec(),
            Value::Bytes(b"http://tracker/announce".to_vec()),
        ),
        (b"info".to_vec(), info),
    ]);
    encode_to_vec(&top)
}

#[test]
fn parse_single_file() {
    let bytes = synth_single_file("hello.bin", 16 * 1024, 100_000);
    let meta = parse_torrent(&bytes).unwrap();
    assert_eq!(meta.info.name, "hello.bin");
    assert_eq!(meta.info.piece_length, 16 * 1024);
    assert_eq!(meta.info.files.len(), 1);
    assert_eq!(meta.info.files[0].length, 100_000);
    assert!(meta.info.single_file_mode);
    assert_eq!(meta.announce.as_deref(), Some("http://tracker/announce"));
    assert_ne!(meta.info_hash.to_hex(), "0".repeat(40));
    assert_eq!(meta.info_hash, sha1(&meta.info_bytes));
    assert_eq!(meta.info.total_length(), 100_000);
    assert_eq!(meta.info.piece_count(), 7);
}

#[test]
fn parse_multi_file_rejects_unsafe_path() {
    let info = Value::Dict(vec![
        (
            b"files".to_vec(),
            Value::List(vec![Value::Dict(vec![
                (b"length".to_vec(), Value::Int(10)),
                (
                    b"path".to_vec(),
                    Value::List(vec![
                        Value::Bytes(b"..".to_vec()),
                        Value::Bytes(b"escape".to_vec()),
                    ]),
                ),
            ])]),
        ),
        (b"name".to_vec(), Value::Bytes(b"multi".to_vec())),
        (b"piece length".to_vec(), Value::Int(16 * 1024)),
        (b"pieces".to_vec(), Value::Bytes(vec![0; 20])),
    ]);
    let top = Value::Dict(vec![(b"info".to_vec(), info)]);
    let bytes = encode_to_vec(&top);
    assert!(matches!(parse_torrent(&bytes), Err(MetaError::BadInfo(_))));
}

fn synth_hybrid_single_file(name: &str, piece_len: u32, data_len: u64) -> Vec<u8> {
    let piece_count = data_len.div_ceil(piece_len as u64);
    let v1_pieces = vec![0u8; (piece_count * 20) as usize];
    let pieces_root = Id32([0x11u8; 32]);
    let file_leaf = Value::Dict(vec![(
        b"".to_vec(),
        Value::Dict(vec![
            (b"length".to_vec(), Value::Int(data_len as i64)),
            (
                b"pieces root".to_vec(),
                Value::Bytes(pieces_root.0.to_vec()),
            ),
        ]),
    )]);
    let file_tree = Value::Dict(vec![(name.as_bytes().to_vec(), file_leaf)]);
    let info = Value::Dict(vec![
        (b"file tree".to_vec(), file_tree),
        (b"length".to_vec(), Value::Int(data_len as i64)),
        (b"meta version".to_vec(), Value::Int(2)),
        (b"name".to_vec(), Value::Bytes(name.as_bytes().to_vec())),
        (b"piece length".to_vec(), Value::Int(piece_len as i64)),
        (b"pieces".to_vec(), Value::Bytes(v1_pieces)),
    ]);
    let layers = if piece_count > 1 {
        let bytes = vec![0u8; (piece_count * 32) as usize];
        Value::Dict(vec![(pieces_root.0.to_vec(), Value::Bytes(bytes))])
    } else {
        Value::Dict(vec![])
    };
    let top = Value::Dict(vec![
        (b"info".to_vec(), info),
        (b"piece layers".to_vec(), layers),
    ]);
    encode_to_vec(&top)
}

#[test]
fn parse_hybrid_torrent() {
    let bytes = synth_hybrid_single_file("hybrid.bin", 16 * 1024, 100_000);
    let meta = parse_torrent(&bytes).unwrap();
    assert_eq!(meta.meta_version, MetaVersion::Hybrid);
    assert!(meta.info_hash_v2.is_some());
    let v2 = meta.info_v2.as_ref().expect("v2 info present");
    assert_eq!(v2.name, "hybrid.bin");
    assert_eq!(v2.piece_length, 16 * 1024);
    assert_eq!(v2.files.len(), 1);
    assert_eq!(v2.files[0].length, 100_000);
    assert_eq!(v2.files[0].path, vec!["hybrid.bin"]);
    let root = v2.files[0].pieces_root;
    let layer = meta
        .piece_layers
        .iter()
        .find(|(k, _)| *k == root)
        .map(|(_, v)| v)
        .expect("piece layers entry present");
    assert_eq!(layer.len(), 7 * 32);
}

#[test]
fn parse_hybrid_torrent_small_file_no_layers() {
    let bytes = synth_hybrid_single_file("tiny.bin", 16 * 1024, 1024);
    let meta = parse_torrent(&bytes).unwrap();
    assert_eq!(meta.meta_version, MetaVersion::Hybrid);
    assert!(meta.piece_layers.is_empty());
}

fn pure_v2(root: u8, length: i64) -> Vec<u8> {
    let pieces_root = Id32([root; 32]);
    let file_leaf = Value::Dict(vec![(
        b"".to_vec(),
        Value::Dict(vec![
            (b"length".to_vec(), Value::Int(length)),
            (
                b"pieces root".to_vec(),
                Value::Bytes(pieces_root.0.to_vec()),
            ),
        ]),
    )]);
    let info = Value::Dict(vec![
        (
            b"file tree".to_vec(),
            Value::Dict(vec![(b"a".to_vec(), file_leaf)]),
        ),
        (b"meta version".to_vec(), Value::Int(2)),
        (b"name".to_vec(), Value::Bytes(b"a".to_vec())),
        (b"piece length".to_vec(), Value::Int(16 * 1024)),
    ]);
    encode_to_vec(&Value::Dict(vec![(b"info".to_vec(), info)]))
}

#[test]
fn pure_v2_small_file_parses_without_layers() {
    let bytes = pure_v2(0x22, 2048);
    let meta = parse_torrent(&bytes).expect("pure-v2 .torrent should parse");
    assert_eq!(meta.meta_version, MetaVersion::V2);
    assert!(meta.info_v2.is_some());
    assert!(meta.info_hash_v2.is_some());
    assert_eq!(meta.info_hash_v2, Some(sha256(&meta.info_bytes)));
    assert_eq!(meta.info_hash, sha256(&meta.info_bytes).truncate_to_id20());
}

#[test]
fn pure_v2_large_file_without_layers_rejected() {
    let bytes = pure_v2(0x55, 64 * 1024);
    assert!(matches!(
        parse_torrent(&bytes),
        Err(MetaError::MissingPieceLayers)
    ));
}

#[test]
fn v2_rejects_non_power_of_two_piece_length() {
    let bad_piece_len: u32 = 24 * 1024;
    let pieces_root = Id32([0x33u8; 32]);
    let file_leaf = Value::Dict(vec![(
        b"".to_vec(),
        Value::Dict(vec![
            (b"length".to_vec(), Value::Int(bad_piece_len as i64)),
            (
                b"pieces root".to_vec(),
                Value::Bytes(pieces_root.0.to_vec()),
            ),
        ]),
    )]);
    let info = Value::Dict(vec![
        (
            b"file tree".to_vec(),
            Value::Dict(vec![(b"f".to_vec(), file_leaf)]),
        ),
        (b"length".to_vec(), Value::Int(bad_piece_len as i64)),
        (b"meta version".to_vec(), Value::Int(2)),
        (b"name".to_vec(), Value::Bytes(b"f".to_vec())),
        (b"piece length".to_vec(), Value::Int(bad_piece_len as i64)),
        (b"pieces".to_vec(), Value::Bytes(vec![0u8; 20])),
    ]);
    let top = Value::Dict(vec![
        (b"info".to_vec(), info),
        (b"piece layers".to_vec(), Value::Dict(vec![])),
    ]);
    let bytes = encode_to_vec(&top);
    let err = parse_torrent(&bytes).unwrap_err();
    assert!(matches!(err, MetaError::BadInfoV2(_)), "got {err:?}");
}

#[test]
fn announce_infohashes_dedup_pure_v2() {
    let v2 = Id32([0xccu8; 32]);
    let h = TorrentInfoHashes {
        v1: None,
        v2: Some(v2),
    };
    assert_eq!(h.announce_infohashes().len(), 1);
    assert_eq!(h.announce_infohashes()[0], v2.truncate_to_id20());

    let v1 = Id20([0x11u8; 20]);
    let h = TorrentInfoHashes {
        v1: Some(v1),
        v2: Some(v2),
    };
    let all = h.announce_infohashes();
    assert_eq!(all.len(), 2);
    assert_eq!(all[0], v1);
    assert_eq!(all[1], v2.truncate_to_id20());

    let h = TorrentInfoHashes {
        v1: Some(v1),
        v2: None,
    };
    assert_eq!(h.announce_infohashes(), vec![v1]);
}

#[test]
fn parse_bep5_list_bootstrap_nodes() {
    let info = Value::Dict(vec![
        (b"length".to_vec(), Value::Int(1)),
        (b"name".to_vec(), Value::Bytes(b"x".to_vec())),
        (b"piece length".to_vec(), Value::Int(1)),
        (b"pieces".to_vec(), Value::Bytes(vec![0u8; 20])),
    ]);
    let nodes = Value::List(vec![
        Value::List(vec![Value::Bytes(b"127.0.0.1".to_vec()), Value::Int(6881)]),
        Value::List(vec![
            Value::Bytes(b"2001:db8::1".to_vec()),
            Value::Int(6882),
        ]),
        Value::List(vec![
            Value::Bytes(b"router.example.org".to_vec()),
            Value::Int(6883),
        ]),
    ]);
    let top = Value::Dict(vec![(b"info".to_vec(), info), (b"nodes".to_vec(), nodes)]);
    let bytes = encode_to_vec(&top);
    let meta = parse_torrent(&bytes).unwrap();
    assert!(meta.bootstrap_nodes.is_empty());
    assert_eq!(meta.bootstrap_hosts.len(), 3);
    let v4_id = {
        let mut data = b"127.0.0.1".to_vec();
        data.extend_from_slice(&6881u16.to_be_bytes());
        sha1(&data)
    };
    let v6_id = {
        let mut data = b"2001:db8::1".to_vec();
        data.extend_from_slice(&6882u16.to_be_bytes());
        sha1(&data)
    };
    assert!(meta
        .bootstrap_hosts
        .iter()
        .any(|(id, host, port)| { *id == v4_id && host == "127.0.0.1" && *port == 6881 }));
    assert!(meta
        .bootstrap_hosts
        .iter()
        .any(|(id, host, port)| { *id == v6_id && host == "2001:db8::1" && *port == 6882 }));
    let host_id = {
        let mut data = b"router.example.org".to_vec();
        data.extend_from_slice(&6883u16.to_be_bytes());
        sha1(&data)
    };
    assert!(meta
        .bootstrap_hosts
        .contains(&(host_id, "router.example.org".to_string(), 6883,)));
}

#[test]
fn torrents_without_a_description_are_refused() {
    assert!(matches!(parse_torrent(b"i3e"), Err(MetaError::BadInfo(_))));
    assert!(matches!(parse_torrent(b"de"), Err(MetaError::MissingInfo)));
    assert!(matches!(parse_torrent(b"d4:infodee"), Err(MetaError::BadInfo(_))));
    assert!(matches!(parse_torrent(b"d4:info"), Err(MetaError::Bencode(_))));
}

#[test]
fn empty_torrents_and_odd_digests_are_refused() {
    let make = |length: i64, pieces: usize, name: &[u8]| {
        let info = Value::Dict(vec![
            (b"length".to_vec(), Value::Int(length)),
            (b"name".to_vec(), Value::Bytes(name.to_vec())),
            (b"piece length".to_vec(), Value::Int(16)),
            (b"pieces".to_vec(), Value::Bytes(vec![0; pieces])),
        ]);
        encode_to_vec(&Value::Dict(vec![(b"info".to_vec(), info)]))
    };
    assert!(matches!(parse_torrent(&make(0, 20, b"x")), Err(MetaError::ZeroLength)));
    assert!(matches!(parse_torrent(&make(5, 21, b"x")), Err(MetaError::BadPieces)));
    assert!(matches!(
        parse_torrent(&make(5, 20, &[0xff, 0xfe])),
        Err(MetaError::BadUtf8 { field: "name" })
    ));
    assert!(parse_torrent(&make(5, 20, b"x")).is_ok());
}

#[test]
fn several_files_keep_their_paths() {
    let file = |length: i64, path: &[&[u8]]| {
        Value::Dict(vec![
            (b"length".to_vec(), Value::Int(length)),
            (
                b"path".to_vec(),
                Value::List(path.iter().map(|p| Value::Bytes(p.to_vec())).collect()),
            ),
        ])
    };
    let info = Value::Dict(vec![
        (
            b"files".to_vec(),
            Value::List(vec![file(3, &[b"sub", b"a"]), file(4, &[b"b"])]),
        ),
        (b"name".to_vec(), Value::Bytes(b"multi".to_vec())),
        (b"piece length".to_vec(), Value::Int(16)),
        (b"pieces".to_vec(), Value::Bytes(vec![0; 20])),
        (b"private".to_vec(), Value::Int(1)),
    ]);
    let bytes = encode_to_vec(&Value::Dict(vec![(b"info".to_vec(), info)]));
    let meta = parse_torrent(&bytes).unwrap();
    assert!(meta.info.private);
    assert!(!meta.info.single_file_mode);
    let details = meta.info.iter_file_details();
    assert_eq!(details[0].filename, "sub/a");
    assert_eq!(details[0].len, 3);
    assert_eq!(details[1].filename, "b");
    assert_eq!(meta.info.total_length(), 7);
}

#[test]
fn lengths_count_the_last_piece() {
    let l = Lengths::new(33, 16).unwrap();
    assert_eq!(l.total_pieces(), 3);
    assert_eq!((l.total_length(), l.piece_length()), (33, 16));
    assert_eq!(l.piece_bitfield_bytes(), 1);
    assert_eq!(l.validate_piece(2).unwrap().get(), 2);
    assert!(matches!(l.validate_piece(3), Err(LengthsError::NoSuchPiece)));
    assert!(matches!(Lengths::new(0, 16), Err(LengthsError::ZeroLength)));
    assert!(matches!(Lengths::new(1, 0), Err(LengthsError::ZeroPieceLength)));
    assert!(matches!(Lengths::new(u64::MAX, 1), Err(LengthsError::TooManyPieces)));
}

#[test]
fn raw_descriptions_are_read_in_the_second_version() {
    let hybrid = parse_torrent(&synth_hybrid_single_file("h.bin", 16 * 1024, 100_000)).unwrap();
    let v2 = parse_info_v2_from_bytes(&hybrid.info_bytes).unwrap().unwrap();
    assert_eq!(v2.name, "h.bin");
    assert_eq!(v2.files[0].length, 100_000);
    let v1 = parse_torrent(&synth_single_file("s.bin", 16 * 1024, 100_000)).unwrap();
    assert!(parse_info_v2_from_bytes(&v1.info_bytes).unwrap().is_none());
    assert!(matches!(
        parse_info_v2_from_bytes(b"i1e"),
        Err(MetaError::BadInfo("info not dict"))
    ));
    assert!(matches!(
        parse_info_v2_from_bytes(b"d"),
        Err(MetaError::Bencode(_))
    ));
}

#[test]
fn digests_are_those_of_the_preserved_description() {
    let hybrid = parse_torrent(&synth_hybrid_single_file("hybrid.bin", 16 * 1024, 100_000)).unwrap();
    let short = sha1(&hybrid.info_bytes);
    let long = sha256(&hybrid.info_bytes);
    assert_eq!(hybrid.info_hash, short);
    assert_eq!(hybrid.info_hash_v2, Some(long));
    assert_eq!(
        hybrid.announce_infohashes(),
        vec![short, long.truncate_to_id20()]
    );

    let first = parse_torrent(&synth_single_file("a.bin", 16 * 1024, 100_000)).unwrap();
    assert_eq!(first.info_hash, sha1(&first.info_bytes));
    assert_eq!(first.info_hash_v2, None);
    assert_eq!(first.announce_infohashes(), vec![first.info_hash]);

    let second = parse_torrent(&pure_v2(0x22, 2048)).unwrap();
    assert_eq!(second.announce_infohashes(), vec![second.info_hash]);
}
