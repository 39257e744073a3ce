use bytes::{BufMut, Bytes, BytesMut};
use risuko_bt::meta::hash::Id20;
use risuko_bt::wire::handshake::{reserved, Handshake, HandshakeError, HANDSHAKE_LEN};
use risuko_bt::wire::message::{
    id, Message, MessageDecoder, MessageEncoder, MessageError, MAX_MESSAGE_BYTES,
};
use risuko_bt::wire::mse::{
    build_initiator_payload, build_responder_payload, crypto, find_subsequence_from, gen_pad,
    init_rc4, pad_len, rc4_key, req1, req2, req3, scan_start_after_append, sha1_many,
    verification_constant, xor20, DhKeys, MseError, DH_LEN,
};
use risuko_bt::wire::rc4::Rc4;

// ---- handshake ----

#[test]
fn round_trip_advertises_ext_and_optionally_v2() {
    let hs = Handshake::new_with_v2(Id20([0xaau8; 20]), Id20([0xbbu8; 20]), true);
    let bytes = hs.to_bytes();
    let parsed = Handshake::parse(&bytes).unwrap();
    assert_eq!(hs, parsed);
    assert!(parsed.has_ext_protocol());
    assert!(parsed.has_v2());
}

#[test]
fn dht_reserved_bit_is_set() {
    let hs = Handshake::new_with_v2(Id20([0u8; 20]), Id20([1u8; 20]), false);
    let (b, m) = reserved::DHT;
    assert_ne!(hs.reserved[b] & m, 0, "the overlay bit must be advertised");
}

#[test]
fn fast_reserved_bit_is_set() {
    let hs = Handshake::new_with_v2(Id20([0u8; 20]), Id20([1u8; 20]), false);
    let (b, m) = reserved::FAST;
    assert_ne!(hs.reserved[b] & m, 0, "the fast bit must be advertised");
}

#[test]
fn v2_reserved_bit_is_caller_controlled() {
    let hs_off = Handshake::new_with_v2(Id20([0xaau8; 20]), Id20([0xbbu8; 20]), false);
    let hs_on = Handshake::new_with_v2(Id20([0xaau8; 20]), Id20([0xbbu8; 20]), true);
    assert!(hs_off.has_ext_protocol());
    assert!(!hs_off.has_v2());
    assert!(hs_on.has_v2());
}

#[test]
fn feature_flags_can_disable_dht_for_private_torrents() {
    let hs =
        Handshake::new_with_features(Id20([0xaau8; 20]), Id20([0xbbu8; 20]), true, false, true);
    assert!(hs.has_ext_protocol());
    assert!(hs.has_v2());
    assert_eq!(hs.reserved[reserved::DHT.0] & reserved::DHT.1, 0);
    assert_ne!(hs.reserved[reserved::FAST.0] & reserved::FAST.1, 0);
}

#[test]
fn rejects_bad_protocol() {
    let mut bytes = [0u8; HANDSHAKE_LEN];
    bytes[0] = 19;
    bytes[1..20].copy_from_slice(b"NotBitTorrentProto!");
    assert!(matches!(
        Handshake::parse(&bytes),
        Err(HandshakeError::BadProtocol)
    ));
}

#[test]
fn rejects_bad_pstrlen() {
    let mut bytes = [0u8; HANDSHAKE_LEN];
    bytes[0] = 42;
    assert!(matches!(
        Handshake::parse(&bytes),
        Err(HandshakeError::BadPstrLen(42))
    ));
}

#[test]
fn handshake_has_its_exact_layout() {
    let hs = Handshake::new_with_features(Id20([2u8; 20]), Id20([3u8; 20]), true, true, true);
    let bytes = hs.to_bytes();
    assert_eq!(bytes[0], 19);
    assert_eq!(&bytes[1..20], b"BitTorrent protocol");
    assert_eq!(&bytes[20..28], &[0, 0, 0, 0, 0, 0x10, 0, 0x0d]);
    assert_eq!(&bytes[28..48], &[2u8; 20]);
    assert_eq!(&bytes[48..68], &[3u8; 20]);
}

// ---- messages ----

fn round_trip(msg: Message) -> Message {
    let bytes = MessageEncoder::encode(&msg);
    let mut buf = BytesMut::from(&bytes[..]);
    let decoded = MessageDecoder::try_decode(&mut buf).unwrap().unwrap();
    assert!(buf.is_empty(), "decoder did not consume full frame");
    decoded
}

#[test]
fn keepalive_round_trip() {
    assert!(matches!(round_trip(Message::KeepAlive), Message::KeepAlive));
}

#[test]
fn request_round_trip() {
    let m = Message::Request {
        index: 5,
        begin: 16_384,
        length: 16_384,
    };
    if let Message::Request {
        index,
        begin,
        length,
    } = round_trip(m)
    {
        assert_eq!((index, begin, length), (5, 16_384, 16_384));
    } else {
        panic!();
    }
}

#[test]
fn piece_round_trip() {
    let payload = Bytes::from_static(b"hello world");
    let m = Message::Piece {
        index: 0,
        begin: 0,
        data: payload.clone(),
    };
    if let Message::Piece { data, .. } = round_trip(m) {
        assert_eq!(data, payload);
    } else {
        panic!();
    }
}

#[test]
fn partial_frame_yields_none() {
    let bytes = MessageEncoder::encode(&Message::Have { piece_index: 7 });
    let mut buf = BytesMut::from(&bytes[..bytes.len() - 1]);
    assert!(MessageDecoder::try_decode(&mut buf).unwrap().is_none());
    assert_eq!(buf.len(), bytes.len() - 1);
}

#[test]
fn unknown_id_preserved() {
    let mut raw = BytesMut::new();
    raw.put_u32(3);
    raw.put_u8(99);
    raw.put_slice(b"hi");
    let decoded = MessageDecoder::try_decode(&mut raw).unwrap().unwrap();
    match decoded {
        Message::Unknown { id, payload } => {
            assert_eq!(id, 99);
            assert_eq!(payload.as_ref(), b"hi");
        }
        _ => panic!(),
    }
}

#[test]
fn rejects_oversized_frame() {
    let mut raw = BytesMut::new();
    raw.put_u32((MAX_MESSAGE_BYTES + 1) as u32);
    let err = MessageDecoder::try_decode(&mut raw).unwrap_err();
    assert!(matches!(err, MessageError::TooLarge(_)));
}

#[test]
fn hash_request_round_trip() {
    let m = Message::HashRequest {
        pieces_root: [0x42u8; 32],
        base_layer: 0,
        index: 16,
        length: 4,
        proof_layers: 3,
    };
    if let Message::HashRequest {
        pieces_root,
        base_layer,
        index,
        length,
        proof_layers,
    } = round_trip(m)
    {
        assert_eq!(pieces_root, [0x42u8; 32]);
        assert_eq!((base_layer, index, length, proof_layers), (0, 16, 4, 3));
    } else {
        panic!();
    }
}

#[test]
fn hashes_round_trip() {
    let mut hashes = Vec::new();
    for i in 0..5 {
        hashes.extend_from_slice(&[i as u8; 32]);
    }
    let m = Message::Hashes {
        pieces_root: [0xaau8; 32],
        base_layer: 1,
        index: 0,
        length: 2,
        proof_layers: 3,
        hashes: Bytes::from(hashes.clone()),
    };
    if let Message::Hashes {
        pieces_root,
        base_layer,
        index,
        length,
        proof_layers,
        hashes: got,
    } = round_trip(m)
    {
        assert_eq!(pieces_root, [0xaau8; 32]);
        assert_eq!((base_layer, index, length, proof_layers), (1, 0, 2, 3));
        assert_eq!(got.as_ref(), &hashes[..]);
    } else {
        panic!();
    }
}

#[test]
fn hashes_rejects_truncated_payload() {
    let mut hashes = Vec::with_capacity(5 * 32);
    for i in 0..5 {
        hashes.extend_from_slice(&[i as u8; 32]);
    }
    let bytes = MessageEncoder::encode(&Message::Hashes {
        pieces_root: [0u8; 32],
        base_layer: 0,
        index: 0,
        length: 2,
        proof_layers: 3,
        hashes: Bytes::from(hashes),
    });
    let mut chopped = BytesMut::from(&bytes[..bytes.len() - 32]);
    let new_body_len = (chopped.len() - 4) as u32;
    chopped[..4].copy_from_slice(&new_body_len.to_be_bytes());
    let err = MessageDecoder::try_decode(&mut chopped).unwrap_err();
    assert!(matches!(err, MessageError::Truncated { .. }));
}

#[test]
fn hash_reject_round_trip() {
    let m = Message::HashReject {
        pieces_root: [0x11u8; 32],
        base_layer: 2,
        index: 8,
        length: 1,
        proof_layers: 0,
    };
    if let Message::HashReject {
        pieces_root,
        base_layer,
        index,
        length,
        proof_layers,
    } = round_trip(m)
    {
        assert_eq!(pieces_root, [0x11u8; 32]);
        assert_eq!((base_layer, index, length, proof_layers), (2, 8, 1, 0));
    } else {
        panic!();
    }
}

#[test]
fn fast_extension_round_trips() {
    assert!(matches!(round_trip(Message::HaveAll), Message::HaveAll));
    assert!(matches!(round_trip(Message::HaveNone), Message::HaveNone));
    match round_trip(Message::RejectRequest {
        index: 3,
        begin: 16_384,
        length: 16_384,
    }) {
        Message::RejectRequest {
            index,
            begin,
            length,
        } => assert_eq!((index, begin, length), (3, 16_384, 16_384)),
        other => panic!("expected RejectRequest, got {other:?}"),
    }
}

#[test]
fn fast_have_all_and_none_reject_trailing_payload() {
    for id in [id::HAVE_ALL, id::HAVE_NONE] {
        let mut frame = BytesMut::from(&[0, 0, 0, 2, id, 0][..]);
        let err = MessageDecoder::try_decode(&mut frame).unwrap_err();
        assert!(matches!(
            err,
            MessageError::Truncated {
                id: actual,
                expected: 0,
                got: 1,
            } if actual == id
        ));
    }
}

#[test]
fn sanity_bytes_type_exists() {
    let empty = Bytes::from_static(b"");
    assert!(empty.is_empty());
}

#[test]
fn frames_have_their_exact_bytes() {
    let have = MessageEncoder::encode(&Message::Have { piece_index: 0x01020304 });
    assert_eq!(&have[..], &[0, 0, 0, 5, 4, 1, 2, 3, 4]);
    let port = MessageEncoder::encode(&Message::Port(0x1ae1));
    assert_eq!(&port[..], &[0, 0, 0, 3, 9, 0x1a, 0xe1]);
    let keep = MessageEncoder::encode(&Message::KeepAlive);
    assert_eq!(&keep[..], &[0, 0, 0, 0]);
    let ext = MessageEncoder::encode(&Message::Extended {
        ext_id: 3,
        payload: Bytes::from_static(b"ab"),
    });
    assert_eq!(&ext[..], &[0, 0, 0, 4, 20, 3, b'a', b'b']);
}

#[test]
fn a_stream_of_frames_decodes_in_turn() {
    let mut buf = BytesMut::new();
    for m in [Message::Choke, Message::Have { piece_index: 9 }, Message::Unchoke] {
        buf.extend_from_slice(&MessageEncoder::encode(&m));
    }
    buf.extend_from_slice(&[0, 0]);
    assert!(matches!(MessageDecoder::try_decode(&mut buf), Ok(Some(Message::Choke))));
    assert!(matches!(
        MessageDecoder::try_decode(&mut buf),
        Ok(Some(Message::Have { piece_index: 9 }))
    ));
    assert!(matches!(MessageDecoder::try_decode(&mut buf), Ok(Some(Message::Unchoke))));
    assert!(matches!(MessageDecoder::try_decode(&mut buf), Ok(None)));
    assert_eq!(&buf[..], &[0, 0]);
}

#[test]
fn cloned_messages_carry_the_same_bytes() {
    let m = Message::Bitfield(Bytes::from_static(&[0xf0, 0x0f]));
    assert_eq!(MessageEncoder::encode(&m.clone()), MessageEncoder::encode(&m));
}

// ---- obfuscation ----

#[test]
fn dh_roundtrip_shared_secret() {
    let a = DhKeys::generate();
    let b = DhKeys::generate();
    let s_a = a.shared_secret(&b.public_be).unwrap();
    let s_b = b.shared_secret(&a.public_be).unwrap();
    assert_eq!(s_a, s_b);
}

#[test]
fn degenerate_public_keys_are_refused() {
    let a = DhKeys::from_random([5u8; 20]);
    let zero = [0u8; DH_LEN];
    assert!(a.shared_secret(&zero).is_err());
    let mut one = [0u8; DH_LEN];
    one[DH_LEN - 1] = 1;
    assert!(a.shared_secret(&one).is_err());
}

#[test]
fn small_exponents_give_powers_of_two() {
    let mut x = [0u8; 20];
    x[19] = 10;
    let keys = DhKeys::from_random(x);
    assert_eq!(keys.private[0], 1);
    assert_ne!(keys.public_be, [0u8; DH_LEN]);
}

#[test]
fn rc4_encrypt_decrypt_matches_with_key_a_key_b() {
    let s = [0xAAu8; DH_LEN];
    let skey = [0xBBu8; 20];
    let kab = rc4_key(b"keyA", &s, &skey);
    let kba = rc4_key(b"keyB", &s, &skey);
    let mut enc_out = init_rc4(&kab);
    let mut dec_in = init_rc4(&kab);
    let mut buf = *b"hello bittorrent mse";
    enc_out.apply_keystream(&mut buf);
    assert_ne!(&buf, b"hello bittorrent mse");
    dec_in.apply_keystream(&mut buf);
    assert_eq!(&buf, b"hello bittorrent mse");
    let mut other = init_rc4(&kba);
    let mut probe = [0u8; 4];
    other.apply_keystream(&mut probe);
    let mut again = init_rc4(&kab);
    let mut probe2 = [0u8; 4];
    again.apply_keystream(&mut probe2);
    assert_ne!(probe, probe2);
}

#[test]
fn rc4_has_its_known_stream() {
    let mut cipher = Rc4::new(b"Key");
    let mut data = *b"Plaintext";
    cipher.apply_keystream(&mut data);
    assert_eq!(data, [0xBB, 0xF3, 0x16, 0xE8, 0xD9, 0x40, 0xAF, 0x0A, 0xD3]);
}

#[test]
fn rc4_in_pieces_is_the_same_stream() {
    let mut whole = Rc4::new(b"secret");
    let mut a = [7u8; 12];
    whole.apply_keystream(&mut a);
    let mut parts = Rc4::new(b"secret");
    let mut b = [7u8; 12];
    parts.apply_keystream(&mut b[..5]);
    parts.apply_keystream(&mut b[5..]);
    assert_eq!(a, b);
}

#[test]
fn req1_req2_req3_differ() {
    let s = [0u8; DH_LEN];
    let skey = [0u8; 20];
    let a = req1(&s);
    let b = req2(&skey);
    let c = req3(&s);
    assert_ne!(a, b);
    assert_ne!(a, c);
    assert_ne!(b, c);
}

#[test]
fn digests_of_parts_are_digests_of_the_whole() {
    assert_eq!(sha1_many(&[b"ab", b"", b"c"]), sha1_many(&[b"abc"]));
    assert_eq!(
        sha1_many(&[b"abc"]),
        [
            0xa9, 0x99, 0x3e, 0x36, 0x47, 0x06, 0x81, 0x6a, 0xba, 0x3e, 0x25, 0x71, 0x78, 0x50,
            0xc2, 0x6c, 0x9c, 0xd0, 0xd8, 0x9d
        ]
    );
    let x = [0xf0u8; 20];
    let y = [0x3cu8; 20];
    assert_eq!(xor20(&x, &y), [0xcc; 20]);
    assert_eq!(xor20(&xor20(&x, &y), &y), x);
}

#[test]
fn payload_round_trip() {
    let p = build_initiator_payload(crypto::RC4 | crypto::PLAINTEXT, &[1, 2, 3], b"ia").unwrap();
    assert_eq!(&p[0..8], &verification_constant());
    let provide = u32::from_be_bytes([p[8], p[9], p[10], p[11]]);
    assert_eq!(provide, 0x03);
    let padlen = u16::from_be_bytes([p[12], p[13]]) as usize;
    assert_eq!(padlen, 3);
    let ia_off = 14 + padlen;
    let ia_len = u16::from_be_bytes([p[ia_off], p[ia_off + 1]]) as usize;
    assert_eq!(ia_len, 2);
    assert_eq!(&p[ia_off + 2..ia_off + 2 + ia_len], b"ia");
}

#[test]
fn payloads_that_do_not_fit_are_refused() {
    let long = vec![0u8; 70_000];
    assert!(matches!(
        build_initiator_payload(crypto::RC4, &long, b""),
        Err(MseError::PadTooLarge(_))
    ));
    assert!(matches!(
        build_initiator_payload(crypto::RC4, b"", &long),
        Err(MseError::IaTooLarge(_))
    ));
    assert!(matches!(
        build_responder_payload(crypto::RC4, &long),
        Err(MseError::PadTooLarge(_))
    ));
    assert_eq!(
        build_responder_payload(crypto::RC4, &[9, 9]).unwrap(),
        vec![0, 0, 0, 0, 0, 0, 0, 0, 0, 0, 0, 2, 0, 2, 9, 9]
    );
}

#[test]
fn pads_are_no_longer_than_asked() {
    assert_eq!(pad_len(7, 512), 7);
    assert_eq!(pad_len(513, 512), 0);
    assert!(gen_pad(512).len() <= 512);
    assert_eq!(gen_pad(0).len(), 0);
}

#[test]
fn find_subsequence_works() {
    let hay = b"aaaabbbbccccddddeeeeffff";
    assert_eq!(find_subsequence_from(hay, b"ccccdddd", 0), Some(8));
    assert_eq!(find_subsequence_from(hay, b"zzzz", 0), None);
    assert_eq!(find_subsequence_from(hay, b"", 0), None);
}

#[test]
fn cursor_search_finds_boundary_spanning_subsequence() {
    let needle = b"needle";
    let mut hay = b"aaaa nee".to_vec();
    let start = scan_start_after_append(hay.len(), needle.len());
    hay.extend_from_slice(b"dle zzzz");
    assert_eq!(find_subsequence_from(&hay, needle, start), Some(5));
}

#[test]
fn cursor_search_skips_already_scanned_prefix() {
    let hay = b"needle xxxx needle";
    assert_eq!(find_subsequence_from(hay, b"needle", 1), Some(12));
}
