use bytes::{Bytes, BytesMut};
use risuko_bt::meta::hash::Id20;
use risuko_bt::peer::connection::{
    accept_plaintext, admit_probe, alternate_dial_cannot_help, check_plaintext, classify_probe,
    collect_batch, drain_frames, finish, plaintext_hello, DialNext, DialState, EncryptionPolicy,
    HandshakeAttempt, PeerCommand, PeerEvent, PeerFault, Probe, Transport, BATCH_LIMIT,
};
use risuko_bt::peer::initiator::{opening_message, Dial, Established, Initiator, InitiatorStep};
use risuko_bt::peer::responder::{
    deferred_handshake, Accepted, KnownInfoHash, Responder, ResponderStep,
};
use risuko_bt::peer::scanner::Scanner;
use risuko_bt::wire::handshake::{reserved, Handshake, HandshakeError};
use risuko_bt::wire::message::{Message, MessageEncoder, MessageError};
use risuko_bt::wire::mse::{DhKeys, MseError, DH_LEN};

fn dial(info_hash: Id20, our_peer_id: Id20, encryption: EncryptionPolicy) -> Dial {
    Dial {
        info_hash,
        our_peer_id,
        encryption,
        advertise_v2: true,
        advertise_dht: true,
    }
}

/// Both sides of an obfuscated handshake, run against each other in chunks of `step` bytes.
fn agree(
    dial: Dial,
    our_id: Id20,
    policy: EncryptionPolicy,
    known: Vec<KnownInfoHash>,
    step: usize,
) -> (Result<Established, PeerFault>, Result<Accepted, PeerFault>) {
    let a = DhKeys::generate();
    let b = DhKeys::generate();
    let (mut initiator, request) =
        Initiator::begin(dial, &a, &b.public_be, &[7u8; 33]).unwrap();
    let mut responder =
        Responder::begin(our_id, policy, known, &b, &a.public_be, vec![9u8; 21]).unwrap();
    let mut to_responder = vec![0xa5u8; 100];
    to_responder.extend_from_slice(&request);
    let mut negotiated = None;
    for chunk in to_responder.chunks(step) {
        match responder.on_bytes(chunk) {
            ResponderStep::NeedMore => {}
            ResponderStep::Failed(f) => return (Err(f), Err(f)),
            ResponderStep::Negotiated(n) => negotiated = Some(n),
        }
    }
    let negotiated = negotiated.unwrap();
    let mut to_initiator = vec![0x5au8; 64];
    to_initiator.extend_from_slice(&negotiated.send);
    for chunk in to_initiator.chunks(step) {
        match initiator.on_bytes(chunk) {
            InitiatorStep::NeedMore => {}
            InitiatorStep::Failed(f) => return (Err(f), negotiated.verdict),
            InitiatorStep::Established(e) => return (Ok(e), negotiated.verdict),
        }
    }
    panic!("the reply did not complete the handshake");
}

#[test]
fn alternate_dials_are_only_suppressed_for_identity_failures() {
    for message in [
        "reset",
        "eof",
        "broken pipe",
        "not connected",
        "timeout",
        "invalid handshake length",
    ] {
        assert!(
            !alternate_dial_cannot_help(message),
            "{message} should allow an alternate dial"
        );
    }

    assert!(alternate_dial_cannot_help("info hash mismatch"));
    assert!(alternate_dial_cannot_help(
        "self-connection (peer_id matches ours)"
    ));
}

#[test]
fn handshake_and_message() {
    let hash = Id20([1u8; 20]);
    let peer_a = Id20([2u8; 20]);
    let peer_b = Id20([3u8; 20]);
    let d = dial(hash, peer_a, EncryptionPolicy::PlaintextOnly);

    let hello = plaintext_hello(&d);
    assert_eq!(classify_probe(&hello[..20]), Probe::Plaintext);
    let greeting = accept_plaintext(&vec![hash.into()], peer_b, &hello).unwrap();
    let remote = check_plaintext(&d, &greeting.reply).unwrap();
    assert!(matches!(
        finish(&peer_a, &remote, false).unwrap(),
        PeerEvent::Handshook { peer_id, encrypted: false, .. } if peer_id == peer_b
    ));
    assert!(matches!(
        finish(&peer_b, &greeting.remote, false).unwrap(),
        PeerEvent::Handshook { peer_id, info_hash, .. } if peer_id == peer_a && info_hash == hash
    ));

    let mut batch = Vec::new();
    let queue = vec![
        PeerCommand::Send(Message::Interested),
        PeerCommand::Send(Message::Have { piece_index: 42 }),
    ];
    assert_eq!(collect_batch(&queue, &mut batch), (2, false));
    let mut buf = BytesMut::from(&batch[..]);
    let (frames, error) = drain_frames(&mut buf);
    assert!(error.is_none());
    assert!(buf.is_empty());
    assert!(matches!(frames[0], Message::Interested));
    assert!(matches!(frames[1], Message::Have { piece_index: 42 }));
    assert_eq!(frames.len(), 2);
}

#[test]
fn rejects_wrong_info_hash() {
    let hash_a = Id20([1u8; 20]);
    let hash_b = Id20([9u8; 20]);
    let peer_a = Id20([2u8; 20]);
    let peer_b = Id20([3u8; 20]);
    let d = dial(hash_a, peer_a, EncryptionPolicy::PlaintextOnly);
    assert_eq!(
        accept_plaintext(&vec![hash_b.into()], peer_b, &plaintext_hello(&d)).unwrap_err(),
        PeerFault::UnknownInfoHash
    );
    let other = Handshake::new_with_v2(hash_b, peer_b, false);
    assert_eq!(
        check_plaintext(&d, &other.to_bytes()).unwrap_err(),
        PeerFault::InfoHashMismatch
    );
}

#[test]
fn private_spawn_does_not_advertise_dht() {
    let hash = Id20([1u8; 20]);
    let mut d = dial(hash, Id20([2u8; 20]), EncryptionPolicy::PlaintextOnly);
    d.advertise_dht = false;
    let hello = Handshake::parse(&plaintext_hello(&d)).unwrap();
    assert_eq!(hello.reserved[reserved::DHT.0] & reserved::DHT.1, 0);
    assert_ne!(hello.reserved[reserved::FAST.0] & reserved::FAST.1, 0);

    let known = KnownInfoHash {
        info_hash: hash,
        advertise_v2: true,
        advertise_dht: false,
    };
    let greeting = accept_plaintext(&vec![known], Id20([3u8; 20]), &hello.to_bytes()).unwrap();
    let reply = Handshake::parse(&greeting.reply).unwrap();
    assert_eq!(reply.reserved[reserved::DHT.0] & reserved::DHT.1, 0);
}

#[test]
fn mse_end_to_end_handshake_and_messages() {
    let hash = Id20([0x42u8; 20]);
    let peer_a = Id20([2u8; 20]);
    let peer_b = Id20([3u8; 20]);
    for step in [1usize, 97, 4096] {
        let (a, b) = agree(
            dial(hash, peer_a, EncryptionPolicy::RequireEncryption),
            peer_b,
            EncryptionPolicy::RequireEncryption,
            vec![Id20([8u8; 20]).into(), hash.into()],
            step,
        );
        let mut a = a.unwrap();
        let mut b = b.unwrap();
        assert_eq!(a.remote.info_hash, hash);
        assert_eq!(a.remote.peer_id, peer_b);
        assert_eq!(b.known.info_hash, hash);
        assert_eq!(b.remote.unwrap().peer_id, peer_a);
        assert!(a.rest.is_empty());
        assert!(b.rest.is_empty());

        let plain = MessageEncoder::encode(&Message::Have { piece_index: 7 });
        let mut wire = plain.to_vec();
        a.ciphers.as_mut().unwrap().writer.apply_keystream(&mut wire);
        assert_ne!(wire, plain.to_vec());
        b.ciphers.as_mut().unwrap().reader.apply_keystream(&mut wire);
        assert_eq!(wire, plain.to_vec());
        b.ciphers.as_mut().unwrap().writer.apply_keystream(&mut wire);
        a.ciphers.as_mut().unwrap().reader.apply_keystream(&mut wire);
        assert_eq!(wire, plain.to_vec());
    }
}

#[test]
fn an_obfuscated_dial_of_an_unserved_torrent_is_refused() {
    let (a, _) = agree(
        dial(Id20([1u8; 20]), Id20([2u8; 20]), EncryptionPolicy::Prefer),
        Id20([3u8; 20]),
        EncryptionPolicy::Prefer,
        vec![Id20([9u8; 20]).into()],
        64,
    );
    assert_eq!(a.unwrap_err(), PeerFault::UnknownInfoHashInMse);
}

#[test]
fn obfuscated_dials_reject_weak_keys() {
    let keys = DhKeys::generate();
    let d = dial(Id20([1u8; 20]), Id20([2u8; 20]), EncryptionPolicy::Prefer);
    let mut one = [0u8; DH_LEN];
    one[DH_LEN - 1] = 1;
    assert_eq!(
        Initiator::begin(d, &keys, &one, &[]).unwrap_err(),
        PeerFault::InvalidPublicKey
    );
    assert_eq!(
        Responder::begin(Id20([3u8; 20]), EncryptionPolicy::Prefer, vec![], &keys, &one, vec![])
            .unwrap_err(),
        PeerFault::InvalidPublicKey
    );
    let other = DhKeys::generate();
    assert_eq!(
        Initiator::begin(d, &keys, &other.public_be, &[0u8; 65536]).unwrap_err(),
        PeerFault::Payload(MseError::PadTooLarge(0))
    );
    let opening = opening_message(&keys, &[1, 2, 3]);
    assert_eq!(&opening[..DH_LEN], &keys.public_be[..]);
    assert_eq!(&opening[DH_LEN..], &[1, 2, 3]);
}

#[test]
fn replies_without_the_mark_are_given_up() {
    let a = DhKeys::generate();
    let b = DhKeys::generate();
    let d = dial(Id20([1u8; 20]), Id20([2u8; 20]), EncryptionPolicy::Prefer);
    let (mut initiator, _) = Initiator::begin(d, &a, &b.public_be, &[]).unwrap();
    assert!(matches!(
        initiator.on_bytes(&[0u8; 100]),
        InitiatorStep::NeedMore
    ));
    assert!(matches!(
        initiator.on_bytes(&[0u8; 2000]),
        InitiatorStep::Failed(PeerFault::VcNotFound)
    ));
    let mut responder = Responder::begin(
        Id20([3u8; 20]),
        EncryptionPolicy::Prefer,
        vec![],
        &b,
        &a.public_be,
        vec![],
    )
    .unwrap();
    assert!(matches!(
        responder.on_bytes(&[0u8; 2000]),
        ResponderStep::Failed(PeerFault::Req1NotFound)
    ));
}

#[test]
fn deferred_handshakes_must_name_the_torrent() {
    let known: KnownInfoHash = Id20([4u8; 20]).into();
    let right = Handshake::new_with_v2(Id20([4u8; 20]), Id20([5u8; 20]), true);
    let wrong = Handshake::new_with_v2(Id20([6u8; 20]), Id20([5u8; 20]), true);
    assert_eq!(
        deferred_handshake(&known, &right.to_bytes()).unwrap(),
        right
    );
    assert_eq!(
        deferred_handshake(&known, &wrong.to_bytes()).unwrap_err(),
        PeerFault::InfoHashMismatchDeferred
    );
    assert_eq!(
        deferred_handshake(&known, &[0u8; 68]).unwrap_err(),
        PeerFault::BadHandshake(HandshakeError::BadPstrLen(0))
    );
}

#[test]
fn prefer_utp_skips_utp_when_encryption_required() {
    let state = DialState::start(EncryptionPolicy::RequireEncryption, true, true);
    assert_eq!(state.transport(), Transport::Tcp);
    assert_eq!(state.on_failure("refused"), DialNext::FailWithLast);
}

#[test]
fn utp_fallback_engages_when_tcp_refused() {
    let state = DialState::start(EncryptionPolicy::PlaintextOnly, true, false);
    assert_eq!(state.transport(), Transport::Tcp);
    match state.on_failure("connection refused") {
        DialNext::Try(next) => {
            assert_eq!(next.transport(), Transport::Utp);
            assert!(!matches!(next.on_failure("timeout"), DialNext::Try(_)));
        }
        other => panic!("expected a second transport, got {other:?}"),
    }
    assert!(!matches!(
        state.on_failure("info hash mismatch"),
        DialNext::Try(_)
    ));
    let first = DialState::start(EncryptionPolicy::Prefer, true, true);
    assert_eq!(first.transport(), Transport::Utp);
    let alone = DialState::start(EncryptionPolicy::Prefer, false, true);
    assert_eq!(alone.transport(), Transport::Tcp);
}

#[test]
fn preferred_encryption_is_tried_first() {
    let first = HandshakeAttempt::start(EncryptionPolicy::Prefer);
    assert_eq!(first, HandshakeAttempt::Mse { fallback: true });
    assert_eq!(first.on_failure("eof"), Some(HandshakeAttempt::Plaintext));
    assert_eq!(HandshakeAttempt::Plaintext.on_failure("eof"), None);
    assert_eq!(first.on_failure("info hash mismatch"), None);
    let ourselves = PeerFault::SelfConnection.message();
    assert_eq!(first.on_failure(&ourselves), None);
    let only = HandshakeAttempt::start(EncryptionPolicy::PlaintextOnly);
    assert_eq!(only, HandshakeAttempt::Plaintext);
    assert_eq!(only.on_failure("eof"), None);
    let required = HandshakeAttempt::start(EncryptionPolicy::RequireEncryption);
    assert_eq!(required, HandshakeAttempt::Mse { fallback: false });
    assert_eq!(required.on_failure("eof"), None);
}

#[test]
fn connections_to_ourselves_are_refused() {
    let us = Id20([2u8; 20]);
    let remote = Handshake::new_with_v2(Id20([1u8; 20]), us, true);
    let fault = finish(&us, &remote, true).unwrap_err();
    assert_eq!(fault, PeerFault::SelfConnection);
    assert_eq!(fault.message(), "self-connection (peer_id matches ours)");
    assert!(alternate_dial_cannot_help(&fault.message()));
}

#[test]
fn inbound_probes_tell_the_two_handshakes_apart() {
    assert_eq!(classify_probe(b""), Probe::Eof);
    assert_eq!(classify_probe(b"\x13BitTor"), Probe::NeedMore);
    assert_eq!(classify_probe(b"\x13BitTorrent protocol"), Probe::Plaintext);
    assert_eq!(classify_probe(b"\x13BitTorrent protocox"), Probe::Encrypted);
    assert_eq!(classify_probe(b"\x14"), Probe::Encrypted);
    assert_eq!(
        admit_probe(EncryptionPolicy::RequireEncryption, true),
        Err(PeerFault::PlaintextRefused)
    );
    assert_eq!(
        admit_probe(EncryptionPolicy::PlaintextOnly, false),
        Err(PeerFault::EncryptionRefused)
    );
    assert_eq!(admit_probe(EncryptionPolicy::Prefer, true), Ok(()));
    assert_eq!(admit_probe(EncryptionPolicy::Prefer, false), Ok(()));
}

#[test]
fn faults_have_words() {
    let texts = [
        (
            PeerFault::BadHandshake(HandshakeError::BadPstrLen(20)),
            "bad protocol string length 20",
        ),
        (
            PeerFault::BadHandshake(HandshakeError::BadProtocol),
            "bad protocol string",
        ),
        (PeerFault::InfoHashMismatch, "info hash mismatch"),
        (
            PeerFault::UnsupportedSelect(0x1f),
            "peer returned unsupported crypto_select 0x1f",
        ),
        (
            PeerFault::NoAcceptableCrypto(4),
            "no acceptable crypto (provide=0x4)",
        ),
        (
            PeerFault::Payload(MseError::IaTooLarge(2000)),
            "initial-payload length too large: 2000",
        ),
        (
            PeerFault::PlaintextRefused,
            "policy requires encryption; rejecting plaintext",
        ),
    ];
    for (fault, text) in texts {
        assert_eq!(fault.message(), text);
    }
}

#[test]
fn a_disconnect_ends_the_batch() {
    let queue = vec![
        PeerCommand::Send(Message::Choke),
        PeerCommand::Disconnect,
        PeerCommand::Send(Message::Unchoke),
    ];
    let mut batch = Vec::new();
    assert_eq!(collect_batch(&queue, &mut batch), (2, true));
    assert_eq!(batch, MessageEncoder::encode(&Message::Choke).to_vec());
}

#[test]
fn batches_stop_at_their_limit() {
    let block = Bytes::from(vec![1u8; 100_000]);
    let mut queue = Vec::new();
    for begin in 0..6u32 {
        queue.push(PeerCommand::Send(Message::Piece {
            index: 0,
            begin,
            data: block.clone(),
        }));
    }
    let mut batch = Vec::new();
    let (taken, close) = collect_batch(&queue, &mut batch);
    assert_eq!((taken, close), (3, false));
    assert_eq!(batch.len(), 3 * 100_013);
    assert!(batch.len() >= BATCH_LIMIT);
}

#[test]
fn frames_are_taken_up_to_a_malformed_one() {
    let mut buf = BytesMut::new();
    buf.extend_from_slice(&MessageEncoder::encode(&Message::Choke));
    buf.extend_from_slice(&[0, 0, 0, 3, 4, 0, 0]);
    let (frames, error) = drain_frames(&mut buf);
    assert_eq!(frames.len(), 1);
    assert!(matches!(error, Some(MessageError::Truncated { id: 4, .. })));
}

#[test]
fn scanners_find_marks_across_chunks() {
    let mut scanner = Scanner::new(b"mark");
    scanner.feed(b"..ma");
    assert_eq!(scanner.found(), None);
    scanner.feed(b"rk!");
    assert_eq!(scanner.found(), Some(2));
    assert_eq!(scanner.received(), &b"..mark!".to_vec());
}
