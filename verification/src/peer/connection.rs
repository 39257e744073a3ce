//! The rules of a peer connection that do not depend on how its bytes travel.

use bytes::BytesMut;
use vstd::prelude::*;

use crate::bencode::same_bytes;
use crate::buf::{buffer_bytes, bytes_as_slice};
use crate::meta::hash::Id20;
use crate::peer::initiator::{dial_handshake, Dial};
use crate::peer::responder::{served_handshake, KnownInfoHash};
use crate::text::{
    begins_with, decimal_number, hex_number, join_text, push_decimal, push_hex, same_text, text_at,
};
use crate::wire::handshake::{
    handshake_bytes, parse_handshake, protocol, protocol_name, Handshake, HandshakeError,
    HANDSHAKE_LEN,
};
use crate::wire::message::{
    consumed_is_bounded, decode_inverts_encode, frame_body, frame_bytes, parse_frame,
    partial_frame_waits, writable, Frame, Message, MessageDecoder, MessageEncoder, MessageError,
    Step,
};
use crate::wire::mse::MseError;

verus! {

/// Encryption behaviour for a single peer connection.
#[derive(Clone, Copy, Debug, PartialEq, Eq, Structural)]
pub enum EncryptionPolicy {
    PlaintextOnly,
    Prefer,
    RequireEncryption,
}

impl Default for EncryptionPolicy {
    fn default() -> (r: Self)
        ensures
            r == EncryptionPolicy::Prefer,
    {
        EncryptionPolicy::Prefer
    }
}

/// Why a connection does not come about.
#[derive(Clone, Copy, Debug, PartialEq, Eq, Structural)]
pub enum PeerFault {
    BadHandshake(HandshakeError),
    InfoHashMismatch,
    UnknownInfoHash,
    SelfConnection,
    InvalidPublicKey,
    Payload(MseError),
    VcNotFound,
    PadDTooLong,
    PlaintextSelected,
    UnsupportedSelect(u32),
    InfoHashMismatchAfterMse,
    Req1NotFound,
    UnknownInfoHashInMse,
    VcMismatch,
    PadCTooLong,
    IaTooLong,
    NoAcceptableCrypto(u32),
    IaTooShort,
    InfoHashMismatchInIa,
    InfoHashMismatchDeferred,
    EmptyIaWithPlaintext,
    PlaintextRefused,
    EncryptionRefused,
}

/// The words of a fault.
pub open spec fn fault_text(f: PeerFault) -> Seq<char> {
    match f {
        PeerFault::BadHandshake(HandshakeError::BadPstrLen(n)) =>
            "bad protocol string length "@ + decimal_number(n as nat),
        PeerFault::BadHandshake(HandshakeError::BadProtocol) => "bad protocol string"@,
        PeerFault::InfoHashMismatch => "info hash mismatch"@,
        PeerFault::UnknownInfoHash => "unknown info hash"@,
        PeerFault::SelfConnection => "self-connection (peer_id matches ours)"@,
        PeerFault::InvalidPublicKey => "invalid DH public key"@,
        PeerFault::Payload(MseError::PadTooLarge(n)) => "pad length too large: "@ + decimal_number(
            n as nat,
        ),
        PeerFault::Payload(MseError::IaTooLarge(n)) => "initial-payload length too large: "@
            + decimal_number(n as nat),
        PeerFault::VcNotFound => "mse vc not found"@,
        PeerFault::PadDTooLong => "pad_d too long"@,
        PeerFault::PlaintextSelected => "peer selected plaintext but policy requires encryption"@,
        PeerFault::UnsupportedSelect(n) => "peer returned unsupported crypto_select 0x"@
            + hex_number(n as nat),
        PeerFault::InfoHashMismatchAfterMse => "info hash mismatch after mse"@,
        PeerFault::Req1NotFound => "mse req1 not found in window"@,
        PeerFault::UnknownInfoHashInMse => "mse: unknown info hash"@,
        PeerFault::VcMismatch => "mse: vc mismatch after req2 resolve"@,
        PeerFault::PadCTooLong => "pad_c too long"@,
        PeerFault::IaTooLong => "ia too long"@,
        PeerFault::NoAcceptableCrypto(n) => "no acceptable crypto (provide=0x"@ + hex_number(
            n as nat,
        ) + ")"@,
        PeerFault::IaTooShort => "ia shorter than bt handshake"@,
        PeerFault::InfoHashMismatchInIa => "info hash mismatch between req2 and ia"@,
        PeerFault::InfoHashMismatchDeferred => "info hash mismatch in deferred handshake"@,
        PeerFault::EmptyIaWithPlaintext => "empty ia with plaintext crypto not supported"@,
        PeerFault::PlaintextRefused => "policy requires encryption; rejecting plaintext"@,
        PeerFault::EncryptionRefused => "policy forbids encryption; rejecting MSE"@,
    }
}

fn with_number(text: &str, n: u32) -> (r: String)
    ensures
        r@ == text@ + hex_number(n as nat),
{
    let mut out = text.to_owned();
    push_hex(&mut out, n);
    out
}

fn with_decimal(text: &str, n: u64) -> (r: String)
    ensures
        r@ == text@ + decimal_number(n as nat),
{
    let mut out = text.to_owned();
    push_decimal(&mut out, n);
    out
}

impl PeerFault {
    /// The fault in words.
    pub fn message(&self) -> (r: String)
        ensures
            r@ == fault_text(*self),
    {
        match *self {
            PeerFault::BadHandshake(HandshakeError::BadPstrLen(n)) => with_decimal(
                "bad protocol string length ",
                n as u64,
            ),
            PeerFault::BadHandshake(HandshakeError::BadProtocol) => "bad protocol string".to_owned(),
            PeerFault::InfoHashMismatch => "info hash mismatch".to_owned(),
            PeerFault::UnknownInfoHash => "unknown info hash".to_owned(),
            PeerFault::SelfConnection => "self-connection (peer_id matches ours)".to_owned(),
            PeerFault::InvalidPublicKey => "invalid DH public key".to_owned(),
            PeerFault::Payload(MseError::PadTooLarge(n)) => with_decimal(
                "pad length too large: ",
                n as u64,
            ),
            PeerFault::Payload(MseError::IaTooLarge(n)) => with_decimal(
                "initial-payload length too large: ",
                n as u64,
            ),
            PeerFault::VcNotFound => "mse vc not found".to_owned(),
            PeerFault::PadDTooLong => "pad_d too long".to_owned(),
            PeerFault::PlaintextSelected =>
                "peer selected plaintext but policy requires encryption".to_owned(),
            PeerFault::UnsupportedSelect(n) => with_number(
                "peer returned unsupported crypto_select 0x",
                n,
            ),
            PeerFault::InfoHashMismatchAfterMse => "info hash mismatch after mse".to_owned(),
            PeerFault::Req1NotFound => "mse req1 not found in window".to_owned(),
            PeerFault::UnknownInfoHashInMse => "mse: unknown info hash".to_owned(),
            PeerFault::VcMismatch => "mse: vc mismatch after req2 resolve".to_owned(),
            PeerFault::PadCTooLong => "pad_c too long".to_owned(),
            PeerFault::IaTooLong => "ia too long".to_owned(),
            PeerFault::NoAcceptableCrypto(n) => {
                let text = with_number("no acceptable crypto (provide=0x", n);
                join_text(text.as_str(), ")")
            },
            PeerFault::IaTooShort => "ia shorter than bt handshake".to_owned(),
            PeerFault::InfoHashMismatchInIa => "info hash mismatch between req2 and ia".to_owned(),
            PeerFault::InfoHashMismatchDeferred =>
                "info hash mismatch in deferred handshake".to_owned(),
            PeerFault::EmptyIaWithPlaintext =>
                "empty ia with plaintext crypto not supported".to_owned(),
            PeerFault::PlaintextRefused =>
                "policy requires encryption; rejecting plaintext".to_owned(),
            PeerFault::EncryptionRefused => "policy forbids encryption; rejecting MSE".to_owned(),
        }
    }
}

/// True when the words say that no other transport or handshake can succeed with that peer.
pub open spec fn identity_failure(text: Seq<char>) -> bool {
    text == "info hash mismatch"@ || text_at(text, 0, "self-connection "@)
}

/// True when a failure, by its words, lies in who the peer is: another way of dialling it cannot
/// help.
pub fn alternate_dial_cannot_help(message: &str) -> (r: bool)
    ensures
        r == identity_failure(message@),
{
    same_text(message, "info hash mismatch") || begins_with(message, "self-connection ")
}

/// Of the faults of this module, a mismatch of the plain handshake and a connection to ourselves
/// are those that end the attempts to dial a peer.
pub proof fn identity_failures(f: PeerFault)
    ensures
        identity_failure(fault_text(f)) == (f is InfoHashMismatch || f is SelfConnection),
{
    reveal_strlit("info hash mismatch");
    reveal_strlit("self-connection ");
    reveal_strlit("self-connection (peer_id matches ours)");
    let t = fault_text(f);
    let a = "info hash mismatch"@;
    let b = "self-connection "@;
    match f {
        PeerFault::SelfConnection => {
            assert(t.subrange(0, 16) =~= b);
        },
        PeerFault::InfoHashMismatch => {},
        PeerFault::BadHandshake(HandshakeError::BadPstrLen(n)) => {
            reveal_strlit("bad protocol string length ");
            assert(t[0] == 'b' && a[0] == 'i' && b[0] == 's');
        },
        PeerFault::BadHandshake(HandshakeError::BadProtocol) => {
            reveal_strlit("bad protocol string");
            assert(t[0] == 'b' && a[0] == 'i' && b[0] == 's');
        },
        PeerFault::UnknownInfoHash => {
            reveal_strlit("unknown info hash");
            assert(t[0] == 'u' && a[0] == 'i' && b[0] == 's');
        },
        PeerFault::InvalidPublicKey => {
            reveal_strlit("invalid DH public key");
            assert(t[2] == 'v' && a[2] == 'f' && t[0] == 'i' && b[0] == 's');
        },
        PeerFault::Payload(MseError::PadTooLarge(n)) => {
            reveal_strlit("pad length too large: ");
            assert(t[0] == 'p' && a[0] == 'i' && b[0] == 's');
        },
        PeerFault::Payload(MseError::IaTooLarge(n)) => {
            reveal_strlit("initial-payload length too large: ");
            assert(t[2] == 'i' && a[2] == 'f' && t[0] == 'i' && b[0] == 's');
        },
        PeerFault::VcNotFound => {
            reveal_strlit("mse vc not found");
            assert(t[0] == 'm' && a[0] == 'i' && b[0] == 's');
        },
        PeerFault::PadDTooLong => {
            reveal_strlit("pad_d too long");
            assert(t[0] == 'p' && a[0] == 'i' && b[0] == 's');
        },
        PeerFault::PlaintextSelected => {
            reveal_strlit("peer selected plaintext but policy requires encryption");
            assert(t[0] == 'p' && a[0] == 'i' && b[0] == 's');
        },
        PeerFault::UnsupportedSelect(n) => {
            reveal_strlit("peer returned unsupported crypto_select 0x");
            assert(t[0] == 'p' && a[0] == 'i' && b[0] == 's');
        },
        PeerFault::InfoHashMismatchAfterMse => {
            reveal_strlit("info hash mismatch after mse");
            assert(t.len() != a.len() && t[0] == 'i' && b[0] == 's');
        },
        PeerFault::Req1NotFound => {
            reveal_strlit("mse req1 not found in window");
            assert(t[0] == 'm' && a[0] == 'i' && b[0] == 's');
        },
        PeerFault::UnknownInfoHashInMse => {
            reveal_strlit("mse: unknown info hash");
            assert(t[0] == 'm' && a[0] == 'i' && b[0] == 's');
        },
        PeerFault::VcMismatch => {
            reveal_strlit("mse: vc mismatch after req2 resolve");
            assert(t[0] == 'm' && a[0] == 'i' && b[0] == 's');
        },
        PeerFault::PadCTooLong => {
            reveal_strlit("pad_c too long");
            assert(t[0] == 'p' && a[0] == 'i' && b[0] == 's');
        },
        PeerFault::IaTooLong => {
            reveal_strlit("ia too long");
            assert(t.len() != a.len() && t[0] == 'i' && b[0] == 's');
        },
        PeerFault::NoAcceptableCrypto(n) => {
            reveal_strlit("no acceptable crypto (provide=0x");
            assert(t[0] == 'n' && a[0] == 'i' && b[0] == 's');
        },
        PeerFault::IaTooShort => {
            reveal_strlit("ia shorter than bt handshake");
            assert(t.len() != a.len() && t[0] == 'i' && b[0] == 's');
        },
        PeerFault::InfoHashMismatchInIa => {
            reveal_strlit("info hash mismatch between req2 and ia");
            assert(t.len() != a.len() && t[0] == 'i' && b[0] == 's');
        },
        PeerFault::InfoHashMismatchDeferred => {
            reveal_strlit("info hash mismatch in deferred handshake");
            assert(t.len() != a.len() && t[0] == 'i' && b[0] == 's');
        },
        PeerFault::EmptyIaWithPlaintext => {
            reveal_strlit("empty ia with plaintext crypto not supported");
            assert(t[0] == 'e' && a[0] == 'i' && b[0] == 's');
        },
        PeerFault::PlaintextRefused => {
            reveal_strlit("policy requires encryption; rejecting plaintext");
            assert(t[0] == 'p' && a[0] == 'i' && b[0] == 's');
        },
        PeerFault::EncryptionRefused => {
            reveal_strlit("policy forbids encryption; rejecting MSE");
            assert(t[0] == 'p' && a[0] == 'i' && b[0] == 's');
        },
    }
    assert(text_at(t, 0, b) ==> t[0] == b[0]) by {
        if text_at(t, 0, b) {
            assert(t.subrange(0, b.len() as int)[0] == b[0]);
        }
    }
}

/// What the first bytes of an inbound connection are.
#[derive(Clone, Copy, Debug, PartialEq, Eq, Structural)]
pub enum Probe {
    /// The peer closed the connection.
    Eof,
    /// Too few bytes to tell.
    NeedMore,
    Plaintext,
    Encrypted,
}

/// What the first bytes of an inbound connection are: a plain handshake is known by its first
/// twenty bytes, anything that does not start with its first byte is encrypted.
pub open spec fn probed(b: Seq<u8>) -> Probe {
    if b.len() == 0 {
        Probe::Eof
    } else if b[0] != 0x13 {
        Probe::Encrypted
    } else if b.len() < 20 {
        Probe::NeedMore
    } else if b.subrange(1, 20) == protocol_name() {
        Probe::Plaintext
    } else {
        Probe::Encrypted
    }
}

pub fn classify_probe(b: &[u8]) -> (r: Probe)
    ensures
        r == probed(b@),
{
    if b.len() == 0 {
        return Probe::Eof;
    }
    if b[0] != 0x13 {
        return Probe::Encrypted;
    }
    if b.len() < 20 {
        return Probe::NeedMore;
    }
    let name = protocol();
    if same_bytes(&b[1..20], name.as_slice()) {
        Probe::Plaintext
    } else {
        Probe::Encrypted
    }
}

/// Refuse a kind of connection that the policy excludes.
pub fn admit_probe(policy: EncryptionPolicy, plaintext: bool) -> (r: Result<(), PeerFault>)
    ensures
        r == (if plaintext && policy is RequireEncryption {
            Err::<(), PeerFault>(PeerFault::PlaintextRefused)
        } else if !plaintext && policy is PlaintextOnly {
            Err::<(), PeerFault>(PeerFault::EncryptionRefused)
        } else {
            Ok::<(), PeerFault>(())
        }),
{
    if plaintext {
        if policy == EncryptionPolicy::RequireEncryption {
            Err(PeerFault::PlaintextRefused)
        } else {
            Ok(())
        }
    } else if policy == EncryptionPolicy::PlaintextOnly {
        Err(PeerFault::EncryptionRefused)
    } else {
        Ok(())
    }
}

/// The first served torrent with that info-hash.
pub open spec fn served(known: Seq<KnownInfoHash>, info_hash: Seq<u8>) -> Option<KnownInfoHash>
    decreases known.len(),
{
    if known.len() == 0 {
        None
    } else if known[0].info_hash@ == info_hash {
        Some(known[0])
    } else {
        served(known.drop_first(), info_hash)
    }
}

/// True when the handshake is the one that the three parts name.
pub open spec fn has_parts(h: Handshake, parts: (Seq<u8>, Seq<u8>, Seq<u8>)) -> bool {
    h.reserved@ == parts.0 && h.info_hash@ == parts.1 && h.peer_id@ == parts.2
}

/// True when the bytes are our handshake for a served torrent.
pub open spec fn greets_for(known: KnownInfoHash, our_peer_id: Id20, bytes: Seq<u8>) -> bool {
    exists|h: Handshake| #[trigger]
        served_handshake(known, our_peer_id, h) && bytes == handshake_bytes(h)
}

/// The plain handshake of a peer that was accepted, and what to send back.
#[derive(Debug)]
pub struct Greeting {
    pub remote: Handshake,
    pub known: KnownInfoHash,
    pub reply: [u8; HANDSHAKE_LEN],
}

/// Answer the plain handshake of a peer that connected.
pub fn accept_plaintext(
    known_hashes: &Vec<KnownInfoHash>,
    our_peer_id: Id20,
    bytes: &[u8; HANDSHAKE_LEN],
) -> (r: Result<Greeting, PeerFault>)
    ensures
        match parse_handshake(bytes@) {
            Err(e) => r == Err::<Greeting, PeerFault>(PeerFault::BadHandshake(e)),
            Ok(parts) => match served(known_hashes@, parts.1) {
                None => r == Err::<Greeting, PeerFault>(PeerFault::UnknownInfoHash),
                Some(k) => {
                    &&& r matches Ok(g)
                    &&& has_parts(g.remote, parts)
                    &&& g.known == k
                    &&& greets_for(k, our_peer_id, g.reply@)
                },
            },
        },
{
    let remote = match Handshake::parse(bytes) {
        Err(e) => {
            return Err(PeerFault::BadHandshake(e));
        },
        Ok(h) => h,
    };
    let mut i: usize = 0;
    assert(known_hashes@.skip(0) =~= known_hashes@);
    while i < known_hashes.len()
        invariant
            i <= known_hashes.len(),
            parse_handshake(bytes@) is Ok,
            has_parts(remote, parse_handshake(bytes@)->Ok_0),
            served(known_hashes@, remote.info_hash@) == served(
                known_hashes@.skip(i as int),
                remote.info_hash@,
            ),
        decreases known_hashes.len() - i,
    {
        let known = known_hashes[i];
        proof {
            assert(known_hashes@.skip(i as int)[0] == known);
            assert(known_hashes@.skip(i as int).drop_first() =~= known_hashes@.skip(i + 1));
            if known.info_hash@ == remote.info_hash@ {
                assert(known.info_hash.0 =~= remote.info_hash.0);
            }
        }
        if known.info_hash == remote.info_hash {
            let ours = Handshake::new_with_features(
                remote.info_hash,
                our_peer_id,
                known.advertise_v2,
                known.advertise_dht,
                true,
            );
            let reply = ours.to_bytes();
            assert(served_handshake(known, our_peer_id, ours) && reply@ == handshake_bytes(ours));
            assert(greets_for(known, our_peer_id, reply@));
            assert(served(known_hashes@, remote.info_hash@) == Some(known));
            return Ok(Greeting { remote, known, reply });
        }
        i += 1;
    }
    Err(PeerFault::UnknownInfoHash)
}

/// The plain handshake that opens a connection.
pub fn plaintext_hello(dial: &Dial) -> (r: [u8; HANDSHAKE_LEN])
    ensures
        exists|h: Handshake| #[trigger] dial_handshake(*dial, h) && r@ == handshake_bytes(h),
{
    let ours = Handshake::new_with_features(
        dial.info_hash,
        dial.our_peer_id,
        dial.advertise_v2,
        dial.advertise_dht,
        true,
    );
    assert(dial_handshake(*dial, ours));
    ours.to_bytes()
}

/// Check the plain handshake with which a dialled peer answers.
pub fn check_plaintext(dial: &Dial, bytes: &[u8; HANDSHAKE_LEN]) -> (r: Result<
    Handshake,
    PeerFault,
>)
    ensures
        match parse_handshake(bytes@) {
            Err(e) => r == Err::<Handshake, PeerFault>(PeerFault::BadHandshake(e)),
            Ok(parts) => if parts.1 != dial.info_hash@ {
                r == Err::<Handshake, PeerFault>(PeerFault::InfoHashMismatch)
            } else {
                r matches Ok(h) && has_parts(h, parts)
            },
        },
{
    match Handshake::parse(bytes) {
        Err(e) => Err(PeerFault::BadHandshake(e)),
        Ok(h) => if h.info_hash != dial.info_hash {
            assert(h.info_hash@ != dial.info_hash@) by {
                if h.info_hash@ == dial.info_hash@ {
                    assert(h.info_hash.0 =~= dial.info_hash.0);
                }
            }
            Err(PeerFault::InfoHashMismatch)
        } else {
            Ok(h)
        },
    }
}

/// What happens on a connection, as its torrent sees it.
#[derive(Debug)]
pub enum PeerEvent {
    Handshook { peer_id: Id20, reserved: [u8; 8], info_hash: Id20, encrypted: bool },
    Message(Message),
    Disconnected { reason: String },
}

/// What a torrent asks of a connection.
#[derive(Debug)]
pub enum PeerCommand {
    Send(Message),
    /// Close the connection.
    Disconnect,
}

/// The first event of a connection whose handshakes are complete; a connection to ourselves is
/// refused.
pub fn finish(our_peer_id: &Id20, remote: &Handshake, encrypted: bool) -> (r: Result<
    PeerEvent,
    PeerFault,
>)
    ensures
        if remote.peer_id == *our_peer_id {
            r == Err::<PeerEvent, PeerFault>(PeerFault::SelfConnection)
        } else {
            r == Ok::<PeerEvent, PeerFault>(
                PeerEvent::Handshook {
                    peer_id: remote.peer_id,
                    reserved: remote.reserved,
                    info_hash: remote.info_hash,
                    encrypted,
                },
            )
        },
{
    if remote.peer_id == *our_peer_id {
        Err(PeerFault::SelfConnection)
    } else {
        Ok(
            PeerEvent::Handshook {
                peer_id: remote.peer_id,
                reserved: remote.reserved,
                info_hash: remote.info_hash,
                encrypted,
            },
        )
    }
}

/// A way to reach a peer.
#[derive(Clone, Copy, Debug, PartialEq, Eq, Structural)]
pub enum Transport {
    Tcp,
    Utp,
}

/// Which transport is being tried, and which is left.
#[derive(Clone, Copy, Debug, PartialEq, Eq, Structural)]
pub enum DialState {
    /// No other transport will be tried.
    Only(Transport),
    /// The other transport is tried where this one fails.
    First(Transport),
    /// The other transport has failed.
    Second(Transport),
}

/// What comes behind a failed attempt.
#[derive(Clone, Copy, Debug, PartialEq, Eq, Structural)]
pub enum DialNext {
    Try(DialState),
    /// The error of the attempt that failed just now is the result.
    FailWithLast,
    /// The error of the first attempt is the result.
    FailWithFirst,
}

/// The transport of an attempt.
pub open spec fn transport_of(state: DialState) -> Transport {
    match state {
        DialState::Only(t) => t,
        DialState::First(t) => t,
        DialState::Second(t) => t,
    }
}

/// The first attempt: an encrypted connection needs TCP, and so does a peer without the other
/// transport.
pub open spec fn first_dial(policy: EncryptionPolicy, has_utp: bool, prefer_utp: bool) -> DialState {
    if policy is RequireEncryption || !has_utp {
        DialState::Only(Transport::Tcp)
    } else if prefer_utp {
        DialState::First(Transport::Utp)
    } else {
        DialState::First(Transport::Tcp)
    }
}

impl DialState {
    /// The first attempt: an encrypted connection needs TCP, and so does a peer without the other
    /// transport.
    pub fn start(policy: EncryptionPolicy, has_utp: bool, prefer_utp: bool) -> (r: Self)
        ensures
            r == first_dial(policy, has_utp, prefer_utp),
    {
        if policy == EncryptionPolicy::RequireEncryption || !has_utp {
            DialState::Only(Transport::Tcp)
        } else if prefer_utp {
            DialState::First(Transport::Utp)
        } else {
            DialState::First(Transport::Tcp)
        }
    }

    pub fn transport(&self) -> (r: Transport)
        ensures
            r == transport_of(*self),
    {
        match *self {
            DialState::Only(t) => t,
            DialState::First(t) => t,
            DialState::Second(t) => t,
        }
    }

    /// What comes behind an attempt that failed with these words. Behind a failed TCP and µTP
    /// attempt the error of the TCP attempt is the result.
    pub fn on_failure(&self, message: &str) -> (r: DialNext)
        ensures
            r == dial_next(*self, identity_failure(message@)),
    {
        match *self {
            DialState::Only(_) => DialNext::FailWithLast,
            DialState::First(t) => if alternate_dial_cannot_help(message) {
                DialNext::FailWithLast
            } else if t == Transport::Tcp {
                DialNext::Try(DialState::Second(Transport::Utp))
            } else {
                DialNext::Try(DialState::Second(Transport::Tcp))
            },
            DialState::Second(t) => if t == Transport::Tcp {
                DialNext::FailWithLast
            } else {
                DialNext::FailWithFirst
            },
        }
    }
}

/// What comes behind a failed attempt.
pub open spec fn dial_next(state: DialState, hopeless: bool) -> DialNext {
    match state {
        DialState::Only(_) => DialNext::FailWithLast,
        DialState::First(t) => if hopeless {
            DialNext::FailWithLast
        } else if t is Tcp {
            DialNext::Try(DialState::Second(Transport::Utp))
        } else {
            DialNext::Try(DialState::Second(Transport::Tcp))
        },
        DialState::Second(t) => if t is Tcp {
            DialNext::FailWithLast
        } else {
            DialNext::FailWithFirst
        },
    }
}

/// Where encryption is required, no attempt leaves TCP.
pub proof fn required_encryption_stays_on_tcp(has_utp: bool, prefer_utp: bool, hopeless: bool)
    ensures
        ({
            let start = first_dial(EncryptionPolicy::RequireEncryption, has_utp, prefer_utp);
            &&& transport_of(start) is Tcp
            &&& !(dial_next(start, hopeless) is Try)
        }),
{
}

/// At most two attempts are made, and never two by the same transport.
pub proof fn at_most_two_dials(state: DialState, hopeless: bool, again: bool)
    ensures
        dial_next(state, hopeless) matches DialNext::Try(next) ==> transport_of(next)
            != transport_of(state) && !(dial_next(next, again) is Try),
{
}

/// Which handshake is being tried on a TCP connection.
#[derive(Clone, Copy, Debug, PartialEq, Eq, Structural)]
pub enum HandshakeAttempt {
    Plaintext,
    /// The obfuscated one; where `fallback` holds, plaintext is tried where it fails.
    Mse { fallback: bool },
}

/// The first handshake of a policy: encryption where it is preferred or required.
pub open spec fn first_handshake(policy: EncryptionPolicy) -> HandshakeAttempt {
    match policy {
        EncryptionPolicy::PlaintextOnly => HandshakeAttempt::Plaintext,
        EncryptionPolicy::RequireEncryption => HandshakeAttempt::Mse { fallback: false },
        EncryptionPolicy::Prefer => HandshakeAttempt::Mse { fallback: true },
    }
}

/// The handshake behind one that failed, where there is one left that can help.
pub open spec fn next_handshake(attempt: HandshakeAttempt, hopeless: bool) -> Option<
    HandshakeAttempt,
> {
    match attempt {
        HandshakeAttempt::Mse { fallback } => if fallback && !hopeless {
            Some(HandshakeAttempt::Plaintext)
        } else {
            None
        },
        HandshakeAttempt::Plaintext => None,
    }
}

impl HandshakeAttempt {
    /// The first handshake of a policy; a preferred one may be followed by the other.
    pub fn start(policy: EncryptionPolicy) -> (r: Self)
        ensures
            r == first_handshake(policy),
    {
        match policy {
            EncryptionPolicy::PlaintextOnly => HandshakeAttempt::Plaintext,
            EncryptionPolicy::RequireEncryption => HandshakeAttempt::Mse { fallback: false },
            EncryptionPolicy::Prefer => HandshakeAttempt::Mse { fallback: true },
        }
    }

    /// The handshake to try on a fresh connection behind one that failed with these words.
    pub fn on_failure(&self, message: &str) -> (r: Option<Self>)
        ensures
            r == next_handshake(*self, identity_failure(message@)),
    {
        match *self {
            HandshakeAttempt::Mse { fallback } => if fallback && !alternate_dial_cannot_help(
                message,
            ) {
                Some(HandshakeAttempt::Plaintext)
            } else {
                None
            },
            HandshakeAttempt::Plaintext => None,
        }
    }
}

/// Preferred encryption is tried first, and plaintext only behind it; required encryption is never
/// given up, and plaintext alone is never followed by encryption.
pub proof fn encryption_comes_first(policy: EncryptionPolicy, hopeless: bool, again: bool)
    ensures
        policy is Prefer ==> first_handshake(policy) is Mse && next_handshake(
            first_handshake(policy),
            hopeless,
        ) == (if hopeless {
            None
        } else {
            Some(HandshakeAttempt::Plaintext)
        }),
        policy is RequireEncryption ==> first_handshake(policy) is Mse && next_handshake(
            first_handshake(policy),
            hopeless,
        ) is None,
        policy is PlaintextOnly ==> first_handshake(policy) is Plaintext && next_handshake(
            first_handshake(policy),
            hopeless,
        ) is None,
        next_handshake(first_handshake(policy), hopeless) matches Some(second) ==> next_handshake(
            second,
            again,
        ) is None,
{
}

/// What stands in a buffer, frame by frame: the complete frames, the fault that ended the
/// reading, and how much of the buffer was taken.
pub open spec fn frames_in(b: Seq<u8>) -> (Seq<Frame>, Option<MessageError>, int)
    decreases b.len(),
{
    match parse_frame(b) {
        Step::Incomplete => (seq![], None, 0),
        Step::Failed { error, consumed } => (seq![], Some(error), consumed),
        Step::Done { frame, consumed } => if 0 < consumed <= b.len() {
            let (rest, error, more) = frames_in(b.skip(consumed));
            (seq![frame] + rest, error, consumed + more)
        } else {
            (seq![], None, 0)
        },
    }
}

/// The mathematical values of messages.
pub open spec fn frames_of(m: Seq<Message>) -> Seq<Frame> {
    Seq::new(m.len(), |i: int| m[i]@)
}

/// Take every complete message off the buffer, up to the first one that is malformed.
pub fn drain_frames(buf: &mut BytesMut) -> (r: (Vec<Message>, Option<MessageError>))
    ensures
        ({
            let (frames, error, taken) = frames_in(buffer_bytes(*old(buf)));
            &&& frames_of(r.0@) == frames
            &&& r.1 == error
            &&& buffer_bytes(*final(buf)) == buffer_bytes(*old(buf)).skip(taken)
        }),
{
    let mut out: Vec<Message> = Vec::new();
    let ghost whole = buffer_bytes(*buf);
    let ghost mut taken: int = 0;
    proof {
        assert(whole.skip(0) =~= whole);
        assert(frames_of(out@) + frames_in(whole).0 =~= frames_in(whole).0);
    }
    loop
        invariant
            0 <= taken <= whole.len(),
            buffer_bytes(*buf) == whole.skip(taken),
            frames_in(whole).0 == frames_of(out@) + frames_in(buffer_bytes(*buf)).0,
            frames_in(whole).1 == frames_in(buffer_bytes(*buf)).1,
            frames_in(whole).2 == taken + frames_in(buffer_bytes(*buf)).2,
            whole == buffer_bytes(*old(buf)),
        decreases buffer_bytes(*buf).len(),
    {
        let ghost now = buffer_bytes(*buf);
        proof {
            consumed_is_bounded(now);
        }
        match MessageDecoder::try_decode(buf) {
            Err(e) => {
                proof {
                    assert(frames_of(out@) + Seq::<Frame>::empty() =~= frames_of(out@));
                    let n = frames_in(now).2;
                    assert(whole.skip(taken).skip(n) =~= whole.skip(taken + n));
                }
                return (out, Some(e));
            },
            Ok(None) => {
                proof {
                    assert(frames_of(out@) + Seq::<Frame>::empty() =~= frames_of(out@));
                }
                return (out, None);
            },
            Ok(Some(m)) => {
                let ghost before = out@;
                let ghost f = m@;
                out.push(m);
                proof {
                    let n = parse_frame(now)->Done_consumed;
                    assert(whole.skip(taken).skip(n) =~= whole.skip(taken + n));
                    taken = taken + n;
                    let rest = frames_in(buffer_bytes(*buf)).0;
                    assert(frames_of(out@) =~= frames_of(before).push(f));
                    assert(frames_of(before) + (seq![f] + rest) =~= frames_of(out@) + rest);
                }
            },
        }
    }
}

/// The bytes of the frames one behind the other.
pub open spec fn stream_of(frames: Seq<Frame>) -> Seq<u8>
    decreases frames.len(),
{
    if frames.len() == 0 {
        seq![]
    } else {
        frame_bytes(frames[0]) + stream_of(frames.drop_first())
    }
}

/// A stream of frames is read back frame by frame, and an incomplete one behind them is left.
pub proof fn frames_survive_the_stream(frames: Seq<Frame>, last: Frame, arrived: int)
    requires
        forall|i: int| 0 <= i < frames.len() ==> writable(#[trigger] frames[i]),
        writable(last),
        0 <= arrived < frame_bytes(last).len(),
    ensures
        frames_in(stream_of(frames) + frame_bytes(last).take(arrived)) == (
            frames,
            None::<MessageError>,
            stream_of(frames).len() as int,
        ),
    decreases frames.len(),
{
    let tail = frame_bytes(last).take(arrived);
    if frames.len() == 0 {
        partial_frame_waits(last, arrived);
        assert(stream_of(frames) + tail =~= tail);
        assert(frames =~= seq![]);
    } else {
        let first = frames[0];
        let rest = frames.drop_first();
        let behind = stream_of(rest) + tail;
        assert(stream_of(frames) + tail =~= frame_bytes(first) + behind);
        decode_inverts_encode(first, behind);
        assert forall|i: int| 0 <= i < rest.len() implies writable(#[trigger] rest[i]) by {
            assert(rest[i] == frames[i + 1]);
        }
        frames_survive_the_stream(rest, last, arrived);
        let b = frame_bytes(first) + behind;
        assert(b.skip(frame_bytes(first).len() as int) =~= behind);
        assert(seq![first] + rest =~= frames);
    }
}

/// How many bytes of queued messages are written at once before the queue is left for later.
pub const BATCH_LIMIT: usize = 262_144;

/// What is done with a queue of commands in one go: how many are taken, the frames that are
/// written, and whether the connection is closed behind them. All that is queued is taken, up to
/// a request to close, or until the bytes behind the first message reach the limit.
pub open spec fn batch_of(queue: Seq<PeerCommand>, taken: nat, written: nat) -> (nat, Seq<Frame>, bool)
    decreases queue.len() - taken,
{
    if taken >= queue.len() {
        (taken, seq![], false)
    } else {
        match queue[taken as int] {
            PeerCommand::Disconnect => (taken + 1, seq![], true),
            PeerCommand::Send(m) => {
                let size = written + frame_bytes(m@).len();
                if taken > 0 && size >= BATCH_LIMIT {
                    (taken + 1, seq![m@], false)
                } else {
                    let (n, rest, close) = batch_of(queue, taken + 1, size);
                    (n, seq![m@] + rest, close)
                }
            },
        }
    }
}

/// True when every queued message can be written: see [`MessageEncoder::encode`].
pub open spec fn encodable(queue: Seq<PeerCommand>) -> bool {
    forall|i: int|
        0 <= i < queue.len() ==> ((#[trigger] queue[i]) matches PeerCommand::Send(m) ==> frame_body(
            m@,
        ).len() + 4 <= isize::MAX)
}

/// Put the queued messages into one buffer: how many commands were taken, and whether the
/// connection is to be closed behind the bytes.
pub fn collect_batch(queue: &Vec<PeerCommand>, batch: &mut Vec<u8>) -> (r: (usize, bool))
    requires
        encodable(queue@),
    ensures
        ({
            let (taken, frames, close) = batch_of(queue@, 0, 0);
            &&& r == (taken as usize, close)
            &&& r.0 == taken
            &&& final(batch)@ == stream_of(frames)
        }),
{
    batch.clear();
    let mut taken: usize = 0;
    let ghost mut done: Seq<Frame> = seq![];
    let ghost all = batch_of(queue@, 0, 0);
    proof {
        assert(done + all.1 =~= all.1);
        assert(batch@ =~= stream_of(done));
    }
    while taken < queue.len()
        invariant
            taken <= queue.len(),
            encodable(queue@),
            batch@ == stream_of(done),
            all == batch_of(queue@, 0, 0),
            all.0 == batch_of(queue@, taken as nat, batch@.len()).0,
            all.1 == done + batch_of(queue@, taken as nat, batch@.len()).1,
            all.2 == batch_of(queue@, taken as nat, batch@.len()).2,
        decreases queue.len() - taken,
    {
        match &queue[taken] {
            PeerCommand::Disconnect => {
                assert(done + Seq::<Frame>::empty() =~= done);
                return (taken + 1, true);
            },
            PeerCommand::Send(m) => {
                assert(frame_bytes(m@).len() == frame_body(m@).len() + 4);
                let bytes = MessageEncoder::encode(m);
                batch.extend_from_slice(bytes_as_slice(&bytes));
                proof {
                    lemma_stream_push(done, m@);
                    assert(batch@ =~= stream_of(done.push(m@)));
                    let rest = batch_of(queue@, (taken + 1) as nat, batch@.len()).1;
                    assert(done + (seq![m@] + rest) =~= done.push(m@) + rest);
                    assert(done + seq![m@] =~= done.push(m@));
                    done = done.push(m@);
                }
                taken += 1;
                if taken > 1 && batch.len() >= BATCH_LIMIT {
                    return (taken, false);
                }
            },
        }
    }
    assert(done + Seq::<Frame>::empty() =~= done);
    (taken, false)
}

proof fn lemma_stream_push(frames: Seq<Frame>, f: Frame)
    ensures
        stream_of(frames.push(f)) == stream_of(frames) + frame_bytes(f),
    decreases frames.len(),
{
    if frames.len() == 0 {
        assert(frames.push(f).drop_first() =~= seq![]);
        assert(stream_of(seq![]) =~= seq![]);
        assert(stream_of(frames.push(f)) =~= stream_of(frames) + frame_bytes(f));
    } else {
        assert(frames.push(f).drop_first() =~= frames.drop_first().push(f));
        lemma_stream_push(frames.drop_first(), f);
        assert(stream_of(frames.push(f)) =~= stream_of(frames) + frame_bytes(f));
    }
}

/// An inbound connection is plain exactly where it begins with the length and the name of the
/// protocol; it is encrypted where it cannot do so any more.
pub proof fn what_the_first_bytes_are(b: Seq<u8>)
    ensures
        probed(b) is Plaintext <==> b.len() >= 20 && b[0] == 19 && b.subrange(1, 20) == seq![
            66u8, 105, 116, 84, 111, 114, 114, 101, 110, 116, 32, 112, 114, 111, 116, 111, 99, 111,
            108,
        ],
        probed(b) is Eof <==> b.len() == 0,
        probed(b) is NeedMore <==> 0 < b.len() < 20 && b[0] == 19,
        probed(b) is Encrypted <==> b.len() > 0 && (b[0] != 19 || (b.len() >= 20 && b.subrange(1, 20)
            != seq![
            66u8, 105, 116, 84, 111, 114, 114, 101, 110, 116, 32, 112, 114, 111, 116, 111, 99, 111,
            108,
        ])),
{
}

/// A torrent is served exactly where one with its digest is known.
pub proof fn which_torrent_is_served(known: Seq<KnownInfoHash>, info_hash: Seq<u8>)
    ensures
        served(known, info_hash) is None ==> forall|i: int|
            0 <= i < known.len() ==> (#[trigger] known[i]).info_hash@ != info_hash,
        served(known, info_hash) matches Some(k) ==> k.info_hash@ == info_hash && known.contains(k),
    decreases known.len(),
{
    if known.len() > 0 {
        let rest = known.drop_first();
        which_torrent_is_served(rest, info_hash);
        if known[0].info_hash@ == info_hash {
            assert(known.contains(known[0]));
        } else {
            match served(rest, info_hash) {
                Some(k) => {
                    let j = choose|j: int| 0 <= j < rest.len() && rest[j] == k;
                    assert(known[j + 1] == k);
                },
                None => {
                    assert forall|i: int| 0 <= i < known.len() implies (
                    #[trigger] known[i]).info_hash@ != info_hash by {
                        if i > 0 {
                            assert(rest[i - 1] == known[i]);
                        }
                    }
                },
            }
        }
    }
}

/// True when a frame is that of the message at `i` of the queue.
pub open spec fn is_sent(queue: Seq<PeerCommand>, i: int, frame: Frame) -> bool {
    queue[i] matches PeerCommand::Send(m) && m@ == frame
}

/// True when the frames are those of the messages of the queue from a place on.
pub open spec fn are_sent(queue: Seq<PeerCommand>, from: int, frames: Seq<Frame>) -> bool {
    forall|i: int|
        from <= i < from + frames.len() ==> #[trigger] is_sent(queue, i, frames[i - from])
}

/// What is done in one go is the front of the queue, in its order: every message of it is written,
/// and the connection is closed exactly where the last of it asks for that.
pub proof fn what_is_done_in_one_go(queue: Seq<PeerCommand>, taken: nat, written: nat)
    requires
        taken <= queue.len(),
    ensures
        ({
            let (n, frames, close) = batch_of(queue, taken, written);
            &&& taken <= n <= queue.len()
            &&& taken < queue.len() ==> n > taken
            &&& close <==> n > taken && queue[n - 1] is Disconnect
            &&& frames.len() == n - taken - (if close {
                1int
            } else {
                0
            })
            &&& are_sent(queue, taken as int, frames)
        }),
    decreases queue.len() - taken,
{
    if taken < queue.len() {
        if let PeerCommand::Send(m) = queue[taken as int] {
            let size = written + frame_bytes(m@).len();
            assert(is_sent(queue, taken as int, m@));
            if taken > 0 && size >= BATCH_LIMIT {
                let frames = seq![m@];
                assert(are_sent(queue, taken as int, frames));
            } else {
                what_is_done_in_one_go(queue, taken + 1, size);
                let (n, rest, close) = batch_of(queue, taken + 1, size);
                let frames = seq![m@] + rest;
                if n == taken + 1 {
                    assert(queue[n - 1] == queue[taken as int]);
                }
                assert forall|i: int| taken <= i < taken + frames.len() implies #[trigger] is_sent(
                    queue,
                    i,
                    frames[i - taken],
                ) by {
                    if i > taken {
                        assert(is_sent(queue, i, rest[i - (taken + 1)]));
                        assert(frames[i - taken] == rest[i - (taken + 1)]);
                    }
                }
                assert(are_sent(queue, taken as int, frames));
            }
        }
    }
}

/// How a peer is dialled: over TCP alone where encryption is required or nothing else is there, and
/// else over the preferred transport first and over the other one behind it, unless the first
/// attempt showed that no other can succeed.
pub proof fn how_a_peer_is_dialled(policy: EncryptionPolicy, has_utp: bool, prefer_utp: bool)
    ensures
        ({
            let first = first_dial(policy, has_utp, prefer_utp);
            &&& policy is RequireEncryption || !has_utp ==> transport_of(first) is Tcp && dial_next(
                first,
                false,
            ) is FailWithLast
            &&& !(policy is RequireEncryption) && has_utp ==> (transport_of(first) is Utp
                <==> prefer_utp)
            &&& !(policy is RequireEncryption) && has_utp ==> (dial_next(
                first,
                false,
            ) matches DialNext::Try(second) && (transport_of(second) is Utp <==> !prefer_utp))
            &&& dial_next(first, true) is FailWithLast
        }),
{
}

} // verus!
