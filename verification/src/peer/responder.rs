//! The obfuscated handshake of the side that accepts.

use vstd::prelude::*;

use crate::be::{read_u16, read_u32, of_be16, of_be32};
use crate::bencode::{copy_range, same_bytes};
use crate::meta::hash::{array_from, sha1_digest, xor_bytes, Id20};
use crate::peer::connection::{EncryptionPolicy, PeerFault};
use crate::peer::initiator::{cipher_a, cipher_b, crypt, stream_a, stream_b, Ciphers, MAX_PAD};
use crate::peer::scanner::Scanner;
use crate::wire::handshake::{handshake_bytes, parse_handshake, Handshake, HANDSHAKE_LEN};
use crate::wire::mse::{
    be_value, build_responder_payload, crypto, first_occurrence, prime, req1, req2, req3,
    responder_payload, shared_value, tag_req1, tag_req2, tag_req3, vc, verification_constant, xor20,
    DhKeys, MseError, DH_LEN,
};
use crate::wire::rc4::{advanced, applied, applying_in_pieces, Rc4State};

verus! {

/// How many bytes behind the initiator's public key may arrive without the mark that ends its
/// padding.
pub const REQ1_WINDOW: usize = 1402;

/// The longest initial payload that an initiator may announce.
pub const MAX_IA: usize = 1024;

/// A torrent that this side serves.
#[derive(Clone, Copy, Debug)]
pub struct KnownInfoHash {
    pub info_hash: Id20,
    pub advertise_v2: bool,
    pub advertise_dht: bool,
}

impl From<Id20> for KnownInfoHash {
    fn from(info_hash: Id20) -> (r: Self) {
        KnownInfoHash { info_hash, advertise_v2: true, advertise_dht: true }
    }
}

impl vstd::std_specs::convert::FromSpecImpl<Id20> for KnownInfoHash {
    open spec fn obeys_from_spec() -> bool {
        true
    }

    open spec fn from_spec(info_hash: Id20) -> Self {
        KnownInfoHash { info_hash, advertise_v2: true, advertise_dht: true }
    }
}

/// The first torrent whose obfuscated name is `wanted`.
pub open spec fn resolve(known: Seq<KnownInfoHash>, wanted: Seq<u8>) -> Option<KnownInfoHash>
    decreases known.len(),
{
    if known.len() == 0 {
        None
    } else if sha1_digest(tag_req2() + known[0].info_hash@) == wanted {
        Some(known[0])
    } else {
        resolve(known.drop_first(), wanted)
    }
}

/// True of the handshake that is sent for a served torrent.
pub open spec fn served_handshake(known: KnownInfoHash, our_peer_id: Id20, h: Handshake) -> bool {
    h.announces(known.info_hash, our_peer_id, known.advertise_v2, known.advertise_dht, true)
}

/// What the responder picks of what is offered: the cipher, else plaintext where allowed.
pub open spec fn picked(provide: u32, policy: EncryptionPolicy) -> Option<u32> {
    if provide & crypto::RC4 != 0 {
        Some(crypto::RC4)
    } else if !(policy is RequireEncryption) && provide & crypto::PLAINTEXT != 0 {
        Some(crypto::PLAINTEXT)
    } else {
        None
    }
}

/// What the initiator asked for, once all of it has arrived.
pub struct Request {
    pub provide: u32,
    pub ia: Seq<u8>,
    /// How many bytes of the encrypted stream were read.
    pub read: nat,
    pub leftover: Seq<u8>,
}

/// What is known of the initiator's encrypted stream: that more is needed, that it is refused, or
/// what it asks for.
pub enum Opening {
    NeedMore,
    Failed(PeerFault),
    Complete(Request),
}

/// Read the initiator's encrypted stream, from its start.
pub open spec fn read_request(cipher: Rc4State, enc: Seq<u8>) -> Opening {
    let head = applied(cipher, enc.take(14));
    let pad = of_be16(head.skip(12)) as int;
    let ia_off = 16 + pad;
    let ia_len = of_be16(applied(cipher, enc.take(ia_off)).skip(14 + pad)) as int;
    let end = ia_off + ia_len;
    if enc.len() < 14 {
        Opening::NeedMore
    } else if head.take(8) != vc() {
        Opening::Failed(PeerFault::VcMismatch)
    } else if pad > MAX_PAD {
        Opening::Failed(PeerFault::PadCTooLong)
    } else if enc.len() < ia_off {
        Opening::NeedMore
    } else if ia_len > MAX_IA {
        Opening::Failed(PeerFault::IaTooLong)
    } else if enc.len() < end {
        Opening::NeedMore
    } else {
        Opening::Complete(
            Request {
                provide: of_be32(head.skip(8)),
                ia: applied(cipher, enc.take(end)).skip(ia_off),
                read: end as nat,
                leftover: enc.skip(end),
            },
        )
    }
}

/// What an accepted initiator is known by.
pub enum Verdict {
    Refused(PeerFault),
    /// The handshake is still to come on the encrypted stream.
    Deferred,
    Greeted { area: Seq<u8>, info_hash: Seq<u8>, peer_id: Seq<u8>, extra: Seq<u8> },
}

/// What the initial payload amounts to.
pub open spec fn judge(ia: Seq<u8>, skey: Seq<u8>, encrypted: bool) -> Verdict {
    if 0 < ia.len() < HANDSHAKE_LEN {
        Verdict::Refused(PeerFault::IaTooShort)
    } else if ia.len() > 0 {
        match parse_handshake(ia.take(68)) {
            Err(e) => Verdict::Refused(PeerFault::BadHandshake(e)),
            Ok((area, info_hash, peer_id)) => if info_hash != skey {
                Verdict::Refused(PeerFault::InfoHashMismatchInIa)
            } else {
                Verdict::Greeted { area, info_hash, peer_id, extra: ia.skip(68) }
            },
        }
    } else if encrypted {
        Verdict::Deferred
    } else {
        Verdict::Refused(PeerFault::EmptyIaWithPlaintext)
    }
}

/// True when our own handshake is sent behind the reply: unless the initial payload is refused
/// for what it holds.
pub open spec fn greets(ia: Seq<u8>, skey: Seq<u8>) -> bool {
    ia.len() == 0 || judge(ia, skey, true) is Greeted
}

/// The accepted connection.
#[derive(Debug)]
pub struct Accepted {
    pub known: KnownInfoHash,
    /// The peer's handshake, unless it is still to come on the encrypted stream.
    pub remote: Option<Handshake>,
    /// What came decrypted behind the peer's handshake.
    pub extra: Vec<u8>,
    /// What came behind the initial payload, as it came.
    pub rest: Vec<u8>,
    /// Where the connection stays encrypted.
    pub ciphers: Option<Ciphers>,
}

/// The reply that must be sent, and what comes of the connection behind it.
#[derive(Debug)]
pub struct Negotiated {
    pub send: Vec<u8>,
    pub verdict: Result<Accepted, PeerFault>,
}

#[derive(Debug)]
pub enum ResponderStep {
    NeedMore,
    Failed(PeerFault),
    Negotiated(Negotiated),
}

/// What the bytes behind the initiator's public key amount to.
pub enum ResponderOutcome {
    NeedMore,
    Failed(PeerFault),
    Negotiated { known: KnownInfoHash, select: u32, request: Request },
}

/// What the bytes behind the initiator's public key amount to, where its mark first stands at
/// `found`.
pub open spec fn responder_outcome(
    secret: Seq<u8>,
    known: Seq<KnownInfoHash>,
    policy: EncryptionPolicy,
    received: Seq<u8>,
    found: Option<usize>,
) -> ResponderOutcome {
    match found {
        None => if received.len() > REQ1_WINDOW {
            ResponderOutcome::Failed(PeerFault::Req1NotFound)
        } else {
            ResponderOutcome::NeedMore
        },
        Some(off) => if received.len() < off + 40 {
            ResponderOutcome::NeedMore
        } else {
            let wanted = xor_bytes(
                received.subrange(off + 20, off + 40),
                sha1_digest(tag_req3() + secret),
            );
            match resolve(known, wanted) {
                None => ResponderOutcome::Failed(PeerFault::UnknownInfoHashInMse),
                Some(k) => match read_request(
                    cipher_a(secret, k.info_hash@),
                    received.skip(off + 40),
                ) {
                    Opening::NeedMore => ResponderOutcome::NeedMore,
                    Opening::Failed(f) => ResponderOutcome::Failed(f),
                    Opening::Complete(request) => match picked(request.provide, policy) {
                        None => ResponderOutcome::Failed(
                            PeerFault::NoAcceptableCrypto(request.provide),
                        ),
                        Some(select) => ResponderOutcome::Negotiated { known: k, select, request },
                    },
                },
            }
        },
    }
}

/// What is sent to an initiator: the reply, and our handshake `h` where it is greeted.
pub open spec fn reply_bytes(
    secret: Seq<u8>,
    known: KnownInfoHash,
    select: u32,
    request: Request,
    pad_d: Seq<u8>,
    h: Handshake,
) -> Seq<u8> {
    let cipher = cipher_b(secret, known.info_hash@);
    let reply = applied(cipher, responder_payload(select, pad_d));
    if !greets(request.ia, known.info_hash@) {
        reply
    } else if select == crypto::RC4 {
        reply + applied(advanced(cipher, reply.len()), handshake_bytes(h))
    } else {
        reply + handshake_bytes(h)
    }
}

/// True when the step says what the outcome is.
pub open spec fn response_matches(
    step: ResponderStep,
    outcome: ResponderOutcome,
    secret: Seq<u8>,
    our_peer_id: Id20,
    pad_d: Seq<u8>,
) -> bool {
    match outcome {
        ResponderOutcome::NeedMore => step is NeedMore,
        ResponderOutcome::Failed(f) => step matches ResponderStep::Failed(g) && f == g,
        ResponderOutcome::Negotiated { known, select, request } => {
            &&& step matches ResponderStep::Negotiated(n)
            &&& exists|h: Handshake| #[trigger]
                served_handshake(known, our_peer_id, h) && n.send@ == reply_bytes(
                    secret,
                    known,
                    select,
                    request,
                    pad_d,
                    h,
                )
            &&& match judge(request.ia, known.info_hash@, select == crypto::RC4) {
                Verdict::Refused(f) => n.verdict == Err::<Accepted, PeerFault>(f),
                Verdict::Deferred => {
                    &&& n.verdict matches Ok(a)
                    &&& a.remote is None
                    &&& a.extra@ == Seq::<u8>::empty()
                    &&& accepted_rest(a, known, select, request, secret, pad_d)
                },
                Verdict::Greeted { area, info_hash, peer_id, extra } => {
                    &&& n.verdict matches Ok(a)
                    &&& a.remote matches Some(remote)
                    &&& remote.reserved@ == area
                    &&& remote.info_hash@ == info_hash
                    &&& remote.peer_id@ == peer_id
                    &&& a.extra@ == extra
                    &&& accepted_rest(a, known, select, request, secret, pad_d)
                },
            }
        },
    }
}

/// True when the remaining bytes and the ciphers are those behind what was read and sent.
pub open spec fn accepted_rest(
    a: Accepted,
    known: KnownInfoHash,
    select: u32,
    request: Request,
    secret: Seq<u8>,
    pad_d: Seq<u8>,
) -> bool {
    &&& a.known == known
    &&& a.rest@ == request.leftover
    &&& match a.ciphers {
        None => select != crypto::RC4,
        Some(c) => select == crypto::RC4 && c.reader.wf() && c.writer.wf() && c.reader@ == advanced(
            cipher_a(secret, known.info_hash@),
            request.read,
        ) && c.writer@ == advanced(
            cipher_b(secret, known.info_hash@),
            responder_payload(select, pad_d).len() + HANDSHAKE_LEN as nat,
        ),
    }
}

/// The responder behind its public key: it waits for the initiator's answer.
#[derive(Debug)]
pub struct Responder {
    our_peer_id: Id20,
    policy: EncryptionPolicy,
    known: Vec<KnownInfoHash>,
    secret: [u8; DH_LEN],
    pad_d: Vec<u8>,
    scanner: Scanner,
}

fn find_known(known: &Vec<KnownInfoHash>, wanted: &[u8; 20]) -> (r: Option<KnownInfoHash>)
    ensures
        r == resolve(known@, wanted@),
{
    let mut i: usize = 0;
    assert(known@.skip(0) =~= known@);
    while i < known.len()
        invariant
            i <= known.len(),
            resolve(known@, wanted@) == resolve(known@.skip(i as int), wanted@),
        decreases known.len() - i,
    {
        let name = req2(&known[i].info_hash.0);
        assert(known@.skip(i as int).drop_first() =~= known@.skip(i + 1));
        assert(known@.skip(i as int)[0] == known@[i as int]);
        if same_bytes(name.as_slice(), wanted.as_slice()) {
            return Some(known[i]);
        }
        i += 1;
    }
    None
}

impl Responder {
    pub closed spec fn our_peer_id(self) -> Id20 {
        self.our_peer_id
    }

    pub closed spec fn policy(self) -> EncryptionPolicy {
        self.policy
    }

    pub closed spec fn known(self) -> Seq<KnownInfoHash> {
        self.known@
    }

    pub closed spec fn secret(self) -> Seq<u8> {
        self.secret@
    }

    pub closed spec fn pad_d(self) -> Seq<u8> {
        self.pad_d@
    }

    pub closed spec fn received(self) -> Seq<u8> {
        self.scanner@.received
    }

    /// Where the initiator's mark first stands.
    pub closed spec fn found(self) -> Option<usize> {
        self.scanner@.found
    }

    /// True of every responder: it looks for the mark that ends the initiator's padding, and its
    /// own padding can be announced.
    pub closed spec fn wf(self) -> bool {
        &&& self.scanner.wf()
        &&& self.scanner@.mark == sha1_digest(tag_req1() + self.secret())
        &&& self.pad_d.len() <= u16::MAX
    }

    /// Where the initiator's mark was found is the first place at which it stands, and it was
    /// found where it stands at all; the padding can be announced.
    pub proof fn the_mark_is_found(self)
        requires
            self.wf(),
        ensures
            first_occurrence(
                self.received(),
                sha1_digest(tag_req1() + self.secret()),
                0,
                self.found(),
            ),
            self.pad_d().len() <= u16::MAX,
    {
    }

    pub open spec fn outcome(self) -> ResponderOutcome {
        responder_outcome(
            self.secret(),
            self.known(),
            self.policy(),
            self.received(),
            self.found(),
        )
    }

    /// Agree on a secret with the initiator of that public key.
    pub fn begin(
        our_peer_id: Id20,
        policy: EncryptionPolicy,
        known: Vec<KnownInfoHash>,
        keys: &DhKeys,
        peer_public: &[u8; DH_LEN],
        pad_d: Vec<u8>,
    ) -> (r: Result<Self, PeerFault>)
        ensures
            ({
                let y = be_value(peer_public@);
                if y <= 1 || y >= prime() - 1 {
                    r == Err::<Self, PeerFault>(PeerFault::InvalidPublicKey)
                } else if pad_d.len() > u16::MAX {
                    r == Err::<Self, PeerFault>(
                        PeerFault::Payload(MseError::PadTooLarge(pad_d.len() as u16)),
                    )
                } else {
                    &&& r matches Ok(s)
                    &&& s.wf()
                    &&& s.our_peer_id() == our_peer_id
                    &&& s.policy() == policy
                    &&& s.known() == known@
                    &&& s.pad_d() == pad_d@
                    &&& s.secret().len() == DH_LEN
                    &&& be_value(s.secret()) == shared_value(be_value(keys.private@), y)
                    &&& s.received() == Seq::<u8>::empty()
                    &&& s.found() is None
                }
            }),
    {
        let secret = match keys.shared_secret(peer_public) {
            Err(_) => {
                return Err(PeerFault::InvalidPublicKey);
            },
            Ok(s) => s,
        };
        if pad_d.len() > u16::MAX as usize {
            return Err(PeerFault::Payload(MseError::PadTooLarge(pad_d.len() as u16)));
        }
        let mark = req1(&secret);
        let scanner = Scanner::new(mark.as_slice());
        Ok(Responder { our_peer_id, policy, known, secret, pad_d, scanner })
    }

    /// Take in bytes that came behind the initiator's public key.
    pub fn on_bytes(&mut self, chunk: &[u8]) -> (r: ResponderStep)
        requires
            old(self).wf(),
        ensures
            final(self).wf(),
            final(self).our_peer_id() == old(self).our_peer_id(),
            final(self).policy() == old(self).policy(),
            final(self).known() == old(self).known(),
            final(self).secret() == old(self).secret(),
            final(self).pad_d() == old(self).pad_d(),
            final(self).received() == old(self).received() + chunk@,
            first_occurrence(
                final(self).received(),
                sha1_digest(tag_req1() + old(self).secret()),
                0,
                final(self).found(),
            ),
            response_matches(
                r,
                final(self).outcome(),
                old(self).secret(),
                old(self).our_peer_id(),
                old(self).pad_d(),
            ),
    {
        self.scanner.feed(chunk);
        let received = self.scanner.received();
        let off: usize = match self.scanner.found() {
            None => {
                if received.len() > REQ1_WINDOW {
                    return ResponderStep::Failed(PeerFault::Req1NotFound);
                }
                return ResponderStep::NeedMore;
            },
            Some(off) => off,
        };
        if received.len() - off < 40 {
            return ResponderStep::NeedMore;
        }
        let masked = array_from::<20>(&received.as_slice()[off + 20..off + 40]);
        assert(masked@ =~= self.received().subrange(off + 20, off + 40));
        let wanted = xor20(&masked, &req3(&self.secret));
        let known = match find_known(&self.known, &wanted) {
            None => {
                return ResponderStep::Failed(PeerFault::UnknownInfoHashInMse);
            },
            Some(k) => k,
        };
        let enc = copy_range(received.as_slice(), off + 40, received.len());
        assert(enc@ =~= self.received().skip(off + 40));
        self.open_request(known, &enc)
    }

    fn opened(&self, skey: &[u8; 20], enc: &Vec<u8>, n: usize) -> (r: Vec<u8>)
        requires
            n <= enc.len(),
        ensures
            r@ == applied(cipher_a(self.secret(), skey@), enc@.take(n as int)),
            r.len() == n,
    {
        let mut reader = stream_a(&self.secret, skey);
        assert(enc@.subrange(0, n as int) =~= enc@.take(n as int));
        crypt(&mut reader, &enc.as_slice()[0..n])
    }

    fn open_request(&self, known: KnownInfoHash, enc: &Vec<u8>) -> (r: ResponderStep)
        requires
            self.wf(),
        ensures
            response_matches(
                r,
                match read_request(cipher_a(self.secret(), known.info_hash@), enc@) {
                    Opening::NeedMore => ResponderOutcome::NeedMore,
                    Opening::Failed(f) => ResponderOutcome::Failed(f),
                    Opening::Complete(request) => match picked(request.provide, self.policy()) {
                        None => ResponderOutcome::Failed(
                            PeerFault::NoAcceptableCrypto(request.provide),
                        ),
                        Some(select) => ResponderOutcome::Negotiated { known, select, request },
                    },
                },
                self.secret(),
                self.our_peer_id(),
                self.pad_d(),
            ),
    {
        let skey = known.info_hash.0;
        if enc.len() < 14 {
            return ResponderStep::NeedMore;
        }
        let head = self.opened(&skey, enc, 14);
        let zeros = verification_constant();
        assert(head@.subrange(0, 8) =~= head@.take(8));
        if !same_bytes(&head.as_slice()[0..8], zeros.as_slice()) {
            return ResponderStep::Failed(PeerFault::VcMismatch);
        }
        let provide: u32 = read_u32(head.as_slice(), 8);
        let pad: usize = read_u16(head.as_slice(), 12) as usize;
        if pad > MAX_PAD {
            return ResponderStep::Failed(PeerFault::PadCTooLong);
        }
        let ia_off: usize = 16 + pad;
        if enc.len() < ia_off {
            return ResponderStep::NeedMore;
        }
        let mid = self.opened(&skey, enc, ia_off);
        let ia_len: usize = read_u16(mid.as_slice(), 14 + pad) as usize;
        if ia_len > MAX_IA {
            return ResponderStep::Failed(PeerFault::IaTooLong);
        }
        let end: usize = ia_off + ia_len;
        if enc.len() < end {
            return ResponderStep::NeedMore;
        }
        let whole = self.opened(&skey, enc, end);
        let ia = copy_range(whole.as_slice(), ia_off, end);
        assert(ia@ =~= whole@.skip(ia_off as int));
        let rest = copy_range(enc.as_slice(), end, enc.len());
        assert(rest@ =~= enc@.skip(end as int));
        let select: u32 = if provide & crypto::RC4 != 0 {
            crypto::RC4
        } else if self.policy != EncryptionPolicy::RequireEncryption && provide & crypto::PLAINTEXT
            != 0 {
            crypto::PLAINTEXT
        } else {
            return ResponderStep::Failed(PeerFault::NoAcceptableCrypto(provide));
        };
        let ghost request = Request {
            provide,
            ia: ia@,
            read: end as nat,
            leftover: enc@.skip(end as int),
        };
        assert(read_request(cipher_a(self.secret(), known.info_hash@), enc@) == Opening::Complete(
            request,
        ));
        self.negotiate(known, select, &ia, rest, end, Ghost(request))
    }

    fn negotiate(
        &self,
        known: KnownInfoHash,
        select: u32,
        ia: &Vec<u8>,
        rest: Vec<u8>,
        read: usize,
        Ghost(request): Ghost<Request>,
    ) -> (r: ResponderStep)
        requires
            self.wf(),
            request.ia == ia@,
            request.read == read,
            request.leftover == rest@,
            read <= 200_000,
            select == crypto::RC4 || select == crypto::PLAINTEXT,
        ensures
            response_matches(
                r,
                ResponderOutcome::Negotiated { known, select, request },
                self.secret(),
                self.our_peer_id(),
                self.pad_d(),
            ),
    {
        let skey = known.info_hash.0;
        let mut writer = stream_b(&self.secret, &skey);
        let ghost cipher = writer@;
        let hello = Handshake::new_with_features(
            known.info_hash,
            self.our_peer_id,
            known.advertise_v2,
            known.advertise_dht,
            true,
        );
        proof {
            assert(served_handshake(known, self.our_peer_id, hello));
        }
        let payload = match build_responder_payload(select, self.pad_d.as_slice()) {
            Err(e) => {
                return ResponderStep::Failed(PeerFault::Payload(e));
            },
            Ok(p) => p,
        };
        let mut send = crypt(&mut writer, payload.as_slice());
        let mut remote: Option<Handshake> = None;
        let mut extra: Vec<u8> = Vec::new();
        if ia.len() > 0 {
            if ia.len() < HANDSHAKE_LEN {
                return ResponderStep::Negotiated(
                    Negotiated { send, verdict: Err(PeerFault::IaTooShort) },
                );
            }
            let bytes = array_from::<HANDSHAKE_LEN>(ia.as_slice());
            match Handshake::parse(&bytes) {
                Err(e) => {
                    return ResponderStep::Negotiated(
                        Negotiated { send, verdict: Err(PeerFault::BadHandshake(e)) },
                    );
                },
                Ok(h) => {
                    if h.info_hash != known.info_hash {
                        assert(h.info_hash@ != known.info_hash@) by {
                            if h.info_hash@ == known.info_hash@ {
                                assert(h.info_hash.0 =~= known.info_hash.0);
                            }
                        }
                        return ResponderStep::Negotiated(
                            Negotiated { send, verdict: Err(PeerFault::InfoHashMismatchInIa) },
                        );
                    }
                    remote = Some(h);
                },
            }
            extra = copy_range(ia.as_slice(), HANDSHAKE_LEN, ia.len());
            assert(extra@ =~= ia@.skip(68));
        }
        assert(greets(request.ia, known.info_hash@));
        let hello_bytes = hello.to_bytes();
        if select == crypto::RC4 {
            let sealed = crypt(&mut writer, hello_bytes.as_slice());
            proof {
                applying_in_pieces(cipher, payload@, hello_bytes@);
                assert(send@.len() == payload.len());
            }
            send.extend_from_slice(sealed.as_slice());
            assert(send@ =~= reply_bytes(
                self.secret(),
                known,
                select,
                request,
                self.pad_d(),
                hello,
            ));
            let mut reader = stream_a(&self.secret, &skey);
            crate::peer::initiator::skip_stream(&mut reader, read);
            let ciphers = Some(Ciphers { reader, writer });
            ResponderStep::Negotiated(
                Negotiated { send, verdict: Ok(Accepted { known, remote, extra, rest, ciphers }) },
            )
        } else {
            send.extend_from_slice(hello_bytes.as_slice());
            assert(send@ =~= reply_bytes(
                self.secret(),
                known,
                select,
                request,
                self.pad_d(),
                hello,
            ));
            if remote.is_none() {
                return ResponderStep::Negotiated(
                    Negotiated { send, verdict: Err(PeerFault::EmptyIaWithPlaintext) },
                );
            }
            ResponderStep::Negotiated(
                Negotiated {
                    send,
                    verdict: Ok(Accepted { known, remote, extra, rest, ciphers: None }),
                },
            )
        }
    }
}

/// Read the handshake that an initiator sent on the encrypted stream, decrypted.
pub fn deferred_handshake(known: &KnownInfoHash, bytes: &[u8; HANDSHAKE_LEN]) -> (r: Result<
    Handshake,
    PeerFault,
>)
    ensures
        match parse_handshake(bytes@) {
            Err(e) => r == Err::<Handshake, PeerFault>(PeerFault::BadHandshake(e)),
            Ok((area, info_hash, peer_id)) => if info_hash != known.info_hash@ {
                r == Err::<Handshake, PeerFault>(PeerFault::InfoHashMismatchDeferred)
            } else {
                r matches Ok(h) && h.reserved@ == area && h.info_hash@ == info_hash && h.peer_id@
                    == peer_id
            },
        },
{
    match Handshake::parse(bytes) {
        Err(e) => Err(PeerFault::BadHandshake(e)),
        Ok(h) => if h.info_hash != known.info_hash {
            assert(h.info_hash@ != known.info_hash@) by {
                if h.info_hash@ == known.info_hash@ {
                    assert(h.info_hash.0 =~= known.info_hash.0);
                }
            }
            Err(PeerFault::InfoHashMismatchDeferred)
        } else {
            Ok(h)
        },
    }
}

/// Of what is offered the cipher is picked, else plain text unless encryption is required, else
/// nothing.
pub proof fn which_crypto_is_picked(provide: u32, policy: EncryptionPolicy)
    ensures
        provide / 2 % 2 == 1 ==> picked(provide, policy) == Some(2u32),
        provide / 2 % 2 == 0 && provide % 2 == 1 && !(policy is RequireEncryption) ==> picked(
            provide,
            policy,
        ) == Some(1u32),
        provide / 2 % 2 == 0 && (provide % 2 == 0 || policy is RequireEncryption) ==> picked(
            provide,
            policy,
        ) is None,
{
    assert((provide & 2u32 != 0) == (provide / 2 % 2 == 1) && (provide & 1u32 != 0) == (provide % 2
        == 1)) by (bit_vector);
}

/// The torrent that is meant is the first whose obfuscated name is the one that was sent.
pub proof fn which_torrent_is_meant(known: Seq<KnownInfoHash>, wanted: Seq<u8>)
    ensures
        resolve(known, wanted) is Some <==> exists|i: int|
            0 <= i < known.len() && sha1_digest(tag_req2() + (#[trigger] known[i]).info_hash@)
                == wanted,
        resolve(known, wanted) matches Some(k) ==> known.contains(k) && sha1_digest(
            tag_req2() + k.info_hash@,
        ) == wanted,
    decreases known.len(),
{
    if known.len() > 0 {
        let rest = known.drop_first();
        which_torrent_is_meant(rest, wanted);
        if sha1_digest(tag_req2() + known[0].info_hash@) == wanted {
            assert(known.contains(known[0]));
        } else {
            if let Some(k) = resolve(rest, wanted) {
                let j = choose|j: int| 0 <= j < rest.len() && rest[j] == k;
                assert(known[j + 1] == k);
            }
            if exists|i: int|
                0 <= i < known.len() && sha1_digest(tag_req2() + (#[trigger] known[i]).info_hash@)
                    == wanted {
                let i = choose|i: int|
                    0 <= i < known.len() && sha1_digest(
                        tag_req2() + (#[trigger] known[i]).info_hash@,
                    ) == wanted;
                assert(rest[i - 1] == known[i]);
            }
        }
    }
}

/// The payload that comes with a request is accepted where it begins with a handshake for the
/// torrent that was meant; it may be missing where the stream stays encrypted, and what stands
/// behind the handshake is kept.
pub proof fn which_payloads_are_accepted(ia: Seq<u8>, skey: Seq<u8>, encrypted: bool)
    ensures
        judge(ia, skey, encrypted) is Deferred <==> ia.len() == 0 && encrypted,
        judge(ia, skey, encrypted) is Greeted <==> ia.len() >= 68 && (parse_handshake(
            ia.take(68),
        ) matches Ok(x) && x.1 == skey),
        judge(ia, skey, encrypted) matches Verdict::Greeted { info_hash, extra, .. } ==> info_hash
            == skey && extra == ia.skip(68),
        0 < ia.len() < 68 ==> judge(ia, skey, encrypted) == Verdict::Refused(PeerFault::IaTooShort),
        ia.len() == 0 && !encrypted ==> judge(ia, skey, encrypted) == Verdict::Refused(
            PeerFault::EmptyIaWithPlaintext,
        ),
        greets(ia, skey) <==> ia.len() == 0 || judge(ia, skey, true) is Greeted,
{
}

} // verus!
