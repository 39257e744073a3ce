//! The obfuscated handshake of the side that connects.

use vstd::prelude::*;

use crate::be::{read_u16, read_u32, of_be16, of_be32};
use crate::bencode::copy_range;
use crate::meta::hash::{array_from, sha1_digest, xor_bytes, Id20};
use crate::peer::connection::{EncryptionPolicy, PeerFault};
use crate::peer::scanner::Scanner;
use crate::wire::handshake::{handshake_bytes, parse_handshake, Handshake, HANDSHAKE_LEN};
use crate::wire::mse::{
    be_value, build_initiator_payload, crypto, first_occurrence, init_rc4, initiator_payload, prime,
    rc4_key, req1, req2, req3, shared_value, tag_key_a, tag_key_b, tag_req1, tag_req2, tag_req3,
    xor20, DhKeys, MseError, MseRc4, DH_LEN,
};
use crate::wire::rc4::{advanced, applied, applying_in_pieces, initial, keystream, Rc4State};

verus! {

/// How many bytes behind the peer's public key are searched for the start of its encrypted
/// stream.
pub const MAX_SCAN: usize = 1100;

/// The longest padding that a peer may announce.
pub const MAX_PAD: usize = 512;

/// The cipher of the initiator's stream, at its start.
pub open spec fn cipher_a(secret: Seq<u8>, skey: Seq<u8>) -> Rc4State {
    advanced(initial(sha1_digest(tag_key_a() + secret + skey)), 1024)
}

/// The cipher of the responder's stream, at its start.
pub open spec fn cipher_b(secret: Seq<u8>, skey: Seq<u8>) -> Rc4State {
    advanced(initial(sha1_digest(tag_key_b() + secret + skey)), 1024)
}

/// What the initiator offers: the cipher always, plaintext where the policy allows it.
pub open spec fn offered(policy: EncryptionPolicy) -> u32 {
    if policy is RequireEncryption {
        2
    } else {
        3
    }
}

/// The message by which either side opens the exchange: its public key and padding.
pub fn opening_message(keys: &DhKeys, pad: &[u8]) -> (r: Vec<u8>)
    ensures
        r@ == keys.public_be@ + pad@,
{
    let mut out: Vec<u8> = Vec::new();
    out.extend_from_slice(keys.public_be.as_slice());
    out.extend_from_slice(pad);
    assert(out@ =~= keys.public_be@ + pad@);
    out
}

/// The initiator's answer to the responder's public key.
pub open spec fn answer(
    secret: Seq<u8>,
    skey: Seq<u8>,
    provide: u32,
    pad_c: Seq<u8>,
    ia: Seq<u8>,
) -> Seq<u8> {
    sha1_digest(tag_req1() + secret) + xor_bytes(
        sha1_digest(tag_req2() + skey),
        sha1_digest(tag_req3() + secret),
    ) + applied(cipher_a(secret, skey), initiator_payload(provide, pad_c, ia))
}

/// What the initiator brings to a connection.
#[derive(Clone, Copy, Debug)]
pub struct Dial {
    pub info_hash: Id20,
    pub our_peer_id: Id20,
    pub encryption: EncryptionPolicy,
    pub advertise_v2: bool,
    pub advertise_dht: bool,
}

/// True of the handshake that a dial sends.
pub open spec fn dial_handshake(dial: Dial, h: Handshake) -> bool {
    h.announces(dial.info_hash, dial.our_peer_id, dial.advertise_v2, dial.advertise_dht, true)
}

/// How the bytes of the two directions are obfuscated from here on.
#[derive(Debug)]
pub struct Ciphers {
    pub reader: MseRc4,
    pub writer: MseRc4,
}

/// A connection whose handshakes are complete.
#[derive(Debug)]
pub struct Established {
    pub remote: Handshake,
    /// Where the connection stays encrypted.
    pub ciphers: Option<Ciphers>,
    /// What has arrived behind the peer's handshake, as it came.
    pub rest: Vec<u8>,
}

#[derive(Debug)]
pub enum InitiatorStep {
    NeedMore,
    Failed(PeerFault),
    Established(Established),
}

/// What the bytes behind the peer's public key amount to.
pub enum InitiatorOutcome {
    NeedMore,
    Failed(PeerFault),
    Established {
        area: Seq<u8>,
        info_hash: Seq<u8>,
        peer_id: Seq<u8>,
        encrypted: bool,
        read: nat,
        rest: Seq<u8>,
    },
}

/// True when the peer keeps the cipher; an error where it chooses what it may not.
pub open spec fn chosen(select: u32, policy: EncryptionPolicy) -> Result<bool, PeerFault> {
    if select & crypto::RC4 != 0 {
        Ok(true)
    } else if select & crypto::PLAINTEXT != 0 {
        if policy is RequireEncryption {
            Err(PeerFault::PlaintextSelected)
        } else {
            Ok(false)
        }
    } else {
        Err(PeerFault::UnsupportedSelect(select))
    }
}

/// What the responder's encrypted stream amounts to, from its start.
pub open spec fn read_reply(
    cipher: Rc4State,
    skey: Seq<u8>,
    policy: EncryptionPolicy,
    tail: Seq<u8>,
) -> InitiatorOutcome {
    let head = applied(cipher, tail.take(14));
    let select = of_be32(head.skip(8));
    let pad = of_be16(head.skip(12)) as int;
    let leftover = tail.skip(14 + pad);
    if tail.len() < 14 {
        InitiatorOutcome::NeedMore
    } else if pad > MAX_PAD {
        InitiatorOutcome::Failed(PeerFault::PadDTooLong)
    } else if tail.len() < 14 + pad {
        InitiatorOutcome::NeedMore
    } else {
        match chosen(select, policy) {
            Err(f) => InitiatorOutcome::Failed(f),
            Ok(encrypted) => if leftover.len() < HANDSHAKE_LEN {
                InitiatorOutcome::NeedMore
            } else {
                let raw = leftover.take(68);
                let plain = if encrypted {
                    applied(advanced(cipher, (14 + pad) as nat), raw)
                } else {
                    raw
                };
                match parse_handshake(plain) {
                    Err(e) => InitiatorOutcome::Failed(PeerFault::BadHandshake(e)),
                    Ok((area, info_hash, peer_id)) => if info_hash != skey {
                        InitiatorOutcome::Failed(PeerFault::InfoHashMismatchAfterMse)
                    } else {
                        InitiatorOutcome::Established {
                            area,
                            info_hash,
                            peer_id,
                            encrypted,
                            read: (14 + pad + 68) as nat,
                            rest: leftover.skip(68),
                        }
                    },
                }
            },
        }
    }
}

/// What the bytes behind the peer's public key amount to, where its stream first seems to start
/// at `found`.
pub open spec fn initiator_outcome(
    secret: Seq<u8>,
    skey: Seq<u8>,
    policy: EncryptionPolicy,
    received: Seq<u8>,
    found: Option<usize>,
) -> InitiatorOutcome {
    match found {
        None => if received.len() >= MAX_SCAN {
            InitiatorOutcome::Failed(PeerFault::VcNotFound)
        } else {
            InitiatorOutcome::NeedMore
        },
        Some(off) => read_reply(
            cipher_b(secret, skey),
            skey,
            policy,
            received.skip(off as int),
        ),
    }
}

/// True when the step says what the outcome is.
pub open spec fn step_matches(
    step: InitiatorStep,
    outcome: InitiatorOutcome,
    reader: Rc4State,
    writer: Rc4State,
) -> bool {
    match outcome {
        InitiatorOutcome::NeedMore => step is NeedMore,
        InitiatorOutcome::Failed(f) => step matches InitiatorStep::Failed(g) && f == g,
        InitiatorOutcome::Established { area, info_hash, peer_id, encrypted, read, rest } => {
            &&& step matches InitiatorStep::Established(e)
            &&& e.remote.reserved@ == area
            &&& e.remote.info_hash@ == info_hash
            &&& e.remote.peer_id@ == peer_id
            &&& e.rest@ == rest
            &&& match e.ciphers {
                None => !encrypted,
                Some(c) => encrypted && c.reader.wf() && c.writer.wf() && c.reader@ == advanced(
                    reader,
                    read,
                ) && c.writer@ == writer,
            }
        },
    }
}

/// The initiator behind its answer: it waits for the responder's encrypted stream.
#[derive(Debug)]
pub struct Initiator {
    dial: Dial,
    secret: [u8; DH_LEN],
    scanner: Scanner,
    sent: usize,
}

/// `plain` under the stream of the cipher.
pub fn crypt(cipher: &mut MseRc4, plain: &[u8]) -> (r: Vec<u8>)
    requires
        old(cipher).wf(),
    ensures
        final(cipher).wf(),
        final(cipher)@ == advanced(old(cipher)@, plain.len() as nat),
        r@ == applied(old(cipher)@, plain@),
{
    let mut out = copy_range(plain, 0, plain.len());
    assert(out@ =~= plain@);
    cipher.apply_keystream(out.as_mut_slice());
    out
}

/// The cipher of the initiator's stream.
pub fn stream_a(secret: &[u8; DH_LEN], skey: &[u8; 20]) -> (r: MseRc4)
    ensures
        r.wf(),
        r@ == cipher_a(secret@, skey@),
{
    let tag = [107u8, 101, 121, 65];
    assert(tag@ =~= tag_key_a());
    init_rc4(&rc4_key(&tag, secret, skey))
}

/// The cipher of the responder's stream.
pub fn stream_b(secret: &[u8; DH_LEN], skey: &[u8; 20]) -> (r: MseRc4)
    ensures
        r.wf(),
        r@ == cipher_b(secret@, skey@),
{
    let tag = [107u8, 101, 121, 66];
    assert(tag@ =~= tag_key_b());
    init_rc4(&rc4_key(&tag, secret, skey))
}

impl Initiator {
    pub closed spec fn dial(self) -> Dial {
        self.dial
    }

    pub closed spec fn secret(self) -> Seq<u8> {
        self.secret@
    }

    pub closed spec fn received(self) -> Seq<u8> {
        self.scanner@.received
    }

    /// Where the responder's stream first seems to start.
    pub closed spec fn found(self) -> Option<usize> {
        self.scanner@.found
    }

    /// How many bytes of its own stream the initiator has used.
    pub closed spec fn sent(self) -> nat {
        self.sent as nat
    }

    /// True of every initiator: it looks for the first eight bytes of the responder's stream.
    pub closed spec fn wf(self) -> bool {
        &&& self.scanner.wf()
        &&& self.scanner@.mark == keystream(cipher_b(self.secret(), self.dial().info_hash@), 8)
        &&& self.sent <= 200_000
    }

    /// Where the responder's stream was found is the first place at which its first eight bytes
    /// stand, and it was found where they stand at all.
    pub proof fn the_stream_is_found(self)
        requires
            self.wf(),
        ensures
            first_occurrence(
                self.received(),
                keystream(cipher_b(self.secret(), self.dial().info_hash@), 8),
                0,
                self.found(),
            ),
            self.sent() <= 200_000,
    {
    }

    /// What the initiator makes of what has arrived.
    pub open spec fn outcome(self) -> InitiatorOutcome {
        initiator_outcome(
            self.secret(),
            self.dial().info_hash@,
            self.dial().encryption,
            self.received(),
            self.found(),
        )
    }

    /// Answer the responder's public key; the second result is what to send.
    #[verifier::rlimit(40)]
    #[verifier::spinoff_prover]
    pub fn begin(dial: Dial, keys: &DhKeys, peer_public: &[u8; DH_LEN], pad_c: &[u8]) -> (r: Result<
        (Self, Vec<u8>),
        PeerFault,
    >)
        ensures
            ({
                let y = be_value(peer_public@);
                if y <= 1 || y >= prime() - 1 {
                    r == Err::<(Self, Vec<u8>), PeerFault>(PeerFault::InvalidPublicKey)
                } else if pad_c.len() > u16::MAX {
                    r == Err::<(Self, Vec<u8>), PeerFault>(
                        PeerFault::Payload(MseError::PadTooLarge(pad_c.len() as u16)),
                    )
                } else {
                    &&& r matches Ok((i, message))
                    &&& i.wf()
                    &&& i.dial() == dial
                    &&& i.secret().len() == DH_LEN
                    &&& be_value(i.secret()) == shared_value(be_value(keys.private@), y)
                    &&& i.received() == Seq::<u8>::empty()
                    &&& i.found() is None
                    &&& i.sent() == 16 + pad_c.len() + HANDSHAKE_LEN
                    &&& exists|h: Handshake| #[trigger]
                        dial_handshake(dial, h) && message@ == answer(
                            i.secret(),
                            dial.info_hash@,
                            offered(dial.encryption),
                            pad_c@,
                            handshake_bytes(h),
                        )
                }
            }),
    {
        let secret = match keys.shared_secret(peer_public) {
            Err(_) => {
                return Err(PeerFault::InvalidPublicKey);
            },
            Ok(s) => s,
        };
        let skey = dial.info_hash.0;
        let mut enc_out = stream_a(&secret, &skey);
        let mut dec_in = stream_b(&secret, &skey);
        let mark1 = req1(&secret);
        let mark2 = req2(&skey);
        let mark3 = req3(&secret);
        let mark23 = xor20(&mark2, &mark3);
        let mut provide: u32 = crypto::RC4;
        if dial.encryption != EncryptionPolicy::RequireEncryption {
            provide = provide | crypto::PLAINTEXT;
        }
        assert(2u32 | 1u32 == 3) by (bit_vector);
        let hello = Handshake::new_with_features(
            dial.info_hash,
            dial.our_peer_id,
            dial.advertise_v2,
            dial.advertise_dht,
            true,
        );
        let hello_bytes = hello.to_bytes();
        let payload = match build_initiator_payload(provide, pad_c, hello_bytes.as_slice()) {
            Err(e) => {
                return Err(PeerFault::Payload(e));
            },
            Ok(p) => p,
        };
        let sealed = crypt(&mut enc_out, payload.as_slice());
        let mut message: Vec<u8> = Vec::new();
        message.extend_from_slice(mark1.as_slice());
        message.extend_from_slice(mark23.as_slice());
        message.extend_from_slice(sealed.as_slice());
        let zeros = [0u8; 8];
        let needle = crypt(&mut dec_in, zeros.as_slice());
        proof {
            let b = cipher_b(secret@, skey@);
            let k = keystream(b, 8);
            assert forall|n: int| 0 <= n < 8 implies #[trigger] needle@[n] == k[n] by {
                let x = k[n];
                assert(0u8 ^ x == x) by (bit_vector);
                assert(zeros@[n] == 0u8);
            }
            assert(needle@ =~= k);
            assert(message@ =~= answer(
                secret@,
                dial.info_hash@,
                offered(dial.encryption),
                pad_c@,
                handshake_bytes(hello),
            ));
            assert(dial_handshake(dial, hello));
        }
        let scanner = Scanner::new(needle.as_slice());
        let sent: usize = payload.len();
        Ok((Initiator { dial, secret, scanner, sent }, message))
    }

    /// Take in bytes that came behind the responder's public key.
    pub fn on_bytes(&mut self, chunk: &[u8]) -> (r: InitiatorStep)
        requires
            old(self).wf(),
        ensures
            final(self).wf(),
            final(self).dial() == old(self).dial(),
            final(self).secret() == old(self).secret(),
            final(self).sent() == old(self).sent(),
            final(self).received() == old(self).received() + chunk@,
            first_occurrence(
                final(self).received(),
                keystream(cipher_b(old(self).secret(), old(self).dial().info_hash@), 8),
                0,
                final(self).found(),
            ),
            step_matches(
                r,
                final(self).outcome(),
                cipher_b(old(self).secret(), old(self).dial().info_hash@),
                advanced(
                    cipher_a(old(self).secret(), old(self).dial().info_hash@),
                    old(self).sent(),
                ),
            ),
    {
        self.scanner.feed(chunk);
        let received = self.scanner.received();
        match self.scanner.found() {
            None => if received.len() >= MAX_SCAN {
                InitiatorStep::Failed(PeerFault::VcNotFound)
            } else {
                InitiatorStep::NeedMore
            },
            Some(off) => {
                let tail = copy_range(received.as_slice(), off, received.len());
                assert(tail@ =~= self.received().skip(off as int));
                self.open_reply(&tail)
            },
        }
    }

    fn open_reply(&self, tail: &Vec<u8>) -> (r: InitiatorStep)
        requires
            self.wf(),
        ensures
            step_matches(
                r,
                read_reply(
                    cipher_b(self.secret(), self.dial().info_hash@),
                    self.dial().info_hash@,
                    self.dial().encryption,
                    tail@,
                ),
                cipher_b(self.secret(), self.dial().info_hash@),
                advanced(cipher_a(self.secret(), self.dial().info_hash@), self.sent()),
            ),
    {
        let skey = self.dial.info_hash.0;
        let mut reader = stream_b(&self.secret, &skey);
        let ghost start = reader@;
        if tail.len() < 14 {
            return InitiatorStep::NeedMore;
        }
        let head = crypt(&mut reader, &tail.as_slice()[0..14]);
        assert(tail@.subrange(0, 14) =~= tail@.take(14));
        let select: u32 = read_u32(head.as_slice(), 8);
        let pad: usize = read_u16(head.as_slice(), 12) as usize;
        if pad > MAX_PAD {
            return InitiatorStep::Failed(PeerFault::PadDTooLong);
        }
        if tail.len() < 14 + pad {
            return InitiatorStep::NeedMore;
        }
        let skipped = crypt(&mut reader, &tail.as_slice()[14..14 + pad]);
        proof {
            let a = tail@.take(14);
            let b = tail@.subrange(14, 14 + pad);
            applying_in_pieces(start, a, b);
            assert(reader@ == advanced(start, (14 + pad) as nat));
        }
        let encrypted = if select & crypto::RC4 != 0 {
            true
        } else if select & crypto::PLAINTEXT != 0 {
            if self.dial.encryption == EncryptionPolicy::RequireEncryption {
                return InitiatorStep::Failed(PeerFault::PlaintextSelected);
            }
            false
        } else {
            return InitiatorStep::Failed(PeerFault::UnsupportedSelect(select));
        };
        let from: usize = 14 + pad;
        if tail.len() - from < HANDSHAKE_LEN {
            return InitiatorStep::NeedMore;
        }
        let raw = &tail.as_slice()[from..from + 68];
        assert(raw@ =~= tail@.skip(from as int).take(68));
        let plain = if encrypted {
            crypt(&mut reader, raw)
        } else {
            copy_range(raw, 0, 68)
        };
        proof {
            assert(raw@.subrange(0, 68) =~= raw@);
            applying_in_pieces(start, tail@.take(from as int), raw@);
        }
        let bytes = array_from::<HANDSHAKE_LEN>(plain.as_slice());
        assert(bytes@ =~= plain@);
        let remote = match Handshake::parse(&bytes) {
            Err(e) => {
                return InitiatorStep::Failed(PeerFault::BadHandshake(e));
            },
            Ok(h) => h,
        };
        if remote.info_hash != self.dial.info_hash {
            assert(remote.info_hash@ != self.dial.info_hash@) by {
                if remote.info_hash@ == self.dial.info_hash@ {
                    assert(remote.info_hash.0 =~= self.dial.info_hash.0);
                }
            }
            return InitiatorStep::Failed(PeerFault::InfoHashMismatchAfterMse);
        }
        let rest = copy_range(tail.as_slice(), from + 68, tail.len());
        assert(rest@ =~= tail@.skip(from as int).skip(68));
        let ciphers = if encrypted {
            let mut writer = stream_a(&self.secret, &skey);
            skip_stream(&mut writer, self.sent);
            Some(Ciphers { reader, writer })
        } else {
            None
        };
        InitiatorStep::Established(Established { remote, ciphers, rest })
    }
}

/// Drop the next `n` bytes of a cipher's stream.
pub fn skip_stream(cipher: &mut MseRc4, n: usize)
    requires
        old(cipher).wf(),
    ensures
        final(cipher).wf(),
        final(cipher)@ == advanced(old(cipher)@, n as nat),
{
    let mut sink: Vec<u8> = Vec::new();
    let mut i: usize = 0;
    while i < n
        invariant
            i <= n,
            sink.len() == i,
        decreases n - i,
    {
        sink.push(0);
        i += 1;
    }
    cipher.apply_keystream(sink.as_mut_slice());
}

/// The cipher is offered always, and plain text unless encryption is required. Of what the peer
/// chooses the cipher goes first; plain text is refused where encryption is required, and anything
/// else is refused always.
pub proof fn which_crypto_is_agreed_on(select: u32, policy: EncryptionPolicy)
    ensures
        offered(policy) == (if policy is RequireEncryption {
            2u32
        } else {
            3u32
        }),
        chosen(select, policy) is Ok <==> select / 2 % 2 == 1 || (select % 2 == 1 && !(policy
            is RequireEncryption)),
        chosen(select, policy) matches Ok(encrypted) ==> (encrypted <==> select / 2 % 2 == 1),
        select / 2 % 2 == 0 && select % 2 == 1 && policy is RequireEncryption ==> chosen(
            select,
            policy,
        ) == Err::<bool, PeerFault>(PeerFault::PlaintextSelected),
        select / 2 % 2 == 0 && select % 2 == 0 ==> chosen(select, policy) == Err::<bool, PeerFault>(
            PeerFault::UnsupportedSelect(select),
        ),
{
    assert((select & 2u32 != 0) == (select / 2 % 2 == 1) && (select & 1u32 != 0) == (select % 2 == 1))
        by (bit_vector);
}

} // verus!
