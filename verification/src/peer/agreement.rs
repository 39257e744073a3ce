//! The two sides of the obfuscated handshake understand one another.

use vstd::prelude::*;

use crate::be::{be16, be16_round_trip, be32, be32_round_trip, of_be16, of_be32};
use crate::meta::hash::{sha1_digest, xor_bytes, xor_is_an_involution};
use crate::peer::connection::EncryptionPolicy;
use crate::peer::initiator::{answer, cipher_a, cipher_b, initiator_outcome, InitiatorOutcome};
use crate::peer::responder::{
    greets, picked, reply_bytes, resolve, responder_outcome, KnownInfoHash, Request,
    ResponderOutcome,
};
use crate::wire::handshake::{handshake_bytes, parse_inverts_to_bytes, Handshake};
use crate::wire::mse::{crypto, initiator_payload, responder_payload, tag_req1, tag_req2, tag_req3, vc};
use crate::wire::rc4::{advanced, applied, applying_twice_restores, Rc4State};

verus! {

proof fn lemma_opened_prefix(cipher: Rc4State, plain: Seq<u8>, behind: Seq<u8>, n: int)
    requires
        0 <= n <= plain.len(),
    ensures
        applied(cipher, (applied(cipher, plain) + behind).take(n)) == plain.take(n),
{
    let sealed = applied(cipher, plain) + behind;
    let part = plain.take(n);
    assert(sealed.take(n) =~= applied(cipher, part));
    applying_twice_restores(cipher, part);
}

/// The fields of the initiator's payload stand where the responder looks for them.
proof fn lemma_initiator_fields(provide: u32, pad: Seq<u8>, ia: Seq<u8>)
    requires
        pad.len() <= 512,
        ia.len() <= 1024,
    ensures
        ({
            let p = initiator_payload(provide, pad, ia);
            &&& p.len() == 16 + pad.len() + ia.len()
            &&& p.take(14).take(8) == vc()
            &&& of_be32(p.take(14).skip(8)) == provide
            &&& of_be16(p.take(14).skip(12)) == pad.len()
            &&& of_be16(p.take((16 + pad.len()) as int).skip((14 + pad.len()) as int)) == ia.len()
            &&& p.skip((16 + pad.len()) as int) == ia
        }),
{
    let p = initiator_payload(provide, pad, ia);
    let n = pad.len() as int;
    let m = be16(pad.len() as u16);
    assert(p.take(14).take(8) =~= vc());
    assert(p.take(14).skip(8) =~= be32(provide) + m);
    be32_round_trip(provide, m);
    assert(p.take(14).skip(12) =~= m + seq![]);
    be16_round_trip(pad.len() as u16, seq![]);
    assert(p.take(16 + n).skip(14 + n) =~= be16(ia.len() as u16) + seq![]);
    be16_round_trip(ia.len() as u16, seq![]);
    assert(p.skip(16 + n) =~= ia);
}

/// A responder that serves the torrent, and finds the initiator's mark where it stands, reads
/// from the answer what the initiator put into it.
pub proof fn responder_reads_the_answer(
    secret: Seq<u8>,
    known: Seq<KnownInfoHash>,
    k: KnownInfoHash,
    policy: EncryptionPolicy,
    provide: u32,
    pad_a: Seq<u8>,
    pad_c: Seq<u8>,
    ia: Seq<u8>,
    behind: Seq<u8>,
)
    requires
        pad_a.len() <= 512,
        pad_c.len() <= 512,
        ia.len() <= 1024,
        resolve(known, sha1_digest(tag_req2() + k.info_hash@)) == Some(k),
        picked(provide, policy) is Some,
        sha1_digest(tag_req1() + secret).len() == 20,
        sha1_digest(tag_req2() + k.info_hash@).len() == 20,
        sha1_digest(tag_req3() + secret).len() == 20,
    ensures
        responder_outcome(
            secret,
            known,
            policy,
            pad_a + answer(secret, k.info_hash@, provide, pad_c, ia) + behind,
            Some(pad_a.len() as usize),
        ) == (ResponderOutcome::Negotiated {
            known: k,
            select: picked(provide, policy)->Some_0,
            request: Request {
                provide,
                ia,
                read: 16 + pad_c.len() + ia.len(),
                leftover: behind,
            },
        }),
{
    let skey = k.info_hash@;
    let received = pad_a + answer(secret, skey, provide, pad_c, ia) + behind;
    let off = pad_a.len() as int;
    let r2 = sha1_digest(tag_req2() + skey);
    let r3 = sha1_digest(tag_req3() + secret);
    assert(received.subrange(off + 20, off + 40) =~= xor_bytes(r2, r3));
    xor_is_an_involution(r2, r3);
    let cipher = cipher_a(secret, skey);
    let plain = initiator_payload(provide, pad_c, ia);
    let enc = received.skip(off + 40);
    let n = pad_c.len() as int;
    lemma_initiator_fields(provide, pad_c, ia);
    assert(enc =~= applied(cipher, plain) + behind);
    lemma_opened_prefix(cipher, plain, behind, 14);
    lemma_opened_prefix(cipher, plain, behind, 16 + n);
    lemma_opened_prefix(cipher, plain, behind, plain.len() as int);
    assert(plain.take(plain.len() as int) =~= plain);
    assert(enc.skip(plain.len() as int) =~= behind);
}

/// An initiator that finds the responder's stream where it starts reads from the reply the
/// handshake that the responder sent, and keeps the cipher.
#[verifier::spinoff_prover]
#[verifier::rlimit(40)]
pub proof fn initiator_reads_the_reply(
    secret: Seq<u8>,
    known: KnownInfoHash,
    request: Request,
    policy: EncryptionPolicy,
    pad_b: Seq<u8>,
    pad_d: Seq<u8>,
    h: Handshake,
    behind: Seq<u8>,
)
    requires
        pad_b.len() <= 512,
        pad_d.len() <= 512,
        greets(request.ia, known.info_hash@),
        h.info_hash == known.info_hash,
    ensures
        initiator_outcome(
            secret,
            known.info_hash@,
            policy,
            pad_b + reply_bytes(secret, known, crypto::RC4, request, pad_d, h) + behind,
            Some(pad_b.len() as usize),
        ) == (InitiatorOutcome::Established {
            area: h.reserved@,
            info_hash: h.info_hash@,
            peer_id: h.peer_id@,
            encrypted: true,
            read: 14 + pad_d.len() + 68,
            rest: behind,
        }),
{
    let skey = known.info_hash@;
    let cipher = cipher_b(secret, skey);
    let plain = responder_payload(crypto::RC4, pad_d);
    let hello = handshake_bytes(h);
    let n = pad_d.len() as int;
    let received = pad_b + reply_bytes(secret, known, crypto::RC4, request, pad_d, h) + behind;
    let tail = received.skip(pad_b.len() as int);
    let reply = applied(cipher, plain);
    assert(reply.len() == plain.len() == 14 + n);
    parse_inverts_to_bytes(h);
    let after = advanced(cipher, plain.len());
    let sealed = applied(after, hello);
    assert(tail =~= reply + (sealed + behind));
    lemma_opened_prefix(cipher, plain, sealed + behind, 14);
    let m = be16(pad_d.len() as u16);
    assert(plain.take(14).skip(8) =~= be32(crypto::RC4) + m);
    be32_round_trip(crypto::RC4, m);
    assert(plain.take(14).skip(12) =~= m + seq![]);
    be16_round_trip(pad_d.len() as u16, seq![]);
    assert(2u32 & 2u32 != 0) by (bit_vector);
    let leftover = tail.skip(14 + n);
    assert(leftover =~= sealed + behind);
    assert(leftover.take(68) =~= sealed);
    applying_twice_restores(after, hello);
    assert(leftover.skip(68) =~= behind);
}

} // verus!
