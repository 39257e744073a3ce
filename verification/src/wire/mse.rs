//! Message stream encryption: the key exchange and the obfuscated handshake of two peers.

use num_bigint::BigUint;
use rand::{Rng, RngExt};
use vstd::arithmetic::power::*;
use vstd::prelude::*;

use crate::be::{be16, be32, write_u16, write_u32};
use crate::bencode::same_bytes;
use crate::meta::hash::{array_from, sha1, sha1_digest, xor_bytes};
use crate::wire::rc4::{advanced, initial, Rc4};

pub mod crypto;

verus! {

pub const DH_LEN: usize = 96;

/// The eight zero bytes by which a peer knows that it decrypts with the right key.
pub open spec fn vc() -> Seq<u8> {
    seq![0u8, 0, 0, 0, 0, 0, 0, 0]
}

/// The eight zero bytes by which a peer knows that it decrypts with the right key.
pub fn verification_constant() -> (r: [u8; 8])
    ensures
        r@ == vc(),
{
    let r = [0u8; 8];
    assert(r@ =~= vc());
    r
}

/// The number whose bytes are `s`, most significant first.
pub open spec fn be_value(s: Seq<u8>) -> nat
    decreases s.len(),
{
    if s.len() == 0 {
        0
    } else {
        be_value(s.drop_last()) * 256 + s.last() as nat
    }
}

/// The bytes of the prime that the key exchange works with.
pub open spec fn prime_bytes() -> Seq<u8> {
    seq![
        0xFFu8, 0xFF, 0xFF, 0xFF, 0xFF, 0xFF, 0xFF, 0xFF, 0xC9, 0x0F, 0xDA, 0xA2,
        0x21, 0x68, 0xC2, 0x34, 0xC4, 0xC6, 0x62, 0x8B, 0x80, 0xDC, 0x1C, 0xD1,
        0x29, 0x02, 0x4E, 0x08, 0x8A, 0x67, 0xCC, 0x74, 0x02, 0x0B, 0xBE, 0xA6,
        0x3B, 0x13, 0x9B, 0x22, 0x51, 0x4A, 0x08, 0x79, 0x8E, 0x34, 0x04, 0xDD,
        0xEF, 0x95, 0x19, 0xB3, 0xCD, 0x3A, 0x43, 0x1B, 0x30, 0x2B, 0x0A, 0x6D,
        0xF2, 0x5F, 0x14, 0x37, 0x4F, 0xE1, 0x35, 0x6D, 0x6D, 0x51, 0xC2, 0x45,
        0xE4, 0x85, 0xB5, 0x76, 0x62, 0x5E, 0x7E, 0xC6, 0xF4, 0x4C, 0x42, 0xE9,
        0xA6, 0x3A, 0x36, 0x20, 0xFF, 0xFF, 0xFF, 0xFF, 0xFF, 0xFF, 0xFF, 0xFF,
    ]
}

/// The prime that the key exchange works with.
pub open spec fn prime() -> nat {
    be_value(prime_bytes())
}

fn modulus() -> (r: [u8; DH_LEN])
    ensures
        r@ == prime_bytes(),
{
    let r = [
        0xFFu8, 0xFF, 0xFF, 0xFF, 0xFF, 0xFF, 0xFF, 0xFF, 0xC9, 0x0F, 0xDA, 0xA2,
        0x21, 0x68, 0xC2, 0x34, 0xC4, 0xC6, 0x62, 0x8B, 0x80, 0xDC, 0x1C, 0xD1,
        0x29, 0x02, 0x4E, 0x08, 0x8A, 0x67, 0xCC, 0x74, 0x02, 0x0B, 0xBE, 0xA6,
        0x3B, 0x13, 0x9B, 0x22, 0x51, 0x4A, 0x08, 0x79, 0x8E, 0x34, 0x04, 0xDD,
        0xEF, 0x95, 0x19, 0xB3, 0xCD, 0x3A, 0x43, 0x1B, 0x30, 0x2B, 0x0A, 0x6D,
        0xF2, 0x5F, 0x14, 0x37, 0x4F, 0xE1, 0x35, 0x6D, 0x6D, 0x51, 0xC2, 0x45,
        0xE4, 0x85, 0xB5, 0x76, 0x62, 0x5E, 0x7E, 0xC6, 0xF4, 0x4C, 0x42, 0xE9,
        0xA6, 0x3A, 0x36, 0x20, 0xFF, 0xFF, 0xFF, 0xFF, 0xFF, 0xFF, 0xFF, 0xFF,
    ];
    assert(r@ =~= prime_bytes());
    r
}

/// `num_bigint::BigUint::modpow` on the big-endian numbers: the power modulo `modulus`, written
/// without leading zeros, zero as one byte. It panics where the modulus is zero.
#[verifier::external_body]
fn modpow(base: &[u8], exponent: &[u8], modulus: &[u8]) -> (r: Vec<u8>)
    requires
        be_value(modulus@) > 1,
        be_value(modulus@) % 2 == 1,
    ensures
        be_value(r@) == pow(be_value(base@) as int, be_value(exponent@)) % (be_value(modulus@)
            as int),
        r.len() > 0,
        r.len() > 1 ==> r@[0] != 0,
{
    let m = BigUint::from_bytes_be(modulus);
    let e = BigUint::from_bytes_be(exponent);
    BigUint::from_bytes_be(base).modpow(&e, &m).to_bytes_be()
}

/// `rand::Rng::fill_bytes` of the thread's generator: as many bytes as asked for, of any value.
#[verifier::external_body]
pub(crate) fn random_bytes(n: usize) -> (r: Vec<u8>)
    requires
        n <= isize::MAX,
    ensures
        r.len() == n,
{
    let mut out = vec![0u8; n];
    rand::rng().fill_bytes(&mut out);
    out
}

/// `rand::RngExt::random` of the thread's generator: any number.
#[verifier::external_body]
pub(crate) fn random_u32() -> (r: u32)
{
    rand::rng().random::<u32>()
}

/// How the number of one byte string relates to that of another.
#[derive(Clone, Copy, Debug, PartialEq, Eq, Structural)]
enum Relation {
    Below,
    Equal,
    Above,
}

fn relate(a: &[u8], b: &[u8]) -> (r: Relation)
    requires
        a.len() == b.len(),
    ensures
        match r {
            Relation::Below => be_value(a@) < be_value(b@),
            Relation::Equal => be_value(a@) == be_value(b@),
            Relation::Above => be_value(a@) > be_value(b@),
        },
{
    let mut r = Relation::Equal;
    let mut i: usize = 0;
    while i < a.len()
        invariant
            i <= a.len(),
            a.len() == b.len(),
            match r {
                Relation::Below => be_value(a@.take(i as int)) < be_value(b@.take(i as int)),
                Relation::Equal => be_value(a@.take(i as int)) == be_value(b@.take(i as int)),
                Relation::Above => be_value(a@.take(i as int)) > be_value(b@.take(i as int)),
            },
        decreases a.len() - i,
    {
        proof {
            assert(a@.take(i + 1).drop_last() =~= a@.take(i as int));
            assert(b@.take(i + 1).drop_last() =~= b@.take(i as int));
        }
        if r == Relation::Equal {
            if a[i] < b[i] {
                r = Relation::Below;
            } else if a[i] > b[i] {
                r = Relation::Above;
            }
        }
        i += 1;
    }
    assert(a@.take(i as int) =~= a@);
    assert(b@.take(i as int) =~= b@);
    r
}

/// The last `len` bytes of `s`, or `s` behind as many zeros as are missing.
pub open spec fn fixed_be(s: Seq<u8>, len: nat) -> Seq<u8> {
    if s.len() >= len {
        s.skip(s.len() - len)
    } else {
        Seq::new((len - s.len()) as nat, |i: int| 0u8) + s
    }
}

fn to_fixed_be(bytes: &Vec<u8>, len: usize) -> (r: Vec<u8>)
    ensures
        r@ == fixed_be(bytes@, len as nat),
{
    let mut out: Vec<u8> = Vec::new();
    if bytes.len() >= len {
        out.extend_from_slice(&bytes.as_slice()[bytes.len() - len..bytes.len()]);
        assert(out@ =~= fixed_be(bytes@, len as nat));
    } else {
        let mut i: usize = 0;
        while i < len - bytes.len()
            invariant
                bytes.len() < len,
                i <= len - bytes.len(),
                out.len() == i,
                forall|j: int| 0 <= j < i ==> out@[j] == 0u8,
            decreases len - bytes.len() - i,
        {
            out.push(0);
            i += 1;
        }
        out.extend_from_slice(bytes.as_slice());
        assert(out@ =~= fixed_be(bytes@, len as nat));
    }
    out
}

proof fn lemma_be_value_bound(s: Seq<u8>)
    ensures
        be_value(s) < pow(256, s.len()),
    decreases s.len(),
{
    reveal(pow);
    if s.len() > 0 {
        lemma_be_value_bound(s.drop_last());
    }
}

proof fn lemma_be_value_lower(s: Seq<u8>)
    requires
        s.len() > 0,
        s[0] != 0,
    ensures
        be_value(s) >= pow(256, (s.len() - 1) as nat),
    decreases s.len(),
{
    reveal(pow);
    if s.len() == 1 {
        assert(be_value(s.drop_last()) == 0);
    } else {
        lemma_be_value_lower(s.drop_last());
    }
}

proof fn lemma_be_value_padded(s: Seq<u8>, zeros: nat)
    ensures
        be_value(Seq::new(zeros, |i: int| 0u8) + s) == be_value(s),
    decreases zeros + s.len(),
{
    let z = Seq::new(zeros, |i: int| 0u8);
    if s.len() > 0 {
        assert((z + s).drop_last() =~= z + s.drop_last());
        lemma_be_value_padded(s.drop_last(), zeros);
    } else if zeros > 0 {
        let y = Seq::new((zeros - 1) as nat, |i: int| 0u8);
        assert((z + s).drop_last() =~= y + s);
        lemma_be_value_padded(s, (zeros - 1) as nat);
    }
}

proof fn lemma_fixed(bytes: Seq<u8>)
    requires
        bytes.len() > 0,
        bytes.len() > 1 ==> bytes[0] != 0,
        be_value(bytes) < prime(),
    ensures
        fixed_be(bytes, 96).len() == 96,
        be_value(fixed_be(bytes, 96)) == be_value(bytes),
{
    if bytes.len() >= 96 {
        if bytes.len() > 96 {
            lemma_be_value_lower(bytes);
            lemma_be_value_bound(prime_bytes());
            lemma_pow_increases(256, 96, (bytes.len() - 1) as nat);
        }
        assert(fixed_be(bytes, 96) =~= bytes);
    } else {
        lemma_be_value_padded(bytes, (96 - bytes.len()) as nat);
    }
}

proof fn lemma_prime()
    ensures
        prime() > 1,
        prime() % 2 == 1,
        be_value(prime_bytes().update(95, 0xFE)) == prime() - 1,
{
    let p = prime_bytes();
    lemma_be_value_lower(p);
    reveal(pow);
    lemma_pow_increases(256, 1, 95);
    assert(pow(256, 1) == 256) by {
        lemma_pow1(256);
    }
    assert(p.update(95, 0xFE).drop_last() =~= p.drop_last());
    assert(p.last() == 0xFF);
}

/// A private exponent and the public key that belongs to it.
#[derive(Clone, Debug)]
pub struct DhKeys {
    pub private: [u8; 20],
    pub public_be: [u8; DH_LEN],
}

/// A public key that no honest peer sends: zero, one or at least the prime less one.
#[derive(Clone, Copy, Debug, PartialEq, Eq, Structural)]
pub struct InvalidPublicKey;

/// The public key of an exponent.
pub open spec fn public_value(x: nat) -> nat {
    (pow(2, x) % (prime() as int)) as nat
}

/// What a peer computes from its exponent and the other's public key.
pub open spec fn shared_value(x: nat, y: nat) -> nat {
    (pow(y as int, x) % (prime() as int)) as nat
}

/// Both sides of the exchange compute the same secret.
pub proof fn both_sides_agree(a: nat, b: nat)
    ensures
        shared_value(a, public_value(b)) == shared_value(b, public_value(a)),
{
    lemma_prime();
    let p = prime() as int;
    lemma_pow_mod_noop(pow(2, b), a, p);
    lemma_pow_mod_noop(pow(2, a), b, p);
    lemma_pow_multiplies(2, b, a);
    lemma_pow_multiplies(2, a, b);
    assert(a * b == b * a) by (nonlinear_arith);
}

impl DhKeys {
    /// True when the public key belongs to the exponent.
    pub open spec fn wf(self) -> bool {
        be_value(self.public_be@) == public_value(be_value(self.private@))
    }

    /// The keys of a random exponent.
    pub fn generate() -> (r: Self)
        ensures
            r.wf(),
            r.private@[0] & 1 == 1,
    {
        let bytes = random_bytes(20);
        Self::from_random(array_from::<20>(bytes.as_slice()))
    }

    /// The keys of the exponent that is `x` with the lowest bit of its first byte set, so that it
    /// is large.
    pub fn from_random(x: [u8; 20]) -> (r: Self)
        ensures
            r.wf(),
            r.private@ == x@.update(0, x@[0] | 1),
            r.private@[0] & 1 == 1,
    {
        let mut private: [u8; 20] = x;
        private[0] = x[0] | 1;
        let first = x[0];
        assert((first | 1) & 1 == 1) by (bit_vector);
        let p = modulus();
        let two: [u8; 1] = [2];
        proof {
            lemma_prime();
            assert(two@.drop_last() =~= seq![]);
            assert(be_value(two@) == 2) by {
                assert(be_value(two@.drop_last()) == 0);
            }
        }
        let y = modpow(two.as_slice(), private.as_slice(), p.as_slice());
        proof {
            lemma_fixed(y@);
        }
        let fixed = to_fixed_be(&y, DH_LEN);
        let public_be = array_from::<DH_LEN>(fixed.as_slice());
        assert(fixed@.take(96) =~= fixed@);
        assert(private@ =~= x@.update(0, x@[0] | 1));
        DhKeys { private, public_be }
    }

    /// The secret shared with the peer of that public key.
    pub fn shared_secret(&self, peer_public_be: &[u8; DH_LEN]) -> (r: Result<
        [u8; DH_LEN],
        InvalidPublicKey,
    >)
        ensures
            ({
                let y = be_value(peer_public_be@);
                if y <= 1 || y >= prime() - 1 {
                    r is Err
                } else {
                    r matches Ok(s) && be_value(s@) == shared_value(be_value(self.private@), y)
                }
            }),
    {
        let p = modulus();
        let mut one: [u8; DH_LEN] = [0u8; DH_LEN];
        one[95] = 1;
        let mut p_minus_1: [u8; DH_LEN] = p;
        p_minus_1[95] = 0xFE;
        proof {
            lemma_prime();
            assert(p_minus_1@ =~= prime_bytes().update(95, 0xFE));
            let z = Seq::new(95, |i: int| 0u8);
            assert(one@ =~= z + seq![1u8]);
            lemma_be_value_padded(seq![1u8], 95);
            assert(be_value(seq![1u8]) == 1) by {
                assert(be_value(seq![1u8].drop_last()) == 0);
            }
        }
        let y = peer_public_be.as_slice();
        if relate(y, one.as_slice()) != Relation::Above {
            return Err(InvalidPublicKey);
        }
        if relate(y, p_minus_1.as_slice()) != Relation::Below {
            return Err(InvalidPublicKey);
        }
        let s = modpow(y, self.private.as_slice(), p.as_slice());
        proof {
            lemma_fixed(s@);
        }
        let fixed = to_fixed_be(&s, DH_LEN);
        let out = array_from::<DH_LEN>(fixed.as_slice());
        assert(fixed@.take(96) =~= fixed@);
        Ok(out)
    }
}

/// The parts one behind the other.
pub open spec fn concatenated(parts: Seq<&[u8]>) -> Seq<u8>
    decreases parts.len(),
{
    if parts.len() == 0 {
        seq![]
    } else {
        concatenated(parts.drop_last()) + parts.last()@
    }
}

/// The SHA-1 digest of the parts one behind the other.
pub fn sha1_many(parts: &[&[u8]]) -> (r: [u8; 20])
    ensures
        r@ == sha1_digest(concatenated(parts@)),
{
    let mut data: Vec<u8> = Vec::new();
    let mut i: usize = 0;
    assert(concatenated(parts@.take(0)) =~= seq![]);
    while i < parts.len()
        invariant
            i <= parts.len(),
            data@ == concatenated(parts@.take(i as int)),
        decreases parts.len() - i,
    {
        data.extend_from_slice(parts[i]);
        proof {
            assert(parts@.take(i + 1).drop_last() =~= parts@.take(i as int));
            assert(data@ =~= concatenated(parts@.take(i + 1)));
        }
        i += 1;
    }
    assert(parts@.take(i as int) =~= parts@);
    sha1(data.as_slice()).0
}

fn sha1_pair(a: &[u8], b: &[u8]) -> (r: [u8; 20])
    ensures
        r@ == sha1_digest(a@ + b@),
{
    let parts: [&[u8]; 2] = [a, b];
    let r = sha1_many(parts.as_slice());
    proof {
        reveal_with_fuel(concatenated, 3);
        assert(concatenated(parts@) =~= a@ + b@);
    }
    r
}

pub fn xor20(a: &[u8; 20], b: &[u8; 20]) -> (r: [u8; 20])
    ensures
        r@ == xor_bytes(a@, b@),
{
    crate::meta::hash::Id20(*a).distance(&crate::meta::hash::Id20(*b)).0
}

/// The ASCII bytes of "req1".
pub open spec fn tag_req1() -> Seq<u8> {
    seq![114u8, 101, 113, 49]
}

/// The ASCII bytes of "req2".
pub open spec fn tag_req2() -> Seq<u8> {
    seq![114u8, 101, 113, 50]
}

/// The ASCII bytes of "req3".
pub open spec fn tag_req3() -> Seq<u8> {
    seq![114u8, 101, 113, 51]
}

/// The ASCII bytes of "keyA".
pub open spec fn tag_key_a() -> Seq<u8> {
    seq![107u8, 101, 121, 65]
}

/// The ASCII bytes of "keyB".
pub open spec fn tag_key_b() -> Seq<u8> {
    seq![107u8, 101, 121, 66]
}

pub fn req1(s: &[u8; DH_LEN]) -> (r: [u8; 20])
    ensures
        r@ == sha1_digest(tag_req1() + s@),
{
    let tag = [114u8, 101, 113, 49];
    assert(tag@ =~= tag_req1());
    sha1_pair(tag.as_slice(), s.as_slice())
}

pub fn req2(skey: &[u8; 20]) -> (r: [u8; 20])
    ensures
        r@ == sha1_digest(tag_req2() + skey@),
{
    let tag = [114u8, 101, 113, 50];
    assert(tag@ =~= tag_req2());
    sha1_pair(tag.as_slice(), skey.as_slice())
}

pub fn req3(s: &[u8; DH_LEN]) -> (r: [u8; 20])
    ensures
        r@ == sha1_digest(tag_req3() + s@),
{
    let tag = [114u8, 101, 113, 51];
    assert(tag@ =~= tag_req3());
    sha1_pair(tag.as_slice(), s.as_slice())
}

pub fn rc4_key(tag: &[u8; 4], s: &[u8; DH_LEN], skey: &[u8; 20]) -> (r: [u8; 20])
    ensures
        r@ == sha1_digest(tag@ + s@ + skey@),
{
    let parts: [&[u8]; 3] = [tag.as_slice(), s.as_slice(), skey.as_slice()];
    let r = sha1_many(parts.as_slice());
    proof {
        reveal_with_fuel(concatenated, 4);
        assert(concatenated(parts@) =~= tag@ + s@ + skey@);
    }
    r
}

/// The cipher of a connection.
pub type MseRc4 = Rc4;

/// The cipher of a key, with the first 1024 bytes of its stream dropped.
pub fn init_rc4(key: &[u8; 20]) -> (r: MseRc4)
    ensures
        r.wf(),
        r@ == advanced(initial(key@), 1024),
{
    let mut c = Rc4::new(key.as_slice());
    let mut sink: Vec<u8> = Vec::new();
    let mut i: usize = 0;
    while i < 1024
        invariant
            i <= 1024,
            sink.len() == i,
        decreases 1024 - i,
    {
        sink.push(0);
        i += 1;
    }
    c.apply_keystream(sink.as_mut_slice());
    c
}

/// The length of the padding that a random number picks.
pub fn pad_len(roll: u32, max_len: usize) -> (r: usize)
    requires
        max_len < usize::MAX,
    ensures
        r == (roll as int) % (max_len + 1),
        r <= max_len,
{
    (roll as usize) % (max_len + 1)
}

/// Random padding of at most `max_len` bytes.
pub fn gen_pad(max_len: usize) -> (r: Vec<u8>)
    requires
        max_len <= isize::MAX,
    ensures
        r.len() <= max_len,
{
    random_bytes(pad_len(random_u32(), max_len))
}

#[derive(Clone, Copy, Debug, PartialEq, Eq, Structural)]
pub enum MseError {
    PadTooLarge(u16),
    IaTooLarge(u16),
}

/// True when `needle` stands in `hay` at `i`.
pub open spec fn occurs_at(hay: Seq<u8>, needle: Seq<u8>, i: int) -> bool {
    0 <= i && i + needle.len() <= hay.len() && hay.subrange(i, i + needle.len()) == needle
}

/// True when `found` is the first place at or behind `start` where `needle` stands.
pub open spec fn first_occurrence(
    hay: Seq<u8>,
    needle: Seq<u8>,
    start: int,
    found: Option<usize>,
) -> bool {
    match found {
        Some(i) => needle.len() > 0 && start <= i && occurs_at(hay, needle, i as int) && forall|
            j: int,
        |
            start <= j < i ==> !#[trigger] occurs_at(hay, needle, j),
        None => needle.len() == 0 || forall|j: int|
            start <= j ==> !#[trigger] occurs_at(hay, needle, j),
    }
}

/// First occurrence of `needle` in `hay` at or behind `start`.
pub fn find_subsequence_from(hay: &[u8], needle: &[u8], start: usize) -> (r: Option<usize>)
    ensures
        first_occurrence(hay@, needle@, start as int, r),
{
    if needle.len() == 0 || needle.len() > hay.len() {
        return None;
    }
    let max_start: usize = hay.len() - needle.len();
    if start > max_start {
        return None;
    }
    let mut i: usize = start;
    loop
        invariant
            needle.len() > 0,
            needle.len() <= hay.len(),
            max_start == hay.len() - needle.len(),
            start <= i <= max_start,
            forall|j: int| start <= j < i ==> !#[trigger] occurs_at(hay@, needle@, j),
        decreases max_start - i,
    {
        if same_bytes(&hay[i..i + needle.len()], needle) {
            return Some(i);
        }
        assert(!occurs_at(hay@, needle@, i as int));
        if i == max_start {
            return None;
        }
        i += 1;
    }
}

/// The first place to look again after bytes were appended to a buffer that was searched before.
pub fn scan_start_after_append(previous_len: usize, needle_len: usize) -> (r: usize)
    ensures
        r == rescan_start(previous_len as int, needle_len as int),
{
    previous_len.saturating_sub(needle_len.saturating_sub(1))
}

/// `previous_len` less one byte fewer than the needle has, and at least zero.
pub open spec fn rescan_start(previous_len: int, needle_len: int) -> int {
    let back = if needle_len > 0 {
        needle_len - 1
    } else {
        0
    };
    if previous_len > back {
        previous_len - back
    } else {
        0
    }
}

/// Looking again from there misses nothing: where the needle did not stand in the bytes before,
/// the first place behind the new start is the first place at all.
pub proof fn rescan_is_complete(
    before: Seq<u8>,
    added: Seq<u8>,
    needle: Seq<u8>,
    found: Option<usize>,
)
    requires
        first_occurrence(before, needle, 0, None),
        first_occurrence(
            before + added,
            needle,
            rescan_start(before.len() as int, needle.len() as int),
            found,
        ),
    ensures
        first_occurrence(before + added, needle, 0, found),
{
    let start = rescan_start(before.len() as int, needle.len() as int);
    if needle.len() > 0 {
        assert forall|j: int| 0 <= j < start implies !#[trigger] occurs_at(
            before + added,
            needle,
            j,
        ) by {
            if occurs_at(before + added, needle, j) {
                assert(before.subrange(j, j + needle.len()) =~= (before + added).subrange(
                    j,
                    j + needle.len(),
                ));
                assert(occurs_at(before, needle, j));
            }
        }
    }
}

/// The opening of the encrypted stream of the side that connects.
pub open spec fn initiator_payload(provide: u32, pad_c: Seq<u8>, ia: Seq<u8>) -> Seq<u8> {
    vc() + be32(provide) + be16(pad_c.len() as u16) + pad_c + be16(ia.len() as u16) + ia
}

/// The opening of the encrypted stream of the side that accepts.
pub open spec fn responder_payload(select: u32, pad_d: Seq<u8>) -> Seq<u8> {
    vc() + be32(select) + be16(pad_d.len() as u16) + pad_d
}

/// Build the plain form of the message that opens the initiator's encrypted stream.
pub fn build_initiator_payload(crypto_provide: u32, pad_c: &[u8], ia: &[u8]) -> (r: Result<
    Vec<u8>,
    MseError,
>)
    ensures
        if pad_c.len() > u16::MAX {
            r == Err::<Vec<u8>, MseError>(MseError::PadTooLarge(pad_c.len() as u16))
        } else if ia.len() > u16::MAX {
            r == Err::<Vec<u8>, MseError>(MseError::IaTooLarge(ia.len() as u16))
        } else {
            r matches Ok(p) && p@ == initiator_payload(crypto_provide, pad_c@, ia@)
        },
{
    if pad_c.len() > u16::MAX as usize {
        return Err(MseError::PadTooLarge(pad_c.len() as u16));
    }
    if ia.len() > u16::MAX as usize {
        return Err(MseError::IaTooLarge(ia.len() as u16));
    }
    let mut out: Vec<u8> = Vec::new();
    let zeros = verification_constant();
    out.extend_from_slice(zeros.as_slice());
    write_u32(&mut out, crypto_provide);
    write_u16(&mut out, pad_c.len() as u16);
    out.extend_from_slice(pad_c);
    write_u16(&mut out, ia.len() as u16);
    out.extend_from_slice(ia);
    assert(out@ =~= initiator_payload(crypto_provide, pad_c@, ia@));
    Ok(out)
}

/// Build the plain form of the reply that opens the responder's encrypted stream.
pub fn build_responder_payload(crypto_select: u32, pad_d: &[u8]) -> (r: Result<Vec<u8>, MseError>)
    ensures
        if pad_d.len() > u16::MAX {
            r == Err::<Vec<u8>, MseError>(MseError::PadTooLarge(pad_d.len() as u16))
        } else {
            r matches Ok(p) && p@ == responder_payload(crypto_select, pad_d@)
        },
{
    if pad_d.len() > u16::MAX as usize {
        return Err(MseError::PadTooLarge(pad_d.len() as u16));
    }
    let mut out: Vec<u8> = Vec::new();
    let zeros = verification_constant();
    out.extend_from_slice(zeros.as_slice());
    write_u32(&mut out, crypto_select);
    write_u16(&mut out, pad_d.len() as u16);
    out.extend_from_slice(pad_d);
    assert(out@ =~= responder_payload(crypto_select, pad_d@));
    Ok(out)
}

/// Where everything stands in the opening of a stream: eight zeros, what is offered or chosen, the
/// length of the padding and the padding; the side that connects adds the length of its payload and
/// the payload.
pub proof fn how_streams_are_opened(n: u32, pad: Seq<u8>, ia: Seq<u8>)
    requires
        pad.len() <= u16::MAX,
        ia.len() <= u16::MAX,
    ensures
        ({
            let a = initiator_payload(n, pad, ia);
            let b = responder_payload(n, pad);
            let k = pad.len() as int;
            &&& b.len() == 14 + k
            &&& b.take(8) == seq![0u8, 0, 0, 0, 0, 0, 0, 0]
            &&& b.subrange(8, 12) == be32(n)
            &&& b.subrange(12, 14) == be16(pad.len() as u16)
            &&& b.skip(14) == pad
            &&& a.len() == 16 + k + ia.len()
            &&& a.take(14 + k) == b
            &&& a.subrange(14 + k, 16 + k) == be16(ia.len() as u16)
            &&& a.skip(16 + k) == ia
        }),
{
    let a = initiator_payload(n, pad, ia);
    let b = responder_payload(n, pad);
    let k = pad.len() as int;
    assert(b.take(8) =~= seq![0u8, 0, 0, 0, 0, 0, 0, 0]);
    assert(b.subrange(8, 12) =~= be32(n));
    assert(b.subrange(12, 14) =~= be16(pad.len() as u16));
    assert(b.skip(14) =~= pad);
    assert(a.take(14 + k) =~= b);
    assert(a.subrange(14 + k, 16 + k) =~= be16(ia.len() as u16));
    assert(a.skip(16 + k) =~= ia);
}

/// The words that go into the digests of the handshake are five different ones, of four letters
/// each.
pub proof fn which_words_are_digested()
    ensures
        tag_req1() == seq![114u8, 101, 113, 49],
        tag_req2() == seq![114u8, 101, 113, 50],
        tag_req3() == seq![114u8, 101, 113, 51],
        tag_key_a() == seq![107u8, 101, 121, 65],
        tag_key_b() == seq![107u8, 101, 121, 66],
        tag_key_a() != tag_key_b(),
        tag_req1() != tag_req2() && tag_req2() != tag_req3() && tag_req1() != tag_req3(),
{
    assert(tag_key_a()[3] == 65u8 && tag_key_b()[3] == 66u8);
    assert(tag_req1()[3] == 49u8 && tag_req2()[3] == 50u8 && tag_req3()[3] == 51u8);
}

/// A number in a fixed width keeps its value, where it fits, whatever zeros stand in front.
pub proof fn fixed_widths_keep_the_number(s: Seq<u8>, len: nat)
    requires
        s.len() <= len,
    ensures
        fixed_be(s, len).len() == len,
        be_value(fixed_be(s, len)) == be_value(s),
    decreases s.len(),
{
    let zeros = Seq::new((len - s.len()) as nat, |i: int| 0u8);
    if s.len() == 0 {
        lemma_zeros_are_nothing((len - s.len()) as nat);
        assert(s.skip(0) =~= s);
        assert(zeros + s =~= zeros);
        if len == 0 {
            assert(fixed_be(s, len) =~= s);
        }
    } else {
        fixed_widths_keep_the_number(s.drop_last(), (len - 1) as nat);
        let out = fixed_be(s, len);
        let front = fixed_be(s.drop_last(), (len - 1) as nat);
        assert(out.drop_last() =~= front);
        assert(out.last() == s.last());
    }
}

proof fn lemma_zeros_are_nothing(n: nat)
    ensures
        be_value(Seq::new(n, |i: int| 0u8)) == 0,
    decreases n,
{
    if n > 0 {
        let z = Seq::new(n, |i: int| 0u8);
        lemma_zeros_are_nothing((n - 1) as nat);
        assert(z.drop_last() =~= Seq::new((n - 1) as nat, |i: int| 0u8));
    }
}

} // verus!
