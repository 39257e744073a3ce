//! Twenty and thirty-two byte identifiers, and the digests that make them.

use sha1::Digest;
use vstd::prelude::*;

use crate::bencode::same_bytes;

verus! {

/// The SHA-1 digest of `data`.
pub uninterp spec fn sha1_digest(data: Seq<u8>) -> Seq<u8>;

/// The SHA-256 digest of `data`.
pub uninterp spec fn sha256_digest(data: Seq<u8>) -> Seq<u8>;

/// `sha1::Sha1::digest`: the SHA-1 digest of the slice, twenty bytes.
#[verifier::external_body]
fn sha1_of(data: &[u8]) -> (r: [u8; 20])
    ensures
        r@ == sha1_digest(data@),
{
    sha1::Sha1::digest(data).into()
}

/// `sha2::Sha256::digest`: the SHA-256 digest of the slice, thirty-two bytes.
#[verifier::external_body]
fn sha256_of(data: &[u8]) -> (r: [u8; 32])
    ensures
        r@ == sha256_digest(data@),
{
    sha2::Sha256::digest(data).into()
}

/// A SHA-1 sized identifier: an info-hash, a peer id or a DHT node id.
#[derive(Clone, Copy, Debug, Eq)]
pub struct Id20(pub [u8; 20]);

/// A SHA-256 sized identifier.
#[derive(Clone, Copy, Debug, Eq)]
pub struct Id32(pub [u8; 32]);

impl View for Id20 {
    type V = Seq<u8>;

    open spec fn view(&self) -> Seq<u8> {
        self.0@
    }
}

impl View for Id32 {
    type V = Seq<u8>;

    open spec fn view(&self) -> Seq<u8> {
        self.0@
    }
}

/// True when the two arrays hold the same bytes.
pub fn same_array<const N: usize>(a: &[u8; N], b: &[u8; N]) -> (r: bool)
    ensures
        r == (*a == *b),
{
    let r = same_bytes(a.as_slice(), b.as_slice());
    proof {
        if r {
            assert(*a =~= *b);
        }
    }
    r
}

impl PartialEq for Id20 {
    fn eq(&self, other: &Self) -> (r: bool) {
        same_array(&self.0, &other.0)
    }
}

impl vstd::std_specs::cmp::PartialEqSpecImpl for Id20 {
    open spec fn obeys_eq_spec() -> bool {
        true
    }

    open spec fn eq_spec(&self, other: &Self) -> bool {
        *self == *other
    }
}

impl PartialEq for Id32 {
    fn eq(&self, other: &Self) -> (r: bool) {
        same_array(&self.0, &other.0)
    }
}

impl vstd::std_specs::cmp::PartialEqSpecImpl for Id32 {
    open spec fn obeys_eq_spec() -> bool {
        true
    }

    open spec fn eq_spec(&self, other: &Self) -> bool {
        *self == *other
    }
}

/// The first `N` bytes of a slice.
pub fn array_from<const N: usize>(s: &[u8]) -> (r: [u8; N])
    requires
        N <= s.len(),
    ensures
        r@ == s@.take(N as int),
{
    let mut out: [u8; N] = [0u8; N];
    let mut i: usize = 0;
    while i < N
        invariant
            i <= N,
            N <= s.len(),
            forall|j: int| 0 <= j < i ==> out@[j] == s@[j],
        decreases N - i,
    {
        out[i] = s[i];
        i += 1;
    }
    assert(out@ =~= s@.take(N as int));
    out
}

spec fn filled<const N: usize>(s: Seq<u8>, k: nat) -> [u8; N]
    decreases k,
{
    if k == 0 {
        vstd::array::spec_array_fill_for_copy_type::<u8, N>(0)
    } else {
        vstd::array::spec_array_update(filled::<N>(s, (k - 1) as nat), k - 1, s[k - 1])
    }
}

proof fn lemma_filled<const N: usize>(s: Seq<u8>, k: nat)
    requires
        k <= N,
        s.len() == N,
    ensures
        filled::<N>(s, k)@.take(k as int) == s.take(k as int),
    decreases k,
{
    if k > 0 {
        lemma_filled::<N>(s, (k - 1) as nat);
        let before = filled::<N>(s, (k - 1) as nat)@;
        let after = filled::<N>(s, k)@;
        assert(after == before.update(k - 1, s[k - 1]));
        assert forall|j: int| 0 <= j < k implies after[j] == s[j] by {
            if j < k - 1 {
                assert(before.take(k - 1)[j] == s.take(k - 1)[j]);
            }
        }
        assert(after.take(k as int) =~= s.take(k as int));
    } else {
        assert(filled::<N>(s, k)@.take(0) =~= s.take(0));
    }
}

/// The identifier with the given bytes.
pub open spec fn id20_of(s: Seq<u8>) -> Id20 {
    choose|id: Id20| id@ == s
}

/// An identifier is determined by its bytes.
pub proof fn id20_is_its_bytes(id: Id20)
    ensures
        id20_of(id@) == id,
{
    assert(id20_of(id@).0 =~= id.0);
}

/// The identifier with the given bytes has these bytes, wherever their number is right.
pub proof fn id20_has_its_bytes(s: Seq<u8>)
    requires
        s.len() == 20,
    ensures
        id20_of(s)@ == s,
{
    let id = Id20(filled::<20>(s, 20));
    lemma_filled::<20>(s, 20);
    assert(id@.take(20) =~= id@);
    assert(s.take(20) =~= s);
}

impl Id20 {
    pub fn new(bytes: [u8; 20]) -> (r: Self)
        ensures
            r == Id20(bytes),
    {
        Id20(bytes)
    }

    /// The identifier whose bytes are exactly those of the slice.
    pub fn from_slice(s: &[u8]) -> (r: Option<Self>)
        ensures
            s.len() == 20 ==> r == Some(id20_of(s@)) && id20_of(s@)@ == s@,
            s.len() != 20 ==> r is None,
    {
        if s.len() != 20 {
            return None;
        }
        let r = Id20(array_from::<20>(s));
        assert(s@.take(20) =~= s@);
        proof {
            id20_is_its_bytes(r);
        }
        Some(r)
    }

    pub fn as_bytes(&self) -> (r: &[u8; 20])
        ensures
            *r == self.0,
    {
        &self.0
    }

    /// The bitwise difference of two identifiers, the distance of the DHT.
    pub fn distance(&self, other: &Self) -> (r: Self)
        ensures
            r@ == xor_bytes(self@, other@),
    {
        let mut out: [u8; 20] = [0u8; 20];
        let mut i: usize = 0;
        while i < 20
            invariant
                i <= 20,
                forall|j: int| 0 <= j < i ==> out@[j] == self.0@[j] ^ other.0@[j],
            decreases 20 - i,
        {
            out[i] = self.0[i] ^ other.0[i];
            i += 1;
        }
        assert(out@ =~= xor_bytes(self@, other@));
        Id20(out)
    }
}

/// The identifier with the given bytes.
pub open spec fn id32_of(s: Seq<u8>) -> Id32 {
    choose|id: Id32| id@ == s
}

/// An identifier is determined by its bytes.
pub proof fn id32_is_its_bytes(id: Id32)
    ensures
        id32_of(id@) == id,
{
    assert(id32_of(id@).0 =~= id.0);
}

/// The identifier with the given bytes has these bytes, wherever their number is right.
pub proof fn id32_has_its_bytes(s: Seq<u8>)
    requires
        s.len() == 32,
    ensures
        id32_of(s)@ == s,
{
    let id = Id32(filled::<32>(s, 32));
    lemma_filled::<32>(s, 32);
    assert(id@.take(32) =~= id@);
    assert(s.take(32) =~= s);
}

impl Id32 {
    pub fn new(bytes: [u8; 32]) -> (r: Self)
        ensures
            r == Id32(bytes),
    {
        Id32(bytes)
    }

    /// The identifier whose bytes are exactly those of the slice.
    pub fn from_slice(s: &[u8]) -> (r: Option<Self>)
        ensures
            s.len() == 32 ==> r == Some(id32_of(s@)) && id32_of(s@)@ == s@,
            s.len() != 32 ==> r is None,
    {
        if s.len() != 32 {
            return None;
        }
        let r = Id32(array_from::<32>(s));
        assert(s@.take(32) =~= s@);
        proof {
            id32_is_its_bytes(r);
        }
        Some(r)
    }

    pub fn as_bytes(&self) -> (r: &[u8; 32])
        ensures
            *r == self.0,
    {
        &self.0
    }

    /// The first twenty bytes: how a long identifier stands in for a short one.
    pub fn truncate_to_id20(&self) -> (r: Id20)
        ensures
            r@ == self@.take(20),
    {
        Id20(array_from::<20>(self.0.as_slice()))
    }
}

/// Byte by byte exclusive or.
pub open spec fn xor_bytes(a: Seq<u8>, b: Seq<u8>) -> Seq<u8> {
    Seq::new(a.len(), |i: int| a[i] ^ b[i])
}

/// Taking the difference twice gives back the first sequence.
pub proof fn xor_is_an_involution(a: Seq<u8>, b: Seq<u8>)
    requires
        a.len() == b.len(),
    ensures
        xor_bytes(xor_bytes(a, b), b) == a,
{
    let c = xor_bytes(xor_bytes(a, b), b);
    assert forall|i: int| 0 <= i < a.len() implies #[trigger] c[i] == a[i] by {
        let x = a[i];
        let y = b[i];
        assert((x ^ y) ^ y == x) by (bit_vector);
    }
    assert(c =~= a);
}

/// The SHA-1 digest of a slice.
pub fn sha1(data: &[u8]) -> (r: Id20)
    ensures
        r@ == sha1_digest(data@),
{
    Id20(sha1_of(data))
}

/// The SHA-256 digest of a slice.
pub fn sha256(data: &[u8]) -> (r: Id32)
    ensures
        r@ == sha256_digest(data@),
{
    Id32(sha256_of(data))
}

} // verus!
