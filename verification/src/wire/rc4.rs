//! The RC4 stream cipher, which obfuscates peer connections.

use vstd::prelude::*;

use crate::meta::hash::xor_bytes;

verus! {

/// A permutation of the byte values and two indices into it.
pub struct Rc4State {
    pub s: Seq<u8>,
    pub i: u8,
    pub j: u8,
}

/// The sum of two bytes, modulo 256.
pub open spec fn sum8(a: u8, b: u8) -> u8 {
    ((a + b) % 256) as u8
}

/// `s` with the values at `a` and `b` exchanged.
pub open spec fn exchanged(s: Seq<u8>, a: u8, b: u8) -> Seq<u8> {
    s.update(a as int, s[b as int]).update(b as int, s[a as int])
}

/// The permutation and the second index after `n` steps of the key schedule.
pub open spec fn schedule(key: Seq<u8>, n: nat) -> (Seq<u8>, u8)
    decreases n,
{
    if n == 0 {
        (Seq::new(256, |i: int| i as u8), 0)
    } else {
        let (s, j) = schedule(key, (n - 1) as nat);
        let i = (n - 1) as u8;
        let k = sum8(sum8(j, s[i as int]), key[(n - 1) % (key.len() as int)]);
        (exchanged(s, i, k), k)
    }
}

/// The state that a key starts with.
pub open spec fn initial(key: Seq<u8>) -> Rc4State {
    Rc4State { s: schedule(key, 256).0, i: 0, j: 0 }
}

/// The state one byte later.
pub open spec fn next_state(st: Rc4State) -> Rc4State {
    let i = sum8(st.i, 1);
    let j = sum8(st.j, st.s[i as int]);
    Rc4State { s: exchanged(st.s, i, j), i, j }
}

/// The key byte of a state that was just reached.
pub open spec fn key_byte(st: Rc4State) -> u8 {
    st.s[sum8(st.s[st.i as int], st.s[st.j as int]) as int]
}

/// The state `n` bytes later.
pub open spec fn advanced(st: Rc4State, n: nat) -> Rc4State
    decreases n,
{
    if n == 0 {
        st
    } else {
        next_state(advanced(st, (n - 1) as nat))
    }
}

/// The next `n` bytes of the key stream.
pub open spec fn keystream(st: Rc4State, n: nat) -> Seq<u8> {
    Seq::new(n, |k: int| key_byte(advanced(st, (k + 1) as nat)))
}

/// `data` under the next bytes of the key stream.
pub open spec fn applied(st: Rc4State, data: Seq<u8>) -> Seq<u8> {
    xor_bytes(data, keystream(st, data.len()))
}

/// Applying the stream of one state twice gives back the data.
pub proof fn applying_twice_restores(st: Rc4State, data: Seq<u8>)
    ensures
        applied(st, applied(st, data)) == data,
{
    crate::meta::hash::xor_is_an_involution(data, keystream(st, data.len()));
}

/// Applying the stream piece by piece is applying it to the whole.
pub proof fn applying_in_pieces(st: Rc4State, a: Seq<u8>, b: Seq<u8>)
    ensures
        applied(st, a + b) == applied(st, a) + applied(advanced(st, a.len()), b),
        advanced(st, (a + b).len()) == advanced(advanced(st, a.len()), b.len()),
{
    assert forall|n: nat| #[trigger]
        advanced(advanced(st, a.len()), n) == advanced(st, a.len() + n) by {
        lemma_advanced_sum(st, a.len(), n);
    }
    assert forall|k: int| a.len() <= k < a.len() + b.len() implies #[trigger] applied(
        st,
        a + b,
    )[k] == (applied(st, a) + applied(advanced(st, a.len()), b))[k] by {
        let n = (k - a.len() + 1) as nat;
        assert(advanced(advanced(st, a.len()), n) == advanced(st, a.len() + n));
        assert(a.len() + n == (k + 1) as nat);
    }
    assert(applied(st, a + b) =~= applied(st, a) + applied(advanced(st, a.len()), b));
}

proof fn lemma_advanced_sum(st: Rc4State, a: nat, b: nat)
    ensures
        advanced(advanced(st, a), b) == advanced(st, a + b),
    decreases b,
{
    if b > 0 {
        lemma_advanced_sum(st, a, (b - 1) as nat);
    }
}

/// A running cipher.
#[derive(Clone, Debug)]
pub struct Rc4 {
    s: Vec<u8>,
    i: u8,
    j: u8,
}

impl View for Rc4 {
    type V = Rc4State;

    closed spec fn view(&self) -> Rc4State {
        Rc4State { s: self.s@, i: self.i, j: self.j }
    }
}

impl Rc4 {
    /// True of every cipher that [`Rc4::new`] made: it has one place for each byte value.
    pub open spec fn wf(self) -> bool {
        self@.s.len() == 256
    }

    /// The cipher of a key, at its start.
    pub fn new(key: &[u8]) -> (r: Self)
        requires
            key.len() > 0,
        ensures
            r.wf(),
            r@ == initial(key@),
    {
        let mut s: Vec<u8> = Vec::new();
        let mut n: usize = 0;
        while n < 256
            invariant
                n <= 256,
                s.len() == n,
                forall|k: int| 0 <= k < n ==> s@[k] == k as u8,
            decreases 256 - n,
        {
            s.push(n as u8);
            n += 1;
        }
        let mut j: u8 = 0;
        let mut i: usize = 0;
        assert(s@ =~= schedule(key@, 0).0);
        while i < 256
            invariant
                i <= 256,
                s.len() == 256,
                key.len() > 0,
                (s@, j) == schedule(key@, i as nat),
            decreases 256 - i,
        {
            let ghost before = s@;
            let k: u8 = j.wrapping_add(s[i]).wrapping_add(key[i % key.len()]);
            let a: u8 = s[i];
            let b: u8 = s[k as usize];
            s.set(i, b);
            s.set(k as usize, a);
            proof {
                assert(s@ =~= exchanged(before, i as u8, k));
                assert(k == sum8(
                    sum8(j, before[i as int]),
                    key@[(i as int) % (key.len() as int)],
                ));
                let step = schedule(key@, (i + 1) as nat);
                assert(step == (exchanged(before, i as u8, k), k));
            }
            j = k;
            i += 1;
        }
        Rc4 { s, i: 0, j: 0 }
    }

    /// Encrypt or decrypt in place.
    pub fn apply_keystream(&mut self, data: &mut [u8])
        requires
            old(self).wf(),
        ensures
            final(self).wf(),
            final(self)@ == advanced(old(self)@, old(data).len() as nat),
            final(data)@ == applied(old(self)@, old(data)@),
    {
        let ghost start = self@;
        let ghost input = data@;
        let mut n: usize = 0;
        while n < data.len()
            invariant
                n <= data.len(),
                data.len() == input.len(),
                self.wf(),
                self@ == advanced(start, n as nat),
                forall|k: int| n <= k < input.len() ==> data@[k] == input[k],
                forall|k: int|
                    0 <= k < n ==> data@[k] == input[k] ^ key_byte(advanced(start, (k + 1) as nat)),
            decreases data.len() - n,
        {
            let i: u8 = self.i.wrapping_add(1);
            let a: u8 = self.s[i as usize];
            let j: u8 = self.j.wrapping_add(a);
            let b: u8 = self.s[j as usize];
            self.s.set(i as usize, b);
            self.s.set(j as usize, a);
            self.i = i;
            self.j = j;
            let at: u8 = self.s[i as usize].wrapping_add(self.s[j as usize]);
            let k: u8 = self.s[at as usize];
            assert(self@ == advanced(start, (n + 1) as nat));
            data[n] = data[n] ^ k;
            n += 1;
        }
        assert(data@ =~= applied(start, input));
    }
}

} // verus!
