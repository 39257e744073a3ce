//! Bytes as hexadecimal digits.

use vstd::prelude::*;

use crate::meta::hash::{Id20, Id32};
use crate::text::hex_digit;

verus! {

/// The digits of the bytes, two for each, in lower case.
pub open spec fn hex_text(b: Seq<u8>) -> Seq<char> {
    Seq::new(
        2 * b.len(),
        |i: int|
            hex_digit(
                if i % 2 == 0 {
                    b[i / 2] as int / 16
                } else {
                    b[i / 2] as int % 16
                },
            ),
    )
}

/// The value of a digit, in either case.
pub open spec fn hex_value(c: char) -> Option<int> {
    if '0' <= c <= '9' {
        Some(c as int - 48)
    } else if 'a' <= c <= 'f' {
        Some(c as int - 87)
    } else if 'A' <= c <= 'F' {
        Some(c as int - 55)
    } else {
        None
    }
}

/// The bytes that a run of digits writes: two digits make a byte.
pub open spec fn hex_bytes(s: Seq<char>) -> Option<Seq<u8>> {
    if s.len() % 2 == 0 && forall|i: int| 0 <= i < s.len() ==> hex_value(#[trigger] s[i]) is Some {
        Some(
            Seq::new(
                (s.len() / 2) as nat,
                |i: int| (hex_value(s[2 * i])->0 * 16 + hex_value(s[2 * i + 1])->0) as u8,
            ),
        )
    } else {
        None
    }
}

/// `hex::encode`: the digits of the bytes, in lower case.
#[verifier::external_body]
pub(crate) fn hex_encode(b: &[u8]) -> (r: String)
    requires
        b.len() <= isize::MAX / 2,
    ensures
        r@ == hex_text(b@),
{
    hex::encode(b)
}

/// `hex::decode`: the bytes that the digits write, in either case; an error where their number is
/// odd or one of them is none.
#[verifier::external_body]
pub(crate) fn hex_decode(s: &str) -> (r: Option<Vec<u8>>)
    ensures
        match hex_bytes(s@) {
            Some(b) => r matches Some(v) && v@ == b,
            None => r is None,
        },
{
    hex::decode(s).ok()
}

impl Id20 {
    /// The digits of an identifier.
    pub fn to_hex(&self) -> (r: String)
        ensures
            r@ == hex_text(self@),
    {
        hex_encode(self.0.as_slice())
    }
}

impl Id32 {
    /// The digits of an identifier.
    pub fn to_hex(&self) -> (r: String)
        ensures
            r@ == hex_text(self@),
    {
        hex_encode(self.0.as_slice())
    }
}

/// Reading the digits of some bytes gives back the bytes.
pub proof fn hex_round_trip(b: Seq<u8>)
    ensures
        hex_bytes(hex_text(b)) == Some(b),
{
    let s = hex_text(b);
    assert forall|i: int| 0 <= i < s.len() implies hex_value(#[trigger] s[i]) is Some by {
        let n = if i % 2 == 0 {
            b[i / 2] as int / 16
        } else {
            b[i / 2] as int % 16
        };
        assert(0 <= n < 16);
    }
    assert forall|i: int| 0 <= i < b.len() implies #[trigger] b[i] == (hex_value(s[2 * i])->0 * 16
        + hex_value(s[2 * i + 1])->0) as u8 by {
        assert((2 * i) / 2 == i && (2 * i + 1) / 2 == i);
    }
    assert(hex_bytes(s)->0 =~= b);
}

} // verus!
