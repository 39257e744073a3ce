//! The methods that two peers choose from.

use vstd::prelude::*;

verus! {

pub const PLAINTEXT: u32 = 0x01;

pub const RC4: u32 = 0x02;

} // verus!
