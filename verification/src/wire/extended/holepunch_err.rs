//! Why a hole cannot be punched.

use vstd::prelude::*;

verus! {

pub const NO_SUCH_PEER: u32 = 1;

pub const NOT_CONNECTED: u32 = 2;

pub const NO_SUPPORT: u32 = 3;

pub const NO_SELF: u32 = 4;

} // verus!
