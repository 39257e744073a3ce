//! The kinds of message of the hole punching exchange.

use vstd::prelude::*;

verus! {

pub const RENDEZVOUS: u8 = 0;

pub const CONNECT: u8 = 1;

pub const ERROR: u8 = 2;

} // verus!
