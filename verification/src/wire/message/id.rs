//! The ids that stand behind the length of a peer message.

use vstd::prelude::*;

verus! {

pub const CHOKE: u8 = 0;
pub const UNCHOKE: u8 = 1;
pub const INTERESTED: u8 = 2;
pub const NOT_INTERESTED: u8 = 3;
pub const HAVE: u8 = 4;
pub const BITFIELD: u8 = 5;
pub const REQUEST: u8 = 6;
pub const PIECE: u8 = 7;
pub const CANCEL: u8 = 8;
pub const PORT: u8 = 9;
pub const SUGGEST_PIECE: u8 = 0x0D;
pub const HAVE_ALL: u8 = 0x0E;
pub const HAVE_NONE: u8 = 0x0F;
pub const REJECT_REQUEST: u8 = 0x10;
pub const ALLOWED_FAST: u8 = 0x11;
pub const EXTENDED: u8 = 20;
pub const HASH_REQUEST: u8 = 21;
pub const HASHES: u8 = 22;
pub const HASH_REJECT: u8 = 23;

} // verus!
