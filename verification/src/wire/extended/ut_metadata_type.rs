//! The kinds of message of the metadata exchange.

use vstd::prelude::*;

verus! {

pub const REQUEST: i64 = 0;

pub const DATA: i64 = 1;

pub const REJECT: i64 = 2;

} // verus!
