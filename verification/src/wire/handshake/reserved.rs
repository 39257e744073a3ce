//! The bits of the reserved area that say what a peer can do; byte indices count from its start.

use vstd::prelude::*;

verus! {

/// Extension protocol.
pub const EXT_PROTOCOL: (usize, u8) = (5, 0x10);

/// Second version of the metadata format.
pub const V2: (usize, u8) = (7, 0x08);

/// Distributed hash table.
pub const DHT: (usize, u8) = (7, 0x01);

/// Fast extension.
pub const FAST: (usize, u8) = (7, 0x04);

} // verus!
