//! The extension protocol: the extended handshake, and the messages of the extensions it names.

use vstd::prelude::*;

use crate::bencode::DecodeLimits;
use crate::wire::message::MAX_MESSAGE_BYTES;

pub mod ext_handshake;
pub mod holepunch;
pub mod holepunch_err;
pub mod holepunch_type;
pub mod metadata;
pub mod pex;
pub mod ut_metadata_type;

verus! {

pub const EXT_HANDSHAKE_ID: u8 = 0;

/// How much of an extension message is read.
pub open spec fn spec_extension_limits() -> DecodeLimits {
    DecodeLimits { max_bytes: MAX_MESSAGE_BYTES, max_depth: 32, max_items: 65_536 }
}

pub(crate) fn extension_limits() -> (r: DecodeLimits)
    ensures
        r == spec_extension_limits(),
{
    DecodeLimits::new(MAX_MESSAGE_BYTES, 32, 65_536)
}

} // verus!
