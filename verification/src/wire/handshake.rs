//! The first 68 bytes of a peer connection: protocol name, capabilities, info-hash and peer id.

use vstd::prelude::*;

use crate::bencode::same_bytes;
use crate::meta::hash::{array_from, same_array, Id20};

pub mod reserved;

verus! {

pub const HANDSHAKE_LEN: usize = 68;

/// The ASCII bytes of "BitTorrent protocol".
pub open spec fn protocol_name() -> Seq<u8> {
    seq![
        66u8, 105, 116, 84, 111, 114, 114, 101, 110, 116, 32, 112, 114, 111, 116, 111, 99, 111, 108,
    ]
}

/// The ASCII bytes of "BitTorrent protocol".
pub fn protocol() -> (r: [u8; 19])
    ensures
        r@ == protocol_name(),
{
    let r = [
        66u8, 105, 116, 84, 111, 114, 114, 101, 110, 116, 32, 112, 114, 111, 116, 111, 99, 111, 108,
    ];
    assert(r@ =~= protocol_name());
    r
}

#[derive(Clone, Copy, Debug, PartialEq, Eq, Structural)]
pub enum HandshakeError {
    BadPstrLen(u8),
    BadProtocol,
}

#[derive(Clone, Copy, Debug, Eq)]
pub struct Handshake {
    pub reserved: [u8; 8],
    pub info_hash: Id20,
    pub peer_id: Id20,
}

impl PartialEq for Handshake {
    fn eq(&self, other: &Self) -> (r: bool) {
        same_array(&self.reserved, &other.reserved) && self.info_hash == other.info_hash
            && self.peer_id == other.peer_id
    }
}

impl vstd::std_specs::cmp::PartialEqSpecImpl for Handshake {
    open spec fn obeys_eq_spec() -> bool {
        true
    }

    open spec fn eq_spec(&self, other: &Self) -> bool {
        *self == *other
    }
}

/// The bytes of a handshake.
pub open spec fn handshake_bytes(h: Handshake) -> Seq<u8> {
    seq![19u8] + protocol_name() + h.reserved@ + h.info_hash@ + h.peer_id@
}

/// What 68 bytes say as a handshake.
pub open spec fn parse_handshake(b: Seq<u8>) -> Result<(Seq<u8>, Seq<u8>, Seq<u8>), HandshakeError> {
    if b[0] != 19 {
        Err(HandshakeError::BadPstrLen(b[0]))
    } else if b.subrange(1, 20) != protocol_name() {
        Err(HandshakeError::BadProtocol)
    } else {
        Ok((b.subrange(20, 28), b.subrange(28, 48), b.subrange(48, 68)))
    }
}

/// True when the bit is set in the reserved area.
pub open spec fn has_bit(area: Seq<u8>, bit: (usize, u8)) -> bool {
    area[bit.0 as int] & bit.1 != 0
}

impl Handshake {
    /// A handshake with the DHT and fast bits, and with the version bit as asked.
    pub fn new_with_v2(info_hash: Id20, peer_id: Id20, advertise_v2: bool) -> (r: Self)
        ensures
            r.announces(info_hash, peer_id, advertise_v2, true, true),
    {
        Self::new_with_features(info_hash, peer_id, advertise_v2, true, true)
    }

    /// True of the handshake with these identifiers and exactly these capabilities, the extension
    /// protocol always among them.
    pub open spec fn announces(
        self,
        info_hash: Id20,
        peer_id: Id20,
        v2: bool,
        dht: bool,
        fast: bool,
    ) -> bool {
        &&& self.info_hash == info_hash
        &&& self.peer_id == peer_id
        &&& self.reserved@ == seq![
            0u8,
            0,
            0,
            0,
            0,
            0x10,
            0,
            ((if dht { 1int } else { 0 }) + (if fast { 4int } else { 0 }) + (if v2 { 8int } else { 0 }))
                as u8,
        ]
    }

    pub fn new_with_features(
        info_hash: Id20,
        peer_id: Id20,
        advertise_v2: bool,
        advertise_dht: bool,
        advertise_fast: bool,
    ) -> (r: Self)
        ensures
            r.announces(info_hash, peer_id, advertise_v2, advertise_dht, advertise_fast),
            has_bit(r.reserved@, reserved::EXT_PROTOCOL),
            has_bit(r.reserved@, reserved::V2) == advertise_v2,
            has_bit(r.reserved@, reserved::DHT) == advertise_dht,
            has_bit(r.reserved@, reserved::FAST) == advertise_fast,
    {
        let mut area: [u8; 8] = [0u8; 8];
        area[reserved::EXT_PROTOCOL.0] = reserved::EXT_PROTOCOL.1;
        let mut flags: u8 = 0;
        if advertise_dht {
            flags = flags | reserved::DHT.1;
        }
        if advertise_fast {
            flags = flags | reserved::FAST.1;
        }
        if advertise_v2 {
            flags = flags | reserved::V2.1;
        }
        proof {
            let f = flags;
            assert(0u8 | 1 == 1 && 0u8 | 4 == 4 && 0u8 | 8 == 8 && 1u8 | 4 == 5 && 1u8 | 8 == 9
                && 4u8 | 8 == 12 && 5u8 | 8 == 13) by (bit_vector);
            assert(0x10u8 & 0x10u8 != 0) by (bit_vector);
            assert(f == 0 || f == 1 || f == 4 || f == 5 || f == 8 || f == 9 || f == 12 || f == 13
                ==> ((f & 1 != 0) == (f == 1 || f == 5 || f == 9 || f == 13)) && ((f & 4 != 0) == (f
                == 4 || f == 5 || f == 12 || f == 13)) && ((f & 8 != 0) == (f >= 8)))
                by (bit_vector);
        }
        area[reserved::DHT.0] = flags;
        let r = Handshake { reserved: area, info_hash, peer_id };
        assert(r.reserved@ =~= seq![0u8, 0, 0, 0, 0, 0x10, 0, flags]);
        r
    }

    pub fn has_ext_protocol(&self) -> (r: bool)
        ensures
            r == has_bit(self.reserved@, reserved::EXT_PROTOCOL),
    {
        self.reserved[reserved::EXT_PROTOCOL.0] & reserved::EXT_PROTOCOL.1 != 0
    }

    /// True if the peer can handle the second version of the metadata format.
    pub fn has_v2(&self) -> (r: bool)
        ensures
            r == has_bit(self.reserved@, reserved::V2),
    {
        self.reserved[reserved::V2.0] & reserved::V2.1 != 0
    }

    pub fn to_bytes(&self) -> (r: [u8; HANDSHAKE_LEN])
        ensures
            r@ == handshake_bytes(*self),
    {
        let mut out: Vec<u8> = Vec::new();
        out.push(19);
        let name = protocol();
        out.extend_from_slice(name.as_slice());
        out.extend_from_slice(self.reserved.as_slice());
        out.extend_from_slice(self.info_hash.0.as_slice());
        out.extend_from_slice(self.peer_id.0.as_slice());
        assert(out@ =~= handshake_bytes(*self));
        let r = array_from::<HANDSHAKE_LEN>(out.as_slice());
        assert(out@.take(68) =~= out@);
        r
    }

    pub fn parse(buf: &[u8; HANDSHAKE_LEN]) -> (r: Result<Self, HandshakeError>)
        ensures
            match parse_handshake(buf@) {
                Err(e) => r == Err::<Self, HandshakeError>(e),
                Ok((area, info_hash, peer_id)) => r matches Ok(h) && h.reserved@ == area
                    && h.info_hash@ == info_hash && h.peer_id@ == peer_id,
            },
    {
        if buf[0] != 19 {
            return Err(HandshakeError::BadPstrLen(buf[0]));
        }
        let b = buf.as_slice();
        let name = protocol();
        if !same_bytes(&b[1..20], name.as_slice()) {
            return Err(HandshakeError::BadProtocol);
        }
        let area = array_from::<8>(&b[20..28]);
        let info_hash = Id20(array_from::<20>(&b[28..48]));
        let peer_id = Id20(array_from::<20>(&b[48..68]));
        proof {
            assert(area@ =~= buf@.subrange(20, 28));
            assert(info_hash@ =~= buf@.subrange(28, 48));
            assert(peer_id@ =~= buf@.subrange(48, 68));
        }
        Ok(Handshake { reserved: area, info_hash, peer_id })
    }
}

/// Reading back the bytes of a handshake gives its three parts.
pub proof fn parse_inverts_to_bytes(h: Handshake)
    ensures
        handshake_bytes(h).len() == HANDSHAKE_LEN,
        parse_handshake(handshake_bytes(h)) == Ok::<(Seq<u8>, Seq<u8>, Seq<u8>), HandshakeError>(
            (h.reserved@, h.info_hash@, h.peer_id@),
        ),
{
    let b = handshake_bytes(h);
    assert(b.subrange(1, 20) =~= protocol_name());
    assert(b.subrange(20, 28) =~= h.reserved@);
    assert(b.subrange(28, 48) =~= h.info_hash@);
    assert(b.subrange(48, 68) =~= h.peer_id@);
}

/// Where everything stands in a handshake: the length of the name, the name, eight bytes for what
/// the peer can do, the digest of the torrent and the name of the peer.
pub proof fn how_handshakes_are_written(h: Handshake)
    ensures
        ({
            let b = handshake_bytes(h);
            &&& b.len() == 68
            &&& b[0] == 19
            &&& b.subrange(1, 20) == seq![
                66u8, 105, 116, 84, 111, 114, 114, 101, 110, 116, 32, 112, 114, 111, 116, 111, 99,
                111, 108,
            ]
            &&& b.subrange(20, 28) == h.reserved@
            &&& b.subrange(28, 48) == h.info_hash@
            &&& b.subrange(48, 68) == h.peer_id@
        }),
{
    let b = handshake_bytes(h);
    assert(b.subrange(1, 20) =~= protocol_name());
    assert(b.subrange(20, 28) =~= h.reserved@);
    assert(b.subrange(28, 48) =~= h.info_hash@);
    assert(b.subrange(48, 68) =~= h.peer_id@);
}

/// A handshake is accepted exactly where it begins with the length and the name of the protocol.
pub proof fn which_handshakes_are_accepted(b: Seq<u8>)
    requires
        b.len() == 68,
    ensures
        parse_handshake(b) is Ok <==> b[0] == 19 && b.subrange(1, 20) == seq![
            66u8, 105, 116, 84, 111, 114, 114, 101, 110, 116, 32, 112, 114, 111, 116, 111, 99, 111,
            108,
        ],
        b[0] != 19 ==> parse_handshake(b) == Err::<(Seq<u8>, Seq<u8>, Seq<u8>), HandshakeError>(
            HandshakeError::BadPstrLen(b[0]),
        ),
        b[0] == 19 && parse_handshake(b) is Err ==> parse_handshake(b) == Err::<
            (Seq<u8>, Seq<u8>, Seq<u8>),
            HandshakeError,
        >(HandshakeError::BadProtocol),
        parse_handshake(b) matches Ok(x) ==> x.0 == b.subrange(20, 28) && x.1 == b.subrange(28, 48)
            && x.2 == b.subrange(48, 68),
{
}

/// What a handshake announces stands in its bits: of the sixth byte the fifth from the end is for
/// the extension protocol, of the eighth the last is for the overlay, the third from the end for
/// the fast extension and the fourth for the second version of the metadata.
pub proof fn what_the_bits_announce(
    h: Handshake,
    info_hash: Id20,
    peer_id: Id20,
    v2: bool,
    dht: bool,
    fast: bool,
)
    requires
        h.announces(info_hash, peer_id, v2, dht, fast),
    ensures
        h.info_hash == info_hash,
        h.peer_id == peer_id,
        h.reserved@.len() == 8,
        h.reserved@[5] == 16,
        h.reserved@[7] % 2 == 1 <==> dht,
        h.reserved@[7] / 4 % 2 == 1 <==> fast,
        h.reserved@[7] / 8 % 2 == 1 <==> v2,
        forall|i: int| 0 <= i < 8 && i != 5 && i != 7 ==> #[trigger] h.reserved@[i] == 0,
        has_bit(h.reserved@, reserved::EXT_PROTOCOL),
        has_bit(h.reserved@, reserved::V2) == v2,
        has_bit(h.reserved@, reserved::DHT) == dht,
        has_bit(h.reserved@, reserved::FAST) == fast,
{
    let x = h.reserved@[7];
    assert(0x10u8 & 0x10u8 != 0) by (bit_vector);
    assert((x & 0x08u8 != 0) == (x / 8 % 2 == 1) && (x & 0x04u8 != 0) == (x / 4 % 2 == 1) && (x
        & 0x01u8 != 0) == (x % 2 == 1)) by (bit_vector);
}

} // verus!
