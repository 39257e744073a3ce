//! Messages that help two peers behind address translators to meet.

use bytes::Bytes;
use vstd::prelude::*;

use crate::be::{be32, be32_round_trip, read_u32, of_be32, write_u32};
use crate::buf::{bytes_from_vec, shared_bytes};
use crate::net::{address_of, compact, compact_round_trip, push_compact, read_compact, SocketAddr};
use crate::wire::extended::holepunch_type;

verus! {

/// A message that a hole is to be punched, is being punched or cannot be.
#[derive(Debug, Clone, Copy, PartialEq, Eq)]
pub struct HolepunchMsg {
    pub msg_type: u8,
    pub addr: SocketAddr,
    pub err_code: u32,
}

/// The bytes of a message; only an error carries a code.
pub open spec fn holepunch_bytes(msg_type: u8, addr: SocketAddr, err_code: u32) -> Seq<u8> {
    seq![msg_type] + seq![
        if addr.ip is V6 {
            1u8
        } else {
            0u8
        },
    ] + compact(addr) + be32(
        if msg_type == holepunch_type::ERROR {
            err_code
        } else {
            0
        },
    )
}

pub fn build_holepunch(msg_type: u8, addr: SocketAddr, err_code: u32) -> (r: Bytes)
    ensures
        shared_bytes(r) == holepunch_bytes(msg_type, addr, err_code),
{
    let mut buf: Vec<u8> = Vec::with_capacity(24);
    buf.push(msg_type);
    buf.push(
        if addr.is_ipv4() {
            0
        } else {
            1
        },
    );
    push_compact(&addr, &mut buf);
    write_u32(
        &mut buf,
        if msg_type == holepunch_type::ERROR {
            err_code
        } else {
            0
        },
    );
    assert(buf@ =~= holepunch_bytes(msg_type, addr, err_code));
    bytes_from_vec(buf)
}

/// The message that some bytes are: of a known family, neither shorter nor longer than it, and
/// with no code unless it is an error.
pub open spec fn holepunch_in(b: Seq<u8>) -> Option<HolepunchMsg> {
    if b.len() < 2 || b[1] > 1 {
        None
    } else {
        let v6 = b[1] == 1;
        let code_at = if v6 {
            20int
        } else {
            8int
        };
        if b.len() != code_at + 4 || (b[0] != holepunch_type::ERROR && of_be32(b.skip(code_at)) != 0)
        {
            None
        } else {
            Some(
                HolepunchMsg {
                    msg_type: b[0],
                    addr: address_of(b.skip(2), v6),
                    err_code: of_be32(b.skip(code_at)),
                },
            )
        }
    }
}

pub fn parse_holepunch(payload: &[u8]) -> (r: Option<HolepunchMsg>)
    ensures
        r == holepunch_in(payload@),
{
    if payload.len() < 2 {
        return None;
    }
    let msg_type: u8 = payload[0];
    let v6 = match payload[1] {
        0 => false,
        1 => true,
        _ => {
            return None;
        },
    };
    let code_at: usize = if v6 {
        20
    } else {
        8
    };
    if payload.len() != code_at + 4 {
        return None;
    }
    let addr = read_compact(payload, 2, v6);
    let err_code: u32 = read_u32(payload, code_at);
    if msg_type != holepunch_type::ERROR && err_code != 0 {
        return None;
    }
    Some(HolepunchMsg { msg_type, addr, err_code })
}

/// Reading a message gives back what was written; only an error keeps its code.
pub proof fn holepunch_round_trip(msg_type: u8, addr: SocketAddr, err_code: u32)
    ensures
        holepunch_in(holepunch_bytes(msg_type, addr, err_code)) == Some(
            HolepunchMsg {
                msg_type,
                addr,
                err_code: if msg_type == holepunch_type::ERROR {
                    err_code
                } else {
                    0
                },
            },
        ),
{
    let code = if msg_type == holepunch_type::ERROR {
        err_code
    } else {
        0
    };
    let b = holepunch_bytes(msg_type, addr, err_code);
    compact_round_trip(addr, be32(code));
    assert(b.skip(2) =~= compact(addr) + be32(code));
    be32_round_trip(code, seq![]);
    let code_at = 2 + compact(addr).len() as int;
    assert(b.skip(code_at) =~= be32(code) + Seq::<u8>::empty());
}

/// Where everything stands in a message: its kind, the family of the address (0 or 1), the address
/// and port, and the code, which is zero unless the kind is 2.
pub proof fn how_holepunch_messages_are_written(msg_type: u8, addr: SocketAddr, err_code: u32)
    ensures
        ({
            let b = holepunch_bytes(msg_type, addr, err_code);
            let n: int = if addr.ip is V6 {
                18
            } else {
                6
            };
            &&& b.len() == 6 + n
            &&& b[0] == msg_type
            &&& b[1] == (if addr.ip is V6 {
                1u8
            } else {
                0u8
            })
            &&& b.subrange(2, 2 + n) == compact(addr)
            &&& msg_type == 2 ==> of_be32(b.skip(2 + n)) == err_code
            &&& msg_type != 2 ==> of_be32(b.skip(2 + n)) == 0
        }),
{
    let b = holepunch_bytes(msg_type, addr, err_code);
    let n: int = if addr.ip is V6 {
        18
    } else {
        6
    };
    let code = if msg_type == 2 {
        err_code
    } else {
        0
    };
    compact_round_trip(addr, be32(code));
    assert(b.subrange(2, 2 + n) =~= compact(addr));
    be32_round_trip(code, seq![]);
    assert(b.skip(2 + n) =~= be32(code) + seq![]);
}

/// A message is accepted exactly where its family is known, it is as long as that family asks for,
/// and it has no code unless it is an error.
pub proof fn which_holepunch_messages_are_accepted(b: Seq<u8>)
    ensures
        holepunch_in(b) is Some <==> (b.len() == 12 && b[1] == 0 && (b[0] == 2 || of_be32(b.skip(8))
            == 0)) || (b.len() == 24 && b[1] == 1 && (b[0] == 2 || of_be32(b.skip(20)) == 0)),
        holepunch_in(b) matches Some(m) ==> m.msg_type == b[0] && m.addr == address_of(
            b.skip(2),
            b[1] == 1,
        ) && m.err_code == of_be32(b.skip(b.len() - 4)),
{
}

} // verus!
