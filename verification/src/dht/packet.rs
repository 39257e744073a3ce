//! What arrives at the socket of a node.

use vstd::prelude::*;

use crate::bencode::{
    bytes_field, copy_range, decode_all_external, digits_value, encode, parse_all,
    run_end, same_bytes, Bencode, DecodeLimits, Value,
};
use crate::dht::krpc::{error_reply, krpc_error, krpc_limits};
use crate::dht::server::{handle, InboundDhtState, ServerModel};
use crate::meta::hash::array_from;
use crate::net::SocketAddr;
use crate::wire::mse::{find_subsequence_from, occurs_at, random_bytes};
use crate::words;
use crate::words::{w_e, w_invalid_bencode, w_q, w_r, w_t, w_y};

verus! {

/// The key under which a transaction id stands.
pub open spec fn transaction_key() -> Seq<u8> {
    seq![49u8, 58, 116]
}

/// The transaction id behind a key at `at`: a length of 1 to 32, a colon, and as many bytes.
pub open spec fn transaction_behind(packet: Seq<u8>, at: int) -> Option<Seq<u8>> {
    let start = at + 3;
    let colon = run_end(packet, start);
    let len = digits_value(packet.subrange(start, colon));
    if colon == start || colon >= packet.len() || packet[colon] != 58 || len == 0 || len > 32
        || colon + 1 + len > packet.len() {
        None
    } else {
        Some(packet.subrange(colon + 1, colon + 1 + len))
    }
}

/// True when `found` is the transaction id that a packet that cannot be read seems to have.
pub open spec fn recovers(packet: Seq<u8>, found: Option<Seq<u8>>) -> bool {
    if forall|i: int| !#[trigger] occurs_at(packet, transaction_key(), i) {
        found is None
    } else {
        exists|i: int| #[trigger]
            occurs_at(packet, transaction_key(), i) && (forall|j: int|
                0 <= j < i ==> !#[trigger] occurs_at(packet, transaction_key(), j)) && found
                == transaction_behind(packet, i)
    }
}

/// The transaction id that a packet that cannot be read seems to have.
pub fn recover_transaction_id(packet: &[u8]) -> (r: Option<Vec<u8>>)
    ensures
        recovers(
            packet@,
            match r {
                Some(tid) => Some(tid@),
                None => None,
            },
        ),
        r matches Some(tid) ==> 1 <= tid.len() <= 32,
{
    let marker: [u8; 3] = [49, 58, 116];
    assert(marker@ =~= transaction_key());
    let at: usize = match find_subsequence_from(packet, marker.as_slice(), 0) {
        Some(i) => i,
        None => {
            assert forall|i: int| !#[trigger] occurs_at(packet@, transaction_key(), i) by {}
            return None;
        },
    };
    assert(occurs_at(packet@, transaction_key(), at as int));
    assert(transaction_key().len() == 3);
    let total: usize = packet.len();
    assert(at + 3 <= total);
    let start: usize = at + 3;
    let mut colon: usize = start;
    let mut len: usize = 0;
    let ghost end = run_end(packet@, start as int);
    assert(packet@.subrange(start as int, start as int) =~= seq![]);
    while colon < packet.len() && 48 <= packet[colon] && packet[colon] <= 57
        invariant
            start <= colon <= packet.len(),
            end == run_end(packet@, start as int),
            end == run_end(packet@, colon as int),
            len <= 1000,
            digits_value(packet@.subrange(start as int, colon as int)) == len || (len > 32
                && digits_value(packet@.subrange(start as int, colon as int)) > 32),
        decreases packet.len() - colon,
    {
        let ghost run = packet@.subrange(start as int, colon + 1);
        assert(run.drop_last() =~= packet@.subrange(start as int, colon as int));
        if len <= 32 {
            len = len * 10 + (packet[colon] - 48) as usize;
        }
        colon += 1;
    }
    assert(end == colon);
    if colon == start || colon >= packet.len() || packet[colon] != 58 || len == 0 || len > 32 {
        assert(transaction_behind(packet@, at as int) is None);
        return None;
    }
    if packet.len() - colon - 1 < len {
        assert(transaction_behind(packet@, at as int) is None);
        return None;
    }
    let tid = copy_range(packet, colon + 1, colon + 1 + len);
    assert(transaction_behind(packet@, at as int) == Some(tid@));
    Some(tid)
}

/// What a packet asks for.
#[derive(Debug)]
pub enum Inbound {
    /// Nothing.
    Nothing,
    /// To be answered.
    Reply(Vec<u8>),
    /// To be handed to whoever waits for the transaction.
    Response(Vec<u8>, Value),
}

/// The mathematical value of what a packet asks for.
pub enum InboundModel {
    Nothing,
    Reply(Seq<u8>),
    Response(Seq<u8>, Bencode),
}

impl View for Inbound {
    type V = InboundModel;

    open spec fn view(&self) -> InboundModel {
        match *self {
            Inbound::Nothing => InboundModel::Nothing,
            Inbound::Reply(b) => InboundModel::Reply(b@),
            Inbound::Response(t, v) => InboundModel::Response(t@, v@),
        }
    }
}

/// What a response or an error that was read asks for.
pub open spec fn response_of(msg: Bencode) -> InboundModel {
    match (bytes_field(msg, w_y()), bytes_field(msg, w_t())) {
        (Some(y), Some(tid)) => if y == w_r() || y == w_e() {
            InboundModel::Response(tid, msg)
        } else {
            InboundModel::Nothing
        },
        _ => InboundModel::Nothing,
    }
}

/// What a packet that could be read does, and what it asks for.
pub open spec fn received(
    s: ServerModel,
    msg: Bencode,
    from: SocketAddr,
    now: u64,
    fresh: [u8; 16],
) -> (ServerModel, InboundModel) {
    if bytes_field(msg, w_y()) == Some(w_q()) {
        let (s2, reply) = handle(s, msg, from, now, fresh);
        (
            s2,
            match reply {
                Some(b) => InboundModel::Reply(b),
                None => InboundModel::Nothing,
            },
        )
    } else {
        (s, response_of(msg))
    }
}

/// True of what a packet that cannot be read asks for: an error reply where it seems to have a
/// transaction id, and nothing where it does not.
pub open spec fn answers_unreadable(packet: Seq<u8>, asked: InboundModel) -> bool {
    match asked {
        InboundModel::Reply(b) => exists|tid: Seq<u8>| #[trigger]
            recovers(packet, Some(tid)) && b == encode(
                error_reply(tid, 203, w_invalid_bencode()),
            ),
        InboundModel::Nothing => recovers(packet, None),
        InboundModel::Response(_, _) => false,
    }
}

/// The limits on a packet.
pub open spec fn packet_limits() -> DecodeLimits {
    DecodeLimits { max_bytes: 2048, max_depth: 16, max_items: 1024 }
}

fn response_in(msg: Value) -> (r: Inbound)
    ensures
        r@ == response_of(msg@),
{
    let known = match msg.bytes_at(words::y().as_slice()) {
        Some(y) => same_bytes(y.as_slice(), words::r().as_slice()) || same_bytes(
            y.as_slice(),
            words::e().as_slice(),
        ),
        None => false,
    };
    if !known {
        return Inbound::Nothing;
    }
    let tid = match msg.bytes_at(words::t().as_slice()) {
        Some(tid) => {
            let copy = copy_range(tid.as_slice(), 0, tid.len());
            assert(copy@ =~= tid@);
            copy
        },
        None => {
            return Inbound::Nothing;
        },
    };
    Inbound::Response(tid, msg)
}

impl InboundDhtState {
    /// Take in a packet, where `fresh` is the secret that a change of the tokens would bring.
    pub fn receive_with(&mut self, packet: &[u8], from: &SocketAddr, now: u64, fresh: [u8; 16]) -> (r:
        Inbound)
        requires
            old(self).wf(),
        ensures
            final(self).wf(),
            match parse_all(packet@, packet_limits()) {
                Ok(msg) => (final(self)@, r@) == received(old(self)@, msg, *from, now, fresh),
                Err(_) => final(self)@ == old(self)@ && answers_unreadable(packet@, r@),
            },
    {
        let msg = match decode_all_external(packet, krpc_limits()) {
            Ok(msg) => msg,
            Err(_) => {
                return match recover_transaction_id(packet) {
                    Some(tid) => Inbound::Reply(
                        krpc_error(tid.as_slice(), 203, words::invalid_bencode()),
                    ),
                    None => Inbound::Nothing,
                };
            },
        };
        let asks = match msg.bytes_at(words::y().as_slice()) {
            Some(y) => same_bytes(y.as_slice(), words::q().as_slice()),
            None => false,
        };
        if asks {
            return match self.answer(&msg, from, now, fresh) {
                Some(b) => Inbound::Reply(b),
                None => Inbound::Nothing,
            };
        }
        response_in(msg)
    }

    /// Take in a packet.
    pub fn receive(&mut self, packet: &[u8], from: &SocketAddr, now: u64) -> (r: Inbound)
        requires
            old(self).wf(),
        ensures
            final(self).wf(),
            match parse_all(packet@, packet_limits()) {
                Ok(msg) => exists|fresh: [u8; 16]|
                    (final(self)@, r@) == #[trigger] received(old(self)@, msg, *from, now, fresh),
                Err(_) => final(self)@ == old(self)@ && answers_unreadable(packet@, r@),
            },
    {
        let fresh = array_from::<16>(random_bytes(16).as_slice());
        self.receive_with(packet, from, now, fresh)
    }
}

/// Take in a packet that came through a proxy: only what answers a question of ours counts.
pub fn receive_proxied(packet: &[u8]) -> (r: Inbound)
    ensures
        r@ == (match parse_all(packet@, packet_limits()) {
            Ok(msg) => response_of(msg),
            Err(_) => InboundModel::Nothing,
        }),
{
    match decode_all_external(packet, krpc_limits()) {
        Ok(msg) => response_in(msg),
        Err(_) => Inbound::Nothing,
    }
}

/// A question is handed to the server, and what it replies is what is sent; a response or an error
/// goes to whoever waits for its transaction; anything else is passed over. Only a question
/// changes what the server knows.
pub proof fn what_a_packet_asks_for(
    s: ServerModel,
    msg: Bencode,
    from: SocketAddr,
    now: u64,
    fresh: [u8; 16],
)
    ensures
        ({
            let (after, asked) = received(s, msg, from, now, fresh);
            let y = bytes_field(msg, seq![121u8]);
            let t = bytes_field(msg, seq![116u8]);
            &&& y == Some(seq![113u8]) ==> after == handle(s, msg, from, now, fresh).0
            &&& y == Some(seq![113u8]) ==> (asked matches InboundModel::Reply(b) ==> handle(
                s,
                msg,
                from,
                now,
                fresh,
            ).1 == Some(b))
            &&& y == Some(seq![113u8]) && handle(s, msg, from, now, fresh).1 is Some ==> asked is Reply
            &&& y != Some(seq![113u8]) ==> after == s
            &&& (y == Some(seq![114u8]) || y == Some(seq![101u8])) && t is Some ==> asked == InboundModel::Response(
                t->0,
                msg,
            )
            &&& y != Some(seq![113u8]) && !((y == Some(seq![114u8]) || y == Some(seq![101u8])) && t is Some) ==> asked
                is Nothing
        }),
{
    assert(seq![113u8][0] == 113u8 && seq![114u8][0] == 114u8 && seq![101u8][0] == 101u8);
}

} // verus!
