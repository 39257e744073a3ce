//! Messages that carry the metadata of a torrent, piece by piece.

use bytes::Bytes;
use vstd::prelude::*;

use crate::bencode::entries::{adding_an_entry, with_entry};
use crate::bencode::{
    canonical_entries, decode_external, decode_inverts_encode, encode, encode_to_vec,
    height_entries, int_field, lookup, parse_prefix, push_entry, size_entries, Bencode, Value,
};
use crate::buf::{bytes_as_slice, bytes_from_vec, bytes_slice_from, shared_bytes};
use crate::order::lex_less_where_they_differ;
use crate::wire::extended::{extension_limits, spec_extension_limits, ut_metadata_type};
use crate::words::{msg_type, piece, total_size, w_msg_type, w_piece, w_total_size};

verus! {

/// The header of a message.
pub open spec fn metadata_header(kind: i64, piece: i64, total: Option<i64>) -> Seq<
    (Seq<u8>, Bencode),
> {
    with_entry(
        with_entry(
            with_entry(seq![], w_msg_type(), Some(Bencode::Int(kind as int))),
            w_piece(),
            Some(Bencode::Int(piece as int)),
        ),
        w_total_size(),
        match total {
            Some(n) => Some(Bencode::Int(n as int)),
            None => None,
        },
    )
}

/// The bytes of a message: a header, and a block behind it.
pub open spec fn metadata_bytes(kind: i64, piece: i64, total: Option<i64>, block: Seq<u8>) -> Seq<
    u8,
> {
    encode(Bencode::Dict(metadata_header(kind, piece, total))) + block
}

fn header_to_vec(kind: i64, index: i64, total: Option<i64>) -> (r: Vec<u8>)
    ensures
        r@ == encode(Bencode::Dict(metadata_header(kind, index, total))),
{
    let mut d: Vec<(Vec<u8>, Value)> = Vec::new();
    push_entry(&mut d, msg_type(), Value::Int(kind));
    push_entry(&mut d, piece(), Value::Int(index));
    if let Some(n) = total {
        push_entry(&mut d, total_size(), Value::Int(n));
    }
    encode_to_vec(&Value::Dict(d))
}

/// Build a request for a piece of the metadata.
pub fn ut_metadata_request(piece: i64) -> (r: Bytes)
    ensures
        shared_bytes(r) == metadata_bytes(ut_metadata_type::REQUEST, piece, None, seq![]),
{
    let out = header_to_vec(ut_metadata_type::REQUEST, piece, None);
    assert(out@ + Seq::<u8>::empty() =~= out@);
    bytes_from_vec(out)
}

/// Build the answer that carries a piece of the metadata.
pub fn ut_metadata_data(piece: i64, total_size: i64, block: &[u8]) -> (r: Bytes)
    ensures
        shared_bytes(r) == metadata_bytes(ut_metadata_type::DATA, piece, Some(total_size), block@),
{
    let mut out = header_to_vec(ut_metadata_type::DATA, piece, Some(total_size));
    let ghost header = out@;
    out.extend_from_slice(block);
    assert(out@ =~= header + block@);
    bytes_from_vec(out)
}

/// Build the answer that a piece of the metadata cannot be served.
pub fn ut_metadata_reject(piece: i64) -> (r: Bytes)
    ensures
        shared_bytes(r) == metadata_bytes(ut_metadata_type::REJECT, piece, None, seq![]),
{
    let out = header_to_vec(ut_metadata_type::REJECT, piece, None);
    assert(out@ + Seq::<u8>::empty() =~= out@);
    bytes_from_vec(out)
}

/// A message of the metadata exchange: its header, and the block behind it.
#[derive(Debug)]
pub struct UtMetadataMsg {
    pub msg_type: i64,
    pub piece: i64,
    pub total_size: Option<i64>,
    pub block: Bytes,
}

/// The mathematical value of a [`UtMetadataMsg`].
pub struct MetadataModel {
    pub msg_type: int,
    pub piece: int,
    pub total_size: Option<int>,
    pub block: Seq<u8>,
}

impl View for UtMetadataMsg {
    type V = MetadataModel;

    open spec fn view(&self) -> MetadataModel {
        MetadataModel {
            msg_type: self.msg_type as int,
            piece: self.piece as int,
            total_size: match self.total_size {
                Some(n) => Some(n as int),
                None => None,
            },
            block: shared_bytes(self.block),
        }
    }
}

/// The message that some bytes are: a dictionary that says of which kind and about which piece it
/// is, and what stands behind it.
pub open spec fn metadata_in(b: Seq<u8>) -> Option<MetadataModel> {
    match parse_prefix(b, spec_extension_limits()) {
        Err(_) => None,
        Ok((v, end)) => match (int_field(v, w_msg_type()), int_field(v, w_piece())) {
            (Some(msg_type), Some(piece)) => Some(
                MetadataModel {
                    msg_type,
                    piece,
                    total_size: int_field(v, w_total_size()),
                    block: b.skip(end),
                },
            ),
            _ => None,
        },
    }
}

/// Read a message of the metadata exchange.
pub fn parse_ut_metadata(payload: Bytes) -> (r: Option<UtMetadataMsg>)
    ensures
        match metadata_in(shared_bytes(payload)) {
            Some(m) => r matches Some(got) && got@ == m,
            None => r is None,
        },
{
    let parsed = match decode_external(bytes_as_slice(&payload), extension_limits()) {
        Err(_) => {
            return None;
        },
        Ok(p) => p,
    };
    let kind = match parsed.value.int_at(msg_type().as_slice()) {
        Some(n) => n,
        None => {
            return None;
        },
    };
    let index = match parsed.value.int_at(piece().as_slice()) {
        Some(n) => n,
        None => {
            return None;
        },
    };
    let total = parsed.value.int_at(total_size().as_slice());
    let block = bytes_slice_from(&payload, parsed.end);
    Some(UtMetadataMsg { msg_type: kind, piece: index, total_size: total, block })
}

/// Reading a message gives back its header and its block.
pub proof fn metadata_round_trip(kind: i64, piece: i64, total: Option<i64>, block: Seq<u8>)
    requires
        metadata_bytes(kind, piece, total, block).len() <= spec_extension_limits().max_bytes,
    ensures
        metadata_in(metadata_bytes(kind, piece, total, block)) == Some(
            MetadataModel {
                msg_type: kind as int,
                piece: piece as int,
                total_size: match total {
                    Some(n) => Some(n as int),
                    None => None,
                },
                block,
            },
        ),
{
    let k: Option<Bencode> = Some(Bencode::Int(kind as int));
    let p: Option<Bencode> = Some(Bencode::Int(piece as int));
    let t: Option<Bencode> = match total {
        Some(n) => Some(Bencode::Int(n as int)),
        None => None,
    };
    lex_less_where_they_differ(w_msg_type(), w_piece(), 0);
    lex_less_where_they_differ(w_msg_type(), w_total_size(), 0);
    lex_less_where_they_differ(w_piece(), w_total_size(), 0);
    let d0: Seq<(Seq<u8>, Bencode)> = seq![];
    assert(canonical_entries(d0));
    assert(size_entries(d0) == 0);
    assert(height_entries(d0) == 0);
    adding_an_entry(d0, w_msg_type(), k);
    let d1 = with_entry(d0, w_msg_type(), k);
    adding_an_entry(d1, w_piece(), p);
    let d2 = with_entry(d1, w_piece(), p);
    adding_an_entry(d2, w_total_size(), t);
    let d = with_entry(d2, w_total_size(), t);
    assert(lookup(d0, w_total_size()) is None);
    let v = Bencode::Dict(d);
    assert(encode(v).len() + block.len() == metadata_bytes(kind, piece, total, block).len());
    decode_inverts_encode(v, block, spec_extension_limits());
    let b = metadata_bytes(kind, piece, total, block);
    assert(b.skip(encode(v).len() as int) =~= block);
    assert(lookup(d, w_msg_type()) == k);
    assert(lookup(d, w_piece()) == p);
    assert(lookup(d, w_total_size()) == t);
}

/// What a message about the metadata says is read from the keys that name it: its kind and its
/// piece, which both have to be there, and the whole size where that is there. The block is what
/// stands behind the dictionary.
pub proof fn what_metadata_messages_say(b: Seq<u8>)
    ensures
        metadata_in(b) is Some <==> (parse_prefix(b, spec_extension_limits()) matches Ok((v, end))
            && int_field(v, seq![109u8, 115, 103, 95, 116, 121, 112, 101]) is Some && int_field(v, seq![112u8, 105, 101, 99, 101]) is Some),
        metadata_in(b) matches Some(m) ==> {
            let (v, end) = parse_prefix(b, spec_extension_limits())->Ok_0;
            &&& int_field(v, seq![109u8, 115, 103, 95, 116, 121, 112, 101]) == Some(m.msg_type)
            &&& int_field(v, seq![112u8, 105, 101, 99, 101]) == Some(m.piece)
            &&& int_field(v, seq![116u8, 111, 116, 97, 108, 95, 115, 105, 122, 101]) == m.total_size
            &&& m.block == b.skip(end)
        },
{
}

} // verus!
