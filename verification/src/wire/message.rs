//! Peer messages: a frame is a length, an id and a payload; a length of zero is a keep-alive.

use bytes::{Bytes, BytesMut};
use vstd::prelude::*;

use crate::be::{be16, be16_round_trip, be32, be32_round_trip, of_be16, of_be32};
use crate::buf::{
    buffer_advance, buffer_as_slice, buffer_bytes, buffer_extend, buffer_freeze, buffer_get_array32,
    buffer_get_u16, buffer_get_u32, buffer_get_u8, buffer_put_u16, buffer_put_u32, buffer_put_u8,
    buffer_take, buffer_with_capacity, bytes_as_slice, bytes_clone, shared_bytes,
};

pub mod id;

verus! {

/// Practical upper bound for a single peer message; chunks and metadata pieces are 16 KiB.
pub const MAX_MESSAGE_BYTES: usize = 2_097_152;

#[derive(Clone, Copy, Debug, PartialEq, Eq, Structural)]
pub enum MessageError {
    Truncated { id: u8, expected: usize, got: usize },
    UnknownId(u8),
    TooLarge(usize),
}

#[derive(Debug)]
pub enum Message {
    KeepAlive,
    Choke,
    Unchoke,
    Interested,
    NotInterested,
    Have { piece_index: u32 },
    Bitfield(Bytes),
    Request { index: u32, begin: u32, length: u32 },
    Piece { index: u32, begin: u32, data: Bytes },
    Cancel { index: u32, begin: u32, length: u32 },
    Port(u16),
    HaveAll,
    HaveNone,
    RejectRequest { index: u32, begin: u32, length: u32 },
    /// Advisory piece suggestion of the fast extension.
    SuggestPiece(u32),
    /// Piece that may be requested while choked.
    AllowedFast(u32),
    Extended { ext_id: u8, payload: Bytes },
    /// Asks for `length` hashes at `base_layer` of a file's Merkle tree from `index`, with
    /// `proof_layers` levels of sibling hashes.
    HashRequest {
        pieces_root: [u8; 32],
        base_layer: u32,
        index: u32,
        length: u32,
        proof_layers: u32,
    },
    /// The requested hashes and the sibling hashes, 32 bytes each.
    Hashes {
        pieces_root: [u8; 32],
        base_layer: u32,
        index: u32,
        length: u32,
        proof_layers: u32,
        hashes: Bytes,
    },
    /// The matching hash request cannot be fulfilled.
    HashReject {
        pieces_root: [u8; 32],
        base_layer: u32,
        index: u32,
        length: u32,
        proof_layers: u32,
    },
    /// A message whose id is not known; the payload is kept as it came.
    Unknown { id: u8, payload: Bytes },
}

impl Clone for Message {
    fn clone(&self) -> (r: Self)
        ensures
            r@ == self@,
    {
        match self {
            Message::KeepAlive => Message::KeepAlive,
            Message::Choke => Message::Choke,
            Message::Unchoke => Message::Unchoke,
            Message::Interested => Message::Interested,
            Message::NotInterested => Message::NotInterested,
            Message::Have { piece_index } => Message::Have { piece_index: *piece_index },
            Message::Bitfield(b) => Message::Bitfield(bytes_clone(b)),
            Message::Request { index, begin, length } => Message::Request {
                index: *index,
                begin: *begin,
                length: *length,
            },
            Message::Piece { index, begin, data } => Message::Piece {
                index: *index,
                begin: *begin,
                data: bytes_clone(data),
            },
            Message::Cancel { index, begin, length } => Message::Cancel {
                index: *index,
                begin: *begin,
                length: *length,
            },
            Message::Port(port) => Message::Port(*port),
            Message::HaveAll => Message::HaveAll,
            Message::HaveNone => Message::HaveNone,
            Message::RejectRequest { index, begin, length } => Message::RejectRequest {
                index: *index,
                begin: *begin,
                length: *length,
            },
            Message::SuggestPiece(index) => Message::SuggestPiece(*index),
            Message::AllowedFast(index) => Message::AllowedFast(*index),
            Message::Extended { ext_id, payload } => Message::Extended {
                ext_id: *ext_id,
                payload: bytes_clone(payload),
            },
            Message::HashRequest { pieces_root, base_layer, index, length, proof_layers } => {
                Message::HashRequest {
                    pieces_root: *pieces_root,
                    base_layer: *base_layer,
                    index: *index,
                    length: *length,
                    proof_layers: *proof_layers,
                }
            },
            Message::Hashes { pieces_root, base_layer, index, length, proof_layers, hashes } => {
                Message::Hashes {
                    pieces_root: *pieces_root,
                    base_layer: *base_layer,
                    index: *index,
                    length: *length,
                    proof_layers: *proof_layers,
                    hashes: bytes_clone(hashes),
                }
            },
            Message::HashReject { pieces_root, base_layer, index, length, proof_layers } => {
                Message::HashReject {
                    pieces_root: *pieces_root,
                    base_layer: *base_layer,
                    index: *index,
                    length: *length,
                    proof_layers: *proof_layers,
                }
            },
            Message::Unknown { id, payload } => Message::Unknown {
                id: *id,
                payload: bytes_clone(payload),
            },
        }
    }
}

/// The mathematical value of a [`Message`].
pub enum Frame {
    KeepAlive,
    Choke,
    Unchoke,
    Interested,
    NotInterested,
    Have { piece_index: u32 },
    Bitfield(Seq<u8>),
    Request { index: u32, begin: u32, length: u32 },
    Piece { index: u32, begin: u32, data: Seq<u8> },
    Cancel { index: u32, begin: u32, length: u32 },
    Port(u16),
    HaveAll,
    HaveNone,
    RejectRequest { index: u32, begin: u32, length: u32 },
    SuggestPiece(u32),
    AllowedFast(u32),
    Extended { ext_id: u8, payload: Seq<u8> },
    HashRequest { span: HashSpan },
    Hashes { span: HashSpan, hashes: Seq<u8> },
    HashReject { span: HashSpan },
    Unknown { id: u8, payload: Seq<u8> },
}

/// Which hashes of which tree a hash message is about.
pub struct HashSpan {
    pub pieces_root: Seq<u8>,
    pub base_layer: u32,
    pub index: u32,
    pub length: u32,
    pub proof_layers: u32,
}

impl View for Message {
    type V = Frame;

    open spec fn view(&self) -> Frame {
        match *self {
            Message::KeepAlive => Frame::KeepAlive,
            Message::Choke => Frame::Choke,
            Message::Unchoke => Frame::Unchoke,
            Message::Interested => Frame::Interested,
            Message::NotInterested => Frame::NotInterested,
            Message::Have { piece_index } => Frame::Have { piece_index },
            Message::Bitfield(b) => Frame::Bitfield(shared_bytes(b)),
            Message::Request { index, begin, length } => Frame::Request { index, begin, length },
            Message::Piece { index, begin, data } => Frame::Piece {
                index,
                begin,
                data: shared_bytes(data),
            },
            Message::Cancel { index, begin, length } => Frame::Cancel { index, begin, length },
            Message::Port(port) => Frame::Port(port),
            Message::HaveAll => Frame::HaveAll,
            Message::HaveNone => Frame::HaveNone,
            Message::RejectRequest { index, begin, length } => Frame::RejectRequest {
                index,
                begin,
                length,
            },
            Message::SuggestPiece(index) => Frame::SuggestPiece(index),
            Message::AllowedFast(index) => Frame::AllowedFast(index),
            Message::Extended { ext_id, payload } => Frame::Extended {
                ext_id,
                payload: shared_bytes(payload),
            },
            Message::HashRequest { pieces_root, base_layer, index, length, proof_layers } =>
                Frame::HashRequest {
                span: HashSpan {
                    pieces_root: pieces_root@,
                    base_layer,
                    index,
                    length,
                    proof_layers,
                },
            },
            Message::Hashes { pieces_root, base_layer, index, length, proof_layers, hashes } =>
                Frame::Hashes {
                span: HashSpan {
                    pieces_root: pieces_root@,
                    base_layer,
                    index,
                    length,
                    proof_layers,
                },
                hashes: shared_bytes(hashes),
            },
            Message::HashReject { pieces_root, base_layer, index, length, proof_layers } =>
                Frame::HashReject {
                span: HashSpan {
                    pieces_root: pieces_root@,
                    base_layer,
                    index,
                    length,
                    proof_layers,
                },
            },
            Message::Unknown { id, payload } => Frame::Unknown {
                id,
                payload: shared_bytes(payload),
            },
        }
    }
}

/// The three numbers of a block request.
pub open spec fn block_bytes(index: u32, begin: u32, length: u32) -> Seq<u8> {
    be32(index) + be32(begin) + be32(length)
}

/// The root and the four numbers of a hash message.
pub open spec fn span_bytes(span: HashSpan) -> Seq<u8> {
    span.pieces_root + be32(span.base_layer) + be32(span.index) + be32(span.length) + be32(
        span.proof_layers,
    )
}

/// The id and the payload of a frame.
pub open spec fn frame_body(f: Frame) -> Seq<u8> {
    match f {
        Frame::KeepAlive => seq![],
        Frame::Choke => seq![id::CHOKE],
        Frame::Unchoke => seq![id::UNCHOKE],
        Frame::Interested => seq![id::INTERESTED],
        Frame::NotInterested => seq![id::NOT_INTERESTED],
        Frame::Have { piece_index } => seq![id::HAVE] + be32(piece_index),
        Frame::Bitfield(b) => seq![id::BITFIELD] + b,
        Frame::Request { index, begin, length } => seq![id::REQUEST] + block_bytes(
            index,
            begin,
            length,
        ),
        Frame::Piece { index, begin, data } => seq![id::PIECE] + (be32(index) + be32(begin) + data),
        Frame::Cancel { index, begin, length } => seq![id::CANCEL] + block_bytes(
            index,
            begin,
            length,
        ),
        Frame::Port(port) => seq![id::PORT] + be16(port),
        Frame::HaveAll => seq![id::HAVE_ALL],
        Frame::HaveNone => seq![id::HAVE_NONE],
        Frame::RejectRequest { index, begin, length } => seq![id::REJECT_REQUEST] + block_bytes(
            index,
            begin,
            length,
        ),
        Frame::SuggestPiece(index) => seq![id::SUGGEST_PIECE] + be32(index),
        Frame::AllowedFast(index) => seq![id::ALLOWED_FAST] + be32(index),
        Frame::Extended { ext_id, payload } => seq![id::EXTENDED] + (seq![ext_id] + payload),
        Frame::HashRequest { span } => seq![id::HASH_REQUEST] + span_bytes(span),
        Frame::Hashes { span, hashes } => seq![id::HASHES] + (span_bytes(span) + hashes),
        Frame::HashReject { span } => seq![id::HASH_REJECT] + span_bytes(span),
        Frame::Unknown { id, payload } => seq![id] + payload,
    }
}

/// A frame behind its length, of which the low 32 bits are written.
pub open spec fn frame_bytes(f: Frame) -> Seq<u8> {
    be32(frame_body(f).len() as u32) + frame_body(f)
}

/// True of the ids that have a message of their own.
pub open spec fn known_id(i: u8) -> bool {
    i <= id::PORT || id::SUGGEST_PIECE <= i <= id::ALLOWED_FAST || id::EXTENDED <= i
        <= id::HASH_REJECT
}

/// What a payload behind an id says; where it is refused, how much of it has been read.
#[verifier::opaque]
pub open spec fn parse_payload(i: u8, p: Seq<u8>) -> Result<Frame, (MessageError, int)> {
    let short = |expected: usize|
        Err::<Frame, (MessageError, int)>(
            (MessageError::Truncated { id: i, expected, got: p.len() as usize }, 0),
        );
    let span = HashSpan {
        pieces_root: p.take(32),
        base_layer: of_be32(p.skip(32)),
        index: of_be32(p.skip(36)),
        length: of_be32(p.skip(40)),
        proof_layers: of_be32(p.skip(44)),
    };
    if i == id::CHOKE {
        Ok(Frame::Choke)
    } else if i == id::UNCHOKE {
        Ok(Frame::Unchoke)
    } else if i == id::INTERESTED {
        Ok(Frame::Interested)
    } else if i == id::NOT_INTERESTED {
        Ok(Frame::NotInterested)
    } else if i == id::HAVE {
        if p.len() != 4 {
            short(4)
        } else {
            Ok(Frame::Have { piece_index: of_be32(p) })
        }
    } else if i == id::BITFIELD {
        Ok(Frame::Bitfield(p))
    } else if i == id::REQUEST {
        if p.len() != 12 {
            short(12)
        } else {
            Ok(
                Frame::Request {
                    index: of_be32(p),
                    begin: of_be32(p.skip(4)),
                    length: of_be32(p.skip(8)),
                },
            )
        }
    } else if i == id::PIECE {
        if p.len() < 8 {
            short(8)
        } else {
            Ok(
                Frame::Piece {
                    index: of_be32(p),
                    begin: of_be32(p.skip(4)),
                    data: p.skip(8),
                },
            )
        }
    } else if i == id::CANCEL {
        if p.len() != 12 {
            short(12)
        } else {
            Ok(
                Frame::Cancel {
                    index: of_be32(p),
                    begin: of_be32(p.skip(4)),
                    length: of_be32(p.skip(8)),
                },
            )
        }
    } else if i == id::PORT {
        if p.len() != 2 {
            short(2)
        } else {
            Ok(Frame::Port(of_be16(p)))
        }
    } else if i == id::HAVE_ALL {
        if p.len() != 0 {
            short(0)
        } else {
            Ok(Frame::HaveAll)
        }
    } else if i == id::HAVE_NONE {
        if p.len() != 0 {
            short(0)
        } else {
            Ok(Frame::HaveNone)
        }
    } else if i == id::REJECT_REQUEST {
        if p.len() != 12 {
            short(12)
        } else {
            Ok(
                Frame::RejectRequest {
                    index: of_be32(p),
                    begin: of_be32(p.skip(4)),
                    length: of_be32(p.skip(8)),
                },
            )
        }
    } else if i == id::SUGGEST_PIECE {
        if p.len() != 4 {
            short(4)
        } else {
            Ok(Frame::SuggestPiece(of_be32(p)))
        }
    } else if i == id::ALLOWED_FAST {
        if p.len() != 4 {
            short(4)
        } else {
            Ok(Frame::AllowedFast(of_be32(p)))
        }
    } else if i == id::EXTENDED {
        if p.len() < 1 {
            short(1)
        } else {
            Ok(Frame::Extended { ext_id: p[0], payload: p.skip(1) })
        }
    } else if i == id::HASH_REQUEST {
        if p.len() != 48 {
            short(48)
        } else {
            Ok(Frame::HashRequest { span })
        }
    } else if i == id::HASH_REJECT {
        if p.len() != 48 {
            short(48)
        } else {
            Ok(Frame::HashReject { span })
        }
    } else if i == id::HASHES {
        let expected = (span.length + span.proof_layers) * 32;
        if p.len() < 48 {
            short(48)
        } else if expected > usize::MAX {
            Err((MessageError::TooLarge(usize::MAX), 48))
        } else if p.len() - 48 != expected {
            Err(
                (
                    MessageError::Truncated {
                        id: i,
                        expected: expected as usize,
                        got: (p.len() - 48) as usize,
                    },
                    48,
                ),
            )
        } else {
            Ok(Frame::Hashes { span, hashes: p.skip(48) })
        }
    } else {
        Ok(Frame::Unknown { id: i, payload: p })
    }
}

/// What the start of a buffer holds, and how many bytes a reader takes off it.
pub enum Step {
    /// The frame is not complete yet; nothing is taken.
    Incomplete,
    Failed { error: MessageError, consumed: int },
    Done { frame: Frame, consumed: int },
}

/// Read the start of `b`.
pub open spec fn parse_frame(b: Seq<u8>) -> Step {
    let len = of_be32(b) as int;
    if b.len() < 4 {
        Step::Incomplete
    } else if len > MAX_MESSAGE_BYTES {
        Step::Failed { error: MessageError::TooLarge(len as usize), consumed: 0 }
    } else if b.len() < 4 + len {
        Step::Incomplete
    } else if len == 0 {
        Step::Done { frame: Frame::KeepAlive, consumed: 4 }
    } else {
        match parse_payload(b[4], b.subrange(5, 4 + len)) {
            Ok(frame) => Step::Done { frame, consumed: 4 + len },
            Err((error, read)) => Step::Failed { error, consumed: 5 + read },
        }
    }
}

#[derive(Clone, Copy, Debug)]
pub struct MessageEncoder;

#[derive(Clone, Copy, Debug, Default)]
pub struct MessageDecoder;

fn encode_body(msg: &Message) -> (buf: BytesMut)
    requires
        frame_body(msg@).len() <= isize::MAX,
    ensures
        buffer_bytes(buf) == frame_body(msg@),
{
    let mut buf = buffer_with_capacity(64);
    match msg {
        Message::KeepAlive => {},
        Message::Choke => {
            buffer_put_u8(&mut buf, id::CHOKE);
        },
        Message::Unchoke => {
            buffer_put_u8(&mut buf, id::UNCHOKE);
        },
        Message::Interested => {
            buffer_put_u8(&mut buf, id::INTERESTED);
        },
        Message::NotInterested => {
            buffer_put_u8(&mut buf, id::NOT_INTERESTED);
        },
        Message::Have { piece_index } => {
            buffer_put_u8(&mut buf, id::HAVE);
            buffer_put_u32(&mut buf, *piece_index);
        },
        Message::Bitfield(b) => {
            buffer_put_u8(&mut buf, id::BITFIELD);
            buffer_extend(&mut buf, bytes_as_slice(b));
        },
        Message::Request { index, begin, length } => {
            buffer_put_u8(&mut buf, id::REQUEST);
            buffer_put_u32(&mut buf, *index);
            buffer_put_u32(&mut buf, *begin);
            buffer_put_u32(&mut buf, *length);
        },
        Message::Cancel { index, begin, length } => {
            buffer_put_u8(&mut buf, id::CANCEL);
            buffer_put_u32(&mut buf, *index);
            buffer_put_u32(&mut buf, *begin);
            buffer_put_u32(&mut buf, *length);
        },
        Message::RejectRequest { index, begin, length } => {
            buffer_put_u8(&mut buf, id::REJECT_REQUEST);
            buffer_put_u32(&mut buf, *index);
            buffer_put_u32(&mut buf, *begin);
            buffer_put_u32(&mut buf, *length);
        },
        Message::Piece { index, begin, data } => {
            buffer_put_u8(&mut buf, id::PIECE);
            buffer_put_u32(&mut buf, *index);
            buffer_put_u32(&mut buf, *begin);
            buffer_extend(&mut buf, bytes_as_slice(data));
        },
        Message::Port(port) => {
            buffer_put_u8(&mut buf, id::PORT);
            buffer_put_u16(&mut buf, *port);
        },
        Message::HaveAll => {
            buffer_put_u8(&mut buf, id::HAVE_ALL);
        },
        Message::HaveNone => {
            buffer_put_u8(&mut buf, id::HAVE_NONE);
        },
        Message::SuggestPiece(index) => {
            buffer_put_u8(&mut buf, id::SUGGEST_PIECE);
            buffer_put_u32(&mut buf, *index);
        },
        Message::AllowedFast(index) => {
            buffer_put_u8(&mut buf, id::ALLOWED_FAST);
            buffer_put_u32(&mut buf, *index);
        },
        Message::Extended { ext_id, payload } => {
            buffer_put_u8(&mut buf, id::EXTENDED);
            buffer_put_u8(&mut buf, *ext_id);
            buffer_extend(&mut buf, bytes_as_slice(payload));
        },
        Message::HashRequest { pieces_root, base_layer, index, length, proof_layers } => {
            buffer_put_u8(&mut buf, id::HASH_REQUEST);
            buffer_extend(&mut buf, pieces_root.as_slice());
            buffer_put_u32(&mut buf, *base_layer);
            buffer_put_u32(&mut buf, *index);
            buffer_put_u32(&mut buf, *length);
            buffer_put_u32(&mut buf, *proof_layers);
        },
        Message::Hashes { pieces_root, base_layer, index, length, proof_layers, hashes } => {
            buffer_put_u8(&mut buf, id::HASHES);
            buffer_extend(&mut buf, pieces_root.as_slice());
            buffer_put_u32(&mut buf, *base_layer);
            buffer_put_u32(&mut buf, *index);
            buffer_put_u32(&mut buf, *length);
            buffer_put_u32(&mut buf, *proof_layers);
            buffer_extend(&mut buf, bytes_as_slice(hashes));
        },
        Message::HashReject { pieces_root, base_layer, index, length, proof_layers } => {
            buffer_put_u8(&mut buf, id::HASH_REJECT);
            buffer_extend(&mut buf, pieces_root.as_slice());
            buffer_put_u32(&mut buf, *base_layer);
            buffer_put_u32(&mut buf, *index);
            buffer_put_u32(&mut buf, *length);
            buffer_put_u32(&mut buf, *proof_layers);
        },
        Message::Unknown { id, payload } => {
            buffer_put_u8(&mut buf, *id);
            buffer_extend(&mut buf, bytes_as_slice(payload));
        },
    }
    assert(buffer_bytes(buf) =~= frame_body(msg@));
    buf
}

impl MessageEncoder {
    /// The bytes of a message, ready to be written, length included.
    pub fn encode(msg: &Message) -> (r: Bytes)
        requires
            frame_body(msg@).len() + 4 <= isize::MAX,
        ensures
            shared_bytes(r) == frame_bytes(msg@),
    {
        let body = encode_body(msg);
        let bytes = buffer_as_slice(&body);
        let mut buf = buffer_with_capacity(64);
        buffer_put_u32(&mut buf, bytes.len() as u32);
        buffer_extend(&mut buf, bytes);
        assert(buffer_bytes(buf) =~= frame_bytes(msg@));
        buffer_freeze(buf)
    }
}

fn truncated(id: u8, expected: usize, got: usize) -> (r: Result<Option<Message>, MessageError>)
    ensures
        r == Err::<Option<Message>, MessageError>(MessageError::Truncated { id, expected, got }),
{
    Err(MessageError::Truncated { id, expected, got })
}

impl MessageDecoder {
    /// Take one message off the buffer; `Ok(None)` when more bytes are needed.
    #[verifier::rlimit(30)]
    #[verifier::spinoff_prover]
    pub fn try_decode(buf: &mut BytesMut) -> (r: Result<Option<Message>, MessageError>)
        ensures
            match parse_frame(buffer_bytes(*old(buf))) {
                Step::Incomplete => r matches Ok(None) && buffer_bytes(*final(buf))
                    == buffer_bytes(*old(buf)),
                Step::Failed { error, consumed } => r matches Err(e) && e == error && buffer_bytes(
                    *final(buf),
                ) == buffer_bytes(*old(buf)).skip(consumed),
                Step::Done { frame, consumed } => r matches Ok(Some(m)) && m@ == frame
                    && buffer_bytes(*final(buf)) == buffer_bytes(*old(buf)).skip(consumed),
            },
    {
        reveal(parse_payload);
        let ghost whole = buffer_bytes(*buf);
        let bytes = buffer_as_slice(buf);
        if bytes.len() < 4 {
            return Ok(None);
        }
        let body_len: usize = crate::be::read_u32(bytes, 0) as usize;
        assert(whole.skip(0) =~= whole);
        if body_len > MAX_MESSAGE_BYTES {
            assert(whole.skip(0) =~= whole);
            return Err(MessageError::TooLarge(body_len));
        }
        if bytes.len() < 4 + body_len {
            return Ok(None);
        }
        buffer_advance(buf, 4);
        if body_len == 0 {
            return Ok(Some(Message::KeepAlive));
        }
        let id = buffer_get_u8(buf);
        let remaining: usize = body_len - 1;
        let ghost p = whole.subrange(5, 4 + body_len);
        proof {
            assert(whole.skip(4).skip(1) =~= whole.skip(5));
            assert(p.len() == remaining);
            assert(id == whole[4]);
            assert(parse_frame(whole) == (match parse_payload(id, p) {
                Ok(frame) => Step::Done { frame, consumed: 4 + body_len },
                Err((error, read)) => Step::Failed { error, consumed: 5 + read },
            }));
            assert(whole.skip(5).take(remaining as int) =~= p);
            assert(whole.skip(5).skip(remaining as int) =~= whole.skip(4 + body_len));
        }
        if id == id::CHOKE {
            let rest = buffer_take(buf, remaining);
            Ok(Some(Message::Choke))
        } else if id == id::UNCHOKE {
            let rest = buffer_take(buf, remaining);
            Ok(Some(Message::Unchoke))
        } else if id == id::INTERESTED {
            let rest = buffer_take(buf, remaining);
            Ok(Some(Message::Interested))
        } else if id == id::NOT_INTERESTED {
            let rest = buffer_take(buf, remaining);
            Ok(Some(Message::NotInterested))
        } else if id == id::HAVE {
            if remaining != 4 {
                return truncated(id, 4, remaining);
            }
            Ok(Some(Message::Have { piece_index: buffer_get_u32(buf) }))
        } else if id == id::BITFIELD {
            Ok(Some(Message::Bitfield(buffer_take(buf, remaining))))
        } else if id == id::REQUEST || id == id::CANCEL || id == id::REJECT_REQUEST {
            if remaining != 12 {
                return truncated(id, 12, remaining);
            }
            let index: u32 = buffer_get_u32(buf);
            let begin: u32 = buffer_get_u32(buf);
            let length: u32 = buffer_get_u32(buf);
            proof {
                assert(whole.skip(5).skip(4).skip(4).skip(4) =~= whole.skip(17));
            }
            if id == id::REQUEST {
                Ok(Some(Message::Request { index, begin, length }))
            } else if id == id::CANCEL {
                Ok(Some(Message::Cancel { index, begin, length }))
            } else {
                Ok(Some(Message::RejectRequest { index, begin, length }))
            }
        } else if id == id::PIECE {
            if remaining < 8 {
                return truncated(id, 8, remaining);
            }
            let index: u32 = buffer_get_u32(buf);
            let begin: u32 = buffer_get_u32(buf);
            let data = buffer_take(buf, remaining - 8);
            proof {
                assert(shared_bytes(data) =~= p.skip(8));
                assert(buffer_bytes(*buf) =~= whole.skip(4 + body_len));
            }
            Ok(Some(Message::Piece { index, begin, data }))
        } else if id == id::PORT {
            if remaining != 2 {
                return truncated(id, 2, remaining);
            }
            Ok(Some(Message::Port(buffer_get_u16(buf))))
        } else if id == id::HAVE_ALL {
            if remaining != 0 {
                return truncated(id, 0, remaining);
            }
            Ok(Some(Message::HaveAll))
        } else if id == id::HAVE_NONE {
            if remaining != 0 {
                return truncated(id, 0, remaining);
            }
            Ok(Some(Message::HaveNone))
        } else if id == id::SUGGEST_PIECE {
            if remaining != 4 {
                return truncated(id, 4, remaining);
            }
            Ok(Some(Message::SuggestPiece(buffer_get_u32(buf))))
        } else if id == id::ALLOWED_FAST {
            if remaining != 4 {
                return truncated(id, 4, remaining);
            }
            Ok(Some(Message::AllowedFast(buffer_get_u32(buf))))
        } else if id == id::EXTENDED {
            if remaining < 1 {
                return truncated(id, 1, remaining);
            }
            let ext_id = buffer_get_u8(buf);
            let payload = buffer_take(buf, remaining - 1);
            proof {
                assert(shared_bytes(payload) =~= p.skip(1));
                assert(buffer_bytes(*buf) =~= whole.skip(4 + body_len));
            }
            Ok(Some(Message::Extended { ext_id, payload }))
        } else if id == id::HASH_REQUEST || id == id::HASH_REJECT || id == id::HASHES {
            if id == id::HASHES && remaining < 48 {
                return truncated(id, 48, remaining);
            }
            if id != id::HASHES && remaining != 48 {
                return truncated(id, 48, remaining);
            }
            let pieces_root = buffer_get_array32(buf);
            let base_layer: u32 = buffer_get_u32(buf);
            let index: u32 = buffer_get_u32(buf);
            let length: u32 = buffer_get_u32(buf);
            let proof_layers: u32 = buffer_get_u32(buf);
            proof {
                assert(pieces_root@ =~= p.take(32));
                assert(buffer_bytes(*buf) =~= whole.skip(53));
                assert(base_layer == of_be32(p.skip(32)));
                assert(index == of_be32(p.skip(36)));
                assert(length == of_be32(p.skip(40)));
                assert(proof_layers == of_be32(p.skip(44)));
            }
            if id == id::HASH_REQUEST {
                Ok(
                    Some(
                        Message::HashRequest { pieces_root, base_layer, index, length, proof_layers },
                    ),
                )
            } else if id == id::HASH_REJECT {
                Ok(
                    Some(
                        Message::HashReject { pieces_root, base_layer, index, length, proof_layers },
                    ),
                )
            } else {
                let expected: usize = match expected_hash_bytes(length, proof_layers) {
                    Some(n) => n,
                    None => {
                        return Err(MessageError::TooLarge(usize::MAX));
                    },
                };
                let actual: usize = remaining - 48;
                if actual != expected {
                    return truncated(id, expected, actual);
                }
                let hashes = buffer_take(buf, actual);
                proof {
                    assert(shared_bytes(hashes) =~= p.skip(48));
                    assert(buffer_bytes(*buf) =~= whole.skip(4 + body_len));
                }
                Ok(
                    Some(
                        Message::Hashes {
                            pieces_root,
                            base_layer,
                            index,
                            length,
                            proof_layers,
                            hashes,
                        },
                    ),
                )
            }
        } else {
            Ok(Some(Message::Unknown { id, payload: buffer_take(buf, remaining) }))
        }
    }
}

fn expected_hash_bytes(length: u32, proof_layers: u32) -> (r: Option<usize>)
    ensures
        match r {
            Some(n) => n == (length + proof_layers) * 32,
            None => (length + proof_layers) * 32 > usize::MAX,
        },
{
    match (length as usize).checked_add(proof_layers as usize) {
        None => None,
        Some(n) => n.checked_mul(32),
    }
}

/// True of the frames that an encoder writes in a form of their own: an unknown id is not one of
/// the known ones, hashes are as many as announced, a root is 32 bytes, and the frame is not
/// larger than a reader accepts.
pub open spec fn writable(f: Frame) -> bool {
    &&& frame_body(f).len() <= MAX_MESSAGE_BYTES
    &&& match f {
        Frame::HashRequest { span } => span.pieces_root.len() == 32,
        Frame::HashReject { span } => span.pieces_root.len() == 32,
        Frame::Hashes { span, hashes } => span.pieces_root.len() == 32 && hashes.len() == (
        span.length + span.proof_layers) * 32,
        Frame::Unknown { id, .. } => !known_id(id),
        _ => true,
    }
}

proof fn lemma_block(index: u32, begin: u32, length: u32)
    ensures
        block_bytes(index, begin, length).len() == 12,
        of_be32(block_bytes(index, begin, length)) == index,
        of_be32(block_bytes(index, begin, length).skip(4)) == begin,
        of_be32(block_bytes(index, begin, length).skip(8)) == length,
{
    let b = block_bytes(index, begin, length);
    assert(b =~= be32(index) + (be32(begin) + be32(length)));
    assert(b.skip(4) =~= be32(begin) + be32(length));
    assert(b.skip(8) =~= be32(length) + seq![]);
    be32_round_trip(index, be32(begin) + be32(length));
    be32_round_trip(begin, be32(length));
    be32_round_trip(length, seq![]);
}

proof fn lemma_span(span: HashSpan, rest: Seq<u8>)
    requires
        span.pieces_root.len() == 32,
    ensures
        ({
            let p = span_bytes(span) + rest;
            &&& p.take(32) == span.pieces_root
            &&& of_be32(p.skip(32)) == span.base_layer
            &&& of_be32(p.skip(36)) == span.index
            &&& of_be32(p.skip(40)) == span.length
            &&& of_be32(p.skip(44)) == span.proof_layers
            &&& p.skip(48) == rest
        }),
{
    let p = span_bytes(span) + rest;
    let d = be32(span.proof_layers) + rest;
    let c = be32(span.length) + d;
    let b = be32(span.index) + c;
    assert(p.take(32) =~= span.pieces_root);
    assert(p.skip(32) =~= be32(span.base_layer) + b);
    assert(p.skip(36) =~= b);
    assert(p.skip(40) =~= c);
    assert(p.skip(44) =~= d);
    assert(p.skip(48) =~= rest);
    be32_round_trip(span.base_layer, b);
    be32_round_trip(span.index, c);
    be32_round_trip(span.length, d);
    be32_round_trip(span.proof_layers, rest);
}

#[verifier::rlimit(60)]
#[verifier::spinoff_prover]
proof fn lemma_payload(f: Frame)
    requires
        writable(f),
        frame_body(f).len() > 0,
    ensures
        parse_payload(frame_body(f)[0], frame_body(f).skip(1)) == Ok::<
            Frame,
            (MessageError, int),
        >(f),
{
    reveal(parse_payload);
    let p = frame_body(f).skip(1);
    match f {
        Frame::KeepAlive => {},
        Frame::Choke => {},
        Frame::Unchoke => {},
        Frame::Interested => {},
        Frame::NotInterested => {},
        Frame::Have { piece_index } => {
            assert(p =~= be32(piece_index) + seq![]);
            be32_round_trip(piece_index, seq![]);
        },
        Frame::Bitfield(b) => {
            assert(p =~= b);
        },
        Frame::Request { index, begin, length } => {
            assert(p =~= block_bytes(index, begin, length));
            lemma_block(index, begin, length);
        },
        Frame::Piece { index, begin, data } => {
            assert(p =~= be32(index) + (be32(begin) + data));
            assert(p.skip(4) =~= be32(begin) + data);
            assert(p.skip(8) =~= data);
            be32_round_trip(index, be32(begin) + data);
            be32_round_trip(begin, data);
        },
        Frame::Cancel { index, begin, length } => {
            assert(p =~= block_bytes(index, begin, length));
            lemma_block(index, begin, length);
        },
        Frame::Port(port) => {
            assert(p =~= be16(port) + seq![]);
            be16_round_trip(port, seq![]);
        },
        Frame::HaveAll => {},
        Frame::HaveNone => {},
        Frame::RejectRequest { index, begin, length } => {
            assert(p =~= block_bytes(index, begin, length));
            lemma_block(index, begin, length);
        },
        Frame::SuggestPiece(index) => {
            assert(p =~= be32(index) + seq![]);
            be32_round_trip(index, seq![]);
        },
        Frame::AllowedFast(index) => {
            assert(p =~= be32(index) + seq![]);
            be32_round_trip(index, seq![]);
        },
        Frame::Extended { ext_id, payload } => {
            assert(p =~= seq![ext_id] + payload);
            assert(p.skip(1) =~= payload);
        },
        Frame::HashRequest { span } => {
            assert(p =~= span_bytes(span) + seq![]);
            lemma_span(span, seq![]);
        },
        Frame::Hashes { span, hashes } => {
            assert(p =~= span_bytes(span) + hashes);
            lemma_span(span, hashes);
        },
        Frame::HashReject { span } => {
            assert(p =~= span_bytes(span) + seq![]);
            lemma_span(span, seq![]);
        },
        Frame::Unknown { id, payload } => {
            assert(p =~= payload);
        },
    }
}

/// Reading back the bytes of a frame gives the frame and takes exactly its bytes, whatever
/// stands behind them.
pub proof fn decode_inverts_encode(f: Frame, rest: Seq<u8>)
    requires
        writable(f),
    ensures
        parse_frame(frame_bytes(f) + rest) == (Step::Done {
            frame: f,
            consumed: frame_bytes(f).len() as int,
        }),
{
    let body = frame_body(f);
    let b = frame_bytes(f) + rest;
    let len = body.len() as u32;
    assert(b =~= be32(len) + (body + rest));
    be32_round_trip(len, body + rest);
    if len > 0 {
        assert(b.subrange(5, 4 + len) =~= body.skip(1));
        assert(b[4] == body[0]);
        lemma_payload(f);
    } else {
        assert(f is KeepAlive);
    }
}

/// A frame that has not arrived completely is left in the buffer until it has.
pub proof fn partial_frame_waits(f: Frame, arrived: int)
    requires
        writable(f),
        0 <= arrived < frame_bytes(f).len(),
    ensures
        parse_frame(frame_bytes(f).take(arrived)) is Incomplete,
{
    let len = frame_body(f).len() as u32;
    let b = frame_bytes(f).take(arrived);
    if arrived >= 4 {
        be32_round_trip(len, frame_body(f));
        assert(of_be32(b) == of_be32(frame_bytes(f)));
    }
}

/// A reader never takes more than the buffer holds.
pub proof fn consumed_is_bounded(b: Seq<u8>)
    ensures
        match parse_frame(b) {
            Step::Incomplete => true,
            Step::Failed { consumed, .. } => 0 <= consumed <= b.len(),
            Step::Done { consumed, .. } => 4 <= consumed <= b.len(),
        },
{
    reveal(parse_payload);
}

/// What a frame is on the wire: its length in four bytes, and behind that nothing for a sign of
/// life, else the number of its kind and what belongs to it, each number in four bytes.
pub proof fn how_frames_are_written(f: Frame)
    requires
        frame_body(f).len() <= u32::MAX,
    ensures
        ({
            let b = frame_bytes(f);
            let body = b.skip(4);
            &&& of_be32(b) == body.len()
            &&& f is KeepAlive ==> body.len() == 0
            &&& f is Choke ==> body == seq![0u8]
            &&& f is Unchoke ==> body == seq![1u8]
            &&& f is Interested ==> body == seq![2u8]
            &&& f is NotInterested ==> body == seq![3u8]
            &&& f matches Frame::Have { piece_index } ==> body == seq![4u8] + be32(piece_index)
            &&& f matches Frame::Bitfield(bits) ==> body == seq![5u8] + bits
            &&& f matches Frame::Request { index, begin, length } ==> body == seq![6u8] + be32(index)
                + be32(begin) + be32(length)
            &&& f matches Frame::Piece { index, begin, data } ==> body == seq![7u8] + be32(index)
                + be32(begin) + data
            &&& f matches Frame::Cancel { index, begin, length } ==> body == seq![8u8] + be32(index)
                + be32(begin) + be32(length)
            &&& f matches Frame::Port(port) ==> body == seq![9u8] + be16(port)
            &&& f matches Frame::SuggestPiece(index) ==> body == seq![13u8] + be32(index)
            &&& f is HaveAll ==> body == seq![14u8]
            &&& f is HaveNone ==> body == seq![15u8]
            &&& f matches Frame::RejectRequest { index, begin, length } ==> body == seq![16u8]
                + be32(index) + be32(begin) + be32(length)
            &&& f matches Frame::AllowedFast(index) ==> body == seq![17u8] + be32(index)
            &&& f matches Frame::Extended { ext_id, payload } ==> body == seq![20u8] + seq![ext_id]
                + payload
            &&& f matches Frame::HashRequest { span } ==> body == seq![21u8] + span.pieces_root
                + be32(span.base_layer) + be32(span.index) + be32(span.length) + be32(
                span.proof_layers,
            )
            &&& f matches Frame::Hashes { span, hashes } ==> body == seq![22u8] + span.pieces_root
                + be32(span.base_layer) + be32(span.index) + be32(span.length) + be32(
                span.proof_layers,
            ) + hashes
            &&& f matches Frame::HashReject { span } ==> body == seq![23u8] + span.pieces_root
                + be32(span.base_layer) + be32(span.index) + be32(span.length) + be32(
                span.proof_layers,
            )
            &&& f matches Frame::Unknown { id, payload } ==> body == seq![id] + payload
        }),
{
    let b = frame_bytes(f);
    let body = frame_body(f);
    be32_round_trip(body.len() as u32, body);
    assert(b.skip(4) =~= body);
    match f {
        Frame::Request { index, begin, length } => {
            assert(body =~= seq![6u8] + be32(index) + be32(begin) + be32(length));
        },
        Frame::Piece { index, begin, data } => {
            assert(body =~= seq![7u8] + be32(index) + be32(begin) + data);
        },
        Frame::Cancel { index, begin, length } => {
            assert(body =~= seq![8u8] + be32(index) + be32(begin) + be32(length));
        },
        Frame::RejectRequest { index, begin, length } => {
            assert(body =~= seq![16u8] + be32(index) + be32(begin) + be32(length));
        },
        Frame::Extended { ext_id, payload } => {
            assert(body =~= seq![20u8] + seq![ext_id] + payload);
        },
        Frame::HashRequest { span } => {
            assert(body =~= seq![21u8] + span.pieces_root + be32(span.base_layer) + be32(span.index)
                + be32(span.length) + be32(span.proof_layers));
        },
        Frame::Hashes { span, hashes } => {
            assert(body =~= seq![22u8] + span.pieces_root + be32(span.base_layer) + be32(span.index)
                + be32(span.length) + be32(span.proof_layers) + hashes);
        },
        Frame::HashReject { span } => {
            assert(body =~= seq![23u8] + span.pieces_root + be32(span.base_layer) + be32(span.index)
                + be32(span.length) + be32(span.proof_layers));
        },
        _ => {},
    }
}

/// What is refused: a frame that is longer than two mebibytes, before anything of it is
/// read, and a payload that is not as long as its kind asks for. A frame of a kind that is not
/// known is never refused, and a frame that has not arrived whole is waited for.
pub proof fn which_frames_are_refused(b: Seq<u8>)
    requires
        b.len() >= 4,
    ensures
        ({
            let len = of_be32(b) as int;
            let id = b[4];
            let n = len - 1;
            &&& len > 2_097_152 ==> parse_frame(b) == (Step::Failed {
                error: MessageError::TooLarge(len as usize),
                consumed: 0,
            })
            &&& len <= 2_097_152 && b.len() < 4 + len ==> parse_frame(b) is Incomplete
            &&& 0 < len <= 2_097_152 && b.len() >= 4 + len ==> {
                &&& id == 4 || id == 13 || id == 17 ==> (parse_frame(b) is Done <==> n == 4)
                &&& id == 6 || id == 8 || id == 16 ==> (parse_frame(b) is Done <==> n == 12)
                &&& id == 7 ==> (parse_frame(b) is Done <==> n >= 8)
                &&& id == 9 ==> (parse_frame(b) is Done <==> n == 2)
                &&& id == 14 || id == 15 ==> (parse_frame(b) is Done <==> n == 0)
                &&& id == 20 ==> (parse_frame(b) is Done <==> n >= 1)
                &&& id == 21 || id == 23 ==> (parse_frame(b) is Done <==> n == 48)
                &&& id <= 3 || id == 5 || id == 10 || id == 11 || id == 12 || id == 18 || id == 19
                    || id > 23 ==> parse_frame(b) is Done
                &&& parse_frame(b) matches Step::Done { consumed, .. } ==> consumed == 4 + len
            }
        }),
{
    reveal(parse_payload);
}

} // verus!
