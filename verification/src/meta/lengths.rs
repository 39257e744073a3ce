//! How a torrent is cut into pieces.

use vstd::prelude::*;

verus! {

/// Why a torrent cannot be cut into pieces.
#[derive(Clone, Copy, Debug, PartialEq, Eq, Structural)]
pub enum LengthsError {
    ZeroLength,
    ZeroPieceLength,
    TooManyPieces,
    /// There is no such piece.
    NoSuchPiece,
}

/// How a torrent is cut into pieces of equal length, but for the last.
#[derive(Clone, Copy, Debug, PartialEq, Eq, Structural)]
pub struct Lengths {
    total_length: u64,
    piece_length: u32,
    total_pieces: u32,
}

/// The number of a piece that there is.
#[derive(Clone, Copy, Debug, PartialEq, Eq, Structural)]
pub struct ValidPieceIndex(u32);

/// How many pieces a torrent has.
pub open spec fn pieces_for(total: u64, piece_length: u32) -> int {
    (total as int + piece_length as int - 1) / (piece_length as int)
}

impl ValidPieceIndex {
    pub closed spec fn index(self) -> u32 {
        self.0
    }

    pub fn get(&self) -> (r: u32)
        ensures
            r == self.index(),
    {
        self.0
    }

    pub fn get_usize(&self) -> (r: usize)
        ensures
            r == self.index(),
    {
        self.0 as usize
    }
}

impl Lengths {
    /// How many pieces there are.
    pub closed spec fn pieces(self) -> u32 {
        self.total_pieces
    }

    /// How many bytes there are.
    pub closed spec fn total(self) -> u64 {
        self.total_length
    }

    /// How many bytes a piece has, but for the last.
    pub closed spec fn piece(self) -> u32 {
        self.piece_length
    }

    pub fn new(total_length: u64, piece_length: u32) -> (r: Result<Self, LengthsError>)
        ensures
            if total_length == 0 {
                r == Err::<Lengths, LengthsError>(LengthsError::ZeroLength)
            } else if piece_length == 0 {
                r == Err::<Lengths, LengthsError>(LengthsError::ZeroPieceLength)
            } else if pieces_for(total_length, piece_length) > u32::MAX {
                r == Err::<Lengths, LengthsError>(LengthsError::TooManyPieces)
            } else {
                r matches Ok(l) && l.total() == total_length && l.piece() == piece_length
                    && l.pieces() == pieces_for(total_length, piece_length)
            },
    {
        if total_length == 0 {
            return Err(LengthsError::ZeroLength);
        }
        if piece_length == 0 {
            return Err(LengthsError::ZeroPieceLength);
        }
        let n: u128 = (total_length as u128 + piece_length as u128 - 1) / (piece_length as u128);
        if n > 4_294_967_295 {
            return Err(LengthsError::TooManyPieces);
        }
        Ok(Lengths { total_length, piece_length, total_pieces: n as u32 })
    }

    pub fn total_length(&self) -> (r: u64)
        ensures
            r == self.total(),
    {
        self.total_length
    }

    pub fn piece_length(&self) -> (r: u32)
        ensures
            r == self.piece(),
    {
        self.piece_length
    }

    pub fn total_pieces(&self) -> (r: u32)
        ensures
            r == self.pieces(),
    {
        self.total_pieces
    }

    pub fn validate_piece(&self, index: u32) -> (r: Result<ValidPieceIndex, LengthsError>)
        ensures
            index < self.pieces() ==> (r matches Ok(v) && v.index() == index),
            index >= self.pieces() ==> r == Err::<ValidPieceIndex, LengthsError>(
                LengthsError::NoSuchPiece,
            ),
    {
        if index < self.total_pieces {
            Ok(ValidPieceIndex(index))
        } else {
            Err(LengthsError::NoSuchPiece)
        }
    }

    /// How many bytes hold a bit for each piece.
    pub fn piece_bitfield_bytes(&self) -> (r: usize)
        ensures
            r == (self.pieces() + 7) / 8,
    {
        (self.total_pieces / 8) as usize + (if self.total_pieces % 8 == 0 {
            0usize
        } else {
            1usize
        })
    }
}

/// There are as many pieces as are needed and no more: all but the last are whole, and the last is
/// not empty.
pub proof fn how_many_pieces_there_are(total: u64, piece_length: u32)
    requires
        total > 0,
        piece_length > 0,
    ensures
        ({
            let n = pieces_for(total, piece_length);
            &&& n >= 1
            &&& (n - 1) * piece_length < total <= n * piece_length
        }),
{
    let (t, l) = (total as int, piece_length as int);
    let n = pieces_for(total, piece_length);
    vstd::arithmetic::div_mod::lemma_fundamental_div_mod(t + l - 1, l);
    assert(n >= 1 && (n - 1) * l < t <= n * l) by (nonlinear_arith)
        requires
            t > 0,
            l > 0,
            n == (t + l - 1) / l,
            t + l - 1 == l * ((t + l - 1) / l) + (t + l - 1) % l,
            0 <= (t + l - 1) % l < l,
    ;
}

} // verus!
