use vstd::prelude::*;

verus! {

// A piece occupies one byte: a four-bit kind tag in the low nibble and two
// colour bits just above it (bit 4 for white, bit 5 for black).  The empty
// slot is the zero byte, which carries no colour bits.

pub const NONE: u8 = 0;
pub const PAWN: u8 = 0b0001;
pub const KNIGHT: u8 = 0b0010;
pub const BISHOP: u8 = 0b0011;
pub const ROOK: u8 = 0b0100;
pub const QUEEN: u8 = 0b0101;
pub const KING: u8 = 0b0110;

pub const WHITE: u8 = 0b0001_0000;
pub const BLACK: u8 = 0b0010_0000;

pub const PAWN_VALUE: i32 = 100;
pub const KNIGHT_VALUE: i32 = 300;
pub const BISHOP_VALUE: i32 = 300;
pub const ROOK_VALUE: i32 = 500;
pub const QUEEN_VALUE: i32 = 900;

const TYPE_MASK: u8 = 0b0000_1111;
const COLOUR_MASK: u8 = 0b0011_0000;

/// The kind tag held in a piece byte's low nibble.
pub open spec fn kind_of(p: u8) -> int {
    p as int % 16
}

/// The colour bits held in a piece byte: 0, `WHITE` or `BLACK` on valid bytes.
pub open spec fn colour_of(p: u8) -> int {
    (p as int / 16) % 4 * 16
}

/// The colour bits that mark a side; `true` stands for white.
pub open spec fn side_bits(white: bool) -> int {
    if white {
        WHITE as int
    } else {
        BLACK as int
    }
}

/// Does the piece byte belong to the given side?
pub open spec fn is_side(p: u8, white: bool) -> bool {
    colour_of(p) == side_bits(white)
}

/// Every byte held in a board slot is either empty or carries exactly one
/// colour together with a kind between pawn and king.
pub open spec fn valid_piece(p: u8) -> bool {
    p == 0 || {
        &&& p < 64
        &&& (colour_of(p) == WHITE as int || colour_of(p) == BLACK as int)
        &&& 1 <= kind_of(p) <= 6
    }
}

pub open spec fn is_sliding_kind(k: int) -> bool {
    k == BISHOP as int || k == ROOK as int || k == QUEEN as int
}

/// Material value of a piece byte; kings and empty slots count zero.
pub open spec fn piece_value(p: u8) -> int {
    let k = kind_of(p);
    if k == PAWN as int {
        PAWN_VALUE as int
    } else if k == KNIGHT as int {
        KNIGHT_VALUE as int
    } else if k == BISHOP as int {
        BISHOP_VALUE as int
    } else if k == ROOK as int {
        ROOK_VALUE as int
    } else if k == QUEEN as int {
        QUEEN_VALUE as int
    } else {
        0
    }
}

/// A valid, occupied piece byte is the sum of its colour bits and its kind.
pub proof fn lemma_valid_piece_parts(p: u8)
    requires
        valid_piece(p),
        p != 0,
    ensures
        p as int == colour_of(p) + kind_of(p),
{
    vstd::arithmetic::div_mod::lemma_fundamental_div_mod(p as int, 16);
}

/// Any colour bits plus a kind between pawn and king form a valid piece
/// byte that splits back into exactly those parts.
pub proof fn lemma_piece_from_parts(c: int, k: int)
    requires
        c == WHITE as int || c == BLACK as int,
        1 <= k <= 6,
    ensures
        valid_piece((c + k) as u8),
        colour_of((c + k) as u8) == c,
        kind_of((c + k) as u8) == k,
        c + k != 0,
{
    vstd::arithmetic::div_mod::lemma_fundamental_div_mod(c + k, 16);
}

/// Packing a colour with a kind fills disjoint bit ranges, so the byte splits
/// back into exactly the parts it was built from.
pub proof fn lemma_pack_piece(c: u8, k: u8)
    requires
        c == WHITE || c == BLACK,
        1 <= k <= 6,
    ensures
        (c | k) == c + k,
        colour_of(c | k) == c as int,
        kind_of(c | k) == k as int,
        valid_piece(c | k),
        c | k != 0,
{
    assert((c == 16 || c == 32) && 1 <= k && k <= 6 ==> (c | k) == c + k) by (bit_vector);
}

#[non_exhaustive]
pub struct Piece;

impl Piece {
    /// The piece's colour bits: `WHITE`, `BLACK`, or 0 for an empty slot.
    pub fn colour(piece: u8) -> (r: u8)
        ensures
            r as int == colour_of(piece),
    {
        proof {
            assert(piece & 0x30 == piece / 16 % 4 * 16) by (bit_vector);
        }
        piece & COLOUR_MASK
    }

    /// The side a coloured piece belongs to: `true` for white.
    pub fn colour_bool(piece: u8) -> (r: bool)
        requires
            valid_piece(piece),
            piece != 0,
        ensures
            r == is_side(piece, true),
    {
        proof {
            assert(piece & 0x30 == piece / 16 % 4 * 16) by (bit_vector);
        }
        piece & COLOUR_MASK == WHITE
    }

    /// True exactly for bishops, rooks and queens.
    pub fn is_sliding_piece(piece: u8) -> (r: bool)
        ensures
            r == is_sliding_kind(kind_of(piece)),
    {
        let t = Piece::piece_type(piece);
        t == QUEEN || t == ROOK || t == BISHOP
    }

    /// The piece's kind tag.
    pub fn piece_type(piece: u8) -> (r: u8)
        ensures
            r as int == kind_of(piece),
    {
        proof {
            assert(piece & 0x0F == piece % 16) by (bit_vector);
        }
        piece & TYPE_MASK
    }

    /// Does the byte carry exactly the given colour bits?
    pub fn is_colour(piece: u8, colour: u8) -> (r: bool)
        ensures
            r == (colour_of(piece) == colour as int),
    {
        proof {
            assert(piece & 0x30 == piece / 16 % 4 * 16) by (bit_vector);
        }
        piece & COLOUR_MASK == colour
    }

    /// Does the byte carry the given kind tag?
    pub fn is_type(piece: u8, v_type: u8) -> (r: bool)
        ensures
            r == (kind_of(piece) == v_type as int),
    {
        proof {
            assert(piece & 0x0F == piece % 16) by (bit_vector);
        }
        piece & TYPE_MASK == v_type
    }

    /// Does the byte belong to the given side (`true` for white)?
    pub fn is_colour_bool(piece: u8, colour: bool) -> (r: bool)
        ensures
            r == is_side(piece, colour),
    {
        let colour_bits = if colour {
            WHITE
        } else {
            BLACK
        };
        proof {
            assert(piece & 0x30 == piece / 16 % 4 * 16) by (bit_vector);
        }
        piece & COLOUR_MASK == colour_bits
    }
}

} // verus!
