use vstd::prelude::*;

verus! {

// A move occupies sixteen bits:
//   bits 0..6   departure square
//   bits 6..12  target square
//   bit 12      en-passant capture marker
//   bit 13      promotion marker; bits 13..16 together name the promotion kind
//   bits 14..15 short castle (01) or long castle (10) when the promotion bit
//               is clear; both set with a clear promotion bit marks the
//               double pawn advance.
// Castling and promotion share the two top bits, so a promotion is never
// read back as a castle: the castle tests demand a clear promotion bit.

pub const PROMOTE_TO_KNIGHT: u16 = 0b0010_0000_0000_0000;
pub const PROMOTE_TO_BISHOP: u16 = 0b0110_0000_0000_0000;
pub const PROMOTE_TO_ROOK: u16 = 0b1010_0000_0000_0000;
pub const PROMOTE_TO_QUEEN: u16 = 0b1110_0000_0000_0000;

pub const SHORT_CASTLE: u16 = 0b0100_0000_0000_0000;
pub const LONG_CASTLE: u16 = 0b1000_0000_0000_0000;

pub const EN_PASSANT: u16 = 0b0001_0000_0000_0000;
pub const DOUBLE_FORWARD_PAWN_MOVE: u16 = 0b1100_0000_0000_0000;

pub const DEPARTURE_SQUARE_MASK: u16 = 0b0000_0000_0011_1111;
pub const TARGET_SQUARE_MASK: u16 = 0b0000_1111_1100_0000;
pub const EN_PASSANT_MASK: u16 = 0b0001_0000_0000_0000;
pub const PROMOTION_MASK: u16 = 0b0010_0000_0000_0000;
pub const CASTLING_MASK: u16 = 0b1100_0000_0000_0000;
pub const SPECIAL_ONE_MASK: u16 = 0b0100_0000_0000_0000;
pub const SPECIAL_TWO_MASK: u16 = 0b1000_0000_0000_0000;

/// The departure square packed into a move word.
pub open spec fn spec_departure(m: u16) -> int {
    m as int % 64
}

/// The target square packed into a move word.
pub open spec fn spec_target(m: u16) -> int {
    m as int / 64 % 64
}

/// The flag nibble packed into a move word's top four bits.
pub open spec fn spec_flags(m: u16) -> int {
    m as int / 4096
}

/// The move word carrying the given squares and flag nibble.
pub open spec fn spec_encode(d: int, t: int, f: int) -> u16
    recommends
        0 <= d < 64,
        0 <= t < 64,
        0 <= f < 16,
{
    (d + t * 64 + f * 4096) as u16
}

pub open spec fn spec_is_en_passant(m: u16) -> bool {
    spec_flags(m) % 2 == 1
}

pub open spec fn spec_is_promotion(m: u16) -> bool {
    spec_flags(m) / 2 % 2 == 1
}

pub open spec fn spec_is_short_castling(m: u16) -> bool {
    spec_flags(m) / 2 == 2
}

pub open spec fn spec_is_long_castling(m: u16) -> bool {
    spec_flags(m) / 2 == 4
}

/// A move is a castle exactly when one of the two castle readings applies;
/// both demand a clear promotion bit, so no promotion is ever a castle.
pub open spec fn spec_is_castling(m: u16) -> bool {
    spec_is_short_castling(m) || spec_is_long_castling(m)
}

pub open spec fn spec_special_one(m: u16) -> bool {
    spec_flags(m) / 4 % 2 == 1
}

pub open spec fn spec_special_two(m: u16) -> bool {
    spec_flags(m) / 8 == 1
}

pub open spec fn spec_is_double_forward(m: u16) -> bool {
    spec_flags(m) == 12
}

/// The top three bits of the word, which name the promotion kind.
pub open spec fn spec_promotion_type(m: u16) -> int {
    m as int / 8192 * 8192
}

/// The flag nibbles that name a promotion kind.
pub open spec fn is_promotion_flags(f: int) -> bool {
    f == 2 || f == 6 || f == 10 || f == 14
}

/// The piece kind a promotion flag nibble promotes to.
pub open spec fn promotion_kind(f: int) -> int {
    if f == 2 {
        crate::piece::KNIGHT as int
    } else if f == 6 {
        crate::piece::BISHOP as int
    } else if f == 10 {
        crate::piece::ROOK as int
    } else {
        crate::piece::QUEEN as int
    }
}

/// Decoding recovers exactly the fields a move was encoded from.
pub proof fn lemma_encode_decode(d: int, t: int, f: int)
    requires
        0 <= d < 64,
        0 <= t < 64,
        0 <= f < 16,
    ensures
        spec_encode(d, t, f) as int == d + t * 64 + f * 4096,
        spec_departure(spec_encode(d, t, f)) == d,
        spec_target(spec_encode(d, t, f)) == t,
        spec_flags(spec_encode(d, t, f)) == f,
{
    let v = d + t * 64 + f * 4096;
    assert(0 <= v < 65536);
    assert(v % 64 == d && v / 64 % 64 == t && v / 4096 == f) by (nonlinear_arith)
        requires
            0 <= d < 64,
            0 <= t < 64,
            0 <= f < 16,
            v == d + t * 64 + f * 4096,
    ;
}

/// Every move word is the encoding of its own decoded fields.
pub proof fn lemma_decode_encode(m: u16)
    ensures
        m as int == spec_departure(m) + spec_target(m) * 64 + spec_flags(m) * 4096,
        spec_encode(spec_departure(m), spec_target(m), spec_flags(m)) == m,
        0 <= spec_departure(m) < 64,
        0 <= spec_target(m) < 64,
        0 <= spec_flags(m) < 16,
{
    let v = m as int;
    assert(v == v % 64 + v / 64 % 64 * 64 + v / 4096 * 4096 && 0 <= v % 64 < 64 && 0 <= v / 64 % 64
        < 64 && 0 <= v / 4096 < 16) by (nonlinear_arith)
        requires
            0 <= v < 65536,
    ;
}

/// On a promotion word, the top three bits name exactly the constant of the
/// promotion kind carried by the flag nibble.
pub proof fn lemma_promotion_type_of(m: u16)
    requires
        is_promotion_flags(spec_flags(m)),
    ensures
        spec_flags(m) == 2 ==> spec_promotion_type(m) == PROMOTE_TO_KNIGHT as int,
        spec_flags(m) == 6 ==> spec_promotion_type(m) == PROMOTE_TO_BISHOP as int,
        spec_flags(m) == 10 ==> spec_promotion_type(m) == PROMOTE_TO_ROOK as int,
        spec_flags(m) == 14 ==> spec_promotion_type(m) == PROMOTE_TO_QUEEN as int,
{
    lemma_decode_encode(m);
    let low = spec_departure(m) + spec_target(m) * 64;
    let f = spec_flags(m);
    assert(0 <= low < 4096);
    assert(m as int == low + f * 4096);
    assert((low + 2 * 4096) / 8192 == 1 && (low + 6 * 4096) / 8192 == 3 && (low + 10 * 4096) / 8192
        == 5 && (low + 14 * 4096) / 8192 == 7) by (nonlinear_arith)
        requires
            0 <= low < 4096,
    ;
}

/// Setting a flag nibble above a flagless encoding leaves the squares alone.
pub proof fn lemma_or_flag(m: u16, f: u16)
    requires
        m < 4096,
        f % 4096 == 0,
    ensures
        (m | f) == m + f,
{
    assert(m < 4096 && f % 4096 == 0 ==> (m | f) == m + f) by (bit_vector);
}

#[non_exhaustive]
pub struct Move;

impl Move {
    /// Packs a departure and a target square; the flag nibble is left clear.
    /// Square range is the caller's duty, as the generator guarantees it.
    #[allow(clippy::new_ret_no_self)]
    pub fn new(departure_square: u16, target_square: u16) -> (m: u16)
        requires
            departure_square < 64,
            target_square < 64,
        ensures
            m == spec_encode(departure_square as int, target_square as int, 0),
    {
        proof {
            let d = departure_square;
            let t = target_square;
            assert(d < 64 && t < 64 ==> (d | t << 6) == d + t * 64) by (bit_vector);
        }
        departure_square | target_square << 6
    }

    pub fn departure_square(v_move: u16) -> (r: u8)
        ensures
            r as int == spec_departure(v_move),
    {
        proof {
            assert(v_move & 0x3F == v_move % 64) by (bit_vector);
        }
        (v_move & DEPARTURE_SQUARE_MASK) as u8
    }

    pub fn target_square(v_move: u16) -> (r: u8)
        ensures
            r as int == spec_target(v_move),
    {
        proof {
            assert((v_move & 0x0FC0) >> 6 == v_move / 64 % 64) by (bit_vector);
        }
        ((v_move & TARGET_SQUARE_MASK) >> 6) as u8
    }

    pub fn is_en_passant(v_move: u16) -> (r: bool)
        ensures
            r == spec_is_en_passant(v_move),
    {
        proof {
            assert((v_move & 0x1000 == 0x1000) == (v_move / 4096 % 2 == 1)) by (bit_vector);
        }
        (v_move & EN_PASSANT_MASK) == EN_PASSANT
    }

    pub fn is_promotion(v_move: u16) -> (r: bool)
        ensures
            r == spec_is_promotion(v_move),
    {
        proof {
            assert((v_move & 0x2000 == 0x2000) == (v_move / 4096 / 2 % 2 == 1)) by (bit_vector);
        }
        (v_move & PROMOTION_MASK) == PROMOTION_MASK
    }

    pub fn promotion_type(v_move: u16) -> (r: u16)
        ensures
            r as int == spec_promotion_type(v_move),
    {
        proof {
            assert(v_move >> 13 << 13 == v_move / 8192 * 8192) by (bit_vector);
        }
        v_move >> 13 << 13
    }

    pub fn is_castling(v_move: u16) -> (r: bool)
        ensures
            r == spec_is_castling(v_move),
    {
        Move::is_short_castling(v_move) || Move::is_long_castling(v_move)
    }

    pub fn is_short_castling(v_move: u16) -> (r: bool)
        ensures
            r == spec_is_short_castling(v_move),
    {
        proof {
            assert(((v_move & 0xC000 == 0x4000) && !(v_move / 4096 / 2 % 2 == 1)) == (v_move / 4096
                / 2 == 2)) by (bit_vector);
        }
        (v_move & CASTLING_MASK) == SHORT_CASTLE && !Move::is_promotion(v_move)
    }

    pub fn is_long_castling(v_move: u16) -> (r: bool)
        ensures
            r == spec_is_long_castling(v_move),
    {
        proof {
            assert(((v_move & 0xC000 == 0x8000) && !(v_move / 4096 / 2 % 2 == 1)) == (v_move / 4096
                / 2 == 4)) by (bit_vector);
        }
        (v_move & CASTLING_MASK) == LONG_CASTLE && !Move::is_promotion(v_move)
    }

    pub fn is_double_forward_pawn_move(v_move: u16) -> (r: bool)
        ensures
            r == spec_is_double_forward(v_move),
    {
        proof {
            assert((v_move & 0xF000 == 0xC000) == (v_move / 4096 == 12)) by (bit_vector);
        }
        (v_move & 0xF000) == DOUBLE_FORWARD_PAWN_MOVE
    }

    pub fn special_one(v_move: u16) -> (r: bool)
        ensures
            r == spec_special_one(v_move),
    {
        proof {
            assert((v_move & 0x4000 == 0x4000) == (v_move / 4096 / 4 % 2 == 1)) by (bit_vector);
        }
        (v_move & SPECIAL_ONE_MASK) == SPECIAL_ONE_MASK
    }

    pub fn special_two(v_move: u16) -> (r: bool)
        ensures
            r == spec_special_two(v_move),
    {
        proof {
            assert((v_move & 0x8000 == 0x8000) == (v_move / 4096 / 8 == 1)) by (bit_vector);
        }
        (v_move & SPECIAL_TWO_MASK) == SPECIAL_TWO_MASK
    }
}

/// The per-move part of an undo entry: the move itself and the piece
/// (possibly none) that stood on its target square before the move.  An
/// en-passant entry holds the byte of the bypassed square instead, since
/// that capture removes a pawn standing off the target.
pub struct MoveRecord {
    pub v_move: u16,
    pub piece_on_target_square: u8,
}

impl MoveRecord {
    pub fn new(v_move: u16, piece_on_target_square: u8) -> (r: Self)
        ensures
            r.v_move == v_move,
            r.piece_on_target_square == piece_on_target_square,
    {
        Self { v_move, piece_on_target_square }
    }
}

/// One entry of the board's history stack: the per-move record together with
/// the castling-rights byte and en-passant target as they stood before the
/// move, so that undoing restores both exactly.
pub struct UndoRecord {
    pub record: MoveRecord,
    pub prior_castling_rights: u8,
    pub prior_en_passant: Option<u8>,
}

} // verus!
