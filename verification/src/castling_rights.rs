use vstd::prelude::*;

verus! {

// Castling rights pack into one byte, one nibble per colour: the low nibble
// is white's (bit 0 short, bit 1 long) and the high nibble is black's, with
// the same layout shifted up by four.  A side's nibble is only ever cleared
// after construction; rights never regrow except by undoing a move.

pub const WHITE_CAN_CASTLE: u8 = 0b0000_0011;
pub const WHITE_CAN_NOT_CASTLE: u8 = 0b0000_0000;
pub const WHITE_CAN_SHORT_CASTLE: u8 = 0b0000_0001;
pub const WHITE_CAN_LONG_CASTLE: u8 = 0b0000_0010;

pub const BLACK_CAN_CASTLE: u8 = 0b0011_0000;
pub const BLACK_CAN_NOT_CASTLE: u8 = 0b0000_0000;
pub const BLACK_CAN_SHORT_CASTLE: u8 = 0b0001_0000;
pub const BLACK_CAN_LONG_CASTLE: u8 = 0b0010_0000;

pub const CAN_CASTLE: u8 = 0b0000_0011;
pub const CAN_NOT_CASTLE: u8 = 0b0000_0000;
pub const CAN_SHORT_CASTLE: u8 = 0b0000_0001;
pub const CAN_LONG_CASTLE: u8 = 0b0000_0010;

const WHITE_RIGHTS_MASK: u8 = 0b0000_1111;
const BLACK_RIGHTS_MASK: u8 = 0b1111_0000;

/// White's rights nibble.
pub open spec fn spec_white_rights(rights: u8) -> int {
    rights as int % 16
}

/// Black's rights nibble.
pub open spec fn spec_black_rights(rights: u8) -> int {
    rights as int / 16
}

/// The rights nibble of the given side; `true` stands for white.
pub open spec fn spec_rights(rights: u8, white: bool) -> int {
    if white {
        spec_white_rights(rights)
    } else {
        spec_black_rights(rights)
    }
}

pub open spec fn spec_can_short_castle(nibble: int) -> bool {
    nibble % 2 == 1
}

pub open spec fn spec_can_long_castle(nibble: int) -> bool {
    nibble / 2 % 2 == 1
}

/// The byte with the given side's nibble zeroed and the other side's kept.
pub open spec fn spec_clear_rights(rights: u8, white: bool) -> u8 {
    if white {
        (rights as int / 16 * 16) as u8
    } else {
        (rights as int % 16) as u8
    }
}

/// A rights byte uses only the two low bits of each nibble.
pub open spec fn valid_rights(rights: u8) -> bool {
    rights as int % 16 < 4 && rights as int / 16 < 4
}

/// Clearing one side's rights is idempotent, empties that side's nibble and
/// never disturbs the other side's.
pub proof fn lemma_clear_rights(rights: u8, white: bool)
    ensures
        spec_clear_rights(spec_clear_rights(rights, white), white) == spec_clear_rights(
            rights,
            white,
        ),
        spec_rights(spec_clear_rights(rights, white), white) == 0,
        spec_rights(spec_clear_rights(rights, white), !white) == spec_rights(rights, !white),
        valid_rights(rights) ==> valid_rights(spec_clear_rights(rights, white)),
{
    let h = rights as int / 16;
    let l = rights as int % 16;
    assert(0 <= h < 16 && 0 <= l < 16);
    assert(h * 16 % 16 == 0 && h * 16 / 16 == h && 0 <= h * 16 < 256) by (nonlinear_arith)
        requires
            0 <= h < 16,
    ;
}

/// Clearing a side's rights never makes any castle right appear: whatever
/// right holds afterwards already held before.
pub proof fn lemma_clear_rights_monotonic(rights: u8, white: bool, side: bool)
    ensures
        spec_can_short_castle(spec_rights(spec_clear_rights(rights, white), side))
            ==> spec_can_short_castle(spec_rights(rights, side)),
        spec_can_long_castle(spec_rights(spec_clear_rights(rights, white), side))
            ==> spec_can_long_castle(spec_rights(rights, side)),
{
    lemma_clear_rights(rights, white);
    if white != side {
        assert(spec_rights(spec_clear_rights(rights, white), side) == spec_rights(rights, side));
    }
}

/// Setting any single rights bit keeps the byte well-formed.
pub proof fn lemma_rights_or(acc: u8)
    requires
        valid_rights(acc),
    ensures
        valid_rights(acc | WHITE_CAN_SHORT_CASTLE),
        valid_rights(acc | WHITE_CAN_LONG_CASTLE),
        valid_rights(acc | BLACK_CAN_SHORT_CASTLE),
        valid_rights(acc | BLACK_CAN_LONG_CASTLE),
        (acc | WHITE_CAN_SHORT_CASTLE) as int % 2 == 1,
        (acc | WHITE_CAN_LONG_CASTLE) as int % 16 / 2 % 2 == 1,
        (acc | BLACK_CAN_SHORT_CASTLE) as int / 16 % 2 == 1,
        (acc | BLACK_CAN_LONG_CASTLE) as int / 16 / 2 % 2 == 1,
{
    assert((acc % 16 < 4 && acc / 16 < 4) ==> ((acc | 1) % 16 < 4 && (acc | 1) / 16 < 4 && (acc
        | 2) % 16 < 4 && (acc | 2) / 16 < 4 && (acc | 16) % 16 < 4 && (acc | 16) / 16 < 4 && (acc
        | 32) % 16 < 4 && (acc | 32) / 16 < 4 && (acc | 1) % 2 == 1 && (acc | 2) % 16 / 2 % 2 == 1
        && (acc | 16) / 16 % 2 == 1 && (acc | 32) / 16 / 2 % 2 == 1)) by (bit_vector);
}

#[non_exhaustive]
pub struct CastlingRights;

impl CastlingRights {
    pub fn white_rights(rights: u8) -> (r: u8)
        ensures
            r as int == spec_white_rights(rights),
    {
        proof {
            assert(rights & 0x0F == rights % 16) by (bit_vector);
        }
        rights & WHITE_RIGHTS_MASK
    }

    pub fn black_rights(rights: u8) -> (r: u8)
        ensures
            r as int == spec_black_rights(rights),
    {
        proof {
            assert((rights & 0xF0) >> 4 == rights / 16) by (bit_vector);
        }
        (rights & BLACK_RIGHTS_MASK) >> 4
    }

    /// The rights nibble of the given side; `true` stands for white.
    pub fn rights(rights: u8, colour: bool) -> (r: u8)
        ensures
            r as int == spec_rights(rights, colour),
    {
        if colour {
            CastlingRights::white_rights(rights)
        } else {
            CastlingRights::black_rights(rights)
        }
    }

    pub fn can_short_castle(rights: u8) -> (r: bool)
        ensures
            r == spec_can_short_castle(rights as int),
    {
        proof {
            assert((rights & 1 == 1) == (rights % 2 == 1)) by (bit_vector);
        }
        rights & CAN_SHORT_CASTLE == CAN_SHORT_CASTLE
    }

    pub fn can_long_castle(rights: u8) -> (r: bool)
        ensures
            r == spec_can_long_castle(rights as int),
    {
        proof {
            assert((rights & 2 == 2) == (rights / 2 % 2 == 1)) by (bit_vector);
        }
        rights & CAN_LONG_CASTLE == CAN_LONG_CASTLE
    }

    /// The byte with the given side's nibble zeroed; `true` clears white's.
    pub fn clear_rights(rights: u8, colour: bool) -> (r: u8)
        ensures
            r == spec_clear_rights(rights, colour),
    {
        if colour {
            proof {
                assert(rights >> 4 << 4 == rights / 16 * 16) by (bit_vector);
            }
            rights >> 4 << 4
        } else {
            proof {
                assert(rights << 4 >> 4 == rights % 16) by (bit_vector);
            }
            rights << 4 >> 4
        }
    }
}

} // verus!
