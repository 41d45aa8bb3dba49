use vstd::prelude::*;

verus! {

use crate::castling_rights;
use crate::castling_rights::CastlingRights;
use crate::errors::{FenError, UndoMoveError};
use crate::geometry;
use crate::geometry::{dir_offset, edge_dist, file_of, rank_of};
use crate::moves;
use crate::moves::{
    Move,
    MoveRecord,
    UndoRecord,
    spec_departure,
    spec_flags,
    spec_is_double_forward,
    spec_is_promotion,
    spec_target,
};
use crate::piece;
use crate::piece::{colour_of, is_side, kind_of, piece_value, side_bits, valid_piece, Piece};
use vstd::string::StringExecFns;

pub const KING_SQUARE_WHITE: usize = 4;
pub const KING_SQUARE_BLACK: usize = 60;

/// The mutable aggregate owning all position data: the 64 piece slots, the
/// side to move, the castling-rights byte, the optional en-passant target,
/// and the history stack of undo records.
pub struct Board {
    pieces: Vec<u8>,
    pub colour_to_move: bool,
    castling_rights: u8,
    pub en_passant_square: Option<u8>,
    move_history: Vec<UndoRecord>,
}

/// The mathematical content of a board.
#[verifier::ext_equal]
pub ghost struct BoardView {
    pub pieces: Seq<u8>,
    pub colour_to_move: bool,
    pub castling_rights: u8,
    pub en_passant_square: Option<u8>,
    pub history: Seq<UndoRecord>,
}

impl View for Board {
    type V = BoardView;

    closed spec fn view(&self) -> BoardView {
        BoardView {
            pieces: self.pieces@,
            colour_to_move: self.colour_to_move,
            castling_rights: self.castling_rights,
            en_passant_square: self.en_passant_square,
            history: self.move_history@,
        }
    }
}

/// A history entry only ever holds a valid captured byte, a valid rights
/// byte and an on-board en-passant target.
pub open spec fn wf_record(rec: UndoRecord) -> bool {
    &&& valid_piece(rec.record.piece_on_target_square)
    &&& castling_rights::valid_rights(rec.prior_castling_rights)
    &&& (rec.prior_en_passant matches Some(e) ==> e < 64)
}

impl BoardView {
    /// Well-formedness: 64 slots of valid piece bytes, a rights byte using
    /// only two bits per nibble, an on-board en-passant target, and history
    /// entries whose recorded bytes are themselves valid.
    pub open spec fn wf(self) -> bool {
        &&& self.pieces.len() == 64
        &&& forall|i: int| 0 <= i < 64 ==> valid_piece(#[trigger] self.pieces[i])
        &&& castling_rights::valid_rights(self.castling_rights)
        &&& (self.en_passant_square matches Some(e) ==> e < 64)
        &&& forall|i: int|
            0 <= i < self.history.len() ==> wf_record(#[trigger] self.history[i])
    }
}

// ---------------------------------------------------------------------------
// Pseudo-legality.  A move word is pseudo-legal on a board exactly when the
// generator offers it: consistent with piece-movement and occupancy rules,
// with no king-safety filtering.
// ---------------------------------------------------------------------------

/// One flat-index step of a side's pawns: white advances north, black south.
pub open spec fn pawn_forward(white: bool) -> int {
    if white {
        8
    } else {
        -8
    }
}

/// The direction index a side's pawns advance along.
pub open spec fn pawn_fwd_dir(white: bool) -> int {
    if white {
        0
    } else {
        1
    }
}

/// The two diagonal capture directions of a side's pawns.
pub open spec fn pawn_capture_dir(white: bool, which: int) -> int {
    if white {
        if which == 0 {
            4
        } else {
            6
        }
    } else {
        if which == 0 {
            5
        } else {
            7
        }
    }
}

/// The rank a side's pawns start on.
pub open spec fn pawn_start_rank(white: bool) -> int {
    if white {
        1
    } else {
        6
    }
}

/// The far rank, on which a side's pawns promote.
pub open spec fn last_rank(white: bool) -> int {
    if white {
        7
    } else {
        0
    }
}

/// The square a side's king starts on.
pub open spec fn king_square(white: bool) -> int {
    if white {
        KING_SQUARE_WHITE as int
    } else {
        KING_SQUARE_BLACK as int
    }
}

/// First direction index a sliding kind may use.
pub open spec fn dir_lo(k: int) -> int {
    if k == piece::BISHOP as int {
        4
    } else {
        0
    }
}

/// One past the last direction index a sliding kind may use.
pub open spec fn dir_hi(k: int) -> int {
    if k == piece::ROOK as int {
        4
    } else {
        8
    }
}

/// The j-th square along ray d from s.
pub open spec fn ray_square(s: int, d: int, j: int) -> int {
    s + j * dir_offset(d)
}

/// The squares strictly before the k-th step along a ray are all empty.
pub open spec fn ray_clear(b: BoardView, s: int, d: int, k: int) -> bool {
    forall|j: int| 1 <= j < k ==> b.pieces[#[trigger] ray_square(s, d, j)] == 0
}

/// The k-th square along ray d from s can be slid to: it is within the
/// edge distance, reached over empty squares, and holds no friendly piece.
pub open spec fn ray_hit(b: BoardView, white: bool, s: int, d: int, k: int) -> bool {
    &&& 1 <= k <= edge_dist(s, d)
    &&& ray_clear(b, s, d, k)
    &&& !is_side(b.pieces[ray_square(s, d, k)], white)
}

/// The k-th square along ray d from s is a pseudo-legal sliding target for
/// the piece standing on s.
pub open spec fn ray_move_at(b: BoardView, white: bool, s: int, d: int, k: int) -> bool {
    &&& dir_lo(kind_of(b.pieces[s])) <= d < dir_hi(kind_of(b.pieces[s]))
    &&& ray_hit(b, white, s, d, k)
}

/// A bishop, rook or queen move from s to t.
pub open spec fn sliding_move_ok(b: BoardView, white: bool, s: int, t: int) -> bool {
    exists|d: int, k: int| #[trigger] ray_move_at(b, white, s, d, k) && t == ray_square(s, d, k)
}

/// A knight leap lands on square t from square s.
pub open spec fn knight_target_ok(s: int, i: int, t: int) -> bool {
    let tf = file_of(s) + geometry::knight_file_delta(i);
    let tr = rank_of(s) + geometry::knight_rank_delta(i);
    &&& 0 <= tf < 8
    &&& 0 <= tr < 8
    &&& t == 8 * tr + tf
}

/// A knight move from s to t: one of the eight leaps, kept on the board by
/// its file/rank coordinates, onto a square with no friendly piece.
pub open spec fn knight_move_ok(b: BoardView, white: bool, s: int, t: int) -> bool {
    exists|i: int|
        0 <= i < 8 && #[trigger] knight_target_ok(s, i, t) && !is_side(b.pieces[t], white)
}

/// A king move from s to t: one step in any direction that stays on the
/// board, onto a square with no friendly piece.
pub open spec fn king_move_ok(b: BoardView, white: bool, s: int, t: int) -> bool {
    exists|d: int|
        0 <= d < 8 && edge_dist(s, d) >= 1 && t == s + #[trigger] dir_offset(d) && !is_side(
            b.pieces[t],
            white,
        )
}

/// A single pawn step forward onto an empty square.
pub open spec fn pawn_push_ok(b: BoardView, white: bool, s: int, t: int) -> bool {
    &&& edge_dist(s, pawn_fwd_dir(white)) >= 1
    &&& t == s + pawn_forward(white)
    &&& b.pieces[t] == 0
}

/// A pawn capture one step along diagonal direction d onto an enemy piece.
pub open spec fn pawn_capture_at(b: BoardView, white: bool, s: int, t: int, d: int) -> bool {
    &&& edge_dist(s, d) >= 1
    &&& t == s + dir_offset(d)
    &&& is_side(b.pieces[t], !white)
}

/// A pawn capture along either of the side's two diagonals.
pub open spec fn pawn_capture_ok(b: BoardView, white: bool, s: int, t: int) -> bool {
    ||| pawn_capture_at(b, white, s, t, pawn_capture_dir(white, 0))
    ||| pawn_capture_at(b, white, s, t, pawn_capture_dir(white, 1))
}

/// A flagless pawn move: a push or a capture that does not reach the far
/// rank (far-rank moves are carried by the four promotion words instead).
pub open spec fn pawn_plain_ok(b: BoardView, white: bool, s: int, t: int) -> bool {
    &&& rank_of(t) != last_rank(white)
    &&& (pawn_push_ok(b, white, s, t) || pawn_capture_ok(b, white, s, t))
}

/// The pawn move underlying a promotion: a push or capture onto the far rank.
pub open spec fn promo_move_ok(b: BoardView, white: bool, s: int, t: int) -> bool {
    &&& rank_of(t) == last_rank(white)
    &&& (pawn_push_ok(b, white, s, t) || pawn_capture_ok(b, white, s, t))
}

/// A double pawn advance from the start rank over two empty squares.
pub open spec fn double_push_ok(b: BoardView, white: bool, s: int, t: int) -> bool {
    &&& rank_of(s) == pawn_start_rank(white)
    &&& t == s + 2 * pawn_forward(white)
    &&& b.pieces[s + pawn_forward(white)] == 0
    &&& b.pieces[t] == 0
}

/// An en-passant capture: a diagonal pawn step onto the stored (empty)
/// en-passant target square.
pub open spec fn ep_capture_ok(b: BoardView, white: bool, s: int, t: int) -> bool {
    &&& b.en_passant_square matches Some(e) && e as int == t
    &&& b.pieces[t] == 0
    &&& {
        ||| (edge_dist(s, pawn_capture_dir(white, 0)) >= 1 && t == s + dir_offset(
            pawn_capture_dir(white, 0),
        ))
        ||| (edge_dist(s, pawn_capture_dir(white, 1)) >= 1 && t == s + dir_offset(
            pawn_capture_dir(white, 1),
        ))
    }
}

/// A flagless move of whatever piece stands on square d.
pub open spec fn plain_move_ok(b: BoardView, d: int, t: int) -> bool {
    let k = kind_of(b.pieces[d]);
    if k == piece::PAWN as int {
        pawn_plain_ok(b, b.colour_to_move, d, t)
    } else if k == piece::KNIGHT as int {
        knight_move_ok(b, b.colour_to_move, d, t)
    } else if k == piece::KING as int {
        king_move_ok(b, b.colour_to_move, d, t)
    } else if piece::is_sliding_kind(k) {
        sliding_move_ok(b, b.colour_to_move, d, t)
    } else {
        false
    }
}

/// Short castling is available: the rights bit is set and both squares
/// between king and rook are empty.
pub open spec fn short_castle_ok(b: BoardView) -> bool {
    let k = king_square(b.colour_to_move);
    &&& castling_rights::spec_can_short_castle(
        castling_rights::spec_rights(b.castling_rights, b.colour_to_move),
    )
    &&& b.pieces[k + 1] == 0
    &&& b.pieces[k + 2] == 0
}

/// Long castling is available: the rights bit is set and all three squares
/// between king and rook are empty.
pub open spec fn long_castle_ok(b: BoardView) -> bool {
    let k = king_square(b.colour_to_move);
    &&& castling_rights::spec_can_long_castle(
        castling_rights::spec_rights(b.castling_rights, b.colour_to_move),
    )
    &&& b.pieces[k - 1] == 0
    &&& b.pieces[k - 2] == 0
    &&& b.pieces[k - 3] == 0
}

/// The moves the generator offers on board b: exactly the moves consistent
/// with piece-movement and occupancy rules for the side to move, with no
/// king-safety filtering.
pub open spec fn pseudo_legal(b: BoardView, m: u16) -> bool {
    if m == moves::SHORT_CASTLE {
        short_castle_ok(b)
    } else if m == moves::LONG_CASTLE {
        long_castle_ok(b)
    } else {
        let d = spec_departure(m);
        let t = spec_target(m);
        let f = spec_flags(m);
        let white = b.colour_to_move;
        &&& is_side(b.pieces[d], white)
        &&& if f == 0 {
            plain_move_ok(b, d, t)
        } else if f == 1 {
            kind_of(b.pieces[d]) == piece::PAWN as int && ep_capture_ok(b, white, d, t)
        } else if f == 12 {
            kind_of(b.pieces[d]) == piece::PAWN as int && double_push_ok(b, white, d, t)
        } else if moves::is_promotion_flags(f) {
            kind_of(b.pieces[d]) == piece::PAWN as int && promo_move_ok(b, white, d, t)
        } else {
            false
        }
    }
}

// ---------------------------------------------------------------------------
// Construction and simple accessors.
// ---------------------------------------------------------------------------

/// The piece byte standing on each square in the standard initial position.
pub open spec fn initial_piece(i: int) -> u8 {
    if i == 0 || i == 7 {
        (piece::WHITE + piece::ROOK) as u8
    } else if i == 1 || i == 6 {
        (piece::WHITE + piece::KNIGHT) as u8
    } else if i == 2 || i == 5 {
        (piece::WHITE + piece::BISHOP) as u8
    } else if i == 3 {
        (piece::WHITE + piece::QUEEN) as u8
    } else if i == 4 {
        (piece::WHITE + piece::KING) as u8
    } else if 8 <= i < 16 {
        (piece::WHITE + piece::PAWN) as u8
    } else if 48 <= i < 56 {
        (piece::BLACK + piece::PAWN) as u8
    } else if i == 56 || i == 63 {
        (piece::BLACK + piece::ROOK) as u8
    } else if i == 57 || i == 62 {
        (piece::BLACK + piece::KNIGHT) as u8
    } else if i == 58 || i == 61 {
        (piece::BLACK + piece::BISHOP) as u8
    } else if i == 59 {
        (piece::BLACK + piece::QUEEN) as u8
    } else if i == 60 {
        (piece::BLACK + piece::KING) as u8
    } else {
        0
    }
}

/// Sum of the material values of one side's pieces on the first n squares.
pub open spec fn material(pieces: Seq<u8>, white: bool, n: int) -> int
    decreases n,
{
    if n <= 0 {
        0
    } else {
        material(pieces, white, n - 1) + if is_side(pieces[n - 1], white) {
            piece_value(pieces[n - 1])
        } else {
            0
        }
    }
}

impl Default for Board {
    /// An empty board: no pieces, white to move, full castling rights, no
    /// en-passant target, empty history.
    fn default() -> (b: Board)
        ensures
            b@.wf(),
            b@.pieces == Seq::new(64, |i: int| 0u8),
            b@.colour_to_move == true,
            b@.castling_rights == 0x33u8,
            b@.en_passant_square is None,
            b@.history.len() == 0,
    {
        let b = Board {
            pieces: vec![0u8; 64],
            colour_to_move: true,
            castling_rights: castling_rights::WHITE_CAN_CASTLE | castling_rights::BLACK_CAN_CASTLE,
            en_passant_square: None,
            move_history: Vec::new(),
        };
        proof {
            assert(castling_rights::WHITE_CAN_CASTLE | castling_rights::BLACK_CAN_CASTLE == 0x33u8)
                by (bit_vector);
            assert(b@.pieces =~= Seq::new(64, |i: int| 0u8));
        }
        b
    }
}

impl Board {
    /// The standard initial position: white to move, full rights, the back
    /// ranks filled and a row of pawns on each side's second rank.
    pub fn new() -> (b: Self)
        ensures
            b@.wf(),
            b@.pieces.len() == 64,
            forall|i: int| 0 <= i < 64 ==> b@.pieces[i] == initial_piece(i),
            b@.colour_to_move == true,
            castling_rights::spec_rights(b@.castling_rights, true) == 3,
            castling_rights::spec_rights(b@.castling_rights, false) == 3,
            b@.en_passant_square is None,
            b@.history.len() == 0,
    {
        let mut board = Self::default();

        board.pieces[0] = piece::WHITE | piece::ROOK;
        board.pieces[1] = piece::WHITE | piece::KNIGHT;
        board.pieces[2] = piece::WHITE | piece::BISHOP;
        board.pieces[3] = piece::WHITE | piece::QUEEN;
        board.pieces[4] = piece::WHITE | piece::KING;
        board.pieces[5] = piece::WHITE | piece::BISHOP;
        board.pieces[6] = piece::WHITE | piece::KNIGHT;
        board.pieces[7] = piece::WHITE | piece::ROOK;
        proof {
            piece::lemma_pack_piece(piece::WHITE, piece::ROOK);
            piece::lemma_pack_piece(piece::WHITE, piece::KNIGHT);
            piece::lemma_pack_piece(piece::WHITE, piece::BISHOP);
            piece::lemma_pack_piece(piece::WHITE, piece::QUEEN);
            piece::lemma_pack_piece(piece::WHITE, piece::KING);
        }
        let mut x: usize = 0;
        while x < 8
            invariant
                x <= 8,
                board.pieces@.len() == 64,
                forall|i: int| 0 <= i < 8 ==> board.pieces@[i] == initial_piece(i),
                forall|i: int| 8 <= i < 8 + x as int ==> board.pieces@[i] == initial_piece(i),
                forall|i: int| 8 + x as int <= i < 64 ==> board.pieces@[i] == 0,
                board.colour_to_move == true,
                board.castling_rights == 0x33u8,
                board.en_passant_square is None,
                board.move_history@.len() == 0,
            decreases 8 - x,
        {
            board.pieces[8 + x] = piece::WHITE | piece::PAWN;
            proof {
                piece::lemma_pack_piece(piece::WHITE, piece::PAWN);
            }
            x += 1;
        }

        board.pieces[56] = piece::BLACK | piece::ROOK;
        board.pieces[57] = piece::BLACK | piece::KNIGHT;
        board.pieces[58] = piece::BLACK | piece::BISHOP;
        board.pieces[59] = piece::BLACK | piece::QUEEN;
        board.pieces[60] = piece::BLACK | piece::KING;
        board.pieces[61] = piece::BLACK | piece::BISHOP;
        board.pieces[62] = piece::BLACK | piece::KNIGHT;
        board.pieces[63] = piece::BLACK | piece::ROOK;
        proof {
            piece::lemma_pack_piece(piece::BLACK, piece::ROOK);
            piece::lemma_pack_piece(piece::BLACK, piece::KNIGHT);
            piece::lemma_pack_piece(piece::BLACK, piece::BISHOP);
            piece::lemma_pack_piece(piece::BLACK, piece::QUEEN);
            piece::lemma_pack_piece(piece::BLACK, piece::KING);
        }
        let mut y: usize = 0;
        while y < 8
            invariant
                y <= 8,
                board.pieces@.len() == 64,
                forall|i: int| 0 <= i < 16 ==> board.pieces@[i] == initial_piece(i),
                forall|i: int| 56 <= i < 64 ==> board.pieces@[i] == initial_piece(i),
                forall|i: int| 48 <= i < 48 + y as int ==> board.pieces@[i] == initial_piece(i),
                forall|i: int| 16 <= i < 48 ==> board.pieces@[i] == 0,
                forall|i: int| 48 + y as int <= i < 56 ==> board.pieces@[i] == 0,
                board.colour_to_move == true,
                board.castling_rights == 0x33u8,
                board.en_passant_square is None,
                board.move_history@.len() == 0,
            decreases 8 - y,
        {
            board.pieces[48 + y] = piece::BLACK | piece::PAWN;
            proof {
                piece::lemma_pack_piece(piece::BLACK, piece::PAWN);
            }
            y += 1;
        }

        proof {
            lemma_initial_pieces_valid();
            assert forall|i: int| 0 <= i < 64 implies valid_piece(#[trigger] board.pieces@[i]) by {
                assert(board.pieces@[i] == initial_piece(i));
            }
        }
        board
    }

    /// The read accessor for external rendering: the piece byte (possibly
    /// none) occupying one square.
    pub fn piece_at(&self, square: usize) -> (p: u8)
        requires
            square < 64,
            self@.wf(),
        ensures
            p == self@.pieces[square as int],
    {
        self.pieces[square]
    }

    /// White's summed piece values minus black's: pawn 100, knight 300,
    /// bishop 300, rook 500, queen 900, kings excluded.
    pub fn evaluate(&self) -> (r: i32)
        requires
            self@.wf(),
        ensures
            r as int == material(self@.pieces, true, 64) - material(self@.pieces, false, 64),
    {
        let white_evaluation = self.evaluate_colour(true);
        let black_evaluation = self.evaluate_colour(false);

        white_evaluation - black_evaluation
    }

    /// Sum of one side's piece values over the whole board.
    fn evaluate_colour(&self, colour: bool) -> (r: i32)
        requires
            self@.wf(),
        ensures
            r as int == material(self@.pieces, colour, 64),
            0 <= r <= 57600,
    {
        let mut evaluation: i32 = 0;
        let mut i: usize = 0;
        while i < 64
            invariant
                i <= 64,
                self@.wf(),
                evaluation as int == material(self@.pieces, colour, i as int),
                0 <= evaluation <= 900 * i as int,
            decreases 64 - i,
        {
            let p = self.pieces[i];
            if Piece::is_colour_bool(p, colour) {
                let t = Piece::piece_type(p);
                let v: i32 = if t == piece::PAWN {
                    piece::PAWN_VALUE
                } else if t == piece::KNIGHT {
                    piece::KNIGHT_VALUE
                } else if t == piece::BISHOP {
                    piece::BISHOP_VALUE
                } else if t == piece::ROOK {
                    piece::ROOK_VALUE
                } else if t == piece::QUEEN {
                    piece::QUEEN_VALUE
                } else {
                    0
                };
                proof {
                    assert(v as int == piece_value(self@.pieces[i as int]));
                }
                evaluation = evaluation + v;
            }
            i += 1;
        }
        evaluation
    }
}

/// Every byte of the initial position is a valid piece byte.
proof fn lemma_initial_pieces_valid()
    ensures
        forall|i: int| 0 <= i < 64 ==> valid_piece(#[trigger] initial_piece(i)),
{
    assert forall|i: int| 0 <= i < 64 implies valid_piece(#[trigger] initial_piece(i)) by {
        piece::lemma_piece_from_parts(piece::WHITE as int, piece::ROOK as int);
        piece::lemma_piece_from_parts(piece::WHITE as int, piece::KNIGHT as int);
        piece::lemma_piece_from_parts(piece::WHITE as int, piece::BISHOP as int);
        piece::lemma_piece_from_parts(piece::WHITE as int, piece::QUEEN as int);
        piece::lemma_piece_from_parts(piece::WHITE as int, piece::KING as int);
        piece::lemma_piece_from_parts(piece::WHITE as int, piece::PAWN as int);
        piece::lemma_piece_from_parts(piece::BLACK as int, piece::ROOK as int);
        piece::lemma_piece_from_parts(piece::BLACK as int, piece::KNIGHT as int);
        piece::lemma_piece_from_parts(piece::BLACK as int, piece::BISHOP as int);
        piece::lemma_piece_from_parts(piece::BLACK as int, piece::QUEEN as int);
        piece::lemma_piece_from_parts(piece::BLACK as int, piece::KING as int);
        piece::lemma_piece_from_parts(piece::BLACK as int, piece::PAWN as int);
    }
}

// ---------------------------------------------------------------------------
// Applying and reversing moves.
// ---------------------------------------------------------------------------

/// The history entry pushed when a move is applied over `captured`.
pub open spec fn pushed_record(b: BoardView, m: u16, captured: u8) -> UndoRecord {
    UndoRecord {
        record: MoveRecord { v_move: m, piece_on_target_square: captured },
        prior_castling_rights: b.castling_rights,
        prior_en_passant: b.en_passant_square,
    }
}

/// The board after a promotion: the pawn leaves its square and a piece of
/// the promoted kind in the mover's colour appears on the target; the
/// captured byte is kept in the pushed record.
pub open spec fn make_promotion_spec(b: BoardView, m: u16) -> BoardView {
    let d = spec_departure(m);
    let t = spec_target(m);
    let promoted = (colour_of(b.pieces[d]) + moves::promotion_kind(spec_flags(m))) as u8;
    BoardView {
        pieces: b.pieces.update(t, promoted).update(d, 0u8),
        colour_to_move: !b.colour_to_move,
        castling_rights: b.castling_rights,
        en_passant_square: None,
        history: b.history.push(pushed_record(b, m, b.pieces[t])),
    }
}

/// The board after a castle: king and rook relocate in one atomic update
/// and the mover's whole rights nibble is cleared.
pub open spec fn make_castle_spec(b: BoardView, m: u16) -> BoardView {
    let k = king_square(b.colour_to_move);
    let pieces = if moves::spec_is_short_castling(m) {
        b.pieces.update(k + 2, b.pieces[k]).update(k + 1, b.pieces[k + 3]).update(k, 0u8).update(
            k + 3,
            0u8,
        )
    } else {
        b.pieces.update(k - 2, b.pieces[k]).update(k - 1, b.pieces[k - 4]).update(k, 0u8).update(
            k - 4,
            0u8,
        )
    };
    BoardView {
        pieces,
        colour_to_move: !b.colour_to_move,
        castling_rights: castling_rights::spec_clear_rights(b.castling_rights, b.colour_to_move),
        en_passant_square: None,
        history: b.history.push(pushed_record(b, m, 0u8)),
    }
}

/// The board after an ordinary move, double advances included: the moved
/// byte replaces whatever stood on the target, a king or rook move
/// forfeits the mover's whole rights nibble, and the en-passant target is
/// recomputed.
pub open spec fn make_ordinary_spec(b: BoardView, m: u16) -> BoardView {
    let d = spec_departure(m);
    let t = spec_target(m);
    let moved = b.pieces[d];
    let clears = kind_of(moved) == piece::KING as int || kind_of(moved) == piece::ROOK as int;
    BoardView {
        pieces: b.pieces.update(t, moved).update(d, 0u8),
        colour_to_move: !b.colour_to_move,
        castling_rights: if clears {
            castling_rights::spec_clear_rights(b.castling_rights, b.colour_to_move)
        } else {
            b.castling_rights
        },
        en_passant_square: if spec_is_double_forward(m) {
            Some((t - pawn_forward(b.colour_to_move)) as u8)
        } else {
            None
        },
        history: b.history.push(pushed_record(b, m, b.pieces[t])),
    }
}

/// The square of the pawn an en-passant capture removes: one step behind
/// the stored target square, back towards the mover.
pub open spec fn ep_captured_square(white: bool, t: int) -> int {
    t - pawn_forward(white)
}

/// The board after an en-passant capture: the mover slides onto the
/// stored (empty) target square and the bypassed enemy pawn's square is
/// emptied; the byte that square held is kept in the pushed record.
pub open spec fn make_en_passant_spec(b: BoardView, m: u16) -> BoardView {
    let d = spec_departure(m);
    let t = spec_target(m);
    let c = ep_captured_square(b.colour_to_move, t);
    BoardView {
        pieces: b.pieces.update(t, b.pieces[d]).update(d, 0u8).update(c, 0u8),
        colour_to_move: !b.colour_to_move,
        castling_rights: b.castling_rights,
        en_passant_square: None,
        history: b.history.push(pushed_record(b, m, b.pieces[c])),
    }
}

/// The board after applying move m, exactly as make_move leaves it.
pub open spec fn make_spec(b: BoardView, m: u16) -> BoardView {
    if spec_is_promotion(m) {
        make_promotion_spec(b, m)
    } else if moves::spec_is_castling(m) {
        make_castle_spec(b, m)
    } else if moves::spec_is_en_passant(m) {
        make_en_passant_spec(b, m)
    } else {
        make_ordinary_spec(b, m)
    }
}

/// The board after undoing its most recent move, exactly as undo_move
/// leaves it: the side to move flips back, rights and en-passant target
/// come back from the popped record, and the piece mapping is reversed.
pub open spec fn undo_spec(b: BoardView) -> BoardView
    recommends
        b.history.len() > 0,
{
    let rec = b.history.last();
    let m = rec.record.v_move;
    let white = !b.colour_to_move;
    let d = spec_departure(m);
    let t = spec_target(m);
    let pieces = if spec_is_promotion(m) {
        b.pieces.update(d, (side_bits(white) + piece::PAWN) as u8).update(
            t,
            rec.record.piece_on_target_square,
        )
    } else if moves::spec_is_short_castling(m) {
        let k = king_square(white);
        b.pieces.update(k, b.pieces[k + 2]).update(k + 3, b.pieces[k + 1]).update(
            k + 1,
            0u8,
        ).update(k + 2, 0u8)
    } else if moves::spec_is_long_castling(m) {
        let k = king_square(white);
        b.pieces.update(k, b.pieces[k - 2]).update(k - 4, b.pieces[k - 1]).update(
            k - 1,
            0u8,
        ).update(k - 2, 0u8)
    } else if moves::spec_is_en_passant(m) {
        let c = ep_captured_square(white, t);
        if 0 <= c < 64 {
            b.pieces.update(d, b.pieces[t]).update(t, 0u8).update(
                c,
                rec.record.piece_on_target_square,
            )
        } else {
            b.pieces.update(d, b.pieces[t]).update(t, 0u8)
        }
    } else {
        b.pieces.update(d, b.pieces[t]).update(t, rec.record.piece_on_target_square)
    };
    BoardView {
        pieces,
        colour_to_move: white,
        castling_rights: rec.prior_castling_rights,
        en_passant_square: rec.prior_en_passant,
        history: b.history.drop_last(),
    }
}

/// No pseudo-legal non-castle move departs from its own target square.
pub proof fn lemma_move_squares_distinct(b: BoardView, m: u16)
    requires
        b.wf(),
        pseudo_legal(b, m),
        m != moves::SHORT_CASTLE,
        m != moves::LONG_CASTLE,
    ensures
        spec_departure(m) != spec_target(m),
{
    moves::lemma_decode_encode(m);
    let d = spec_departure(m);
    let t = spec_target(m);
    let f = spec_flags(m);
    let white = b.colour_to_move;
    geometry::lemma_square_bounds(d);
    if f == 0 {
        let k = kind_of(b.pieces[d]);
        if k == piece::KNIGHT as int {
            let i = choose|i: int|
                0 <= i < 8 && #[trigger] knight_target_ok(d, i, t) && !is_side(b.pieces[t], white);
            geometry::lemma_square_decompose(
                rank_of(d) + geometry::knight_rank_delta(i),
                file_of(d) + geometry::knight_file_delta(i),
            );
            assert(file_of(t) != file_of(d) || rank_of(t) != rank_of(d));
        } else if piece::is_sliding_kind(k) {
            let (dd, kk) = choose|dd: int, kk: int|
                #[trigger] ray_move_at(b, white, d, dd, kk) && t == ray_square(d, dd, kk);
            assert(dir_offset(dd) != 0);
            assert(kk >= 1 && dir_offset(dd) != 0 ==> kk * dir_offset(dd) != 0)
                by (nonlinear_arith);
        }
    }
}

/// An en-passant capture's three squares all lie on the board and are
/// pairwise distinct: the departure, the stored target, and the bypassed
/// square one step behind the target.
pub proof fn lemma_ep_capture_bounds(b: BoardView, m: u16)
    requires
        b.wf(),
        pseudo_legal(b, m),
        m != moves::SHORT_CASTLE,
        m != moves::LONG_CASTLE,
        spec_flags(m) == 1,
    ensures
        0 <= ep_captured_square(b.colour_to_move, spec_target(m)) < 64,
        ep_captured_square(b.colour_to_move, spec_target(m)) != spec_departure(m),
        ep_captured_square(b.colour_to_move, spec_target(m)) != spec_target(m),
{
    moves::lemma_decode_encode(m);
    let d = spec_departure(m);
    let t = spec_target(m);
    let white = b.colour_to_move;
    geometry::lemma_square_bounds(d);
    let cd0 = pawn_capture_dir(white, 0);
    let cd1 = pawn_capture_dir(white, 1);
    if edge_dist(d, cd0) >= 1 && t == d + dir_offset(cd0) {
        geometry::lemma_ray_step(d, cd0, 1);
    } else {
        geometry::lemma_ray_step(d, cd1, 1);
    }
    geometry::lemma_square_bounds(t);
}

/// Round trip: applying any pseudo-legal move and then undoing it restores
/// the exact prior piece mapping, side to move, castling rights and
/// en-passant target, and pops the very record it pushed.
pub proof fn lemma_make_undo_round_trip(b: BoardView, m: u16)
    requires
        b.wf(),
        pseudo_legal(b, m),
    ensures
        undo_spec(make_spec(b, m)) == b,
{
    moves::lemma_decode_encode(m);
    let b2 = make_spec(b, m);
    let d = spec_departure(m);
    let t = spec_target(m);
    let white = b.colour_to_move;
    assert(b2.history.last().record.v_move == m);
    assert(b2.history.drop_last() =~= b.history);
    if spec_is_promotion(m) {
        lemma_move_squares_distinct(b, m);
        piece::lemma_valid_piece_parts(b.pieces[d]);
        assert(b.pieces[d] as int == side_bits(white) + piece::PAWN);
        assert(undo_spec(b2).pieces =~= b.pieces);
    } else if moves::spec_is_castling(m) {
        assert(m == moves::SHORT_CASTLE || m == moves::LONG_CASTLE);
        assert(undo_spec(b2).pieces =~= b.pieces);
    } else if moves::spec_is_en_passant(m) {
        lemma_move_squares_distinct(b, m);
        lemma_ep_capture_bounds(b, m);
        assert(undo_spec(b2).pieces =~= b.pieces);
    } else {
        lemma_move_squares_distinct(b, m);
        assert(undo_spec(b2).pieces =~= b.pieces);
    }
    assert(undo_spec(b2) =~= b);
}

/// Rights never regrow when a move is applied; moving one's own king or
/// rook, or castling, forfeits the mover's whole rights nibble at once.
pub proof fn lemma_castling_rights_monotonic(b: BoardView, m: u16, side: bool)
    requires
        b.wf(),
        pseudo_legal(b, m),
    ensures
        castling_rights::spec_can_short_castle(
            castling_rights::spec_rights(make_spec(b, m).castling_rights, side),
        ) ==> castling_rights::spec_can_short_castle(
            castling_rights::spec_rights(b.castling_rights, side),
        ),
        castling_rights::spec_can_long_castle(
            castling_rights::spec_rights(make_spec(b, m).castling_rights, side),
        ) ==> castling_rights::spec_can_long_castle(
            castling_rights::spec_rights(b.castling_rights, side),
        ),
        moves::spec_is_castling(m) ==> castling_rights::spec_rights(
            make_spec(b, m).castling_rights,
            b.colour_to_move,
        ) == 0,
        !spec_is_promotion(m) && !moves::spec_is_castling(m) && (kind_of(
            b.pieces[spec_departure(m)],
        ) == piece::KING as int || kind_of(b.pieces[spec_departure(m)]) == piece::ROOK as int)
            ==> castling_rights::spec_rights(make_spec(b, m).castling_rights, b.colour_to_move)
            == 0,
{
    castling_rights::lemma_clear_rights(b.castling_rights, b.colour_to_move);
    castling_rights::lemma_clear_rights_monotonic(b.castling_rights, b.colour_to_move, side);
}

impl Board {
    /// Applies a move.  The caller must pass a move drawn from the current
    /// generate_moves result; the precondition states exactly that.
    pub fn make_move(&mut self, v_move: u16)
        requires
            old(self)@.wf(),
            pseudo_legal(old(self)@, v_move),
        ensures
            final(self)@ == make_spec(old(self)@, v_move),
            final(self)@.wf(),
    {
        proof {
            moves::lemma_decode_encode(v_move);
        }
        let ghost b0 = self@;
        let departure_square = Move::departure_square(v_move) as usize;
        let target_square = Move::target_square(v_move) as usize;
        let promotion = Move::is_promotion(v_move);
        let castling = Move::is_castling(v_move);

        if promotion {
            let move_record = UndoRecord {
                record: MoveRecord::new(v_move, self.pieces[target_square]),
                prior_castling_rights: self.castling_rights,
                prior_en_passant: self.en_passant_square,
            };
            self.move_history.push(move_record);

            let promotion_type = Move::promotion_type(v_move);
            let piece_to_promote_to: u8 = if promotion_type == moves::PROMOTE_TO_KNIGHT {
                piece::KNIGHT
            } else if promotion_type == moves::PROMOTE_TO_BISHOP {
                piece::BISHOP
            } else if promotion_type == moves::PROMOTE_TO_ROOK {
                piece::ROOK
            } else {
                piece::QUEEN
            };
            proof {
                moves::lemma_promotion_type_of(v_move);
                assert(piece_to_promote_to as int == moves::promotion_kind(spec_flags(v_move)));
            }
            let piece_colour = Piece::colour(self.pieces[departure_square]);
            proof {
                piece::lemma_pack_piece(piece_colour, piece_to_promote_to);
            }
            self.pieces[target_square] = piece_colour | piece_to_promote_to;
            self.pieces[departure_square] = piece::NONE;
            self.en_passant_square = None;
            self.colour_to_move = !self.colour_to_move;
            proof {
                piece::lemma_piece_from_parts(
                    piece_colour as int,
                    piece_to_promote_to as int,
                );
                assert(self@.pieces =~= make_promotion_spec(b0, v_move).pieces);
                assert(self@ =~= make_spec(b0, v_move));
                assert forall|i: int| 0 <= i < 64 implies valid_piece(
                    #[trigger] self@.pieces[i],
                ) by {
                    assert(valid_piece(b0.pieces[i]));
                }
            }
            return;
        }
        if castling {
            proof {
                assert(v_move == moves::SHORT_CASTLE || v_move == moves::LONG_CASTLE);
            }
            let move_record = UndoRecord {
                record: MoveRecord::new(v_move, 0),
                prior_castling_rights: self.castling_rights,
                prior_en_passant: self.en_passant_square,
            };
            self.move_history.push(move_record);

            let king_index: usize = if self.colour_to_move {
                KING_SQUARE_WHITE
            } else {
                KING_SQUARE_BLACK
            };
            self.castling_rights = CastlingRights::clear_rights(
                self.castling_rights,
                self.colour_to_move,
            );
            if Move::is_short_castling(v_move) {
                let king = self.pieces[king_index];
                let rook = self.pieces[king_index + 3];
                self.pieces[king_index] = piece::NONE;
                self.pieces[king_index + 3] = piece::NONE;
                self.pieces[king_index + 2] = king;
                self.pieces[king_index + 1] = rook;
            } else {
                let king = self.pieces[king_index];
                let rook = self.pieces[king_index - 4];
                self.pieces[king_index] = piece::NONE;
                self.pieces[king_index - 4] = piece::NONE;
                self.pieces[king_index - 2] = king;
                self.pieces[king_index - 1] = rook;
            }
            self.en_passant_square = None;
            self.colour_to_move = !self.colour_to_move;
            proof {
                castling_rights::lemma_clear_rights(b0.castling_rights, b0.colour_to_move);
                assert(self@.pieces =~= make_castle_spec(b0, v_move).pieces);
                assert(self@ =~= make_spec(b0, v_move));
                assert forall|i: int| 0 <= i < 64 implies valid_piece(
                    #[trigger] self@.pieces[i],
                ) by {
                    assert(valid_piece(b0.pieces[i]));
                }
            }
            return;
        }
        if Move::is_en_passant(v_move) {
            proof {
                lemma_ep_capture_bounds(b0, v_move);
            }
            let captured_square = if self.colour_to_move {
                target_square - 8
            } else {
                target_square + 8
            };
            let move_record = UndoRecord {
                record: MoveRecord::new(v_move, self.pieces[captured_square]),
                prior_castling_rights: self.castling_rights,
                prior_en_passant: self.en_passant_square,
            };
            self.move_history.push(move_record);

            self.pieces[target_square] = self.pieces[departure_square];
            self.pieces[departure_square] = piece::NONE;
            self.pieces[captured_square] = piece::NONE;
            self.en_passant_square = None;
            self.colour_to_move = !self.colour_to_move;
            proof {
                assert(self@.pieces =~= make_en_passant_spec(b0, v_move).pieces);
                assert(self@ =~= make_spec(b0, v_move));
                assert forall|i: int| 0 <= i < 64 implies valid_piece(
                    #[trigger] self@.pieces[i],
                ) by {
                    assert(valid_piece(b0.pieces[i]));
                }
            }
            return;
        }
        let move_record = UndoRecord {
            record: MoveRecord::new(v_move, self.pieces[target_square]),
            prior_castling_rights: self.castling_rights,
            prior_en_passant: self.en_passant_square,
        };
        self.move_history.push(move_record);

        let piece_to_move_type = Piece::piece_type(self.pieces[departure_square]);
        if piece_to_move_type == piece::KING || piece_to_move_type == piece::ROOK {
            self.castling_rights = CastlingRights::clear_rights(
                self.castling_rights,
                self.colour_to_move,
            );
        }

        self.en_passant_square = if Move::is_double_forward_pawn_move(v_move) {
            proof {
                geometry::lemma_square_bounds(spec_departure(v_move));
                assert(8 <= target_square < 56);
            }
            if self.colour_to_move {
                Some((target_square - 8) as u8)
            } else {
                Some((target_square + 8) as u8)
            }
        } else {
            None
        };

        self.pieces[target_square] = self.pieces[departure_square];
        self.pieces[departure_square] = piece::NONE;
        self.colour_to_move = !self.colour_to_move;
        proof {
            castling_rights::lemma_clear_rights(b0.castling_rights, b0.colour_to_move);
            assert(self@.pieces =~= make_ordinary_spec(b0, v_move).pieces);
            assert(self@ =~= make_spec(b0, v_move));
            assert forall|i: int| 0 <= i < 64 implies valid_piece(#[trigger] self@.pieces[i]) by {
                assert(valid_piece(b0.pieces[i]));
            }
        }
    }

    /// Undoes the most recently applied move; an empty history stack is an
    /// error, never a silent no-op.
    pub fn undo_move(&mut self) -> (r: Result<(), UndoMoveError>)
        requires
            old(self)@.wf(),
        ensures
            match r {
                Ok(()) => old(self)@.history.len() > 0 && final(self)@ == undo_spec(old(self)@)
                    && final(self)@.wf(),
                Err(e) => e == UndoMoveError::EmptyStack && old(self)@.history.len() == 0
                    && final(self)@ == old(self)@,
            },
    {
        let ghost b0 = self@;
        let move_record = match self.move_history.pop() {
            Some(v) => v,
            None => {
                return Err(UndoMoveError::EmptyStack);
            },
        };
        let v_move = move_record.record.v_move;
        proof {
            moves::lemma_decode_encode(v_move);
            assert(move_record == b0.history.last());
            assert(self.move_history@ =~= b0.history.drop_last());
            assert(wf_record(b0.history.last()));
        }

        let departure_square = Move::departure_square(v_move) as usize;
        let target_square = Move::target_square(v_move) as usize;

        self.colour_to_move = !self.colour_to_move;
        self.castling_rights = move_record.prior_castling_rights;
        self.en_passant_square = move_record.prior_en_passant;

        if Move::is_promotion(v_move) {
            let piece_colour = if self.colour_to_move {
                piece::WHITE
            } else {
                piece::BLACK
            };
            proof {
                piece::lemma_pack_piece(piece_colour, piece::PAWN);
            }
            self.pieces[departure_square] = piece_colour | piece::PAWN;
            self.pieces[target_square] = move_record.record.piece_on_target_square;
        } else if Move::is_short_castling(v_move) {
            let king_index: usize = if self.colour_to_move {
                KING_SQUARE_WHITE
            } else {
                KING_SQUARE_BLACK
            };
            let king = self.pieces[king_index + 2];
            let rook = self.pieces[king_index + 1];
            self.pieces[king_index] = king;
            self.pieces[king_index + 3] = rook;
            self.pieces[king_index + 1] = piece::NONE;
            self.pieces[king_index + 2] = piece::NONE;
        } else if Move::is_long_castling(v_move) {
            let king_index: usize = if self.colour_to_move {
                KING_SQUARE_WHITE
            } else {
                KING_SQUARE_BLACK
            };
            let king = self.pieces[king_index - 2];
            let rook = self.pieces[king_index - 1];
            self.pieces[king_index] = king;
            self.pieces[king_index - 4] = rook;
            self.pieces[king_index - 1] = piece::NONE;
            self.pieces[king_index - 2] = piece::NONE;
        } else if Move::is_en_passant(v_move) {
            self.pieces[departure_square] = self.pieces[target_square];
            self.pieces[target_square] = piece::NONE;
            if self.colour_to_move {
                if target_square >= 8 {
                    self.pieces[target_square - 8] = move_record.record.piece_on_target_square;
                }
            } else {
                if target_square + 8 < 64 {
                    self.pieces[target_square + 8] = move_record.record.piece_on_target_square;
                }
            }
        } else {
            self.pieces[departure_square] = self.pieces[target_square];
            self.pieces[target_square] = move_record.record.piece_on_target_square;
        }
        proof {
            piece::lemma_pack_piece(piece::WHITE, piece::PAWN);
            piece::lemma_pack_piece(piece::BLACK, piece::PAWN);
            assert(self@.pieces =~= undo_spec(b0).pieces);
            assert(self@ =~= undo_spec(b0));
            assert forall|i: int| 0 <= i < 64 implies valid_piece(#[trigger] self@.pieces[i]) by {
                assert(valid_piece(b0.pieces[i]));
            }
        }
        Ok(())
    }
}

// ---------------------------------------------------------------------------
// Move generation.
// ---------------------------------------------------------------------------

/// A pseudo-legal move other than the two castle words.
pub open spec fn noncastle_legal(b: BoardView, m: u16) -> bool {
    &&& m != moves::SHORT_CASTLE
    &&& m != moves::LONG_CASTLE
    &&& pseudo_legal(b, m)
}

/// The flagless move word from s to t.
pub open spec fn plain_word(s: int, t: int) -> u16 {
    moves::spec_encode(s, t, 0)
}

/// The words one ray contributes: a flagless move onto each slidable step.
pub open spec fn ray_emits(b: BoardView, s: int, dir: int, m: u16) -> bool {
    exists|k: int|
        #[trigger] ray_hit(b, b.colour_to_move, s, dir, k) && m == plain_word(
            s,
            ray_square(s, dir, k),
        )
}

/// The words pushed after n free steps along a ray: one flagless move onto
/// each of the first K squares.
pub open spec fn ray_emitted_upto(
    init: Seq<u16>,
    cur: Seq<u16>,
    s: int,
    dir: int,
    bound: int,
) -> bool {
    forall|m: u16|
        #[trigger] cur.contains(m) <==> init.contains(m) || exists|k: int|
            1 <= k <= bound && m == plain_word(s, #[trigger] ray_square(s, dir, k))
}

/// Pushing the word of step bound+1 extends the emitted-up-to relation by
/// one step.
proof fn lemma_ray_push(init: Seq<u16>, prev: Seq<u16>, s: int, dir: int, bound: int, w: u16)
    requires
        ray_emitted_upto(init, prev, s, dir, bound),
        w == plain_word(s, ray_square(s, dir, bound + 1)),
        bound >= 0,
    ensures
        ray_emitted_upto(init, prev.push(w), s, dir, bound + 1),
{
    let cur = prev.push(w);
    assert forall|m: u16|
        #[trigger] cur.contains(m) implies init.contains(m) || exists|k: int|
            1 <= k <= bound + 1 && m == plain_word(s, #[trigger] ray_square(s, dir, k)) by {
        vstd::seq_lib::lemma_seq_contains_after_push(prev, w, m);
        if m == w {
            assert(1 <= bound + 1 <= bound + 1 && m == plain_word(
                s,
                ray_square(s, dir, bound + 1),
            ));
        } else {
            assert(prev.contains(m));
            if !init.contains(m) {
                let k = choose|k: int|
                    1 <= k <= bound && m == plain_word(s, #[trigger] ray_square(s, dir, k));
                assert(1 <= k <= bound + 1 && m == plain_word(s, ray_square(s, dir, k)));
            }
        }
    }
    assert forall|m: u16|
        init.contains(m) || (exists|k: int|
            1 <= k <= bound + 1 && m == plain_word(
                s,
                #[trigger] ray_square(s, dir, k),
            )) implies #[trigger] cur.contains(m) by {
        vstd::seq_lib::lemma_seq_contains_after_push(prev, w, m);
        if init.contains(m) {
            assert(prev.contains(m));
        } else {
            let k = choose|k: int|
                1 <= k <= bound + 1 && m == plain_word(s, #[trigger] ray_square(s, dir, k));
            if k <= bound {
                assert(prev.contains(m));
            } else {
                assert(m == w);
            }
        }
    }
}

/// When the slidable steps of a ray are exactly 1..=bound, the emitted-up-to
/// relation at that bound says the ray's words are all there.
proof fn lemma_ray_emit_equiv(
    b: BoardView,
    s: int,
    dir: int,
    bound: int,
    init: Seq<u16>,
    cur: Seq<u16>,
)
    requires
        forall|k: int| #[trigger] ray_hit(b, b.colour_to_move, s, dir, k) <==> 1 <= k <= bound,
        ray_emitted_upto(init, cur, s, dir, bound),
    ensures
        forall|m: u16|
            #[trigger] cur.contains(m) <==> init.contains(m) || ray_emits(b, s, dir, m),
{
    assert forall|m: u16|
        #[trigger] cur.contains(m) <==> init.contains(m) || ray_emits(b, s, dir, m) by {
        if cur.contains(m) && !init.contains(m) {
            let k = choose|k: int|
                1 <= k <= bound && m == plain_word(s, #[trigger] ray_square(s, dir, k));
            assert(ray_hit(b, b.colour_to_move, s, dir, k));
            assert(ray_emits(b, s, dir, m));
        }
        if ray_emits(b, s, dir, m) {
            let k = choose|k: int|
                #[trigger] ray_hit(b, b.colour_to_move, s, dir, k) && m == plain_word(
                    s,
                    ray_square(s, dir, k),
                );
            assert(1 <= k <= bound && m == plain_word(s, ray_square(s, dir, k)));
            assert(cur.contains(m));
        }
        if init.contains(m) {
            assert(cur.contains(m));
        }
    }
}

/// After n free steps, every earlier step is a slidable square.
proof fn lemma_ray_free_prefix(b: BoardView, s: int, dir: int, n: int)
    requires
        b.wf(),
        0 <= s < 64,
        0 <= dir < 8,
        n <= edge_dist(s, dir),
        forall|j: int| 1 <= j <= n ==> b.pieces[#[trigger] ray_square(s, dir, j)] == 0,
    ensures
        forall|k: int| 1 <= k <= n ==> #[trigger] ray_hit(b, b.colour_to_move, s, dir, k),
{
    assert forall|k: int| 1 <= k <= n implies #[trigger] ray_hit(
        b,
        b.colour_to_move,
        s,
        dir,
        k,
    ) by {
        assert(b.pieces[ray_square(s, dir, k)] == 0);
        assert(!is_side(b.pieces[ray_square(s, dir, k)], b.colour_to_move));
    }
}

/// A nonempty square stops the ray: no step beyond it is slidable.
proof fn lemma_ray_blocked(b: BoardView, s: int, dir: int, n: int)
    requires
        b.wf(),
        0 <= s < 64,
        0 <= dir < 8,
        0 <= n < edge_dist(s, dir),
        b.pieces[ray_square(s, dir, n + 1)] != 0,
    ensures
        forall|k: int| k > n + 1 ==> !#[trigger] ray_hit(b, b.colour_to_move, s, dir, k),
{
    assert forall|k: int| k > n + 1 implies !#[trigger] ray_hit(
        b,
        b.colour_to_move,
        s,
        dir,
        k,
    ) by {
        if ray_hit(b, b.colour_to_move, s, dir, k) {
            assert(b.pieces[ray_square(s, dir, n + 1)] == 0);
        }
    }
}

/// Pushing a word not yet present keeps the list free of duplicates.
proof fn lemma_no_dup_push(s: Seq<u16>, v: u16)
    requires
        s.no_duplicates(),
        !s.contains(v),
    ensures
        s.push(v).no_duplicates(),
{
    let c = s.push(v);
    assert forall|i: int, j: int|
        0 <= i < c.len() && 0 <= j < c.len() && i != j implies c[i] != c[j] by {
        if i < s.len() && j < s.len() {
            assert(s[i] != s[j]);
        } else if i < s.len() {
            assert(s.contains(s[i]));
        } else if j < s.len() {
            assert(s.contains(s[j]));
        }
    }
}

/// Flagless words over one departure square differ whenever their targets
/// do.
proof fn lemma_plain_words_distinct(s: int, t1: int, t2: int)
    requires
        0 <= s < 64,
        0 <= t1 < 64,
        0 <= t2 < 64,
        t1 != t2,
    ensures
        plain_word(s, t1) != plain_word(s, t2),
{
    moves::lemma_encode_decode(s, t1, 0);
    moves::lemma_encode_decode(s, t2, 0);
}

/// Distinct (direction, step) pairs within the edge distances land on
/// distinct squares: staying on the board disambiguates the rays.
proof fn lemma_ray_targets_injective(s: int, d1: int, k1: int, d2: int, k2: int)
    requires
        0 <= s < 64,
        0 <= d1 < 8,
        0 <= d2 < 8,
        1 <= k1 <= edge_dist(s, d1),
        1 <= k2 <= edge_dist(s, d2),
        d1 != d2 || k1 != k2,
    ensures
        ray_square(s, d1, k1) != ray_square(s, d2, k2),
{
    geometry::lemma_ray_step(s, d1, k1);
    geometry::lemma_ray_step(s, d2, k2);
    let df1 = geometry::dir_file_delta(d1);
    let dr1 = geometry::dir_rank_delta(d1);
    let df2 = geometry::dir_file_delta(d2);
    let dr2 = geometry::dir_rank_delta(d2);
    assert((df1 == -1 ==> k1 * df1 == -k1) && (df1 == 0 ==> k1 * df1 == 0) && (df1 == 1 ==> k1
        * df1 == k1)) by (nonlinear_arith);
    assert((dr1 == -1 ==> k1 * dr1 == -k1) && (dr1 == 0 ==> k1 * dr1 == 0) && (dr1 == 1 ==> k1
        * dr1 == k1)) by (nonlinear_arith);
    assert((df2 == -1 ==> k2 * df2 == -k2) && (df2 == 0 ==> k2 * df2 == 0) && (df2 == 1 ==> k2
        * df2 == k2)) by (nonlinear_arith);
    assert((dr2 == -1 ==> k2 * dr2 == -k2) && (dr2 == 0 ==> k2 * dr2 == 0) && (dr2 == 1 ==> k2
        * dr2 == k2)) by (nonlinear_arith);
    if ray_square(s, d1, k1) == ray_square(s, d2, k2) {
        assert(file_of(s) + k1 * df1 == file_of(s) + k2 * df2);
        assert(rank_of(s) + k1 * dr1 == rank_of(s) + k2 * dr2);
        assert(df1 == df2 && dr1 == dr2);
        assert(d1 == d2);
        assert(k1 == k2);
    }
}

/// No two of the eight knight leaps from one square land on the same
/// square.
proof fn lemma_knight_leap_unique(s: int, i1: int, i2: int, t: int)
    requires
        0 <= s < 64,
        0 <= i1 < 8,
        0 <= i2 < 8,
        knight_target_ok(s, i1, t),
        knight_target_ok(s, i2, t),
    ensures
        i1 == i2,
{
    geometry::lemma_square_decompose(
        rank_of(s) + geometry::knight_rank_delta(i1),
        file_of(s) + geometry::knight_file_delta(i1),
    );
    geometry::lemma_square_decompose(
        rank_of(s) + geometry::knight_rank_delta(i2),
        file_of(s) + geometry::knight_file_delta(i2),
    );
}

impl Board {
    /// Walks one ray from square s, pushing a move onto each empty square
    /// and onto the first enemy square, and stopping at the first piece hit.
    fn gen_ray(&self, num_to_edge: u8, s: usize, dir: usize, moves_list: &mut Vec<u16>)
        requires
            self@.wf(),
            s < 64,
            dir < 8,
            num_to_edge as int == edge_dist(s as int, dir as int),
            old(moves_list)@.no_duplicates(),
            forall|m: u16|
                #[trigger] ray_emits(self@, s as int, dir as int, m) ==> !old(
                    moves_list,
                )@.contains(m),
        ensures
            forall|m: u16|
                #[trigger] final(moves_list)@.contains(m) <==> old(moves_list)@.contains(m)
                    || ray_emits(self@, s as int, dir as int, m),
            final(moves_list)@.no_duplicates(),
    {
        let white = self.colour_to_move;
        let off = geometry::direction_offset(dir);
        proof {
            geometry::lemma_square_bounds(s as int);
        }
        let mut n: u8 = 0;
        while n < num_to_edge
            invariant
                self@.wf(),
                s < 64,
                dir < 8,
                white == self@.colour_to_move,
                off as int == dir_offset(dir as int),
                num_to_edge as int == edge_dist(s as int, dir as int),
                num_to_edge <= 7,
                n <= num_to_edge,
                forall|j: int|
                    1 <= j <= n as int ==> self@.pieces[#[trigger] ray_square(
                        s as int,
                        dir as int,
                        j,
                    )] == 0,
                ray_emitted_upto(
                    old(moves_list)@,
                    moves_list@,
                    s as int,
                    dir as int,
                    n as int,
                ),
                old(moves_list)@.no_duplicates(),
                moves_list@.no_duplicates(),
                forall|m: u16|
                    #[trigger] ray_emits(self@, s as int, dir as int, m) ==> !old(
                        moves_list,
                    )@.contains(m),
            decreases num_to_edge - n,
        {
            proof {
                assert(-9 <= off as int <= 9);
                assert(-72 <= off as int * (n as int + 1) <= 72) by (nonlinear_arith)
                    requires
                        -9 <= off as int <= 9,
                        0 <= n as int + 1 <= 8,
                ;
                assert(off as int * (n as int + 1) == (n as int + 1) * off as int)
                    by (nonlinear_arith);
                geometry::lemma_ray_step(s as int, dir as int, n as int + 1);
            }
            let t_i: i16 = s as i16 + off * (n as i16 + 1);
            let target_square = t_i as usize;
            proof {
                assert(target_square as int == ray_square(s as int, dir as int, n as int + 1));
            }
            let piece_on_target_square = self.pieces[target_square];

            if Piece::is_colour_bool(piece_on_target_square, white) {
                proof {
                    lemma_ray_free_prefix(self@, s as int, dir as int, n as int);
                    lemma_ray_blocked(self@, s as int, dir as int, n as int);
                    assert forall|k: int|
                        #[trigger] ray_hit(self@, white, s as int, dir as int, k) <==> 1 <= k <= n
                            as int by {
                        if k == n as int + 1 {
                            assert(is_side(
                                self@.pieces[ray_square(s as int, dir as int, k)],
                                white,
                            ));
                        }
                    }
                    lemma_ray_emit_equiv(
                        self@,
                        s as int,
                        dir as int,
                        n as int,
                        old(moves_list)@,
                        moves_list@,
                    );
                }
                return;
            }

            let m_move = Move::new(s as u16, target_square as u16);
            let ghost prev = moves_list@;
            proof {
                moves::lemma_encode_decode(s as int, target_square as int, 0);
                // the pushed word names step n+1, which is slidable here
                assert(ray_hit(self@, self@.colour_to_move, s as int, dir as int, n as int + 1));
                assert(ray_emits(self@, s as int, dir as int, m_move));
                // and neither an earlier step nor an old word names it
                assert(!prev.contains(m_move)) by {
                    if prev.contains(m_move) && !old(moves_list)@.contains(m_move) {
                        let k = choose|k: int|
                            1 <= k <= n as int && m_move == plain_word(
                                s as int,
                                #[trigger] ray_square(s as int, dir as int, k),
                            );
                        lemma_ray_words_distinct(s as int, dir as int, k, n as int + 1);
                    }
                }
            }
            moves_list.push(m_move);
            proof {
                lemma_ray_push(
                    old(moves_list)@,
                    prev,
                    s as int,
                    dir as int,
                    n as int,
                    m_move,
                );
                lemma_no_dup_push(prev, m_move);
            }

            if Piece::is_colour_bool(piece_on_target_square, !white) {
                proof {
                    lemma_ray_free_prefix(self@, s as int, dir as int, n as int);
                    lemma_ray_blocked(self@, s as int, dir as int, n as int);
                    assert(valid_piece(piece_on_target_square));
                    assert forall|k: int|
                        #[trigger] ray_hit(self@, white, s as int, dir as int, k) <==> 1 <= k <= n
                            as int + 1 by {
                        if k == n as int + 1 {
                            assert(ray_hit(self@, white, s as int, dir as int, k));
                        }
                    }
                    lemma_ray_emit_equiv(
                        self@,
                        s as int,
                        dir as int,
                        n as int + 1,
                        old(moves_list)@,
                        moves_list@,
                    );
                }
                return;
            }
            proof {
                assert(valid_piece(piece_on_target_square));
                assert(piece_on_target_square == 0);
            }
            n += 1;
        }
        proof {
            lemma_ray_free_prefix(self@, s as int, dir as int, num_to_edge as int);
            assert forall|k: int|
                #[trigger] ray_hit(self@, white, s as int, dir as int, k) <==> 1 <= k
                    <= num_to_edge as int by {}
            lemma_ray_emit_equiv(
                self@,
                s as int,
                dir as int,
                num_to_edge as int,
                old(moves_list)@,
                moves_list@,
            );
        }
    }
}

/// The words the rays in directions lo..hi contribute from square s.
pub open spec fn sliding_emits_upto(b: BoardView, s: int, lo: int, hi: int, m: u16) -> bool {
    exists|d: int, k: int|
        lo <= d < hi && #[trigger] ray_hit(b, b.colour_to_move, s, d, k) && m == plain_word(
            s,
            ray_square(s, d, k),
        )
}

/// Extending the processed direction range by one adds exactly that ray's
/// words.
proof fn lemma_sliding_join(
    b: BoardView,
    s: int,
    lo: int,
    dir: int,
    init: Seq<u16>,
    prev: Seq<u16>,
    cur: Seq<u16>,
)
    requires
        lo <= dir,
        forall|m: u16|
            #[trigger] prev.contains(m) <==> init.contains(m) || sliding_emits_upto(
                b,
                s,
                lo,
                dir,
                m,
            ),
        forall|m: u16|
            #[trigger] cur.contains(m) <==> prev.contains(m) || ray_emits(b, s, dir, m),
    ensures
        forall|m: u16|
            #[trigger] cur.contains(m) <==> init.contains(m) || sliding_emits_upto(
                b,
                s,
                lo,
                dir + 1,
                m,
            ),
{
    assert forall|m: u16|
        #[trigger] cur.contains(m) <==> init.contains(m) || sliding_emits_upto(
            b,
            s,
            lo,
            dir + 1,
            m,
        ) by {
        if cur.contains(m) {
            if !init.contains(m) {
                if prev.contains(m) {
                    let (d, k) = choose|d: int, k: int|
                        lo <= d < dir && #[trigger] ray_hit(b, b.colour_to_move, s, d, k) && m
                            == plain_word(s, ray_square(s, d, k));
                    assert(lo <= d < dir + 1 && ray_hit(b, b.colour_to_move, s, d, k) && m
                        == plain_word(s, ray_square(s, d, k)));
                } else {
                    let k = choose|k: int|
                        #[trigger] ray_hit(b, b.colour_to_move, s, dir, k) && m == plain_word(
                            s,
                            ray_square(s, dir, k),
                        );
                    assert(lo <= dir < dir + 1 && ray_hit(b, b.colour_to_move, s, dir, k) && m
                        == plain_word(s, ray_square(s, dir, k)));
                }
            }
        }
        if sliding_emits_upto(b, s, lo, dir + 1, m) {
            let (d, k) = choose|d: int, k: int|
                lo <= d < dir + 1 && #[trigger] ray_hit(b, b.colour_to_move, s, d, k) && m
                    == plain_word(s, ray_square(s, d, k));
            if d < dir {
                assert(sliding_emits_upto(b, s, lo, dir, m));
                assert(prev.contains(m));
            } else {
                assert(ray_emits(b, s, dir, m));
            }
        }
    }
}

/// Over the full direction range of the piece on s, the emitted words are
/// exactly the flagless sliding moves departing from s.
proof fn lemma_sliding_total(b: BoardView, s: int, init: Seq<u16>, cur: Seq<u16>)
    requires
        b.wf(),
        0 <= s < 64,
        piece::is_sliding_kind(kind_of(b.pieces[s])),
        forall|m: u16|
            #[trigger] cur.contains(m) <==> init.contains(m) || sliding_emits_upto(
                b,
                s,
                dir_lo(kind_of(b.pieces[s])),
                dir_hi(kind_of(b.pieces[s])),
                m,
            ),
    ensures
        forall|m: u16|
            #[trigger] cur.contains(m) <==> init.contains(m) || (spec_flags(m) == 0
                && spec_departure(m) == s && sliding_move_ok(
                b,
                b.colour_to_move,
                s,
                spec_target(m),
            )),
{
    let lo = dir_lo(kind_of(b.pieces[s]));
    let hi = dir_hi(kind_of(b.pieces[s]));
    assert forall|m: u16|
        #[trigger] cur.contains(m) <==> init.contains(m) || (spec_flags(m) == 0
            && spec_departure(m) == s && sliding_move_ok(
            b,
            b.colour_to_move,
            s,
            spec_target(m),
        )) by {
        if cur.contains(m) && !init.contains(m) {
            let (d, k) = choose|d: int, k: int|
                lo <= d < hi && #[trigger] ray_hit(b, b.colour_to_move, s, d, k) && m
                    == plain_word(s, ray_square(s, d, k));
            geometry::lemma_ray_step(s, d, k);
            let t = ray_square(s, d, k);
            moves::lemma_encode_decode(s, t, 0);
            assert(ray_move_at(b, b.colour_to_move, s, d, k) && t == ray_square(s, d, k));
            assert(sliding_move_ok(b, b.colour_to_move, s, t));
        }
        if spec_flags(m) == 0 && spec_departure(m) == s && sliding_move_ok(
            b,
            b.colour_to_move,
            s,
            spec_target(m),
        ) {
            let t = spec_target(m);
            let (d, k) = choose|d: int, k: int|
                #[trigger] ray_move_at(b, b.colour_to_move, s, d, k) && t == ray_square(s, d, k);
            moves::lemma_decode_encode(m);
            assert(m == plain_word(s, ray_square(s, d, k)));
            assert(sliding_emits_upto(b, s, lo, hi, m));
        }
    }
}

impl Board {
    /// Pushes the moves of the sliding piece on square s: queens use all
    /// eight directions, rooks the four orthogonals, bishops the four
    /// diagonals.
    fn gen_sliding(&self, table: &Vec<Vec<u8>>, s: usize, moves_list: &mut Vec<u16>)
        requires
            self@.wf(),
            s < 64,
            piece::is_sliding_kind(kind_of(self@.pieces[s as int])),
            table@.len() == 64,
            forall|i: int| 0 <= i < 64 ==> (#[trigger] table@[i])@.len() == 8,
            forall|i: int, d: int|
                #![trigger table@[i]@[d]]
                0 <= i < 64 && 0 <= d < 8 ==> table@[i]@[d] as int == edge_dist(i, d),
            old(moves_list)@.no_duplicates(),
            forall|m: u16|
                spec_flags(m) == 0 && spec_departure(m) == s as int && sliding_move_ok(
                    self@,
                    self@.colour_to_move,
                    s as int,
                    spec_target(m),
                ) ==> !old(moves_list)@.contains(m),
        ensures
            forall|m: u16|
                #[trigger] final(moves_list)@.contains(m) <==> old(moves_list)@.contains(m) || (
                spec_flags(m) == 0 && spec_departure(m) == s as int && sliding_move_ok(
                    self@,
                    self@.colour_to_move,
                    s as int,
                    spec_target(m),
                )),
            final(moves_list)@.no_duplicates(),
    {
        let kind = Piece::piece_type(self.pieces[s]);
        let dir_start: usize = if kind == piece::BISHOP {
            4
        } else {
            0
        };
        let dir_end: usize = if kind == piece::ROOK {
            4
        } else {
            8
        };
        let mut dir_index = dir_start;
        while dir_index < dir_end
            invariant
                self@.wf(),
                s < 64,
                piece::is_sliding_kind(kind_of(self@.pieces[s as int])),
                table@.len() == 64,
                forall|i: int| 0 <= i < 64 ==> (#[trigger] table@[i])@.len() == 8,
                forall|i: int, d: int|
                    #![trigger table@[i]@[d]]
                    0 <= i < 64 && 0 <= d < 8 ==> table@[i]@[d] as int == edge_dist(i, d),
                dir_start as int == dir_lo(kind_of(self@.pieces[s as int])),
                dir_end as int == dir_hi(kind_of(self@.pieces[s as int])),
                dir_start <= dir_index <= dir_end,
                dir_end <= 8,
                forall|m: u16|
                    #[trigger] moves_list@.contains(m) <==> old(moves_list)@.contains(m)
                        || sliding_emits_upto(
                        self@,
                        s as int,
                        dir_start as int,
                        dir_index as int,
                        m,
                    ),
                old(moves_list)@.no_duplicates(),
                moves_list@.no_duplicates(),
                forall|m: u16|
                    spec_flags(m) == 0 && spec_departure(m) == s as int && sliding_move_ok(
                        self@,
                        self@.colour_to_move,
                        s as int,
                        spec_target(m),
                    ) ==> !old(moves_list)@.contains(m),
            decreases dir_end - dir_index,
        {
            let e = table[s][dir_index];
            let ghost prev = moves_list@;
            proof {
                let b = self@;
                assert forall|m: u16|
                    #[trigger] ray_emits(b, s as int, dir_index as int, m) implies !prev.contains(
                    m,
                ) by {
                    let k = choose|k: int|
                        #[trigger] ray_hit(b, b.colour_to_move, s as int, dir_index as int, k) && m
                            == plain_word(s as int, ray_square(s as int, dir_index as int, k));
                    geometry::lemma_ray_step(s as int, dir_index as int, k);
                    moves::lemma_encode_decode(
                        s as int,
                        ray_square(s as int, dir_index as int, k),
                        0,
                    );
                    assert(ray_move_at(b, b.colour_to_move, s as int, dir_index as int, k));
                    assert(sliding_move_ok(b, b.colour_to_move, s as int, spec_target(m)));
                    assert(!old(moves_list)@.contains(m));
                    if sliding_emits_upto(b, s as int, dir_start as int, dir_index as int, m) {
                        let (d2, k2) = choose|d2: int, k2: int|
                            dir_start as int <= d2 < dir_index as int && #[trigger] ray_hit(
                                b,
                                b.colour_to_move,
                                s as int,
                                d2,
                                k2,
                            ) && m == plain_word(s as int, ray_square(s as int, d2, k2));
                        geometry::lemma_ray_step(s as int, d2, k2);
                        moves::lemma_encode_decode(s as int, ray_square(s as int, d2, k2), 0);
                        lemma_ray_targets_injective(s as int, dir_index as int, k, d2, k2);
                    }
                }
            }
            self.gen_ray(e, s, dir_index, moves_list);
            proof {
                lemma_sliding_join(
                    self@,
                    s as int,
                    dir_start as int,
                    dir_index as int,
                    old(moves_list)@,
                    prev,
                    moves_list@,
                );
            }
            dir_index += 1;
        }
        proof {
            lemma_sliding_total(self@, s as int, old(moves_list)@, moves_list@);
        }
    }
}

/// The word the i-th knight leap from s contributes, when it stays on the
/// board and lands on no friendly piece.
pub open spec fn knight_emit_at(b: BoardView, s: int, i: int, m: u16) -> bool {
    let tf = file_of(s) + geometry::knight_file_delta(i);
    let tr = rank_of(s) + geometry::knight_rank_delta(i);
    &&& 0 <= tf < 8
    &&& 0 <= tr < 8
    &&& !is_side(b.pieces[8 * tr + tf], b.colour_to_move)
    &&& m == plain_word(s, 8 * tr + tf)
}

/// The words the first hi knight leaps from s contribute.
pub open spec fn knight_emits_upto(b: BoardView, s: int, hi: int, m: u16) -> bool {
    exists|i: int| 0 <= i < hi && #[trigger] knight_emit_at(b, s, i, m)
}

proof fn lemma_knight_push(
    b: BoardView,
    s: int,
    i: int,
    init: Seq<u16>,
    prev: Seq<u16>,
    w: u16,
)
    requires
        0 <= i,
        forall|m: u16|
            #[trigger] prev.contains(m) <==> init.contains(m) || knight_emits_upto(b, s, i, m),
        knight_emit_at(b, s, i, w),
    ensures
        forall|m: u16|
            #[trigger] prev.push(w).contains(m) <==> init.contains(m) || knight_emits_upto(
                b,
                s,
                i + 1,
                m,
            ),
{
    let cur = prev.push(w);
    assert forall|m: u16|
        #[trigger] cur.contains(m) <==> init.contains(m) || knight_emits_upto(
            b,
            s,
            i + 1,
            m,
        ) by {
        vstd::seq_lib::lemma_seq_contains_after_push(prev, w, m);
        if cur.contains(m) && !init.contains(m) {
            if m == w {
                assert(knight_emit_at(b, s, i, m));
            } else {
                let j = choose|j: int| 0 <= j < i && #[trigger] knight_emit_at(b, s, j, m);
                assert(0 <= j < i + 1 && knight_emit_at(b, s, j, m));
            }
        }
        if knight_emits_upto(b, s, i + 1, m) && !init.contains(m) {
            let j = choose|j: int| 0 <= j < i + 1 && #[trigger] knight_emit_at(b, s, j, m);
            if j < i {
                assert(knight_emits_upto(b, s, i, m));
                assert(prev.contains(m));
            } else {
                assert(m == w);
            }
        }
        if init.contains(m) {
            assert(prev.contains(m));
        }
    }
}

proof fn lemma_knight_skip(b: BoardView, s: int, i: int, init: Seq<u16>, cur: Seq<u16>)
    requires
        0 <= i,
        forall|m: u16|
            #[trigger] cur.contains(m) <==> init.contains(m) || knight_emits_upto(b, s, i, m),
        forall|m: u16| !#[trigger] knight_emit_at(b, s, i, m),
    ensures
        forall|m: u16|
            #[trigger] cur.contains(m) <==> init.contains(m) || knight_emits_upto(
                b,
                s,
                i + 1,
                m,
            ),
{
    assert forall|m: u16|
        #[trigger] cur.contains(m) <==> init.contains(m) || knight_emits_upto(
            b,
            s,
            i + 1,
            m,
        ) by {
        assert(!knight_emit_at(b, s, i, m));
        if knight_emits_upto(b, s, i + 1, m) {
            let j = choose|j: int| 0 <= j < i + 1 && #[trigger] knight_emit_at(b, s, j, m);
            assert(j != i);
            assert(j < i);
            assert(knight_emits_upto(b, s, i, m));
        }
        if knight_emits_upto(b, s, i, m) {
            let j = choose|j: int| 0 <= j < i && #[trigger] knight_emit_at(b, s, j, m);
            assert(0 <= j < i + 1 && knight_emit_at(b, s, j, m));
        }
    }
}

/// Over all eight leaps, the emitted words are exactly the flagless knight
/// moves departing from s.
proof fn lemma_knight_total(b: BoardView, s: int, init: Seq<u16>, cur: Seq<u16>)
    requires
        b.wf(),
        0 <= s < 64,
        forall|m: u16|
            #[trigger] cur.contains(m) <==> init.contains(m) || knight_emits_upto(b, s, 8, m),
    ensures
        forall|m: u16|
            #[trigger] cur.contains(m) <==> init.contains(m) || (spec_flags(m) == 0
                && spec_departure(m) == s && knight_move_ok(
                b,
                b.colour_to_move,
                s,
                spec_target(m),
            )),
{
    assert forall|m: u16|
        #[trigger] cur.contains(m) <==> init.contains(m) || (spec_flags(m) == 0
            && spec_departure(m) == s && knight_move_ok(
            b,
            b.colour_to_move,
            s,
            spec_target(m),
        )) by {
        if cur.contains(m) && !init.contains(m) {
            let i = choose|i: int| 0 <= i < 8 && #[trigger] knight_emit_at(b, s, i, m);
            let tf = file_of(s) + geometry::knight_file_delta(i);
            let tr = rank_of(s) + geometry::knight_rank_delta(i);
            geometry::lemma_square_decompose(tr, tf);
            moves::lemma_encode_decode(s, 8 * tr + tf, 0);
            assert(knight_target_ok(s, i, spec_target(m)));
            assert(knight_move_ok(b, b.colour_to_move, s, spec_target(m)));
        }
        if spec_flags(m) == 0 && spec_departure(m) == s && knight_move_ok(
            b,
            b.colour_to_move,
            s,
            spec_target(m),
        ) {
            let t = spec_target(m);
            let i = choose|i: int|
                0 <= i < 8 && #[trigger] knight_target_ok(s, i, t) && !is_side(
                    b.pieces[t],
                    b.colour_to_move,
                );
            moves::lemma_decode_encode(m);
            assert(knight_emit_at(b, s, i, m));
            assert(knight_emits_upto(b, s, 8, m));
        }
    }
}

/// The word one king step along direction d from s contributes, when it
/// stays on the board and lands on no friendly piece.
pub open spec fn king_emit_at(b: BoardView, s: int, d: int, m: u16) -> bool {
    &&& edge_dist(s, d) >= 1
    &&& !is_side(b.pieces[s + dir_offset(d)], b.colour_to_move)
    &&& m == plain_word(s, s + dir_offset(d))
}

/// The words the first hi king directions from s contribute.
pub open spec fn king_emits_upto(b: BoardView, s: int, hi: int, m: u16) -> bool {
    exists|d: int| 0 <= d < hi && #[trigger] king_emit_at(b, s, d, m)
}

proof fn lemma_king_push(b: BoardView, s: int, d: int, init: Seq<u16>, prev: Seq<u16>, w: u16)
    requires
        0 <= d,
        forall|m: u16|
            #[trigger] prev.contains(m) <==> init.contains(m) || king_emits_upto(b, s, d, m),
        king_emit_at(b, s, d, w),
    ensures
        forall|m: u16|
            #[trigger] prev.push(w).contains(m) <==> init.contains(m) || king_emits_upto(
                b,
                s,
                d + 1,
                m,
            ),
{
    let cur = prev.push(w);
    assert forall|m: u16|
        #[trigger] cur.contains(m) <==> init.contains(m) || king_emits_upto(b, s, d + 1, m) by {
        vstd::seq_lib::lemma_seq_contains_after_push(prev, w, m);
        if cur.contains(m) && !init.contains(m) {
            if m == w {
                assert(king_emit_at(b, s, d, m));
            } else {
                let j = choose|j: int| 0 <= j < d && #[trigger] king_emit_at(b, s, j, m);
                assert(0 <= j < d + 1 && king_emit_at(b, s, j, m));
            }
        }
        if king_emits_upto(b, s, d + 1, m) && !init.contains(m) {
            let j = choose|j: int| 0 <= j < d + 1 && #[trigger] king_emit_at(b, s, j, m);
            if j < d {
                assert(king_emits_upto(b, s, d, m));
                assert(prev.contains(m));
            } else {
                assert(m == w);
            }
        }
        if init.contains(m) {
            assert(prev.contains(m));
        }
    }
}

proof fn lemma_king_skip(b: BoardView, s: int, d: int, init: Seq<u16>, cur: Seq<u16>)
    requires
        0 <= d,
        forall|m: u16|
            #[trigger] cur.contains(m) <==> init.contains(m) || king_emits_upto(b, s, d, m),
        forall|m: u16| !#[trigger] king_emit_at(b, s, d, m),
    ensures
        forall|m: u16|
            #[trigger] cur.contains(m) <==> init.contains(m) || king_emits_upto(b, s, d + 1, m),
{
    assert forall|m: u16|
        #[trigger] cur.contains(m) <==> init.contains(m) || king_emits_upto(b, s, d + 1, m) by {
        assert(!king_emit_at(b, s, d, m));
        if king_emits_upto(b, s, d + 1, m) {
            let j = choose|j: int| 0 <= j < d + 1 && #[trigger] king_emit_at(b, s, j, m);
            assert(j != d);
            assert(j < d);
            assert(king_emits_upto(b, s, d, m));
        }
        if king_emits_upto(b, s, d, m) {
            let j = choose|j: int| 0 <= j < d && #[trigger] king_emit_at(b, s, j, m);
            assert(0 <= j < d + 1 && king_emit_at(b, s, j, m));
        }
    }
}

/// Over all eight directions, the emitted words are exactly the flagless
/// king moves departing from s.
proof fn lemma_king_total(b: BoardView, s: int, init: Seq<u16>, cur: Seq<u16>)
    requires
        b.wf(),
        0 <= s < 64,
        forall|m: u16|
            #[trigger] cur.contains(m) <==> init.contains(m) || king_emits_upto(b, s, 8, m),
    ensures
        forall|m: u16|
            #[trigger] cur.contains(m) <==> init.contains(m) || (spec_flags(m) == 0
                && spec_departure(m) == s && king_move_ok(
                b,
                b.colour_to_move,
                s,
                spec_target(m),
            )),
{
    assert forall|m: u16|
        #[trigger] cur.contains(m) <==> init.contains(m) || (spec_flags(m) == 0
            && spec_departure(m) == s && king_move_ok(
            b,
            b.colour_to_move,
            s,
            spec_target(m),
        )) by {
        if cur.contains(m) && !init.contains(m) {
            let d = choose|d: int| 0 <= d < 8 && #[trigger] king_emit_at(b, s, d, m);
            geometry::lemma_ray_step(s, d, 1);
            moves::lemma_encode_decode(s, s + dir_offset(d), 0);
            assert(king_move_ok(b, b.colour_to_move, s, spec_target(m)));
        }
        if spec_flags(m) == 0 && spec_departure(m) == s && king_move_ok(
            b,
            b.colour_to_move,
            s,
            spec_target(m),
        ) {
            let t = spec_target(m);
            let d = choose|d: int|
                0 <= d < 8 && edge_dist(s, d) >= 1 && t == s + #[trigger] dir_offset(d)
                    && !is_side(b.pieces[t], b.colour_to_move);
            moves::lemma_decode_encode(m);
            assert(king_emit_at(b, s, d, m));
            assert(king_emits_upto(b, s, 8, m));
        }
    }
}

impl Board {
    /// Pushes the knight moves from square s, checking each of the eight
    /// leaps against the board bounds in file/rank coordinates.
    fn gen_knight(&self, s: usize, moves_list: &mut Vec<u16>)
        requires
            self@.wf(),
            s < 64,
            old(moves_list)@.no_duplicates(),
            forall|m: u16|
                spec_flags(m) == 0 && spec_departure(m) == s as int && knight_move_ok(
                    self@,
                    self@.colour_to_move,
                    s as int,
                    spec_target(m),
                ) ==> !old(moves_list)@.contains(m),
        ensures
            forall|m: u16|
                #[trigger] final(moves_list)@.contains(m) <==> old(moves_list)@.contains(m) || (
                spec_flags(m) == 0 && spec_departure(m) == s as int && knight_move_ok(
                    self@,
                    self@.colour_to_move,
                    s as int,
                    spec_target(m),
                )),
            final(moves_list)@.no_duplicates(),
    {
        let white = self.colour_to_move;
        let (start_file, start_rank) = crate::utils::square_to_coods(s as u16);
        let mut i: usize = 0;
        while i < 8
            invariant
                self@.wf(),
                s < 64,
                i <= 8,
                white == self@.colour_to_move,
                start_file as int == file_of(s as int),
                start_rank as int == rank_of(s as int),
                start_file < 8,
                start_rank < 8,
                forall|m: u16|
                    #[trigger] moves_list@.contains(m) <==> old(moves_list)@.contains(m)
                        || knight_emits_upto(self@, s as int, i as int, m),
                old(moves_list)@.no_duplicates(),
                moves_list@.no_duplicates(),
                forall|m: u16|
                    spec_flags(m) == 0 && spec_departure(m) == s as int && knight_move_ok(
                        self@,
                        self@.colour_to_move,
                        s as int,
                        spec_target(m),
                    ) ==> !old(moves_list)@.contains(m),
            decreases 8 - i,
        {
            let (df, dr) = geometry::knight_offset(i);
            let target_file = start_file as i16 + df;
            let target_rank = start_rank as i16 + dr;

            if 0 <= target_file && target_file <= 7 && 0 <= target_rank && target_rank <= 7 {
                let target_square = (target_rank * 8 + target_file) as usize;
                proof {
                    geometry::lemma_square_decompose(target_rank as int, target_file as int);
                }
                let piece_on_target_square = self.pieces[target_square];
                if !Piece::is_colour_bool(piece_on_target_square, white) {
                    let m_move = Move::new(s as u16, target_square as u16);
                    let ghost prev = moves_list@;
                    proof {
                        let b = self@;
                        let t = target_square as int;
                        moves::lemma_encode_decode(s as int, t, 0);
                        assert(knight_emit_at(b, s as int, i as int, m_move));
                        assert(knight_target_ok(s as int, i as int, t));
                        assert(knight_move_ok(b, b.colour_to_move, s as int, t));
                        // no earlier leap and no old word names this square
                        assert(!prev.contains(m_move)) by {
                            if prev.contains(m_move) && !old(moves_list)@.contains(m_move) {
                                let j = choose|j: int|
                                    0 <= j < i as int && #[trigger] knight_emit_at(
                                        b,
                                        s as int,
                                        j,
                                        m_move,
                                    );
                                let tj = 8 * (rank_of(s as int) + geometry::knight_rank_delta(j))
                                    + (file_of(s as int) + geometry::knight_file_delta(j));
                                geometry::lemma_square_decompose(
                                    rank_of(s as int) + geometry::knight_rank_delta(j),
                                    file_of(s as int) + geometry::knight_file_delta(j),
                                );
                                moves::lemma_encode_decode(s as int, tj, 0);
                                assert(tj == t);
                                assert(knight_target_ok(s as int, j, t));
                                lemma_knight_leap_unique(s as int, j, i as int, t);
                            }
                        }
                    }
                    moves_list.push(m_move);
                    proof {
                        lemma_knight_push(
                            self@,
                            s as int,
                            i as int,
                            old(moves_list)@,
                            prev,
                            m_move,
                        );
                        lemma_no_dup_push(prev, m_move);
                    }
                } else {
                    proof {
                        assert forall|m: u16| !#[trigger] knight_emit_at(
                            self@,
                            s as int,
                            i as int,
                            m,
                        ) by {}
                        lemma_knight_skip(
                            self@,
                            s as int,
                            i as int,
                            old(moves_list)@,
                            moves_list@,
                        );
                    }
                }
            } else {
                proof {
                    assert forall|m: u16| !#[trigger] knight_emit_at(
                        self@,
                        s as int,
                        i as int,
                        m,
                    ) by {}
                    lemma_knight_skip(self@, s as int, i as int, old(moves_list)@, moves_list@);
                }
            }
            i += 1;
        }
        proof {
            lemma_knight_total(self@, s as int, old(moves_list)@, moves_list@);
        }
    }

    /// Pushes the king moves from square s: one step in each direction
    /// whose edge distance is not zero.
    fn gen_king(&self, table: &Vec<Vec<u8>>, s: usize, moves_list: &mut Vec<u16>)
        requires
            self@.wf(),
            s < 64,
            table@.len() == 64,
            forall|i: int| 0 <= i < 64 ==> (#[trigger] table@[i])@.len() == 8,
            forall|i: int, d: int|
                #![trigger table@[i]@[d]]
                0 <= i < 64 && 0 <= d < 8 ==> table@[i]@[d] as int == edge_dist(i, d),
            old(moves_list)@.no_duplicates(),
            forall|m: u16|
                spec_flags(m) == 0 && spec_departure(m) == s as int && king_move_ok(
                    self@,
                    self@.colour_to_move,
                    s as int,
                    spec_target(m),
                ) ==> !old(moves_list)@.contains(m),
        ensures
            forall|m: u16|
                #[trigger] final(moves_list)@.contains(m) <==> old(moves_list)@.contains(m) || (
                spec_flags(m) == 0 && spec_departure(m) == s as int && king_move_ok(
                    self@,
                    self@.colour_to_move,
                    s as int,
                    spec_target(m),
                )),
            final(moves_list)@.no_duplicates(),
    {
        let white = self.colour_to_move;
        let mut dir_index: usize = 0;
        while dir_index < 8
            invariant
                self@.wf(),
                s < 64,
                dir_index <= 8,
                white == self@.colour_to_move,
                table@.len() == 64,
                forall|i: int| 0 <= i < 64 ==> (#[trigger] table@[i])@.len() == 8,
                forall|i: int, d: int|
                    #![trigger table@[i]@[d]]
                    0 <= i < 64 && 0 <= d < 8 ==> table@[i]@[d] as int == edge_dist(i, d),
                forall|m: u16|
                    #[trigger] moves_list@.contains(m) <==> old(moves_list)@.contains(m)
                        || king_emits_upto(self@, s as int, dir_index as int, m),
                old(moves_list)@.no_duplicates(),
                moves_list@.no_duplicates(),
                forall|m: u16|
                    spec_flags(m) == 0 && spec_departure(m) == s as int && king_move_ok(
                        self@,
                        self@.colour_to_move,
                        s as int,
                        spec_target(m),
                    ) ==> !old(moves_list)@.contains(m),
            decreases 8 - dir_index,
        {
            if table[s][dir_index] == 0 {
                proof {
                    assert forall|m: u16| !#[trigger] king_emit_at(
                        self@,
                        s as int,
                        dir_index as int,
                        m,
                    ) by {}
                    lemma_king_skip(
                        self@,
                        s as int,
                        dir_index as int,
                        old(moves_list)@,
                        moves_list@,
                    );
                }
            } else {
                let off = geometry::direction_offset(dir_index);
                proof {
                    geometry::lemma_square_bounds(s as int);
                    geometry::lemma_ray_step(s as int, dir_index as int, 1);
                }
                let t_i: i16 = s as i16 + off;
                let target_square = t_i as usize;
                let piece_on_target_square = self.pieces[target_square];
                if !Piece::is_colour_bool(piece_on_target_square, white) {
                    let m_move = Move::new(s as u16, target_square as u16);
                    let ghost prev = moves_list@;
                    proof {
                        let b = self@;
                        let t = target_square as int;
                        moves::lemma_encode_decode(s as int, t, 0);
                        assert(king_emit_at(b, s as int, dir_index as int, m_move));
                        assert(king_move_ok(b, b.colour_to_move, s as int, t));
                        // no earlier direction and no old word names this square
                        assert(!prev.contains(m_move)) by {
                            if prev.contains(m_move) && !old(moves_list)@.contains(m_move) {
                                let j = choose|j: int|
                                    0 <= j < dir_index as int && #[trigger] king_emit_at(
                                        b,
                                        s as int,
                                        j,
                                        m_move,
                                    );
                                geometry::lemma_ray_step(s as int, j, 1);
                                moves::lemma_encode_decode(s as int, s as int + dir_offset(j), 0);
                                assert(s as int + dir_offset(j) == t);
                                assert(dir_offset(j) == dir_offset(dir_index as int));
                                assert(j == dir_index as int);
                            }
                        }
                    }
                    moves_list.push(m_move);
                    proof {
                        lemma_king_push(
                            self@,
                            s as int,
                            dir_index as int,
                            old(moves_list)@,
                            prev,
                            m_move,
                        );
                        lemma_no_dup_push(prev, m_move);
                    }
                } else {
                    proof {
                        assert forall|m: u16| !#[trigger] king_emit_at(
                            self@,
                            s as int,
                            dir_index as int,
                            m,
                        ) by {}
                        lemma_king_skip(
                            self@,
                            s as int,
                            dir_index as int,
                            old(moves_list)@,
                            moves_list@,
                        );
                    }
                }
            }
            dir_index += 1;
        }
        proof {
            lemma_king_total(self@, s as int, old(moves_list)@, moves_list@);
        }
    }
}

/// The words one pawn capture diagonal contributes from square s: a plain
/// capture off the far rank, four promotion captures onto it, or the
/// flagged en-passant capture onto the stored (empty) target square.
pub open spec fn pawn_cap_emit(b: BoardView, s: int, d: int, m: u16) -> bool {
    let white = b.colour_to_move;
    let t = s + dir_offset(d);
    let f = spec_flags(m);
    &&& edge_dist(s, d) >= 1
    &&& {
        ||| (is_side(b.pieces[t], !white) && rank_of(t) != last_rank(white) && m == plain_word(
            s,
            t,
        ))
        ||| (is_side(b.pieces[t], !white) && rank_of(t) == last_rank(white)
            && moves::is_promotion_flags(f) && m == moves::spec_encode(s, t, f))
        ||| ((b.en_passant_square matches Some(e) && e as int == t) && b.pieces[t] == 0 && m
            == moves::spec_encode(s, t, 1))
    }
}

/// The words the forward file contributes from square s: a single push off
/// the far rank, four push promotions onto it, and the flagged double
/// advance from the start rank.
pub open spec fn pawn_fwd_emit(b: BoardView, s: int, m: u16) -> bool {
    let white = b.colour_to_move;
    let t = s + pawn_forward(white);
    let f = spec_flags(m);
    &&& edge_dist(s, pawn_fwd_dir(white)) >= 1
    &&& b.pieces[t] == 0
    &&& {
        ||| (rank_of(t) != last_rank(white) && m == plain_word(s, t))
        ||| (rank_of(t) == last_rank(white) && moves::is_promotion_flags(f) && m
            == moves::spec_encode(s, t, f))
        ||| (rank_of(s) == pawn_start_rank(white) && b.pieces[s + 2 * pawn_forward(white)] == 0
            && m == moves::spec_encode(s, s + 2 * pawn_forward(white), 12))
    }
}

/// The non-castle pseudo-legal pawn moves departing from square s, sorted
/// by their flag nibble.
pub open spec fn pawn_from_ok(b: BoardView, s: int, m: u16) -> bool {
    let t = spec_target(m);
    let f = spec_flags(m);
    let white = b.colour_to_move;
    &&& spec_departure(m) == s
    &&& if f == 0 {
        pawn_plain_ok(b, white, s, t)
    } else if f == 1 {
        ep_capture_ok(b, white, s, t)
    } else if f == 12 {
        double_push_ok(b, white, s, t)
    } else if moves::is_promotion_flags(f) {
        promo_move_ok(b, white, s, t)
    } else {
        false
    }
}

proof fn lemma_contains_push1(prev: Seq<u16>, w: u16)
    ensures
        forall|m: u16|
            #[trigger] prev.push(w).contains(m) <==> prev.contains(m) || m == w,
{
    assert forall|m: u16|
        #[trigger] prev.push(w).contains(m) <==> prev.contains(m) || m == w by {
        vstd::seq_lib::lemma_seq_contains_after_push(prev, w, m);
    }
}

proof fn lemma_contains_push4(prev: Seq<u16>, w1: u16, w2: u16, w3: u16, w4: u16)
    ensures
        forall|m: u16|
            #[trigger] prev.push(w1).push(w2).push(w3).push(w4).contains(m) <==> prev.contains(m)
                || m == w1 || m == w2 || m == w3 || m == w4,
{
    lemma_contains_push1(prev, w1);
    lemma_contains_push1(prev.push(w1), w2);
    lemma_contains_push1(prev.push(w1).push(w2), w3);
    lemma_contains_push1(prev.push(w1).push(w2).push(w3), w4);
}

/// Pushing four distinct fresh words keeps the list free of duplicates.
proof fn lemma_no_dup_push4(prev: Seq<u16>, w1: u16, w2: u16, w3: u16, w4: u16)
    requires
        prev.no_duplicates(),
        !prev.contains(w1),
        !prev.contains(w2),
        !prev.contains(w3),
        !prev.contains(w4),
        w1 != w2,
        w1 != w3,
        w1 != w4,
        w2 != w3,
        w2 != w4,
        w3 != w4,
    ensures
        prev.push(w1).push(w2).push(w3).push(w4).no_duplicates(),
{
    lemma_no_dup_push(prev, w1);
    lemma_contains_push1(prev, w1);
    lemma_no_dup_push(prev.push(w1), w2);
    lemma_contains_push1(prev.push(w1), w2);
    lemma_no_dup_push(prev.push(w1).push(w2), w3);
    lemma_contains_push1(prev.push(w1).push(w2), w3);
    lemma_no_dup_push(prev.push(w1).push(w2).push(w3), w4);
}

/// Every word one capture diagonal emits is a pseudo-legal pawn move from
/// s whose target is that diagonal's square.
proof fn lemma_cap_emit_from_ok(b: BoardView, s: int, cd: int)
    requires
        b.wf(),
        0 <= s < 64,
        cd == pawn_capture_dir(b.colour_to_move, 0) || cd == pawn_capture_dir(
            b.colour_to_move,
            1,
        ),
    ensures
        forall|m: u16|
            #[trigger] pawn_cap_emit(b, s, cd, m) ==> pawn_from_ok(b, s, m) && spec_target(m) == s
                + dir_offset(cd),
{
    geometry::lemma_square_bounds(s);
    assert forall|m: u16| #[trigger] pawn_cap_emit(b, s, cd, m) implies pawn_from_ok(b, s, m)
        && spec_target(m) == s + dir_offset(cd) by {
        geometry::lemma_ray_step(s, cd, 1);
        let t = s + dir_offset(cd);
        moves::lemma_encode_decode(s, t, 0);
        moves::lemma_encode_decode(s, t, 1);
        if moves::is_promotion_flags(spec_flags(m)) {
            moves::lemma_encode_decode(s, t, spec_flags(m));
        }
    }
}

/// Every word the forward file emits is a pseudo-legal pawn move from s
/// whose target is one or two steps up the file.
proof fn lemma_fwd_emit_from_ok(b: BoardView, s: int)
    requires
        b.wf(),
        0 <= s < 64,
    ensures
        forall|m: u16|
            #[trigger] pawn_fwd_emit(b, s, m) ==> pawn_from_ok(b, s, m) && (spec_target(m) == s
                + pawn_forward(b.colour_to_move) || spec_target(m) == s + 2 * pawn_forward(
                b.colour_to_move,
            )),
{
    geometry::lemma_square_bounds(s);
    let white = b.colour_to_move;
    assert forall|m: u16| #[trigger] pawn_fwd_emit(b, s, m) implies pawn_from_ok(b, s, m) && (
    spec_target(m) == s + pawn_forward(white) || spec_target(m) == s + 2 * pawn_forward(
        white,
    )) by {
        geometry::lemma_ray_step(s, pawn_fwd_dir(white), 1);
        let t = s + pawn_forward(white);
        moves::lemma_encode_decode(s, t, 0);
        if moves::is_promotion_flags(spec_flags(m)) {
            moves::lemma_encode_decode(s, t, spec_flags(m));
        }
        if rank_of(s) == pawn_start_rank(white) {
            moves::lemma_encode_decode(s, s + 2 * pawn_forward(white), 12);
        }
    }
}

/// The two capture diagonals and the forward file together contribute
/// exactly the pseudo-legal pawn moves departing from s.
#[verifier::rlimit(60)]
proof fn lemma_pawn_total(
    b: BoardView,
    s: int,
    init: Seq<u16>,
    s1: Seq<u16>,
    s2: Seq<u16>,
    cur: Seq<u16>,
)
    requires
        b.wf(),
        0 <= s < 64,
        forall|m: u16|
            #[trigger] s1.contains(m) <==> init.contains(m) || pawn_cap_emit(
                b,
                s,
                pawn_capture_dir(b.colour_to_move, 0),
                m,
            ),
        forall|m: u16|
            #[trigger] s2.contains(m) <==> s1.contains(m) || pawn_cap_emit(
                b,
                s,
                pawn_capture_dir(b.colour_to_move, 1),
                m,
            ),
        forall|m: u16|
            #[trigger] cur.contains(m) <==> s2.contains(m) || pawn_fwd_emit(b, s, m),
    ensures
        forall|m: u16|
            #[trigger] cur.contains(m) <==> init.contains(m) || pawn_from_ok(b, s, m),
{
    let white = b.colour_to_move;
    let cd0 = pawn_capture_dir(white, 0);
    let cd1 = pawn_capture_dir(white, 1);
    let fd = pawn_fwd_dir(white);
    geometry::lemma_square_bounds(s);
    assert forall|m: u16|
        #[trigger] cur.contains(m) <==> init.contains(m) || pawn_from_ok(b, s, m) by {
        moves::lemma_decode_encode(m);
        let t = spec_target(m);
        let f = spec_flags(m);
        if cur.contains(m) && !init.contains(m) {
            if pawn_cap_emit(b, s, cd0, m) {
                geometry::lemma_ray_step(s, cd0, 1);
                moves::lemma_encode_decode(s, s + dir_offset(cd0), spec_flags(m));
                assert(pawn_from_ok(b, s, m));
            } else if pawn_cap_emit(b, s, cd1, m) {
                geometry::lemma_ray_step(s, cd1, 1);
                moves::lemma_encode_decode(s, s + dir_offset(cd1), spec_flags(m));
                assert(pawn_from_ok(b, s, m));
            } else {
                assert(pawn_fwd_emit(b, s, m));
                geometry::lemma_ray_step(s, fd, 1);
                assert(s + pawn_forward(white) == s + dir_offset(fd));
                if rank_of(s) == pawn_start_rank(white) && b.pieces[s + 2 * pawn_forward(white)]
                    == 0 && m == moves::spec_encode(s, s + 2 * pawn_forward(white), 12) {
                    moves::lemma_encode_decode(s, s + 2 * pawn_forward(white), 12);
                    assert(pawn_from_ok(b, s, m));
                } else {
                    moves::lemma_encode_decode(s, s + pawn_forward(white), spec_flags(m));
                    assert(pawn_from_ok(b, s, m));
                }
            }
        }
        if pawn_from_ok(b, s, m) {
            if f == 0 || moves::is_promotion_flags(f) {
                if pawn_push_ok(b, white, s, t) {
                    geometry::lemma_ray_step(s, fd, 1);
                    assert(m == moves::spec_encode(s, t, f));
                    assert(pawn_fwd_emit(b, s, m));
                } else {
                    assert(pawn_capture_ok(b, white, s, t));
                    if pawn_capture_at(b, white, s, t, cd0) {
                        geometry::lemma_ray_step(s, cd0, 1);
                        assert(m == moves::spec_encode(s, t, f));
                        assert(pawn_cap_emit(b, s, cd0, m));
                    } else {
                        geometry::lemma_ray_step(s, cd1, 1);
                        assert(m == moves::spec_encode(s, t, f));
                        assert(pawn_cap_emit(b, s, cd1, m));
                    }
                }
                assert(cur.contains(m));
            } else if f == 1 {
                assert(ep_capture_ok(b, white, s, t));
                if edge_dist(s, cd0) >= 1 && t == s + dir_offset(cd0) {
                    geometry::lemma_ray_step(s, cd0, 1);
                    assert(m == moves::spec_encode(s, t, 1));
                    assert(pawn_cap_emit(b, s, cd0, m));
                } else {
                    geometry::lemma_ray_step(s, cd1, 1);
                    assert(m == moves::spec_encode(s, t, 1));
                    assert(pawn_cap_emit(b, s, cd1, m));
                }
                assert(cur.contains(m));
            } else {
                assert(f == 12 && double_push_ok(b, white, s, t));
                assert(edge_dist(s, fd) >= 1);
                assert(m == moves::spec_encode(s, s + 2 * pawn_forward(white), 12));
                assert(pawn_fwd_emit(b, s, m));
                assert(cur.contains(m));
            }
        }
        if init.contains(m) {
            assert(s1.contains(m) && s2.contains(m) && cur.contains(m));
        }
    }
}

impl Board {
    /// Pushes the capture moves of a pawn on square s along one diagonal:
    /// a capture (promoting on the far rank) when an enemy piece stands
    /// there, and the flagged en-passant capture when the diagonal meets
    /// the stored, empty en-passant target square.
    fn gen_pawn_capture(&self, num_to_edge: u8, s: usize, d: usize, moves_list: &mut Vec<u16>)
        requires
            self@.wf(),
            s < 64,
            d < 8,
            num_to_edge as int == edge_dist(s as int, d as int),
            old(moves_list)@.no_duplicates(),
            forall|m: u16|
                #[trigger] pawn_cap_emit(self@, s as int, d as int, m) ==> !old(
                    moves_list,
                )@.contains(m),
        ensures
            forall|m: u16|
                #[trigger] final(moves_list)@.contains(m) <==> old(moves_list)@.contains(m)
                    || pawn_cap_emit(self@, s as int, d as int, m),
            final(moves_list)@.no_duplicates(),
    {
        let white = self.colour_to_move;
        if num_to_edge == 0 {
            proof {
                assert forall|m: u16| !#[trigger] pawn_cap_emit(self@, s as int, d as int, m) by {}
            }
            return;
        }
        let off = geometry::direction_offset(d);
        proof {
            geometry::lemma_square_bounds(s as int);
            geometry::lemma_ray_step(s as int, d as int, 1);
        }
        let t_i: i16 = s as i16 + off;
        let target_square = t_i as usize;
        let ghost t = target_square as int;
        let piece_on_target_square = self.pieces[target_square];

        let base = Move::new(s as u16, target_square as u16);
        proof {
            moves::lemma_encode_decode(s as int, t, 0);
        }

        if Piece::is_colour_bool(piece_on_target_square, !white) {
            let target_rank = target_square / 8;
            let far_rank: usize = if white {
                7
            } else {
                0
            };
            if target_rank == far_rank {
                let ghost prev = moves_list@;
                moves_list.push(base | moves::PROMOTE_TO_KNIGHT);
                moves_list.push(base | moves::PROMOTE_TO_BISHOP);
                moves_list.push(base | moves::PROMOTE_TO_ROOK);
                moves_list.push(base | moves::PROMOTE_TO_QUEEN);
                proof {
                    lemma_promo_words(s as int, t, base);
                    moves::lemma_encode_decode(s as int, t, 2);
                    moves::lemma_encode_decode(s as int, t, 6);
                    moves::lemma_encode_decode(s as int, t, 10);
                    moves::lemma_encode_decode(s as int, t, 14);
                    lemma_contains_push4(
                        prev,
                        base | moves::PROMOTE_TO_KNIGHT,
                        base | moves::PROMOTE_TO_BISHOP,
                        base | moves::PROMOTE_TO_ROOK,
                        base | moves::PROMOTE_TO_QUEEN,
                    );
                    assert(valid_piece(piece_on_target_square));
                    assert forall|m: u16|
                        #[trigger] moves_list@.contains(m) <==> prev.contains(m) || pawn_cap_emit(
                            self@,
                            s as int,
                            d as int,
                            m,
                        ) by {
                        moves::lemma_decode_encode(m);
                    }
                    assert(pawn_cap_emit(self@, s as int, d as int, base
                        | moves::PROMOTE_TO_KNIGHT));
                    assert(pawn_cap_emit(self@, s as int, d as int, base
                        | moves::PROMOTE_TO_BISHOP));
                    assert(pawn_cap_emit(self@, s as int, d as int, base | moves::PROMOTE_TO_ROOK));
                    assert(pawn_cap_emit(self@, s as int, d as int, base
                        | moves::PROMOTE_TO_QUEEN));
                    lemma_no_dup_push4(
                        prev,
                        base | moves::PROMOTE_TO_KNIGHT,
                        base | moves::PROMOTE_TO_BISHOP,
                        base | moves::PROMOTE_TO_ROOK,
                        base | moves::PROMOTE_TO_QUEEN,
                    );
                }
            } else {
                let ghost prev = moves_list@;
                moves_list.push(base);
                proof {
                    lemma_contains_push1(prev, base);
                    assert(valid_piece(piece_on_target_square));
                    assert forall|m: u16|
                        #[trigger] moves_list@.contains(m) <==> prev.contains(m) || pawn_cap_emit(
                            self@,
                            s as int,
                            d as int,
                            m,
                        ) by {
                        moves::lemma_decode_encode(m);
                    }
                    assert(pawn_cap_emit(self@, s as int, d as int, base));
                    lemma_no_dup_push(prev, base);
                }
            }
        } else {
            let ep_match: bool = match self.en_passant_square {
                Some(e_sq) => e_sq as usize == target_square,
                None => false,
            };
            if ep_match && piece_on_target_square == piece::NONE {
                let w = base | moves::EN_PASSANT;
                let ghost prev = moves_list@;
                moves_list.push(w);
                proof {
                    moves::lemma_or_flag(base, moves::EN_PASSANT);
                    moves::lemma_encode_decode(s as int, t, 1);
                    assert(w == moves::spec_encode(s as int, t, 1));
                    lemma_contains_push1(prev, w);
                    assert forall|m: u16|
                        #[trigger] moves_list@.contains(m) <==> prev.contains(m) || pawn_cap_emit(
                            self@,
                            s as int,
                            d as int,
                            m,
                        ) by {
                        moves::lemma_decode_encode(m);
                    }
                    assert(pawn_cap_emit(self@, s as int, d as int, w));
                    lemma_no_dup_push(prev, w);
                }
            } else {
                proof {
                    assert(valid_piece(piece_on_target_square));
                    assert forall|m: u16| !#[trigger] pawn_cap_emit(
                        self@,
                        s as int,
                        d as int,
                        m,
                    ) by {}
                }
            }
        }
    }

    /// Pushes the forward moves of a pawn on square s: a single step onto
    /// an empty square (promoting on the far rank), and the flagged double
    /// advance from the start rank over two empty squares.
    fn gen_pawn_forward(&self, num_to_edge: u8, s: usize, moves_list: &mut Vec<u16>)
        requires
            self@.wf(),
            s < 64,
            num_to_edge as int == edge_dist(s as int, pawn_fwd_dir(self@.colour_to_move)),
            old(moves_list)@.no_duplicates(),
            forall|m: u16|
                #[trigger] pawn_fwd_emit(self@, s as int, m) ==> !old(moves_list)@.contains(m),
        ensures
            forall|m: u16|
                #[trigger] final(moves_list)@.contains(m) <==> old(moves_list)@.contains(m)
                    || pawn_fwd_emit(self@, s as int, m),
            final(moves_list)@.no_duplicates(),
    {
        let white = self.colour_to_move;
        if num_to_edge == 0 {
            proof {
                assert forall|m: u16| !#[trigger] pawn_fwd_emit(self@, s as int, m) by {}
            }
            return;
        }
        proof {
            geometry::lemma_square_bounds(s as int);
            geometry::lemma_ray_step(s as int, pawn_fwd_dir(white), 1);
        }
        let target_square = if white {
            s + 8
        } else {
            s - 8
        };
        let ghost t = target_square as int;
        proof {
            assert(t == s as int + pawn_forward(white));
        }
        if self.pieces[target_square] != piece::NONE {
            proof {
                assert forall|m: u16| !#[trigger] pawn_fwd_emit(self@, s as int, m) by {}
            }
            return;
        }

        let base = Move::new(s as u16, target_square as u16);
        proof {
            moves::lemma_encode_decode(s as int, t, 0);
        }
        let target_rank = target_square / 8;
        let far_rank: usize = if white {
            7
        } else {
            0
        };
        if target_rank == far_rank {
            let ghost prev = moves_list@;
            moves_list.push(base | moves::PROMOTE_TO_KNIGHT);
            moves_list.push(base | moves::PROMOTE_TO_BISHOP);
            moves_list.push(base | moves::PROMOTE_TO_ROOK);
            moves_list.push(base | moves::PROMOTE_TO_QUEEN);
            proof {
                lemma_promo_words(s as int, t, base);
                moves::lemma_encode_decode(s as int, t, 2);
                moves::lemma_encode_decode(s as int, t, 6);
                moves::lemma_encode_decode(s as int, t, 10);
                moves::lemma_encode_decode(s as int, t, 14);
                lemma_contains_push4(
                    prev,
                    base | moves::PROMOTE_TO_KNIGHT,
                    base | moves::PROMOTE_TO_BISHOP,
                    base | moves::PROMOTE_TO_ROOK,
                    base | moves::PROMOTE_TO_QUEEN,
                );
                assert forall|m: u16|
                    #[trigger] moves_list@.contains(m) <==> prev.contains(m) || pawn_fwd_emit(
                        self@,
                        s as int,
                        m,
                    ) by {
                    moves::lemma_decode_encode(m);
                }
                assert(pawn_fwd_emit(self@, s as int, base | moves::PROMOTE_TO_KNIGHT));
                assert(pawn_fwd_emit(self@, s as int, base | moves::PROMOTE_TO_BISHOP));
                assert(pawn_fwd_emit(self@, s as int, base | moves::PROMOTE_TO_ROOK));
                assert(pawn_fwd_emit(self@, s as int, base | moves::PROMOTE_TO_QUEEN));
                lemma_no_dup_push4(
                    prev,
                    base | moves::PROMOTE_TO_KNIGHT,
                    base | moves::PROMOTE_TO_BISHOP,
                    base | moves::PROMOTE_TO_ROOK,
                    base | moves::PROMOTE_TO_QUEEN,
                );
            }
            return;
        }

        let ghost prev = moves_list@;
        moves_list.push(base);
        proof {
            lemma_contains_push1(prev, base);
            assert(pawn_fwd_emit(self@, s as int, base));
            lemma_no_dup_push(prev, base);
        }

        let on_start_rank: bool = if white {
            8 <= s && s <= 15
        } else {
            48 <= s && s <= 55
        };
        if on_start_rank {
            let double_square = if white {
                s + 16
            } else {
                s - 16
            };
            let ghost t2 = double_square as int;
            proof {
                assert(t2 == s as int + 2 * pawn_forward(white));
            }
            if self.pieces[double_square] == piece::NONE {
                let w = Move::new(s as u16, double_square as u16) | moves::DOUBLE_FORWARD_PAWN_MOVE;
                let ghost prev2 = moves_list@;
                moves_list.push(w);
                proof {
                    moves::lemma_encode_decode(s as int, t2, 0);
                    moves::lemma_or_flag(
                        moves::spec_encode(s as int, t2, 0),
                        moves::DOUBLE_FORWARD_PAWN_MOVE,
                    );
                    moves::lemma_encode_decode(s as int, t2, 12);
                    assert(w == moves::spec_encode(s as int, t2, 12));
                    lemma_contains_push1(prev2, w);
                    assert forall|m: u16|
                        #[trigger] moves_list@.contains(m) <==> prev.contains(m) || pawn_fwd_emit(
                            self@,
                            s as int,
                            m,
                        ) by {
                        moves::lemma_decode_encode(m);
                    }
                    assert(pawn_fwd_emit(self@, s as int, w));
                    assert(w != base);
                    lemma_no_dup_push(prev2, w);
                }
                return;
            }
        }
        proof {
            assert forall|m: u16|
                #[trigger] moves_list@.contains(m) <==> prev.contains(m) || pawn_fwd_emit(
                    self@,
                    s as int,
                    m,
                ) by {
                moves::lemma_decode_encode(m);
            }
        }
    }

    /// Pushes all moves of the pawn on square s: both capture diagonals,
    /// then the forward file.
    fn gen_pawn(&self, table: &Vec<Vec<u8>>, s: usize, moves_list: &mut Vec<u16>)
        requires
            self@.wf(),
            s < 64,
            table@.len() == 64,
            forall|i: int| 0 <= i < 64 ==> (#[trigger] table@[i])@.len() == 8,
            forall|i: int, d: int|
                #![trigger table@[i]@[d]]
                0 <= i < 64 && 0 <= d < 8 ==> table@[i]@[d] as int == edge_dist(i, d),
            old(moves_list)@.no_duplicates(),
            forall|m: u16|
                #[trigger] pawn_from_ok(self@, s as int, m) ==> !old(moves_list)@.contains(m),
        ensures
            forall|m: u16|
                #[trigger] final(moves_list)@.contains(m) <==> old(moves_list)@.contains(m)
                    || pawn_from_ok(self@, s as int, m),
            final(moves_list)@.no_duplicates(),
    {
        let white = self.colour_to_move;
        let cd0: usize = if white {
            4
        } else {
            5
        };
        let cd1: usize = if white {
            6
        } else {
            7
        };
        let fd: usize = if white {
            0
        } else {
            1
        };
        proof {
            lemma_cap_emit_from_ok(self@, s as int, cd0 as int);
            lemma_cap_emit_from_ok(self@, s as int, cd1 as int);
            lemma_fwd_emit_from_ok(self@, s as int);
        }
        self.gen_pawn_capture(table[s][cd0], s, cd0, moves_list);
        let ghost s1 = moves_list@;
        proof {
            // the second diagonal's words land one file away from the
            // first's, so none of them is in the list yet
            assert forall|m: u16|
                #[trigger] pawn_cap_emit(self@, s as int, cd1 as int, m) implies !s1.contains(
                m,
            ) by {
                assert(!old(moves_list)@.contains(m));
            }
        }
        self.gen_pawn_capture(table[s][cd1], s, cd1, moves_list);
        let ghost s2 = moves_list@;
        proof {
            // the forward words land on the file itself, off both diagonals
            assert forall|m: u16| #[trigger] pawn_fwd_emit(self@, s as int, m) implies !s2.contains(
                m,
            ) by {
                assert(!old(moves_list)@.contains(m));
            }
        }
        self.gen_pawn_forward(table[s][fd], s, moves_list);
        proof {
            lemma_pawn_total(self@, s as int, old(moves_list)@, s1, s2, moves_list@);
        }
    }
}

/// The four promotion words over one departure/target pair carry the four
/// promotion flag nibbles and nothing else.
proof fn lemma_promo_words(s: int, t: int, base: u16)
    requires
        0 <= s < 64,
        0 <= t < 64,
        base == moves::spec_encode(s, t, 0),
    ensures
        base | moves::PROMOTE_TO_KNIGHT == moves::spec_encode(s, t, 2),
        base | moves::PROMOTE_TO_BISHOP == moves::spec_encode(s, t, 6),
        base | moves::PROMOTE_TO_ROOK == moves::spec_encode(s, t, 10),
        base | moves::PROMOTE_TO_QUEEN == moves::spec_encode(s, t, 14),
{
    moves::lemma_encode_decode(s, t, 0);
    moves::lemma_encode_decode(s, t, 2);
    moves::lemma_encode_decode(s, t, 6);
    moves::lemma_encode_decode(s, t, 10);
    moves::lemma_encode_decode(s, t, 14);
    moves::lemma_or_flag(base, moves::PROMOTE_TO_KNIGHT);
    moves::lemma_or_flag(base, moves::PROMOTE_TO_BISHOP);
    moves::lemma_or_flag(base, moves::PROMOTE_TO_ROOK);
    moves::lemma_or_flag(base, moves::PROMOTE_TO_QUEEN);
}

/// On a square held by a friendly sliding piece, the non-castle moves
/// departing from it are exactly its flagless sliding moves.
proof fn lemma_square_sliding(b: BoardView, s: int)
    requires
        b.wf(),
        0 <= s < 64,
        is_side(b.pieces[s], b.colour_to_move),
        piece::is_sliding_kind(kind_of(b.pieces[s])),
    ensures
        forall|m: u16|
            (noncastle_legal(b, m) && spec_departure(m) == s) <==> (#[trigger] spec_flags(m) == 0
                && spec_departure(m) == s && sliding_move_ok(
                b,
                b.colour_to_move,
                s,
                spec_target(m),
            )),
{
    assert forall|m: u16|
        (noncastle_legal(b, m) && spec_departure(m) == s) <==> (#[trigger] spec_flags(m) == 0
            && spec_departure(m) == s && sliding_move_ok(
            b,
            b.colour_to_move,
            s,
            spec_target(m),
        )) by {
        moves::lemma_decode_encode(m);
        assert(spec_flags(moves::SHORT_CASTLE) == 4);
        assert(spec_flags(moves::LONG_CASTLE) == 8);
    }
}

/// On a square held by a friendly knight, the non-castle moves departing
/// from it are exactly its flagless knight moves.
proof fn lemma_square_knight(b: BoardView, s: int)
    requires
        b.wf(),
        0 <= s < 64,
        is_side(b.pieces[s], b.colour_to_move),
        kind_of(b.pieces[s]) == piece::KNIGHT as int,
    ensures
        forall|m: u16|
            (noncastle_legal(b, m) && spec_departure(m) == s) <==> (#[trigger] spec_flags(m) == 0
                && spec_departure(m) == s && knight_move_ok(
                b,
                b.colour_to_move,
                s,
                spec_target(m),
            )),
{
    assert forall|m: u16|
        (noncastle_legal(b, m) && spec_departure(m) == s) <==> (#[trigger] spec_flags(m) == 0
            && spec_departure(m) == s && knight_move_ok(
            b,
            b.colour_to_move,
            s,
            spec_target(m),
        )) by {
        moves::lemma_decode_encode(m);
        assert(spec_flags(moves::SHORT_CASTLE) == 4);
        assert(spec_flags(moves::LONG_CASTLE) == 8);
    }
}

/// On a square held by the friendly king, the non-castle moves departing
/// from it are exactly its flagless king steps.
proof fn lemma_square_king(b: BoardView, s: int)
    requires
        b.wf(),
        0 <= s < 64,
        is_side(b.pieces[s], b.colour_to_move),
        kind_of(b.pieces[s]) == piece::KING as int,
    ensures
        forall|m: u16|
            (noncastle_legal(b, m) && spec_departure(m) == s) <==> (#[trigger] spec_flags(m) == 0
                && spec_departure(m) == s && king_move_ok(
                b,
                b.colour_to_move,
                s,
                spec_target(m),
            )),
{
    assert forall|m: u16|
        (noncastle_legal(b, m) && spec_departure(m) == s) <==> (#[trigger] spec_flags(m) == 0
            && spec_departure(m) == s && king_move_ok(
            b,
            b.colour_to_move,
            s,
            spec_target(m),
        )) by {
        moves::lemma_decode_encode(m);
        assert(spec_flags(moves::SHORT_CASTLE) == 4);
        assert(spec_flags(moves::LONG_CASTLE) == 8);
    }
}

/// On a square held by a friendly pawn, the non-castle moves departing
/// from it are exactly its pawn moves.
proof fn lemma_square_pawn(b: BoardView, s: int)
    requires
        b.wf(),
        0 <= s < 64,
        is_side(b.pieces[s], b.colour_to_move),
        kind_of(b.pieces[s]) == piece::PAWN as int,
    ensures
        forall|m: u16|
            (noncastle_legal(b, m) && spec_departure(m) == s) <==> #[trigger] pawn_from_ok(
                b,
                s,
                m,
            ),
{
    assert forall|m: u16|
        (noncastle_legal(b, m) && spec_departure(m) == s) <==> #[trigger] pawn_from_ok(
            b,
            s,
            m,
        ) by {
        moves::lemma_decode_encode(m);
        assert(spec_flags(moves::SHORT_CASTLE) == 4);
        assert(spec_flags(moves::LONG_CASTLE) == 8);
    }
}

/// No non-castle move departs from an empty or enemy-held square.
proof fn lemma_square_skip(b: BoardView, s: int)
    requires
        b.wf(),
        0 <= s < 64,
        !is_side(b.pieces[s], b.colour_to_move),
    ensures
        forall|m: u16| #[trigger] spec_departure(m) == s ==> !noncastle_legal(b, m),
{
}

impl Board {
    /// The pseudo-legal moves of the side to move: a list whose members are
    /// exactly the moves consistent with piece-movement and occupancy rules
    /// on the current position.  No king-safety filtering is performed, so
    /// a caller selects from this list at its own judgement.
    pub fn generate_moves(&self) -> (moves_list: Vec<u16>)
        requires
            self@.wf(),
        ensures
            forall|m: u16| #[trigger] moves_list@.contains(m) <==> pseudo_legal(self@, m),
            forall|i: int| 0 <= i < moves_list@.len() ==> pseudo_legal(self@, #[trigger] moves_list@[i]),
            moves_list@.no_duplicates(),
    {
        let ghost b = self@;
        let table = geometry::num_squares_to_edge();
        let mut moves_list: Vec<u16> = Vec::new();
        let mut start_square: usize = 0;
        while start_square < 64
            invariant
                self@.wf(),
                self@ == b,
                start_square <= 64,
                table@.len() == 64,
                forall|i: int| 0 <= i < 64 ==> (#[trigger] table@[i])@.len() == 8,
                forall|i: int, d: int|
                    #![trigger table@[i]@[d]]
                    0 <= i < 64 && 0 <= d < 8 ==> table@[i]@[d] as int == edge_dist(i, d),
                forall|m: u16|
                    #[trigger] moves_list@.contains(m) <==> noncastle_legal(b, m)
                        && spec_departure(m) < start_square as int,
                moves_list@.no_duplicates(),
            decreases 64 - start_square,
        {
            let piece_byte = self.pieces[start_square];
            let ghost prev = moves_list@;
            if piece_byte != piece::NONE && Piece::colour_bool(piece_byte) == self.colour_to_move {
                proof {
                    assert(is_side(b.pieces[start_square as int], b.colour_to_move));
                }
                if Piece::is_sliding_piece(piece_byte) {
                    self.gen_sliding(&table, start_square, &mut moves_list);
                    proof {
                        lemma_square_sliding(b, start_square as int);
                    }
                } else if Piece::is_type(piece_byte, piece::KNIGHT) {
                    self.gen_knight(start_square, &mut moves_list);
                    proof {
                        lemma_square_knight(b, start_square as int);
                    }
                } else if Piece::is_type(piece_byte, piece::KING) {
                    self.gen_king(&table, start_square, &mut moves_list);
                    proof {
                        lemma_square_king(b, start_square as int);
                    }
                } else {
                    proof {
                        assert(valid_piece(piece_byte));
                        assert(kind_of(b.pieces[start_square as int]) == piece::PAWN as int);
                    }
                    self.gen_pawn(&table, start_square, &mut moves_list);
                    proof {
                        lemma_square_pawn(b, start_square as int);
                    }
                }
            } else {
                proof {
                    if piece_byte != 0 {
                        assert(valid_piece(piece_byte));
                    }
                    lemma_square_skip(b, start_square as int);
                }
            }
            start_square += 1;
        }
        proof {
            assert forall|m: u16|
                #[trigger] moves_list@.contains(m) <==> noncastle_legal(b, m) by {
                moves::lemma_decode_encode(m);
            }
        }

        let castling_square: usize = if self.colour_to_move {
            KING_SQUARE_WHITE
        } else {
            KING_SQUARE_BLACK
        };
        let rights_nibble = CastlingRights::rights(self.castling_rights, self.colour_to_move);

        if CastlingRights::can_long_castle(rights_nibble) && self.pieces[castling_square - 1]
            == piece::NONE && self.pieces[castling_square - 2] == piece::NONE
            && self.pieces[castling_square - 3] == piece::NONE {
            let ghost prev = moves_list@;
            proof {
                assert(!prev.contains(moves::LONG_CASTLE));
            }
            moves_list.push(moves::LONG_CASTLE);
            proof {
                lemma_contains_push1(prev, moves::LONG_CASTLE);
                lemma_no_dup_push(prev, moves::LONG_CASTLE);
                assert(long_castle_ok(b));
            }
        } else {
            proof {
                assert(!long_castle_ok(b));
            }
        }

        if CastlingRights::can_short_castle(rights_nibble) && self.pieces[castling_square + 1]
            == piece::NONE && self.pieces[castling_square + 2] == piece::NONE {
            let ghost prev = moves_list@;
            proof {
                assert(!prev.contains(moves::SHORT_CASTLE));
            }
            moves_list.push(moves::SHORT_CASTLE);
            proof {
                lemma_contains_push1(prev, moves::SHORT_CASTLE);
                lemma_no_dup_push(prev, moves::SHORT_CASTLE);
                assert(short_castle_ok(b));
            }
        } else {
            proof {
                assert(!short_castle_ok(b));
            }
        }

        proof {
            assert forall|m: u16|
                #[trigger] moves_list@.contains(m) <==> pseudo_legal(b, m) by {
                assert(spec_flags(moves::SHORT_CASTLE) == 4);
                assert(spec_flags(moves::LONG_CASTLE) == 8);
            }
            assert forall|i: int|
                0 <= i < moves_list@.len() implies pseudo_legal(
                self@,
                #[trigger] moves_list@[i],
            ) by {
                assert(moves_list@.contains(moves_list@[i]));
            }
        }
        moves_list
    }
}

// ---------------------------------------------------------------------------
// Laws of the generator.
// ---------------------------------------------------------------------------

/// Edge containment: a pseudo-legal move's departure and target squares
/// always lie on the board, by the six-bit square fields of the encoding.
pub proof fn lemma_edge_containment(b: BoardView, m: u16)
    requires
        b.wf(),
        pseudo_legal(b, m),
    ensures
        0 <= spec_departure(m) < 64,
        0 <= spec_target(m) < 64,
{
    moves::lemma_decode_encode(m);
}

/// Knight moves never wrap across the side files: every pseudo-legal
/// knight move is a genuine (1,2) or (2,1) leap in file/rank coordinates,
/// so the files of departure and target differ by at most two.
pub proof fn lemma_knight_no_wrap(b: BoardView, m: u16)
    requires
        b.wf(),
        pseudo_legal(b, m),
        m != moves::SHORT_CASTLE,
        m != moves::LONG_CASTLE,
        spec_flags(m) == 0,
        kind_of(b.pieces[spec_departure(m)]) == piece::KNIGHT as int,
    ensures
        exists|i: int|
            0 <= i < 8 && file_of(spec_target(m)) == file_of(spec_departure(m))
                + #[trigger] geometry::knight_file_delta(i) && rank_of(spec_target(m)) == rank_of(
                spec_departure(m),
            ) + geometry::knight_rank_delta(i),
        -2 <= file_of(spec_target(m)) - file_of(spec_departure(m)) <= 2,
{
    moves::lemma_decode_encode(m);
    let d = spec_departure(m);
    let t = spec_target(m);
    geometry::lemma_square_bounds(d);
    let i = choose|i: int|
        0 <= i < 8 && #[trigger] knight_target_ok(d, i, t) && !is_side(
            b.pieces[t],
            b.colour_to_move,
        );
    geometry::lemma_square_decompose(
        rank_of(d) + geometry::knight_rank_delta(i),
        file_of(d) + geometry::knight_file_delta(i),
    );
    assert(0 <= i < 8 && file_of(t) == file_of(d) + geometry::knight_file_delta(i) && rank_of(t)
        == rank_of(d) + geometry::knight_rank_delta(i));
}

/// Promotion completeness: over a given departure and target, the four
/// promotion words are pairwise distinct, differ only in their promotion
/// kind, and each is pseudo-legal exactly when the underlying pawn move
/// onto the far rank is; and every pseudo-legal promotion word arises
/// this way.
pub proof fn lemma_promotion_completeness(b: BoardView, d: int, t: int)
    requires
        b.wf(),
        0 <= d < 64,
        0 <= t < 64,
    ensures
        forall|f: int|
            #[trigger] moves::is_promotion_flags(f) ==> (pseudo_legal(
                b,
                moves::spec_encode(d, t, f),
            ) <==> (is_side(b.pieces[d], b.colour_to_move) && kind_of(b.pieces[d])
                == piece::PAWN as int && promo_move_ok(b, b.colour_to_move, d, t))),
        forall|f1: int, f2: int|
            #![trigger moves::spec_encode(d, t, f1), moves::spec_encode(d, t, f2)]
            moves::is_promotion_flags(f1) && moves::is_promotion_flags(f2) && f1 != f2
                ==> moves::spec_encode(d, t, f1) != moves::spec_encode(d, t, f2),
        forall|m: u16|
            pseudo_legal(b, m) && #[trigger] moves::spec_is_promotion(m)
                ==> moves::is_promotion_flags(spec_flags(m)) && kind_of(
                b.pieces[spec_departure(m)],
            ) == piece::PAWN as int && promo_move_ok(
                b,
                b.colour_to_move,
                spec_departure(m),
                spec_target(m),
            ),
{
    assert forall|f: int|
        #[trigger] moves::is_promotion_flags(f) implies (pseudo_legal(
        b,
        moves::spec_encode(d, t, f),
    ) <==> (is_side(b.pieces[d], b.colour_to_move) && kind_of(b.pieces[d]) == piece::PAWN as int
        && promo_move_ok(b, b.colour_to_move, d, t))) by {
        moves::lemma_encode_decode(d, t, f);
        assert(spec_flags(moves::SHORT_CASTLE) == 4);
        assert(spec_flags(moves::LONG_CASTLE) == 8);
    }
    assert forall|f1: int, f2: int|
        #![trigger moves::spec_encode(d, t, f1), moves::spec_encode(d, t, f2)]
        moves::is_promotion_flags(f1) && moves::is_promotion_flags(f2) && f1
            != f2 implies moves::spec_encode(d, t, f1) != moves::spec_encode(d, t, f2) by {
        moves::lemma_encode_decode(d, t, f1);
        moves::lemma_encode_decode(d, t, f2);
    }
    assert forall|m: u16|
        pseudo_legal(b, m) && #[trigger] moves::spec_is_promotion(m) implies
        moves::is_promotion_flags(spec_flags(m)) && kind_of(b.pieces[spec_departure(m)])
        == piece::PAWN as int && promo_move_ok(
        b,
        b.colour_to_move,
        spec_departure(m),
        spec_target(m),
    ) by {
        moves::lemma_decode_encode(m);
        assert(spec_flags(moves::SHORT_CASTLE) == 4);
        assert(spec_flags(moves::LONG_CASTLE) == 8);
    }
}

/// Castling gating: the castle words are pseudo-legal (and so generated)
/// exactly when the corresponding rights bit is set and the squares
/// between king and rook are empty.
pub proof fn lemma_castling_gating(b: BoardView)
    requires
        b.wf(),
    ensures
        pseudo_legal(b, moves::SHORT_CASTLE) <==> short_castle_ok(b),
        pseudo_legal(b, moves::LONG_CASTLE) <==> long_castle_ok(b),
{
}

/// Blocked-ray law: when the first piece along a ray of a friendly sliding
/// piece stands at distance c, the slidable steps are exactly 1..=c-1 for
/// a friendly blocker and exactly 1..=c for an enemy one (the capture
/// included), and each such step is a pseudo-legal move.
pub proof fn lemma_blocked_ray_moves(b: BoardView, s: int, dir: int, c: int)
    requires
        b.wf(),
        0 <= s < 64,
        is_side(b.pieces[s], b.colour_to_move),
        piece::is_sliding_kind(kind_of(b.pieces[s])),
        dir_lo(kind_of(b.pieces[s])) <= dir < dir_hi(kind_of(b.pieces[s])),
        1 <= c <= edge_dist(s, dir),
        forall|j: int| 1 <= j < c ==> b.pieces[#[trigger] ray_square(s, dir, j)] == 0,
        b.pieces[ray_square(s, dir, c)] != 0,
    ensures
        is_side(b.pieces[ray_square(s, dir, c)], b.colour_to_move) ==> forall|k: int|
            #[trigger] ray_move_at(b, b.colour_to_move, s, dir, k) <==> 1 <= k <= c - 1,
        is_side(b.pieces[ray_square(s, dir, c)], !b.colour_to_move) ==> forall|k: int|
            #[trigger] ray_move_at(b, b.colour_to_move, s, dir, k) <==> 1 <= k <= c,
        forall|k: int|
            #[trigger] ray_move_at(b, b.colour_to_move, s, dir, k) ==> pseudo_legal(
                b,
                plain_word(s, ray_square(s, dir, k)),
            ),
        ray_legal_words(b, s, dir).finite(),
        is_side(b.pieces[ray_square(s, dir, c)], b.colour_to_move) ==> ray_legal_words(
            b,
            s,
            dir,
        ).len() == c - 1,
        is_side(b.pieces[ray_square(s, dir, c)], !b.colour_to_move) ==> ray_legal_words(
            b,
            s,
            dir,
        ).len() == c,
{
    let white = b.colour_to_move;
    let blocker = b.pieces[ray_square(s, dir, c)];
    if is_side(blocker, white) {
        assert forall|k: int|
            #[trigger] ray_move_at(b, white, s, dir, k) <==> 1 <= k <= c - 1 by {
            if 1 <= k <= c - 1 {
                assert(b.pieces[ray_square(s, dir, k)] == 0);
                assert(ray_hit(b, white, s, dir, k));
            }
            if ray_move_at(b, white, s, dir, k) {
                if k == c {
                    assert(!is_side(b.pieces[ray_square(s, dir, k)], white));
                } else if k > c {
                    assert(b.pieces[ray_square(s, dir, c)] == 0);
                }
            }
        }
    }
    if is_side(blocker, !white) {
        assert forall|k: int| #[trigger] ray_move_at(b, white, s, dir, k) <==> 1 <= k <= c by {
            if 1 <= k < c {
                assert(b.pieces[ray_square(s, dir, k)] == 0);
                assert(ray_hit(b, white, s, dir, k));
            }
            if k == c {
                assert(ray_hit(b, white, s, dir, k));
            }
            if ray_move_at(b, white, s, dir, k) && k > c {
                assert(b.pieces[ray_square(s, dir, c)] == 0);
            }
        }
    }
    lemma_ray_moves_legal(b, s, dir);
    geometry::lemma_ray_step(s, dir, c);
    if is_side(blocker, white) {
        lemma_ray_move_count(b, s, dir, c - 1);
    } else {
        assert(valid_piece(blocker));
        assert(is_side(blocker, !white));
        lemma_ray_move_count(b, s, dir, c);
    }
}

/// Distinct steps along one ray give distinct move words, so the slidable
/// steps of a ray count its generated moves one for one.
pub proof fn lemma_ray_words_distinct(s: int, dir: int, k1: int, k2: int)
    requires
        0 <= s < 64,
        0 <= dir < 8,
        1 <= k1 <= edge_dist(s, dir),
        1 <= k2 <= edge_dist(s, dir),
        k1 != k2,
    ensures
        plain_word(s, ray_square(s, dir, k1)) != plain_word(s, ray_square(s, dir, k2)),
{
    geometry::lemma_ray_step(s, dir, k1);
    geometry::lemma_ray_step(s, dir, k2);
    let off = dir_offset(dir);
    assert(off != 0);
    assert(k1 != k2 && off != 0 ==> k1 * off != k2 * off) by (nonlinear_arith);
    moves::lemma_encode_decode(s, ray_square(s, dir, k1), 0);
    moves::lemma_encode_decode(s, ray_square(s, dir, k2), 0);
}

/// Open-ray law: along an empty ray of a friendly sliding piece the
/// slidable steps are exactly 1..=edge-distance, and each is a
/// pseudo-legal move.
pub proof fn lemma_open_ray_moves(b: BoardView, s: int, dir: int)
    requires
        b.wf(),
        0 <= s < 64,
        is_side(b.pieces[s], b.colour_to_move),
        piece::is_sliding_kind(kind_of(b.pieces[s])),
        dir_lo(kind_of(b.pieces[s])) <= dir < dir_hi(kind_of(b.pieces[s])),
        forall|j: int|
            1 <= j <= edge_dist(s, dir) ==> b.pieces[#[trigger] ray_square(s, dir, j)] == 0,
    ensures
        forall|k: int|
            #[trigger] ray_move_at(b, b.colour_to_move, s, dir, k) <==> 1 <= k <= edge_dist(
                s,
                dir,
            ),
        forall|k: int|
            #[trigger] ray_move_at(b, b.colour_to_move, s, dir, k) ==> pseudo_legal(
                b,
                plain_word(s, ray_square(s, dir, k)),
            ),
        ray_legal_words(b, s, dir).finite(),
        ray_legal_words(b, s, dir).len() == edge_dist(s, dir),
{
    let white = b.colour_to_move;
    assert forall|k: int|
        #[trigger] ray_move_at(b, white, s, dir, k) <==> 1 <= k <= edge_dist(s, dir) by {
        if 1 <= k <= edge_dist(s, dir) {
            assert(b.pieces[ray_square(s, dir, k)] == 0);
            assert(ray_hit(b, white, s, dir, k));
        }
    }
    lemma_ray_moves_legal(b, s, dir);
    geometry::lemma_square_bounds(s);
    lemma_ray_move_count(b, s, dir, edge_dist(s, dir));
}

/// A flagless word from s onto one of the ray's board squares.
pub open spec fn ray_word(s: int, dir: int, m: u16) -> bool {
    exists|k: int|
        1 <= k <= edge_dist(s, dir) && m == plain_word(s, #[trigger] ray_square(s, dir, k))
}

/// The pseudo-legal words from s along one ray.
pub open spec fn ray_legal_words(b: BoardView, s: int, dir: int) -> Set<u16> {
    Set::new(|m: u16| pseudo_legal(b, m) && ray_word(s, dir, m))
}

/// Count form of the ray laws: when the slidable steps along a ray of a
/// friendly sliding piece are exactly 1..=bound, the pseudo-legal words
/// along that ray number exactly bound.  With the generator's contract —
/// membership exactly on pseudo-legality and a duplicate-free list — this
/// is the number of generated moves along the ray.
pub proof fn lemma_ray_move_count(b: BoardView, s: int, dir: int, bound: int)
    requires
        b.wf(),
        0 <= s < 64,
        is_side(b.pieces[s], b.colour_to_move),
        piece::is_sliding_kind(kind_of(b.pieces[s])),
        dir_lo(kind_of(b.pieces[s])) <= dir < dir_hi(kind_of(b.pieces[s])),
        0 <= bound <= edge_dist(s, dir),
        forall|k: int| #[trigger] ray_move_at(b, b.colour_to_move, s, dir, k) <==> 1 <= k <= bound,
    ensures
        ray_legal_words(b, s, dir).finite(),
        ray_legal_words(b, s, dir).len() == bound,
{
    let white = b.colour_to_move;
    let words = ray_legal_words(b, s, dir);
    let range = vstd::set_lib::set_int_range(1, bound + 1);
    let f = |k: int| plain_word(s, ray_square(s, dir, k));
    lemma_ray_moves_legal(b, s, dir);

    assert forall|m: u16| words.contains(m) implies range.map(f).contains(m) by {
        let k = choose|k: int|
            1 <= k <= edge_dist(s, dir) && m == plain_word(s, #[trigger] ray_square(s, dir, k));
        geometry::lemma_ray_step(s, dir, k);
        let t = ray_square(s, dir, k);
        moves::lemma_encode_decode(s, t, 0);
        assert(spec_flags(moves::SHORT_CASTLE) == 4);
        assert(spec_flags(moves::LONG_CASTLE) == 8);
        assert(sliding_move_ok(b, white, s, t));
        let (d2, k2) = choose|d2: int, k2: int|
            #[trigger] ray_move_at(b, white, s, d2, k2) && t == ray_square(s, d2, k2);
        if d2 != dir || k2 != k {
            lemma_ray_targets_injective(s, dir, k, d2, k2);
        }
        assert(ray_move_at(b, white, s, dir, k));
        assert(range.contains(k) && f(k) == m);
        assert(range.map(f).contains(m));
    }
    assert forall|m: u16| range.map(f).contains(m) implies words.contains(m) by {
        let k = choose|k: int| range.contains(k) && f(k) == m;
        assert(ray_move_at(b, white, s, dir, k));
        assert(pseudo_legal(b, plain_word(s, ray_square(s, dir, k))));
        assert(1 <= k <= edge_dist(s, dir) && m == plain_word(s, ray_square(s, dir, k)));
        assert(ray_word(s, dir, m));
    }
    assert(words =~= range.map(f));

    vstd::set_lib::lemma_int_range(1, bound + 1);
    assert forall|k1: int, k2: int|
        range.contains(k1) && range.contains(k2) && #[trigger] f(k1) == #[trigger] f(k2) implies k1
        == k2 by {
        if k1 != k2 {
            lemma_ray_words_distinct(s, dir, k1, k2);
        }
    }
    assert(vstd::relations::injective_on(f, range));
    vstd::set_lib::lemma_map_size(range, words, f);
}

/// Each slidable step along a ray of a friendly sliding piece is a
/// pseudo-legal flagless move.
proof fn lemma_ray_moves_legal(b: BoardView, s: int, dir: int)
    requires
        b.wf(),
        0 <= s < 64,
        is_side(b.pieces[s], b.colour_to_move),
        piece::is_sliding_kind(kind_of(b.pieces[s])),
    ensures
        forall|k: int|
            #[trigger] ray_move_at(b, b.colour_to_move, s, dir, k) ==> pseudo_legal(
                b,
                plain_word(s, ray_square(s, dir, k)),
            ),
{
    let white = b.colour_to_move;
    assert forall|k: int|
        #[trigger] ray_move_at(b, white, s, dir, k) implies pseudo_legal(
        b,
        plain_word(s, ray_square(s, dir, k)),
    ) by {
        geometry::lemma_ray_step(s, dir, k);
        let t = ray_square(s, dir, k);
        moves::lemma_encode_decode(s, t, 0);
        let m = plain_word(s, t);
        assert(spec_flags(moves::SHORT_CASTLE) == 4);
        assert(spec_flags(moves::LONG_CASTLE) == 8);
        assert(sliding_move_ok(b, white, s, t));
    }
}

// ---------------------------------------------------------------------------
// Construction from a position record.
// ---------------------------------------------------------------------------

/// The piece byte a placement letter names; uppercase letters are white.
pub open spec fn spec_piece_of_char(c: char) -> Option<u8> {
    if c == 'P' {
        Some((piece::WHITE + piece::PAWN) as u8)
    } else if c == 'N' {
        Some((piece::WHITE + piece::KNIGHT) as u8)
    } else if c == 'B' {
        Some((piece::WHITE + piece::BISHOP) as u8)
    } else if c == 'R' {
        Some((piece::WHITE + piece::ROOK) as u8)
    } else if c == 'Q' {
        Some((piece::WHITE + piece::QUEEN) as u8)
    } else if c == 'K' {
        Some((piece::WHITE + piece::KING) as u8)
    } else if c == 'p' {
        Some((piece::BLACK + piece::PAWN) as u8)
    } else if c == 'n' {
        Some((piece::BLACK + piece::KNIGHT) as u8)
    } else if c == 'b' {
        Some((piece::BLACK + piece::BISHOP) as u8)
    } else if c == 'r' {
        Some((piece::BLACK + piece::ROOK) as u8)
    } else if c == 'q' {
        Some((piece::BLACK + piece::QUEEN) as u8)
    } else if c == 'k' {
        Some((piece::BLACK + piece::KING) as u8)
    } else {
        None
    }
}

/// One pass over a placement field, top rank first: a digit skips files,
/// a letter places a piece, a slash closes a full rank; the pass fails on
/// the first malformed character, an overfull rank, or a short record.
pub open spec fn spec_place(
    s: Seq<char>,
    i: int,
    e: int,
    rank: int,
    file: int,
    pieces: Seq<u8>,
) -> Result<Seq<u8>, FenError>
    decreases e - i,
{
    if i >= e {
        if rank == 0 && file == 8 {
            Ok(pieces)
        } else {
            Err(FenError::BadPlacement)
        }
    } else {
        let c = s[i];
        if c == '/' {
            if file != 8 || rank == 0 {
                Err(FenError::BadPlacement)
            } else {
                spec_place(s, i + 1, e, rank - 1, 0, pieces)
            }
        } else if 49 <= c as int <= 56 {
            if file + (c as int - 48) > 8 {
                Err(FenError::TooManyPieces)
            } else {
                spec_place(s, i + 1, e, rank, file + (c as int - 48), pieces)
            }
        } else if c == '0' || c == '9' {
            Err(FenError::BadPlacement)
        } else {
            match spec_piece_of_char(c) {
                Some(p) => if file >= 8 {
                    Err(FenError::TooManyPieces)
                } else {
                    spec_place(s, i + 1, e, rank, file + 1, pieces.update(rank * 8 + file, p))
                },
                None => Err(FenError::UnknownPiece(c)),
            }
        }
    }
}

/// The side a field names: "w" for white, "b" for black.
pub open spec fn spec_parse_side(s: Seq<char>, i: int, e: int) -> Result<bool, FenError> {
    if e - i == 1 && s[i] == 'w' {
        Ok(true)
    } else if e - i == 1 && s[i] == 'b' {
        Ok(false)
    } else {
        Err(FenError::NoSuchSide)
    }
}

/// Folds a castling field over the rights byte, one letter per bit; a
/// dash contributes nothing.
pub open spec fn spec_parse_castling(s: Seq<char>, i: int, e: int, acc: u8) -> Result<
    u8,
    FenError,
>
    decreases e - i,
{
    if i >= e {
        Ok(acc)
    } else {
        let c = s[i];
        if c == 'K' {
            spec_parse_castling(s, i + 1, e, acc | castling_rights::WHITE_CAN_SHORT_CASTLE)
        } else if c == 'Q' {
            spec_parse_castling(s, i + 1, e, acc | castling_rights::WHITE_CAN_LONG_CASTLE)
        } else if c == 'k' {
            spec_parse_castling(s, i + 1, e, acc | castling_rights::BLACK_CAN_SHORT_CASTLE)
        } else if c == 'q' {
            spec_parse_castling(s, i + 1, e, acc | castling_rights::BLACK_CAN_LONG_CASTLE)
        } else if c == '-' {
            spec_parse_castling(s, i + 1, e, acc)
        } else {
            Err(FenError::BadCastlingCharacter(c))
        }
    }
}

/// An en-passant field: a dash for none, else a file letter and a rank
/// digit naming the target square.
pub open spec fn spec_parse_ep(s: Seq<char>, i: int, e: int) -> Result<Option<u8>, FenError> {
    if e - i == 1 && s[i] == '-' {
        Ok(None)
    } else if e - i == 2 && 97 <= s[i] as int <= 104 && 49 <= s[i + 1] as int <= 56 {
        Ok(Some((((s[i + 1] as int - 49) * 8) + (s[i] as int - 97)) as u8))
    } else {
        Err(FenError::BadEnPassant)
    }
}

/// The outcome of reading a whole position record: the six blank-separated
/// fields give the piece placement, the side to move, the castling rights,
/// the en-passant target and the two (unvalidated-by-value) move counters;
/// the first malformed field is the error.
pub open spec fn spec_from_fen(s: Seq<char>) -> Result<BoardView, FenError> {
    let i0 = crate::utils::spec_skip_ws(s, 0);
    let e0 = crate::utils::spec_token_end(s, i0);
    let i1 = crate::utils::spec_skip_ws(s, e0);
    let e1 = crate::utils::spec_token_end(s, i1);
    let i2 = crate::utils::spec_skip_ws(s, e1);
    let e2 = crate::utils::spec_token_end(s, i2);
    let i3 = crate::utils::spec_skip_ws(s, e2);
    let e3 = crate::utils::spec_token_end(s, i3);
    let i4 = crate::utils::spec_skip_ws(s, e3);
    let e4 = crate::utils::spec_token_end(s, i4);
    let i5 = crate::utils::spec_skip_ws(s, e4);
    let e5 = crate::utils::spec_token_end(s, i5);
    if i5 >= s.len() {
        Err(FenError::NotEnoughParts)
    } else {
        match spec_parse_side(s, i1, e1) {
            Err(err) => Err(err),
            Ok(colour) => match spec_parse_castling(s, i2, e2, castling_rights::CAN_NOT_CASTLE) {
                Err(err) => Err(err),
                Ok(rights) => match spec_place(s, i0, e0, 7, 0, Seq::new(64, |x: int| 0u8)) {
                    Err(err) => Err(err),
                    Ok(pieces) => match spec_parse_ep(s, i3, e3) {
                        Err(err) => Err(err),
                        Ok(ep) => if !crate::utils::spec_all_digits(s, i4, e4) {
                            Err(FenError::BadHalfmove)
                        } else if !crate::utils::spec_all_digits(s, i5, e5) {
                            Err(FenError::BadFullmove)
                        } else {
                            Ok(
                                BoardView {
                                    pieces,
                                    colour_to_move: colour,
                                    castling_rights: rights,
                                    en_passant_square: ep,
                                    history: Seq::empty(),
                                },
                            )
                        },
                    },
                },
            },
        }
    }
}

/// The numeric value of a digit character between '1' and '8'.
fn digit_value(c: char) -> (n: u8)
    requires
        49 <= c as int <= 56,
    ensures
        n as int == c as int - 48,
{
    match c {
        '1' => 1,
        '2' => 2,
        '3' => 3,
        '4' => 4,
        '5' => 5,
        '6' => 6,
        '7' => 7,
        _ => 8,
    }
}

/// The file index a letter between 'a' and 'h' names.
fn file_value(c: char) -> (n: u8)
    requires
        97 <= c as int <= 104,
    ensures
        n as int == c as int - 97,
{
    match c {
        'a' => 0,
        'b' => 1,
        'c' => 2,
        'd' => 3,
        'e' => 4,
        'f' => 5,
        'g' => 6,
        _ => 7,
    }
}

/// Reads a placement letter.
fn piece_of_char(c: char) -> (r: Option<u8>)
    ensures
        r == spec_piece_of_char(c),
        r matches Some(p) ==> valid_piece(p) && p != 0,
{
    proof {
        piece::lemma_pack_piece(piece::WHITE, piece::PAWN);
        piece::lemma_pack_piece(piece::WHITE, piece::KNIGHT);
        piece::lemma_pack_piece(piece::WHITE, piece::BISHOP);
        piece::lemma_pack_piece(piece::WHITE, piece::ROOK);
        piece::lemma_pack_piece(piece::WHITE, piece::QUEEN);
        piece::lemma_pack_piece(piece::WHITE, piece::KING);
        piece::lemma_pack_piece(piece::BLACK, piece::PAWN);
        piece::lemma_pack_piece(piece::BLACK, piece::KNIGHT);
        piece::lemma_pack_piece(piece::BLACK, piece::BISHOP);
        piece::lemma_pack_piece(piece::BLACK, piece::ROOK);
        piece::lemma_pack_piece(piece::BLACK, piece::QUEEN);
        piece::lemma_pack_piece(piece::BLACK, piece::KING);
    }
    match c {
        'P' => Some(piece::WHITE | piece::PAWN),
        'N' => Some(piece::WHITE | piece::KNIGHT),
        'B' => Some(piece::WHITE | piece::BISHOP),
        'R' => Some(piece::WHITE | piece::ROOK),
        'Q' => Some(piece::WHITE | piece::QUEEN),
        'K' => Some(piece::WHITE | piece::KING),
        'p' => Some(piece::BLACK | piece::PAWN),
        'n' => Some(piece::BLACK | piece::KNIGHT),
        'b' => Some(piece::BLACK | piece::BISHOP),
        'r' => Some(piece::BLACK | piece::ROOK),
        'q' => Some(piece::BLACK | piece::QUEEN),
        'k' => Some(piece::BLACK | piece::KING),
        _ => None,
    }
}

/// Walks a placement field, filling piece slots rank by rank.
fn place_chars(
    cs: &Vec<char>,
    i: usize,
    e: usize,
    rank: u8,
    file: u8,
    pieces: Vec<u8>,
) -> (r: Result<Vec<u8>, FenError>)
    requires
        i <= e <= cs@.len(),
        rank <= 7,
        file <= 8,
        pieces@.len() == 64,
        forall|j: int| 0 <= j < 64 ==> valid_piece(#[trigger] pieces@[j]),
    ensures
        match r {
            Ok(v) => spec_place(cs@, i as int, e as int, rank as int, file as int, pieces@)
                == Ok::<Seq<u8>, FenError>(v@) && v@.len() == 64 && (forall|j: int|
                0 <= j < 64 ==> valid_piece(#[trigger] v@[j])),
            Err(err) => spec_place(cs@, i as int, e as int, rank as int, file as int, pieces@)
                == Err::<Seq<u8>, FenError>(err),
        },
    decreases e - i,
{
    if i >= e {
        if rank == 0 && file == 8 {
            Ok(pieces)
        } else {
            Err(FenError::BadPlacement)
        }
    } else {
        let c = cs[i];
        if c == '/' {
            if file != 8 || rank == 0 {
                Err(FenError::BadPlacement)
            } else {
                place_chars(cs, i + 1, e, rank - 1, 0, pieces)
            }
        } else if c >= '1' && c <= '8' {
            let n = digit_value(c);
            if file + n > 8 {
                Err(FenError::TooManyPieces)
            } else {
                place_chars(cs, i + 1, e, rank, file + n, pieces)
            }
        } else if c == '0' || c == '9' {
            Err(FenError::BadPlacement)
        } else {
            match piece_of_char(c) {
                Some(p) => {
                    if file >= 8 {
                        Err(FenError::TooManyPieces)
                    } else {
                        let mut filled = pieces;
                        let idx = (rank as usize) * 8 + (file as usize);
                        filled[idx] = p;
                        place_chars(cs, i + 1, e, rank, file + 1, filled)
                    }
                },
                None => Err(FenError::UnknownPiece(c)),
            }
        }
    }
}

/// Reads a side field.
fn parse_side(cs: &Vec<char>, i: usize, e: usize) -> (r: Result<bool, FenError>)
    requires
        i <= e <= cs@.len(),
    ensures
        r == spec_parse_side(cs@, i as int, e as int),
{
    if e - i == 1 && cs[i] == 'w' {
        Ok(true)
    } else if e - i == 1 && cs[i] == 'b' {
        Ok(false)
    } else {
        Err(FenError::NoSuchSide)
    }
}

/// Folds a castling field over the rights byte.
fn parse_castling(cs: &Vec<char>, i: usize, e: usize, acc: u8) -> (r: Result<u8, FenError>)
    requires
        i <= e <= cs@.len(),
        castling_rights::valid_rights(acc),
    ensures
        match r {
            Ok(v) => spec_parse_castling(cs@, i as int, e as int, acc) == Ok::<u8, FenError>(v)
                && castling_rights::valid_rights(v),
            Err(err) => spec_parse_castling(cs@, i as int, e as int, acc) == Err::<u8, FenError>(
                err,
            ),
        },
    decreases e - i,
{
    proof {
        castling_rights::lemma_rights_or(acc);
    }
    if i >= e {
        Ok(acc)
    } else {
        let c = cs[i];
        if c == 'K' {
            parse_castling(cs, i + 1, e, acc | castling_rights::WHITE_CAN_SHORT_CASTLE)
        } else if c == 'Q' {
            parse_castling(cs, i + 1, e, acc | castling_rights::WHITE_CAN_LONG_CASTLE)
        } else if c == 'k' {
            parse_castling(cs, i + 1, e, acc | castling_rights::BLACK_CAN_SHORT_CASTLE)
        } else if c == 'q' {
            parse_castling(cs, i + 1, e, acc | castling_rights::BLACK_CAN_LONG_CASTLE)
        } else if c == '-' {
            parse_castling(cs, i + 1, e, acc)
        } else {
            Err(FenError::BadCastlingCharacter(c))
        }
    }
}

/// Reads an en-passant field.
fn parse_ep(cs: &Vec<char>, i: usize, e: usize) -> (r: Result<Option<u8>, FenError>)
    requires
        i <= e <= cs@.len(),
    ensures
        r == spec_parse_ep(cs@, i as int, e as int),
        r matches Ok(v) ==> (v matches Some(sq) ==> sq < 64),
{
    if e - i == 1 && cs[i] == '-' {
        Ok(None)
    } else if e - i == 2 {
        let fc = cs[i];
        let rc = cs[i + 1];
        if fc >= 'a' && fc <= 'h' && rc >= '1' && rc <= '8' {
            let file = file_value(fc);
            let rank = digit_value(rc) - 1;
            Ok(Some(rank * 8 + file))
        } else {
            Err(FenError::BadEnPassant)
        }
    } else {
        Err(FenError::BadEnPassant)
    }
}

impl Board {
    /// Builds a board from a textual position record of six blank-separated
    /// fields: piece placement, side to move, castling rights, en-passant
    /// target, and the two move counters (whose presence and digits are
    /// checked, their values unused).  Every malformed field is surfaced as
    /// a tagged failure; a successful read starts with an empty history.
    pub fn from_fen(fen: &str) -> (r: Result<Self, FenError>)
        ensures
            match r {
                Ok(board) => spec_from_fen(fen@) == Ok::<BoardView, FenError>(board@)
                    && board@.wf(),
                Err(err) => spec_from_fen(fen@) == Err::<BoardView, FenError>(err),
            },
    {
        let cs = crate::utils::chars_of(fen);
        let i0 = crate::utils::skip_ws(&cs, 0);
        let e0 = crate::utils::token_end(&cs, i0);
        let i1 = crate::utils::skip_ws(&cs, e0);
        let e1 = crate::utils::token_end(&cs, i1);
        let i2 = crate::utils::skip_ws(&cs, e1);
        let e2 = crate::utils::token_end(&cs, i2);
        let i3 = crate::utils::skip_ws(&cs, e2);
        let e3 = crate::utils::token_end(&cs, i3);
        let i4 = crate::utils::skip_ws(&cs, e3);
        let e4 = crate::utils::token_end(&cs, i4);
        let i5 = crate::utils::skip_ws(&cs, e4);
        let e5 = crate::utils::token_end(&cs, i5);
        if i5 >= cs.len() {
            return Err(FenError::NotEnoughParts);
        }

        let colour_to_move = match parse_side(&cs, i1, e1) {
            Ok(c) => c,
            Err(err) => {
                return Err(err);
            },
        };
        let castling_rights = match parse_castling(&cs, i2, e2, castling_rights::CAN_NOT_CASTLE) {
            Ok(v) => v,
            Err(err) => {
                return Err(err);
            },
        };
        let empty: Vec<u8> = vec![0u8; 64];
        proof {
            assert(empty@ =~= Seq::new(64, |x: int| 0u8));
        }
        let pieces = match place_chars(&cs, i0, e0, 7, 0, empty) {
            Ok(v) => v,
            Err(err) => {
                return Err(err);
            },
        };
        let en_passant_square = match parse_ep(&cs, i3, e3) {
            Ok(v) => v,
            Err(err) => {
                return Err(err);
            },
        };
        if !crate::utils::all_digits(&cs, i4, e4) {
            return Err(FenError::BadHalfmove);
        }
        if !crate::utils::all_digits(&cs, i5, e5) {
            return Err(FenError::BadFullmove);
        }

        let board = Board {
            pieces,
            colour_to_move,
            castling_rights,
            en_passant_square,
            move_history: Vec::new(),
        };
        proof {
            let sp = spec_from_fen(fen@);
            assert(sp matches Ok(bv) && board@ =~= bv);
        }
        Ok(board)
    }
}

// ---------------------------------------------------------------------------
// Rendering.
// ---------------------------------------------------------------------------

/// The letter drawn for a piece byte: kind letters in lowercase, raised to
/// uppercase for white, a blank for an empty slot.
pub open spec fn spec_piece_char(p: u8) -> char {
    let k = kind_of(p);
    if colour_of(p) == piece::WHITE as int {
        if k == piece::PAWN as int {
            'P'
        } else if k == piece::KNIGHT as int {
            'N'
        } else if k == piece::BISHOP as int {
            'B'
        } else if k == piece::ROOK as int {
            'R'
        } else if k == piece::QUEEN as int {
            'Q'
        } else if k == piece::KING as int {
            'K'
        } else {
            ' '
        }
    } else {
        if k == piece::PAWN as int {
            'p'
        } else if k == piece::KNIGHT as int {
            'n'
        } else if k == piece::BISHOP as int {
            'b'
        } else if k == piece::ROOK as int {
            'r'
        } else if k == piece::QUEEN as int {
            'q'
        } else if k == piece::KING as int {
            'k'
        } else {
            ' '
        }
    }
}

/// The square shown in a given cell: white's perspective reads ranks from
/// the top down, black's mirrors the files instead.
pub open spec fn spec_persp_square(perspective: bool, row: int, col: int) -> int {
    if perspective {
        (7 - row) * 8 + col
    } else {
        row * 8 + (7 - col)
    }
}

/// The rule line between board rows.
pub open spec fn spec_dashes() -> Seq<char> {
    "--------------------------------"@
}

/// The first n cells of one displayed row.
pub open spec fn spec_row_cells(pieces: Seq<u8>, perspective: bool, row: int, n: int) -> Seq<char>
    decreases n,
{
    if n <= 0 {
        Seq::empty()
    } else {
        spec_row_cells(pieces, perspective, row, n - 1) + seq![
            spec_piece_char(pieces[spec_persp_square(perspective, row, n - 1)]),
        ] + " | "@
    }
}

/// One displayed row: a rule line, then the eight cells between bars.
pub open spec fn spec_row(pieces: Seq<u8>, perspective: bool, row: int) -> Seq<char> {
    spec_dashes() + "\n| "@ + spec_row_cells(pieces, perspective, row, 8) + "\n"@
}

/// The first n displayed rows.
pub open spec fn spec_render_rows(pieces: Seq<u8>, perspective: bool, n: int) -> Seq<char>
    decreases n,
{
    if n <= 0 {
        Seq::empty()
    } else {
        spec_render_rows(pieces, perspective, n - 1) + spec_row(pieces, perspective, n - 1)
    }
}

/// The whole rendered board: eight rows and a closing rule line.
pub open spec fn spec_stringify(pieces: Seq<u8>, perspective: bool) -> Seq<char> {
    spec_render_rows(pieces, perspective, 8) + spec_dashes()
}

/// The one-letter string a piece byte is drawn as.
fn piece_str(p: u8) -> (r: &'static str)
    ensures
        r@ == seq![spec_piece_char(p)],
{
    let colour_bits = Piece::colour(p);
    let kind = Piece::piece_type(p);
    proof {
        reveal_strlit("P");
        reveal_strlit("N");
        reveal_strlit("B");
        reveal_strlit("R");
        reveal_strlit("Q");
        reveal_strlit("K");
        reveal_strlit("p");
        reveal_strlit("n");
        reveal_strlit("b");
        reveal_strlit("r");
        reveal_strlit("q");
        reveal_strlit("k");
        reveal_strlit(" ");
    }
    if colour_bits == piece::WHITE {
        if kind == piece::PAWN {
            "P"
        } else if kind == piece::KNIGHT {
            "N"
        } else if kind == piece::BISHOP {
            "B"
        } else if kind == piece::ROOK {
            "R"
        } else if kind == piece::QUEEN {
            "Q"
        } else if kind == piece::KING {
            "K"
        } else {
            " "
        }
    } else {
        if kind == piece::PAWN {
            "p"
        } else if kind == piece::KNIGHT {
            "n"
        } else if kind == piece::BISHOP {
            "b"
        } else if kind == piece::ROOK {
            "r"
        } else if kind == piece::QUEEN {
            "q"
        } else if kind == piece::KING {
            "k"
        } else {
            " "
        }
    }
}

impl Board {
    /// Draws the board as text, one row per rank, from the given side's
    /// perspective (`true` for white).
    pub fn stringify(&self, perspective: bool) -> (r: String)
        requires
            self@.wf(),
        ensures
            r@ == spec_stringify(self@.pieces, perspective),
    {
        let mut string = String::new();
        let mut row: usize = 0;
        while row < 8
            invariant
                self@.wf(),
                row <= 8,
                string@ == spec_render_rows(self@.pieces, perspective, row as int),
            decreases 8 - row,
        {
            string.append("--------------------------------");
            string.append("\n| ");
            let mut col: usize = 0;
            while col < 8
                invariant
                    self@.wf(),
                    row < 8,
                    col <= 8,
                    string@ == spec_render_rows(self@.pieces, perspective, row as int)
                        + spec_dashes() + "\n| "@ + spec_row_cells(
                        self@.pieces,
                        perspective,
                        row as int,
                        col as int,
                    ),
                decreases 8 - col,
            {
                let square = if perspective {
                    (7 - row) * 8 + col
                } else {
                    row * 8 + (7 - col)
                };
                let p = self.pieces[square];
                string.append(piece_str(p));
                string.append(" | ");
                proof {
                    assert(string@ =~= spec_render_rows(self@.pieces, perspective, row as int)
                        + spec_dashes() + "\n| "@ + spec_row_cells(
                        self@.pieces,
                        perspective,
                        row as int,
                        col as int + 1,
                    ));
                }
                col += 1;
            }
            string.append("\n");
            proof {
                assert(string@ =~= spec_render_rows(self@.pieces, perspective, row as int + 1));
            }
            row += 1;
        }
        string.append("--------------------------------");
        proof {
            assert(string@ =~= spec_stringify(self@.pieces, perspective));
        }
        string
    }
}

} // verus!
