//! Core of a chess position tracker.
//!
//! The crate keeps the arrangement of pieces on an 8x8 board, encodes moves
//! compactly, enumerates pseudo-legal moves for the side to move, and applies
//! and reverses moves while maintaining castling rights, the en-passant
//! target and a history stack.  Moves are pseudo-legal only: no king-safety
//! filtering is performed.
//!
//! The generator's contract pins its output down exactly: a move word is in
//! the returned list if and only if it is pseudo-legal on the current
//! position, and the list names no move twice.  Applying a move and undoing
//! it restores the prior position exactly
//! (`board::lemma_make_undo_round_trip`); castling is offered if and only
//! if the rights bit is set and the squares between king and rook are empty
//! (`board::lemma_castling_gating`), and rights never regrow except by
//! undoing (`board::lemma_castling_rights_monotonic`); sliding rays stop at
//! the first blocker, with the exact move count per ray
//! (`board::lemma_blocked_ray_moves`, `board::lemma_open_ray_moves`,
//! `board::lemma_ray_move_count`); every pawn move onto the far rank comes
//! as four promotion words (`board::lemma_promotion_completeness`); and no
//! move ever leaves the board or wraps a knight across the side files
//! (`board::lemma_edge_containment`, `board::lemma_knight_no_wrap`).

pub mod board;
pub mod castling_rights;
pub mod errors;
pub mod geometry;
pub mod moves;
pub mod notation;
pub mod piece;
pub mod utils;
