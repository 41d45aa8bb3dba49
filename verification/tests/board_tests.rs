use chess_core::board::Board;
use chess_core::errors::{FenError, UndoMoveError};
use chess_core::moves::{self, Move};
use chess_core::piece::{self, Piece};

fn encode(departure: u16, target: u16, flags: u16) -> u16 {
    departure | target << 6 | flags
}

fn pieces_of(board: &Board) -> Vec<u8> {
    let mut v = Vec::new();
    let mut i = 0;
    while i < 64 {
        v.push(board.piece_at(i));
        i += 1;
    }
    v
}

#[test]
fn initial_position_has_twenty_moves() {
    let board = Board::new();
    let moves_list = board.generate_moves();
    assert_eq!(moves_list.len(), 20);

    // sixteen pawn moves: eight single and eight double advances
    let singles = moves_list
        .iter()
        .filter(|&&m| !Move::is_double_forward_pawn_move(m) && Move::departure_square(m) >= 8)
        .count();
    let doubles = moves_list.iter().filter(|&&m| Move::is_double_forward_pawn_move(m)).count();
    let knights = moves_list.iter().filter(|&&m| Move::departure_square(m) < 8).count();
    assert_eq!(singles, 8);
    assert_eq!(doubles, 8);
    assert_eq!(knights, 4);
    assert!(!moves_list.contains(&moves::SHORT_CASTLE));
    assert!(!moves_list.contains(&moves::LONG_CASTLE));
}

#[test]
fn make_then_undo_restores_position() {
    let mut board = Board::new();
    let moves_list = board.generate_moves();
    for &m in &moves_list {
        let pieces_before = pieces_of(&board);
        let colour_before = board.colour_to_move;
        let ep_before = board.en_passant_square;

        board.make_move(m);
        assert_eq!(board.colour_to_move, !colour_before);
        board.undo_move().unwrap();

        assert_eq!(pieces_of(&board), pieces_before);
        assert_eq!(board.colour_to_move, colour_before);
        assert_eq!(board.en_passant_square, ep_before);
        assert_eq!(board.generate_moves(), moves_list);
    }
}

#[test]
fn undo_with_empty_history_is_an_error() {
    let mut board = Board::new();
    assert_eq!(board.undo_move(), Err(UndoMoveError::EmptyStack));
    assert!(board.colour_to_move);
}

#[test]
fn rook_rays_on_open_board() {
    // a rook alone on d5 reaches the edge along all four rays
    let board = Board::from_fen("8/8/8/3R4/8/8/8/8 w - - 0 1").unwrap();
    let moves_list = board.generate_moves();
    assert_eq!(moves_list.len(), 14);
    assert!(moves_list.iter().all(|&m| Move::departure_square(m) == 35));
}

#[test]
fn rook_ray_blocked_by_friendly_piece() {
    // a friendly pawn on g5 sits three steps east of the rook on d5, so
    // the east ray shrinks from four moves to two
    let board = Board::from_fen("8/8/8/3R2P1/8/8/8/8 w - - 0 1").unwrap();
    let moves_list = board.generate_moves();
    let rook_moves = moves_list.iter().filter(|&&m| Move::departure_square(m) == 35).count();
    assert_eq!(rook_moves, 12);
    assert!(!moves_list.contains(&encode(35, 38, 0)));
    assert!(moves_list.contains(&encode(35, 37, 0)));
}

#[test]
fn rook_ray_blocked_by_enemy_piece() {
    // an enemy pawn on g5 truncates the east ray to three moves, the
    // capture included
    let board = Board::from_fen("8/8/8/3R2p1/8/8/8/8 w - - 0 1").unwrap();
    let moves_list = board.generate_moves();
    let rook_moves = moves_list.iter().filter(|&&m| Move::departure_square(m) == 35).count();
    assert_eq!(rook_moves, 13);
    assert!(moves_list.contains(&encode(35, 38, 0)));
    assert!(!moves_list.contains(&encode(35, 39, 0)));
}

#[test]
fn pawn_promotion_offers_four_kinds() {
    let board = Board::from_fen("8/P7/8/8/8/8/8/8 w - - 0 1").unwrap();
    let moves_list = board.generate_moves();
    assert_eq!(moves_list.len(), 4);
    for &m in &moves_list {
        assert!(Move::is_promotion(m));
        assert_eq!(Move::departure_square(m), 48);
        assert_eq!(Move::target_square(m), 56);
    }
    let mut kinds: Vec<u16> = moves_list.iter().map(|&m| Move::promotion_type(m)).collect();
    kinds.sort();
    let mut expected = vec![
        moves::PROMOTE_TO_KNIGHT,
        moves::PROMOTE_TO_BISHOP,
        moves::PROMOTE_TO_ROOK,
        moves::PROMOTE_TO_QUEEN,
    ];
    expected.sort();
    assert_eq!(kinds, expected);
}

#[test]
fn promotion_applies_and_undoes() {
    let mut board = Board::from_fen("8/P7/8/8/8/8/8/8 w - - 0 1").unwrap();
    let m = encode(48, 56, 0) | moves::PROMOTE_TO_QUEEN;
    assert!(board.generate_moves().contains(&m));
    board.make_move(m);
    assert_eq!(board.piece_at(56), piece::WHITE | piece::QUEEN);
    assert_eq!(board.piece_at(48), piece::NONE);
    assert!(!board.colour_to_move);
    board.undo_move().unwrap();
    assert_eq!(board.piece_at(48), piece::WHITE | piece::PAWN);
    assert_eq!(board.piece_at(56), piece::NONE);
    assert!(board.colour_to_move);
}

#[test]
fn capture_promotion_restores_captured_piece_on_undo() {
    let mut board = Board::from_fen("1r6/P7/8/8/8/8/8/8 w - - 0 1").unwrap();
    let m = encode(48, 57, 0) | moves::PROMOTE_TO_KNIGHT;
    assert!(board.generate_moves().contains(&m));
    board.make_move(m);
    assert_eq!(board.piece_at(57), piece::WHITE | piece::KNIGHT);
    board.undo_move().unwrap();
    assert_eq!(board.piece_at(57), piece::BLACK | piece::ROOK);
    assert_eq!(board.piece_at(48), piece::WHITE | piece::PAWN);
}

#[test]
fn castling_offered_and_forfeited() {
    let mut board = Board::from_fen("r3k2r/8/8/8/8/8/8/R3K2R w KQkq - 0 1").unwrap();
    let white_moves = board.generate_moves();
    assert!(white_moves.contains(&moves::SHORT_CASTLE));
    assert!(white_moves.contains(&moves::LONG_CASTLE));

    // the king steps aside and back; both castles are gone for good
    let king_out = encode(4, 3, 0);
    assert!(white_moves.contains(&king_out));
    board.make_move(king_out);
    let black_reply = encode(56, 48, 0);
    assert!(board.generate_moves().contains(&black_reply));
    board.make_move(black_reply);
    let white_again = board.generate_moves();
    assert!(!white_again.contains(&moves::SHORT_CASTLE));
    assert!(!white_again.contains(&moves::LONG_CASTLE));

    // undoing both moves restores the rights
    board.undo_move().unwrap();
    board.undo_move().unwrap();
    let restored = board.generate_moves();
    assert!(restored.contains(&moves::SHORT_CASTLE));
    assert!(restored.contains(&moves::LONG_CASTLE));
}

#[test]
fn castling_blocked_by_intervening_piece() {
    let board = Board::from_fen("8/8/8/8/8/8/8/R2QK2R w KQ - 0 1").unwrap();
    let moves_list = board.generate_moves();
    assert!(moves_list.contains(&moves::SHORT_CASTLE));
    assert!(!moves_list.contains(&moves::LONG_CASTLE));
}

#[test]
fn short_castle_moves_king_and_rook() {
    let mut board = Board::from_fen("8/8/8/8/8/8/8/4K2R w K - 0 1").unwrap();
    let pieces_before = pieces_of(&board);
    board.make_move(moves::SHORT_CASTLE);
    assert_eq!(board.piece_at(6), piece::WHITE | piece::KING);
    assert_eq!(board.piece_at(5), piece::WHITE | piece::ROOK);
    assert_eq!(board.piece_at(4), piece::NONE);
    assert_eq!(board.piece_at(7), piece::NONE);
    assert!(!board.colour_to_move);
    assert!(!board.generate_moves().contains(&moves::SHORT_CASTLE));
    board.undo_move().unwrap();
    assert_eq!(pieces_of(&board), pieces_before);
    assert!(board.generate_moves().contains(&moves::SHORT_CASTLE));
}

#[test]
fn long_castle_moves_king_and_rook() {
    let mut board = Board::from_fen("r3k3/8/8/8/8/8/8/8 b q - 0 1").unwrap();
    board.make_move(moves::LONG_CASTLE);
    assert_eq!(board.piece_at(58), piece::BLACK | piece::KING);
    assert_eq!(board.piece_at(59), piece::BLACK | piece::ROOK);
    assert_eq!(board.piece_at(60), piece::NONE);
    assert_eq!(board.piece_at(56), piece::NONE);
    board.undo_move().unwrap();
    assert_eq!(board.piece_at(60), piece::BLACK | piece::KING);
    assert_eq!(board.piece_at(56), piece::BLACK | piece::ROOK);
}

#[test]
fn double_advance_sets_en_passant_target() {
    let mut board = Board::new();
    let double = encode(12, 28, 0) | moves::DOUBLE_FORWARD_PAWN_MOVE;
    assert!(board.generate_moves().contains(&double));
    board.make_move(double);
    assert_eq!(board.en_passant_square, Some(20));
    // any following quiet move clears the target again
    let reply = encode(57, 42, 0);
    assert!(board.generate_moves().contains(&reply));
    board.make_move(reply);
    assert_eq!(board.en_passant_square, None);
}

#[test]
fn en_passant_capture_is_offered_with_its_flag() {
    let mut board = Board::from_fen("8/3p4/8/4P3/8/8/8/8 b - - 0 1").unwrap();
    let double = encode(51, 35, 0) | moves::DOUBLE_FORWARD_PAWN_MOVE;
    assert!(board.generate_moves().contains(&double));
    board.make_move(double);
    assert_eq!(board.en_passant_square, Some(43));
    let white_moves = board.generate_moves();
    let ep_capture = encode(36, 43, 0) | moves::EN_PASSANT;
    assert!(white_moves.contains(&ep_capture));
    assert!(white_moves.iter().filter(|&&m| Move::is_en_passant(m)).count() == 1);
}

#[test]
fn en_passant_capture_removes_the_bypassed_pawn() {
    let mut board = Board::from_fen("8/3p4/8/4P3/8/8/8/8 b - - 0 1").unwrap();
    let double = encode(51, 35, 0) | moves::DOUBLE_FORWARD_PAWN_MOVE;
    board.make_move(double);
    let ep_capture = encode(36, 43, 0) | moves::EN_PASSANT;
    assert!(board.generate_moves().contains(&ep_capture));

    board.make_move(ep_capture);
    // the capturing pawn lands on the stored target square and the
    // captured pawn leaves its actual square, one rank behind it
    assert_eq!(board.piece_at(43), piece::WHITE | piece::PAWN);
    assert_eq!(board.piece_at(36), piece::NONE);
    assert_eq!(board.piece_at(35), piece::NONE);
    assert!(!board.colour_to_move);
    assert_eq!(board.en_passant_square, None);

    // undoing restores the captured pawn, the capturer, and the target
    board.undo_move().unwrap();
    assert_eq!(board.piece_at(35), piece::BLACK | piece::PAWN);
    assert_eq!(board.piece_at(36), piece::WHITE | piece::PAWN);
    assert_eq!(board.piece_at(43), piece::NONE);
    assert!(board.colour_to_move);
    assert_eq!(board.en_passant_square, Some(43));
}

#[test]
fn black_en_passant_capture_removes_the_bypassed_pawn() {
    let mut board = Board::from_fen("8/8/8/8/4p3/8/3P4/8 w - - 0 1").unwrap();
    let double = encode(11, 27, 0) | moves::DOUBLE_FORWARD_PAWN_MOVE;
    board.make_move(double);
    assert_eq!(board.en_passant_square, Some(19));
    let ep_capture = encode(28, 19, 0) | moves::EN_PASSANT;
    assert!(board.generate_moves().contains(&ep_capture));

    board.make_move(ep_capture);
    assert_eq!(board.piece_at(19), piece::BLACK | piece::PAWN);
    assert_eq!(board.piece_at(28), piece::NONE);
    assert_eq!(board.piece_at(27), piece::NONE);

    board.undo_move().unwrap();
    assert_eq!(board.piece_at(27), piece::WHITE | piece::PAWN);
    assert_eq!(board.piece_at(28), piece::BLACK | piece::PAWN);
    assert_eq!(board.piece_at(19), piece::NONE);
}

#[test]
fn knight_moves_do_not_wrap_around_the_board_edge() {
    let board = Board::from_fen("8/8/8/8/7N/8/8/8 w - - 0 1").unwrap();
    let mut targets: Vec<u8> =
        board.generate_moves().iter().map(|&m| Move::target_square(m)).collect();
    targets.sort();
    assert_eq!(targets, vec![14, 21, 37, 46]);
}

#[test]
fn all_generated_squares_stay_on_the_board() {
    let board = Board::new();
    for &m in &board.generate_moves() {
        assert!(Move::departure_square(m) < 64);
        assert!(Move::target_square(m) < 64);
    }
}

#[test]
fn material_balance() {
    assert_eq!(Board::new().evaluate(), 0);
    let board = Board::from_fen("r7/8/8/8/8/8/8/QK6 w - - 0 1").unwrap();
    assert_eq!(board.evaluate(), 400);
    let board = Board::from_fen("rnbqkbnr/pppppppp/8/8/8/8/PPPPPPPP/RNBQKBN1 w KQkq - 0 1")
        .unwrap();
    assert_eq!(board.evaluate(), -500);
}

#[test]
fn from_fen_reads_the_initial_position() {
    let board =
        Board::from_fen("rnbqkbnr/pppppppp/8/8/8/8/PPPPPPPP/RNBQKBNR w KQkq - 0 1").unwrap();
    let fresh = Board::new();
    assert_eq!(pieces_of(&board), pieces_of(&fresh));
    assert!(board.colour_to_move);
    assert_eq!(board.en_passant_square, None);
    assert_eq!(board.generate_moves(), fresh.generate_moves());
}

#[test]
fn from_fen_reads_side_rights_and_en_passant() {
    let board = Board::from_fen("8/8/8/8/8/8/8/8 b Kq e3 12 34").unwrap();
    assert!(!board.colour_to_move);
    assert_eq!(board.en_passant_square, Some(20));
}

#[test]
fn from_fen_rejects_malformed_records() {
    assert!(matches!(Board::from_fen(""), Err(FenError::NotEnoughParts)));
    assert!(matches!(Board::from_fen("8/8/8/8/8/8/8/8 w - -"), Err(FenError::NotEnoughParts)));
    assert!(matches!(Board::from_fen("8/8/8/8/8/8/8/8 x - - 0 1"), Err(FenError::NoSuchSide)));
    assert!(matches!(
        Board::from_fen("8/8/8/8/8/8/8/8 w X - 0 1"),
        Err(FenError::BadCastlingCharacter('X'))
    ));
    assert!(matches!(
        Board::from_fen("z7/8/8/8/8/8/8/8 w - - 0 1"),
        Err(FenError::UnknownPiece('z'))
    ));
    assert!(matches!(Board::from_fen("8/8/8/8/8/8/8 w - - 0 1"), Err(FenError::BadPlacement)));
    assert!(matches!(Board::from_fen("9/8/8/8/8/8/8/8 w - - 0 1"), Err(FenError::BadPlacement)));
    assert!(matches!(
        Board::from_fen("ppppppppp/8/8/8/8/8/8/8 w - - 0 1"),
        Err(FenError::TooManyPieces)
    ));
    assert!(matches!(Board::from_fen("8/8/8/8/8/8/8/8 w - e9 0 1"), Err(FenError::BadEnPassant)));
    assert!(matches!(Board::from_fen("8/8/8/8/8/8/8/8 w - - x 1"), Err(FenError::BadHalfmove)));
    assert!(matches!(Board::from_fen("8/8/8/8/8/8/8/8 w - - 0 y"), Err(FenError::BadFullmove)));
}

#[test]
fn stringify_draws_the_board() {
    let board = Board::from_fen("8/8/8/8/8/8/8/4K3 w - - 0 1").unwrap();
    let dashes = "-".repeat(32);
    let empty_row = format!("{}\n| {}", dashes, "  | ".repeat(8));
    let king_row = format!("{}\n|   |   |   |   | K |   |   |   | ", dashes);
    let expected = format!(
        "{e}\n{e}\n{e}\n{e}\n{e}\n{e}\n{e}\n{k}\n{d}",
        e = empty_row,
        k = king_row,
        d = dashes
    );
    assert_eq!(board.stringify(true), expected);

    // from black's perspective the king appears mirrored on the first row
    let flipped = board.stringify(false);
    assert!(flipped.starts_with(&format!("{}\n|   |   |   | K |", dashes)));
}

#[test]
fn default_board_is_empty_with_full_rights() {
    let board = Board::default();
    for i in 0..64 {
        assert_eq!(board.piece_at(i), piece::NONE);
    }
    assert!(board.colour_to_move);
    assert_eq!(board.en_passant_square, None);
    // both castles are gated on empty squares around the king slots, and
    // the rights are all present on a fresh board
    let moves_list = board.generate_moves();
    assert!(moves_list.contains(&moves::SHORT_CASTLE));
    assert!(moves_list.contains(&moves::LONG_CASTLE));
}

#[test]
fn pawn_capture_diagonals() {
    let board = Board::from_fen("8/8/8/3p1p2/4P3/8/8/8 w - - 0 1").unwrap();
    let moves_list = board.generate_moves();
    // e4 pawn: forward push plus the two diagonal captures
    assert!(moves_list.contains(&encode(28, 36, 0)));
    assert!(moves_list.contains(&encode(28, 35, 0)));
    assert!(moves_list.contains(&encode(28, 37, 0)));
    assert_eq!(moves_list.len(), 3);
}

#[test]
fn blocked_pawn_has_no_forward_moves() {
    let board = Board::from_fen("8/8/8/8/4p3/4P3/8/8 w - - 0 1").unwrap();
    assert_eq!(board.generate_moves().len(), 0);
}

#[test]
fn piece_values_follow_the_material_table() {
    // one piece of each kind against an empty board
    for (letter, value) in [("P", 100), ("N", 300), ("B", 300), ("R", 500), ("Q", 900), ("K", 0)]
    {
        let fen = format!("8/8/8/8/3{}4/8/8/8 w - - 0 1", letter);
        let board = Board::from_fen(&fen).unwrap();
        assert_eq!(board.evaluate(), value);
    }
}

#[test]
fn double_advance_needs_both_squares_empty() {
    // a piece on the fourth rank blocks the double advance but not the single
    let board = Board::from_fen("8/8/8/8/n7/8/P7/8 w - - 0 1").unwrap();
    let moves_list = board.generate_moves();
    assert!(moves_list.contains(&encode(8, 16, 0)));
    assert!(!moves_list.iter().any(|&m| Move::is_double_forward_pawn_move(m)));
}

#[test]
fn double_advance_only_from_the_start_rank() {
    // a black pawn off its start rank gets a single step only
    let board = Board::from_fen("8/8/7p/8/8/8/8/8 b - - 0 1").unwrap();
    let moves_list = board.generate_moves();
    assert_eq!(moves_list.len(), 1);
    assert!(moves_list.contains(&encode(47, 39, 0)));
}
