use chess_core::castling_rights::CastlingRights;
use chess_core::errors::{FenError, MoveError, SquareParsingError, UndoMoveError};
use chess_core::moves::{Move, MoveRecord};
use chess_core::notation::{process_line, process_move, repr_move};
use chess_core::piece::Piece;
use chess_core::utils::{get_file_letter, get_file_number, square_to_coods, string_to_square};
use chess_core::{moves, piece};

fn encode(departure: u16, target: u16, flags: u16) -> u16 {
    departure | target << 6 | flags
}

#[test]
fn move_codec_round_trip() {
    for &(d, t) in &[(0u16, 63u16), (12, 28), (35, 36), (63, 0)] {
        for &flag in &[
            0u16,
            moves::EN_PASSANT,
            moves::DOUBLE_FORWARD_PAWN_MOVE,
            moves::PROMOTE_TO_KNIGHT,
            moves::PROMOTE_TO_BISHOP,
            moves::PROMOTE_TO_ROOK,
            moves::PROMOTE_TO_QUEEN,
        ] {
            let m = Move::new(d, t) | flag;
            assert_eq!(Move::departure_square(m), d as u8);
            assert_eq!(Move::target_square(m), t as u8);
        }
    }
}

#[test]
fn move_codec_flags() {
    let m = Move::new(12, 28);
    assert!(!Move::is_en_passant(m));
    assert!(!Move::is_promotion(m));
    assert!(!Move::is_castling(m));
    assert!(!Move::is_double_forward_pawn_move(m));

    let ep = m | moves::EN_PASSANT;
    assert!(Move::is_en_passant(ep));
    assert!(!Move::is_promotion(ep));
    assert!(!Move::is_castling(ep));

    let dbl = Move::new(8, 24) | moves::DOUBLE_FORWARD_PAWN_MOVE;
    assert!(Move::is_double_forward_pawn_move(dbl));
    assert!(!Move::is_promotion(dbl));
    assert!(!Move::is_castling(dbl));
    assert!(!Move::is_en_passant(dbl));

    assert!(Move::is_short_castling(moves::SHORT_CASTLE));
    assert!(Move::is_long_castling(moves::LONG_CASTLE));
    assert!(Move::is_castling(moves::SHORT_CASTLE));
    assert!(Move::is_castling(moves::LONG_CASTLE));
    assert!(!Move::is_short_castling(moves::LONG_CASTLE));
    assert!(!Move::is_long_castling(moves::SHORT_CASTLE));
    assert!(Move::special_one(moves::SHORT_CASTLE));
    assert!(Move::special_two(moves::LONG_CASTLE));
}

#[test]
fn promotions_are_never_castles() {
    for &flag in &[
        moves::PROMOTE_TO_KNIGHT,
        moves::PROMOTE_TO_BISHOP,
        moves::PROMOTE_TO_ROOK,
        moves::PROMOTE_TO_QUEEN,
    ] {
        let m = Move::new(48, 56) | flag;
        assert!(Move::is_promotion(m));
        assert!(!Move::is_castling(m));
        assert!(!Move::is_short_castling(m));
        assert!(!Move::is_long_castling(m));
        assert_eq!(Move::promotion_type(m), flag);
    }
}

#[test]
fn move_record_keeps_fields() {
    let rec = MoveRecord::new(1234, 17);
    assert_eq!(rec.v_move, 1234);
    assert_eq!(rec.piece_on_target_square, 17);
}

#[test]
fn piece_codec() {
    let wq = piece::WHITE | piece::QUEEN;
    let bp = piece::BLACK | piece::PAWN;
    assert_eq!(Piece::colour(wq), piece::WHITE);
    assert_eq!(Piece::colour(bp), piece::BLACK);
    assert_eq!(Piece::piece_type(wq), piece::QUEEN);
    assert_eq!(Piece::piece_type(bp), piece::PAWN);
    assert!(Piece::colour_bool(wq));
    assert!(!Piece::colour_bool(bp));
    assert!(Piece::is_colour(wq, piece::WHITE));
    assert!(!Piece::is_colour(wq, piece::BLACK));
    assert!(Piece::is_colour_bool(wq, true));
    assert!(Piece::is_colour_bool(bp, false));
    assert!(!Piece::is_colour_bool(piece::NONE, true));
    assert!(!Piece::is_colour_bool(piece::NONE, false));
    assert!(Piece::is_type(wq, piece::QUEEN));
    assert!(!Piece::is_type(wq, piece::KING));

    assert!(Piece::is_sliding_piece(piece::WHITE | piece::BISHOP));
    assert!(Piece::is_sliding_piece(piece::BLACK | piece::ROOK));
    assert!(Piece::is_sliding_piece(wq));
    assert!(!Piece::is_sliding_piece(piece::WHITE | piece::KNIGHT));
    assert!(!Piece::is_sliding_piece(piece::WHITE | piece::KING));
    assert!(!Piece::is_sliding_piece(bp));
    assert!(!Piece::is_sliding_piece(piece::NONE));
}

#[test]
fn castling_rights_codec() {
    let full: u8 = 0b0011_0011;
    assert_eq!(CastlingRights::white_rights(full), 0b0011);
    assert_eq!(CastlingRights::black_rights(full), 0b0011);
    assert_eq!(CastlingRights::rights(full, true), 0b0011);
    assert_eq!(CastlingRights::rights(full, false), 0b0011);
    assert!(CastlingRights::can_short_castle(0b01));
    assert!(!CastlingRights::can_short_castle(0b10));
    assert!(CastlingRights::can_long_castle(0b10));
    assert!(!CastlingRights::can_long_castle(0b01));

    let white_cleared = CastlingRights::clear_rights(full, true);
    assert_eq!(CastlingRights::rights(white_cleared, true), 0);
    assert_eq!(CastlingRights::rights(white_cleared, false), 0b0011);
    // clearing is idempotent
    assert_eq!(CastlingRights::clear_rights(white_cleared, true), white_cleared);

    let black_cleared = CastlingRights::clear_rights(full, false);
    assert_eq!(CastlingRights::rights(black_cleared, false), 0);
    assert_eq!(CastlingRights::rights(black_cleared, true), 0b0011);
}

#[test]
fn square_notation() {
    assert_eq!(string_to_square("e4"), Ok(28));
    assert_eq!(string_to_square("a1"), Ok(0));
    assert_eq!(string_to_square("h8"), Ok(63));
    assert_eq!(string_to_square("e"), Err(SquareParsingError::NotEnoughParts));
    assert_eq!(string_to_square(""), Err(SquareParsingError::NotEnoughParts));
    assert_eq!(string_to_square("x4"), Err(SquareParsingError::BadFile('x')));
    assert_eq!(string_to_square("e0"), Err(SquareParsingError::BadRank('0')));
    assert_eq!(string_to_square("e9"), Err(SquareParsingError::BadRank('9')));
}

#[test]
fn file_letters_and_numbers() {
    assert_eq!(get_file_letter(0), Ok('a'));
    assert_eq!(get_file_letter(7), Ok('h'));
    assert_eq!(get_file_letter(8), Err(MoveError::InvalidFile));
    assert_eq!(get_file_number('a'), Ok(0));
    assert_eq!(get_file_number('h'), Ok(7));
    assert_eq!(get_file_number('i'), Err(SquareParsingError::BadFile('i')));
}

#[test]
fn square_to_coods_splits() {
    assert_eq!(square_to_coods(0), (0, 0));
    assert_eq!(square_to_coods(28), (4, 3));
    assert_eq!(square_to_coods(63), (7, 7));
}

#[test]
fn notation_round_trip() {
    let m = process_move("e2e4").unwrap();
    assert_eq!(m, encode(12, 28, 0));
    assert_eq!(repr_move(m), "e2e4");

    let ep = process_move("e5d6*").unwrap();
    assert_eq!(ep, encode(36, 43, moves::EN_PASSANT));
    assert_eq!(repr_move(ep), "e5d6*");

    assert_eq!(process_move("O-O"), Ok(moves::SHORT_CASTLE));
    assert_eq!(process_move("o-o"), Ok(moves::SHORT_CASTLE));
    assert_eq!(process_move("0-0-0"), Ok(moves::LONG_CASTLE));
    assert_eq!(repr_move(moves::SHORT_CASTLE), "O-O");
    assert_eq!(repr_move(moves::LONG_CASTLE), "O-O-O");

    assert_eq!(process_move("i2e4"), Err(MoveError::InvalidFile));
    assert_eq!(process_move("e9e4"), Err(MoveError::InvalidRank));
    assert_eq!(process_move("e2x4"), Err(MoveError::InvalidFile));
    assert_eq!(process_move(""), Err(MoveError::InvalidFile));
}

#[test]
fn error_messages() {
    assert_eq!(
        SquareParsingError::NotEnoughParts.message(),
        "not enough parts in square notation"
    );
    assert_eq!(UndoMoveError::EmptyStack.message(), "cannot undo move because stack is empty");
    assert_eq!(MoveError::InvalidMove.message(), "invalid move");
    assert_eq!(FenError::UnknownPiece('z').message(), "unknown piece in FEN string");
}

#[test]
fn command_lines_split_into_command_and_arguments() {
    let (cmd, args) = process_line("show".to_string());
    assert_eq!(cmd, "show");
    assert!(args.is_none());

    let (cmd, args) = process_line("play e2e4".to_string());
    assert_eq!(cmd, "play");
    assert_eq!(args, Some(vec!["e2e4".to_string()]));

    let (cmd, args) = process_line("play   e2e4   e7e5 ".to_string());
    assert_eq!(cmd, "play");
    assert_eq!(args, Some(vec!["e2e4".to_string(), "e7e5".to_string()]));

    // a leading blank splits there: the command is empty and the word
    // becomes the first argument
    let (cmd, args) = process_line("  undo".to_string());
    assert_eq!(cmd, "");
    assert_eq!(args, Some(vec!["undo".to_string()]));

    let (cmd, args) = process_line(" show ".to_string());
    assert_eq!(cmd, "");
    assert_eq!(args, Some(vec!["show".to_string()]));

    let (cmd, args) = process_line("".to_string());
    assert_eq!(cmd, "");
    assert!(args.is_none());
}
