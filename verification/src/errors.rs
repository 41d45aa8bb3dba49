use vstd::prelude::*;

verus! {

use vstd::string::StringExecFns;

/// Failures of square-notation parsing.
#[derive(Debug, PartialEq, Eq, Structural)]
pub enum SquareParsingError {
    NotEnoughParts,
    BadFile(char),
    BadRank(char),
}

/// Failure of undoing a move: the history stack was empty.
#[derive(Debug, PartialEq, Eq, Structural)]
pub enum UndoMoveError {
    EmptyStack,
}

/// Failures of move-notation handling.
#[derive(Debug, PartialEq, Eq, Structural)]
pub enum MoveError {
    InvalidMove,
    InvalidFile,
    InvalidRank,
}

/// Failures of position construction; every malformed field is surfaced as
/// a tagged failure, never silently defaulted.
#[derive(Debug, PartialEq, Eq, Structural)]
pub enum FenError {
    NotEnoughParts,
    TooManyPieces,
    UnknownPiece(char),
    BadPlacement,
    NoSuchSide,
    BadCastlingCharacter(char),
    BadEnPassant,
    BadHalfmove,
    BadFullmove,
}

impl SquareParsingError {
    /// A short description of the failure.
    pub fn message(&self) -> (r: String)
        ensures
            match self {
                SquareParsingError::NotEnoughParts => r@ == "not enough parts in square notation"@,
                SquareParsingError::BadFile(_) => r@ == "bad file while parsing square"@,
                SquareParsingError::BadRank(_) => r@ == "bad rank while parsing square"@,
            },
    {
        match self {
            SquareParsingError::NotEnoughParts => String::from_str(
                "not enough parts in square notation",
            ),
            SquareParsingError::BadFile(_) => String::from_str("bad file while parsing square"),
            SquareParsingError::BadRank(_) => String::from_str("bad rank while parsing square"),
        }
    }
}

impl UndoMoveError {
    /// A short description of the failure.
    pub fn message(&self) -> (r: String)
        ensures
            r@ == "cannot undo move because stack is empty"@,
    {
        String::from_str("cannot undo move because stack is empty")
    }
}

impl MoveError {
    /// A short description of the failure.
    pub fn message(&self) -> (r: String)
        ensures
            match self {
                MoveError::InvalidMove => r@ == "invalid move"@,
                MoveError::InvalidFile => r@ == "invalid file"@,
                MoveError::InvalidRank => r@ == "invalid rank"@,
            },
    {
        match self {
            MoveError::InvalidMove => String::from_str("invalid move"),
            MoveError::InvalidFile => String::from_str("invalid file"),
            MoveError::InvalidRank => String::from_str("invalid rank"),
        }
    }
}

impl FenError {
    /// A short description of the failure.
    pub fn message(&self) -> (r: String)
        ensures
            match self {
                FenError::NotEnoughParts => r@ == "not enough parts in FEN string"@,
                FenError::TooManyPieces => r@ == "too many pieces in FEN string"@,
                FenError::UnknownPiece(_) => r@ == "unknown piece in FEN string"@,
                FenError::BadPlacement => r@ == "bad placement in FEN string"@,
                FenError::NoSuchSide => r@ == "no such side in FEN string"@,
                FenError::BadCastlingCharacter(_) => r@ == "bad castling character in FEN string"@,
                FenError::BadEnPassant => r@ == "bad en passant square in FEN string"@,
                FenError::BadHalfmove => r@ == "bad half move counter in FEN string"@,
                FenError::BadFullmove => r@ == "bad full move counter in FEN string"@,
            },
    {
        match self {
            FenError::NotEnoughParts => String::from_str("not enough parts in FEN string"),
            FenError::TooManyPieces => String::from_str("too many pieces in FEN string"),
            FenError::UnknownPiece(_) => String::from_str("unknown piece in FEN string"),
            FenError::BadPlacement => String::from_str("bad placement in FEN string"),
            FenError::NoSuchSide => String::from_str("no such side in FEN string"),
            FenError::BadCastlingCharacter(_) => String::from_str(
                "bad castling character in FEN string",
            ),
            FenError::BadEnPassant => String::from_str("bad en passant square in FEN string"),
            FenError::BadHalfmove => String::from_str("bad half move counter in FEN string"),
            FenError::BadFullmove => String::from_str("bad full move counter in FEN string"),
        }
    }
}

} // verus!
