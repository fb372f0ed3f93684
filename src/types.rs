use vstd::prelude::*;

verus! {

/// The side a piece belongs to.
#[derive(Clone, Copy, Debug, PartialEq, Eq, Structural)]
pub enum Color {
    White,
    Black,
}

/// The kinds of chess pieces.
#[derive(Clone, Copy, Debug, PartialEq, Eq, Structural)]
pub enum PieceType {
    Pawn,
    Knight,
    Bishop,
    Rook,
    Queen,
    King,
}

/// A piece of a given kind and side.
#[derive(Clone, Copy, Debug, PartialEq, Eq, Structural)]
pub struct Piece {
    pub piece_type: PieceType,
    pub color: Color,
}

/// Why a position in FEN notation could not be read.
#[derive(Clone, Copy, Debug, PartialEq, Eq, Structural)]
pub enum FenError {
    InvalidFormat,
    InvalidPiecePlacement,
    InvalidActiveColor,
    InvalidCastlingRights,
    InvalidPiece,
    InvalidHalfMove,
    InvalidFullMove,
}

/// The kind a FEN piece letter names, in either case.
pub open spec fn kind_of_letter(c: char) -> Option<PieceType> {
    if c == 'p' || c == 'P' {
        Some(PieceType::Pawn)
    } else if c == 'n' || c == 'N' {
        Some(PieceType::Knight)
    } else if c == 'b' || c == 'B' {
        Some(PieceType::Bishop)
    } else if c == 'r' || c == 'R' {
        Some(PieceType::Rook)
    } else if c == 'q' || c == 'Q' {
        Some(PieceType::Queen)
    } else if c == 'k' || c == 'K' {
        Some(PieceType::King)
    } else {
        None
    }
}

impl Piece {
    /// The piece a FEN letter stands for: upper case for white, lower case
    /// for black; `InvalidPiece` for any other character.
    pub fn from_fen_char(ch: char) -> (r: Result<Piece, FenError>)
        ensures
            kind_of_letter(ch) is None <==> r == Err::<Piece, FenError>(FenError::InvalidPiece),
            r matches Ok(p) ==> Some(p.piece_type) == kind_of_letter(ch) && (p.color
                == Color::White <==> 'A' <= ch <= 'Z'),
    {
        let color = if 'A' <= ch && ch <= 'Z' {
            Color::White
        } else {
            Color::Black
        };
        let piece_type = match ch {
            'p' | 'P' => PieceType::Pawn,
            'n' | 'N' => PieceType::Knight,
            'b' | 'B' => PieceType::Bishop,
            'r' | 'R' => PieceType::Rook,
            'q' | 'Q' => PieceType::Queen,
            'k' | 'K' => PieceType::King,
            _ => {
                return Err(FenError::InvalidPiece);
            },
        };
        Ok(Piece { piece_type, color })
    }
}

/// Which castling moves each side still may make.
#[derive(Clone, Copy, Debug, PartialEq, Eq, Structural)]
pub struct CastlingRights {
    pub white_kingside: bool,
    pub white_queenside: bool,
    pub black_kingside: bool,
    pub black_queenside: bool,
}

impl CastlingRights {
    /// Every castling right granted, as at the start of a game.
    pub fn all() -> (r: CastlingRights)
        ensures
            r.white_kingside && r.white_queenside && r.black_kingside && r.black_queenside,
    {
        CastlingRights {
            white_kingside: true,
            white_queenside: true,
            black_kingside: true,
            black_queenside: true,
        }
    }
}

} // verus!
