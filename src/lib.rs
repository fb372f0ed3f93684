//! Precomputed attack tables for the pieces of an 8x8 board.
//!
//! Sliding pieces (rook, bishop) are served through multiplicative
//! perfect hashing of the relevant occupancy; leapers (knight, king, pawn)
//! through fixed per-square tables.
use vstd::prelude::*;

pub mod square;
pub mod bitboard;
pub mod direction;
pub mod types;
pub mod geometry;
pub mod subsets;
pub mod magic;
pub mod attacks;
pub mod leapers;
pub mod board;

pub use square::Square;
pub use bitboard::Bitboard;
pub use direction::Direction;
pub use attacks::AttackTable;
