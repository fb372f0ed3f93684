use vstd::prelude::*;
use crate::bitboard::{lemma_squares_zero, Bitboard};
use crate::square::Square;
use crate::types::{CastlingRights, Color, Piece, PieceType};

verus! {

/// Position of a piece's bitboard among the twelve: six kinds per side.
pub open spec fn slot_of(piece: Piece) -> int {
    (match piece.color {
        Color::White => 0int,
        Color::Black => 6int,
    }) + match piece.piece_type {
        PieceType::Pawn => 0int,
        PieceType::Knight => 1int,
        PieceType::Bishop => 2int,
        PieceType::Rook => 3int,
        PieceType::Queen => 4int,
        PieceType::King => 5int,
    }
}

fn slot(piece: Piece) -> (r: usize)
    ensures
        r == slot_of(piece),
        r < 12,
{
    let side: usize = match piece.color {
        Color::White => 0,
        Color::Black => 6,
    };
    let kind: usize = match piece.piece_type {
        PieceType::Pawn => 0,
        PieceType::Knight => 1,
        PieceType::Bishop => 2,
        PieceType::Rook => 3,
        PieceType::Queen => 4,
        PieceType::King => 5,
    };
    side + kind
}

fn color_slot(color: Color) -> (r: usize)
    ensures
        r < 2,
        r == (match color {
            Color::White => 0int,
            Color::Black => 1int,
        }),
{
    match color {
        Color::White => 0,
        Color::Black => 1,
    }
}

/// A copy of `v` with entry `i` replaced by `x`.
fn with_entry(v: &Vec<Bitboard>, i: usize, x: Bitboard) -> (r: Vec<Bitboard>)
    requires
        i < v.len(),
    ensures
        r@ == v@.update(i as int, x),
{
    let mut r: Vec<Bitboard> = Vec::new();
    let mut k: usize = 0;
    while k < v.len()
        invariant
            k <= v.len(),
            i < v.len(),
            r@ == v@.update(i as int, x).take(k as int),
        decreases v.len() - k,
    {
        if k == i {
            r.push(x);
        } else {
            r.push(v[k]);
        }
        assert(v@.update(i as int, x).take(k + 1) =~= r@);
        k = k + 1;
    }
    assert(v@.update(i as int, x).take(k as int) =~= v@.update(i as int, x));
    r
}

/// Squares of one side's pieces, from its six piece bitboards.
pub open spec fn side_union(boards: Seq<Bitboard>, base: int) -> Set<int> {
    boards[base]@.union(boards[base + 1]@).union(boards[base + 2]@).union(boards[base + 3]@).union(
        boards[base + 4]@,
    ).union(boards[base + 5]@)
}

/// Piece placement and game state of a position.
pub struct Board {
    piece_bitboards: Vec<Bitboard>,
    color_bitboard: Vec<Bitboard>,
    all_pieces: Bitboard,
    side_to_move: Color,
    castling_rights: CastlingRights,
    en_passant_square: Option<Square>,
    halfmove_clock: u16,
    fullmove_number: u16,
    position_hash: u64,
}

impl Board {
    #[verifier::type_invariant]
    spec fn consistent(self) -> bool {
        &&& self.piece_bitboards.len() == 12
        &&& self.color_bitboard.len() == 2
        &&& self.color_bitboard@[0]@ == side_union(self.piece_bitboards@, 0)
        &&& self.color_bitboard@[1]@ == side_union(self.piece_bitboards@, 6)
        &&& self.all_pieces@ == self.color_bitboard@[0]@.union(self.color_bitboard@[1]@)
    }

    /// `piece` stands on square `sq`.
    pub closed spec fn holds(self, sq: int, piece: Piece) -> bool {
        self.piece_bitboards@[slot_of(piece)]@.contains(sq)
    }

    /// An empty board, white to move, every castling right, move 1.
    pub fn new() -> (r: Board)
        ensures
            forall|sq: int, p: Piece| !r.holds(sq, p),
    {
        proof {
            lemma_squares_zero();
        }
        let mut piece_bitboards: Vec<Bitboard> = Vec::new();
        let mut i: usize = 0;
        while i < 12
            invariant
                i <= 12,
                piece_bitboards.len() == i,
                forall|k: int| 0 <= k < i ==> (#[trigger] piece_bitboards@[k])@ == Set::<int>::empty(),
            decreases 12 - i,
        {
            proof {
                lemma_squares_zero();
            }
            piece_bitboards.push(Bitboard(0));
            i = i + 1;
        }
        let color_bitboard: Vec<Bitboard> = vec![Bitboard(0), Bitboard(0)];
        let ghost pb = piece_bitboards@;
        assert(side_union(pb, 0) =~= Set::<int>::empty());
        assert(side_union(pb, 6) =~= Set::<int>::empty());
        assert(Set::<int>::empty().union(Set::<int>::empty()) =~= Set::<int>::empty());
        Board {
            piece_bitboards,
            color_bitboard,
            all_pieces: Bitboard(0),
            side_to_move: Color::White,
            castling_rights: CastlingRights::all(),
            en_passant_square: None,
            halfmove_clock: 0,
            fullmove_number: 1,
            position_hash: 0,
        }
    }

    /// The piece on `square`, if any; where several were placed on one
    /// square, the first in the order white before black, then pawn,
    /// knight, bishop, rook, queen, king.
    pub fn peice_at(&self, square: Square) -> (r: Option<Piece>)
        ensures
            r is None <==> forall|p: Piece| !self.holds(square@, p),
            r matches Some(p) ==> self.holds(square@, p),
            r matches Some(p) ==> forall|q: Piece|
                slot_of(q) < slot_of(p) ==> !#[trigger] self.holds(square@, q),
    {
        proof {
            use_type_invariant(self);
        }
        if !self.all_pieces.is_set(square) {
            proof {
                assert forall|p: Piece| !self.holds(square@, p) by {
                    assert(0 <= slot_of(p) < 12);
                }
            }
            return None;
        }
        let colors: [Color; 2] = [Color::White, Color::Black];
        let kinds: [PieceType; 6] = [
            PieceType::Pawn,
            PieceType::Knight,
            PieceType::Bishop,
            PieceType::Rook,
            PieceType::Queen,
            PieceType::King,
        ];
        let mut c: usize = 0;
        while c < 2
            invariant
                c <= 2,
                self.piece_bitboards.len() == 12,
                self.color_bitboard.len() == 2,
                self.color_bitboard@[0]@ == side_union(self.piece_bitboards@, 0),
                self.color_bitboard@[1]@ == side_union(self.piece_bitboards@, 6),
                colors@ == seq![Color::White, Color::Black],
                kinds@ == seq![
                    PieceType::Pawn,
                    PieceType::Knight,
                    PieceType::Bishop,
                    PieceType::Rook,
                    PieceType::Queen,
                    PieceType::King,
                ],
                forall|k: int| 0 <= k < 6 * c ==> !(#[trigger] self.piece_bitboards@[k])@.contains(
                    square@,
                ),
            decreases 2 - c,
        {
            let color = colors[c];
            let ci = color_slot(color);
            let found_side = self.color_bitboard[ci].is_set(square);
            if found_side {
                let mut k: usize = 0;
                while k < 6
                    invariant
                        k <= 6,
                        c < 2,
                        color == colors@[c as int],
                        self.piece_bitboards.len() == 12,
                        kinds@ == seq![
                            PieceType::Pawn,
                            PieceType::Knight,
                            PieceType::Bishop,
                            PieceType::Rook,
                            PieceType::Queen,
                            PieceType::King,
                        ],
                        colors@ == seq![Color::White, Color::Black],
                        forall|j: int|
                            0 <= j < 6 * c + k ==> !(#[trigger] self.piece_bitboards@[j])@.contains(
                                square@,
                            ),
                    decreases 6 - k,
                {
                    let piece = Piece { piece_type: kinds[k], color };
                    let s = slot(piece);
                    assert(s == 6 * c + k);
                    if self.piece_bitboards[s].is_set(square) {
                        assert(self.holds(square@, piece));
                        assert forall|q: Piece| slot_of(q) < slot_of(piece) implies !#[trigger] self.holds(
                            square@,
                            q,
                        ) by {
                            assert(0 <= slot_of(q));
                            assert(!self.piece_bitboards@[slot_of(q)]@.contains(square@));
                        }
                        return Some(piece);
                    }
                    k = k + 1;
                }
            } else {
                proof {
                    assert(ci == c);
                    assert forall|j: int| 6 * c <= j < 6 * c + 6 implies !(
                    #[trigger] self.piece_bitboards@[j])@.contains(square@) by {
                        assert(side_union(self.piece_bitboards@, 6 * c).contains(square@) == false);
                    }
                }
            }
            c = c + 1;
        }
        proof {
            assert forall|p: Piece| !self.holds(square@, p) by {
                assert(0 <= slot_of(p) < 12);
            }
        }
        None
    }

    /// Puts `piece` on `square`, in its own bitboard, its side's and the
    /// board's occupancy.
    pub fn place_piece(&mut self, square: Square, piece: Piece)
        ensures
            forall|sq: int, p: Piece|
                #[trigger] final(self).holds(sq, p) == (old(self).holds(sq, p) || (sq == square@ && p
                    == piece)),
    {
        proof {
            use_type_invariant(&*self);
        }
        let s = slot(piece);
        let ci = color_slot(piece.color);
        let mut pb = self.piece_bitboards[s];
        pb.set(square);
        let mut cb = self.color_bitboard[ci];
        cb.set(square);
        let ghost old_pb = self.piece_bitboards@;
        let ghost old_cb = self.color_bitboard@;
        let mut all = self.all_pieces;
        all.set(square);
        proof {
            let new_pb = old_pb.update(s as int, pb);
            let new_cb = old_cb.update(ci as int, cb);
            let base = 6 * ci as int;
            assert(side_union(new_pb, base) =~= side_union(old_pb, base).insert(square@));
            assert(side_union(new_pb, 6 - base) =~= side_union(old_pb, 6 - base));
            assert(new_cb[0]@.union(new_cb[1]@) =~= old_cb[0]@.union(old_cb[1]@).insert(square@));
        }
        let piece_bitboards = with_entry(&self.piece_bitboards, s, pb);
        let color_bitboard = with_entry(&self.color_bitboard, ci, cb);
        *self = Board {
            piece_bitboards,
            color_bitboard,
            all_pieces: all,
            side_to_move: self.side_to_move,
            castling_rights: self.castling_rights,
            en_passant_square: self.en_passant_square,
            halfmove_clock: self.halfmove_clock,
            fullmove_number: self.fullmove_number,
            position_hash: self.position_hash,
        };
        proof {
            assert forall|sq: int, p: Piece| #[trigger] self.holds(sq, p) == (old(self).holds(sq, p)
                || (sq == square@ && p == piece)) by {
                assert(0 <= slot_of(p) < 12);
                if slot_of(p) == slot_of(piece) {
                    assert(p == piece);
                }
            }
        }
    }
}

impl Default for Board {
    fn default() -> (r: Board)
        ensures
            forall|sq: int, p: Piece| !r.holds(sq, p),
    {
        Board::new()
    }
}

} // verus!
