use vstd::prelude::*;
use crate::bitboard::{lemma_squares_zero, Bitboard};
use crate::geometry::on_board;
use crate::square::{file_of, rank_of, square_at, Square};
use crate::types::Color;

verus! {

/// The offset `o` (rank step, file step) takes a piece on `sq` to `t` on the board.
pub open spec fn lands(sq: int, o: (i8, i8), t: int) -> bool {
    &&& on_board(file_of(sq) + o.1, rank_of(sq) + o.0)
    &&& t == square_at(file_of(sq) + o.1, rank_of(sq) + o.0)
}

/// Squares a piece on `sq` reaches by one of the offsets `offs`, dropping
/// those that leave the board.
pub open spec fn leaper_set(sq: int, offs: Seq<(i8, i8)>) -> Set<int> {
    Set::new(|t: int| exists|k: int| 0 <= k < offs.len() && #[trigger] lands(sq, offs[k], t))
}

/// The knight's offsets, as (rank step, file step).
pub open spec fn knight_offsets() -> Seq<(i8, i8)> {
    seq![(2i8, 1i8), (2i8, -1i8), (-2i8, 1i8), (-2i8, -1i8), (1i8, 2i8), (1i8, -2i8), (-1i8, 2i8), (-1i8, -2i8)]
}

/// The king's offsets, as (rank step, file step).
pub open spec fn king_offsets() -> Seq<(i8, i8)> {
    seq![(1i8, 0i8), (-1i8, 0i8), (0i8, 1i8), (0i8, -1i8), (1i8, 1i8), (1i8, -1i8), (-1i8, 1i8), (-1i8, -1i8)]
}

/// A pawn's capture offsets, as (rank step, file step): forward is up the
/// ranks for white, down for black.
pub open spec fn pawn_offsets(color: Color) -> Seq<(i8, i8)> {
    match color {
        Color::White => seq![(1i8, -1i8), (1i8, 1i8)],
        Color::Black => seq![(-1i8, -1i8), (-1i8, 1i8)],
    }
}

/// Squares a knight on `sq` attacks.
pub open spec fn knight_attack_set(sq: int) -> Set<int> {
    leaper_set(sq, knight_offsets())
}

/// Squares a king on `sq` attacks.
pub open spec fn king_attack_set(sq: int) -> Set<int> {
    leaper_set(sq, king_offsets())
}

/// Squares a pawn of `color` on `sq` attacks (captures only).
pub open spec fn pawn_attack_set(sq: int, color: Color) -> Set<int> {
    leaper_set(sq, pawn_offsets(color))
}

/// The board turned by 180 degrees: square `t` becomes `63 - t`.
pub open spec fn rotated(s: Set<int>) -> Set<int> {
    Set::new(|t: int| 0 <= t < 64 && s.contains(63 - t))
}

/// Each offset's opposite is among the offsets: at `partner[k]` for offset `k`.
pub open spec fn closed_under_negation(offs: Seq<(i8, i8)>, partner: Seq<int>) -> bool {
    &&& partner.len() == offs.len()
    &&& forall|k: int|
        0 <= k < offs.len() ==> {
            &&& 0 <= #[trigger] partner[k] < offs.len()
            &&& offs[partner[k]].0 == -offs[k].0
            &&& offs[partner[k]].1 == -offs[k].1
        }
}

proof fn lemma_coords(x: int)
    requires
        0 <= x < 64,
    ensures
        file_of(63 - x) == 7 - file_of(x),
        rank_of(63 - x) == 7 - rank_of(x),
        square_at(file_of(x), rank_of(x)) == x,
        0 <= file_of(x) < 8,
        0 <= rank_of(x) < 8,
{
    assert(x == 8 * (x / 8) + x % 8);
    assert(63 - x == 8 * (7 - x / 8) + (7 - x % 8));
}

/// Turning the board by 180 degrees maps a leaper's pattern on `sq` to its
/// pattern on `63 - sq`, for offsets closed under negation.
pub proof fn lemma_leaper_rotation(sq: int, offs: Seq<(i8, i8)>, partner: Seq<int>)
    requires
        0 <= sq < 64,
        closed_under_negation(offs, partner),
    ensures
        leaper_set(63 - sq, offs) == rotated(leaper_set(sq, offs)),
{
    lemma_coords(sq);
    assert forall|t: int| #[trigger] leaper_set(63 - sq, offs).contains(t) implies rotated(
        leaper_set(sq, offs),
    ).contains(t) by {
        let k = choose|k: int| 0 <= k < offs.len() && #[trigger] lands(63 - sq, offs[k], t);
        let j = partner[k];
        lemma_coords(t);
        assert(lands(sq, offs[j], 63 - t));
    }
    assert forall|t: int| #[trigger] rotated(leaper_set(sq, offs)).contains(t) implies leaper_set(
        63 - sq,
        offs,
    ).contains(t) by {
        let u = 63 - t;
        let k = choose|k: int| 0 <= k < offs.len() && #[trigger] lands(sq, offs[k], u);
        let j = partner[k];
        lemma_coords(t);
        lemma_coords(u);
        assert(lands(63 - sq, offs[j], t));
    }
    assert(leaper_set(63 - sq, offs) =~= rotated(leaper_set(sq, offs)));
}

/// An index below eight is one of the eight values, so that each offset can
/// be looked at in turn.
proof fn lemma_eight_cases(k: int)
    requires
        0 <= k < 8,
    ensures
        k == 0 || k == 1 || k == 2 || k == 3 || k == 4 || k == 5 || k == 6 || k == 7,
{
}

/// Knight patterns are symmetric under turning the board by 180 degrees.
pub proof fn lemma_knight_symmetry(sq: int)
    requires
        0 <= sq < 64,
    ensures
        knight_attack_set(63 - sq) == rotated(knight_attack_set(sq)),
{
    let o = knight_offsets();
    let p: Seq<int> = seq![3int, 2, 1, 0, 7, 6, 5, 4];
    assert(closed_under_negation(o, p)) by {
        assert forall|k: int| 0 <= k < 8 implies {
            &&& 0 <= #[trigger] p[k] < 8
            &&& o[p[k]].0 == -o[k].0
            &&& o[p[k]].1 == -o[k].1
        } by {
            lemma_eight_cases(k);
        }
    }
    lemma_leaper_rotation(sq, o, p);
}

/// King patterns are symmetric under turning the board by 180 degrees.
pub proof fn lemma_king_symmetry(sq: int)
    requires
        0 <= sq < 64,
    ensures
        king_attack_set(63 - sq) == rotated(king_attack_set(sq)),
{
    let o = king_offsets();
    let p: Seq<int> = seq![1int, 0, 3, 2, 7, 6, 5, 4];
    assert(closed_under_negation(o, p)) by {
        assert forall|k: int| 0 <= k < 8 implies {
            &&& 0 <= #[trigger] p[k] < 8
            &&& o[p[k]].0 == -o[k].0
            &&& o[p[k]].1 == -o[k].1
        } by {
            lemma_eight_cases(k);
        }
    }
    lemma_leaper_rotation(sq, o, p);
}

/// Squares a piece on `square` reaches by the offsets (rank step, file step),
/// dropping those that leave the board.
pub fn leaper_attacks(square: Square, offsets: &[(i8, i8)]) -> (r: Bitboard)
    ensures
        r@ == leaper_set(square@, offsets@),
{
    let rank = square.rank() as i16;
    let file = square.file() as i16;
    let mut attack = Bitboard(0);
    proof {
        lemma_squares_zero();
        assert(leaper_set(square@, offsets@.take(0)) =~= Set::<int>::empty());
    }
    let mut k: usize = 0;
    while k < offsets.len()
        invariant
            k <= offsets@.len(),
            rank == rank_of(square@),
            file == file_of(square@),
            0 <= rank < 8,
            0 <= file < 8,
            attack@ == leaper_set(square@, offsets@.take(k as int)),
        decreases offsets@.len() - k,
    {
        let (dr, df) = offsets[k];
        let new_rank = rank + dr as i16;
        let new_file = file + df as i16;
        let ghost o = offsets@[k as int];
        let ghost before = attack@;
        let ghost pre = offsets@.take(k as int);
        let ghost post = offsets@.take(k + 1);
        if 0 <= new_rank && new_rank < 8 && 0 <= new_file && new_file < 8 {
            let target = Square::from_coords(new_file as u8, new_rank as u8);
            attack.set(target);
            assert(lands(square@, o, target@));
        } else {
            assert forall|t: int| !lands(square@, o, t) by {}
        }
        proof {
            assert forall|t: int| #[trigger] leaper_set(square@, post).contains(t) == attack@.contains(t) by {
                if leaper_set(square@, post).contains(t) {
                    let j = choose|j: int| 0 <= j < post.len() && #[trigger] lands(square@, post[j], t);
                    if j < k {
                        assert(pre[j] == post[j]);
                        assert(before.contains(t));
                    }
                }
                if before.contains(t) {
                    let j = choose|j: int| 0 <= j < pre.len() && #[trigger] lands(square@, pre[j], t);
                    assert(pre[j] == post[j]);
                }
                if attack@.contains(t) && !before.contains(t) {
                    assert(post[k as int] == o);
                    assert(lands(square@, post[k as int], t));
                }
            }
            assert(leaper_set(square@, post) =~= attack@);
        }
        k = k + 1;
    }
    assert(offsets@.take(k as int) =~= offsets@);
    attack
}

fn leaper_table(offsets: &[(i8, i8)]) -> (r: Vec<Bitboard>)
    ensures
        r.len() == 64,
        forall|sq: int| 0 <= sq < 64 ==> (#[trigger] r@[sq])@ == leaper_set(sq, offsets@),
{
    let mut attacks: Vec<Bitboard> = Vec::new();
    let mut sq_idx: usize = 0;
    while sq_idx < 64
        invariant
            sq_idx <= 64,
            attacks.len() == sq_idx,
            forall|sq: int| 0 <= sq < sq_idx ==> (#[trigger] attacks@[sq])@ == leaper_set(sq, offsets@),
        decreases 64 - sq_idx,
    {
        let square = Square::from_index(sq_idx);
        attacks.push(leaper_attacks(square, offsets));
        sq_idx = sq_idx + 1;
    }
    attacks
}

/// Knight attacks of every square.
pub fn init_knight_attacks() -> (r: Vec<Bitboard>)
    ensures
        r.len() == 64,
        forall|sq: int| 0 <= sq < 64 ==> (#[trigger] r@[sq])@ == knight_attack_set(sq),
{
    let knight_moves: [(i8, i8); 8] = [(2, 1), (2, -1), (-2, 1), (-2, -1), (1, 2), (1, -2), (-1, 2), (-1, -2)];
    assert(knight_moves@ =~= knight_offsets());
    leaper_table(&knight_moves)
}

/// King attacks of every square.
pub fn init_king_attacks() -> (r: Vec<Bitboard>)
    ensures
        r.len() == 64,
        forall|sq: int| 0 <= sq < 64 ==> (#[trigger] r@[sq])@ == king_attack_set(sq),
{
    let king_moves: [(i8, i8); 8] = [(1, 0), (-1, 0), (0, 1), (0, -1), (1, 1), (1, -1), (-1, 1), (-1, -1)];
    assert(king_moves@ =~= king_offsets());
    leaper_table(&king_moves)
}

/// Pawn capture attacks of every square, for white and for black.
pub fn init_pawn_attacks() -> (r: (Vec<Bitboard>, Vec<Bitboard>))
    ensures
        r.0.len() == 64,
        r.1.len() == 64,
        forall|sq: int| 0 <= sq < 64 ==> (#[trigger] r.0@[sq])@ == pawn_attack_set(sq, Color::White),
        forall|sq: int| 0 <= sq < 64 ==> (#[trigger] r.1@[sq])@ == pawn_attack_set(sq, Color::Black),
{
    let white_moves: [(i8, i8); 2] = [(1, -1), (1, 1)];
    let black_moves: [(i8, i8); 2] = [(-1, -1), (-1, 1)];
    assert(white_moves@ =~= pawn_offsets(Color::White));
    assert(black_moves@ =~= pawn_offsets(Color::Black));
    (leaper_table(&white_moves), leaper_table(&black_moves))
}

} // verus!
