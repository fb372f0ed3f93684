use lemonate::attacks::{generate_attacks, init_bishop_magics, init_rook_magics, AttackTable};
use lemonate::geometry::{
    calculate_bishop_attacks, calculate_rook_attacks, generate_bishop_mask,
    generate_occupancy_mask, generate_rook_mask, generate_sliding_attacks,
};
use lemonate::leapers::{init_king_attacks, init_knight_attacks, init_pawn_attacks};
use lemonate::magic::{find_magic, Magic};
use lemonate::subsets::generate_blocker_board;
use lemonate::board::Board;
use lemonate::types::{CastlingRights, Color, FenError, Piece, PieceType};
use lemonate::{Bitboard, Square};

fn sq(name: &str) -> Square {
    let b = name.as_bytes();
    Square::from_coords(b[0] - b'a', b[1] - b'1')
}

fn bits(names: &[&str]) -> Bitboard {
    let mut b = Bitboard(0);
    for n in names {
        b.set(sq(n));
    }
    b
}

fn table() -> AttackTable {
    AttackTable::new().expect("magic search failed")
}

fn rotate(b: Bitboard) -> Bitboard {
    Bitboard(b.0.reverse_bits())
}

#[test]
fn square_coordinates() {
    let s = Square::from_coords(4, 3);
    assert_eq!(s.index(), 28);
    assert_eq!(s.file(), 4);
    assert_eq!(s.rank(), 3);
    assert_eq!(Square::from_coords(9, 10).index(), Square::from_coords(1, 2).index());
    assert_eq!(Square::from_index(63).file(), 7);
    assert_eq!(Square::from_index(63).rank(), 7);
}

#[test]
fn bitboard_set_clear_toggle() {
    let mut b = Bitboard(0);
    assert!(b.is_empty());
    b.set(sq("e4"));
    assert!(b.is_set(sq("e4")));
    assert!(!b.is_set(sq("e5")));
    assert_eq!(b.0, 1u64 << 28);
    b.toggle(sq("a1"));
    assert_eq!(b.count_pieces(), 2);
    b.toggle(sq("a1"));
    assert_eq!(b.count_pieces(), 1);
    b.clear(sq("e4"));
    assert!(b.is_empty());
    assert!(!b.is_not_empty());
}

#[test]
fn bitboard_pop_lsb_ascending() {
    let mut b = bits(&["h8", "a1", "d4"]);
    assert_eq!(b.pop_lsb().map(|s| s.index()), Some(0));
    assert_eq!(b.pop_lsb().map(|s| s.index()), Some(27));
    assert_eq!(b.pop_lsb().map(|s| s.index()), Some(63));
    assert_eq!(b.pop_lsb(), None);
    assert_eq!(b.0, 0);
}

#[test]
fn bitboard_zeros_and_highest_square() {
    let b = bits(&["c1", "f6"]);
    assert_eq!(b.trailing_zeros(), 2);
    assert_eq!(b.leading_zeros(), 64 - 46);
    assert_eq!(b.first_square().map(|s| s.index()), Some(45));
    assert_eq!(Bitboard(0).leading_zeros(), 64);
    assert_eq!(Bitboard(0).trailing_zeros(), 64);
    assert_eq!(Bitboard(0).first_square(), None);
    assert_eq!(Bitboard(u64::MAX).count_pieces(), 64);
}

#[test]
fn rook_mask_excludes_ray_ends() {
    let m = generate_rook_mask(sq("e4"));
    assert_eq!(m, bits(&["e2", "e3", "e5", "e6", "e7", "b4", "c4", "d4", "f4", "g4"]));
    assert_eq!(m.count_pieces(), 10);
    let corner = generate_rook_mask(sq("a1"));
    assert_eq!(corner.count_pieces(), 12);
    assert!(corner.is_set(sq("a7")) && !corner.is_set(sq("a8")));
    assert!(corner.is_set(sq("g1")) && !corner.is_set(sq("h1")));
}

#[test]
fn bishop_corner_masks_are_smaller_than_central() {
    let central = generate_bishop_mask(sq("d4")).count_pieces();
    assert_eq!(central, 9);
    for i in [0usize, 7, 56, 63] {
        let n = generate_bishop_mask(Square::from_index(i)).count_pieces();
        assert!(n <= 6);
        assert!(n < central);
    }
    assert_eq!(
        generate_bishop_mask(sq("a1")),
        bits(&["b2", "c3", "d4", "e5", "f6", "g7"])
    );
}

#[test]
fn occupancy_mask_of_leapers_is_empty() {
    assert_eq!(generate_occupancy_mask(sq("d4"), PieceType::Knight), Bitboard(0));
    assert_eq!(generate_occupancy_mask(sq("d4"), PieceType::Queen), Bitboard(0));
    assert_eq!(
        generate_occupancy_mask(sq("d4"), PieceType::Rook),
        generate_rook_mask(sq("d4"))
    );
}

#[test]
fn blocker_subsets_distinct_and_within_mask() {
    for i in 0..64usize {
        for mask in [
            generate_rook_mask(Square::from_index(i)),
            generate_bishop_mask(Square::from_index(i)),
        ] {
            let n = 1usize << mask.count_pieces();
            let mut seen: Vec<u64> = Vec::new();
            for k in 0..n {
                let s = generate_blocker_board(k, mask);
                assert_eq!(s.0 & !mask.0, 0);
                seen.push(s.0);
            }
            seen.sort();
            seen.dedup();
            assert_eq!(seen.len(), n);
        }
    }
}

#[test]
fn blocker_subset_selects_by_index_bits() {
    let mask = bits(&["b1", "d1", "h3"]);
    assert_eq!(generate_blocker_board(0, mask), Bitboard(0));
    assert_eq!(generate_blocker_board(1, mask), bits(&["b1"]));
    assert_eq!(generate_blocker_board(2, mask), bits(&["d1"]));
    assert_eq!(generate_blocker_board(5, mask), bits(&["b1", "h3"]));
    assert_eq!(generate_blocker_board(7, mask), mask);
}

#[test]
fn rook_on_a1_empty_board() {
    let expected = bits(&[
        "a2", "a3", "a4", "a5", "a6", "a7", "a8", "b1", "c1", "d1", "e1", "f1", "g1", "h1",
    ]);
    assert_eq!(calculate_rook_attacks(sq("a1"), Bitboard(0)), expected);
    let t = table();
    assert_eq!(t.rook_attacks(sq("a1"), Bitboard(0)), expected);
    assert_eq!(t.rook_attacks(sq("a1"), Bitboard(0)).count_pieces(), 14);
}

#[test]
fn bishop_on_a1_empty_board() {
    let expected = bits(&["b2", "c3", "d4", "e5", "f6", "g7", "h8"]);
    assert_eq!(calculate_bishop_attacks(sq("a1"), Bitboard(0)), expected);
    let t = table();
    assert_eq!(t.bishop_attacks(sq("a1"), Bitboard(0)), expected);
}

#[test]
fn e5_with_blockers_on_e7_g5_c3() {
    let occ = bits(&["e5", "e7", "g5", "c3"]);
    let rook = bits(&[
        "e6", "e7", "f5", "g5", "e4", "e3", "e2", "e1", "d5", "c5", "b5", "a5",
    ]);
    let bishop = bits(&[
        "d4", "c3", "f6", "g7", "h8", "d6", "c7", "b8", "f4", "g3", "h2",
    ]);
    assert_eq!(calculate_rook_attacks(sq("e5"), occ), rook);
    assert_eq!(calculate_bishop_attacks(sq("e5"), occ), bishop);
    let t = table();
    assert_eq!(t.rook_attacks(sq("e5"), occ), rook);
    assert_eq!(t.bishop_attacks(sq("e5"), occ), bishop);
    assert_eq!(t.queen_attacks(sq("e5"), occ), Bitboard(rook.0 | bishop.0));
}

#[test]
fn sliding_attacks_with_custom_directions() {
    let north_only = [(0i8, 1i8)];
    let occ = bits(&["d6"]);
    assert_eq!(
        generate_sliding_attacks(sq("d4"), &north_only, occ),
        bits(&["d5", "d6"])
    );
}

#[test]
fn magic_separates_bishop_subsets() {
    for i in [0usize, 9, 27, 36, 63] {
        let square = Square::from_index(i);
        let mask = generate_bishop_mask(square);
        let magic = find_magic(square, mask, false).expect("no magic");
        let m = Magic::new(mask, magic, 0);
        let n = 1usize << mask.count_pieces();
        let subsets: Vec<Bitboard> = (0..n).map(|k| generate_blocker_board(k, mask)).collect();
        for a in &subsets {
            for b in &subsets {
                if m.hash(*a) == m.hash(*b) {
                    assert_eq!(
                        calculate_bishop_attacks(square, *a),
                        calculate_bishop_attacks(square, *b)
                    );
                }
            }
        }
        for s in &subsets {
            assert!(m.hash(*s) < m.table_size());
        }
    }
}

#[test]
fn magic_hash_exact_values() {
    let m = Magic::new(Bitboard(0b1010), 3, 5);
    assert_eq!(m.shift, 62);
    assert_eq!(m.table_size(), 4);
    // (0b1010 * 3) >> 62 == 0; a constant with the top bits gives a nonzero index.
    assert_eq!(m.hash(Bitboard(u64::MAX)), 0);
    let m2 = Magic::new(Bitboard(0b10), 1u64 << 62, 0);
    assert_eq!(m2.shift, 63);
    assert_eq!(m2.hash(Bitboard(0b10)), 1);
    assert_eq!(m2.hash(Bitboard(0b01)), 0);
    let empty = Magic::new(Bitboard(0), 7, 0);
    assert_eq!(empty.shift, 64);
    assert_eq!(empty.hash(Bitboard(u64::MAX)), 0);
    assert_eq!(empty.table_size(), 1);
}

#[test]
fn table_agrees_with_geometry_on_all_subsets() {
    let t = table();
    for i in 0..64usize {
        let square = Square::from_index(i);
        let rm = generate_rook_mask(square);
        for k in 0..(1usize << rm.count_pieces()) {
            let s = generate_blocker_board(k, rm);
            assert_eq!(t.rook_attacks(square, s), calculate_rook_attacks(square, s));
        }
        let bm = generate_bishop_mask(square);
        for k in 0..(1usize << bm.count_pieces()) {
            let s = generate_blocker_board(k, bm);
            assert_eq!(t.bishop_attacks(square, s), calculate_bishop_attacks(square, s));
        }
    }
}

#[test]
fn table_ignores_squares_outside_the_mask() {
    let t = table();
    let occ = Bitboard(0x8100_0000_0000_0081 | (1u64 << 20) | (1u64 << 44));
    for i in 0..64usize {
        let square = Square::from_index(i);
        assert_eq!(t.rook_attacks(square, occ), calculate_rook_attacks(square, occ));
        assert_eq!(t.bishop_attacks(square, occ), calculate_bishop_attacks(square, occ));
    }
}

#[test]
fn queen_is_rook_plus_bishop() {
    let t = table();
    let mut x: u64 = 0x9E37_79B9_7F4A_7C15;
    for i in 0..64usize {
        x = x.wrapping_mul(6364136223846793005).wrapping_add(1442695040888963407);
        let occ = Bitboard(x & (x >> 7));
        let square = Square::from_index(i);
        let q = t.queen_attacks(square, occ);
        assert_eq!(q.0, t.rook_attacks(square, occ).0 | t.bishop_attacks(square, occ).0);
        assert_eq!(
            t.attacks(square, PieceType::Queen, Color::White, occ),
            generate_attacks(square, PieceType::Queen, Color::White, occ)
        );
    }
}

#[test]
fn leaper_patterns_symmetric_under_rotation() {
    let knights = init_knight_attacks();
    let kings = init_king_attacks();
    for i in 0..64usize {
        assert_eq!(rotate(knights[i]), knights[63 - i]);
        assert_eq!(rotate(kings[i]), kings[63 - i]);
    }
}

#[test]
fn knight_and_king_counts() {
    let t = table();
    assert_eq!(t.knight_attacks(sq("a1")), bits(&["b3", "c2"]));
    assert_eq!(t.knight_attacks(sq("e4")).count_pieces(), 8);
    assert_eq!(t.knight_attacks(sq("b2")).count_pieces(), 4);
    assert_eq!(t.king_attacks(sq("a8")), bits(&["a7", "b7", "b8"]));
    assert_eq!(t.king_attacks(sq("e5")).count_pieces(), 8);
    assert_eq!(t.king_attacks(sq("h1")).count_pieces(), 3);
}

#[test]
fn pawn_captures_by_side() {
    let (white, black) = init_pawn_attacks();
    assert_eq!(white[sq("a2").index()], bits(&["b3"]));
    assert_eq!(white[sq("e4").index()], bits(&["d5", "f5"]));
    assert_eq!(white[sq("h8").index()], Bitboard(0));
    assert_eq!(black[sq("h7").index()], bits(&["g6"]));
    assert_eq!(black[sq("a1").index()], Bitboard(0));
    assert_eq!(black[sq("d7").index()], bits(&["c6", "e6"]));
    let t = table();
    assert_eq!(t.pawn_attacks(sq("e4"), Color::White), bits(&["d5", "f5"]));
    assert_eq!(t.pawn_attacks(sq("e4"), Color::Black), bits(&["d3", "f3"]));
}

#[test]
fn facade_matches_direct_generation() {
    let t = table();
    let occ = bits(&["c4", "f7", "d2", "g4"]);
    for i in 0..64usize {
        let square = Square::from_index(i);
        for piece in [
            PieceType::Pawn,
            PieceType::Knight,
            PieceType::Bishop,
            PieceType::Rook,
            PieceType::Queen,
            PieceType::King,
        ] {
            for side in [Color::White, Color::Black] {
                assert_eq!(
                    t.attacks(square, piece, side, occ),
                    generate_attacks(square, piece, side, occ)
                );
            }
        }
    }
}

#[test]
fn board_places_and_finds_pieces() {
    let mut b = Board::new();
    assert!(b.peice_at(sq("e1")).is_none());
    let king = Piece { piece_type: PieceType::King, color: Color::White };
    let knight = Piece { piece_type: PieceType::Knight, color: Color::Black };
    b.place_piece(sq("e1"), king);
    b.place_piece(sq("g8"), knight);
    assert_eq!(b.peice_at(sq("e1")), Some(king));
    assert_eq!(b.peice_at(sq("g8")), Some(knight));
    assert_eq!(b.peice_at(sq("e2")), None);
}

#[test]
fn castling_rights_all_granted() {
    let c = CastlingRights::all();
    assert!(c.white_kingside && c.white_queenside && c.black_kingside && c.black_queenside);
}

#[test]
fn magic_offsets_lay_parts_end_to_end() {
    for (magics, total) in [
        (init_rook_magics().expect("rook search"), 102400usize),
        (init_bishop_magics().expect("bishop search"), 5248usize),
    ] {
        assert_eq!(magics.len(), 64);
        let mut expected_offset = 0usize;
        for m in &magics {
            assert_eq!(m.offset as usize, expected_offset);
            assert_eq!(m.shift, 64 - m.mask.count_pieces());
            expected_offset += m.table_size();
        }
        assert_eq!(expected_offset, total);
    }
}

#[test]
fn sliding_attacks_with_longer_steps() {
    let jumps = [(2i8, 1i8)];
    assert_eq!(
        generate_sliding_attacks(sq("a1"), &jumps, Bitboard(0)),
        bits(&["c2", "e3", "g4"])
    );
    assert_eq!(
        generate_sliding_attacks(sq("a1"), &jumps, bits(&["e3"])),
        bits(&["c2", "e3"])
    );
}

#[test]
fn bitboard_operators() {
    let a = bits(&["a1", "b2", "c3"]);
    let b = bits(&["b2", "h8"]);
    assert_eq!(a | b, bits(&["a1", "b2", "c3", "h8"]));
    assert_eq!(a & b, bits(&["b2"]));
    assert_eq!(a ^ b, bits(&["a1", "c3", "h8"]));
    assert_eq!(!Bitboard(0), Bitboard(u64::MAX));
    assert_eq!(bits(&["a1"]) << 8, bits(&["a2"]));
    assert_eq!(bits(&["a2"]) >> 1, bits(&["h1"]));
}

#[test]
fn render_draws_rank_eight_first() {
    let text = bits(&["a1", "h8"]).render();
    let lines: Vec<&str> = text.lines().collect();
    assert_eq!(lines.len(), 8);
    assert_eq!(lines[0], ". . . . . . . 1 ");
    assert_eq!(lines[7], "1 . . . . . . . ");
    assert_eq!(lines[3], ". . . . . . . . ");
    assert!(text.ends_with('\n'));
}

#[test]
fn fen_letters_name_pieces() {
    assert_eq!(
        Piece::from_fen_char('K'),
        Ok(Piece { piece_type: PieceType::King, color: Color::White })
    );
    assert_eq!(
        Piece::from_fen_char('n'),
        Ok(Piece { piece_type: PieceType::Knight, color: Color::Black })
    );
    assert_eq!(
        Piece::from_fen_char('Q'),
        Ok(Piece { piece_type: PieceType::Queen, color: Color::White })
    );
    assert_eq!(Piece::from_fen_char('x'), Err(FenError::InvalidPiece));
    assert_eq!(Piece::from_fen_char('1'), Err(FenError::InvalidPiece));
}

#[test]
fn default_board_is_empty() {
    let b = Board::default();
    for i in 0..64usize {
        assert!(b.peice_at(Square::from_index(i)).is_none());
    }
}

#[test]
fn magic_hash_with_shift_zero_keeps_whole_product() {
    let m = Magic::new(Bitboard(u64::MAX), 3, 0);
    assert_eq!(m.shift, 0);
    assert_eq!(m.hash(Bitboard(5)), 15);
}
