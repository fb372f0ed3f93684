use vstd::prelude::*;
use vstd::arithmetic::power2::pow2;
use vstd::bits::{lemma_u64_pow2_no_overflow, lemma_usize_pow2_no_overflow};
use crate::bitboard::{lemma_squares_and, lemma_squares_injective, squares_of, Bitboard};
use crate::geometry::{
    calculate_bishop_attacks, calculate_rook_attacks, generate_bishop_mask, generate_rook_mask,
    lemma_slider_mask_size, lemma_slider_relevant, slider_attacks, slider_mask,
};
use crate::magic::{
    accepted, candidate, family_dirs, find_magic, first_accepted, hash_value, lemma_hash_bound,
    search_fails, search_seed, separates_within, Magic,
};
use crate::geometry::{bishop_attack_set, rook_attack_set};
use crate::leapers::{
    init_king_attacks, init_knight_attacks, init_pawn_attacks, king_attack_set,
    knight_attack_set, leaper_attacks, pawn_attack_set,
};
use crate::square::Square;
use crate::types::{Color, PieceType};
use crate::subsets::{generate_blocker_board, index_of, lemma_index_of, lemma_subset_within};

verus! {

/// Most squares a rook's or bishop's relevant mask can have: four rays of
/// at most six relevant squares each.
pub const MAX_MASK_BITS: u32 = 24;

/// `magic` with `shift` maps any two occupancies to one index only where the
/// slider on `sq` attacks the same squares for both.
pub open spec fn separates(sq: int, is_rook: bool, mask: u64, magic: u64, shift: u32) -> bool {
    forall|a: u64, b: u64|
        #[trigger] hash_value(mask, magic, shift, a) == #[trigger] hash_value(mask, magic, shift, b)
            ==> slider_attacks(sq, family_dirs(is_rook), squares_of(a)) == slider_attacks(
            sq,
            family_dirs(is_rook),
            squares_of(b),
        )
}

/// Hashing looks only at the squares of the mask.
proof fn lemma_hash_masked(mask: u64, magic: u64, shift: u32, occ: u64)
    ensures
        hash_value(mask, magic, shift, occ) == hash_value(mask, magic, shift, occ & mask),
        squares_of(occ & mask) == squares_of(occ).intersect(squares_of(mask)),
{
    assert((occ & mask) & mask == occ & mask) by (bit_vector);
    lemma_squares_and(occ, mask);
}

/// For the relevant mask, separating the occupancies within the mask
/// separates all occupancies.
pub proof fn lemma_separates_all(sq: int, is_rook: bool, mask: u64, magic: u64, shift: u32)
    requires
        squares_of(mask) == slider_mask(sq, family_dirs(is_rook)),
        separates_within(sq, is_rook, mask, magic, shift),
    ensures
        separates(sq, is_rook, mask, magic, shift),
{
    let d = family_dirs(is_rook);
    assert forall|a: u64, b: u64|
        #[trigger] hash_value(mask, magic, shift, a) == #[trigger] hash_value(
            mask,
            magic,
            shift,
            b,
        ) implies slider_attacks(sq, d, squares_of(a)) == slider_attacks(sq, d, squares_of(b)) by {
        lemma_hash_masked(mask, magic, shift, a);
        lemma_hash_masked(mask, magic, shift, b);
        lemma_slider_relevant(sq, d, squares_of(a));
        lemma_slider_relevant(sq, d, squares_of(b));
        assert(hash_value(mask, magic, shift, a & mask) == hash_value(mask, magic, shift, b & mask));
    }
}

/// Hash parameters for each square of one sliding piece: the relevant mask,
/// a separating constant, the shift, and offsets that lay the squares' parts
/// of the table end to end.
pub open spec fn magics_ok(ms: Seq<Magic>, is_rook: bool) -> bool {
    &&& ms.len() == 64
    &&& forall|sq: int|
        0 <= sq < 64 ==> {
            let m = #[trigger] ms[sq];
            &&& m.mask@ == slider_mask(sq, family_dirs(is_rook))
            &&& m.mask@.len() <= MAX_MASK_BITS
            &&& m.shift == 64 - m.mask@.len()
            &&& separates(sq, is_rook, m.mask.0, m.magic, m.shift)
        }
    &&& ms[0].offset == 0
    &&& forall|sq: int|
        0 <= sq < 63 ==> #[trigger] ms[sq + 1].offset == ms[sq].offset + pow2(ms[sq].mask@.len())
}

/// No candidate within the budget passes for the rook (`is_rook`) or bishop
/// on `sq`, with its relevant mask.
pub open spec fn family_search_fails(sq: int, is_rook: bool) -> bool {
    forall|u: u64|
        squares_of(u) == slider_mask(sq, family_dirs(is_rook)) ==> #[trigger] search_fails(
            sq,
            is_rook,
            u,
        )
}

/// `m`'s constant is the first candidate of the search that passes.
pub open spec fn found_by_search(sq: int, is_rook: bool, m: Magic) -> bool {
    exists|k: nat|
        first_accepted(sq, is_rook, m.mask.0, k) && m.magic == candidate(search_seed(sq), k)
}

/// The parameters the search produces: `magics_ok`, with each constant the
/// first candidate that passes.
pub open spec fn magics_exact(ms: Seq<Magic>, is_rook: bool) -> bool {
    &&& magics_ok(ms, is_rook)
    &&& forall|sq: int| 0 <= sq < 64 ==> found_by_search(sq, is_rook, #[trigger] ms[sq])
}

proof fn lemma_same_square(a: Seq<Magic>, b: Seq<Magic>, is_rook: bool, sq: int)
    requires
        magics_exact(a, is_rook),
        magics_exact(b, is_rook),
        0 <= sq < 64,
    ensures
        a[sq].mask == b[sq].mask,
        a[sq].magic == b[sq].magic,
        a[sq].shift == b[sq].shift,
{
    lemma_squares_injective(a[sq].mask.0, b[sq].mask.0);
    assert(found_by_search(sq, is_rook, a[sq]));
    assert(found_by_search(sq, is_rook, b[sq]));
    let ka = choose|k: nat|
        first_accepted(sq, is_rook, a[sq].mask.0, k) && a[sq].magic == candidate(
            search_seed(sq),
            k,
        );
    let kb = choose|k: nat|
        first_accepted(sq, is_rook, b[sq].mask.0, k) && b[sq].magic == candidate(
            search_seed(sq),
            k,
        );
    if ka < kb {
        assert(!accepted(sq, is_rook, b[sq].mask.0, candidate(search_seed(sq), ka)));
    }
    if kb < ka {
        assert(!accepted(sq, is_rook, a[sq].mask.0, candidate(search_seed(sq), kb)));
    }
}

proof fn lemma_same_offset(a: Seq<Magic>, b: Seq<Magic>, is_rook: bool, sq: int)
    requires
        magics_exact(a, is_rook),
        magics_exact(b, is_rook),
        0 <= sq < 64,
    ensures
        a[sq].offset == b[sq].offset,
    decreases sq,
{
    if sq > 0 {
        lemma_same_offset(a, b, is_rook, sq - 1);
        lemma_same_square(a, b, is_rook, sq - 1);
        assert(a[(sq - 1) + 1].offset == a[sq - 1].offset + pow2(a[sq - 1].mask@.len()));
        assert(b[(sq - 1) + 1].offset == b[sq - 1].offset + pow2(b[sq - 1].mask@.len()));
    }
}

/// The search determines the hash parameters: any two results of it are equal.
pub proof fn lemma_magics_exact_unique(a: Seq<Magic>, b: Seq<Magic>, is_rook: bool)
    requires
        magics_exact(a, is_rook),
        magics_exact(b, is_rook),
    ensures
        a == b,
{
    assert forall|sq: int| 0 <= sq < 64 implies a[sq] == b[sq] by {
        lemma_same_square(a, b, is_rook, sq);
        lemma_same_offset(a, b, is_rook, sq);
    }
    assert(a =~= b);
}

/// Total table length that the parameters call for.
pub open spec fn table_len(ms: Seq<Magic>) -> int {
    ms[63].offset + pow2(ms[63].mask@.len())
}

/// Computes the hash parameters of every square for the rook (`is_rook`) or
/// the bishop; `None` when the search fails for a square or a mask exceeds
/// `MAX_MASK_BITS`.
fn init_magics(is_rook: bool) -> (r: Option<Vec<Magic>>)
    ensures
        r is None <==> exists|sq: int| 0 <= sq < 64 && #[trigger] family_search_fails(sq, is_rook),
        r matches Some(ms) ==> magics_exact(ms@, is_rook) && table_len(ms@) <= 64 * 0x100_0000,
{
    let mut magics: Vec<Magic> = Vec::new();
    let mut offset: u32 = 0;
    let mut sq_idx: usize = 0;
    while sq_idx < 64
        invariant
            sq_idx <= 64,
            magics.len() == sq_idx,
            offset <= sq_idx * 0x100_0000,
            forall|sq: int|
                0 <= sq < sq_idx ==> {
                    let m = #[trigger] magics@[sq];
                    &&& m.mask@ == slider_mask(sq, family_dirs(is_rook))
                    &&& m.mask@.len() <= MAX_MASK_BITS
                    &&& m.shift == 64 - m.mask@.len()
                    &&& separates(sq, is_rook, m.mask.0, m.magic, m.shift)
                    &&& found_by_search(sq, is_rook, m)
                },
            forall|sq: int| 0 <= sq < sq_idx ==> !#[trigger] family_search_fails(sq, is_rook),
            sq_idx > 0 ==> magics@[0].offset == 0,
            sq_idx == 0 ==> offset == 0,
            sq_idx > 0 ==> offset == magics@[sq_idx - 1].offset + pow2(
                magics@[sq_idx - 1].mask@.len(),
            ),
            forall|sq: int|
                0 <= sq < sq_idx - 1 ==> #[trigger] magics@[sq + 1].offset == magics@[sq].offset
                    + pow2(magics@[sq].mask@.len()),
        decreases 64 - sq_idx,
    {
        let square = Square::from_index(sq_idx);
        let mask = if is_rook {
            generate_rook_mask(square)
        } else {
            generate_bishop_mask(square)
        };
        let n_bits = mask.count_pieces();
        proof {
            lemma_slider_mask_size(sq_idx as int, family_dirs(is_rook));
        }
        let shift: u32 = 64 - n_bits;
        let magic_number: u64 = match find_magic(square, mask, is_rook) {
            Some(m) => m,
            None => {
                proof {
                    assert forall|u: u64|
                        squares_of(u) == slider_mask(
                            sq_idx as int,
                            family_dirs(is_rook),
                        ) implies #[trigger] search_fails(sq_idx as int, is_rook, u) by {
                        lemma_squares_injective(u, mask.0);
                    }
                    assert(family_search_fails(sq_idx as int, is_rook));
                }
                return None;
            },
        };
        proof {
            assert(!search_fails(sq_idx as int, is_rook, mask.0));
            assert(found_by_search(sq_idx as int, is_rook, Magic { mask, magic: magic_number, shift, offset }));
            assert(!family_search_fails(sq_idx as int, is_rook));
            lemma_separates_all(square@, is_rook, mask.0, magic_number, shift);
            lemma_u64_pow2_no_overflow(n_bits as nat);
            if n_bits < 24 {
                vstd::arithmetic::power2::lemma_pow2_strictly_increases(n_bits as nat, 24);
            }
            vstd::arithmetic::power2::lemma2_to64();
        }
        let size: u32 = 1u32 << n_bits;
        assert(size == pow2(n_bits as nat)) by {
            vstd::bits::lemma_u32_shl_is_mul(1, n_bits);
            vstd::bits::lemma_u32_pow2_no_overflow(n_bits as nat);
        }
        magics.push(Magic { mask, magic: magic_number, shift, offset });
        offset = offset + size;
        sq_idx = sq_idx + 1;
    }
    Some(magics)
}

/// Hash parameters of every square for the rook; `None` when the search
/// fails for a square.
pub fn init_rook_magics() -> (r: Option<Vec<Magic>>)
    ensures
        r is None <==> exists|sq: int| 0 <= sq < 64 && #[trigger] family_search_fails(sq, true),
        r matches Some(ms) ==> magics_exact(ms@, true) && table_len(ms@) <= 64 * 0x100_0000,
{
    init_magics(true)
}

/// Hash parameters of every square for the bishop; `None` when the search
/// fails for a square.
pub fn init_bishop_magics() -> (r: Option<Vec<Magic>>)
    ensures
        r is None <==> exists|sq: int| 0 <= sq < 64 && #[trigger] family_search_fails(sq, false),
        r matches Some(ms) ==> magics_exact(ms@, false) && table_len(ms@) <= 64 * 0x100_0000,
{
    init_magics(false)
}

/// Where the table keeps the answer for square `sq` and occupancy `occ`.
pub open spec fn entry(ms: Seq<Magic>, sq: int, occ: u64) -> int {
    ms[sq].offset + ms[sq].hash_spec(occ)
}

/// The table holds, for every square and every occupancy, the squares the
/// slider attacks.
pub open spec fn table_ok(table: Seq<Bitboard>, ms: Seq<Magic>, is_rook: bool) -> bool {
    forall|sq: int, occ: u64|
        0 <= sq < 64 ==> {
            &&& 0 <= #[trigger] entry(ms, sq, occ) < table.len()
            &&& table[entry(ms, sq, occ)]@ == slider_attacks(
                sq,
                family_dirs(is_rook),
                squares_of(occ),
            )
        }
}

/// Parts of the table for different squares do not overlap.
proof fn lemma_offsets_ordered(ms: Seq<Magic>, is_rook: bool, a: int, b: int)
    requires
        magics_ok(ms, is_rook),
        0 <= a < b < 64,
    ensures
        ms[a].offset + pow2(ms[a].mask@.len()) <= ms[b].offset,
    decreases b - a,
{
    if a + 1 < b {
        lemma_offsets_ordered(ms, is_rook, a, b - 1);
        assert(ms[(b - 1) + 1].offset == ms[b - 1].offset + pow2(ms[b - 1].mask@.len()));
    } else {
        assert(ms[a + 1].offset == ms[a].offset + pow2(ms[a].mask@.len()));
    }
}

/// Every square's part ends within the table.
proof fn lemma_part_in_table(ms: Seq<Magic>, is_rook: bool, sq: int, occ: u64)
    requires
        magics_ok(ms, is_rook),
        0 <= sq < 64,
    ensures
        ms[sq].offset <= entry(ms, sq, occ) < ms[sq].offset + pow2(ms[sq].mask@.len()),
        ms[sq].offset + pow2(ms[sq].mask@.len()) <= table_len(ms),
{
    let m = ms[sq];
    assert(m.mask@.len() <= MAX_MASK_BITS);
    if m.mask@.len() >= 1 {
        lemma_hash_bound(m.mask.0, m.magic, m.mask@.len(), occ);
    } else {
        vstd::arithmetic::power2::lemma_pow2_pos(0);
    }
    if sq < 63 {
        lemma_offsets_ordered(ms, is_rook, sq, 63);
    }
    vstd::arithmetic::power2::lemma_pow2_pos(ms[63].mask@.len());
}

/// Fills one table for the rook (`is_rook`) or the bishop: for every square,
/// the attack set of each occupancy within its mask, at the place its hash
/// selects.
fn build_table(magics: &Vec<Magic>, is_rook: bool) -> (r: Vec<Bitboard>)
    requires
        magics_ok(magics@, is_rook),
        table_len(magics@) <= 64 * 0x100_0000,
    ensures
        r.len() == table_len(magics@),
        table_ok(r@, magics@, is_rook),
{
    let ghost ms = magics@;
    let last = magics[63];
    proof {
        assert(ms[63] == last);
        lemma_usize_pow2_no_overflow(last.mask@.len());
    }
    let total: usize = last.offset as usize + last.table_size();
    let mut table: Vec<Bitboard> = vec![Bitboard(0); total];
    let mut sq_idx: usize = 0;
    while sq_idx < 64
        invariant
            magics@ == ms,
            magics_ok(ms, is_rook),
            table_len(ms) <= 64 * 0x100_0000,
            table.len() == total,
            total == table_len(ms),
            sq_idx <= 64,
            forall|sq: int, occ: u64|
                0 <= sq < sq_idx ==> {
                    &&& 0 <= #[trigger] entry(ms, sq, occ) < table.len()
                    &&& table@[entry(ms, sq, occ)]@ == slider_attacks(
                        sq,
                        family_dirs(is_rook),
                        squares_of(occ),
                    )
                },
        decreases 64 - sq_idx,
    {
        let magic = magics[sq_idx];
        let square = Square::from_index(sq_idx);
        let ghost sq = sq_idx as int;
        proof {
            assert(ms[sq] == magic);
            assert(magic.mask@.len() <= MAX_MASK_BITS);
            lemma_usize_pow2_no_overflow(magic.mask@.len());
            lemma_part_in_table(ms, is_rook, sq, 0);
        }
        let size = magic.table_size();
        let offset = magic.offset as usize;
        let mut i: usize = 0;
        while i < size
            invariant
                magics@ == ms,
                magics_ok(ms, is_rook),
                ms[sq] == magic,
                sq == sq_idx,
                0 <= sq < 64,
                square@ == sq,
                size == pow2(magic.mask@.len()),
                offset == magic.offset,
                offset + size <= table_len(ms),
                table_len(ms) <= 64 * 0x100_0000,
                table.len() == total,
                total == table_len(ms),
                i <= size,
                forall|sq2: int, occ: u64|
                    0 <= sq2 < sq ==> {
                        &&& 0 <= #[trigger] entry(ms, sq2, occ) < table.len()
                        &&& table@[entry(ms, sq2, occ)]@ == slider_attacks(
                            sq2,
                            family_dirs(is_rook),
                            squares_of(occ),
                        )
                    },
                forall|occ: u64|
                    index_of(squares_of(occ), magic.mask.0) < i ==> {
                        &&& 0 <= #[trigger] entry(ms, sq, occ) < table.len()
                        &&& table@[entry(ms, sq, occ)]@ == slider_attacks(
                            sq,
                            family_dirs(is_rook),
                            squares_of(occ),
                        )
                    },
            decreases size - i,
        {
            let blockers = generate_blocker_board(i, magic.mask);
            let attacks = if is_rook {
                calculate_rook_attacks(square, blockers)
            } else {
                calculate_bishop_attacks(square, blockers)
            };
            let h = magic.hash(blockers);
            proof {
                lemma_part_in_table(ms, is_rook, sq, blockers.0);
            }
            let ghost before = table@;
            table.set(offset + h, attacks);
            proof {
                let e = entry(ms, sq, blockers.0);
                assert(e == offset + h);
                assert forall|sq2: int, occ: u64| 0 <= sq2 < sq implies {
                    &&& 0 <= #[trigger] entry(ms, sq2, occ) < table.len()
                    &&& table@[entry(ms, sq2, occ)]@ == slider_attacks(
                        sq2,
                        family_dirs(is_rook),
                        squares_of(occ),
                    )
                } by {
                    lemma_part_in_table(ms, is_rook, sq2, occ);
                    lemma_offsets_ordered(ms, is_rook, sq2, sq);
                    assert(before[entry(ms, sq2, occ)] == table@[entry(ms, sq2, occ)]);
                }
                assert forall|occ: u64|
                    index_of(squares_of(occ), magic.mask.0) < i + 1 implies {
                    &&& 0 <= #[trigger] entry(ms, sq, occ) < table.len()
                    &&& table@[entry(ms, sq, occ)]@ == slider_attacks(
                        sq,
                        family_dirs(is_rook),
                        squares_of(occ),
                    )
                } by {
                    lemma_part_in_table(ms, is_rook, sq, occ);
                    if index_of(squares_of(occ), magic.mask.0) == i {
                        lemma_index_of(squares_of(occ), magic.mask.0);
                        lemma_hash_masked(magic.mask.0, magic.magic, magic.shift, occ);
                        lemma_subset_within(i as nat, magic.mask.0);
                        lemma_hash_masked(magic.mask.0, magic.magic, magic.shift, blockers.0);
                        assert(squares_of(blockers.0).intersect(squares_of(magic.mask.0))
                            =~= squares_of(blockers.0));
                        lemma_squares_injective(occ & magic.mask.0, blockers.0 & magic.mask.0);
                    }
                    if entry(ms, sq, occ) == e {
                        assert(magic.hash_spec(occ) == magic.hash_spec(blockers.0));
                    }
                }
            }
            i = i + 1;
        }
        proof {
            assert forall|occ: u64| true implies index_of(squares_of(occ), magic.mask.0)
                < i by {
                lemma_index_of(squares_of(occ), magic.mask.0);
            }
        }
        sq_idx = sq_idx + 1;
    }
    table
}

/// Squares a queen on `sq` attacks: those of a rook and of a bishop there.
pub open spec fn queen_attack_set(sq: int, blockers: Set<int>) -> Set<int> {
    rook_attack_set(sq, blockers).union(bishop_attack_set(sq, blockers))
}

/// Squares a piece of kind `piece` and side `side` on `sq` attacks, given the
/// occupied squares `blockers`. The side matters for pawns only, and
/// `blockers` for sliding pieces only.
pub open spec fn attack_set(sq: int, piece: PieceType, side: Color, blockers: Set<int>) -> Set<
    int,
> {
    match piece {
        PieceType::Pawn => pawn_attack_set(sq, side),
        PieceType::Knight => knight_attack_set(sq),
        PieceType::Bishop => bishop_attack_set(sq, blockers),
        PieceType::Rook => rook_attack_set(sq, blockers),
        PieceType::Queen => queen_attack_set(sq, blockers),
        PieceType::King => king_attack_set(sq),
    }
}

/// Computes the squares a piece attacks directly, by casting rays or
/// applying offsets; the table serves the same answers.
pub fn generate_attacks(square: Square, piece: PieceType, side: Color, blockers: Bitboard) -> (r:
    Bitboard)
    ensures
        r@ == attack_set(square@, piece, side, blockers@),
{
    match piece {
        PieceType::Pawn => {
            let offsets: [(i8, i8); 2] = match side {
                Color::White => [(1, -1), (1, 1)],
                Color::Black => [(-1, -1), (-1, 1)],
            };
            assert(offsets@ =~= crate::leapers::pawn_offsets(side));
            leaper_attacks(square, &offsets)
        },
        PieceType::Knight => {
            let offsets: [(i8, i8); 8] = [
                (2, 1),
                (2, -1),
                (-2, 1),
                (-2, -1),
                (1, 2),
                (1, -2),
                (-1, 2),
                (-1, -2),
            ];
            assert(offsets@ =~= crate::leapers::knight_offsets());
            leaper_attacks(square, &offsets)
        },
        PieceType::Bishop => calculate_bishop_attacks(square, blockers),
        PieceType::Rook => calculate_rook_attacks(square, blockers),
        PieceType::Queen => {
            let rook = calculate_rook_attacks(square, blockers);
            let bishop = calculate_bishop_attacks(square, blockers);
            proof {
                crate::bitboard::lemma_squares_or(rook.0, bishop.0);
            }
            Bitboard(rook.0 | bishop.0)
        },
        PieceType::King => {
            let offsets: [(i8, i8); 8] = [
                (1, 0),
                (-1, 0),
                (0, 1),
                (0, -1),
                (1, 1),
                (1, -1),
                (-1, 1),
                (-1, -1),
            ];
            assert(offsets@ =~= crate::leapers::king_offsets());
            leaper_attacks(square, &offsets)
        },
    }
}

/// Attack sets of every piece on every square, built once and then only read.
pub struct AttackTable {
    rook_attacks: Vec<Bitboard>,
    bishop_attacks: Vec<Bitboard>,
    knight_attacks: Vec<Bitboard>,
    king_attacks: Vec<Bitboard>,
    white_pawn_attacks: Vec<Bitboard>,
    black_pawn_attacks: Vec<Bitboard>,
    rook_magics: Vec<Magic>,
    bishop_magics: Vec<Magic>,
}

impl AttackTable {
    #[verifier::type_invariant]
    spec fn well_formed(self) -> bool {
        &&& magics_ok(self.rook_magics@, true)
        &&& magics_ok(self.bishop_magics@, false)
        &&& table_ok(self.rook_attacks@, self.rook_magics@, true)
        &&& table_ok(self.bishop_attacks@, self.bishop_magics@, false)
        &&& self.knight_attacks.len() == 64
        &&& self.king_attacks.len() == 64
        &&& self.white_pawn_attacks.len() == 64
        &&& self.black_pawn_attacks.len() == 64
        &&& forall|sq: int|
            0 <= sq < 64 ==> (#[trigger] self.knight_attacks@[sq])@ == knight_attack_set(sq)
        &&& forall|sq: int|
            0 <= sq < 64 ==> (#[trigger] self.king_attacks@[sq])@ == king_attack_set(sq)
        &&& forall|sq: int|
            0 <= sq < 64 ==> (#[trigger] self.white_pawn_attacks@[sq])@ == pawn_attack_set(
                sq,
                Color::White,
            )
        &&& forall|sq: int|
            0 <= sq < 64 ==> (#[trigger] self.black_pawn_attacks@[sq])@ == pawn_attack_set(
                sq,
                Color::Black,
            )
    }

    /// The rook's hash parameters.
    pub closed spec fn rook_magics_view(self) -> Seq<Magic> {
        self.rook_magics@
    }

    /// The bishop's hash parameters.
    pub closed spec fn bishop_magics_view(self) -> Seq<Magic> {
        self.bishop_magics@
    }

    /// Length of the rook's table.
    pub closed spec fn rook_table_len(self) -> nat {
        self.rook_attacks@.len()
    }

    /// Length of the bishop's table.
    pub closed spec fn bishop_table_len(self) -> nat {
        self.bishop_attacks@.len()
    }

    /// Builds every table: searches the hash constants of both sliding
    /// pieces, fills their tables, and the leaper tables. `None` when the
    /// search fails for some square.
    pub fn new() -> (r: Option<AttackTable>)
        ensures
            r is None <==> exists|sq: int, is_rook: bool|
                0 <= sq < 64 && #[trigger] family_search_fails(sq, is_rook),
            r matches Some(t) ==> {
                &&& magics_exact(t.rook_magics_view(), true)
                &&& magics_exact(t.bishop_magics_view(), false)
                &&& t.rook_table_len() == table_len(t.rook_magics_view())
                &&& t.bishop_table_len() == table_len(t.bishop_magics_view())
            },
    {
        let rook_magics = match init_rook_magics() {
            Some(m) => m,
            None => {
                return None;
            },
        };
        let bishop_magics = match init_bishop_magics() {
            Some(m) => m,
            None => {
                return None;
            },
        };
        proof {
            assert forall|sq: int, is_rook: bool| 0 <= sq < 64 implies !#[trigger] family_search_fails(
                sq,
                is_rook,
            ) by {
                if is_rook {
                    assert(!family_search_fails(sq, true));
                } else {
                    assert(!family_search_fails(sq, false));
                }
            }
        }
        let rook_attacks = build_table(&rook_magics, true);
        let bishop_attacks = build_table(&bishop_magics, false);
        let knight_attacks = init_knight_attacks();
        let king_attacks = init_king_attacks();
        let (white_pawn_attacks, black_pawn_attacks) = init_pawn_attacks();
        Some(
            AttackTable {
                rook_attacks,
                bishop_attacks,
                knight_attacks,
                king_attacks,
                white_pawn_attacks,
                black_pawn_attacks,
                rook_magics,
                bishop_magics,
            },
        )
    }

    fn slider_lookup(&self, square: Square, blockers: Bitboard, is_rook: bool) -> (r: Bitboard)
        ensures
            r@ == slider_attacks(square@, family_dirs(is_rook), blockers@),
    {
        proof {
            use_type_invariant(self);
        }
        let sq = square.index();
        let (magics, table) = if is_rook {
            (&self.rook_magics, &self.rook_attacks)
        } else {
            (&self.bishop_magics, &self.bishop_attacks)
        };
        let magic = magics[sq];
        proof {
            assert(magics@[sq as int] == magic);
            assert(magic.mask@.len() <= MAX_MASK_BITS);
            assert(0 <= entry(magics@, sq as int, blockers.0) < table.len());
        }
        let hash = magic.hash(blockers);
        table[magic.offset as usize + hash]
    }

    /// Squares a rook on `square` attacks, given the occupied squares `blockers`.
    pub fn rook_attacks(&self, square: Square, blockers: Bitboard) -> (r: Bitboard)
        ensures
            r@ == rook_attack_set(square@, blockers@),
    {
        self.slider_lookup(square, blockers, true)
    }

    /// Squares a bishop on `square` attacks, given the occupied squares `blockers`.
    pub fn bishop_attacks(&self, square: Square, blockers: Bitboard) -> (r: Bitboard)
        ensures
            r@ == bishop_attack_set(square@, blockers@),
    {
        self.slider_lookup(square, blockers, false)
    }

    /// Squares a knight on `square` attacks.
    pub fn knight_attacks(&self, square: Square) -> (r: Bitboard)
        ensures
            r@ == knight_attack_set(square@),
    {
        proof {
            use_type_invariant(self);
        }
        self.knight_attacks[square.index()]
    }

    /// Squares a king on `square` attacks.
    pub fn king_attacks(&self, square: Square) -> (r: Bitboard)
        ensures
            r@ == king_attack_set(square@),
    {
        proof {
            use_type_invariant(self);
        }
        self.king_attacks[square.index()]
    }

    /// Squares a queen on `square` attacks: the union of the rook's and the
    /// bishop's attacks at the same occupancy.
    pub fn queen_attacks(&self, square: Square, blockers: Bitboard) -> (r: Bitboard)
        ensures
            r@ == queen_attack_set(square@, blockers@),
            r@ == rook_attack_set(square@, blockers@).union(bishop_attack_set(square@, blockers@)),
    {
        let rook = self.rook_attacks(square, blockers);
        let bishop = self.bishop_attacks(square, blockers);
        proof {
            crate::bitboard::lemma_squares_or(rook.0, bishop.0);
        }
        rook | bishop
    }

    /// Squares a pawn of `color` on `square` attacks (captures only).
    pub fn pawn_attacks(&self, square: Square, color: Color) -> (r: Bitboard)
        ensures
            r@ == pawn_attack_set(square@, color),
    {
        proof {
            use_type_invariant(self);
        }
        match color {
            Color::White => self.white_pawn_attacks[square.index()],
            Color::Black => self.black_pawn_attacks[square.index()],
        }
    }

    /// Squares a piece of kind `piece` and side `side` on `square` attacks,
    /// given the occupied squares `occupancy`.
    pub fn attacks(&self, square: Square, piece: PieceType, side: Color, occupancy: Bitboard) -> (r:
        Bitboard)
        ensures
            r@ == attack_set(square@, piece, side, occupancy@),
    {
        match piece {
            PieceType::Pawn => self.pawn_attacks(square, side),
            PieceType::Knight => self.knight_attacks(square),
            PieceType::Bishop => self.bishop_attacks(square, occupancy),
            PieceType::Rook => self.rook_attacks(square, occupancy),
            PieceType::Queen => self.queen_attacks(square, occupancy),
            PieceType::King => self.king_attacks(square),
        }
    }
}

} // verus!
