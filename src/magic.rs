use vstd::prelude::*;
use vstd::arithmetic::power2::pow2;
use vstd::bits::{lemma_u64_pow2_no_overflow, lemma_u64_shl_is_mul, lemma_usize_pow2_no_overflow, lemma_usize_shl_is_mul};
use crate::bitboard::{lemma_squares_injective, squares_of, Bitboard};
use crate::geometry::{
    bishop_dirs, calculate_bishop_attacks, calculate_rook_attacks, rook_dirs, slider_attacks,
};
use crate::square::Square;
use crate::subsets::{generate_blocker_board, index_of, lemma_index_of, lemma_subset_within, subset_at};

verus! {

/// Index that `(blockers & mask) * magic >> shift` gives, with the
/// multiplication wrapping; 0 when `shift` is 64 or more.
pub open spec fn hash_value(mask: u64, magic: u64, shift: u32, blockers: u64) -> nat {
    if shift >= 64 {
        0
    } else {
        ((blockers & mask).wrapping_mul(magic) >> (shift as u64)) as nat
    }
}

/// A shift of `64 - n` leaves an index below `2^n`.
pub proof fn lemma_hash_bound(mask: u64, magic: u64, n: nat, blockers: u64)
    requires
        1 <= n < 64,
    ensures
        hash_value(mask, magic, (64 - n) as u32, blockers) < pow2(n),
{
    let w = (blockers & mask).wrapping_mul(magic);
    let k = n as u64;
    assert(1 <= k < 64 ==> (w >> (64 - k) as u64) < (1u64 << k)) by (bit_vector);
    lemma_u64_pow2_no_overflow(n);
    lemma_u64_shl_is_mul(1, k);
}

/// Directions of the rook (`is_rook`) or of the bishop.
pub open spec fn family_dirs(is_rook: bool) -> Seq<(i8, i8)> {
    if is_rook {
        rook_dirs()
    } else {
        bishop_dirs()
    }
}

/// `magic` with `shift` maps any two occupancies within `mask` to one index
/// only where the slider on `sq` attacks the same squares for both.
pub open spec fn separates_within(
    sq: int,
    is_rook: bool,
    mask: u64,
    magic: u64,
    shift: u32,
) -> bool {
    forall|a: u64, b: u64|
        squares_of(a).subset_of(squares_of(mask)) && squares_of(b).subset_of(squares_of(mask))
            && #[trigger] hash_value(mask, magic, shift, a) == #[trigger] hash_value(
            mask,
            magic,
            shift,
            b,
        ) ==> slider_attacks(sq, family_dirs(is_rook), squares_of(a)) == slider_attacks(
            sq,
            family_dirs(is_rook),
            squares_of(b),
        )
}

/// Hash parameters of one square for one sliding piece.
#[derive(Clone, Copy, Debug)]
pub struct Magic {
    pub mask: Bitboard,
    pub magic: u64,
    pub shift: u32,
    pub offset: u32,
}

impl Magic {
    /// Index of `blockers` within this square's part of the table.
    pub open spec fn hash_spec(&self, blockers: u64) -> nat {
        hash_value(self.mask.0, self.magic, self.shift, blockers)
    }

    /// Parameters for `mask` and `magic`, with the shift that leaves
    /// `popcount(mask)` bits.
    pub fn new(mask: Bitboard, magic: u64, offset: u32) -> (r: Magic)
        ensures
            r.mask == mask,
            r.magic == magic,
            r.offset == offset,
            r.shift == 64 - mask@.len(),
    {
        let shift = 64 - mask.count_pieces();
        Magic { mask, magic, shift, offset }
    }

    pub fn hash(&self, blockers: Bitboard) -> (r: usize)
        requires
            self.shift >= 64 || 64 - self.shift < usize::BITS || usize::BITS == 64,
        ensures
            r == self.hash_spec(blockers.0),
    {
        let relevant = blockers.0 & self.mask.0;
        if self.shift >= 64 {
            return 0;
        }
        let hash = relevant.wrapping_mul(self.magic) >> (self.shift as u64);
        proof {
            if usize::BITS == 64 {
                assert(hash <= usize::MAX);
            } else {
                let n = (64 - self.shift) as nat;
                lemma_hash_bound(self.mask.0, self.magic, n, blockers.0);
                lemma_usize_pow2_no_overflow(n);
            }
        }
        hash as usize
    }

    /// Number of table entries the square needs: `2^popcount(mask)`.
    pub fn table_size(&self) -> (r: usize)
        requires
            self.mask@.len() < usize::BITS,
        ensures
            r == pow2(self.mask@.len()),
    {
        let n = self.mask.count_pieces();
        proof {
            lemma_usize_pow2_no_overflow(n as nat);
            lemma_usize_shl_is_mul(1, n as usize);
        }
        1usize << (n as usize)
    }
}

/// One step of the generator's recurrence.
pub open spec fn lcg_step(state: u64) -> u64 {
    state.wrapping_mul(6364136223846793005u64).wrapping_add(1442695040888963407u64)
}

/// Output function of the generator: a fixed bit mixer over its state, so
/// that successive outputs do not share the low-order patterns of the
/// recurrence.
pub open spec fn mix(x: u64) -> u64 {
    let a = (x ^ (x >> 30u64)).wrapping_mul(0xbf58476d1ce4e5b9u64);
    let b = (a ^ (a >> 27u64)).wrapping_mul(0x94d049bb133111ebu64);
    b ^ (b >> 31u64)
}

/// State after `n` steps of the recurrence from `s`.
pub open spec fn lcg_iter(s: u64, n: nat) -> u64
    decreases n,
{
    if n == 0 {
        s
    } else {
        lcg_step(lcg_iter(s, (n - 1) as nat))
    }
}

/// The `k`-th candidate drawn from `seed`: the AND of three successive
/// outputs, each the mixed state after one more step of the recurrence.
pub open spec fn candidate(seed: u64, k: nat) -> u64 {
    mix(lcg_iter(seed, 3 * k + 1)) & mix(lcg_iter(seed, 3 * k + 2)) & mix(lcg_iter(seed, 3 * k + 3))
}

/// Seed of the search for square `sq`.
pub open spec fn search_seed(sq: int) -> u64 {
    (sq + 12345) as u64
}

/// The top byte of `mask * m` has at least six set bits.
pub open spec fn disperses(mask: u64, m: u64) -> bool {
    squares_of(mask.wrapping_mul(m) >> 56u64).len() >= 6
}

/// `m` passes the search's tests for a slider on `sq` with relevant mask
/// `mask`: the dispersion test, and no two occupancies within the mask with
/// different attack sets share an index.
pub open spec fn accepted(sq: int, is_rook: bool, mask: u64, m: u64) -> bool {
    &&& disperses(mask, m)
    &&& separates_within(sq, is_rook, mask, m, (64 - squares_of(mask).len()) as u32)
}

/// No candidate within the budget passes.
pub open spec fn search_fails(sq: int, is_rook: bool, mask: u64) -> bool {
    forall|k: nat|
        k < MAX_ATTEMPTS ==> !accepted(sq, is_rook, mask, #[trigger] candidate(search_seed(sq), k))
}

/// Candidate `k` is the first within the budget that passes.
pub open spec fn first_accepted(sq: int, is_rook: bool, mask: u64, k: nat) -> bool {
    &&& k < MAX_ATTEMPTS
    &&& accepted(sq, is_rook, mask, candidate(search_seed(sq), k))
    &&& forall|j: nat|
        j < k ==> !accepted(sq, is_rook, mask, #[trigger] candidate(search_seed(sq), j))
}

/// A seeded generator of candidate constants: the state follows a
/// linear-congruential recurrence, and each output is the new state passed
/// through a fixed bit mixer. The raw states of this recurrence, ANDed three
/// at a time, find no constant within `MAX_ATTEMPTS` for several rook
/// squares; the mixed outputs do, so the constants differ from those of the
/// raw recurrence but are checked all the same.
#[derive(Debug)]
struct MagicRng {
    state: u64,
}

impl MagicRng {
    fn new(seed: u64) -> (r: MagicRng)
        ensures
            r.state == seed,
    {
        MagicRng { state: seed }
    }

    fn next(&mut self) -> (r: u64)
        ensures
            final(self).state == lcg_step(old(self).state),
            r == mix(final(self).state),
    {
        self.state = self.state.wrapping_mul(6364136223846793005u64).wrapping_add(
            1442695040888963407u64,
        );
        let x = self.state;
        let a = (x ^ (x >> 30u64)).wrapping_mul(0xbf58476d1ce4e5b9u64);
        let b = (a ^ (a >> 27u64)).wrapping_mul(0x94d049bb133111ebu64);
        b ^ (b >> 31u64)
    }

    /// The AND of the next three outputs: a constant with few set bits.
    fn sparse(&mut self) -> (r: u64)
        ensures
            final(self).state == lcg_step(lcg_step(lcg_step(old(self).state))),
            r == mix(lcg_step(old(self).state)) & mix(lcg_step(lcg_step(old(self).state))) & mix(
                lcg_step(lcg_step(lcg_step(old(self).state))),
            ),
    {
        let a = self.next();
        let b = self.next();
        let c = self.next();
        a & b & c
    }
}

/// A constant that passed the check on every enumerated occupancy
/// separates all occupancies within the mask.
proof fn lemma_checked_separates(
    sq: int,
    is_rook: bool,
    mask: u64,
    magic: u64,
    shift: u32,
    blockers: Seq<Bitboard>,
    attacks: Seq<Bitboard>,
    slot: Seq<Bitboard>,
)
    requires
        1 <= squares_of(mask).len() < 64,
        shift == 64 - squares_of(mask).len(),
        blockers.len() == pow2(squares_of(mask).len()),
        attacks.len() == blockers.len(),
        slot.len() == blockers.len(),
        forall|k: int|
            0 <= k < blockers.len() ==> #[trigger] blockers[k]@ == subset_at(k as nat, mask),
        forall|k: int|
            0 <= k < blockers.len() ==> #[trigger] attacks[k]@ == slider_attacks(
                sq,
                family_dirs(is_rook),
                blockers[k]@,
            ),
        forall|k: int|
            0 <= k < blockers.len() ==> slot[hash_value(
                mask,
                magic,
                shift,
                #[trigger] blockers[k].0,
            ) as int] == attacks[k],
    ensures
        separates_within(sq, is_rook, mask, magic, shift),
{
    assert forall|a: u64, b: u64|
        squares_of(a).subset_of(squares_of(mask)) && squares_of(b).subset_of(squares_of(mask))
            && #[trigger] hash_value(mask, magic, shift, a) == #[trigger] hash_value(
            mask,
            magic,
            shift,
            b,
        ) implies slider_attacks(sq, family_dirs(is_rook), squares_of(a)) == slider_attacks(
        sq,
        family_dirs(is_rook),
        squares_of(b),
    ) by {
        lemma_index_of(squares_of(a), mask);
        lemma_index_of(squares_of(b), mask);
        lemma_hash_bound(mask, magic, squares_of(mask).len(), a);
        lemma_hash_bound(mask, magic, squares_of(mask).len(), b);
        let ia = index_of(squares_of(a), mask) as int;
        let ib = index_of(squares_of(b), mask) as int;
        assert(squares_of(a).intersect(squares_of(mask)) =~= squares_of(a));
        assert(squares_of(b).intersect(squares_of(mask)) =~= squares_of(b));
        assert(blockers[ia]@ == squares_of(a));
        assert(blockers[ib]@ == squares_of(b));
        lemma_squares_injective(blockers[ia].0, a);
        lemma_squares_injective(blockers[ib].0, b);
        assert(slot[hash_value(mask, magic, shift, a) as int] == attacks[ia]);
        assert(slot[hash_value(mask, magic, shift, b) as int] == attacks[ib]);
        assert(attacks[ia] == attacks[ib]);
        assert(attacks[ia]@ == slider_attacks(sq, family_dirs(is_rook), blockers[ia]@));
        assert(attacks[ib]@ == slider_attacks(sq, family_dirs(is_rook), blockers[ib]@));
    }
}

/// Two enumerated occupancies share an index under `magic` although their
/// attack sets differ.
pub open spec fn collides(
    mask: u64,
    magic: u64,
    shift: u32,
    blockers: Seq<Bitboard>,
    attacks: Seq<Bitboard>,
) -> bool {
    exists|a: int, b: int|
        0 <= a < blockers.len() && 0 <= b < blockers.len() && #[trigger] hash_value(
            mask,
            magic,
            shift,
            blockers[a].0,
        ) == #[trigger] hash_value(mask, magic, shift, blockers[b].0) && attacks[a] != attacks[b]
}

/// A collision between two enumerated occupancies with different attack sets
/// refutes separation.
proof fn lemma_collision_refutes(
    sq: int,
    is_rook: bool,
    mask: u64,
    magic: u64,
    shift: u32,
    blockers: Seq<Bitboard>,
    attacks: Seq<Bitboard>,
)
    requires
        attacks.len() == blockers.len(),
        forall|k: int|
            0 <= k < blockers.len() ==> #[trigger] blockers[k]@ == subset_at(k as nat, mask),
        forall|k: int|
            0 <= k < blockers.len() ==> #[trigger] attacks[k]@ == slider_attacks(
                sq,
                family_dirs(is_rook),
                blockers[k]@,
            ),
        collides(mask, magic, shift, blockers, attacks),
    ensures
        !separates_within(sq, is_rook, mask, magic, shift),
{
    let (a, b) = choose|a: int, b: int|
        0 <= a < blockers.len() && 0 <= b < blockers.len() && #[trigger] hash_value(
            mask,
            magic,
            shift,
            blockers[a].0,
        ) == #[trigger] hash_value(mask, magic, shift, blockers[b].0) && attacks[a] != attacks[b];
    lemma_subset_within(a as nat, mask);
    lemma_subset_within(b as nat, mask);
    assert(blockers[a]@ == subset_at(a as nat, mask));
    assert(blockers[b]@ == subset_at(b as nat, mask));
    if attacks[a]@ == attacks[b]@ {
        lemma_squares_injective(attacks[a].0, attacks[b].0);
    }
}

/// Tries `magic` on every enumerated occupancy: places each one's attack
/// set at its index, and fails on an index that already holds a different
/// set in this round. A slot counts as filled in this round when its stamp is
/// `round`.
fn check_candidate(
    blockers: &Vec<Bitboard>,
    attacks: &Vec<Bitboard>,
    stamp: &mut Vec<u64>,
    slot: &mut Vec<Bitboard>,
    round: u64,
    mask: u64,
    magic: u64,
    n_bits: u32,
) -> (ok: bool)
    requires
        1 <= n_bits < usize::BITS,
        blockers.len() == pow2(n_bits as nat),
        attacks.len() == blockers.len(),
        old(stamp).len() == blockers.len(),
        old(slot).len() == blockers.len(),
        forall|k: int| 0 <= k < old(stamp).len() ==> #[trigger] old(stamp)@[k] < round,
    ensures
        final(stamp).len() == blockers.len(),
        final(slot).len() == blockers.len(),
        forall|k: int| 0 <= k < final(stamp).len() ==> #[trigger] final(stamp)@[k] <= round,
        ok ==> forall|k: int|
            0 <= k < blockers.len() ==> final(slot)@[hash_value(
                mask,
                magic,
                (64 - n_bits) as u32,
                #[trigger] blockers@[k].0,
            ) as int] == attacks@[k],
        !ok ==> collides(mask, magic, (64 - n_bits) as u32, blockers@, attacks@),
{
    let shift: u32 = 64 - n_bits;
    let num_patterns = blockers.len();
    proof {
        lemma_usize_pow2_no_overflow(n_bits as nat);
        lemma_u64_pow2_no_overflow(n_bits as nat);
    }
    proof {
        assert forall|k: int| 0 <= k < num_patterns implies hash_value(
            mask,
            magic,
            shift,
            #[trigger] blockers@[k].0,
        ) < num_patterns by {
            lemma_hash_bound(mask, magic, n_bits as nat, blockers@[k].0);
        }
    }
    let mut ok = true;
    let mut j: usize = 0;
    while ok && j < num_patterns
        invariant
            1 <= n_bits < usize::BITS,
            shift == 64 - n_bits,
            num_patterns == pow2(n_bits as nat),
            num_patterns == blockers.len(),
            attacks.len() == num_patterns,
            stamp.len() == num_patterns,
            slot.len() == num_patterns,
            j <= num_patterns,
            forall|k: int|
                0 <= k < num_patterns ==> hash_value(mask, magic, shift, #[trigger] blockers@[k].0)
                    < num_patterns,
            forall|k: int| 0 <= k < num_patterns ==> #[trigger] stamp@[k] <= round,
            ok ==> forall|k: int|
                0 <= k < j ==> #[trigger] stamp@[hash_value(
                    mask,
                    magic,
                    shift,
                    blockers@[k].0,
                ) as int] == round,
            ok ==> forall|k: int|
                0 <= k < j ==> slot@[hash_value(
                    mask,
                    magic,
                    shift,
                    #[trigger] blockers@[k].0,
                ) as int] == attacks@[k],
            ok ==> forall|idx: int|
                0 <= idx < num_patterns && #[trigger] stamp@[idx] == round ==> exists|k: int|
                    0 <= k < j && hash_value(mask, magic, shift, blockers@[k].0) == idx
                        && slot@[idx] == attacks@[k],
            !ok ==> collides(mask, magic, shift, blockers@, attacks@),
        decreases num_patterns - j + (if ok {
            1int
        } else {
            0int
        }),
    {
        let b = blockers[j].0;
        proof {
            lemma_hash_bound(mask, magic, n_bits as nat, b);
        }
        let index = ((b & mask).wrapping_mul(magic) >> (shift as u64)) as usize;
        assert(index == hash_value(mask, magic, shift, b));
        let ghost stamp0 = stamp@;
        let ghost slot0 = slot@;
        if stamp[index] != round {
            stamp.set(index, round);
            slot.set(index, attacks[j]);
            proof {
                assert forall|k: int| 0 <= k < j implies hash_value(
                    mask,
                    magic,
                    shift,
                    #[trigger] blockers@[k].0,
                ) != index by {
                    assert(stamp0[hash_value(mask, magic, shift, blockers@[k].0) as int] == round);
                }
                assert forall|idx: int|
                    0 <= idx < num_patterns && #[trigger] stamp@[idx] == round implies exists|k: int|
                        0 <= k < j + 1 && hash_value(mask, magic, shift, blockers@[k].0) == idx
                            && slot@[idx] == attacks@[k] by {
                    if idx == index {
                        assert(hash_value(mask, magic, shift, blockers@[j as int].0) == idx);
                    } else {
                        assert(stamp0[idx] == round);
                        let k = choose|k: int|
                            0 <= k < j && hash_value(mask, magic, shift, blockers@[k].0) == idx
                                && slot0[idx] == attacks@[k];
                        assert(slot@[idx] == slot0[idx]);
                    }
                }
            }
        } else if slot[index] != attacks[j] {
            proof {
                assert(stamp@[index as int] == round);
                let k = choose|k: int|
                    0 <= k < j && hash_value(mask, magic, shift, blockers@[k].0) == index
                        && slot@[index as int] == attacks@[k];
                assert(hash_value(mask, magic, shift, blockers@[k].0) == hash_value(
                    mask,
                    magic,
                    shift,
                    blockers@[j as int].0,
                ));
                assert(attacks@[k] != attacks@[j as int]);
            }
            ok = false;
        }
        if ok {
            j = j + 1;
        }
    }
    ok
}

/// Most candidates tried per square before the search gives up.
pub const MAX_ATTEMPTS: u64 = 100_000_000;

/// Searches for a constant that hashes the occupancies within `mask` of a
/// rook (`is_rook`) or bishop on `square` to `2^popcount(mask)` indices,
/// with two occupancies sharing an index only where their attack sets agree.
/// The candidates come from a `MagicRng` seeded with the square's index plus
/// 12345 (its outputs are mixed states of the recurrence); the result is the
/// first candidate that passes, or `None` when none of the first
/// `MAX_ATTEMPTS` does.
pub fn find_magic(square: Square, mask: Bitboard, is_rook: bool) -> (r: Option<u64>)
    requires
        1 <= mask@.len() < usize::BITS,
    ensures
        r is None <==> search_fails(square@, is_rook, mask.0),
        r matches Some(m) ==> exists|k: nat|
            first_accepted(square@, is_rook, mask.0, k) && m == candidate(search_seed(square@), k),
        r matches Some(m) ==> separates_within(
            square@,
            is_rook,
            mask.0,
            m,
            (64 - mask@.len()) as u32,
        ),
{
    let n_bits = mask.count_pieces();
    let shift: u32 = 64 - n_bits;
    proof {
        lemma_usize_pow2_no_overflow(n_bits as nat);
        lemma_usize_shl_is_mul(1, n_bits as usize);
    }
    let num_patterns: usize = 1usize << (n_bits as usize);
    let mut blockers: Vec<Bitboard> = Vec::new();
    let mut attacks: Vec<Bitboard> = Vec::new();
    let mut i: usize = 0;
    while i < num_patterns
        invariant
            num_patterns == pow2(n_bits as nat),
            i <= num_patterns,
            blockers.len() == i,
            attacks.len() == i,
            forall|k: int| 0 <= k < i ==> #[trigger] blockers@[k]@ == subset_at(k as nat, mask.0),
            forall|k: int|
                0 <= k < i ==> #[trigger] attacks@[k]@ == slider_attacks(
                    square@,
                    family_dirs(is_rook),
                    blockers@[k]@,
                ),
        decreases num_patterns - i,
    {
        let blocker_board = generate_blocker_board(i, mask);
        blockers.push(blocker_board);
        let attack_board = if is_rook {
            calculate_rook_attacks(square, blocker_board)
        } else {
            calculate_bishop_attacks(square, blocker_board)
        };
        attacks.push(attack_board);

        assert(blockers@[i as int] == blocker_board);
        assert(attacks@[i as int] == attack_board);
        i = i + 1;
    }
    let mut rng = MagicRng::new(square.index() as u64 + 12345);
    let mut stamp: Vec<u64> = vec![0u64; num_patterns];
    let mut slot: Vec<Bitboard> = vec![Bitboard(0); num_patterns];
    let mut attempts: u64 = 0;
    while attempts < MAX_ATTEMPTS
        invariant
            num_patterns == pow2(n_bits as nat),
            n_bits == mask@.len(),
            shift == 64 - n_bits,
            1 <= n_bits < usize::BITS,
            blockers.len() == num_patterns,
            attacks.len() == num_patterns,
            stamp.len() == num_patterns,
            slot.len() == num_patterns,
            forall|k: int|
                0 <= k < num_patterns ==> #[trigger] blockers@[k]@ == subset_at(k as nat, mask.0),
            forall|k: int|
                0 <= k < num_patterns ==> #[trigger] attacks@[k]@ == slider_attacks(
                    square@,
                    family_dirs(is_rook),
                    blockers@[k]@,
                ),
            forall|k: int| 0 <= k < num_patterns ==> #[trigger] stamp@[k] <= attempts,
            attempts <= MAX_ATTEMPTS,
            rng.state == lcg_iter(search_seed(square@), 3 * attempts as nat),
            forall|j: nat|
                j < attempts ==> !accepted(
                    square@,
                    is_rook,
                    mask.0,
                    #[trigger] candidate(search_seed(square@), j),
                ),
        decreases MAX_ATTEMPTS - attempts,
    {
        let ghost seed = search_seed(square@);
        let ghost k = attempts as nat;
        assert(lcg_iter(seed, 3 * k + 1) == lcg_step(lcg_iter(seed, 3 * k)));
        assert(lcg_iter(seed, 3 * k + 2) == lcg_step(lcg_iter(seed, 3 * k + 1)));
        assert(lcg_iter(seed, 3 * k + 3) == lcg_step(lcg_iter(seed, 3 * k + 2)));
        attempts = attempts + 1;
        let magic = rng.sparse();
        assert(magic == candidate(seed, k));
        assert(3 * k + 3 == 3 * attempts as nat);
        let dispersed = Bitboard(mask.0.wrapping_mul(magic) >> 56u64).count_pieces() >= 6;
        assert(dispersed == disperses(mask.0, magic));
        if dispersed {
            let ok = check_candidate(
                &blockers,
                &attacks,
                &mut stamp,
                &mut slot,
                attempts,
                mask.0,
                magic,
                n_bits,
            );
            if ok {
                proof {
                    lemma_checked_separates(
                        square@,
                        is_rook,
                        mask.0,
                        magic,
                        shift,
                        blockers@,
                        attacks@,
                        slot@,
                    );
                    assert(first_accepted(square@, is_rook, mask.0, k));
                }
                return Some(magic);
            } else {
                proof {
                    lemma_collision_refutes(
                        square@,
                        is_rook,
                        mask.0,
                        magic,
                        shift,
                        blockers@,
                        attacks@,
                    );
                }
            }
        }
        assert(!accepted(square@, is_rook, mask.0, candidate(seed, k)));
    }
    None
}

} // verus!
