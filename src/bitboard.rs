use vstd::prelude::*;
use vstd::set_lib::{lemma_int_range, lemma_len_subset, set_int_range};
use vstd::std_specs::bits::{
    axiom_u64_leading_zeros, axiom_u64_trailing_zeros, u64_leading_zeros, u64_trailing_zeros,
};
use crate::square::Square;
use vstd::string::StringExecFns;

verus! {

/// Bit `i` of `x`.
pub open spec fn bit(x: u64, i: u64) -> bool {
    (x >> i) & 1u64 == 1u64
}

/// The squares whose bits are set in `x`.
pub open spec fn squares_of(x: u64) -> Set<int> {
    Set::new(|i: int| 0 <= i < 64 && bit(x, i as u64))
}

proof fn lemma_bit_single(i: u64, j: u64)
    requires
        i < 64,
        j < 64,
    ensures
        bit(1u64 << i, j) == (i == j),
{
    assert(i < 64 && j < 64 ==> (((1u64 << i) >> j) & 1u64 == 1u64) == (i == j)) by (bit_vector);
}

proof fn lemma_bit_or(x: u64, y: u64, j: u64)
    ensures
        bit(x | y, j) == (bit(x, j) || bit(y, j)),
{
    assert((((x | y) >> j) & 1u64 == 1u64) == (((x >> j) & 1u64 == 1u64) || ((y >> j) & 1u64
        == 1u64))) by (bit_vector);
}

proof fn lemma_bit_and(x: u64, y: u64, j: u64)
    ensures
        bit(x & y, j) == (bit(x, j) && bit(y, j)),
{
    assert((((x & y) >> j) & 1u64 == 1u64) == (((x >> j) & 1u64 == 1u64) && ((y >> j) & 1u64
        == 1u64))) by (bit_vector);
}

proof fn lemma_bit_xor(x: u64, y: u64, j: u64)
    ensures
        bit(x ^ y, j) == (bit(x, j) != bit(y, j)),
{
    assert((((x ^ y) >> j) & 1u64 == 1u64) == (((x >> j) & 1u64 == 1u64) != ((y >> j) & 1u64
        == 1u64))) by (bit_vector);
}

proof fn lemma_bit_not(x: u64, j: u64)
    requires
        j < 64,
    ensures
        bit(!x, j) == !bit(x, j),
{
    assert(j < 64 ==> (((!x) >> j) & 1u64 == 1u64) == !((x >> j) & 1u64 == 1u64)) by (bit_vector);
}

/// The squares of `x | y` are the union of those of `x` and `y`.
pub proof fn lemma_squares_or(x: u64, y: u64)
    ensures
        squares_of(x | y) == squares_of(x).union(squares_of(y)),
{
    assert forall|i: int| 0 <= i < 64 implies squares_of(x | y).contains(i) == squares_of(
        x,
    ).union(squares_of(y)).contains(i) by {
        lemma_bit_or(x, y, i as u64);
    }
    assert(squares_of(x | y) =~= squares_of(x).union(squares_of(y)));
}

/// The squares of `x & y` are the intersection of those of `x` and `y`.
pub proof fn lemma_squares_and(x: u64, y: u64)
    ensures
        squares_of(x & y) == squares_of(x).intersect(squares_of(y)),
{
    assert forall|i: int| 0 <= i < 64 implies squares_of(x & y).contains(i) == squares_of(
        x,
    ).intersect(squares_of(y)).contains(i) by {
        lemma_bit_and(x, y, i as u64);
    }
    assert(squares_of(x & y) =~= squares_of(x).intersect(squares_of(y)));
}

/// The squares of `x ^ y` are those in exactly one of `x` and `y`.
pub proof fn lemma_squares_xor(x: u64, y: u64)
    ensures
        squares_of(x ^ y) == squares_of(x).difference(squares_of(y)).union(
            squares_of(y).difference(squares_of(x)),
        ),
{
    assert forall|i: int| 0 <= i < 64 implies squares_of(x ^ y).contains(i) == squares_of(
        x,
    ).difference(squares_of(y)).union(squares_of(y).difference(squares_of(x))).contains(i) by {
        lemma_bit_xor(x, y, i as u64);
    }
    assert(squares_of(x ^ y) =~= squares_of(x).difference(squares_of(y)).union(
        squares_of(y).difference(squares_of(x)),
    ));
}

/// The squares of `!x` are the board minus those of `x`.
pub proof fn lemma_squares_not(x: u64)
    ensures
        squares_of(!x) == set_int_range(0, 64).difference(squares_of(x)),
{
    assert forall|i: int| 0 <= i < 64 implies squares_of(!x).contains(i) == !squares_of(
        x,
    ).contains(i) by {
        lemma_bit_not(x, i as u64);
    }
    assert(squares_of(!x) =~= set_int_range(0, 64).difference(squares_of(x)));
}

/// The one square of `1 << i`.
pub proof fn lemma_squares_single(i: u64)
    requires
        i < 64,
    ensures
        squares_of(1u64 << i) == set![i as int],
{
    assert forall|j: int| 0 <= j < 64 implies squares_of(1u64 << i).contains(j) == (j == i) by {
        lemma_bit_single(i, j as u64);
    }
    assert(squares_of(1u64 << i) =~= set![i as int]);
}

/// No square is set in zero.
pub proof fn lemma_squares_zero()
    ensures
        squares_of(0) == Set::<int>::empty(),
{
    assert forall|j: u64| !bit(0, j) by {
        assert(((0u64 >> j) & 1u64 == 1u64) == false) by (bit_vector);
    }
    assert(squares_of(0) =~= Set::<int>::empty());
}

/// A nonzero word has a set bit: its lowest one.
pub proof fn lemma_lowest_bit(x: u64)
    requires
        x != 0,
    ensures
        u64_trailing_zeros(x) < 64,
        squares_of(x).contains(u64_trailing_zeros(x) as int),
        forall|t: int| squares_of(x).contains(t) ==> u64_trailing_zeros(x) <= t,
{
    axiom_u64_trailing_zeros(x);
    let tz = u64_trailing_zeros(x) as u64;
    assert(bit(x, tz));
    assert forall|t: int| squares_of(x).contains(t) implies tz <= t by {
        if t < tz {
            assert((x >> (t as u64)) & 1u64 == 0u64);
        }
    }
}

/// The set of squares is finite, on the board, and has at most 64 members.
pub proof fn lemma_squares_finite(x: u64)
    ensures
        squares_of(x).finite(),
        squares_of(x).subset_of(set_int_range(0, 64)),
        squares_of(x).len() <= 64,
{
    lemma_int_range(0, 64);
    lemma_len_subset(squares_of(x), set_int_range(0, 64));
}

/// A word is determined by its squares.
pub proof fn lemma_squares_injective(x: u64, y: u64)
    requires
        squares_of(x) == squares_of(y),
    ensures
        x == y,
{
    let z = x ^ y;
    if z != 0 {
        lemma_lowest_bit(z);
        let t = u64_trailing_zeros(z) as u64;
        assert(bit(z, t));
        lemma_bit_xor(x, y, t);
        assert(t < 64);
        assert(bit(x, t) != bit(y, t));
        assert(squares_of(x).contains(t as int) == bit(x, t));
        assert(squares_of(y).contains(t as int) == bit(y, t));
    } else {
        assert(x ^ y == 0 ==> x == y) by (bit_vector);
    }
}

/// Text of square `sq`: `1` for a member, `.` otherwise, then a space.
pub open spec fn cell_text(b: Set<int>, sq: int) -> Seq<char> {
    if b.contains(sq) {
        seq!['1', ' ']
    } else {
        seq!['.', ' ']
    }
}

/// Text of the first `f` files of rank `rank`.
pub open spec fn cells_text(b: Set<int>, rank: int, f: nat) -> Seq<char>
    decreases f,
{
    if f == 0 {
        Seq::empty()
    } else {
        cells_text(b, rank, (f - 1) as nat) + cell_text(b, rank * 8 + f - 1)
    }
}

/// Text of the top `n` ranks, rank 8 first, one line each.
pub open spec fn grid_text(b: Set<int>, n: nat) -> Seq<char>
    decreases n,
{
    if n == 0 {
        Seq::empty()
    } else {
        grid_text(b, (n - 1) as nat) + cells_text(b, 8 - n, 8) + seq!['\n']
    }
}

/// A set of squares as a 64-bit word: bit `i` stands for square `i`.
#[derive(Clone, Copy, Debug, PartialEq, Eq, Structural)]
pub struct Bitboard(pub u64);

impl View for Bitboard {
    type V = Set<int>;

    open spec fn view(&self) -> Set<int> {
        squares_of(self.0)
    }
}

impl Bitboard {
    /// The mask with only `square`'s bit set.
    fn single(square: Square) -> (r: u64)
        ensures
            squares_of(r) == set![square@],
    {
        let i = square.index();
        proof {
            lemma_squares_single(i as u64);
        }
        1u64 << i
    }

    pub fn is_set(self, square: Square) -> (r: bool)
        ensures
            r == self@.contains(square@),
    {
        let i = square.index();
        let bitmask = Bitboard::single(square);
        proof {
            lemma_squares_and(self.0, bitmask);
            lemma_squares_zero();
            if self.0 & bitmask == 0 {
                assert(squares_of(self.0 & bitmask).contains(i as int) == false);
            } else {
                lemma_lowest_bit(self.0 & bitmask);
            }
        }
        self.0 & bitmask != 0
    }

    pub fn set(&mut self, square: Square)
        ensures
            final(self)@ == old(self)@.insert(square@),
    {
        let bitmask = Bitboard::single(square);
        proof {
            lemma_squares_or(self.0, bitmask);
            assert(old(self)@.union(set![square@]) =~= old(self)@.insert(square@));
        }
        self.0 = self.0 | bitmask;
    }

    pub fn clear(&mut self, square: Square)
        ensures
            final(self)@ == old(self)@.remove(square@),
    {
        let bitmask = Bitboard::single(square);
        proof {
            lemma_squares_not(bitmask);
            lemma_squares_and(self.0, !bitmask);
            assert(old(self)@.intersect(set_int_range(0, 64).difference(set![square@]))
                =~= old(self)@.remove(square@));
        }
        self.0 = self.0 & !bitmask;
    }

    pub fn toggle(&mut self, square: Square)
        ensures
            old(self)@.contains(square@) ==> final(self)@ == old(self)@.remove(square@),
            !old(self)@.contains(square@) ==> final(self)@ == old(self)@.insert(square@),
    {
        let bitmask = Bitboard::single(square);
        proof {
            lemma_squares_xor(self.0, bitmask);
            let a = old(self)@;
            let b = set![square@];
            if a.contains(square@) {
                assert(a.difference(b).union(b.difference(a)) =~= a.remove(square@));
            } else {
                assert(a.difference(b).union(b.difference(a)) =~= a.insert(square@));
            }
        }
        self.0 = self.0 ^ bitmask;
    }

    /// Number of squares in the set.
    pub fn count_pieces(&self) -> (r: u32)
        ensures
            r == self@.len(),
            r <= 64,
    {
        let x = self.0;
        let mut c: u32 = 0;
        let mut i: u64 = 0;
        proof {
            assert(Set::new(|j: int| 0 <= j < 0 && bit(x, j as u64)) =~= Set::<int>::empty());
        }
        while i < 64
            invariant
                i <= 64,
                c <= i,
                Set::new(|j: int| 0 <= j < i && bit(x, j as u64)).finite(),
                c == Set::new(|j: int| 0 <= j < i && bit(x, j as u64)).len(),
            decreases 64 - i,
        {
            let ghost before = Set::new(|j: int| 0 <= j < i && bit(x, j as u64));
            let ghost after = Set::new(|j: int| 0 <= j < i + 1 && bit(x, j as u64));
            if (x >> i) & 1 == 1 {
                assert(after =~= before.insert(i as int));
                c = c + 1;
            } else {
                assert(after =~= before);
            }
            i = i + 1;
        }
        assert(Set::new(|j: int| 0 <= j < 64 && bit(x, j as u64)) =~= self@);
        c
    }

    pub fn is_empty(&self) -> (r: bool)
        ensures
            r == (self@ == Set::<int>::empty()),
    {
        proof {
            lemma_squares_zero();
            if self.0 != 0 {
                lemma_lowest_bit(self.0);
            }
        }
        self.0 == 0
    }

    pub fn is_not_empty(&self) -> (r: bool)
        ensures
            r == (self@ != Set::<int>::empty()),
    {
        proof {
            lemma_squares_zero();
            if self.0 != 0 {
                lemma_lowest_bit(self.0);
            }
        }
        self.0 != 0
    }

    /// Removes and returns the lowest square of the set.
    pub fn pop_lsb(&mut self) -> (r: Option<Square>)
        ensures
            r is None <==> old(self)@ == Set::<int>::empty(),
            r is None ==> *final(self) == *old(self),
            r matches Some(s) ==> {
                &&& old(self)@.contains(s@)
                &&& forall|t: int| old(self)@.contains(t) ==> s@ <= t
                &&& final(self)@ == old(self)@.remove(s@)
            },
    {
        if self.is_empty() {
            None
        } else {
            let x = self.0;
            let square_index = x.trailing_zeros() as usize;
            proof {
                lemma_squares_zero();
                lemma_lowest_bit(x);
                axiom_u64_trailing_zeros(x);
            }
            let square = Square::from_index(square_index);
            self.clear(square);
            Some(square)
        }
    }

    /// Number of leading zero bits; 64 for the empty set.
    pub fn leading_zeros(&self) -> (r: u32)
        ensures
            r == u64_leading_zeros(self.0),
    {
        self.0.leading_zeros()
    }

    /// Number of trailing zero bits; 64 for the empty set.
    pub fn trailing_zeros(&self) -> (r: u32)
        ensures
            r == u64_trailing_zeros(self.0),
    {
        self.0.trailing_zeros()
    }

    /// The highest square of the set, if any.
    pub fn first_square(&self) -> (r: Option<Square>)
        ensures
            r is None <==> self@ == Set::<int>::empty(),
            r matches Some(s) ==> self@.contains(s@) && forall|t: int| self@.contains(t) ==> t
                <= s@,
    {
        proof {
            lemma_squares_zero();
        }
        if self.0 == 0 {
            None
        } else {
            let x = self.0;
            let lz = x.leading_zeros();
            proof {
                lemma_lowest_bit(x);
                axiom_u64_leading_zeros(x);
                let hi = (63 - lz) as u64;
                assert((x >> hi) & 1u64 != 0u64);
                assert((x >> hi) & 1u64 != 0u64 ==> bit(x, hi)) by (bit_vector);
                assert forall|t: int| self@.contains(t) implies t <= hi by {
                    if t > hi {
                        assert((x >> (t as u64)) & 1u64 == 0u64);
                    }
                }
            }
            Some(Square::from_index((63 - lz) as usize))
        }
    }
    /// The board as eight lines, rank 8 first, each square written as `1`
    /// (member) or `.`, followed by a space.
    pub fn render(&self) -> (r: String)
        ensures
            r@ == grid_text(self@, 8),
    {
        let mut out = String::new();
        let mut n: usize = 0;
        while n < 8
            invariant
                n <= 8,
                out@ == grid_text(self@, n as nat),
            decreases 8 - n,
        {
            let rank: usize = 7 - n;
            let mut file: usize = 0;
            while file < 8
                invariant
                    n < 8,
                    rank == 7 - n,
                    file <= 8,
                    out@ == grid_text(self@, n as nat) + cells_text(self@, rank as int, file as nat),
                decreases 8 - file,
            {
                let square = Square::from_index(rank * 8 + file);
                let ghost before = out@;
                if self.is_set(square) {
                    proof {
                        reveal_strlit("1 ");
                    }
                    out.append("1 ");
                } else {
                    proof {
                        reveal_strlit(". ");
                    }
                    out.append(". ");
                }
                assert(out@ =~= grid_text(self@, n as nat) + cells_text(
                    self@,
                    rank as int,
                    (file + 1) as nat,
                ));
                file = file + 1;
            }
            proof {
                reveal_strlit("\n");
            }
            out.append("\n");
            assert(out@ =~= grid_text(self@, (n + 1) as nat));
            n = n + 1;
        }
        out
    }
}

impl std::ops::BitOr for Bitboard {
    type Output = Bitboard;

    fn bitor(self, rhs: Bitboard) -> Bitboard {
        Bitboard(self.0 | rhs.0)
    }
}

impl vstd::std_specs::ops::BitOrSpecImpl for Bitboard {
    open spec fn obeys_bitor_spec() -> bool {
        true
    }

    open spec fn bitor_req(self, rhs: Bitboard) -> bool {
        true
    }

    open spec fn bitor_spec(self, rhs: Bitboard) -> Bitboard {
        Bitboard(self.0 | rhs.0)
    }
}

impl std::ops::BitAnd for Bitboard {
    type Output = Bitboard;

    fn bitand(self, rhs: Bitboard) -> Bitboard {
        Bitboard(self.0 & rhs.0)
    }
}

impl vstd::std_specs::ops::BitAndSpecImpl for Bitboard {
    open spec fn obeys_bitand_spec() -> bool {
        true
    }

    open spec fn bitand_req(self, rhs: Bitboard) -> bool {
        true
    }

    open spec fn bitand_spec(self, rhs: Bitboard) -> Bitboard {
        Bitboard(self.0 & rhs.0)
    }
}

impl std::ops::BitXor for Bitboard {
    type Output = Bitboard;

    fn bitxor(self, rhs: Bitboard) -> Bitboard {
        Bitboard(self.0 ^ rhs.0)
    }
}

impl vstd::std_specs::ops::BitXorSpecImpl for Bitboard {
    open spec fn obeys_bitxor_spec() -> bool {
        true
    }

    open spec fn bitxor_req(self, rhs: Bitboard) -> bool {
        true
    }

    open spec fn bitxor_spec(self, rhs: Bitboard) -> Bitboard {
        Bitboard(self.0 ^ rhs.0)
    }
}

impl std::ops::Not for Bitboard {
    type Output = Bitboard;

    fn not(self) -> Bitboard {
        Bitboard(!self.0)
    }
}

impl vstd::std_specs::ops::NotSpecImpl for Bitboard {
    open spec fn obeys_not_spec() -> bool {
        true
    }

    open spec fn not_req(self) -> bool {
        true
    }

    open spec fn not_spec(self) -> Bitboard {
        Bitboard(!self.0)
    }
}

impl std::ops::Shl<u32> for Bitboard {
    type Output = Bitboard;

    fn shl(self, rhs: u32) -> Bitboard {
        Bitboard(self.0 << rhs)
    }
}

impl vstd::std_specs::ops::ShlSpecImpl<u32> for Bitboard {
    open spec fn obeys_shl_spec() -> bool {
        true
    }

    open spec fn shl_req(self, rhs: u32) -> bool {
        rhs < 64
    }

    open spec fn shl_spec(self, rhs: u32) -> Bitboard {
        Bitboard(self.0 << rhs)
    }
}

impl std::ops::Shr<u32> for Bitboard {
    type Output = Bitboard;

    fn shr(self, rhs: u32) -> Bitboard {
        Bitboard(self.0 >> rhs)
    }
}

impl vstd::std_specs::ops::ShrSpecImpl<u32> for Bitboard {
    open spec fn obeys_shr_spec() -> bool {
        true
    }

    open spec fn shr_req(self, rhs: u32) -> bool {
        rhs < 64
    }

    open spec fn shr_spec(self, rhs: u32) -> Bitboard {
        Bitboard(self.0 >> rhs)
    }
}

} // verus!
