use vstd::prelude::*;
use vstd::arithmetic::power::lemma_pow0;
use vstd::arithmetic::power2::{lemma_pow2_unfold, pow2};
use vstd::set_lib::set_int_range;
use vstd::std_specs::bits::u64_trailing_zeros;
use crate::bitboard::{
    lemma_lowest_bit, lemma_squares_and, lemma_squares_finite, lemma_squares_injective,
    lemma_squares_not, lemma_squares_single, lemma_squares_zero, squares_of, Bitboard,
};

verus! {

/// Lowest set bit of `m`.
pub open spec fn low(m: u64) -> int {
    u64_trailing_zeros(m) as int
}

/// `m` with its lowest set bit cleared.
pub open spec fn without_low(m: u64) -> u64 {
    m & !(1u64 << u64_trailing_zeros(m))
}

/// Clearing the lowest set bit removes the lowest square and makes the word smaller.
pub proof fn lemma_without_low(m: u64)
    requires
        m != 0,
    ensures
        0 <= low(m) < 64,
        squares_of(m).contains(low(m)),
        forall|t: int| squares_of(m).contains(t) ==> low(m) <= t,
        squares_of(without_low(m)) == squares_of(m).remove(low(m)),
        without_low(m) < m,
        squares_of(without_low(m)).len() + 1 == squares_of(m).len(),
{
    lemma_lowest_bit(m);
    let s = u64_trailing_zeros(m);
    let b = 1u64 << s;
    lemma_squares_single(s as u64);
    lemma_squares_not(b);
    lemma_squares_and(m, !b);
    assert(squares_of(m).intersect(set_int_range(0, 64).difference(set![s as int]))
        =~= squares_of(m).remove(s as int));
    let su = s as u64;
    assert(((m >> su) & 1u64 == 1u64) && su < 64 ==> (m & !(1u64 << su)) < m) by (bit_vector);
    assert(s as u64 == su);
    lemma_squares_finite(m);
}

/// The subset of the squares of `m` that `index` selects: bit `k` of `index`
/// selects the `k`-th lowest square of `m`.
pub open spec fn subset_at(index: nat, m: u64) -> Set<int>
    decreases m,
    via subset_at_decreases
{
    if m == 0 {
        Set::empty()
    } else {
        let rest = subset_at(index / 2, without_low(m));
        if index % 2 == 1 {
            rest.insert(low(m))
        } else {
            rest
        }
    }
}

#[via_fn]
proof fn subset_at_decreases(index: nat, m: u64) {
    if m != 0 {
        lemma_without_low(m);
    }
}

/// The index that selects the squares of `x` that lie in `m`.
pub open spec fn index_of(x: Set<int>, m: u64) -> nat
    decreases m,
    via index_of_decreases
{
    if m == 0 {
        0
    } else {
        (if x.contains(low(m)) {
            1nat
        } else {
            0nat
        }) + 2 * index_of(x, without_low(m))
    }
}

#[via_fn]
proof fn index_of_decreases(x: Set<int>, m: u64) {
    if m != 0 {
        lemma_without_low(m);
    }
}

/// Every selected subset lies within the mask.
pub proof fn lemma_subset_within(index: nat, m: u64)
    ensures
        subset_at(index, m).subset_of(squares_of(m)),
    decreases m,
{
    if m != 0 {
        lemma_without_low(m);
        lemma_subset_within(index / 2, without_low(m));
    }
}

/// Different indices below `2^|m|` select different subsets of `m`, each
/// of them within `m`.
pub proof fn lemma_subsets_distinct(i: nat, j: nat, m: u64)
    requires
        i < pow2(squares_of(m).len()),
        j < pow2(squares_of(m).len()),
        i != j,
    ensures
        subset_at(i, m) != subset_at(j, m),
        subset_at(i, m).subset_of(squares_of(m)),
        subset_at(j, m).subset_of(squares_of(m)),
    decreases m,
{
    lemma_subset_within(i, m);
    lemma_subset_within(j, m);
    if m == 0 {
        lemma_squares_zero();
        assert(squares_of(m).len() == 0);
        lemma_pow0(2);
    } else {
        lemma_without_low(m);
        let m2 = without_low(m);
        let s = low(m);
        let n = squares_of(m).len();
        lemma_pow2_unfold(n);
        lemma_subset_within(i / 2, m2);
        lemma_subset_within(j / 2, m2);
        assert(!squares_of(m2).contains(s));
        if i % 2 != j % 2 {
            assert(subset_at(i, m).contains(s) != subset_at(j, m).contains(s));
        } else {
            lemma_subsets_distinct(i / 2, j / 2, m2);
            let a = subset_at(i / 2, m2);
            let b = subset_at(j / 2, m2);
            if a.insert(s) == b.insert(s) {
                assert(a =~= a.insert(s).remove(s));
                assert(b =~= b.insert(s).remove(s));
            }
        }
    }
}

/// Every subset of `m` is selected by an index below `2^|m|`.
pub proof fn lemma_index_of(x: Set<int>, m: u64)
    ensures
        index_of(x, m) < pow2(squares_of(m).len()),
        subset_at(index_of(x, m), m) == x.intersect(squares_of(m)),
    decreases m,
{
    if m == 0 {
        lemma_squares_zero();
        lemma_pow0(2);
        assert(x.intersect(squares_of(m)) =~= Set::<int>::empty());
    } else {
        lemma_without_low(m);
        let m2 = without_low(m);
        let n = squares_of(m).len();
        lemma_pow2_unfold(n);
        lemma_index_of(x, m2);
        let k = index_of(x, m);
        let k2 = index_of(x, m2);
        assert(k / 2 == k2);
        if x.contains(low(m)) {
            assert(k % 2 == 1);
            assert(x.intersect(squares_of(m2)).insert(low(m)) =~= x.intersect(squares_of(m)));
        } else {
            assert(k % 2 == 0);
            assert(x.intersect(squares_of(m2)) =~= x.intersect(squares_of(m)));
        }
    }
}

/// The `index`-th occupancy pattern of `mask`: bit `k` of `index` selects
/// the `k`-th lowest square of `mask`.
pub fn generate_blocker_board(index: usize, mask: Bitboard) -> (r: Bitboard)
    ensures
        r@ == subset_at(index as nat, mask.0),
{
    let mut blockers = Bitboard(0);
    let mut mask_copy = mask;
    let mut rest: usize = index;
    proof {
        lemma_squares_zero();
        assert(blockers@.union(subset_at(rest as nat, mask_copy.0)) =~= subset_at(
            index as nat,
            mask.0,
        ));
    }
    loop
        invariant
            blockers@.union(subset_at(rest as nat, mask_copy.0)) == subset_at(
                index as nat,
                mask.0,
            ),
        ensures
            blockers@ == subset_at(index as nat, mask.0),
        decreases mask_copy.0,
    {
        let ghost m = mask_copy.0;
        match mask_copy.pop_lsb() {
            None => {
                proof {
                    lemma_squares_zero();
                    if m != 0 {
                        lemma_without_low(m);
                    }
                    assert(blockers@.union(Set::<int>::empty()) =~= blockers@);
                }
                break ;
            },
            Some(square) => {
                proof {
                    lemma_squares_zero();
                    lemma_without_low(m);
                    assert(square@ == low(m));
                    lemma_squares_injective(mask_copy.0, without_low(m));
                }
                let ghost before = blockers@;
                assert((rest & 1 == 1) == (rest % 2 == 1)) by (bit_vector);
                let odd = rest & 1 == 1;
                if odd {
                    blockers.set(square);
                }
                assert(rest >> 1 == rest / 2) by (bit_vector);
                let ghost prev_rest = rest;
                rest = rest >> 1;
                assert(subset_at(prev_rest as nat, m) == if odd {
                    subset_at(rest as nat, mask_copy.0).insert(low(m))
                } else {
                    subset_at(rest as nat, mask_copy.0)
                });
                assert(blockers@.union(subset_at(rest as nat, mask_copy.0)) =~= before.union(
                    subset_at(prev_rest as nat, m),
                ));
            },
        }
    }
    blockers
}

} // verus!
