use vstd::prelude::*;
use crate::bitboard::Bitboard;
use crate::square::{file_of, rank_of, square_at, Square};
use crate::types::PieceType;
use vstd::set_lib::lemma_len_union;

verus! {

/// `(f, r)` is a square of the board.
pub open spec fn on_board(f: int, r: int) -> bool {
    0 <= f < 8 && 0 <= r < 8
}

/// `(df, dr)` moves a piece: not both parts zero.
pub open spec fn is_step(df: int, dr: int) -> bool {
    df != 0 || dr != 0
}

/// Every entry of `dirs` is a step.
pub open spec fn all_steps(dirs: Seq<(i8, i8)>) -> bool {
    forall|i: int| 0 <= i < dirs.len() ==> is_step(#[trigger] dirs[i].0 as int, dirs[i].1 as int)
}

/// A bound on how many more steps a ray from `(f, r)` can take.
pub open spec fn steps_left(f: int, r: int, df: int, dr: int) -> int {
    (if df > 0 {
        7 - f
    } else if df < 0 {
        f
    } else {
        7
    }) + (if dr > 0 {
        7 - r
    } else if dr < 0 {
        r
    } else {
        7
    })
}

/// Squares attacked by a slider on `(f, r)` moving by `(df, dr)`: each square
/// along the way, up to and including the first one in `blockers`, or up to
/// the edge of the board.
pub open spec fn ray(f: int, r: int, df: int, dr: int, blockers: Set<int>) -> Set<int>
    decreases steps_left(f, r, df, dr),
{
    let nf = f + df;
    let nr = r + dr;
    if !(on_board(f, r) && is_step(df, dr) && on_board(nf, nr)) {
        Set::empty()
    } else if blockers.contains(square_at(nf, nr)) {
        set![square_at(nf, nr)]
    } else {
        ray(nf, nr, df, dr, blockers).insert(square_at(nf, nr))
    }
}

/// Squares along the ray from `(f, r)` whose occupancy can stop it: every
/// square of the ray but the last one before the edge.
pub open spec fn mask_ray(f: int, r: int, df: int, dr: int) -> Set<int>
    decreases steps_left(f, r, df, dr),
{
    let nf = f + df;
    let nr = r + dr;
    if !(on_board(f, r) && is_step(df, dr) && on_board(nf, nr) && on_board(nf + df, nr + dr)) {
        Set::empty()
    } else {
        mask_ray(nf, nr, df, dr).insert(square_at(nf, nr))
    }
}

/// Union of the rays from `(f, r)` in each direction of `dirs`.
pub open spec fn rays(f: int, r: int, dirs: Seq<(i8, i8)>, blockers: Set<int>) -> Set<int>
    decreases dirs.len(),
{
    if dirs.len() == 0 {
        Set::empty()
    } else {
        let d = dirs.last();
        rays(f, r, dirs.drop_last(), blockers).union(ray(f, r, d.0 as int, d.1 as int, blockers))
    }
}

/// Union of the relevant squares of the rays from `(f, r)` in each direction of `dirs`.
pub open spec fn mask_rays(f: int, r: int, dirs: Seq<(i8, i8)>) -> Set<int>
    decreases dirs.len(),
{
    if dirs.len() == 0 {
        Set::empty()
    } else {
        let d = dirs.last();
        mask_rays(f, r, dirs.drop_last()).union(mask_ray(f, r, d.0 as int, d.1 as int))
    }
}

/// The rook's directions, as (file step, rank step).
pub open spec fn rook_dirs() -> Seq<(i8, i8)> {
    seq![(0i8, 1i8), (0i8, -1i8), (1i8, 0i8), (-1i8, 0i8)]
}

/// The bishop's directions, as (file step, rank step).
pub open spec fn bishop_dirs() -> Seq<(i8, i8)> {
    seq![(1i8, 1i8), (1i8, -1i8), (-1i8, 1i8), (-1i8, -1i8)]
}

/// Squares a slider on `sq` with directions `dirs` attacks, given `blockers`.
pub open spec fn slider_attacks(sq: int, dirs: Seq<(i8, i8)>, blockers: Set<int>) -> Set<int> {
    rays(file_of(sq), rank_of(sq), dirs, blockers)
}

/// Relevant occupancy of a slider on `sq` with directions `dirs`.
pub open spec fn slider_mask(sq: int, dirs: Seq<(i8, i8)>) -> Set<int> {
    mask_rays(file_of(sq), rank_of(sq), dirs)
}

/// Squares a rook on `sq` attacks, given `blockers`.
pub open spec fn rook_attack_set(sq: int, blockers: Set<int>) -> Set<int> {
    slider_attacks(sq, rook_dirs(), blockers)
}

/// Squares a bishop on `sq` attacks, given `blockers`.
pub open spec fn bishop_attack_set(sq: int, blockers: Set<int>) -> Set<int> {
    slider_attacks(sq, bishop_dirs(), blockers)
}

/// Relevant occupancy mask of a rook on `sq`.
pub open spec fn rook_mask_set(sq: int) -> Set<int> {
    slider_mask(sq, rook_dirs())
}

/// Relevant occupancy mask of a bishop on `sq`.
pub open spec fn bishop_mask_set(sq: int) -> Set<int> {
    slider_mask(sq, bishop_dirs())
}

/// Relevant occupancy mask of a piece of kind `pt` on `sq`: empty for
/// pieces that do not slide.
pub open spec fn occupancy_mask_set(sq: int, pt: PieceType) -> Set<int> {
    match pt {
        PieceType::Rook => rook_mask_set(sq),
        PieceType::Bishop => bishop_mask_set(sq),
        _ => Set::empty(),
    }
}

/// A ray depends on the blockers only through its relevant squares.
pub proof fn lemma_ray_relevant(f: int, r: int, df: int, dr: int, blockers: Set<int>)
    ensures
        ray(f, r, df, dr, blockers) == ray(f, r, df, dr, blockers.intersect(
            mask_ray(f, r, df, dr),
        )),
    decreases steps_left(f, r, df, dr),
{
    let nf = f + df;
    let nr = r + dr;
    let b2 = blockers.intersect(mask_ray(f, r, df, dr));
    if on_board(f, r) && is_step(df, dr) && on_board(nf, nr) {
        let t = square_at(nf, nr);
        if !on_board(nf + df, nr + dr) {
            assert(mask_ray(f, r, df, dr) == Set::<int>::empty());
            assert(ray(nf, nr, df, dr, blockers) == Set::<int>::empty());
            assert(ray(nf, nr, df, dr, b2) == Set::<int>::empty());
            assert(ray(f, r, df, dr, blockers) =~= set![t]);
            assert(ray(f, r, df, dr, b2) =~= set![t]);
        } else {
            let m = mask_ray(nf, nr, df, dr);
            assert(mask_ray(f, r, df, dr) == m.insert(t));
            assert(b2.contains(t) == blockers.contains(t));
            if !blockers.contains(t) {
                lemma_ray_relevant(nf, nr, df, dr, blockers);
                lemma_ray_relevant(nf, nr, df, dr, b2);
                assert(b2.intersect(m) =~= blockers.intersect(m));
            }
        }
    }
}

/// A ray depends on the blockers only through any superset of its relevant squares.
pub proof fn lemma_ray_within(f: int, r: int, df: int, dr: int, blockers: Set<int>, m: Set<int>)
    requires
        mask_ray(f, r, df, dr).subset_of(m),
    ensures
        ray(f, r, df, dr, blockers) == ray(f, r, df, dr, blockers.intersect(m)),
{
    let mr = mask_ray(f, r, df, dr);
    lemma_ray_relevant(f, r, df, dr, blockers);
    lemma_ray_relevant(f, r, df, dr, blockers.intersect(m));
    assert(blockers.intersect(m).intersect(mr) =~= blockers.intersect(mr));
}

/// The union of rays depends on the blockers only through any superset of
/// their relevant squares.
pub proof fn lemma_rays_within(f: int, r: int, dirs: Seq<(i8, i8)>, blockers: Set<int>, m: Set<int>)
    requires
        mask_rays(f, r, dirs).subset_of(m),
    ensures
        rays(f, r, dirs, blockers) == rays(f, r, dirs, blockers.intersect(m)),
    decreases dirs.len(),
{
    if dirs.len() > 0 {
        let d = dirs.last();
        lemma_rays_within(f, r, dirs.drop_last(), blockers, m);
        lemma_ray_within(f, r, d.0 as int, d.1 as int, blockers, m);
    }
}

/// A slider's attacks depend on the blockers only through its relevant mask.
pub proof fn lemma_slider_relevant(sq: int, dirs: Seq<(i8, i8)>, blockers: Set<int>)
    ensures
        slider_attacks(sq, dirs, blockers) == slider_attacks(
            sq,
            dirs,
            blockers.intersect(slider_mask(sq, dirs)),
        ),
{
    lemma_rays_within(file_of(sq), rank_of(sq), dirs, blockers, slider_mask(sq, dirs));
}

/// Casts one ray from `square` and returns the squares it attacks.
fn cast_ray(square: Square, df: i8, dr: i8, blockers: Bitboard) -> (r: Bitboard)
    requires
        is_step(df as int, dr as int),
    ensures
        r@ == ray(file_of(square@), rank_of(square@), df as int, dr as int, blockers@),
{
    let mut attacks = Bitboard(0);
    proof {
        crate::bitboard::lemma_squares_zero();
    }
    let f0 = square.file() as i16;
    let r0 = square.rank() as i16;
    let mut f = f0;
    let mut r = r0;
    loop
        invariant
            on_board(f as int, r as int),
            is_step(df as int, dr as int),
            f0 == file_of(square@),
            r0 == rank_of(square@),
            attacks@.union(ray(f as int, r as int, df as int, dr as int, blockers@)) == ray(
                f0 as int,
                r0 as int,
                df as int,
                dr as int,
                blockers@,
            ),
        ensures
            attacks@ == ray(f0 as int, r0 as int, df as int, dr as int, blockers@),
        decreases steps_left(f as int, r as int, df as int, dr as int),
    {
        let nf = f + df as i16;
        let nr = r + dr as i16;
        if !(0 <= nf && nf <= 7 && 0 <= nr && nr <= 7) {
            assert(ray(f as int, r as int, df as int, dr as int, blockers@) == Set::<int>::empty());
            assert(attacks@.union(Set::<int>::empty()) =~= attacks@);
            break;
        }
        let target = Square::from_coords(nf as u8, nr as u8);
        assert(target@ == square_at(nf as int, nr as int));
        let ghost before = attacks@;
        attacks.set(target);
        if blockers.is_set(target) {
            assert(before.union(set![target@]) =~= attacks@);
            assert(attacks@.union(Set::<int>::empty()) =~= attacks@);
            break;
        }
        assert(before.union(ray(nf as int, nr as int, df as int, dr as int, blockers@).insert(
            target@,
        )) =~= attacks@.union(ray(nf as int, nr as int, df as int, dr as int, blockers@)));
        f = nf;
        r = nr;
    }
    attacks
}

/// Squares attacked by a slider on `square` that moves in each of
/// `directions` (file step, rank step), stopping at the first square in
/// `blockers` (which is attacked) or at the edge.
pub fn generate_sliding_attacks(square: Square, directions: &[(i8, i8)], blockers: Bitboard) -> (r:
    Bitboard)
    requires
        all_steps(directions@),
    ensures
        r@ == slider_attacks(square@, directions@, blockers@),
{
    let mut attacks = Bitboard(0);
    proof {
        crate::bitboard::lemma_squares_zero();
        assert(directions@.take(0) =~= Seq::<(i8, i8)>::empty());
    }
    let mut i: usize = 0;
    while i < directions.len()
        invariant
            i <= directions@.len(),
            all_steps(directions@),
            attacks@ == slider_attacks(square@, directions@.take(i as int), blockers@),
        decreases directions@.len() - i,
    {
        let (df, dr) = directions[i];
        assert(is_step(directions@[i as int].0 as int, directions@[i as int].1 as int));
        let ray_attacks = cast_ray(square, df, dr, blockers);
        proof {
            crate::bitboard::lemma_squares_or(attacks.0, ray_attacks.0);
            assert(directions@.take(i + 1).drop_last() =~= directions@.take(i as int));
        }
        attacks = Bitboard(attacks.0 | ray_attacks.0);
        i = i + 1;
    }
    assert(directions@.take(i as int) =~= directions@);
    attacks
}

/// Adds to `mask` the squares of the ray from `square` by `(file_delta,
/// rank_delta)` whose next square along the ray is still on the board.
fn generate_ray(square: Square, file_delta: i8, rank_delta: i8, mask: &mut Bitboard)
    requires
        is_step(file_delta as int, rank_delta as int),
    ensures
        final(mask)@ == old(mask)@.union(
            mask_ray(file_of(square@), rank_of(square@), file_delta as int, rank_delta as int),
        ),
{
    let df = file_delta as i16;
    let dr = rank_delta as i16;
    let f0 = square.file() as i16;
    let r0 = square.rank() as i16;
    let mut cf = f0;
    let mut cr = r0;
    let ghost start = mask@;
    loop
        invariant
            on_board(cf as int, cr as int),
            is_step(df as int, dr as int),
            df == file_delta as i16,
            dr == rank_delta as i16,
            mask@.union(mask_ray(cf as int, cr as int, df as int, dr as int)) == start.union(
                mask_ray(f0 as int, r0 as int, df as int, dr as int),
            ),
        ensures
            mask@ == start.union(mask_ray(f0 as int, r0 as int, df as int, dr as int)),
        decreases steps_left(cf as int, cr as int, df as int, dr as int),
    {
        let nf = cf + df;
        let nr = cr + dr;
        if !(0 <= nf && nf <= 7 && 0 <= nr && nr <= 7) || !(0 <= nf + df && nf + df <= 7 && 0
            <= nr + dr && nr + dr <= 7) {
            assert(mask_ray(cf as int, cr as int, df as int, dr as int) == Set::<int>::empty());
            assert(mask@.union(Set::<int>::empty()) =~= mask@);
            break;
        }
        let new_square = Square::from_coords(nf as u8, nr as u8);
        let ghost before = mask@;
        mask.set(new_square);
        assert(before.union(mask_ray(nf as int, nr as int, df as int, dr as int).insert(
            new_square@,
        )) =~= mask@.union(mask_ray(nf as int, nr as int, df as int, dr as int)));
        cf = nf;
        cr = nr;
    }
}

proof fn lemma_mask_rays_four(f: int, r: int, d: Seq<(i8, i8)>)
    requires
        d.len() == 4,
    ensures
        mask_rays(f, r, d) == Set::<int>::empty().union(
            mask_ray(f, r, d[0].0 as int, d[0].1 as int),
        ).union(mask_ray(f, r, d[1].0 as int, d[1].1 as int)).union(
            mask_ray(f, r, d[2].0 as int, d[2].1 as int),
        ).union(mask_ray(f, r, d[3].0 as int, d[3].1 as int)),
{
    let d3 = d.drop_last();
    let d2 = d3.drop_last();
    let d1 = d2.drop_last();
    let d0 = d1.drop_last();
    assert(d0.len() == 0);
    assert(d1.last() == d[0]);
    assert(d2.last() == d[1]);
    assert(d3.last() == d[2]);
    assert(d.last() == d[3]);
    assert(mask_rays(f, r, d0) == Set::<int>::empty());
    assert(mask_rays(f, r, d1) == mask_rays(f, r, d0).union(
        mask_ray(f, r, d[0].0 as int, d[0].1 as int),
    ));
    assert(mask_rays(f, r, d2) == mask_rays(f, r, d1).union(
        mask_ray(f, r, d[1].0 as int, d[1].1 as int),
    ));
    assert(mask_rays(f, r, d3) == mask_rays(f, r, d2).union(
        mask_ray(f, r, d[2].0 as int, d[2].1 as int),
    ));
    assert(mask_rays(f, r, d) == mask_rays(f, r, d3).union(
        mask_ray(f, r, d[3].0 as int, d[3].1 as int),
    ));
}

/// Relevant occupancy mask of a piece of kind `piece_type` on `square`: the
/// squares along its rays, each but the last before the edge. Empty for
/// pieces that do not slide.
pub fn generate_occupancy_mask(square: Square, piece_type: PieceType) -> (r: Bitboard)
    ensures
        r@ == occupancy_mask_set(square@, piece_type),
{
    let mut mask = Bitboard(0);
    proof {
        crate::bitboard::lemma_squares_zero();
    }
    let ghost f = file_of(square@);
    let ghost r = rank_of(square@);
    match piece_type {
        PieceType::Rook => {
            generate_ray(square, 0, 1, &mut mask);
            generate_ray(square, 0, -1, &mut mask);
            generate_ray(square, 1, 0, &mut mask);
            generate_ray(square, -1, 0, &mut mask);
            proof {
                let d = rook_dirs();
                lemma_mask_rays_four(f, r, d);
            }
        },
        PieceType::Bishop => {
            generate_ray(square, 1, 1, &mut mask);
            generate_ray(square, 1, -1, &mut mask);
            generate_ray(square, -1, 1, &mut mask);
            generate_ray(square, -1, -1, &mut mask);
            proof {
                let d = bishop_dirs();
                lemma_mask_rays_four(f, r, d);
            }
        },
        _ => {},
    }
    mask
}

/// Relevant occupancy mask of a rook on `square`.
pub fn generate_rook_mask(square: Square) -> (r: Bitboard)
    ensures
        r@ == rook_mask_set(square@),
{
    generate_occupancy_mask(square, PieceType::Rook)
}

/// Relevant occupancy mask of a bishop on `square`.
pub fn generate_bishop_mask(square: Square) -> (r: Bitboard)
    ensures
        r@ == bishop_mask_set(square@),
{
    generate_occupancy_mask(square, PieceType::Bishop)
}

/// Squares a rook on `square` attacks, given `blockers`.
pub fn calculate_rook_attacks(square: Square, blockers: Bitboard) -> (r: Bitboard)
    ensures
        r@ == rook_attack_set(square@, blockers@),
{
    let dirs: [(i8, i8); 4] = [(0, 1), (0, -1), (1, 0), (-1, 0)];
    assert(dirs@ =~= rook_dirs());
    generate_sliding_attacks(square, &dirs, blockers)
}

/// Squares a bishop on `square` attacks, given `blockers`.
pub fn calculate_bishop_attacks(square: Square, blockers: Bitboard) -> (r: Bitboard)
    ensures
        r@ == bishop_attack_set(square@, blockers@),
{
    let dirs: [(i8, i8); 4] = [(1, 1), (1, -1), (-1, 1), (-1, -1)];
    assert(dirs@ =~= bishop_dirs());
    generate_sliding_attacks(square, &dirs, blockers)
}

/// How many squares a unit-step ray from `(f, r)` can still enter.
pub open spec fn room(f: int, r: int, df: int, dr: int) -> int {
    if df == 1 {
        7 - f
    } else if df == -1 {
        f
    } else if dr == 1 {
        7 - r
    } else if dr == -1 {
        r
    } else {
        0
    }
}

/// A unit-step ray's relevant squares are finite and leave out the last
/// square it can enter.
proof fn lemma_mask_ray_size(f: int, r: int, df: int, dr: int)
    requires
        on_board(f, r),
        -1 <= df <= 1,
        -1 <= dr <= 1,
    ensures
        mask_ray(f, r, df, dr).finite(),
        mask_ray(f, r, df, dr).len() <= if room(f, r, df, dr) >= 1 {
            room(f, r, df, dr) - 1
        } else {
            0
        },
    decreases steps_left(f, r, df, dr),
{
    let nf = f + df;
    let nr = r + dr;
    if is_step(df, dr) && on_board(nf, nr) && on_board(nf + df, nr + dr) {
        lemma_mask_ray_size(nf, nr, df, dr);
    }
}

/// The relevant mask of a rook or bishop has between 1 and 24 squares.
pub proof fn lemma_slider_mask_size(sq: int, dirs: Seq<(i8, i8)>)
    requires
        0 <= sq < 64,
        dirs == rook_dirs() || dirs == bishop_dirs(),
    ensures
        slider_mask(sq, dirs).finite(),
        1 <= slider_mask(sq, dirs).len() <= 24,
{
    let f = file_of(sq);
    let r = rank_of(sq);
    assert(0 <= f < 8 && 0 <= r < 8);
    lemma_mask_rays_four(f, r, dirs);
    let m0 = mask_ray(f, r, dirs[0].0 as int, dirs[0].1 as int);
    let m1 = mask_ray(f, r, dirs[1].0 as int, dirs[1].1 as int);
    let m2 = mask_ray(f, r, dirs[2].0 as int, dirs[2].1 as int);
    let m3 = mask_ray(f, r, dirs[3].0 as int, dirs[3].1 as int);
    lemma_mask_ray_size(f, r, dirs[0].0 as int, dirs[0].1 as int);
    lemma_mask_ray_size(f, r, dirs[1].0 as int, dirs[1].1 as int);
    lemma_mask_ray_size(f, r, dirs[2].0 as int, dirs[2].1 as int);
    lemma_mask_ray_size(f, r, dirs[3].0 as int, dirs[3].1 as int);
    let e = Set::<int>::empty();
    assert(e.union(m0) =~= m0);
    lemma_len_union(m0, m1);
    lemma_len_union(m0.union(m1), m2);
    lemma_len_union(m0.union(m1).union(m2), m3);
    let m = slider_mask(sq, dirs);
    assert(m == m0.union(m1).union(m2).union(m3));
    let df: int = if f <= 3 {
        1
    } else {
        -1
    };
    let dr: int = if r <= 3 {
        1
    } else {
        -1
    };
    let t: int;
    if dirs == rook_dirs() {
        t = square_at(f + df, r);
        assert(mask_ray(f, r, df, 0).contains(t));
        if df == 1 {
            assert(m2.contains(t));
        } else {
            assert(m3.contains(t));
        }
    } else {
        t = square_at(f + df, r + dr);
        assert(mask_ray(f, r, df, dr).contains(t));
        if df == 1 && dr == 1 {
            assert(m0.contains(t));
        } else if df == 1 {
            assert(m1.contains(t));
        } else if dr == 1 {
            assert(m2.contains(t));
        } else {
            assert(m3.contains(t));
        }
    }
    assert(m.contains(t));
    if m.len() == 0 {
        m.lemma_len0_is_empty();
    }
}

} // verus!
