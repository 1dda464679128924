use vstd::prelude::*;
use crate::bits::{sq_in, bit_facts};
use crate::bitboard::Bitboard;
use crate::types::{Square, Side, rank_of, file_of, on_board};

verus! {

broadcast use bit_facts;

pub open spec fn abs(x: int) -> int {
    if x < 0 { -x } else { x }
}

/// Ranks from `s` to `t`.
pub open spec fn rank_diff(s: int, t: int) -> int {
    rank_of(t) - rank_of(s)
}

/// Files from `s` to `t`.
pub open spec fn file_diff(s: int, t: int) -> int {
    file_of(t) - file_of(s)
}

pub open spec fn is_square(t: int) -> bool {
    0 <= t < 64
}

/// A knight on `s` attacks `t`.
pub open spec fn knight_step(s: int, t: int) -> bool {
    is_square(t) && ((abs(rank_diff(s, t)) == 1 && abs(file_diff(s, t)) == 2) || (abs(
        rank_diff(s, t),
    ) == 2 && abs(file_diff(s, t)) == 1))
}

/// A king on `s` attacks `t`.
pub open spec fn king_step(s: int, t: int) -> bool {
    is_square(t) && t != s && abs(rank_diff(s, t)) <= 1 && abs(file_diff(s, t)) <= 1
}

/// The rank step of a pawn of `side`: up for White, down for Black.
pub open spec fn forward(side: int) -> int {
    if side == 0 { 1 } else { -1 }
}

/// A pawn of `side` on `s` attacks `t`.
pub open spec fn pawn_step(side: int, s: int, t: int) -> bool {
    is_square(t) && rank_diff(s, t) == forward(side) && abs(file_diff(s, t)) == 1
}

/// `t` lies on the rank of `s`, other than `s`.
pub open spec fn same_rank(s: int, t: int) -> bool {
    is_square(t) && t != s && rank_diff(s, t) == 0
}

/// `t` lies on the file of `s`, other than `s`.
pub open spec fn same_file(s: int, t: int) -> bool {
    is_square(t) && t != s && file_diff(s, t) == 0
}

/// `t` lies on the rising diagonal of `s` (towards h8), other than `s`.
pub open spec fn same_diag_asc(s: int, t: int) -> bool {
    is_square(t) && t != s && rank_diff(s, t) == file_diff(s, t)
}

/// `t` lies on the falling diagonal of `s` (towards h1), other than `s`.
pub open spec fn same_diag_desc(s: int, t: int) -> bool {
    is_square(t) && t != s && rank_diff(s, t) == -file_diff(s, t)
}

/// `j` steps in direction `d` (one of -1, 0, 1).
pub open spec fn off(d: int, j: int) -> int {
    if d > 0 { j } else if d < 0 { -j } else { 0 }
}

pub open spec fn is_dir(dr: int, df: int) -> bool {
    -1 <= dr <= 1 && -1 <= df <= 1 && (dr != 0 || df != 0)
}

/// The square `j` steps from `s` in direction (`dr`, `df`).
pub open spec fn ray_square(s: int, dr: int, df: int, j: int) -> int {
    (rank_of(s) + off(dr, j)) * 8 + file_of(s) + off(df, j)
}

pub open spec fn ray_on_board(s: int, dr: int, df: int, j: int) -> bool {
    on_board(rank_of(s) + off(dr, j), file_of(s) + off(df, j))
}

/// How many steps from `s` to `t` in direction (`dr`, `df`), if `t` lies that way.
pub open spec fn ray_dist(s: int, t: int, dr: int, df: int) -> int {
    if dr != 0 { off(dr, rank_diff(s, t)) } else { off(df, file_diff(s, t)) }
}

/// A slider on `s` moving in direction (`dr`, `df`) reaches `t`: `t` lies that way and no
/// square of `occ` stands before it.
pub open spec fn ray_hit(s: int, t: int, occ: u64, dr: int, df: int) -> bool {
    let k = ray_dist(s, t, dr, df);
    &&& is_square(t)
    &&& k >= 1
    &&& ray_on_board(s, dr, df, k)
    &&& t == ray_square(s, dr, df, k)
    &&& forall|j: int| 1 <= j < k ==> !sq_in(occ, #[trigger] ray_square(s, dr, df, j))
}

/// A bishop on `s` attacks `t` over `occ`.
pub open spec fn bishop_hit(s: int, t: int, occ: u64) -> bool {
    ray_hit(s, t, occ, 1, 1) || ray_hit(s, t, occ, 1, -1) || ray_hit(s, t, occ, -1, 1) || ray_hit(
        s,
        t,
        occ,
        -1,
        -1,
    )
}

/// A rook on `s` attacks `t` over `occ`.
pub open spec fn rook_hit(s: int, t: int, occ: u64) -> bool {
    ray_hit(s, t, occ, 1, 0) || ray_hit(s, t, occ, -1, 0) || ray_hit(s, t, occ, 0, 1) || ray_hit(
        s,
        t,
        occ,
        0,
        -1,
    )
}

/// A queen on `s` attacks `t` over `occ`.
pub open spec fn queen_hit(s: int, t: int, occ: u64) -> bool {
    bishop_hit(s, t, occ) || rook_hit(s, t, occ)
}

pub proof fn lemma_square_coords(r: int, f: int)
    requires
        on_board(r, f),
    ensures
        rank_of(r * 8 + f) == r,
        file_of(r * 8 + f) == f,
        is_square(r * 8 + f),
{
}

/// The file of `square`, without the square itself.
pub fn get_file_mask(square: Square) -> (r: Bitboard)
    requires
        square < 64,
    ensures
        forall|t: int| #[trigger] sq_in(r, t) == same_file(square as int, t),
{
    let mut mask: u64 = 0;
    let mut t: u8 = 0;
    while t < 64
        invariant
            t <= 64,
            square < 64,
            forall|u: int| #[trigger] sq_in(mask, u) == (u < t && same_file(square as int, u)),
        decreases 64 - t,
    {
        if t != square && t % 8 == square % 8 {
            mask = mask | (1u64 << t);
        }
        t = t + 1;
    }
    mask
}

/// The rank of `square`, without the square itself.
pub fn get_rank_mask(square: Square) -> (r: Bitboard)
    requires
        square < 64,
    ensures
        forall|t: int| #[trigger] sq_in(r, t) == same_rank(square as int, t),
{
    let mut mask: u64 = 0;
    let mut t: u8 = 0;
    while t < 64
        invariant
            t <= 64,
            square < 64,
            forall|u: int| #[trigger] sq_in(mask, u) == (u < t && same_rank(square as int, u)),
        decreases 64 - t,
    {
        if t != square && t / 8 == square / 8 {
            mask = mask | (1u64 << t);
        }
        t = t + 1;
    }
    mask
}

/// The falling diagonal of `square`, without the square itself.
pub fn get_diagonal_descending_mask(square: Square) -> (r: Bitboard)
    requires
        square < 64,
    ensures
        forall|t: int| #[trigger] sq_in(r, t) == same_diag_desc(square as int, t),
{
    let mut mask: u64 = 0;
    let mut t: u8 = 0;
    while t < 64
        invariant
            t <= 64,
            square < 64,
            forall|u: int| #[trigger] sq_in(mask, u) == (u < t && same_diag_desc(square as int, u)),
        decreases 64 - t,
    {
        if t != square && (t / 8) as i32 - (square / 8) as i32 == (square % 8) as i32 - (t % 8) as i32 {
            mask = mask | (1u64 << t);
        }
        t = t + 1;
    }
    mask
}

/// The rising diagonal of `square`, without the square itself.
pub fn get_diagonal_ascending_mask(square: Square) -> (r: Bitboard)
    requires
        square < 64,
    ensures
        forall|t: int| #[trigger] sq_in(r, t) == same_diag_asc(square as int, t),
{
    let mut mask: u64 = 0;
    let mut t: u8 = 0;
    while t < 64
        invariant
            t <= 64,
            square < 64,
            forall|u: int| #[trigger] sq_in(mask, u) == (u < t && same_diag_asc(square as int, u)),
        decreases 64 - t,
    {
        if t != square && (t / 8) as i32 - (square / 8) as i32 == (t % 8) as i32 - (square % 8) as i32 {
            mask = mask | (1u64 << t);
        }
        t = t + 1;
    }
    mask
}

fn abs_diff(a: u8, b: u8) -> (r: u8)
    ensures
        r == abs(a - b),
{
    if a >= b { a - b } else { b - a }
}

/// The squares that a pawn of `side` on `square` attacks.
pub fn mask_pawn_attacks(side: Side, square: Square) -> (r: Bitboard)
    requires
        square < 64,
        side.wf(),
    ensures
        forall|t: int| #[trigger] sq_in(r, t) == pawn_step(side.0 as int, square as int, t),
{
    let mut attacks: u64 = 0;
    let mut t: u8 = 0;
    while t < 64
        invariant
            t <= 64,
            square < 64,
            side.wf(),
            forall|u: int| #[trigger] sq_in(attacks, u) == (u < t && pawn_step(side.0 as int, square as int, u)),
        decreases 64 - t,
    {
        let ahead = if side.0 == 0 { t / 8 == square / 8 + 1 } else { t / 8 + 1 == square / 8 };
        if ahead && abs_diff(t % 8, square % 8) == 1 {
            attacks = attacks | (1u64 << t);
        }
        t = t + 1;
    }
    attacks
}

/// The squares that a knight on `square` attacks.
pub fn mask_knight_attacks(square: Square) -> (r: Bitboard)
    requires
        square < 64,
    ensures
        forall|t: int| #[trigger] sq_in(r, t) == knight_step(square as int, t),
{
    let mut attacks: u64 = 0;
    let mut t: u8 = 0;
    while t < 64
        invariant
            t <= 64,
            square < 64,
            forall|u: int| #[trigger] sq_in(attacks, u) == (u < t && knight_step(square as int, u)),
        decreases 64 - t,
    {
        let dr = abs_diff(t / 8, square / 8);
        let df = abs_diff(t % 8, square % 8);
        if (dr == 1 && df == 2) || (dr == 2 && df == 1) {
            attacks = attacks | (1u64 << t);
        }
        t = t + 1;
    }
    attacks
}

/// The squares that a king on `square` attacks.
pub fn mask_king_attacks(square: Square) -> (r: Bitboard)
    requires
        square < 64,
    ensures
        forall|t: int| #[trigger] sq_in(r, t) == king_step(square as int, t),
{
    let mut attacks: u64 = 0;
    let mut t: u8 = 0;
    while t < 64
        invariant
            t <= 64,
            square < 64,
            forall|u: int| #[trigger] sq_in(attacks, u) == (u < t && king_step(square as int, u)),
        decreases 64 - t,
    {
        let dr = abs_diff(t / 8, square / 8);
        let df = abs_diff(t % 8, square % 8);
        if t != square && dr <= 1 && df <= 1 {
            attacks = attacks | (1u64 << t);
        }
        t = t + 1;
    }
    attacks
}


/// Adds to `acc` the squares that a slider on `square` reaches in direction (`dr`, `df`),
/// up to and including the first square of `occupancy`.
fn cast_ray(square: Square, occupancy: Bitboard, dr: i32, df: i32, acc: Bitboard) -> (r: Bitboard)
    requires
        square < 64,
        is_dir(dr as int, df as int),
    ensures
        forall|t: int| #[trigger] sq_in(r, t) == (sq_in(acc, t) || ray_hit(square as int, t, occupancy, dr as int, df as int)),
{
    let ghost s = square as int;
    let mut r = acc;
    let mut rank: i32 = (square / 8) as i32 + dr;
    let mut file: i32 = (square % 8) as i32 + df;
    let mut j: i32 = 1;
    while 0 <= rank && rank < 8 && 0 <= file && file < 8
        invariant
            square < 64,
            s == square as int,
            is_dir(dr as int, df as int),
            1 <= j <= 8,
            rank == rank_of(s) + off(dr as int, j as int),
            file == file_of(s) + off(df as int, j as int),
            forall|i: int| 1 <= i < j ==> !sq_in(occupancy, #[trigger] ray_square(s, dr as int, df as int, i)),
            forall|i: int| 1 <= i < j ==> ray_on_board(s, dr as int, df as int, i),
            forall|t: int| #[trigger] sq_in(r, t) == (sq_in(acc, t) || (ray_hit(s, t, occupancy, dr as int, df as int) && ray_dist(s, t, dr as int, df as int) < j)),
        decreases 8 - j,
    {
        let t = (rank * 8 + file) as u8;
        proof {
            assert(0 <= rank_of(s) < 8 && 0 <= file_of(s) < 8);
            assert(j <= 7);
            lemma_square_coords(rank as int, file as int);
            assert(t as int == ray_square(s, dr as int, df as int, j as int));
            assert(ray_dist(s, t as int, dr as int, df as int) == j);
        }
        r = r | (1u64 << t);
        if (occupancy >> t) & 1u64 == 1u64 {
            proof {
                assert(sq_in(occupancy, t as int));
                assert forall|u: int| #[trigger] sq_in(r, u) == (sq_in(acc, u) || ray_hit(s, u, occupancy, dr as int, df as int)) by {
                    if ray_hit(s, u, occupancy, dr as int, df as int) && ray_dist(s, u, dr as int, df as int) > j {
                        assert(sq_in(occupancy, ray_square(s, dr as int, df as int, j as int)));
                        assert(false);
                    }
                }
            }
            return r;
        }
        proof {
            assert forall|u: int| #[trigger] sq_in(r, u) == (sq_in(acc, u) || (ray_hit(s, u, occupancy, dr as int, df as int) && ray_dist(s, u, dr as int, df as int) < j + 1)) by {
                if u == t as int {
                    assert forall|i: int| 1 <= i < j implies !sq_in(occupancy, #[trigger] ray_square(s, dr as int, df as int, i)) by {}
                }
            }
        }
        rank = rank + dr;
        file = file + df;
        j = j + 1;
    }
    proof {
        assert forall|u: int| #[trigger] sq_in(r, u) == (sq_in(acc, u) || ray_hit(s, u, occupancy, dr as int, df as int)) by {
            if ray_hit(s, u, occupancy, dr as int, df as int) && ray_dist(s, u, dr as int, df as int) >= j {
                assert(ray_on_board(s, dr as int, df as int, ray_dist(s, u, dr as int, df as int)));
            }
        }
    }
    r
}

/// The squares that a bishop on `square` attacks when `occupancy` is occupied.
pub fn mask_bishop_attacks(square: Square, occupancy: Bitboard) -> (r: Bitboard)
    requires
        square < 64,
    ensures
        forall|t: int| #[trigger] sq_in(r, t) == bishop_hit(square as int, t, occupancy),
{
    let a = cast_ray(square, occupancy, 1, 1, 0);
    let a = cast_ray(square, occupancy, 1, -1, a);
    let a = cast_ray(square, occupancy, -1, 1, a);
    cast_ray(square, occupancy, -1, -1, a)
}

/// The squares that a rook on `square` attacks when `occupancy` is occupied.
pub fn mask_rook_attacks(square: Square, occupancy: Bitboard) -> (r: Bitboard)
    requires
        square < 64,
    ensures
        forall|t: int| #[trigger] sq_in(r, t) == rook_hit(square as int, t, occupancy),
{
    let a = cast_ray(square, occupancy, 1, 0, 0);
    let a = cast_ray(square, occupancy, -1, 0, a);
    let a = cast_ray(square, occupancy, 0, 1, a);
    cast_ray(square, occupancy, 0, -1, a)
}

} // verus!
