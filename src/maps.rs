use vstd::prelude::*;
use bitintr::Pext;
use crate::bits::{sq_in, bit_facts};
use crate::bitboard::{Bitboard, contains};
use crate::masks::{abs, bishop_hit, file_diff, forward, get_diagonal_ascending_mask, get_diagonal_descending_mask, get_file_mask, get_rank_mask, is_dir, is_square, king_step, knight_step, lemma_square_coords, mask_bishop_attacks, mask_king_attacks, mask_knight_attacks, mask_pawn_attacks, mask_rook_attacks, off, pawn_step, queen_hit, rank_diff, ray_dist, ray_hit, ray_on_board, ray_square, rook_hit, same_diag_asc, same_diag_desc, same_file, same_rank};
use crate::types::{Side, Square, file_of, rank_of};

verus! {

broadcast use bit_facts;

/// The bits of `value` at the positions of `mask`, packed into the low positions.
pub open spec fn gather(value: nat, mask: nat) -> nat
    decreases mask,
{
    if mask == 0 {
        0
    } else if mask % 2 == 1 {
        value % 2 + 2 * gather(value / 2, mask / 2)
    } else {
        gather(value / 2, mask / 2)
    }
}

/// Relies on bitintr's `Pext::pext` for `u64`: it gathers the bits of `value` selected by
/// `mask` into the low positions of the result, the rest being zero.
#[verifier::external_body]
fn pext(value: u64, mask: u64) -> (r: u64)
    requires
        mask != u64::MAX,
    ensures
        r as nat == gather(value as nat, mask as nat),
{
    Pext::pext(value, mask)
}

/// `t` is a square whose occupancy can stop a slider on `s` moving in direction (`dr`, `df`):
/// it lies on that ray and the ray goes on past it.
pub open spec fn ray_inner(s: int, t: int, dr: int, df: int) -> bool {
    let k = ray_dist(s, t, dr, df);
    &&& is_square(t)
    &&& k >= 1
    &&& ray_on_board(s, dr, df, k + 1)
    &&& t == ray_square(s, dr, df, k)
}

pub open spec fn bishop_inner(s: int, t: int) -> bool {
    ray_inner(s, t, 1, 1) || ray_inner(s, t, 1, -1) || ray_inner(s, t, -1, 1) || ray_inner(s, t, -1, -1)
}

pub open spec fn rook_inner(s: int, t: int) -> bool {
    ray_inner(s, t, 1, 0) || ray_inner(s, t, -1, 0) || ray_inner(s, t, 0, 1) || ray_inner(s, t, 0, -1)
}

/// The lookup record of one square for one slider kind: the squares whose occupancy matters,
/// and for each packed index the occupancy it was filled from and the attacks over it.
pub struct Magic {
    pub mask: Bitboard,
    pub occupancies: Vec<Bitboard>,
    pub filled: Vec<bool>,
    pub attacks: Vec<Bitboard>,
}

pub const MAGIC_TABLE_SIZE: usize = 4096;

impl Magic {
    /// Every filled entry holds the attacks of a slider on `s` (a rook when `rook`) over the
    /// entry's occupancy, and `mask` holds exactly the squares that can stop it.
    pub open spec fn wf(&self, s: int, rook: bool) -> bool {
        &&& self.occupancies@.len() == MAGIC_TABLE_SIZE
        &&& self.filled@.len() == MAGIC_TABLE_SIZE
        &&& self.attacks@.len() == MAGIC_TABLE_SIZE
        &&& forall|t: int| #[trigger] sq_in(self.mask, t) == (if rook { rook_inner(s, t) } else { bishop_inner(s, t) })
        &&& forall|i: int, t: int| 0 <= i < MAGIC_TABLE_SIZE && self.filled@[i] ==>
            (#[trigger] sq_in(self.attacks@[i], t) == if rook { rook_hit(s, t, self.occupancies@[i]) } else { bishop_hit(s, t, self.occupancies@[i]) })
    }
}

pub trait MagicIndex {
    spec fn mask_of(&self) -> u64;

    /// The packed index of `occupancy` under the record's mask; an index past the table
    /// (`MAGIC_TABLE_SIZE`) for one that packs past it.
    fn get_index(&self, occupancy: Bitboard) -> (r: usize)
        requires
            self.mask_of() != u64::MAX,
        ensures
            gather(occupancy as nat, self.mask_of() as nat) < MAGIC_TABLE_SIZE ==> r as nat == gather(occupancy as nat, self.mask_of() as nat),
            gather(occupancy as nat, self.mask_of() as nat) >= MAGIC_TABLE_SIZE ==> r == MAGIC_TABLE_SIZE,
    ;
}

impl MagicIndex for Magic {
    open spec fn mask_of(&self) -> u64 {
        self.mask
    }

    fn get_index(&self, occupancy: Bitboard) -> (r: usize) {
        let index = pext(occupancy, self.mask);
        if index < MAGIC_TABLE_SIZE as u64 {
            index as usize
        } else {
            MAGIC_TABLE_SIZE
        }
    }
}


proof fn lemma_ray_relevant(s: int, t: int, occ: u64, m: u64, dr: int, df: int)
    requires
        is_square(s),
        is_dir(dr, df),
        forall|u: int| ray_inner(s, u, dr, df) ==> #[trigger] sq_in(m, u),
    ensures
        ray_hit(s, t, occ & m, dr, df) == ray_hit(s, t, occ, dr, df),
{
    let k = ray_dist(s, t, dr, df);
    if is_square(t) && k >= 1 && ray_on_board(s, dr, df, k) && t == ray_square(s, dr, df, k) {
        assert forall|j: int| 1 <= j < k implies sq_in(occ & m, #[trigger] ray_square(s, dr, df, j))
            == sq_in(occ, ray_square(s, dr, df, j)) by {
            lemma_square_coords(rank_of(s) + off(dr, j), file_of(s) + off(df, j));
            assert(ray_inner(s, ray_square(s, dr, df, j), dr, df));
        }
    }
}

/// Only the squares of the mask decide what a bishop attacks.
proof fn lemma_bishop_relevant(s: int, t: int, occ: u64, m: u64)
    requires
        is_square(s),
        forall|u: int| #[trigger] sq_in(m, u) == bishop_inner(s, u),
    ensures
        bishop_hit(s, t, occ & m) == bishop_hit(s, t, occ),
{
    lemma_ray_relevant(s, t, occ, m, 1, 1);
    lemma_ray_relevant(s, t, occ, m, 1, -1);
    lemma_ray_relevant(s, t, occ, m, -1, 1);
    lemma_ray_relevant(s, t, occ, m, -1, -1);
}

/// Only the squares of the mask decide what a rook attacks.
proof fn lemma_rook_relevant(s: int, t: int, occ: u64, m: u64)
    requires
        is_square(s),
        forall|u: int| #[trigger] sq_in(m, u) == rook_inner(s, u),
    ensures
        rook_hit(s, t, occ & m) == rook_hit(s, t, occ),
{
    lemma_ray_relevant(s, t, occ, m, 1, 0);
    lemma_ray_relevant(s, t, occ, m, -1, 0);
    lemma_ray_relevant(s, t, occ, m, 0, 1);
    lemma_ray_relevant(s, t, occ, m, 0, -1);
}

/// Adds to `acc` the squares of the ray from `square` in direction (`dr`, `df`) that the
/// ray goes on past.
fn inner_ray(square: Square, dr: i32, df: i32, acc: Bitboard) -> (r: Bitboard)
    requires
        square < 64,
        is_dir(dr as int, df as int),
    ensures
        forall|t: int| #[trigger] sq_in(r, t) == (sq_in(acc, t) || ray_inner(square as int, t, dr as int, df as int)),
{
    let ghost s = square as int;
    let mut r = acc;
    let mut rank: i32 = (square / 8) as i32 + dr;
    let mut file: i32 = (square % 8) as i32 + df;
    let mut j: i32 = 1;
    while 0 <= rank && rank < 8 && 0 <= file && file < 8
        invariant
            square < 64,
            s == square as int,
            is_dir(dr as int, df as int),
            1 <= j <= 8,
            rank == rank_of(s) + off(dr as int, j as int),
            file == file_of(s) + off(df as int, j as int),
            forall|t: int| #[trigger] sq_in(r, t) == (sq_in(acc, t) || (ray_inner(s, t, dr as int, df as int) && ray_dist(s, t, dr as int, df as int) < j)),
        decreases 8 - j,
    {
        let t = (rank * 8 + file) as u8;
        proof {
            assert(0 <= rank_of(s) < 8 && 0 <= file_of(s) < 8);
            assert(j <= 7);
            lemma_square_coords(rank as int, file as int);
            assert(ray_dist(s, t as int, dr as int, df as int) == j);
        }
        let next_rank = rank + dr;
        let next_file = file + df;
        if 0 <= next_rank && next_rank < 8 && 0 <= next_file && next_file < 8 {
            r = r | (1u64 << t);
        }
        rank = next_rank;
        file = next_file;
        j = j + 1;
    }
    r
}

/// The squares whose occupancy can stop a bishop on `square`.
fn bishop_mask(square: Square) -> (r: Bitboard)
    requires
        square < 64,
    ensures
        forall|t: int| #[trigger] sq_in(r, t) == bishop_inner(square as int, t),
{
    let a = inner_ray(square, 1, 1, 0);
    let a = inner_ray(square, 1, -1, a);
    let a = inner_ray(square, -1, 1, a);
    inner_ray(square, -1, -1, a)
}

/// The squares whose occupancy can stop a rook on `square`.
fn rook_mask(square: Square) -> (r: Bitboard)
    requires
        square < 64,
    ensures
        forall|t: int| #[trigger] sq_in(r, t) == rook_inner(square as int, t),
{
    let a = inner_ray(square, 1, 0, 0);
    let a = inner_ray(square, -1, 0, a);
    let a = inner_ray(square, 0, 1, a);
    inner_ray(square, 0, -1, a)
}

/// The lookup record of a bishop (or, when `rook`, a rook) on `square`: every subset of the
/// mask is enumerated and its attacks stored at its packed index.
fn build_magic(square: Square, rook: bool) -> (m: Magic)
    requires
        square < 64,
    ensures
        m.wf(square as int, rook),
{
    let mask = if rook { rook_mask(square) } else { bishop_mask(square) };
    proof {
        assert(!sq_in(mask, square as int));
        assert(sq_in(0xffff_ffff_ffff_ffffu64, square as int));
    }
    let mut occupancies: Vec<Bitboard> = Vec::new();
    let mut filled: Vec<bool> = Vec::new();
    let mut attacks: Vec<Bitboard> = Vec::new();
    let mut i: usize = 0;
    while i < MAGIC_TABLE_SIZE
        invariant
            i <= MAGIC_TABLE_SIZE,
            occupancies@.len() == i,
            filled@.len() == i,
            attacks@.len() == i,
            forall|k: int| 0 <= k < i ==> !filled@[k],
        decreases MAGIC_TABLE_SIZE - i,
    {
        occupancies.push(0);
        filled.push(false);
        attacks.push(0);
        i = i + 1;
    }
    let mut b: u64 = 0;
    let mut count: usize = 0;
    let mut more = true;
    while more && count < MAGIC_TABLE_SIZE
        invariant
            square < 64,
            count <= MAGIC_TABLE_SIZE,
            mask != u64::MAX,
            occupancies@.len() == MAGIC_TABLE_SIZE,
            filled@.len() == MAGIC_TABLE_SIZE,
            attacks@.len() == MAGIC_TABLE_SIZE,
            forall|k: int, t: int| 0 <= k < MAGIC_TABLE_SIZE && filled@[k] ==>
                (#[trigger] sq_in(attacks@[k], t) == if rook { rook_hit(square as int, t, occupancies@[k]) } else { bishop_hit(square as int, t, occupancies@[k]) }),
        decreases MAGIC_TABLE_SIZE - count,
    {
        let index = pext(b, mask);
        if index < MAGIC_TABLE_SIZE as u64 {
            let k = index as usize;
            let a = if rook { mask_rook_attacks(square, b) } else { mask_bishop_attacks(square, b) };
            occupancies.set(k, b);
            filled.set(k, true);
            attacks.set(k, a);
        }
        count = count + 1;
        b = (b | !mask).wrapping_add(1) & mask;
        if b == 0 {
            more = false;
        }
    }
    Magic { mask, occupancies, filled, attacks }
}


/// The attack tables, built once by `load_maps` and then only read.
pub struct AttackTables {
    pub white_pawn_attacks: Vec<Bitboard>,
    pub black_pawn_attacks: Vec<Bitboard>,
    pub knight_attacks: Vec<Bitboard>,
    pub king_attacks: Vec<Bitboard>,
    pub rank_map: Vec<Bitboard>,
    pub file_map: Vec<Bitboard>,
    pub diagonal_ascending_map: Vec<Bitboard>,
    pub diagonal_descending_map: Vec<Bitboard>,
    pub bishop_magics: Vec<Magic>,
    pub rook_magics: Vec<Magic>,
}

impl AttackTables {
    pub open spec fn wf(&self) -> bool {
        &&& self.white_pawn_attacks@.len() == 64
        &&& self.black_pawn_attacks@.len() == 64
        &&& self.knight_attacks@.len() == 64
        &&& self.king_attacks@.len() == 64
        &&& self.rank_map@.len() == 64
        &&& self.file_map@.len() == 64
        &&& self.diagonal_ascending_map@.len() == 64
        &&& self.diagonal_descending_map@.len() == 64
        &&& self.bishop_magics@.len() == 64
        &&& self.rook_magics@.len() == 64
        &&& forall|s: int, t: int| 0 <= s < 64 ==> (#[trigger] sq_in(self.white_pawn_attacks@[s], t) == pawn_step(0, s, t))
        &&& forall|s: int, t: int| 0 <= s < 64 ==> (#[trigger] sq_in(self.black_pawn_attacks@[s], t) == pawn_step(1, s, t))
        &&& forall|s: int, t: int| 0 <= s < 64 ==> (#[trigger] sq_in(self.knight_attacks@[s], t) == knight_step(s, t))
        &&& forall|s: int, t: int| 0 <= s < 64 ==> (#[trigger] sq_in(self.king_attacks@[s], t) == king_step(s, t))
        &&& forall|s: int, t: int| 0 <= s < 64 ==> (#[trigger] sq_in(self.rank_map@[s], t) == same_rank(s, t))
        &&& forall|s: int, t: int| 0 <= s < 64 ==> (#[trigger] sq_in(self.file_map@[s], t) == same_file(s, t))
        &&& forall|s: int, t: int| 0 <= s < 64 ==> (#[trigger] sq_in(self.diagonal_ascending_map@[s], t) == same_diag_asc(s, t))
        &&& forall|s: int, t: int| 0 <= s < 64 ==> (#[trigger] sq_in(self.diagonal_descending_map@[s], t) == same_diag_desc(s, t))
        &&& forall|s: int| 0 <= s < 64 ==> (#[trigger] self.bishop_magics@[s]).wf(s, false)
        &&& forall|s: int| 0 <= s < 64 ==> (#[trigger] self.rook_magics@[s]).wf(s, true)
    }
}

/// Builds every attack table.
pub fn load_maps() -> (r: AttackTables)
    ensures
        r.wf(),
{
    AttackTables {
        white_pawn_attacks: get_pawn_attack_map(Side(0)),
        black_pawn_attacks: get_pawn_attack_map(Side(1)),
        knight_attacks: get_knight_attack_map(),
        king_attacks: get_king_attack_map(),
        rank_map: get_rank_map(),
        file_map: get_file_map(),
        diagonal_ascending_map: get_diagonal_ascending_map(),
        diagonal_descending_map: get_diagonal_descending_map(),
        bishop_magics: get_bishop_magics(),
        rook_magics: get_rook_magics(),
    }
}

fn get_diagonal_ascending_map() -> (r: Vec<Bitboard>)
    ensures
        r@.len() == 64,
        forall|s: int, t: int| 0 <= s < 64 ==> (#[trigger] sq_in(r@[s], t) == same_diag_asc(s, t)),
{
    let mut map: Vec<Bitboard> = Vec::new();
    let mut s: u8 = 0;
    while s < 64
        invariant
            s <= 64,
            map@.len() == s,
            forall|q: int, t: int| 0 <= q < s ==> (#[trigger] sq_in(map@[q], t) == same_diag_asc(q, t)),
        decreases 64 - s,
    {
        map.push(get_diagonal_ascending_mask(s));
        s = s + 1;
    }
    map
}

fn get_diagonal_descending_map() -> (r: Vec<Bitboard>)
    ensures
        r@.len() == 64,
        forall|s: int, t: int| 0 <= s < 64 ==> (#[trigger] sq_in(r@[s], t) == same_diag_desc(s, t)),
{
    let mut map: Vec<Bitboard> = Vec::new();
    let mut s: u8 = 0;
    while s < 64
        invariant
            s <= 64,
            map@.len() == s,
            forall|q: int, t: int| 0 <= q < s ==> (#[trigger] sq_in(map@[q], t) == same_diag_desc(q, t)),
        decreases 64 - s,
    {
        map.push(get_diagonal_descending_mask(s));
        s = s + 1;
    }
    map
}

fn get_rank_map() -> (r: Vec<Bitboard>)
    ensures
        r@.len() == 64,
        forall|s: int, t: int| 0 <= s < 64 ==> (#[trigger] sq_in(r@[s], t) == same_rank(s, t)),
{
    let mut map: Vec<Bitboard> = Vec::new();
    let mut s: u8 = 0;
    while s < 64
        invariant
            s <= 64,
            map@.len() == s,
            forall|q: int, t: int| 0 <= q < s ==> (#[trigger] sq_in(map@[q], t) == same_rank(q, t)),
        decreases 64 - s,
    {
        map.push(get_rank_mask(s));
        s = s + 1;
    }
    map
}

fn get_file_map() -> (r: Vec<Bitboard>)
    ensures
        r@.len() == 64,
        forall|s: int, t: int| 0 <= s < 64 ==> (#[trigger] sq_in(r@[s], t) == same_file(s, t)),
{
    let mut map: Vec<Bitboard> = Vec::new();
    let mut s: u8 = 0;
    while s < 64
        invariant
            s <= 64,
            map@.len() == s,
            forall|q: int, t: int| 0 <= q < s ==> (#[trigger] sq_in(map@[q], t) == same_file(q, t)),
        decreases 64 - s,
    {
        map.push(get_file_mask(s));
        s = s + 1;
    }
    map
}

fn get_pawn_attack_map(side: Side) -> (r: Vec<Bitboard>)
    requires
        side.wf(),
    ensures
        r@.len() == 64,
        forall|s: int, t: int| 0 <= s < 64 ==> (#[trigger] sq_in(r@[s], t) == pawn_step(side.0 as int, s, t)),
{
    let mut map: Vec<Bitboard> = Vec::new();
    let mut s: u8 = 0;
    while s < 64
        invariant
            s <= 64,
            side.wf(),
            map@.len() == s,
            forall|q: int, t: int| 0 <= q < s ==> (#[trigger] sq_in(map@[q], t) == pawn_step(side.0 as int, q, t)),
        decreases 64 - s,
    {
        map.push(mask_pawn_attacks(side, s));
        s = s + 1;
    }
    map
}

fn get_knight_attack_map() -> (r: Vec<Bitboard>)
    ensures
        r@.len() == 64,
        forall|s: int, t: int| 0 <= s < 64 ==> (#[trigger] sq_in(r@[s], t) == knight_step(s, t)),
{
    let mut map: Vec<Bitboard> = Vec::new();
    let mut s: u8 = 0;
    while s < 64
        invariant
            s <= 64,
            map@.len() == s,
            forall|q: int, t: int| 0 <= q < s ==> (#[trigger] sq_in(map@[q], t) == knight_step(q, t)),
        decreases 64 - s,
    {
        map.push(mask_knight_attacks(s));
        s = s + 1;
    }
    map
}

fn get_king_attack_map() -> (r: Vec<Bitboard>)
    ensures
        r@.len() == 64,
        forall|s: int, t: int| 0 <= s < 64 ==> (#[trigger] sq_in(r@[s], t) == king_step(s, t)),
{
    let mut map: Vec<Bitboard> = Vec::new();
    let mut s: u8 = 0;
    while s < 64
        invariant
            s <= 64,
            map@.len() == s,
            forall|q: int, t: int| 0 <= q < s ==> (#[trigger] sq_in(map@[q], t) == king_step(q, t)),
        decreases 64 - s,
    {
        map.push(mask_king_attacks(s));
        s = s + 1;
    }
    map
}

/// What a bishop on each square attacks on an empty board.
pub fn get_bishop_attack_rays() -> (r: Vec<Bitboard>)
    ensures
        r@.len() == 64,
        forall|s: int, t: int| 0 <= s < 64 ==> (#[trigger] sq_in(r@[s], t) == bishop_hit(s, t, 0)),
{
    let mut map: Vec<Bitboard> = Vec::new();
    let mut s: u8 = 0;
    while s < 64
        invariant
            s <= 64,
            map@.len() == s,
            forall|q: int, t: int| 0 <= q < s ==> (#[trigger] sq_in(map@[q], t) == bishop_hit(q, t, 0)),
        decreases 64 - s,
    {
        map.push(mask_bishop_attacks(s, 0));
        s = s + 1;
    }
    map
}

/// What a rook on each square attacks on an empty board.
pub fn get_rook_attack_rays() -> (r: Vec<Bitboard>)
    ensures
        r@.len() == 64,
        forall|s: int, t: int| 0 <= s < 64 ==> (#[trigger] sq_in(r@[s], t) == rook_hit(s, t, 0)),
{
    let mut map: Vec<Bitboard> = Vec::new();
    let mut s: u8 = 0;
    while s < 64
        invariant
            s <= 64,
            map@.len() == s,
            forall|q: int, t: int| 0 <= q < s ==> (#[trigger] sq_in(map@[q], t) == rook_hit(q, t, 0)),
        decreases 64 - s,
    {
        map.push(mask_rook_attacks(s, 0));
        s = s + 1;
    }
    map
}

/// What a queen on each square attacks on an empty board.
pub fn get_queen_attack_rays() -> (r: Vec<Bitboard>)
    ensures
        r@.len() == 64,
        forall|s: int, t: int| 0 <= s < 64 ==> (#[trigger] sq_in(r@[s], t) == queen_hit(s, t, 0)),
{
    let mut map: Vec<Bitboard> = Vec::new();
    let mut s: u8 = 0;
    while s < 64
        invariant
            s <= 64,
            map@.len() == s,
            forall|q: int, t: int| 0 <= q < s ==> (#[trigger] sq_in(map@[q], t) == queen_hit(q, t, 0)),
        decreases 64 - s,
    {
        map.push(mask_rook_attacks(s, 0) | mask_bishop_attacks(s, 0));
        s = s + 1;
    }
    map
}

/// For each square, the squares whose occupancy can stop a bishop there.
fn get_bishop_blockers() -> (r: Vec<Bitboard>)
    ensures
        r@.len() == 64,
        forall|s: int, t: int| 0 <= s < 64 ==> (#[trigger] sq_in(r@[s], t) == bishop_inner(s, t)),
{
    let mut map: Vec<Bitboard> = Vec::new();
    let mut s: u8 = 0;
    while s < 64
        invariant
            s <= 64,
            map@.len() == s,
            forall|q: int, t: int| 0 <= q < s ==> (#[trigger] sq_in(map@[q], t) == bishop_inner(q, t)),
        decreases 64 - s,
    {
        map.push(bishop_mask(s));
        s = s + 1;
    }
    map
}

/// For each square, the squares whose occupancy can stop a rook there.
fn get_rook_blockers() -> (r: Vec<Bitboard>)
    ensures
        r@.len() == 64,
        forall|s: int, t: int| 0 <= s < 64 ==> (#[trigger] sq_in(r@[s], t) == rook_inner(s, t)),
{
    let mut map: Vec<Bitboard> = Vec::new();
    let mut s: u8 = 0;
    while s < 64
        invariant
            s <= 64,
            map@.len() == s,
            forall|q: int, t: int| 0 <= q < s ==> (#[trigger] sq_in(map@[q], t) == rook_inner(q, t)),
        decreases 64 - s,
    {
        map.push(rook_mask(s));
        s = s + 1;
    }
    map
}

fn get_bishop_magics() -> (r: Vec<Magic>)
    ensures
        r@.len() == 64,
        forall|s: int| 0 <= s < 64 ==> (#[trigger] r@[s]).wf(s, false),
{
    let mut magics: Vec<Magic> = Vec::new();
    let mut s: u8 = 0;
    while s < 64
        invariant
            s <= 64,
            magics@.len() == s,
            forall|q: int| 0 <= q < s ==> (#[trigger] magics@[q]).wf(q, false),
        decreases 64 - s,
    {
        magics.push(build_magic(s, false));
        s = s + 1;
    }
    magics
}

fn get_rook_magics() -> (r: Vec<Magic>)
    ensures
        r@.len() == 64,
        forall|s: int| 0 <= s < 64 ==> (#[trigger] r@[s]).wf(s, true),
{
    let mut magics: Vec<Magic> = Vec::new();
    let mut s: u8 = 0;
    while s < 64
        invariant
            s <= 64,
            magics@.len() == s,
            forall|q: int| 0 <= q < s ==> (#[trigger] magics@[q]).wf(q, true),
        decreases 64 - s,
    {
        magics.push(build_magic(s, true));
        s = s + 1;
    }
    magics
}

/// The squares that a pawn of `side` on `square` attacks.
pub fn get_pawn_attacks(tables: &AttackTables, side: Side, square: Square) -> (r: Bitboard)
    requires
        tables.wf(),
        side.wf(),
        square < 64,
    ensures
        forall|t: int| #[trigger] sq_in(r, t) == pawn_step(side.0 as int, square as int, t),
{
    if side.0 == 0 {
        tables.white_pawn_attacks[square as usize]
    } else {
        tables.black_pawn_attacks[square as usize]
    }
}

/// The squares that a knight on `square` attacks.
pub fn get_knight_attacks(tables: &AttackTables, square: Square) -> (r: Bitboard)
    requires
        tables.wf(),
        square < 64,
    ensures
        forall|t: int| #[trigger] sq_in(r, t) == knight_step(square as int, t),
{
    tables.knight_attacks[square as usize]
}

/// The squares that a king on `square` attacks.
pub fn get_king_attacks(tables: &AttackTables, square: Square) -> (r: Bitboard)
    requires
        tables.wf(),
        square < 64,
    ensures
        forall|t: int| #[trigger] sq_in(r, t) == king_step(square as int, t),
{
    tables.king_attacks[square as usize]
}

/// The squares that a bishop on `square` attacks when `occupancy` is occupied.
pub fn get_bishop_attacks(tables: &AttackTables, square: Square, occupancy: Bitboard) -> (r: Bitboard)
    requires
        tables.wf(),
        square < 64,
    ensures
        forall|t: int| #[trigger] sq_in(r, t) == bishop_hit(square as int, t, occupancy),
{
    let magic = &tables.bishop_magics[square as usize];
    proof {
        assert(magic.wf(square as int, false));
        assert(!sq_in(magic.mask, square as int));
        assert(sq_in(0xffff_ffff_ffff_ffffu64, square as int));
    }
    let index = magic.get_index(occupancy);
    if index < MAGIC_TABLE_SIZE && magic.filled[index] && magic.occupancies[index] == occupancy & magic.mask {
        proof {
            assert(magic.wf(square as int, false));
            assert forall|t: int| #[trigger] sq_in(magic.attacks@[index as int], t) == bishop_hit(square as int, t, occupancy) by {
                lemma_bishop_relevant(square as int, t, occupancy, magic.mask);
            }
        }
        magic.attacks[index]
    } else {
        mask_bishop_attacks(square, occupancy)
    }
}

/// The squares that a rook on `square` attacks when `occupancy` is occupied.
pub fn get_rook_attacks(tables: &AttackTables, square: Square, occupancy: Bitboard) -> (r: Bitboard)
    requires
        tables.wf(),
        square < 64,
    ensures
        forall|t: int| #[trigger] sq_in(r, t) == rook_hit(square as int, t, occupancy),
{
    let magic = &tables.rook_magics[square as usize];
    proof {
        assert(magic.wf(square as int, true));
        assert(!sq_in(magic.mask, square as int));
        assert(sq_in(0xffff_ffff_ffff_ffffu64, square as int));
    }
    let index = magic.get_index(occupancy);
    if index < MAGIC_TABLE_SIZE && magic.filled[index] && magic.occupancies[index] == occupancy & magic.mask {
        proof {
            assert(magic.wf(square as int, true));
            assert forall|t: int| #[trigger] sq_in(magic.attacks@[index as int], t) == rook_hit(square as int, t, occupancy) by {
                lemma_rook_relevant(square as int, t, occupancy, magic.mask);
            }
        }
        magic.attacks[index]
    } else {
        mask_rook_attacks(square, occupancy)
    }
}

/// The squares that a queen on `square` attacks when `occupancy` is occupied.
pub fn get_queen_attacks(tables: &AttackTables, square: Square, occupancy: Bitboard) -> (r: Bitboard)
    requires
        tables.wf(),
        square < 64,
    ensures
        forall|t: int| #[trigger] sq_in(r, t) == queen_hit(square as int, t, occupancy),
{
    get_rook_attacks(tables, square, occupancy) | get_bishop_attacks(tables, square, occupancy)
}


/// The rank of a pawn of `side` that has not moved yet.
pub open spec fn start_rank(side: int) -> int {
    if side == 0 { 1 } else { 6 }
}

/// A pawn of `side` on `s` can push to `t`: one square ahead onto an empty square, or two
/// from its starting rank over two empty squares.
pub open spec fn pawn_push(side: int, s: int, t: int, occ: u64) -> bool {
    let one = s + 8 * forward(side);
    let two = s + 16 * forward(side);
    &&& is_square(t)
    &&& !sq_in(occ, one)
    &&& (t == one || (t == two && rank_of(s) == start_rank(side) && !sq_in(occ, two)))
}

/// The squares that a pawn of `side` on `square` can push to over `occupancy`.
pub fn get_pawn_moves(side: Side, square: Square, occupancy: Bitboard) -> (r: Bitboard)
    requires
        side.wf(),
        square < 64,
    ensures
        forall|t: int| #[trigger] sq_in(r, t) == pawn_push(side.0 as int, square as int, t, occupancy),
{
    let mut moves: u64 = 0;
    let fwd: i32 = if side.0 == 0 { 8 } else { -8 };
    let one = square as i32 + fwd;
    if 0 <= one && one < 64 && !contains(occupancy, one as u8) {
        moves = moves | (1u64 << (one as u8));
        let start = if side.0 == 0 { 1 } else { 6 };
        if square / 8 == start {
            let two = one + fwd;
            if !contains(occupancy, two as u8) {
                moves = moves | (1u64 << (two as u8));
            }
        }
    }
    proof {
        assert forall|t: int| #[trigger] sq_in(moves, t) == pawn_push(side.0 as int, square as int, t, occupancy) by {
            if !(0 <= one < 64) {
                assert(!is_square(square as int + 8 * forward(side.0 as int)));
            }
        }
    }
    moves
}

pub open spec fn sgn(x: int) -> int {
    if x > 0 { 1 } else if x < 0 { -1 } else { 0 }
}

/// `a` and `b` are distinct squares on one rank, file or diagonal.
pub open spec fn aligned(a: int, b: int) -> bool {
    &&& a != b
    &&& (rank_diff(a, b) == 0 || file_diff(a, b) == 0 || abs(rank_diff(a, b)) == abs(file_diff(a, b)))
}

/// `t` lies strictly between the aligned squares `a` and `b`.
pub open spec fn between(a: int, b: int, t: int) -> bool {
    let dr = sgn(rank_diff(a, b));
    let df = sgn(file_diff(a, b));
    let k = ray_dist(a, t, dr, df);
    &&& aligned(a, b)
    &&& is_square(t)
    &&& 1 <= k < ray_dist(a, b, dr, df)
    &&& ray_on_board(a, dr, df, k)
    &&& t == ray_square(a, dr, df, k)
}

/// The squares strictly between `from` and `to` when they share a rank, file or diagonal;
/// empty otherwise.
pub fn get_ray_between_squares(from: Square, to: Square) -> (r: Bitboard)
    requires
        from < 64,
        to < 64,
    ensures
        forall|t: int| #[trigger] sq_in(r, t) == between(from as int, to as int, t),
{
    let ghost a = from as int;
    let ghost b = to as int;
    let from_rank = (from / 8) as i32;
    let from_file = (from % 8) as i32;
    let rd = (to / 8) as i32 - from_rank;
    let fd = (to % 8) as i32 - from_file;
    let ard = if rd < 0 { -rd } else { rd };
    let afd = if fd < 0 { -fd } else { fd };
    if from == to || !(rd == 0 || fd == 0 || ard == afd) {
        return 0;
    }
    let dr: i32 = if rd > 0 { 1 } else if rd < 0 { -1 } else { 0 };
    let df: i32 = if fd > 0 { 1 } else if fd < 0 { -1 } else { 0 };
    let n = if ard > afd { ard } else { afd };
    proof {
        assert(0 <= rank_of(b) < 8 && 0 <= file_of(b) < 8);
        assert(n == ray_dist(a, b, dr as int, df as int));
        assert(rank_of(b) == rank_of(a) + off(dr as int, n as int));
        assert(file_of(b) == file_of(a) + off(df as int, n as int));
    }
    let mut squares: u64 = 0;
    let mut j: i32 = 1;
    while j < n
        invariant
            from < 64,
            to < 64,
            a == from as int,
            b == to as int,
            aligned(a, b),
            dr as int == sgn(rank_diff(a, b)),
            df as int == sgn(file_diff(a, b)),
            is_dir(dr as int, df as int),
            n == ray_dist(a, b, dr as int, df as int),
            from_rank == rank_of(a),
            from_file == file_of(a),
            rank_of(b) == rank_of(a) + off(dr as int, n as int),
            file_of(b) == file_of(a) + off(df as int, n as int),
            1 <= j <= n,
            n <= 7,
            forall|t: int| #[trigger] sq_in(squares, t) == (between(a, b, t) && ray_dist(a, t, dr as int, df as int) < j),
        decreases n - j,
    {
        let rank = from_rank + if dr > 0 { j } else if dr < 0 { -j } else { 0 };
        let file = from_file + if df > 0 { j } else if df < 0 { -j } else { 0 };
        proof {
            assert(0 <= rank_of(b) < 8 && 0 <= file_of(b) < 8);
            assert(0 <= rank_of(a) < 8 && 0 <= file_of(a) < 8);
            lemma_square_coords(rank as int, file as int);
        }
        let t = (rank * 8 + file) as u8;
        proof {
            assert(t as int == ray_square(a, dr as int, df as int, j as int));
            assert(ray_dist(a, t as int, dr as int, df as int) == j);
        }
        squares = squares | (1u64 << t);
        j = j + 1;
    }
    squares
}

} // verus!
