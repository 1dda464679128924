use vstd::prelude::*;
use crate::bits::{sq_in, bit_facts};
use crate::bitboard::{Bitboard, BitboardMethods};
use crate::masks::{bishop_hit, is_square, king_step, knight_step, pawn_step, queen_hit, ray_hit, rook_hit, same_diag_asc, same_diag_desc, same_file, same_rank};
use crate::maps::{AttackTables, get_bishop_attacks, get_king_attacks, get_knight_attacks, get_pawn_attacks, get_queen_attacks, get_rook_attacks};
use crate::position::{Position, SidePiecesMethods, first_kind, lemma_first_kind, only_square, lemma_bit_of_square};
use crate::types::{Side, Square, Piece, PAWN, KNIGHT, BISHOP, ROOK, QUEEN, KING, rank_of, file_of};

verus! {

broadcast use bit_facts;

/// A piece of kind `kind` and side `side` on `s` attacks `t` over `occ`.
pub open spec fn piece_attacks(side: int, kind: int, s: int, t: int, occ: u64) -> bool {
    if kind == PAWN {
        pawn_step(side, s, t)
    } else if kind == KNIGHT {
        knight_step(s, t)
    } else if kind == BISHOP {
        bishop_hit(s, t, occ)
    } else if kind == ROOK {
        rook_hit(s, t, occ)
    } else if kind == QUEEN {
        queen_hit(s, t, occ)
    } else {
        king_step(s, t)
    }
}

/// The part of a piece's attack that lands in component `c` of a side-attack summary:
/// 0 for pawns, knights and kings, then rank, file, falling and rising diagonal rays of
/// sliders.
pub open spec fn component(side: int, kind: int, c: int, s: int, t: int, occ: u64) -> bool {
    if c == 0 {
        (kind == PAWN || kind == KNIGHT || kind == KING) && piece_attacks(side, kind, s, t, occ)
    } else if c == 1 {
        (kind == ROOK || kind == QUEEN) && rook_hit(s, t, occ) && same_rank(s, t)
    } else if c == 2 {
        (kind == ROOK || kind == QUEEN) && rook_hit(s, t, occ) && same_file(s, t)
    } else if c == 3 {
        (kind == BISHOP || kind == QUEEN) && bishop_hit(s, t, occ) && same_diag_desc(s, t)
    } else {
        (kind == BISHOP || kind == QUEEN) && bishop_hit(s, t, occ) && same_diag_asc(s, t)
    }
}

impl Position {
    /// The kind of the piece of `side` on `s`, if any.
    pub open spec fn kind_at(self, side: int, s: int) -> Option<Piece> {
        first_kind(self.pieces[side], 1u64 << (s as u64))
    }

    /// The piece of `side` on `s` attacks `t` over `occ`.
    pub open spec fn attacker(self, side: int, s: int, t: int, occ: u64) -> bool {
        0 <= s < 64 && match self.kind_at(side, s) {
            Some(k) => piece_attacks(side, k as int, s, t, occ),
            None => false,
        }
    }

    /// Component `c` of the attack of the piece of `side` on `s`.
    pub open spec fn contributes(self, side: int, c: int, s: int, t: int, occ: u64) -> bool {
        0 <= s < 64 && match self.kind_at(side, s) {
            Some(k) => component(side, k as int, c, s, t, occ),
            None => false,
        }
    }

    /// Some piece of `side` on a square below `n` attacks `t`.
    pub open spec fn attacked_upto(self, side: int, t: int, occ: u64, n: int) -> bool {
        exists|s: int| 0 <= s < n && #[trigger] self.attacker(side, s, t, occ)
    }

    /// Some piece of `side` attacks `t` over `occ`.
    pub open spec fn attacked(self, side: int, t: int, occ: u64) -> bool {
        self.attacked_upto(side, t, occ, 64)
    }

    pub open spec fn component_upto(self, side: int, c: int, t: int, occ: u64, n: int) -> bool {
        exists|s: int| 0 <= s < n && #[trigger] self.contributes(side, c, s, t, occ)
    }

    /// The square of the king of `side`.
    pub open spec fn king_square(self, side: int) -> int {
        choose|k: int| only_square(self.pieces[side][5], k)
    }

    /// The piece of `side` on `s` attacks the opposing king.
    pub open spec fn gives_check(self, side: int, s: int, occ: u64) -> bool {
        self.attacker(side, s, self.king_square(1 - side), occ)
    }

    pub open spec fn two_checks_upto(self, side: int, occ: u64, n: int) -> bool {
        exists|a: int, b: int| 0 <= a < n && 0 <= b < n && a != b && #[trigger] self.gives_check(side, a, occ) && #[trigger] self.gives_check(side, b, occ)
    }

    /// Two pieces of `side` attack the opposing king.
    pub open spec fn double_checked_by(self, side: int, occ: u64) -> bool {
        self.two_checks_upto(side, occ, 64)
    }

    /// Some piece of `side` attacks the opposing king.
    pub open spec fn checked_by(self, side: int, occ: u64) -> bool {
        exists|s: int| 0 <= s < 64 && #[trigger] self.gives_check(side, s, occ)
    }
}

/// A piece and its square.
#[derive(Clone, Copy)]
pub struct PieceInfo {
    pub piece: Piece,
    pub square: Square,
}

/// What one side attacks: the first piece that checks the opposing king, whether there is a second,
/// the attacks of pawns, knights and king, and the slider attacks split by line.
#[derive(Clone, Copy)]
pub struct SideAttacks {
    pub check: Option<PieceInfo>,
    pub double_check: bool,
    pub nonrays: Bitboard,
    pub rays_h: Bitboard,
    pub rays_v: Bitboard,
    pub rays_dd: Bitboard,
    pub rays_da: Bitboard,
}

impl SideAttacks {
    pub open spec fn spec_all(self) -> u64 {
        self.nonrays | self.rays_h | self.rays_v | self.rays_dd | self.rays_da
    }

    pub open spec fn part(self, c: int) -> u64 {
        if c == 0 {
            self.nonrays
        } else if c == 1 {
            self.rays_h
        } else if c == 2 {
            self.rays_v
        } else if c == 3 {
            self.rays_dd
        } else {
            self.rays_da
        }
    }
}

pub trait SideAttackMethods: Sized {
    spec fn union_of(&self) -> u64;

    /// Every attacked square.
    fn all(self) -> (r: Bitboard)
        ensures
            r == self.union_of(),
    ;
}

impl SideAttackMethods for SideAttacks {
    open spec fn union_of(&self) -> u64 {
        self.spec_all()
    }

    fn all(self) -> (r: Bitboard) {
        self.nonrays | self.rays_h | self.rays_v | self.rays_dd | self.rays_da
    }
}

proof fn lemma_ray_line(s: int, t: int, occ: u64)
    requires
        is_square(s),
    ensures
        (ray_hit(s, t, occ, 0, 1) || ray_hit(s, t, occ, 0, -1)) ==> same_rank(s, t),
        (ray_hit(s, t, occ, 1, 0) || ray_hit(s, t, occ, -1, 0)) ==> same_file(s, t),
        (ray_hit(s, t, occ, 1, 1) || ray_hit(s, t, occ, -1, -1)) ==> same_diag_asc(s, t),
        (ray_hit(s, t, occ, 1, -1) || ray_hit(s, t, occ, -1, 1)) ==> same_diag_desc(s, t),
        same_rank(s, t) ==> !(ray_hit(s, t, occ, 1, 0) || ray_hit(s, t, occ, -1, 0)),
        same_file(s, t) ==> !(ray_hit(s, t, occ, 0, 1) || ray_hit(s, t, occ, 0, -1)),
        same_diag_asc(s, t) ==> !(ray_hit(s, t, occ, 1, -1) || ray_hit(s, t, occ, -1, 1)),
        same_diag_desc(s, t) ==> !(ray_hit(s, t, occ, 1, 1) || ray_hit(s, t, occ, -1, -1)),
{
    assert(0 <= rank_of(s) < 8 && 0 <= file_of(s) < 8);
}

/// The summary's components together are the piece's whole attack.
proof fn lemma_components(side: int, kind: int, s: int, t: int, occ: u64)
    requires
        is_square(s),
        0 <= kind < 6,
    ensures
        piece_attacks(side, kind, s, t, occ) == (component(side, kind, 0, s, t, occ) || component(side, kind, 1, s, t, occ)
            || component(side, kind, 2, s, t, occ) || component(side, kind, 3, s, t, occ) || component(side, kind, 4, s, t, occ)),
{
    lemma_ray_line(s, t, occ);
}

proof fn lemma_attacked_step(p: Position, side: int, t: int, occ: u64, n: int)
    requires
        0 <= n,
    ensures
        p.attacked_upto(side, t, occ, n + 1) == (p.attacked_upto(side, t, occ, n) || p.attacker(side, n, t, occ)),
{
    if p.attacked_upto(side, t, occ, n + 1) {
        let s = choose|s: int| 0 <= s < n + 1 && #[trigger] p.attacker(side, s, t, occ);
        if s < n {
            assert(p.attacked_upto(side, t, occ, n));
        }
    }
    if p.attacker(side, n, t, occ) {
        assert(p.attacked_upto(side, t, occ, n + 1));
    }
    if p.attacked_upto(side, t, occ, n) {
        let s = choose|s: int| 0 <= s < n && #[trigger] p.attacker(side, s, t, occ);
        assert(p.attacked_upto(side, t, occ, n + 1));
    }
}

proof fn lemma_component_step(p: Position, side: int, c: int, t: int, occ: u64, n: int)
    requires
        0 <= n,
    ensures
        p.component_upto(side, c, t, occ, n + 1) == (p.component_upto(side, c, t, occ, n) || p.contributes(side, c, n, t, occ)),
{
    if p.component_upto(side, c, t, occ, n + 1) {
        let s = choose|s: int| 0 <= s < n + 1 && #[trigger] p.contributes(side, c, s, t, occ);
        if s < n {
            assert(p.component_upto(side, c, t, occ, n));
        }
    }
    if p.contributes(side, c, n, t, occ) {
        assert(p.component_upto(side, c, t, occ, n + 1));
    }
    if p.component_upto(side, c, t, occ, n) {
        let s = choose|s: int| 0 <= s < n && #[trigger] p.contributes(side, c, s, t, occ);
        assert(p.component_upto(side, c, t, occ, n + 1));
    }
}


proof fn lemma_nonzero_square(x: u64, k: int)
    requires
        0 <= k < 64,
    ensures
        (x & (1u64 << (k as u64)) != 0) == sq_in(x, k),
{
    lemma_bit_of_square(x, k);
}

pub proof fn lemma_king_board(p: Position, side: int)
    requires
        p.wf(),
        0 <= side < 2,
    ensures
        only_square(p.pieces[side][5], p.king_square(side)),
        p.pieces[side][5] == 1u64 << (p.king_square(side) as u64),
        0 <= p.king_square(side) < 64,
{
    let k = p.king_square(side);
    assert(only_square(p.pieces[side][5], k));
    let b = p.pieces[side][5];
    crate::bits::lemma_same_squares(b, 1u64 << (k as u64));
}

proof fn lemma_all_of_components(p: Position, side: int, t: int, occ: u64)
    ensures
        p.attacked(side, t, occ) == (p.component_upto(side, 0, t, occ, 64) || p.component_upto(side, 1, t, occ, 64)
            || p.component_upto(side, 2, t, occ, 64) || p.component_upto(side, 3, t, occ, 64) || p.component_upto(side, 4, t, occ, 64)),
{
    if p.attacked(side, t, occ) {
        let s = choose|s: int| 0 <= s < 64 && #[trigger] p.attacker(side, s, t, occ);
        let k = p.kind_at(side, s)->0;
        lemma_first_kind(p.pieces[side], s);
        lemma_components(side, k as int, s, t, occ);
        if component(side, k as int, 0, s, t, occ) {
            assert(p.contributes(side, 0, s, t, occ));
        } else if component(side, k as int, 1, s, t, occ) {
            assert(p.contributes(side, 1, s, t, occ));
        } else if component(side, k as int, 2, s, t, occ) {
            assert(p.contributes(side, 2, s, t, occ));
        } else if component(side, k as int, 3, s, t, occ) {
            assert(p.contributes(side, 3, s, t, occ));
        } else {
            assert(p.contributes(side, 4, s, t, occ));
        }
    }
    assert forall|c: int| 0 <= c < 5 && #[trigger] p.component_upto(side, c, t, occ, 64) implies p.attacked(side, t, occ) by {
        let s = choose|s: int| 0 <= s < 64 && #[trigger] p.contributes(side, c, s, t, occ);
        let k = p.kind_at(side, s)->0;
        lemma_first_kind(p.pieces[side], s);
        lemma_components(side, k as int, s, t, occ);
        assert(p.attacker(side, s, t, occ));
    }
    if p.component_upto(side, 0, t, occ, 64) || p.component_upto(side, 1, t, occ, 64)
            || p.component_upto(side, 2, t, occ, 64) || p.component_upto(side, 3, t, occ, 64) || p.component_upto(side, 4, t, occ, 64) {
        if p.component_upto(side, 0, t, occ, 64) {
            assert(p.attacked(side, t, occ));
        } else if p.component_upto(side, 1, t, occ, 64) {
            assert(p.attacked(side, t, occ));
        } else if p.component_upto(side, 2, t, occ, 64) {
            assert(p.attacked(side, t, occ));
        } else if p.component_upto(side, 3, t, occ, 64) {
            assert(p.attacked(side, t, occ));
        } else {
            assert(p.attacked(side, t, occ));
        }
    }
}

impl Position {
    /// What `side` attacks over `occupancy`: every attacked square, split into the
    /// pawn-knight-king part and the four slider lines, and which pieces check the opposing king.
    pub fn get_side_attacks(&self, tables: &AttackTables, side: Side, occupancy: Bitboard) -> (r: SideAttacks)
        requires
            self.wf(),
            tables.wf(),
            side.wf(),
        ensures
            forall|c: int, t: int| 0 <= c < 5 ==> (#[trigger] sq_in(r.part(c), t) == self.component_upto(side.0 as int, c, t, occupancy, 64)),
            forall|t: int| #[trigger] sq_in(r.spec_all(), t) == self.attacked(side.0 as int, t, occupancy),
            r.check is None <==> !self.checked_by(side.0 as int, occupancy),
            r.check matches Some(ci) ==> ci.square < 64 && self.gives_check(side.0 as int, ci.square as int, occupancy)
                && self.kind_at(side.0 as int, ci.square as int) == Some(ci.piece),
            r.double_check == self.double_checked_by(side.0 as int, occupancy),
    {
        let ghost sd = side.0 as int;
        let enemy_king = self.pieces[1 - side.0][KING];
        proof {
            lemma_king_board(*self, 1 - sd);
        }
        let ghost ksq = self.king_square(1 - sd);
        let mut check: Option<PieceInfo> = None;
        let mut double_check = false;
        let mut nonrays: u64 = 0;
        let mut rays_h: u64 = 0;
        let mut rays_v: u64 = 0;
        let mut rays_dd: u64 = 0;
        let mut rays_da: u64 = 0;
        let mut s: u8 = 0;
        while s < 64
            invariant
                self.wf(),
                tables.wf(),
                side.wf(),
                sd == side.0 as int,
                s <= 64,
                enemy_king == 1u64 << (ksq as u64),
                0 <= ksq < 64,
                ksq == self.king_square(1 - sd),
                forall|t: int| #[trigger] sq_in(nonrays, t) == self.component_upto(sd, 0, t, occupancy, s as int),
                forall|t: int| #[trigger] sq_in(rays_h, t) == self.component_upto(sd, 1, t, occupancy, s as int),
                forall|t: int| #[trigger] sq_in(rays_v, t) == self.component_upto(sd, 2, t, occupancy, s as int),
                forall|t: int| #[trigger] sq_in(rays_dd, t) == self.component_upto(sd, 3, t, occupancy, s as int),
                forall|t: int| #[trigger] sq_in(rays_da, t) == self.component_upto(sd, 4, t, occupancy, s as int),
                check is None <==> forall|q: int| 0 <= q < s ==> !#[trigger] self.gives_check(sd, q, occupancy),
                check matches Some(ci) ==> ci.square < s && self.gives_check(sd, ci.square as int, occupancy)
                    && self.kind_at(sd, ci.square as int) == Some(ci.piece),
                double_check == self.two_checks_upto(sd, occupancy, s as int),
                (check is Some && !double_check) ==> forall|q: int| 0 <= q < s && #[trigger] self.gives_check(sd, q, occupancy) ==> q == check->0.square,
            decreases 64 - s,
        {
            let bb: u64 = 1u64 << s;
            let kind = self.pieces[side.0].get_piece_type_at_square(bb);
            let ghost old_check = check;
            let ghost old_double = double_check;
            proof {
                lemma_first_kind(self.pieces[sd], s as int);
                assert(self.kind_at(sd, s as int) == kind);
                lemma_component_step(*self, sd, 0, 0, occupancy, s as int);
            }
            match kind {
                None => {
                    proof {
                        assert forall|c: int, t: int| 0 <= c < 5 implies !#[trigger] self.contributes(sd, c, s as int, t, occupancy) by {}
                        assert(!self.gives_check(sd, s as int, occupancy));
                    }
                },
                Some(k) => {
                    let attacks: u64 = if k == PAWN {
                        get_pawn_attacks(tables, side, s)
                    } else if k == KNIGHT {
                        get_knight_attacks(tables, s)
                    } else if k == BISHOP {
                        get_bishop_attacks(tables, s, occupancy)
                    } else if k == ROOK {
                        get_rook_attacks(tables, s, occupancy)
                    } else if k == QUEEN {
                        get_queen_attacks(tables, s, occupancy)
                    } else {
                        get_king_attacks(tables, s)
                    };
                    assert(forall|t: int| #[trigger] sq_in(attacks, t) == piece_attacks(sd, k as int, s as int, t, occupancy));
                    if k == PAWN || k == KNIGHT || k == KING {
                        nonrays = nonrays | attacks;
                    }
                    if k == ROOK || k == QUEEN {
                        rays_h = rays_h | (attacks & tables.rank_map[s as usize]);
                        rays_v = rays_v | (attacks & tables.file_map[s as usize]);
                    }
                    if k == BISHOP || k == QUEEN {
                        rays_dd = rays_dd | (attacks & tables.diagonal_descending_map[s as usize]);
                        rays_da = rays_da | (attacks & tables.diagonal_ascending_map[s as usize]);
                    }
                    proof {
                        lemma_nonzero_square(attacks, ksq);
                        assert(self.gives_check(sd, s as int, occupancy) == sq_in(attacks, ksq));
                        assert forall|t: int| true implies
                            (#[trigger] sq_in(nonrays, t) == (self.component_upto(sd, 0, t, occupancy, s as int) || self.contributes(sd, 0, s as int, t, occupancy)))
                            && (sq_in(rays_h, t) == (self.component_upto(sd, 1, t, occupancy, s as int) || self.contributes(sd, 1, s as int, t, occupancy)))
                            && (sq_in(rays_v, t) == (self.component_upto(sd, 2, t, occupancy, s as int) || self.contributes(sd, 2, s as int, t, occupancy)))
                            && (sq_in(rays_dd, t) == (self.component_upto(sd, 3, t, occupancy, s as int) || self.contributes(sd, 3, s as int, t, occupancy)))
                            && (sq_in(rays_da, t) == (self.component_upto(sd, 4, t, occupancy, s as int) || self.contributes(sd, 4, s as int, t, occupancy))) by {
                            lemma_ray_line(s as int, t, occupancy);
                        }
                    }
                    if attacks & enemy_king != 0 {
                        if check.is_some() {
                            double_check = true;
                        } else {
                            check = Some(PieceInfo { piece: k, square: s });
                        }
                    }
                },
            }
            proof {
                assert forall|c: int, t: int| 0 <= c < 5 implies
                    self.component_upto(sd, c, t, occupancy, s as int + 1) == (self.component_upto(sd, c, t, occupancy, s as int) || self.contributes(sd, c, s as int, t, occupancy)) by {
                    lemma_component_step(*self, sd, c, t, occupancy, s as int);
                }
                assert forall|t: int| #[trigger] sq_in(nonrays, t) == self.component_upto(sd, 0, t, occupancy, s as int + 1) by {
                    assert(self.component_upto(sd, 0, t, occupancy, s as int + 1) == (self.component_upto(sd, 0, t, occupancy, s as int) || self.contributes(sd, 0, s as int, t, occupancy)));
                }
                assert forall|t: int| #[trigger] sq_in(rays_h, t) == self.component_upto(sd, 1, t, occupancy, s as int + 1) by {
                    assert(self.component_upto(sd, 1, t, occupancy, s as int + 1) == (self.component_upto(sd, 1, t, occupancy, s as int) || self.contributes(sd, 1, s as int, t, occupancy)));
                }
                assert forall|t: int| #[trigger] sq_in(rays_v, t) == self.component_upto(sd, 2, t, occupancy, s as int + 1) by {
                    assert(self.component_upto(sd, 2, t, occupancy, s as int + 1) == (self.component_upto(sd, 2, t, occupancy, s as int) || self.contributes(sd, 2, s as int, t, occupancy)));
                }
                assert forall|t: int| #[trigger] sq_in(rays_dd, t) == self.component_upto(sd, 3, t, occupancy, s as int + 1) by {
                    assert(self.component_upto(sd, 3, t, occupancy, s as int + 1) == (self.component_upto(sd, 3, t, occupancy, s as int) || self.contributes(sd, 3, s as int, t, occupancy)));
                }
                assert forall|t: int| #[trigger] sq_in(rays_da, t) == self.component_upto(sd, 4, t, occupancy, s as int + 1) by {
                    assert(self.component_upto(sd, 4, t, occupancy, s as int + 1) == (self.component_upto(sd, 4, t, occupancy, s as int) || self.contributes(sd, 4, s as int, t, occupancy)));
                }
                let n = s as int;
                if self.gives_check(sd, n, occupancy) {
                    if old_check is Some {
                        let ci = old_check->0;
                        assert(ci.square < n);
                        assert(self.two_checks_upto(sd, occupancy, n + 1)) by {
                            assert(self.gives_check(sd, ci.square as int, occupancy));
                        }
                    } else {
                        assert forall|a: int, b: int| 0 <= a < n + 1 && 0 <= b < n + 1 && a != b && #[trigger] self.gives_check(sd, a, occupancy)
                            implies !#[trigger] self.gives_check(sd, b, occupancy) by {
                            if a < n {
                                assert(!self.gives_check(sd, a, occupancy));
                            } else {
                                assert(!self.gives_check(sd, b, occupancy));
                            }
                        }
                    }
                } else {
                    if self.two_checks_upto(sd, occupancy, n + 1) {
                        let (a, b) = choose|a: int, b: int| 0 <= a < n + 1 && 0 <= b < n + 1 && a != b && #[trigger] self.gives_check(sd, a, occupancy) && #[trigger] self.gives_check(sd, b, occupancy);
                        assert(a != n && b != n);
                        assert(self.two_checks_upto(sd, occupancy, n));
                    }
                    if self.two_checks_upto(sd, occupancy, n) {
                        let (a, b) = choose|a: int, b: int| 0 <= a < n && 0 <= b < n && a != b && #[trigger] self.gives_check(sd, a, occupancy) && #[trigger] self.gives_check(sd, b, occupancy);
                        assert(self.two_checks_upto(sd, occupancy, n + 1));
                    }
                }
            }
            s = s + 1;
        }
        let r = SideAttacks { check, double_check, nonrays, rays_h, rays_v, rays_dd, rays_da };
        proof {
            assert forall|t: int| #[trigger] sq_in(r.spec_all(), t) == self.attacked(sd, t, occupancy) by {
                lemma_all_of_components(*self, sd, t, occupancy);
            }
            assert forall|c: int, t: int| 0 <= c < 5 implies (#[trigger] sq_in(r.part(c), t) == self.component_upto(sd, c, t, occupancy, 64)) by {}
            if r.check is None {
                assert(!self.checked_by(sd, occupancy));
            }
        }
        r
    }
}


/// The pieces of one side that cannot leave a line through their king, split by line.
#[derive(Clone, Copy)]
pub struct AbsolutePins {
    pub pins_h: Bitboard,
    pub pins_v: Bitboard,
    pub pins_dd: Bitboard,
    pub pins_da: Bitboard,
}

impl AbsolutePins {
    pub open spec fn spec_all(self) -> u64 {
        self.pins_h | self.pins_v | self.pins_dd | self.pins_da
    }
}

pub trait AbsolutePinMethods: Sized {
    spec fn union_of(&self) -> u64;

    /// Every pinned square.
    fn all(self) -> (r: Bitboard)
        ensures
            r == self.union_of(),
    ;
}

impl AbsolutePinMethods for AbsolutePins {
    open spec fn union_of(&self) -> u64 {
        self.spec_all()
    }

    fn all(self) -> (r: Bitboard) {
        self.pins_h | self.pins_v | self.pins_dd | self.pins_da
    }
}

/// Along one line through the king on `k`: the defender's squares that the king sees over
/// `occ` and that the attacker's ray component `rays` reaches.
pub open spec fn pinned_on(k: int, t: int, occ: u64, defender: u64, rays: u64, line: int) -> bool {
    let sees = if line == 1 {
        rook_hit(k, t, occ) && same_rank(k, t)
    } else if line == 2 {
        rook_hit(k, t, occ) && same_file(k, t)
    } else if line == 3 {
        bishop_hit(k, t, occ) && same_diag_desc(k, t)
    } else {
        bishop_hit(k, t, occ) && same_diag_asc(k, t)
    };
    sees && sq_in(defender, t) && sq_in(rays, t)
}

impl Position {
    /// The absolute pins of the defender whose king stands on `defender_king_square`, against
    /// the attacker summary `enemy_attacks`: for each line, the defender squares that both the
    /// king and the attacker's ray component of that line reach.
    pub fn get_absolute_pins_for_side(
        &self,
        tables: &AttackTables,
        enemy_attacks: SideAttacks,
        occupancy: Bitboard,
        defender_occupancy: Bitboard,
        defender_king_square: Square,
    ) -> (r: AbsolutePins)
        requires
            tables.wf(),
            defender_king_square < 64,
        ensures
            forall|t: int| #[trigger] sq_in(r.pins_h, t) == pinned_on(defender_king_square as int, t, occupancy, defender_occupancy, enemy_attacks.rays_h, 1),
            forall|t: int| #[trigger] sq_in(r.pins_v, t) == pinned_on(defender_king_square as int, t, occupancy, defender_occupancy, enemy_attacks.rays_v, 2),
            forall|t: int| #[trigger] sq_in(r.pins_dd, t) == pinned_on(defender_king_square as int, t, occupancy, defender_occupancy, enemy_attacks.rays_dd, 3),
            forall|t: int| #[trigger] sq_in(r.pins_da, t) == pinned_on(defender_king_square as int, t, occupancy, defender_occupancy, enemy_attacks.rays_da, 4),
    {
        let k = defender_king_square as usize;
        let rook = get_rook_attacks(tables, defender_king_square, occupancy);
        let bishop = get_bishop_attacks(tables, defender_king_square, occupancy);
        let rank = tables.rank_map[k];
        let file = tables.file_map[k];
        let dd = tables.diagonal_descending_map[k];
        let da = tables.diagonal_ascending_map[k];
        AbsolutePins {
            pins_h: (rook & rank & defender_occupancy) & (enemy_attacks.rays_h & rank & defender_occupancy),
            pins_v: (rook & file & defender_occupancy) & (enemy_attacks.rays_v & file & defender_occupancy),
            pins_dd: (bishop & dd & defender_occupancy) & (enemy_attacks.rays_dd & dd & defender_occupancy),
            pins_da: (bishop & da & defender_occupancy) & (enemy_attacks.rays_da & da & defender_occupancy),
        }
    }
}

} // verus!
