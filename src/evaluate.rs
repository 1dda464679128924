use vstd::prelude::*;
use vstd::string::*;
use crate::bits::{sq_in, bit_facts, is_lowest};
use crate::bitboard::{Bitboard, BitboardMethods, contains, count_squares, popcount};
use crate::position::{lemma_three_pushes, MAX_ZOBRIST_ARRAY_SIZE, Position, Move, Translation, SidePiecesMethods, union6, lemma_first_kind, only_square, move_ok, count_of, pushed, zobrist_key};
use crate::attacks::{AbsolutePinMethods, SideAttackMethods};
use crate::maps::{AttackTables, get_pawn_moves, get_pawn_attacks, get_knight_attacks, get_bishop_attacks, get_rook_attacks, get_queen_attacks, get_king_attacks};
use crate::masks::{is_square, rook_hit, bishop_hit, same_rank, same_file, same_diag_asc, same_diag_desc};
use crate::position::{rook_from, rook_to, applied_board, is_applied, ep_victim, kind_ok, first_kind};
use crate::maps::pawn_push;
use crate::attacks::piece_attacks;
use crate::masks::pawn_step;
use crate::types::{rank_of, KING_SIDE, QUEEN_SIDE, Side, Square, Piece, GameState, PAWN, KNIGHT, BISHOP, ROOK, QUEEN, KING};

verus! {

broadcast use bit_facts;

/// Why a position is drawn before any move is generated.
#[derive(PartialEq, Eq, Structural, Clone, Copy, Debug)]
pub enum DrawReason {
    Repetition,
    FiftyMoves,
    InsufficientMaterial,
}

impl DrawReason {
    pub open spec fn spec_note(self) -> Seq<char> {
        match self {
            DrawReason::Repetition => "threefold repetition"@,
            DrawReason::FiftyMoves => "fifty-move rule"@,
            DrawReason::InsufficientMaterial => "insufficient material"@,
        }
    }

    /// The note that an evaluation carries for this draw.
    pub fn note(self) -> (r: String)
        ensures
            r@ == self.spec_note(),
    {
        proof {
            reveal_strlit("threefold repetition");
            reveal_strlit("fifty-move rule");
            reveal_strlit("insufficient material");
        }
        match self {
            DrawReason::Repetition => String::from_str("threefold repetition"),
            DrawReason::FiftyMoves => String::from_str("fifty-move rule"),
            DrawReason::InsufficientMaterial => String::from_str("insufficient material"),
        }
    }
}

/// `side` has at most a king and a single knight or bishop.
pub open spec fn side_insufficient(p: Position, side: int) -> bool {
    &&& p.pieces[side][PAWN as int] == 0
    &&& p.pieces[side][ROOK as int] == 0
    &&& p.pieces[side][QUEEN as int] == 0
    &&& popcount(p.pieces[side][KNIGHT as int]) + popcount(p.pieces[side][BISHOP as int]) <= 1
}

/// The draw that holds of `p` when its hash stands `reps` times in the repetition stack.
pub open spec fn draw_reason(p: Position, reps: nat) -> Option<DrawReason> {
    if reps >= 3 {
        Some(DrawReason::Repetition)
    } else if p.halfmove_clock >= 100 {
        Some(DrawReason::FiftyMoves)
    } else if side_insufficient(p, 0) && side_insufficient(p, 1) {
        Some(DrawReason::InsufficientMaterial)
    } else {
        None
    }
}

/// `q` is `p` but for its repetition stack.
pub open spec fn same_but_stack(p: Position, q: Position) -> bool {
    &&& q.pieces == p.pieces
    &&& q.halfmove_clock == p.halfmove_clock
    &&& q.fullmove_number == p.fullmove_number
    &&& q.side_to_move == p.side_to_move
    &&& q.castling_rights == p.castling_rights
    &&& q.en_passant_square == p.en_passant_square
    &&& q.hasher == p.hasher
}

/// The hash of `p` has been pushed onto its stack, giving `q`.
pub open spec fn hash_pushed(p: Position, q: Position) -> bool {
    &&& same_but_stack(p, q)
    &&& q.zobrist_stack.wf()
    &&& q.zobrist_stack.view() == pushed(p.zobrist_stack.view(), zobrist_key(p.hasher, p))
}

pub open spec fn repetitions(q: Position, p: Position) -> nat {
    count_of(q.zobrist_stack.view(), zobrist_key(p.hasher, p))
}

pub const PIN_MULTIPLIER: i32 = 10;
pub const SQUARE_MULTIPLIER: i32 = 10;
pub const SCORE_WHITE_WINS: i32 = 1000000;
pub const SCORE_BLACK_WINS: i32 = -1000000;

/// White's material minus Black's, in centipawns.
pub open spec fn material(p: Position) -> int {
    100 * (popcount(p.pieces[0][0]) - popcount(p.pieces[1][0]))
        + 300 * (popcount(p.pieces[0][1]) - popcount(p.pieces[1][1]))
        + 300 * (popcount(p.pieces[0][2]) - popcount(p.pieces[1][2]))
        + 500 * (popcount(p.pieces[0][3]) - popcount(p.pieces[1][3]))
        + 900 * (popcount(p.pieces[0][4]) - popcount(p.pieces[1][4]))
}

impl Position {
    /// White's material minus Black's.
    pub fn get_score(&self) -> (r: i32)
        ensures
            r == material(*self),
            -134400 <= r <= 134400,
    {
        let wp = count_squares(self.pieces[0][PAWN]) as i32;
        let bp = count_squares(self.pieces[1][PAWN]) as i32;
        let wn = count_squares(self.pieces[0][KNIGHT]) as i32;
        let bn = count_squares(self.pieces[1][KNIGHT]) as i32;
        let wb = count_squares(self.pieces[0][BISHOP]) as i32;
        let bb = count_squares(self.pieces[1][BISHOP]) as i32;
        let wr = count_squares(self.pieces[0][ROOK]) as i32;
        let br = count_squares(self.pieces[1][ROOK]) as i32;
        let wq = count_squares(self.pieces[0][QUEEN]) as i32;
        let bq = count_squares(self.pieces[1][QUEEN]) as i32;
        100 * (wp - bp) + 300 * (wn - bn) + 300 * (wb - bb) + 500 * (wr - br) + 900 * (wq - bq)
    }

    fn insufficient(&self, side: usize) -> (r: bool)
        requires
            side < 2,
        ensures
            r == side_insufficient(*self, side as int),
    {
        self.pieces[side][PAWN] == 0 && self.pieces[side][ROOK] == 0 && self.pieces[side][QUEEN] == 0
            && count_squares(self.pieces[side][KNIGHT]) + count_squares(self.pieces[side][BISHOP]) <= 1
    }

    /// Pushes the position's hash onto its repetition stack and reports a draw by repetition,
    /// the fifty-move rule or insufficient material, in that order.
    pub fn check_draw(&mut self) -> (r: Option<DrawReason>)
        requires
            old(self).wf(),
        ensures
            hash_pushed(*old(self), *final(self)),
            final(self).wf(),
            r == draw_reason(*old(self), repetitions(*final(self), *old(self))),
    {
        let hash = self.hasher.hash_position(self);
        self.zobrist_stack.add(hash);
        proof {
            lemma_wf_same_but_stack(*old(self), *self);
        }
        let reps = self.zobrist_stack.get_repetitions(hash);
        if reps >= 3 {
            return Some(DrawReason::Repetition);
        }
        if self.halfmove_clock >= 100 {
            return Some(DrawReason::FiftyMoves);
        }
        if self.insufficient(0) && self.insufficient(1) {
            return Some(DrawReason::InsufficientMaterial);
        }
        None
    }
}

proof fn lemma_wf_same_but_stack(p: Position, q: Position)
    requires
        p.wf(),
        same_but_stack(p, q),
        q.zobrist_stack.wf(),
    ensures
        q.wf(),
{
    assert(forall|s: int, k: int, t: int| #[trigger] q.owns(s, k, t) == p.owns(s, k, t));
    assert(forall|s: int| 0 <= s < 2 ==> q.pieces[s][5] == p.pieces[s][5]);
}

/// Every move of `moves` fits `p`.
pub open spec fn moves_fit(p: Position, moves: Seq<Move>) -> bool {
    forall|i: int| 0 <= i < moves.len() ==> move_ok(p, #[trigger] moves[i])
}

pub open spec fn from_of(m: Move) -> int {
    m.translation->0.from as int
}

pub open spec fn to_of(m: Move) -> int {
    m.translation->0.to as int
}

/// `t` is on the first or the last rank.
pub open spec fn last_rank(t: int) -> bool {
    rank_of(t) == 0 || rank_of(t) == 7
}

/// The mover's piece on `s` can go to `t` by its own rule (a pawn pushes onto empty squares and
/// captures diagonally onto an opposing piece), and `t` does not hold a piece of the mover.
pub open spec fn reaches(p: Position, s: int, t: int) -> bool {
    let us = p.us();
    let occ = p.occupancy_all();
    &&& 0 <= s < 64
    &&& is_square(t)
    &&& !p.holds(us, t)
    &&& match p.kind_at(us, s) {
        Some(k) => if k == PAWN {
            pawn_push(us, s, t, occ) || (pawn_step(us, s, t) && p.holds(p.them(), t))
        } else {
            piece_attacks(us, k as int, s, t, occ)
        },
        None => false,
    }
}

/// `m` moves a piece by its own rule, records what it takes, and promotes (to a knight,
/// bishop, rook or queen) exactly when a pawn reaches the last rank.
pub open spec fn plain_move(p: Position, m: Move) -> bool {
    match m.translation {
        None => false,
        Some(tr) => {
            let s = tr.from as int;
            let t = tr.to as int;
            &&& reaches(p, s, t)
            &&& m.castling is None
            &&& m.en_passant is None
            &&& m.capture == first_kind(p.pieces[p.them()], 1u64 << (t as u64))
            &&& m.capture != Some(KING)
            &&& if p.kind_at(p.us(), s) == Some(PAWN) && last_rank(t) {
                m.promotion matches Some(k) && KNIGHT <= k <= QUEEN
            } else {
                m.promotion is None
            }
        },
    }
}

/// `m` takes en passant: a pawn moves diagonally onto the en-passant square and the opposing
/// pawn behind it is taken.
pub open spec fn ep_move(p: Position, m: Move) -> bool {
    match (m.translation, m.en_passant, p.en_passant_square) {
        (Some(tr), Some(e), Some(pe)) => {
            let us = p.us();
            let s = tr.from as int;
            let t = tr.to as int;
            &&& e == pe
            &&& t == e as int
            &&& 0 <= s < 64
            &&& p.kind_at(us, s) == Some(PAWN)
            &&& pawn_step(us, s, t)
            &&& is_square(ep_victim(us, t))
            &&& p.owns(p.them(), PAWN as int, ep_victim(us, t))
            &&& !p.holds(p.them(), t)
            &&& !p.holds(us, t)
            &&& m.capture == Some(PAWN)
            &&& m.promotion is None
            &&& m.castling is None
        },
        _ => false,
    }
}

/// The home square of the king of `side`.
pub open spec fn home(side: int) -> int {
    if side == 0 { 4 } else { 60 }
}

/// `m` castles: the right is held, king and rook stand on their home squares, the squares
/// between them are empty, the king is not in check and does not cross or reach an attacked
/// square.
pub open spec fn castle_move(p: Position, m: Move) -> bool {
    let us = p.us();
    let them = p.them();
    let occ = p.occupancy_all();
    let c = p.castling_rights;
    let h = home(us);
    match (m.castling, m.translation) {
        (Some(d), Some(tr)) => {
            &&& m.capture is None && m.promotion is None && m.en_passant is None
            &&& tr.from as int == h
            &&& p.owns(us, KING as int, h)
            &&& !p.in_check()
            &&& if d == KING_SIDE {
                &&& (if us == 0 { c.white_king_side } else { c.black_king_side })
                &&& tr.to as int == h + 2
                &&& p.owns(us, ROOK as int, h + 3)
                &&& !sq_in(occ, h + 1) && !sq_in(occ, h + 2)
                &&& !p.attacked(them, h + 1, occ) && !p.attacked(them, h + 2, occ)
            } else if d == QUEEN_SIDE {
                &&& (if us == 0 { c.white_queen_side } else { c.black_queen_side })
                &&& tr.to as int == h - 2
                &&& p.owns(us, ROOK as int, h - 4)
                &&& !sq_in(occ, h - 1) && !sq_in(occ, h - 2) && !sq_in(occ, h - 3)
                &&& !p.attacked(them, h - 1, occ) && !p.attacked(them, h - 2, occ)
            } else {
                false
            }
        },
        _ => false,
    }
}

/// After `m` the mover's king is not attacked.
pub open spec fn safe_after(p: Position, m: Move) -> bool {
    forall|r: Position| #[trigger] is_applied(p, m, r) ==> !r.checked_by(p.them(), r.occupancy_all())
}

/// `m` is a legal move of `p`.
pub open spec fn legal(p: Position, m: Move) -> bool {
    &&& plain_move(p, m) || ep_move(p, m) || castle_move(p, m)
    &&& safe_after(p, m)
}

pub open spec fn all_legal(p: Position, moves: Seq<Move>) -> bool {
    forall|i: int| 0 <= i < moves.len() ==> legal(p, #[trigger] moves[i]) && move_ok(p, moves[i])
}

/// `p` has a legal move.
pub open spec fn has_legal_move(p: Position) -> bool {
    exists|m: Move| #[trigger] legal(p, m)
}

proof fn lemma_holds_union(p: Position, side: int, t: int)
    requires
        0 <= side < 2,
    ensures
        p.holds(side, t) == sq_in(union6(p.pieces[side]), t),
{
    if sq_in(union6(p.pieces[side]), t) {
        let b = p.pieces[side];
        if sq_in(b[0], t) {
            assert(p.owns(side, 0, t));
        } else if sq_in(b[1], t) {
            assert(p.owns(side, 1, t));
        } else if sq_in(b[2], t) {
            assert(p.owns(side, 2, t));
        } else if sq_in(b[3], t) {
            assert(p.owns(side, 3, t));
        } else if sq_in(b[4], t) {
            assert(p.owns(side, 4, t));
        } else {
            assert(p.owns(side, 5, t));
        }
    }
    if p.holds(side, t) {
        let k = choose|k: int| #[trigger] p.owns(side, k, t);
        assert(k == 0 || k == 1 || k == 2 || k == 3 || k == 4 || k == 5);
    }
}

/// Appends the translation `from`-`to` with the given promotion and the captured kind found on

/// The rank of a promotion in the order in which moves are listed: none, queen, rook, bishop,
/// knight.
pub open spec fn promotion_rank(p: Option<Piece>) -> int {
    match p {
        None => 0,
        Some(k) => if k == QUEEN { 1 } else if k == ROOK { 2 } else if k == BISHOP { 3 } else { 4 },
    }
}

/// The place of a move in the order in which moves are listed: castlings, then by origin
/// square, then by destination and promotion, an en-passant capture last.
pub open spec fn list_key(m: Move) -> int {
    match m.castling {
        Some(d) => d - 10,
        None => if m.en_passant is Some {
            from_of(m) * 1000 + 999
        } else {
            from_of(m) * 1000 + to_of(m) * 10 + promotion_rank(m.promotion)
        },
    }
}

/// The moves are in strictly increasing listing order.
pub open spec fn listed_in_order(moves: Seq<Move>) -> bool {
    forall|i: int, j: int| 0 <= i < j < moves.len() ==> list_key(moves[i]) < list_key(moves[j])
}

/// Everything listed comes before `bound`.
pub open spec fn all_before(moves: Seq<Move>, bound: int) -> bool {
    forall|i: int| 0 <= i < moves.len() ==> list_key(#[trigger] moves[i]) < bound
}

proof fn lemma_ordered_distinct(moves: Seq<Move>)
    requires
        listed_in_order(moves),
    ensures
        moves.no_duplicates(),
{
    assert forall|i: int, j: int| 0 <= i < moves.len() && 0 <= j < moves.len() && i != j implies moves[i] != moves[j] by {
        if i < j {
            assert(list_key(moves[i]) < list_key(moves[j]));
        } else {
            assert(list_key(moves[j]) < list_key(moves[i]));
        }
    }
}

/// Two positions reached by the same move have the same boards, so the same checks.
proof fn lemma_applied_checks(p: Position, m: Move, r1: Position, r2: Position, side: int)
    requires
        0 <= side < 2,
        is_applied(p, m, r1),
        is_applied(p, m, r2),
    ensures
        r1.checked_by(side, r1.occupancy_all()) == r2.checked_by(side, r2.occupancy_all()),
{
    assert forall|s: int, k: int| kind_ok(s, k) implies #[trigger] r1.pieces[s][k] == r2.pieces[s][k] by {
        assert forall|t: int| 0 <= t < 64 implies sq_in(r1.pieces[s][k], t) == sq_in(r2.pieces[s][k], t) by {
            assert(sq_in(r1.pieces[s][k], t) == applied_board(p, m, s, k, t));
            assert(sq_in(r2.pieces[s][k], t) == applied_board(p, m, s, k, t));
        }
        crate::bits::lemma_same_squares(r1.pieces[s][k], r2.pieces[s][k]);
    }
    assert(r1.pieces[0][0] == r2.pieces[0][0] && r1.pieces[0][1] == r2.pieces[0][1] && r1.pieces[0][2] == r2.pieces[0][2]
        && r1.pieces[0][3] == r2.pieces[0][3] && r1.pieces[0][4] == r2.pieces[0][4] && r1.pieces[0][5] == r2.pieces[0][5]);
    assert(r1.pieces[1][0] == r2.pieces[1][0] && r1.pieces[1][1] == r2.pieces[1][1] && r1.pieces[1][2] == r2.pieces[1][2]
        && r1.pieces[1][3] == r2.pieces[1][3] && r1.pieces[1][4] == r2.pieces[1][4] && r1.pieces[1][5] == r2.pieces[1][5]);
    let occ1 = r1.occupancy_all();
    let occ2 = r2.occupancy_all();
    assert(occ1 == occ2);
    assert(r1.pieces[1 - side][5] == r2.pieces[1 - side][5]);
    assert(r1.king_square(1 - side) == r2.king_square(1 - side));
    assert forall|s: int| #[trigger] r1.gives_check(side, s, occ1) == r2.gives_check(side, s, occ2) by {
        assert(r1.kind_at(side, s) == r2.kind_at(side, s));
    }
    if r1.checked_by(side, occ1) {
        let s = choose|s: int| 0 <= s < 64 && #[trigger] r1.gives_check(side, s, occ1);
        assert(r2.gives_check(side, s, occ2));
    }
    if r2.checked_by(side, occ2) {
        let s = choose|s: int| 0 <= s < 64 && #[trigger] r2.gives_check(side, s, occ2);
        assert(r1.gives_check(side, s, occ1));
    }
}

proof fn lemma_contains_kept(a: Seq<Move>, b: Seq<Move>)
    requires
        a.len() <= b.len(),
        forall|i: int| 0 <= i < a.len() ==> b[i] == a[i],
    ensures
        forall|x: Move| a.contains(x) ==> #[trigger] b.contains(x),
{
    assert forall|x: Move| a.contains(x) implies #[trigger] b.contains(x) by {
        let i = choose|i: int| 0 <= i < a.len() && a[i] == x;
        assert(b[i] == x);
    }
}

/// Every legal plain move from `s` to `t` is in `moves`.
pub open spec fn covered(p: Position, moves: Seq<Move>, s: int, t: int) -> bool {
    forall|m: Move| #[trigger] legal(p, m) && plain_move(p, m) && from_of(m) == s && to_of(m) == t ==> moves.contains(m)
}

/// Appends the candidate `c` when the mover's king is safe after it.
fn push_if_legal(moves: &mut Vec<Move>, p: &Position, tables: &AttackTables, c: Move)
    requires
        p.wf(),
        tables.wf(),
        move_ok(*p, c),
        plain_move(*p, c) || ep_move(*p, c) || castle_move(*p, c),
        all_legal(*p, old(moves)@),
        listed_in_order(old(moves)@),
        all_before(old(moves)@, list_key(c)),
    ensures
        all_legal(*p, final(moves)@),
        listed_in_order(final(moves)@),
        final(moves)@ == (if safe_after(*p, c) { old(moves)@.push(c) } else { old(moves)@ }),
{
    let r = p.make_move(c);
    let white_occ = r.pieces[0].occupancy();
    let black_occ = r.pieces[1].occupancy();
    let them = Side(1 - p.side_to_move.0);
    let attacks = r.get_side_attacks(tables, them, white_occ | black_occ);
    proof {
        assert forall|r2: Position| #[trigger] is_applied(*p, c, r2) implies r2.checked_by(p.them(), r2.occupancy_all())
            == r.checked_by(p.them(), r.occupancy_all()) by {
            lemma_applied_checks(*p, c, r, r2, p.them());
        }
    }
    if attacks.check.is_none() {
        moves.push(c);
        proof {
            assert(legal(*p, c));
            assert forall|i: int| 0 <= i < moves@.len() implies legal(*p, #[trigger] moves@[i]) && move_ok(*p, moves@[i]) by {
                if i < old(moves)@.len() {
                    assert(moves@[i] == old(moves)@[i]);
                }
            }
        }
    } else {
        proof {
            assert(!safe_after(*p, c));
        }
    }
}

/// The legal plain moves from `s` to the squares of `targets`, in the order of the squares
/// (for a pawn on the last rank: queen, rook, bishop, knight).
#[verifier::rlimit(100)]
fn push_targets(moves: &mut Vec<Move>, p: &Position, tables: &AttackTables, s: Square, targets: Bitboard)
    requires
        p.wf(),
        tables.wf(),
        s < 64,
        forall|t: int| #[trigger] sq_in(targets, t) == reaches(*p, s as int, t),
        all_legal(*p, old(moves)@),
        listed_in_order(old(moves)@),
        all_before(old(moves)@, s * 1000),
    ensures
        all_legal(*p, final(moves)@),
        listed_in_order(final(moves)@),
        all_before(final(moves)@, s * 1000 + 640),
        old(moves)@.len() <= final(moves)@.len(),
        forall|i: int| 0 <= i < old(moves)@.len() ==> #[trigger] final(moves)@[i] == old(moves)@[i],
        forall|i: int| old(moves)@.len() <= i < final(moves)@.len() ==> from_of(#[trigger] final(moves)@[i]) == s,
        forall|m: Move| #[trigger] legal(*p, m) && plain_move(*p, m) && from_of(m) == s ==> final(moves)@.contains(m),
{
    let them = 1 - p.side_to_move.0;
    let us = p.side_to_move.0;
    let pawn = match p.pieces[us].get_piece_type_at_square(1u64 << s) {
        Some(k) => k == PAWN,
        None => false,
    };
    proof {
        lemma_first_kind(p.pieces[us as int], s as int);
    }
    let squares = targets.get_squares();
    let ghost start = moves@;
    let mut i: usize = 0;
    while i < squares.len()
        invariant
            p.wf(),
            tables.wf(),
            s < 64,
            us == p.side_to_move.0,
            them == 1 - us,
            pawn == (p.kind_at(us as int, s as int) == Some(PAWN)),
            forall|t: int| #[trigger] sq_in(targets, t) == reaches(*p, s as int, t),
            forall|j: int| 0 <= j < squares@.len() ==> sq_in(targets, #[trigger] squares@[j] as int),
            forall|a: int, b: int| 0 <= a < b < squares@.len() ==> squares@[a] < squares@[b],
            i <= squares@.len(),
            all_legal(*p, moves@),
            listed_in_order(moves@),
            i < squares@.len() ==> all_before(moves@, s * 1000 + squares@[i as int] * 10),
            all_before(moves@, s * 1000 + 640),
            forall|j: int| 0 <= j < squares@.len() ==> #[trigger] squares@[j] < 64,
            start.len() <= moves@.len(),
            forall|j: int| 0 <= j < start.len() ==> #[trigger] moves@[j] == start[j],
            forall|j: int| start.len() <= j < moves@.len() ==> from_of(#[trigger] moves@[j]) == s,
            forall|j: int| 0 <= j < i ==> covered(*p, moves@, s as int, #[trigger] squares@[j] as int),
        decreases squares@.len() - i,
    {
        let to = squares[i];
        let ghost before = moves@;
        proof {
            assert(sq_in(targets, to as int));
        }
        let capture = p.pieces[them].get_piece_type_at_square(1u64 << to);
        if capture != Some(KING) {
            proof {
                lemma_first_kind(p.pieces[them as int], to as int);
                assert(reaches(*p, s as int, to as int));
                lemma_first_kind(p.pieces[us as int], s as int);
                let kk = p.kind_at(us as int, s as int)->0;
                assert(p.owns(us as int, kk as int, s as int));
                crate::position::lemma_moved_kind(*p, s as int);
                assert(p.moved_kind(s as int) == p.kind_at(us as int, s as int)->0);
                assert(to != s);
            }
            if pawn && (to / 8 == 7 || to / 8 == 0) {
                let mq = Move { translation: Some(Translation { from: s, to }), promotion: Some(QUEEN), capture, castling: None, en_passant: None };
                let mr = Move { translation: Some(Translation { from: s, to }), promotion: Some(ROOK), capture, castling: None, en_passant: None };
                let mb = Move { translation: Some(Translation { from: s, to }), promotion: Some(BISHOP), capture, castling: None, en_passant: None };
                let mn = Move { translation: Some(Translation { from: s, to }), promotion: Some(KNIGHT), capture, castling: None, en_passant: None };
                proof {
                    assert(move_ok(*p, mq) && plain_move(*p, mq));
                }
                push_if_legal(moves, p, tables, mq);
                let ghost g1 = moves@;
                proof {
                    assert(move_ok(*p, mr) && plain_move(*p, mr));
                }
                push_if_legal(moves, p, tables, mr);
                let ghost g2 = moves@;
                proof {
                    assert(move_ok(*p, mb) && plain_move(*p, mb));
                }
                push_if_legal(moves, p, tables, mb);
                let ghost g3 = moves@;
                proof {
                    assert(move_ok(*p, mn) && plain_move(*p, mn));
                }
                push_if_legal(moves, p, tables, mn);
                proof {
                    lemma_contains_kept(g1, moves@);
                    lemma_contains_kept(g2, moves@);
                    lemma_contains_kept(g3, moves@);
                    if safe_after(*p, mq) {
                        assert(g1[g1.len() - 1] == mq);
                        assert(g1.contains(mq));
                    }
                    if safe_after(*p, mr) {
                        assert(g2[g2.len() - 1] == mr);
                        assert(g2.contains(mr));
                    }
                    if safe_after(*p, mb) {
                        assert(g3[g3.len() - 1] == mb);
                        assert(g3.contains(mb));
                    }
                    if safe_after(*p, mn) {
                        assert(moves@[moves@.len() - 1] == mn);
                    }
                    assert forall|m: Move| #[trigger] legal(*p, m) && plain_move(*p, m) && from_of(m) == s && to_of(m) == to as int
                        implies moves@.contains(m) by {
                        let k = m.promotion->0;
                        assert(m.translation == Some(Translation { from: s, to }));
                        if k == QUEEN {
                            assert(m == mq);
                        } else if k == ROOK {
                            assert(m == mr);
                        } else if k == BISHOP {
                            assert(m == mb);
                        } else {
                            assert(m == mn);
                        }
                        assert(moves@.contains(m));
                    }
                }
            } else {
                let m1 = Move { translation: Some(Translation { from: s, to }), promotion: None, capture, castling: None, en_passant: None };
                proof {
                    assert(move_ok(*p, m1) && plain_move(*p, m1));
                }
                push_if_legal(moves, p, tables, m1);
                proof {
                    assert forall|m: Move| #[trigger] legal(*p, m) && plain_move(*p, m) && from_of(m) == s && to_of(m) == to as int
                        implies moves@.contains(m) by {
                        assert(m.translation == Some(Translation { from: s, to }));
                        assert(m == m1);
                        assert(moves@[moves@.len() - 1] == m1);
                    }
                }
            }
        }
        proof {
            lemma_contains_kept(before, moves@);
            assert forall|j: int| 0 <= j < i + 1 implies covered(*p, moves@, s as int, #[trigger] squares@[j] as int) by {
                if j < i {
                    assert(covered(*p, before, s as int, squares@[j] as int));
                } else {
                    assert forall|m: Move| #[trigger] legal(*p, m) && plain_move(*p, m) && from_of(m) == s as int && to_of(m) == to as int
                        implies moves@.contains(m) by {
                        if capture == Some(KING) {
                            lemma_first_kind(p.pieces[them as int], to as int);
                        }
                    }
                }
            }
        }
        i = i + 1;
    }
    proof {
        assert forall|m: Move| #[trigger] legal(*p, m) && plain_move(*p, m) && from_of(m) == s implies moves@.contains(m) by {
            let t = to_of(m);
            assert(sq_in(targets, t));
            assert(sq_in(targets.bits(), t));
            assert(squares@.contains(t as u8));
            let j = choose|j: int| 0 <= j < squares@.len() && squares@[j] == t as u8;
            assert(covered(*p, moves@, s as int, squares@[j] as int));
        }
    }
}

/// The outcome of evaluating a position.
pub struct PositionEvaluation {
    pub moves: Vec<Move>,
    pub game_state: GameState,
    pub state_note: Option<String>,
    pub score: Option<i32>,
}

impl Position {
    pub open spec fn occupancy_all(self) -> u64 {
        union6(self.pieces[0]) | union6(self.pieces[1])
    }

    /// The side to move is in check.
    pub open spec fn in_check(self) -> bool {
        self.checked_by(self.them(), self.occupancy_all())
    }

    /// Two opposing pieces attack the king of the side to move.
    pub open spec fn in_double_check(self) -> bool {
        self.double_checked_by(self.them(), self.occupancy_all())
    }
}

proof fn lemma_double_is_check(p: Position, side: int, occ: u64)
    ensures
        p.double_checked_by(side, occ) ==> p.checked_by(side, occ),
{
    if p.double_checked_by(side, occ) {
        let (a, b) = choose|a: int, b: int| 0 <= a < 64 && 0 <= b < 64 && a != b && #[trigger] p.gives_check(side, a, occ) && #[trigger] p.gives_check(side, b, occ);
        assert(p.gives_check(side, a, occ));
    }
}

proof fn lemma_king_at(p: Position, side: int, r: int)
    requires
        p.wf(),
        0 <= side < 2,
        is_lowest(p.pieces[side][5], r),
    ensures
        r == p.king_square(side),
        p.owns(side, KING as int, r),
{
    let k = p.king_square(side);
    assert(only_square(p.pieces[side][5], k));
}

proof fn lemma_empty_square(p: Position, t: int)
    requires
        !sq_in(p.occupancy_all(), t),
    ensures
        !p.holds(0, t),
        !p.holds(1, t),
{
    lemma_holds_union(p, 0, t);
    lemma_holds_union(p, 1, t);
}

/// A castling whose squares were checked empty, with king and rook in place, fits.
proof fn lemma_castle_fits(p: Position, m: Move, occupancy: u64)
    requires
        p.wf(),
        occupancy == p.occupancy_all(),
        m.translation matches Some(tr) && ({
            let from = tr.from as int;
            let to = tr.to as int;
            let d = m.castling->0 as int;
            &&& m.castling is Some
            &&& d < 2
            &&& m.capture is None && m.promotion is None && m.en_passant is None
            &&& from < 64 && to < 64
            &&& p.owns(p.us(), KING as int, from)
            &&& crate::types::file_of(from) == 4
            &&& to == (if d == KING_SIDE { from + 2 } else { from - 2 })
            &&& is_square(rook_from(from, d))
            &&& rank_of(rook_from(from, d)) == rank_of(from)
            &&& p.owns(p.us(), ROOK as int, rook_from(from, d))
            &&& !sq_in(occupancy, rook_to(from, d))
            &&& !sq_in(occupancy, to)
        }),
    ensures
        move_ok(p, m),
{
    let tr = m.translation->0;
    let d = m.castling->0 as int;
    lemma_empty_square(p, tr.to as int);
    lemma_empty_square(p, rook_to(tr.from as int, d));
    assert(p.holds(p.us(), tr.from as int));
}

/// The number of squares below `n` that satisfy `pred`.
pub open spec fn count_upto(n: int, pred: spec_fn(int) -> bool) -> nat
    decreases n,
{
    if n <= 0 {
        0
    } else {
        count_upto(n - 1, pred) + if pred(n - 1) { 1nat } else { 0nat }
    }
}

proof fn lemma_popcount_pred(b: u64, pred: spec_fn(int) -> bool, n: int)
    requires
        n <= 64,
        forall|t: int| 0 <= t < 64 ==> sq_in(b, t) == pred(t),
    ensures
        crate::bitboard::pop_upto(b, n) == count_upto(n, pred),
    decreases n,
{
    if n > 0 {
        lemma_popcount_pred(b, pred, n - 1);
    }
}

/// The squares that `side` attacks, counted.
pub open spec fn attack_count(p: Position, side: int) -> nat {
    count_upto(64, |t: int| p.attacked(side, t, p.occupancy_all()))
}

/// A piece of `defender` on `t` is pinned to its king along some line.
pub open spec fn pinned(p: Position, defender: int, t: int) -> bool {
    let k = p.king_square(defender);
    let occ = p.occupancy_all();
    let d = union6(p.pieces[defender]);
    let a = 1 - defender;
    ||| rook_hit(k, t, occ) && same_rank(k, t) && sq_in(d, t) && p.component_upto(a, 1, t, occ, 64)
    ||| rook_hit(k, t, occ) && same_file(k, t) && sq_in(d, t) && p.component_upto(a, 2, t, occ, 64)
    ||| bishop_hit(k, t, occ) && same_diag_desc(k, t) && sq_in(d, t) && p.component_upto(a, 3, t, occ, 64)
    ||| bishop_hit(k, t, occ) && same_diag_asc(k, t) && sq_in(d, t) && p.component_upto(a, 4, t, occ, 64)
}

/// The pinned pieces of `defender`, counted.
pub open spec fn pin_count(p: Position, defender: int) -> nat {
    count_upto(64, |t: int| pinned(p, defender, t))
}

/// The static score: material, plus ten per own pinned piece less ten per opposing one, plus
/// ten per square the opponent attacks less ten per square the side to move attacks.
pub open spec fn static_score(p: Position) -> int {
    material(p) + 10 * (pin_count(p, p.us()) - pin_count(p, p.them())) + 10 * (attack_count(p, p.them()) - attack_count(
        p,
        p.us(),
    ))
}

/// `moves`, `state` and `score` are what evaluating `p` gives, `q` being `p` after the hash push:
/// a draw by rule has no moves and score 0; otherwise the state tells check and whether a
/// legal move exists, the moves are legal and all of them (from the king only under double
/// check), and the score is the loser's sentinel, 0 or the static score.
pub open spec fn evaluated(p: Position, q: Position, moves: Seq<Move>, state: GameState, score: Option<i32>) -> bool {
    &&& draw_reason(p, repetitions(q, p)) is Some ==> state.0 == 2 && moves.len() == 0 && score == Some(0i32)
    &&& draw_reason(p, repetitions(q, p)) is None ==> {
        &&& (state.0 == 0 || state.0 == 1) == p.in_check()
        &&& (state.0 == 0 || state.0 == 2) == (moves.len() == 0)
        &&& forall|m: Move| #[trigger] legal(p, m) && (!p.in_double_check() || from_of(m) == p.king_square(p.us())) ==> moves.contains(m)
        &&& !p.in_double_check() ==> (moves.len() == 0 <==> !has_legal_move(p))
    }
    &&& state.0 <= 3
    &&& state.0 == 0 ==> moves.len() == 0 && score == Some(loss_score(p.us()))
    &&& state.0 == 2 ==> moves.len() == 0 && score == Some(0i32)
    &&& state.0 == 1 || state.0 == 3 ==> moves.len() > 0 && score == Some(static_score(p) as i32)
    &&& all_legal(p, moves)
    &&& moves.no_duplicates()
    &&& moves_fit(p, moves)
    &&& score matches Some(s) ==> -1_000_000 <= s <= 1_000_000
    &&& p.in_double_check() ==> forall|i: int| 0 <= i < moves.len() ==> from_of(#[trigger] moves[i]) == p.king_square(p.us())
}

/// The score of a decided game lost by `side`.
pub open spec fn loss_score(side: int) -> i32 {
    if side == 0 { SCORE_BLACK_WINS } else { SCORE_WHITE_WINS }
}

impl Position {
    /// Appends the legal moves of the side to move other than castlings, square by square (only
    /// those of the king when `only_king`).
    fn generate_moves(&self, tables: &AttackTables, moves: &mut Vec<Move>, only_king: bool)
        requires
            self.wf(),
            tables.wf(),
            all_legal(*self, old(moves)@),
            listed_in_order(old(moves)@),
            all_before(old(moves)@, 0),
        ensures
            all_legal(*self, final(moves)@),
            listed_in_order(final(moves)@),
            old(moves)@.len() <= final(moves)@.len(),
            forall|i: int| 0 <= i < old(moves)@.len() ==> #[trigger] final(moves)@[i] == old(moves)@[i],
            only_king ==> forall|i: int| old(moves)@.len() <= i < final(moves)@.len() ==> from_of(#[trigger] final(moves)@[i])
                == self.king_square(self.us()),
            forall|m: Move| #[trigger] legal(*self, m) && (plain_move(*self, m) || ep_move(*self, m))
                && (!only_king || from_of(m) == self.king_square(self.us())) ==> final(moves)@.contains(m),
    {
        let us = self.side_to_move.0;
        let them = 1 - us;
        let white_occ = self.pieces[0].occupancy();
        let black_occ = self.pieces[1].occupancy();
        let occupancy = white_occ | black_occ;
        let our_occ = self.pieces[us].occupancy();
        let their_occ = self.pieces[them].occupancy();
        let ghost start = moves@;
        let ghost ksq = self.king_square(self.us());
        proof {
            crate::attacks::lemma_king_board(*self, self.us());
            assert forall|t: int| sq_in(our_occ, t) == self.holds(us as int, t) by {
                lemma_holds_union(*self, us as int, t);
            }
            assert forall|t: int| sq_in(their_occ, t) == self.holds(them as int, t) by {
                lemma_holds_union(*self, them as int, t);
            }
        }
        let mut s: u8 = 0;
        while s < 64
            invariant
                self.wf(),
                tables.wf(),
                us == self.side_to_move.0,
                them == 1 - us,
                occupancy == self.occupancy_all(),
                forall|t: int| sq_in(our_occ, t) == self.holds(us as int, t),
                forall|t: int| sq_in(their_occ, t) == self.holds(them as int, t),
                forall|t: int| sq_in(their_occ, t) ==> !self.holds(us as int, t),
                forall|t: int| #[trigger] sq_in(occupancy, t) == (sq_in(our_occ, t) || sq_in(their_occ, t)),
                ksq == self.king_square(self.us()),
                only_square(self.pieces[self.us()][5], ksq),
                all_legal(*self, moves@),
                listed_in_order(moves@),
                all_before(moves@, s * 1000),
                start.len() <= moves@.len(),
                forall|i: int| 0 <= i < start.len() ==> #[trigger] moves@[i] == start[i],
                only_king ==> forall|i: int| start.len() <= i < moves@.len() ==> from_of(#[trigger] moves@[i]) == ksq,
                forall|m: Move| #[trigger] legal(*self, m) && (plain_move(*self, m) || ep_move(*self, m))
                    && (!only_king || from_of(m) == ksq) && from_of(m) < s ==> moves@.contains(m),
            decreases 64 - s,
        {
            let ghost before = moves@;
            let kind = self.pieces[us].get_piece_type_at_square(1u64 << s);
            proof {
                lemma_first_kind(self.pieces[us as int], s as int);
                assert(self.kind_at(us as int, s as int) == kind);
            }
            let generate = match kind {
                Some(k) => !only_king || k == KING,
                None => false,
            };
            if generate {
                let k = match kind {
                    Some(k) => k,
                    None => 0,
                };
                proof {
                    assert(self.owns(us as int, k as int, s as int));
                    if k == KING {
                        assert(sq_in(self.pieces[us as int][5], s as int));
                        assert(s as int == ksq);
                    }
                }
                let targets = if k == PAWN {
                    get_pawn_moves(Side(us), s, occupancy) | (get_pawn_attacks(tables, Side(us), s) & their_occ)
                } else if k == KNIGHT {
                    get_knight_attacks(tables, s) & !our_occ
                } else if k == BISHOP {
                    get_bishop_attacks(tables, s, occupancy) & !our_occ
                } else if k == ROOK {
                    get_rook_attacks(tables, s, occupancy) & !our_occ
                } else if k == QUEEN {
                    get_queen_attacks(tables, s, occupancy) & !our_occ
                } else {
                    get_king_attacks(tables, s) & !our_occ
                };
                proof {
                    assert forall|t: int| #[trigger] sq_in(targets, t) == reaches(*self, s as int, t) by {
                        if k == PAWN && pawn_push(us as int, s as int, t, occupancy) {
                            assert(!sq_in(occupancy, t));
                        }
                    }
                }
                push_targets(moves, self, tables, s, targets);
                let ghost after_plain = moves@;
                let mut ep_candidate = false;
                if k == PAWN {
                    match self.en_passant_square {
                        Some(e) => {
                            let victim_ok = if us == 0 { e >= 8 } else { e < 56 };
                            if victim_ok {
                                let victim: u8 = if us == 0 { e - 8 } else { e + 8 };
                                if contains(get_pawn_attacks(tables, Side(us), s), e) && contains(self.pieces[them][PAWN], victim)
                                    && !contains(their_occ, e) && !contains(our_occ, e) {
                                    let c = Move {
                                        translation: Some(Translation { from: s, to: e }),
                                        promotion: None,
                                        capture: Some(PAWN),
                                        castling: None,
                                        en_passant: Some(e),
                                    };
                                    proof {
                                        assert(self.owns(them as int, PAWN as int, victim as int));
                                        assert(ep_move(*self, c));
                                        assert(move_ok(*self, c));
                                    }
                                    push_if_legal(moves, self, tables, c);
                                    proof {
                                        assert forall|m: Move| #[trigger] legal(*self, m) && ep_move(*self, m) && from_of(m) == s as int
                                            implies moves@.contains(m) by {
                                            assert(m == c);
                                            assert(moves@[moves@.len() - 1] == c);
                                        }
                                    }
                                    ep_candidate = true;
                                }
                            }
                        },
                        None => {},
                    }
                }
                proof {
                    lemma_contains_kept(after_plain, moves@);
                    if !ep_candidate {
                        assert(moves@ == after_plain);
                        assert forall|m: Move| #[trigger] ep_move(*self, m) && from_of(m) == s as int implies false by {
                            let e = self.en_passant_square->0;
                            assert(k == PAWN);
                            assert(self.owns(them as int, PAWN as int, ep_victim(us as int, e as int)));
                        }
                    }
                    assert forall|m: Move| #[trigger] legal(*self, m) && (plain_move(*self, m) || ep_move(*self, m))
                        && from_of(m) == s as int implies moves@.contains(m) by {
                        if plain_move(*self, m) {
                            assert(after_plain.contains(m));
                        }
                    }
                    if only_king {
                        assert forall|i: int| start.len() <= i < moves@.len() implies from_of(#[trigger] moves@[i]) == ksq by {
                            if i < before.len() {
                                assert(moves@[i] == before[i]);
                            }
                        }
                    }
                }
            } else {
                proof {
                    assert forall|m: Move| #[trigger] legal(*self, m) && (plain_move(*self, m) || ep_move(*self, m))
                        && (!only_king || from_of(m) == ksq) && from_of(m) == s as int implies false by {
                        if kind is Some {
                            let k = kind->0;
                            assert(self.owns(us as int, k as int, s as int));
                            assert(self.owns(us as int, KING as int, s as int));
                        }
                    }
                }
            }
            proof {
                lemma_contains_kept(before, moves@);
                assert forall|m: Move| #[trigger] legal(*self, m) && (plain_move(*self, m) || ep_move(*self, m))
                    && (!only_king || from_of(m) == ksq) && from_of(m) < s + 1 implies moves@.contains(m) by {
                    if from_of(m) < s {
                        assert(before.contains(m));
                    }
                }
            }
            s = s + 1;
        }
    }

    /// Pushes the position's hash onto its repetition stack, then classifies it and lists its
    /// moves: a draw is detected first; otherwise the moves are generated for a king in check
    /// (only the king when two pieces give check) or not, and no moves means checkmate in
    /// check and a draw out of it.
    pub fn evaluate(&mut self, tables: &AttackTables) -> (r: PositionEvaluation)
        requires
            old(self).wf(),
            tables.wf(),
        ensures
            hash_pushed(*old(self), *final(self)),
            final(self).wf(),
            draw_reason(*old(self), repetitions(*final(self), *old(self))) matches Some(reason) ==> {
                &&& r.game_state.0 == 2
                &&& r.moves@.len() == 0
                &&& r.score == Some(0i32)
                &&& r.state_note is Some
                &&& r.state_note->0@ == reason.spec_note()
            },
            evaluated(*old(self), *final(self), r.moves@, r.game_state, r.score),
            r.game_state.0 == 0 || r.game_state.0 == 2 ==> r.state_note is Some,
            r.game_state.0 == 1 || r.game_state.0 == 3 ==> r.state_note is None,
    {
        let p: Position = *self;
        let draw = self.check_draw();
        match draw {
            Some(reason) => {
                return PositionEvaluation {
                    moves: Vec::new(),
                    game_state: GameState(2),
                    state_note: Some(reason.note()),
                    score: Some(0),
                };
            },
            None => {},
        }
        let us = p.side_to_move.0;
        let them = 1 - us;
        let white_occ = p.pieces[0].occupancy();
        let black_occ = p.pieces[1].occupancy();
        let occupancy = white_occ | black_occ;
        let our_occ = p.pieces[us].occupancy();
        let their_occ = p.pieces[them].occupancy();
        let our_king = p.pieces[us][KING];
        let our_king_square = our_king.to_square();
        let their_king_square = p.pieces[them][KING].to_square();
        proof {
            crate::attacks::lemma_king_board(p, us as int);
            crate::attacks::lemma_king_board(p, them as int);
            assert(sq_in(our_king, p.king_square(us as int)));
            assert(sq_in(p.pieces[them as int][5], p.king_square(them as int)));
            lemma_king_at(p, us as int, our_king_square as int);
            lemma_king_at(p, them as int, their_king_square as int);
            lemma_double_is_check(p, them as int, occupancy);
        }
        let their_attacks = p.get_side_attacks(tables, Side(them), occupancy);
        let our_attacks = p.get_side_attacks(tables, Side(us), occupancy);
        let our_pins = p.get_absolute_pins_for_side(tables, their_attacks, occupancy, our_occ, our_king_square);
        let their_pins = p.get_absolute_pins_for_side(tables, our_attacks, occupancy, their_occ, their_king_square);
        let pinscore = (count_squares(our_pins.all()) as i32 - count_squares(their_pins.all()) as i32) * PIN_MULTIPLIER;
        let movescore = (count_squares(their_attacks.all()) as i32 - count_squares(our_attacks.all()) as i32) * SQUARE_MULTIPLIER;
        let material = p.get_score();
        let score = material + pinscore + movescore;
        proof {
            let occ = p.occupancy_all();
            let pu = |t: int| pinned(p, us as int, t);
            let pt = |t: int| pinned(p, them as int, t);
            let au = |t: int| p.attacked(us as int, t, occ);
            let at = |t: int| p.attacked(them as int, t, occ);
            assert forall|t: int| 0 <= t < 64 implies sq_in(our_pins.spec_all(), t) == pu(t) by {
                assert(sq_in(their_attacks.part(1), t) == p.component_upto(them as int, 1, t, occ, 64));
                assert(sq_in(their_attacks.part(2), t) == p.component_upto(them as int, 2, t, occ, 64));
                assert(sq_in(their_attacks.part(3), t) == p.component_upto(them as int, 3, t, occ, 64));
                assert(sq_in(their_attacks.part(4), t) == p.component_upto(them as int, 4, t, occ, 64));
            }
            assert forall|t: int| 0 <= t < 64 implies sq_in(their_pins.spec_all(), t) == pt(t) by {
                assert(sq_in(our_attacks.part(1), t) == p.component_upto(us as int, 1, t, occ, 64));
                assert(sq_in(our_attacks.part(2), t) == p.component_upto(us as int, 2, t, occ, 64));
                assert(sq_in(our_attacks.part(3), t) == p.component_upto(us as int, 3, t, occ, 64));
                assert(sq_in(our_attacks.part(4), t) == p.component_upto(us as int, 4, t, occ, 64));
                assert(1 - them == us);
            }
            lemma_popcount_pred(our_pins.spec_all(), pu, 64);
            lemma_popcount_pred(their_pins.spec_all(), pt, 64);
            lemma_popcount_pred(our_attacks.spec_all(), au, 64);
            lemma_popcount_pred(their_attacks.spec_all(), at, 64);
            assert(score == static_score(p));
        }
        let their_all = their_attacks.all();
        let mut moves: Vec<Move> = Vec::new();
        proof {
            assert(occupancy == p.occupancy_all());
        }
        if their_attacks.check.is_none() {
            self.push_castlings(&p, tables, &mut moves, their_all, occupancy, our_king_square);
            let ghost castled = moves@;
            p.generate_moves(tables, &mut moves, false);
            proof {
                lemma_contains_kept(castled, moves@);
                assert forall|m: Move| #[trigger] legal(p, m) implies moves@.contains(m) by {
                    if castle_move(p, m) {
                        assert(castled.contains(m));
                    }
                }
                lemma_no_moves(p, moves@);
                lemma_ordered_distinct(moves@);
            }
            if moves.len() == 0 {
                proof {
                    reveal_strlit("no moves");
                }
                return PositionEvaluation {
                    moves,
                    game_state: GameState(2),
                    state_note: Some(String::from_str("no moves")),
                    score: Some(0),
                };
            }
            PositionEvaluation { moves, game_state: GameState(3), state_note: None, score: Some(score) }
        } else {
            let only_king = their_attacks.double_check;
            p.generate_moves(tables, &mut moves, only_king);
            proof {
                assert forall|m: Move| #[trigger] legal(p, m) && (!p.in_double_check() || from_of(m) == p.king_square(p.us()))
                    implies moves@.contains(m) by {
                    assert(!castle_move(p, m));
                }
                if !p.in_double_check() {
                    lemma_no_moves(p, moves@);
                }
                lemma_ordered_distinct(moves@);
            }
            if moves.len() == 0 {
                proof {
                    reveal_strlit("no moves after check");
                }
                let lost = if us == 0 { SCORE_BLACK_WINS } else { SCORE_WHITE_WINS };
                return PositionEvaluation {
                    moves,
                    game_state: GameState(0),
                    state_note: Some(String::from_str("no moves after check")),
                    score: Some(lost),
                };
            }
            PositionEvaluation { moves, game_state: GameState(1), state_note: None, score: Some(score) }
        }
    }

    /// Appends the legal castlings of the side to move, which is not in check.
    fn push_castlings(&self, p: &Position, tables: &AttackTables, moves: &mut Vec<Move>, their_all: Bitboard, occupancy: Bitboard, king_square: Square)
        requires
            p.wf(),
            tables.wf(),
            old(moves)@.len() == 0,
            !p.in_check(),
            occupancy == p.occupancy_all(),
            forall|t: int| #[trigger] sq_in(their_all, t) == p.attacked(p.them(), t, occupancy),
            king_square as int == p.king_square(p.us()),
            king_square < 64,
        ensures
            all_legal(*p, final(moves)@),
            listed_in_order(final(moves)@),
            all_before(final(moves)@, 0),
            forall|m: Move| #[trigger] legal(*p, m) && castle_move(*p, m) ==> final(moves)@.contains(m),
    {
        let us = p.side_to_move.0;
        let h: u8 = if us == 0 { 4 } else { 60 };
        let rights = p.castling_rights;
        let ks_right = if us == 0 { rights.white_king_side } else { rights.black_king_side };
        let qs_right = if us == 0 { rights.white_queen_side } else { rights.black_queen_side };
        proof {
            crate::attacks::lemma_king_board(*p, p.us());
            assert(sq_in(p.pieces[us as int][5], p.king_square(p.us())));
        }
        let ks = Move { translation: Some(Translation { from: h, to: h + 2 }), promotion: None, capture: None, castling: Some(KING_SIDE), en_passant: None };
        let qs = Move { translation: Some(Translation { from: h, to: h - 2 }), promotion: None, capture: None, castling: Some(QUEEN_SIDE), en_passant: None };
        if ks_right && king_square == h && contains(p.pieces[us][ROOK], h + 3) && !contains(occupancy, h + 1)
            && !contains(occupancy, h + 2) && !contains(their_all, h + 1) && !contains(their_all, h + 2) {
            proof {
                assert(p.owns(us as int, KING as int, h as int));
                lemma_castle_fits(*p, ks, occupancy);
                assert(castle_move(*p, ks));
            }
            push_if_legal(moves, p, tables, ks);
        }
        let ghost mid = moves@;
        if qs_right && king_square == h && contains(p.pieces[us][ROOK], h - 4) && !contains(occupancy, h - 1)
            && !contains(occupancy, h - 2) && !contains(occupancy, h - 3) && !contains(their_all, h - 1) && !contains(their_all, h - 2) {
            proof {
                assert(p.owns(us as int, KING as int, h as int));
                lemma_castle_fits(*p, qs, occupancy);
                assert(castle_move(*p, qs));
            }
            push_if_legal(moves, p, tables, qs);
        }
        proof {
            lemma_contains_kept(mid, moves@);
            assert forall|m: Move| #[trigger] legal(*p, m) && castle_move(*p, m) implies moves@.contains(m) by {
                let d = m.castling->0;
                assert(m.translation->0.from as int == h as int);
                if p.owns(us as int, KING as int, h as int) {
                    assert(sq_in(p.pieces[us as int][5], h as int));
                }
                if d == KING_SIDE {
                    assert(m == ks);
                    assert(safe_after(*p, ks));
                    assert(king_square == h);
                    assert(mid[mid.len() - 1] == ks);
                    assert(mid.contains(m));
                } else {
                    assert(m == qs);
                    assert(safe_after(*p, qs));
                    assert(king_square == h);
                    assert(moves@[moves@.len() - 1] == qs);
                }
            }
        }
    }
}

/// When every legal move is listed, the list is empty exactly when there is no legal move.
proof fn lemma_no_moves(p: Position, moves: Seq<Move>)
    requires
        all_legal(p, moves),
        forall|m: Move| #[trigger] legal(p, m) ==> moves.contains(m),
    ensures
        (moves.len() == 0) == !has_legal_move(p),
{
    if moves.len() > 0 {
        assert(legal(p, moves[0]));
    }
    if has_legal_move(p) {
        let m = choose|m: Move| #[trigger] legal(p, m);
        assert(moves.contains(m));
    }
}


/// A position whose own hash was already pushed twice onto its repetition stack is drawn by
/// repetition once its evaluation pushes the hash a third time.
pub proof fn lemma_threefold_repetition(p: Position, earlier: Seq<u64>, f: Position)
    requires
        earlier.len() <= MAX_ZOBRIST_ARRAY_SIZE,
        p.zobrist_stack.view() == pushed(pushed(earlier, zobrist_key(p.hasher, p)), zobrist_key(p.hasher, p)),
        hash_pushed(p, f),
    ensures
        draw_reason(p, repetitions(f, p)) == Some(DrawReason::Repetition),
{
    lemma_three_pushes(earlier, zobrist_key(p.hasher, p));
}


/// A legal move leads to a position whose en-passant square, if any, is on the third or sixth
/// rank, so every position reached from one without it by listed moves can be written in FEN
/// and read back.
pub proof fn lemma_legal_move_keeps_ep_rank(p: Position, m: Move, r: Position)
    requires
        p.wf(),
        legal(p, m),
        crate::position::is_applied(p, m, r),
    ensures
        crate::fen::ep_rank_ok(r.en_passant_square),
{
    if crate::position::is_double_push(p, m) && crate::position::enemy_pawn_beside(p, to_of(m)) {
        let s = from_of(m);
        let t = to_of(m);
        lemma_first_kind(p.pieces[p.us()], s);
        assert(plain_move(p, m));
        assert(reaches(p, s, t));
        assert(p.kind_at(p.us(), s) is Some);
        assert(p.kind_at(p.us(), s) == Some(PAWN));
        assert(reaches(p, s, t));
        if pawn_push(p.us(), s, t, p.occupancy_all()) {
            assert(rank_of(s) == crate::maps::start_rank(p.us()));
        } else {
            assert(pawn_step(p.us(), s, t));
        }
        assert(0 <= (s + t) / 2 < 64);
    }
}

} // verus!
