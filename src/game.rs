use vstd::prelude::*;
use vstd::string::*;
use crate::evaluate::{PositionEvaluation, evaluated, hash_pushed, moves_fit, all_legal, legal, draw_reason, repetitions, from_of};
use crate::fen::{fen_text, fen_writable, same_position};
use crate::position::{start_pieces, Castling};
use crate::fen::{decimal, push_decimal};
use crate::maps::AttackTables;
use crate::position::{Move, Position, move_ok, move_text};
use crate::types::Side;

verus! {

/// The game record in PGN-like text: move numbers before White's moves, each move followed by
/// a space.
pub open spec fn pgn_text(history: Seq<Move>, n: int) -> Seq<char>
    decreases n,
{
    if n <= 0 {
        Seq::empty()
    } else {
        let i = n - 1;
        let number = if i % 2 == 0 { decimal((i / 2 + 1) as nat) + seq!['.', ' '] } else { Seq::empty() };
        pgn_text(history, n - 1) + number + move_text(history[i]) + seq![' ']
    }
}

/// A game: the current position, the human player's side if any, the moves played, and how
/// deep the engine searches.
pub struct Game {
    position: Position,
    player_side: Option<Side>,
    move_history: Vec<Move>,
    max_depth: u8,
}

fn same_text(a: &String, b: &str) -> (r: bool)
    ensures
        r == (a@ == b@),
{
    let x = a.as_str();
    let n = x.unicode_len();
    if n != b.unicode_len() {
        return false;
    }
    let mut i: usize = 0;
    while i < n
        invariant
            n == x@.len(),
            n == b@.len(),
            x@ == a@,
            i <= n,
            forall|j: int| 0 <= j < i ==> x@[j] == b@[j],
        decreases n - i,
    {
        if x.get_char(i) != b.get_char(i) {
            return false;
        }
        i = i + 1;
    }
    proof {
        assert(a@ =~= b@);
    }
    true
}

impl Game {
    pub closed spec fn wf(&self) -> bool {
        &&& self.position.wf()
        &&& forall|i: int| 0 <= i < self.move_history@.len() ==> (#[trigger] self.move_history@[i]).squares_ok()
    }

    pub closed spec fn position_view(&self) -> Position {
        self.position
    }

    pub closed spec fn history_view(&self) -> Seq<Move> {
        self.move_history@
    }

    pub closed spec fn max_depth_view(&self) -> u8 {
        self.max_depth
    }

    pub closed spec fn player_side_view(&self) -> Option<Side> {
        self.player_side
    }

    /// A game from the starting position, searched 20 plies deep.
    pub fn new() -> (r: Game)
        ensures
            r.wf(),
            r.position_view().pieces[0] == start_pieces(0),
            r.position_view().pieces[1] == start_pieces(1),
            r.position_view().side_to_move == Side(0),
            r.position_view().castling_rights == Castling::spec_all(),
            r.position_view().en_passant_square is None,
            r.position_view().halfmove_clock == 0,
            r.position_view().fullmove_number == 1,
            r.player_side_view() is None,
            r.history_view().len() == 0,
            r.max_depth_view() == 20,
    {
        Game { position: Position::new_game(), player_side: None, move_history: Vec::new(), max_depth: 20 }
    }

    /// A game from the position written in `fen`, if it reads as one.
    pub fn from_fen(fen: &str) -> (r: Option<Game>)
        ensures
            r matches Some(g) ==> g.wf() && g.history_view().len() == 0 && g.max_depth_view() == 20,
            forall|p: Position| fen_writable(p) && #[trigger] fen_text(p) == fen@ ==> (r matches Some(g) && same_position(
                g.position_view(),
                p,
            )),
    {
        match Position::from_fen(fen) {
            Some(position) => Some(Game { position, player_side: None, move_history: Vec::new(), max_depth: 20 }),
            None => None,
        }
    }

    pub fn set_max_depth(&mut self, depth: u8)
        ensures
            final(self).max_depth_view() == depth,
            final(self).position_view() == old(self).position_view(),
            final(self).history_view() == old(self).history_view(),
    {
        self.max_depth = depth;
    }

    pub fn get_max_depth(&self) -> (r: u8)
        ensures
            r == self.max_depth_view(),
    {
        self.max_depth
    }

    pub fn get_position(&self) -> (r: &Position)
        ensures
            *r == self.position_view(),
    {
        &self.position
    }

    pub fn get_player_side(&self) -> (r: Option<Side>)
        ensures
            r == self.player_side_view(),
    {
        self.player_side
    }

    pub fn set_player_side(&mut self, side: Option<Side>)
        ensures
            final(self).player_side_view() == side,
            final(self).position_view() == old(self).position_view(),
            final(self).history_view() == old(self).history_view(),
            final(self).max_depth_view() == old(self).max_depth_view(),
            final(self).wf() == old(self).wf(),
    {
        self.player_side = side;
    }

    pub fn get_move_history(&self) -> (r: &Vec<Move>)
        ensures
            r@ == self.history_view(),
    {
        &self.move_history
    }

    /// Plays `m`, which must fit the current position, and records it.
    pub fn make_move(&mut self, m: Move)
        requires
            old(self).wf(),
            move_ok(old(self).position_view(), m),
        ensures
            final(self).wf(),
            crate::position::is_applied(old(self).position_view(), m, final(self).position_view()),
            final(self).history_view() == old(self).history_view().push(m),
    {
        self.position = self.position.make_move(m);
        self.move_history.push(m);
        proof {
            assert(m.squares_ok());
            assert forall|i: int| 0 <= i < self.move_history@.len() implies (#[trigger] self.move_history@[i]).squares_ok() by {
                if i < old(self).move_history@.len() {
                    assert(self.move_history@[i] == old(self).move_history@[i]);
                }
            }
        }
    }

    /// The move of the current position written `text` in coordinate notation, if there is
    /// one; the position's hash is pushed onto its repetition stack by the evaluation.
    pub fn parse_move(&mut self, text: &str, tables: &AttackTables) -> (r: Option<Move>)
        requires
            old(self).wf(),
            tables.wf(),
        ensures
            final(self).wf(),
            final(self).history_view() == old(self).history_view(),
            r matches Some(m) ==> move_ok(old(self).position_view(), m) && legal(old(self).position_view(), m) && move_text(m) == text@,
            ({
                let p = old(self).position_view();
                draw_reason(p, repetitions(final(self).position_view(), p)) is None ==> forall|m: Move| #[trigger] legal(p, m)
                    && move_text(m) == text@ && (!p.in_double_check() || from_of(m) == p.king_square(p.us())) ==> r is Some
            }),
    {
        let ghost before = self.position;
        let eval = self.position.evaluate(tables);
        let ghost after = self.position;
        proof {
            assert forall|i: int| 0 <= i < self.move_history@.len() implies (#[trigger] self.move_history@[i]).squares_ok() by {
                assert(old(self).move_history@[i].squares_ok());
            }
        }
        let mut k: usize = 0;
        while k < eval.moves.len()
            invariant
                moves_fit(before, eval.moves@),
                all_legal(before, eval.moves@),
                forall|j: int| 0 <= j < k ==> move_text(#[trigger] eval.moves@[j]) != text@,
                k <= eval.moves@.len(),
                self.wf(),
                self.move_history@ == old(self).move_history@,
                before == old(self).position_view(),
            decreases eval.moves@.len() - k,
        {
            let m = eval.moves[k];
            proof {
                assert(move_ok(before, eval.moves@[k as int]));
            }
            let t = m.get_tstring();
            if same_text(&t, text) {
                return Some(m);
            }
            k = k + 1;
        }
        proof {
            assert forall|m: Move| #[trigger] legal(before, m) && move_text(m) == text@ && (!before.in_double_check()
                || from_of(m) == before.king_square(before.us())) && draw_reason(before, repetitions(after, before)) is None
                implies false by {
                assert(eval.moves@.contains(m));
                let j = choose|j: int| 0 <= j < eval.moves@.len() && eval.moves@[j] == m;
                assert(move_text(eval.moves@[j]) != text@);
            }
        }
        None
    }

    /// Evaluates the current position, pushing its hash onto the game's repetition stack.
    pub fn evaluate(&mut self, tables: &AttackTables) -> (r: PositionEvaluation)
        requires
            old(self).wf(),
            tables.wf(),
        ensures
            final(self).wf(),
            final(self).history_view() == old(self).history_view(),
            hash_pushed(old(self).position_view(), final(self).position_view()),
            evaluated(old(self).position_view(), final(self).position_view(), r.moves@, r.game_state, r.score),
    {
        let r = self.position.evaluate(tables);
        proof {
            assert forall|i: int| 0 <= i < self.move_history@.len() implies (#[trigger] self.move_history@[i]).squares_ok() by {
                assert(old(self).move_history@[i].squares_ok());
            }
        }
        r
    }

    /// The first move of `moves` written `text` in coordinate notation, if any.
    pub fn find_move(moves: &Vec<Move>, text: &str) -> (r: Option<Move>)
        requires
            forall|i: int| 0 <= i < moves@.len() ==> (#[trigger] moves@[i]).squares_ok(),
        ensures
            r matches Some(m) ==> moves@.contains(m) && move_text(m) == text@,
            r is None ==> forall|i: int| 0 <= i < moves@.len() ==> move_text(#[trigger] moves@[i]) != text@,
    {
        let mut k: usize = 0;
        while k < moves.len()
            invariant
                k <= moves@.len(),
                forall|i: int| 0 <= i < moves@.len() ==> (#[trigger] moves@[i]).squares_ok(),
                forall|j: int| 0 <= j < k ==> move_text(#[trigger] moves@[j]) != text@,
            decreases moves@.len() - k,
        {
            let m = moves[k];
            let t = m.get_tstring();
            if same_text(&t, text) {
                proof {
                    assert(moves@[k as int] == m);
                }
                return Some(m);
            }
            k = k + 1;
        }
        None
    }

    /// The moves played, numbered in pairs: "1. e2e4 e7e5 2. g1f3 ".
    pub fn get_pgn(&self) -> (r: String)
        requires
            self.wf(),
        ensures
            r@ == pgn_text(self.history_view(), self.history_view().len() as int),
    {
        proof {
            reveal_strlit("");
            reveal_strlit(". ");
            reveal_strlit(" ");
        }
        let mut pgn = String::from_str("");
        let mut move_count: u64 = 1;
        let mut i: usize = 0;
        while i < self.move_history.len()
            invariant
                self.wf(),
                i <= self.move_history@.len(),
                move_count == (i + 1) / 2 + 1,
                pgn@ == pgn_text(self.move_history@, i as int),
            decreases self.move_history@.len() - i,
        {
            let ghost before = pgn@;
            proof {
                reveal_strlit(". ");
                reveal_strlit(" ");
                if i % 2 == 0 {
                    assert((i + 1) / 2 == i / 2);
                }
            }
            let ghost number: Seq<char> = if i % 2 == 0 { decimal((i / 2 + 1) as nat) + seq!['.', ' '] } else { Seq::empty() };
            if i % 2 == 0 {
                push_decimal(&mut pgn, move_count);
                pgn.append(". ");
                move_count = move_count + 1;
            }
            proof {
                assert(pgn@ =~= before + number);
            }
            let ghost mid = pgn@;
            let m = self.move_history[i];
            let t = m.get_tstring();
            pgn.append(t.as_str());
            pgn.append(" ");
            proof {
                assert(pgn@ =~= mid + move_text(m) + seq![' ']);
                assert(pgn@ =~= pgn_text(self.move_history@, i as int + 1));
            }
            i = i + 1;
        }
        pgn
    }
}

} // verus!
