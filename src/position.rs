use vstd::prelude::*;
use vstd::string::*;
use rayon::iter::{IntoParallelRefIterator, ParallelIterator};
use crate::bits::{sq_in, bit_facts};
use crate::bitboard::{Bitboard, contains};
use crate::masks::is_square;
use crate::types::{rank_of, file_of, PieceMethods, SquareMethods, square_name, Side, Square, Piece, CastlingDirection, PAWN, KNIGHT, BISHOP, ROOK, QUEEN, KING, KING_SIDE};

verus! {

broadcast use bit_facts;

/// The six boards of one side, indexed by piece kind.
pub type SidePieces = [Bitboard; 6];

/// The union of the six boards.
pub open spec fn union6(b: SidePieces) -> u64 {
    b[0] | b[1] | b[2] | b[3] | b[4] | b[5]
}

/// The first kind whose board meets `square`, if any.
pub open spec fn first_kind(b: SidePieces, square: u64) -> Option<Piece> {
    if b[0] & square != 0 {
        Some(0)
    } else if b[1] & square != 0 {
        Some(1)
    } else if b[2] & square != 0 {
        Some(2)
    } else if b[3] & square != 0 {
        Some(3)
    } else if b[4] & square != 0 {
        Some(4)
    } else if b[5] & square != 0 {
        Some(5)
    } else {
        None
    }
}

pub trait SidePiecesMethods: Sized {
    spec fn boards(&self) -> SidePieces;

    /// Six empty boards.
    fn new() -> (r: Self)
        ensures
            forall|i: int| 0 <= i < 6 ==> r.boards()[i] == 0,
    ;

    /// The pieces of `side` in the starting array.
    fn new_game(side: Side) -> (r: Self)
        requires
            side.wf(),
        ensures
            r.boards() == start_pieces(side.0 as int),
    ;

    /// Every square that holds one of these pieces.
    fn occupancy(&self) -> (r: Bitboard)
        ensures
            r == union6(self.boards()),
    ;

    /// The kind of the first board that meets `square`.
    fn get_piece_type_at_square(&self, square: Bitboard) -> (r: Option<Piece>)
        ensures
            r == first_kind(self.boards(), square),
    ;
}

/// The starting boards of `side`.
pub open spec fn start_pieces(side: int) -> SidePieces {
    if side == 0 {
        [0xFF00u64, 0x42u64, 0x24u64, 0x81u64, 0x8u64, 0x10u64]
    } else {
        [
            0xFF000000000000u64,
            0x4200000000000000u64,
            0x2400000000000000u64,
            0x8100000000000000u64,
            0x800000000000000u64,
            0x1000000000000000u64,
        ]
    }
}

impl SidePiecesMethods for SidePieces {
    open spec fn boards(&self) -> SidePieces {
        *self
    }

    fn new() -> (r: Self) {
        [0u64; 6]
    }

    fn new_game(side: Side) -> (r: Self) {
        if side.0 == 0 {
            [0xFF00u64, 0x42u64, 0x24u64, 0x81u64, 0x8u64, 0x10u64]
        } else {
            [
                0xFF000000000000u64,
                0x4200000000000000u64,
                0x2400000000000000u64,
                0x8100000000000000u64,
                0x800000000000000u64,
                0x1000000000000000u64,
            ]
        }
    }

    fn occupancy(&self) -> (r: Bitboard) {
        self[0] | self[1] | self[2] | self[3] | self[4] | self[5]
    }

    fn get_piece_type_at_square(&self, square: Bitboard) -> (r: Option<Piece>) {
        let mut x: usize = 0;
        while x < 6
            invariant
                x <= 6,
                forall|j: int| 0 <= j < x ==> self[j] & square == 0,
            decreases 6 - x,
        {
            if self[x] & square != 0 {
                return Some(x);
            }
            x = x + 1;
        }
        None
    }
}

/// The four castling rights.
#[derive(PartialEq, Eq, Structural, Clone, Copy, Debug)]
pub struct Castling {
    pub white_king_side: bool,
    pub white_queen_side: bool,
    pub black_king_side: bool,
    pub black_queen_side: bool,
}

pub open spec fn flag(b: bool, v: int) -> int {
    if b { v } else { 0 }
}

impl Castling {
    pub open spec fn spec_none() -> Castling {
        Castling {
            white_king_side: false,
            white_queen_side: false,
            black_king_side: false,
            black_queen_side: false,
        }
    }

    pub open spec fn spec_all() -> Castling {
        Castling {
            white_king_side: true,
            white_queen_side: true,
            black_king_side: true,
            black_queen_side: true,
        }
    }

    /// No rights.
    pub fn new() -> (r: Castling)
        ensures
            r == Castling::spec_none(),
    {
        Castling {
            white_king_side: false,
            white_queen_side: false,
            black_king_side: false,
            black_queen_side: false,
        }
    }

    /// All four rights.
    pub fn new_game() -> (r: Castling)
        ensures
            r == Castling::spec_all(),
    {
        Castling {
            white_king_side: true,
            white_queen_side: true,
            black_king_side: true,
            black_queen_side: true,
        }
    }

    pub open spec fn index(self) -> int {
        flag(self.white_king_side, 1) + flag(self.white_queen_side, 2) + flag(self.black_king_side, 4)
            + flag(self.black_queen_side, 8)
    }

    /// The rights packed into four bits, white king side lowest.
    pub fn get_zobrist_index(self) -> (r: usize)
        ensures
            r == self.index(),
            r < 16,
    {
        let mut index: usize = 0;
        if self.white_king_side {
            index = index + 1;
        }
        if self.white_queen_side {
            index = index + 2;
        }
        if self.black_king_side {
            index = index + 4;
        }
        if self.black_queen_side {
            index = index + 8;
        }
        index
    }
}

/// A move of a piece from one square to another.
#[derive(PartialEq, Eq, Structural, Clone, Copy, Debug)]
pub struct Translation {
    pub from: Square,
    pub to: Square,
}

/// A move: a translation (with what it captures or promotes to, and the en-passant target
/// when it takes en passant), or a castling, which also carries the king's translation.
#[derive(PartialEq, Eq, Structural, Clone, Copy, Debug)]
pub struct Move {
    pub translation: Option<Translation>,
    pub promotion: Option<Piece>,
    pub capture: Option<Piece>,
    pub castling: Option<CastlingDirection>,
    pub en_passant: Option<Square>,
}


/// The text of a move: origin and destination squares, and the promotion letter if any.
pub open spec fn move_text(m: Move) -> Seq<char> {
    match m.translation {
        Some(t) => square_name(t.from as int) + square_name(t.to as int) + promotion_text(m.promotion),
        None => Seq::empty(),
    }
}

pub open spec fn promotion_text(p: Option<Piece>) -> Seq<char> {
    match p {
        Some(k) => if k == KNIGHT {
            seq!['n']
        } else if k == BISHOP {
            seq!['b']
        } else if k == ROOK {
            seq!['r']
        } else {
            seq!['q']
        },
        None => Seq::empty(),
    }
}

/// The main part of a move's display text.
pub open spec fn display_body(m: Move) -> Seq<char> {
    match m.translation {
        Some(t) => square_name(t.from as int) + (if m.capture is Some { seq!['x'] } else { Seq::empty() }) + square_name(t.to as int),
        None => match m.castling {
            Some(d) => if d == KING_SIDE { seq!['O', '-', 'O'] } else { seq!['O', '-', 'O', '-', 'O'] },
            None => Seq::empty(),
        },
    }
}

/// The piece letter after a promotion: `N`, `B`, `R` or `Q` (none for a pawn, `K` for a king).
pub open spec fn notation_of(k: int) -> Seq<char> {
    if k == 0 {
        Seq::empty()
    } else if k == 1 {
        seq!['N']
    } else if k == 2 {
        seq!['B']
    } else if k == 3 {
        seq!['R']
    } else if k == 4 {
        seq!['Q']
    } else {
        seq!['K']
    }
}

/// A move's display text: its main part, then `=` and the piece letter after a promotion.
pub open spec fn display_text(m: Move) -> Seq<char> {
    display_body(m) + match m.promotion {
        Some(k) => seq!['='] + notation_of(k as int),
        None => Seq::empty(),
    }
}

fn promotion_str(p: Option<Piece>) -> (r: &'static str)
    ensures
        r@ == promotion_text(p),
{
    proof {
        reveal_strlit("n");
        reveal_strlit("b");
        reveal_strlit("r");
        reveal_strlit("q");
        reveal_strlit("");
    }
    match p {
        Some(k) => if k == KNIGHT {
            "n"
        } else if k == BISHOP {
            "b"
        } else if k == ROOK {
            "r"
        } else {
            "q"
        },
        None => "",
    }
}

impl Move {
    pub open spec fn squares_ok(self) -> bool {
        match self.translation {
            Some(t) => t.from < 64 && t.to < 64,
            None => true,
        }
    }

    /// The move in coordinate notation ("e2e4", "e7e8q"); empty for a move without a
    /// translation.
    pub fn get_tstring(&self) -> (r: String)
        requires
            self.squares_ok(),
        ensures
            r@ == move_text(*self),
    {
        match self.translation {
            Some(t) => {
                let mut s = t.from.as_string();
                let to = t.to.as_string();
                s.append(to.as_str());
                s.append(promotion_str(self.promotion));
                s
            },
            None => {
                proof {
                    reveal_strlit("");
                }
                String::from_str("")
            },
        }
    }

    /// The move for display: "e2e4", "e4xd5", "O-O", "O-O-O", with "=Q" and the like after a
    /// promotion.
    pub fn display_text(&self) -> (r: String)
        requires
            self.squares_ok(),
            self.promotion matches Some(k) ==> k < 6,
        ensures
            r@ == display_text(*self),
    {
        proof {
            reveal_strlit("");
            reveal_strlit("x");
            reveal_strlit("O-O");
            reveal_strlit("O-O-O");
            reveal_strlit("=");
        }
        let mut s = String::from_str("");
        match self.translation {
            Some(t) => {
                let from = t.from.as_string();
                let to = t.to.as_string();
                s.append(from.as_str());
                if self.capture.is_some() {
                    s.append("x");
                }
                s.append(to.as_str());
            },
            None => match self.castling {
                Some(d) => {
                    if d == KING_SIDE {
                        s.append("O-O");
                    } else {
                        s.append("O-O-O");
                    }
                },
                None => {},
            },
        }
        let ghost body = s@;
        match self.promotion {
            Some(k) => {
                s.append("=");
                let note = k.to_notation();
                proof {
                    reveal_strlit("N");
                    reveal_strlit("B");
                    reveal_strlit("R");
                    reveal_strlit("Q");
                    reveal_strlit("K");
                    assert(k == 0 || k == 1 || k == 2 || k == 3 || k == 4 || k == 5);
                    assert(note@ == notation_of(k as int));
                }
                s.append(note);
            },
            None => {},
        }
        proof {
            assert(body =~= display_body(*self));
            assert(s@ =~= display_text(*self));
        }
        s
    }

    /// A plain translation.
    pub fn quiet(from: Square, to: Square) -> (r: Move)
        ensures
            r == (Move {
                translation: Some(Translation { from, to }),
                promotion: None,
                capture: None,
                castling: None,
                en_passant: None,
            }),
    {
        Move {
            translation: Some(Translation { from, to }),
            promotion: None,
            capture: None,
            castling: None,
            en_passant: None,
        }
    }
}

/// The number of places where `s` holds `h`.
pub open spec fn count_of(s: Seq<u64>, h: u64) -> nat
    decreases s.len(),
{
    if s.len() == 0 {
        0
    } else {
        count_of(s.drop_last(), h) + if s.last() == h { 1nat } else { 0nat }
    }
}

pub const MAX_ZOBRIST_ARRAY_SIZE: usize = 100;

/// The hashes of the latest positions, oldest first, at most `MAX_ZOBRIST_ARRAY_SIZE`.
#[derive(Clone, Copy)]
pub struct ZobristMoveStack {
    pub zobrist_array: [u64; MAX_ZOBRIST_ARRAY_SIZE],
    pub zobrist_array_index: usize,
}

fn same_hash(a: u64, b: u64) -> (r: bool)
    ensures
        r == (a == b),
{
    a == b
}

/// Relies on rayon's `par_iter().filter().count()` over a slice: it counts the items for which
/// the filter holds.
#[verifier::external_body]
fn par_count(xs: &[u64; MAX_ZOBRIST_ARRAY_SIZE], len: usize, h: u64) -> (r: usize)
    requires
        len <= MAX_ZOBRIST_ARRAY_SIZE,
    ensures
        r == count_of(xs@.subrange(0, len as int), h),
{
    xs[..len].par_iter().filter(|x| same_hash(**x, h)).count()
}

/// `s` with `h` added at the end, dropping the oldest entry past the capacity.
pub open spec fn pushed(s: Seq<u64>, h: u64) -> Seq<u64> {
    if s.len() < MAX_ZOBRIST_ARRAY_SIZE {
        s.push(h)
    } else {
        s.drop_first().push(h)
    }
}

impl ZobristMoveStack {
    pub open spec fn wf(&self) -> bool {
        self.zobrist_array_index <= MAX_ZOBRIST_ARRAY_SIZE
    }

    pub open spec fn view(&self) -> Seq<u64> {
        self.zobrist_array@.subrange(0, self.zobrist_array_index as int)
    }

    /// An empty stack.
    pub fn new() -> (r: ZobristMoveStack)
        ensures
            r.wf(),
            r.view() == Seq::<u64>::empty(),
    {
        ZobristMoveStack { zobrist_array: [0u64; MAX_ZOBRIST_ARRAY_SIZE], zobrist_array_index: 0 }
    }

    /// How many entries equal `zobrist_hash`.
    pub fn get_repetitions(&self, zobrist_hash: u64) -> (r: usize)
        requires
            self.wf(),
        ensures
            r == count_of(self.view(), zobrist_hash),
    {
        par_count(&self.zobrist_array, self.zobrist_array_index, zobrist_hash)
    }

    /// Appends a hash, dropping the oldest when full.
    pub fn add(&mut self, zobrist_hash: u64)
        requires
            old(self).wf(),
        ensures
            final(self).wf(),
            final(self).view() == pushed(old(self).view(), zobrist_hash),
    {
        let ghost before = self.view();
        if self.zobrist_array_index == MAX_ZOBRIST_ARRAY_SIZE {
            let mut i: usize = 0;
            while i < MAX_ZOBRIST_ARRAY_SIZE - 1
                invariant
                    i <= MAX_ZOBRIST_ARRAY_SIZE - 1,
                    self.zobrist_array_index == MAX_ZOBRIST_ARRAY_SIZE,
                    before.len() == MAX_ZOBRIST_ARRAY_SIZE,
                    forall|k: int| 0 <= k < i ==> self.zobrist_array@[k] == before[k + 1],
                    forall|k: int| i <= k < MAX_ZOBRIST_ARRAY_SIZE ==> self.zobrist_array@[k] == before[k],
                decreases MAX_ZOBRIST_ARRAY_SIZE - 1 - i,
            {
                let next = self.zobrist_array[i + 1];
                self.zobrist_array[i] = next;
                i = i + 1;
            }
            self.zobrist_array[MAX_ZOBRIST_ARRAY_SIZE - 1] = zobrist_hash;
            proof {
                assert(self.view() =~= pushed(before, zobrist_hash));
            }
        } else {
            let i = self.zobrist_array_index;
            self.zobrist_array[i] = zobrist_hash;
            self.zobrist_array_index = i + 1;
            proof {
                assert(self.view() =~= pushed(before, zobrist_hash));
            }
        }
    }
}

proof fn lemma_pushed(s: Seq<u64>, h: u64)
    requires
        s.len() <= MAX_ZOBRIST_ARRAY_SIZE,
    ensures
        ({
            let r = pushed(s, h);
            &&& r.len() >= 1
            &&& r.len() <= MAX_ZOBRIST_ARRAY_SIZE
            &&& r.len() >= s.len()
            &&& r.last() == h
            &&& s.len() >= 1 ==> r.len() >= 2 && r[r.len() - 2] == s.last()
            &&& s.len() >= 2 ==> r.len() >= 3 && r[r.len() - 3] == s[s.len() - 2]
        }),
{
}

/// A hash pushed three times onto any stack stands in it at least three times.
pub proof fn lemma_three_pushes(s: Seq<u64>, h: u64)
    requires
        s.len() <= MAX_ZOBRIST_ARRAY_SIZE,
    ensures
        count_of(pushed(pushed(pushed(s, h), h), h), h) >= 3,
{
    let a = pushed(s, h);
    lemma_pushed(s, h);
    let b = pushed(a, h);
    lemma_pushed(a, h);
    let c = pushed(b, h);
    lemma_pushed(b, h);
    assert(c.len() >= 3);
    assert(c[c.len() - 1] == h && c[c.len() - 2] == h && c[c.len() - 3] == h);
    let c1 = c.drop_last();
    let c2 = c1.drop_last();
    assert(c1.last() == h);
    assert(c2.last() == h);
    assert(count_of(c, h) == count_of(c1, h) + 1);
    assert(count_of(c1, h) == count_of(c2, h) + 1);
    assert(count_of(c2, h) == count_of(c2.drop_last(), h) + 1);
}


pub const PIECE_KEYS: usize = 768;

/// Relies on `rand::random::<u64>`: a random number; nothing is promised of its value.
#[verifier::external_body]
fn random_key() -> (r: u64) {
    rand::random::<u64>()
}

/// The random keys that hash a position: one per side, piece kind and square (at
/// `(side * 6 + piece) * 64 + square`), one per castling-rights value, one per en-passant
/// square, and one for Black to move.
#[derive(Clone, Copy)]
pub struct ZobristHasher {
    pub piece_hashes: [u64; PIECE_KEYS],
    pub castling_hashes: [u64; 16],
    pub en_passant_hashes: [u64; 64],
    pub side_to_move_hash: u64,
}

/// The XOR of the piece keys of the first `n` (side, kind, square) slots that are occupied.
pub open spec fn piece_key_sum(h: ZobristHasher, pieces: [SidePieces; 2], n: int) -> u64
    decreases n,
{
    if n <= 0 {
        0
    } else {
        let i = n - 1;
        let key: u64 = if sq_in(pieces[i / 384][(i / 64) % 6], i % 64) { h.piece_hashes[i] } else { 0 };
        piece_key_sum(h, pieces, n - 1) ^ key
    }
}

/// The hash of a position under `h`.
pub open spec fn zobrist_key(h: ZobristHasher, p: Position) -> u64 {
    let ep: u64 = match p.en_passant_square {
        Some(e) => h.en_passant_hashes[e as int],
        None => 0,
    };
    let stm: u64 = if p.side_to_move.0 == 1 { h.side_to_move_hash } else { 0 };
    piece_key_sum(h, p.pieces, PIECE_KEYS as int) ^ h.castling_hashes[p.castling_rights.index()] ^ ep ^ stm
}

impl ZobristHasher {
    /// A key schedule drawn at random.
    pub fn new() -> (r: ZobristHasher) {
        let mut piece_hashes = [0u64; PIECE_KEYS];
        let mut castling_hashes = [0u64; 16];
        let mut en_passant_hashes = [0u64; 64];
        let mut i: usize = 0;
        while i < PIECE_KEYS
            decreases PIECE_KEYS - i,
        {
            piece_hashes[i] = random_key();
            i = i + 1;
        }
        let mut i: usize = 0;
        while i < 16
            decreases 16 - i,
        {
            castling_hashes[i] = random_key();
            i = i + 1;
        }
        let mut i: usize = 0;
        while i < 64
            decreases 64 - i,
        {
            en_passant_hashes[i] = random_key();
            i = i + 1;
        }
        let side_to_move_hash = random_key();
        ZobristHasher { piece_hashes, castling_hashes, en_passant_hashes, side_to_move_hash }
    }

    /// The hash of `position`.
    pub fn hash_position(&self, position: &Position) -> (r: u64)
        requires
            position.wf(),
        ensures
            r == zobrist_key(*self, *position),
    {
        let mut hash: u64 = 0;
        let mut i: usize = 0;
        while i < PIECE_KEYS
            invariant
                i <= PIECE_KEYS,
                hash == piece_key_sum(*self, position.pieces, i as int),
            decreases PIECE_KEYS - i,
        {
            let side = i / 384;
            let piece = (i / 64) % 6;
            let square = (i % 64) as u8;
            if contains(position.pieces[side][piece], square) {
                hash = hash ^ self.piece_hashes[i];
            } else {
                hash = hash ^ 0;
            }
            i = i + 1;
        }
        hash = hash ^ self.castling_hashes[position.castling_rights.get_zobrist_index()];
        let ep: u64 = match position.en_passant_square {
            Some(e) => self.en_passant_hashes[e as usize],
            None => 0,
        };
        hash = hash ^ ep;
        let stm: u64 = if position.side_to_move.0 == 1 { self.side_to_move_hash } else { 0 };
        hash ^ stm
    }
}

/// A side and a piece kind within range.
pub open spec fn kind_ok(side: int, piece: int) -> bool {
    0 <= side < 2 && 0 <= piece < 6
}

/// The board holds exactly one square.
pub open spec fn one_square(b: u64) -> bool {
    exists|k: int| #[trigger] only_square(b, k)
}

/// The board holds `k` and nothing else.
pub open spec fn only_square(b: u64, k: int) -> bool {
    0 <= k < 64 && forall|t: int| #[trigger] sq_in(b, t) == (t == k)
}

/// A chess position.
#[derive(Clone, Copy)]
pub struct Position {
    pub pieces: [SidePieces; 2],
    pub halfmove_clock: u32,
    pub fullmove_number: u32,
    pub side_to_move: Side,
    pub castling_rights: Castling,
    pub en_passant_square: Option<Square>,
    pub hasher: ZobristHasher,
    pub zobrist_stack: ZobristMoveStack,
}

impl Position {
    /// A piece of `side` of kind `piece` stands on `t`.
    pub open spec fn owns(self, side: int, piece: int, t: int) -> bool {
        kind_ok(side, piece) && sq_in(self.pieces[side][piece], t)
    }

    /// Some piece of `side` stands on `t`.
    pub open spec fn holds(self, side: int, t: int) -> bool {
        exists|piece: int| #[trigger] self.owns(side, piece, t)
    }

    /// The boards are consistent: kinds and sides do not overlap, each side has one king.
    pub open spec fn wf(self) -> bool {
        &&& self.side_to_move.wf()
        &&& forall|s: int, i: int, j: int, t: int|
            #![trigger self.owns(s, i, t), self.owns(s, j, t)]
            self.owns(s, i, t) && self.owns(s, j, t) ==> i == j
        &&& forall|i: int, j: int, t: int|
            #![trigger self.owns(0, i, t), self.owns(1, j, t)]
            !(self.owns(0, i, t) && self.owns(1, j, t))
        &&& one_square(self.pieces[0][5])
        &&& one_square(self.pieces[1][5])
        &&& (self.en_passant_square matches Some(e) ==> e < 64)
        &&& self.zobrist_stack.wf()
    }

    /// An empty board, White to move, no rights.
    pub fn new() -> (r: Position)
        ensures
            forall|s: int, k: int| kind_ok(s, k) ==> r.pieces[s][k] == 0,
            r.halfmove_clock == 0,
            r.fullmove_number == 1,
            r.side_to_move == Side(0),
            r.castling_rights == Castling::spec_none(),
            r.en_passant_square is None,
            r.zobrist_stack.wf(),
            r.zobrist_stack.view() == Seq::<u64>::empty(),
    {
        let empty: SidePieces = [0u64; 6];
        proof {
            assert(forall|k: int| 0 <= k < 6 ==> empty[k] == 0);
        }
        Position {
            pieces: [empty, empty],
            halfmove_clock: 0,
            fullmove_number: 1,
            side_to_move: Side(0),
            castling_rights: Castling::new(),
            en_passant_square: None,
            hasher: ZobristHasher::new(),
            zobrist_stack: ZobristMoveStack::new(),
        }
    }

    /// The starting position.
    pub fn new_game() -> (r: Position)
        ensures
            r.wf(),
            r.pieces[0] == start_pieces(0),
            r.pieces[1] == start_pieces(1),
            r.halfmove_clock == 0,
            r.fullmove_number == 1,
            r.side_to_move == Side(0),
            r.castling_rights == Castling::spec_all(),
            r.en_passant_square is None,
            r.zobrist_stack.view() == Seq::<u64>::empty(),
    {
        let r = Position {
            pieces: [SidePieces::new_game(Side(0)), SidePieces::new_game(Side(1))],
            halfmove_clock: 0,
            fullmove_number: 1,
            side_to_move: Side(0),
            castling_rights: Castling::new_game(),
            en_passant_square: None,
            hasher: ZobristHasher::new(),
            zobrist_stack: ZobristMoveStack::new(),
        };
        proof {
            lemma_start_wf(r);
        }
        r
    }
}

proof fn lemma_start_wf(r: Position)
    requires
        r.pieces[0] == start_pieces(0),
        r.pieces[1] == start_pieces(1),
        r.side_to_move == Side(0),
        r.en_passant_square is None,
        r.zobrist_stack.wf(),
    ensures
        r.wf(),
{
    let w = start_pieces(0);
    let b = start_pieces(1);
    assert(
        0xFF00u64 & 0x42u64 == 0u64
        && 0xFF00u64 & 0x24u64 == 0u64
        && 0xFF00u64 & 0x81u64 == 0u64
        && 0xFF00u64 & 0x8u64 == 0u64
        && 0xFF00u64 & 0x10u64 == 0u64
        && 0x42u64 & 0x24u64 == 0u64
        && 0x42u64 & 0x81u64 == 0u64
        && 0x42u64 & 0x8u64 == 0u64
        && 0x42u64 & 0x10u64 == 0u64
        && 0x24u64 & 0x81u64 == 0u64
        && 0x24u64 & 0x8u64 == 0u64
        && 0x24u64 & 0x10u64 == 0u64
        && 0x81u64 & 0x8u64 == 0u64
        && 0x81u64 & 0x10u64 == 0u64
        && 0x8u64 & 0x10u64 == 0u64
        && 0xFF000000000000u64 & 0x4200000000000000u64 == 0u64
        && 0xFF000000000000u64 & 0x2400000000000000u64 == 0u64
        && 0xFF000000000000u64 & 0x8100000000000000u64 == 0u64
        && 0xFF000000000000u64 & 0x800000000000000u64 == 0u64
        && 0xFF000000000000u64 & 0x1000000000000000u64 == 0u64
        && 0x4200000000000000u64 & 0x2400000000000000u64 == 0u64
        && 0x4200000000000000u64 & 0x8100000000000000u64 == 0u64
        && 0x4200000000000000u64 & 0x800000000000000u64 == 0u64
        && 0x4200000000000000u64 & 0x1000000000000000u64 == 0u64
        && 0x2400000000000000u64 & 0x8100000000000000u64 == 0u64
        && 0x2400000000000000u64 & 0x800000000000000u64 == 0u64
        && 0x2400000000000000u64 & 0x1000000000000000u64 == 0u64
        && 0x8100000000000000u64 & 0x800000000000000u64 == 0u64
        && 0x8100000000000000u64 & 0x1000000000000000u64 == 0u64
        && 0x800000000000000u64 & 0x1000000000000000u64 == 0u64
        && (0xFF00u64 | 0x42u64 | 0x24u64 | 0x81u64 | 0x8u64 | 0x10u64) & (0xFF000000000000u64 | 0x4200000000000000u64 | 0x2400000000000000u64 | 0x8100000000000000u64 | 0x800000000000000u64 | 0x1000000000000000u64) == 0u64
        && 0x42u64 & 0xFF00u64 == 0u64
        && 0x24u64 & 0xFF00u64 == 0u64
        && 0x81u64 & 0xFF00u64 == 0u64
        && 0x8u64 & 0xFF00u64 == 0u64
        && 0x10u64 & 0xFF00u64 == 0u64
        && 0x24u64 & 0x42u64 == 0u64
        && 0x81u64 & 0x42u64 == 0u64
        && 0x8u64 & 0x42u64 == 0u64
        && 0x10u64 & 0x42u64 == 0u64
        && 0x81u64 & 0x24u64 == 0u64
        && 0x8u64 & 0x24u64 == 0u64
        && 0x10u64 & 0x24u64 == 0u64
        && 0x8u64 & 0x81u64 == 0u64
        && 0x10u64 & 0x81u64 == 0u64
        && 0x10u64 & 0x8u64 == 0u64
        && 0x4200000000000000u64 & 0xFF000000000000u64 == 0u64
        && 0x2400000000000000u64 & 0xFF000000000000u64 == 0u64
        && 0x8100000000000000u64 & 0xFF000000000000u64 == 0u64
        && 0x800000000000000u64 & 0xFF000000000000u64 == 0u64
        && 0x1000000000000000u64 & 0xFF000000000000u64 == 0u64
        && 0x2400000000000000u64 & 0x4200000000000000u64 == 0u64
        && 0x8100000000000000u64 & 0x4200000000000000u64 == 0u64
        && 0x800000000000000u64 & 0x4200000000000000u64 == 0u64
        && 0x1000000000000000u64 & 0x4200000000000000u64 == 0u64
        && 0x8100000000000000u64 & 0x2400000000000000u64 == 0u64
        && 0x800000000000000u64 & 0x2400000000000000u64 == 0u64
        && 0x1000000000000000u64 & 0x2400000000000000u64 == 0u64
        && 0x800000000000000u64 & 0x8100000000000000u64 == 0u64
        && 0x1000000000000000u64 & 0x8100000000000000u64 == 0u64
        && 0x1000000000000000u64 & 0x800000000000000u64 == 0u64
        && 0x10u64 == 1u64 << 4u64
        && 0x1000000000000000u64 == 1u64 << 60u64
    ) by (bit_vector);
    assert forall|s: int, i: int, j: int, t: int|
        #![trigger r.owns(s, i, t), r.owns(s, j, t)]
        r.owns(s, i, t) && r.owns(s, j, t) implies i == j by {
        if i != j {
            let x = r.pieces[s][i];
            let y = r.pieces[s][j];
            assert(sq_in(x & y, t));
            assert(s == 0 || s == 1);
            assert(i == 0 || i == 1 || i == 2 || i == 3 || i == 4 || i == 5);
            assert(j == 0 || j == 1 || j == 2 || j == 3 || j == 4 || j == 5);
            assert(x & y == 0);
        }
    }
    assert forall|i: int, j: int, t: int|
        #![trigger r.owns(0, i, t), r.owns(1, j, t)]
        !(r.owns(0, i, t) && r.owns(1, j, t)) by {
        if r.owns(0, i, t) && r.owns(1, j, t) {
            assert(sq_in(union6(w), t));
            assert(sq_in(union6(b), t));
            assert(sq_in(union6(w) & union6(b), t));
        }
    }
    assert(only_square(w[5], 4));
    assert(only_square(b[5], 60));
}


/// The square of the pawn that an en-passant capture by `side` landing on `to` removes.
pub open spec fn ep_victim(side: int, to: int) -> int {
    if side == 0 { to - 8 } else { to + 8 }
}

/// `t` is beside `s` on the same rank.
pub open spec fn beside(s: int, t: int) -> bool {
    is_square(t) && rank_of(t) == rank_of(s) && (file_of(t) == file_of(s) + 1 || file_of(t) == file_of(s) - 1)
}

/// The rook's origin and destination squares for a castling of the king on `from`.
pub open spec fn rook_from(from: int, dir: int) -> int {
    if dir == KING_SIDE { from + 3 } else { from - 4 }
}

pub open spec fn rook_to(from: int, dir: int) -> int {
    if dir == KING_SIDE { from + 1 } else { from - 1 }
}

impl Position {
    pub open spec fn us(self) -> int {
        self.side_to_move.0 as int
    }

    pub open spec fn them(self) -> int {
        1 - self.side_to_move.0
    }

    /// The kind of the mover's piece on `from`.
    pub open spec fn moved_kind(self, from: int) -> int {
        match first_kind(self.pieces[self.us()], 1u64 << (from as u64)) {
            Some(k) => k as int,
            None => 0,
        }
    }
}

/// The move fits the position: it takes a piece of the side to move to a square that side
/// does not hold, says what it captures, and a castling or en-passant capture has the
/// geometry that applying it needs.
pub open spec fn move_ok(p: Position, m: Move) -> bool {
    let us = p.us();
    let them = p.them();
    match m.translation {
        None => false,
        Some(tr) => {
            let from = tr.from as int;
            let to = tr.to as int;
            &&& from < 64 && to < 64 && from != to
            &&& p.holds(us, from)
            &&& !p.holds(us, to)
            &&& m.capture != Some(KING)
            &&& (m.promotion matches Some(k) ==> KNIGHT <= k <= QUEEN && p.moved_kind(from) == PAWN)
            &&& match m.castling {
                Some(d) => {
                    &&& d < 2
                    &&& m.capture is None && m.promotion is None && m.en_passant is None
                    &&& p.owns(us, KING as int, from)
                    &&& file_of(from) == 4
                    &&& to == (if d == KING_SIDE { from + 2 } else { from - 2 })
                    &&& is_square(rook_from(from, d as int))
                    &&& rank_of(rook_from(from, d as int)) == rank_of(from)
                    &&& p.owns(us, ROOK as int, rook_from(from, d as int))
                    &&& !p.holds(us, rook_to(from, d as int)) && !p.holds(them, rook_to(from, d as int))
                    &&& !p.holds(them, to)
                },
                None => match m.en_passant {
                    Some(e) => {
                        &&& e as int == to
                        &&& p.moved_kind(from) == PAWN
                        &&& m.capture == Some(PAWN)
                        &&& is_square(ep_victim(us, to))
                        &&& p.owns(them, PAWN as int, ep_victim(us, to))
                        &&& !p.holds(them, to)
                    },
                    None => m.capture == first_kind(p.pieces[them], 1u64 << (to as u64)),
                },
            }
        },
    }
}


/// The kind that lands on the destination: the promotion, else the moving kind.
pub open spec fn placed_kind(p: Position, m: Move) -> int {
    match m.promotion {
        Some(k) => k as int,
        None => p.moved_kind(m.translation->0.from as int),
    }
}

/// After `m`, board (`side`, `j`) holds `t`.
pub open spec fn applied_board(p: Position, m: Move, side: int, j: int, t: int) -> bool {
    let us = p.us();
    let from = m.translation->0.from as int;
    let to = m.translation->0.to as int;
    let old = sq_in(p.pieces[side][j], t);
    match m.castling {
        Some(d) => if side == us {
            if j == KING {
                (old && t != from) || t == to
            } else if j == ROOK {
                (old && t != rook_from(from, d as int)) || t == rook_to(from, d as int)
            } else {
                old
            }
        } else {
            old
        },
        None => if side == us {
            (old && t != from) || (j == placed_kind(p, m) && t == to)
        } else {
            &&& old
            &&& !(m.en_passant is None && m.capture == Some(j as usize) && t == to)
            &&& !(m.en_passant is Some && j == PAWN && t == ep_victim(us, to))
        },
    }
}

/// The castling rights after `m`: a king move drops both of the mover's rights, and a move
/// from or onto a rook's corner drops that corner's right.
pub open spec fn applied_rights(p: Position, m: Move) -> Castling {
    let us = p.us();
    let from = m.translation->0.from as int;
    let to = m.translation->0.to as int;
    let king_moved = m.castling is Some || p.moved_kind(from) == KING;
    let c = p.castling_rights;
    Castling {
        white_king_side: c.white_king_side && !(us == 0 && king_moved) && from != 7 && to != 7,
        white_queen_side: c.white_queen_side && !(us == 0 && king_moved) && from != 0 && to != 0,
        black_king_side: c.black_king_side && !(us == 1 && king_moved) && from != 63 && to != 63,
        black_queen_side: c.black_queen_side && !(us == 1 && king_moved) && from != 56 && to != 56,
    }
}

/// A pawn of the mover's opponent stands beside `to`.
pub open spec fn enemy_pawn_beside(p: Position, to: int) -> bool {
    (beside(to, to + 1) && p.owns(p.them(), PAWN as int, to + 1)) || (beside(to, to - 1) && p.owns(
        p.them(),
        PAWN as int,
        to - 1,
    ))
}

/// `m` is a pawn's two-square push.
pub open spec fn is_double_push(p: Position, m: Move) -> bool {
    let from = m.translation->0.from as int;
    let to = m.translation->0.to as int;
    m.castling is None && m.en_passant is None && p.moved_kind(from) == PAWN && (to == from + 16 || to == from - 16)
}

/// The en-passant target after `m`: the square crossed by a two-square push that lands beside
/// an enemy pawn.
pub open spec fn applied_ep(p: Position, m: Move) -> Option<Square> {
    let from = m.translation->0.from as int;
    let to = m.translation->0.to as int;
    if is_double_push(p, m) && enemy_pawn_beside(p, to) {
        Some(((from + to) / 2) as u8)
    } else {
        None
    }
}

/// `m` moves a pawn or captures.
pub open spec fn resets_clock(p: Position, m: Move) -> bool {
    m.castling is None && (p.moved_kind(m.translation->0.from as int) == PAWN || m.capture is Some)
}

/// A move counter one higher, held at its largest value.
pub open spec fn counted_up(x: u32) -> int {
    if x < u32::MAX { x + 1 } else { x as int }
}

fn count_up(x: u32) -> (r: u32)
    ensures
        r == counted_up(x),
{
    if x < u32::MAX { x + 1 } else { x }
}

/// `r` is the position after `m` is played in `p`.
pub open spec fn is_applied(p: Position, m: Move, r: Position) -> bool {
    &&& r.side_to_move == p.side_to_move.other()
    &&& forall|side: int, j: int, t: int| kind_ok(side, j) ==> (#[trigger] sq_in(r.pieces[side][j], t) == applied_board(p, m, side, j, t))
    &&& r.castling_rights == applied_rights(p, m)
    &&& r.en_passant_square == applied_ep(p, m)
    &&& r.halfmove_clock == if resets_clock(p, m) { 0 } else { counted_up(p.halfmove_clock) }
    &&& r.fullmove_number == if p.us() == 1 { counted_up(p.fullmove_number) } else { p.fullmove_number as int }
    &&& r.hasher == p.hasher
    &&& r.zobrist_stack == p.zobrist_stack
}

impl Position {
    /// The position after `m`.
    #[verifier::rlimit(50)]
    pub fn make_move(&self, m: Move) -> (r: Position)
        requires
            self.wf(),
            move_ok(*self, m),
        ensures
            is_applied(*self, m, r),
            r.wf(),
    {
        let us = self.side_to_move.0;
        let them = 1 - us;
        let tr = match m.translation {
            Some(tr) => tr,
            None => Translation { from: 0, to: 0 },
        };
        let from = tr.from;
        let to = tr.to;
        let from_bb: u64 = 1u64 << from;
        let to_bb: u64 = 1u64 << to;
        let mut ours = self.pieces[us];
        let mut theirs = self.pieces[them];
        let mut ep: Option<Square> = None;
        let clock: u32;
        let king_moved: bool;
        match m.castling {
            Some(d) => {
                ours[KING] = (ours[KING] & !from_bb) | to_bb;
                let rf: u8 = if d == KING_SIDE { from + 3 } else { from - 4 };
                let rt: u8 = if d == KING_SIDE { from + 1 } else { from - 1 };
                ours[ROOK] = (ours[ROOK] & !(1u64 << rf)) | (1u64 << rt);
                clock = count_up(self.halfmove_clock);
                king_moved = true;
            },
            None => {
                let moved = match ours.get_piece_type_at_square(from_bb) {
                    Some(k) => k,
                    None => 0,
                };
                let placed = match m.promotion {
                    Some(k) => k,
                    None => moved,
                };
                ours[0] = ours[0] & !from_bb;
                ours[1] = ours[1] & !from_bb;
                ours[2] = ours[2] & !from_bb;
                ours[3] = ours[3] & !from_bb;
                ours[4] = ours[4] & !from_bb;
                ours[5] = ours[5] & !from_bb;
                ours[placed] = ours[placed] | to_bb;
                match m.en_passant {
                    Some(e) => {
                        let victim: u8 = if us == 0 { to - 8 } else { to + 8 };
                        theirs[PAWN] = theirs[PAWN] & !(1u64 << victim);
                    },
                    None => {
                        match m.capture {
                            Some(c) => {
                                theirs[c] = theirs[c] & !to_bb;
                            },
                            None => {},
                        }
                        if moved == PAWN && (to as u32 == from as u32 + 16 || to as u32 + 16 == from as u32) {
                            let file = to % 8;
                            let right = file < 7 && contains(self.pieces[them][PAWN], to + 1);
                            let left = file > 0 && contains(self.pieces[them][PAWN], to - 1);
                            if right || left {
                                ep = Some(((from as u32 + to as u32) / 2) as u8);
                            }
                        }
                    },
                }
                clock = if moved == PAWN || m.capture.is_some() { 0 } else { count_up(self.halfmove_clock) };
                king_moved = moved == KING;
            },
        }
        let mut rights = self.castling_rights;
        if king_moved {
            if us == 0 {
                rights.white_king_side = false;
                rights.white_queen_side = false;
            } else {
                rights.black_king_side = false;
                rights.black_queen_side = false;
            }
        }
        if from == 7 || to == 7 {
            rights.white_king_side = false;
        }
        if from == 0 || to == 0 {
            rights.white_queen_side = false;
        }
        if from == 63 || to == 63 {
            rights.black_king_side = false;
        }
        if from == 56 || to == 56 {
            rights.black_queen_side = false;
        }
        let pieces = if us == 0 { [ours, theirs] } else { [theirs, ours] };
        let fullmove = if us == 1 { count_up(self.fullmove_number) } else { self.fullmove_number };
        let r = Position {
            pieces,
            halfmove_clock: clock,
            fullmove_number: fullmove,
            side_to_move: Side(them),
            castling_rights: rights,
            en_passant_square: ep,
            hasher: self.hasher,
            zobrist_stack: self.zobrist_stack,
        };
        assert(is_applied(*self, m, r));
        proof {
            lemma_apply_wf(*self, m, r);
        }
        r
    }
}


pub proof fn lemma_bit_of_square(x: u64, f: int)
    requires
        0 <= f < 64,
    ensures
        (x & (1u64 << (f as u64)) != 0) == sq_in(x, f),
{
    let g = f as u64;
    assert(g < 64 ==> ((x & (1u64 << g) != 0) == ((x >> g) & 1u64 == 1u64))) by (bit_vector);
}

/// What `first_kind` finds on a square.
pub proof fn lemma_first_kind(b: SidePieces, f: int)
    requires
        0 <= f < 64,
    ensures
        first_kind(b, 1u64 << (f as u64)) matches Some(k) ==> k < 6 && sq_in(b[k as int], f) && forall|j: int| 0 <= j < k ==> !sq_in(#[trigger] b[j], f),
        first_kind(b, 1u64 << (f as u64)) is None ==> forall|j: int| 0 <= j < 6 ==> !sq_in(#[trigger] b[j], f),
{
    lemma_bit_of_square(b[0], f);
    lemma_bit_of_square(b[1], f);
    lemma_bit_of_square(b[2], f);
    lemma_bit_of_square(b[3], f);
    lemma_bit_of_square(b[4], f);
    lemma_bit_of_square(b[5], f);
}

/// The kind that the mover holds on an occupied origin square.
pub proof fn lemma_moved_kind(p: Position, from: int)
    requires
        p.wf(),
        0 <= from < 64,
        p.holds(p.us(), from),
    ensures
        0 <= p.moved_kind(from) < 6,
        p.owns(p.us(), p.moved_kind(from), from),
        forall|j: int| #[trigger] p.owns(p.us(), j, from) ==> j == p.moved_kind(from),
{
    lemma_first_kind(p.pieces[p.us()], from);
    let k = choose|k: int| #[trigger] p.owns(p.us(), k, from);
    assert(sq_in(p.pieces[p.us()][k], from));
    let mk = p.moved_kind(from);
    assert(p.owns(p.us(), mk, from));
}

proof fn lemma_only_square_unique(b: u64, k: int, t: int)
    requires
        only_square(b, k),
        sq_in(b, t),
    ensures
        t == k,
{
}

/// Playing a move that fits a consistent position flips the side to move and leaves each
/// side with exactly one king.
pub proof fn lemma_apply_keeps_kings(p: Position, m: Move, r: Position)
    requires
        p.wf(),
        move_ok(p, m),
        is_applied(p, m, r),
    ensures
        r.side_to_move == p.side_to_move.other(),
        r.side_to_move.wf(),
        one_square(r.pieces[0][5]),
        one_square(r.pieces[1][5]),
{
    let us = p.us();
    let them = p.them();
    let from = m.translation->0.from as int;
    let to = m.translation->0.to as int;
    lemma_moved_kind(p, from);
    let ku = choose|k: int| #[trigger] only_square(p.pieces[us][5], k);
    let kt = choose|k: int| #[trigger] only_square(p.pieces[them][5], k);
    // the opponent's king board is untouched
    assert forall|t: int| #[trigger] sq_in(r.pieces[them][5], t) == sq_in(p.pieces[them][5], t) by {
        assert(applied_board(p, m, them, 5, t) == sq_in(p.pieces[them][5], t));
    }
    assert(only_square(r.pieces[them][5], kt));
    if m.castling is Some || p.moved_kind(from) == KING {
        assert(p.owns(us, 5, from));
        lemma_only_square_unique(p.pieces[us][5], ku, from);
        assert forall|t: int| #[trigger] sq_in(r.pieces[us][5], t) == (t == to) by {
            assert(applied_board(p, m, us, 5, t) == ((sq_in(p.pieces[us][5], t) && t != from) || t == to));
        }
        assert(only_square(r.pieces[us][5], to));
    } else {
        assert(!sq_in(p.pieces[us][5], from)) by {
            if sq_in(p.pieces[us][5], from) {
                assert(p.owns(us, 5, from));
            }
        }
        assert forall|t: int| #[trigger] sq_in(r.pieces[us][5], t) == sq_in(p.pieces[us][5], t) by {
            assert(applied_board(p, m, us, 5, t) == ((sq_in(p.pieces[us][5], t) && t != from) || (5 == placed_kind(p, m) && t == to)));
        }
        assert(only_square(r.pieces[us][5], ku));
    }
    if us == 0 {
        assert(one_square(r.pieces[0][5]));
        assert(one_square(r.pieces[1][5]));
    } else {
        assert(one_square(r.pieces[0][5]));
        assert(one_square(r.pieces[1][5]));
    }
}


/// Playing a move that fits a consistent position gives a consistent position: no square
/// holds two pieces, and each side keeps exactly one king.
pub proof fn lemma_apply_wf(p: Position, m: Move, r: Position)
    requires
        p.wf(),
        move_ok(p, m),
        is_applied(p, m, r),
    ensures
        r.wf(),
{
    lemma_apply_keeps_kings(p, m, r);
    let us = p.us();
    let them = p.them();
    let from = m.translation->0.from as int;
    let to = m.translation->0.to as int;
    lemma_moved_kind(p, from);
    lemma_first_kind(p.pieces[them], to);
    assert forall|s: int, i: int, j: int, t: int|
        #![trigger r.owns(s, i, t), r.owns(s, j, t)]
        r.owns(s, i, t) && r.owns(s, j, t) implies i == j by {
        assert(applied_board(p, m, s, i, t) && applied_board(p, m, s, j, t));
        if i != j {
            if s == us {
                if m.castling is Some {
                    let d = m.castling->0 as int;
                    if t == to {
                        if i != KING && j != KING && !(i == ROOK && t == rook_to(from, d)) && !(j == ROOK && t == rook_to(from, d)) {
                            assert(p.owns(us, i, t));
                        } else if i == KING {
                            assert(p.owns(us, j, t));
                        } else {
                            assert(p.owns(us, i, t));
                        }
                    } else if t == rook_to(from, d) {
                        if i == ROOK {
                            assert(p.owns(us, j, t));
                        } else {
                            assert(p.owns(us, i, t));
                        }
                    } else {
                        assert(p.owns(us, i, t) && p.owns(us, j, t));
                    }
                } else {
                    if t == to {
                        if i == placed_kind(p, m) {
                            assert(p.owns(us, j, t));
                        } else {
                            assert(p.owns(us, i, t));
                        }
                    } else {
                        assert(p.owns(us, i, t) && p.owns(us, j, t));
                    }
                }
            } else {
                assert(p.owns(s, i, t) && p.owns(s, j, t));
            }
        }
    }
    assert forall|i: int, j: int, t: int|
        #![trigger r.owns(0, i, t), r.owns(1, j, t)]
        !(r.owns(0, i, t) && r.owns(1, j, t)) by {
        if r.owns(0, i, t) && r.owns(1, j, t) {
            let (a, b) = if us == 0 { (i, j) } else { (j, i) };
            assert(applied_board(p, m, us, a, t));
            assert(applied_board(p, m, them, b, t));
            assert(p.owns(them, b, t));
            if m.castling is Some {
                let d = m.castling->0 as int;
                if t == to || t == rook_to(from, d) {
                    assert(p.holds(them, t));
                } else {
                    assert(p.owns(us, a, t));
                    if us == 0 {
                        assert(p.owns(0, a, t) && p.owns(1, b, t));
                    } else {
                        assert(p.owns(0, b, t) && p.owns(1, a, t));
                    }
                }
            } else if t == to {
                if m.en_passant is Some {
                    assert(p.holds(them, t));
                } else {
                    let k = first_kind(p.pieces[them], 1u64 << (to as u64));
                    assert(k is Some);
                    assert(k->0 as int == b) by {
                        let kk = k->0 as int;
                        assert(p.owns(them, kk, t));
                    }
                }
            } else {
                assert(p.owns(us, a, t));
                if us == 0 {
                    assert(p.owns(0, a, t) && p.owns(1, b, t));
                } else {
                    assert(p.owns(0, b, t) && p.owns(1, a, t));
                }
            }
        }
    }
    assert(r.en_passant_square matches Some(e) ==> e < 64);
}


/// A move that neither captures nor moves a pawn adds one to the halfmove clock; a capture or
/// a pawn move sets it to zero.
pub proof fn lemma_halfmove_clock(p: Position, m: Move, r: Position)
    requires
        p.wf(),
        move_ok(p, m),
        is_applied(p, m, r),
    ensures
        (m.capture is None && p.moved_kind(m.translation->0.from as int) != PAWN && p.halfmove_clock < u32::MAX) ==> r.halfmove_clock == p.halfmove_clock + 1,
        (m.capture is Some || p.moved_kind(m.translation->0.from as int) == PAWN) ==> r.halfmove_clock == 0,
{
    if m.castling is Some {
        lemma_moved_kind(p, m.translation->0.from as int);
        assert(p.owns(p.us(), KING as int, m.translation->0.from as int));
    }
}

} // verus!
