use vstd::prelude::*;
use vstd::string::*;
use crate::bits::{sq_in, bit_facts};
use crate::bitboard::Bitboard;

verus! {

broadcast use bit_facts;

/// A square index: file in the low three bits, rank in the next three.
pub type Square = u8;

/// A piece kind, ordered pawn, knight, bishop, rook, queen, king.
pub type Piece = usize;

/// Which way a king castles: `KING_SIDE` or `QUEEN_SIDE`.
pub type CastlingDirection = usize;

pub const KING_SIDE: CastlingDirection = 0;
pub const QUEEN_SIDE: CastlingDirection = 1;

pub const PAWN: Piece = 0;
pub const KNIGHT: Piece = 1;
pub const BISHOP: Piece = 2;
pub const ROOK: Piece = 3;
pub const QUEEN: Piece = 4;
pub const KING: Piece = 5;

pub open spec fn rank_of(s: int) -> int {
    s / 8
}

pub open spec fn file_of(s: int) -> int {
    s % 8
}

pub open spec fn on_board(rank: int, file: int) -> bool {
    0 <= rank < 8 && 0 <= file < 8
}

/// The outcome class of a position.
#[derive(PartialEq, Eq, Structural, Clone, Copy, Debug)]
pub struct GameState(pub u8);

pub trait GameStateConstants: Sized {
    spec fn code(&self) -> u8;

    fn checkmate() -> (r: Self)
        ensures
            r.code() == 0,
    ;

    fn check() -> (r: Self)
        ensures
            r.code() == 1,
    ;

    fn draw() -> (r: Self)
        ensures
            r.code() == 2,
    ;

    fn ongoing() -> (r: Self)
        ensures
            r.code() == 3,
    ;
}

impl GameState {
    /// The state's name.
    pub fn name(&self) -> (r: &'static str)
        ensures
            self.0 == 0 ==> r@ == "CHECKMATE"@,
            self.0 == 1 ==> r@ == "CHECK"@,
            self.0 == 2 ==> r@ == "DRAW"@,
            self.0 > 2 ==> r@ == "IN_PROGRESS"@,
    {
        proof {
            reveal_strlit("CHECKMATE");
            reveal_strlit("CHECK");
            reveal_strlit("DRAW");
            reveal_strlit("IN_PROGRESS");
        }
        match self.0 {
            0 => "CHECKMATE",
            1 => "CHECK",
            2 => "DRAW",
            _ => "IN_PROGRESS",
        }
    }
}

impl GameStateConstants for GameState {
    open spec fn code(&self) -> u8 {
        self.0
    }

    fn checkmate() -> (r: Self) {
        GameState(0)
    }

    fn check() -> (r: Self) {
        GameState(1)
    }

    fn draw() -> (r: Self) {
        GameState(2)
    }

    fn ongoing() -> (r: Self) {
        GameState(3)
    }
}

/// A side: 0 for White, 1 for Black.
#[derive(PartialEq, Eq, Structural, Clone, Copy, Debug)]
pub struct Side(pub usize);

pub trait SideConstants: Sized {
    spec fn code(&self) -> usize;

    fn white() -> (r: Self)
        ensures
            r.code() == 0,
    ;

    fn black() -> (r: Self)
        ensures
            r.code() == 1,
    ;
}

impl SideConstants for Side {
    open spec fn code(&self) -> usize {
        self.0
    }

    fn white() -> (r: Self) {
        Side(0)
    }

    fn black() -> (r: Self) {
        Side(1)
    }
}

impl Side {
    pub open spec fn wf(self) -> bool {
        self.0 < 2
    }

    pub open spec fn other(self) -> Side {
        Side((1 - self.0) as usize)
    }

    /// The opposing side.
    pub fn not(self) -> (r: Side)
        requires
            self.wf(),
        ensures
            r == self.other(),
            r.wf(),
    {
        if self.0 == 0 {
            Side(1)
        } else {
            Side(0)
        }
    }

    /// The side's name.
    pub fn name(&self) -> (r: &'static str)
        requires
            self.wf(),
        ensures
            self.0 == 0 ==> r@ == "White"@,
            self.0 == 1 ==> r@ == "Black"@,
    {
        proof {
            reveal_strlit("White");
            reveal_strlit("Black");
        }
        if self.0 == 0 {
            "White"
        } else {
            "Black"
        }
    }
}

pub trait SideMethods {
    spec fn code(&self) -> usize;

    /// The FEN letter of the side.
    fn to_char(&self) -> (r: char)
        requires
            self.code() < 2,
        ensures
            self.code() == 0 ==> r == 'w',
            self.code() == 1 ==> r == 'b',
    ;
}

impl SideMethods for Side {
    open spec fn code(&self) -> usize {
        self.0
    }

    fn to_char(&self) -> (r: char) {
        if self.0 == 0 {
            'w'
        } else {
            'b'
        }
    }
}

/// The board letter of a piece: upper case for White.
pub open spec fn piece_letter(piece: int, side: int) -> char {
    let white = side == 0;
    if piece == 0 {
        if white { 'P' } else { 'p' }
    } else if piece == 1 {
        if white { 'N' } else { 'n' }
    } else if piece == 2 {
        if white { 'B' } else { 'b' }
    } else if piece == 3 {
        if white { 'R' } else { 'r' }
    } else if piece == 4 {
        if white { 'Q' } else { 'q' }
    } else {
        if white { 'K' } else { 'k' }
    }
}

pub trait PieceMethods: Sized {
    spec fn kind(&self) -> int;

    /// The piece and side named by a board letter.
    fn from_char_board(c: char) -> (r: Option<(Piece, Side)>)
        ensures
            r is Some ==> ({
                let (p, sd) = r->0;
                p < 6 && sd.wf() && piece_letter(p as int, sd.0 as int) == c
            }),
            (exists|p: int, s: int| 0 <= p < 6 && 0 <= s < 2 && piece_letter(p, s) == c) ==> r is Some,
    ;

    /// The board letter of the piece for `side`.
    fn to_char_board(&self, side: Side) -> (r: char)
        requires
            0 <= self.kind() < 6,
            side.wf(),
        ensures
            r == piece_letter(self.kind(), side.0 as int),
    ;

    /// The letter of the piece in move notation (none for a pawn).
    fn to_notation(&self) -> (r: &'static str)
        requires
            0 <= self.kind() < 6,
        ensures
            self.kind() == 0 ==> r@ == ""@,
            self.kind() == 1 ==> r@ == "N"@,
            self.kind() == 2 ==> r@ == "B"@,
            self.kind() == 3 ==> r@ == "R"@,
            self.kind() == 4 ==> r@ == "Q"@,
            self.kind() == 5 ==> r@ == "K"@,
    ;
}

impl PieceMethods for Piece {
    open spec fn kind(&self) -> int {
        *self as int
    }

    fn from_char_board(c: char) -> (r: Option<(Piece, Side)>) {
        match c {
            'P' => Some((0, Side(0))),
            'N' => Some((1, Side(0))),
            'B' => Some((2, Side(0))),
            'R' => Some((3, Side(0))),
            'Q' => Some((4, Side(0))),
            'K' => Some((5, Side(0))),
            'p' => Some((0, Side(1))),
            'n' => Some((1, Side(1))),
            'b' => Some((2, Side(1))),
            'r' => Some((3, Side(1))),
            'q' => Some((4, Side(1))),
            'k' => Some((5, Side(1))),
            _ => None,
        }
    }

    fn to_char_board(&self, side: Side) -> (r: char) {
        let white = side.0 == 0;
        match *self {
            0 => if white { 'P' } else { 'p' },
            1 => if white { 'N' } else { 'n' },
            2 => if white { 'B' } else { 'b' },
            3 => if white { 'R' } else { 'r' },
            4 => if white { 'Q' } else { 'q' },
            _ => if white { 'K' } else { 'k' },
        }
    }

    fn to_notation(&self) -> (r: &'static str) {
        proof {
            reveal_strlit("");
            reveal_strlit("N");
            reveal_strlit("B");
            reveal_strlit("R");
            reveal_strlit("Q");
            reveal_strlit("K");
        }
        match *self {
            0 => "",
            1 => "N",
            2 => "B",
            3 => "R",
            4 => "Q",
            _ => "K",
        }
    }
}

/// The squares by name, and `NONE` for no square.
pub trait SquareConstants {
    const A1: Square;
    const B1: Square;
    const C1: Square;
    const D1: Square;
    const E1: Square;
    const F1: Square;
    const G1: Square;
    const H1: Square;
    const A2: Square;
    const B2: Square;
    const C2: Square;
    const D2: Square;
    const E2: Square;
    const F2: Square;
    const G2: Square;
    const H2: Square;
    const A3: Square;
    const B3: Square;
    const C3: Square;
    const D3: Square;
    const E3: Square;
    const F3: Square;
    const G3: Square;
    const H3: Square;
    const A4: Square;
    const B4: Square;
    const C4: Square;
    const D4: Square;
    const E4: Square;
    const F4: Square;
    const G4: Square;
    const H4: Square;
    const A5: Square;
    const B5: Square;
    const C5: Square;
    const D5: Square;
    const E5: Square;
    const F5: Square;
    const G5: Square;
    const H5: Square;
    const A6: Square;
    const B6: Square;
    const C6: Square;
    const D6: Square;
    const E6: Square;
    const F6: Square;
    const G6: Square;
    const H6: Square;
    const A7: Square;
    const B7: Square;
    const C7: Square;
    const D7: Square;
    const E7: Square;
    const F7: Square;
    const G7: Square;
    const H7: Square;
    const A8: Square;
    const B8: Square;
    const C8: Square;
    const D8: Square;
    const E8: Square;
    const F8: Square;
    const G8: Square;
    const H8: Square;
    const NONE: Square;
}

impl SquareConstants for Square {
    const A1: Square = 0;
    const B1: Square = 1;
    const C1: Square = 2;
    const D1: Square = 3;
    const E1: Square = 4;
    const F1: Square = 5;
    const G1: Square = 6;
    const H1: Square = 7;
    const A2: Square = 8;
    const B2: Square = 9;
    const C2: Square = 10;
    const D2: Square = 11;
    const E2: Square = 12;
    const F2: Square = 13;
    const G2: Square = 14;
    const H2: Square = 15;
    const A3: Square = 16;
    const B3: Square = 17;
    const C3: Square = 18;
    const D3: Square = 19;
    const E3: Square = 20;
    const F3: Square = 21;
    const G3: Square = 22;
    const H3: Square = 23;
    const A4: Square = 24;
    const B4: Square = 25;
    const C4: Square = 26;
    const D4: Square = 27;
    const E4: Square = 28;
    const F4: Square = 29;
    const G4: Square = 30;
    const H4: Square = 31;
    const A5: Square = 32;
    const B5: Square = 33;
    const C5: Square = 34;
    const D5: Square = 35;
    const E5: Square = 36;
    const F5: Square = 37;
    const G5: Square = 38;
    const H5: Square = 39;
    const A6: Square = 40;
    const B6: Square = 41;
    const C6: Square = 42;
    const D6: Square = 43;
    const E6: Square = 44;
    const F6: Square = 45;
    const G6: Square = 46;
    const H6: Square = 47;
    const A7: Square = 48;
    const B7: Square = 49;
    const C7: Square = 50;
    const D7: Square = 51;
    const E7: Square = 52;
    const F7: Square = 53;
    const G7: Square = 54;
    const H7: Square = 55;
    const A8: Square = 56;
    const B8: Square = 57;
    const C8: Square = 58;
    const D8: Square = 59;
    const E8: Square = 60;
    const F8: Square = 61;
    const G8: Square = 62;
    const H8: Square = 63;
    const NONE: Square = 64;
}

pub trait SquareMethods: Sized {
    spec fn index(&self) -> int;

    /// The board holding this square alone.
    fn to_bitboard(&self) -> (r: Bitboard)
        requires
            0 <= self.index() < 64,
        ensures
            forall|s: int| #[trigger] sq_in(r, s) == (s == self.index()),
    ;

    fn get_rank(&self) -> (r: usize)
        ensures
            r == rank_of(self.index()),
    ;

    fn get_file(&self) -> (r: usize)
        ensures
            r == file_of(self.index()),
    ;

    fn from_rank_and_file(rank: usize, file: usize) -> (r: Square)
        requires
            on_board(rank as int, file as int),
        ensures
            r == rank * 8 + file,
    ;

    /// The square named in algebraic notation ("e4"), if the text is one.
    fn from_string(square: &str) -> (r: Option<Square>)
        ensures
            r is Some <==> square_text(square@),
            r is Some ==> r->0 == square_of_text(square@),
    ;

    /// The algebraic name of the square.
    fn as_string(&self) -> (r: String)
        requires
            0 <= self.index() < 64,
        ensures
            r@ == square_name(self.index()),
    ;
}

/// Text that names a square: a file letter and a rank digit.
pub open spec fn square_text(t: Seq<char>) -> bool {
    t.len() == 2 && 'a' <= t[0] <= 'h' && '1' <= t[1] <= '8'
}

pub open spec fn square_of_text(t: Seq<char>) -> int {
    (t[1] as int - '1' as int) * 8 + (t[0] as int - 'a' as int)
}

pub open spec fn square_name(s: int) -> Seq<char> {
    seq![(file_of(s) + 'a' as int) as char, (rank_of(s) + '1' as int) as char]
}

fn file_text(f: usize) -> (r: &'static str)
    requires
        f < 8,
    ensures
        r@ == seq![(f + 97) as char],
{
    proof {
        reveal_strlit("a"); reveal_strlit("b"); reveal_strlit("c"); reveal_strlit("d");
        reveal_strlit("e"); reveal_strlit("f"); reveal_strlit("g"); reveal_strlit("h");
    }
    match f {
        0 => "a",
        1 => "b",
        2 => "c",
        3 => "d",
        4 => "e",
        5 => "f",
        6 => "g",
        _ => "h",
    }
}

fn rank_text(r: usize) -> (t: &'static str)
    requires
        r < 8,
    ensures
        t@ == seq![(r + 49) as char],
{
    proof {
        reveal_strlit("1"); reveal_strlit("2"); reveal_strlit("3"); reveal_strlit("4");
        reveal_strlit("5"); reveal_strlit("6"); reveal_strlit("7"); reveal_strlit("8");
    }
    match r {
        0 => "1",
        1 => "2",
        2 => "3",
        3 => "4",
        4 => "5",
        5 => "6",
        6 => "7",
        _ => "8",
    }
}

impl SquareMethods for Square {
    open spec fn index(&self) -> int {
        *self as int
    }

    fn to_bitboard(&self) -> (r: Bitboard) {
        1u64 << *self
    }

    fn get_rank(&self) -> (r: usize) {
        (*self / 8) as usize
    }

    fn get_file(&self) -> (r: usize) {
        (*self % 8) as usize
    }

    fn from_rank_and_file(rank: usize, file: usize) -> (r: Square) {
        (rank * 8 + file) as Square
    }

    fn from_string(square: &str) -> (r: Option<Square>) {
        if square.unicode_len() != 2 {
            return None;
        }
        let f = square.get_char(0);
        let k = square.get_char(1);
        if 'a' <= f && f <= 'h' && '1' <= k && k <= '8' {
            let file = (f as u32 - 'a' as u32) as usize;
            let rank = (k as u32 - '1' as u32) as usize;
            Some((rank * 8 + file) as Square)
        } else {
            None
        }
    }

    fn as_string(&self) -> (r: String) {
        let mut s = String::from_str(file_text(self.get_file()));
        s.append(rank_text(self.get_rank()));
        proof {
            assert(s@ =~= square_name(*self as int));
        }
        s
    }
}

/// Every square, in ascending order.
pub struct Squares;

impl Squares {
    pub fn all() -> (r: Vec<Square>)
        ensures
            r@.len() == 64,
            forall|i: int| 0 <= i < 64 ==> r@[i] == i,
    {
        let mut v: Vec<Square> = Vec::new();
        let mut s: u8 = 0;
        while s < 64
            invariant
                s <= 64,
                v@.len() == s,
                forall|i: int| 0 <= i < s ==> v@[i] == i,
            decreases 64 - s,
        {
            v.push(s);
            s = s + 1;
        }
        v
    }
}

} // verus!
