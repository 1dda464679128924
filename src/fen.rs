use vstd::prelude::*;
use vstd::string::*;
use crate::bits::{sq_in, bit_facts, is_lowest};
use crate::bitboard::{Bitboard, BitboardMethods};
use crate::position::{first_kind, Position, Castling, SidePieces, SidePiecesMethods, union6, one_square, only_square, kind_ok, ZobristHasher, ZobristMoveStack};
use crate::types::{Side, Square, Piece, PieceMethods, SquareMethods, piece_letter, square_name, file_of, rank_of};

verus! {

broadcast use bit_facts;

/// The decimal digits of `n`.
pub open spec fn decimal(n: nat) -> Seq<char>
    decreases n,
{
    if n < 10 {
        seq![(n + 48) as char]
    } else {
        decimal(n / 10) + seq![((n % 10) + 48) as char]
    }
}

fn digit_str(d: u64) -> (r: &'static str)
    requires
        d < 10,
    ensures
        r@ == seq![(d + 48) as char],
{
    proof {
        reveal_strlit("0"); reveal_strlit("1"); reveal_strlit("2"); reveal_strlit("3"); reveal_strlit("4");
        reveal_strlit("5"); reveal_strlit("6"); reveal_strlit("7"); reveal_strlit("8"); reveal_strlit("9");
    }
    match d {
        0 => "0",
        1 => "1",
        2 => "2",
        3 => "3",
        4 => "4",
        5 => "5",
        6 => "6",
        7 => "7",
        8 => "8",
        _ => "9",
    }
}

pub fn push_decimal(s: &mut String, n: u64)
    ensures
        final(s)@ == old(s)@ + decimal(n as nat),
    decreases n,
{
    if n >= 10 {
        push_decimal(s, n / 10);
    }
    s.append(digit_str(n % 10));
    proof {
        assert(final(s)@ =~= old(s)@ + decimal(n as nat));
    }
}

fn letter_str(piece: Piece, side: Side) -> (r: &'static str)
    requires
        piece < 6,
        side.wf(),
    ensures
        r@ == seq![piece_letter(piece as int, side.0 as int)],
{
    proof {
        reveal_strlit("P"); reveal_strlit("N"); reveal_strlit("B"); reveal_strlit("R"); reveal_strlit("Q"); reveal_strlit("K");
        reveal_strlit("p"); reveal_strlit("n"); reveal_strlit("b"); reveal_strlit("r"); reveal_strlit("q"); reveal_strlit("k");
    }
    let white = side.0 == 0;
    match piece {
        0 => if white { "P" } else { "p" },
        1 => if white { "N" } else { "n" },
        2 => if white { "B" } else { "b" },
        3 => if white { "R" } else { "r" },
        4 => if white { "Q" } else { "q" },
        _ => if white { "K" } else { "k" },
    }
}

/// What stands on `s`: the first kind of White that holds it, else the first of Black.
pub open spec fn piece_at_spec(p: Position, s: int) -> Option<(Piece, Side)> {
    match first_kind(p.pieces[0], 1u64 << (s as u64)) {
        Some(k) => Some((k, Side(0))),
        None => match first_kind(p.pieces[1], 1u64 << (s as u64)) {
            Some(k) => Some((k, Side(1))),
            None => None,
        },
    }
}

impl Position {
    /// The piece and side on `square`, if any.
    pub fn piece_at(&self, square: Square) -> (r: Option<(Piece, Side)>)
        requires
            square < 64,
        ensures
            r == piece_at_spec(*self, square as int),
    {
        let bb: u64 = 1u64 << square;
        match self.pieces[0].get_piece_type_at_square(bb) {
            Some(k) => Some((k, Side(0))),
            None => match self.pieces[1].get_piece_type_at_square(bb) {
                Some(k) => Some((k, Side(1))),
                None => None,
            },
        }
    }
}

pub open spec fn run_text(run: nat) -> Seq<char> {
    if run > 0 { decimal(run) } else { Seq::empty() }
}

/// The FEN text of files `file..8` of `rank`, after `run` empty squares still to be written.
pub open spec fn rank_rest(p: Position, rank: int, file: int, run: nat) -> Seq<char>
    decreases 8 - file,
{
    if file >= 8 {
        run_text(run)
    } else {
        match piece_at_spec(p, rank * 8 + file) {
            Some((k, sd)) => run_text(run) + seq![piece_letter(k as int, sd.0 as int)] + rank_rest(p, rank, file + 1, 0),
            None => rank_rest(p, rank, file + 1, run + 1),
        }
    }
}

/// The FEN placement of ranks `rank` down to 1.
pub open spec fn placement_rest(p: Position, rank: int) -> Seq<char>
    decreases rank,
{
    if rank <= 0 {
        rank_rest(p, 0, 0, 0)
    } else {
        rank_rest(p, rank, 0, 0) + seq!['/'] + placement_rest(p, rank - 1)
    }
}

pub open spec fn castling_text(c: Castling) -> Seq<char> {
    if !c.white_king_side && !c.white_queen_side && !c.black_king_side && !c.black_queen_side {
        seq!['-']
    } else {
        (if c.white_king_side { seq!['K'] } else { Seq::empty() }) + (if c.white_queen_side { seq!['Q'] } else { Seq::empty() })
            + (if c.black_king_side { seq!['k'] } else { Seq::empty() }) + (if c.black_queen_side { seq!['q'] } else { Seq::empty() })
    }
}

pub open spec fn ep_text(e: Option<Square>) -> Seq<char> {
    match e {
        Some(s) => square_name(s as int),
        None => seq!['-'],
    }
}

/// The FEN of a position.
pub open spec fn fen_text(p: Position) -> Seq<char> {
    placement_rest(p, 7) + seq![' ', if p.side_to_move.0 == 0 { 'w' } else { 'b' }, ' '] + castling_text(p.castling_rights)
        + seq![' '] + ep_text(p.en_passant_square) + seq![' '] + decimal(p.halfmove_clock as nat) + seq![' ']
        + decimal(p.fullmove_number as nat)
}

fn push_rank(s: &mut String, p: &Position, rank: usize)
    requires
        rank < 8,
    ensures
        final(s)@ == old(s)@ + rank_rest(*p, rank as int, 0, 0),
{
    let ghost start = s@;
    let mut empty: u32 = 0;
    let mut file: usize = 0;
    while file < 8
        invariant
            rank < 8,
            file <= 8,
            empty <= file,
            s@ + rank_rest(*p, rank as int, file as int, empty as nat) == start + rank_rest(*p, rank as int, 0, 0),
        decreases 8 - file,
    {
        let square = (rank * 8 + file) as u8;
        let ghost before = s@;
        let ghost run0 = empty as nat;
        match p.piece_at(square) {
            Some((piece, side)) => {
                if empty > 0 {
                    push_decimal(s, empty as u64);
                    empty = 0;
                }
                s.append(letter_str(piece, side));
                proof {
                    assert(s@ =~= before + run_text(run0) + seq![piece_letter(piece as int, side.0 as int)]);
                    assert(rank_rest(*p, rank as int, file as int, run0) == run_text(run0) + seq![piece_letter(piece as int, side.0 as int)]
                        + rank_rest(*p, rank as int, file as int + 1, 0));
                    assert(s@ + rank_rest(*p, rank as int, file as int + 1, 0) =~= before + rank_rest(*p, rank as int, file as int, run0));
                }
            },
            None => {
                empty = empty + 1;
            },
        }
        file = file + 1;
    }
    if empty > 0 {
        push_decimal(s, empty as u64);
    }
    proof {
        assert(s@ =~= start + rank_rest(*p, rank as int, 0, 0));
    }
}


fn push_placement(s: &mut String, p: &Position, rank: usize)
    requires
        rank < 8,
    ensures
        final(s)@ == old(s)@ + placement_rest(*p, rank as int),
    decreases rank,
{
    push_rank(s, p, rank);
    if rank > 0 {
        proof {
            reveal_strlit("/");
        }
        s.append("/");
        push_placement(s, p, rank - 1);
    }
    proof {
        assert(final(s)@ =~= old(s)@ + placement_rest(*p, rank as int));
    }
}

fn push_castling(s: &mut String, c: Castling)
    ensures
        final(s)@ == old(s)@ + castling_text(c),
{
    proof {
        reveal_strlit("-");
        reveal_strlit("K");
        reveal_strlit("Q");
        reveal_strlit("k");
        reveal_strlit("q");
    }
    if !c.white_king_side && !c.white_queen_side && !c.black_king_side && !c.black_queen_side {
        s.append("-");
    } else {
        let ghost start = s@;
        if c.white_king_side {
            s.append("K");
        }
        let ghost a = s@;
        if c.white_queen_side {
            s.append("Q");
        }
        let ghost b = s@;
        if c.black_king_side {
            s.append("k");
        }
        let ghost d = s@;
        if c.black_queen_side {
            s.append("q");
        }
        proof {
            assert(a =~= start + (if c.white_king_side { seq!['K'] } else { Seq::empty() }));
            assert(b =~= a + (if c.white_queen_side { seq!['Q'] } else { Seq::empty() }));
            assert(d =~= b + (if c.black_king_side { seq!['k'] } else { Seq::empty() }));
            assert(s@ =~= start + castling_text(c));
        }
    }
}

fn push_ep(s: &mut String, e: Option<Square>)
    requires
        e matches Some(x) ==> x < 64,
    ensures
        final(s)@ == old(s)@ + ep_text(e),
{
    proof {
        reveal_strlit("-");
    }
    match e {
        Some(x) => {
            let name = x.as_string();
            s.append(name.as_str());
        },
        None => {
            s.append("-");
        },
    }
}

impl Position {
    /// The position in Forsyth-Edwards notation.
    pub fn to_fen(&self) -> (r: String)
        requires
            self.side_to_move.wf(),
            self.en_passant_square matches Some(e) ==> e < 64,
        ensures
            r@ == fen_text(*self),
    {
        proof {
            reveal_strlit("");
            reveal_strlit(" w ");
            reveal_strlit(" b ");
            reveal_strlit(" ");
        }
        let mut s = String::from_str("");
        push_placement(&mut s, self, 7);
        if self.side_to_move.0 == 0 {
            s.append(" w ");
        } else {
            s.append(" b ");
        }
        push_castling(&mut s, self.castling_rights);
        s.append(" ");
        push_ep(&mut s, self.en_passant_square);
        s.append(" ");
        push_decimal(&mut s, self.halfmove_clock as u64);
        s.append(" ");
        push_decimal(&mut s, self.fullmove_number as u64);
        proof {
            assert(s@ =~= fen_text(*self));
        }
        s
    }
}


fn disjoint_boards(b: &SidePieces) -> (r: bool)
    ensures
        r == forall|i: int, j: int| 0 <= i < j < 6 ==> #[trigger] b[i] & #[trigger] b[j] == 0,
{
    let mut i: usize = 0;
    while i < 6
        invariant
            i <= 6,
            forall|x: int, y: int| 0 <= x < i && x < y < 6 ==> #[trigger] b[x] & #[trigger] b[y] == 0,
        decreases 6 - i,
    {
        let mut j: usize = i + 1;
        while j < 6
            invariant
                i < 6,
                i + 1 <= j <= 6,
                forall|x: int, y: int| 0 <= x < i && x < y < 6 ==> #[trigger] b[x] & #[trigger] b[y] == 0,
                forall|y: int| i < y < j ==> b[i as int] & #[trigger] b[y] == 0,
            decreases 6 - j,
        {
            if b[i] & b[j] != 0 {
                return false;
            }
            j = j + 1;
        }
        i = i + 1;
    }
    true
}

fn single_square(b: Bitboard) -> (r: bool)
    ensures
        r == one_square(b),
{
    proof {
        if one_square(b) {
            let k = choose|k: int| #[trigger] only_square(b, k);
            crate::bits::lemma_same_squares(b, 1u64 << (k as u64));
            assert(b != 0);
            assert(is_lowest(b, k));
        }
    }
    let t = b.to_square();
    if t >= 64 {
        return false;
    }
    if b != 1u64 << t {
        return false;
    }
    proof {
        assert(only_square(b, t as int));
    }
    true
}

/// The boards of a consistent position do not overlap as numbers either.
proof fn lemma_wf_disjoint(p: Position)
    requires
        p.wf(),
    ensures
        forall|s: int, i: int, j: int| 0 <= s < 2 && 0 <= i < j < 6 ==> #[trigger] p.pieces[s][i] & #[trigger] p.pieces[s][j] == 0,
        union6(p.pieces[0]) & union6(p.pieces[1]) == 0,
{
    assert forall|s: int, i: int, j: int| 0 <= s < 2 && 0 <= i < j < 6 implies #[trigger] p.pieces[s][i] & #[trigger] p.pieces[s][j] == 0 by {
        assert forall|t: int| 0 <= t < 64 implies sq_in(p.pieces[s][i] & p.pieces[s][j], t) == sq_in(0u64, t) by {
            if sq_in(p.pieces[s][i] & p.pieces[s][j], t) {
                assert(p.owns(s, i, t) && p.owns(s, j, t));
            }
        }
        crate::bits::lemma_same_squares(p.pieces[s][i] & p.pieces[s][j], 0u64);
    }
    let w = union6(p.pieces[0]);
    let b = union6(p.pieces[1]);
    assert forall|t: int| 0 <= t < 64 implies sq_in(w & b, t) == sq_in(0u64, t) by {
        if sq_in(w & b, t) {
            let x = p.pieces[0];
            let y = p.pieces[1];
            let i = if sq_in(x[0], t) { 0int } else if sq_in(x[1], t) { 1 } else if sq_in(x[2], t) { 2 } else if sq_in(x[3], t) { 3 } else if sq_in(x[4], t) { 4 } else { 5 };
            let j = if sq_in(y[0], t) { 0int } else if sq_in(y[1], t) { 1 } else if sq_in(y[2], t) { 2 } else if sq_in(y[3], t) { 3 } else if sq_in(y[4], t) { 4 } else { 5 };
            assert(p.owns(0, i, t) && p.owns(1, j, t));
        }
    }
    crate::bits::lemma_same_squares(w & b, 0u64);
}

impl Position {
    /// The boards pass the consistency rules: kinds and sides do not overlap, each side has
    /// exactly one king.
    pub fn is_consistent(&self) -> (r: bool)
        requires
            self.side_to_move.wf(),
            self.zobrist_stack.wf(),
            self.en_passant_square matches Some(e) ==> e < 64,
        ensures
            r == self.wf(),
    {
        let white = self.pieces[0];
        proof {
            if self.wf() {
                lemma_wf_disjoint(*self);
            }
        }
        let black = self.pieces[1];
        if !disjoint_boards(&white) || !disjoint_boards(&black) {
            return false;
        }
        if white.occupancy() & black.occupancy() != 0 {
            return false;
        }
        if !single_square(white[5]) || !single_square(black[5]) {
            return false;
        }
        proof {
            assert forall|s: int, i: int, j: int, t: int|
                #![trigger self.owns(s, i, t), self.owns(s, j, t)]
                self.owns(s, i, t) && self.owns(s, j, t) implies i == j by {
                if i < j {
                    assert(sq_in(self.pieces[s][i] & self.pieces[s][j], t));
                } else if j < i {
                    assert(sq_in(self.pieces[s][j] & self.pieces[s][i], t));
                }
            }
            assert forall|i: int, j: int, t: int|
                #![trigger self.owns(0, i, t), self.owns(1, j, t)]
                !(self.owns(0, i, t) && self.owns(1, j, t)) by {
                if self.owns(0, i, t) && self.owns(1, j, t) {
                    assert(i == 0 || i == 1 || i == 2 || i == 3 || i == 4 || i == 5);
                    assert(j == 0 || j == 1 || j == 2 || j == 3 || j == 4 || j == 5);
                    assert(sq_in(union6(white), t));
                    assert(sq_in(union6(black), t));
                    assert(sq_in(union6(white) & union6(black), t));
                }
            }
        }
        true
    }
}

fn digit_of(c: char) -> (r: Option<u32>)
    ensures
        r matches Some(d) ==> d < 10 && c == (d + 48) as char,
        r is None ==> !('0' <= c <= '9'),
{
    if '0' <= c && c <= '9' {
        Some((c as u32) - ('0' as u32))
    } else {
        None
    }
}

/// The value of a string of decimal digits.
pub open spec fn digits_value(s: Seq<char>) -> int
    decreases s.len(),
{
    if s.len() == 0 {
        0
    } else {
        digits_value(s.drop_last()) * 10 + (s.last() as int - 48)
    }
}

pub open spec fn all_digits(s: Seq<char>) -> bool {
    forall|i: int| 0 <= i < s.len() ==> '0' <= #[trigger] s[i] <= '9'
}

proof fn lemma_digits_prefix(s: Seq<char>, j: int)
    requires
        all_digits(s),
        0 <= j <= s.len(),
    ensures
        0 <= digits_value(s.subrange(0, j)) <= digits_value(s),
    decreases s.len(),
{
    if s.len() > 0 {
        let t = s.drop_last();
        assert(all_digits(t));
        if j == s.len() {
            assert(s.subrange(0, j) =~= s);
            lemma_digits_prefix(t, j - 1);
            assert(t.subrange(0, j - 1) =~= t);
        } else {
            lemma_digits_prefix(t, j);
            assert(t.subrange(0, j) =~= s.subrange(0, j));
            lemma_digits_prefix(t, t.len() as int);
            assert(t.subrange(0, t.len() as int) =~= t);
        }
    }
}

/// Reads the decimal number that starts at `i` and ends at `end`.
fn parse_number(chars: &Vec<char>, i: usize, end: usize) -> (r: Option<u32>)
    requires
        i <= end <= chars@.len(),
    ensures
        ({
            let s = chars@.subrange(i as int, end as int);
            s.len() > 0 && all_digits(s) && digits_value(s) <= u32::MAX ==> r == Some(digits_value(s) as u32)
        }),
{
    let ghost s = chars@.subrange(i as int, end as int);
    if i == end {
        return None;
    }
    let mut value: u32 = 0;
    let mut k = i;
    while k < end
        invariant
            i <= k <= end <= chars@.len(),
            s == chars@.subrange(i as int, end as int),
            value == digits_value(chars@.subrange(i as int, k as int)),
        decreases end - k,
    {
        proof {
            assert(chars@.subrange(i as int, k as int + 1).drop_last() =~= chars@.subrange(i as int, k as int));
        }
        match digit_of(chars[k]) {
            Some(d) => {
                if value > (u32::MAX - d) / 10 {
                    proof {
                        if s.len() > 0 && all_digits(s) && digits_value(s) <= u32::MAX {
                            lemma_digits_prefix(s, k - i + 1);
                            assert(s.subrange(0, k - i + 1) =~= chars@.subrange(i as int, k as int + 1));
                        }
                    }
                    return None;
                }
                value = value * 10 + d;
            },
            None => {
                proof {
                    assert(s[k - i] == chars@[k as int]);
                }
                return None;
            },
        }
        k = k + 1;
    }
    proof {
        assert(s =~= chars@.subrange(i as int, k as int));
    }
    Some(value)
}

/// Where the field that starts at `i` ends: the next space, or the end of the text.
fn field_end(chars: &Vec<char>, i: usize) -> (r: usize)
    requires
        i <= chars@.len(),
    ensures
        i <= r <= chars@.len(),
        r < chars@.len() ==> chars@[r as int] == ' ',
        forall|j: int| i <= j < r ==> chars@[j] != ' ',
{
    let mut k = i;
    while k < chars.len() && chars[k] != ' '
        invariant
            i <= k <= chars@.len(),
            forall|j: int| i <= j < k ==> chars@[j] != ' ',
        decreases chars@.len() - k,
    {
        k = k + 1;
    }
    k
}


/// The piece kind and side that a board letter names.
pub open spec fn letter_piece(c: char) -> Option<(int, int)> {
    if c == 'P' {
        Some((0, 0))
    } else if c == 'N' {
        Some((1, 0))
    } else if c == 'B' {
        Some((2, 0))
    } else if c == 'R' {
        Some((3, 0))
    } else if c == 'Q' {
        Some((4, 0))
    } else if c == 'K' {
        Some((5, 0))
    } else if c == 'p' {
        Some((0, 1))
    } else if c == 'n' {
        Some((1, 1))
    } else if c == 'b' {
        Some((2, 1))
    } else if c == 'r' {
        Some((3, 1))
    } else if c == 'q' {
        Some((4, 1))
    } else if c == 'k' {
        Some((5, 1))
    } else {
        None
    }
}

/// The state of reading a placement field: still well formed, the rank and file reached,
/// and White's and Black's boards so far.
pub type PlaceState = (bool, int, int, Seq<u64>, Seq<u64>);

pub open spec fn place_start() -> PlaceState {
    (true, 7, 0, Seq::new(6, |i: int| 0u64), Seq::new(6, |i: int| 0u64))
}

/// Reading one character of a placement field.
pub open spec fn place_step(st: PlaceState, c: char) -> PlaceState {
    let (ok, rank, file, w, b) = st;
    if !ok {
        st
    } else if '1' <= c <= '8' {
        let run = c as int - 48;
        if file + run > 8 { (false, rank, file, w, b) } else { (true, rank, file + run, w, b) }
    } else if c == '/' {
        if file != 8 || rank == 0 { (false, rank, file, w, b) } else { (true, rank - 1, 0, w, b) }
    } else {
        match letter_piece(c) {
            Some((k, sd)) => if file >= 8 {
                (false, rank, file, w, b)
            } else {
                let bit = 1u64 << ((rank * 8 + file) as u64);
                if sd == 0 {
                    (true, rank, file + 1, w.update(k, w[k] | bit), b)
                } else {
                    (true, rank, file + 1, w, b.update(k, b[k] | bit))
                }
            },
            None => (false, rank, file, w, b),
        }
    }
}

/// Reading a whole placement text from `st`.
pub open spec fn place_fold(st: PlaceState, s: Seq<char>) -> PlaceState
    decreases s.len(),
{
    if s.len() == 0 {
        st
    } else {
        place_fold(place_step(st, s[0]), s.subrange(1, s.len() as int))
    }
}

proof fn lemma_fold_failed(st: PlaceState, s: Seq<char>)
    requires
        !st.0,
    ensures
        place_fold(st, s) == st,
    decreases s.len(),
{
    if s.len() > 0 {
        lemma_fold_failed(place_step(st, s[0]), s.subrange(1, s.len() as int));
    }
}

proof fn lemma_letter_piece(c: char, p: usize, sd: Side)
    requires
        p < 6,
        sd.wf(),
        piece_letter(p as int, sd.0 as int) == c,
    ensures
        letter_piece(c) == Some((p as int, sd.0 as int)),
{
}

/// The board placement field: `Some` of White's and Black's boards when it names eight ranks
/// of eight squares each.
fn parse_placement(chars: &Vec<char>, end: usize) -> (r: Option<(SidePieces, SidePieces)>)
    requires
        end <= chars@.len(),
    ensures
        ({
            let f = place_fold(place_start(), chars@.subrange(0, end as int));
            &&& r is Some <==> (f.0 && f.1 == 0 && f.2 == 8)
            &&& r matches Some((w, b)) ==> w@ == f.3 && b@ == f.4
        }),
{
    let mut white: SidePieces = [0u64; 6];
    let mut black: SidePieces = [0u64; 6];
    let mut rank: usize = 7;
    let mut file: usize = 0;
    let mut i: usize = 0;
    let ghost text = chars@.subrange(0, end as int);
    proof {
        assert(white@ =~= place_start().3);
        assert(black@ =~= place_start().4);
        assert(text.subrange(0, text.len() as int) =~= text);
    }
    while i < end
        invariant
            end <= chars@.len(),
            text == chars@.subrange(0, end as int),
            i <= end,
            rank < 8,
            file <= 8,
            white@.len() == 6,
            black@.len() == 6,
            place_fold(place_start(), text) == place_fold((true, rank as int, file as int, white@, black@), chars@.subrange(i as int, end as int)),
        decreases end - i,
    {
        let c = chars[i];
        let ghost st: PlaceState = (true, rank as int, file as int, white@, black@);
        let ghost rest = chars@.subrange(i as int, end as int);
        proof {
            assert(rest[0] == c);
            assert(rest.subrange(1, rest.len() as int) =~= chars@.subrange(i as int + 1, end as int));
            assert(place_fold(st, rest) == place_fold(place_step(st, c), chars@.subrange(i as int + 1, end as int)));
        }
        if '1' <= c && c <= '8' {
            let run = ((c as u32) - ('0' as u32)) as usize;
            if file + run > 8 {
                proof {
                    lemma_fold_failed(place_step(st, c), chars@.subrange(i as int + 1, end as int));
                }
                return None;
            }
            file = file + run;
        } else if c == '/' {
            if file != 8 || rank == 0 {
                proof {
                    lemma_fold_failed(place_step(st, c), chars@.subrange(i as int + 1, end as int));
                }
                return None;
            }
            rank = rank - 1;
            file = 0;
        } else {
            match Piece::from_char_board(c) {
                Some((kind, side)) => {
                    proof {
                        lemma_letter_piece(c, kind, side);
                    }
                    if file >= 8 {
                        proof {
                            lemma_fold_failed(place_step(st, c), chars@.subrange(i as int + 1, end as int));
                        }
                        return None;
                    }
                    let bit: u64 = 1u64 << ((rank * 8 + file) as u64);
                    if side.0 == 0 {
                        white[kind] = white[kind] | bit;
                    } else {
                        black[kind] = black[kind] | bit;
                    }
                    file = file + 1;
                },
                None => {
                    proof {
                        if letter_piece(c) is Some {
                            let (k, sd) = letter_piece(c)->0;
                            assert(piece_letter(k, sd) == c);
                        }
                        lemma_fold_failed(place_step(st, c), chars@.subrange(i as int + 1, end as int));
                    }
                    return None;
                },
            }
        }
        proof {
            assert(place_step(st, c) == (true, rank as int, file as int, white@, black@));
        }
        i = i + 1;
    }
    proof {
        assert(chars@.subrange(i as int, end as int).len() == 0);
    }
    if rank != 0 || file != 8 {
        return None;
    }
    Some((white, black))
}

/// Reading one letter of a castling field.
pub open spec fn castle_step(c: Option<Castling>, ch: char) -> Option<Castling> {
    match c {
        None => None,
        Some(x) => if ch == 'K' {
            Some(Castling { white_king_side: true, ..x })
        } else if ch == 'Q' {
            Some(Castling { white_queen_side: true, ..x })
        } else if ch == 'k' {
            Some(Castling { black_king_side: true, ..x })
        } else if ch == 'q' {
            Some(Castling { black_queen_side: true, ..x })
        } else {
            None
        },
    }
}

pub open spec fn castle_fold(c: Option<Castling>, s: Seq<char>) -> Option<Castling>
    decreases s.len(),
{
    if s.len() == 0 {
        c
    } else {
        castle_fold(castle_step(c, s[0]), s.subrange(1, s.len() as int))
    }
}

/// What a castling field reads as: `-` for no rights, else each letter grants its right.
pub open spec fn castling_of(text: Seq<char>) -> Option<Castling> {
    if text.len() == 0 {
        None
    } else if text == seq!['-'] {
        Some(Castling::spec_none())
    } else {
        castle_fold(Some(Castling::spec_none()), text)
    }
}

/// The castling field: `-` or letters of `KQkq`.
fn parse_castling(chars: &Vec<char>, i: usize, end: usize) -> (r: Option<Castling>)
    requires
        i <= end <= chars@.len(),
    ensures
        r == castling_of(chars@.subrange(i as int, end as int)),
{
    let ghost text = chars@.subrange(i as int, end as int);
    if i == end {
        return None;
    }
    let mut c = Castling::new();
    if end - i == 1 && chars[i] == '-' {
        proof {
            assert(text =~= seq!['-']);
        }
        return Some(c);
    }
    proof {
        if text == seq!['-'] {
            assert(text[0] == chars@[i as int]);
        }
    }
    let mut k = i;
    while k < end
        invariant
            i <= k <= end <= chars@.len(),
            text == chars@.subrange(i as int, end as int),
            text.len() > 0,
            text != seq!['-'],
            castle_fold(Some(Castling::spec_none()), text) == castle_fold(Some(c), chars@.subrange(k as int, end as int)),
        decreases end - k,
    {
        let x = chars[k];
        let ghost rest = chars@.subrange(k as int, end as int);
        let ghost before = c;
        proof {
            assert(rest[0] == x);
            assert(rest.subrange(1, rest.len() as int) =~= chars@.subrange(k as int + 1, end as int));
        }
        if x == 'K' {
            c.white_king_side = true;
        } else if x == 'Q' {
            c.white_queen_side = true;
        } else if x == 'k' {
            c.black_king_side = true;
        } else if x == 'q' {
            c.black_queen_side = true;
        } else {
            proof {
                assert(castle_fold(Some(c), rest) == castle_fold(castle_step(Some(c), rest[0]), rest.subrange(1, rest.len() as int)));
                assert(castle_step(Some(c), x) is None);
                lemma_castle_fold_none(chars@.subrange(k as int + 1, end as int));
            }
            return None;
        }
        proof {
            assert(castle_step(Some(before), x) == Some(c));
        }
        k = k + 1;
    }
    proof {
        assert(chars@.subrange(k as int, end as int) =~= Seq::<char>::empty());
    }
    Some(c)
}

proof fn lemma_castle_fold_none(s: Seq<char>)
    ensures
        castle_fold(None, s) is None,
    decreases s.len(),
{
    if s.len() > 0 {
        lemma_castle_fold_none(s.subrange(1, s.len() as int));
    }
}

proof fn lemma_castle_fold_concat(c: Option<Castling>, a: Seq<char>, b: Seq<char>)
    ensures
        castle_fold(c, a + b) == castle_fold(castle_fold(c, a), b),
    decreases a.len(),
{
    if a.len() > 0 {
        assert((a + b)[0] == a[0]);
        assert((a + b).subrange(1, (a + b).len() as int) =~= a.subrange(1, a.len() as int) + b);
        lemma_castle_fold_concat(castle_step(c, a[0]), a.subrange(1, a.len() as int), b);
    } else {
        assert(a + b =~= b);
    }
}

proof fn lemma_castle_fold_opt(c: Castling, flag: bool, ch: char)
    ensures
        castle_fold(Some(c), if flag { seq![ch] } else { Seq::empty() }) == if flag { castle_step(Some(c), ch) } else { Some(c) },
{
    if flag {
        let one = seq![ch];
        assert(one.subrange(1, 1) =~= Seq::<char>::empty());
        assert(castle_fold(Some(c), one) == castle_fold(castle_step(Some(c), one[0]), one.subrange(1, 1)));
    }
}

/// The castling field that `to_fen` writes reads back as the rights.
pub proof fn lemma_castling_round_trip(c0: Castling)
    ensures
        castling_of(castling_text(c0)) == Some(c0),
{
    if !c0.white_king_side && !c0.white_queen_side && !c0.black_king_side && !c0.black_queen_side {
    } else {
        let a: Seq<char> = if c0.white_king_side { seq!['K'] } else { Seq::empty() };
        let b: Seq<char> = if c0.white_queen_side { seq!['Q'] } else { Seq::empty() };
        let c: Seq<char> = if c0.black_king_side { seq!['k'] } else { Seq::empty() };
        let d: Seq<char> = if c0.black_queen_side { seq!['q'] } else { Seq::empty() };
        let none = Castling::spec_none();
        assert(castling_text(c0) == a + b + c + d);
        lemma_castle_fold_concat(Some(none), a + b + c, d);
        lemma_castle_fold_concat(Some(none), a + b, c);
        lemma_castle_fold_concat(Some(none), a, b);
        lemma_castle_fold_opt(none, c0.white_king_side, 'K');
        let s1 = Castling { white_king_side: c0.white_king_side, ..none };
        lemma_castle_fold_opt(s1, c0.white_queen_side, 'Q');
        let s2 = Castling { white_queen_side: c0.white_queen_side, ..s1 };
        lemma_castle_fold_opt(s2, c0.black_king_side, 'k');
        let s3 = Castling { black_king_side: c0.black_king_side, ..s2 };
        lemma_castle_fold_opt(s3, c0.black_queen_side, 'q');
        let s4 = Castling { black_queen_side: c0.black_queen_side, ..s3 };
        assert(s4 == c0);
        assert((a + b + c + d).len() > 0);
        if a + b + c + d == seq!['-'] {
            assert((a + b + c + d)[0] != '-');
        }
    }
}

/// What an en-passant field reads as: `-` for none, or a square of the third or sixth rank.
pub open spec fn ep_of(text: Seq<char>) -> Option<Option<Square>> {
    if text == seq!['-'] {
        Some(None)
    } else if text.len() == 2 && 'a' <= text[0] <= 'h' && (text[1] == '3' || text[1] == '6') {
        Some(Some(((text[1] as int - '1' as int) * 8 + (text[0] as int - 'a' as int)) as u8))
    } else {
        None
    }
}

/// The en-passant field: `-`, or a square of the third or sixth rank.
fn parse_en_passant(chars: &Vec<char>, i: usize, end: usize) -> (r: Option<Option<Square>>)
    requires
        i <= end <= chars@.len(),
    ensures
        r matches Some(Some(e)) ==> e < 64,
        r == ep_of(chars@.subrange(i as int, end as int)),
{
    let ghost text = chars@.subrange(i as int, end as int);
    if end - i == 1 && chars[i] == '-' {
        proof {
            assert(text =~= seq!['-']);
        }
        return Some(None);
    }
    proof {
        if text == seq!['-'] {
            assert(text.len() == 1);
            assert(end - i == 1);
            assert(text[0] == chars@[i as int]);
        }
    }
    if end - i != 2 {
        return None;
    }
    let f = chars[i];
    let k = chars[i + 1];
    if 'a' <= f && f <= 'h' && (k == '3' || k == '6') {
        let file = (f as u32) - ('a' as u32);
        let rank = (k as u32) - ('1' as u32);
        Some(Some((rank * 8 + file) as u8))
    } else {
        None
    }
}

/// The en-passant square, when set, is on the third or sixth rank.
pub open spec fn ep_rank_ok(e: Option<Square>) -> bool {
    e matches Some(s) ==> (s < 64 && (rank_of(s as int) == 2 || rank_of(s as int) == 5))
}

/// The en-passant field that `to_fen` writes reads back as the square.
pub proof fn lemma_ep_round_trip(e: Option<Square>)
    requires
        ep_rank_ok(e),
    ensures
        ep_of(ep_text(e)) == Some(e),
{
    match e {
        Some(s) => {
            let t = ep_text(e);
            assert(t.len() == 2);
            assert(t[0] as int == file_of(s as int) + 'a' as int);
            assert(t[1] as int == rank_of(s as int) + '1' as int);
            if t == seq!['-'] {
                assert(t.len() == 1);
            }
        },
        None => {},
    }
}

/// The decimal digits of `n` read back as `n`.
pub proof fn lemma_decimal_digits(n: nat)
    ensures
        all_digits(decimal(n)),
        decimal(n).len() > 0,
        digits_value(decimal(n)) == n,
    decreases n,
{
    let d = decimal(n);
    if n >= 10 {
        lemma_decimal_digits(n / 10);
        assert(d.drop_last() =~= decimal(n / 10));
        assert(d.last() as int == n % 10 + 48);
        assert((n / 10) * 10 + n % 10 == n);
        assert(digits_value(d) == digits_value(d.drop_last()) * 10 + (d.last() as int - 48));
    } else {
        assert(d.last() as int == n + 48);
        assert(d.drop_last() =~= Seq::<char>::empty());
        assert(digits_value(d) == digits_value(d.drop_last()) * 10 + (d.last() as int - 48));
    }
}

/// The text holds no space.
pub open spec fn no_space(s: Seq<char>) -> bool {
    forall|i: int| 0 <= i < s.len() ==> #[trigger] s[i] != ' '
}

proof fn lemma_no_space_concat(a: Seq<char>, b: Seq<char>)
    requires
        no_space(a),
        no_space(b),
    ensures
        no_space(a + b),
{
    assert forall|i: int| 0 <= i < (a + b).len() implies #[trigger] (a + b)[i] != ' ' by {
        if i < a.len() {
            assert((a + b)[i] == a[i]);
        } else {
            assert((a + b)[i] == b[i - a.len()]);
        }
    }
}

proof fn lemma_run_no_space(run: nat)
    ensures
        no_space(run_text(run)),
{
    if run > 0 {
        lemma_decimal_digits(run);
    }
}

proof fn lemma_rank_no_space(p: Position, r: int, f: int, run: nat)
    ensures
        no_space(rank_rest(p, r, f, run)),
    decreases 8 - f,
{
    lemma_run_no_space(run);
    if f < 8 {
        match piece_at_spec(p, r * 8 + f) {
            Some((k, sd)) => {
                lemma_rank_no_space(p, r, f + 1, 0);
                let letter = seq![piece_letter(k as int, sd.0 as int)];
                assert(no_space(letter));
                lemma_no_space_concat(run_text(run), letter);
                lemma_no_space_concat(run_text(run) + letter, rank_rest(p, r, f + 1, 0));
            },
            None => {
                lemma_rank_no_space(p, r, f + 1, run + 1);
            },
        }
    }
}

proof fn lemma_placement_no_space(p: Position, r: int)
    ensures
        no_space(placement_rest(p, r)),
    decreases r,
{
    if r <= 0 {
        lemma_rank_no_space(p, 0, 0, 0);
    } else {
        lemma_rank_no_space(p, r, 0, 0);
        lemma_placement_no_space(p, r - 1);
        lemma_no_space_concat(rank_rest(p, r, 0, 0), seq!['/']);
        lemma_no_space_concat(rank_rest(p, r, 0, 0) + seq!['/'], placement_rest(p, r - 1));
    }
}

proof fn lemma_fields_no_space(p: Position)
    ensures
        no_space(castling_text(p.castling_rights)),
        no_space(ep_text(p.en_passant_square)),
        no_space(decimal(p.halfmove_clock as nat)),
        no_space(decimal(p.fullmove_number as nat)),
{
    lemma_decimal_digits(p.halfmove_clock as nat);
    lemma_decimal_digits(p.fullmove_number as nat);
    let c = p.castling_rights;
    let a: Seq<char> = if c.white_king_side { seq!['K'] } else { Seq::empty() };
    let b: Seq<char> = if c.white_queen_side { seq!['Q'] } else { Seq::empty() };
    let d: Seq<char> = if c.black_king_side { seq!['k'] } else { Seq::empty() };
    let e: Seq<char> = if c.black_queen_side { seq!['q'] } else { Seq::empty() };
    lemma_no_space_concat(a, b);
    lemma_no_space_concat(a + b, d);
    lemma_no_space_concat(a + b + d, e);
    match p.en_passant_square {
        Some(s) => {
            let t = ep_text(p.en_passant_square);
            assert(t.len() == 2);
            assert(no_space(t));
        },
        None => {},
    }
}

/// `t` is read before file `file` of rank `rank` in a placement field.
pub open spec fn before_sq(rank: int, file: int, t: int) -> bool {
    0 <= t < 64 && (rank_of(t) > rank || (rank_of(t) == rank && file_of(t) < file))
}

/// The boards read so far are those of `p` on the squares read so far.
pub open spec fn agrees(st: PlaceState, p: Position, rank: int, file: int) -> bool {
    &&& st.0 && st.1 == rank && st.2 == file
    &&& st.3.len() == 6 && st.4.len() == 6
    &&& forall|k: int, t: int| 0 <= k < 6 ==> (#[trigger] sq_in(st.3[k], t) == (before_sq(rank, file, t) && p.owns(0, k, t)))
    &&& forall|k: int, t: int| 0 <= k < 6 ==> (#[trigger] sq_in(st.4[k], t) == (before_sq(rank, file, t) && p.owns(1, k, t)))
}

proof fn lemma_fold_concat(st: PlaceState, a: Seq<char>, b: Seq<char>)
    ensures
        place_fold(st, a + b) == place_fold(place_fold(st, a), b),
    decreases a.len(),
{
    if a.len() > 0 {
        assert((a + b)[0] == a[0]);
        assert((a + b).subrange(1, (a + b).len() as int) =~= a.subrange(1, a.len() as int) + b);
        lemma_fold_concat(place_step(st, a[0]), a.subrange(1, a.len() as int), b);
    } else {
        assert(a + b =~= b);
    }
}

proof fn lemma_fold_one(st: PlaceState, c: char)
    ensures
        place_fold(st, seq![c]) == place_step(st, c),
{
    let one = seq![c];
    assert(one[0] == c);
    assert(one.subrange(1, 1) =~= Seq::<char>::empty());
    assert(place_fold(place_step(st, c), Seq::<char>::empty()) == place_step(st, c));
    assert(place_fold(st, one) == place_fold(place_step(st, one[0]), one.subrange(1, one.len() as int)));
}

/// What stands on a square of a consistent position, as its owns.
proof fn lemma_piece_at_owns(p: Position, t: int)
    requires
        p.wf(),
        0 <= t < 64,
    ensures
        piece_at_spec(p, t) matches Some((k, sd)) ==> k < 6 && sd.wf() && p.owns(sd.0 as int, k as int, t)
            && forall|s2: int, k2: int| #[trigger] p.owns(s2, k2, t) ==> s2 == sd.0 && k2 == k,
        piece_at_spec(p, t) is None ==> forall|s2: int, k2: int| !#[trigger] p.owns(s2, k2, t),
{
    crate::position::lemma_first_kind(p.pieces[0], t);
    crate::position::lemma_first_kind(p.pieces[1], t);
    if piece_at_spec(p, t) is Some {
        let (k, sd) = piece_at_spec(p, t)->0;
        assert(p.owns(sd.0 as int, k as int, t));
        assert forall|s2: int, k2: int| #[trigger] p.owns(s2, k2, t) implies s2 == sd.0 && k2 == k by {
            if s2 != sd.0 {
                if s2 == 0 {
                    assert(p.owns(0, k2, t) && p.owns(1, k as int, t));
                } else {
                    assert(p.owns(0, k as int, t) && p.owns(1, k2, t));
                }
            }
        }
    } else {
        assert forall|s2: int, k2: int| !#[trigger] p.owns(s2, k2, t) by {
            if p.owns(s2, k2, t) {
                assert(sq_in(p.pieces[s2][k2], t));
            }
        }
    }
}

/// Reading the run of empty squares before file `file`.
proof fn lemma_run(p: Position, st: PlaceState, r: int, f: int, run: nat)
    requires
        p.wf(),
        0 <= r < 8,
        run <= f <= 8,
        agrees(st, p, r, f - run),
        forall|j: int| f - run <= j < f ==> #[trigger] piece_at_spec(p, r * 8 + j) is None,
    ensures
        agrees(place_fold(st, run_text(run)), p, r, f),
{
    if run == 0 {
        assert(run_text(run) =~= Seq::<char>::empty());
    } else {
        let c = ((run + 48) as int) as char;
        assert(run_text(run) == seq![c]);
        lemma_fold_one(st, c);
        assert(c as int == run + 48);
        let st2 = place_step(st, c);
        assert(st2 == (true, r, f, st.3, st.4));
        assert forall|k: int, t: int| 0 <= k < 6 implies (#[trigger] sq_in(st2.3[k], t) == (before_sq(r, f, t) && p.owns(0, k, t))) by {
            if before_sq(r, f, t) && !before_sq(r, f - run, t) {
                let j = file_of(t);
                assert(t == r * 8 + j);
                assert(piece_at_spec(p, r * 8 + j) is None);
                lemma_piece_at_owns(p, t);
            }
        }
        assert forall|k: int, t: int| 0 <= k < 6 implies (#[trigger] sq_in(st2.4[k], t) == (before_sq(r, f, t) && p.owns(1, k, t))) by {
            if before_sq(r, f, t) && !before_sq(r, f - run, t) {
                let j = file_of(t);
                assert(t == r * 8 + j);
                assert(piece_at_spec(p, r * 8 + j) is None);
                lemma_piece_at_owns(p, t);
            }
        }
    }
}

/// Reading the letter of the piece on file `f`.
proof fn lemma_letter(p: Position, st: PlaceState, r: int, f: int)
    requires
        p.wf(),
        0 <= r < 8,
        0 <= f < 8,
        agrees(st, p, r, f),
        piece_at_spec(p, r * 8 + f) is Some,
    ensures
        ({
            let (k, sd) = piece_at_spec(p, r * 8 + f)->0;
            agrees(place_step(st, piece_letter(k as int, sd.0 as int)), p, r, f + 1)
        }),
{
    let t0 = r * 8 + f;
    lemma_piece_at_owns(p, t0);
    let (k, sd) = piece_at_spec(p, t0)->0;
    lemma_letter_piece(piece_letter(k as int, sd.0 as int), k, sd);
    let bit = 1u64 << (t0 as u64);
    crate::bits::lemma_sq_in_single(t0 as u64, 0);
    assert forall|t: int| #[trigger] sq_in(bit, t) == (t == t0) by {
        crate::bits::lemma_sq_in_single(t0 as u64, t);
    }
    let st2 = place_step(st, piece_letter(k as int, sd.0 as int));
    assert(rank_of(t0) == r && file_of(t0) == f);
    assert forall|k2: int, t: int| 0 <= k2 < 6 implies (#[trigger] sq_in(st2.3[k2], t) == (before_sq(r, f + 1, t) && p.owns(0, k2, t))) by {
        if t == t0 {
            if p.owns(0, k2, t) {
                assert(sd.0 == 0 && k2 == k);
            }
        }
    }
    assert forall|k2: int, t: int| 0 <= k2 < 6 implies (#[trigger] sq_in(st2.4[k2], t) == (before_sq(r, f + 1, t) && p.owns(1, k2, t))) by {
        if t == t0 {
            if p.owns(1, k2, t) {
                assert(sd.0 == 1 && k2 == k);
            }
        }
    }
}

/// Reading the rest of a rank from file `f`, with `run` empty squares pending.
proof fn lemma_rank(p: Position, st: PlaceState, r: int, f: int, run: nat)
    requires
        p.wf(),
        0 <= r < 8,
        run <= f <= 8,
        agrees(st, p, r, f - run),
        forall|j: int| f - run <= j < f ==> #[trigger] piece_at_spec(p, r * 8 + j) is None,
    ensures
        agrees(place_fold(st, rank_rest(p, r, f, run)), p, r, 8),
    decreases 8 - f,
{
    if f >= 8 {
        lemma_run(p, st, r, f, run);
    } else {
        match piece_at_spec(p, r * 8 + f) {
            Some((k, sd)) => {
                let a = run_text(run);
                let letter = seq![piece_letter(k as int, sd.0 as int)];
                let rest = rank_rest(p, r, f + 1, 0);
                assert(rank_rest(p, r, f, run) == a + letter + rest);
                lemma_fold_concat(st, a + letter, rest);
                lemma_fold_concat(st, a, letter);
                lemma_run(p, st, r, f, run);
                let st1 = place_fold(st, a);
                lemma_fold_one(st1, piece_letter(k as int, sd.0 as int));
                lemma_letter(p, st1, r, f);
                let st2 = place_step(st1, piece_letter(k as int, sd.0 as int));
                lemma_rank(p, st2, r, f + 1, 0);
            },
            None => {
                assert(rank_rest(p, r, f, run) == rank_rest(p, r, f + 1, run + 1));
                lemma_rank(p, st, r, f + 1, run + 1);
            },
        }
    }
}

/// Reading the placement of ranks `r` down to 1.
proof fn lemma_placement(p: Position, st: PlaceState, r: int)
    requires
        p.wf(),
        0 <= r < 8,
        agrees(st, p, r, 0),
    ensures
        agrees(place_fold(st, placement_rest(p, r)), p, 0, 8),
    decreases r,
{
    lemma_rank(p, st, r, 0, 0);
    if r > 0 {
        let a = rank_rest(p, r, 0, 0);
        let rest = placement_rest(p, r - 1);
        assert(placement_rest(p, r) == a + seq!['/'] + rest);
        lemma_fold_concat(st, a + seq!['/'], rest);
        lemma_fold_concat(st, a, seq!['/']);
        let st1 = place_fold(st, a);
        lemma_fold_one(st1, '/');
        let st2 = place_step(st1, '/');
        assert(st2 == (true, r - 1, 0int, st1.3, st1.4));
        assert forall|t: int| before_sq(r - 1, 0, t) == before_sq(r, 8, t) by {}
        lemma_placement(p, st2, r - 1);
    }
}

/// The placement field that `to_fen` writes reads back as the position's boards.
pub proof fn lemma_placement_round_trip(p: Position)
    requires
        p.wf(),
    ensures
        agrees(place_fold(place_start(), placement_rest(p, 7)), p, 0, 8),
{
    let st = place_start();
    assert forall|k: int, t: int| 0 <= k < 6 implies #[trigger] sq_in(st.3[k], t) == (before_sq(7, 0, t) && p.owns(0, k, t)) by {}
    assert forall|k: int, t: int| 0 <= k < 6 implies #[trigger] sq_in(st.4[k], t) == (before_sq(7, 0, t) && p.owns(1, k, t)) by {}
    lemma_placement(p, st, 7);
}

/// `q` has the boards, side to move, rights, en-passant square and clocks of `p`.
pub open spec fn same_position(q: Position, p: Position) -> bool {
    &&& forall|s: int, k: int| kind_ok(s, k) ==> #[trigger] q.pieces[s][k] == p.pieces[s][k]
    &&& q.side_to_move == p.side_to_move
    &&& q.castling_rights == p.castling_rights
    &&& q.en_passant_square == p.en_passant_square
    &&& q.halfmove_clock == p.halfmove_clock
    &&& q.fullmove_number == p.fullmove_number
}

/// A position that `to_fen` can write and `from_fen` read back.
pub open spec fn fen_writable(p: Position) -> bool {
    p.wf() && ep_rank_ok(p.en_passant_square)
}

pub open spec fn side_char(p: Position) -> char {
    if p.side_to_move.0 == 0 { 'w' } else { 'b' }
}

proof fn lemma_field_end_unique(t: Seq<char>, i: int, r: int, e: int)
    requires
        i <= r <= t.len(),
        i <= e <= t.len(),
        r < t.len() ==> t[r] == ' ',
        e < t.len() ==> t[e] == ' ',
        forall|j: int| i <= j < r ==> t[j] != ' ',
        forall|j: int| i <= j < e ==> t[j] != ' ',
    ensures
        r == e,
{
}

/// Where the fields of a written FEN start and end.
proof fn lemma_fen_layout(p: Position, t: Seq<char>)
    requires
        t == fen_text(p),
    ensures
        ({
            let pl = placement_rest(p, 7);
            let c = castling_text(p.castling_rights);
            let e = ep_text(p.en_passant_square);
            let h = decimal(p.halfmove_clock as nat);
            let f = decimal(p.fullmove_number as nat);
            let e0 = pl.len() as int;
            let s2 = e0 + 3;
            let e2 = s2 + c.len();
            let e3 = e2 + 1 + e.len();
            let e4 = e3 + 1 + h.len();
            &&& t.len() == e4 + 1 + f.len()
            &&& t.subrange(0, e0) == pl
            &&& t[e0] == ' ' && t[e0 + 1] == side_char(p) && t[e0 + 2] == ' '
            &&& t.subrange(s2, e2) == c && t[e2] == ' '
            &&& t.subrange(e2 + 1, e3) == e && t[e3] == ' '
            &&& t.subrange(e3 + 1, e4) == h && t[e4] == ' '
            &&& t.subrange(e4 + 1, t.len() as int) == f
            &&& forall|j: int| 0 <= j < e0 ==> t[j] != ' '
            &&& forall|j: int| s2 <= j < e2 ==> t[j] != ' '
            &&& forall|j: int| e2 + 1 <= j < e3 ==> t[j] != ' '
            &&& forall|j: int| e3 + 1 <= j < e4 ==> t[j] != ' '
            &&& forall|j: int| e4 + 1 <= j < t.len() ==> t[j] != ' '
        }),
{
    let pl = placement_rest(p, 7);
    let c = castling_text(p.castling_rights);
    let e = ep_text(p.en_passant_square);
    let h = decimal(p.halfmove_clock as nat);
    let f = decimal(p.fullmove_number as nat);
    lemma_placement_no_space(p, 7);
    lemma_fields_no_space(p);
    let e0 = pl.len() as int;
    let s2 = e0 + 3;
    let e2 = s2 + c.len();
    let e3 = e2 + 1 + e.len();
    let e4 = e3 + 1 + h.len();
    let mid = seq![' ', side_char(p), ' '];
    assert(t =~= pl + mid + c + seq![' '] + e + seq![' '] + h + seq![' '] + f);
    assert(t.subrange(0, e0) =~= pl);
    assert(t.subrange(s2, e2) =~= c);
    assert(t.subrange(e2 + 1, e3) =~= e);
    assert(t.subrange(e3 + 1, e4) =~= h);
    assert(t.subrange(e4 + 1, t.len() as int) =~= f);
    assert forall|j: int| 0 <= j < e0 implies t[j] != ' ' by {
        assert(t[j] == pl[j]);
    }
    assert forall|j: int| s2 <= j < e2 implies t[j] != ' ' by {
        assert(t[j] == c[j - s2]);
    }
    assert forall|j: int| e2 + 1 <= j < e3 implies t[j] != ' ' by {
        assert(t[j] == e[j - e2 - 1]);
    }
    assert forall|j: int| e3 + 1 <= j < e4 implies t[j] != ' ' by {
        assert(t[j] == h[j - e3 - 1]);
    }
    assert forall|j: int| e4 + 1 <= j < t.len() implies t[j] != ' ' by {
        assert(t[j] == f[j - e4 - 1]);
    }
}

impl Position {
    /// The position written in Forsyth-Edwards notation, when `fen` is well formed and
    /// describes consistent boards. Every position that `to_fen` writes (with its en-passant
    /// square, if any, on the third or sixth rank) reads back.
    #[verifier::rlimit(100)]
    pub fn from_fen(fen: &str) -> (r: Option<Position>)
        ensures
            r matches Some(p) ==> p.wf() && p.zobrist_stack.view() == Seq::<u64>::empty(),
            forall|p: Position| fen_writable(p) && #[trigger] fen_text(p) == fen@ ==> (r matches Some(q) && same_position(q, p)),
    {
        let n = fen.unicode_len();
        let mut chars: Vec<char> = Vec::new();
        let mut i: usize = 0;
        while i < n
            invariant
                n == fen@.len(),
                i <= n,
                chars@ == fen@.subrange(0, i as int),
            decreases n - i,
        {
            chars.push(fen.get_char(i));
            i = i + 1;
            proof {
                assert(chars@ =~= fen@.subrange(0, i as int));
            }
        }
        proof {
            assert(chars@ =~= fen@);
        }
        let e0 = field_end(&chars, 0);
        let s1 = if e0 < n { e0 + 1 } else { n };
        let e1 = field_end(&chars, s1);
        let s2 = if e1 < n { e1 + 1 } else { n };
        let e2 = field_end(&chars, s2);
        let s3 = if e2 < n { e2 + 1 } else { n };
        let e3 = field_end(&chars, s3);
        let s4 = if e3 < n { e3 + 1 } else { n };
        let e4 = field_end(&chars, s4);
        let s5 = if e4 < n { e4 + 1 } else { n };
        let e5 = field_end(&chars, s5);
        let layout_ok = e0 < n && e1 < n && e2 < n && e3 < n && e4 < n && e5 == n && e1 - s1 == 1;
        let side = if s1 < n && chars[s1] == 'w' {
            Some(Side(0))
        } else if s1 < n && chars[s1] == 'b' {
            Some(Side(1))
        } else {
            None
        };
        let boards = parse_placement(&chars, e0);
        let castling = parse_castling(&chars, s2, e2);
        let en_passant = parse_en_passant(&chars, s3, e3);
        let halfmove = parse_number(&chars, s4, e4);
        let fullmove = parse_number(&chars, s5, e5);
        let (white, black) = match boards {
            Some(b) => b,
            None => ([0u64; 6], [0u64; 6]),
        };
        let all_parsed = layout_ok && boards.is_some() && side.is_some() && castling.is_some() && en_passant.is_some()
            && halfmove.is_some() && fullmove.is_some();
        let q = Position {
            pieces: [white, black],
            halfmove_clock: match halfmove {
                Some(h) => h,
                None => 0,
            },
            fullmove_number: match fullmove {
                Some(f) => f,
                None => 0,
            },
            side_to_move: match side {
                Some(sd) => sd,
                None => Side(0),
            },
            castling_rights: match castling {
                Some(c) => c,
                None => Castling::new(),
            },
            en_passant_square: match en_passant {
                Some(e) => e,
                None => None,
            },
            hasher: ZobristHasher::new(),
            zobrist_stack: ZobristMoveStack::new(),
        };
        let consistent = q.is_consistent();
        let result = if all_parsed && consistent {
            Some(q)
        } else {
            None
        };
        proof {
            assert forall|p: Position| fen_writable(p) && #[trigger] fen_text(p) == fen@ implies (result matches Some(r) && same_position(r, p)) by {
                let t = chars@;
                lemma_fen_layout(p, t);
                let pl = placement_rest(p, 7);
                let c = castling_text(p.castling_rights);
                let e = ep_text(p.en_passant_square);
                let h = decimal(p.halfmove_clock as nat);
                let f = decimal(p.fullmove_number as nat);
                let l0 = pl.len() as int;
                let l2 = l0 + 3 + c.len();
                let l3 = l2 + 1 + e.len();
                let l4 = l3 + 1 + h.len();
                lemma_field_end_unique(t, 0, e0 as int, l0);
                assert(s1 == l0 + 1);
                lemma_field_end_unique(t, s1 as int, e1 as int, l0 + 2);
                assert(s2 == l0 + 3);
                lemma_field_end_unique(t, s2 as int, e2 as int, l2);
                lemma_field_end_unique(t, s3 as int, e3 as int, l3);
                lemma_field_end_unique(t, s4 as int, e4 as int, l4);
                lemma_field_end_unique(t, s5 as int, e5 as int, t.len() as int);
                assert(layout_ok);
                lemma_placement_round_trip(p);
                lemma_castling_round_trip(p.castling_rights);
                lemma_ep_round_trip(p.en_passant_square);
                lemma_decimal_digits(p.halfmove_clock as nat);
                lemma_decimal_digits(p.fullmove_number as nat);
                let st = place_fold(place_start(), pl);
                assert(boards == Some((white, black)));
                assert forall|sd: int, k: int| kind_ok(sd, k) implies #[trigger] q.pieces[sd][k] == p.pieces[sd][k] by {
                    if sd == 0 {
                        assert forall|u: int| 0 <= u < 64 implies sq_in(white[k], u) == sq_in(p.pieces[0][k], u) by {
                            assert(white@[k] == st.3[k]);
                        }
                        crate::bits::lemma_same_squares(white[k], p.pieces[0][k]);
                    } else {
                        assert forall|u: int| 0 <= u < 64 implies sq_in(black[k], u) == sq_in(p.pieces[1][k], u) by {
                            assert(black@[k] == st.4[k]);
                        }
                        crate::bits::lemma_same_squares(black[k], p.pieces[1][k]);
                    }
                }
                lemma_wf_transfer(p, q);
            }
        }
        result
    }
}

/// A position with the boards and en-passant square of a consistent one is consistent.
proof fn lemma_wf_transfer(p: Position, q: Position)
    requires
        p.wf(),
        forall|s: int, k: int| kind_ok(s, k) ==> #[trigger] q.pieces[s][k] == p.pieces[s][k],
        q.side_to_move == p.side_to_move,
        q.en_passant_square == p.en_passant_square,
        q.zobrist_stack.wf(),
    ensures
        q.wf(),
{
    assert(forall|s: int, k: int, t: int| #[trigger] q.owns(s, k, t) == p.owns(s, k, t));
    assert(q.pieces[0][5] == p.pieces[0][5]);
    assert(q.pieces[1][5] == p.pieces[1][5]);
}

} // verus!
