use vstd::prelude::*;
use crate::types::Square;
use crate::bits::{bit_facts, sq_in, is_lowest, lemma_sq_in_empty};

verus! {

broadcast use bit_facts;

/// A set of squares, one bit per square.
pub type Bitboard = u64;

/// `square` belongs to `board`.
pub fn contains(board: Bitboard, square: Square) -> (r: bool)
    requires
        square < 64,
    ensures
        r == sq_in(board, square as int),
{
    (board >> square) & 1u64 == 1u64
}

/// The number of squares of `b` below `n`.
pub open spec fn pop_upto(b: u64, n: int) -> nat
    decreases n,
{
    if n <= 0 {
        0
    } else {
        pop_upto(b, n - 1) + if sq_in(b, n - 1) { 1nat } else { 0nat }
    }
}

/// The number of squares of `b`.
pub open spec fn popcount(b: u64) -> nat {
    pop_upto(b, 64)
}

/// The number of squares of `board`.
pub fn count_squares(board: Bitboard) -> (r: u32)
    ensures
        r == popcount(board),
        r <= 64,
{
    let mut count: u32 = 0;
    let mut s: u8 = 0;
    while s < 64
        invariant
            s <= 64,
            count == pop_upto(board, s as int),
            count <= s,
        decreases 64 - s,
    {
        if contains(board, s) {
            count = count + 1;
        }
        s = s + 1;
    }
    count
}

pub const DARK_SQUARES: Bitboard = 0xAA55AA55AA55AA55;
pub const LIGHT_SQUARES: Bitboard = 0x55AA55AA55AA55AA;

pub const WHITE_KINGSIDE_CASTLE: Bitboard = 0x60;
pub const WHITE_QUEENSIDE_CASTLE: Bitboard = 0xE;
pub const BLACK_KINGSIDE_CASTLE: Bitboard = 0x6000000000000000;
pub const BLACK_QUEENSIDE_CASTLE: Bitboard = 0xE00000000000000;

pub const FILE_ABB: Bitboard = 0x0101010101010101;
pub const FILE_BBB: Bitboard = FILE_ABB << 1;
pub const FILE_CBB: Bitboard = FILE_ABB << 2;
pub const FILE_DBB: Bitboard = FILE_ABB << 3;
pub const FILE_EBB: Bitboard = FILE_ABB << 4;
pub const FILE_FBB: Bitboard = FILE_ABB << 5;
pub const FILE_GBB: Bitboard = FILE_ABB << 6;
pub const FILE_HBB: Bitboard = FILE_ABB << 7;

pub const NOT_FILE_ABB: Bitboard = !FILE_ABB;
pub const NOT_FILE_HBB: Bitboard = !FILE_HBB;

pub const RANK_1BB: Bitboard = 0xFF;
pub const RANK_2BB: Bitboard = RANK_1BB << 8;
pub const RANK_3BB: Bitboard = RANK_1BB << 16;
pub const RANK_4BB: Bitboard = RANK_1BB << 24;
pub const RANK_5BB: Bitboard = RANK_1BB << 32;
pub const RANK_6BB: Bitboard = RANK_1BB << 40;
pub const RANK_7BB: Bitboard = RANK_1BB << 48;
pub const RANK_8BB: Bitboard = RANK_1BB << 56;

pub const NOT_RANK_1BB: Bitboard = !RANK_1BB;
pub const NOT_RANK_8BB: Bitboard = !RANK_8BB;

pub const NOT_OUTER: Bitboard = NOT_FILE_ABB & NOT_FILE_HBB & NOT_RANK_1BB & NOT_RANK_8BB;


/// The board as a set of squares.
pub trait BitboardMethods: Sized {
    spec fn bits(&self) -> u64;

    /// The board with `square` added.
    fn set_bit(&self, square: Square) -> (r: Bitboard)
        requires
            square < 64,
        ensures
            forall|s: int| #[trigger] sq_in(r, s) == (sq_in(self.bits(), s) || s == square as int),
    ;

    /// The board with `square` removed.
    fn unset_bit(&self, square: Square) -> (r: Bitboard)
        requires
            square < 64,
        ensures
            forall|s: int| #[trigger] sq_in(r, s) == (sq_in(self.bits(), s) && s != square as int),
    ;

    /// Removes the lowest square and returns it as a one-square board (empty for an empty board).
    fn pop_lsb(&mut self) -> (r: Bitboard)
        ensures
            forall|s: int| #[trigger] sq_in(r, s) == is_lowest(old(self).bits(), s),
            forall|s: int| #[trigger] sq_in(final(self).bits(), s) == (sq_in(old(self).bits(), s) && !is_lowest(old(self).bits(), s)),
    ;

    /// The lowest square of the board, 64 for an empty board.
    fn to_square(&self) -> (r: Square)
        ensures
            self.bits() == 0 <==> r == 64,
            self.bits() != 0 ==> is_lowest(self.bits(), r as int),
    ;

    /// The board that holds `square` alone.
    fn from_square(square: Square) -> (r: Bitboard)
        requires
            square < 64,
        ensures
            forall|s: int| #[trigger] sq_in(r, s) == (s == square as int),
    ;

    /// The squares of the board in ascending order.
    fn get_squares(&self) -> (r: Vec<Square>)
        ensures
            forall|i: int, j: int| 0 <= i < j < r@.len() ==> r@[i] < r@[j],
            forall|i: int| 0 <= i < r@.len() ==> sq_in(self.bits(), #[trigger] r@[i] as int),
            forall|s: int| #[trigger] sq_in(self.bits(), s) ==> r@.contains(s as u8),
    ;
}

pub trait BitboardConstants {
    const EMPTY: Bitboard;
    const FULL: Bitboard;
}

impl BitboardConstants for Bitboard {
    const EMPTY: Bitboard = 0;
    const FULL: Bitboard = 0xffff_ffff_ffff_ffff;
}

impl BitboardMethods for Bitboard {
    open spec fn bits(&self) -> u64 {
        *self
    }

    fn set_bit(&self, square: Square) -> (r: Bitboard) {
        *self | Bitboard::from_square(square)
    }

    fn unset_bit(&self, square: Square) -> (r: Bitboard) {
        *self & !Bitboard::from_square(square)
    }

    fn pop_lsb(&mut self) -> (r: Bitboard) {
        broadcast use vstd::std_specs::bits::axiom_u64_trailing_zeros;

        let t = self.trailing_zeros();
        if t >= 64 {
            proof {
                lemma_zero_bits_if_no_tz(*self);
            }
            return 0;
        }
        let lsb: u64 = 1u64 << (t as u64);
        proof {
            assert forall|u: int| 0 <= u < t implies !sq_in(*self, u) by {
                assert((*self >> (u as u64)) & 1u64 == 0u64);
            }
            assert(sq_in(*self, t as int));
            assert forall|s: int| #[trigger] sq_in(lsb, s) == is_lowest(*self, s) by {
                if s > t {
                    assert(sq_in(*self, t as int));
                }
            }
        }
        *self = *self ^ lsb;
        lsb
    }

    fn to_square(&self) -> (r: Square) {
        broadcast use vstd::std_specs::bits::axiom_u64_trailing_zeros;

        let t = self.trailing_zeros();
        proof {
            if t < 64 {
                assert forall|s: int| 0 <= s < t implies !sq_in(*self, s) by {
                    assert((*self >> (s as u64)) & 1u64 == 0u64);
                }
            }
        }
        t as u8
    }

    fn from_square(square: Square) -> (r: Bitboard) {
        1u64 << square
    }

    fn get_squares(&self) -> (r: Vec<Square>) {
        let mut squares: Vec<Square> = Vec::new();
        let mut s: u8 = 0;
        while s < 64
            invariant
                s <= 64,
                forall|i: int, j: int| 0 <= i < j < squares@.len() ==> squares@[i] < squares@[j],
                forall|i: int| 0 <= i < squares@.len() ==> squares@[i] < s && sq_in(*self, #[trigger] squares@[i] as int),
                forall|t: int| 0 <= t < s && #[trigger] sq_in(*self, t) ==> squares@.contains(t as u8),
            decreases 64 - s,
        {
            let ghost before = squares@;
            if (*self >> s) & 1u64 == 1u64 {
                squares.push(s);
                proof {
                    assert(squares@[squares@.len() - 1] == s);
                    assert forall|t: int| 0 <= t < s && #[trigger] sq_in(*self, t) implies squares@.contains(t as u8) by {
                        assert(before.contains(t as u8));
                        let i = choose|i: int| 0 <= i < before.len() && before[i] == t as u8;
                        assert(squares@[i] == t as u8);
                    }
                }
            }
            s = s + 1;
        }
        squares
    }
}

proof fn lemma_zero_bits_if_no_tz(x: u64)
    requires
        x.trailing_zeros() >= 64,
    ensures
        x == 0,
        forall|s: int| !#[trigger] sq_in(x, s),
{
    broadcast use vstd::std_specs::bits::axiom_u64_trailing_zeros;
    broadcast use lemma_sq_in_empty;
}

} // verus!
