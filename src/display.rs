use vstd::prelude::*;
use vstd::string::*;

verus! {

/// The text of one rank of a board, a cell per file from A: " 1 " for a set bit, " . " else.
pub open spec fn rank_cells(rank: u8, n: int) -> Seq<char>
    decreases n,
{
    if n <= 0 {
        Seq::empty()
    } else {
        let bit = (rank as int / pow2_8(n - 1)) % 2 == 1;
        rank_cells(rank, n - 1) + if bit { seq![' ', '1', ' '] } else { seq![' ', '.', ' '] }
    }
}

pub open spec fn pow2_8(k: int) -> int
    decreases k,
{
    if k <= 0 { 1 } else { 2 * pow2_8(k - 1) }
}

/// The eight cells of a rank whose files are the bits of `rank`, lowest bit first.
pub fn get_rank_string(rank: u8) -> (r: String)
    ensures
        r@ == rank_cells(rank, 8),
{
    proof {
        reveal_strlit("");
    }
    let mut rank_string = String::from_str("");
    let mut k: u8 = 0;
    let mut rest: u8 = rank;
    while k < 8
        invariant
            k <= 8,
            rank_string@ == rank_cells(rank, k as int),
            rest as int == rank as int / pow2_8(k as int),
        decreases 8 - k,
    {
        proof {
            reveal_strlit(" 1 ");
            reveal_strlit(" . ");
            assert(pow2_8(k as int + 1) == 2 * pow2_8(k as int));
            assert(pow2_8(k as int) > 0) by {
                lemma_pow2_positive(k as int);
            }
            vstd::arithmetic::div_mod::lemma_div_denominator(rank as int, pow2_8(k as int), 2);
        }
        if rest % 2 == 1 {
            rank_string.append(" 1 ");
        } else {
            rank_string.append(" . ");
        }
        rest = rest / 2;
        k = k + 1;
    }
    rank_string
}

proof fn lemma_pow2_positive(k: int)
    ensures
        pow2_8(k) > 0,
    decreases k,
{
    if k > 0 {
        lemma_pow2_positive(k - 1);
    }
}

} // verus!
