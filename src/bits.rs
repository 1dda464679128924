use vstd::prelude::*;

verus! {


/// Bit `i` of `b` is set.
pub open spec fn bit(b: u64, i: u64) -> bool {
    (b >> i) & 1u64 == 1u64
}

/// Square `s` belongs to the set `b`.
pub open spec fn sq_in(b: u64, s: int) -> bool {
    0 <= s < 64 && bit(b, s as u64)
}

/// `s` is the lowest square of `b`.
pub open spec fn is_lowest(b: u64, s: int) -> bool {
    sq_in(b, s) && forall|t: int| 0 <= t < s ==> !sq_in(b, t)
}

pub broadcast proof fn lemma_sq_in_or(a: u64, b: u64, s: int)
    ensures
        #[trigger] sq_in(a | b, s) == (sq_in(a, s) || sq_in(b, s)),
{
    if 0 <= s < 64 {
        let i = s as u64;
        assert(((a | b) >> i) & 1u64 == 1u64 <==> ((a >> i) & 1u64 == 1u64 || (b >> i) & 1u64
            == 1u64)) by (bit_vector);
    }
}

pub broadcast proof fn lemma_sq_in_and(a: u64, b: u64, s: int)
    ensures
        #[trigger] sq_in(a & b, s) == (sq_in(a, s) && sq_in(b, s)),
{
    if 0 <= s < 64 {
        let i = s as u64;
        assert(((a & b) >> i) & 1u64 == 1u64 <==> ((a >> i) & 1u64 == 1u64 && (b >> i) & 1u64
            == 1u64)) by (bit_vector);
    }
}

pub broadcast proof fn lemma_sq_in_xor(a: u64, b: u64, s: int)
    ensures
        #[trigger] sq_in(a ^ b, s) == (sq_in(a, s) != sq_in(b, s)),
{
    if 0 <= s < 64 {
        let i = s as u64;
        assert(((a ^ b) >> i) & 1u64 == 1u64 <==> ((a >> i) & 1u64 == 1u64 != ((b >> i) & 1u64
            == 1u64))) by (bit_vector);
    }
}

pub broadcast proof fn lemma_sq_in_not(a: u64, s: int)
    ensures
        #[trigger] sq_in(!a, s) == (0 <= s < 64 && !sq_in(a, s)),
{
    if 0 <= s < 64 {
        let i = s as u64;
        assert(i < 64 ==> (((!a) >> i) & 1u64 == 1u64 <==> !((a >> i) & 1u64 == 1u64)))
            by (bit_vector);
    }
}

pub broadcast proof fn lemma_sq_in_empty(s: int)
    ensures
        !#[trigger] sq_in(0u64, s),
{
    if 0 <= s < 64 {
        let i = s as u64;
        assert((0u64 >> i) & 1u64 == 0u64) by (bit_vector);
    }
}

pub broadcast proof fn lemma_sq_in_full(s: int)
    ensures
        #[trigger] sq_in(0xffff_ffff_ffff_ffffu64, s) == (0 <= s < 64),
{
    if 0 <= s < 64 {
        let i = s as u64;
        assert(i < 64 ==> (0xffff_ffff_ffff_ffffu64 >> i) & 1u64 == 1u64) by (bit_vector);
    }
}

pub broadcast proof fn lemma_sq_in_single(k: u64, s: int)
    requires
        k < 64,
    ensures
        #[trigger] sq_in(1u64 << k, s) == (s == k as int),
{
    if 0 <= s < 64 {
        let i = s as u64;
        assert(k < 64 && i < 64 ==> (((1u64 << k) >> i) & 1u64 == 1u64 <==> i == k))
            by (bit_vector);
    }
}

/// Two boards with the same squares are the same number.
pub proof fn lemma_same_squares(a: u64, b: u64)
    requires
        forall|s: int| 0 <= s < 64 ==> sq_in(a, s) == sq_in(b, s),
    ensures
        a == b,
{
    assert forall|i: u64| i < 64 implies ((a ^ b) >> i) & 1u64 == 0u64 by {
        assert(sq_in(a, i as int) == sq_in(b, i as int));
        assert(((a >> i) & 1u64 == 1u64) == ((b >> i) & 1u64 == 1u64) ==> ((a ^ b) >> i) & 1u64
            == 0u64) by (bit_vector);
    }
    lemma_zero_bits(a ^ b);
    assert((a ^ b) == 0u64 ==> a == b) by (bit_vector);
}

proof fn lemma_zero_bits(x: u64)
    requires
        forall|i: u64| i < 64 ==> (x >> i) & 1u64 == 0u64,
    ensures
        x == 0,
{
    broadcast use vstd::std_specs::bits::axiom_u64_trailing_zeros;

    let t = x.trailing_zeros();
    if t < 64 {
        assert((x >> (t as u64)) & 1u64 == 1u64);
        assert((x >> (t as u64)) & 1u64 == 0u64);
    }
}

pub broadcast group bit_facts {
    lemma_sq_in_or,
    lemma_sq_in_and,
    lemma_sq_in_xor,
    lemma_sq_in_not,
    lemma_sq_in_empty,
    lemma_sq_in_full,
    lemma_sq_in_single,
}


} // verus!
