//! Alignment helpers for power-of-two boundaries.
use vstd::prelude::*;
use vstd::arithmetic::power2::pow2;
use vstd::bits::{low_bits_mask, lemma_usize_low_bits_mask_is_mod};

verus! {

/// `place` is a power of two.
pub open spec fn is_pow2(place: usize) -> bool {
    exists|n: nat| n < usize::BITS && place == pow2(n)
}

/// A power of two is positive.
pub proof fn lemma_pow2_positive(p: usize)
    requires
        is_pow2(p),
    ensures
        p > 0,
{
    lemma_mask_split(0, p);
}

/// For a power of two `p`, masking with `p - 1` keeps the remainder modulo `p`
/// and clearing those bits leaves the rest.
proof fn lemma_mask_split(x: usize, p: usize)
    requires
        is_pow2(p),
    ensures
        p > 0,
        x & ((p - 1) as usize) == x % p,
        (x & !((p - 1) as usize)) + x % p == x,
{
    let n = choose|n: nat| n < usize::BITS && p == pow2(n);
    vstd::arithmetic::power2::lemma_pow2_pos(n);
    lemma_usize_low_bits_mask_is_mod(x, n);
    assert(low_bits_mask(n) == pow2(n) - 1);
    assert(x == (x & !((p - 1) as usize)) + (x & ((p - 1) as usize))) by (bit_vector);
}

/// Rounds `value` down to a multiple of `place`.
pub fn round_down(value: usize, place: usize) -> (r: usize)
    requires
        is_pow2(place),
    ensures
        r == value - value % place,
{
    proof {
        lemma_mask_split(value, place);
    }
    value & !(place - 1)
}

/// The least multiple of `place` that is at least `value`.
pub open spec fn round_up_spec(value: int, place: int) -> int {
    (value + place - 1) - (value + place - 1) % place
}

/// Rounds `value` up to a multiple of `place`.
pub fn round_up(value: usize, place: usize) -> (r: usize)
    requires
        is_pow2(place),
        value + place - 1 <= usize::MAX,
    ensures
        r == round_up_spec(value as int, place as int),
        r % place == 0,
        value <= r < value + place,
{
    proof {
        lemma_mask_split(value, place);
    }
    let r = round_down(value + (place - 1), place);
    proof {
        let w = (value + place - 1) as int;
        vstd::arithmetic::div_mod::lemma_fundamental_div_mod(w, place as int);
        vstd::arithmetic::div_mod::lemma_mod_multiples_basic(w / place as int, place as int);
        assert(r as int == (w / place as int) * place as int);
    }
    r
}

} // verus!
