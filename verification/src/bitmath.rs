//! Bit patterns as natural numbers: single bits, set-bit counts, and the
//! arithmetic of cutting a pattern at a power of two.

use vstd::arithmetic::div_mod::{
    lemma_basic_div, lemma_div_denominator, lemma_fundamental_div_mod_converse,
    lemma_mod_breakdown, lemma_small_mod,
};
use vstd::arithmetic::mul::lemma_mul_is_commutative;
use vstd::arithmetic::power2::{
    lemma2_to64, lemma_pow2_adds, lemma_pow2_pos, lemma_pow2_unfold, pow2,
};
use vstd::prelude::*;

verus! {

/// Bit `index` of the pattern `v`, counted from the least significant bit.
pub open spec fn bit_of(v: nat, index: nat) -> bool {
    (v / pow2(index)) % 2 == 1
}

/// The number of set bits in the pattern `v`.
pub open spec fn popcount(v: nat) -> nat
    decreases v,
{
    if v == 0 {
        0
    } else {
        v % 2 + popcount(v / 2)
    }
}

/// The low `n` bits of a pattern are its lowest bit followed by the low
/// `n - 1` bits of the rest.
pub proof fn lemma_low_bits_unfold(v: nat, n: nat)
    requires
        n >= 1,
    ensures
        v % pow2(n) == v % 2 + 2 * ((v / 2) % pow2((n - 1) as nat)),
{
    lemma_pow2_unfold(n);
    lemma_pow2_pos((n - 1) as nat);
    lemma_mod_breakdown(v as int, 2, pow2((n - 1) as nat) as int);
}

/// Dropping `s` low bits and then `n` more drops `s + n` bits.
pub proof fn lemma_drop_bits_twice(v: nat, s: nat, n: nat)
    ensures
        (v / pow2(s)) / pow2(n) == v / pow2(s + n),
{
    lemma_pow2_pos(s);
    lemma_pow2_pos(n);
    lemma_pow2_adds(s, n);
    lemma_div_denominator(v as int, pow2(s) as int, pow2(n) as int);
}

/// A pattern that is `high` above a chunk of `n` bits holding `low` splits
/// back into the two.
pub proof fn lemma_join_split(high: nat, low: nat, n: nat)
    requires
        low < pow2(n),
    ensures
        (high * pow2(n) + low) / pow2(n) == high,
        (high * pow2(n) + low) % pow2(n) == low,
{
    lemma_pow2_pos(n);
    lemma_mul_is_commutative(high as int, pow2(n) as int);
    lemma_fundamental_div_mod_converse(
        (high * pow2(n) + low) as int,
        pow2(n) as int,
        high as int,
        low as int,
    );
}

/// Bit `index` of what is left after dropping `s` low bits is bit
/// `s + index` of the whole.
pub proof fn lemma_bit_of_dropped(v: nat, s: nat, index: nat)
    ensures
        bit_of(v / pow2(s), index) == bit_of(v, s + index),
{
    lemma_drop_bits_twice(v, s, index);
}

/// The low `n` bits of a pattern keep each of its bits below `n`.
pub proof fn lemma_bit_of_low_bits(v: nat, n: nat, index: nat)
    requires
        index < n,
    ensures
        bit_of(v % pow2(n), index) == bit_of(v, index),
    decreases index,
{
    lemma_low_bits_unfold(v, n);
    lemma_pow2_pos((n - 1) as nat);
    let rest = (v / 2) % pow2((n - 1) as nat);
    let low = v % pow2(n);
    assert(low / 2 == rest && low % 2 == v % 2) by {
        lemma_fundamental_div_mod_converse(low as int, 2, rest as int, (v % 2) as int);
    }
    if index == 0 {
        assert(pow2(0) == 1) by {
            lemma_pow2_pos(0);
            lemma_pow2_unfold(1);
            lemma2_to64();
        }
    } else {
        let up = (index - 1) as nat;
        assert(pow2(1) == 2) by {
            lemma2_to64();
        }
        lemma_drop_bits_twice(low, 1, up);
        lemma_drop_bits_twice(v, 1, up);
        lemma_bit_of_low_bits(v / 2, (n - 1) as nat, up);
    }
}

/// A pattern below `2^index` has bit `index` clear.
pub proof fn lemma_bit_of_small(v: nat, index: nat)
    requires
        v < pow2(index),
    ensures
        !bit_of(v, index),
{
    lemma_pow2_pos(index);
    lemma_basic_div(v as int, pow2(index) as int);
}

/// Cutting a pattern after its low `n` bits loses no set bit: the two parts
/// together hold as many as the whole.
pub proof fn lemma_popcount_split(v: nat, n: nat)
    ensures
        popcount(v % pow2(n)) + popcount(v / pow2(n)) == popcount(v),
    decreases n,
{
    if n == 0 {
        assert(pow2(0) == 1) by {
            lemma2_to64();
        }
    } else {
        let low = v % pow2(n);
        let rest = (v / 2) % pow2((n - 1) as nat);
        lemma_low_bits_unfold(v, n);
        lemma_pow2_pos((n - 1) as nat);
        assert(low / 2 == rest && low % 2 == v % 2) by {
            lemma_fundamental_div_mod_converse(low as int, 2, rest as int, (v % 2) as int);
        }
        assert(pow2(1) == 2) by {
            lemma2_to64();
        }
        lemma_drop_bits_twice(v, 1, (n - 1) as nat);
        lemma_popcount_split(v / 2, (n - 1) as nat);
        assert(popcount(v) == v % 2 + popcount(v / 2));
        assert(popcount(low) == low % 2 + popcount(low / 2));
    }
}

/// Putting a chunk of `n` bits below a pattern adds their set bits.
pub proof fn lemma_popcount_join(high: nat, low: nat, n: nat)
    requires
        low < pow2(n),
    ensures
        popcount(high * pow2(n) + low) == popcount(high) + popcount(low),
{
    lemma_join_split(high, low, n);
    lemma_popcount_split(high * pow2(n) + low, n);
}

/// A pattern below `2^n` is its own low `n` bits.
pub proof fn lemma_low_bits_of_small(v: nat, n: nat)
    requires
        v < pow2(n),
    ensures
        v % pow2(n) == v,
{
    lemma_small_mod(v, pow2(n));
}

} // verus!
