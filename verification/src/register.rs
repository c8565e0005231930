//! Fixed-capacity bit registers and the two primitives that move bits
//! through them a chunk at a time.
//!
//! A register is one of the native unsigned integers. Bits enter at the
//! low end with [`PushBits::push_bits`] and leave at the low end with
//! [`PopBits::pop_bits`], at most a byte per call.

use crate::bitmath::{lemma_join_split, lemma_popcount_join, lemma_popcount_split, popcount};
use vstd::arithmetic::div_mod::{
    lemma_basic_div, lemma_fundamental_div_mod, lemma_mod_bound, lemma_mod_multiples_vanish,
    lemma_small_mod,
};
use vstd::arithmetic::mul::lemma_mul_is_commutative;
use vstd::arithmetic::power2::{lemma2_to64, lemma_pow2_adds, lemma_pow2_pos, pow2};
use vstd::bits::{
    lemma_u128_shr_is_div, lemma_u16_shr_is_div, lemma_u32_shr_is_div, lemma_u64_shr_is_div,
    lemma_u8_shr_is_div,
};
use vstd::prelude::*;

verus! {

/// What a register of `width` bits holds after the low `amount` bits of
/// `byte` were pushed into it: the old pattern moved up by `amount`, the
/// chunk below it, and whatever no longer fits in `width` bits cut off.
pub open spec fn pushed(width: nat, v: nat, amount: nat, byte: u8) -> nat {
    (v * pow2(amount) + (byte as nat) % pow2(amount)) % pow2(width)
}

/// A native unsigned integer used as a bit register.
pub trait Register: Sized {
    /// The number of bits the register holds.
    spec fn bit_width() -> nat;

    /// The register's bit pattern, read as a number.
    spec fn value(&self) -> nat;

    /// The register with every bit clear.
    fn zero() -> (r: Self)
        ensures
            r.value() == 0,
    ;

    /// A register never holds more than its width.
    proof fn lemma_value_bound(&self)
        ensures
            self.value() < pow2(Self::bit_width()),
    ;
}

/// Appending a chunk of bits at the low end of a register.
pub trait PushBits: Register {
    /// Moves the register up by `amount` bits, dropping the `amount` bits
    /// at its top, and places the low `amount` bits of `bits` in the gap.
    ///
    /// As long as no set bit is dropped, the register afterwards has as many
    /// set bits as it had before plus those of the chunk.
    fn push_bits(&mut self, amount: u32, bits: u8)
        requires
            1 <= amount <= 8,
        ensures
            final(self).value() == pushed(
                Self::bit_width(),
                old(self).value(),
                amount as nat,
                bits,
            ),
            old(self).value() * pow2(amount as nat) < pow2(Self::bit_width()) ==> popcount(
                final(self).value(),
            ) == popcount(old(self).value()) + popcount((bits as nat) % pow2(amount as nat)),
    ;
}

/// Taking a chunk of bits off the low end of a register.
pub trait PopBits: Register {
    /// Returns the low `amount` bits of the register and moves the rest
    /// down by `amount`, filling with zeros from the top.
    ///
    /// No set bit is lost: the chunk and the register afterwards together
    /// have as many as the register had before.
    fn pop_bits(&mut self, amount: u32) -> (res: u8)
        requires
            1 <= amount <= 8,
        ensures
            res as nat == old(self).value() % pow2(amount as nat),
            final(self).value() == old(self).value() / pow2(amount as nat),
            popcount(res as nat) + popcount(final(self).value()) == popcount(old(self).value()),
    ;
}

/// The mask that keeps the low `amount` bits of a byte.
pub fn low_mask(amount: u32) -> (mask: u8)
    requires
        1 <= amount <= 8,
    ensures
        mask == 0xFFu8 >> ((8 - amount) as u8),
        mask as nat == pow2(amount as nat) - 1,
{
    let shift: u32 = 8 - amount;
    let mask: u8 = 0xFFu8 >> shift;
    proof {
        lemma2_to64();
        assert(0xFFu8 >> shift == 0xFFu8 >> (shift as u8)) by (bit_vector)
            requires
                shift < 8,
        ;
        let s: u8 = shift as u8;
        assert(s < 8 ==> (0xFFu8 >> s) == if s == 0 {
            255u8
        } else if s == 1 {
            127u8
        } else if s == 2 {
            63u8
        } else if s == 3 {
            31u8
        } else if s == 4 {
            15u8
        } else if s == 5 {
            7u8
        } else if s == 6 {
            3u8
        } else {
            1u8
        }) by (bit_vector);
    }
    mask
}

/// Masking a byte with a low mask keeps its value modulo the mask's
/// successor.
proof fn lemma_masked_byte(bits: u8, mask: u8, amount: u32)
    requires
        1 <= amount <= 8,
        mask == 0xFFu8 >> ((8 - amount) as u8),
        mask as nat == pow2(amount as nat) - 1,
    ensures
        (bits & mask) as nat == (bits as nat) % pow2(amount as nat),
        bits & mask <= mask,
{
    assert((bits & mask) == (bits as int) % (mask + 1) && bits & mask <= mask) by (bit_vector)
        requires
            1 <= amount <= 8,
            mask == 0xFFu8 >> ((8 - amount) as u8),
    ;
}

/// The powers of two that bound the five registers.
proof fn lemma_register_bounds()
    ensures
        pow2(8) == u8::MAX + 1,
        pow2(16) == u16::MAX + 1,
        pow2(32) == u32::MAX + 1,
        pow2(64) == u64::MAX + 1,
        pow2(128) == u128::MAX + 1,
{
    lemma2_to64();
    lemma_pow2_adds(64, 64);
}

/// What a push that cuts nothing off does: the chunk's set bits are added
/// to the register's, and a pop of the same amount gives the chunk back and
/// leaves the register as it was before the push.
pub proof fn lemma_push_without_loss(width: nat, v: nat, amount: nat, bits: u8)
    requires
        amount <= width,
        v * pow2(amount) < pow2(width),
    ensures
        popcount(pushed(width, v, amount, bits)) == popcount(v) + popcount(
            (bits as nat) % pow2(amount),
        ),
        pushed(width, v, amount, bits) % pow2(amount) == (bits as nat) % pow2(amount),
        pushed(width, v, amount, bits) / pow2(amount) == v,
{
    let chunk = (bits as nat) % pow2(amount);
    lemma_pow2_pos(amount);
    assert(chunk < pow2(amount)) by {
        lemma_mod_bound(bits as int, pow2(amount) as int);
    }
    assert(v * pow2(amount) + chunk < pow2(width)) by {
        // the register's bound is a multiple of 2^amount
        let p = pow2(amount);
        let q = pow2((width - amount) as nat);
        lemma_pow2_adds((width - amount) as nat, amount);
        assert(v < q) by (nonlinear_arith)
            requires
                v * p < q * p,
                p > 0,
        ;
        assert(v * p + p <= q * p) by (nonlinear_arith)
            requires
                v + 1 <= q,
                p > 0,
        ;
    }
    lemma_small_mod(v * pow2(amount) + chunk, pow2(width));
    lemma_popcount_join(v, chunk, amount);
    lemma_join_split(v, chunk, amount);
}

/// Bit conservation for a pop: the chunk taken off and what stays behind
/// have together as many set bits as the register had.
pub proof fn lemma_pop_keeps_bits(v: nat, amount: nat)
    ensures
        popcount(v % pow2(amount)) + popcount(v / pow2(amount)) == popcount(v),
{
    lemma_popcount_split(v, amount);
}

impl Register for u8 {
    open spec fn bit_width() -> nat {
        8
    }

    open spec fn value(&self) -> nat {
        *self as nat
    }

    fn zero() -> (r: Self) {
        0
    }

    proof fn lemma_value_bound(&self) {
        lemma_register_bounds();
    }
}

/// Shift-and-or on `u8`, as arithmetic.
proof fn lemma_u8_push(x: u8, amount: u32, mask: u8, chunk: u8)
    requires
        1 <= amount < 8,
        mask == 0xFFu8 >> ((8 - amount) as u8),
        mask as nat == pow2(amount as nat) - 1,
        chunk <= mask,
    ensures
        ((x << amount) | chunk) as nat == (x as nat * pow2(amount as nat) + chunk as nat)
            % pow2(8),
{
    lemma_register_bounds();
    assert(((x << amount) | chunk) == (x * (mask + 1) + chunk) % (u8::MAX + 1))
        by (bit_vector)
        requires
            1 <= amount < 8,
            mask == 0xFFu8 >> ((8 - amount) as u8),
            chunk <= mask,
    ;
}

/// Mask-and-shift on `u8`, as arithmetic.
proof fn lemma_u8_pop(x: u8, amount: u32, mask: u8)
    requires
        1 <= amount < 8,
        mask == 0xFFu8 >> ((8 - amount) as u8),
        mask as nat == pow2(amount as nat) - 1,
    ensures
        (x & mask) as nat == (x as nat) % pow2(amount as nat),
        (x & mask) <= mask,
        (x >> amount) as nat == (x as nat) / pow2(amount as nat),
{
    let shift: u8 = amount as u8;
    assert((x & mask) == x - (x >> shift) * (mask + 1) && (x & mask) <= mask && (x
        >> amount) == (x >> shift)) by (bit_vector)
        requires
            1 <= amount < 8,
            shift == amount,
            mask == 0xFFu8 >> ((8 - amount) as u8),
    ;
    lemma_u8_shr_is_div(x, shift);
    lemma_fundamental_div_mod(x as int, pow2(amount as nat) as int);
    lemma_mul_is_commutative(
        pow2(amount as nat) as int,
        (x as int) / (pow2(amount as nat) as int),
    );
}

impl PushBits for u8 {
    fn push_bits(&mut self, amount: u32, bits: u8) {
        let mask: u8 = low_mask(amount);
        let chunk: u8 = bits & mask;
        proof {
            lemma_register_bounds();
            lemma_masked_byte(bits, mask, amount);
            if amount < 8 {
                lemma_u8_push(*self, amount, mask, chunk);
            } else {
                // the whole register is replaced
                assert((old(self).value() * 256 + chunk as nat) % 256 == chunk as nat) by {
                    lemma_mod_multiples_vanish(
                        old(self).value() as int,
                        chunk as int,
                        256,
                    );
                    lemma_small_mod(chunk as nat, 256);
                }
            }
            if old(self).value() * pow2(amount as nat) < pow2(8) {
                lemma_push_without_loss(8, old(self).value(), amount as nat, bits);
            }
        }
        let moved: u8 = if amount < 8 {
            *self << amount
        } else {
            0
        };
        *self = moved | chunk;
        proof {
            assert(0u8 | chunk == chunk) by (bit_vector);
        }
    }
}

impl PopBits for u8 {
    fn pop_bits(&mut self, amount: u32) -> (res: u8) {
        let mask: u8 = low_mask(amount);
        proof {
            if amount < 8 {
                lemma_u8_pop(*self, amount, mask);
            } else {
                assert(*self & 0xFFu8 == *self) by (bit_vector);
                lemma_register_bounds();
                lemma_small_mod(old(self).value(), 256);
                lemma_basic_div(old(self).value() as int, 256);
            }
            lemma_pop_keeps_bits(old(self).value(), amount as nat);
        }
        let res: u8 = *self & mask;
        *self = if amount < 8 {
            *self >> amount
        } else {
            0
        };
        res
    }
}

impl Register for u16 {
    open spec fn bit_width() -> nat {
        16
    }

    open spec fn value(&self) -> nat {
        *self as nat
    }

    fn zero() -> (r: Self) {
        0
    }

    proof fn lemma_value_bound(&self) {
        lemma_register_bounds();
    }
}

/// Shift-and-or on `u16`, as arithmetic.
proof fn lemma_u16_push(x: u16, amount: u32, mask: u8, chunk: u8)
    requires
        1 <= amount <= 8,
        mask == 0xFFu8 >> ((8 - amount) as u8),
        mask as nat == pow2(amount as nat) - 1,
        chunk <= mask,
    ensures
        ((x << amount) | (chunk as u16)) as nat == (x as nat * pow2(amount as nat) + chunk as nat)
            % pow2(16),
{
    lemma_register_bounds();
    assert(((x << amount) | (chunk as u16)) == (x * (mask + 1) + chunk) % (u16::MAX + 1))
        by (bit_vector)
        requires
            1 <= amount <= 8,
            mask == 0xFFu8 >> ((8 - amount) as u8),
            chunk <= mask,
    ;
}

/// Mask-and-shift on `u16`, as arithmetic.
proof fn lemma_u16_pop(x: u16, amount: u32, mask: u8)
    requires
        1 <= amount <= 8,
        mask == 0xFFu8 >> ((8 - amount) as u8),
        mask as nat == pow2(amount as nat) - 1,
    ensures
        (x & (mask as u16)) as nat == (x as nat) % pow2(amount as nat),
        (x & (mask as u16)) <= mask,
        (x >> amount) as nat == (x as nat) / pow2(amount as nat),
{
    let shift: u16 = amount as u16;
    assert((x & (mask as u16)) == x - (x >> shift) * (mask + 1) && (x & (mask as u16)) <= mask && (x
        >> amount) == (x >> shift)) by (bit_vector)
        requires
            1 <= amount <= 8,
            shift == amount,
            mask == 0xFFu8 >> ((8 - amount) as u8),
    ;
    lemma_u16_shr_is_div(x, shift);
    lemma_fundamental_div_mod(x as int, pow2(amount as nat) as int);
    lemma_mul_is_commutative(
        pow2(amount as nat) as int,
        (x as int) / (pow2(amount as nat) as int),
    );
}

impl PushBits for u16 {
    fn push_bits(&mut self, amount: u32, bits: u8) {
        let mask: u8 = low_mask(amount);
        let chunk: u8 = bits & mask;
        proof {
            lemma_register_bounds();
            lemma_masked_byte(bits, mask, amount);
            lemma_u16_push(*self, amount, mask, chunk);
            if old(self).value() * pow2(amount as nat) < pow2(16) {
                lemma_push_without_loss(16, old(self).value(), amount as nat, bits);
            }
        }
        *self = (*self << amount) | (chunk as u16);
    }
}

impl PopBits for u16 {
    fn pop_bits(&mut self, amount: u32) -> (res: u8) {
        let mask: u8 = low_mask(amount);
        proof {
            lemma_u16_pop(*self, amount, mask);
            lemma_pop_keeps_bits(old(self).value(), amount as nat);
        }
        let res: u8 = (*self & (mask as u16)) as u8;
        *self = *self >> amount;
        res
    }
}

impl Register for u32 {
    open spec fn bit_width() -> nat {
        32
    }

    open spec fn value(&self) -> nat {
        *self as nat
    }

    fn zero() -> (r: Self) {
        0
    }

    proof fn lemma_value_bound(&self) {
        lemma_register_bounds();
    }
}

/// Shift-and-or on `u32`, as arithmetic.
proof fn lemma_u32_push(x: u32, amount: u32, mask: u8, chunk: u8)
    requires
        1 <= amount <= 8,
        mask == 0xFFu8 >> ((8 - amount) as u8),
        mask as nat == pow2(amount as nat) - 1,
        chunk <= mask,
    ensures
        ((x << amount) | (chunk as u32)) as nat == (x as nat * pow2(amount as nat) + chunk as nat)
            % pow2(32),
{
    lemma_register_bounds();
    assert(((x << amount) | (chunk as u32)) == (x * (mask + 1) + chunk) % (u32::MAX + 1))
        by (bit_vector)
        requires
            1 <= amount <= 8,
            mask == 0xFFu8 >> ((8 - amount) as u8),
            chunk <= mask,
    ;
}

/// Mask-and-shift on `u32`, as arithmetic.
proof fn lemma_u32_pop(x: u32, amount: u32, mask: u8)
    requires
        1 <= amount <= 8,
        mask == 0xFFu8 >> ((8 - amount) as u8),
        mask as nat == pow2(amount as nat) - 1,
    ensures
        (x & (mask as u32)) as nat == (x as nat) % pow2(amount as nat),
        (x & (mask as u32)) <= mask,
        (x >> amount) as nat == (x as nat) / pow2(amount as nat),
{
    let shift: u32 = amount as u32;
    assert((x & (mask as u32)) == x - (x >> shift) * (mask + 1) && (x & (mask as u32)) <= mask && (x
        >> amount) == (x >> shift)) by (bit_vector)
        requires
            1 <= amount <= 8,
            shift == amount,
            mask == 0xFFu8 >> ((8 - amount) as u8),
    ;
    lemma_u32_shr_is_div(x, shift);
    lemma_fundamental_div_mod(x as int, pow2(amount as nat) as int);
    lemma_mul_is_commutative(
        pow2(amount as nat) as int,
        (x as int) / (pow2(amount as nat) as int),
    );
}

impl PushBits for u32 {
    fn push_bits(&mut self, amount: u32, bits: u8) {
        let mask: u8 = low_mask(amount);
        let chunk: u8 = bits & mask;
        proof {
            lemma_register_bounds();
            lemma_masked_byte(bits, mask, amount);
            lemma_u32_push(*self, amount, mask, chunk);
            if old(self).value() * pow2(amount as nat) < pow2(32) {
                lemma_push_without_loss(32, old(self).value(), amount as nat, bits);
            }
        }
        *self = (*self << amount) | (chunk as u32);
    }
}

impl PopBits for u32 {
    fn pop_bits(&mut self, amount: u32) -> (res: u8) {
        let mask: u8 = low_mask(amount);
        proof {
            lemma_u32_pop(*self, amount, mask);
            lemma_pop_keeps_bits(old(self).value(), amount as nat);
        }
        let res: u8 = (*self & (mask as u32)) as u8;
        *self = *self >> amount;
        res
    }
}

impl Register for u64 {
    open spec fn bit_width() -> nat {
        64
    }

    open spec fn value(&self) -> nat {
        *self as nat
    }

    fn zero() -> (r: Self) {
        0
    }

    proof fn lemma_value_bound(&self) {
        lemma_register_bounds();
    }
}

/// Shift-and-or on `u64`, as arithmetic.
proof fn lemma_u64_push(x: u64, amount: u32, mask: u8, chunk: u8)
    requires
        1 <= amount <= 8,
        mask == 0xFFu8 >> ((8 - amount) as u8),
        mask as nat == pow2(amount as nat) - 1,
        chunk <= mask,
    ensures
        ((x << amount) | (chunk as u64)) as nat == (x as nat * pow2(amount as nat) + chunk as nat)
            % pow2(64),
{
    lemma_register_bounds();
    assert(((x << amount) | (chunk as u64)) == (x * (mask + 1) + chunk) % (u64::MAX + 1))
        by (bit_vector)
        requires
            1 <= amount <= 8,
            mask == 0xFFu8 >> ((8 - amount) as u8),
            chunk <= mask,
    ;
}

/// Mask-and-shift on `u64`, as arithmetic.
proof fn lemma_u64_pop(x: u64, amount: u32, mask: u8)
    requires
        1 <= amount <= 8,
        mask == 0xFFu8 >> ((8 - amount) as u8),
        mask as nat == pow2(amount as nat) - 1,
    ensures
        (x & (mask as u64)) as nat == (x as nat) % pow2(amount as nat),
        (x & (mask as u64)) <= mask,
        (x >> amount) as nat == (x as nat) / pow2(amount as nat),
{
    let shift: u64 = amount as u64;
    assert((x & (mask as u64)) == x - (x >> shift) * (mask + 1) && (x & (mask as u64)) <= mask && (x
        >> amount) == (x >> shift)) by (bit_vector)
        requires
            1 <= amount <= 8,
            shift == amount,
            mask == 0xFFu8 >> ((8 - amount) as u8),
    ;
    lemma_u64_shr_is_div(x, shift);
    lemma_fundamental_div_mod(x as int, pow2(amount as nat) as int);
    lemma_mul_is_commutative(
        pow2(amount as nat) as int,
        (x as int) / (pow2(amount as nat) as int),
    );
}

impl PushBits for u64 {
    fn push_bits(&mut self, amount: u32, bits: u8) {
        let mask: u8 = low_mask(amount);
        let chunk: u8 = bits & mask;
        proof {
            lemma_register_bounds();
            lemma_masked_byte(bits, mask, amount);
            lemma_u64_push(*self, amount, mask, chunk);
            if old(self).value() * pow2(amount as nat) < pow2(64) {
                lemma_push_without_loss(64, old(self).value(), amount as nat, bits);
            }
        }
        *self = (*self << amount) | (chunk as u64);
    }
}

impl PopBits for u64 {
    fn pop_bits(&mut self, amount: u32) -> (res: u8) {
        let mask: u8 = low_mask(amount);
        proof {
            lemma_u64_pop(*self, amount, mask);
            lemma_pop_keeps_bits(old(self).value(), amount as nat);
        }
        let res: u8 = (*self & (mask as u64)) as u8;
        *self = *self >> amount;
        res
    }
}

impl Register for u128 {
    open spec fn bit_width() -> nat {
        128
    }

    open spec fn value(&self) -> nat {
        *self as nat
    }

    fn zero() -> (r: Self) {
        0
    }

    proof fn lemma_value_bound(&self) {
        lemma_register_bounds();
    }
}

/// Shift-and-or on `u128`, as arithmetic.
proof fn lemma_u128_push(x: u128, amount: u32, mask: u8, chunk: u8)
    requires
        1 <= amount <= 8,
        mask == 0xFFu8 >> ((8 - amount) as u8),
        mask as nat == pow2(amount as nat) - 1,
        chunk <= mask,
    ensures
        ((x << amount) | (chunk as u128)) as nat == (x as nat * pow2(amount as nat) + chunk as nat)
            % pow2(128),
{
    lemma_register_bounds();
    assert(((x << amount) | (chunk as u128)) == (x * (mask + 1) + chunk) % (u128::MAX + 1))
        by (bit_vector)
        requires
            1 <= amount <= 8,
            mask == 0xFFu8 >> ((8 - amount) as u8),
            chunk <= mask,
    ;
}

/// Mask-and-shift on `u128`, as arithmetic.
proof fn lemma_u128_pop(x: u128, amount: u32, mask: u8)
    requires
        1 <= amount <= 8,
        mask == 0xFFu8 >> ((8 - amount) as u8),
        mask as nat == pow2(amount as nat) - 1,
    ensures
        (x & (mask as u128)) as nat == (x as nat) % pow2(amount as nat),
        (x & (mask as u128)) <= mask,
        (x >> amount) as nat == (x as nat) / pow2(amount as nat),
{
    let shift: u128 = amount as u128;
    assert((x & (mask as u128)) == x - (x >> shift) * (mask + 1) && (x & (mask as u128)) <= mask && (x
        >> amount) == (x >> shift)) by (bit_vector)
        requires
            1 <= amount <= 8,
            shift == amount,
            mask == 0xFFu8 >> ((8 - amount) as u8),
    ;
    lemma_u128_shr_is_div(x, shift);
    lemma_fundamental_div_mod(x as int, pow2(amount as nat) as int);
    lemma_mul_is_commutative(
        pow2(amount as nat) as int,
        (x as int) / (pow2(amount as nat) as int),
    );
}

impl PushBits for u128 {
    fn push_bits(&mut self, amount: u32, bits: u8) {
        let mask: u8 = low_mask(amount);
        let chunk: u8 = bits & mask;
        proof {
            lemma_register_bounds();
            lemma_masked_byte(bits, mask, amount);
            lemma_u128_push(*self, amount, mask, chunk);
            if old(self).value() * pow2(amount as nat) < pow2(128) {
                lemma_push_without_loss(128, old(self).value(), amount as nat, bits);
            }
        }
        *self = (*self << amount) | (chunk as u128);
    }
}

impl PopBits for u128 {
    fn pop_bits(&mut self, amount: u32) -> (res: u8) {
        let mask: u8 = low_mask(amount);
        proof {
            lemma_u128_pop(*self, amount, mask);
            lemma_pop_keeps_bits(old(self).value(), amount as nat);
        }
        let res: u8 = (*self & (mask as u128)) as u8;
        *self = *self >> amount;
        res
    }
}

} // verus!
