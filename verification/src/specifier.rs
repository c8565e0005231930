//! The capability that lets a type be stored as a field of a packed
//! record: how many bits it takes, which register carries it, and how its
//! values turn into bit patterns and back.

use crate::bitmath::bit_of;
use crate::register::{PopBits, PushBits, Register};
use vstd::arithmetic::power2::{lemma2_to64, lemma_pow2_adds, pow2};
use vstd::prelude::*;

verus! {

/// A raw bit pattern in a register of type `T`, on its way between the
/// bytes of a record and a value of the field's type.
#[derive(Debug)]
pub struct Bits<T>(pub T);

impl<T: Register> View for Bits<T> {
    type V = nat;

    /// The pattern, read as a number.
    open spec fn view(&self) -> nat {
        self.0.value()
    }
}

impl<T> Bits<T> {
    /// Hands out the register.
    pub fn into_raw(self) -> (raw: T)
        ensures
            raw == self.0,
    {
        self.0
    }
}

/// A bit pattern that stands for no value of the field's type.
#[derive(Clone, Copy, Debug, PartialEq, Eq, Structural)]
pub struct InvalidBitPattern;

/// The width of the narrowest register that holds `bits` bits.
pub open spec fn base_width(bits: nat) -> nat {
    if bits <= 8 {
        8
    } else if bits <= 16 {
        16
    } else if bits <= 32 {
        32
    } else if bits <= 64 {
        64
    } else {
        128
    }
}

/// The five registers a field can be carried in.
#[derive(Clone, Copy, Debug, PartialEq, Eq, Structural)]
pub enum SpecifierBase {
    U8,
    U16,
    U32,
    U64,
    U128,
}

impl SpecifierBase {
    /// The register's width in bits.
    pub open spec fn spec_bit_width(self) -> nat {
        match self {
            SpecifierBase::U8 => 8,
            SpecifierBase::U16 => 16,
            SpecifierBase::U32 => 32,
            SpecifierBase::U64 => 64,
            SpecifierBase::U128 => 128,
        }
    }

    /// The register's width in bits.
    pub fn bit_width(self) -> (width: usize)
        ensures
            width == self.spec_bit_width(),
    {
        match self {
            SpecifierBase::U8 => 8,
            SpecifierBase::U16 => 16,
            SpecifierBase::U32 => 32,
            SpecifierBase::U64 => 64,
            SpecifierBase::U128 => 128,
        }
    }

    /// The narrowest register for a field of `bits` bits; none for a
    /// field of no bits or of more than 128.
    pub fn for_bits(bits: usize) -> (base: Option<SpecifierBase>)
        ensures
            base is Some <==> 1 <= bits <= 128,
            base matches Some(b) ==> b.spec_bit_width() == base_width(bits as nat),
    {
        if bits == 0 || bits > 128 {
            None
        } else if bits <= 8 {
            Some(SpecifierBase::U8)
        } else if bits <= 16 {
            Some(SpecifierBase::U16)
        } else if bits <= 32 {
            Some(SpecifierBase::U32)
        } else if bits <= 64 {
            Some(SpecifierBase::U64)
        } else {
            Some(SpecifierBase::U128)
        }
    }
}

/// The register chosen for a width is wide enough, and no narrower one is.
pub proof fn lemma_base_width_minimal(bits: nat, other: SpecifierBase)
    requires
        1 <= bits <= 128,
    ensures
        bits <= base_width(bits),
        bits <= other.spec_bit_width() ==> base_width(bits) <= other.spec_bit_width(),
{
}

/// A type that can be a field of a packed record.
///
/// `Face` is the type seen where the field is read or written, `Base` the
/// register its pattern travels in, `BITS` the number of bits it takes in
/// the record.
///
/// An impl says which value each pattern stands for and which pattern
/// stands for each value, and proves three things of them: that the width
/// and the register go together, that no pattern of a value is wider than
/// the field, and that every value comes back from its own pattern.
pub trait Specifier {
    /// The field's width in the record.
    const BITS: usize;

    /// The register that carries the field's pattern.
    type Base: PushBits + PopBits;

    /// The type of the field's values.
    type Face;

    /// The value that a pattern stands for, if it stands for one.
    spec fn decoded(pattern: nat) -> Option<Self::Face>;

    /// The pattern that stands for a value.
    spec fn encoded(face: Self::Face) -> nat;

    /// Turns a pattern into the value it stands for. A pattern that stands
    /// for none is reported, never guessed at.
    fn from_bits(bits: Bits<Self::Base>) -> (face: Result<Self::Face, InvalidBitPattern>)
        ensures
            face == match Self::decoded(bits@) {
                Some(f) => Ok::<Self::Face, InvalidBitPattern>(f),
                None => Err(InvalidBitPattern),
            },
    ;

    /// Turns a value into its pattern.
    fn into_bits(face: Self::Face) -> (bits: Bits<Self::Base>)
        ensures
            bits@ == Self::encoded(face),
    ;

    /// The width is between 1 and 128, and the register is the narrowest
    /// that holds it.
    proof fn lemma_widths()
        ensures
            1 <= Self::BITS <= 128,
            <Self::Base as Register>::bit_width() == base_width(Self::BITS as nat),
    ;

    /// A value's pattern fits in the field: every bit from `BITS` up is
    /// clear.
    proof fn lemma_encoded_fits(face: Self::Face)
        ensures
            Self::encoded(face) < pow2(Self::BITS as nat),
    ;

    /// Every value comes back from its own pattern.
    proof fn lemma_round_trip(face: Self::Face)
        ensures
            Self::decoded(Self::encoded(face)) == Some(face),
    ;
}

impl Specifier for bool {
    const BITS: usize = 1;

    type Base = u8;

    type Face = bool;

    open spec fn decoded(pattern: nat) -> Option<bool> {
        Some(pattern != 0)
    }

    open spec fn encoded(face: bool) -> nat {
        if face {
            1
        } else {
            0
        }
    }

    fn from_bits(bits: Bits<u8>) -> (face: Result<bool, InvalidBitPattern>) {
        Ok(bits.0 != 0)
    }

    fn into_bits(face: bool) -> (bits: Bits<u8>) {
        if face {
            Bits(1)
        } else {
            Bits(0)
        }
    }

    proof fn lemma_widths() {
    }

    proof fn lemma_encoded_fits(face: bool) {
        lemma2_to64();
    }

    proof fn lemma_round_trip(face: bool) {
    }
}

/// A boolean takes one bit of a record and travels in a byte. Zero stands
/// for `false` and every other pattern for `true`; `true` is stored as the
/// lowest bit alone, `false` as no bit at all.
pub proof fn lemma_bool_specifier(pattern: nat, index: nat)
    ensures
        <bool as Specifier>::BITS == 1,
        <<bool as Specifier>::Base as Register>::bit_width() == 8,
        <bool as Specifier>::decoded(pattern) == Some(pattern != 0),
        bit_of(<bool as Specifier>::encoded(true), index) == (index == 0),
        !bit_of(<bool as Specifier>::encoded(false), index),
{
    lemma2_to64();
    vstd::arithmetic::power2::lemma_pow2_pos(index);
    if index > 0 {
        vstd::arithmetic::power2::lemma_pow2_strictly_increases(0, index);
    }
    crate::bitmath::lemma_bit_of_small(0, index);
    if index > 0 {
        crate::bitmath::lemma_bit_of_small(1, index);
    }
}

impl Specifier for u8 {
    const BITS: usize = 8;

    type Base = u8;

    type Face = u8;

    open spec fn decoded(pattern: nat) -> Option<u8> {
        if pattern <= u8::MAX {
            Some(pattern as u8)
        } else {
            None
        }
    }

    open spec fn encoded(face: u8) -> nat {
        face as nat
    }

    fn from_bits(bits: Bits<u8>) -> (face: Result<u8, InvalidBitPattern>) {
        Ok(bits.0)
    }

    fn into_bits(face: u8) -> (bits: Bits<u8>) {
        Bits(face)
    }

    proof fn lemma_widths() {
    }

    proof fn lemma_encoded_fits(face: u8) {
        lemma2_to64();
        lemma_pow2_adds(64, 64);
    }

    proof fn lemma_round_trip(face: u8) {
    }
}

impl Specifier for u16 {
    const BITS: usize = 16;

    type Base = u16;

    type Face = u16;

    open spec fn decoded(pattern: nat) -> Option<u16> {
        if pattern <= u16::MAX {
            Some(pattern as u16)
        } else {
            None
        }
    }

    open spec fn encoded(face: u16) -> nat {
        face as nat
    }

    fn from_bits(bits: Bits<u16>) -> (face: Result<u16, InvalidBitPattern>) {
        Ok(bits.0)
    }

    fn into_bits(face: u16) -> (bits: Bits<u16>) {
        Bits(face)
    }

    proof fn lemma_widths() {
    }

    proof fn lemma_encoded_fits(face: u16) {
        lemma2_to64();
        lemma_pow2_adds(64, 64);
    }

    proof fn lemma_round_trip(face: u16) {
    }
}

impl Specifier for u32 {
    const BITS: usize = 32;

    type Base = u32;

    type Face = u32;

    open spec fn decoded(pattern: nat) -> Option<u32> {
        if pattern <= u32::MAX {
            Some(pattern as u32)
        } else {
            None
        }
    }

    open spec fn encoded(face: u32) -> nat {
        face as nat
    }

    fn from_bits(bits: Bits<u32>) -> (face: Result<u32, InvalidBitPattern>) {
        Ok(bits.0)
    }

    fn into_bits(face: u32) -> (bits: Bits<u32>) {
        Bits(face)
    }

    proof fn lemma_widths() {
    }

    proof fn lemma_encoded_fits(face: u32) {
        lemma2_to64();
        lemma_pow2_adds(64, 64);
    }

    proof fn lemma_round_trip(face: u32) {
    }
}

impl Specifier for u64 {
    const BITS: usize = 64;

    type Base = u64;

    type Face = u64;

    open spec fn decoded(pattern: nat) -> Option<u64> {
        if pattern <= u64::MAX {
            Some(pattern as u64)
        } else {
            None
        }
    }

    open spec fn encoded(face: u64) -> nat {
        face as nat
    }

    fn from_bits(bits: Bits<u64>) -> (face: Result<u64, InvalidBitPattern>) {
        Ok(bits.0)
    }

    fn into_bits(face: u64) -> (bits: Bits<u64>) {
        Bits(face)
    }

    proof fn lemma_widths() {
    }

    proof fn lemma_encoded_fits(face: u64) {
        lemma2_to64();
        lemma_pow2_adds(64, 64);
    }

    proof fn lemma_round_trip(face: u64) {
    }
}

impl Specifier for u128 {
    const BITS: usize = 128;

    type Base = u128;

    type Face = u128;

    open spec fn decoded(pattern: nat) -> Option<u128> {
        if pattern <= u128::MAX {
            Some(pattern as u128)
        } else {
            None
        }
    }

    open spec fn encoded(face: u128) -> nat {
        face as nat
    }

    fn from_bits(bits: Bits<u128>) -> (face: Result<u128, InvalidBitPattern>) {
        Ok(bits.0)
    }

    fn into_bits(face: u128) -> (bits: Bits<u128>) {
        Bits(face)
    }

    proof fn lemma_widths() {
    }

    proof fn lemma_encoded_fits(face: u128) {
        lemma2_to64();
        lemma_pow2_adds(64, 64);
    }

    proof fn lemma_round_trip(face: u128) {
    }
}

} // verus!
