//! The checks that an enumeration has to pass, once, where it is defined,
//! before it can be a field of a packed record.

use crate::enum_specifier::{fits, fits_in};
use vstd::arithmetic::power2::{
    lemma2_to64, lemma_pow2_pos, lemma_pow2_strictly_increases, lemma_pow2_unfold, pow2,
};
use vstd::prelude::*;

verus! {

/// Why an item cannot be a field of a packed record.
#[derive(Clone, Copy, Debug, PartialEq, Eq, Structural)]
pub enum DefinitionError {
    /// The item is a struct.
    StructNotSupported,
    /// The item is a union.
    UnionNotSupported,
    /// The width is declared more than once.
    DuplicateWidth,
    /// The width's declaration is not of the form `bits = N`.
    MalformedWidth,
    /// No width is declared and the number of variants is no power of two.
    VariantCountNotPowerOfTwo,
    /// The width is not between 1 and 128.
    WidthOutOfRange,
    /// The variant at this index carries data.
    NonUnitVariant { variant: usize },
    /// The discriminant of the variant at this index does not fit in the
    /// width.
    DiscriminantOutOfRange { variant: usize },
}

/// What the user is told about each error.
pub open spec fn message_of(error: DefinitionError) -> Seq<char> {
    match error {
        DefinitionError::StructNotSupported => "structs are not supported as bitfield specifiers"@,
        DefinitionError::UnionNotSupported => "unions are not supported as bitfield specifiers"@,
        DefinitionError::DuplicateWidth => "More than one 'bits' attributes is not permitted"@,
        DefinitionError::MalformedWidth => "could not parse 'bits' attribute"@,
        DefinitionError::VariantCountNotPowerOfTwo => "A BitfieldSpecifier with a non-power-of-2 number of variants must have the 'bits' attribute specified"@,
        DefinitionError::WidthOutOfRange => "the 'bits' of a BitfieldSpecifier must be between 1 and 128"@,
        DefinitionError::NonUnitVariant { .. } => "only unit variants are supported in a BitfieldSpecifier"@,
        DefinitionError::DiscriminantOutOfRange { .. } => "the discriminant does not fit in the 'bits' of the BitfieldSpecifier"@,
    }
}

impl DefinitionError {
    /// What the user is told about the error.
    pub fn message(&self) -> (text: String)
        ensures
            text@ == message_of(*self),
    {
        match self {
            DefinitionError::StructNotSupported => "structs are not supported as bitfield specifiers".to_owned(),
            DefinitionError::UnionNotSupported => "unions are not supported as bitfield specifiers".to_owned(),
            DefinitionError::DuplicateWidth => "More than one 'bits' attributes is not permitted".to_owned(),
            DefinitionError::MalformedWidth => "could not parse 'bits' attribute".to_owned(),
            DefinitionError::VariantCountNotPowerOfTwo => "A BitfieldSpecifier with a non-power-of-2 number of variants must have the 'bits' attribute specified".to_owned(),
            DefinitionError::WidthOutOfRange => "the 'bits' of a BitfieldSpecifier must be between 1 and 128".to_owned(),
            DefinitionError::NonUnitVariant { .. } => "only unit variants are supported in a BitfieldSpecifier".to_owned(),
            DefinitionError::DiscriminantOutOfRange { .. } => "the discriminant does not fit in the 'bits' of the BitfieldSpecifier".to_owned(),
        }
    }
}

/// One variant of an enumeration, as declared.
#[derive(Debug)]
pub struct VariantDecl {
    /// The variant's name.
    pub name: String,
    /// Whether the variant carries no data.
    pub unit: bool,
    /// The variant's discriminant.
    pub discriminant: i128,
}

/// Whether a number is a power of two.
pub open spec fn is_power_of_two(n: nat) -> bool {
    exists|e: nat| pow2(e) == n
}

/// The exponent of a power of two.
pub open spec fn log2_of(n: nat) -> nat {
    choose|e: nat| pow2(e) == n
}

/// Whether a discriminant can stand in a field of `bits` bits.
pub open spec fn in_range(discriminant: i128, bits: nat) -> bool {
    0 <= discriminant && fits(discriminant as nat, bits)
}

/// The index of the first variant from `from` on that carries data.
pub open spec fn first_non_unit(variants: Seq<VariantDecl>, from: int) -> Option<int>
    decreases variants.len() - from,
{
    if from < 0 || from >= variants.len() {
        None
    } else if !variants[from].unit {
        Some(from)
    } else {
        first_non_unit(variants, from + 1)
    }
}

/// The index of the first variant from `from` on whose discriminant cannot
/// stand in a field of `bits` bits.
pub open spec fn first_out_of_range(variants: Seq<VariantDecl>, bits: nat, from: int) -> Option<
    int,
>
    decreases variants.len() - from,
{
    if from < 0 || from >= variants.len() {
        None
    } else if !in_range(variants[from].discriminant, bits) {
        Some(from)
    } else {
        first_out_of_range(variants, bits, from + 1)
    }
}

/// What is wrong with the variants of an enumeration of width `bits`, if
/// anything: a variant that carries data makes the enumeration ineligible
/// whatever its discriminants are; among unit variants, each discriminant
/// has to fit.
pub open spec fn variants_error(variants: Seq<VariantDecl>, bits: nat) -> Option<DefinitionError> {
    match first_non_unit(variants, 0) {
        Some(i) => Some(DefinitionError::NonUnitVariant { variant: i as usize }),
        None => match first_out_of_range(variants, bits, 0) {
            Some(i) => Some(DefinitionError::DiscriminantOutOfRange { variant: i as usize }),
            None => None,
        },
    }
}

/// Powers of two with different exponents differ.
pub proof fn lemma_pow2_injective(a: nat, b: nat)
    requires
        pow2(a) == pow2(b),
    ensures
        a == b,
{
    if a < b {
        lemma_pow2_strictly_increases(a, b);
    } else if b < a {
        lemma_pow2_strictly_increases(b, a);
    }
}

/// An odd number above one times a power of two is no power of two.
proof fn lemma_odd_factor(odd: nat, w: nat, e: nat)
    requires
        odd > 1,
        odd % 2 == 1,
    ensures
        pow2(e) != odd * pow2(w),
    decreases w,
{
    lemma_pow2_pos(w);
    lemma_pow2_pos(e);
    if e == 0 {
        lemma2_to64();
        assert(odd * pow2(w) >= 2) by (nonlinear_arith)
            requires
                odd >= 2,
                pow2(w) >= 1,
        ;
    } else if w == 0 {
        lemma2_to64();
        lemma_pow2_unfold(e);
        assert(odd * pow2(0) == odd);
    } else {
        lemma_pow2_unfold(e);
        lemma_pow2_unfold(w);
        lemma_odd_factor(odd, (w - 1) as nat, (e - 1) as nat);
        assert(odd * (2 * pow2((w - 1) as nat)) == 2 * (odd * pow2((w - 1) as nat)))
            by (nonlinear_arith);
    }
}

/// The width that a number of variants stands for when none is declared:
/// its base-two logarithm, if the number is a power of two.
pub fn implicit_width(count: usize) -> (width: Option<usize>)
    ensures
        width is Some <==> is_power_of_two(count as nat),
        width matches Some(w) ==> w == log2_of(count as nat) && pow2(w as nat) == count,
{
    if count == 0 {
        proof {
            assert forall|e: nat| pow2(e) != 0 by {
                lemma_pow2_pos(e);
            }
        }
        return None;
    }
    let mut rest: usize = count;
    let mut width: usize = 0;
    proof {
        lemma2_to64();
    }
    while rest % 2 == 0
        invariant
            rest > 0,
            count == rest * pow2(width as nat),
            width < 64,
        decreases rest,
    {
        proof {
            lemma_pow2_unfold((width + 1) as nat);
            assert(rest * pow2(width as nat) == (rest / 2) * (2 * pow2(width as nat)))
                by (nonlinear_arith)
                requires
                    rest % 2 == 0,
            ;
            // a count is below 2^64, and so is each power of two that divides it
            if width + 1 >= 64 {
                lemma2_to64();
                if width + 1 > 64 {
                    lemma_pow2_strictly_increases(64, (width + 1) as nat);
                }
                assert((rest / 2) * pow2((width + 1) as nat) >= pow2((width + 1) as nat))
                    by (nonlinear_arith)
                    requires
                        rest / 2 >= 1,
                ;
            }
        }
        rest = rest / 2;
        width = width + 1;
    }
    if rest == 1 {
        proof {
            assert(pow2(width as nat) == count);
            lemma_pow2_injective(width as nat, log2_of(count as nat));
        }
        Some(width)
    } else {
        proof {
            assert forall|e: nat| pow2(e) != count by {
                lemma_odd_factor(rest as nat, width as nat, e);
            }
        }
        None
    }
}

/// Whether a discriminant can stand in a field of `bits` bits.
pub fn discriminant_in_range(discriminant: i128, bits: usize) -> (ok: bool)
    requires
        1 <= bits <= 128,
    ensures
        ok == in_range(discriminant, bits as nat),
{
    discriminant >= 0 && fits_in(discriminant as u128, bits)
}

/// Checks the variants of an enumeration of width `bits`, and reports the
/// first that is at fault.
pub fn check_variants(variants: &Vec<VariantDecl>, bits: usize) -> (checked: Result<
    (),
    DefinitionError,
>)
    requires
        1 <= bits <= 128,
    ensures
        checked == match variants_error(variants@, bits as nat) {
            Some(e) => Err::<(), DefinitionError>(e),
            None => Ok::<(), DefinitionError>(()),
        },
{
    let mut i: usize = 0;
    while i < variants.len()
        invariant
            i <= variants.len(),
            first_non_unit(variants@, 0) == first_non_unit(variants@, i as int),
        decreases variants.len() - i,
    {
        if !variants[i].unit {
            return Err(DefinitionError::NonUnitVariant { variant: i });
        }
        i = i + 1;
    }
    let mut k: usize = 0;
    while k < variants.len()
        invariant
            1 <= bits <= 128,
            k <= variants.len(),
            first_non_unit(variants@, 0) is None,
            first_out_of_range(variants@, bits as nat, 0) == first_out_of_range(
                variants@,
                bits as nat,
                k as int,
            ),
        decreases variants.len() - k,
    {
        if !discriminant_in_range(variants[k].discriminant, bits) {
            return Err(DefinitionError::DiscriminantOutOfRange { variant: k });
        }
        k = k + 1;
    }
    Ok(())
}

/// What the search for a variant with data finds is the first such
/// variant; where it finds none, there is none.
pub proof fn lemma_first_non_unit(variants: Seq<VariantDecl>, from: int)
    requires
        0 <= from,
    ensures
        match first_non_unit(variants, from) {
            Some(at) => from <= at < variants.len() && !variants[at].unit && forall|i: int|
                from <= i < at ==> (#[trigger] variants[i]).unit,
            None => forall|i: int| from <= i < variants.len() ==> (#[trigger] variants[i]).unit,
        },
    decreases variants.len() - from,
{
    if from < variants.len() && variants[from].unit {
        lemma_first_non_unit(variants, from + 1);
    }
}

/// What the search for a discriminant out of range finds is the first
/// such; where it finds none, every discriminant is in range.
pub proof fn lemma_first_out_of_range(variants: Seq<VariantDecl>, bits: nat, from: int)
    requires
        0 <= from,
    ensures
        match first_out_of_range(variants, bits, from) {
            Some(at) => from <= at < variants.len() && !in_range(variants[at].discriminant, bits)
                && forall|i: int|
                from <= i < at ==> in_range(#[trigger] variants[i].discriminant, bits),
            None => forall|i: int|
                from <= i < variants.len() ==> in_range(#[trigger] variants[i].discriminant, bits),
        },
    decreases variants.len() - from,
{
    if from < variants.len() && in_range(variants[from].discriminant, bits) {
        lemma_first_out_of_range(variants, bits, from + 1);
    }
}

} // verus!
