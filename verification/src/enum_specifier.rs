//! An enumeration as a field of a packed record: a width and, for each
//! variant, the integer that stands for it.

use crate::specifier::{base_width, Bits, InvalidBitPattern, SpecifierBase};
use vstd::arithmetic::power2::{lemma_pow2_pos, pow2};
use vstd::prelude::*;

verus! {

/// One variant of an enumeration that is stored as a field.
#[derive(Debug)]
pub struct EnumVariant {
    /// The variant's name.
    pub name: String,
    /// The identifier the variant is bound under where patterns are matched.
    pub binding: String,
    /// The integer that stands for the variant in a record.
    pub discriminant: u128,
}

/// Whether a pattern fits in a field of `bits` bits.
pub open spec fn fits(pattern: nat, bits: nat) -> bool {
    pattern < pow2(bits)
}

/// Whether `bits` and `variants` describe a field: the width is between 1
/// and 128 and every discriminant fits in it.
pub open spec fn describes_field(bits: nat, variants: Seq<EnumVariant>) -> bool {
    &&& 1 <= bits <= 128
    &&& forall|i: int| 0 <= i < variants.len() ==> fits(#[trigger] variants[i].discriminant as nat, bits)
}

/// The index of the first variant from `from` on that `pattern` stands for.
pub open spec fn first_with(variants: Seq<EnumVariant>, pattern: nat, from: int) -> Option<int>
    decreases variants.len() - from,
{
    if from < 0 || from >= variants.len() {
        None
    } else if variants[from].discriminant as nat == pattern {
        Some(from)
    } else {
        first_with(variants, pattern, from + 1)
    }
}

/// Whether an integer fits in a field of `bits` bits.
pub fn fits_in(value: u128, bits: usize) -> (fit: bool)
    requires
        1 <= bits <= 128,
    ensures
        fit == fits(value as nat, bits as nat),
{
    if bits == 128 {
        proof {
            vstd::arithmetic::power2::lemma2_to64();
            vstd::arithmetic::power2::lemma_pow2_adds(64, 64);
        }
        true
    } else {
        let shift: u128 = bits as u128;
        let rest: u128 = value >> shift;
        proof {
            let p = pow2(bits as nat) as int;
            lemma_pow2_pos(bits as nat);
            vstd::bits::lemma_u128_shr_is_div(value, shift);
            vstd::arithmetic::div_mod::lemma_fundamental_div_mod(value as int, p);
            vstd::arithmetic::div_mod::lemma_mod_bound(value as int, p);
            if rest > 0 {
                assert(p * (value as int / p) >= p) by (nonlinear_arith)
                    requires
                        value as int / p >= 1,
                        p > 0,
                ;
            } else {
                assert(p * (value as int / p) == 0) by (nonlinear_arith)
                    requires
                        value as int / p == 0,
                ;
            }
        }
        rest == 0
    }
}

/// A validated enumeration field: a width between 1 and 128 and variants
/// whose discriminants all fit in it.
#[derive(Debug)]
pub struct EnumSpecifier {
    bits: usize,
    variants: Vec<EnumVariant>,
}

impl EnumSpecifier {
    #[verifier::type_invariant]
    spec fn valid(&self) -> bool {
        describes_field(self.bits as nat, self.variants@)
    }

    /// The field's width in bits.
    pub closed spec fn width(&self) -> nat {
        self.bits as nat
    }

    /// The variants, in the order of their declaration.
    pub closed spec fn entries(&self) -> Seq<EnumVariant> {
        self.variants@
    }

    /// The variant that a pattern stands for, if it stands for one: the
    /// first whose discriminant it is.
    pub open spec fn decoded(&self, pattern: nat) -> Option<int> {
        first_with(self.entries(), pattern, 0)
    }

    /// The pattern that stands for a variant.
    pub open spec fn encoded(&self, variant: int) -> nat {
        self.entries()[variant].discriminant as nat
    }

    /// The field described by a width and variants, if they describe one.
    pub fn new(bits: usize, variants: Vec<EnumVariant>) -> (made: Option<EnumSpecifier>)
        ensures
            made is Some <==> describes_field(bits as nat, variants@),
            made matches Some(s) ==> s.width() == bits && s.entries() == variants@,
    {
        if bits == 0 || bits > 128 {
            return None;
        }
        let mut i: usize = 0;
        while i < variants.len()
            invariant
                1 <= bits <= 128,
                i <= variants.len(),
                forall|j: int| 0 <= j < i ==> fits(#[trigger] variants[j].discriminant as nat, bits as nat),
            decreases variants.len() - i,
        {
            if !fits_in(variants[i].discriminant, bits) {
                return None;
            }
            i = i + 1;
        }
        Some(EnumSpecifier { bits, variants })
    }

    /// The field described by a width and variants that are known to
    /// describe one.
    pub(crate) fn assemble(bits: usize, variants: Vec<EnumVariant>) -> (made: EnumSpecifier)
        requires
            describes_field(bits as nat, variants@),
        ensures
            made.width() == bits,
            made.entries() == variants@,
    {
        EnumSpecifier { bits, variants }
    }

    /// The field's width in bits.
    pub fn bits(&self) -> (bits: usize)
        ensures
            bits == self.width(),
            1 <= bits <= 128,
    {
        proof {
            use_type_invariant(self);
        }
        self.bits
    }

    /// The register that carries the field: the narrowest that holds it.
    pub fn base(&self) -> (base: SpecifierBase)
        ensures
            base.spec_bit_width() == base_width(self.width()),
    {
        proof {
            use_type_invariant(self);
        }
        match SpecifierBase::for_bits(self.bits) {
            Some(base) => base,
            None => SpecifierBase::U128,
        }
    }

    /// The number of variants.
    pub fn variant_count(&self) -> (count: usize)
        ensures
            count == self.entries().len(),
    {
        self.variants.len()
    }

    /// The variant at `index`.
    pub fn variant(&self, index: usize) -> (entry: &EnumVariant)
        requires
            index < self.entries().len(),
        ensures
            *entry == self.entries()[index as int],
    {
        &self.variants[index]
    }

    /// Finds the variant that a pattern stands for. A pattern that is no
    /// variant's discriminant is reported as such.
    pub fn from_bits(&self, bits: Bits<u128>) -> (variant: Result<usize, InvalidBitPattern>)
        ensures
            match self.decoded(bits@) {
                Some(index) => variant == Ok::<usize, InvalidBitPattern>(index as usize),
                None => variant == Err::<usize, InvalidBitPattern>(InvalidBitPattern),
            },
            variant matches Ok(index) ==> index < self.entries().len(),
    {
        let raw: u128 = bits.into_raw();
        let mut i: usize = 0;
        while i < self.variants.len()
            invariant
                i <= self.variants.len(),
                raw as nat == bits@,
                first_with(self.variants@, raw as nat, 0) == first_with(
                    self.variants@,
                    raw as nat,
                    i as int,
                ),
            decreases self.variants.len() - i,
        {
            if self.variants[i].discriminant == raw {
                return Ok(i);
            }
            i = i + 1;
        }
        Err(InvalidBitPattern)
    }

    /// The pattern that stands for the variant at index `variant`. It fits
    /// in the field.
    pub fn into_bits(&self, variant: usize) -> (bits: Bits<u128>)
        requires
            variant < self.entries().len(),
        ensures
            bits@ == self.encoded(variant as int),
            fits(bits@, self.width()),
    {
        proof {
            use_type_invariant(self);
        }
        Bits(self.variants[variant].discriminant)
    }

    /// A pattern that stands for a variant is that variant's pattern.
    pub proof fn lemma_decoded_encodes(&self, pattern: nat)
        ensures
            self.decoded(pattern) matches Some(variant) ==> 0 <= variant < self.entries().len()
                && self.encoded(variant) == pattern,
    {
        lemma_first_with_found(self.entries(), pattern, 0);
    }

    /// A variant comes back from its own pattern, unless a variant declared
    /// before it has the same discriminant.
    pub proof fn lemma_round_trip(&self, variant: int)
        requires
            0 <= variant < self.entries().len(),
            forall|j: int|
                0 <= j < variant ==> (#[trigger] self.entries()[j]).discriminant
                    != self.entries()[variant].discriminant,
        ensures
            self.decoded(self.encoded(variant)) == Some(variant),
    {
        lemma_first_with(self.entries(), self.encoded(variant), 0, variant);
    }
}

/// The search from `from` finds `at` when no variant before `at` matches.
proof fn lemma_first_with(variants: Seq<EnumVariant>, pattern: nat, from: int, at: int)
    requires
        0 <= from <= at < variants.len(),
        variants[at].discriminant as nat == pattern,
        forall|j: int| from <= j < at ==> (#[trigger] variants[j]).discriminant as nat != pattern,
    ensures
        first_with(variants, pattern, from) == Some(at),
    decreases at - from,
{
    if from < at {
        lemma_first_with(variants, pattern, from + 1, at);
    }
}

/// What the search from `from` finds is the first variant with that
/// pattern; where it finds none, no variant has it.
pub proof fn lemma_first_with_found(variants: Seq<EnumVariant>, pattern: nat, from: int)
    requires
        0 <= from,
    ensures
        match first_with(variants, pattern, from) {
            Some(at) => from <= at < variants.len() && variants[at].discriminant as nat == pattern
                && forall|i: int|
                from <= i < at ==> (#[trigger] variants[i]).discriminant as nat != pattern,
            None => forall|i: int|
                from <= i < variants.len() ==> (#[trigger] variants[i]).discriminant as nat
                    != pattern,
        },
    decreases variants.len() - from,
{
    if from < variants.len() && variants[from].discriminant as nat != pattern {
        lemma_first_with_found(variants, pattern, from + 1);
    }
}

} // verus!
