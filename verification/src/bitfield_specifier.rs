//! From the declaration of an item to the field it describes.
//!
//! A declaration arrives as plain data: the item's attributes and, for an
//! enumeration, its variants with their discriminants. It leaves as an
//! [`EnumSpecifier`], or as the first reason why the item cannot be a field.

use crate::checks::{
    check_variants, implicit_width, in_range, is_power_of_two, lemma_first_out_of_range, log2_of,
    message_of, variants_error, DefinitionError, VariantDecl,
};
use crate::enum_specifier::{fits, EnumSpecifier, EnumVariant};
use crate::naming::{arm_binding, is_binding_for};
use vstd::prelude::*;

verus! {

/// What an attribute is set to.
#[derive(Clone, Copy, Debug, PartialEq, Eq, Structural)]
pub enum AttrValue {
    /// An integer literal, as in `bits = 4`.
    Int(usize),
    /// Anything else, or nothing.
    Other,
}

/// One attribute of an item.
#[derive(Debug)]
pub struct AttrDecl {
    /// The attribute's name.
    pub name: String,
    /// What it is set to.
    pub value: AttrValue,
}

/// The declaration of an enumeration.
#[derive(Debug)]
pub struct EnumDecl {
    /// The attributes of the enumeration, in order.
    pub attrs: Vec<AttrDecl>,
    /// The variants, in order.
    pub variants: Vec<VariantDecl>,
}

/// The declaration of an item.
#[derive(Debug)]
pub enum ItemDecl {
    Enum(EnumDecl),
    Struct,
    Union,
}

/// What the attributes of an item say.
#[derive(Clone, Copy, Debug, PartialEq, Eq, Structural)]
pub struct Attributes {
    /// The declared width, if one is declared.
    pub bits: Option<usize>,
}

/// What takes the place of an item's declaration.
#[derive(Debug)]
pub enum Expansion {
    /// The field that the item describes.
    Specifier(EnumSpecifier),
    /// An error for the compiler to report, with its text.
    CompileError(String),
}

/// The values of the attributes called `bits`, in order.
pub open spec fn width_values(attrs: Seq<AttrDecl>) -> Seq<AttrValue>
    decreases attrs.len(),
{
    if attrs.len() == 0 {
        Seq::empty()
    } else {
        let before = width_values(attrs.drop_last());
        if attrs.last().name@ == "bits"@ {
            before.push(attrs.last().value)
        } else {
            before
        }
    }
}

/// The width that the attributes declare. The first declaration has to be
/// an integer, and there may be no second.
pub open spec fn declared_width(attrs: Seq<AttrDecl>) -> Result<Attributes, DefinitionError> {
    let values = width_values(attrs);
    if values.len() == 0 {
        Ok(Attributes { bits: None })
    } else {
        match values[0] {
            AttrValue::Other => Err(DefinitionError::MalformedWidth),
            AttrValue::Int(n) => if values.len() > 1 {
                Err(DefinitionError::DuplicateWidth)
            } else {
                Ok(Attributes { bits: Some(n) })
            },
        }
    }
}

/// The width of the field that an enumeration describes: the declared one,
/// or else the base-two logarithm of the number of variants, which then has
/// to be a power of two. Either way it has to be between 1 and 128.
pub open spec fn chosen_width(input: EnumDecl) -> Result<nat, DefinitionError> {
    match declared_width(input.attrs@) {
        Err(e) => Err(e),
        Ok(attributes) => {
            let count = input.variants@.len();
            let width = match attributes.bits {
                Some(n) => n as nat,
                None => log2_of(count),
            };
            if attributes.bits is None && !is_power_of_two(count) {
                Err(DefinitionError::VariantCountNotPowerOfTwo)
            } else if 1 <= width <= 128 {
                Ok(width)
            } else {
                Err(DefinitionError::WidthOutOfRange)
            }
        },
    }
}

/// The width of the field that an enumeration describes, or the first
/// reason why it describes none: its attributes are looked at first, then
/// the width, then the variants.
pub open spec fn definition_check(input: EnumDecl) -> Result<nat, DefinitionError> {
    match chosen_width(input) {
        Err(e) => Err(e),
        Ok(width) => match variants_error(input.variants@, width) {
            Some(e) => Err(e),
            None => Ok(width),
        },
    }
}

/// A variant of the field is the declared variant: same name, same
/// discriminant, bound under a name made from its own.
pub open spec fn entry_of(entry: EnumVariant, decl: VariantDecl) -> bool {
    &&& entry.name@ == decl.name@
    &&& entry.discriminant as int == decl.discriminant as int
    &&& is_binding_for(entry.binding@, decl.name@)
}

/// `made` is the field of width `width` that `input` describes.
pub open spec fn field_of(made: EnumSpecifier, input: EnumDecl, width: nat) -> bool {
    &&& made.width() == width
    &&& made.entries().len() == input.variants@.len()
    &&& forall|i: int|
        0 <= i < input.variants@.len() ==> entry_of(#[trigger] made.entries()[i], input.variants@[i])
}

/// The values found among the first attributes are the first values found
/// among all.
proof fn lemma_width_values_prefix(attrs: Seq<AttrDecl>, n: int)
    requires
        0 <= n <= attrs.len(),
    ensures
        width_values(attrs.take(n)).len() <= width_values(attrs).len(),
        forall|i: int|
            0 <= i < width_values(attrs.take(n)).len() ==> width_values(attrs.take(n))[i]
                == width_values(attrs)[i],
    decreases attrs.len(),
{
    if n == attrs.len() {
        assert(attrs.take(n) =~= attrs);
    } else {
        assert(attrs.drop_last().take(n) =~= attrs.take(n));
        lemma_width_values_prefix(attrs.drop_last(), n);
    }
}

/// One more attribute adds its value if it is called `bits`.
proof fn lemma_width_values_step(attrs: Seq<AttrDecl>, n: int)
    requires
        0 <= n < attrs.len(),
    ensures
        width_values(attrs.take(n + 1)) == (if attrs[n].name@ == "bits"@ {
            width_values(attrs.take(n)).push(attrs[n].value)
        } else {
            width_values(attrs.take(n))
        }),
{
    assert(attrs.take(n + 1).drop_last() =~= attrs.take(n));
}

/// Reads the declared width off the attributes of an item.
pub fn parse_attrs(attrs: &Vec<AttrDecl>) -> (parsed: Result<Attributes, DefinitionError>)
    ensures
        parsed == declared_width(attrs@),
{
    let key = "bits".to_owned();
    let mut bits: Option<usize> = None;
    let mut i: usize = 0;
    proof {
        assert(attrs@.take(0) =~= Seq::<AttrDecl>::empty());
    }
    while i < attrs.len()
        invariant
            i <= attrs.len(),
            key@ == "bits"@,
            match bits {
                None => width_values(attrs@.take(i as int)).len() == 0,
                Some(n) => width_values(attrs@.take(i as int)) == seq![AttrValue::Int(n)],
            },
        decreases attrs.len() - i,
    {
        proof {
            lemma_width_values_step(attrs@, i as int);
            lemma_width_values_prefix(attrs@, i as int + 1);
        }
        if attrs[i].name == key {
            if bits.is_some() {
                return Err(DefinitionError::DuplicateWidth);
            }
            match attrs[i].value {
                AttrValue::Int(n) => {
                    bits = Some(n);
                },
                AttrValue::Other => {
                    return Err(DefinitionError::MalformedWidth);
                },
            }
        }
        i = i + 1;
    }
    proof {
        assert(attrs@.take(i as int) =~= attrs@);
    }
    Ok(Attributes { bits })
}

/// Turns the declaration of an enumeration into the field it describes.
///
/// The declaration is refused, with the first reason found, if its width
/// is declared twice or not as an integer; if no width is declared and the
/// number of variants is no power of two; if the width is not between 1
/// and 128; if a variant carries data; if a discriminant does not fit in
/// the width.
pub fn generate_enum(input: &EnumDecl) -> (made: Result<EnumSpecifier, DefinitionError>)
    ensures
        match definition_check(*input) {
            Ok(width) => made matches Ok(s) && field_of(s, *input, width),
            Err(e) => made matches Err(err) && err == e,
        },
{
    let attributes = match parse_attrs(&input.attrs) {
        Ok(attributes) => attributes,
        Err(e) => {
            return Err(e);
        },
    };
    let bits: usize = match attributes.bits {
        Some(bits) => bits,
        None => match implicit_width(input.variants.len()) {
            Some(bits) => bits,
            None => {
                return Err(DefinitionError::VariantCountNotPowerOfTwo);
            },
        },
    };
    if bits == 0 || bits > 128 {
        return Err(DefinitionError::WidthOutOfRange);
    }
    match check_variants(&input.variants, bits) {
        Ok(()) => {},
        Err(e) => {
            return Err(e);
        },
    }
    proof {
        lemma_first_out_of_range(input.variants@, bits as nat, 0);
    }
    let mut entries: Vec<EnumVariant> = Vec::new();
    let mut i: usize = 0;
    while i < input.variants.len()
        invariant
            1 <= bits <= 128,
            i <= input.variants.len(),
            entries@.len() == i,
            forall|j: int|
                0 <= j < input.variants@.len() ==> in_range(
                    #[trigger] input.variants@[j].discriminant,
                    bits as nat,
                ),
            forall|j: int| 0 <= j < i ==> entry_of(#[trigger] entries@[j], input.variants@[j]),
            forall|j: int| 0 <= j < i ==> fits(#[trigger] entries@[j].discriminant as nat, bits as nat),
        decreases input.variants.len() - i,
    {
        let decl = &input.variants[i];
        let binding = arm_binding(decl.name.as_str());
        let entry = EnumVariant {
            name: decl.name.clone(),
            binding,
            discriminant: decl.discriminant as u128,
        };
        entries.push(entry);
        i = i + 1;
    }
    Ok(EnumSpecifier::assemble(bits, entries))
}

/// Turns the declaration of an item into the field it describes. Only an
/// enumeration describes one.
pub fn generate_or_error(input: &ItemDecl) -> (made: Result<EnumSpecifier, DefinitionError>)
    ensures
        match *input {
            ItemDecl::Enum(decl) => match definition_check(decl) {
                Ok(width) => made matches Ok(s) && field_of(s, decl, width),
                Err(e) => made matches Err(err) && err == e,
            },
            ItemDecl::Struct => made matches Err(err) && err == DefinitionError::StructNotSupported,
            ItemDecl::Union => made matches Err(err) && err == DefinitionError::UnionNotSupported,
        },
{
    match input {
        ItemDecl::Enum(decl) => generate_enum(decl),
        ItemDecl::Struct => Err(DefinitionError::StructNotSupported),
        ItemDecl::Union => Err(DefinitionError::UnionNotSupported),
    }
}

/// Turns the declaration of an item into what replaces it: the field it
/// describes, or the text of the first reason why it describes none.
pub fn generate(input: &ItemDecl) -> (expansion: Expansion)
    ensures
        match *input {
            ItemDecl::Enum(decl) => match definition_check(decl) {
                Ok(width) => expansion matches Expansion::Specifier(s) && field_of(s, decl, width),
                Err(e) => expansion matches Expansion::CompileError(text) && text@ == message_of(e),
            },
            ItemDecl::Struct => expansion matches Expansion::CompileError(text) && text@
                == message_of(DefinitionError::StructNotSupported),
            ItemDecl::Union => expansion matches Expansion::CompileError(text) && text@
                == message_of(DefinitionError::UnionNotSupported),
        },
{
    match generate_or_error(input) {
        Ok(specifier) => Expansion::Specifier(specifier),
        Err(err) => Expansion::CompileError(err.message()),
    }
}

} // verus!
