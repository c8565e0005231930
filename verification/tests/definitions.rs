use modular_bitfield::access::{read_bits, write_bits};
use modular_bitfield::bitfield_specifier::{
    generate, generate_enum, generate_or_error, parse_attrs, AttrDecl, AttrValue, Attributes,
    EnumDecl, Expansion, ItemDecl,
};
use modular_bitfield::checks::{
    check_variants, discriminant_in_range, implicit_width, DefinitionError, VariantDecl,
};
use modular_bitfield::enum_specifier::{fits_in, EnumSpecifier, EnumVariant};
use modular_bitfield::naming::{arm_binding, binding_name};
use modular_bitfield::specifier::{Bits, InvalidBitPattern, SpecifierBase};

fn unit(name: &str, discriminant: i128) -> VariantDecl {
    VariantDecl { name: name.to_string(), unit: true, discriminant }
}

fn with_data(name: &str, discriminant: i128) -> VariantDecl {
    VariantDecl { name: name.to_string(), unit: false, discriminant }
}

fn bits_attr(value: usize) -> AttrDecl {
    AttrDecl { name: "bits".to_string(), value: AttrValue::Int(value) }
}

fn other_attr(name: &str) -> AttrDecl {
    AttrDecl { name: name.to_string(), value: AttrValue::Other }
}

fn counted(names: &[&str]) -> Vec<VariantDecl> {
    let mut variants = Vec::new();
    for (index, name) in names.iter().enumerate() {
        variants.push(unit(name, index as i128));
    }
    variants
}

fn error_of(decl: EnumDecl) -> DefinitionError {
    match generate_enum(&decl) {
        Ok(made) => panic!("accepted: {:?}", made),
        Err(error) => error,
    }
}

fn field_of(decl: EnumDecl) -> EnumSpecifier {
    match generate_enum(&decl) {
        Ok(made) => made,
        Err(error) => panic!("refused: {:?}", error),
    }
}

fn entry(name: &str, discriminant: u128) -> EnumVariant {
    EnumVariant { name: name.to_string(), binding: name.to_lowercase(), discriminant }
}

#[test]
fn three_variants_need_a_declared_width() {
    let decl = EnumDecl { attrs: vec![], variants: counted(&["A", "B", "C"]) };
    assert_eq!(error_of(decl), DefinitionError::VariantCountNotPowerOfTwo);
}

#[test]
fn discriminant_four_does_not_fit_two_bits() {
    let decl = EnumDecl {
        attrs: vec![bits_attr(2)],
        variants: vec![unit("A", 0), unit("B", 1), unit("C", 4)],
    };
    assert_eq!(error_of(decl), DefinitionError::DiscriminantOutOfRange { variant: 2 });
}

#[test]
fn discriminant_three_fits_two_bits() {
    let decl = EnumDecl {
        attrs: vec![bits_attr(2)],
        variants: vec![unit("A", 0), unit("B", 1), unit("C", 3)],
    };
    let made = field_of(decl);
    assert_eq!(made.bits(), 2);
    assert_eq!(made.base(), SpecifierBase::U8);
    assert_eq!(made.variant_count(), 3);
    assert_eq!(made.variant(2).name, "C");
    assert_eq!(made.variant(2).discriminant, 3);
}

#[test]
fn width_follows_from_a_power_of_two_of_variants() {
    let two = field_of(EnumDecl { attrs: vec![], variants: counted(&["A", "B"]) });
    assert_eq!(two.bits(), 1);
    let four = field_of(EnumDecl { attrs: vec![], variants: counted(&["A", "B", "C", "D"]) });
    assert_eq!(four.bits(), 2);
    let names: Vec<String> = (0..512).map(|i| format!("V{}", i)).collect();
    let refs: Vec<&str> = names.iter().map(|name| name.as_str()).collect();
    let many = field_of(EnumDecl { attrs: vec![], variants: counted(&refs) });
    assert_eq!(many.bits(), 9);
    assert_eq!(many.base(), SpecifierBase::U16);
}

#[test]
fn implicit_width_checks_the_discriminants_too() {
    let decl = EnumDecl { attrs: vec![], variants: vec![unit("A", 0), unit("B", 2)] };
    assert_eq!(error_of(decl), DefinitionError::DiscriminantOutOfRange { variant: 1 });
}

#[test]
fn one_variant_gives_no_width() {
    let decl = EnumDecl { attrs: vec![], variants: counted(&["Only"]) };
    assert_eq!(error_of(decl), DefinitionError::WidthOutOfRange);
}

#[test]
fn no_variant_is_no_power_of_two() {
    let decl = EnumDecl { attrs: vec![], variants: vec![] };
    assert_eq!(error_of(decl), DefinitionError::VariantCountNotPowerOfTwo);
}

#[test]
fn declared_width_has_to_be_between_1_and_128() {
    let zero = EnumDecl { attrs: vec![bits_attr(0)], variants: counted(&["A"]) };
    assert_eq!(error_of(zero), DefinitionError::WidthOutOfRange);
    let wide = EnumDecl { attrs: vec![bits_attr(129)], variants: counted(&["A"]) };
    assert_eq!(error_of(wide), DefinitionError::WidthOutOfRange);
    let widest = field_of(EnumDecl {
        attrs: vec![bits_attr(128)],
        variants: vec![unit("A", 0), unit("B", i128::MAX)],
    });
    assert_eq!(widest.bits(), 128);
    assert_eq!(widest.base(), SpecifierBase::U128);
    let narrowest = field_of(EnumDecl { attrs: vec![bits_attr(1)], variants: counted(&["A"]) });
    assert_eq!(narrowest.bits(), 1);
}

#[test]
fn width_declared_twice() {
    let decl = EnumDecl {
        attrs: vec![bits_attr(2), other_attr("repr"), bits_attr(2)],
        variants: counted(&["A", "B"]),
    };
    assert_eq!(error_of(decl), DefinitionError::DuplicateWidth);
}

#[test]
fn width_not_an_integer() {
    let decl = EnumDecl { attrs: vec![other_attr("bits")], variants: counted(&["A", "B"]) };
    assert_eq!(error_of(decl), DefinitionError::MalformedWidth);
}

#[test]
fn first_declaration_is_read_before_the_second_is_counted() {
    let malformed_first = vec![other_attr("bits"), bits_attr(3)];
    assert_eq!(parse_attrs(&malformed_first), Err(DefinitionError::MalformedWidth));
    let malformed_second = vec![bits_attr(3), other_attr("bits")];
    assert_eq!(parse_attrs(&malformed_second), Err(DefinitionError::DuplicateWidth));
}

#[test]
fn attributes_of_other_names_are_passed_over() {
    assert_eq!(parse_attrs(&vec![]), Ok(Attributes { bits: None }));
    let others = vec![other_attr("derive"), other_attr("repr")];
    assert_eq!(parse_attrs(&others), Ok(Attributes { bits: None }));
    let mixed = vec![
        other_attr("derive"),
        AttrDecl { name: "bit".to_string(), value: AttrValue::Int(9) },
        bits_attr(5),
        AttrDecl { name: "Bits".to_string(), value: AttrValue::Int(7) },
    ];
    assert_eq!(parse_attrs(&mixed), Ok(Attributes { bits: Some(5) }));
}

#[test]
fn attribute_errors_come_before_the_count_of_variants() {
    let decl = EnumDecl {
        attrs: vec![bits_attr(2), bits_attr(2)],
        variants: counted(&["A", "B", "C"]),
    };
    assert_eq!(error_of(decl), DefinitionError::DuplicateWidth);
}

#[test]
fn variant_with_data_makes_the_enum_ineligible() {
    let decl = EnumDecl {
        attrs: vec![bits_attr(2)],
        variants: vec![unit("A", 0), with_data("B", 1), with_data("C", 2)],
    };
    assert_eq!(error_of(decl), DefinitionError::NonUnitVariant { variant: 1 });
}

#[test]
fn variant_with_data_is_reported_before_any_discriminant() {
    let decl = EnumDecl {
        attrs: vec![bits_attr(1)],
        variants: vec![unit("A", 9), with_data("B", 1)],
    };
    assert_eq!(error_of(decl), DefinitionError::NonUnitVariant { variant: 1 });
}

#[test]
fn width_is_checked_before_the_variants() {
    let decl = EnumDecl { attrs: vec![bits_attr(200)], variants: vec![with_data("A", 0)] };
    assert_eq!(error_of(decl), DefinitionError::WidthOutOfRange);
}

#[test]
fn negative_discriminant_is_out_of_range() {
    let decl = EnumDecl { attrs: vec![bits_attr(8)], variants: vec![unit("A", -1), unit("B", 0)] };
    assert_eq!(error_of(decl), DefinitionError::DiscriminantOutOfRange { variant: 0 });
}

#[test]
fn check_variants_reports_the_first_at_fault() {
    assert_eq!(check_variants(&vec![], 1), Ok(()));
    assert_eq!(check_variants(&vec![unit("A", 0), unit("B", 255)], 8), Ok(()));
    assert_eq!(
        check_variants(&vec![unit("A", 0), unit("B", 256), unit("C", 512)], 8),
        Err(DefinitionError::DiscriminantOutOfRange { variant: 1 })
    );
    assert_eq!(
        check_variants(&vec![unit("A", 256), with_data("B", 0), with_data("C", 0)], 8),
        Err(DefinitionError::NonUnitVariant { variant: 1 })
    );
}

#[test]
fn discriminant_range() {
    assert!(discriminant_in_range(0, 1));
    assert!(discriminant_in_range(1, 1));
    assert!(!discriminant_in_range(2, 1));
    assert!(!discriminant_in_range(-1, 1));
    assert!(discriminant_in_range(3, 2));
    assert!(!discriminant_in_range(4, 2));
    assert!(discriminant_in_range((1 << 64) - 1, 64));
    assert!(!discriminant_in_range(1 << 64, 64));
    assert!(discriminant_in_range(i128::MAX, 127));
    assert!(discriminant_in_range(i128::MAX, 128));
    assert!(!discriminant_in_range(i128::MIN, 128));
}

#[test]
fn fits_in_a_width() {
    assert!(fits_in(0, 1));
    assert!(fits_in(1, 1));
    assert!(!fits_in(2, 1));
    assert!(fits_in(0xFFFF, 16));
    assert!(!fits_in(0x1_0000, 16));
    assert!(fits_in((1 << 127) - 1, 127));
    assert!(!fits_in(1 << 127, 127));
    assert!(fits_in(u128::MAX, 128));
}

#[test]
fn implicit_width_is_the_exact_logarithm() {
    assert_eq!(implicit_width(0), None);
    assert_eq!(implicit_width(1), Some(0));
    assert_eq!(implicit_width(2), Some(1));
    assert_eq!(implicit_width(3), None);
    assert_eq!(implicit_width(4), Some(2));
    assert_eq!(implicit_width(6), None);
    assert_eq!(implicit_width(8), Some(3));
    assert_eq!(implicit_width(12), None);
    assert_eq!(implicit_width(1024), Some(10));
    assert_eq!(implicit_width(1025), None);
    assert_eq!(implicit_width(1 << 31), Some(31));
    assert_eq!(implicit_width(usize::MAX), None);
    assert_eq!(implicit_width(usize::MAX / 2 + 1), Some(usize::BITS as usize - 1));
}

#[test]
fn structs_and_unions_are_refused() {
    match generate_or_error(&ItemDecl::Struct) {
        Err(error) => assert_eq!(error, DefinitionError::StructNotSupported),
        Ok(made) => panic!("accepted: {:?}", made),
    }
    match generate_or_error(&ItemDecl::Union) {
        Err(error) => assert_eq!(error, DefinitionError::UnionNotSupported),
        Ok(made) => panic!("accepted: {:?}", made),
    }
}

#[test]
fn generate_turns_an_error_into_its_text() {
    match generate(&ItemDecl::Struct) {
        Expansion::CompileError(text) => {
            assert_eq!(text, "structs are not supported as bitfield specifiers")
        }
        Expansion::Specifier(made) => panic!("accepted: {:?}", made),
    }
    match generate(&ItemDecl::Union) {
        Expansion::CompileError(text) => {
            assert_eq!(text, "unions are not supported as bitfield specifiers")
        }
        Expansion::Specifier(made) => panic!("accepted: {:?}", made),
    }
    let odd = ItemDecl::Enum(EnumDecl { attrs: vec![], variants: counted(&["A", "B", "C"]) });
    match generate(&odd) {
        Expansion::CompileError(text) => assert_eq!(
            text,
            "A BitfieldSpecifier with a non-power-of-2 number of variants must have the 'bits' attribute specified"
        ),
        Expansion::Specifier(made) => panic!("accepted: {:?}", made),
    }
}

#[test]
fn generate_hands_out_the_field() {
    let item = ItemDecl::Enum(EnumDecl { attrs: vec![], variants: counted(&["Off", "On"]) });
    match generate(&item) {
        Expansion::Specifier(made) => {
            assert_eq!(made.bits(), 1);
            assert_eq!(made.variant_count(), 2);
            assert_eq!(made.variant(0).name, "Off");
            assert_eq!(made.variant(1).name, "On");
        }
        Expansion::CompileError(text) => panic!("refused: {}", text),
    }
}

#[test]
fn every_error_has_its_text() {
    assert_eq!(
        DefinitionError::DuplicateWidth.message(),
        "More than one 'bits' attributes is not permitted"
    );
    assert_eq!(DefinitionError::MalformedWidth.message(), "could not parse 'bits' attribute");
    assert_eq!(
        DefinitionError::WidthOutOfRange.message(),
        "the 'bits' of a BitfieldSpecifier must be between 1 and 128"
    );
    assert_eq!(
        DefinitionError::NonUnitVariant { variant: 3 }.message(),
        "only unit variants are supported in a BitfieldSpecifier"
    );
    assert_eq!(
        DefinitionError::DiscriminantOutOfRange { variant: 0 }.message(),
        "the discriminant does not fit in the 'bits' of the BitfieldSpecifier"
    );
}

#[test]
fn variants_are_bound_in_snake_case() {
    let made = field_of(EnumDecl {
        attrs: vec![bits_attr(4)],
        variants: vec![unit("Idle", 0), unit("HalfOpen", 5), unit("XMLHttpRequest", 9)],
    });
    assert_eq!(made.variant(0).binding, "idle");
    assert_eq!(made.variant(1).binding, "half_open");
    assert_eq!(made.variant(2).binding, "xml_http_request");
    assert_eq!(made.variant(1).name, "HalfOpen");
    assert_eq!(made.variant(1).discriminant, 5);
}

#[test]
fn reserved_words_are_bound_as_raw_identifiers() {
    let made = field_of(EnumDecl {
        attrs: vec![],
        variants: vec![unit("Type", 0), unit("Match", 1), unit("Loop", 2), unit("Plain", 3)],
    });
    assert_eq!(made.variant(0).binding, "r#type");
    assert_eq!(made.variant(1).binding, "r#match");
    assert_eq!(made.variant(2).binding, "r#loop");
    assert_eq!(made.variant(3).binding, "plain");
}

#[test]
fn arm_binding_of_a_name() {
    assert_eq!(arm_binding("CamelCase"), "camel_case");
    assert_eq!(arm_binding("snake_case"), "snake_case");
    assert_eq!(arm_binding("SHOUTY_SNAKE_CASE"), "shouty_snake_case");
    assert_eq!(arm_binding("B"), "b");
    assert_eq!(arm_binding("Fn"), "r#fn");
    assert_eq!(arm_binding("Move"), "r#move");
    assert_eq!(arm_binding("SelfTest"), "self_test");
}

#[test]
fn binding_name_marks_what_is_not_plain() {
    assert_eq!(binding_name("open".to_string(), true), "open");
    assert_eq!(binding_name("open".to_string(), false), "r#open");
    assert_eq!(binding_name(String::new(), true), "");
    assert_eq!(binding_name(String::new(), false), "r#");
}

#[test]
fn enum_field_needs_a_width_and_fitting_discriminants() {
    assert!(EnumSpecifier::new(0, vec![]).is_none());
    assert!(EnumSpecifier::new(129, vec![]).is_none());
    assert!(EnumSpecifier::new(2, vec![entry("A", 0), entry("B", 4)]).is_none());
    assert!(EnumSpecifier::new(2, vec![entry("A", 0), entry("B", 3)]).is_some());
    assert!(EnumSpecifier::new(128, vec![entry("A", u128::MAX)]).is_some());
    assert!(EnumSpecifier::new(1, vec![]).is_some());
}

#[test]
fn enum_variants_round_trip() {
    let made = EnumSpecifier::new(3, vec![entry("A", 0), entry("B", 5), entry("C", 7)])
        .expect("a field");
    for variant in 0..made.variant_count() {
        let pattern = made.into_bits(variant);
        assert_eq!(pattern.0, made.variant(variant).discriminant);
        assert_eq!(made.from_bits(pattern), Ok(variant));
    }
}

#[test]
fn pattern_of_no_variant_fails_to_decode() {
    let made = EnumSpecifier::new(3, vec![entry("A", 0), entry("B", 5), entry("C", 7)])
        .expect("a field");
    for raw in [1u128, 2, 3, 4, 6, 8, 0x105, u128::MAX] {
        assert_eq!(made.from_bits(Bits(raw)), Err(InvalidBitPattern));
    }
    let empty = EnumSpecifier::new(1, vec![]).expect("a field");
    assert_eq!(empty.from_bits(Bits(0)), Err(InvalidBitPattern));
}

#[test]
fn first_of_two_equal_discriminants_is_decoded() {
    let made =
        EnumSpecifier::new(2, vec![entry("A", 1), entry("B", 1), entry("C", 2)]).expect("a field");
    assert_eq!(made.from_bits(made.into_bits(0)), Ok(0));
    assert_eq!(made.from_bits(made.into_bits(1)), Ok(0));
    assert_eq!(made.from_bits(made.into_bits(2)), Ok(2));
}

#[test]
fn enum_field_in_a_record() {
    let made = field_of(EnumDecl {
        attrs: vec![bits_attr(3)],
        variants: vec![unit("North", 1), unit("East", 2), unit("South", 4), unit("West", 7)],
    });
    let mut record = [0xFFu8; 2];
    write_bits::<u128>(&mut record, 6, made.bits(), made.into_bits(2));
    assert_eq!(record, [0x3F, 0xFF]);
    let pattern = read_bits::<u128>(&record, 6, made.bits());
    assert_eq!(made.from_bits(pattern), Ok(2));
    write_bits::<u128>(&mut record, 6, made.bits(), Bits(3));
    let gap = read_bits::<u128>(&record, 6, made.bits());
    assert_eq!(made.from_bits(gap), Err(InvalidBitPattern));
}
