use modular_bitfield::access::{read_bits, read_specifier, write_bits, write_specifier};
use modular_bitfield::specifier::{Bits, InvalidBitPattern, Specifier, SpecifierBase};

#[test]
fn bool_takes_one_bit_in_a_byte() {
    assert_eq!(<bool as Specifier>::BITS, 1);
    let pattern: Bits<u8> = <bool as Specifier>::into_bits(true);
    assert_eq!(pattern.into_raw(), 0b0000_0001u8);
    assert_eq!(<bool as Specifier>::into_bits(false).into_raw(), 0u8);
}

#[test]
fn bool_from_bits_is_nonzero() {
    assert_eq!(<bool as Specifier>::from_bits(Bits(0)), Ok(false));
    for raw in 1..=u8::MAX {
        assert_eq!(<bool as Specifier>::from_bits(Bits(raw)), Ok(true));
    }
}

#[test]
fn bool_round_trips() {
    for value in [false, true] {
        let pattern = <bool as Specifier>::into_bits(value);
        assert_eq!(<bool as Specifier>::from_bits(pattern), Ok(value));
    }
}

#[test]
fn primitive_widths() {
    assert_eq!(<u8 as Specifier>::BITS, 8);
    assert_eq!(<u16 as Specifier>::BITS, 16);
    assert_eq!(<u32 as Specifier>::BITS, 32);
    assert_eq!(<u64 as Specifier>::BITS, 64);
    assert_eq!(<u128 as Specifier>::BITS, 128);
}

#[test]
fn primitives_round_trip_unchanged() {
    for value in [0u8, 1, 0x7F, 0x80, 0xFF] {
        let pattern = <u8 as Specifier>::into_bits(value);
        assert_eq!(pattern.0, value);
        assert_eq!(<u8 as Specifier>::from_bits(pattern), Ok(value));
    }
    for value in [0u16, 1, 0xABCD, u16::MAX] {
        let pattern = <u16 as Specifier>::into_bits(value);
        assert_eq!(pattern.0, value);
        assert_eq!(<u16 as Specifier>::from_bits(pattern), Ok(value));
    }
    for value in [0u32, 1, 0xDEAD_BEEF, u32::MAX] {
        let pattern = <u32 as Specifier>::into_bits(value);
        assert_eq!(pattern.0, value);
        assert_eq!(<u32 as Specifier>::from_bits(pattern), Ok(value));
    }
    for value in [0u64, 1, 0x0123_4567_89AB_CDEF, u64::MAX] {
        let pattern = <u64 as Specifier>::into_bits(value);
        assert_eq!(pattern.0, value);
        assert_eq!(<u64 as Specifier>::from_bits(pattern), Ok(value));
    }
    for value in [0u128, 1, 1 << 127, u128::MAX] {
        let pattern = <u128 as Specifier>::into_bits(value);
        assert_eq!(pattern.0, value);
        assert_eq!(<u128 as Specifier>::from_bits(pattern), Ok(value));
    }
}

#[test]
fn base_is_the_narrowest_register() {
    for bits in 1..=128usize {
        let expected = if bits <= 8 {
            SpecifierBase::U8
        } else if bits <= 16 {
            SpecifierBase::U16
        } else if bits <= 32 {
            SpecifierBase::U32
        } else if bits <= 64 {
            SpecifierBase::U64
        } else {
            SpecifierBase::U128
        };
        assert_eq!(SpecifierBase::for_bits(bits), Some(expected));
    }
}

#[test]
fn base_at_the_boundaries() {
    assert_eq!(SpecifierBase::for_bits(1), Some(SpecifierBase::U8));
    assert_eq!(SpecifierBase::for_bits(8), Some(SpecifierBase::U8));
    assert_eq!(SpecifierBase::for_bits(9), Some(SpecifierBase::U16));
    assert_eq!(SpecifierBase::for_bits(16), Some(SpecifierBase::U16));
    assert_eq!(SpecifierBase::for_bits(17), Some(SpecifierBase::U32));
    assert_eq!(SpecifierBase::for_bits(32), Some(SpecifierBase::U32));
    assert_eq!(SpecifierBase::for_bits(33), Some(SpecifierBase::U64));
    assert_eq!(SpecifierBase::for_bits(64), Some(SpecifierBase::U64));
    assert_eq!(SpecifierBase::for_bits(65), Some(SpecifierBase::U128));
    assert_eq!(SpecifierBase::for_bits(128), Some(SpecifierBase::U128));
}

#[test]
fn no_base_for_no_bits_or_too_many() {
    assert_eq!(SpecifierBase::for_bits(0), None);
    assert_eq!(SpecifierBase::for_bits(129), None);
    assert_eq!(SpecifierBase::for_bits(usize::MAX), None);
}

#[test]
fn base_widths() {
    assert_eq!(SpecifierBase::U8.bit_width(), 8);
    assert_eq!(SpecifierBase::U16.bit_width(), 16);
    assert_eq!(SpecifierBase::U32.bit_width(), 32);
    assert_eq!(SpecifierBase::U64.bit_width(), 64);
    assert_eq!(SpecifierBase::U128.bit_width(), 128);
}

#[test]
fn invalid_pattern_is_a_value() {
    let failure: Result<bool, InvalidBitPattern> = Err(InvalidBitPattern);
    assert_eq!(failure, Err(InvalidBitPattern));
}

#[derive(Clone, Copy, Debug, PartialEq, Eq)]
enum Gear {
    Park,
    Reverse,
    Drive,
}

impl Gear {
    const BITS: usize = 2;

    fn from_bits(bits: Bits<u8>) -> Result<Gear, InvalidBitPattern> {
        match bits.into_raw() {
            park if park == Gear::Park as u8 => Ok(Gear::Park),
            reverse if reverse == Gear::Reverse as u8 => Ok(Gear::Reverse),
            drive if drive == Gear::Drive as u8 => Ok(Gear::Drive),
            _ => Err(InvalidBitPattern),
        }
    }

    fn into_bits(self) -> Bits<u8> {
        Bits(self as u8)
    }
}

#[test]
fn enum_with_a_gap_round_trips_and_refuses_the_gap() {
    for gear in [Gear::Park, Gear::Reverse, Gear::Drive] {
        assert_eq!(Gear::from_bits(gear.into_bits()), Ok(gear));
    }
    assert_eq!(Gear::from_bits(Bits(3)), Err(InvalidBitPattern));
}

#[test]
fn enum_field_between_two_others() {
    let mut record = [0u8; 2];
    write_specifier::<bool>(&mut record, 6, <bool as Specifier>::into_bits(true));
    write_bits::<u8>(&mut record, 7, Gear::BITS, Gear::Drive.into_bits());
    write_specifier::<bool>(&mut record, 9, <bool as Specifier>::into_bits(true));
    assert_eq!(record, [0b0100_0000, 0b0000_0011]);
    assert_eq!(Gear::from_bits(read_bits::<u8>(&record, 7, Gear::BITS)), Ok(Gear::Drive));
    write_bits::<u8>(&mut record, 7, Gear::BITS, Gear::Park.into_bits());
    assert_eq!(record, [0b0100_0000, 0b0000_0010]);
    write_bits::<u8>(&mut record, 7, Gear::BITS, Bits(3));
    assert_eq!(record, [0b1100_0000, 0b0000_0011]);
    assert_eq!(Gear::from_bits(read_bits::<u8>(&record, 7, Gear::BITS)), Err(InvalidBitPattern));
    assert_eq!(<bool as Specifier>::from_bits(read_specifier::<bool>(&record, 6)), Ok(true));
    assert_eq!(<bool as Specifier>::from_bits(read_specifier::<bool>(&record, 9)), Ok(true));
}
