use modular_bitfield::access::{read_bits, read_specifier, write_bits, write_specifier};
use modular_bitfield::specifier::{Bits, Specifier};

fn bit(record: &[u8], pos: usize) -> bool {
    (record[pos / 8] >> (pos % 8)) & 1 == 1
}

#[test]
fn cross_byte_field_round_trips() {
    let mut record = [0u8; 3];
    write_bits::<u16>(&mut record, 4, 12, Bits(0xABC));
    assert_eq!(read_bits::<u16>(&record, 4, 12).into_raw(), 0xABC);
    for pos in 0..4 {
        assert!(!bit(&record, pos));
    }
    for pos in 16..24 {
        assert!(!bit(&record, pos));
    }
    assert_eq!(record, [0xC0, 0xAB, 0x00]);
}

#[test]
fn two_fields_share_a_byte() {
    let mut record = [0u8; 1];
    write_bits::<u8>(&mut record, 0, 3, Bits(5));
    write_bits::<u8>(&mut record, 3, 5, Bits(17));
    assert_eq!(record[0], 0b1000_1101);
    assert_eq!(record[0], 0x8D);
    assert_eq!(read_bits::<u8>(&record, 0, 3).into_raw(), 5);
    assert_eq!(read_bits::<u8>(&record, 3, 5).into_raw(), 17);
}

#[test]
fn shared_byte_in_either_order() {
    let mut record = [0u8; 1];
    write_bits::<u8>(&mut record, 3, 5, Bits(17));
    write_bits::<u8>(&mut record, 0, 3, Bits(5));
    assert_eq!(record[0], 0x8D);
}

#[test]
fn write_changes_no_bit_outside_the_field() {
    let values: [u32; 5] = [0, u32::MAX, 0xA5A5_A5A5, 0x1234_5678, 0x8000_0001];
    let grounds: [[u8; 5]; 3] =
        [[0x00; 5], [0xFF; 5], [0x3C, 0xA5, 0x0F, 0xF0, 0x99]];
    for ground in grounds {
        for offset in 0..40usize {
            for width in 0..=32usize {
                if offset + width > 40 {
                    continue;
                }
                for value in values {
                    let mut record = ground;
                    write_bits::<u32>(&mut record, offset, width, Bits(value));
                    for pos in 0..40usize {
                        if offset <= pos && pos < offset + width {
                            let expected = (value >> (pos - offset)) & 1 == 1;
                            assert_eq!(bit(&record, pos), expected);
                        } else {
                            assert_eq!(bit(&record, pos), bit(&ground, pos));
                        }
                    }
                    let low = if width == 32 {
                        value
                    } else {
                        value & ((1u32 << width) - 1)
                    };
                    assert_eq!(read_bits::<u32>(&record, offset, width).into_raw(), low);
                }
            }
        }
    }
}

#[test]
fn read_clears_what_is_above_the_field() {
    let record = [0xFFu8; 4];
    assert_eq!(read_bits::<u32>(&record, 3, 7).into_raw(), 0x7F);
    assert_eq!(read_bits::<u64>(&record, 0, 32).into_raw(), 0xFFFF_FFFF);
    assert_eq!(read_bits::<u8>(&record, 31, 1).into_raw(), 1);
}

#[test]
fn read_takes_the_lowest_bit_first() {
    let record = [0b0000_0001u8, 0b1000_0000];
    assert_eq!(read_bits::<u16>(&record, 0, 16).into_raw(), 0x8001);
    assert_eq!(read_bits::<u8>(&record, 0, 1).into_raw(), 1);
    assert_eq!(read_bits::<u8>(&record, 1, 7).into_raw(), 0);
    assert_eq!(read_bits::<u8>(&record, 15, 1).into_raw(), 1);
    assert_eq!(read_bits::<u16>(&record, 7, 9).into_raw(), 0x100);
}

#[test]
fn empty_field_reads_zero_and_writes_nothing() {
    let mut record = [0xA5u8, 0x5A];
    write_bits::<u16>(&mut record, 5, 0, Bits(0xFFFF));
    assert_eq!(record, [0xA5, 0x5A]);
    assert_eq!(read_bits::<u16>(&record, 5, 0).into_raw(), 0);
    assert_eq!(read_bits::<u16>(&record, 16, 0).into_raw(), 0);
}

#[test]
fn whole_bytes() {
    let mut record = [0u8; 6];
    write_bits::<u32>(&mut record, 8, 32, Bits(0xDEAD_BEEF));
    assert_eq!(record, [0x00, 0xEF, 0xBE, 0xAD, 0xDE, 0x00]);
    assert_eq!(read_bits::<u32>(&record, 8, 32).into_raw(), 0xDEAD_BEEF);
}

#[test]
fn widest_field_off_the_byte_grid() {
    let value: u128 = 0x0F1E_2D3C_4B5A_6978_8796_A5B4_C3D2_E1F0;
    let mut record = [0xFFu8; 17];
    write_bits::<u128>(&mut record, 3, 128, Bits(value));
    assert_eq!(read_bits::<u128>(&record, 3, 128).into_raw(), value);
    assert_eq!(record[0] & 0b0000_0111, 0b0000_0111);
    assert_eq!(record[16] & 0b1111_1000, 0b1111_1000);
    assert_eq!(record[0] >> 3, (value & 0x1F) as u8);
    assert_eq!(record[16] & 0b0000_0111, (value >> 125) as u8);
}

#[test]
fn write_stores_only_the_low_bits_of_the_value() {
    let mut record = [0u8; 2];
    write_bits::<u16>(&mut record, 2, 5, Bits(0xFFFF));
    assert_eq!(record, [0b0111_1100, 0x00]);
}

#[test]
fn typed_fields_side_by_side() {
    let mut record = [0u8; 4];
    write_specifier::<bool>(&mut record, 0, <bool as Specifier>::into_bits(true));
    write_specifier::<u16>(&mut record, 1, <u16 as Specifier>::into_bits(0xBEEF));
    write_specifier::<bool>(&mut record, 17, <bool as Specifier>::into_bits(false));
    write_specifier::<u8>(&mut record, 18, <u8 as Specifier>::into_bits(0x5A));
    assert_eq!(<bool as Specifier>::from_bits(read_specifier::<bool>(&record, 0)), Ok(true));
    assert_eq!(<u16 as Specifier>::from_bits(read_specifier::<u16>(&record, 1)), Ok(0xBEEF));
    assert_eq!(<bool as Specifier>::from_bits(read_specifier::<bool>(&record, 17)), Ok(false));
    assert_eq!(<u8 as Specifier>::from_bits(read_specifier::<u8>(&record, 18)), Ok(0x5A));
    assert_eq!(record, [0xDF, 0x7D, 0x69, 0x01]);
}

#[test]
fn typed_write_keeps_the_neighbours() {
    let mut record = [0xFFu8; 2];
    write_specifier::<bool>(&mut record, 7, Bits(0));
    assert_eq!(record, [0x7F, 0xFF]);
    write_specifier::<u8>(&mut record, 4, Bits(0));
    assert_eq!(record, [0x0F, 0xF0]);
}
