use steganer::bytetools::{bytes_to_u24, get_bits, get_bytes, left_justify, mask, u24_to_bytes};

const BYTES: [u8; 3] = [0b_0110_1001, 0b_0101_1100, 0b_1110_0011];
const INT: u32 = 6905059;

#[test]
fn test_bytes_to_u24() {
    let returned_int = bytes_to_u24(&BYTES);
    assert_eq!(INT, returned_int,
               "Bytes has not been correctly converted. Expected int was {} what we've got is {}",
               INT, returned_int);
}

#[test]
fn test_u24_to_bytes() {
    let returned_bytes = u24_to_bytes(INT);
    assert_eq!(BYTES, returned_bytes,
               "Integer has not been correctly converted. Expected bytes where {:?} what we've got is {:?}",
               BYTES, returned_bytes);
}

#[test]
fn test_mask() {
    let normal_mask = mask::<u32>(3, false);
    let expected_normal_mask = 0b_0000_0111 as u32;
    assert_eq!(normal_mask, expected_normal_mask,
               "Normal mask not properly generated. Expected mask was {:#b} but we've got {:#b}",
               expected_normal_mask, normal_mask);
    let inverted_mask = mask::<u32>(3, true);
    let expected_inverted_mask = 0b_11111111_11111111_11111111_1111_1000 as u32;
    assert_eq!(inverted_mask, expected_inverted_mask,
               "Inverted mask not properly generated. Expected mask was {:#b} but we've got {:#b}",
               expected_inverted_mask, inverted_mask);
}

#[test]
fn test_get_bits() {
    let bits_u32 = get_bits(INT, 24, 2) as u32;
    assert_eq!(bits_u32, 0b_11u32,
               "Bits not properly extracted from u32. Expected {:#b} but we've got {:#b}",
               0b_11u32, bits_u32);
    let bits_u64 = get_bits(INT as u64, 48, 4) as u64;
    assert_eq!(bits_u64, 0b_0101u64,
               "Bits not properly extracted from u64. Expected {:#b} but we've got {:#b}",
               0b_0101u64, bits_u64);
    let bits_u8 = get_bits(0b_0001_1000_u8, 3, 2) as u8;
    assert_eq!(bits_u8, 0b_11_u8,
               "Bits not properly extracted. Expected {:#b} but we've got {:#b}",
               0b_11_u8, bits_u8);
}

#[test]
fn bytetools_test_left_justify() {
    let data = 0b_11_u32;
    let returned_data = left_justify(data, 2);
    assert_eq!(0b_1100_0000_u8, returned_data[0]);
}

#[test]
fn bytetools_test_get_bytes() {
    // Not enough bits to fill a byte.
    let data_incomplete_byte_length = 5_u8;
    let data_incomplete_byte = (0b_1_0101 as u32) << (32 - data_incomplete_byte_length);
    if let None = get_bytes(data_incomplete_byte, data_incomplete_byte_length) {
        assert!(true);
    }
    // Enough bits to fill a byte and partially a second.
    let data_up_to_second_byte_length = 13_u8;
    let data_up_to_second_byte = (0b_1_0101 as u32) << (32 - data_up_to_second_byte_length);
    if let Some(bytes) = get_bytes(data_up_to_second_byte, data_up_to_second_byte_length) {
        assert_eq!(0_u8, bytes[0],
                   "Recovered first byte was not what we were expecting. Expected {} but got {}.",
                   0_u8, bytes[0]);
        assert_eq!(0b_1010_1000_u8, bytes[1],
                   "Recovered second byte was not what we were expecting. Expected {} but got {}.",
                   0b_1010_1000_u8, bytes[1]);
    }
    // Enough bits to fill two bytes and partially a third.
    let data_up_to_third_byte_length = 21_u8;
    let data_up_to_third_byte = (0b_1_0101 as u32) << (32 - data_up_to_third_byte_length);
    if let Some(bytes) = get_bytes(data_up_to_third_byte, data_up_to_third_byte_length) {
        assert_eq!(0_u8, bytes[0],
                   "Recovered first byte was not what we were expecting. Expected {} but got {}.",
                   0_u8, bytes[0]);
        assert_eq!(0_u8, bytes[1],
                   "Recovered second byte was not what we were expecting. Expected {} but got {}.",
                   0_u8, bytes[1]);
        assert_eq!(0b_1010_1000_u8, bytes[2],
                   "Recovered third byte was not what we were expecting. Expected {} but got {}.",
                   0b_1010_1000_u8, bytes[2]);
    }
    // Enough bits to fill three bytes and partially a fourth.
    let data_up_to_fourth_byte_length = 29_u8;
    let data_up_to_fourth_byte = (0b_1_0101 as u32) << (32 - data_up_to_fourth_byte_length);
    if let Some(bytes) = get_bytes(data_up_to_fourth_byte, data_up_to_fourth_byte_length) {
        assert_eq!(0_u8, bytes[0],
                   "Recovered first byte was not what we were expecting. Expected {} but got {}.",
                   0_u8, bytes[0]);
        assert_eq!(0_u8, bytes[1],
                   "Recovered second byte was not what we were expecting. Expected {} but got {}.",
                   0_u8, bytes[1]);
        assert_eq!(0_u8, bytes[2],
                   "Recovered third byte was not what we were expecting. Expected {} but got {}.",
                   0_u8, bytes[2]);
        assert_eq!(0b_1010_1000_u8, bytes[3],
                   "Recovered fourth byte was not what we were expecting. Expected {} but got {}.",
                   0b_1010_1000_u8, bytes[3]);
    }
}

#[test]
fn test_get_bytes_counts() {
    let data = 0b_1010_0101_1100_0011_1111_0000_0110_1001_u32;
    assert_eq!(None, get_bytes(data, 0));
    assert_eq!(Some(vec![0xA5]), get_bytes(data, 1));
    assert_eq!(Some(vec![0xA5]), get_bytes(data, 8));
    assert_eq!(Some(vec![0xA5, 0xC3]), get_bytes(data, 9));
    assert_eq!(Some(vec![0xA5, 0xC3, 0xF0]), get_bytes(data, 24));
    assert_eq!(Some(vec![0xA5, 0xC3, 0xF0, 0x69]), get_bytes(data, 25));
    assert_eq!(Some(vec![0xA5, 0xC3, 0xF0, 0x69]), get_bytes(data, 32));
}

#[test]
fn test_mask_has_exactly_its_low_bits_set() {
    for length in 0..=8_u8 {
        let normal = mask::<u8>(length, false);
        assert_eq!(length as u32, normal.count_ones());
        assert_eq!(length as u32, normal.trailing_ones());
        assert_eq!(!normal, mask::<u8>(length, true));
    }
    for length in 0..=16_u8 {
        let normal = mask::<u16>(length, false);
        assert_eq!(length as u32, normal.count_ones());
        assert_eq!(length as u32, normal.trailing_ones());
        assert_eq!(!normal, mask::<u16>(length, true));
    }
    for length in 0..=32_u8 {
        let normal = mask::<u32>(length, false);
        assert_eq!(length as u32, normal.count_ones());
        assert_eq!(length as u32, normal.trailing_ones());
        assert_eq!(!normal, mask::<u32>(length, true));
    }
    for length in 0..=64_u8 {
        let normal = mask::<u64>(length, false);
        assert_eq!(length as u32, normal.count_ones());
        assert_eq!(length as u32, normal.trailing_ones());
        assert_eq!(!normal, mask::<u64>(length, true));
    }
}

#[test]
fn test_mask_exact_values() {
    assert_eq!(0_u8, mask::<u8>(0, false));
    assert_eq!(0xFF_u8, mask::<u8>(0, true));
    assert_eq!(0xFF_u8, mask::<u8>(8, false));
    assert_eq!(0_u8, mask::<u8>(8, true));
    assert_eq!(0x00FF_FFFF_u32, mask::<u32>(24, false));
    assert_eq!(0xFF00_0000_u32, mask::<u32>(24, true));
    assert_eq!(0xFFFF_FFFF_u32, mask::<u32>(32, false));
    assert_eq!(0x7FFF_u16, mask::<u16>(15, false));
    assert_eq!(u64::MAX, mask::<u64>(64, false));
    assert_eq!(0xFFFF_FFFF_0000_0000_u64, mask::<u64>(32, true));
}

#[test]
fn test_get_bits_edges() {
    // No bit at all.
    assert_eq!(0_u32, get_bits(0xFFFF_FFFF_u32, 0, 0));
    assert_eq!(0_u64, get_bits(u64::MAX, 0, 0));
    assert_eq!(0_u8, get_bits(0xFF_u8, 8, 0));
    // The whole word.
    assert_eq!(0xDEAD_BEEF_u32, get_bits(0xDEAD_BEEF_u32, 0, 32));
    assert_eq!(0x0123_4567_89AB_CDEF_u64, get_bits(0x0123_4567_89AB_CDEF_u64, 0, 64));
    assert_eq!(0xA7_u8, get_bits(0xA7_u8, 0, 8));
    // First and last bit.
    assert_eq!(1_u32, get_bits(0x8000_0000_u32, 0, 1));
    assert_eq!(1_u32, get_bits(0x0000_0001_u32, 31, 1));
    assert_eq!(0_u32, get_bits(0x7FFF_FFFF_u32, 0, 1));
    // A field in the middle.
    assert_eq!(0xBE_u16, get_bits(0xABEF_u16, 4, 8));
    assert_eq!(0xAD_u32, get_bits(0xDEAD_BEEF_u32, 8, 8));
}

#[test]
fn test_u24_round_trip() {
    for number in [0_u32, 1, 255, 256, 65535, 65536, 6905059, 0x00AB_CDEF, 0x00FF_FFFF] {
        assert_eq!(number, bytes_to_u24(&u24_to_bytes(number)));
    }
    for bytes in [[0_u8, 0, 0], [0, 0, 1], [1, 0, 0], [0x12, 0x34, 0x56], [255, 255, 255]] {
        assert_eq!(bytes, u24_to_bytes(bytes_to_u24(&bytes)));
    }
}

#[test]
fn test_u24_to_bytes_drops_the_top_byte() {
    assert_eq!([0xAB, 0xCD, 0xEF], u24_to_bytes(0x12AB_CDEF));
    assert_eq!([0, 0, 0], u24_to_bytes(0xFF00_0000));
    assert_eq!(0x0001_0203, bytes_to_u24(&[1, 2, 3]));
}

#[test]
fn test_left_justify_exact_values() {
    assert_eq!([0, 0, 0], left_justify(0, 0));
    assert_eq!([0x80, 0, 0], left_justify(1, 1));
    assert_eq!([0xAB, 0xCD, 0xEF], left_justify(0x00AB_CDEF, 24));
    assert_eq!([0xAB, 0xC0, 0], left_justify(0xABC, 12));
    assert_eq!([0b1011_0000, 0, 0], left_justify(0b1011, 4));
    // Bits above the length are dropped.
    assert_eq!([0b1100_0000, 0, 0], left_justify(0b111, 2));
    assert_eq!([0x34, 0x56, 0x78], left_justify(0x1234_5678, 24));
}
