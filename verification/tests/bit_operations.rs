use pixelveil::bit_operations::{
    bits_to_bytes, bits_to_u32, bits_to_u64, bits_to_u8, bytes_to_utf8, get_bit_from_u8,
    pack_bits, set_bit_in_u8, u8_to_binary_code, u8_to_gray_code, unsigned_int_to_bits, xor_bits,
};

#[test]
fn test_xor_vecs() {
    let a = vec![true, true, false, false];
    let b = vec![true, false, true, false];
    let c: Vec<bool> = xor_bits(&a, &b);

    assert_eq!(c, vec![false, true, true, false]);
}

#[test]
fn test_xor_bits_stops_at_the_shorter() {
    let a = vec![true, true, false];
    let b = vec![true];
    assert_eq!(xor_bits(&a, &b), vec![false]);
    assert_eq!(xor_bits(&b, &a), vec![false]);
    assert_eq!(xor_bits(&a, &[]), Vec::<bool>::new());
}

#[test]
fn test_bits_to_u8s() {
    let bits = vec![true, false, true, true, false, false, false, true, true];
    let packed: Vec<u8> = bits_to_bytes(&bits);

    assert_eq!(packed, vec![0b10110001, 0b1])
}

#[test]
fn test_bits_to_bytes_of_nothing() {
    assert_eq!(bits_to_bytes(&[]), Vec::<u8>::new());
}

#[test]
fn test_bytes_to_str() {
    let v1 = vec![0x20, 0x00];
    assert_eq!(bytes_to_utf8(&v1).unwrap(), "\x20\x00");
}

#[test]
fn test_bytes_to_str_rejects_invalid_utf8() {
    let v1 = vec![0xff, 0xfe];
    assert!(bytes_to_utf8(&v1).is_err());
    let v2 = vec![0xc3, 0xa9];
    assert_eq!(bytes_to_utf8(&v2).unwrap(), "é");
}

#[test]
fn test_get_bit() {
    let b1 = 0b01000000 as u8;
    assert_eq!(get_bit_from_u8(b1, 1), true)
}

#[test]
fn test_get_bit_every_index() {
    let byte = 0b1010_0110u8;
    let expected = [true, false, true, false, false, true, true, false];
    for i in 0..8u8 {
        assert_eq!(get_bit_from_u8(byte, i), expected[i as usize]);
    }
}

#[test]
fn test_set_bit_changes_one_bit() {
    assert_eq!(set_bit_in_u8(0b0000_0000, 0, true), 0b1000_0000);
    assert_eq!(set_bit_in_u8(0b0000_0000, 7, true), 0b0000_0001);
    assert_eq!(set_bit_in_u8(0b1111_1111, 3, false), 0b1110_1111);
    for byte in 0..=255u8 {
        for i in 0..8u8 {
            for val in [false, true] {
                let out = set_bit_in_u8(byte, i, val);
                for j in 0..8u8 {
                    let expected = if i == j { val } else { get_bit_from_u8(byte, j) };
                    assert_eq!(get_bit_from_u8(out, j), expected);
                }
            }
        }
    }
}

#[test]
fn test_to_gray_code() {
    assert_eq!(0b0010u8, u8_to_gray_code(0b0011u8)); // 3u8
    assert_eq!(0b1100u8, u8_to_gray_code(0b1000u8)); // 8u8
    assert_eq!(0b1011u8, u8_to_gray_code(0b1101u8)); // 13u8
    assert_eq!(0b1000u8, u8_to_gray_code(0b1111u8)); // 15u8
}

#[test]
fn test_to_binary_code() {
    assert_eq!(u8_to_binary_code(0b0010u8), 0b0011u8); // 3u8
    assert_eq!(u8_to_binary_code(0b1100u8), 0b1000u8); // 8u8
    assert_eq!(u8_to_binary_code(0b1011u8), 0b1101u8); // 13u8
    assert_eq!(u8_to_binary_code(0b1000u8), 0b1111u8); // 15u8
}

#[test]
fn test_gray_code_round_trip_of_every_byte() {
    for byte in 0..=255u8 {
        assert_eq!(u8_to_binary_code(u8_to_gray_code(byte)), byte);
        assert_eq!(u8_to_gray_code(u8_to_binary_code(byte)), byte);
    }
}

#[test]
fn test_generic_unsigned_int_to_bits() {
    let num: u8 = 235;
    let bits: [bool; 8] = unsigned_int_to_bits(num as u64, 8).try_into().unwrap();
    let expected = [true, true, true, false, true, false, true, true];
    assert_eq!(bits, expected);

    let num: u16 = 5274;
    let bits: [bool; 16] = unsigned_int_to_bits(num as u64, 16).try_into().unwrap();
    let expected = [
        false, false, false, true, false, true, false, false, true, false, false, true, true,
        false, true, false,
    ];
    assert_eq!(bits, expected);

    let num: u32 = 1583765927;
    let bits: [bool; 32] = unsigned_int_to_bits(num as u64, 32).try_into().unwrap();
    let expected = [
        false, true, false, true, true, true, true, false, false, true, true, false, false, true,
        true, false, false, true, false, true, true, false, false, true, true, false, true, false,
        false, true, true, true,
    ];
    assert_eq!(bits, expected);

    let num: u64 = 837659277593756383;
    let bits: [bool; 64] = unsigned_int_to_bits(num, 64).try_into().unwrap();
    let expected = [
        false, false, false, false, true, false, true, true, true, false, false, true, true, true,
        true, true, true, true, true, true, false, true, true, false, true, false, true, false,
        true, true, false, false, true, true, false, false, false, false, true, true, true, true,
        false, false, true, false, false, true, false, true, false, false, false, false, true,
        false, true, true, false, true, true, true, true, true,
    ];
    assert_eq!(bits, expected);
}

#[test]
fn test_unsigned_int_to_bits_keeps_the_low_bits() {
    assert_eq!(unsigned_int_to_bits(0b1_0000_0101, 4), vec![false, true, false, true]);
    assert_eq!(unsigned_int_to_bits(7, 0), Vec::<bool>::new());
    let wide = unsigned_int_to_bits(1, 70);
    assert_eq!(wide.len(), 70);
    assert!(wide[69]);
    assert!(wide[..69].iter().all(|b| !b));
}

#[test]
fn test_bits_and_numbers_round_trip() {
    for num in [0u64, 1, 4, 64, 65, 65832, 0xffff_ffff] {
        let bits: [bool; 32] = unsigned_int_to_bits(num, 32).try_into().unwrap();
        assert_eq!(bits_to_u32(bits) as u64, num);
    }
    let bits: [bool; 64] = unsigned_int_to_bits(u64::MAX - 5, 64).try_into().unwrap();
    assert_eq!(bits_to_u64(bits), u64::MAX - 5);
    for byte in 0..=255u8 {
        let bits: [bool; 8] = unsigned_int_to_bits(byte as u64, 8).try_into().unwrap();
        assert_eq!(bits_to_u8(bits), byte);
    }
}

#[test]
fn test_pack_bits_of_a_range() {
    let bits = [true, false, true, true, false];
    assert_eq!(pack_bits(&bits, 0, 5), 0b10110);
    assert_eq!(pack_bits(&bits, 1, 4), 0b011);
    assert_eq!(pack_bits(&bits, 2, 2), 0);
}
