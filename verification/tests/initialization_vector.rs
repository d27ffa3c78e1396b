use pixelveil::bpcs::alpha::Alpha;
use pixelveil::bpcs::dynamic_prefix::{get_n_random_bools, get_prefixed_planes};
use pixelveil::bpcs::initialization_vector::{
    build_conjugation_map_planes, build_iv_planes, build_message_length_iv,
    build_message_remnant_iv, calculate_iv_plane_number,
    extract_conj_map_data_from_conj_map_planes, extract_iv_data_from_iv_planes,
    MESSAGE_LENGTH_IV_BIT_NUMBER, MESSAGE_REMNANT_IV_BIT_NUMBER,
};
use pixelveil::bit_operations::unsigned_int_to_bits;
use pixelveil::errors::SteganographyError;

fn alpha(numer: u32, denom: u32) -> Alpha {
    Alpha::new(numer, denom).unwrap()
}

#[test]
fn test_circular_iv_generation_and_data_extraction() {
    let (min_alpha, message_plane_length, remnant_bit_number) = (alpha(3, 10), 65832usize, 4);
    let iv_planes = build_iv_planes(min_alpha, message_plane_length, remnant_bit_number);

    assert_eq!(
        extract_iv_data_from_iv_planes(iv_planes, min_alpha).unwrap(),
        (message_plane_length, remnant_bit_number)
    );
}

#[test]
fn test_circular_conjugation_map_generation_and_data_extraction() {
    let message_plane_length = 47usize;
    let min_alpha = alpha(3, 10);
    let conjugation_map = get_n_random_bools(message_plane_length as usize);
    let conjugation_map_planes = build_conjugation_map_planes(conjugation_map.clone(), min_alpha);
    assert_eq!(
        extract_conj_map_data_from_conj_map_planes(
            conjugation_map_planes,
            min_alpha,
            message_plane_length
        )
        .unwrap(),
        conjugation_map
    );
}

#[test]
fn test_iv_with_too_long_remnant_is_invalid() {
    let min_alpha = alpha(3, 10);
    let mut planes = get_prefixed_planes(unsigned_int_to_bits(65832, 32), min_alpha);
    planes.extend(get_prefixed_planes(unsigned_int_to_bits(65, 32), min_alpha));
    match extract_iv_data_from_iv_planes(planes, min_alpha) {
        Err(SteganographyError::InvalidIVData(reason)) => {
            assert_eq!(
                reason,
                "Message remnant IV can't be more than the amount of bits per plane (65 > 64)"
            );
        }
        other => panic!("expected invalid IV data, got {other:?}"),
    }
}

#[test]
fn test_iv_round_trip_at_the_edges() {
    for (numer, denom) in [(0u32, 1u32), (1, 5), (3, 10), (1, 2)] {
        let min_alpha = alpha(numer, denom);
        for (planes, remnant) in [(0usize, 0usize), (1, 64), (u32::MAX as usize, 8), (7, 1)] {
            let iv_planes = build_iv_planes(min_alpha, planes, remnant);
            assert_eq!(iv_planes.len(), calculate_iv_plane_number(min_alpha));
            for plane in &iv_planes {
                assert!(plane.is_complex(min_alpha));
            }
            assert_eq!(
                extract_iv_data_from_iv_planes(iv_planes, min_alpha).unwrap(),
                (planes, remnant)
            );
        }
    }
}

#[test]
fn test_iv_plane_numbers() {
    assert_eq!(MESSAGE_LENGTH_IV_BIT_NUMBER, 32);
    assert_eq!(MESSAGE_REMNANT_IV_BIT_NUMBER, 32);
    assert_eq!(calculate_iv_plane_number(alpha(3, 10)), 2);
    assert_eq!(calculate_iv_plane_number(alpha(1, 5)), 2);
    assert_eq!(calculate_iv_plane_number(alpha(1, 2)), 4);
}

#[test]
fn test_iv_fields_are_32_bits_big_endian() {
    let bits = build_message_length_iv(5);
    assert_eq!(bits.len(), 32);
    assert_eq!(&bits[29..], &[true, false, true]);
    assert!(bits[..29].iter().all(|b| !b));
    let bits = build_message_remnant_iv(64);
    assert_eq!(bits.len(), 32);
    assert!(bits[25]);
    assert_eq!(bits.iter().filter(|b| **b).count(), 1);
}

#[test]
fn test_too_few_planes_for_iv_or_map() {
    let min_alpha = alpha(3, 10);
    let mut iv_planes = build_iv_planes(min_alpha, 9, 8);
    iv_planes.pop();
    match extract_iv_data_from_iv_planes(iv_planes, min_alpha) {
        Err(SteganographyError::InsufficientPlaneNumber(expected, got)) => {
            assert_eq!((expected, got), (2, 1));
        }
        other => panic!("expected too few planes, got {other:?}"),
    }
    let map_planes = build_conjugation_map_planes(vec![true; 40], min_alpha);
    assert_eq!(map_planes.len(), 2);
    match extract_conj_map_data_from_conj_map_planes(map_planes, min_alpha, 67) {
        Err(SteganographyError::InsufficientPlaneNumber(expected, got)) => {
            assert_eq!((expected, got), (3, 2));
        }
        other => panic!("expected too few planes, got {other:?}"),
    }
}

#[test]
fn test_iv_extraction_ignores_planes_behind_the_fields() {
    let min_alpha = alpha(1, 5);
    let mut planes = build_iv_planes(min_alpha, 1234, 16);
    planes.extend(build_conjugation_map_planes(vec![true; 10], min_alpha));
    assert_eq!(extract_iv_data_from_iv_planes(planes, min_alpha).unwrap(), (1234, 16));
}
