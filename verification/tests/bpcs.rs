use pixelveil::bpcs::alpha::Alpha;
use pixelveil::bpcs::bit_plane::BitPlane;
use pixelveil::bpcs::dynamic_prefix::{num_of_prefixed_planes_for_n_bits, prefix_length};
use pixelveil::bpcs::plane_selection::count_accepted_planes;
use pixelveil::bpcs::{
    collect_message_bytes, embed_data, estimate_maximum_capacity, extract_data,
    select_frame_planes, write_planes_at,
};
use pixelveil::errors::SteganographyError;
use pixelveil::image_utils::{image_to_gray_code, RgbImage};
use rand::rngs::StdRng;
use rand::{RngCore, SeedableRng};
use std::collections::HashSet;

fn alpha(numer: u32, denom: u32) -> Alpha {
    Alpha::new(numer, denom).unwrap()
}

fn noise(width: u32, height: u32, seed: u64) -> RgbImage {
    let mut data = vec![0u8; (width * height * 3) as usize];
    StdRng::seed_from_u64(seed).fill_bytes(&mut data);
    RgbImage::from_raw(width, height, data).unwrap()
}

fn noise_bytes(len: usize, seed: u64) -> Vec<u8> {
    let mut data = vec![0u8; len];
    StdRng::seed_from_u64(seed).fill_bytes(&mut data);
    data
}

#[test]
fn test_circular_bpcs() {
    let mut source_image = noise(256, 256, 21);
    let data = noise_bytes(20_001, 22);

    let min_alpha = alpha(3, 10);
    let rng_key = [42u8; 32];

    embed_data(&mut source_image, &data, min_alpha, rng_key).unwrap();

    let extracted = extract_data(source_image, min_alpha, rng_key).unwrap();

    assert_eq!(extracted, data);
}

#[test]
fn test_embed_and_extract_with_other_parameters() {
    let original = noise(512, 512, 1);
    let mut vessel = original.clone();
    let payload = b"HELOOOOOOOOOOOOO".to_vec();
    let min_alpha = alpha(1, 5);
    let rng_key = [42u8; 32];

    embed_data(&mut vessel, &payload, min_alpha, rng_key).unwrap();
    assert_ne!(vessel, original);
    assert_eq!(vessel.dimensions(), original.dimensions());

    assert_eq!(extract_data(vessel.clone(), min_alpha, rng_key).unwrap(), payload);

    match extract_data(vessel.clone(), alpha(3, 10), rng_key) {
        Ok(other) => assert_ne!(other, payload),
        Err(SteganographyError::InvalidIVData(_)) => {}
        Err(SteganographyError::InsufficientPlaneNumber(_, _)) => {}
    }
    match extract_data(vessel.clone(), min_alpha, [43u8; 32]) {
        Ok(other) => assert_ne!(other, payload),
        Err(SteganographyError::InvalidIVData(_)) => {}
        Err(SteganographyError::InsufficientPlaneNumber(_, _)) => {}
    }
}

#[test]
fn test_round_trip_of_every_length_and_threshold() {
    for (numer, denom) in [(0u32, 1u32), (1, 10), (1, 5), (3, 10), (9, 20), (1, 2)] {
        let min_alpha = alpha(numer, denom);
        for len in [1usize, 7, 8, 9, 16, 63, 64, 65, 500] {
            let mut vessel = noise(128, 128, len as u64);
            let payload = noise_bytes(len, 1000 + len as u64);
            let capacity = estimate_maximum_capacity(&vessel, min_alpha);
            assert!(capacity >= len as u64);
            embed_data(&mut vessel, &payload, min_alpha, [7u8; 32]).unwrap();
            assert_eq!(extract_data(vessel, min_alpha, [7u8; 32]).unwrap(), payload);
        }
    }
}

#[test]
fn test_embedding_changes_only_selected_planes_to_complex_planes() {
    let min_alpha = alpha(1, 5);
    let rng_key = [5u8; 32];
    let original = noise(96, 64, 8);
    let payload = noise_bytes(300, 9);
    let mut vessel = original.clone();
    embed_data(&mut vessel, &payload, min_alpha, rng_key).unwrap();

    let mut gray_before = original.clone();
    image_to_gray_code(&mut gray_before);
    let mut gray_after = vessel.clone();
    image_to_gray_code(&mut gray_after);

    let planes = (300 + 7) / 8;
    let frame = select_frame_planes(&gray_before, min_alpha, rng_key, planes).unwrap();
    assert_eq!(frame.iv.len(), 2);
    assert_eq!(frame.map.len(), 1);
    assert_eq!(frame.message.len(), planes);
    let selected: HashSet<_> =
        frame.iv.iter().chain(frame.map.iter()).chain(frame.message.iter()).copied().collect();
    assert_eq!(selected.len(), planes + 3);

    for block_x in 0..12u32 {
        for block_y in 0..8u32 {
            for channel in 0..3u8 {
                for bit_index in 0..8u8 {
                    let coord = (block_x * 8, block_y * 8, channel, bit_index);
                    let before =
                        BitPlane::from_sub_image(&gray_before, coord.0, coord.1, channel, bit_index);
                    let after =
                        BitPlane::from_sub_image(&gray_after, coord.0, coord.1, channel, bit_index);
                    if selected.contains(&coord) {
                        assert!(before.is_complex(min_alpha));
                        assert!(after.is_complex(min_alpha));
                    } else {
                        assert_eq!(before.bits, after.bits);
                    }
                }
            }
        }
    }
    assert_eq!(
        count_accepted_planes(&gray_before, min_alpha),
        count_accepted_planes(&gray_after, min_alpha)
    );
}

#[test]
fn test_embedding_fails_on_a_simple_image_and_leaves_it_gray_coded() {
    let original = RgbImage::from_raw(64, 64, vec![3u8; 64 * 64 * 3]).unwrap();
    let mut vessel = original.clone();
    let min_alpha = alpha(1, 2);
    match embed_data(&mut vessel, &[1, 2, 3], min_alpha, [0u8; 32]) {
        Err(SteganographyError::InsufficientPlaneNumber(expected, got)) => {
            assert_eq!((expected, got), (4, 0));
        }
        other => panic!("expected too few planes, got {other:?}"),
    }
    assert_eq!(vessel, RgbImage::from_raw(64, 64, vec![2u8; 64 * 64 * 3]).unwrap());

    // Room for the length fields and the conjugation map, but not for the message.
    let mut sparse = RgbImage::new(64, 64);
    let patch = noise(8, 8, 3);
    for y in 0..8 {
        for x in 0..8 {
            sparse.put_pixel(x, y, patch.get_pixel(x, y));
        }
    }
    let mut gray = sparse.clone();
    image_to_gray_code(&mut gray);
    let available = count_accepted_planes(&gray, alpha(1, 5)) as usize;
    assert!(available >= 3 && available <= 24);
    match embed_data(&mut sparse, &[0u8; 8 * 40], alpha(1, 5), [0u8; 32]) {
        Err(SteganographyError::InsufficientPlaneNumber(expected, got)) => {
            assert_eq!((expected, got), (40, available - 3));
        }
        other => panic!("expected too few planes, got {other:?}"),
    }
    assert_eq!(sparse, gray);
}

#[test]
fn test_extraction_from_an_image_without_a_message() {
    let black = RgbImage::new(64, 64);
    match extract_data(black, alpha(1, 5), [0u8; 32]) {
        Err(SteganographyError::InsufficientPlaneNumber(expected, got)) => {
            assert_eq!((expected, got), (2, 0));
        }
        other => panic!("expected too few planes, got {other:?}"),
    }
    let mut failures = 0;
    for seed in 0..20u64 {
        match extract_data(noise(64, 64, seed), alpha(1, 5), [0u8; 32]) {
            Err(_) => failures += 1,
            Ok(data) => assert!(data.len() <= 64 * 64 * 3),
        }
    }
    assert!(failures > 0);
}

#[test]
fn test_capacity_formula() {
    let min_alpha = alpha(3, 10);
    let vessel = noise(128, 128, 4);
    let mut gray = vessel.clone();
    image_to_gray_code(&mut gray);
    let accepted = count_accepted_planes(&gray, min_alpha);
    let prefix = prefix_length(min_alpha) as u64;
    let iv = 2 * num_of_prefixed_planes_for_n_bits(32, prefix as usize) as u64;
    let per_plane = 64 - prefix;
    let expected = (accepted - iv - 2) * per_plane / (per_plane + 1) * 8;
    assert_eq!(estimate_maximum_capacity(&vessel, min_alpha), expected);
    assert!(expected > 0);

    assert_eq!(estimate_maximum_capacity(&RgbImage::new(64, 64), min_alpha), 0);
    assert_eq!(estimate_maximum_capacity(&RgbImage::new(0, 0), min_alpha), 0);
    // 1536 planes, 2 for the length fields, prefix 4: (1536 - 4) * 60 / 61 = 1506 planes.
    assert_eq!(estimate_maximum_capacity(&RgbImage::new(64, 64), alpha(0, 1)), 1506 * 8);
}

#[test]
fn test_capacity_falls_as_the_threshold_rises() {
    let vessel = noise(64, 64, 12);
    let mut last = u64::MAX;
    for numer in 0..=50u32 {
        let capacity = estimate_maximum_capacity(&vessel, alpha(numer, 100));
        assert!(capacity <= last);
        last = capacity;
    }
    assert!(estimate_maximum_capacity(&vessel, alpha(0, 1)) > last);
}

#[test]
fn test_a_message_of_the_estimated_capacity_fits() {
    let min_alpha = alpha(2, 5);
    let original = noise(64, 64, 31);
    let capacity = estimate_maximum_capacity(&original, min_alpha) as usize;
    assert!(capacity > 0);
    let payload = noise_bytes(capacity, 32);
    let mut vessel = original.clone();
    embed_data(&mut vessel, &payload, min_alpha, [11u8; 32]).unwrap();
    assert_eq!(extract_data(vessel, min_alpha, [11u8; 32]).unwrap(), payload);
}

#[test]
fn test_write_planes_and_collect_bytes() {
    let mut image = RgbImage::new(16, 16);
    let mut bits = [false; 64];
    bits[0] = true;
    bits[63] = true;
    let first = BitPlane::from_bits(bits);
    let mut second = first;
    second.conjugate();
    write_planes_at(&mut image, &vec![first, second], &vec![(0, 0, 0, 7), (8, 8, 2, 0)]);
    assert_eq!(BitPlane::from_sub_image(&image, 0, 0, 0, 7).bits, first.bits);
    assert_eq!(BitPlane::from_sub_image(&image, 8, 8, 2, 0).bits, second.bits);
    assert_eq!(image.get_pixel(0, 0).0, [1, 0, 0]);
    assert_eq!(image.get_pixel(7, 7).0, [1, 0, 0]);
    assert_eq!(image.get_pixel(8, 9).0, [0, 0, 128]);

    let bytes = collect_message_bytes(&vec![first, second], &vec![false, true]);
    assert_eq!(bytes, vec![128, 0, 0, 0, 0, 0, 0, 1, 128, 0, 0, 0, 0, 0, 0, 1]);
}
