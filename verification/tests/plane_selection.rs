use pixelveil::bpcs::alpha::Alpha;
use pixelveil::bpcs::bit_plane::{BitPlane, PlaneCoord};
use pixelveil::bpcs::bit_plane_iter::BitIndexedBitPlaneIter;
use pixelveil::bpcs::plane_selection::{
    collect_accepted_planes_at_bit_index, count_accepted_planes, drain_n_random_items_from_vec,
    PlaneSelector,
};
use pixelveil::errors::SteganographyError;
use pixelveil::image_utils::RgbImage;
use rand::rngs::StdRng;
use rand::{RngCore, SeedableRng};
use std::collections::HashSet;

fn selection_alpha() -> Alpha {
    Alpha::new(1, 5).unwrap()
}

fn noise_image(width: u32, height: u32, seed: u64) -> RgbImage {
    let mut data = vec![0u8; (width * height * 3) as usize];
    StdRng::seed_from_u64(seed).fill_bytes(&mut data);
    RgbImage::from_raw(width, height, data).unwrap()
}

/// A black image with noise in its first `blocks` blocks of the top row.
fn sparse_image(blocks: u32) -> RgbImage {
    let noise = noise_image(8 * blocks, 8, 7);
    let mut image = RgbImage::new(64, 64);
    for y in 0..8 {
        for x in 0..8 * blocks {
            image.put_pixel(x, y, noise.get_pixel(x, y));
        }
    }
    image
}

#[test]
fn plane_selection_test_deterministic_plane_selection() {
    let min_alpha = selection_alpha();
    let randomization_seed = [0u8; 32];
    let message_plane_length = 15_000usize;
    let source_image = noise_image(512, 512, 1);

    let mut selector1 = PlaneSelector::new(&source_image, min_alpha, randomization_seed);

    let iv_planes1 = selector1.select_iv_planes(min_alpha).unwrap();
    let conj_map_planes1 = selector1
        .select_conjugation_map_planes(min_alpha, message_plane_length)
        .unwrap();
    let message_planes1 = selector1.select_message_planes(message_plane_length).unwrap();

    let mut selector2 = PlaneSelector::new(&source_image, min_alpha, randomization_seed);

    let iv_planes2 = selector2.select_iv_planes(min_alpha).unwrap();
    let conj_map_planes2 = selector2
        .select_conjugation_map_planes(min_alpha, message_plane_length)
        .unwrap();
    let message_planes2 = selector2.select_message_planes(message_plane_length).unwrap();

    assert_eq!(iv_planes1, iv_planes2);
    assert_eq!(conj_map_planes1, conj_map_planes2);
    assert_eq!(message_planes1, message_planes2);

    assert_eq!(iv_planes1.len(), 2);
    assert_eq!(conj_map_planes1.len(), 358);
    assert_eq!(message_planes1.len(), 15_000);
}

#[test]
fn plane_selection_test_failing_plane_selection() {
    let min_alpha = selection_alpha();
    let message_plane_length = 40usize;
    let randomization_seed = [0u8; 32];
    let source_image = sparse_image(1);

    let mut selector = PlaneSelector::new(&source_image, min_alpha, randomization_seed);

    selector.select_iv_planes(min_alpha).unwrap();
    selector
        .select_conjugation_map_planes(min_alpha, message_plane_length)
        .unwrap();

    // On this line the selector should have insufficient unselected planes.
    let result = selector.select_message_planes(message_plane_length);
    assert!(result.is_err());
}

#[test]
fn test_selection_error_names_what_was_asked_and_found() {
    let min_alpha = selection_alpha();
    let source_image = sparse_image(1);
    let available = count_accepted_planes(&source_image, min_alpha) as usize;
    assert!(available >= 3 && available <= 24);

    let mut selector = PlaneSelector::new(&source_image, min_alpha, [3u8; 32]);
    assert_eq!(selector.select_n_planes(2).unwrap().len(), 2);
    match selector.select_n_planes(available) {
        Err(SteganographyError::InsufficientPlaneNumber(expected, got)) => {
            assert_eq!(expected, available);
            assert_eq!(got, available - 2);
        }
        other => panic!("expected too few planes, got {other:?}"),
    }
    // A failed selection leaves nothing to hand out.
    assert!(selector.select_n_planes(1).is_err());
    assert_eq!(selector.select_n_planes(0).unwrap(), Vec::<PlaneCoord>::new());
}

#[test]
fn test_selections_are_disjoint_complex_and_complete() {
    let min_alpha = selection_alpha();
    let source_image = noise_image(64, 48, 11);
    let available = count_accepted_planes(&source_image, min_alpha) as usize;

    let mut selector = PlaneSelector::new(&source_image, min_alpha, [9u8; 32]);
    let first = selector.select_n_planes(100).unwrap();
    let second = selector.select_n_planes(available - 150).unwrap();
    let third = selector.select_n_planes(50).unwrap();
    assert!(selector.select_n_planes(1).is_err());

    let mut seen: HashSet<PlaneCoord> = HashSet::new();
    for coord in first.iter().chain(second.iter()).chain(third.iter()) {
        let (x, y, channel, bit_index) = *coord;
        assert!(x % 8 == 0 && y % 8 == 0 && x + 8 <= 64 && y + 8 <= 48);
        assert!(channel < 3 && bit_index < 8);
        assert!(BitPlane::from_sub_image(&source_image, x, y, channel, bit_index)
            .is_complex(min_alpha));
        assert!(seen.insert(*coord));
    }
    assert_eq!(seen.len(), available);
}

#[test]
fn test_selection_prefers_the_low_bits() {
    let min_alpha = selection_alpha();
    let source_image = noise_image(64, 64, 5);
    let lowest = collect_accepted_planes_at_bit_index(&source_image, min_alpha, 7);
    let next = collect_accepted_planes_at_bit_index(&source_image, min_alpha, 6);

    let mut selector = PlaneSelector::new(&source_image, min_alpha, [1u8; 32]);
    let few = selector.select_n_planes(10).unwrap();
    assert!(few.iter().all(|c| c.3 == 7));
    let many = selector.select_n_planes(lowest.len()).unwrap();
    assert_eq!(many.iter().filter(|c| c.3 == 7).count(), lowest.len() - 10);
    assert_eq!(many.iter().filter(|c| c.3 == 6).count(), 10);
    assert!(many.iter().filter(|c| c.3 == 6).all(|c| next.contains(c)));
}

#[test]
fn test_selection_depends_on_the_key_and_is_shuffled() {
    let min_alpha = selection_alpha();
    let source_image = noise_image(64, 64, 5);
    let in_order = collect_accepted_planes_at_bit_index(&source_image, min_alpha, 7);

    let mut with_zero = PlaneSelector::new(&source_image, min_alpha, [0u8; 32]);
    let mut with_one = PlaneSelector::new(&source_image, min_alpha, [1u8; 32]);
    let all_zero = with_zero.select_n_planes(in_order.len()).unwrap();
    let all_one = with_one.select_n_planes(in_order.len()).unwrap();

    assert_ne!(all_zero, in_order);
    assert_ne!(all_one, in_order);
    assert_ne!(all_zero, all_one);
    let mut sorted = all_zero.clone();
    sorted.sort();
    let mut expected = in_order.clone();
    expected.sort();
    assert_eq!(sorted, expected);
}

#[test]
fn test_drain_random_items() {
    let mut rng = StdRng::from_seed([4u8; 32]);
    let mut items: Vec<u32> = (0..1000).collect();
    let taken = drain_n_random_items_from_vec(&mut items, 300, &mut rng);
    assert_eq!(taken.len(), 300);
    assert_eq!(items.len(), 700);
    let mut all: Vec<u32> = taken.iter().chain(items.iter()).copied().collect();
    all.sort();
    assert_eq!(all, (0..1000).collect::<Vec<u32>>());
    assert_ne!(taken, (0..300).collect::<Vec<u32>>());

    let mut again: Vec<u32> = (0..1000).collect();
    let mut same_rng = StdRng::from_seed([4u8; 32]);
    assert_eq!(drain_n_random_items_from_vec(&mut again, 300, &mut same_rng), taken);
    assert_eq!(again, items);

    let mut rest: Vec<u32> = vec![5, 6, 7];
    assert!(drain_n_random_items_from_vec(&mut rest, 0, &mut rng).is_empty());
    assert_eq!(rest, vec![5, 6, 7]);
    let mut all_of_it = drain_n_random_items_from_vec(&mut rest, 3, &mut rng);
    all_of_it.sort();
    assert_eq!(all_of_it, vec![5, 6, 7]);
    assert!(rest.is_empty());
}

#[test]
fn test_accepted_planes_are_met_in_cursor_order() {
    let min_alpha = selection_alpha();
    let source_image = noise_image(24, 20, 3);
    let mut expected: Vec<PlaneCoord> = Vec::new();
    for block_x in 0..3u32 {
        for block_y in 0..2u32 {
            for channel in 0..3u8 {
                let plane =
                    BitPlane::from_sub_image(&source_image, block_x * 8, block_y * 8, channel, 2);
                if plane.is_complex(min_alpha) {
                    expected.push((block_x * 8, block_y * 8, channel, 2));
                }
            }
        }
    }
    assert!(!expected.is_empty());
    assert_eq!(collect_accepted_planes_at_bit_index(&source_image, min_alpha, 2), expected);

    let mut total = 0u64;
    for bit_index in 0..8 {
        total += collect_accepted_planes_at_bit_index(&source_image, min_alpha, bit_index).len()
            as u64;
    }
    assert_eq!(count_accepted_planes(&source_image, min_alpha), total);
    assert_eq!(count_accepted_planes(&RgbImage::new(64, 64), min_alpha), 0);
    assert_eq!(count_accepted_planes(&RgbImage::new(64, 64), Alpha::new(0, 1).unwrap()), 1536);
}

#[test]
fn test_plane_cursor_walks_every_block_and_channel() {
    let source_image = noise_image(20, 17, 2);
    let mut plane_iter = BitIndexedBitPlaneIter::new(&source_image, 4);
    let mut seen: Vec<PlaneCoord> = Vec::new();
    while let Some((coord, plane)) = plane_iter.next() {
        assert_eq!(
            plane.bits,
            BitPlane::from_sub_image(&source_image, coord.0, coord.1, coord.2, coord.3).bits
        );
        seen.push(coord);
    }
    assert!(plane_iter.next().is_none());
    let expected: Vec<PlaneCoord> = vec![
        (0, 0, 0, 4),
        (0, 0, 1, 4),
        (0, 0, 2, 4),
        (0, 8, 0, 4),
        (0, 8, 1, 4),
        (0, 8, 2, 4),
        (8, 0, 0, 4),
        (8, 0, 1, 4),
        (8, 0, 2, 4),
        (8, 8, 0, 4),
        (8, 8, 1, 4),
        (8, 8, 2, 4),
    ];
    assert_eq!(seen, expected);

    let flat = noise_image(40, 7, 2);
    assert!(BitIndexedBitPlaneIter::new(&flat, 0).next().is_none());
    let thin = noise_image(7, 40, 2);
    assert!(BitIndexedBitPlaneIter::new(&thin, 0).next().is_none());
}
