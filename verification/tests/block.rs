use pixelveil::bpcs::alpha::Alpha;
use pixelveil::bpcs::bit_plane::BitPlane;
use pixelveil::bpcs::block::{Block, BLOCK_SIZE};
use pixelveil::bpcs::capacity::{calculate_num_of_embedding_planes, check_capacity};
use pixelveil::errors::SteganographyError;
use pixelveil::image_utils::{Rgb, RgbImage};

fn get_new_empty_block() -> Block {
    let image = RgbImage::new(8, 8);
    Block::new(&image, 0, 0)
}

#[test]
fn test_new() {
    let b = get_new_empty_block();

    for chal in 0..3 as usize {
        for bit_index in 0..8 as usize {
            let p = b.bit_plane(chal, bit_index);
            assert_eq!(p.bits, [[false; BLOCK_SIZE as usize]; BLOCK_SIZE as usize]);
        }
    }
}

#[test]
fn test_insert_pixel() {
    let mut b = get_new_empty_block();
    let mut bits_expected = [[false; BLOCK_SIZE as usize]; BLOCK_SIZE as usize];
    bits_expected[1][1] = true;

    b.insert_pixel((1, 1), Rgb([255, 255, 255]));

    for chal in 0..3 as usize {
        for bit_index in 0..8 as usize {
            let p = b.bit_plane(chal, bit_index);
            assert_eq!(p.bits, bits_expected);
        }
    }
}

#[test]
fn test_block_holds_the_planes_of_its_pixels() {
    let data: Vec<u8> = (0..24 * 16 * 3).map(|i| (i * 53 + 9) as u8).collect();
    let image = RgbImage::from_raw(24, 16, data).unwrap();
    let b = Block::new(&image, 16, 8);
    assert_eq!(b.coords, (16, 8));
    assert_eq!(b.bit_planes.len(), 24);
    for channel in 0..3u8 {
        for bit_index in 0..8u8 {
            assert_eq!(
                b.bit_plane(channel as usize, bit_index as usize).bits,
                BitPlane::from_sub_image(&image, 16, 8, channel, bit_index).bits
            );
        }
    }
}

#[test]
fn test_insert_pixel_sets_each_bit_in_its_plane() {
    let mut b = get_new_empty_block();
    b.insert_pixel((7, 0), Rgb([0b1000_0000, 0b0000_0001, 0b0101_0000]));
    for channel in 0..3usize {
        for bit_index in 0..8usize {
            let set = matches!((channel, bit_index), (0, 0) | (1, 7) | (2, 1) | (2, 3));
            let mut expected = [[false; 8]; 8];
            expected[7][0] = set;
            assert_eq!(b.bit_plane(channel, bit_index).bits, expected);
        }
    }
}

#[test]
fn test_number_of_embedding_planes() {
    let min_alpha = Alpha::new(3, 10).unwrap();
    assert_eq!(calculate_num_of_embedding_planes(min_alpha, 0), 2);
    assert_eq!(calculate_num_of_embedding_planes(min_alpha, 33), 2 + 1 + 33);
    assert_eq!(calculate_num_of_embedding_planes(min_alpha, 34), 2 + 2 + 34);
    assert_eq!(calculate_num_of_embedding_planes(Alpha::half(), 100), 4 + 7 + 100);
}

#[test]
fn test_check_capacity() {
    let min_alpha = Alpha::new(3, 10).unwrap();
    assert!(check_capacity(min_alpha, 33, 36).is_ok());
    assert!(check_capacity(min_alpha, 33, 1000).is_ok());
    match check_capacity(min_alpha, 33, 35) {
        Err(SteganographyError::InsufficientPlaneNumber(expected, got)) => {
            assert_eq!((expected, got), (36, 35));
        }
        other => panic!("expected too few planes, got {other:?}"),
    }
}
