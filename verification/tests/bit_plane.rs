use pixelveil::bpcs::alpha::Alpha;
use pixelveil::bpcs::bit_plane::{
    checkerboard, get_planes, get_planes_from_image_and_coords, write_plane_at, BitPlane,
    BYTES_PER_PLANE, PLANE_SIZE, USIZE_PLANE_SIZE,
};
use pixelveil::image_utils::RgbImage;

fn ratio(alpha: Alpha) -> f64 {
    alpha.numer as f64 / alpha.denom as f64
}

#[test]
fn test_creation() {
    let b = BitPlane::new();
    assert_eq!(b.bits, [[false; USIZE_PLANE_SIZE]; USIZE_PLANE_SIZE]);
}

#[test]
fn test_set_bit() {
    let mut b = BitPlane::new();
    b.set_bit((0, 0), true);
    assert_eq!(
        b.bits,
        [
            [true, false, false, false, false, false, false, false],
            [false, false, false, false, false, false, false, false],
            [false, false, false, false, false, false, false, false],
            [false, false, false, false, false, false, false, false],
            [false, false, false, false, false, false, false, false],
            [false, false, false, false, false, false, false, false],
            [false, false, false, false, false, false, false, false],
            [false, false, false, false, false, false, false, false],
        ]
    )
}

#[test]
fn test_conjugation() {
    let mut expected = checkerboard();
    expected[0][0] = true;

    let mut p = BitPlane::new();
    p.set_bit((0, 0), true);

    p.conjugate();

    assert_eq!(p.bits, expected);
}

#[test]
fn test_complexity_coeff_calc() {
    let b1 = BitPlane {
        bits: [[false; USIZE_PLANE_SIZE]; USIZE_PLANE_SIZE],
    };
    assert_eq!(ratio(b1.alpha()), 0f64);

    let b2 = BitPlane {
        bits: [[true; USIZE_PLANE_SIZE]; USIZE_PLANE_SIZE],
    };
    assert_eq!(ratio(b2.alpha()), 0f64);

    let b3 = BitPlane {
        bits: checkerboard(),
    };
    assert_eq!(ratio(b3.alpha()), 1f64);
    assert_eq!(b3.alpha().numer, 112);
    assert_eq!(b3.alpha().denom, 112);
}

#[test]
fn test_from_sub_image() {
    let data: Vec<u8> = (0..16 * 16).flat_map(|_| [10u8, 100, 200]).collect();
    let img = RgbImage::from_raw(16, 16, data).unwrap();
    let p = BitPlane::from_sub_image(&img, 0, 0, 1, 1);
    assert_eq!(p.bits, [[true; USIZE_PLANE_SIZE]; USIZE_PLANE_SIZE]);
}

#[test]
fn test_from_sub_image_reads_the_block_and_the_bit() {
    let mut img = RgbImage::new(24, 16);
    let mut pixel = img.get_pixel(11, 13);
    pixel.0[2] = 0b0001_0000;
    img.put_pixel(11, 13, pixel);

    let p = BitPlane::from_sub_image(&img, 8, 8, 2, 3);
    let mut expected = [[false; USIZE_PLANE_SIZE]; USIZE_PLANE_SIZE];
    expected[3][5] = true;
    assert_eq!(p.bits, expected);

    assert_eq!(BitPlane::from_sub_image(&img, 8, 8, 2, 4).bits, BitPlane::new().bits);
    assert_eq!(BitPlane::from_sub_image(&img, 8, 8, 1, 3).bits, BitPlane::new().bits);
    assert_eq!(BitPlane::from_sub_image(&img, 0, 8, 2, 3).bits, BitPlane::new().bits);
}

#[test]
fn test_from_bits() {
    let mut bits = [false; USIZE_PLANE_SIZE * USIZE_PLANE_SIZE];
    bits[1] = true;
    bits[10] = true;

    let mut expected = [[false; USIZE_PLANE_SIZE]; USIZE_PLANE_SIZE];
    expected[0][1] = true;
    expected[1][2] = true;

    let p = BitPlane::from_bits(bits);
    assert_eq!(p.bits, expected);
}

#[test]
fn test_export_to_u8s() {
    let mut bits = [false; USIZE_PLANE_SIZE * USIZE_PLANE_SIZE];
    bits[1] = true;
    bits[10] = true;

    let p = BitPlane::from_bits(bits);
    let bytes = p.export_to_u8s();

    assert_eq!(
        bytes,
        [
            0b01000000u8,
            0b00100000u8,
            0b00000000u8,
            0b00000000u8,
            0b00000000u8,
            0b00000000u8,
            0b00000000u8,
            0b00000000u8
        ]
    );
}

#[test]
fn test_get_planes() {
    let block1 = vec![
        false, true, false, false, false, false, true, false, false, false, false, false, true,
        false, false, false, false, false, false, false, false, false, false, true, false, true,
        false, false, false, true, false, false, false, false, false, false, false, false, true,
        false, false, false, false, true, false, false, false, false, true, false, false, false,
        false, false, false, false, false, false, false, false, false, true, false, false,
    ];
    let block2 = vec![
        false, true, false, false, false, true, true, false, false, false, false, false, false,
        false, false, false, true, false, false, false, true, false, false, true, false, false,
        false, true, false, false, false, false, true, false, true, false, false, true, false,
        false, true, false, false, false, false, false, true, false, false, true, false, false,
        true, false, false, true, false, false, false, false, false, false, true, false,
    ];

    let mut planes: Vec<BitPlane> = get_planes([block1.as_slice(), block2.as_slice()].concat())
        .into_iter()
        .collect();
    assert_eq!(planes.remove(0).export_to_bools().to_vec(), block1);
    assert_eq!(planes.remove(0).export_to_bools().to_vec(), block2);
}

#[test]
fn test_get_planes_of_no_bits() {
    assert!(get_planes(Vec::new()).is_empty());
}

#[test]
fn test_plane_constants() {
    assert_eq!(PLANE_SIZE, 8);
    assert_eq!(USIZE_PLANE_SIZE, 8);
    assert_eq!(BYTES_PER_PLANE, 8);
}

#[test]
fn test_single_bit_plane_against_threshold() {
    let threshold = Alpha::new(3, 10).unwrap();
    let mut p = BitPlane::new();
    p.set_bit((0, 0), true);
    let original = p.bits;

    assert_eq!(p.changes(), 2);
    assert_eq!(p.alpha().numer, 2);
    assert_eq!(p.alpha().denom, 112);
    assert!(!p.is_complex(threshold));

    p.conjugate();
    assert_eq!(p.changes(), 110);
    assert!(p.is_complex(threshold));

    p.conjugate();
    assert_eq!(p.bits, original);
}

#[test]
fn test_conjugation_is_an_involution_and_mirrors_complexity() {
    let mut seed: u64 = 0x9e37_79b9_7f4a_7c15;
    for _ in 0..200 {
        let mut bits = [false; 64];
        for bit in bits.iter_mut() {
            seed = seed.wrapping_mul(6364136223846793005).wrapping_add(1442695040888963407);
            *bit = (seed >> 40) & 1 == 1;
        }
        let mut p = BitPlane::from_bits(bits);
        let before = p.changes();
        p.conjugate();
        assert_eq!(p.changes(), 112 - before);
        p.conjugate();
        assert_eq!(p.export_to_bools(), bits);
        assert_eq!(p.changes(), before);
    }
}

#[test]
fn test_complexity_counts_both_directions() {
    let mut p = BitPlane::new();
    for j in 0..8 {
        p.set_bit((3, j), true);
    }
    assert_eq!(p.changes(), 16);
    let mut q = BitPlane::new();
    for i in 0..8 {
        q.set_bit((i, 0), true);
    }
    assert_eq!(q.changes(), 8);
    let mut r = BitPlane::new();
    r.set_bit((7, 7), true);
    assert_eq!(r.changes(), 2);
    r.set_bit((4, 4), true);
    assert_eq!(r.changes(), 6);
}

#[test]
fn test_threshold_one_half_accepts_only_more_complex_halves() {
    let half = Alpha::half();
    assert_eq!((half.numer, half.denom), (1, 2));
    let board = BitPlane { bits: checkerboard() };
    assert!(board.is_complex(half));
    assert!(!BitPlane::new().is_complex(half));
    assert!(BitPlane::new().is_complex(Alpha::new(0, 1).unwrap()));
}

#[test]
fn test_write_plane_changes_only_its_bit() {
    let data: Vec<u8> = (0..24 * 16 * 3).map(|i| (i * 31 + 7) as u8).collect();
    let mut img = RgbImage::from_raw(24, 16, data).unwrap();
    let before = img.clone();
    let mut bits = [false; 64];
    for (k, bit) in bits.iter_mut().enumerate() {
        *bit = k % 3 == 0;
    }
    let plane = BitPlane::from_bits(bits);
    let coord = (8, 8, 1, 5);
    write_plane_at(&mut img, plane, coord);

    assert_eq!(BitPlane::from_sub_image(&img, 8, 8, 1, 5).bits, plane.bits);
    for y in 0..16u32 {
        for x in 0..24u32 {
            let old = before.get_pixel(x, y);
            let new = img.get_pixel(x, y);
            assert_eq!(old.0[0], new.0[0]);
            assert_eq!(old.0[2], new.0[2]);
            if (8..16).contains(&x) && (8..16).contains(&y) {
                assert_eq!(old.0[1] & !0b0000_0100, new.0[1] & !0b0000_0100);
                let bit = bits[((x - 8) * 8 + (y - 8)) as usize];
                assert_eq!(new.0[1] & 0b0000_0100 != 0, bit);
            } else {
                assert_eq!(old.0[1], new.0[1]);
            }
        }
    }

    let read = get_planes_from_image_and_coords(&img, vec![(8, 8, 1, 5), (0, 0, 0, 0)]);
    assert_eq!(read.len(), 2);
    assert_eq!(read[0].bits, plane.bits);
    assert_eq!(read[1].bits, BitPlane::from_sub_image(&before, 0, 0, 0, 0).bits);
}

#[test]
fn test_alpha_comparisons() {
    let third = Alpha::new(1, 3).unwrap();
    let two_sixths = Alpha::new(2, 6).unwrap();
    let half = Alpha::new(1, 2).unwrap();
    assert!(Alpha::new(1, 0).is_none());
    assert!(third.ge(&two_sixths));
    assert!(two_sixths.ge(&third));
    assert!(half.ge(&third));
    assert!(!third.ge(&half));
    assert!(third.lt(&half));
    assert!(!half.lt(&half));
    assert!(third.valid_threshold());
    assert!(half.valid_threshold());
    assert!(!Alpha::new(51, 100).unwrap().valid_threshold());
    assert!(Alpha::new(0, 5).unwrap().valid_threshold());
}
