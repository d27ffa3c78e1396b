use pixelveil::bpcs::alpha::Alpha;
use pixelveil::bpcs::dynamic_prefix::{
    data_bits_from_prefixed_planes, fill_to_plane_size, get_n_random_bools,
    get_next_prefixed_plane, get_prefixed_planes, num_of_prefixed_planes_for_n_bits,
    prefix_length,
};

fn alpha(numer: u32, denom: u32) -> Alpha {
    Alpha::new(numer, denom).unwrap()
}

#[test]
fn test_get_next_prefixed_plane() {
    let mut bits = vec![false; 40];
    let next_plane = get_next_prefixed_plane(&mut bits, alpha(3, 10), prefix_length(alpha(3, 10)));
    assert!(next_plane.alpha().ge(&alpha(3, 10)));
    assert_eq!(bits, [false; 7]);
}

#[test]
fn test_circular_plane_prefixing_and_data_extraction() {
    let min_alpha = alpha(3, 10);
    let bits = get_n_random_bools(99);
    let planes = get_prefixed_planes(bits.clone(), min_alpha);
    let data = data_bits_from_prefixed_planes(planes, min_alpha);
    assert_eq!(data, bits);
}

#[test]
fn test_num_of_prefixed_planes_for_n_bits() {
    assert_eq!(num_of_prefixed_planes_for_n_bits(128, 0), 2);
    assert_eq!(num_of_prefixed_planes_for_n_bits(40, 24), 1);
    assert_eq!(num_of_prefixed_planes_for_n_bits(79, 31), 3);
}

#[test]
fn test_prefix_lengths() {
    assert_eq!(prefix_length(alpha(3, 10)), 31);
    assert_eq!(prefix_length(alpha(30, 100)), 31);
    assert_eq!(prefix_length(alpha(1, 5)), 22);
    assert_eq!(prefix_length(alpha(1, 2)), 48);
    assert_eq!(prefix_length(alpha(0, 1)), 4);
    assert_eq!(num_of_prefixed_planes_for_n_bits(32, 31), 1);
    assert_eq!(num_of_prefixed_planes_for_n_bits(128, 0), 2);
    assert_eq!(num_of_prefixed_planes_for_n_bits(0, 31), 0);
    assert_eq!(num_of_prefixed_planes_for_n_bits(33, 31), 1);
    assert_eq!(num_of_prefixed_planes_for_n_bits(34, 31), 2);
    assert_eq!(num_of_prefixed_planes_for_n_bits(usize::MAX, 63), usize::MAX);
}

#[test]
fn test_prefix_length_grows_with_the_threshold() {
    let mut last = 0;
    for numer in 0..=500u32 {
        let len = prefix_length(alpha(numer, 1000));
        assert!(len >= last);
        assert!((4..=48).contains(&len));
        last = len;
    }
}

#[test]
fn test_prefixed_planes_are_complex_and_hold_the_data() {
    for (numer, denom) in [(0u32, 1u32), (1, 5), (3, 10), (2, 5), (1, 2)] {
        let min_alpha = alpha(numer, denom);
        let len = prefix_length(min_alpha);
        for n in [0usize, 1, 16, 33, 60, 61, 200] {
            for value in [false, true] {
                let bits = vec![value; n];
                let planes = get_prefixed_planes(bits.clone(), min_alpha);
                assert_eq!(planes.len(), num_of_prefixed_planes_for_n_bits(n, len));
                for plane in &planes {
                    assert!(plane.is_complex(min_alpha));
                }
                let data = data_bits_from_prefixed_planes(planes, min_alpha);
                assert_eq!(data.len() % (64 - len), 0);
                assert_eq!(&data[..n], &bits[..]);
            }
        }
    }
}

#[test]
fn test_next_prefixed_plane_pads_a_short_rest() {
    let min_alpha = alpha(1, 5);
    let len = prefix_length(min_alpha);
    let mut bits = vec![true, false, true];
    let plane = get_next_prefixed_plane(&mut bits, min_alpha, len);
    assert!(bits.is_empty());
    assert!(plane.is_complex(min_alpha));
    let read = plane.export_to_bools();
    assert_eq!(&read[len..len + 3], &[true, false, true]);
}

#[test]
fn test_random_bools_and_filling() {
    assert_eq!(get_n_random_bools(0).len(), 0);
    assert_eq!(get_n_random_bools(77).len(), 77);
    let mut whole = vec![true; 128];
    fill_to_plane_size(&mut whole);
    assert_eq!(whole, vec![true; 128]);
    let mut part = vec![false; 70];
    fill_to_plane_size(&mut part);
    assert_eq!(part.len(), 76);
    assert_eq!(&part[..70], &[false; 70]);
}
