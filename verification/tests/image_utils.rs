use pixelveil::image_utils::{
    image_to_binary_code, image_to_gray_code, pixel_to_binary_code, pixel_to_gray_code, Rgb,
    RgbImage,
};

#[test]
fn image_handling_test_pixel_to_gray_code() {
    let mut pixel = Rgb([0b11101010u8, 0b00110001u8, 0b10101110u8]);
    pixel_to_gray_code(&mut pixel);
    assert_eq!(pixel, Rgb([0b10011111u8, 0b00101001u8, 0b11111001u8,]),);
}

#[test]
fn image_handling_test_pixel_to_binary_code() {
    let mut pixel = Rgb([0b10011111u8, 0b00101001u8, 0b11111001u8]);
    pixel_to_binary_code(&mut pixel);
    assert_eq!(pixel, Rgb([0b11101010u8, 0b00110001u8, 0b10101110u8,]),);
}

#[test]
fn image_utils_test_pixel_to_gray_code() {
    let mut pixel = Rgb([0b1110101, 0b0011000, 0b1010111]);
    pixel_to_gray_code(&mut pixel);
    assert_eq!(pixel, Rgb([0b1001111, 0b0010100, 0b1111100]));
}

#[test]
fn image_utils_test_pixel_to_binary_code() {
    let mut pixel = Rgb([0b10011111, 0b00101001, 0b11111001]);
    pixel_to_binary_code(&mut pixel);
    assert_eq!(pixel, Rgb([0b11101010, 0b00110001, 0b10101110]));
}

fn ramp_image(width: u32, height: u32) -> RgbImage {
    let len = (width * height * 3) as usize;
    let data: Vec<u8> = (0..len).map(|i| (i * 7 + 3) as u8).collect();
    RgbImage::from_raw(width, height, data).unwrap()
}

#[test]
fn test_image_gray_code_round_trip() {
    let original = ramp_image(13, 9);
    let mut image = original.clone();
    image_to_gray_code(&mut image);
    assert_ne!(image, original);
    assert_eq!(image.as_raw()[0], 3 ^ (3 >> 1));
    image_to_binary_code(&mut image);
    assert_eq!(image, original);

    let mut image = original.clone();
    image_to_binary_code(&mut image);
    image_to_gray_code(&mut image);
    assert_eq!(image, original);
}

#[test]
fn test_image_to_gray_code_converts_every_sample() {
    let original = ramp_image(5, 4);
    let mut image = original.clone();
    image_to_gray_code(&mut image);
    for (after, before) in image.as_raw().iter().zip(original.as_raw().iter()) {
        assert_eq!(*after, before ^ (before >> 1));
    }
    assert_eq!(image.dimensions(), (5, 4));
}

#[test]
fn test_new_image_is_black() {
    let image = RgbImage::new(3, 2);
    assert_eq!(image.width(), 3);
    assert_eq!(image.height(), 2);
    assert_eq!(image.as_raw(), &vec![0u8; 18]);
    let empty = RgbImage::new(0, 7);
    assert_eq!(empty.as_raw().len(), 0);
}

#[test]
fn test_from_raw_wants_three_samples_a_pixel() {
    assert!(RgbImage::from_raw(2, 2, vec![0; 12]).is_some());
    assert!(RgbImage::from_raw(2, 2, vec![0; 11]).is_none());
    assert!(RgbImage::from_raw(2, 2, vec![0; 13]).is_none());
    assert!(RgbImage::from_raw(0, 5, vec![]).is_some());
    assert!(RgbImage::from_raw(u32::MAX, u32::MAX, vec![0; 3]).is_none());
}

#[test]
fn test_get_and_put_pixel() {
    let mut image = ramp_image(4, 3);
    let before = image.clone();
    assert_eq!(image.get_pixel(0, 0), Rgb([3, 10, 17]));
    let at = (2 * 4 + 1) * 3;
    assert_eq!(
        image.get_pixel(1, 2),
        Rgb([before.as_raw()[at], before.as_raw()[at + 1], before.as_raw()[at + 2]])
    );
    image.put_pixel(1, 2, Rgb([1, 2, 3]));
    assert_eq!(image.get_pixel(1, 2), Rgb([1, 2, 3]));
    for y in 0..3 {
        for x in 0..4 {
            if (x, y) != (1, 2) {
                assert_eq!(image.get_pixel(x, y), before.get_pixel(x, y));
            }
        }
    }
    assert_eq!(image.copy(), image);
}
