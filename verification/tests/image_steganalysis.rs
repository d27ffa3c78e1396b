use pixelveil::image_steganalysis::{
    highlight_image_difference, slice_image_bit_planes, subtract_images, subtract_pixels,
    xor_images, xor_pixels,
};
use pixelveil::image_utils::{Rgb, RgbImage};

#[test]
fn test_subtract_pixels() {
    let pixel1 = Rgb([13, 80, 40]);
    let pixel2 = Rgb([240, 93, 31]);
    assert_eq!(subtract_pixels(&pixel1, &pixel2), Rgb([227, 13, 9]));
    assert_eq!(subtract_pixels(&pixel2, &pixel1), Rgb([227, 13, 9]));
    assert_eq!(subtract_pixels(&Rgb([0, 255, 7]), &Rgb([255, 0, 7])), Rgb([255, 255, 0]));
}

#[test]
fn test_xor_pixels() {
    let pixel1 = Rgb([0b10110010, 0b11011100, 0b11010001]);
    let pixel2 = Rgb([0b00100011, 0b01110001, 0b11110001]);
    assert_eq!(xor_pixels(&pixel1, &pixel2), Rgb([0b10010001, 0b10101101, 0b00100000]));
}

fn two_images() -> (RgbImage, RgbImage) {
    let a: Vec<u8> = (0..5 * 4 * 3).map(|i| (i * 13 + 1) as u8).collect();
    let mut b = a.clone();
    b[0] = b[0].wrapping_add(200);
    b[17] ^= 0b0101_0000;
    b[59] = 77;
    (RgbImage::from_raw(5, 4, a).unwrap(), RgbImage::from_raw(5, 4, b).unwrap())
}

#[test]
fn test_subtract_and_xor_images() {
    let (image1, image2) = two_images();
    let diff = subtract_images(&image1, &image2);
    let xored = xor_images(&image1, &image2);
    assert_eq!(diff.dimensions(), (5, 4));
    assert_eq!(xored.dimensions(), (5, 4));
    for y in 0..4 {
        for x in 0..5 {
            let pixel1 = image1.get_pixel(x, y);
            let pixel2 = image2.get_pixel(x, y);
            assert_eq!(diff.get_pixel(x, y), subtract_pixels(&pixel1, &pixel2));
            assert_eq!(xored.get_pixel(x, y), xor_pixels(&pixel1, &pixel2));
        }
    }
    assert_eq!(diff.as_raw()[0], 200);
    assert_eq!(xored.as_raw()[17], 0b0101_0000);
    assert_eq!(subtract_images(&image1, &image1), RgbImage::new(5, 4));
}

#[test]
fn test_highlight_image_difference() {
    let (image1, image2) = two_images();
    let highlighted = highlight_image_difference(&image1, &image2);
    for (i, sample) in highlighted.as_raw().iter().enumerate() {
        let expected = if i == 0 || i == 17 || i == 59 { 255 } else { 0 };
        assert_eq!(*sample, expected);
    }
}

#[test]
fn test_slice_image_bit_planes() {
    let data: Vec<u8> = (0..3 * 2 * 3).map(|i| (i * 29 + 5) as u8).collect();
    let img = RgbImage::from_raw(3, 2, data).unwrap();
    let planes = slice_image_bit_planes(&img);
    assert_eq!(planes.len(), 24);
    for channel in 0..3usize {
        for bit_index in 0..8usize {
            let plane = &planes[8 * channel + bit_index];
            assert_eq!((plane.width(), plane.height()), (3, 2));
            for y in 0..2 {
                for x in 0..3 {
                    let sample = img.get_pixel(x, y).0[channel];
                    let set = (sample >> (7 - bit_index)) & 1 == 1;
                    assert_eq!(plane.get_pixel(x, y).0[0], if set { 255 } else { 0 });
                }
            }
        }
    }
}
