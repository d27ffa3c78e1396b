//! Comparing images sample by sample, and slicing an image into its bit
//! planes.

use crate::bit_operations::{bit_of, get_bit_from_u8};
use crate::image_utils::{GrayImage, Rgb, RgbImage};
use vstd::prelude::*;

verus! {

/// The distance between two samples.
pub open spec fn abs_diff(a: u8, b: u8) -> u8 {
    if a >= b {
        (a - b) as u8
    } else {
        (b - a) as u8
    }
}

/// 255 where two samples differ, 0 where they are equal.
pub open spec fn highlight(a: u8, b: u8) -> u8 {
    if a != b {
        255
    } else {
        0
    }
}

/// 255 where bit `bit_index` of a sample is set, 0 where it is not.
pub open spec fn bit_shade(sample: u8, bit_index: u8) -> u8 {
    if bit_of(sample, bit_index) {
        255
    } else {
        0
    }
}

/// The distances between the samples of two pixels.
pub open spec fn subtracted(pixel1: Rgb, pixel2: Rgb) -> Rgb {
    Rgb(
        [
            abs_diff(pixel1.0[0], pixel2.0[0]),
            abs_diff(pixel1.0[1], pixel2.0[1]),
            abs_diff(pixel1.0[2], pixel2.0[2]),
        ],
    )
}

/// The exclusive or of the samples of two pixels.
pub open spec fn xored(pixel1: Rgb, pixel2: Rgb) -> Rgb {
    Rgb([pixel1.0[0] ^ pixel2.0[0], pixel1.0[1] ^ pixel2.0[1], pixel1.0[2] ^ pixel2.0[2]])
}

/// Whether two images have the same size.
pub open spec fn same_size(image1: &RgbImage, image2: &RgbImage) -> bool {
    image1.width == image2.width && image1.height == image2.height
}

/// The distance between two pixels in each channel.
pub fn subtract_pixels(pixel1: &Rgb, pixel2: &Rgb) -> (diff: Rgb)
    ensures
        diff == subtracted(*pixel1, *pixel2),
{
    let r = if pixel1.0[0] >= pixel2.0[0] {
        pixel1.0[0] - pixel2.0[0]
    } else {
        pixel2.0[0] - pixel1.0[0]
    };
    let g = if pixel1.0[1] >= pixel2.0[1] {
        pixel1.0[1] - pixel2.0[1]
    } else {
        pixel2.0[1] - pixel1.0[1]
    };
    let b = if pixel1.0[2] >= pixel2.0[2] {
        pixel1.0[2] - pixel2.0[2]
    } else {
        pixel2.0[2] - pixel1.0[2]
    };
    let diff = Rgb([r, g, b]);
    assert(diff.0@ =~= subtracted(*pixel1, *pixel2).0@);
    diff
}

/// The exclusive or of two pixels in each channel.
pub fn xor_pixels(pixel1: &Rgb, pixel2: &Rgb) -> (diff: Rgb)
    ensures
        diff == xored(*pixel1, *pixel2),
{
    let diff = Rgb(
        [pixel1.0[0] ^ pixel2.0[0], pixel1.0[1] ^ pixel2.0[1], pixel1.0[2] ^ pixel2.0[2]],
    );
    assert(diff.0@ =~= xored(*pixel1, *pixel2).0@);
    diff
}

/// The image of the distances between two images of the same size: each of
/// its pixels is [`subtract_pixels`] of the pixels at that place.
pub fn subtract_images(image1: &RgbImage, image2: &RgbImage) -> (diff_image: RgbImage)
    requires
        image1.wf(),
        image2.wf(),
        same_size(image1, image2),
    ensures
        diff_image.wf(),
        same_size(&diff_image, image1),
        forall|i: int|
            0 <= i < diff_image.data@.len() ==> diff_image.data@[i] == abs_diff(
                image1.data@[i],
                image2.data@[i],
            ),
        forall|x: int, y: int|
            image1@.contains(x, y) ==> #[trigger] diff_image@.pixel(x, y) == subtracted(
                image1@.pixel(x, y),
                image2@.pixel(x, y),
            ),
{
    let n: usize = image1.data.len();
    let mut data: Vec<u8> = Vec::with_capacity(n);
    let mut at: usize = 0;
    while at < n
        invariant
            at <= n,
            at % 3 == 0,
            n % 3 == 0,
            n == image1.data@.len(),
            n == image2.data@.len(),
            data@.len() == at,
            forall|i: int|
                0 <= i < at ==> data@[i] == abs_diff(image1.data@[i], image2.data@[i]),
        decreases n - at,
    {
        let pixel1 = Rgb([image1.data[at], image1.data[at + 1], image1.data[at + 2]]);
        let pixel2 = Rgb([image2.data[at], image2.data[at + 1], image2.data[at + 2]]);
        let diff = subtract_pixels(&pixel1, &pixel2);
        data.push(diff.0[0]);
        data.push(diff.0[1]);
        data.push(diff.0[2]);
        at += 3;
    }
    let diff_image = RgbImage { width: image1.width, height: image1.height, data };
    proof {
        assert forall|x: int, y: int| image1@.contains(x, y) implies #[trigger] diff_image@.pixel(
            x,
            y,
        ) == subtracted(image1@.pixel(x, y), image2@.pixel(x, y)) by {
            image1@.lemma_index_of(x, y, 0);
            image1@.lemma_index_of(x, y, 1);
            image1@.lemma_index_of(x, y, 2);
            assert(diff_image@.pixel(x, y).0@ =~= subtracted(
                image1@.pixel(x, y),
                image2@.pixel(x, y),
            ).0@);
        }
    }
    diff_image
}

/// The exclusive or of two images of the same size: each of its pixels is
/// [`xor_pixels`] of the pixels at that place.
pub fn xor_images(image1: &RgbImage, image2: &RgbImage) -> (diff_image: RgbImage)
    requires
        image1.wf(),
        image2.wf(),
        same_size(image1, image2),
    ensures
        diff_image.wf(),
        same_size(&diff_image, image1),
        forall|i: int|
            0 <= i < diff_image.data@.len() ==> diff_image.data@[i] == image1.data@[i]
                ^ image2.data@[i],
        forall|x: int, y: int|
            image1@.contains(x, y) ==> #[trigger] diff_image@.pixel(x, y) == xored(
                image1@.pixel(x, y),
                image2@.pixel(x, y),
            ),
{
    let n: usize = image1.data.len();
    let mut data: Vec<u8> = Vec::with_capacity(n);
    let mut at: usize = 0;
    while at < n
        invariant
            at <= n,
            at % 3 == 0,
            n % 3 == 0,
            n == image1.data@.len(),
            n == image2.data@.len(),
            data@.len() == at,
            forall|i: int| 0 <= i < at ==> data@[i] == image1.data@[i] ^ image2.data@[i],
        decreases n - at,
    {
        let pixel1 = Rgb([image1.data[at], image1.data[at + 1], image1.data[at + 2]]);
        let pixel2 = Rgb([image2.data[at], image2.data[at + 1], image2.data[at + 2]]);
        let diff = xor_pixels(&pixel1, &pixel2);
        data.push(diff.0[0]);
        data.push(diff.0[1]);
        data.push(diff.0[2]);
        at += 3;
    }
    let diff_image = RgbImage { width: image1.width, height: image1.height, data };
    proof {
        assert forall|x: int, y: int| image1@.contains(x, y) implies #[trigger] diff_image@.pixel(
            x,
            y,
        ) == xored(image1@.pixel(x, y), image2@.pixel(x, y)) by {
            image1@.lemma_index_of(x, y, 0);
            image1@.lemma_index_of(x, y, 1);
            image1@.lemma_index_of(x, y, 2);
            assert(diff_image@.pixel(x, y).0@ =~= xored(
                image1@.pixel(x, y),
                image2@.pixel(x, y),
            ).0@);
        }
    }
    diff_image
}

/// The image that shows where two images of the same size differ: a sample
/// is 255 where the samples of the two images differ and 0 where they are
/// equal.
pub fn highlight_image_difference(image1: &RgbImage, image2: &RgbImage) -> (new_image: RgbImage)
    requires
        image1.wf(),
        image2.wf(),
        same_size(image1, image2),
    ensures
        new_image.wf(),
        same_size(&new_image, image1),
        forall|i: int|
            0 <= i < new_image.data@.len() ==> new_image.data@[i] == highlight(
                image1.data@[i],
                image2.data@[i],
            ),
{
    let mut new_image = subtract_images(image1, image2);
    let n: usize = new_image.data.len();
    let mut i: usize = 0;
    while i < n
        invariant
            i <= n,
            n == new_image.data@.len(),
            n == image1.data@.len(),
            new_image.width == image1.width,
            new_image.height == image1.height,
            forall|j: int|
                0 <= j < i ==> new_image.data@[j] == highlight(image1.data@[j], image2.data@[j]),
            forall|j: int|
                i <= j < n ==> new_image.data@[j] == abs_diff(image1.data@[j], image2.data@[j]),
        decreases n - i,
    {
        let shade: u8 = if new_image.data[i] > 0 {
            255
        } else {
            0
        };
        new_image.data[i] = shade;
        i += 1;
    }
    new_image
}

/// The 24 bit planes of an image, each as a greyscale image of the same
/// size: entry `8 * channel + bit_index` shows bit `bit_index` of `channel`
/// (bit 0 is the most significant), 255 where the bit is set and 0 where it
/// is not.
pub fn slice_image_bit_planes(img: &RgbImage) -> (planes: Vec<GrayImage>)
    requires
        img.wf(),
    ensures
        planes@.len() == 24,
        forall|k: int|
            0 <= k < 24 ==> {
                &&& (#[trigger] planes@[k]).wf()
                &&& planes@[k].width == img.width
                &&& planes@[k].height == img.height
                &&& forall|p: int|
                    0 <= p < planes@[k].data@.len() ==> planes@[k].data@[p] == bit_shade(
                        img.data@[3 * p + k / 8],
                        (k % 8) as u8,
                    )
            },
{
    let pixels: usize = img.data.len() / 3;
    let mut planes: Vec<GrayImage> = Vec::with_capacity(24);
    let mut k: usize = 0;
    while k < 24
        invariant
            k <= 24,
            img.wf(),
            pixels * 3 == img.data@.len(),
            planes@.len() == k,
            forall|j: int|
                0 <= j < k ==> {
                    &&& (#[trigger] planes@[j]).wf()
                    &&& planes@[j].width == img.width
                    &&& planes@[j].height == img.height
                    &&& forall|p: int|
                        0 <= p < planes@[j].data@.len() ==> planes@[j].data@[p] == bit_shade(
                            img.data@[3 * p + j / 8],
                            (j % 8) as u8,
                        )
                },
        decreases 24 - k,
    {
        let channel: usize = k / 8;
        let bit_index: u8 = (k % 8) as u8;
        let mut data: Vec<u8> = Vec::with_capacity(pixels);
        let mut p: usize = 0;
        while p < pixels
            invariant
                p <= pixels,
                pixels * 3 == img.data@.len(),
                channel < 3,
                bit_index < 8,
                data@.len() == p,
                forall|q: int|
                    0 <= q < p ==> data@[q] == bit_shade(img.data@[3 * q + channel], bit_index),
            decreases pixels - p,
        {
            assert(3 * p + channel < img.data.len());
            let shade: u8 = if get_bit_from_u8(img.data[3 * p + channel], bit_index) {
                255
            } else {
                0
            };
            data.push(shade);
            p += 1;
        }
        let plane = GrayImage { width: img.width, height: img.height, data };
        assert(plane.wf()) by {
            assert(img.width * img.height * 3 == (img.width * img.height) * 3)
                by (nonlinear_arith);
        }
        planes.push(plane);
        k += 1;
    }
    planes
}

} // verus!
