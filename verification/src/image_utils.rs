//! 24-bit RGB images held in memory, and their conversion to and from Gray
//! code.

use crate::bit_operations::{
    binary_code, gray_code, lemma_binary_then_gray, lemma_gray_then_binary, u8_to_binary_code,
    u8_to_gray_code,
};
use vstd::prelude::*;

verus! {

/// One pixel: its red, green and blue samples, in that order.
#[derive(Clone, Copy, Debug, PartialEq, Eq)]
pub struct Rgb(pub [u8; 3]);

/// An image of `width × height` pixels with three 8-bit samples each, stored
/// row by row, the samples of a pixel next to each other.
#[derive(Clone, Debug, PartialEq, Eq)]
pub struct RgbImage {
    pub width: u32,
    pub height: u32,
    pub data: Vec<u8>,
}

/// One pixel of a greyscale image: its single sample.
#[derive(Clone, Copy, Debug, PartialEq, Eq)]
pub struct Luma(pub [u8; 1]);

/// An image of `width × height` pixels with one 8-bit sample each, stored
/// row by row.
#[derive(Clone, Debug, PartialEq, Eq)]
pub struct GrayImage {
    pub width: u32,
    pub height: u32,
    pub data: Vec<u8>,
}

impl GrayImage {
    /// The buffer holds exactly one sample for each pixel.
    pub open spec fn wf(&self) -> bool {
        self.data@.len() == self.width * self.height
    }

    /// The sample of pixel `(x, y)`.
    pub open spec fn sample(&self, x: int, y: int) -> u8 {
        self.data@[y * self.width + x]
    }

    /// The number of pixels in a row.
    pub fn width(&self) -> (w: u32)
        ensures
            w == self.width,
    {
        self.width
    }

    /// The number of rows.
    pub fn height(&self) -> (h: u32)
        ensures
            h == self.height,
    {
        self.height
    }

    /// The pixel `(x, y)`.
    pub fn get_pixel(&self, x: u32, y: u32) -> (p: Luma)
        requires
            self.wf(),
            x < self.width,
            y < self.height,
        ensures
            p.0[0] == self.sample(x as int, y as int),
    {
        proof {
            let w = self.width as int;
            let h = self.height as int;
            let row = y * self.width;
            assert(0 <= row && row + x < w * h) by (nonlinear_arith)
                requires
                    0 <= x < w,
                    0 <= y < h,
                    row == y * w,
            ;
            assert(w * h == self.width * self.height) by (nonlinear_arith)
                requires
                    w == self.width,
                    h == self.height,
            ;
            assert(row + x < self.data.len());
        }
        let at: usize = (y as usize) * (self.width as usize) + (x as usize);
        Luma([self.data[at]])
    }
}

/// The mathematical content of an [`RgbImage`].
pub struct Raster {
    pub width: nat,
    pub height: nat,
    pub data: Seq<u8>,
}

impl Raster {
    /// The buffer holds exactly three samples for each pixel.
    pub open spec fn wf(self) -> bool {
        self.data.len() == self.width * self.height * 3
    }

    /// Whether `(x, y)` names a pixel of the image.
    pub open spec fn contains(self, x: int, y: int) -> bool {
        0 <= x < self.width && 0 <= y < self.height
    }

    /// Where sample `c` of pixel `(x, y)` lies in the buffer.
    pub open spec fn index_of(self, x: int, y: int, c: int) -> int {
        (y * self.width + x) * 3 + c
    }

    /// Sample `c` of pixel `(x, y)`.
    pub open spec fn sample(self, x: int, y: int, c: int) -> u8 {
        self.data[self.index_of(x, y, c)]
    }

    /// The column of the pixel that buffer position `i` belongs to.
    pub open spec fn column_of(self, i: int) -> int {
        (i / 3) % (self.width as int)
    }

    /// The row of the pixel that buffer position `i` belongs to.
    pub open spec fn row_of(self, i: int) -> int {
        (i / 3) / (self.width as int)
    }

    /// The pixel `(x, y)`.
    pub open spec fn pixel(self, x: int, y: int) -> Rgb {
        Rgb([self.sample(x, y, 0), self.sample(x, y, 1), self.sample(x, y, 2)])
    }

    /// The image with pixel `(x, y)` replaced by `p`.
    pub open spec fn with_pixel(self, x: int, y: int, p: Rgb) -> Raster {
        Raster {
            width: self.width,
            height: self.height,
            data: self.data.update(self.index_of(x, y, 0), p.0[0]).update(
                self.index_of(x, y, 1),
                p.0[1],
            ).update(self.index_of(x, y, 2), p.0[2]),
        }
    }

    /// The image with every sample replaced by its Gray code.
    pub open spec fn gray(self) -> Raster {
        Raster {
            width: self.width,
            height: self.height,
            data: Seq::new(self.data.len(), |i: int| gray_code(self.data[i])),
        }
    }

    /// The image with every sample decoded from Gray code.
    pub open spec fn binary(self) -> Raster {
        Raster {
            width: self.width,
            height: self.height,
            data: Seq::new(self.data.len(), |i: int| binary_code(self.data[i])),
        }
    }

    /// The samples of a pixel lie inside the buffer, at a position from which
    /// the pixel and the sample can be read off again.
    pub proof fn lemma_index_of(self, x: int, y: int, c: int)
        requires
            self.wf(),
            self.contains(x, y),
            0 <= c < 3,
        ensures
            0 <= self.index_of(x, y, c) < self.data.len(),
            self.index_of(x, y, c) % 3 == c,
            self.column_of(self.index_of(x, y, c)) == x,
            self.row_of(self.index_of(x, y, c)) == y,
    {
        let w = self.width as int;
        let h = self.height as int;
        let p = y * w + x;
        assert(0 <= p < w * h) by (nonlinear_arith)
            requires
                0 <= x < w,
                0 <= y < h,
                p == y * w + x,
        ;
        assert(w * h * 3 == self.width * self.height * 3) by (nonlinear_arith)
            requires
                w == self.width,
                h == self.height,
        ;
        assert((p * 3 + c) / 3 == p && (p * 3 + c) % 3 == c);
        vstd::arithmetic::div_mod::lemma_fundamental_div_mod_converse(p, w, y, x);
    }

    /// Every position of the buffer is a sample of a pixel of the image.
    pub proof fn lemma_position(self, i: int)
        requires
            self.wf(),
            0 <= i < self.data.len(),
        ensures
            self.contains(self.column_of(i), self.row_of(i)),
            self.index_of(self.column_of(i), self.row_of(i), i % 3) == i,
    {
        let w = self.width as int;
        let h = self.height as int;
        let p = i / 3;
        assert(w * h * 3 == self.width * self.height * 3) by (nonlinear_arith)
            requires
                w == self.width,
                h == self.height,
        ;
        assert(0 <= p < w * h);
        assert(w > 0) by (nonlinear_arith)
            requires
                0 <= p < w * h,
                w >= 0,
        ;
        vstd::arithmetic::div_mod::lemma_fundamental_div_mod(p, w);
        vstd::arithmetic::div_mod::lemma_mod_pos_bound(p, w);
        let q = p / w;
        let r = p % w;
        assert(0 <= q < h) by (nonlinear_arith)
            requires
                p == w * q + r,
                0 <= r < w,
                0 <= p < w * h,
        ;
        assert(w * q == q * w) by (nonlinear_arith);
    }

    /// Replacing a pixel changes the samples of that pixel and no others.
    pub proof fn lemma_with_pixel(self, x: int, y: int, p: Rgb, x2: int, y2: int, c: int)
        requires
            self.wf(),
            self.contains(x, y),
            self.contains(x2, y2),
            0 <= c < 3,
        ensures
            self.with_pixel(x, y, p).wf(),
            self.with_pixel(x, y, p).sample(x2, y2, c) == (if x2 == x && y2 == y {
                p.0[c]
            } else {
                self.sample(x2, y2, c)
            }),
    {
        self.lemma_index_of(x, y, 0);
        self.lemma_index_of(x, y, 1);
        self.lemma_index_of(x, y, 2);
        self.lemma_index_of(x2, y2, c);
    }

    /// Decoding the Gray-coded image gives the image.
    pub proof fn lemma_gray_then_binary(self)
        ensures
            self.gray().binary() == self,
    {
        assert forall|i: int| 0 <= i < self.data.len() implies binary_code(gray_code(self.data[i]))
            == self.data[i] by {
            lemma_gray_then_binary(self.data[i]);
        }
        assert(self.gray().binary().data =~= self.data);
    }

    /// Gray-coding the decoded image gives the image.
    pub proof fn lemma_binary_then_gray(self)
        ensures
            self.binary().gray() == self,
    {
        assert forall|i: int| 0 <= i < self.data.len() implies gray_code(binary_code(self.data[i]))
            == self.data[i] by {
            lemma_binary_then_gray(self.data[i]);
        }
        assert(self.binary().gray().data =~= self.data);
    }
}

impl View for RgbImage {
    type V = Raster;

    open spec fn view(&self) -> Raster {
        Raster { width: self.width as nat, height: self.height as nat, data: self.data@ }
    }
}

/// The Gray code of each sample of a pixel.
pub open spec fn gray_pixel(p: Rgb) -> Rgb {
    Rgb([gray_code(p.0[0]), gray_code(p.0[1]), gray_code(p.0[2])])
}

/// Each sample of a pixel decoded from Gray code.
pub open spec fn binary_pixel(p: Rgb) -> Rgb {
    Rgb([binary_code(p.0[0]), binary_code(p.0[1]), binary_code(p.0[2])])
}

impl RgbImage {
    /// The buffer holds exactly three samples for each pixel.
    pub open spec fn wf(&self) -> bool {
        self@.wf()
    }

    /// A black image of the given size.
    pub fn new(width: u32, height: u32) -> (img: RgbImage)
        requires
            width * height * 3 <= usize::MAX,
        ensures
            img.wf(),
            img.width == width,
            img.height == height,
            forall|i: int| 0 <= i < img.data@.len() ==> img.data@[i] == 0,
    {
        assert(width * height <= width * height * 3) by (nonlinear_arith);
        let len: usize = (width as usize) * (height as usize) * 3;
        let mut data: Vec<u8> = Vec::with_capacity(len);
        let mut i: usize = 0;
        while i < len
            invariant
                i <= len,
                data@.len() == i,
                forall|j: int| 0 <= j < i ==> data@[j] == 0,
            decreases len - i,
        {
            data.push(0);
            i += 1;
        }
        RgbImage { width, height, data }
    }

    /// The image of the given size over `data`, if `data` holds exactly three
    /// samples for each pixel.
    pub fn from_raw(width: u32, height: u32, data: Vec<u8>) -> (img: Option<RgbImage>)
        ensures
            img is Some <==> data@.len() == width * height * 3,
            img matches Some(i) ==> i.wf() && i.width == width && i.height == height && i.data@
                == data@,
    {
        assert(width * height <= 0xffff_ffff * 0xffff_ffff) by (nonlinear_arith)
            requires
                width <= 0xffff_ffff,
                height <= 0xffff_ffff,
        ;
        let expected: u128 = (width as u128) * (height as u128) * 3;
        if data.len() as u128 == expected {
            Some(RgbImage { width, height, data })
        } else {
            None
        }
    }

    /// The number of pixels in a row.
    pub fn width(&self) -> (w: u32)
        ensures
            w == self.width,
    {
        self.width
    }

    /// The number of rows.
    pub fn height(&self) -> (h: u32)
        ensures
            h == self.height,
    {
        self.height
    }

    /// Width and height.
    pub fn dimensions(&self) -> (d: (u32, u32))
        ensures
            d == (self.width, self.height),
    {
        (self.width, self.height)
    }

    /// A copy of the image.
    pub fn copy(&self) -> (img: RgbImage)
        ensures
            img@ == self@,
    {
        let data = self.data.clone();
        assert(data@ =~= self.data@);
        RgbImage { width: self.width, height: self.height, data }
    }

    /// The samples, row by row.
    pub fn as_raw(&self) -> (data: &Vec<u8>)
        ensures
            data@ == self.data@,
    {
        &self.data
    }

    /// The position of the first sample of pixel `(x, y)` in the buffer.
    fn offset(&self, x: u32, y: u32) -> (at: usize)
        requires
            self.wf(),
            self@.contains(x as int, y as int),
        ensures
            at == self@.index_of(x as int, y as int, 0),
            at + 2 < self.data.len(),
    {
        proof {
            self@.lemma_index_of(x as int, y as int, 0);
            self@.lemma_index_of(x as int, y as int, 2);
            let row = y * self.width;
            assert(0 <= row) by (nonlinear_arith)
                requires
                    row == y * self.width,
            ;
            assert((row + x) * 3 + 2 < self.data.len());
        }
        ((y as usize) * (self.width as usize) + (x as usize)) * 3
    }

    /// The pixel `(x, y)`.
    pub fn get_pixel(&self, x: u32, y: u32) -> (p: Rgb)
        requires
            self.wf(),
            self@.contains(x as int, y as int),
        ensures
            p == self@.pixel(x as int, y as int),
    {
        let at = self.offset(x, y);
        let p = Rgb([self.data[at], self.data[at + 1], self.data[at + 2]]);
        assert(p.0@ =~= self@.pixel(x as int, y as int).0@);
        p
    }

    /// Replaces the pixel `(x, y)` by `p`.
    pub fn put_pixel(&mut self, x: u32, y: u32, p: Rgb)
        requires
            old(self).wf(),
            old(self)@.contains(x as int, y as int),
        ensures
            final(self)@ == old(self)@.with_pixel(x as int, y as int, p),
            final(self).wf(),
    {
        let at = self.offset(x, y);
        self.data[at] = p.0[0];
        self.data[at + 1] = p.0[1];
        self.data[at + 2] = p.0[2];
    }
}

/// Replaces each sample of a pixel by its Gray code.
pub fn pixel_to_gray_code(pixel: &mut Rgb)
    ensures
        *final(pixel) == gray_pixel(*old(pixel)),
{
    let r = u8_to_gray_code(pixel.0[0]);
    let g = u8_to_gray_code(pixel.0[1]);
    let b = u8_to_gray_code(pixel.0[2]);
    *pixel = Rgb([r, g, b]);
    assert(pixel.0@ =~= gray_pixel(*old(pixel)).0@);
}

/// Decodes each sample of a pixel from Gray code.
pub fn pixel_to_binary_code(pixel: &mut Rgb)
    ensures
        *final(pixel) == binary_pixel(*old(pixel)),
{
    let r = u8_to_binary_code(pixel.0[0]);
    let g = u8_to_binary_code(pixel.0[1]);
    let b = u8_to_binary_code(pixel.0[2]);
    *pixel = Rgb([r, g, b]);
    assert(pixel.0@ =~= binary_pixel(*old(pixel)).0@);
}

/// Replaces every sample of an image by its Gray code.
pub fn image_to_gray_code(image: &mut RgbImage)
    requires
        old(image).wf(),
    ensures
        final(image)@ == old(image)@.gray(),
        final(image).wf(),
{
    let n: usize = image.data.len();
    let mut i: usize = 0;
    while i < n
        invariant
            i <= n,
            n == old(image).data@.len(),
            image.data@.len() == n,
            image.width == old(image).width,
            image.height == old(image).height,
            forall|j: int| 0 <= j < i ==> image.data@[j] == gray_code(old(image).data@[j]),
            forall|j: int| i <= j < n ==> image.data@[j] == old(image).data@[j],
        decreases n - i,
    {
        let gray = u8_to_gray_code(image.data[i]);
        image.data[i] = gray;
        i += 1;
    }
    assert(image@.data =~= old(image)@.gray().data);
}

/// Decodes every sample of an image from Gray code.
pub fn image_to_binary_code(image: &mut RgbImage)
    requires
        old(image).wf(),
    ensures
        final(image)@ == old(image)@.binary(),
        final(image).wf(),
{
    let n: usize = image.data.len();
    let mut i: usize = 0;
    while i < n
        invariant
            i <= n,
            n == old(image).data@.len(),
            image.data@.len() == n,
            image.width == old(image).width,
            image.height == old(image).height,
            forall|j: int| 0 <= j < i ==> image.data@[j] == binary_code(old(image).data@[j]),
            forall|j: int| i <= j < n ==> image.data@[j] == old(image).data@[j],
        decreases n - i,
    {
        let binary = u8_to_binary_code(image.data[i]);
        image.data[i] = binary;
        i += 1;
    }
    assert(image@.data =~= old(image)@.binary().data);
}

/// Converting an image to Gray code and back gives the image.
pub proof fn lemma_gray_code_round_trip(image: Raster)
    ensures
        image.gray().binary() == image,
        image.binary().gray() == image,
{
    image.lemma_gray_then_binary();
    image.lemma_binary_then_gray();
}

} // verus!
