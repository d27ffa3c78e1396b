//! A block of eight by eight pixels, taken apart into its 24 bit planes.

use crate::bit_operations::{bit_of, get_bit_from_u8};
use crate::bpcs::bit_plane::{plane_at, BitPlane};
use crate::image_utils::{Rgb, RgbImage};
use vstd::prelude::*;

verus! {

/// The side of a block, in pixels.
pub const BLOCK_SIZE: u32 = 8;

/// The bit planes of one block: for each of the three channels and each of
/// the eight bit indices one plane, that of `channel` and `bit_index` at
/// position `8 * channel + bit_index`.
pub struct Block {
    /// The corner of the block in its image.
    pub coords: (u32, u32),
    pub bit_planes: Vec<BitPlane>,
}

impl Block {
    /// The block has its 24 planes.
    pub open spec fn wf(&self) -> bool {
        self.bit_planes@.len() == 24
    }

    /// The planes of the block of `source_image` whose corner is `(x, y)`.
    pub fn new(source_image: &RgbImage, x: u32, y: u32) -> (b: Block)
        requires
            source_image.wf(),
            x + 8 <= source_image.width,
            y + 8 <= source_image.height,
        ensures
            b.wf(),
            b.coords == (x, y),
            forall|k: int|
                0 <= k < 24 ==> (#[trigger] b.bit_planes@[k])@ == plane_at(
                    source_image@,
                    (x, y, (k / 8) as u8, (k % 8) as u8),
                ),
    {
        let mut bit_planes: Vec<BitPlane> = Vec::with_capacity(24);
        let mut k: usize = 0;
        while k < 24
            invariant
                k <= 24,
                bit_planes@.len() == k,
                forall|j: int|
                    0 <= j < k ==> (#[trigger] bit_planes@[j])@ == Seq::new(64, |c: int| false),
            decreases 24 - k,
        {
            bit_planes.push(BitPlane::new());
            k += 1;
        }
        let mut b = Block { coords: (x, y), bit_planes };
        let mut cell: usize = 0;
        while cell < 64
            invariant
                cell <= 64,
                b.wf(),
                b.coords == (x, y),
                source_image.wf(),
                x + 8 <= source_image.width,
                y + 8 <= source_image.height,
                forall|j: int, c: int|
                    0 <= j < 24 && 0 <= c < 64 ==> #[trigger] b.bit_planes@[j]@[c] == (if c
                        < cell {
                        plane_at(source_image@, (x, y, (j / 8) as u8, (j % 8) as u8))[c]
                    } else {
                        false
                    }),
            decreases 64 - cell,
        {
            let i: usize = cell / 8;
            let j: usize = cell % 8;
            let pixel = source_image.get_pixel(x + i as u32, y + j as u32);
            b.insert_pixel((i, j), pixel);
            cell += 1;
        }
        proof {
            assert forall|k: int| 0 <= k < 24 implies (#[trigger] b.bit_planes@[k])@ == plane_at(
                source_image@,
                (x, y, (k / 8) as u8, (k % 8) as u8),
            ) by {
                assert(b.bit_planes@[k]@ =~= plane_at(
                    source_image@,
                    (x, y, (k / 8) as u8, (k % 8) as u8),
                ));
            }
        }
        b
    }

    /// Puts the bits of `pixel` into the planes, at the place `coords` of
    /// each: bit `bit_index` of sample `channel` into the plane of that
    /// channel and bit index.
    pub fn insert_pixel(&mut self, coords: (usize, usize), pixel: Rgb)
        requires
            old(self).wf(),
            coords.0 < 8,
            coords.1 < 8,
        ensures
            final(self).wf(),
            final(self).coords == old(self).coords,
            forall|k: int|
                0 <= k < 24 ==> (#[trigger] final(self).bit_planes@[k])@ == old(
                    self,
                ).bit_planes@[k]@.update(
                    coords.0 * 8 + coords.1,
                    bit_of(pixel.0[k / 8], (k % 8) as u8),
                ),
    {
        let mut k: usize = 0;
        while k < 24
            invariant
                k <= 24,
                self.wf(),
                self.coords == old(self).coords,
                coords.0 < 8,
                coords.1 < 8,
                forall|j: int|
                    0 <= j < k ==> (#[trigger] self.bit_planes@[j])@ == old(
                        self,
                    ).bit_planes@[j]@.update(
                        coords.0 * 8 + coords.1,
                        bit_of(pixel.0[j / 8], (j % 8) as u8),
                    ),
                forall|j: int| k <= j < 24 ==> self.bit_planes@[j] == old(self).bit_planes@[j],
            decreases 24 - k,
        {
            let mut plane = self.bit_planes[k];
            plane.set_bit(coords, get_bit_from_u8(pixel.0[k / 8], (k % 8) as u8));
            self.bit_planes[k] = plane;
            k += 1;
        }
    }

    /// The plane of `channel` and `bit_index`.
    pub fn bit_plane(&self, channel: usize, bit_index: usize) -> (plane: &BitPlane)
        requires
            self.wf(),
            channel < 3,
            bit_index < 8,
        ensures
            *plane == self.bit_planes@[8 * channel + bit_index],
    {
        &self.bit_planes[8 * channel + bit_index]
    }
}

} // verus!
