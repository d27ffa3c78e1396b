//! Walking over all planes of an image that share a bit index.

use crate::bpcs::bit_plane::{plane_at, valid_coord, BitPlane, PlaneCoord};
use crate::image_utils::RgbImage;
use vstd::prelude::*;

verus! {

/// A cursor over the planes of one bit index: block columns from left to
/// right, in each column the blocks from top to bottom, in each block the
/// three channels. Pixels beyond the last full block of a row or a column
/// belong to no plane.
pub struct BitIndexedBitPlaneIter<'a> {
    pub source_image: &'a RgbImage,
    pub bit_index: u8,
    /// The block column of the next plane; the number of block columns when
    /// none is left.
    pub block_x: u32,
    /// The block row of the next plane.
    pub block_y: u32,
    /// The channel of the next plane.
    pub channel: u8,
}

impl<'a> BitIndexedBitPlaneIter<'a> {
    /// The number of block columns of the image.
    pub open spec fn columns(&self) -> int {
        self.source_image.width as int / 8
    }

    /// The number of block rows of the image.
    pub open spec fn rows(&self) -> int {
        self.source_image.height as int / 8
    }

    /// The cursor lies on a plane of the image, or behind the last one.
    pub open spec fn wf(&self) -> bool {
        &&& self.source_image.wf()
        &&& self.bit_index < 8
        &&& self.block_x <= self.columns()
        &&& self.block_x < self.columns() ==> self.block_y < self.rows() && self.channel < 3
    }

    /// Whether no plane is left.
    pub open spec fn finished(&self) -> bool {
        self.block_x >= self.columns()
    }

    /// The coordinates of the next plane.
    pub open spec fn current(&self) -> PlaneCoord {
        ((8 * self.block_x) as u32, (8 * self.block_y) as u32, self.channel, self.bit_index)
    }

    /// A cursor on the first plane of `source_image` at `bit_index`.
    pub fn new(source_image: &'a RgbImage, bit_index: u8) -> (iter: Self)
        requires
            source_image.wf(),
            bit_index < 8,
        ensures
            iter.wf(),
            iter.source_image == source_image,
            iter.bit_index == bit_index,
            iter.rows() > 0 ==> iter.block_x == 0,
            iter.rows() == 0 ==> iter.finished(),
            iter.block_y == 0,
            iter.channel == 0,
    {
        let block_x = if source_image.height / 8 == 0 {
            source_image.width / 8
        } else {
            0
        };
        BitIndexedBitPlaneIter { source_image, bit_index, block_x, block_y: 0, channel: 0 }
    }

    /// The next plane with its coordinates, if one is left; the cursor moves
    /// on to the plane after it.
    pub fn next(&mut self) -> (item: Option<(PlaneCoord, BitPlane)>)
        requires
            old(self).wf(),
        ensures
            final(self).wf(),
            final(self).source_image == old(self).source_image,
            final(self).bit_index == old(self).bit_index,
            old(self).finished() ==> item is None && *final(self) == *old(self),
            !old(self).finished() ==> {
                &&& item matches Some((coord, plane))
                &&& coord == old(self).current()
                &&& valid_coord(
                    old(self).source_image@.width,
                    old(self).source_image@.height,
                    coord,
                )
                &&& plane@ == plane_at(old(self).source_image@, coord)
                &&& if old(self).channel < 2 {
                    &&& final(self).block_x == old(self).block_x
                    &&& final(self).block_y == old(self).block_y
                    &&& final(self).channel == old(self).channel + 1
                } else if old(self).block_y + 1 < old(self).rows() {
                    &&& final(self).block_x == old(self).block_x
                    &&& final(self).block_y == old(self).block_y + 1
                    &&& final(self).channel == 0
                } else {
                    &&& final(self).block_x == old(self).block_x + 1
                    &&& final(self).block_y == 0
                    &&& final(self).channel == 0
                }
            },
    {
        if self.block_x >= self.source_image.width / 8 {
            return None;
        }
        let x: u32 = self.block_x * 8;
        let y: u32 = self.block_y * 8;
        let coord: PlaneCoord = (x, y, self.channel, self.bit_index);
        let plane = BitPlane::from_sub_image(self.source_image, x, y, self.channel, self.bit_index);
        if self.channel < 2 {
            self.channel += 1;
        } else {
            self.channel = 0;
            if self.block_y + 1 < self.source_image.height / 8 {
                self.block_y += 1;
            } else {
                self.block_y = 0;
                self.block_x += 1;
            }
        }
        Some((coord, plane))
    }
}

} // verus!
