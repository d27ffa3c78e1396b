//! 8×8 planes of bits: how they are read from and written to an image, their
//! complexity, and their conjugation with the checkerboard.

use crate::bit_operations::{
    bit_of, bits_to_u8, bits_value, get_bit_from_u8, lemma_bit_of_with_bit, set_bit_in_u8, with_bit,
};
use crate::bpcs::alpha::{Alpha, MAX_BIT_CHANGES};
use crate::image_utils::{Raster, RgbImage};
use vstd::prelude::*;

verus! {

/// The side of a plane, in pixels.
pub const PLANE_SIZE: u32 = 8;

/// The side of a plane, as an index bound.
pub const USIZE_PLANE_SIZE: usize = 8;

/// The number of bytes that the bits of a plane fill.
pub const BYTES_PER_PLANE: usize = 8;

/// Where a plane lies in an image: the corner `(x, y)` of its block, the
/// channel (0, 1, 2 for red, green, blue) and the bit index (0 is the most
/// significant bit of a sample).
pub type PlaneCoord = (u32, u32, u8, u8);

/// An 8×8 matrix of bits. `bits[i][j]` belongs to the pixel `i` columns to the
/// right of and `j` rows below the corner of the block.
#[derive(Clone, Copy, Debug)]
pub struct BitPlane {
    pub bits: [[bool; 8]; 8],
}

impl View for BitPlane {
    type V = Seq<bool>;

    /// The 64 bits, `bits[i][j]` at position `8 * i + j`.
    open spec fn view(&self) -> Seq<bool> {
        Seq::new(64, |k: int| self.bits[k / 8][k % 8])
    }
}

/// Bit `k` of the checkerboard: set where the two indices add up to an odd
/// number.
pub open spec fn checkerboard_bit(k: int) -> bool {
    (k / 8 + k % 8) % 2 == 1
}

/// The checkerboard as 64 bits.
pub open spec fn checkerboard_seq() -> Seq<bool> {
    Seq::new(64, |k: int| checkerboard_bit(k))
}

/// The conjugate of a plane: its exclusive or with the checkerboard.
pub open spec fn conjugate_seq(bits: Seq<bool>) -> Seq<bool> {
    Seq::new(64, |k: int| bits[k] != checkerboard_bit(k))
}

/// Among the first `n` positions, the number of those that differ from the
/// next position in the same line of eight.
pub open spec fn adjacent_changes(bits: Seq<bool>, n: nat) -> nat
    decreases n,
{
    if n == 0 {
        0
    } else {
        let i = (n - 1) as int;
        adjacent_changes(bits, (n - 1) as nat) + if i % 8 != 7 && bits[i] != bits[i + 1] {
            1nat
        } else {
            0nat
        }
    }
}

/// Among the first `n` positions, the number of those that differ from the
/// position eight further on, their neighbour in the next line.
pub open spec fn stride_changes(bits: Seq<bool>, n: nat) -> nat
    decreases n,
{
    if n == 0 {
        0
    } else {
        let i = (n - 1) as int;
        stride_changes(bits, (n - 1) as nat) + if bits[i] != bits[i + 8] {
            1nat
        } else {
            0nat
        }
    }
}

/// The number of changes between neighbouring bits of a plane, along both
/// axes. The complexity coefficient of the plane is this number over 112.
pub open spec fn changes(bits: Seq<bool>) -> nat {
    adjacent_changes(bits, 63) + stride_changes(bits, 56)
}

/// Whether a plane is complex enough for the threshold `min_alpha`.
pub open spec fn is_complex(bits: Seq<bool>, min_alpha: Alpha) -> bool {
    min_alpha.accepts(changes(bits))
}

/// Whether `coord` names a plane of an image of the given size: the block is
/// aligned to eight pixels and lies inside the image.
pub open spec fn valid_coord(width: nat, height: nat, coord: PlaneCoord) -> bool {
    &&& coord.0 % 8 == 0
    &&& coord.1 % 8 == 0
    &&& coord.0 + 8 <= width
    &&& coord.1 + 8 <= height
    &&& coord.2 < 3
    &&& coord.3 < 8
}

/// The plane of `image` at `coord`.
pub open spec fn plane_at(image: Raster, coord: PlaneCoord) -> Seq<bool> {
    Seq::new(
        64,
        |k: int| bit_of(image.sample(coord.0 + k / 8, coord.1 + k % 8, coord.2 as int), coord.3),
    )
}

/// Whether buffer position `i` of `image` holds a sample that the plane at
/// `coord` has a bit in.
pub open spec fn in_plane(image: Raster, coord: PlaneCoord, i: int) -> bool {
    &&& i % 3 == coord.2
    &&& coord.0 <= image.column_of(i) < coord.0 + 8
    &&& coord.1 <= image.row_of(i) < coord.1 + 8
}

/// `image` with the plane at `coord` replaced by `bits`: in each of the 64
/// pixels of the block, bit `coord.3` of channel `coord.2` is replaced and
/// nothing else.
pub open spec fn with_plane(image: Raster, coord: PlaneCoord, bits: Seq<bool>) -> Raster {
    Raster {
        width: image.width,
        height: image.height,
        data: Seq::new(
            image.data.len(),
            |i: int|
                if in_plane(image, coord, i) {
                    with_bit(
                        image.data[i],
                        coord.3,
                        bits[(image.column_of(i) - coord.0) * 8 + (image.row_of(i) - coord.1)],
                    )
                } else {
                    image.data[i]
                },
        ),
    }
}

/// The eight bytes that a plane packs into: byte `i` is the number that the
/// bits `8 * i .. 8 * i + 8` denote.
pub open spec fn plane_bytes(bits: Seq<bool>) -> Seq<u8> {
    Seq::new(8, |i: int| bits_value(bits.subrange(8 * i, 8 * i + 8)) as u8)
}

/// Whether buffer position `i` of `image` holds a sample of a pixel that lies
/// in no full block of eight by eight pixels, and so in no plane.
pub open spec fn outside_blocks(image: Raster, i: int) -> bool {
    image.column_of(i) >= 8 * (image.width / 8) || image.row_of(i) >= 8 * (image.height / 8)
}

/// Writing a plane changes no sample outside the blocks of an image.
pub proof fn lemma_with_plane_outside(image: Raster, coord: PlaneCoord, bits: Seq<bool>, i: int)
    requires
        valid_coord(image.width, image.height, coord),
        0 <= i < image.data.len(),
        outside_blocks(image, i),
    ensures
        with_plane(image, coord, bits).data[i] == image.data[i],
{
}

/// Conjugating twice gives the plane back.
pub proof fn lemma_conjugate_involution(bits: Seq<bool>)
    requires
        bits.len() == 64,
    ensures
        conjugate_seq(conjugate_seq(bits)) == bits,
{
    assert(conjugate_seq(conjugate_seq(bits)) =~= bits);
}

proof fn lemma_adjacent_changes_conjugate(bits: Seq<bool>, n: nat)
    requires
        bits.len() == 64,
        n <= 63,
    ensures
        adjacent_changes(conjugate_seq(bits), n) + adjacent_changes(bits, n) == n - n / 8,
    decreases n,
{
    if n > 0 {
        lemma_adjacent_changes_conjugate(bits, (n - 1) as nat);
    }
}

proof fn lemma_stride_changes_conjugate(bits: Seq<bool>, n: nat)
    requires
        bits.len() == 64,
        n <= 56,
    ensures
        stride_changes(conjugate_seq(bits), n) + stride_changes(bits, n) == n,
    decreases n,
{
    if n > 0 {
        lemma_stride_changes_conjugate(bits, (n - 1) as nat);
    }
}

/// The changes of a plane and of its conjugate add up to 112: conjugation
/// maps the complexity `a` to `1 - a`.
pub proof fn lemma_changes_conjugate(bits: Seq<bool>)
    requires
        bits.len() == 64,
    ensures
        changes(conjugate_seq(bits)) + changes(bits) == 112,
{
    lemma_adjacent_changes_conjugate(bits, 63);
    lemma_stride_changes_conjugate(bits, 56);
}

proof fn lemma_adjacent_changes_bound(bits: Seq<bool>, n: nat)
    requires
        n <= 63,
    ensures
        adjacent_changes(bits, n) <= n - n / 8,
    decreases n,
{
    if n > 0 {
        lemma_adjacent_changes_bound(bits, (n - 1) as nat);
    }
}

proof fn lemma_stride_changes_bound(bits: Seq<bool>, n: nat)
    ensures
        stride_changes(bits, n) <= n,
    decreases n,
{
    if n > 0 {
        lemma_stride_changes_bound(bits, (n - 1) as nat);
    }
}

/// A plane has at most 112 changes.
pub proof fn lemma_changes_bound(bits: Seq<bool>)
    ensures
        changes(bits) <= 112,
{
    lemma_adjacent_changes_bound(bits, 63);
    lemma_stride_changes_bound(bits, 56);
}

proof fn lemma_adjacent_changes_uniform(bits: Seq<bool>, value: bool, n: nat)
    requires
        bits.len() == 64,
        n <= 63,
        forall|k: int| 0 <= k < 64 ==> #[trigger] bits[k] == value,
    ensures
        adjacent_changes(bits, n) == 0,
    decreases n,
{
    if n > 0 {
        lemma_adjacent_changes_uniform(bits, value, (n - 1) as nat);
    }
}

proof fn lemma_stride_changes_uniform(bits: Seq<bool>, value: bool, n: nat)
    requires
        bits.len() == 64,
        n <= 56,
        forall|k: int| 0 <= k < 64 ==> #[trigger] bits[k] == value,
    ensures
        stride_changes(bits, n) == 0,
    decreases n,
{
    if n > 0 {
        lemma_stride_changes_uniform(bits, value, (n - 1) as nat);
    }
}

/// A plane whose bits are all equal has no changes; the checkerboard has all
/// 112.
pub proof fn lemma_changes_extremes(value: bool)
    ensures
        changes(Seq::new(64, |k: int| value)) == 0,
        changes(checkerboard_seq()) == 112,
{
    let uniform = Seq::new(64, |k: int| value);
    lemma_adjacent_changes_uniform(uniform, value, 63);
    lemma_stride_changes_uniform(uniform, value, 56);
    let zero = Seq::new(64, |k: int| false);
    lemma_adjacent_changes_uniform(zero, false, 63);
    lemma_stride_changes_uniform(zero, false, 56);
    lemma_changes_conjugate(zero);
    assert(conjugate_seq(zero) =~= checkerboard_seq());
}

/// The samples of `image` after the plane at `coord` was replaced.
pub proof fn lemma_with_plane_sample(
    image: Raster,
    coord: PlaneCoord,
    bits: Seq<bool>,
    x: int,
    y: int,
    c: int,
)
    requires
        image.wf(),
        image.contains(x, y),
        0 <= c < 3,
    ensures
        with_plane(image, coord, bits).wf(),
        with_plane(image, coord, bits).sample(x, y, c) == (if c == coord.2 && coord.0 <= x
            < coord.0 + 8 && coord.1 <= y < coord.1 + 8 {
            with_bit(image.sample(x, y, c), coord.3, bits[(x - coord.0) * 8 + (y - coord.1)])
        } else {
            image.sample(x, y, c)
        }),
{
    image.lemma_index_of(x, y, c);
}

/// The plane that was written is the plane that is read back.
pub proof fn lemma_plane_at_same(image: Raster, coord: PlaneCoord, bits: Seq<bool>)
    requires
        image.wf(),
        valid_coord(image.width, image.height, coord),
        bits.len() == 64,
    ensures
        plane_at(with_plane(image, coord, bits), coord) == bits,
{
    let after = with_plane(image, coord, bits);
    assert forall|k: int| 0 <= k < 64 implies plane_at(after, coord)[k] == bits[k] by {
        let x = coord.0 + k / 8;
        let y = coord.1 + k % 8;
        lemma_with_plane_sample(image, coord, bits, x, y, coord.2 as int);
        lemma_bit_of_with_bit(image.sample(x, y, coord.2 as int), coord.3, bits[k], coord.3);
    }
    assert(plane_at(after, coord) =~= bits);
}

/// Writing a plane leaves every other plane of the image as it was.
pub proof fn lemma_plane_at_other(
    image: Raster,
    coord: PlaneCoord,
    bits: Seq<bool>,
    other: PlaneCoord,
)
    requires
        image.wf(),
        valid_coord(image.width, image.height, coord),
        valid_coord(image.width, image.height, other),
        other != coord,
    ensures
        plane_at(with_plane(image, coord, bits), other) == plane_at(image, other),
{
    let after = with_plane(image, coord, bits);
    assert forall|k: int| 0 <= k < 64 implies plane_at(after, other)[k] == plane_at(
        image,
        other,
    )[k] by {
        let x = other.0 + k / 8;
        let y = other.1 + k % 8;
        lemma_with_plane_sample(image, coord, bits, x, y, other.2 as int);
        if other.2 == coord.2 && coord.0 <= x < coord.0 + 8 && coord.1 <= y < coord.1 + 8 {
            assert(other.0 == coord.0 && other.1 == coord.1);
            lemma_bit_of_with_bit(
                image.sample(x, y, other.2 as int),
                coord.3,
                bits[(x - coord.0) * 8 + (y - coord.1)],
                other.3,
            );
        }
    }
    assert(plane_at(after, other) =~= plane_at(image, other));
}

/// The checkerboard as a matrix.
pub fn checkerboard() -> (board: [[bool; 8]; 8])
    ensures
        forall|x: int, y: int| 0 <= x < 8 && 0 <= y < 8 ==> board[x][y] == ((x + y) % 2 != 0),
{
    let mut board = [[false; 8]; 8];
    let mut y: usize = 0;
    while y < 8
        invariant
            y <= 8,
            forall|i: int, j: int| 0 <= i < 8 && 0 <= j < y ==> board[i][j] == ((i + j) % 2 != 0),
        decreases 8 - y,
    {
        let mut x: usize = 0;
        while x < 8
            invariant
                y < 8,
                x <= 8,
                forall|i: int, j: int|
                    0 <= i < 8 && 0 <= j < y ==> board[i][j] == ((i + j) % 2 != 0),
                forall|i: int| 0 <= i < x ==> board[i][y as int] == ((i + y) % 2 != 0),
            decreases 8 - x,
        {
            board[x][y] = (x + y) % 2 != 0;
            x += 1;
        }
        y += 1;
    }
    board
}

/// Cuts a bit sequence into planes of 64 bits each.
pub fn get_planes(bits: Vec<bool>) -> (planes: Vec<BitPlane>)
    requires
        bits@.len() % 64 == 0,
    ensures
        planes@.len() == bits@.len() / 64,
        forall|p: int|
            0 <= p < planes@.len() ==> (#[trigger] planes@[p])@ == bits@.subrange(
                64 * p,
                64 * p + 64,
            ),
{
    let count: usize = bits.len() / 64;
    let mut planes: Vec<BitPlane> = Vec::new();
    let mut p: usize = 0;
    while p < count
        invariant
            p <= count,
            count == bits@.len() / 64,
            bits@.len() % 64 == 0,
            planes@.len() == p,
            forall|q: int|
                0 <= q < p ==> (#[trigger] planes@[q])@ == bits@.subrange(64 * q, 64 * q + 64),
        decreases count - p,
    {
        let mut plane_bits = [false; 64];
        let mut k: usize = 0;
        while k < 64
            invariant
                k <= 64,
                p < count,
                count == bits@.len() / 64,
                bits@.len() % 64 == 0,
                forall|j: int| 0 <= j < k ==> plane_bits[j] == bits@[64 * p + j],
            decreases 64 - k,
        {
            assert(64 * p + k < bits.len());
            plane_bits[k] = bits[64 * p + k];
            k += 1;
        }
        let plane = BitPlane::from_bits(plane_bits);
        assert(plane@ =~= bits@.subrange(64 * p, 64 * p + 64));
        planes.push(plane);
        p += 1;
    }
    planes
}

impl BitPlane {
    /// The plane with no bit set.
    pub fn new() -> (p: BitPlane)
        ensures
            p@ == Seq::new(64, |k: int| false),
    {
        let p = BitPlane { bits: [[false; 8]; 8] };
        assert(p@ =~= Seq::new(64, |k: int| false));
        p
    }

    /// Reads the plane of `image` whose block has its corner at `(x, y)`, in
    /// the given channel and at the given bit index.
    pub fn from_sub_image(
        image: &RgbImage,
        x: u32,
        y: u32,
        channel: u8,
        bit_index: u8,
    ) -> (p: BitPlane)
        requires
            image.wf(),
            x + 8 <= image.width,
            y + 8 <= image.height,
            channel < 3,
            bit_index < 8,
        ensures
            p@ == plane_at(image@, (x, y, channel, bit_index)),
    {
        let mut p = BitPlane::new();
        let mut i: u32 = 0;
        while i < 8
            invariant
                i <= 8,
                image.wf(),
                x + 8 <= image.width,
                y + 8 <= image.height,
                channel < 3,
                bit_index < 8,
                forall|a: int, b: int|
                    0 <= a < i && 0 <= b < 8 ==> p.bits[a][b] == bit_of(
                        image@.sample(x + a, y + b, channel as int),
                        bit_index,
                    ),
            decreases 8 - i,
        {
            let mut j: u32 = 0;
            while j < 8
                invariant
                    i < 8,
                    j <= 8,
                    image.wf(),
                    x + 8 <= image.width,
                    y + 8 <= image.height,
                    channel < 3,
                    bit_index < 8,
                    forall|a: int, b: int|
                        0 <= a < i && 0 <= b < 8 ==> p.bits[a][b] == bit_of(
                            image@.sample(x + a, y + b, channel as int),
                            bit_index,
                        ),
                    forall|b: int|
                        0 <= b < j ==> p.bits[i as int][b] == bit_of(
                            image@.sample(x + i, y + b, channel as int),
                            bit_index,
                        ),
                decreases 8 - j,
            {
                let pixel = image.get_pixel(x + i, y + j);
                let bit = get_bit_from_u8(pixel.0[channel as usize], bit_index);
                p.set_bit((i as usize, j as usize), bit);
                j += 1;
            }
            i += 1;
        }
        assert(p@ =~= plane_at(image@, (x, y, channel, bit_index)));
        p
    }

    /// The plane that holds the 64 bits `bit_array`, `bit_array[8 * i + j]` at
    /// `(i, j)`.
    pub fn from_bits(bit_array: [bool; 64]) -> (p: BitPlane)
        ensures
            p@ == bit_array@,
    {
        let mut p = BitPlane::new();
        let mut i: usize = 0;
        while i < 8
            invariant
                i <= 8,
                forall|a: int, b: int|
                    0 <= a < i && 0 <= b < 8 ==> p.bits[a][b] == bit_array[a * 8 + b],
            decreases 8 - i,
        {
            let mut j: usize = 0;
            while j < 8
                invariant
                    i < 8,
                    j <= 8,
                    forall|a: int, b: int|
                        0 <= a < i && 0 <= b < 8 ==> p.bits[a][b] == bit_array[a * 8 + b],
                    forall|b: int| 0 <= b < j ==> p.bits[i as int][b] == bit_array[i * 8 + b],
                decreases 8 - j,
            {
                p.set_bit((i, j), bit_array[(i * 8) + j]);
                j += 1;
            }
            i += 1;
        }
        assert(p@ =~= bit_array@);
        p
    }

    /// The 64 bits of the plane, `(i, j)` at position `8 * i + j`.
    pub fn export_to_bools(self) -> (bools: [bool; 64])
        ensures
            bools@ == self@,
    {
        let mut bools = [false; 64];
        let mut k: usize = 0;
        while k < 64
            invariant
                k <= 64,
                forall|j: int| 0 <= j < k ==> bools[j] == self.bits[j / 8][j % 8],
            decreases 64 - k,
        {
            bools[k] = self.bits[k / 8][k % 8];
            k += 1;
        }
        assert(bools@ =~= self@);
        bools
    }

    /// The plane packed into eight bytes: byte `i` holds the bits `(i, 0)` to
    /// `(i, 7)`, most significant first.
    pub fn export_to_u8s(self) -> (bytes: [u8; 8])
        ensures
            bytes@ == plane_bytes(self@),
    {
        let mut bytes = [0u8; 8];
        let mut i: usize = 0;
        while i < 8
            invariant
                i <= 8,
                forall|a: int|
                    0 <= a < i ==> bytes[a] == bits_value(self@.subrange(8 * a, 8 * a + 8)),
            decreases 8 - i,
        {
            let row: [bool; 8] = self.bits[i];
            assert(row@ =~= self@.subrange(8 * i, 8 * i + 8));
            bytes[i] = bits_to_u8(row);
            i += 1;
        }
        assert(bytes@ =~= plane_bytes(self@));
        bytes
    }

    /// Replaces the bit at `coords`.
    pub fn set_bit(&mut self, coords: (usize, usize), val: bool)
        requires
            coords.0 < 8,
            coords.1 < 8,
        ensures
            forall|i: int, j: int|
                0 <= i < 8 && 0 <= j < 8 ==> final(self).bits[i][j] == (if i == coords.0 && j
                    == coords.1 {
                    val
                } else {
                    old(self).bits[i][j]
                }),
            final(self)@ == old(self)@.update(coords.0 * 8 + coords.1, val),
    {
        self.bits[coords.0][coords.1] = val;
        assert(self@ =~= old(self)@.update(coords.0 * 8 + coords.1, val));
    }

    /// Replaces the plane by its conjugate.
    pub fn conjugate(&mut self)
        ensures
            final(self)@ == conjugate_seq(old(self)@),
            changes(final(self)@) == 112 - changes(old(self)@),
    {
        let board = checkerboard();
        let mut x: usize = 0;
        while x < 8
            invariant
                x <= 8,
                forall|i: int, j: int|
                    0 <= i < 8 && 0 <= j < 8 ==> board[i][j] == ((i + j) % 2 != 0),
                forall|i: int, j: int|
                    0 <= i < x && 0 <= j < 8 ==> self.bits[i][j] == (old(self).bits[i][j]
                        != board[i][j]),
                forall|i: int, j: int|
                    x <= i < 8 && 0 <= j < 8 ==> self.bits[i][j] == old(self).bits[i][j],
            decreases 8 - x,
        {
            let mut y: usize = 0;
            while y < 8
                invariant
                    x < 8,
                    y <= 8,
                    forall|i: int, j: int|
                        0 <= i < 8 && 0 <= j < 8 ==> board[i][j] == ((i + j) % 2 != 0),
                    forall|i: int, j: int|
                        0 <= i < x && 0 <= j < 8 ==> self.bits[i][j] == (old(self).bits[i][j]
                            != board[i][j]),
                    forall|i: int, j: int|
                        x < i < 8 && 0 <= j < 8 ==> self.bits[i][j] == old(self).bits[i][j],
                    forall|j: int|
                        0 <= j < y ==> self.bits[x as int][j] == (old(self).bits[x as int][j]
                            != board[x as int][j]),
                    forall|j: int|
                        y <= j < 8 ==> self.bits[x as int][j] == old(self).bits[x as int][j],
                decreases 8 - y,
            {
                let flipped = self.bits[x][y] ^ board[x][y];
                self.set_bit((x, y), flipped);
                y += 1;
            }
            x += 1;
        }
        proof {
            assert forall|k: int| 0 <= k < 64 implies self@[k] == conjugate_seq(old(self)@)[k] by {
                let i = k / 8;
                let j = k % 8;
                assert(self.bits[i][j] == (old(self).bits[i][j] != board[i][j]));
                assert(board[i][j] == ((i + j) % 2 != 0));
            }
            assert(self@ =~= conjugate_seq(old(self)@));
            lemma_changes_conjugate(old(self)@);
        }
    }

    /// The number of changes between neighbouring bits, along both axes.
    pub fn changes(&self) -> (n: u32)
        ensures
            n == changes(self@),
            n <= 112,
    {
        let mut n: u32 = 0;
        let mut k: usize = 0;
        while k < 56
            invariant
                k <= 56,
                n == stride_changes(self@, k as nat),
                n <= k,
            decreases 56 - k,
        {
            if self.bits[k / 8][k % 8] != self.bits[k / 8 + 1][k % 8] {
                n += 1;
            }
            k += 1;
        }
        let mut i: usize = 0;
        while i < 63
            invariant
                i <= 63,
                n == stride_changes(self@, 56) + adjacent_changes(self@, i as nat),
                n <= 56 + i,
            decreases 63 - i,
        {
            if i % 8 != 7 && self.bits[i / 8][i % 8] != self.bits[i / 8][i % 8 + 1] {
                n += 1;
            }
            i += 1;
        }
        proof {
            lemma_changes_bound(self@);
        }
        n
    }

    /// The complexity coefficient of the plane: its changes over the 112 that
    /// a plane can have.
    pub fn alpha(&self) -> (a: Alpha)
        ensures
            a.numer == changes(self@),
            a.denom == 112,
    {
        Alpha { numer: self.changes(), denom: MAX_BIT_CHANGES }
    }

    /// Whether the plane is complex enough for the threshold `min_alpha`.
    pub fn is_complex(&self, min_alpha: Alpha) -> (b: bool)
        ensures
            b == is_complex(self@, min_alpha),
    {
        let a = self.alpha();
        a.ge(&min_alpha)
    }
}

/// Writes `plane` into `image` at `coords`: in each of the 64 pixels of the
/// block, the bit of the chosen channel and bit index is replaced.
pub fn write_plane_at(image: &mut RgbImage, plane: BitPlane, coords: PlaneCoord)
    requires
        old(image).wf(),
        valid_coord(old(image)@.width, old(image)@.height, coords),
    ensures
        final(image)@ == with_plane(old(image)@, coords, plane@),
        final(image).wf(),
{
    let (x, y, channel, bit_index) = coords;
    let ghost start = image@;
    let mut i: u32 = 0;
    while i < 8
        invariant
            i <= 8,
            image.wf(),
            start.wf(),
            image@.width == start.width,
            image@.height == start.height,
            coords == (x, y, channel, bit_index),
            valid_coord(start.width, start.height, coords),
            forall|px: int, py: int, c: int|
                #![trigger image@.sample(px, py, c)]
                start.contains(px, py) && 0 <= c < 3 ==> image@.sample(px, py, c) == (if c
                    == channel && x <= px < x + i && y <= py < y + 8 {
                    with_bit(start.sample(px, py, c), bit_index, plane@[(px - x) * 8 + (py - y)])
                } else {
                    start.sample(px, py, c)
                }),
        decreases 8 - i,
    {
        let mut j: u32 = 0;
        while j < 8
            invariant
                i < 8,
                j <= 8,
                image.wf(),
                start.wf(),
                image@.width == start.width,
                image@.height == start.height,
                coords == (x, y, channel, bit_index),
                valid_coord(start.width, start.height, coords),
                forall|px: int, py: int, c: int|
                    #![trigger image@.sample(px, py, c)]
                    start.contains(px, py) && 0 <= c < 3 ==> image@.sample(px, py, c) == (if c
                        == channel && ((x <= px < x + i && y <= py < y + 8) || (px == x + i && y
                        <= py < y + j)) {
                        with_bit(
                            start.sample(px, py, c),
                            bit_index,
                            plane@[(px - x) * 8 + (py - y)],
                        )
                    } else {
                        start.sample(px, py, c)
                    }),
            decreases 8 - j,
        {
            let ghost before = image@;
            let mut pixel = image.get_pixel(x + i, y + j);
            let sample = set_bit_in_u8(
                pixel.0[channel as usize],
                bit_index,
                plane.bits[i as usize][j as usize],
            );
            let ghost old_pixel = pixel;
            pixel.0[channel as usize] = sample;
            image.put_pixel(x + i, y + j, pixel);
            proof {
                assert forall|px: int, py: int, c: int|
                    #![trigger image@.sample(px, py, c)]
                    start.contains(px, py) && 0 <= c < 3 implies image@.sample(px, py, c) == (if c
                    == channel && ((x <= px < x + i && y <= py < y + 8) || (px == x + i && y <= py
                    < y + j + 1)) {
                    with_bit(start.sample(px, py, c), bit_index, plane@[(px - x) * 8 + (py - y)])
                } else {
                    start.sample(px, py, c)
                }) by {
                    before.lemma_with_pixel(x + i, y + j, pixel, px, py, c);
                    assert(before.sample(px, py, c) == before.sample(px, py, c));
                }
            }
            j += 1;
        }
        i += 1;
    }
    proof {
        let target = with_plane(start, coords, plane@);
        assert forall|k: int| 0 <= k < start.data.len() implies image@.data[k]
            == target.data[k] by {
            start.lemma_position(k);
            let px = start.column_of(k);
            let py = start.row_of(k);
            assert(image@.sample(px, py, k % 3) == image@.data[k]);
        }
        assert(image@.data =~= target.data);
    }
}

/// Reads the planes of `image` at `coords`, in the order of `coords`.
pub fn get_planes_from_image_and_coords(image: &RgbImage, coords: Vec<PlaneCoord>) -> (planes:
    Vec<BitPlane>)
    requires
        image.wf(),
        forall|i: int|
            0 <= i < coords@.len() ==> valid_coord(
                image@.width,
                image@.height,
                #[trigger] coords@[i],
            ),
    ensures
        planes@.len() == coords@.len(),
        forall|i: int|
            0 <= i < planes@.len() ==> (#[trigger] planes@[i])@ == plane_at(image@, coords@[i]),
{
    let mut planes: Vec<BitPlane> = Vec::with_capacity(coords.len());
    let mut i: usize = 0;
    while i < coords.len()
        invariant
            i <= coords@.len(),
            image.wf(),
            forall|k: int|
                0 <= k < coords@.len() ==> valid_coord(
                    image@.width,
                    image@.height,
                    #[trigger] coords@[k],
                ),
            planes@.len() == i,
            forall|k: int| 0 <= k < i ==> (#[trigger] planes@[k])@ == plane_at(image@, coords@[k]),
        decreases coords@.len() - i,
    {
        let (x, y, channel, bit_index) = coords[i];
        assert(valid_coord(image@.width, image@.height, coords@[i as int]));
        planes.push(BitPlane::from_sub_image(image, x, y, channel, bit_index));
        i += 1;
    }
    planes
}

} // verus!
