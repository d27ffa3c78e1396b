//! The frame of a hidden message: the planes of the two length fields, of the
//! conjugation map and of the message itself, and what reading them back
//! gives.

use crate::bpcs::alpha::Alpha;
use crate::bpcs::bit_plane::{
    is_complex, lemma_plane_at_other, lemma_plane_at_same, lemma_with_plane_outside, outside_blocks,
    plane_at, plane_bytes, valid_coord, with_plane, PlaneCoord,
};
use crate::bpcs::dynamic_prefix::{planes_needed, prefix_length_of};
use crate::bpcs::initialization_vector::{
    conjugation_map_of, iv_message_plane_length, iv_message_remnant_length, iv_plane_count,
};
use crate::bpcs::message_plane_iter::{chunk_len, unconjugated};
use crate::bpcs::plane_selection::{accepted_count, Selection, SelectorModel};
use crate::bpcs::selection_laws::{
    complex_at, fits, frame_ok, lemma_same_accepted, lemma_select_keeps, lemma_select_other_image,
    same_complexity,
};
use crate::errors::{no_message_plane_text, remnant_too_long_text, SteganographyError};
use crate::image_utils::Raster;
use vstd::prelude::*;

verus! {

/// The planes of `image` at `coords`, in the order of `coords`.
pub open spec fn planes_at(image: Raster, coords: Seq<PlaneCoord>) -> Seq<Seq<bool>> {
    Seq::new(coords.len(), |i: int| plane_at(image, coords[i]))
}

/// The bytes that message planes hold: of each plane, conjugated back where
/// the map says that it was stored conjugated, the eight bytes that it packs
/// into.
pub open spec fn message_bytes(planes: Seq<Seq<bool>>, map: Seq<bool>) -> Seq<u8>
    decreases planes.len(),
{
    if planes.len() == 0 {
        Seq::empty()
    } else {
        message_bytes(planes.drop_last(), map) + plane_bytes(
            unconjugated(planes.last(), map[planes.len() - 1]),
        )
    }
}

/// The number of planes that a message of `len` bytes fills.
pub open spec fn message_plane_count(len: nat) -> nat {
    (len + 7) / 8
}

/// The number of message bits in the last plane of a message of `len` bytes.
pub open spec fn remnant_bit_count(len: nat) -> nat {
    if len % 8 == 0 {
        64
    } else {
        ((len % 8) * 8) as nat
    }
}

/// The number of message bytes that `message_plane_length` planes hold when
/// the last of them holds `message_remnant_length` bits.
pub open spec fn message_byte_count(message_plane_length: nat, message_remnant_length: nat) -> nat {
    ((message_plane_length - 1) * 8 + message_remnant_length / 8) as nat
}

/// What reading a message from an image gives.
pub enum Extraction {
    /// The message.
    Message(Seq<u8>),
    /// A selection asked for more complex planes than were left.
    TooFewPlanes { asked: nat, found: nat },
    /// The length fields cannot belong to a message: the last plane is said
    /// to hold more than 64 bits, or there is said to be no plane at all.
    InvalidLengths { message_plane_length: nat, message_remnant_length: nat },
}

/// Reads a message from `image` with the threshold `min_alpha` and the seed
/// `key`: the image is converted to Gray code; the planes of the length
/// fields are selected and read, then those of the conjugation map, then
/// those of the message.
pub open spec fn extraction(image: Raster, min_alpha: Alpha, key: Seq<u8>) -> Extraction {
    let gray = image.gray();
    let start = SelectorModel::init(gray, min_alpha, key);
    let iv = start.select(iv_plane_count(min_alpha));
    if iv.missing != 0 {
        Extraction::TooFewPlanes { asked: iv_plane_count(min_alpha), found: iv.planes.len() }
    } else {
        let iv_planes = planes_at(gray, iv.planes);
        let message_plane_length = iv_message_plane_length(iv_planes, min_alpha);
        let message_remnant_length = iv_message_remnant_length(iv_planes, min_alpha);
        if message_remnant_length > 64 || message_plane_length == 0 {
            Extraction::InvalidLengths { message_plane_length, message_remnant_length }
        } else {
            let map_plane_count = planes_needed(message_plane_length, prefix_length_of(min_alpha));
            let map_selection = iv.model.select(map_plane_count);
            if map_selection.missing != 0 {
                Extraction::TooFewPlanes {
                    asked: map_plane_count,
                    found: map_selection.planes.len(),
                }
            } else {
                let map = conjugation_map_of(
                    planes_at(gray, map_selection.planes),
                    min_alpha,
                    message_plane_length,
                );
                let message = map_selection.model.select(message_plane_length);
                if message.missing != 0 {
                    Extraction::TooFewPlanes {
                        asked: message_plane_length,
                        found: message.planes.len(),
                    }
                } else {
                    Extraction::Message(
                        message_bytes(planes_at(gray, message.planes), map).subrange(
                            0,
                            message_byte_count(message_plane_length, message_remnant_length) as int,
                        ),
                    )
                }
            }
        }
    }
}

/// Why length fields cannot belong to a message: the last plane is said to
/// hold more bits than a plane has, or there is said to be no plane.
pub open spec fn invalid_lengths_text(
    message_plane_length: nat,
    message_remnant_length: nat,
) -> Seq<char> {
    if message_remnant_length > 64 {
        remnant_too_long_text(message_remnant_length)
    } else {
        no_message_plane_text()
    }
}

/// The number of message bytes that `image` is estimated to hold at the
/// threshold `min_alpha`. Of the complex planes of the Gray-coded image, those
/// of the length fields and two more are set aside; of the others, each
/// message plane takes one and one bit of the conjugation map.
pub open spec fn capacity(image: Raster, min_alpha: Alpha) -> nat {
    let accepted = accepted_count(image.gray(), min_alpha);
    let reserved = iv_plane_count(min_alpha) + 2;
    let per_plane = 64 - prefix_length_of(min_alpha);
    if accepted < reserved {
        0
    } else {
        (((accepted - reserved) * per_plane) / (per_plane + 1) * 8) as nat
    }
}

/// Writing a complex plane where a complex plane was leaves the complex
/// planes of an image at the same coordinates.
pub proof fn lemma_write_keeps_complexity(
    origin: Raster,
    image: Raster,
    coord: PlaneCoord,
    bits: Seq<bool>,
    min_alpha: Alpha,
)
    requires
        image.wf(),
        same_complexity(origin, image, min_alpha),
        valid_coord(image.width, image.height, coord),
        complex_at(origin, coord, min_alpha),
        bits.len() == 64,
        is_complex(bits, min_alpha),
    ensures
        same_complexity(origin, with_plane(image, coord, bits), min_alpha),
{
    let after = with_plane(image, coord, bits);
    assert forall|other: PlaneCoord|
        valid_coord(origin.width, origin.height, other) implies #[trigger] complex_at(
        origin,
        other,
        min_alpha,
    ) == complex_at(after, other, min_alpha) by {
        if other == coord {
            lemma_plane_at_same(image, coord, bits);
        } else {
            lemma_plane_at_other(image, coord, bits, other);
            assert(complex_at(origin, other, min_alpha) == complex_at(image, other, min_alpha));
        }
    }
}

/// Message planes that hold the chunks of `data` hold `data`.
pub proof fn lemma_message_bytes(planes: Seq<Seq<bool>>, map: Seq<bool>, data: Seq<u8>, n: nat)
    requires
        n <= planes.len(),
        n <= message_plane_count(data.len()),
        forall|i: int|
            0 <= i < n ==> (#[trigger] plane_bytes(unconjugated(planes[i], map[i]))).subrange(
                0,
                chunk_len(data.len(), (8 * i) as nat) as int,
            ) == data.subrange(8 * i, 8 * i + chunk_len(data.len(), (8 * i) as nat)),
    ensures
        message_bytes(planes.subrange(0, n as int), map).len() == 8 * n,
        forall|k: int|
            0 <= k < 8 * n && k < data.len() ==> message_bytes(planes.subrange(0, n as int), map)[k]
                == data[k],
    decreases n,
{
    let first = planes.subrange(0, n as int);
    if n > 0 {
        lemma_message_bytes(planes, map, data, (n - 1) as nat);
        let before = planes.subrange(0, n - 1);
        assert(first.drop_last() =~= before);
        assert(first.last() == planes[n - 1]);
        let chunk = plane_bytes(unconjugated(planes[n - 1], map[n - 1]));
        let len = chunk_len(data.len(), (8 * (n - 1)) as nat) as int;
        assert forall|k: int| 0 <= k < 8 * n && k < data.len() implies message_bytes(first, map)[k]
            == data[k] by {
            if k >= 8 * (n - 1) {
                let j = k - 8 * (n - 1);
                assert(chunk.subrange(0, len)[j] == data.subrange(
                    8 * (n - 1),
                    8 * (n - 1) + len,
                )[j]);
            }
        }
    }
}

/// An image with room for a message has the planes that its frame needs:
/// those of the length fields, of the conjugation map and of the message
/// together are no more than the complex planes of the image.
pub proof fn lemma_capacity_suffices(image: Raster, min_alpha: Alpha, len: nat)
    requires
        min_alpha.is_threshold(),
        len > 0,
        capacity(image, min_alpha) >= len,
    ensures
        iv_plane_count(min_alpha) + planes_needed(
            message_plane_count(len),
            prefix_length_of(min_alpha),
        ) + message_plane_count(len) <= accepted_count(image.gray(), min_alpha),
{
    crate::bpcs::dynamic_prefix::lemma_prefix_length_bounds(min_alpha);
    let accepted = accepted_count(image.gray(), min_alpha);
    let b = (64 - prefix_length_of(min_alpha)) as int;
    let free = accepted - iv_plane_count(min_alpha) - 2;
    let planes = message_plane_count(len) as int;
    let most = (free * b) / (b + 1);
    let map_planes = (planes + b - 1) / b;
    assert(free >= 0);
    assert(capacity(image, min_alpha) == most * 8);
    assert(planes <= most);
    assert(most * (b + 1) <= free * b) by (nonlinear_arith)
        requires
            b > 0,
            free >= 0,
            most == (free * b) / (b + 1),
    ;
    assert(map_planes * b <= planes + b - 1) by (nonlinear_arith)
        requires
            b > 0,
            planes >= 0,
            map_planes == (planes + b - 1) / b,
    ;
    assert(planes + map_planes <= free) by (nonlinear_arith)
        requires
            b > 0,
            0 <= planes <= most,
            most * (b + 1) <= free * b,
            map_planes * b <= planes + b - 1,
    {
        assert(planes * (b + 1) <= most * (b + 1));
        assert((planes + map_planes) * b <= planes * b + planes + b - 1);
        assert((planes + map_planes) * b < (free + 1) * b);
    }
}

/// The three selections of a frame, made one after another.
pub struct FrameSelections {
    /// The planes of the two length fields.
    pub iv: Selection,
    /// The planes of the conjugation map.
    pub map: Selection,
    /// The planes of the message.
    pub message: Selection,
}

/// The selections for the frame of a message of `message_plane_length` planes
/// in the Gray-coded image `gray`.
pub open spec fn frame_selections(
    gray: Raster,
    min_alpha: Alpha,
    key: Seq<u8>,
    message_plane_length: nat,
) -> FrameSelections {
    let iv = SelectorModel::init(gray, min_alpha, key).select(iv_plane_count(min_alpha));
    let map = iv.model.select(planes_needed(message_plane_length, prefix_length_of(min_alpha)));
    let message = map.model.select(message_plane_length);
    FrameSelections { iv, map, message }
}

/// The planes of a frame in the order in which they are written: those of
/// the length fields, of the message, of the conjugation map.
pub open spec fn frame_coords(frame: FrameSelections) -> Seq<PlaneCoord> {
    frame.iv.planes + frame.message.planes + frame.map.planes
}

/// The error of the first selection of a frame that finds too few planes, if
/// one does.
pub open spec fn frame_failure(
    frame: FrameSelections,
    min_alpha: Alpha,
    message_plane_length: nat,
) -> Option<SteganographyError> {
    if frame.iv.missing != 0 {
        Some(
            SteganographyError::InsufficientPlaneNumber(
                iv_plane_count(min_alpha) as usize,
                frame.iv.planes.len() as usize,
            ),
        )
    } else if frame.map.missing != 0 {
        Some(
            SteganographyError::InsufficientPlaneNumber(
                planes_needed(message_plane_length, prefix_length_of(min_alpha)) as usize,
                frame.map.planes.len() as usize,
            ),
        )
    } else if frame.message.missing != 0 {
        Some(
            SteganographyError::InsufficientPlaneNumber(
                message_plane_length as usize,
                frame.message.planes.len() as usize,
            ),
        )
    } else {
        None
    }
}

/// How hiding a message of `len` bytes in `image` ends: with the error of the
/// first selection that finds too few planes, or well.
pub open spec fn embedding(image: Raster, min_alpha: Alpha, key: Seq<u8>, len: nat) -> Result<
    (),
    SteganographyError,
> {
    match frame_failure(
        frame_selections(image.gray(), min_alpha, key, message_plane_count(len)),
        min_alpha,
        message_plane_count(len),
    ) {
        Some(e) => Err(e),
        None => Ok(()),
    }
}

/// Whether `after` is `before` but for the planes at `coords`: the images
/// have the same size, every other plane is the same, and so is every sample
/// that lies in no plane.
pub open spec fn keeps_rest(before: Raster, after: Raster, coords: Seq<PlaneCoord>) -> bool {
    &&& after.width == before.width
    &&& after.height == before.height
    &&& after.data.len() == before.data.len()
    &&& forall|other: PlaneCoord|
        valid_coord(before.width, before.height, other) && !coords.contains(other)
            ==> #[trigger] plane_at(after, other) == plane_at(before, other)
    &&& forall|i: int|
        0 <= i < before.data.len() && outside_blocks(before, i) ==> #[trigger] after.data[i]
            == before.data[i]
}

/// Whether `image` is `origin` with `planes` written at `coords`, and has its
/// complex planes where `origin` has them.
pub open spec fn stored(
    origin: Raster,
    image: Raster,
    min_alpha: Alpha,
    coords: Seq<PlaneCoord>,
    planes: Seq<Seq<bool>>,
) -> bool {
    &&& image.wf()
    &&& same_complexity(origin, image, min_alpha)
    &&& keeps_rest(origin, image, coords)
    &&& coords.len() == planes.len()
    &&& forall|k: int| 0 <= k < coords.len() ==> plane_at(image, #[trigger] coords[k]) == planes[k]
}

/// Writing one more complex plane, where a complex plane was and none was
/// written yet, keeps what was written.
pub proof fn lemma_store_more(
    origin: Raster,
    image: Raster,
    min_alpha: Alpha,
    coords: Seq<PlaneCoord>,
    planes: Seq<Seq<bool>>,
    coord: PlaneCoord,
    bits: Seq<bool>,
)
    requires
        stored(origin, image, min_alpha, coords, planes),
        forall|k: int|
            0 <= k < coords.len() ==> valid_coord(image.width, image.height, #[trigger] coords[k])
                && coords[k] != coord,
        valid_coord(image.width, image.height, coord),
        complex_at(origin, coord, min_alpha),
        bits.len() == 64,
        is_complex(bits, min_alpha),
    ensures
        stored(
            origin,
            with_plane(image, coord, bits),
            min_alpha,
            coords.push(coord),
            planes.push(bits),
        ),
{
    let after = with_plane(image, coord, bits);
    lemma_write_keeps_complexity(origin, image, coord, bits, min_alpha);
    assert forall|other: PlaneCoord|
        valid_coord(origin.width, origin.height, other) && !coords.push(coord).contains(
            other,
        ) implies #[trigger] plane_at(after, other) == plane_at(origin, other) by {
        assert(coords.push(coord)[coords.len() as int] == coord);
        lemma_plane_at_other(image, coord, bits, other);
        if coords.contains(other) {
            let k = choose|k: int| 0 <= k < coords.len() && coords[k] == other;
            assert(coords.push(coord)[k] == other);
        }
    }
    assert forall|i: int|
        0 <= i < origin.data.len() && outside_blocks(origin, i) implies #[trigger] after.data[i]
        == origin.data[i] by {
        lemma_with_plane_outside(image, coord, bits, i);
        assert(outside_blocks(image, i));
        assert(image.data[i] == origin.data[i]);
    }
    assert forall|k: int| 0 <= k < coords.push(coord).len() implies plane_at(
        after,
        #[trigger] coords.push(coord)[k],
    ) == planes.push(bits)[k] by {
        if k < coords.len() {
            lemma_plane_at_other(image, coord, bits, coords[k]);
        } else {
            lemma_plane_at_same(image, coord, bits);
        }
    }
}

/// Whether `coords` name complex planes of `image`, none of them twice.
pub open spec fn region_ok(image: Raster, min_alpha: Alpha, coords: Seq<PlaneCoord>) -> bool {
    &&& coords.no_duplicates()
    &&& forall|i: int|
        0 <= i < coords.len() ==> valid_coord(image.width, image.height, #[trigger] coords[i])
            && complex_at(image, coords[i], min_alpha)
}

/// Whether the planes `stored_planes` hold the first chunks of `data`, one
/// chunk of eight bytes to a plane, each plane conjugated where `map` says
/// so and complex enough for `min_alpha` as it is stored.
pub open spec fn holds_chunks(
    stored_planes: Seq<Seq<bool>>,
    map: Seq<bool>,
    data: Seq<u8>,
    min_alpha: Alpha,
) -> bool {
    &&& map.len() == stored_planes.len()
    &&& forall|i: int|
        0 <= i < stored_planes.len() ==> {
            &&& (#[trigger] stored_planes[i]).len() == 64
            &&& is_complex(stored_planes[i], min_alpha)
            &&& plane_bytes(unconjugated(stored_planes[i], map[i])).subrange(
                0,
                chunk_len(data.len(), (8 * i) as nat) as int,
            ) == data.subrange(8 * i, 8 * i + chunk_len(data.len(), (8 * i) as nat))
        }
}

/// Both parts of a list of complex planes without duplicates are such lists,
/// and they share no plane.
pub proof fn lemma_region_prefix(
    image: Raster,
    min_alpha: Alpha,
    first: Seq<PlaneCoord>,
    second: Seq<PlaneCoord>,
)
    requires
        region_ok(image, min_alpha, first + second),
    ensures
        region_ok(image, min_alpha, first),
        region_ok(image, min_alpha, second),
        forall|i: int, j: int|
            0 <= i < first.len() && 0 <= j < second.len() ==> #[trigger] first[i]
                != #[trigger] second[j],
{
    let all = first + second;
    assert forall|i: int| 0 <= i < first.len() implies valid_coord(
        image.width,
        image.height,
        #[trigger] first[i],
    ) && complex_at(image, first[i], min_alpha) by {
        assert(all[i] == first[i]);
    }
    assert forall|i: int| 0 <= i < second.len() implies valid_coord(
        image.width,
        image.height,
        #[trigger] second[i],
    ) && complex_at(image, second[i], min_alpha) by {
        assert(all[first.len() + i] == second[i]);
    }
    assert forall|i: int, j: int|
        0 <= i < first.len() && 0 <= j < first.len() && i != j implies first[i] != first[j] by {
        assert(all[i] == first[i] && all[j] == first[j]);
    }
    assert forall|i: int, j: int|
        0 <= i < second.len() && 0 <= j < second.len() && i != j implies second[i]
        != second[j] by {
        assert(all[first.len() + i] == second[i] && all[first.len() + j] == second[j]);
    }
    assert forall|i: int, j: int|
        0 <= i < first.len() && 0 <= j < second.len() implies #[trigger] first[i]
        != #[trigger] second[j] by {
        assert(all[i] == first[i] && all[first.len() + j] == second[j]);
    }
}

/// Each region of a frame, and each run of regions in the order in which
/// they are written, lists complex planes of the image, none of them twice.
pub proof fn lemma_frame_regions(
    image: Raster,
    min_alpha: Alpha,
    iv: Seq<PlaneCoord>,
    map: Seq<PlaneCoord>,
    message: Seq<PlaneCoord>,
)
    requires
        frame_ok(image, min_alpha, iv, map, message),
    ensures
        region_ok(image, min_alpha, iv + message + map),
        region_ok(image, min_alpha, iv + message),
        region_ok(image, min_alpha, iv),
        region_ok(image, min_alpha, message),
        region_ok(image, min_alpha, map),
{
    lemma_region_prefix(image, min_alpha, iv + message, map);
    lemma_region_prefix(image, min_alpha, iv, message);
}

/// Nothing written is what an image holds before anything is written.
pub proof fn lemma_store_nothing(origin: Raster, min_alpha: Alpha)
    requires
        origin.wf(),
    ensures
        stored(origin, origin, min_alpha, Seq::empty(), Seq::empty()),
{
}

/// Writing a region of complex planes, where complex planes were and none
/// was written yet, keeps what was written.
pub proof fn lemma_store_region(
    origin: Raster,
    before: Raster,
    after: Raster,
    min_alpha: Alpha,
    done: Seq<PlaneCoord>,
    done_planes: Seq<Seq<bool>>,
    coords: Seq<PlaneCoord>,
    planes: Seq<Seq<bool>>,
)
    requires
        stored(origin, before, min_alpha, done, done_planes),
        after.wf(),
        coords.len() == planes.len(),
        region_ok(origin, min_alpha, done + coords),
        forall|k: int|
            0 <= k < planes.len() ==> (#[trigger] planes[k]).len() == 64 && is_complex(
                planes[k],
                min_alpha,
            ),
        forall|k: int| 0 <= k < coords.len() ==> plane_at(after, #[trigger] coords[k]) == planes[k],
        keeps_rest(before, after, coords),
    ensures
        stored(origin, after, min_alpha, done + coords, done_planes + planes),
{
    lemma_region_prefix(origin, min_alpha, done, coords);
    assert forall|other: PlaneCoord|
        valid_coord(origin.width, origin.height, other) && !(done + coords).contains(
            other,
        ) implies #[trigger] plane_at(after, other) == plane_at(origin, other) by {
        if coords.contains(other) {
            let k = choose|k: int| 0 <= k < coords.len() && coords[k] == other;
            assert((done + coords)[done.len() + k] == other);
        }
        if done.contains(other) {
            let k = choose|k: int| 0 <= k < done.len() && done[k] == other;
            assert((done + coords)[k] == other);
        }
        assert(plane_at(after, other) == plane_at(before, other));
    }
    assert forall|i: int|
        0 <= i < origin.data.len() && outside_blocks(origin, i) implies #[trigger] after.data[i]
        == origin.data[i] by {
        assert(outside_blocks(before, i));
        assert(before.data[i] == origin.data[i]);
    }
    assert forall|other: PlaneCoord|
        valid_coord(origin.width, origin.height, other) implies #[trigger] complex_at(
        origin,
        other,
        min_alpha,
    ) == complex_at(after, other, min_alpha) by {
        if coords.contains(other) {
            let k = choose|k: int| 0 <= k < coords.len() && coords[k] == other;
            assert(plane_at(after, coords[k]) == planes[k]);
            assert(is_complex(planes[k], min_alpha));
            assert(complex_at(origin, coords[k], min_alpha));
        } else {
            assert(plane_at(after, other) == plane_at(before, other));
            assert(complex_at(origin, other, min_alpha) == complex_at(before, other, min_alpha));
        }
    }
    assert forall|k: int| 0 <= k < (done + coords).len() implies plane_at(
        after,
        #[trigger] (done + coords)[k],
    ) == (done_planes + planes)[k] by {
        if k < done.len() {
            let c = done[k];
            if coords.contains(c) {
                let j = choose|j: int| 0 <= j < coords.len() && coords[j] == c;
                assert(done[k] != coords[j]);
            }
            assert(plane_at(after, c) == plane_at(before, c));
        } else {
            assert((done + coords)[k] == coords[k - done.len()]);
        }
    }
}

/// The plane that is written next is a complex plane of the image, and
/// nothing was written there yet.
pub proof fn lemma_next_coord(
    image: Raster,
    min_alpha: Alpha,
    iv: Seq<PlaneCoord>,
    message: Seq<PlaneCoord>,
    i: int,
)
    requires
        region_ok(image, min_alpha, iv + message),
        0 <= i < message.len(),
    ensures
        valid_coord(image.width, image.height, message[i]),
        complex_at(image, message[i], min_alpha),
        forall|k: int|
            0 <= k < (iv + message.subrange(0, i)).len() ==> valid_coord(
                image.width,
                image.height,
                #[trigger] (iv + message.subrange(0, i))[k],
            ) && (iv + message.subrange(0, i))[k] != message[i],
{
    let all = iv + message;
    let done = iv + message.subrange(0, i);
    assert(all[iv.len() + i] == message[i]);
    assert forall|k: int| 0 <= k < done.len() implies valid_coord(
        image.width,
        image.height,
        #[trigger] done[k],
    ) && done[k] != message[i] by {
        assert(all[k] == done[k]);
    }
}

/// An image that holds the planes of a frame holds those of each region.
pub proof fn lemma_stored_regions(
    origin: Raster,
    gray: Raster,
    min_alpha: Alpha,
    iv: Seq<PlaneCoord>,
    message: Seq<PlaneCoord>,
    map: Seq<PlaneCoord>,
    iv_planes: Seq<Seq<bool>>,
    message_planes: Seq<Seq<bool>>,
    map_planes: Seq<Seq<bool>>,
)
    requires
        stored(
            origin,
            gray,
            min_alpha,
            iv + message + map,
            iv_planes + message_planes + map_planes,
        ),
        iv.len() == iv_planes.len(),
        message.len() == message_planes.len(),
        map.len() == map_planes.len(),
    ensures
        planes_at(gray, iv) == iv_planes,
        planes_at(gray, message) == message_planes,
        planes_at(gray, map) == map_planes,
{
    let all = iv + message + map;
    let all_planes = iv_planes + message_planes + map_planes;
    assert forall|k: int| 0 <= k < iv.len() implies planes_at(gray, iv)[k] == iv_planes[k] by {
        assert(all[k] == iv[k]);
        assert(plane_at(gray, all[k]) == all_planes[k]);
    }
    assert forall|k: int| 0 <= k < message.len() implies planes_at(gray, message)[k]
        == message_planes[k] by {
        assert(all[iv.len() + k] == message[k]);
        assert(plane_at(gray, all[iv.len() + k]) == all_planes[iv.len() + k]);
    }
    assert forall|k: int| 0 <= k < map.len() implies planes_at(gray, map)[k] == map_planes[k] by {
        assert(all[iv.len() + message.len() + k] == map[k]);
        assert(plane_at(gray, all[iv.len() + message.len() + k]) == all_planes[iv.len()
            + message.len() + k]);
    }
    assert(planes_at(gray, iv) =~= iv_planes);
    assert(planes_at(gray, message) =~= message_planes);
    assert(planes_at(gray, map) =~= map_planes);
}

/// A message that was stored is the message that is read: when the frame of
/// `data` stands in the Gray-coded image `gray`, at the planes that were
/// selected in an image `origin` with the same complex planes, then reading
/// from the decoded image selects the same planes and gives `data`.
pub proof fn lemma_stored_is_extracted(
    origin: Raster,
    gray: Raster,
    min_alpha: Alpha,
    key: Seq<u8>,
    data: Seq<u8>,
    map: Seq<bool>,
)
    requires
        min_alpha.is_threshold(),
        0 < data.len(),
        fits(origin),
        same_complexity(origin, gray, min_alpha),
        ({
            let n = message_plane_count(data.len());
            let frame = frame_selections(origin, min_alpha, key, n);
            &&& frame_failure(frame, min_alpha, n) is None
            &&& frame.message.planes.len() == n
            &&& iv_message_plane_length(planes_at(gray, frame.iv.planes), min_alpha) == n
            &&& iv_message_remnant_length(planes_at(gray, frame.iv.planes), min_alpha)
                == remnant_bit_count(data.len())
            &&& conjugation_map_of(planes_at(gray, frame.map.planes), min_alpha, n) == map
            &&& holds_chunks(planes_at(gray, frame.message.planes), map, data, min_alpha)
        }),
    ensures
        extraction(gray.binary(), min_alpha, key) == Extraction::Message(data),
{
    let n = message_plane_count(data.len());
    let frame = frame_selections(origin, min_alpha, key, n);
    let map_count = planes_needed(n, prefix_length_of(min_alpha));
    gray.lemma_binary_then_gray();
    lemma_same_accepted(origin, gray, min_alpha);
    let start = SelectorModel::init(origin, min_alpha, key);
    assert(SelectorModel::init(gray, min_alpha, key) == start.with_image(gray));
    lemma_select_other_image(start, gray, iv_plane_count(min_alpha));
    lemma_select_keeps(start, iv_plane_count(min_alpha));
    lemma_select_other_image(frame.iv.model, gray, map_count);
    lemma_select_keeps(frame.iv.model, map_count);
    lemma_select_other_image(frame.map.model, gray, n);
    let planes = planes_at(gray, frame.message.planes);
    lemma_message_bytes(planes, map, data, n);
    assert(planes.subrange(0, n as int) =~= planes);
    let count = message_byte_count(n, remnant_bit_count(data.len()));
    assert(count == data.len());
    assert(message_bytes(planes, map).subrange(0, count as int) =~= data);
}

} // verus!
