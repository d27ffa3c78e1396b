//! Bit-plane complexity segmentation: hiding a message in the complex 8×8
//! bit planes of an image and reading it back.
//!
//! Two parameters recur. `min_alpha` is the complexity threshold, a fraction
//! between 0 and one half: the higher it is, the fewer planes are complex
//! enough to carry data, and the less a change to them shows. `rng_key` seeds
//! the generator that decides which complex planes are used. Both must be the
//! same when a message is hidden and when it is read.

pub mod alpha;
pub mod bit_plane;
pub mod bit_plane_iter;
pub mod block;
pub mod capacity;
pub mod dynamic_prefix;
pub mod frame;
pub mod initialization_vector;
pub mod message_plane_iter;
pub mod plane_selection;
pub mod random;
pub mod selection_laws;

use crate::bpcs::alpha::Alpha;
use crate::bpcs::bit_plane::{
    changes, get_planes_from_image_and_coords, is_complex, outside_blocks, plane_at, plane_bytes,
    valid_coord, write_plane_at, BitPlane, PlaneCoord,
};
use crate::bpcs::dynamic_prefix::{
    lemma_prefix_length_bounds, num_of_prefixed_planes_for_n_bits, plane_seqs, planes_needed,
    prefix_length, prefix_length_of,
};
use crate::bpcs::frame::{
    capacity, embedding, extraction, frame_coords, frame_failure, frame_selections, holds_chunks,
    invalid_lengths_text, keeps_rest, lemma_capacity_suffices, lemma_frame_regions,
    lemma_next_coord, lemma_region_prefix, lemma_store_more, lemma_store_nothing,
    lemma_store_region, lemma_stored_is_extracted, lemma_stored_regions, message_bytes,
    message_plane_count, planes_at, region_ok, stored, Extraction,
};
use crate::bpcs::initialization_vector::{
    build_conjugation_map_planes, build_iv_planes, extract_conj_map_data_from_conj_map_planes,
    extract_iv_data_from_iv_planes, iv_plane_count, lemma_field_plane_count,
};
use crate::bpcs::message_plane_iter::{chunk_len, unconjugated, MessagePlanesIter};
use crate::bpcs::plane_selection::{
    accepted_count, count_accepted_planes, lemma_accepted_count_bound, PlaneSelector,
};
use crate::bpcs::selection_laws::{
    complex_at, frame_ok, lemma_frame_selections, lemma_init_ok, lemma_select_count,
    lemma_select_keeps, same_complexity,
};
use crate::errors::{no_message_plane_reason, SteganographyError};
use crate::image_utils::{image_to_binary_code, image_to_gray_code, Raster, RgbImage};
use vstd::prelude::*;

verus! {

/// The planes selected for the three regions of a frame: the length fields,
/// the conjugation map, the message.
pub struct FrameCoords {
    pub iv: Vec<PlaneCoord>,
    pub map: Vec<PlaneCoord>,
    pub message: Vec<PlaneCoord>,
}

/// Selects the planes for the frame of a message of `message_plane_length`
/// planes in the Gray-coded image `source_image`: first those of the length
/// fields, then those of the conjugation map, then those of the message.
///
/// Fails with the error of the first selection that finds too few complex
/// planes. The selections succeed when the image has as many complex planes
/// as the three regions need together.
pub fn select_frame_planes(
    source_image: &RgbImage,
    min_alpha: Alpha,
    rng_key: [u8; 32],
    message_plane_length: usize,
) -> (selected: Result<FrameCoords, SteganographyError>)
    requires
        source_image.wf(),
        min_alpha.is_threshold(),
    ensures
        ({
            let frame = frame_selections(
                source_image@,
                min_alpha,
                rng_key@,
                message_plane_length as nat,
            );
            let failure = frame_failure(frame, min_alpha, message_plane_length as nat);
            &&& selected matches Err(e) ==> failure == Some(e)
            &&& selected matches Ok(coords) ==> {
                &&& failure is None
                &&& coords.iv@ == frame.iv.planes
                &&& coords.map@ == frame.map.planes
                &&& coords.message@ == frame.message.planes
                &&& coords.iv@.len() == iv_plane_count(min_alpha)
                &&& coords.map@.len() == planes_needed(
                    message_plane_length as nat,
                    prefix_length_of(min_alpha),
                )
                &&& coords.message@.len() == message_plane_length
                &&& frame_ok(source_image@, min_alpha, coords.iv@, coords.map@, coords.message@)
            }
            &&& iv_plane_count(min_alpha) + planes_needed(
                message_plane_length as nat,
                prefix_length_of(min_alpha),
            ) + message_plane_length <= accepted_count(source_image@, min_alpha)
                ==> selected is Ok
        }),
{
    let mut plane_selector = PlaneSelector::new(source_image, min_alpha, rng_key);
    let ghost start = plane_selector@;
    let ghost iv_count = iv_plane_count(min_alpha);
    let ghost map_count = planes_needed(message_plane_length as nat, prefix_length_of(min_alpha));
    proof {
        lemma_init_ok(source_image@, min_alpha, rng_key@);
        assert(start.available() == accepted_count(source_image@, min_alpha));
    }
    let iv = match plane_selector.select_iv_planes(min_alpha) {
        Ok(coords) => coords,
        Err(e) => {
            proof {
                lemma_select_count(start, iv_count);
            }
            return Err(e);
        },
    };
    let ghost after_iv = plane_selector@;
    proof {
        lemma_select_count(start, iv_count);
        lemma_select_keeps(start, iv_count);
    }
    let map = match plane_selector.select_conjugation_map_planes(min_alpha, message_plane_length) {
        Ok(coords) => coords,
        Err(e) => {
            proof {
                lemma_select_count(after_iv, map_count);
            }
            return Err(e);
        },
    };
    let ghost after_map = plane_selector@;
    proof {
        lemma_select_count(after_iv, map_count);
        lemma_select_keeps(after_iv, map_count);
    }
    let message = match plane_selector.select_message_planes(message_plane_length) {
        Ok(coords) => coords,
        Err(e) => {
            proof {
                lemma_select_count(after_map, message_plane_length as nat);
            }
            return Err(e);
        },
    };
    proof {
        lemma_select_count(after_map, message_plane_length as nat);
        lemma_frame_selections(start, iv_count, map_count, message_plane_length as nat);
    }
    Ok(FrameCoords { iv, map, message })
}

/// Writes `planes` into `image`, each at the coordinates at the same
/// position of `coords`.
pub fn write_planes_at(image: &mut RgbImage, planes: &Vec<BitPlane>, coords: &Vec<PlaneCoord>)
    requires
        old(image).wf(),
        planes@.len() == coords@.len(),
        coords@.no_duplicates(),
        forall|i: int|
            0 <= i < coords@.len() ==> valid_coord(
                old(image)@.width,
                old(image)@.height,
                #[trigger] coords@[i],
            ),
    ensures
        final(image).wf(),
        forall|i: int|
            0 <= i < coords@.len() ==> plane_at(final(image)@, #[trigger] coords@[i])
                == planes@[i]@,
        keeps_rest(old(image)@, final(image)@, coords@),
{
    let mut i: usize = 0;
    while i < coords.len()
        invariant
            i <= coords@.len(),
            image.wf(),
            planes@.len() == coords@.len(),
            coords@.no_duplicates(),
            image@.width == old(image)@.width,
            image@.height == old(image)@.height,
            forall|k: int|
                0 <= k < coords@.len() ==> valid_coord(
                    image@.width,
                    image@.height,
                    #[trigger] coords@[k],
                ),
            forall|k: int| 0 <= k < i ==> plane_at(image@, #[trigger] coords@[k]) == planes@[k]@,
            forall|other: PlaneCoord|
                valid_coord(image@.width, image@.height, other) && (forall|k: int|
                    0 <= k < i ==> coords@[k] != other) ==> #[trigger] plane_at(image@, other)
                    == plane_at(old(image)@, other),
            image@.data.len() == old(image)@.data.len(),
            forall|j: int|
                0 <= j < image@.data.len() && outside_blocks(old(image)@, j)
                    ==> #[trigger] image@.data[j] == old(image)@.data[j],
        decreases coords@.len() - i,
    {
        let ghost before = image@;
        let coord = coords[i];
        write_plane_at(image, planes[i], coord);
        proof {
            assert forall|k: int| 0 <= k < i + 1 implies plane_at(image@, #[trigger] coords@[k])
                == planes@[k]@ by {
                if k < i {
                    crate::bpcs::bit_plane::lemma_plane_at_other(
                        before,
                        coord,
                        planes@[i as int]@,
                        coords@[k],
                    );
                } else {
                    crate::bpcs::bit_plane::lemma_plane_at_same(before, coord, planes@[i as int]@);
                }
            }
            assert forall|other: PlaneCoord|
                valid_coord(image@.width, image@.height, other) && (forall|k: int|
                    0 <= k < i + 1 ==> coords@[k] != other) implies #[trigger] plane_at(
                image@,
                other,
            ) == plane_at(old(image)@, other) by {
                assert(coords@[i as int] != other);
                crate::bpcs::bit_plane::lemma_plane_at_other(
                    before,
                    coord,
                    planes@[i as int]@,
                    other,
                );
                assert(forall|k: int| 0 <= k < i ==> coords@[k] != other);
                assert(plane_at(before, other) == plane_at(old(image)@, other));
            }
            assert forall|j: int|
                0 <= j < image@.data.len() && outside_blocks(
                    old(image)@,
                    j,
                ) implies #[trigger] image@.data[j] == old(image)@.data[j] by {
                crate::bpcs::bit_plane::lemma_with_plane_outside(
                    before,
                    coord,
                    planes@[i as int]@,
                    j,
                );
            }
        }
        i += 1;
    }
    proof {
        assert forall|other: PlaneCoord|
            valid_coord(old(image)@.width, old(image)@.height, other) && !coords@.contains(
                other,
            ) implies #[trigger] plane_at(image@, other) == plane_at(old(image)@, other) by {
            assert forall|k: int| 0 <= k < coords@.len() implies coords@[k] != other by {
                if coords@[k] == other {
                    assert(coords@.contains(other));
                }
            }
        }
    }
}

/// A plane of complexity one half or more is complex enough for every
/// threshold.
pub proof fn lemma_half_is_complex(bits: Seq<bool>, min_alpha: Alpha)
    requires
        min_alpha.is_threshold(),
        changes(bits) >= 56,
    ensures
        is_complex(bits, min_alpha),
{
    let c = changes(bits) as int;
    let n = min_alpha.numer as int;
    let d = min_alpha.denom as int;
    assert(c * d >= n * 112) by (nonlinear_arith)
        requires
            c >= 56,
            d > 0,
            0 <= 2 * n <= d,
    ;
}

/// Streams `data` into the planes at `coords`, eight bytes to a plane: each
/// plane is conjugated if its complexity is below one half, and written.
/// Gives the conjugation map: for each plane, whether it was conjugated.
fn write_message_planes(
    source_image: &mut RgbImage,
    data: &[u8],
    coords: &Vec<PlaneCoord>,
    min_alpha: Alpha,
    Ghost(origin): Ghost<Raster>,
    Ghost(done): Ghost<Seq<PlaneCoord>>,
    Ghost(done_planes): Ghost<Seq<Seq<bool>>>,
) -> (conjugation_map: Vec<bool>)
    requires
        min_alpha.is_threshold(),
        coords@.len() == message_plane_count(data@.len()),
        stored(origin, old(source_image)@, min_alpha, done, done_planes),
        region_ok(origin, min_alpha, done + coords@),
    ensures
        final(source_image).wf(),
        final(source_image)@.width == old(source_image)@.width,
        final(source_image)@.height == old(source_image)@.height,
        conjugation_map@.len() == coords@.len(),
        stored(
            origin,
            final(source_image)@,
            min_alpha,
            done + coords@,
            done_planes + planes_at(final(source_image)@, coords@),
        ),
        holds_chunks(planes_at(final(source_image)@, coords@), conjugation_map@, data@, min_alpha),
{
    let mut message_plane_iter = MessagePlanesIter::new(data);
    let ghost mut stored_planes: Seq<Seq<bool>> = Seq::empty();
    let mut i: usize = 0;
    proof {
        assert(done + coords@.subrange(0, 0) =~= done);
        assert(done_planes + stored_planes =~= done_planes);
    }
    while i < coords.len()
        invariant
            i <= coords@.len(),
            min_alpha.is_threshold(),
            source_image@.width == old(source_image)@.width,
            source_image@.height == old(source_image)@.height,
            origin.width == source_image@.width,
            origin.height == source_image@.height,
            coords@.len() == message_plane_count(data@.len()),
            region_ok(origin, min_alpha, done + coords@),
            message_plane_iter.message_bytes == data,
            message_plane_iter.position == (if 8 * i <= data@.len() {
                8 * i
            } else {
                data@.len() as int
            }),
            stored_planes.len() == i,
            holds_chunks(stored_planes, message_plane_iter.conjugation_map@, data@, min_alpha),
            stored(
                origin,
                source_image@,
                min_alpha,
                done + coords@.subrange(0, i as int),
                done_planes + stored_planes,
            ),
        decreases coords@.len() - i,
    {
        let ghost before = source_image@;
        let ghost before_map = message_plane_iter.conjugation_map@;
        let ghost so_far = done + coords@.subrange(0, i as int);
        let coord = coords[i];
        match message_plane_iter.next() {
            Some(plane) => {
                proof {
                    lemma_half_is_complex(plane@, min_alpha);
                    lemma_next_coord(origin, min_alpha, done, coords@, i as int);
                    lemma_store_more(
                        origin,
                        before,
                        min_alpha,
                        so_far,
                        done_planes + stored_planes,
                        coord,
                        plane@,
                    );
                }
                write_plane_at(source_image, plane, coord);
                proof {
                    let map = message_plane_iter.conjugation_map@;
                    let more = stored_planes.push(plane@);
                    assert(so_far.push(coord) =~= done + coords@.subrange(0, i + 1));
                    assert((done_planes + stored_planes).push(plane@) =~= done_planes + more);
                    assert forall|k: int| 0 <= k < more.len() implies {
                        &&& (#[trigger] more[k]).len() == 64
                        &&& is_complex(more[k], min_alpha)
                        &&& plane_bytes(unconjugated(more[k], map[k])).subrange(
                            0,
                            chunk_len(data@.len(), (8 * k) as nat) as int,
                        ) == data@.subrange(8 * k, 8 * k + chunk_len(data@.len(), (8 * k) as nat))
                    } by {
                        if k < i {
                            assert(more[k] == stored_planes[k]);
                            assert(map[k] == before_map[k]);
                        } else {
                            assert(map[k] == map.last());
                        }
                    }
                    stored_planes = more;
                }
            },
            None => {},
        }
        i += 1;
    }
    proof {
        assert(coords@.subrange(0, i as int) =~= coords@);
        assert(planes_at(source_image@, coords@) =~= stored_planes) by {
            assert forall|k: int| 0 <= k < coords@.len() implies planes_at(
                source_image@,
                coords@,
            )[k] == stored_planes[k] by {
                assert((done + coords@)[done.len() + k] == coords@[k]);
                assert(plane_at(source_image@, (done + coords@)[done.len() + k]) == (done_planes
                    + stored_planes)[done.len() + k]);
            }
        }
    }
    message_plane_iter.into_conjugation_map()
}

/// Writes `planes` at `coords` as one region of a frame, where nothing was
/// written yet.
fn write_region(
    source_image: &mut RgbImage,
    planes: &Vec<BitPlane>,
    coords: &Vec<PlaneCoord>,
    min_alpha: Alpha,
    Ghost(origin): Ghost<Raster>,
    Ghost(done): Ghost<Seq<PlaneCoord>>,
    Ghost(done_planes): Ghost<Seq<Seq<bool>>>,
)
    requires
        planes@.len() == coords@.len(),
        stored(origin, old(source_image)@, min_alpha, done, done_planes),
        region_ok(origin, min_alpha, done + coords@),
        forall|k: int| 0 <= k < planes@.len() ==> is_complex((#[trigger] planes@[k])@, min_alpha),
    ensures
        final(source_image).wf(),
        final(source_image)@.width == old(source_image)@.width,
        final(source_image)@.height == old(source_image)@.height,
        stored(
            origin,
            final(source_image)@,
            min_alpha,
            done + coords@,
            done_planes + plane_seqs(planes@),
        ),
{
    proof {
        lemma_region_prefix(origin, min_alpha, done, coords@);
    }
    write_planes_at(source_image, planes, coords);
    proof {
        lemma_store_region(
            origin,
            old(source_image)@,
            source_image@,
            min_alpha,
            done,
            done_planes,
            coords@,
            plane_seqs(planes@),
        );
    }
}

/// Hides `data` in `source_image`.
///
/// The image is converted to Gray code. The planes of the frame are selected
/// among its complex planes, in an order that `rng_key` decides: those of the
/// two length fields, those of the conjugation map, those of the message.
/// Then the length fields are written, the message, eight bytes to a plane
/// and each plane conjugated if it is not complex enough, and the conjugation
/// map. At last the image is converted back from Gray code.
///
/// Fails with `InsufficientPlaneNumber` when the image has too few complex
/// planes for a selection; the image is then left in Gray code, with nothing
/// written. An image whose estimated capacity is at least the length of
/// `data` has enough. After success, [`extract_data`] with the same
/// `min_alpha` and `rng_key` gives `data` back. In Gray code, the image then
/// differs from what it was only in the planes of the frame, and has its
/// complex planes where it had them.
///
/// The message must not be empty, and must fit in as many planes as the
/// 32-bit length field can count.
pub fn embed_data(
    source_image: &mut RgbImage,
    data: &[u8],
    min_alpha: Alpha,
    rng_key: [u8; 32],
) -> (res: Result<(), SteganographyError>)
    requires
        old(source_image).wf(),
        min_alpha.is_threshold(),
        0 < data@.len() <= 8 * 0xffff_ffff,
    ensures
        final(source_image).wf(),
        final(source_image)@.width == old(source_image)@.width,
        final(source_image)@.height == old(source_image)@.height,
        res == embedding(old(source_image)@, min_alpha, rng_key@, data@.len()),
        res is Err ==> final(source_image)@ == old(source_image)@.gray(),
        res is Ok ==> extraction(final(source_image)@, min_alpha, rng_key@) == Extraction::Message(
            data@,
        ),
        res is Ok ==> same_complexity(
            old(source_image)@.gray(),
            final(source_image)@.gray(),
            min_alpha,
        ),
        res is Ok ==> keeps_rest(
            old(source_image)@.gray(),
            final(source_image)@.gray(),
            frame_coords(
                frame_selections(
                    old(source_image)@.gray(),
                    min_alpha,
                    rng_key@,
                    message_plane_count(data@.len()),
                ),
            ),
        ),
        capacity(old(source_image)@, min_alpha) >= data@.len() ==> res is Ok,
{
    image_to_gray_code(source_image);
    let ghost origin = source_image@;

    let data_length: usize = data.len();
    let message_plane_length: usize = data_length / 8 + if data_length % 8 != 0 {
        1
    } else {
        0
    };
    let mut remnant_bit_number: usize = (data_length % 8) * 8;
    if remnant_bit_number == 0 {
        remnant_bit_number = 64;
    }
    proof {
        if capacity(old(source_image)@, min_alpha) >= data@.len() {
            lemma_capacity_suffices(old(source_image)@, min_alpha, data@.len());
        }
    }

    let coords = match select_frame_planes(source_image, min_alpha, rng_key, message_plane_length) {
        Ok(coords) => coords,
        Err(e) => {
            return Err(e);
        },
    };
    proof {
        lemma_frame_regions(
            origin,
            min_alpha,
            coords.iv@,
            coords.map@,
            coords.message@,
        );
        lemma_store_nothing(origin, min_alpha);
        assert(Seq::<PlaneCoord>::empty() + coords.iv@ =~= coords.iv@);
    }

    let iv_planes = build_iv_planes(min_alpha, message_plane_length, remnant_bit_number);
    write_region(
        source_image,
        &iv_planes,
        &coords.iv,
        min_alpha,
        Ghost(origin),
        Ghost(Seq::empty()),
        Ghost(Seq::empty()),
    );
    proof {
        assert(Seq::<Seq<bool>>::empty() + plane_seqs(iv_planes@) =~= plane_seqs(iv_planes@));
    }

    let conjugation_map = write_message_planes(
        source_image,
        data,
        &coords.message,
        min_alpha,
        Ghost(origin),
        Ghost(coords.iv@),
        Ghost(plane_seqs(iv_planes@)),
    );
    let ghost map = conjugation_map@;
    let ghost message_planes = planes_at(source_image@, coords.message@);

    let conj_map_planes = build_conjugation_map_planes(conjugation_map, min_alpha);
    write_region(
        source_image,
        &conj_map_planes,
        &coords.map,
        min_alpha,
        Ghost(origin),
        Ghost(coords.iv@ + coords.message@),
        Ghost(plane_seqs(iv_planes@) + message_planes),
    );
    let ghost gray = source_image@;
    image_to_binary_code(source_image);
    proof {
        lemma_stored_regions(
            origin,
            gray,
            min_alpha,
            coords.iv@,
            coords.message@,
            coords.map@,
            plane_seqs(iv_planes@),
            message_planes,
            plane_seqs(conj_map_planes@),
        );
        lemma_stored_is_extracted(origin, gray, min_alpha, rng_key@, data@, map);
        gray.lemma_binary_then_gray();
    }
    Ok(())
}

/// Packs message planes into bytes: each plane is conjugated back where
/// `conjugation_map` says that it was stored conjugated, and gives eight
/// bytes.
pub fn collect_message_bytes(message_planes: &Vec<BitPlane>, conjugation_map: &Vec<bool>) -> (data:
    Vec<u8>)
    requires
        conjugation_map@.len() == message_planes@.len(),
    ensures
        data@ == message_bytes(plane_seqs(message_planes@), conjugation_map@),
        data@.len() == 8 * message_planes@.len(),
{
    let ghost planes = plane_seqs(message_planes@);
    let mut data: Vec<u8> = Vec::new();
    let mut i: usize = 0;
    assert(planes.subrange(0, 0) =~= Seq::<Seq<bool>>::empty());
    while i < message_planes.len()
        invariant
            i <= message_planes@.len(),
            conjugation_map@.len() == message_planes@.len(),
            planes == plane_seqs(message_planes@),
            data@ == message_bytes(planes.subrange(0, i as int), conjugation_map@),
            data@.len() == 8 * i,
        decreases message_planes@.len() - i,
    {
        let mut plane = message_planes[i];
        if conjugation_map[i] {
            plane.conjugate();
        }
        let bytes = plane.export_to_u8s();
        let ghost before = data@;
        let mut k: usize = 0;
        while k < 8
            invariant
                k <= 8,
                data@ == before + bytes@.subrange(0, k as int),
            decreases 8 - k,
        {
            data.push(bytes[k]);
            assert(data@ =~= before + bytes@.subrange(0, k + 1));
            k += 1;
        }
        proof {
            let next = planes.subrange(0, i + 1);
            assert(next.drop_last() =~= planes.subrange(0, i as int));
            assert(next.last() == planes[i as int]);
            assert(bytes@.subrange(0, 8) =~= bytes@);
        }
        i += 1;
    }
    assert(planes.subrange(0, i as int) =~= planes);
    data
}

/// Reads the message that [`embed_data`] hid in `source_image` with the same
/// `min_alpha` and `rng_key`.
///
/// The image is converted to Gray code; the planes of the length fields are
/// selected and read, then those of the conjugation map, then those of the
/// message. Each message plane is conjugated back where the map says so and
/// gives eight bytes; the bytes are cut to the length that the length fields
/// give.
///
/// Fails with `InsufficientPlaneNumber` when a selection finds too few
/// complex planes, and with `InvalidIVData` when the length fields say that
/// the last plane holds more than 64 bits or that there is no plane. Either
/// means that the image holds no message, or none for these parameters.
pub fn extract_data(source_image: RgbImage, min_alpha: Alpha, rng_key: [u8; 32]) -> (res: Result<
    Vec<u8>,
    SteganographyError,
>)
    requires
        source_image.wf(),
        min_alpha.is_threshold(),
    ensures
        match extraction(source_image@, min_alpha, rng_key@) {
            Extraction::Message(message) => res matches Ok(data) && data@ == message,
            Extraction::TooFewPlanes { asked, found } => res == Err::<Vec<u8>, _>(
                SteganographyError::InsufficientPlaneNumber(asked as usize, found as usize),
            ),
            Extraction::InvalidLengths { message_plane_length, message_remnant_length } => {
                &&& res matches Err(SteganographyError::InvalidIVData(reason))
                &&& reason@ == invalid_lengths_text(message_plane_length, message_remnant_length)
            },
        },
{
    let mut image = source_image;
    image_to_gray_code(&mut image);
    let ghost gray = image@;
    let mut selector = PlaneSelector::new(&image, min_alpha, rng_key);
    proof {
        lemma_prefix_length_bounds(min_alpha);
    }

    let iv_coords = match selector.select_iv_planes(min_alpha) {
        Ok(coords) => coords,
        Err(e) => {
            return Err(e);
        },
    };
    let ghost iv_seq = iv_coords@;
    let iv_planes = get_planes_from_image_and_coords(&image, iv_coords);
    assert(plane_seqs(iv_planes@) =~= planes_at(gray, iv_seq));
    let (message_plane_length, message_remnant_length) = match extract_iv_data_from_iv_planes(
        iv_planes,
        min_alpha,
    ) {
        Ok(lengths) => lengths,
        Err(e) => {
            return Err(e);
        },
    };
    if message_plane_length == 0 {
        return Err(SteganographyError::InvalidIVData(no_message_plane_reason()));
    }
    let map_coords = match selector.select_conjugation_map_planes(min_alpha, message_plane_length) {
        Ok(coords) => coords,
        Err(e) => {
            return Err(e);
        },
    };
    let ghost map_seq = map_coords@;
    let conjugation_map_planes = get_planes_from_image_and_coords(&image, map_coords);
    assert(plane_seqs(conjugation_map_planes@) =~= planes_at(gray, map_seq));
    let conjugation_map = match extract_conj_map_data_from_conj_map_planes(
        conjugation_map_planes,
        min_alpha,
        message_plane_length,
    ) {
        Ok(map) => map,
        Err(e) => {
            return Err(e);
        },
    };

    let message_coords = match selector.select_message_planes(message_plane_length) {
        Ok(coords) => coords,
        Err(e) => {
            return Err(e);
        },
    };
    let ghost message_seq = message_coords@;
    let message_planes = get_planes_from_image_and_coords(&image, message_coords);
    assert(plane_seqs(message_planes@) =~= planes_at(gray, message_seq));

    let mut data = collect_message_bytes(&message_planes, &conjugation_map);
    assert(data.len() == 8 * message_plane_length);
    let final_length: usize = (message_plane_length - 1) * 8 + message_remnant_length / 8;
    data.truncate(final_length);
    Ok(data)
}

/// Estimates how many bytes [`embed_data`] can hide in `source_image` at the
/// threshold `min_alpha`.
///
/// Of the complex planes of the Gray-coded image, those of the two length
/// fields and two more are set aside. Of the others, each message plane
/// takes one for its eight bytes and one bit of the conjugation map. A
/// message of no more bytes than the estimate fits.
pub fn estimate_maximum_capacity(source_image: &RgbImage, min_alpha: Alpha) -> (bytes: u64)
    requires
        source_image.wf(),
        min_alpha.is_threshold(),
    ensures
        bytes == capacity(source_image@, min_alpha),
{
    let mut gray = source_image.copy();
    image_to_gray_code(&mut gray);
    let samples: usize = gray.as_raw().len();
    let accepted_plane_number: u64 = count_accepted_planes(&gray, min_alpha);
    let prefix_length: usize = prefix_length(min_alpha);
    let iv_planes_num: u64 = (num_of_prefixed_planes_for_n_bits(32, prefix_length)
        + num_of_prefixed_planes_for_n_bits(32, prefix_length)) as u64;
    proof {
        lemma_field_plane_count(min_alpha);
        lemma_accepted_count_bound(gray@, min_alpha);
    }
    if accepted_plane_number < iv_planes_num + 2 {
        return 0;
    }
    let free: u64 = accepted_plane_number - iv_planes_num - 2;
    let per_plane: u64 = 64 - prefix_length as u64;
    assert(free * per_plane <= 0x2000_0000_0000_0000 * 60) by (nonlinear_arith)
        requires
            free <= 0x2000_0000_0000_0000,
            per_plane <= 60,
    ;
    let planes: u128 = (free as u128) * (per_plane as u128) / (per_plane as u128 + 1);
    assert(planes <= free) by (nonlinear_arith)
        requires
            planes == (free * per_plane) / (per_plane + 1),
            per_plane >= 0,
            free >= 0,
    ;
    (planes as u64) * 8
}

} // verus!
