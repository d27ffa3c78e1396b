//! How many planes a frame takes, and whether an image has them.

use crate::bpcs::alpha::{lemma_accepts_monotone, Alpha};
use crate::bpcs::bit_plane::{changes, is_complex, plane_at};
use crate::bpcs::dynamic_prefix::{
    lemma_prefix_length_bounds, lemma_prefix_length_monotone, num_of_prefixed_planes_for_n_bits,
    planes_needed, prefix_length, prefix_length_of,
};
use crate::bpcs::frame::capacity;
use crate::bpcs::initialization_vector::{
    calculate_iv_plane_number, iv_plane_count, lemma_field_plane_count,
};
use crate::bpcs::plane_selection::{
    accepted_channels, accepted_columns, accepted_count, accepted_rows, coord_of,
};
use crate::errors::SteganographyError;
use crate::image_utils::Raster;
use vstd::prelude::*;

verus! {

/// The number of planes that the frame of a message of
/// `message_plane_length` planes takes: those of the two length fields, of
/// the conjugation map and of the message.
pub open spec fn embedding_plane_count(min_alpha: Alpha, message_plane_length: nat) -> nat {
    iv_plane_count(min_alpha) + planes_needed(message_plane_length, prefix_length_of(min_alpha))
        + message_plane_length
}

/// The number of planes that the frame of a message of
/// `message_plane_length` planes takes.
pub fn calculate_num_of_embedding_planes(
    min_alpha: Alpha,
    message_plane_length: u32,
) -> (count: usize)
    requires
        min_alpha.is_threshold(),
        embedding_plane_count(min_alpha, message_plane_length as nat) <= usize::MAX,
    ensures
        count == embedding_plane_count(min_alpha, message_plane_length as nat),
{
    let iv_plane_num = calculate_iv_plane_number(min_alpha);
    let conj_map_plane_num = num_of_prefixed_planes_for_n_bits(
        message_plane_length as usize,
        prefix_length(min_alpha),
    );
    iv_plane_num + conj_map_plane_num + message_plane_length as usize
}

/// Whether `accepted_planes_num` complex planes are enough for the frame of
/// a message of `message_plane_length` planes. If not, the error says how
/// many the frame takes and how many there are.
pub fn check_capacity(
    min_alpha: Alpha,
    message_plane_length: u32,
    accepted_planes_num: usize,
) -> (enough: Result<(), SteganographyError>)
    requires
        min_alpha.is_threshold(),
        embedding_plane_count(min_alpha, message_plane_length as nat) <= usize::MAX,
    ensures
        embedding_plane_count(min_alpha, message_plane_length as nat) <= accepted_planes_num
            ==> enough is Ok,
        embedding_plane_count(min_alpha, message_plane_length as nat) > accepted_planes_num
            ==> enough == Err::<(), _>(
            SteganographyError::InsufficientPlaneNumber(
                embedding_plane_count(min_alpha, message_plane_length as nat) as usize,
                accepted_planes_num,
            ),
        ),
{
    let required_min_accepted_num = calculate_num_of_embedding_planes(
        min_alpha,
        message_plane_length,
    );
    if required_min_accepted_num <= accepted_planes_num {
        Ok(())
    } else {
        Err(
            SteganographyError::InsufficientPlaneNumber(
                required_min_accepted_num,
                accepted_planes_num,
            ),
        )
    }
}

proof fn lemma_accepted_channels_monotone(
    image: Raster,
    low: Alpha,
    high: Alpha,
    bit_index: u8,
    bx: int,
    by: int,
    n: nat,
)
    requires
        low.wf(),
        high.wf(),
        high.at_least(low),
    ensures
        accepted_channels(image, high, bit_index, bx, by, n).len() <= accepted_channels(
            image,
            low,
            bit_index,
            bx,
            by,
            n,
        ).len(),
    decreases n,
{
    if n > 0 {
        lemma_accepted_channels_monotone(image, low, high, bit_index, bx, by, (n - 1) as nat);
        let bits = plane_at(image, coord_of(bx, by, n - 1, bit_index));
        if is_complex(bits, high) {
            lemma_accepts_monotone(low, high, changes(bits));
        }
    }
}

proof fn lemma_accepted_rows_monotone(
    image: Raster,
    low: Alpha,
    high: Alpha,
    bit_index: u8,
    bx: int,
    n: nat,
)
    requires
        low.wf(),
        high.wf(),
        high.at_least(low),
    ensures
        accepted_rows(image, high, bit_index, bx, n).len() <= accepted_rows(
            image,
            low,
            bit_index,
            bx,
            n,
        ).len(),
    decreases n,
{
    if n > 0 {
        lemma_accepted_rows_monotone(image, low, high, bit_index, bx, (n - 1) as nat);
        lemma_accepted_channels_monotone(image, low, high, bit_index, bx, n - 1, 3);
    }
}

proof fn lemma_accepted_columns_monotone(
    image: Raster,
    low: Alpha,
    high: Alpha,
    bit_index: u8,
    n: nat,
)
    requires
        low.wf(),
        high.wf(),
        high.at_least(low),
    ensures
        accepted_columns(image, high, bit_index, n).len() <= accepted_columns(
            image,
            low,
            bit_index,
            n,
        ).len(),
    decreases n,
{
    if n > 0 {
        lemma_accepted_columns_monotone(image, low, high, bit_index, (n - 1) as nat);
        lemma_accepted_rows_monotone(image, low, high, bit_index, n - 1, image.height / 8);
    }
}

/// A lower threshold accepts at least as many planes of an image.
pub proof fn lemma_accepted_count_monotone(image: Raster, low: Alpha, high: Alpha)
    requires
        low.wf(),
        high.wf(),
        high.at_least(low),
    ensures
        accepted_count(image, high) <= accepted_count(image, low),
{
    lemma_accepted_columns_monotone(image, low, high, 0, image.width / 8);
    lemma_accepted_columns_monotone(image, low, high, 1, image.width / 8);
    lemma_accepted_columns_monotone(image, low, high, 2, image.width / 8);
    lemma_accepted_columns_monotone(image, low, high, 3, image.width / 8);
    lemma_accepted_columns_monotone(image, low, high, 4, image.width / 8);
    lemma_accepted_columns_monotone(image, low, high, 5, image.width / 8);
    lemma_accepted_columns_monotone(image, low, high, 6, image.width / 8);
    lemma_accepted_columns_monotone(image, low, high, 7, image.width / 8);
}

/// The estimated capacity of an image does not rise with the threshold.
pub proof fn lemma_capacity_monotone(image: Raster, low: Alpha, high: Alpha)
    requires
        low.is_threshold(),
        high.is_threshold(),
        high.at_least(low),
    ensures
        capacity(image, low) >= capacity(image, high),
{
    lemma_accepted_count_monotone(image.gray(), low, high);
    lemma_prefix_length_monotone(low, high);
    lemma_prefix_length_bounds(low);
    lemma_prefix_length_bounds(high);
    lemma_field_plane_count(low);
    lemma_field_plane_count(high);
    let accepted_low = accepted_count(image.gray(), low) as int;
    let accepted_high = accepted_count(image.gray(), high) as int;
    let per_low = 64 - prefix_length_of(low);
    let per_high = 64 - prefix_length_of(high);
    let field_low = (31 + per_low) / per_low;
    let field_high = (31 + per_high) / per_high;
    assert(field_low <= field_high) by (nonlinear_arith)
        requires
            16 <= per_high <= per_low <= 60,
            field_low == (31 + per_low) / per_low,
            field_high == (31 + per_high) / per_high,
    ;
    let reserved_low = iv_plane_count(low) + 2;
    let reserved_high = iv_plane_count(high) + 2;
    if accepted_high >= reserved_high {
        let free_low = accepted_low - reserved_low;
        let free_high = accepted_high - reserved_high;
        let planes_low = (free_low * per_low) / (per_low + 1);
        let planes_high = (free_high * per_high) / (per_high + 1);
        assert(planes_high * (per_high + 1) <= free_high * per_high && planes_high >= 0)
            by (nonlinear_arith)
            requires
                per_high > 0,
                free_high >= 0,
                planes_high == (free_high * per_high) / (per_high + 1),
        ;
        assert(planes_high * (per_low + 1) <= free_low * per_low) by (nonlinear_arith)
            requires
                0 < per_high <= per_low,
                0 <= free_high <= free_low,
                planes_high >= 0,
                planes_high * (per_high + 1) <= free_high * per_high,
        {
            assert(planes_high <= (free_high - planes_high) * per_high);
            assert(free_high - planes_high >= 0);
            assert((free_high - planes_high) * per_high <= (free_low - planes_high) * per_low);
        }
        assert(planes_high <= planes_low) by (nonlinear_arith)
            requires
                per_low > 0,
                planes_high * (per_low + 1) <= free_low * per_low,
                planes_low == (free_low * per_low) / (per_low + 1),
        ;
    }
}

} // verus!
