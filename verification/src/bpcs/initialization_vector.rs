//! The two length fields that precede a message, and the conjugation map:
//! how they are put into prefixed planes and read back.

use crate::bit_operations::{
    bits_value, int_bits, lemma_bits_value_bound, lemma_int_bits_len, lemma_value_of_int_bits,
    pack_bits, unsigned_int_to_bits,
};
use crate::bpcs::alpha::Alpha;
use crate::bpcs::bit_plane::{is_complex, BitPlane};
use crate::bpcs::dynamic_prefix::{
    data_bits_from_prefixed_planes, data_bits_of, get_prefixed_planes, holds_data,
    lemma_data_bits_of_len, lemma_prefix_length_bounds, num_of_prefixed_planes_for_n_bits,
    plane_seqs, planes_needed, prefix_length, prefix_length_of,
};
use crate::errors::{remnant_too_long_reason, remnant_too_long_text, SteganographyError};
use vstd::arithmetic::power2::lemma2_to64;
use vstd::prelude::*;

verus! {

/// The width in bits of the field that holds the number of message planes.
pub const MESSAGE_LENGTH_IV_BIT_NUMBER: usize = 32;

/// The width in bits of the field that holds the number of message bits in
/// the last message plane.
pub const MESSAGE_REMNANT_IV_BIT_NUMBER: usize = 32;

/// The number of planes that one length field fills.
pub open spec fn field_plane_count(min_alpha: Alpha) -> nat {
    planes_needed(32, prefix_length_of(min_alpha))
}

/// The number of planes that the two length fields fill.
pub open spec fn iv_plane_count(min_alpha: Alpha) -> nat {
    field_plane_count(min_alpha) + field_plane_count(min_alpha)
}

/// The number that a length field holds: the first 32 data bits of its
/// planes.
pub open spec fn field_value(planes: Seq<Seq<bool>>, min_alpha: Alpha) -> nat {
    bits_value(data_bits_of(planes, prefix_length_of(min_alpha)).subrange(0, 32))
}

/// The number of message planes that the planes of the two length fields
/// announce.
pub open spec fn iv_message_plane_length(planes: Seq<Seq<bool>>, min_alpha: Alpha) -> nat {
    field_value(planes.subrange(0, field_plane_count(min_alpha) as int), min_alpha)
}

/// The number of message bits in the last message plane that the planes of
/// the two length fields announce.
pub open spec fn iv_message_remnant_length(planes: Seq<Seq<bool>>, min_alpha: Alpha) -> nat {
    field_value(
        planes.subrange(
            field_plane_count(min_alpha) as int,
            2 * field_plane_count(min_alpha) as int,
        ),
        min_alpha,
    )
}

/// The conjugation map that `planes` hold for a message of
/// `message_plane_length` planes.
pub open spec fn conjugation_map_of(
    planes: Seq<Seq<bool>>,
    min_alpha: Alpha,
    message_plane_length: nat,
) -> Seq<bool> {
    data_bits_of(planes, prefix_length_of(min_alpha)).subrange(0, message_plane_length as int)
}

/// A length field takes one plane for a prefix of up to 32 bits and two for a
/// longer one.
pub proof fn lemma_field_plane_count(min_alpha: Alpha)
    requires
        min_alpha.is_threshold(),
    ensures
        1 <= field_plane_count(min_alpha) <= 2,
        field_plane_count(min_alpha) * (64 - prefix_length_of(min_alpha)) >= 32,
{
    lemma_prefix_length_bounds(min_alpha);
    let per_plane = 64 - prefix_length_of(min_alpha);
    let count = (31 + per_plane) / per_plane;
    assert(1 <= count <= 2 && count * per_plane >= 32) by (nonlinear_arith)
        requires
            16 <= per_plane <= 60,
            count == (31 + per_plane) / per_plane,
    ;
}

/// Planes that hold a 32-bit number as their data hold it as a length field.
pub proof fn lemma_field_value(planes: Seq<Seq<bool>>, min_alpha: Alpha, value: nat)
    requires
        min_alpha.is_threshold(),
        value < 0x1_0000_0000,
        holds_data(planes, prefix_length_of(min_alpha), int_bits(value, 32)),
    ensures
        field_value(planes, min_alpha) == value,
{
    lemma_int_bits_len(value, 32);
    lemma2_to64();
    lemma_value_of_int_bits(value, 32);
}

/// The number of planes that the two length fields fill.
pub fn calculate_iv_plane_number(min_alpha: Alpha) -> (count: usize)
    requires
        min_alpha.is_threshold(),
    ensures
        count == iv_plane_count(min_alpha),
        2 <= count <= 4,
{
    proof {
        lemma_field_plane_count(min_alpha);
    }
    num_of_prefixed_planes_for_n_bits(MESSAGE_LENGTH_IV_BIT_NUMBER, prefix_length(min_alpha))
        + num_of_prefixed_planes_for_n_bits(
        MESSAGE_REMNANT_IV_BIT_NUMBER,
        prefix_length(min_alpha),
    )
}

/// The bits of the field that holds the number of message planes: the 32 low
/// bits of the number.
pub fn build_message_length_iv(message_plane_length: usize) -> (bits: Vec<bool>)
    ensures
        bits@ == int_bits(message_plane_length as nat, 32),
        bits@.len() == 32,
{
    unsigned_int_to_bits(message_plane_length as u64, MESSAGE_LENGTH_IV_BIT_NUMBER)
}

/// The bits of the field that holds the number of message bits in the last
/// message plane.
pub fn build_message_remnant_iv(remnant_bit_number: usize) -> (bits: Vec<bool>)
    requires
        remnant_bit_number <= 64,
    ensures
        bits@ == int_bits(remnant_bit_number as nat, 32),
        bits@.len() == 32,
{
    unsigned_int_to_bits(remnant_bit_number as u64, MESSAGE_REMNANT_IV_BIT_NUMBER)
}

/// The planes of the two length fields, each field in prefixed planes of its
/// own, complex enough for `min_alpha`.
pub fn build_iv_planes(
    min_alpha: Alpha,
    message_plane_length: usize,
    remnant_bit_number: usize,
) -> (iv_planes: Vec<BitPlane>)
    requires
        min_alpha.is_threshold(),
        message_plane_length <= u32::MAX,
        remnant_bit_number <= 64,
    ensures
        iv_planes@.len() == iv_plane_count(min_alpha),
        forall|p: int|
            0 <= p < iv_planes@.len() ==> is_complex((#[trigger] iv_planes@[p])@, min_alpha),
        iv_message_plane_length(plane_seqs(iv_planes@), min_alpha) == message_plane_length,
        iv_message_remnant_length(plane_seqs(iv_planes@), min_alpha) == remnant_bit_number,
{
    let mut iv_planes: Vec<BitPlane> = get_prefixed_planes(
        build_message_length_iv(message_plane_length),
        min_alpha,
    );
    let mut remnant_planes: Vec<BitPlane> = get_prefixed_planes(
        build_message_remnant_iv(remnant_bit_number),
        min_alpha,
    );
    let ghost first = iv_planes@;
    let ghost second = remnant_planes@;
    iv_planes.append(&mut remnant_planes);
    proof {
        let count = field_plane_count(min_alpha) as int;
        let all = plane_seqs(iv_planes@);
        assert(all.subrange(0, count) =~= plane_seqs(first));
        assert(all.subrange(count, 2 * count) =~= plane_seqs(second));
        lemma_field_value(plane_seqs(first), min_alpha, message_plane_length as nat);
        lemma_field_value(plane_seqs(second), min_alpha, remnant_bit_number as nat);
    }
    iv_planes
}

/// The planes of a conjugation map: prefixed planes, complex enough for
/// `min_alpha`, that hold the map as their data.
pub fn build_conjugation_map_planes(conjugation_map: Vec<bool>, min_alpha: Alpha) -> (planes:
    Vec<BitPlane>)
    requires
        min_alpha.is_threshold(),
    ensures
        holds_data(plane_seqs(planes@), prefix_length_of(min_alpha), conjugation_map@),
        forall|p: int| 0 <= p < planes@.len() ==> is_complex((#[trigger] planes@[p])@, min_alpha),
        conjugation_map_of(plane_seqs(planes@), min_alpha, conjugation_map@.len())
            == conjugation_map@,
{
    get_prefixed_planes(conjugation_map, min_alpha)
}

/// Reads a length field from its planes.
fn read_field(planes: Vec<BitPlane>, min_alpha: Alpha) -> (value: usize)
    requires
        min_alpha.is_threshold(),
        planes@.len() == field_plane_count(min_alpha),
    ensures
        value == field_value(plane_seqs(planes@), min_alpha),
        value <= u32::MAX,
{
    proof {
        lemma_field_plane_count(min_alpha);
        lemma_data_bits_of_len(plane_seqs(planes@), prefix_length_of(min_alpha));
    }
    let bits = data_bits_from_prefixed_planes(planes, min_alpha);
    let value = pack_bits(bits.as_slice(), 0, 32);
    proof {
        lemma_bits_value_bound(bits@.subrange(0, 32));
        lemma2_to64();
    }
    value as usize
}

/// Reads the two length fields from their planes: the number of message
/// planes and the number of message bits in the last of them.
///
/// Fails with `InsufficientPlaneNumber` when there are fewer planes than the
/// fields fill, and with `InvalidIVData` when the last plane is said to hold
/// more than 64 bits.
pub fn extract_iv_data_from_iv_planes(planes: Vec<BitPlane>, min_alpha: Alpha) -> (iv:
    Result<(usize, usize), SteganographyError>)
    requires
        min_alpha.is_threshold(),
    ensures
        planes@.len() < iv_plane_count(min_alpha) ==> iv == Err::<(usize, usize), _>(
            SteganographyError::InsufficientPlaneNumber(
                iv_plane_count(min_alpha) as usize,
                planes@.len() as usize,
            ),
        ),
        planes@.len() >= iv_plane_count(min_alpha) && iv_message_remnant_length(
            plane_seqs(planes@),
            min_alpha,
        ) > 64 ==> (iv matches Err(SteganographyError::InvalidIVData(reason)) && reason@
            == remnant_too_long_text(
            iv_message_remnant_length(plane_seqs(planes@), min_alpha),
        )),
        planes@.len() >= iv_plane_count(min_alpha) && iv_message_remnant_length(
            plane_seqs(planes@),
            min_alpha,
        ) <= 64 ==> (iv matches Ok(lengths) && lengths.0 == iv_message_plane_length(
            plane_seqs(planes@),
            min_alpha,
        ) && lengths.1 == iv_message_remnant_length(plane_seqs(planes@), min_alpha)),
{
    let minimum_plane_num = calculate_iv_plane_number(min_alpha);
    if planes.len() < minimum_plane_num {
        return Err(SteganographyError::InsufficientPlaneNumber(minimum_plane_num, planes.len()));
    }
    let prefix_length = prefix_length(min_alpha);
    let msg_len_iv_plane_length = num_of_prefixed_planes_for_n_bits(
        MESSAGE_LENGTH_IV_BIT_NUMBER,
        prefix_length,
    );
    let msg_rem_iv_plane_length = num_of_prefixed_planes_for_n_bits(
        MESSAGE_REMNANT_IV_BIT_NUMBER,
        prefix_length,
    );
    let ghost all = plane_seqs(planes@);
    let mut length_planes = planes;
    let mut remnant_planes = length_planes.split_off(msg_len_iv_plane_length);
    remnant_planes.truncate(msg_rem_iv_plane_length);
    proof {
        let count = field_plane_count(min_alpha) as int;
        assert(plane_seqs(length_planes@) =~= all.subrange(0, count));
        assert(plane_seqs(remnant_planes@) =~= all.subrange(count, 2 * count));
    }
    let message_plane_length = read_field(length_planes, min_alpha);
    let message_remnant_length = read_field(remnant_planes, min_alpha);
    if message_remnant_length > 64 {
        return Err(
            SteganographyError::InvalidIVData(remnant_too_long_reason(message_remnant_length)),
        );
    }
    Ok((message_plane_length, message_remnant_length))
}

/// Reads the conjugation map of a message of `message_plane_length` planes
/// from its planes.
///
/// Fails with `InsufficientPlaneNumber` when there are fewer planes than the
/// map fills.
pub fn extract_conj_map_data_from_conj_map_planes(
    planes: Vec<BitPlane>,
    min_alpha: Alpha,
    message_plane_length: usize,
) -> (map: Result<Vec<bool>, SteganographyError>)
    requires
        min_alpha.is_threshold(),
    ensures
        planes@.len() < planes_needed(message_plane_length as nat, prefix_length_of(min_alpha))
            ==> map == Err::<Vec<bool>, _>(
            SteganographyError::InsufficientPlaneNumber(
                planes_needed(message_plane_length as nat, prefix_length_of(min_alpha)) as usize,
                planes@.len() as usize,
            ),
        ),
        planes@.len() >= planes_needed(message_plane_length as nat, prefix_length_of(min_alpha))
            ==> (map matches Ok(bits) && bits@ == conjugation_map_of(
            plane_seqs(planes@),
            min_alpha,
            message_plane_length as nat,
        ) && bits@.len() == message_plane_length),
{
    let conjugation_map_plane_length = num_of_prefixed_planes_for_n_bits(
        message_plane_length,
        prefix_length(min_alpha),
    );
    if planes.len() < conjugation_map_plane_length {
        return Err(
            SteganographyError::InsufficientPlaneNumber(conjugation_map_plane_length, planes.len()),
        );
    }
    proof {
        let len = prefix_length_of(min_alpha);
        lemma_prefix_length_bounds(min_alpha);
        lemma_data_bits_of_len(plane_seqs(planes@), len);
        let needed = planes_needed(message_plane_length as nat, len) as int;
        let per_plane = 64 - len;
        let n = message_plane_length as int;
        assert(needed * per_plane >= n) by (nonlinear_arith)
            requires
                per_plane > 0,
                n >= 0,
                needed == (n + per_plane - 1) / per_plane,
        ;
        assert(planes@.len() * per_plane >= needed * per_plane) by (nonlinear_arith)
            requires
                planes@.len() >= needed,
                per_plane > 0,
        ;
    }
    let mut conjugation_map_data = data_bits_from_prefixed_planes(planes, min_alpha);
    conjugation_map_data.truncate(message_plane_length);
    Ok(conjugation_map_data)
}

} // verus!
