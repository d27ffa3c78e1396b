//! Turning the bytes of a message into planes that are complex enough to be
//! stored, eight bytes to a plane.

use crate::bit_operations::{
    int_bits, lemma_int_bits_len, lemma_value_of_int_bits, unsigned_int_to_bits,
};
use crate::bpcs::alpha::Alpha;
use crate::bpcs::bit_plane::{
    changes, conjugate_seq, lemma_conjugate_involution, plane_bytes, BitPlane,
};
use crate::bpcs::random::random_filler_byte;
use vstd::arithmetic::power2::lemma2_to64;
use vstd::prelude::*;

verus! {

/// The number of message bytes that the plane starting at byte `position`
/// holds: eight, or as many as are left.
pub open spec fn chunk_len(len: nat, position: nat) -> nat {
    if position >= len {
        0
    } else if len - position >= 8 {
        8
    } else {
        (len - position) as nat
    }
}

/// The 64 bits that eight bytes unpack into, each byte most significant bit
/// first.
pub open spec fn bytes_bits(bytes: Seq<u8>) -> Seq<bool> {
    Seq::new(64, |k: int| int_bits(bytes[k / 8] as nat, 8)[k % 8])
}

/// A stored plane as it was before it was stored: its conjugate where the
/// plane was conjugated, else the plane itself.
pub open spec fn unconjugated(plane: Seq<bool>, conjugated: bool) -> Seq<bool> {
    if conjugated {
        conjugate_seq(plane)
    } else {
        plane
    }
}

/// Unpacking eight bytes into a plane and packing the plane gives the bytes.
pub proof fn lemma_plane_bytes_of_bytes_bits(bytes: Seq<u8>)
    requires
        bytes.len() == 8,
    ensures
        plane_bytes(bytes_bits(bytes)) == bytes,
{
    assert forall|i: int| 0 <= i < 8 implies plane_bytes(bytes_bits(bytes))[i] == bytes[i] by {
        let byte_bits = int_bits(bytes[i] as nat, 8);
        lemma_int_bits_len(bytes[i] as nat, 8);
        assert(bytes_bits(bytes).subrange(8 * i, 8 * i + 8) =~= byte_bits);
        lemma2_to64();
        lemma_value_of_int_bits(bytes[i] as nat, 8);
    }
    assert(plane_bytes(bytes_bits(bytes)) =~= bytes);
}

/// The next eight bytes of `bytes` from `position` on. When fewer than eight
/// are left, random bytes make up the number; when none is left, there is no
/// chunk.
pub fn get_bytes_per_plane_u8s(bytes: &[u8], position: &mut usize) -> (chunk: Option<Vec<u8>>)
    ensures
        *old(position) >= bytes@.len() ==> chunk is None && *final(position) == *old(position),
        *old(position) < bytes@.len() ==> {
            &&& chunk matches Some(u8s)
            &&& u8s@.len() == 8
            &&& *final(position) == *old(position) + chunk_len(
                bytes@.len(),
                *old(position) as nat,
            )
            &&& u8s@.subrange(0, chunk_len(bytes@.len(), *old(position) as nat) as int)
                == bytes@.subrange(*old(position) as int, *final(position) as int)
        },
{
    if *position >= bytes.len() {
        return None;
    }
    let start: usize = *position;
    let mut u8s: Vec<u8> = Vec::with_capacity(8);
    let mut i: usize = 0;
    while i < 8
        invariant
            i <= 8,
            start < bytes@.len(),
            u8s@.len() == i,
            start <= *position <= bytes@.len(),
            *position - start == (if i <= chunk_len(bytes@.len(), start as nat) {
                i as int
            } else {
                chunk_len(bytes@.len(), start as nat) as int
            }),
            u8s@.subrange(0, *position - start) == bytes@.subrange(start as int, *position as int),
        decreases 8 - i,
    {
        let ghost before = u8s@;
        if *position < bytes.len() {
            u8s.push(bytes[*position]);
            *position += 1;
            assert(u8s@.subrange(0, *position - start) =~= bytes@.subrange(
                start as int,
                *position as int,
            ));
        } else {
            u8s.push(random_filler_byte());
            assert(u8s@.subrange(0, *position - start) =~= before.subrange(0, *position - start));
        }
        i += 1;
    }
    Some(u8s)
}

/// A message on its way into planes: the bytes, how many of them have been
/// put into planes, and for each plane so far whether it was conjugated.
pub struct MessagePlanesIter<'a> {
    pub message_bytes: &'a [u8],
    pub position: usize,
    pub conjugation_map: Vec<bool>,
}

impl<'a> MessagePlanesIter<'a> {
    /// `message_bytes` with none of them in a plane yet.
    pub fn new(message_bytes: &'a [u8]) -> (iter: Self)
        ensures
            iter.message_bytes == message_bytes,
            iter.position == 0,
            iter.conjugation_map@.len() == 0,
    {
        MessagePlanesIter { message_bytes, position: 0, conjugation_map: Vec::new() }
    }

    /// For each plane given out so far, whether it was conjugated.
    pub fn conjugation_map(&self) -> (map: &Vec<bool>)
        ensures
            map@ == self.conjugation_map@,
    {
        &self.conjugation_map
    }

    /// Gives up the conjugation map.
    pub fn into_conjugation_map(self) -> (map: Vec<bool>)
        ensures
            map@ == self.conjugation_map@,
    {
        self.conjugation_map
    }

    /// The plane of the next eight bytes, if any byte is left. A plane with a
    /// complexity below one half is conjugated, so that every plane given out
    /// has a complexity of at least one half; the conjugation map records
    /// which were. Random bytes fill a last plane that the message does not.
    pub fn next(&mut self) -> (item: Option<BitPlane>)
        ensures
            final(self).message_bytes == old(self).message_bytes,
            old(self).position >= old(self).message_bytes@.len() ==> item is None && *final(self)
                == *old(self),
            old(self).position < old(self).message_bytes@.len() ==> {
                &&& item matches Some(plane)
                &&& final(self).position == old(self).position + chunk_len(
                    old(self).message_bytes@.len(),
                    old(self).position as nat,
                )
                &&& final(self).conjugation_map@.len() == old(self).conjugation_map@.len() + 1
                &&& final(self).conjugation_map@.drop_last() == old(self).conjugation_map@
                &&& final(self).conjugation_map@.last() == (changes(
                    unconjugated(plane@, final(self).conjugation_map@.last()),
                ) < 56)
                &&& changes(plane@) >= 56
                &&& plane_bytes(unconjugated(plane@, final(self).conjugation_map@.last())).subrange(
                    0,
                    chunk_len(old(self).message_bytes@.len(), old(self).position as nat) as int,
                ) == old(self).message_bytes@.subrange(
                    old(self).position as int,
                    final(self).position as int,
                )
            },
    {
        let mut position: usize = self.position;
        match get_bytes_per_plane_u8s(self.message_bytes, &mut position) {
            None => None,
            Some(plane_u8s) => {
                self.position = position;
                let mut data_bits = [false; 64];
                let mut i: usize = 0;
                while i < 8
                    invariant
                        i <= 8,
                        plane_u8s@.len() == 8,
                        forall|k: int|
                            0 <= k < 8 * i ==> data_bits[k] == bytes_bits(plane_u8s@)[k],
                    decreases 8 - i,
                {
                    let byte_bits = unsigned_int_to_bits(plane_u8s[i] as u64, 8);
                    let mut j: usize = 0;
                    while j < 8
                        invariant
                            i < 8,
                            j <= 8,
                            plane_u8s@.len() == 8,
                            byte_bits@ == int_bits(plane_u8s@[i as int] as nat, 8),
                            byte_bits@.len() == 8,
                            forall|k: int|
                                0 <= k < 8 * i + j ==> data_bits[k] == bytes_bits(plane_u8s@)[k],
                        decreases 8 - j,
                    {
                        data_bits[8 * i + j] = byte_bits[j];
                        j += 1;
                    }
                    i += 1;
                }
                let mut plane = BitPlane::from_bits(data_bits);
                let ghost raw = plane@;
                proof {
                    assert(raw =~= bytes_bits(plane_u8s@));
                    lemma_plane_bytes_of_bytes_bits(plane_u8s@);
                    lemma_conjugate_involution(raw);
                }
                if plane.alpha().lt(&Alpha::half()) {
                    plane.conjugate();
                    self.conjugation_map.push(true);
                } else {
                    self.conjugation_map.push(false);
                }
                assert(self.conjugation_map@.drop_last() =~= old(self).conjugation_map@);
                Some(plane)
            },
        }
    }
}

} // verus!
