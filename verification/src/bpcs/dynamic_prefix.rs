//! The dynamic prefix: planes that carry data bits behind a run of bits
//! chosen only to make the plane complex enough.

use crate::bpcs::alpha::Alpha;
use crate::bpcs::bit_plane::{
    adjacent_changes, changes, checkerboard_bit, is_complex, stride_changes, BitPlane,
};
use crate::bpcs::random::random_bit;
use vstd::prelude::*;

verus! {

/// The prefix length for a threshold `a`: `64 * (1.4 * a + 0.05)`, rounded up.
pub open spec fn prefix_length_of(min_alpha: Alpha) -> nat {
    ((448 * min_alpha.numer + 16 * min_alpha.denom + 5 * min_alpha.denom - 1) / (5
        * min_alpha.denom)) as nat
}

/// The number of planes that `n` data bits fill when each plane gives
/// `prefix_length` of its 64 bits to the prefix: `n / (64 - prefix_length)`,
/// rounded up.
pub open spec fn planes_needed(n: nat, prefix_length: nat) -> nat {
    ((n + (64 - prefix_length) - 1) / (64 - prefix_length)) as nat
}

/// The prefix of a threshold is at least 4 and at most 48 bits long.
pub proof fn lemma_prefix_length_bounds(min_alpha: Alpha)
    requires
        min_alpha.is_threshold(),
    ensures
        4 <= prefix_length_of(min_alpha) <= 48,
{
    let n = min_alpha.numer as int;
    let d = min_alpha.denom as int;
    let top = 448 * n + 16 * d + 5 * d - 1;
    let bottom = 5 * d;
    assert(4 <= top / bottom <= 48) by (nonlinear_arith)
        requires
            bottom > 0,
            4 * bottom <= top,
            top < 49 * bottom,
    ;
}

/// A higher threshold has a prefix that is at least as long.
pub proof fn lemma_prefix_length_monotone(low: Alpha, high: Alpha)
    requires
        low.wf(),
        high.wf(),
        high.at_least(low),
    ensures
        prefix_length_of(low) <= prefix_length_of(high),
{
    let n1 = low.numer as int;
    let d1 = low.denom as int;
    let n2 = high.numer as int;
    let d2 = high.denom as int;
    let l2 = (448 * n2 + 16 * d2 + 5 * d2 - 1) / (5 * d2);
    let l1 = (448 * n1 + 16 * d1 + 5 * d1 - 1) / (5 * d1);
    assert(448 * n2 + 16 * d2 <= l2 * (5 * d2)) by (nonlinear_arith)
        requires
            d2 > 0,
            n2 >= 0,
            l2 == (448 * n2 + 16 * d2 + 5 * d2 - 1) / (5 * d2),
    ;
    assert(448 * n1 + 16 * d1 <= l2 * (5 * d1)) by (nonlinear_arith)
        requires
            d1 > 0,
            d2 > 0,
            n1 >= 0,
            n2 >= 0,
            n2 * d1 >= n1 * d2,
            448 * n2 + 16 * d2 <= l2 * (5 * d2),
    {
        assert((448 * n1 + 16 * d1) * d2 <= (448 * n2 + 16 * d2) * d1);
        assert((448 * n2 + 16 * d2) * d1 <= (l2 * (5 * d2)) * d1);
        assert((448 * n1 + 16 * d1) * d2 <= (l2 * (5 * d1)) * d2);
    }
    assert(l1 <= l2) by (nonlinear_arith)
        requires
            d1 > 0,
            l1 == (448 * n1 + 16 * d1 + 5 * d1 - 1) / (5 * d1),
            448 * n1 + 16 * d1 <= l2 * (5 * d1),
    ;
    assert(0 <= l1) by (nonlinear_arith)
        requires
            d1 > 0,
            n1 >= 0,
            l1 == (448 * n1 + 16 * d1 + 5 * d1 - 1) / (5 * d1),
    ;
}

/// The number of planes that `n` data bits fill behind a prefix of
/// `prefix_length` bits.
pub fn num_of_prefixed_planes_for_n_bits(n: usize, prefix_length: usize) -> (planes: usize)
    requires
        prefix_length < 64,
    ensures
        planes == planes_needed(n as nat, prefix_length as nat),
        planes <= n,
{
    let per_plane: usize = 64 - prefix_length;
    let full: usize = n / per_plane;
    assert(n % per_plane != 0 ==> full < n) by (nonlinear_arith)
        requires
            per_plane > 0,
            full == n / per_plane,
    ;
    let planes = if n % per_plane != 0 {
        full + 1
    } else {
        full
    };
    proof {
        let b = per_plane as int;
        let m = n as int;
        assert(planes == (m + b - 1) / b && planes <= m) by (nonlinear_arith)
            requires
                b > 0,
                m >= 0,
                planes == m / b + if m % b != 0 {
                    1int
                } else {
                    0int
                },
        ;
    }
    planes
}

/// The prefix length for the threshold `min_alpha`.
pub fn prefix_length(min_alpha: Alpha) -> (len: usize)
    requires
        min_alpha.is_threshold(),
    ensures
        len == prefix_length_of(min_alpha),
        4 <= len <= 48,
{
    proof {
        lemma_prefix_length_bounds(min_alpha);
    }
    let numer: u64 = min_alpha.numer as u64;
    let denom: u64 = min_alpha.denom as u64;
    let top: u64 = 448 * numer + 16 * denom + 5 * denom - 1;
    (top / (5 * denom)) as usize
}

/// How often a random prefix is tried before the checkerboard is taken as
/// the prefix.
pub const PREFIX_ATTEMPTS: u32 = 1_000_000;

/// The content of a list of planes: the bits of each.
pub open spec fn plane_seqs(planes: Seq<BitPlane>) -> Seq<Seq<bool>> {
    Seq::new(planes.len(), |i: int| planes[i]@)
}

/// The data bits of a list of prefixed planes: of each plane the bits behind
/// the first `prefix_length`, plane after plane.
pub open spec fn data_bits_of(planes: Seq<Seq<bool>>, prefix_length: nat) -> Seq<bool>
    decreases planes.len(),
{
    if planes.len() == 0 {
        Seq::empty()
    } else {
        data_bits_of(planes.drop_last(), prefix_length) + planes.last().subrange(
            prefix_length as int,
            64,
        )
    }
}

/// The number of changes that a plane has at least when its first
/// `prefix_length` bits are those of the checkerboard.
pub open spec fn checkerboard_prefix_changes(prefix_length: nat) -> nat {
    if prefix_length == 0 {
        0
    } else {
        ((prefix_length - 1) - (prefix_length - 1) / 8 + if prefix_length >= 8 {
            prefix_length - 8
        } else {
            0
        }) as nat
    }
}

proof fn lemma_adjacent_changes_checkerboard(bits: Seq<bool>, prefix_length: nat, n: nat)
    requires
        bits.len() == 64,
        1 <= prefix_length <= 64,
        forall|k: int| 0 <= k < prefix_length ==> #[trigger] bits[k] == checkerboard_bit(k),
        n <= prefix_length - 1,
    ensures
        adjacent_changes(bits, n) == n - n / 8,
    decreases n,
{
    if n > 0 {
        lemma_adjacent_changes_checkerboard(bits, prefix_length, (n - 1) as nat);
    }
}

proof fn lemma_adjacent_changes_grow(bits: Seq<bool>, low: nat, high: nat)
    requires
        low <= high,
    ensures
        adjacent_changes(bits, low) <= adjacent_changes(bits, high),
    decreases high,
{
    if low < high {
        lemma_adjacent_changes_grow(bits, low, (high - 1) as nat);
    }
}

proof fn lemma_stride_changes_checkerboard(bits: Seq<bool>, prefix_length: nat, n: nat)
    requires
        bits.len() == 64,
        8 <= prefix_length <= 64,
        forall|k: int| 0 <= k < prefix_length ==> #[trigger] bits[k] == checkerboard_bit(k),
        n <= prefix_length - 8,
    ensures
        stride_changes(bits, n) == n,
    decreases n,
{
    if n > 0 {
        lemma_stride_changes_checkerboard(bits, prefix_length, (n - 1) as nat);
    }
}

proof fn lemma_stride_changes_grow(bits: Seq<bool>, low: nat, high: nat)
    requires
        low <= high,
    ensures
        stride_changes(bits, low) <= stride_changes(bits, high),
    decreases high,
{
    if low < high {
        lemma_stride_changes_grow(bits, low, (high - 1) as nat);
    }
}

/// A plane that begins with the prefix of a threshold, filled with the bits
/// of the checkerboard, is complex enough for that threshold, whatever its
/// other bits are.
pub proof fn lemma_checkerboard_prefix_suffices(bits: Seq<bool>, min_alpha: Alpha)
    requires
        bits.len() == 64,
        min_alpha.is_threshold(),
        forall|k: int|
            0 <= k < prefix_length_of(min_alpha) ==> #[trigger] bits[k] == checkerboard_bit(k),
    ensures
        is_complex(bits, min_alpha),
{
    lemma_prefix_length_bounds(min_alpha);
    let len = prefix_length_of(min_alpha);
    lemma_adjacent_changes_checkerboard(bits, len, (len - 1) as nat);
    lemma_adjacent_changes_grow(bits, (len - 1) as nat, 63);
    if len >= 8 {
        lemma_stride_changes_checkerboard(bits, len, (len - 8) as nat);
        lemma_stride_changes_grow(bits, (len - 8) as nat, 56);
    }
    let sure = checkerboard_prefix_changes(len) as int;
    let found = changes(bits) as int;
    assert(found >= sure);
    let l = len as int;
    assert(4 * sure >= 5 * l - 16);
    let n = min_alpha.numer as int;
    let d = min_alpha.denom as int;
    assert(448 * n + 16 * d <= l * (5 * d)) by (nonlinear_arith)
        requires
            d > 0,
            n >= 0,
            l == (448 * n + 16 * d + 5 * d - 1) / (5 * d),
    ;
    assert(found * d >= n * 112) by (nonlinear_arith)
        requires
            d > 0,
            n >= 0,
            found >= sure,
            4 * sure >= 5 * l - 16,
            448 * n + 16 * d <= l * (5 * d),
    {
        assert(448 * n <= (5 * l - 16) * d);
        assert((5 * l - 16) * d <= (4 * sure) * d);
        assert((4 * sure) * d <= (4 * found) * d);
    }
}

/// A list of prefixed planes holds `64 - prefix_length` data bits for each
/// plane.
pub proof fn lemma_data_bits_of_len(planes: Seq<Seq<bool>>, prefix_length: nat)
    requires
        prefix_length < 64,
        forall|p: int| 0 <= p < planes.len() ==> (#[trigger] planes[p]).len() == 64,
    ensures
        data_bits_of(planes, prefix_length).len() == planes.len() * (64 - prefix_length),
    decreases planes.len(),
{
    let per_plane = 64 - prefix_length;
    if planes.len() > 0 {
        let shorter = planes.drop_last();
        lemma_data_bits_of_len(shorter, prefix_length);
        assert(planes.len() * per_plane == shorter.len() * per_plane + per_plane)
            by (nonlinear_arith)
            requires
                planes.len() == shorter.len() + 1,
        ;
    } else {
        assert(0 * per_plane == 0);
    }
}

/// `n` bits from the thread's random generator.
pub fn get_n_random_bools(n: usize) -> (bools: Vec<bool>)
    ensures
        bools@.len() == n,
{
    let mut bools: Vec<bool> = Vec::with_capacity(n);
    let mut i: usize = 0;
    while i < n
        invariant
            i <= n,
            bools@.len() == i,
        decreases n - i,
    {
        bools.push(random_bit());
        i += 1;
    }
    bools
}

/// Appends as many random bits as the length of `bits` exceeds a multiple of
/// 64; appends nothing to a whole number of planes.
pub fn fill_to_plane_size(bits: &mut Vec<bool>)
    requires
        old(bits)@.len() + 64 <= usize::MAX,
    ensures
        final(bits)@.len() == old(bits)@.len() + old(bits)@.len() % 64,
        final(bits)@.subrange(0, old(bits)@.len() as int) == old(bits)@,
{
    let remainder: usize = bits.len() % 64;
    if remainder == 0 {
        assert(bits@.subrange(0, bits@.len() as int) =~= bits@);
        return ;
    }
    let mut filler_bits = get_n_random_bools(remainder);
    bits.append(&mut filler_bits);
    assert(bits@.subrange(0, old(bits)@.len() as int) =~= old(bits)@);
}

/// The first `prefix_length` bits of the checkerboard.
fn checkerboard_prefix(prefix_length: usize) -> (bools: Vec<bool>)
    requires
        prefix_length <= 64,
    ensures
        bools@.len() == prefix_length,
        forall|k: int| 0 <= k < prefix_length ==> bools@[k] == checkerboard_bit(k),
{
    let mut bools: Vec<bool> = Vec::with_capacity(prefix_length);
    let mut k: usize = 0;
    while k < prefix_length
        invariant
            k <= prefix_length <= 64,
            bools@.len() == k,
            forall|j: int| 0 <= j < k ==> bools@[j] == checkerboard_bit(j),
        decreases prefix_length - k,
    {
        bools.push((k / 8 + k % 8) % 2 == 1);
        k += 1;
    }
    bools
}

/// The plane that holds `prefix_bits` followed by `plane_data`.
fn join_to_plane(prefix_bits: &Vec<bool>, plane_data: &Vec<bool>) -> (plane: BitPlane)
    requires
        prefix_bits@.len() + plane_data@.len() == 64,
    ensures
        plane@ == prefix_bits@ + plane_data@,
{
    let mut plane_bits = [false; 64];
    let prefix_length: usize = prefix_bits.len();
    let mut k: usize = 0;
    while k < 64
        invariant
            k <= 64,
            prefix_length == prefix_bits@.len(),
            prefix_bits@.len() + plane_data@.len() == 64,
            forall|j: int| 0 <= j < k ==> plane_bits[j] == (prefix_bits@ + plane_data@)[j],
        decreases 64 - k,
    {
        plane_bits[k] = if k < prefix_length {
            prefix_bits[k]
        } else {
            plane_data[k - prefix_length]
        };
        k += 1;
    }
    let plane = BitPlane::from_bits(plane_bits);
    assert(plane@ =~= prefix_bits@ + plane_data@);
    plane
}

/// Takes the next `64 - prefix_length` bits off the front of `bits`, or all
/// of them if they are fewer and random bits to make up the number, and puts
/// a prefix before them that makes the plane complex enough for `min_alpha`.
///
/// The prefix is random. Should [`PREFIX_ATTEMPTS`] random prefixes in a row
/// leave the plane too simple, the prefix is that of the checkerboard, which
/// makes every plane complex enough.
pub fn get_next_prefixed_plane(
    bits: &mut Vec<bool>,
    min_alpha: Alpha,
    prefix_length: usize,
) -> (plane: BitPlane)
    requires
        min_alpha.is_threshold(),
        prefix_length == prefix_length_of(min_alpha),
    ensures
        is_complex(plane@, min_alpha),
        old(bits)@.len() >= 64 - prefix_length ==> {
            &&& plane@.subrange(prefix_length as int, 64) == old(bits)@.subrange(
                0,
                64 - prefix_length,
            )
            &&& final(bits)@ == old(bits)@.subrange(
                64 - prefix_length,
                old(bits)@.len() as int,
            )
        },
        old(bits)@.len() < 64 - prefix_length ==> {
            &&& plane@.subrange(prefix_length as int, prefix_length + old(bits)@.len())
                == old(bits)@
            &&& final(bits)@.len() == 0
        },
{
    proof {
        lemma_prefix_length_bounds(min_alpha);
    }
    let per_plane: usize = 64 - prefix_length;
    let taken: usize = if bits.len() >= per_plane {
        per_plane
    } else {
        bits.len()
    };
    let mut plane_data: Vec<bool> = bits.split_off(taken);
    core::mem::swap(bits, &mut plane_data);
    let ghost data = plane_data@;
    assert(data == old(bits)@.subrange(0, taken as int));
    while plane_data.len() < per_plane
        invariant
            plane_data@.len() <= per_plane,
            data.len() <= plane_data@.len(),
            plane_data@.subrange(0, data.len() as int) == data,
        decreases per_plane - plane_data@.len(),
    {
        plane_data.push(random_bit());
        assert(plane_data@.subrange(0, data.len() as int) =~= data);
    }
    let mut attempts: u32 = 0;
    while attempts < PREFIX_ATTEMPTS
        invariant
            plane_data@.len() == per_plane,
            per_plane == 64 - prefix_length,
            4 <= prefix_length <= 48,
            data == old(bits)@.subrange(0, taken as int),
            taken == (if old(bits)@.len() >= per_plane {
                per_plane
            } else {
                old(bits)@.len() as usize
            }),
            bits@ == old(bits)@.subrange(taken as int, old(bits)@.len() as int),
            plane_data@.subrange(0, data.len() as int) == data,
        decreases PREFIX_ATTEMPTS - attempts,
    {
        let prefix_bits = get_n_random_bools(prefix_length);
        let plane = join_to_plane(&prefix_bits, &plane_data);
        if plane.is_complex(min_alpha) {
            proof {
                assert(plane@.subrange(prefix_length as int, 64) =~= plane_data@);
                assert(plane@.subrange(prefix_length as int, prefix_length + data.len()) =~= data);
                if old(bits)@.len() >= per_plane {
                    assert(plane_data@ =~= data);
                } else {
                    assert(data =~= old(bits)@);
                }
            }
            return plane;
        }
        attempts += 1;
    }
    let prefix_bits = checkerboard_prefix(prefix_length);
    let plane = join_to_plane(&prefix_bits, &plane_data);
    proof {
        lemma_checkerboard_prefix_suffices(plane@, min_alpha);
        assert(plane@.subrange(prefix_length as int, 64) =~= plane_data@);
        assert(plane@.subrange(prefix_length as int, prefix_length + data.len()) =~= data);
        if old(bits)@.len() >= per_plane {
            assert(plane_data@ =~= data);
        } else {
            assert(data =~= old(bits)@);
        }
    }
    plane
}

/// Whether `planes` hold `bits` as their data bits, in order, each plane
/// behind a prefix of `prefix_length` bits.
pub open spec fn holds_data(planes: Seq<Seq<bool>>, prefix_length: nat, bits: Seq<bool>) -> bool {
    &&& planes.len() == planes_needed(bits.len(), prefix_length)
    &&& forall|p: int| 0 <= p < planes.len() ==> (#[trigger] planes[p]).len() == 64
    &&& bits.len() <= data_bits_of(planes, prefix_length).len()
    &&& data_bits_of(planes, prefix_length).subrange(0, bits.len() as int) == bits
}

/// Reading the data bits of the prefixed planes that hold `bits`, and
/// cutting them to the length of `bits`, gives `bits`, whatever the prefixes
/// and the filling of the last plane are.
pub proof fn lemma_prefix_round_trip(planes: Seq<BitPlane>, min_alpha: Alpha, bits: Seq<bool>)
    requires
        holds_data(plane_seqs(planes), prefix_length_of(min_alpha), bits),
    ensures
        data_bits_of(plane_seqs(planes), prefix_length_of(min_alpha)).subrange(
            0,
            bits.len() as int,
        ) == bits,
{
}

/// Spreads `bits` over as many prefixed planes as they need, each complex
/// enough for `min_alpha`. The last plane is filled up with random bits.
pub fn get_prefixed_planes(bits: Vec<bool>, min_alpha: Alpha) -> (planes: Vec<BitPlane>)
    requires
        min_alpha.is_threshold(),
    ensures
        holds_data(plane_seqs(planes@), prefix_length_of(min_alpha), bits@),
        forall|p: int| 0 <= p < planes@.len() ==> is_complex((#[trigger] planes@[p])@, min_alpha),
{
    let prefix_length = prefix_length(min_alpha);
    let ghost len = prefix_length as nat;
    let ghost per_plane = 64 - prefix_length;
    let ghost all = bits@;
    let mut remaining = bits;
    let mut planes: Vec<BitPlane> = Vec::new();
    proof {
        assert(data_bits_of(plane_seqs(planes@), len) =~= all.subrange(0, 0));
    }
    while !remaining.is_empty()
        invariant
            min_alpha.is_threshold(),
            prefix_length == prefix_length_of(min_alpha),
            len == prefix_length,
            per_plane == 64 - prefix_length,
            4 <= prefix_length <= 48,
            all == bits@,
            remaining@.len() <= all.len(),
            planes@.len() * per_plane == all.len() - remaining@.len(),
            remaining@ == all.subrange(all.len() - remaining@.len(), all.len() as int),
            data_bits_of(plane_seqs(planes@), len) == all.subrange(
                0,
                all.len() - remaining@.len(),
            ),
            forall|p: int|
                0 <= p < planes@.len() ==> is_complex((#[trigger] planes@[p])@, min_alpha),
        decreases remaining@.len(),
    {
        let ghost before_bits = remaining@;
        let ghost before_planes = planes@;
        let short: bool = remaining.len() < 64 - prefix_length;
        let plane = get_next_prefixed_plane(&mut remaining, min_alpha, prefix_length);
        planes.push(plane);
        proof {
            let seqs = plane_seqs(planes@);
            assert(seqs.drop_last() =~= plane_seqs(before_planes));
            assert(seqs.last() == plane@);
            assert(planes@.len() * per_plane == before_planes.len() * per_plane + per_plane)
                by (nonlinear_arith)
                requires
                    planes@.len() == before_planes.len() + 1,
            ;
            if before_bits.len() >= per_plane {
                assert(data_bits_of(seqs, len) =~= all.subrange(0, all.len() - remaining@.len()));
                assert(remaining@ =~= all.subrange(
                    all.len() - remaining@.len(),
                    all.len() as int,
                ));
            }
        }
        if short {
            proof {
                let seqs = plane_seqs(planes@);
                lemma_data_bits_of_len(seqs, len);
                lemma_data_bits_of_len(seqs.drop_last(), len);
                assert(data_bits_of(seqs, len).subrange(0, all.len() as int) =~= all);
                assert(planes@.len() == planes_needed(all.len(), len)) by (nonlinear_arith)
                    requires
                        before_planes.len() * per_plane == all.len() - before_bits.len(),
                        0 < before_bits.len() < per_plane,
                        planes@.len() == before_planes.len() + 1,
                        per_plane == 64 - len,
                        all.len() >= 0,
                        planes_needed(all.len(), len) == ((all.len() + (64 - len) - 1) / (64
                            - len)) as nat,
                ;
            }
            return planes;
        }
    }
    proof {
        let seqs = plane_seqs(planes@);
        lemma_data_bits_of_len(seqs, len);
        assert(data_bits_of(seqs, len).subrange(0, all.len() as int) =~= all);
        assert(planes@.len() == planes_needed(all.len(), len)) by (nonlinear_arith)
            requires
                planes@.len() * per_plane == all.len(),
                per_plane == 64 - len,
                per_plane > 0,
                planes@.len() >= 0,
                planes_needed(all.len(), len) == ((all.len() + (64 - len) - 1) / (64 - len)) as nat,
        ;
    }
    planes
}

/// The data bits of a list of prefixed planes: of each plane the bits behind
/// the prefix for `min_alpha`, plane after plane.
pub fn data_bits_from_prefixed_planes(planes: Vec<BitPlane>, min_alpha: Alpha) -> (data: Vec<bool>)
    requires
        min_alpha.is_threshold(),
    ensures
        data@ == data_bits_of(plane_seqs(planes@), prefix_length_of(min_alpha)),
{
    let prefix_length = prefix_length(min_alpha);
    let mut data: Vec<bool> = Vec::new();
    let mut i: usize = 0;
    proof {
        assert(plane_seqs(planes@.subrange(0, 0)) =~= Seq::<Seq<bool>>::empty());
    }
    while i < planes.len()
        invariant
            i <= planes@.len(),
            4 <= prefix_length <= 48,
            prefix_length == prefix_length_of(min_alpha),
            data@ == data_bits_of(plane_seqs(planes@.subrange(0, i as int)), prefix_length as nat),
        decreases planes@.len() - i,
    {
        let plane_bits = planes[i].export_to_bools();
        let ghost before = data@;
        let mut k: usize = prefix_length;
        while k < 64
            invariant
                prefix_length <= k <= 64,
                plane_bits@ == planes@[i as int]@,
                i < planes@.len(),
                data@ == before + plane_bits@.subrange(prefix_length as int, k as int),
            decreases 64 - k,
        {
            data.push(plane_bits[k]);
            assert(data@ =~= before + plane_bits@.subrange(prefix_length as int, k + 1));
            k += 1;
        }
        proof {
            let seqs = plane_seqs(planes@.subrange(0, i + 1));
            assert(seqs.drop_last() =~= plane_seqs(planes@.subrange(0, i as int)));
            assert(seqs.last() == planes@[i as int]@);
        }
        i += 1;
    }
    assert(planes@.subrange(0, planes@.len() as int) =~= planes@);
    data
}

} // verus!
