//! Conversions between integers, bits and bytes, and the Gray code of a byte.
//!
//! Bit sequences are written most significant bit first throughout.

use core::str::Utf8Error;
use vstd::arithmetic::power2::{
    lemma2_to64, lemma_pow2_strictly_increases, lemma_pow2_unfold, pow2,
};
use vstd::prelude::*;
use vstd::string::StringSliceAdditionalSpecFns;
use vstd::utf8::valid_utf8;

verus! {

/// The number that `bits` denotes, most significant bit first.
pub open spec fn bits_value(bits: Seq<bool>) -> nat
    decreases bits.len(),
{
    if bits.len() == 0 {
        0
    } else {
        2 * bits_value(bits.drop_last()) + if bits.last() {
            1nat
        } else {
            0nat
        }
    }
}

/// The `depth` low bits of `num`, most significant bit first.
pub open spec fn int_bits(num: nat, depth: nat) -> Seq<bool>
    decreases depth,
{
    if depth == 0 {
        Seq::empty()
    } else {
        int_bits(num / 2, (depth - 1) as nat).push(num % 2 == 1)
    }
}

/// Bit `index` of `byte`, where index 0 is the most significant bit.
pub open spec fn bit_of(byte: u8, index: u8) -> bool {
    ((byte >> ((7 - index) as u8)) & 1u8) != 0u8
}

/// `byte` with bit `index` (0 is the most significant) replaced by `val`.
pub open spec fn with_bit(byte: u8, index: u8, val: bool) -> u8 {
    if val {
        byte | (1u8 << ((7 - index) as u8))
    } else {
        byte & !(1u8 << ((7 - index) as u8))
    }
}

/// The reflected binary (Gray) code of `byte`.
pub open spec fn gray_code(byte: u8) -> u8 {
    byte ^ (byte >> 1u8)
}

/// The byte whose Gray code is `gray`: bit `i` of the result is the exclusive
/// or of the bits `0..=i` of `gray`.
pub open spec fn binary_code(gray: u8) -> u8 {
    gray ^ (gray >> 1u8) ^ (gray >> 2u8) ^ (gray >> 3u8) ^ (gray >> 4u8) ^ (gray >> 5u8) ^ (gray
        >> 6u8) ^ (gray >> 7u8)
}

/// Bytewise exclusive or over the common length of two bit sequences.
pub open spec fn xor_seq(a: Seq<bool>, b: Seq<bool>) -> Seq<bool> {
    Seq::new(
        if a.len() <= b.len() {
            a.len()
        } else {
            b.len()
        },
        |i: int| a[i] != b[i],
    )
}

/// The number of bytes that `n` bits are packed into.
pub open spec fn packed_len(n: nat) -> nat {
    (n + 7) / 8
}

/// The `i`-th group of at most eight bits of `bits`.
pub open spec fn bit_group(bits: Seq<bool>, i: int) -> Seq<bool> {
    bits.subrange(
        8 * i,
        if 8 * i + 8 <= bits.len() {
            8 * i + 8
        } else {
            bits.len() as int
        },
    )
}

/// `bits` packed into bytes, eight to a byte; a shorter last group gives the
/// number it denotes.
pub open spec fn packed_bytes(bits: Seq<bool>) -> Seq<u8> {
    Seq::new(packed_len(bits.len()), |i: int| (bits_value(bit_group(bits, i)) % 256) as u8)
}

/// A number that `n` bits denote is below `2^n`.
pub proof fn lemma_bits_value_bound(bits: Seq<bool>)
    ensures
        bits_value(bits) < pow2(bits.len()),
    decreases bits.len(),
{
    if bits.len() == 0 {
        lemma2_to64();
    } else {
        lemma_bits_value_bound(bits.drop_last());
        lemma_pow2_unfold(bits.len());
    }
}

/// A number written as `depth` bits has `depth` bits.
pub proof fn lemma_int_bits_len(num: nat, depth: nat)
    ensures
        int_bits(num, depth).len() == depth,
    decreases depth,
{
    if depth > 0 {
        lemma_int_bits_len(num / 2, (depth - 1) as nat);
    }
}

/// Writing a number below `2^depth` as `depth` bits and reading the bits back
/// gives the number.
pub proof fn lemma_value_of_int_bits(num: nat, depth: nat)
    requires
        num < pow2(depth),
    ensures
        bits_value(int_bits(num, depth)) == num,
    decreases depth,
{
    if depth == 0 {
        lemma2_to64();
    } else {
        lemma_pow2_unfold(depth);
        lemma_value_of_int_bits(num / 2, (depth - 1) as nat);
        lemma_int_bits_len(num / 2, (depth - 1) as nat);
        let lower = int_bits(num / 2, (depth - 1) as nat);
        assert(int_bits(num, depth).drop_last() =~= lower);
    }
}

/// Taking the Gray code of a byte and decoding it gives the byte.
pub proof fn lemma_gray_then_binary(byte: u8)
    ensures
        binary_code(gray_code(byte)) == byte,
{
    assert(binary_code(gray_code(byte)) == byte) by (bit_vector);
}

/// Decoding a byte from Gray code and taking the Gray code of the result
/// gives the byte.
pub proof fn lemma_binary_then_gray(gray: u8)
    ensures
        gray_code(binary_code(gray)) == gray,
{
    assert(gray_code(binary_code(gray)) == gray) by (bit_vector);
}

/// Replacing one bit of a byte changes that bit and no other.
pub proof fn lemma_bit_of_with_bit(byte: u8, index: u8, val: bool, other: u8)
    requires
        index < 8,
        other < 8,
    ensures
        bit_of(with_bit(byte, index, val), other) == (if other == index {
            val
        } else {
            bit_of(byte, other)
        }),
{
    let s: u8 = (7 - index) as u8;
    let t: u8 = (7 - other) as u8;
    if val {
        assert(s < 8 && t < 8 ==> ((((byte | (1u8 << s)) >> t) & 1u8) != 0u8) == (if t == s {
            true
        } else {
            ((byte >> t) & 1u8) != 0u8
        })) by (bit_vector);
    } else {
        assert(s < 8 && t < 8 ==> ((((byte & !(1u8 << s)) >> t) & 1u8) != 0u8) == (if t == s {
            false
        } else {
            ((byte >> t) & 1u8) != 0u8
        })) by (bit_vector);
    }
}

/// Packs the bits `bits[start..end]` into a number, most significant first.
pub fn pack_bits(bits: &[bool], start: usize, end: usize) -> (num: u64)
    requires
        start <= end <= bits.len(),
        end - start <= 64,
    ensures
        num == bits_value(bits@.subrange(start as int, end as int)),
{
    let mut num: u64 = 0;
    let mut i: usize = start;
    while i < end
        invariant
            start <= i <= end <= bits.len(),
            end - start <= 64,
            num == bits_value(bits@.subrange(start as int, i as int)),
        decreases end - i,
    {
        let ghost before = bits@.subrange(start as int, i as int);
        let ghost after = bits@.subrange(start as int, i + 1);
        proof {
            lemma_bits_value_bound(before);
            lemma_bits_value_bound(after);
            lemma2_to64();
            if before.len() < 63 {
                lemma_pow2_strictly_increases(before.len(), 63);
            }
            if after.len() < 64 {
                lemma_pow2_strictly_increases(after.len(), 64);
            }
            assert(after.drop_last() =~= before);
            assert(after.last() == bits@[i as int]);
        }
        let prev: u64 = num;
        assert(prev < 0x8000_0000_0000_0000u64 ==> (prev << 1u64) == 2 * prev && ((prev << 1u64)
            | 1u64) == 2 * prev + 1) by (bit_vector);
        num <<= 1;
        if bits[i] {
            num |= 1;
        }
        i += 1;
    }
    num
}

/// Packs eight bits into a byte, most significant first.
pub fn bits_to_u8(bits: [bool; 8]) -> (byte: u8)
    ensures
        byte == bits_value(bits@),
{
    let num = pack_bits(bits.as_slice(), 0, 8);
    proof {
        assert(bits@.subrange(0, 8) =~= bits@);
        lemma_bits_value_bound(bits@);
        lemma2_to64();
    }
    num as u8
}

/// Packs thirty-two bits into a number, most significant first.
pub fn bits_to_u32(bits: [bool; 32]) -> (num: u32)
    ensures
        num == bits_value(bits@),
{
    let num = pack_bits(bits.as_slice(), 0, 32);
    proof {
        assert(bits@.subrange(0, 32) =~= bits@);
        lemma_bits_value_bound(bits@);
        lemma2_to64();
    }
    num as u32
}

/// Packs sixty-four bits into a number, most significant first.
pub fn bits_to_u64(bits: [bool; 64]) -> (num: u64)
    ensures
        num == bits_value(bits@),
{
    let num = pack_bits(bits.as_slice(), 0, 64);
    proof {
        assert(bits@.subrange(0, 64) =~= bits@);
    }
    num
}

/// Writes the `bit_depth` low bits of `num`, most significant first.
pub fn unsigned_int_to_bits(num: u64, bit_depth: usize) -> (bits: Vec<bool>)
    ensures
        bits@ == int_bits(num as nat, bit_depth as nat),
        bits@.len() == bit_depth,
        num < pow2(bit_depth as nat) ==> bits_value(bits@) == num,
{
    let mut bits: Vec<bool> = Vec::new();
    let mut filled: usize = 0;
    while filled < bit_depth
        invariant
            filled <= bit_depth,
            bits@.len() == filled,
            forall|j: int| 0 <= j < filled ==> !bits@[j],
        decreases bit_depth - filled,
    {
        bits.push(false);
        filled += 1;
    }
    let mut rest: u64 = num;
    let mut done: usize = 0;
    proof {
        lemma_int_bits_len(num as nat, bit_depth as nat);
        assert(int_bits(num as nat, bit_depth as nat) =~= int_bits(rest as nat, bit_depth as nat)
            + bits@.subrange(bit_depth as int, bit_depth as int));
    }
    while done < bit_depth
        invariant
            done <= bit_depth,
            bits@.len() == bit_depth,
            int_bits(num as nat, bit_depth as nat) == int_bits(
                rest as nat,
                (bit_depth - done) as nat,
            ) + bits@.subrange(bit_depth - done, bit_depth as int),
        decreases bit_depth - done,
    {
        let ghost old_bits = bits@;
        let at: usize = bit_depth - done - 1;
        bits[at] = rest % 2 == 1;
        proof {
            let shorter = int_bits((rest / 2) as nat, (bit_depth - done - 1) as nat);
            assert(int_bits(rest as nat, (bit_depth - done) as nat) == shorter.push(rest % 2 == 1));
            assert(shorter.push(rest % 2 == 1) + old_bits.subrange(
                bit_depth - done,
                bit_depth as int,
            ) =~= shorter + bits@.subrange(bit_depth - done - 1, bit_depth as int)) by {
                lemma_int_bits_len((rest / 2) as nat, (bit_depth - done - 1) as nat);
            }
        }
        rest = rest / 2;
        done += 1;
    }
    proof {
        assert(int_bits(rest as nat, 0) + bits@.subrange(0, bit_depth as int) =~= bits@);
        if num < pow2(bit_depth as nat) {
            lemma_value_of_int_bits(num as nat, bit_depth as nat);
        }
    }
    bits
}

/// Exclusive or of two bit sequences, position by position, as far as both
/// reach.
pub fn xor_bits(a: &[bool], b: &[bool]) -> (c: Vec<bool>)
    ensures
        c@ == xor_seq(a@, b@),
{
    let n: usize = if a.len() <= b.len() {
        a.len()
    } else {
        b.len()
    };
    let mut c: Vec<bool> = Vec::with_capacity(n);
    let mut i: usize = 0;
    while i < n
        invariant
            i <= n,
            n <= a.len(),
            n <= b.len(),
            c@.len() == i,
            forall|j: int| 0 <= j < i ==> c@[j] == (a@[j] != b@[j]),
        decreases n - i,
    {
        c.push(a[i] ^ b[i]);
        i += 1;
    }
    assert(c@ =~= xor_seq(a@, b@));
    c
}

/// Packs bits into bytes, eight to a byte and most significant first; a last
/// group of fewer than eight bits gives the number that those bits denote.
pub fn bits_to_bytes(bits: &[bool]) -> (bytes: Vec<u8>)
    ensures
        bytes@ == packed_bytes(bits@),
{
    let n: usize = bits.len();
    let total: usize = n / 8 + if n % 8 != 0 {
        1
    } else {
        0
    };
    let mut bytes: Vec<u8> = Vec::new();
    let mut k: usize = 0;
    while k < total
        invariant
            n == bits.len(),
            total == packed_len(n as nat),
            k <= total,
            bytes@.len() == k,
            forall|j: int| 0 <= j < k ==> bytes@[j] == packed_bytes(bits@)[j],
        decreases total - k,
    {
        let start: usize = k * 8;
        let end: usize = if n - start >= 8 {
            start + 8
        } else {
            n
        };
        let num = pack_bits(bits, start, end);
        proof {
            let group = bits@.subrange(start as int, end as int);
            assert(group =~= bit_group(bits@, k as int));
            lemma_bits_value_bound(group);
            lemma2_to64();
            if group.len() < 8 {
                lemma_pow2_strictly_increases(group.len(), 8);
            }
        }
        bytes.push(num as u8);
        k += 1;
    }
    assert(bytes@ =~= packed_bytes(bits@));
    bytes
}

/// `core::str::Utf8Error`, the error of bytes that are no UTF-8 text.
#[verifier::external_type_specification]
#[verifier::external_body]
pub struct ExUtf8Error(Utf8Error);

/// `core::str::from_utf8`: the bytes as text, exactly when they are valid
/// UTF-8; the text then has those bytes.
#[verifier::external_body]
fn str_from_utf8(bytes: &[u8]) -> (text: Result<&str, Utf8Error>)
    ensures
        text is Ok <==> valid_utf8(bytes@),
        text matches Ok(s) ==> s.spec_bytes() == bytes@,
{
    core::str::from_utf8(bytes)
}

/// The bytes as text, if they are valid UTF-8.
pub fn bytes_to_utf8(v: &Vec<u8>) -> (text: Result<&str, Utf8Error>)
    ensures
        text is Ok <==> valid_utf8(v@),
        text matches Ok(s) ==> s.spec_bytes() == v@,
{
    str_from_utf8(v.as_slice())
}

/// Bit `bit_index` of `byte`, where index 0 is the most significant bit.
pub fn get_bit_from_u8(byte: u8, bit_index: u8) -> (bit: bool)
    requires
        bit_index < 8,
    ensures
        bit == bit_of(byte, bit_index),
{
    ((byte >> (7 - bit_index)) & 1) != 0
}

/// `byte` with bit `bit_index` (0 is the most significant) replaced by `val`.
pub fn set_bit_in_u8(byte: u8, bit_index: u8, val: bool) -> (out: u8)
    requires
        bit_index < 8,
    ensures
        out == with_bit(byte, bit_index, val),
{
    if val {
        byte | (1u8 << (7 - bit_index))
    } else {
        byte & !(1u8 << (7 - bit_index))
    }
}

/// The Gray code of `byte`.
pub fn u8_to_gray_code(byte: u8) -> (gray: u8)
    ensures
        gray == gray_code(byte),
{
    byte ^ (byte >> 1)
}

/// The byte whose Gray code is `byte`.
pub fn u8_to_binary_code(byte: u8) -> (binary: u8)
    ensures
        binary == binary_code(byte),
{
    let mut mask: u8 = byte;
    let mut binary: u8 = byte;
    assert(byte ^ binary_code(byte >> 1u8) == binary_code(byte)) by (bit_vector);
    while mask != 0
        invariant
            binary ^ binary_code(mask >> 1u8) == binary_code(byte),
        decreases mask,
    {
        let prev_mask: u8 = mask;
        let prev_binary: u8 = binary;
        assert(prev_mask != 0 ==> (prev_mask >> 1u8) < prev_mask) by (bit_vector);
        assert((prev_binary ^ (prev_mask >> 1u8)) ^ binary_code((prev_mask >> 1u8) >> 1u8)
            == prev_binary ^ binary_code(prev_mask >> 1u8)) by (bit_vector);
        mask >>= 1;
        binary ^= mask;
    }
    assert(binary ^ binary_code(0u8 >> 1u8) == binary) by (bit_vector);
    binary
}

} // verus!
