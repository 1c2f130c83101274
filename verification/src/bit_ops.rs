//! Bit-level primitives: read or write an N-bit unsigned value at an
//! arbitrary bit offset within a byte buffer.
//!
//! Bit `i` of a stored value maps to buffer bit `offset + i`; absolute bit
//! position `p` lives in byte `p / 8` at in-byte position `p % 8`, counting
//! bits least-significant-first.

use vstd::prelude::*;
use vstd::arithmetic::power2::{pow2, lemma_pow2_adds, lemma2_to64};
use vstd::arithmetic::div_mod::lemma_mod_breakdown;

verus! {

/// The value of the bit at absolute position `pos` of a byte buffer.
pub open spec fn bit_at(bytes: Seq<u8>, pos: int) -> bool {
    ((bytes[pos / 8] >> ((pos % 8) as u8)) & 1u8) == 1u8
}

/// Bit `i` of a 64-bit value.
pub open spec fn val_bit(value: u64, i: int) -> bool {
    ((value >> (i as u64)) & 1u64) == 1u64
}

/// The unsigned value formed by the `width` buffer bits starting at
/// `offset`, least-significant bit first.
pub open spec fn bits_value(bytes: Seq<u8>, offset: int, width: nat) -> nat
    decreases width,
{
    if width == 0 {
        0
    } else {
        (if bit_at(bytes, offset) {
            1nat
        } else {
            0nat
        }) + 2 * bits_value(bytes, offset + 1, (width - 1) as nat)
    }
}

/// A range of buffer bits never encodes a value as large as `pow2(width)`.
pub proof fn lemma_bits_value_bound(bytes: Seq<u8>, offset: int, width: nat)
    ensures
        bits_value(bytes, offset, width) < pow2(width),
    decreases width,
{
    lemma2_to64();
    if width > 0 {
        lemma_bits_value_bound(bytes, offset + 1, (width - 1) as nat);
        lemma_pow2_adds(1, (width - 1) as nat);
    }
}

/// The value of a bit range depends only on the bits inside the range.
pub proof fn lemma_bits_value_congruence(b1: Seq<u8>, b2: Seq<u8>, offset: int, width: nat)
    requires
        forall|p: int| offset <= p < offset + width ==> bit_at(b1, p) == bit_at(b2, p),
    ensures
        bits_value(b1, offset, width) == bits_value(b2, offset, width),
    decreases width,
{
    if width > 0 {
        assert(bit_at(b1, offset) == bit_at(b2, offset));
        lemma_bits_value_congruence(b1, b2, offset + 1, (width - 1) as nat);
    }
}

proof fn lemma_val_bit_half(value: u64, i: u64, j: u64)
    by (bit_vector)
    requires
        i < 63,
        j == i + 1,
    ensures
        (((value >> 1u64) >> i) & 1u64) == ((value >> j) & 1u64),
{
}

proof fn lemma_val_low_facts(value: u64)
    by (bit_vector)
    ensures
        (((value >> 0u64) & 1u64) == 1u64) == (value % 2 == 1),
        value >> 1u64 == value / 2,
{
}

/// Bit round-trip: a buffer whose bits at `offset..offset + width` hold the
/// bits of `value` encodes exactly the low `width` bits of `value`; in
/// particular a value below `pow2(width)` is recovered unchanged.
pub proof fn lemma_bits_of_val(bytes: Seq<u8>, offset: int, width: nat, value: u64)
    requires
        width <= 64,
        forall|i: int| 0 <= i < width ==> bit_at(bytes, offset + i) == val_bit(value, i),
    ensures
        bits_value(bytes, offset, width) == (value as nat) % pow2(width),
        value < pow2(width) ==> bits_value(bytes, offset, width) == value,
    decreases width,
{
    lemma2_to64();
    if width == 0 {
        assert((value as nat) % 1nat == 0);
    } else {
        let half = value >> 1u64;
        assert forall|i: int| 0 <= i < width - 1 implies bit_at(bytes, offset + 1 + i) == val_bit(
            half,
            i,
        ) by {
            assert(bit_at(bytes, offset + (i + 1)) == val_bit(value, i + 1));
            lemma_val_bit_half(value, i as u64, (i + 1) as u64);
        }
        lemma_bits_of_val(bytes, offset + 1, (width - 1) as nat, half);
        lemma_val_low_facts(value);
        assert(bit_at(bytes, offset + 0) == val_bit(value, 0));
        lemma_pow2_adds(1, (width - 1) as nat);
        vstd::arithmetic::power2::lemma_pow2_pos((width - 1) as nat);
        lemma_mod_breakdown(value as int, 2, pow2((width - 1) as nat) as int);
        if value < pow2(width) {
            vstd::arithmetic::div_mod::lemma_small_mod(value as nat, pow2(width));
        }
    }
}

proof fn lemma_byte_or_bit(b: u8, s: u8, t: u8)
    by (bit_vector)
    requires
        s < 8,
        t < 8,
    ensures
        (((b | (1u8 << s)) >> t) & 1u8) == if t == s {
            1u8
        } else {
            (b >> t) & 1u8
        },
{
}

proof fn lemma_byte_clear_bit(b: u8, s: u8, t: u8)
    by (bit_vector)
    requires
        s < 8,
        t < 8,
    ensures
        (((b & !(1u8 << s)) >> t) & 1u8) == if t == s {
            0u8
        } else {
            (b >> t) & 1u8
        },
{
}

proof fn lemma_bit_le_one(b: u8)
    by (bit_vector)
    ensures
        (b & 1u8) == 0u8 || (b & 1u8) == 1u8,
{
}

proof fn lemma_byte_eq_from_bits(x: u8, y: u8)
    by (bit_vector)
    requires
        ((x >> 0u8) & 1u8) == ((y >> 0u8) & 1u8),
        ((x >> 1u8) & 1u8) == ((y >> 1u8) & 1u8),
        ((x >> 2u8) & 1u8) == ((y >> 2u8) & 1u8),
        ((x >> 3u8) & 1u8) == ((y >> 3u8) & 1u8),
        ((x >> 4u8) & 1u8) == ((y >> 4u8) & 1u8),
        ((x >> 5u8) & 1u8) == ((y >> 5u8) & 1u8),
        ((x >> 6u8) & 1u8) == ((y >> 6u8) & 1u8),
        ((x >> 7u8) & 1u8) == ((y >> 7u8) & 1u8),
    ensures
        x == y,
{
}

/// Two buffers that agree on all eight bits of byte `k` hold the same byte
/// there.
pub proof fn lemma_byte_from_bits(b1: Seq<u8>, b2: Seq<u8>, k: int)
    requires
        0 <= k < b1.len(),
        k < b2.len(),
        forall|t: int| 0 <= t < 8 ==> #[trigger] bit_at(b1, 8 * k + t) == bit_at(b2, 8 * k + t),
    ensures
        b1[k] == b2[k],
{
    assert forall|t: u8| t < 8 implies #[trigger] ((b1[k] >> t) & 1u8) == ((b2[k] >> t)
        & 1u8) by {
        let p = 8 * k + t as int;
        assert(p / 8 == k && p % 8 == t as int);
        assert(bit_at(b1, p) == bit_at(b2, p));
        lemma_bit_le_one(b1[k] >> t);
        lemma_bit_le_one(b2[k] >> t);
    }
    lemma_byte_eq_from_bits(b1[k], b2[k]);
}

/// Bytes whose bit positions lie entirely outside `[lo, hi)` are unchanged
/// wherever all bits outside that range are unchanged.
pub proof fn lemma_bytes_eq_outside_bit_range(b1: Seq<u8>, b2: Seq<u8>, lo: int, hi: int)
    requires
        b1.len() == b2.len(),
        forall|p: int|
            0 <= p < 8 * b1.len() && !(lo <= p < hi) ==> bit_at(b1, p) == bit_at(b2, p),
    ensures
        forall|k: int| 0 <= k < b1.len() && (8 * k + 8 <= lo || hi <= 8 * k) ==> b1[k] == b2[k],
{
    assert forall|k: int| 0 <= k < b1.len() && (8 * k + 8 <= lo || hi <= 8 * k) implies b1[k]
        == b2[k] by {
        assert forall|t: int| 0 <= t < 8 implies #[trigger] bit_at(b1, 8 * k + t) == bit_at(
            b2,
            8 * k + t,
        ) by {
            assert(0 <= 8 * k + t < 8 * b1.len());
            assert(!(lo <= 8 * k + t < hi));
        }
        lemma_byte_from_bits(b1, b2, k);
    }
}

/// Reads the `bit_width`-bit unsigned value stored at absolute bit position
/// `bit_offset` of `slice`.
pub fn get_bits(slice: &Vec<u8>, bit_offset: usize, bit_width: usize) -> (r: u64)
    requires
        bit_width <= 64,
        bit_offset + bit_width <= slice.len() * 8,
        bit_offset + bit_width <= usize::MAX,
    ensures
        r as nat == bits_value(slice@, bit_offset as int, bit_width as nat),
{
    let mut value: u64 = 0;
    let mut j: usize = bit_width;
    while j > 0
        invariant
            j <= bit_width <= 64,
            bit_offset + bit_width <= slice.len() * 8,
            bit_offset + bit_width <= usize::MAX,
            value as nat == bits_value(slice@, bit_offset + j as int, (bit_width - j) as nat),
        decreases j,
    {
        j = j - 1;
        let pos = bit_offset + j;
        assert(pos / 8 < slice.len()) by (nonlinear_arith)
            requires
                pos < slice.len() * 8,
        ;
        let byte_idx = pos / 8;
        let sh = (pos % 8) as u8;
        let bit = (slice[byte_idx] >> sh) & 1u8;
        proof {
            lemma_bit_le_one(slice@[byte_idx as int] >> sh);
            lemma_bits_value_bound(slice@, bit_offset + j + 1, (bit_width - j - 1) as nat);
            lemma2_to64();
            lemma_pow2_adds(1, (bit_width - j - 1) as nat);
            if bit_width - j < 64 {
                vstd::arithmetic::power2::lemma_pow2_strictly_increases(
                    (bit_width - j) as nat,
                    64nat,
                );
            }
            assert((bit == 1u8) == bit_at(slice@, pos as int));
        }
        value = value * 2 + (bit as u64);
    }
    value
}

/// Writes the low `bit_width` bits of `value` into `slice` starting at
/// absolute bit position `bit_offset`. Bits outside that range, and the
/// buffer's length, are untouched.
pub fn set_bits(slice: &mut Vec<u8>, bit_offset: usize, bit_width: usize, value: u64)
    requires
        bit_width <= 64,
        bit_offset + bit_width <= old(slice).len() * 8,
        bit_offset + bit_width <= usize::MAX,
    ensures
        final(slice).len() == old(slice).len(),
        forall|i: int|
            0 <= i < bit_width ==> bit_at(final(slice)@, bit_offset + i) == val_bit(value, i),
        forall|p: int|
            0 <= p < final(slice).len() * 8 && !(bit_offset <= p < bit_offset + bit_width)
                ==> bit_at(final(slice)@, p) == bit_at(old(slice)@, p),
{
    let mut i: usize = 0;
    while i < bit_width
        invariant
            i <= bit_width <= 64,
            bit_offset + bit_width <= slice.len() * 8,
            bit_offset + bit_width <= usize::MAX,
            slice.len() == old(slice).len(),
            forall|k: int| 0 <= k < i ==> bit_at(slice@, bit_offset + k) == val_bit(value, k),
            forall|p: int|
                0 <= p < slice.len() * 8 && !(bit_offset <= p < bit_offset + i) ==> bit_at(
                    slice@,
                    p,
                ) == bit_at(old(slice)@, p),
        decreases bit_width - i,
    {
        let pos = bit_offset + i;
        assert(pos / 8 < slice.len()) by (nonlinear_arith)
            requires
                pos < slice.len() * 8,
        ;
        let byte_idx = pos / 8;
        let sh = (pos % 8) as u8;
        let ghost prev = slice@;
        let bit = (value >> (i as u64)) & 1u64;
        if bit == 1 {
            let nb = slice[byte_idx] | (1u8 << sh);
            slice.set(byte_idx, nb);
        } else {
            let nb = slice[byte_idx] & !(1u8 << sh);
            slice.set(byte_idx, nb);
        }
        proof {
            let old_b = prev[byte_idx as int];
            assert forall|p: int|
                0 <= p < slice.len() * 8 && p != pos implies bit_at(slice@, p) == bit_at(
                prev,
                p,
            ) by {
                if p / 8 == byte_idx as int {
                    assert(p % 8 != pos as int % 8);
                    if bit == 1 {
                        lemma_byte_or_bit(old_b, sh, (p % 8) as u8);
                    } else {
                        lemma_byte_clear_bit(old_b, sh, (p % 8) as u8);
                    }
                } else {
                    assert(slice@[p / 8] == prev[p / 8]);
                }
            }
            if bit == 1 {
                lemma_byte_or_bit(old_b, sh, sh);
            } else {
                lemma_byte_clear_bit(old_b, sh, sh);
            }
            assert(bit_at(slice@, pos as int) == val_bit(value, i as int));
        }
        i = i + 1;
    }
}

} // verus!
