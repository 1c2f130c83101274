//! Growable arrays of fixed-width (1–32 bit) unsigned integers, packed
//! contiguously into a byte buffer behind a small persisted header.
//!
//! The persisted layout is, little-endian: a 4-byte magic tag, the element
//! bit width as a `u32`, the element count as a `u32`, then
//! `ceil(count * width / 8)` bytes of packed data.

use vstd::prelude::*;
use vstd::arithmetic::power2::{pow2, lemma2_to64, lemma_pow2_strictly_increases};
use vstd::arithmetic::div_mod::lemma_fundamental_div_mod;
use vstd::arithmetic::mul::lemma_mul_inequality;
use vstd::bytes::{
    spec_u32_from_le_bytes, spec_u32_to_le_bytes, u32_from_le_bytes, u32_to_le_bytes,
    lemma_auto_spec_u32_to_from_le_bytes,
};
use crate::bit_ops::{
    bit_at, bits_value, set_bits, get_bits, lemma_bits_value_bound, lemma_bits_value_congruence,
    lemma_bits_of_val, lemma_bytes_eq_outside_bit_range,
};
use crate::error::PackedBitsError;

verus! {

/// Size in bytes of the persisted header: magic tag, bit width, count.
pub const HEADER_SIZE: usize = 12;

/// The magic tag that opens every persisted packed bit-array.
pub open spec fn magic_bytes() -> Seq<u8> {
    seq![0x50u8, 0x4Bu8, 0x42u8, 0x54u8]
}

/// Element index within a packed array.
#[derive(Copy, Clone, Debug, PartialEq, Eq, Structural)]
pub struct ElemIndex(pub usize);

/// Absolute bit position within a storage buffer.
#[derive(Copy, Clone, Debug, PartialEq, Eq, Structural)]
pub struct BitIndex(pub usize);

impl BitIndex {
    /// The wrapped bit position.
    pub fn get(self) -> (r: usize)
        ensures
            r == self.0,
    {
        self.0
    }
}

/// Validates the element bit width `N`.
pub fn validate_n<const N: usize>() -> (r: Result<(), PackedBitsError>)
    ensures
        r is Ok <==> 1 <= N <= 32,
        r is Err ==> r == Err::<(), PackedBitsError>(PackedBitsError::InvalidBitWidth(N)),
{
    if 1 <= N && N <= 32 {
        Ok(())
    } else {
        Err(PackedBitsError::InvalidBitWidth(N))
    }
}

/// A persistent packed bit-array holding `N`-bit unsigned values.
///
/// The abstract value of a container is the sequence of stored elements;
/// its storage buffer always carries a self-describing header so that it
/// can be persisted and reloaded with validation.
#[derive(Debug)]
pub struct PackedBitsContainer<const N: usize> {
    pub storage: Vec<u8>,
    pub len: usize,
}

/// The element sequence that a persisted buffer encodes for bit width `n`,
/// or `None` where the header does not check out: too short, wrong magic,
/// wrong width, or too few data bytes for the declared count.
pub open spec fn decode_storage(bytes: Seq<u8>, n: nat) -> Option<Seq<u32>> {
    if 1 <= n <= 32 && bytes.len() >= HEADER_SIZE && bytes.subrange(0, 4) == magic_bytes()
        && spec_u32_from_le_bytes(bytes.subrange(4, 8)) == n && bytes.len() >= HEADER_SIZE + (
    spec_u32_from_le_bytes(bytes.subrange(8, 12)) * n + 7) / 8 {
        Some(
            Seq::new(
                spec_u32_from_le_bytes(bytes.subrange(8, 12)) as nat,
                |i: int| bits_value(bytes, 8 * HEADER_SIZE + i * n, n) as u32,
            ),
        )
    } else {
        None
    }
}

impl<const N: usize> PackedBitsContainer<N> {
    /// The absolute bit position of element `i` within storage.
    pub open spec fn elem_bit_pos(i: int) -> int {
        8 * HEADER_SIZE + i * N
    }

    /// Well-formedness: a valid width, a header that describes the contents,
    /// and a buffer large enough for every stored element.
    pub open spec fn wf(self) -> bool {
        &&& 1 <= N <= 32
        &&& self.len <= u32::MAX
        &&& 8 * self.storage.len() <= usize::MAX
        &&& self.storage.len() >= HEADER_SIZE + (self.len * N + 7) / 8
        &&& self.storage@.subrange(0, 4) == magic_bytes()
        &&& spec_u32_from_le_bytes(self.storage@.subrange(4, 8)) == N
        &&& spec_u32_from_le_bytes(self.storage@.subrange(8, 12)) == self.len
    }

    /// The stored element at position `i`.
    pub open spec fn spec_value_at(self, i: int) -> u32 {
        bits_value(self.storage@, Self::elem_bit_pos(i), N as nat) as u32
    }
}

impl<const N: usize> View for PackedBitsContainer<N> {
    type V = Seq<u32>;

    open spec fn view(&self) -> Seq<u32> {
        Seq::new(self.len as nat, |i: int| self.spec_value_at(i))
    }
}

/// Ceiling division by 8 stays within 7 of the dividend.
proof fn lemma_ceil8(x: int)
    requires
        x >= 0,
    ensures
        x <= 8 * ((x + 7) / 8) <= x + 7,
{
    lemma_fundamental_div_mod(x + 7, 8);
}

impl<const N: usize> PackedBitsContainer<N> {
    /// Writes the header (magic, width, count) into the first bytes of a
    /// storage buffer, leaving all other bytes alone.
    fn write_header(storage: &mut Vec<u8>, len: u32)
        requires
            old(storage).len() >= HEADER_SIZE,
            1 <= N <= 32,
        ensures
            final(storage).len() == old(storage).len(),
            final(storage)@.subrange(0, 4) == magic_bytes(),
            spec_u32_from_le_bytes(final(storage)@.subrange(4, 8)) == N,
            spec_u32_from_le_bytes(final(storage)@.subrange(8, 12)) == len,
            forall|k: int|
                HEADER_SIZE <= k < final(storage).len() ==> final(storage)@[k] == old(storage)@[k],
    {
        proof {
            lemma_auto_spec_u32_to_from_le_bytes();
        }
        storage.set(0, 0x50u8);
        storage.set(1, 0x4Bu8);
        storage.set(2, 0x42u8);
        storage.set(3, 0x54u8);
        let nb = u32_to_le_bytes(N as u32);
        storage.set(4, nb[0]);
        storage.set(5, nb[1]);
        storage.set(6, nb[2]);
        storage.set(7, nb[3]);
        let lb = u32_to_le_bytes(len);
        storage.set(8, lb[0]);
        storage.set(9, lb[1]);
        storage.set(10, lb[2]);
        storage.set(11, lb[3]);
        proof {
            assert(storage@.subrange(0, 4) =~= magic_bytes());
            assert(storage@.subrange(4, 8) =~= spec_u32_to_le_bytes(N as u32));
            assert(storage@.subrange(8, 12) =~= spec_u32_to_le_bytes(len));
        }
    }

    /// Rewrites only the count field of the header.
    fn update_len_in_header(&mut self)
        requires
            old(self).storage.len() >= HEADER_SIZE,
            old(self).len <= u32::MAX,
        ensures
            final(self).storage.len() == old(self).storage.len(),
            final(self).len == old(self).len,
            spec_u32_from_le_bytes(final(self).storage@.subrange(8, 12)) == final(self).len,
            forall|k: int|
                0 <= k < final(self).storage.len() && !(8 <= k < HEADER_SIZE)
                    ==> final(self).storage@[k] == old(self).storage@[k],
    {
        proof {
            lemma_auto_spec_u32_to_from_le_bytes();
        }
        let lb = u32_to_le_bytes(self.len as u32);
        self.storage.set(8, lb[0]);
        self.storage.set(9, lb[1]);
        self.storage.set(10, lb[2]);
        self.storage.set(11, lb[3]);
        proof {
            assert(self.storage@.subrange(8, 12) =~= spec_u32_to_le_bytes(old(self).len as u32));
        }
    }

    /// Creates a new, empty in-memory container: exactly the header bytes,
    /// count zero.
    pub fn new_in_memory() -> (r: Result<Self, PackedBitsError>)
        ensures
            match r {
                Ok(c) => {
                    &&& c.wf()
                    &&& c@ =~= Seq::<u32>::empty()
                    &&& 1 <= N <= 32
                    &&& c.storage@ =~= magic_bytes() + spec_u32_to_le_bytes(N as u32)
                        + spec_u32_to_le_bytes(0u32)
                },
                Err(e) => e == PackedBitsError::InvalidBitWidth(N) && !(1 <= N <= 32),
            },
    {
        validate_n::<N>()?;
        let mut storage: Vec<u8> = vec![0u8; HEADER_SIZE];
        Self::write_header(&mut storage, 0);
        let r = Self { storage, len: 0 };
        proof {
            lemma_auto_spec_u32_to_from_le_bytes();
            assert(r.storage@.subrange(4, 8).len() == 4 && r.storage@.subrange(8, 12).len() == 4);
            assert(r.storage@.subrange(4, 8) == spec_u32_to_le_bytes(N as u32));
            assert(r.storage@.subrange(8, 12) == spec_u32_to_le_bytes(0u32));
        }
        Ok(r)
    }

    /// Creates an empty container whose data region is pre-sized for
    /// `capacity` elements.
    pub fn with_capacity(capacity: usize) -> (r: Result<Self, PackedBitsError>)
        requires
            8 * HEADER_SIZE + capacity * N + 7 <= usize::MAX,
        ensures
            match r {
                Ok(c) => {
                    &&& c.wf()
                    &&& c@ =~= Seq::<u32>::empty()
                    &&& 1 <= N <= 32
                    &&& c.storage.len() == HEADER_SIZE + (capacity * N + 7) / 8
                    &&& 8 * (c.storage.len() - HEADER_SIZE) >= capacity * N
                },
                Err(e) => e == PackedBitsError::InvalidBitWidth(N) && !(1 <= N <= 32),
            },
    {
        validate_n::<N>()?;
        let data_bytes = (capacity * N + 7) / 8;
        let total_bytes = HEADER_SIZE + data_bytes;
        proof {
            lemma_ceil8((capacity * N) as int);
        }
        let mut storage: Vec<u8> = vec![0u8; total_bytes];
        Self::write_header(&mut storage, 0);
        let r = Self { storage, len: 0 };
        proof {
            lemma_auto_spec_u32_to_from_le_bytes();
        }
        Ok(r)
    }

    /// The number of stored elements.
    pub fn len(&self) -> (r: usize)
        ensures
            r == self@.len(),
    {
        self.len
    }

    /// True when no element is stored.
    pub fn is_empty(&self) -> (r: bool)
        ensures
            r == (self@.len() == 0),
    {
        self.len == 0
    }

    /// The underlying storage buffer, header included, ready to persist.
    pub fn storage(&self) -> (r: &Vec<u8>)
        ensures
            r@ == self.storage@,
    {
        &self.storage
    }

    /// Whether one more element fits the count field and the address space.
    pub open spec fn can_push(self) -> bool {
        &&& self.len < u32::MAX
        &&& 8 * HEADER_SIZE + (self.len + 1) * N + 7 <= usize::MAX
    }

    /// The largest value that fits in `N` bits.
    fn width_max() -> (m: u32)
        requires
            1 <= N <= 32,
        ensures
            m as nat == pow2(N as nat) - 1,
    {
        proof {
            lemma2_to64();
        }
        if N == 32 {
            u32::MAX
        } else {
            proof {
                vstd::bits::lemma_u32_shl_is_mul(1u32, N as u32);
                if (N as nat) < 31 {
                    lemma_pow2_strictly_increases(N as nat, 31);
                }
            }
            (1u32 << (N as u32)) - 1
        }
    }

    /// Appends `value` to the end of the array, growing the buffer as
    /// needed and never shrinking it. Fails exactly when the value does not
    /// fit in `N` bits, or when the element count or the address space is
    /// exhausted.
    pub fn push(&mut self, value: u32) -> (r: Result<(), PackedBitsError>)
        requires
            old(self).wf(),
        ensures
            final(self).wf(),
            final(self).storage.len() >= old(self).storage.len(),
            match r {
                Ok(()) => {
                    &&& (value as nat) < pow2(N as nat)
                    &&& old(self).can_push()
                    &&& final(self)@ =~= old(self)@.push(value)
                },
                Err(e) => {
                    &&& final(self)@ =~= old(self)@
                    &&& final(self).storage@ == old(self).storage@
                    &&& if (value as nat) >= pow2(N as nat) {
                        e == PackedBitsError::ValueOverflow(value, N)
                    } else {
                        e == PackedBitsError::ResizeFailed && !old(self).can_push()
                    }
                },
            },
    {
        let max_val = Self::width_max();
        if value > max_val {
            return Err(PackedBitsError::ValueOverflow(value, N));
        }
        if self.len >= u32::MAX as usize {
            return Err(PackedBitsError::ResizeFailed);
        }
        let next_len = self.len + 1;
        let grown_bits = match next_len.checked_mul(N) {
            Some(b) => b,
            None => {
                return Err(PackedBitsError::ResizeFailed);
            },
        };
        if grown_bits > usize::MAX - 8 * HEADER_SIZE - 7 {
            return Err(PackedBitsError::ResizeFailed);
        }
        let ghost s0 = self.storage@;
        let ghost old_len = self.len as int;
        let wpos = 8 * HEADER_SIZE + self.len * N;
        proof {
            lemma_ceil8(old_len * N);
            lemma_mul_inequality(old_len, old_len + 1, N as int);
            lemma_mul_succ(old_len, N as int);
        }
        // Grow the buffer, byte at a time, up to what the new element needs.
        let required = HEADER_SIZE + (grown_bits + 7) / 8;
        while self.storage.len() < required
            invariant
                s0.len() <= self.storage.len() <= s0.len() + required,
                self.storage.len() <= required || self.storage.len() == s0.len(),
                self.storage@.subrange(0, s0.len() as int) =~= s0,
                required == HEADER_SIZE + (grown_bits + 7) / 8,
            decreases required - self.storage.len(),
        {
            self.storage.push(0u8);
            proof {
                assert(self.storage@.subrange(0, s0.len() as int) =~= s0);
            }
        }
        let ghost s1 = self.storage@;
        proof {
            lemma_ceil8(grown_bits as int);
            assert(8 * self.storage.len() <= usize::MAX);
            assert(wpos + N <= 8 * self.storage.len());
        }
        set_bits(&mut self.storage, wpos, N, value as u64);
        let ghost s2 = self.storage@;
        self.len = next_len;
        self.update_len_in_header();
        let ghost s3 = self.storage@;
        proof {
            lemma_auto_spec_u32_to_from_le_bytes();
            lemma2_to64();
            // Bits below the write position survive every step.
            assert forall|p: int| 96 <= p < wpos implies bit_at(s3, p) == bit_at(s0, p) by {
                lemma_div8_lt(p, s0.len() as int);
                lemma_div8_ge(p);
                assert(s1[p / 8] == s0[p / 8]);
                assert(bit_at(s1, p) == bit_at(s0, p));
                assert(bit_at(s2, p) == bit_at(s1, p));
                assert(s3[p / 8] == s2[p / 8]);
                assert(bit_at(s3, p) == bit_at(s2, p));
            }
            // The header bytes see only the count change.
            lemma_bytes_eq_outside_bit_range(s1, s2, wpos as int, wpos + N);
            assert forall|k: int| 0 <= k < 8 implies s3[k] == s0[k] by {
                assert(s1[k] == s0[k]);
                assert(s2[k] == s1[k]);
            }
            assert(s3.subrange(0, 4) =~= s0.subrange(0, 4));
            assert(s3.subrange(4, 8) =~= s0.subrange(4, 8));
            assert(final(self).wf());
            // Existing elements decode unchanged; the new one decodes to
            // `value`.
            assert forall|i: int| 0 <= i < old_len implies final(self).spec_value_at(i)
                == old(self).spec_value_at(i) by {
                lemma_mul_inequality(i + 1, old_len, N as int);
                lemma_mul_succ(i, N as int);
                assert forall|p: int|
                    Self::elem_bit_pos(i) <= p < Self::elem_bit_pos(i) + N implies bit_at(s3, p)
                    == bit_at(s0, p) by {
                    assert(96 <= p < wpos);
                }
                lemma_bits_value_congruence(s3, s0, Self::elem_bit_pos(i), N as nat);
            }
            assert forall|p: int| wpos <= p < wpos + N implies bit_at(s3, p) == bit_at(
                s2,
                p,
            ) by {
                lemma_div8_ge(p);
                assert(s3[p / 8] == s2[p / 8]);
            }
            lemma_bits_value_congruence(s3, s2, wpos as int, N as nat);
            lemma_bits_of_val(s2, wpos as int, N as nat, value as u64);
            assert(final(self).spec_value_at(old_len) == value);
        }
        Ok(())
    }

    /// The element at `index`, or `None` at or past the element count.
    pub fn get(&self, index: usize) -> (r: Option<u32>)
        requires
            self.wf(),
        ensures
            r == if index < self@.len() {
                Some(self@[index as int])
            } else {
                None::<u32>
            },
    {
        if index >= self.len {
            return None;
        }
        proof {
            lemma_mul_inequality(index as int, self.len as int, N as int);
            lemma_mul_inequality(index + 1, self.len as int, N as int);
            lemma_ceil8(self.len as int * N);
            lemma_bits_value_bound(self.storage@, Self::elem_bit_pos(index as int), N as nat);
            lemma2_to64();
            if (N as nat) < 32 {
                lemma_pow2_strictly_increases(N as nat, 32);
            }
            assert((index as int) * N + N <= self.len as int * N);
            assert(8 * (HEADER_SIZE + (self.len as int * N + 7) / 8) <= 8 * self.storage.len());
            assert(8 * HEADER_SIZE + self.len as int * N <= 8 * self.storage.len());
        }
        let bit_pos = index * N;
        let raw = get_bits(&self.storage, HEADER_SIZE * 8 + bit_pos, N);
        Some(raw as u32)
    }

    /// Overwrites the element at `index` in place. Fails exactly when the
    /// index is out of bounds or the value does not fit in `N` bits.
    pub fn set(&mut self, index: usize, value: u32) -> (r: Result<(), PackedBitsError>)
        requires
            old(self).wf(),
        ensures
            final(self).wf(),
            match r {
                Ok(()) => {
                    &&& index < old(self)@.len()
                    &&& (value as nat) < pow2(N as nat)
                    &&& final(self)@ =~= old(self)@.update(index as int, value)
                },
                Err(e) => {
                    &&& final(self)@ =~= old(self)@
                    &&& final(self).storage@ == old(self).storage@
                    &&& if index >= old(self)@.len() {
                        e == PackedBitsError::IndexOutOfBounds(index, old(self).len)
                    } else {
                        e == PackedBitsError::ValueOverflow(value, N) && (value as nat) >= pow2(
                            N as nat,
                        )
                    }
                },
            },
    {
        if index >= self.len {
            return Err(PackedBitsError::IndexOutOfBounds(index, self.len));
        }
        let max_val = Self::width_max();
        if value > max_val {
            return Err(PackedBitsError::ValueOverflow(value, N));
        }
        let ghost s0 = self.storage@;
        proof {
            lemma_mul_inequality(index as int, self.len as int, N as int);
            lemma_mul_inequality(index + 1, self.len as int, N as int);
            lemma_mul_succ(index as int, N as int);
            lemma_ceil8(self.len as int * N);
            lemma2_to64();
        }
        let wpos = HEADER_SIZE * 8 + index * N;
        set_bits(&mut self.storage, wpos, N, value as u64);
        let ghost s2 = self.storage@;
        proof {
            lemma_bytes_eq_outside_bit_range(s0, s2, wpos as int, wpos + N);
            assert(s2.subrange(0, 4) =~= s0.subrange(0, 4));
            assert(s2.subrange(4, 8) =~= s0.subrange(4, 8));
            assert(s2.subrange(8, 12) =~= s0.subrange(8, 12));
            assert(final(self).wf());
            assert forall|i: int| 0 <= i < self.len && i != index implies final(self)
                .spec_value_at(i) == old(self).spec_value_at(i) by {
                lemma_mul_inequality(i + 1, self.len as int, N as int);
                lemma_mul_succ(i, N as int);
                assert forall|p: int|
                    Self::elem_bit_pos(i) <= p < Self::elem_bit_pos(i) + N implies bit_at(s2, p)
                    == bit_at(s0, p) by {
                    if i < index {
                        lemma_mul_inequality(i + 1, index as int, N as int);
                        assert(p < wpos);
                    } else {
                        lemma_mul_inequality(index + 1, i, N as int);
                        assert(p >= wpos + N);
                    }
                }
                lemma_bits_value_congruence(s2, s0, Self::elem_bit_pos(i), N as nat);
            }
            lemma_bits_of_val(s2, wpos as int, N as nat, value as u64);
            assert(final(self).spec_value_at(index as int) == value);
        }
        Ok(())
    }
}

impl<const N: usize> PackedBitsContainer<N> {
    /// Reconstructs a container from a persisted storage buffer, validating
    /// the magic tag, the stored bit width and the buffer size. A buffer
    /// persisted with a different width is rejected, never reinterpreted.
    pub fn from_storage(storage: Vec<u8>) -> (r: Result<Self, PackedBitsError>)
        ensures
            r is Ok <==> (decode_storage(storage@, N as nat) is Some && 8 * storage.len()
                <= usize::MAX),
            match r {
                Ok(c) => {
                    &&& c.wf()
                    &&& c.storage@ == storage@
                    &&& Some(c@) == decode_storage(storage@, N as nat)
                },
                Err(e) => if !(1 <= N <= 32) {
                    e == PackedBitsError::InvalidBitWidth(N)
                } else if storage.len() < HEADER_SIZE {
                    e == PackedBitsError::StorageTooSmall
                } else if storage@.subrange(0, 4) != magic_bytes() {
                    e == PackedBitsError::InvalidMagic
                } else if spec_u32_from_le_bytes(storage@.subrange(4, 8)) != N {
                    e == PackedBitsError::InvalidN {
                        expected: N,
                        found: spec_u32_from_le_bytes(storage@.subrange(4, 8)),
                    }
                } else {
                    e == PackedBitsError::InsufficientBytes(
                        spec_u32_from_le_bytes(storage@.subrange(8, 12)) as usize,
                    )
                },
            },
    {
        validate_n::<N>()?;
        if storage.len() < HEADER_SIZE {
            return Err(PackedBitsError::StorageTooSmall);
        }
        let s = storage.as_slice();
        let m0 = s[0];
        let m1 = s[1];
        let m2 = s[2];
        let m3 = s[3];
        if !(m0 == 0x50 && m1 == 0x4B && m2 == 0x42 && m3 == 0x54) {
            proof {
                assert(storage@.subrange(0, 4) != magic_bytes()) by {
                    if storage@.subrange(0, 4) == magic_bytes() {
                        assert(storage@.subrange(0, 4)[0] == 0x50u8);
                        assert(storage@.subrange(0, 4)[1] == 0x4Bu8);
                        assert(storage@.subrange(0, 4)[2] == 0x42u8);
                        assert(storage@.subrange(0, 4)[3] == 0x54u8);
                    }
                }
            }
            return Err(PackedBitsError::InvalidMagic);
        }
        proof {
            assert(storage@.subrange(0, 4) =~= magic_bytes());
        }
        let stored_n = u32_from_le_bytes(&s[4..8]);
        if stored_n as usize != N {
            return Err(PackedBitsError::InvalidN { expected: N, found: stored_n });
        }
        let stored_len = u32_from_le_bytes(&s[8..12]);
        let len = stored_len as usize;
        proof {
            assert((stored_len as int) * (N as int) <= 0xFFFF_FFFF * 32) by (nonlinear_arith)
                requires
                    stored_len <= u32::MAX,
                    N <= 32,
            ;
        }
        let need_bits: u64 = (stored_len as u64) * (N as u64);
        let need_bytes: u64 = (HEADER_SIZE as u64) + (need_bits + 7) / 8;
        if (storage.len() as u64) < need_bytes || storage.len() > usize::MAX / 8 {
            return Err(PackedBitsError::InsufficientBytes(len));
        }
        let r = Self { storage, len };
        proof {
            assert(r.wf());
            assert(decode_storage(r.storage@, N as nat)->Some_0 =~= r@);
        }
        Ok(r)
    }

    /// Resets the element count to zero and truncates the buffer to
    /// exactly the header, which stays valid for persistence.
    pub fn clear(&mut self) -> (r: Result<(), PackedBitsError>)
        requires
            old(self).wf(),
        ensures
            final(self).wf(),
            final(self)@ =~= Seq::<u32>::empty(),
            final(self).storage@ =~= magic_bytes() + spec_u32_to_le_bytes(N as u32)
                + spec_u32_to_le_bytes(0u32),
            r is Ok,
    {
        self.len = 0;
        let mut storage: Vec<u8> = vec![0u8; HEADER_SIZE];
        Self::write_header(&mut storage, 0);
        self.storage = storage;
        proof {
            lemma_auto_spec_u32_to_from_le_bytes();
            assert(self.storage@.subrange(4, 8).len() == 4 && self.storage@.subrange(8, 12).len()
                == 4);
            assert(self.storage@.subrange(4, 8) == spec_u32_to_le_bytes(N as u32));
            assert(self.storage@.subrange(8, 12) == spec_u32_to_le_bytes(0u32));
        }
        Ok(())
    }

    /// How many elements the current buffer can hold without growing.
    pub fn capacity(&self) -> (r: usize)
        requires
            self.wf(),
        ensures
            r as int == 8 * (self.storage.len() - HEADER_SIZE) / (N as int),
    {
        let data_bytes = self.storage.len() - HEADER_SIZE;
        (data_bytes * 8) / N
    }

    /// All stored elements, in order.
    pub fn iter(&self) -> (r: Vec<u32>)
        requires
            self.wf(),
        ensures
            r@ == self@,
    {
        let mut out: Vec<u32> = Vec::new();
        let mut i: usize = 0;
        while i < self.len
            invariant
                self.wf(),
                i <= self.len,
                out@ =~= self@.subrange(0, i as int),
            decreases self.len - i,
        {
            let v = self.get(i).unwrap();
            out.push(v);
            i = i + 1;
        }
        proof {
            assert(out@ =~= self@);
        }
        out
    }

    /// The absolute bit position of element `index` in storage.
    pub fn data_bit_offset_static(index: usize) -> (r: usize)
        requires
            8 * HEADER_SIZE + index * N <= usize::MAX,
        ensures
            r == Self::elem_bit_pos(index as int),
    {
        HEADER_SIZE * 8 + index * N
    }
}

/// Persistence round-trip: the storage buffer of any well-formed container
/// decodes, at the same width, to exactly the container's element sequence.
pub proof fn lemma_storage_roundtrip<const N: usize>(c: PackedBitsContainer<N>)
    requires
        c.wf(),
    ensures
        decode_storage(c.storage@, N as nat) == Some(c@),
{
    assert(decode_storage(c.storage@, N as nat) is Some);
    assert(decode_storage(c.storage@, N as nat)->Some_0 =~= c@);
}

/// A simple in-memory packed array of `N`-bit values without a persisted
/// header: just the packed data bytes and a count.
#[derive(Debug)]
pub struct PackedBits<const N: usize> {
    pub data: Vec<u8>,
    pub len: usize,
}

impl<const N: usize> PackedBits<N> {
    /// The absolute bit position of element `i`.
    pub open spec fn bit_pos(i: int) -> int {
        i * N
    }

    /// Well-formedness: a valid width and a buffer that covers every
    /// stored element.
    pub open spec fn wf(self) -> bool {
        &&& 1 <= N <= 32
        &&& 8 * self.data.len() <= usize::MAX
        &&& self.data.len() >= (self.len * N + 7) / 8
    }

    /// The stored element at position `i`.
    pub open spec fn spec_value_at(self, i: int) -> u32 {
        bits_value(self.data@, Self::bit_pos(i), N as nat) as u32
    }

    /// Whether one more element fits the address space.
    pub open spec fn can_push(self) -> bool {
        (self.len + 1) * N + 7 <= usize::MAX
    }

    /// Creates an empty packed array.
    pub fn new() -> (r: Self)
        requires
            1 <= N <= 32,
        ensures
            r.wf(),
            r@ =~= Seq::<u32>::empty(),
    {
        PackedBits { data: Vec::new(), len: 0 }
    }

    /// Creates an empty packed array pre-sized for `capacity` elements.
    pub fn with_capacity(capacity: usize) -> (r: Self)
        requires
            1 <= N <= 32,
            capacity * N + 7 <= usize::MAX,
        ensures
            r.wf(),
            r@ =~= Seq::<u32>::empty(),
    {
        let bytes = (capacity * N + 7) / 8;
        proof {
            lemma_ceil8((capacity * N) as int);
        }
        PackedBits { data: vec![0u8; bytes], len: 0 }
    }

    /// The number of stored elements.
    pub fn len(&self) -> (r: usize)
        ensures
            r == self@.len(),
    {
        self.len
    }

    /// True when no element is stored.
    pub fn is_empty(&self) -> (r: bool)
        ensures
            r == (self@.len() == 0),
    {
        self.len == 0
    }

    /// The packed data bytes.
    pub fn as_bytes(&self) -> (r: &Vec<u8>)
        ensures
            r@ == self.data@,
    {
        &self.data
    }

    /// How many elements the current buffer can hold without growing.
    pub fn capacity(&self) -> (r: usize)
        requires
            self.wf(),
        ensures
            r as int == 8 * self.data.len() as int / (N as int),
    {
        (self.data.len() * 8) / N
    }

    /// Appends a value. Fails exactly when the value does not fit in `N`
    /// bits, or when the address space is exhausted.
    pub fn push(&mut self, value: u32) -> (r: Result<(), PackedBitsError>)
        requires
            old(self).wf(),
        ensures
            final(self).wf(),
            match r {
                Ok(()) => {
                    &&& (value as nat) < pow2(N as nat)
                    &&& old(self).can_push()
                    &&& final(self)@ =~= old(self)@.push(value)
                },
                Err(e) => {
                    &&& final(self)@ =~= old(self)@
                    &&& final(self).data@ == old(self).data@
                    &&& if (value as nat) >= pow2(N as nat) {
                        e == PackedBitsError::ValueOverflow(value, N)
                    } else {
                        e == PackedBitsError::ResizeFailed && !old(self).can_push()
                    }
                },
            },
    {
        let max_val = Self::width_max_bits();
        if value > max_val {
            return Err(PackedBitsError::ValueOverflow(value, N));
        }
        if self.len == usize::MAX {
            proof {
                assert((self.len + 1) * N >= self.len + 1) by (nonlinear_arith)
                    requires
                        N >= 1,
                        self.len >= 0,
                ;
            }
            return Err(PackedBitsError::ResizeFailed);
        }
        let next_len = self.len + 1;
        let grown_bits = match next_len.checked_mul(N) {
            Some(b) => b,
            None => {
                return Err(PackedBitsError::ResizeFailed);
            },
        };
        if grown_bits > usize::MAX - 7 {
            return Err(PackedBitsError::ResizeFailed);
        }
        let ghost s0 = self.data@;
        let ghost old_len = self.len as int;
        let wpos = self.len * N;
        proof {
            lemma_ceil8(old_len * N);
            lemma_mul_inequality(old_len, old_len + 1, N as int);
            lemma_mul_succ(old_len, N as int);
        }
        let required = (grown_bits + 7) / 8;
        while self.data.len() < required
            invariant
                s0.len() <= self.data.len() <= s0.len() + required,
                self.data.len() <= required || self.data.len() == s0.len(),
                self.data@.subrange(0, s0.len() as int) =~= s0,
                required == (grown_bits + 7) / 8,
            decreases required - self.data.len(),
        {
            self.data.push(0u8);
            proof {
                assert(self.data@.subrange(0, s0.len() as int) =~= s0);
            }
        }
        let ghost s1 = self.data@;
        proof {
            lemma_ceil8(grown_bits as int);
            assert(8 * self.data.len() <= usize::MAX);
            assert(wpos + N <= 8 * self.data.len());
        }
        set_bits(&mut self.data, wpos, N, value as u64);
        let ghost s2 = self.data@;
        self.len = next_len;
        proof {
            lemma2_to64();
            assert forall|i: int| 0 <= i < old_len implies final(self).spec_value_at(i) == old(
                self,
            ).spec_value_at(i) by {
                lemma_mul_inequality(i + 1, old_len, N as int);
                lemma_mul_succ(i, N as int);
                assert forall|p: int| Self::bit_pos(i) <= p < Self::bit_pos(i) + N implies bit_at(
                    s2,
                    p,
                ) == bit_at(s0, p) by {
                    lemma_div8_lt(p, s0.len() as int);
                    assert(s1[p / 8] == s0[p / 8]);
                    assert(bit_at(s1, p) == bit_at(s0, p));
                    assert(p < wpos);
                }
                lemma_bits_value_congruence(s2, s0, Self::bit_pos(i), N as nat);
            }
            lemma_bits_of_val(s2, wpos as int, N as nat, value as u64);
            assert(final(self).spec_value_at(old_len) == value);
        }
        Ok(())
    }

    /// The element at `index`, or `None` at or past the element count.
    pub fn get(&self, index: usize) -> (r: Option<u32>)
        requires
            self.wf(),
        ensures
            r == if index < self@.len() {
                Some(self@[index as int])
            } else {
                None::<u32>
            },
    {
        if index >= self.len {
            return None;
        }
        proof {
            lemma_mul_inequality(index as int, self.len as int, N as int);
            lemma_mul_inequality(index + 1, self.len as int, N as int);
            lemma_mul_succ(index as int, N as int);
            lemma_ceil8(self.len as int * N);
            lemma_bits_value_bound(self.data@, Self::bit_pos(index as int), N as nat);
            lemma2_to64();
            if (N as nat) < 32 {
                lemma_pow2_strictly_increases(N as nat, 32);
            }
        }
        let raw = get_bits(&self.data, index * N, N);
        Some(raw as u32)
    }

    /// Every stored element fits in `N` bits.
    pub proof fn lemma_value_bound(self, i: int)
        requires
            self.wf(),
            0 <= i < self@.len(),
        ensures
            (self@[i] as nat) < pow2(N as nat),
    {
        lemma_bits_value_bound(self.data@, Self::bit_pos(i), N as nat);
        lemma2_to64();
        if (N as nat) < 32 {
            lemma_pow2_strictly_increases(N as nat, 32);
        }
    }

    /// The largest value that fits in `N` bits.
    fn width_max_bits() -> (m: u32)
        requires
            1 <= N <= 32,
        ensures
            m as nat == pow2(N as nat) - 1,
    {
        proof {
            lemma2_to64();
        }
        if N == 32 {
            u32::MAX
        } else {
            proof {
                vstd::bits::lemma_u32_shl_is_mul(1u32, N as u32);
                if (N as nat) < 31 {
                    lemma_pow2_strictly_increases(N as nat, 31);
                }
            }
            (1u32 << (N as u32)) - 1
        }
    }
}

impl<const N: usize> View for PackedBits<N> {
    type V = Seq<u32>;

    open spec fn view(&self) -> Seq<u32> {
        Seq::new(self.len as nat, |i: int| self.spec_value_at(i))
    }
}

/// Distributes a successor multiplication.
proof fn lemma_mul_succ(a: int, n: int)
    by (nonlinear_arith)
    ensures
        (a + 1) * n == a * n + n,
{
}

/// A bit position strictly below `8 * l` indexes a byte strictly below `l`.
proof fn lemma_div8_lt(p: int, l: int)
    by (nonlinear_arith)
    requires
        0 <= p,
        p < 8 * l,
    ensures
        p / 8 < l,
{
}

/// A bit position at or past the 12-byte header indexes a data byte.
proof fn lemma_div8_ge(p: int)
    by (nonlinear_arith)
    requires
        p >= 96,
    ensures
        p / 8 >= 12,
{
}

} // verus!
