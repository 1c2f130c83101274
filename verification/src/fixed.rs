//! Fixed-point numbers with `N` total bits and `F` fractional bits, stored
//! as scaled 32-bit integers, and containers for arrays of them: a plain
//! vector backend and a bit-packed backend that stores only `N` bits per
//! value with sign extension on the way out.

use vstd::prelude::*;
use vstd::arithmetic::power2::{pow2, lemma2_to64, lemma_pow2_strictly_increases};
use vstd::arithmetic::div_mod::{lemma_fundamental_div_mod, lemma_fundamental_div_mod_converse};
use vstd::bytes::{spec_u32_to_le_bytes, u32_to_le_bytes};
use crate::packed::PackedBits;
use crate::error::PackedBitsError;

verus! {

/// Errors for fixed-point operations.
#[derive(Debug, PartialEq, Eq, Structural, Clone, Copy)]
pub enum FixedPointError {
    /// A value is out of range for the `bits`.`fractional` format.
    Overflow { bits: usize, fractional: usize },
    /// The underlying packed bit storage failed.
    PackedBitsError(PackedBitsError),
}

/// Clamps an integer into the `i32` range.
pub open spec fn sat_i32(x: int) -> i32 {
    if x > i32::MAX {
        i32::MAX
    } else if x < i32::MIN {
        i32::MIN
    } else {
        x as i32
    }
}

/// A fixed-point number with `N` total bits (sign included) and `F`
/// fractional bits: the real value is `raw / pow2(F)`.
#[derive(Debug, Clone, Copy, PartialEq, Eq)]
pub struct FixedSmall<const N: usize, const F: usize> {
    /// The raw scaled integer representation.
    pub raw: i32,
}

impl<const N: usize, const F: usize> FixedSmall<N, F> {
    /// The largest raw value of the format.
    pub open spec fn spec_max_int() -> int {
        if N >= 32 {
            i32::MAX as int
        } else {
            pow2((N - 1) as nat) - 1
        }
    }

    /// The smallest raw value of the format.
    pub open spec fn spec_min_int() -> int {
        if N >= 32 {
            i32::MIN as int
        } else {
            -pow2((N - 1) as nat)
        }
    }

    /// Creates a fixed-point number from a raw scaled integer.
    pub fn from_raw(raw: i32) -> (r: Self)
        ensures
            r.raw == raw,
    {
        FixedSmall { raw }
    }

    /// The raw scaled integer representation.
    pub fn raw_value(&self) -> (r: i32)
        ensures
            r == self.raw,
    {
        self.raw
    }

    /// The fixed-point zero.
    pub fn zero() -> (r: Self)
        ensures
            r.raw == 0,
    {
        FixedSmall { raw: 0 }
    }

    /// The fixed-point one, `pow2(F)` raw.
    pub fn one() -> (r: Self)
        requires
            F <= 30,
        ensures
            r.raw == pow2(F as nat),
    {
        proof {
            lemma2_to64();
            vstd::bits::lemma_u32_shl_is_mul(1u32, F as u32);
            if (F as nat) < 30 {
                lemma_pow2_strictly_increases(F as nat, 30);
            }
        }
        FixedSmall { raw: (1u32 << (F as u32)) as i32 }
    }

    /// The largest representable value.
    pub fn max_value() -> (r: Self)
        requires
            1 <= N <= 32,
        ensures
            r.raw == Self::spec_max_int(),
    {
        proof {
            lemma2_to64();
        }
        if N >= 32 {
            FixedSmall { raw: i32::MAX }
        } else {
            proof {
                vstd::bits::lemma_u32_shl_is_mul(1u32, (N - 1) as u32);
                if N - 1 < 31 {
                    lemma_pow2_strictly_increases((N - 1) as nat, 31);
                }
            }
            FixedSmall { raw: ((1u32 << ((N - 1) as u32)) - 1) as i32 }
        }
    }

    /// The smallest representable value.
    pub fn min_value() -> (r: Self)
        requires
            1 <= N <= 32,
        ensures
            r.raw == Self::spec_min_int(),
    {
        proof {
            lemma2_to64();
        }
        if N >= 32 {
            FixedSmall { raw: i32::MIN }
        } else {
            proof {
                vstd::bits::lemma_u32_shl_is_mul(1u32, (N - 1) as u32);
                if N - 1 < 31 {
                    lemma_pow2_strictly_increases((N - 1) as nat, 31);
                }
            }
            FixedSmall { raw: -((1u32 << ((N - 1) as u32)) as i32) }
        }
    }

    /// Adds two fixed-point numbers, saturating at the `i32` bounds.
    pub fn add(self, other: Self) -> (r: Self)
        ensures
            r.raw == sat_i32(self.raw + other.raw),
    {
        let s: i64 = self.raw as i64 + other.raw as i64;
        if s > i32::MAX as i64 {
            FixedSmall { raw: i32::MAX }
        } else if s < i32::MIN as i64 {
            FixedSmall { raw: i32::MIN }
        } else {
            FixedSmall { raw: s as i32 }
        }
    }

    /// Subtracts two fixed-point numbers, saturating at the `i32` bounds.
    pub fn sub(self, other: Self) -> (r: Self)
        ensures
            r.raw == sat_i32(self.raw - other.raw),
    {
        let s: i64 = self.raw as i64 - other.raw as i64;
        if s > i32::MAX as i64 {
            FixedSmall { raw: i32::MAX }
        } else if s < i32::MIN as i64 {
            FixedSmall { raw: i32::MIN }
        } else {
            FixedSmall { raw: s as i32 }
        }
    }

    /// Multiplies two fixed-point numbers: the scaled product is shifted
    /// down by `F` bits, rounding toward minus infinity, then clamped to
    /// the format's raw range.
    pub fn mul(self, other: Self) -> (r: Self)
        requires
            1 <= N <= 32,
            F < N,
        ensures
            r.raw == ({
                let q = (self.raw * other.raw) / (pow2(F as nat) as int);
                if q < Self::spec_min_int() {
                    Self::spec_min_int() as i32
                } else if q > Self::spec_max_int() {
                    Self::spec_max_int() as i32
                } else {
                    q as i32
                }
            }),
    {
        proof {
            lemma2_to64();
            vstd::bits::lemma_u64_shl_is_mul(1u64, F as u64);
            if (F as nat) < 62 {
                lemma_pow2_strictly_increases(F as nat, 62);
            }
            assert(-0x4000_0000_0000_0000 <= (self.raw as int) * (other.raw as int)
                <= 0x4000_0000_0000_0000) by (nonlinear_arith)
                requires
                    i32::MIN <= self.raw <= i32::MAX,
                    i32::MIN <= other.raw <= i32::MAX,
            ;
        }
        let p: i64 = (self.raw as i64) * (other.raw as i64);
        let d: i64 = (1u64 << (F as u64)) as i64;
        let q = floor_div_i64(p, d);
        let lo = Self::min_value().raw as i64;
        let hi = Self::max_value().raw as i64;
        if q < lo {
            FixedSmall { raw: lo as i32 }
        } else if q > hi {
            FixedSmall { raw: hi as i32 }
        } else {
            FixedSmall { raw: q as i32 }
        }
    }

    /// Negates the number, saturating at the `i32` bounds.
    pub fn neg(self) -> (r: Self)
        ensures
            r.raw == sat_i32(-(self.raw as int)),
    {
        if self.raw == i32::MIN {
            FixedSmall { raw: i32::MAX }
        } else {
            FixedSmall { raw: -self.raw }
        }
    }

    /// The absolute value. The most negative raw value has no absolute
    /// value in `i32` and is excluded.
    pub fn abs(self) -> (r: Self)
        requires
            self.raw != i32::MIN,
        ensures
            r.raw == if self.raw < 0 {
                -(self.raw as int)
            } else {
                self.raw as int
            },
    {
        if self.raw < 0 {
            FixedSmall { raw: -self.raw }
        } else {
            self
        }
    }
}

/// The raw value an `i32` shows when read as unsigned 32-bit two's
/// complement.
pub open spec fn i32_bits(x: i32) -> u32 {
    ((x as int) % 0x1_0000_0000) as u32
}

/// The bits that an `n`-bit store keeps of a raw value: the raw value
/// reduced modulo `pow2(n)`.
pub open spec fn packed_bits_of(n: nat, raw: i32) -> u32 {
    ((raw as int) % (pow2(n) as int)) as u32
}

/// The signed value that `n` stored bits stand for, reading the top stored
/// bit as the sign.
pub open spec fn sign_extend(n: nat, stored: u32) -> int {
    if (stored as int) < pow2((n - 1) as nat) {
        stored as int
    } else {
        stored as int - pow2(n)
    }
}

/// What an `n`-bit packed store makes of a raw value: store the low `n`
/// bits, then sign-extend them back.
pub open spec fn packed_store(n: nat, raw: i32) -> int {
    sign_extend(n, packed_bits_of(n, raw))
}

/// The two's-complement bits of an `i32`, as exec code.
fn i32_to_bits(x: i32) -> (r: u32)
    ensures
        r == i32_bits(x),
{
    if x >= 0 {
        proof {
            vstd::arithmetic::div_mod::lemma_small_mod(x as nat, 0x1_0000_0000nat);
        }
        x as u32
    } else {
        proof {
            lemma_fundamental_div_mod_converse(
                x as int,
                0x1_0000_0000,
                -1,
                x as int + 0x1_0000_0000,
            );
        }
        ((x as i64) + 0x1_0000_0000i64) as u32
    }
}

/// A storage backend for arrays of fixed-point values. The plain vector
/// backend keeps raw values exactly; the packed backend keeps only `N`
/// bits of each, as `spec_stored` says.
pub trait FixedPointContainerTrait<const N: usize, const F: usize>: Sized {
    /// The raw values the container holds, in order.
    spec fn spec_values(self) -> Seq<i32>;

    /// The container's invariant.
    spec fn spec_wf(self) -> bool;

    /// The raw value that storing `value` keeps.
    spec fn spec_stored(value: i32) -> i32;

    /// Whether one more value can be stored.
    spec fn spec_can_push(self) -> bool;

    /// The container's serialised bytes.
    spec fn spec_bytes(self) -> Seq<u8>;

    /// Storing keeps any value in the `N`-bit two's-complement range.
    proof fn lemma_stored_in_range(value: i32)
        requires
            1 <= N <= 32,
            F < N,
            -pow2((N - 1) as nat) <= value < pow2((N - 1) as nat),
        ensures
            Self::spec_stored(value) == value,
    ;

    /// Creates an empty container.
    fn new() -> (r: Self)
        requires
            1 <= N <= 32,
            F < N,
        ensures
            r.spec_wf(),
            r.spec_values() =~= Seq::<i32>::empty(),
    ;

    /// Creates an empty container pre-sized for `cap` values.
    fn with_capacity(cap: usize) -> (r: Self)
        requires
            1 <= N <= 32,
            F < N,
            cap * N + 7 <= usize::MAX,
        ensures
            r.spec_wf(),
            r.spec_values() =~= Seq::<i32>::empty(),
    ;

    /// Appends a value.
    fn push(&mut self, value: FixedSmall<N, F>) -> (r: Result<(), FixedPointError>)
        requires
            old(self).spec_wf(),
        ensures
            final(self).spec_wf(),
            r is Ok <==> old(self).spec_can_push(),
            match r {
                Ok(()) => final(self).spec_values() =~= old(self).spec_values().push(
                    Self::spec_stored(value.raw),
                ),
                Err(_) => final(self).spec_values() =~= old(self).spec_values(),
            },
    ;

    /// The number of stored values.
    fn len(&self) -> (r: usize)
        ensures
            r == self.spec_values().len(),
    ;

    /// True when no value is stored.
    fn is_empty(&self) -> (r: bool)
        ensures
            r == (self.spec_values().len() == 0),
    ;

    /// The container's serialised bytes.
    fn as_bytes(&self) -> (r: Vec<u8>)
        requires
            self.spec_wf(),
        ensures
            r@ == self.spec_bytes(),
    ;

    /// The stored value at `index`, or `None` out of bounds.
    fn get(&self, index: usize) -> (r: Option<FixedSmall<N, F>>)
        requires
            self.spec_wf(),
        ensures
            r == if index < self.spec_values().len() {
                Some(FixedSmall::<N, F> { raw: self.spec_values()[index as int] })
            } else {
                None::<FixedSmall<N, F>>
            },
    ;

    /// A direct slice over the stored values, where the backend keeps
    /// them whole.
    fn as_slice(&self) -> (r: Option<&[FixedSmall<N, F>]>)
        ensures
            match r {
                Some(s) => s@.len() == self.spec_values().len() && forall|i: int|
                    0 <= i < s@.len() ==> (#[trigger] s@[i]).raw == self.spec_values()[i],
                None => true,
            },
    ;
}

/// The little-endian bytes of a sequence of raw values.
pub open spec fn raws_le_bytes(vals: Seq<i32>) -> Seq<u8>
    decreases vals.len(),
{
    if vals.len() == 0 {
        Seq::empty()
    } else {
        raws_le_bytes(vals.drop_last()) + spec_u32_to_le_bytes(i32_bits(vals.last()))
    }
}

/// The plain vector backend: raw values stored whole.
#[derive(Debug)]
pub struct FixedPointContainerStd<const N: usize, const F: usize> {
    pub data: Vec<FixedSmall<N, F>>,
}

impl<const N: usize, const F: usize> FixedPointContainerTrait<N, F> for FixedPointContainerStd<
    N,
    F,
> {
    open spec fn spec_values(self) -> Seq<i32> {
        self.data@.map_values(|v: FixedSmall<N, F>| v.raw)
    }

    open spec fn spec_wf(self) -> bool {
        true
    }

    open spec fn spec_stored(value: i32) -> i32 {
        value
    }

    open spec fn spec_can_push(self) -> bool {
        true
    }

    open spec fn spec_bytes(self) -> Seq<u8> {
        raws_le_bytes(self.spec_values())
    }

    proof fn lemma_stored_in_range(value: i32) {
    }

    fn new() -> (r: Self) {
        FixedPointContainerStd { data: Vec::new() }
    }

    fn with_capacity(cap: usize) -> (r: Self) {
        FixedPointContainerStd { data: Vec::with_capacity(cap) }
    }

    fn push(&mut self, value: FixedSmall<N, F>) -> (r: Result<(), FixedPointError>) {
        self.data.push(value);
        Ok(())
    }

    fn len(&self) -> (r: usize) {
        self.data.len()
    }

    fn is_empty(&self) -> (r: bool) {
        self.data.len() == 0
    }

    fn as_bytes(&self) -> (r: Vec<u8>) {
        let ghost vals = self.spec_values();
        let mut out: Vec<u8> = Vec::new();
        let mut i: usize = 0;
        while i < self.data.len()
            invariant
                i <= self.data.len(),
                vals == self.spec_values(),
                vals.len() == self.data.len(),
                out@ =~= raws_le_bytes(vals.take(i as int)),
            decreases self.data.len() - i,
        {
            let u = i32_to_bits(self.data[i].raw);
            let mut b = u32_to_le_bytes(u);
            out.append(&mut b);
            proof {
                assert(vals.take(i + 1).drop_last() =~= vals.take(i as int));
                assert(vals.take(i + 1).last() == vals[i as int]);
                assert(out@ =~= raws_le_bytes(vals.take(i + 1)));
            }
            i = i + 1;
        }
        proof {
            assert(vals.take(self.data.len() as int) =~= vals);
        }
        out
    }

    fn get(&self, index: usize) -> (r: Option<FixedSmall<N, F>>) {
        if index < self.data.len() {
            Some(self.data[index])
        } else {
            None
        }
    }

    fn as_slice(&self) -> (r: Option<&[FixedSmall<N, F>]>) {
        Some(self.data.as_slice())
    }
}

impl<const N: usize, const F: usize> FixedPointContainerStd<N, F> {
    /// Consumes the container, yielding the stored values.
    pub fn into_vec(self) -> (r: Vec<FixedSmall<N, F>>)
        ensures
            r@ == self.data@,
    {
        self.data
    }

    /// Builds a container around existing values.
    pub fn from_vec(data: Vec<FixedSmall<N, F>>) -> (r: Self)
        ensures
            r.data@ == data@,
    {
        FixedPointContainerStd { data }
    }

    /// Reserves room for `additional` more values.
    pub fn reserve(&mut self, additional: usize)
        ensures
            final(self).data@ == old(self).data@,
    {
        self.data.reserve(additional);
    }

    /// Removes all stored values.
    pub fn clear(&mut self)
        ensures
            final(self).data@ =~= Seq::<FixedSmall<N, F>>::empty(),
    {
        self.data.clear();
    }
}

/// The bit-packed backend: each value is stored in `N` bits and
/// sign-extended when read back.
#[derive(Debug)]
pub struct FixedPointContainerPacked<const N: usize, const F: usize> {
    pub bits: PackedBits<N>,
}

impl<const N: usize, const F: usize> FixedPointContainerTrait<N, F> for FixedPointContainerPacked<
    N,
    F,
> {
    open spec fn spec_values(self) -> Seq<i32> {
        self.bits@.map_values(|u: u32| sign_extend(N as nat, u) as i32)
    }

    open spec fn spec_wf(self) -> bool {
        self.bits.wf()
    }

    open spec fn spec_stored(value: i32) -> i32 {
        packed_store(N as nat, value) as i32
    }

    open spec fn spec_can_push(self) -> bool {
        self.bits.can_push()
    }

    open spec fn spec_bytes(self) -> Seq<u8> {
        self.bits.data@
    }

    proof fn lemma_stored_in_range(value: i32) {
        lemma_pow2_halves(N as nat);
        vstd::arithmetic::power2::lemma_pow2_pos(N as nat);
        vstd::arithmetic::power2::lemma_pow2_pos((N - 1) as nat);
        lemma2_to64();
        if (N as nat) < 32 {
            lemma_pow2_strictly_increases(N as nat, 32);
        }
        if value >= 0 {
            vstd::arithmetic::div_mod::lemma_small_mod(value as nat, pow2(N as nat));
            assert((value as int) % (pow2(N as nat) as int) == value as int);
            assert(packed_bits_of(N as nat, value) == value as u32);
            assert(sign_extend(N as nat, value as u32) == value as int);
        } else {
            lemma_fundamental_div_mod_converse(
                value as int,
                pow2(N as nat) as int,
                -1,
                value + pow2(N as nat),
            );
            assert((value as int) % (pow2(N as nat) as int) == value + pow2(N as nat));
            let stored = packed_bits_of(N as nat, value);
            assert(stored as int == value + pow2(N as nat));
            assert(stored as int >= pow2((N - 1) as nat));
            assert(sign_extend(N as nat, stored) == value as int);
        }
    }

    fn new() -> (r: Self) {
        FixedPointContainerPacked { bits: PackedBits::new() }
    }

    fn with_capacity(cap: usize) -> (r: Self) {
        FixedPointContainerPacked { bits: PackedBits::with_capacity(cap) }
    }

    fn push(&mut self, value: FixedSmall<N, F>) -> (r: Result<(), FixedPointError>) {
        proof {
            lemma2_to64();
            vstd::arithmetic::power2::lemma_pow2_pos(N as nat);
        }
        let u = i32_to_bits(value.raw);
        let stored: u32 = if N < 32 {
            proof {
                vstd::bits::lemma_u32_shl_is_mul(1u32, N as u32);
                if (N as nat) < 31 {
                    lemma_pow2_strictly_increases(N as nat, 31);
                }
                vstd::arithmetic::power2::lemma_pow2_adds(N as nat, (32 - N) as nat);
                vstd::arithmetic::div_mod::lemma_mod_multiples_vanish(
                    pow2((32 - N) as nat) as int,
                    value.raw as int,
                    pow2(N as nat) as int,
                );
                vstd::arithmetic::div_mod::lemma_mod_bound(value.raw as int, 0x1_0000_0000);
            }
            let modulus = 1u32 << (N as u32);
            u % modulus
        } else {
            proof {
                assert(pow2(32) == 0x1_0000_0000);
            }
            u
        };
        proof {
            vstd::arithmetic::div_mod::lemma_mod_bound(value.raw as int, pow2(N as nat) as int);
            assert(stored == packed_bits_of(N as nat, value.raw));
        }
        let ghost old_view = self.bits@;
        match self.bits.push(stored) {
            Ok(()) => {
                proof {
                    assert(self.bits@ =~= old_view.push(stored));
                    assert(final(self).spec_values() =~= old(self).spec_values().push(
                        Self::spec_stored(value.raw),
                    ));
                }
                Ok(())
            },
            Err(e) => Err(FixedPointError::PackedBitsError(e)),
        }
    }

    fn len(&self) -> (r: usize) {
        self.bits.len()
    }

    fn is_empty(&self) -> (r: bool) {
        self.bits.is_empty()
    }

    fn as_bytes(&self) -> (r: Vec<u8>) {
        vstd::slice::slice_to_vec(self.bits.as_bytes().as_slice())
    }

    fn get(&self, index: usize) -> (r: Option<FixedSmall<N, F>>) {
        let stored = match self.bits.get(index) {
            Some(s) => s,
            None => {
                return None;
            },
        };
        proof {
            self.bits.lemma_value_bound(index as int);
            lemma2_to64();
            lemma_pow2_halves(N as nat);
        }
        let raw: i32 = if N == 32 {
            if stored >= 0x8000_0000u32 {
                ((stored as i64) - 0x1_0000_0000i64) as i32
            } else {
                stored as i32
            }
        } else {
            proof {
                vstd::bits::lemma_u32_shl_is_mul(1u32, (N - 1) as u32);
                vstd::bits::lemma_u64_shl_is_mul(1u64, N as u64);
                if N - 1 < 31 {
                    lemma_pow2_strictly_increases((N - 1) as nat, 31);
                }
                if (N as nat) < 62 {
                    lemma_pow2_strictly_increases(N as nat, 62);
                }
            }
            let half = 1u32 << ((N - 1) as u32);
            if stored >= half {
                ((stored as i64) - ((1u64 << (N as u64)) as i64)) as i32
            } else {
                stored as i32
            }
        };
        Some(FixedSmall { raw })
    }

    fn as_slice(&self) -> (r: Option<&[FixedSmall<N, F>]>) {
        None
    }
}

impl<const N: usize, const F: usize> FixedPointContainerPacked<N, F> {
    /// How many values the current buffer can hold without growing.
    pub fn capacity(&self) -> (r: usize)
        requires
            self.bits.wf(),
        ensures
            r as int == 8 * self.bits.data.len() as int / (N as int),
    {
        self.bits.capacity()
    }

    /// The underlying packed bit array.
    pub fn as_packed_bits(&self) -> (r: &PackedBits<N>)
        ensures
            r == &self.bits,
    {
        &self.bits
    }

    /// The underlying packed bit array, mutably.
    pub fn as_packed_bits_mut(&mut self) -> (r: &mut PackedBits<N>)
        ensures
            *r == old(self).bits,
            final(self).bits == *final(r),
    {
        &mut self.bits
    }
}

/// A power of two splits into two halves.
proof fn lemma_pow2_halves(n: nat)
    requires
        n >= 1,
    ensures
        pow2(n) == 2 * pow2((n - 1) as nat),
{
    vstd::arithmetic::power2::lemma_pow2_adds(1, (n - 1) as nat);
    lemma2_to64();
}

/// The selected default storage backend for fixed-point arrays.
pub type FixedPointContainer<const N: usize, const F: usize> = FixedPointContainerStd<N, F>;

/// A dynamic array of fixed-point numbers with `N` total and `F`
/// fractional bits.
#[derive(Debug)]
pub struct FixedPointArray<const N: usize, const F: usize> {
    pub container: FixedPointContainer<N, F>,
}

impl<const N: usize, const F: usize> FixedPointArray<N, F> {
    /// The raw values the array holds, in order.
    pub open spec fn spec_values(self) -> Seq<i32> {
        self.container.spec_values()
    }

    /// Creates a new empty fixed-point array.
    pub fn new() -> (r: Self)
        requires
            1 <= N <= 32,
            F < N,
        ensures
            r.spec_values() =~= Seq::<i32>::empty(),
    {
        FixedPointArray { container: FixedPointContainerTrait::new() }
    }

    /// Creates an empty array pre-sized for `cap` values.
    pub fn with_capacity(cap: usize) -> (r: Self)
        requires
            1 <= N <= 32,
            F < N,
            cap * N + 7 <= usize::MAX,
        ensures
            r.spec_values() =~= Seq::<i32>::empty(),
    {
        FixedPointArray { container: FixedPointContainerTrait::with_capacity(cap) }
    }

    /// Appends a fixed-point value.
    pub fn push(&mut self, value: FixedSmall<N, F>) -> (r: Result<(), FixedPointError>)
        ensures
            r is Ok,
            final(self).spec_values() =~= old(self).spec_values().push(value.raw),
    {
        self.container.push(value)
    }

    /// The number of stored values.
    pub fn len(&self) -> (r: usize)
        ensures
            r == self.spec_values().len(),
    {
        self.container.len()
    }

    /// True when the array is empty.
    pub fn is_empty(&self) -> (r: bool)
        ensures
            r == (self.spec_values().len() == 0),
    {
        self.container.is_empty()
    }

    /// The value at `index`, or `None` out of bounds.
    pub fn get(&self, index: usize) -> (r: Option<FixedSmall<N, F>>)
        ensures
            r == if index < self.spec_values().len() {
                Some(FixedSmall::<N, F> { raw: self.spec_values()[index as int] })
            } else {
                None::<FixedSmall<N, F>>
            },
    {
        self.container.get(index)
    }

    /// A slice over the stored values.
    pub fn as_slice(&self) -> (r: Option<&[FixedSmall<N, F>]>)
        ensures
            match r {
                Some(s) => s@.len() == self.spec_values().len() && forall|i: int|
                    0 <= i < s@.len() ==> (#[trigger] s@[i]).raw == self.spec_values()[i],
                None => true,
            },
    {
        self.container.as_slice()
    }

    /// The raw bytes of the array, for serialisation.
    pub fn as_bytes(&self) -> (r: Vec<u8>)
        ensures
            r@ == raws_le_bytes(self.spec_values()),
    {
        self.container.as_bytes()
    }

    /// All stored values, in order.
    pub fn iter(&self) -> (r: Vec<FixedSmall<N, F>>)
        ensures
            r.len() == self.spec_values().len(),
            forall|i: int| 0 <= i < r.len() ==> (#[trigger] r@[i]).raw == self.spec_values()[i],
    {
        let n = self.container.len();
        let mut out: Vec<FixedSmall<N, F>> = Vec::new();
        let mut i: usize = 0;
        while i < n
            invariant
                i <= n,
                n == self.spec_values().len(),
                out.len() == i,
                forall|j: int| 0 <= j < i ==> (#[trigger] out@[j]).raw == self.spec_values()[j],
            decreases n - i,
        {
            let v = self.container.get(i).unwrap();
            out.push(v);
            i = i + 1;
        }
        out
    }
}

impl<const N: usize, const F: usize> Default for FixedPointArray<N, F> {
    /// An empty fixed-point array.
    fn default() -> (r: Self)
        ensures
            r.spec_values() =~= Seq::<i32>::empty(),
    {
        FixedPointArray { container: FixedPointContainerStd { data: Vec::new() } }
    }
}

/// 8.8 fixed-point format: 8 integer bits, 8 fractional bits.
pub type Fixed8_8 = FixedSmall<16, 8>;

/// 16.16 fixed-point format: 16 integer bits, 16 fractional bits.
pub type Fixed16_16 = FixedSmall<32, 16>;

/// 4.12 fixed-point format: 4 integer bits, 12 fractional bits.
pub type Fixed4_12 = FixedSmall<16, 12>;

/// 10.6 fixed-point format: 10 integer bits, 6 fractional bits.
pub type Fixed10_6 = FixedSmall<16, 6>;

/// 24.8 fixed-point format: 24 integer bits, 8 fractional bits.
pub type Fixed24_8 = FixedSmall<32, 8>;

/// Division by a positive divisor, rounding toward minus infinity, as the
/// mathematical integer division does.
fn floor_div_i64(p: i64, d: i64) -> (q: i64)
    requires
        d > 0,
        -0x4000_0000_0000_0000 <= p <= 0x4000_0000_0000_0000,
        d <= 0x4000_0000_0000_0000,
    ensures
        q == (p as int) / (d as int),
{
    if p >= 0 {
        p / d
    } else {
        let m = -p;
        let c = (m + (d - 1)) / d;
        proof {
            let x = m as int + (d - 1) as int;
            lemma_fundamental_div_mod(x, d as int);
            let qq = x / (d as int);
            let rr = x % (d as int);
            assert(p as int == (-qq) * (d as int) + (d - 1 - rr)) by (nonlinear_arith)
                requires
                    x == (d as int) * qq + rr,
                    p as int == -(m as int),
                    x == m as int + (d - 1),
            ;
            lemma_fundamental_div_mod_converse(p as int, d as int, -qq, (d - 1 - rr) as int);
        }
        -c
    }
}

} // verus!
