//! Compact storage for sets of bit flags, layered over the packed
//! bit-array container.

use vstd::prelude::*;
use vstd::arithmetic::power2::{pow2, lemma2_to64, lemma_pow2_strictly_increases};
use crate::packed::PackedBitsContainer;
use crate::error::PackedBitsError;

verus! {

/// Whether bit `k` of `bits` is set.
pub open spec fn flag_bit(bits: u32, k: nat) -> bool {
    ((bits >> (k as u32)) & 1u32) == 1u32
}

/// The single-bit masks of the set bits of `bits` at positions `k` and
/// above, in ascending order.
pub open spec fn flag_seq_from(bits: u32, k: nat) -> Seq<u32>
    decreases 32 - k,
{
    if k >= 32 {
        Seq::empty()
    } else if flag_bit(bits, k) {
        seq![(pow2(k) as u32)] + flag_seq_from(bits, k + 1)
    } else {
        flag_seq_from(bits, k + 1)
    }
}

/// The single-bit masks of all set bits of `bits`, in ascending order.
pub open spec fn flag_seq(bits: u32) -> Seq<u32> {
    flag_seq_from(bits, 0)
}

/// Iterator state over the set bits of one flags word: the word and the
/// next bit position to examine.
pub struct FlagsIter {
    pub bits: u32,
    pub pos: u32,
}

impl FlagsIter {
    /// Starts an iteration over the set bits of `bits`.
    pub fn new(bits: u32) -> (r: FlagsIter)
        ensures
            r.bits == bits,
            r.pos == 0,
    {
        FlagsIter { bits, pos: 0 }
    }

    /// The next single-bit mask among the set bits, ascending; `None` once
    /// all set bits have been yielded.
    pub fn next(&mut self) -> (r: Option<u32>)
        requires
            old(self).pos <= 32,
        ensures
            final(self).bits == old(self).bits,
            final(self).pos <= 32,
            ({
                let rem = flag_seq_from(old(self).bits, old(self).pos as nat);
                if rem.len() > 0 {
                    &&& r == Some(rem[0])
                    &&& flag_seq_from(final(self).bits, final(self).pos as nat) =~= rem.skip(1)
                } else {
                    &&& r is None
                    &&& flag_seq_from(final(self).bits, final(self).pos as nat).len() == 0
                }
            }),
    {
        let ghost b0 = self.bits;
        let ghost start = self.pos as nat;
        proof {
            assert(old(self).bits == b0 && old(self).pos as nat == start);
        }
        while self.pos < 32
            invariant
                start <= self.pos <= 32,
                self.bits == b0,
                old(self).bits == b0,
                old(self).pos as nat == start,
                flag_seq_from(b0, self.pos as nat) =~= flag_seq_from(b0, start),
            decreases 32 - self.pos,
        {
            let k = self.pos;
            let mask = 1u32 << k;
            self.pos = self.pos + 1;
            let ghost b = self.bits;
            proof {
                lemma2_to64();
                if (k as nat) < 31 {
                    lemma_pow2_strictly_increases(k as nat, 31);
                }
                vstd::bits::lemma_u32_shl_is_mul(1u32, k);
                assert(((b >> k) & 1u32) == 1u32 <==> (b & (1u32 << k)) != 0) by (bit_vector)
                    requires
                        k < 32,
                ;
                assert(mask == pow2(k as nat) as u32);
            }
            if self.bits & mask != 0 {
                proof {
                    assert(flag_bit(b, k as nat));
                    assert(flag_seq_from(b, k as nat) == seq![(pow2(k as nat) as u32)]
                        + flag_seq_from(b, k as nat + 1));
                    assert(flag_seq_from(b, k as nat)[0] == mask);
                    assert(flag_seq_from(b, k as nat).skip(1) =~= flag_seq_from(b, k as nat + 1));
                }
                return Some(mask);
            }
        }
        None
    }
}

/// A packed array of `N`-bit flag words with mask-level operations.
#[derive(Debug)]
pub struct FlagsContainer<const N: usize> {
    pub bits: PackedBitsContainer<N>,
}

impl<const N: usize> View for FlagsContainer<N> {
    type V = Seq<u32>;

    open spec fn view(&self) -> Seq<u32> {
        self.bits@
    }
}

impl<const N: usize> FlagsContainer<N> {
    /// Well-formedness of the underlying packed array.
    pub open spec fn wf(self) -> bool {
        self.bits.wf()
    }

    /// Creates a new, empty in-memory flags container.
    pub fn new_in_memory() -> (r: Result<Self, PackedBitsError>)
        ensures
            match r {
                Ok(c) => c.wf() && c@ =~= Seq::<u32>::empty() && 1 <= N <= 32,
                Err(e) => e == PackedBitsError::InvalidBitWidth(N) && !(1 <= N <= 32),
            },
    {
        Ok(Self { bits: PackedBitsContainer::<N>::new_in_memory()? })
    }

    /// Creates an empty flags container pre-sized for `capacity` words.
    pub fn with_capacity(capacity: usize) -> (r: Result<Self, PackedBitsError>)
        requires
            8 * crate::packed::HEADER_SIZE + capacity * N + 7 <= usize::MAX,
        ensures
            match r {
                Ok(c) => c.wf() && c@ =~= Seq::<u32>::empty() && 1 <= N <= 32,
                Err(e) => e == PackedBitsError::InvalidBitWidth(N) && !(1 <= N <= 32),
            },
    {
        Ok(Self { bits: PackedBitsContainer::<N>::with_capacity(capacity)? })
    }

    /// Appends a flags word.
    pub fn push(&mut self, flags: u32) -> (r: Result<(), PackedBitsError>)
        requires
            old(self).wf(),
        ensures
            final(self).wf(),
            match r {
                Ok(()) => (flags as nat) < pow2(N as nat) && final(self)@ =~= old(self)@.push(
                    flags,
                ),
                Err(e) => final(self)@ =~= old(self)@ && if (flags as nat) >= pow2(N as nat) {
                    e == PackedBitsError::ValueOverflow(flags, N)
                } else {
                    e == PackedBitsError::ResizeFailed && !old(self).bits.can_push()
                },
            },
    {
        self.bits.push(flags)?;
        Ok(())
    }

    /// Whether any bit of `mask` is set in the word at `index`; false out
    /// of bounds.
    pub fn contains(&self, index: usize, mask: u32) -> (r: bool)
        requires
            self.wf(),
        ensures
            r == (index < self@.len() && (self@[index as int] & mask) != 0),
    {
        match self.bits.get(index) {
            Some(val) => (val & mask) != 0,
            None => false,
        }
    }

    /// Sets every bit of `mask` in the word at `index`.
    pub fn set_mask(&mut self, index: usize, mask: u32) -> (r: Result<(), PackedBitsError>)
        requires
            old(self).wf(),
        ensures
            final(self).wf(),
            match r {
                Ok(()) => {
                    &&& index < old(self)@.len()
                    &&& final(self)@ =~= old(self)@.update(
                        index as int,
                        old(self)@[index as int] | mask,
                    )
                },
                Err(e) => {
                    &&& final(self)@ =~= old(self)@
                    &&& if index >= old(self)@.len() {
                        e == PackedBitsError::StorageTooSmall
                    } else {
                        e == PackedBitsError::ValueOverflow(
                            old(self)@[index as int] | mask,
                            N,
                        ) && ((old(self)@[index as int] | mask) as nat) >= pow2(N as nat)
                    }
                },
            },
    {
        match self.bits.get(index) {
            Some(val) => self.bits.set(index, val | mask),
            None => Err(PackedBitsError::StorageTooSmall),
        }
    }

    /// Clears every bit of `mask` in the word at `index`. In bounds, this
    /// never fails: clearing bits cannot overflow the width.
    pub fn clear_mask(&mut self, index: usize, mask: u32) -> (r: Result<(), PackedBitsError>)
        requires
            old(self).wf(),
        ensures
            final(self).wf(),
            match r {
                Ok(()) => {
                    &&& index < old(self)@.len()
                    &&& final(self)@ =~= old(self)@.update(
                        index as int,
                        old(self)@[index as int] & !mask,
                    )
                },
                Err(e) => index >= old(self)@.len() && e == PackedBitsError::StorageTooSmall
                    && final(self)@ =~= old(self)@,
            },
    {
        match self.bits.get(index) {
            Some(val) => {
                let cleared = val & !mask;
                proof {
                    assert(cleared <= val) by (bit_vector)
                        requires
                            cleared == (val & !mask),
                    ;
                    crate::bit_ops::lemma_bits_value_bound(
                        self.bits.storage@,
                        PackedBitsContainer::<N>::elem_bit_pos(index as int),
                        N as nat,
                    );
                }
                self.bits.set(index, cleared)
            },
            None => Err(PackedBitsError::StorageTooSmall),
        }
    }

    /// Toggles every bit of `mask` in the word at `index`.
    pub fn toggle_mask(&mut self, index: usize, mask: u32) -> (r: Result<(), PackedBitsError>)
        requires
            old(self).wf(),
        ensures
            final(self).wf(),
            match r {
                Ok(()) => {
                    &&& index < old(self)@.len()
                    &&& final(self)@ =~= old(self)@.update(
                        index as int,
                        old(self)@[index as int] ^ mask,
                    )
                },
                Err(e) => {
                    &&& final(self)@ =~= old(self)@
                    &&& if index >= old(self)@.len() {
                        e == PackedBitsError::StorageTooSmall
                    } else {
                        e == PackedBitsError::ValueOverflow(
                            old(self)@[index as int] ^ mask,
                            N,
                        ) && ((old(self)@[index as int] ^ mask) as nat) >= pow2(N as nat)
                    }
                },
            },
    {
        match self.bits.get(index) {
            Some(val) => self.bits.set(index, val ^ mask),
            None => Err(PackedBitsError::StorageTooSmall),
        }
    }

    /// The flags word at `index`, or `None` out of bounds.
    pub fn get(&self, index: usize) -> (r: Option<u32>)
        requires
            self.wf(),
        ensures
            r == if index < self@.len() {
                Some(self@[index as int])
            } else {
                None::<u32>
            },
    {
        self.bits.get(index)
    }

    /// The number of stored flags words.
    pub fn len(&self) -> (r: usize)
        ensures
            r == self@.len(),
    {
        self.bits.len()
    }

    /// True when no word is stored.
    pub fn is_empty(&self) -> (r: bool)
        ensures
            r == (self@.len() == 0),
    {
        self.bits.is_empty()
    }

    /// Removes all stored words.
    pub fn clear(&mut self) -> (r: Result<(), PackedBitsError>)
        requires
            old(self).wf(),
        ensures
            final(self).wf(),
            final(self)@ =~= Seq::<u32>::empty(),
            r is Ok,
    {
        self.bits.clear()
    }

    /// All stored flags words, in order.
    pub fn iter(&self) -> (r: Vec<u32>)
        requires
            self.wf(),
        ensures
            r@ == self@,
    {
        self.bits.iter()
    }

    /// The underlying packed bit-array.
    pub fn packed_bits(&self) -> (r: &PackedBitsContainer<N>)
        ensures
            r == &self.bits,
    {
        &self.bits
    }

    /// The single-bit masks of the set bits of the word at `index`,
    /// ascending; `None` out of bounds.
    pub fn iter_flags(&self, index: usize) -> (r: Option<Vec<u32>>)
        requires
            self.wf(),
        ensures
            match r {
                Some(v) => index < self@.len() && v@ =~= flag_seq(self@[index as int]),
                None => index >= self@.len(),
            },
    {
        let word = match self.bits.get(index) {
            Some(w) => w,
            None => {
                return None;
            },
        };
        let mut it = FlagsIter::new(word);
        let mut out: Vec<u32> = Vec::new();
        loop
            invariant
                it.bits == word,
                it.pos <= 32,
                index < self@.len(),
                word == self@[index as int],
                out@ + flag_seq_from(word, it.pos as nat) =~= flag_seq(word),
            decreases flag_seq_from(word, it.pos as nat).len(), 33 - it.pos,
        {
            let ghost rem = flag_seq_from(word, it.pos as nat);
            match it.next() {
                Some(m) => {
                    proof {
                        assert(out@.push(m) + flag_seq_from(word, it.pos as nat) =~= flag_seq(
                            word,
                        ));
                    }
                    out.push(m);
                },
                None => {
                    proof {
                        assert(flag_seq_from(word, it.pos as nat).len() == 0);
                        assert(out@ =~= flag_seq(word));
                        assert(word == self@[index as int]);
                    }
                    return Some(out);
                },
            }
        }
    }
}

} // verus!
