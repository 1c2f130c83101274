//! Iterator-style parsing utilities over flat byte buffers.

use vstd::prelude::*;
use crate::convert::{FieldValue, FromBytes, le_bytes_values, parse_with, parser_yields};

verus! {

/// A type parsed from a fixed-size byte chunk; implementors state the
/// chunk size and the parse itself.
pub trait FixedSizeParse: Sized {
    /// The parse failure type.
    type Error;

    /// The chunk size in bytes.
    spec fn spec_size() -> nat;

    /// The chunk size in bytes.
    fn size() -> (r: usize)
        ensures
            r == Self::spec_size(),
            r >= 1,
    ;

    /// Parses one value from a chunk of exactly the declared size.
    fn parse(bytes: &[u8]) -> (r: Result<Self, Self::Error>)
        requires
            bytes@.len() == Self::spec_size(),
    ;
}

/// A cursor over a byte buffer that yields one parsed value per
/// fixed-size chunk.
pub struct FixedSizeParseIter<'a, T: FixedSizeParse> {
    pub bytes: &'a [u8],
    pub pos: usize,
    pub marker: core::marker::PhantomData<T>,
}

impl<'a, T: FixedSizeParse> FixedSizeParseIter<'a, T> {
    /// Starts a parse cursor at the front of a buffer.
    pub fn new(bytes: &'a [u8]) -> (r: Self)
        ensures
            r.bytes@ == bytes@,
            r.pos == 0,
    {
        FixedSizeParseIter { bytes, pos: 0, marker: core::marker::PhantomData }
    }

    /// Parses the next chunk, or yields nothing where less than one whole
    /// chunk remains.
    pub fn next(&mut self) -> (r: Option<Result<T, T::Error>>)
        requires
            old(self).pos <= old(self).bytes@.len(),
        ensures
            final(self).bytes == old(self).bytes,
            match r {
                Some(res) => {
                    &&& old(self).pos + T::spec_size() <= old(self).bytes@.len()
                    &&& final(self).pos == old(self).pos + T::spec_size()
                    &&& exists|chunk: &'a [u8]|
                        chunk@ == old(self).bytes@.subrange(
                            old(self).pos as int,
                            old(self).pos + T::spec_size(),
                        ) && call_ensures(T::parse, (chunk,), res)
                },
                None => {
                    &&& old(self).pos + T::spec_size() > old(self).bytes@.len()
                    &&& final(self).pos == old(self).pos
                },
            },
    {
        let size = T::size();
        if self.bytes.len() - self.pos < size {
            return None;
        }
        let chunk: &'a [u8] = &self.bytes[self.pos..self.pos + size];
        let res = T::parse(chunk);
        proof {
            assert(chunk@ == old(self).bytes@.subrange(
                old(self).pos as int,
                old(self).pos + T::spec_size(),
            ) && call_ensures(T::parse, (chunk,), res));
        }
        self.pos = self.pos + size;
        Some(res)
    }
}

/// Convenient chunk-level parsing directly on byte slices.
pub trait SliceParseExt {
    /// The bytes the parser walks.
    spec fn spec_data(&self) -> Seq<u8>;

    /// Decodes the buffer as batches of `N` values each; trailing bytes
    /// that do not fill a whole batch are ignored.
    fn batches<const N: usize, T: FieldValue>(&self) -> (r: Vec<Vec<T>>)
        requires
            N >= 1,
        ensures
            r.len() == self.spec_data().len() as int / (N * T::spec_size()) as int,
            forall|j: int|
                0 <= j < r.len() ==> (#[trigger] r@[j])@ == le_bytes_values::<T>(
                    self.spec_data().subrange(
                        j * (N * T::spec_size()),
                        j * (N * T::spec_size()) + (N * T::spec_size()),
                    ),
                ),
    ;

    /// Parses one value per whole `chunk_size`-byte chunk with a fallible
    /// parser; trailing bytes are ignored.
    fn try_parse<T, E, F: Fn(&[u8]) -> Result<T, E>>(
        &self,
        chunk_size: usize,
        parser: F,
    ) -> (r: Vec<Result<T, E>>)
        requires
            chunk_size >= 1,
            forall|chunk: &[u8]| chunk@.len() == chunk_size ==> #[trigger] parser.requires(
                (chunk,),
            ),
        ensures
            r.len() == self.spec_data().len() as int / chunk_size as int,
            forall|i: int|
                0 <= i < r.len() ==> parser_yields(
                    parser,
                    self.spec_data().subrange(i * chunk_size, i * chunk_size + chunk_size),
                    #[trigger] r@[i],
                ),
    ;
}

impl SliceParseExt for [u8] {
    open spec fn spec_data(&self) -> Seq<u8> {
        self@
    }

    #[verifier::loop_isolation(false)]
    fn batches<const N: usize, T: FieldValue>(&self) -> (r: Vec<Vec<T>>) {
        let size = T::size_bytes();
        proof {
            let v = T::from_le_spec(Seq::empty());
            v.lemma_le_bytes(Seq::empty());
            assert(N * T::spec_size() >= 1) by (nonlinear_arith)
                requires
                    N >= 1,
                    T::spec_size() >= 1,
            ;
        }
        let n = self.len();
        let bsize = match N.checked_mul(size) {
            Some(b) => b,
            None => {
                proof {
                    assert(self@.len() as int / (N * T::spec_size()) as int == 0) by (
                    nonlinear_arith)
                        requires
                            (N * T::spec_size()) > usize::MAX,
                            self@.len() == n,
                            n <= usize::MAX,
                    ;
                }
                return Vec::new();
            },
        };
        let count = n / bsize;
        let mut out: Vec<Vec<T>> = Vec::new();
        let mut j: usize = 0;
        proof {
            lemma_batch_bounds(self@.len() as int, bsize as int, count as int);
        }
        while j < count
            invariant
                j <= count,
                count == self@.len() as int / bsize as int,
                (count as int) * (bsize as int) <= self@.len(),
                out.len() == j,
                forall|t: int|
                    0 <= t < j ==> (#[trigger] out@[t])@ == le_bytes_values::<T>(
                        self@.subrange(t * bsize, t * bsize + bsize),
                    ),
            decreases count - j,
        {
            proof {
                lemma_batch_index(j as int, count as int, bsize as int, self@.len() as int);
            }
            let chunk = &self[j * bsize..j * bsize + bsize];
            let batch = <[T]>::from_bytes(chunk);
            out.push(batch);
            j = j + 1;
        }
        out
    }

    fn try_parse<T, E, F: Fn(&[u8]) -> Result<T, E>>(
        &self,
        chunk_size: usize,
        parser: F,
    ) -> (r: Vec<Result<T, E>>) {
        parse_with(self, chunk_size, parser)
    }
}

/// A whole number of batches fits the buffer they were counted from.
proof fn lemma_batch_bounds(len: int, size: int, count: int)
    by (nonlinear_arith)
    requires
        size >= 1,
        len >= 0,
        count == len / size,
    ensures
        count * size <= len,
        count >= 0,
{
}

/// An in-range batch index addresses a batch that ends in the buffer.
proof fn lemma_batch_index(j: int, count: int, size: int, len: int)
    by (nonlinear_arith)
    requires
        0 <= j < count,
        size >= 1,
        count * size <= len,
    ensures
        0 <= j * size,
        j * size + size <= len,
{
}

} // verus!
