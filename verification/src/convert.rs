//! Conversion between primitive values and their packed little-endian
//! byte representation, and helpers for parsing flat byte buffers.

use vstd::prelude::*;
use vstd::bytes::{
    spec_u16_from_le_bytes, spec_u16_to_le_bytes, spec_u32_from_le_bytes, spec_u32_to_le_bytes,
    spec_u64_from_le_bytes, spec_u64_to_le_bytes, u16_from_le_bytes, u16_to_le_bytes,
    u32_from_le_bytes, u32_to_le_bytes, u64_from_le_bytes, u64_to_le_bytes,
    lemma_auto_spec_u16_to_from_le_bytes, lemma_auto_spec_u32_to_from_le_bytes,
    lemma_auto_spec_u64_to_from_le_bytes,
};

verus! {

/// A primitive that can live as a fixed-size, little-endian field of a
/// packed struct. The byte image and the value determine each other.
pub trait FieldValue: Sized + Copy {
    /// Size in bytes of the packed representation.
    spec fn spec_size() -> nat;

    /// Alignment in bytes that a packed field of this type must honour.
    spec fn spec_align() -> nat;

    /// The little-endian byte image of a value.
    spec fn to_le_spec(self) -> Seq<u8>;

    /// The value a byte image of the right size decodes to.
    spec fn from_le_spec(bytes: Seq<u8>) -> Self;

    /// The byte image and the value determine each other, the image has
    /// the declared size, and the alignment is positive.
    proof fn lemma_le_bytes(self, bytes: Seq<u8>)
        ensures
            self.to_le_spec().len() == Self::spec_size(),
            Self::from_le_spec(self.to_le_spec()) == self,
            bytes.len() == Self::spec_size() ==> Self::from_le_spec(bytes).to_le_spec() == bytes,
            Self::spec_align() >= 1,
            Self::spec_size() >= 1,
    ;

    /// Size in bytes of the packed representation.
    fn size_bytes() -> (r: usize)
        ensures
            r == Self::spec_size(),
    ;

    /// Alignment in bytes that a packed field of this type must honour.
    fn align_bytes() -> (r: usize)
        ensures
            r == Self::spec_align(),
    ;

    /// Decodes a value from its little-endian bytes.
    fn read_le(bytes: &[u8]) -> (r: Self)
        requires
            bytes@.len() == Self::spec_size(),
        ensures
            r == Self::from_le_spec(bytes@),
    ;

    /// Encodes a value into its little-endian bytes.
    fn write_le(self) -> (r: Vec<u8>)
        ensures
            r@ == self.to_le_spec(),
    ;

    /// Wrapping addition, the accumulation the field handles use.
    spec fn spec_wrapping_add(self, other: Self) -> Self;

    /// Wrapping subtraction.
    spec fn spec_wrapping_sub(self, other: Self) -> Self;

    /// Wrapping addition, the accumulation the field handles use.
    fn field_add(self, other: Self) -> (r: Self)
        ensures
            r == self.spec_wrapping_add(other),
    ;

    /// Wrapping subtraction.
    fn field_sub(self, other: Self) -> (r: Self)
        ensures
            r == self.spec_wrapping_sub(other),
    ;
}

/// The concatenated little-endian bytes of a sequence of field values.
pub open spec fn values_le_bytes<T: FieldValue>(vals: Seq<T>) -> Seq<u8>
    decreases vals.len(),
{
    if vals.len() == 0 {
        Seq::empty()
    } else {
        values_le_bytes(vals.drop_last()) + vals.last().to_le_spec()
    }
}

/// The field values that a flat byte buffer holds, one per whole
/// `T`-sized chunk; trailing bytes are ignored.
pub open spec fn le_bytes_values<T: FieldValue>(bytes: Seq<u8>) -> Seq<T> {
    Seq::new(
        bytes.len() / T::spec_size(),
        |i: int|
            T::from_le_spec(
                bytes.subrange(i * T::spec_size(), i * T::spec_size() + T::spec_size()),
            ),
    )
}

/// Serialisation of a value collection to its packed bytes.
pub trait ToBytes {
    /// The serialised bytes.
    spec fn spec_to_bytes(&self) -> Seq<u8>;

    /// Serialises the collection to its packed bytes.
    fn to_bytes(&self) -> (r: Vec<u8>)
        ensures
            r@ == self.spec_to_bytes(),
    ;
}

impl<T: FieldValue> ToBytes for [T] {
    open spec fn spec_to_bytes(&self) -> Seq<u8> {
        values_le_bytes(self@)
    }

    fn to_bytes(&self) -> (r: Vec<u8>) {
        let mut out: Vec<u8> = Vec::new();
        let mut i: usize = 0;
        while i < self.len()
            invariant
                i <= self@.len(),
                out@ =~= values_le_bytes(self@.take(i as int)),
            decreases self@.len() - i,
        {
            let mut b = self[i].write_le();
            out.append(&mut b);
            proof {
                assert(self@.take(i + 1).drop_last() =~= self@.take(i as int));
                assert(self@.take(i + 1).last() == self@[i as int]);
                assert(out@ =~= values_le_bytes(self@.take(i + 1)));
            }
            i = i + 1;
        }
        proof {
            assert(self@.take(self@.len() as int) =~= self@);
        }
        out
    }
}

impl<T: FieldValue> ToBytes for Vec<T> {
    open spec fn spec_to_bytes(&self) -> Seq<u8> {
        values_le_bytes(self@)
    }

    fn to_bytes(&self) -> (r: Vec<u8>) {
        self.as_slice().to_bytes()
    }
}

/// Deserialisation of a flat byte buffer into typed values.
pub trait FromBytes<T: FieldValue> {
    /// Decodes one value per whole `T`-sized chunk of the buffer;
    /// trailing bytes are ignored.
    fn from_bytes(bytes: &[u8]) -> (r: Vec<T>)
        ensures
            r@ == le_bytes_values::<T>(bytes@),
    ;
}

impl<T: FieldValue> FromBytes<T> for [T] {
    #[verifier::loop_isolation(false)]
    fn from_bytes(bytes: &[u8]) -> (r: Vec<T>) {
        let size = T::size_bytes();
        proof {
            let v = T::from_le_spec(Seq::empty());
            v.lemma_le_bytes(Seq::empty());
        }
        let count = bytes.len() / size;
        let mut out: Vec<T> = Vec::new();
        let mut i: usize = 0;
        proof {
            lemma_chunk_in_bounds(bytes@.len() as int, size as int, count as int);
        }
        while i < count
            invariant
                i <= count,
                size == T::spec_size(),
                size >= 1,
                count == bytes@.len() as int / size as int,
                (count as int) * (size as int) <= bytes@.len(),
                out.len() == i,
                forall|j: int|
                    0 <= j < i ==> out@[j] == T::from_le_spec(
                        bytes@.subrange(j * T::spec_size(), j * T::spec_size() + T::spec_size()),
                    ),
            decreases count - i,
        {
            proof {
                lemma_chunk_index(i as int, count as int, size as int, bytes@.len() as int);
            }
            let v = T::read_le(&bytes[i * size..i * size + size]);
            out.push(v);
            i = i + 1;
        }
        proof {
            assert(out@ =~= le_bytes_values::<T>(bytes@));
        }
        out
    }
}

/// A whole number of chunks fits the buffer they were counted from.
proof fn lemma_chunk_in_bounds(len: int, size: int, count: int)
    by (nonlinear_arith)
    requires
        size >= 1,
        len >= 0,
        count == len / size,
    ensures
        count * size <= len,
        count >= 0,
{
}

/// An in-range chunk index addresses a chunk that ends in the buffer.
proof fn lemma_chunk_index(i: int, count: int, size: int, len: int)
    by (nonlinear_arith)
    requires
        0 <= i < count,
        size >= 1,
        count * size <= len,
    ensures
        0 <= i * size,
        i * size + size <= len,
{
}

/// A single value's conversion to and from its packed prefix bytes.
pub trait PackedConvert: Sized {
    /// The packed bytes of a value.
    spec fn spec_packed(self) -> Seq<u8>;

    /// The packed size in bytes.
    spec fn spec_packed_size() -> nat;

    /// Appends the value's packed bytes to a buffer.
    fn pack_into(&self, buffer: &mut Vec<u8>)
        ensures
            final(buffer)@ == old(buffer)@ + self.spec_packed(),
    ;

    /// Decodes a value from the front of a buffer, or nothing where the
    /// buffer is too short.
    fn unpack_prefix(buffer: &[u8]) -> (r: Option<Self>)
        ensures
            match r {
                Some(v) => buffer@.len() >= Self::spec_packed_size() && v.spec_packed()
                    == buffer@.take(Self::spec_packed_size() as int),
                None => buffer@.len() < Self::spec_packed_size(),
            },
    ;

    /// The packed size in bytes.
    fn packed_size() -> (r: usize)
        ensures
            r == Self::spec_packed_size(),
    ;
}

impl<T: FieldValue> PackedConvert for T {
    open spec fn spec_packed(self) -> Seq<u8> {
        self.to_le_spec()
    }

    open spec fn spec_packed_size() -> nat {
        T::spec_size()
    }

    fn pack_into(&self, buffer: &mut Vec<u8>) {
        let mut b = self.write_le();
        buffer.append(&mut b);
    }

    fn unpack_prefix(buffer: &[u8]) -> (r: Option<Self>) {
        let size = T::size_bytes();
        if buffer.len() < size {
            return None;
        }
        let v = T::read_le(&buffer[0..size]);
        proof {
            v.lemma_le_bytes(buffer@.take(size as int));
        }
        Some(v)
    }

    fn packed_size() -> (r: usize) {
        T::size_bytes()
    }
}

/// Extracts `N` consecutive elements starting at `start`, or nothing
/// where fewer than `N` remain.
#[verifier::loop_isolation(false)]
pub fn batch<const N: usize, T: Copy>(slice: &[T], start: usize) -> (r: Option<Vec<T>>)
    ensures
        match r {
            Some(v) => start + N <= slice@.len() && v@ == slice@.subrange(
                start as int,
                start + N,
            ),
            None => start + N > slice@.len(),
        },
{
    if slice.len() < N || start > slice.len() - N {
        return None;
    }
    let mut out: Vec<T> = Vec::new();
    let mut i: usize = 0;
    while i < N
        invariant
            i <= N,
            start + N <= slice@.len(),
            out@ =~= slice@.subrange(start as int, start + i),
        decreases N - i,
    {
        out.push(slice[start + i]);
        proof {
            assert(out@ =~= slice@.subrange(start as int, start + i + 1));
        }
        i = i + 1;
    }
    Some(out)
}

/// Whether `res` is a possible result of the type's fallible conversion
/// from a byte chunk with the given contents.
pub open spec fn parses_to<'a, T, E>(data: Seq<u8>, res: Result<T, E>) -> bool where
    T: TryFrom<&'a [u8], Error = E>
{
    exists|c: &'a [u8]| c@ == data && call_ensures(T::try_from, (c,), res)
}

/// Whether `res` is a possible result of the parser on a byte chunk with
/// the given contents.
pub open spec fn parser_yields<T, E, F: Fn(&[u8]) -> Result<T, E>>(
    f: F,
    data: Seq<u8>,
    res: Result<T, E>,
) -> bool {
    exists|c: &[u8]| c@ == data && call_ensures(f, (c,), res)
}

/// Parses one value per whole `SIZE`-byte chunk of a buffer through the
/// type's fallible conversion from bytes; trailing bytes are ignored.
#[verifier::loop_isolation(false)]
pub fn try_parse_iter<'a, T, E, const SIZE: usize>(bytes: &'a [u8]) -> (r: Vec<Result<T, E>>) where
    T: TryFrom<&'a [u8], Error = E>

    requires
        SIZE >= 1,
    ensures
        r.len() == bytes@.len() as int / SIZE as int,
        forall|i: int|
            0 <= i < r.len() ==> parses_to::<'a, T, E>(
                bytes@.subrange(i * SIZE, i * SIZE + SIZE),
                #[trigger] r@[i],
            ),
{
    let count = bytes.len() / SIZE;
    let mut out: Vec<Result<T, E>> = Vec::new();
    let mut i: usize = 0;
    proof {
        lemma_chunk_in_bounds(bytes@.len() as int, SIZE as int, count as int);
    }
    while i < count
        invariant
            i <= count,
            count == bytes@.len() as int / SIZE as int,
            (count as int) * (SIZE as int) <= bytes@.len(),
            out.len() == i,
            forall|j: int|
                0 <= j < i ==> parses_to::<'a, T, E>(
                    bytes@.subrange(j * SIZE, j * SIZE + SIZE),
                    #[trigger] out@[j],
                ),
        decreases count - i,
    {
        proof {
            lemma_chunk_index(i as int, count as int, SIZE as int, bytes@.len() as int);
        }
        let chunk: &'a [u8] = &bytes[i * SIZE..i * SIZE + SIZE];
        let res = T::try_from(chunk);
        proof {
            assert(chunk@ == bytes@.subrange(i as int * SIZE, i as int * SIZE + SIZE)
                && call_ensures(T::try_from, (chunk,), res));
            assert(parses_to::<'a, T, E>(
                bytes@.subrange(i as int * SIZE, i as int * SIZE + SIZE),
                res,
            ));
        }
        out.push(res);
        i = i + 1;
    }
    out
}

/// Parses one value per whole `chunk_size`-byte chunk of a buffer with a
/// fallible parser; trailing bytes are ignored.
#[verifier::loop_isolation(false)]
pub fn parse_with<T, E, F: Fn(&[u8]) -> Result<T, E>>(
    bytes: &[u8],
    chunk_size: usize,
    parser: F,
) -> (r: Vec<Result<T, E>>)
    requires
        chunk_size >= 1,
        forall|chunk: &[u8]| chunk@.len() == chunk_size ==> #[trigger] parser.requires((chunk,)),
    ensures
        r.len() == bytes@.len() as int / chunk_size as int,
        forall|i: int|
            0 <= i < r.len() ==> parser_yields(
                parser,
                bytes@.subrange(i * chunk_size, i * chunk_size + chunk_size),
                #[trigger] r@[i],
            ),
{
    let count = bytes.len() / chunk_size;
    let mut out: Vec<Result<T, E>> = Vec::new();
    let mut i: usize = 0;
    proof {
        lemma_chunk_in_bounds(bytes@.len() as int, chunk_size as int, count as int);
    }
    while i < count
        invariant
            i <= count,
            count == bytes@.len() as int / chunk_size as int,
            chunk_size >= 1,
            (count as int) * (chunk_size as int) <= bytes@.len(),
            out.len() == i,
            forall|chunk: &[u8]| chunk@.len() == chunk_size ==> #[trigger] parser.requires(
                (chunk,),
            ),
            forall|j: int|
                0 <= j < i ==> parser_yields(
                    parser,
                    bytes@.subrange(j * chunk_size, j * chunk_size + chunk_size),
                    #[trigger] out@[j],
                ),
        decreases count - i,
    {
        proof {
            lemma_chunk_index(i as int, count as int, chunk_size as int, bytes@.len() as int);
        }
        let chunk: &[u8] = &bytes[i * chunk_size..i * chunk_size + chunk_size];
        let res = parser(chunk);
        proof {
            assert(chunk@ == bytes@.subrange(
                i as int * chunk_size,
                i as int * chunk_size + chunk_size,
            ) && call_ensures(parser, (chunk,), res));
            assert(parser_yields(
                parser,
                bytes@.subrange(i as int * chunk_size, i as int * chunk_size + chunk_size),
                res,
            ));
        }
        out.push(res);
        i = i + 1;
    }
    out
}

impl FieldValue for u8 {
    open spec fn spec_size() -> nat {
        1
    }

    open spec fn spec_align() -> nat {
        1
    }

    open spec fn to_le_spec(self) -> Seq<u8> {
        seq![self]
    }

    open spec fn from_le_spec(bytes: Seq<u8>) -> u8 {
        bytes[0]
    }

    proof fn lemma_le_bytes(self, bytes: Seq<u8>) {
        if bytes.len() == 1 {
            assert(Self::from_le_spec(bytes).to_le_spec() =~= bytes);
        }
    }

    fn size_bytes() -> usize {
        1
    }

    fn align_bytes() -> usize {
        1
    }

    fn read_le(bytes: &[u8]) -> u8 {
        bytes[0]
    }

    fn write_le(self) -> (r: Vec<u8>) {
        let mut out: Vec<u8> = Vec::new();
        out.push(self);
        proof {
            assert(out@ =~= self.to_le_spec());
        }
        out
    }

    open spec fn spec_wrapping_add(self, other: u8) -> u8 {
        vstd::wrapping::u8_specs::wrapping_add(self, other)
    }

    open spec fn spec_wrapping_sub(self, other: u8) -> u8 {
        vstd::wrapping::u8_specs::wrapping_sub(self, other)
    }

    fn field_add(self, other: u8) -> u8 {
        self.wrapping_add(other)
    }

    fn field_sub(self, other: u8) -> u8 {
        self.wrapping_sub(other)
    }
}

impl FieldValue for u16 {
    open spec fn spec_size() -> nat {
        2
    }

    open spec fn spec_align() -> nat {
        2
    }

    open spec fn to_le_spec(self) -> Seq<u8> {
        spec_u16_to_le_bytes(self)
    }

    open spec fn from_le_spec(bytes: Seq<u8>) -> u16 {
        spec_u16_from_le_bytes(bytes)
    }

    proof fn lemma_le_bytes(self, bytes: Seq<u8>) {
        lemma_auto_spec_u16_to_from_le_bytes();
    }

    fn size_bytes() -> usize {
        2
    }

    fn align_bytes() -> usize {
        2
    }

    fn read_le(bytes: &[u8]) -> u16 {
        u16_from_le_bytes(bytes)
    }

    fn write_le(self) -> (r: Vec<u8>) {
        u16_to_le_bytes(self)
    }

    open spec fn spec_wrapping_add(self, other: u16) -> u16 {
        vstd::wrapping::u16_specs::wrapping_add(self, other)
    }

    open spec fn spec_wrapping_sub(self, other: u16) -> u16 {
        vstd::wrapping::u16_specs::wrapping_sub(self, other)
    }

    fn field_add(self, other: u16) -> u16 {
        self.wrapping_add(other)
    }

    fn field_sub(self, other: u16) -> u16 {
        self.wrapping_sub(other)
    }
}

impl FieldValue for u32 {
    open spec fn spec_size() -> nat {
        4
    }

    open spec fn spec_align() -> nat {
        4
    }

    open spec fn to_le_spec(self) -> Seq<u8> {
        spec_u32_to_le_bytes(self)
    }

    open spec fn from_le_spec(bytes: Seq<u8>) -> u32 {
        spec_u32_from_le_bytes(bytes)
    }

    proof fn lemma_le_bytes(self, bytes: Seq<u8>) {
        lemma_auto_spec_u32_to_from_le_bytes();
    }

    fn size_bytes() -> usize {
        4
    }

    fn align_bytes() -> usize {
        4
    }

    fn read_le(bytes: &[u8]) -> u32 {
        u32_from_le_bytes(bytes)
    }

    fn write_le(self) -> (r: Vec<u8>) {
        u32_to_le_bytes(self)
    }

    open spec fn spec_wrapping_add(self, other: u32) -> u32 {
        vstd::wrapping::u32_specs::wrapping_add(self, other)
    }

    open spec fn spec_wrapping_sub(self, other: u32) -> u32 {
        vstd::wrapping::u32_specs::wrapping_sub(self, other)
    }

    fn field_add(self, other: u32) -> u32 {
        self.wrapping_add(other)
    }

    fn field_sub(self, other: u32) -> u32 {
        self.wrapping_sub(other)
    }
}

impl FieldValue for u64 {
    open spec fn spec_size() -> nat {
        8
    }

    open spec fn spec_align() -> nat {
        8
    }

    open spec fn to_le_spec(self) -> Seq<u8> {
        spec_u64_to_le_bytes(self)
    }

    open spec fn from_le_spec(bytes: Seq<u8>) -> u64 {
        spec_u64_from_le_bytes(bytes)
    }

    proof fn lemma_le_bytes(self, bytes: Seq<u8>) {
        lemma_auto_spec_u64_to_from_le_bytes();
    }

    fn size_bytes() -> usize {
        8
    }

    fn align_bytes() -> usize {
        8
    }

    fn read_le(bytes: &[u8]) -> u64 {
        u64_from_le_bytes(bytes)
    }

    fn write_le(self) -> (r: Vec<u8>) {
        u64_to_le_bytes(self)
    }

    open spec fn spec_wrapping_add(self, other: u64) -> u64 {
        vstd::wrapping::u64_specs::wrapping_add(self, other)
    }

    open spec fn spec_wrapping_sub(self, other: u64) -> u64 {
        vstd::wrapping::u64_specs::wrapping_sub(self, other)
    }

    fn field_add(self, other: u64) -> u64 {
        self.wrapping_add(other)
    }

    fn field_sub(self, other: u64) -> u64 {
        self.wrapping_sub(other)
    }
}

} // verus!
