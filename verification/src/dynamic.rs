//! Dynamic, name-indexed field access over flat struct-array bytes, driven
//! by a decoded type descriptor: a stateless lens over a byte buffer.

use vstd::prelude::*;
use vstd::utf8::{valid_utf8, decode_utf8};
use crate::mtf::{
    FieldDef, TypeDef, MTFError, parse_mtf, spec_mtf_error, read_mtf, read_string, cstr_at,
    nul_pos, spec_locate, locate_metadata, meta_match,
};
use crate::convert::FieldValue;

verus! {

/// Why resolving a name offset against a string table fails, if it does:
/// offset out of bounds, no terminator, or invalid UTF-8.
pub open spec fn name_error(strs: Seq<u8>, off: u32) -> Option<MTFError> {
    if off as int >= strs.len() {
        Some(MTFError::InvalidStringOffset(off))
    } else if nul_pos(strs, off as int) >= strs.len() {
        Some(MTFError::UnexpectedEof)
    } else if !valid_utf8(cstr_at(strs, off as int)) {
        Some(MTFError::InvalidUtf8)
    } else {
        None
    }
}

/// The first name-resolution failure over a field list, in order.
pub open spec fn first_name_error(strs: Seq<u8>, fs: Seq<FieldDef>) -> Option<MTFError>
    decreases fs.len(),
{
    if fs.len() == 0 {
        None
    } else if name_error(strs, fs[0].name_offset) is Some {
        name_error(strs, fs[0].name_offset)
    } else {
        first_name_error(strs, fs.drop_first())
    }
}

/// Whether every field lies within a struct of `size_bits` bits.
pub open spec fn fields_in_bounds(fs: Seq<FieldDef>, size_bits: u32) -> bool {
    forall|i: int|
        0 <= i < fs.len() ==> (#[trigger] fs[i]).offset_bits + fs[i].size_bits <= size_bits
}

/// Whether no two fields share a bit: each pair of bit ranges is disjoint.
pub open spec fn fields_disjoint(fs: Seq<FieldDef>) -> bool {
    forall|i: int, j: int|
        0 <= i < j < fs.len() ==> ((#[trigger] fs[i]).offset_bits + fs[i].size_bits
            <= (#[trigger] fs[j]).offset_bits || fs[j].offset_bits + fs[j].size_bits
            <= fs[i].offset_bits)
}

/// Whether a metadata blob yields a container: it parses, holds at least
/// one type, the type's name and every field name resolve, and the fields
/// lie within the struct without overlap. All of this is validated
/// eagerly, at construction.
pub open spec fn spec_from_raw_ok(blob: Seq<u8>) -> bool {
    &&& parse_mtf(blob) is Some
    &&& parse_mtf(blob)->Some_0.0.len() > 0
    &&& name_error(parse_mtf(blob)->Some_0.1, parse_mtf(blob)->Some_0.0[0].name_offset) is None
    &&& first_name_error(parse_mtf(blob)->Some_0.1, parse_mtf(blob)->Some_0.0[0].fields) is None
    &&& fields_in_bounds(
        parse_mtf(blob)->Some_0.0[0].fields,
        parse_mtf(blob)->Some_0.0[0].size_bits,
    )
    &&& fields_disjoint(parse_mtf(blob)->Some_0.0[0].fields)
}

/// The error construction reports when a blob yields no container: the
/// first check that fails, in the order the constructor makes them.
pub open spec fn spec_from_raw_err(blob: Seq<u8>) -> MTFError {
    if parse_mtf(blob) is None {
        spec_mtf_error(blob)
    } else if parse_mtf(blob)->Some_0.0.len() == 0 {
        MTFError::UnexpectedEof
    } else if name_error(
        parse_mtf(blob)->Some_0.1,
        parse_mtf(blob)->Some_0.0[0].name_offset,
    ) is Some {
        name_error(parse_mtf(blob)->Some_0.1, parse_mtf(blob)->Some_0.0[0].name_offset)->Some_0
    } else if first_name_error(
        parse_mtf(blob)->Some_0.1,
        parse_mtf(blob)->Some_0.0[0].fields,
    ) is Some {
        first_name_error(parse_mtf(blob)->Some_0.1, parse_mtf(blob)->Some_0.0[0].fields)->Some_0
    } else {
        MTFError::InvalidFieldLayout
    }
}

/// The field descriptor a name resolves to; the last field with that name
/// wins, as a map built by insertion in field order would have it.
pub open spec fn spec_lookup(fields: Seq<(String, FieldDef)>, name: Seq<char>) -> Option<FieldDef>
    decreases fields.len(),
{
    if fields.len() == 0 {
        None
    } else if fields.last().0@ == name {
        Some(fields.last().1)
    } else {
        spec_lookup(fields.drop_last(), name)
    }
}

/// Dynamic access to a flat array of structs described by a type
/// descriptor decoded at construction time.
pub struct DynamicContainer {
    pub data: Vec<u8>,
    pub type_def: TypeDef,
    pub strings: Vec<u8>,
    pub struct_size: usize,
    pub fields: Vec<(String, FieldDef)>,
}

impl DynamicContainer {
    /// Well-formedness: the stride is the type's byte size, the type's name
    /// resolves, the name index mirrors the type's field list with every
    /// name resolved, and the fields lie within the struct without overlap.
    pub open spec fn wf(self) -> bool {
        &&& self.struct_size == ((self.type_def.size_bits as int) + 7) / 8
        &&& name_error(self.strings@, self.type_def.name_offset) is None
        &&& fields_in_bounds(self.type_def.fields@, self.type_def.size_bits)
        &&& fields_disjoint(self.type_def.fields@)
        &&& self.fields@.len() == self.type_def.fields@.len()
        &&& forall|i: int|
            0 <= i < self.fields@.len() ==> {
                &&& (#[trigger] self.fields@[i]).1 == self.type_def.fields@[i]
                &&& name_error(self.strings@, self.fields@[i].1.name_offset) is None
                &&& self.fields@[i].0@ == decode_utf8(
                    cstr_at(self.strings@, self.fields@[i].1.name_offset as int),
                )
            }
    }

    /// The number of whole structs the byte buffer holds.
    pub open spec fn spec_len(self) -> nat {
        if self.struct_size == 0 {
            0
        } else {
            (self.data.len() as nat) / (self.struct_size as nat)
        }
    }

    /// Construct from raw struct-array bytes and a complete metadata blob.
    /// Decodes the blob, takes its first type, and builds the name index.
    /// Every structural property of the untrusted descriptor is validated
    /// here, eagerly: the type name and every field name must resolve, and
    /// the fields must lie within the struct's declared size without
    /// overlapping.
    #[verifier::loop_isolation(false)]
    pub fn from_raw(data: Vec<u8>, blob: &Vec<u8>) -> (r: Result<DynamicContainer, MTFError>)
        ensures
            r is Ok <==> spec_from_raw_ok(blob@),
            match r {
                Ok(c) => {
                    &&& c.wf()
                    &&& c.data@ == data@
                    &&& c.type_def@ == parse_mtf(blob@)->Some_0.0[0]
                    &&& c.strings@ == parse_mtf(blob@)->Some_0.1
                },
                Err(e) => e == spec_from_raw_err(blob@),
            },
    {
        let parsed = match read_mtf(blob) {
            Ok(x) => x,
            Err(e) => {
                return Err(e);
            },
        };
        let mut types = parsed.0;
        let strings = parsed.1;
        if types.len() == 0 {
            return Err(MTFError::UnexpectedEof);
        }
        let type_def = types.remove(0);
        let ghost fseq = type_def.fields@;
        proof {
            assert(type_def@ == parse_mtf(blob@)->Some_0.0[0]);
        }
        match read_string(&strings, type_def.name_offset) {
            Ok(_) => {},
            Err(e) => {
                proof {
                    assert(name_error(strings@, type_def.name_offset) == Some(e));
                }
                return Err(e);
            },
        }
        proof {
            assert(name_error(strings@, type_def.name_offset) is None);
        }
        let struct_size = ((type_def.size_bits as u64 + 7) / 8) as usize;
        let mut fields: Vec<(String, FieldDef)> = Vec::new();
        let mut i: usize = 0;
        proof {
            assert(fseq.skip(0) =~= fseq);
        }
        while i < type_def.fields.len()
            invariant
                i <= fseq.len(),
                fields.len() == i,
                type_def.fields@ == fseq,
                first_name_error(strings@, fseq) == first_name_error(strings@, fseq.skip(i as int)),
                forall|j: int|
                    0 <= j < i ==> {
                        &&& (#[trigger] fields@[j]).1 == fseq[j]
                        &&& name_error(strings@, fields@[j].1.name_offset) is None
                        &&& fields@[j].0@ == decode_utf8(
                            cstr_at(strings@, fields@[j].1.name_offset as int),
                        )
                    },
            decreases fseq.len() - i,
        {
            let f = type_def.fields[i];
            proof {
                assert(fseq.skip(i as int)[0] == fseq[i as int]);
                assert(fseq.skip(i as int).drop_first() =~= fseq.skip(i as int + 1));
            }
            let name = match read_string(&strings, f.name_offset) {
                Ok(s) => s,
                Err(e) => {
                    proof {
                        assert(name_error(strings@, f.name_offset) == Some(e));
                        assert(first_name_error(strings@, fseq) == Some(e));
                    }
                    return Err(e);
                },
            };
            proof {
                assert(name_error(strings@, f.name_offset) is None);
            }
            fields.push((name, f));
            i = i + 1;
        }
        proof {
            assert(fseq.skip(fseq.len() as int) =~= Seq::<FieldDef>::empty());
        }
        // Every field must lie within the struct's declared bit size.
        let mut bi: usize = 0;
        while bi < type_def.fields.len()
            invariant
                bi <= fseq.len(),
                type_def.fields@ == fseq,
                forall|k: int|
                    0 <= k < bi ==> (#[trigger] fseq[k]).offset_bits + fseq[k].size_bits
                        <= type_def.size_bits,
            decreases fseq.len() - bi,
        {
            let f = type_def.fields[bi];
            if f.size_bits > type_def.size_bits || f.offset_bits > type_def.size_bits
                - f.size_bits {
                proof {
                    assert(!fields_in_bounds(fseq, type_def.size_bits));
                }
                return Err(MTFError::InvalidFieldLayout);
            }
            bi = bi + 1;
        }
        proof {
            assert(fields_in_bounds(fseq, type_def.size_bits));
        }
        // No two fields may overlap.
        let n = type_def.fields.len();
        let mut oi: usize = 0;
        while oi < n
            invariant
                oi <= n,
                n == fseq.len(),
                type_def.fields@ == fseq,
                fields_in_bounds(fseq, type_def.size_bits),
                forall|a: int, b: int|
                    0 <= a < b < fseq.len() && a < oi ==> ((#[trigger] fseq[a]).offset_bits
                        + fseq[a].size_bits <= (#[trigger] fseq[b]).offset_bits
                        || fseq[b].offset_bits + fseq[b].size_bits <= fseq[a].offset_bits),
            decreases n - oi,
        {
            let fi = type_def.fields[oi];
            let mut oj: usize = oi + 1;
            while oj < n
                invariant
                    oi < n,
                    oi + 1 <= oj <= n,
                    n == fseq.len(),
                    type_def.fields@ == fseq,
                    fields_in_bounds(fseq, type_def.size_bits),
                    fi == fseq[oi as int],
                    forall|b: int|
                        oi < b < oj ==> (fseq[oi as int].offset_bits + fseq[oi as int].size_bits
                            <= (#[trigger] fseq[b]).offset_bits || fseq[b].offset_bits
                            + fseq[b].size_bits <= fseq[oi as int].offset_bits),
                decreases n - oj,
            {
                let fj = type_def.fields[oj];
                if !(fi.offset_bits + fi.size_bits <= fj.offset_bits || fj.offset_bits
                    + fj.size_bits <= fi.offset_bits) {
                    proof {
                        assert(!fields_disjoint(fseq));
                    }
                    return Err(MTFError::InvalidFieldLayout);
                }
                oj = oj + 1;
            }
            oi = oi + 1;
        }
        proof {
            assert(fields_disjoint(fseq));
        }
        Ok(DynamicContainer { data, type_def, strings, struct_size, fields })
    }

    /// The number of structs in the container.
    pub fn len(&self) -> (r: usize)
        ensures
            r == self.spec_len(),
    {
        if self.struct_size == 0 {
            0
        } else {
            self.data.len() / self.struct_size
        }
    }

    /// True when the container holds no whole struct.
    pub fn is_empty(&self) -> (r: bool)
        ensures
            r == (self.spec_len() == 0),
    {
        self.len() == 0
    }

    /// The container's type name, resolved from the string table.
    pub fn name(&self) -> (r: Result<String, MTFError>)
        ensures
            match r {
                Ok(out) => {
                    &&& name_error(self.strings@, self.type_def.name_offset) is None
                    &&& out@ == decode_utf8(
                        cstr_at(self.strings@, self.type_def.name_offset as int),
                    )
                },
                Err(e) => name_error(self.strings@, self.type_def.name_offset) == Some(e),
            },
    {
        read_string(&self.strings, self.type_def.name_offset)
    }

    /// All field names, in field order.
    pub fn field_names(&self) -> (r: Vec<String>)
        ensures
            r.len() == self.fields.len(),
            forall|i: int| 0 <= i < r.len() ==> (#[trigger] r@[i])@ == self.fields@[i].0@,
    {
        let mut out: Vec<String> = Vec::new();
        let mut i: usize = 0;
        while i < self.fields.len()
            invariant
                i <= self.fields.len(),
                out.len() == i,
                forall|j: int| 0 <= j < i ==> (#[trigger] out@[j])@ == self.fields@[j].0@,
            decreases self.fields.len() - i,
        {
            out.push(self.fields[i].0.clone());
            i = i + 1;
        }
        out
    }

    /// The raw struct-array bytes.
    pub fn raw(&self) -> (r: &Vec<u8>)
        ensures
            r@ == self.data@,
    {
        &self.data
    }

    /// The raw struct-array bytes, mutably.
    pub fn raw_mut(&mut self) -> (r: &mut Vec<u8>)
        ensures
            *r == old(self).data,
            final(self).data == *final(r),
            final(self).type_def == old(self).type_def,
            final(self).strings == old(self).strings,
            final(self).struct_size == old(self).struct_size,
            final(self).fields == old(self).fields,
    {
        &mut self.data
    }

    /// The struct indices `0..len()`, for consumers that walk the array
    /// and look fields up per index.
    pub fn iter(&self) -> (r: Vec<usize>)
        ensures
            r.len() == self.spec_len(),
            forall|i: int| 0 <= i < r.len() ==> r@[i] == i,
    {
        let n = self.len();
        let mut out: Vec<usize> = Vec::new();
        let mut i: usize = 0;
        while i < n
            invariant
                i <= n,
                out.len() == i,
                forall|j: int| 0 <= j < i ==> out@[j] == j,
            decreases n - i,
        {
            out.push(i);
            i = i + 1;
        }
        out
    }

    /// The byte range of field `name` of struct `index` for a value type
    /// of `tsize` bytes and `talign` alignment, or `None` where any access
    /// check fails: index out of bounds, unknown name, field size not equal
    /// to the type's size, misaligned byte offset, or range out of bounds.
    pub open spec fn spec_field_ok(
        self,
        index: int,
        name: Seq<char>,
        tsize: nat,
        talign: nat,
    ) -> Option<(int, int)> {
        if 0 <= index < self.spec_len() {
            match spec_lookup(self.fields@, name) {
                Some(fd) => {
                    let fsize = ((fd.size_bits as int) + 7) / 8;
                    let foff = (fd.offset_bits as int) / 8;
                    if fsize == tsize && talign > 0 && foff % (talign as int) == 0 {
                        let start = index * self.struct_size + foff;
                        if start + fsize <= self.data.len() {
                            Some((start, start + fsize))
                        } else {
                            None
                        }
                    } else {
                        None
                    }
                },
                None => None,
            }
        } else {
            None
        }
    }

    /// Reads field `name` of struct `index` as a `T`, when every access
    /// check passes: the declared field size must equal `T`'s size and the
    /// field's byte offset must honour `T`'s alignment.
    pub fn field<T: FieldValue>(&self, index: usize, name: &str) -> (r: Option<T>)
        ensures
            match r {
                Some(v) => {
                    &&& self.spec_field_ok(
                        index as int,
                        name@,
                        T::spec_size(),
                        T::spec_align(),
                    ) is Some
                    &&& v == T::from_le_spec(
                        self.data@.subrange(
                            self.spec_field_ok(
                                index as int,
                                name@,
                                T::spec_size(),
                                T::spec_align(),
                            )->Some_0.0,
                            self.spec_field_ok(
                                index as int,
                                name@,
                                T::spec_size(),
                                T::spec_align(),
                            )->Some_0.1,
                        ),
                    )
                },
                None => self.spec_field_ok(
                    index as int,
                    name@,
                    T::spec_size(),
                    T::spec_align(),
                ) is None,
            },
    {
        match self.field_range::<T>(index, name) {
            Some((fstart, fend)) => {
                let v = T::read_le(&self.data.as_slice()[fstart..fend]);
                Some(v)
            },
            None => None,
        }
    }

    /// The resolved byte range behind `spec_field_ok`, computed once and
    /// shared by reads and handles.
    fn field_range<T: FieldValue>(&self, index: usize, name: &str) -> (r: Option<(usize, usize)>)
        ensures
            ({
                let ok = self.spec_field_ok(index as int, name@, T::spec_size(), T::spec_align());
                match r {
                    Some((a, b)) => ok == Some((a as int, b as int)) && b <= self.data.len() && a
                        <= b && b - a == T::spec_size(),
                    None => ok is None,
                }
            }),
    {
        let n = self.len();
        if index >= n {
            return None;
        }
        let fd = match self.lookup(name) {
            Some(fd) => fd,
            None => {
                return None;
            },
        };
        let fsize = ((fd.size_bits as u64 + 7) / 8) as usize;
        let tsize = T::size_bytes();
        if fsize != tsize {
            return None;
        }
        let foff = (fd.offset_bits / 8) as usize;
        let talign = T::align_bytes();
        proof {
            let v = T::from_le_spec(Seq::empty());
            v.lemma_le_bytes(Seq::empty());
        }
        if foff % talign != 0 {
            return None;
        }
        proof {
            lemma_index_start(index as int, self.struct_size as int, self.data.len() as int);
        }
        let start = index * self.struct_size;
        let avail = self.data.len() - start;
        if foff > avail {
            return None;
        }
        if fsize > avail - foff {
            return None;
        }
        let fstart = start + foff;
        Some((fstart, fstart + fsize))
    }

    /// Resolves a field name against the name index; the last field with
    /// the name wins.
    fn lookup(&self, name: &str) -> (r: Option<FieldDef>)
        ensures
            r == spec_lookup(self.fields@, name@),
    {
        let owned: String = name.to_owned();
        let mut k = self.fields.len();
        proof {
            assert(self.fields@.take(k as int) =~= self.fields@);
        }
        while k > 0
            invariant
                k <= self.fields.len(),
                owned@ == name@,
                spec_lookup(self.fields@, name@) == spec_lookup(
                    self.fields@.take(k as int),
                    name@,
                ),
            decreases k,
        {
            k = k - 1;
            proof {
                assert(self.fields@.take(k as int + 1).last() == self.fields@[k as int]);
                assert(self.fields@.take(k as int + 1).drop_last() =~= self.fields@.take(
                    k as int,
                ));
            }
            if self.fields[k].0 == owned {
                return Some(self.fields[k].1);
            }
        }
        None
    }
}

/// A successful metadata scan lands on a position that satisfies every
/// condition of the scan.
proof fn lemma_locate_match(all: Seq<u8>, from: int)
    requires
        spec_locate(all, from) is Some,
    ensures
        meta_match(all, spec_locate(all, from)->Some_0),
        spec_locate(all, from)->Some_0 >= from,
    decreases all.len() - from,
{
    if !(from < 0 || from >= all.len() - 4) && !meta_match(all, from) {
        lemma_locate_match(all, from + 1);
    }
}

/// An in-bounds struct index starts a struct that ends within the buffer.
proof fn lemma_index_start(index: int, ss: int, len: int)
    by (nonlinear_arith)
    requires
        ss >= 1,
        len >= 0,
        0 <= index < len / ss,
    ensures
        0 <= index * ss,
        index * ss + ss <= len,
{
}

/// Overwrites `data[s .. s + bytes.len()]` with `bytes`, leaving every
/// other byte alone.
fn splice_bytes(data: &mut Vec<u8>, s: usize, bytes: &Vec<u8>)
    requires
        s + bytes.len() <= old(data).len(),
    ensures
        final(data).len() == old(data).len(),
        forall|j: int| 0 <= j < bytes.len() ==> final(data)@[s + j] == bytes@[j],
        forall|p: int|
            0 <= p < final(data).len() && !(s <= p < s + bytes.len()) ==> final(data)@[p] == old(
                data,
            )@[p],
{
    let mut j: usize = 0;
    while j < bytes.len()
        invariant
            j <= bytes.len(),
            s + bytes.len() <= data.len(),
            data.len() == old(data).len(),
            forall|t: int| 0 <= t < j ==> data@[s + t] == bytes@[t],
            forall|p: int|
                0 <= p < data.len() && !(s <= p < s + j) ==> data@[p] == old(data)@[p],
        decreases bytes.len() - j,
    {
        data.set(s + j, bytes[j]);
        j = j + 1;
    }
}

/// A handle to one typed field of one struct in a container: the resolved
/// byte range, or nothing where the lookup failed. Mutators on an empty
/// handle are no-ops, so handle operations chain safely.
pub struct FieldHandle<T> {
    pub range: Option<(usize, usize)>,
    pub marker: core::marker::PhantomData<T>,
}

impl<T: FieldValue> FieldHandle<T> {
    /// Whether the handle's range addresses a `T`-sized field inside the
    /// container's buffer.
    pub open spec fn spec_valid_in(self, c: DynamicContainer) -> bool {
        match self.range {
            Some((s, e)) => s <= e <= c.data.len() && e - s == T::spec_size(),
            None => false,
        }
    }

    /// The container's bytes after writing `v` over the handle's range.
    pub open spec fn spec_written(self, c: DynamicContainer, v: T) -> Seq<u8> {
        let s = self.range->Some_0.0 as int;
        let e = self.range->Some_0.1 as int;
        c.data@.subrange(0, s) + v.to_le_spec() + c.data@.subrange(e, c.data.len() as int)
    }

    /// The value the handle's range currently decodes to.
    pub open spec fn spec_read(self, c: DynamicContainer) -> T {
        T::from_le_spec(
            c.data@.subrange(self.range->Some_0.0 as int, self.range->Some_0.1 as int),
        )
    }

    /// An empty handle: every accessor yields nothing and every mutator is
    /// a no-op.
    pub fn none() -> (r: Self)
        ensures
            r.range is None,
    {
        FieldHandle { range: None, marker: core::marker::PhantomData }
    }

    /// True when the handle addresses a field.
    pub fn is_some(&self) -> (r: bool)
        ensures
            r == (self.range is Some),
    {
        self.range.is_some()
    }

    /// The current field value, or `None` for an empty or stale handle.
    pub fn get(&self, c: &DynamicContainer) -> (r: Option<T>)
        ensures
            match r {
                Some(v) => self.spec_valid_in(*c) && v == self.spec_read(*c),
                None => !self.spec_valid_in(*c),
            },
    {
        match self.range {
            Some((s, e)) => {
                let size = T::size_bytes();
                if s <= e && e <= c.data.len() && e - s == size {
                    Some(T::read_le(&c.data.as_slice()[s..e]))
                } else {
                    None
                }
            },
            None => None,
        }
    }

    /// Writes `v` into the field; a no-op on an empty or stale handle.
    pub fn set(self, c: &mut DynamicContainer, v: T) -> (r: Self)
        ensures
            r == self,
            final(c).type_def == old(c).type_def,
            final(c).strings == old(c).strings,
            final(c).struct_size == old(c).struct_size,
            final(c).fields == old(c).fields,
            old(c).wf() ==> final(c).wf(),
            if self.spec_valid_in(*old(c)) {
                final(c).data@ == self.spec_written(*old(c), v)
            } else {
                final(c).data@ == old(c).data@
            },
    {
        match self.range {
            Some((s, e)) => {
                let size = T::size_bytes();
                if s <= e && e <= c.data.len() && e - s == size {
                    let bytes = v.write_le();
                    proof {
                        v.lemma_le_bytes(Seq::empty());
                    }
                    splice_bytes(&mut c.data, s, &bytes);
                    proof {
                        assert(c.data@ =~= self.spec_written(*old(c), v));
                    }
                } else {
                }
            },
            None => {},
        }
        self
    }

    /// Adds `v` to the field with wrapping arithmetic; a no-op on an empty
    /// or stale handle.
    pub fn add(self, c: &mut DynamicContainer, v: T) -> (r: Self)
        ensures
            r == self,
            final(c).type_def == old(c).type_def,
            final(c).strings == old(c).strings,
            final(c).struct_size == old(c).struct_size,
            final(c).fields == old(c).fields,
            old(c).wf() ==> final(c).wf(),
            if self.spec_valid_in(*old(c)) {
                final(c).data@ == self.spec_written(
                    *old(c),
                    self.spec_read(*old(c)).spec_wrapping_add(v),
                )
            } else {
                final(c).data@ == old(c).data@
            },
    {
        match self.get(c) {
            Some(cur) => self.set(c, cur.field_add(v)),
            None => self,
        }
    }

    /// Subtracts `v` from the field with wrapping arithmetic; a no-op on
    /// an empty or stale handle.
    pub fn sub(self, c: &mut DynamicContainer, v: T) -> (r: Self)
        ensures
            r == self,
            final(c).type_def == old(c).type_def,
            final(c).strings == old(c).strings,
            final(c).struct_size == old(c).struct_size,
            final(c).fields == old(c).fields,
            old(c).wf() ==> final(c).wf(),
            if self.spec_valid_in(*old(c)) {
                final(c).data@ == self.spec_written(
                    *old(c),
                    self.spec_read(*old(c)).spec_wrapping_sub(v),
                )
            } else {
                final(c).data@ == old(c).data@
            },
    {
        match self.get(c) {
            Some(cur) => self.set(c, cur.field_sub(v)),
            None => self,
        }
    }

    /// Applies `f` to the field value and writes the result back; a no-op
    /// on an empty or stale handle.
    pub fn apply<F: Fn(T) -> T>(self, c: &mut DynamicContainer, f: F) -> (r: Self)
        requires
            forall|t: T| #[trigger] f.requires((t,)),
        ensures
            r == self,
            final(c).type_def == old(c).type_def,
            final(c).strings == old(c).strings,
            final(c).struct_size == old(c).struct_size,
            final(c).fields == old(c).fields,
            old(c).wf() ==> final(c).wf(),
            if self.spec_valid_in(*old(c)) {
                exists|out: T|
                    #[trigger] f.ensures((self.spec_read(*old(c)),), out) && final(c).data@
                        == self.spec_written(*old(c), out)
            } else {
                final(c).data@ == old(c).data@
            },
    {
        match self.get(c) {
            Some(cur) => {
                let out = f(cur);
                self.set(c, out)
            },
            None => self,
        }
    }
}

/// A resolved name maps to one of the indexed fields.
proof fn lemma_lookup_member(fields: Seq<(String, FieldDef)>, name: Seq<char>)
    requires
        spec_lookup(fields, name) is Some,
    ensures
        exists|i: int|
            0 <= i < fields.len() && (#[trigger] fields[i]).1 == spec_lookup(
                fields,
                name,
            )->Some_0,
    decreases fields.len(),
{
    if fields.last().0@ == name {
        assert(fields[fields.len() - 1].1 == spec_lookup(fields, name)->Some_0);
    } else {
        lemma_lookup_member(fields.drop_last(), name);
        let i = choose|i: int|
            0 <= i < fields.drop_last().len() && (#[trigger] fields.drop_last()[i]).1
                == spec_lookup(fields.drop_last(), name)->Some_0;
        assert(fields[i].1 == spec_lookup(fields, name)->Some_0);
    }
}

/// Floor-dividing the two summands by eight never exceeds the
/// ceiling-divided total they fit in.
proof fn lemma_div8_split(ob: int, sb: int, t: int)
    requires
        0 <= ob,
        0 <= sb,
        ob + sb <= t,
    ensures
        ob / 8 + (sb + 7) / 8 <= (t + 7) / 8,
{
    vstd::arithmetic::div_mod::lemma_fundamental_div_mod(ob, 8);
    vstd::arithmetic::div_mod::lemma_fundamental_div_mod(sb + 7, 8);
    vstd::arithmetic::div_mod::lemma_fundamental_div_mod(t + 7, 8);
}

/// Access ranges stay inside the addressed struct: for a well-formed
/// container, any byte range that the access checks resolve lies entirely
/// within the bytes of struct `index`, never crossing into a neighbour.
pub proof fn lemma_field_in_struct(
    c: DynamicContainer,
    index: int,
    name: Seq<char>,
    tsize: nat,
    talign: nat,
)
    requires
        c.wf(),
        c.spec_field_ok(index, name, tsize, talign) is Some,
    ensures
        index * c.struct_size <= c.spec_field_ok(index, name, tsize, talign)->Some_0.0,
        c.spec_field_ok(index, name, tsize, talign)->Some_0.1 <= (index + 1) * c.struct_size,
{
    let fd = spec_lookup(c.fields@, name)->Some_0;
    lemma_lookup_member(c.fields@, name);
    let i = choose|i: int| 0 <= i < c.fields@.len() && (#[trigger] c.fields@[i]).1 == fd;
    assert(c.fields@[i].1 == c.type_def.fields@[i]);
    assert(fd.offset_bits + fd.size_bits <= c.type_def.size_bits);
    lemma_div8_split(fd.offset_bits as int, fd.size_bits as int, c.type_def.size_bits as int);
    assert((index + 1) * c.struct_size == index * c.struct_size + c.struct_size) by (
    nonlinear_arith);
}

/// Field mutation round-trip: writing a value through a valid handle keeps
/// the buffer's size, keeps the handle valid, and makes the handle's byte
/// range decode to exactly the written value.
pub proof fn lemma_field_write_read<T: FieldValue>(
    c0: DynamicContainer,
    c1: DynamicContainer,
    h: FieldHandle<T>,
    v: T,
)
    requires
        h.spec_valid_in(c0),
        c1.data@ == h.spec_written(c0, v),
    ensures
        c1.data@.len() == c0.data@.len(),
        h.spec_valid_in(c1),
        h.spec_read(c1) == v,
{
    let s = h.range->Some_0.0 as int;
    let e = h.range->Some_0.1 as int;
    v.lemma_le_bytes(Seq::empty());
    assert(c1.data@.len() == c0.data@.len());
    assert(c1.data@.subrange(s, e) =~= v.to_le_spec());
}

impl DynamicContainer {
    /// A handle for writing field `name` of struct `index`, checked as in
    /// [`DynamicContainer::field`]; empty where any check fails.
    pub fn field_mut<T: FieldValue>(&self, index: usize, name: &str) -> (r: FieldHandle<T>)
        ensures
            ({
                let ok = self.spec_field_ok(index as int, name@, T::spec_size(), T::spec_align());
                match r.range {
                    Some((a, b)) => ok == Some((a as int, b as int)) && r.spec_valid_in(*self),
                    None => ok is None,
                }
            }),
    {
        match self.field_range::<T>(index, name) {
            Some((fstart, fend)) => FieldHandle {
                range: Some((fstart, fend)),
                marker: core::marker::PhantomData,
            },
            None => FieldHandle::none(),
        }
    }

    /// Construct from one self-contained composite buffer holding the raw
    /// data, the metadata length, and the metadata blob, located by a
    /// magic-scan.
    pub fn from_file_bytes(all: Vec<u8>) -> (r: Result<DynamicContainer, MTFError>)
        ensures
            match r {
                Ok(c) => {
                    &&& spec_locate(all@, 0) is Some
                    &&& c.wf()
                    &&& c.data@ == all@.subrange(0, spec_locate(all@, 0)->Some_0 - 4)
                    &&& spec_from_raw_ok(
                        all@.subrange(spec_locate(all@, 0)->Some_0, all.len() as int),
                    )
                    &&& c.type_def@ == parse_mtf(
                        all@.subrange(spec_locate(all@, 0)->Some_0, all.len() as int),
                    )->Some_0.0[0]
                    &&& c.strings@ == parse_mtf(
                        all@.subrange(spec_locate(all@, 0)->Some_0, all.len() as int),
                    )->Some_0.1
                },
                Err(e) => if all.len() < 4 {
                    e == MTFError::UnexpectedEof
                } else if spec_locate(all@, 0) is None {
                    e == MTFError::InvalidMagic
                } else {
                    e == spec_from_raw_err(
                        all@.subrange(spec_locate(all@, 0)->Some_0, all.len() as int),
                    ) && !spec_from_raw_ok(
                        all@.subrange(spec_locate(all@, 0)->Some_0, all.len() as int),
                    )
                },
            },
    {
        if all.len() < 4 {
            return Err(MTFError::UnexpectedEof);
        }
        let i = match locate_metadata(&all) {
            Some(i) => i,
            None => {
                return Err(MTFError::InvalidMagic);
            },
        };
        proof {
            lemma_locate_match(all@, 0);
        }
        let data = vstd::slice::slice_to_vec(&all.as_slice()[0..i - 4]);
        let blob = vstd::slice::slice_to_vec(&all.as_slice()[i..all.len()]);
        Self::from_raw(data, &blob)
    }
}

} // verus!
