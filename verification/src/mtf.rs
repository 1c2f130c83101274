//! A minimal self-describing binary format for packed-struct layout
//! metadata: type name, total bit size, and per-field name, bit offset and
//! bit size, together with a NUL-terminated string table.
//!
//! Binary layout, little-endian:
//! magic `"MTF\0"`, version (`u32`), type count (`u32`); per type its name
//! offset, bit size and field count (`u32` each) followed by its field
//! records of three `u32`s; then the string table length (`u32`) and the
//! string table bytes.

use vstd::prelude::*;
use vstd::bytes::{
    spec_u32_from_le_bytes, spec_u32_to_le_bytes, u32_from_le_bytes, u32_to_le_bytes,
    lemma_auto_spec_u32_to_from_le_bytes,
};
use vstd::utf8::{valid_utf8, decode_utf8};

verus! {

/// The format version this module writes and accepts.
pub const MTF_VERSION: u32 = 1;

/// The magic tag that opens every metadata blob.
pub open spec fn mtf_magic() -> Seq<u8> {
    seq![0x4Du8, 0x54u8, 0x46u8, 0x00u8]
}

/// Layout of one field: interned name offset, bit offset within the
/// struct, and bit size.
#[derive(Debug, Clone, Copy, PartialEq, Eq, Structural)]
pub struct FieldDef {
    pub name_offset: u32,
    pub offset_bits: u32,
    pub size_bits: u32,
}

/// Layout of one struct type: interned name offset, total bit size, and
/// the ordered field list.
#[derive(Debug, Clone)]
pub struct TypeDef {
    pub name_offset: u32,
    pub size_bits: u32,
    pub fields: Vec<FieldDef>,
}

/// The mathematical value of a [`TypeDef`].
pub ghost struct TypeDefV {
    pub name_offset: u32,
    pub size_bits: u32,
    pub fields: Seq<FieldDef>,
}

impl View for TypeDef {
    type V = TypeDefV;

    open spec fn view(&self) -> TypeDefV {
        TypeDefV { name_offset: self.name_offset, size_bits: self.size_bits, fields: self.fields@ }
    }
}

impl PartialEq for TypeDef {
    fn eq(&self, other: &TypeDef) -> (r: bool) {
        if self.name_offset != other.name_offset || self.size_bits != other.size_bits
            || self.fields.len() != other.fields.len() {
            return false;
        }
        let mut i: usize = 0;
        while i < self.fields.len()
            invariant
                i <= self.fields.len(),
                self.fields.len() == other.fields.len(),
                self.name_offset == other.name_offset,
                self.size_bits == other.size_bits,
                forall|j: int| 0 <= j < i ==> self.fields@[j] == other.fields@[j],
            decreases self.fields.len() - i,
        {
            if self.fields[i] != other.fields[i] {
                return false;
            }
            i = i + 1;
        }
        proof {
            assert(self.fields@ =~= other.fields@);
        }
        true
    }
}

impl Eq for TypeDef {

}

impl vstd::std_specs::cmp::PartialEqSpecImpl for TypeDef {
    open spec fn obeys_eq_spec() -> bool {
        true
    }

    open spec fn eq_spec(&self, other: &TypeDef) -> bool {
        self@ == other@
    }
}

/// Decode failures of the metadata format. All are recoverable; a blob
/// is validated eagerly, never trusted.
#[derive(Debug, Clone, Copy, PartialEq, Eq, Structural)]
pub enum MTFError {
    /// The blob does not open with the metadata magic tag.
    InvalidMagic,
    /// The blob declares a version this module does not read.
    UnsupportedVersion(u32),
    /// The blob or string table ends before a complete record.
    UnexpectedEof,
    /// A name in the string table is not valid UTF-8.
    InvalidUtf8,
    /// A name offset points past the end of the string table.
    InvalidStringOffset(u32),
    /// A field lies partly outside its struct's declared bit size, or two
    /// fields of one struct overlap.
    InvalidFieldLayout,
}

/// A type whose packed layout metadata was emitted at compile time: the
/// complete blob, and the string table it interns.
pub trait MTFType {
    /// The complete metadata blob describing the type.
    fn mtf_type_blob() -> &'static [u8];

    /// The interned names the blob refers to.
    fn mtf_string_table() -> &'static [u8];
}

/// The views of a sequence of type definitions.
pub open spec fn type_views(ts: Seq<TypeDef>) -> Seq<TypeDefV> {
    ts.map_values(|t: TypeDef| t@)
}

/// Encoding of one field record.
pub open spec fn enc_field(f: FieldDef) -> Seq<u8> {
    spec_u32_to_le_bytes(f.name_offset) + spec_u32_to_le_bytes(f.offset_bits)
        + spec_u32_to_le_bytes(f.size_bits)
}

/// Encoding of a field list, in declaration order.
pub open spec fn enc_fields(fs: Seq<FieldDef>) -> Seq<u8>
    decreases fs.len(),
{
    if fs.len() == 0 {
        Seq::empty()
    } else {
        enc_fields(fs.drop_last()) + enc_field(fs.last())
    }
}

/// Encoding of one type record with its fields.
pub open spec fn enc_type(t: TypeDefV) -> Seq<u8> {
    spec_u32_to_le_bytes(t.name_offset) + spec_u32_to_le_bytes(t.size_bits)
        + spec_u32_to_le_bytes(t.fields.len() as u32) + enc_fields(t.fields)
}

/// Encoding of the type table, in declaration order.
pub open spec fn enc_types(ts: Seq<TypeDefV>) -> Seq<u8>
    decreases ts.len(),
{
    if ts.len() == 0 {
        Seq::empty()
    } else {
        enc_types(ts.drop_last()) + enc_type(ts.last())
    }
}

/// The complete metadata blob for a type table and its string table.
pub open spec fn encode_mtf(ts: Seq<TypeDefV>, strings: Seq<u8>) -> Seq<u8> {
    mtf_magic() + spec_u32_to_le_bytes(MTF_VERSION) + spec_u32_to_le_bytes(ts.len() as u32)
        + enc_types(ts) + spec_u32_to_le_bytes(strings.len() as u32) + strings
}

/// The field record starting at byte `pos`.
pub open spec fn spec_field_at(data: Seq<u8>, pos: int) -> FieldDef {
    FieldDef {
        name_offset: spec_u32_from_le_bytes(data.subrange(pos, pos + 4)),
        offset_bits: spec_u32_from_le_bytes(data.subrange(pos + 4, pos + 8)),
        size_bits: spec_u32_from_le_bytes(data.subrange(pos + 8, pos + 12)),
    }
}

/// Parses `count` field records starting at `pos`, yielding the fields and
/// the position after them, or `None` on truncation.
pub open spec fn parse_fields(data: Seq<u8>, pos: int, count: nat) -> Option<(Seq<FieldDef>, int)>
    decreases count,
{
    if count == 0 {
        Some((Seq::empty(), pos))
    } else if pos + 12 <= data.len() {
        match parse_fields(data, pos + 12, (count - 1) as nat) {
            Some((fs, p)) => Some((seq![spec_field_at(data, pos)] + fs, p)),
            None => None,
        }
    } else {
        None
    }
}

/// Parses `count` type records starting at `pos`, yielding the types and
/// the position after them, or `None` on truncation.
pub open spec fn parse_types(data: Seq<u8>, pos: int, count: nat) -> Option<(Seq<TypeDefV>, int)>
    decreases count,
{
    if count == 0 {
        Some((Seq::empty(), pos))
    } else if pos + 12 <= data.len() {
        let t_name = spec_u32_from_le_bytes(data.subrange(pos, pos + 4));
        let t_size = spec_u32_from_le_bytes(data.subrange(pos + 4, pos + 8));
        let fcount = spec_u32_from_le_bytes(data.subrange(pos + 8, pos + 12));
        match parse_fields(data, pos + 12, fcount as nat) {
            Some((fs, p)) => match parse_types(data, p, (count - 1) as nat) {
                Some((ts, p2)) => Some(
                    (seq![TypeDefV { name_offset: t_name, size_bits: t_size, fields: fs }] + ts, p2),
                ),
                None => None,
            },
            None => None,
        }
    } else {
        None
    }
}

/// Parses a complete metadata blob into its type table and string table.
/// Bytes after the string table are ignored.
pub open spec fn parse_mtf(data: Seq<u8>) -> Option<(Seq<TypeDefV>, Seq<u8>)> {
    if data.len() < 12 {
        None
    } else if data.subrange(0, 4) != mtf_magic() {
        None
    } else if spec_u32_from_le_bytes(data.subrange(4, 8)) != MTF_VERSION {
        None
    } else {
        match parse_types(data, 12, spec_u32_from_le_bytes(data.subrange(8, 12)) as nat) {
            Some((ts, pos)) => if pos + 4 <= data.len() {
                let slen = spec_u32_from_le_bytes(data.subrange(pos, pos + 4));
                if pos + 4 + slen <= data.len() {
                    Some((ts, data.subrange(pos + 4, pos + 4 + slen)))
                } else {
                    None
                }
            } else {
                None
            },
            None => None,
        }
    }
}

/// The error a failing decode reports: the first check that fails, in the
/// order the decoder makes them; every truncation is an unexpected end.
pub open spec fn spec_mtf_error(data: Seq<u8>) -> MTFError {
    if data.len() < 12 {
        MTFError::UnexpectedEof
    } else if data.subrange(0, 4) != mtf_magic() {
        MTFError::InvalidMagic
    } else if spec_u32_from_le_bytes(data.subrange(4, 8)) != MTF_VERSION {
        MTFError::UnsupportedVersion(spec_u32_from_le_bytes(data.subrange(4, 8)))
    } else {
        MTFError::UnexpectedEof
    }
}

/// Reads the little-endian `u32` at byte `pos`.
fn read_u32_at(data: &Vec<u8>, pos: usize) -> (r: u32)
    requires
        pos + 4 <= data.len(),
    ensures
        r == spec_u32_from_le_bytes(data@.subrange(pos as int, pos as int + 4)),
{
    u32_from_le_bytes(&data.as_slice()[pos..pos + 4])
}

/// Parses a metadata blob, returning its type definitions and a copy of
/// its string table. Validates the magic tag and version first and fails
/// on any truncation; trailing bytes after the string table are ignored.
#[verifier::loop_isolation(false)]
pub fn read_mtf(data: &Vec<u8>) -> (r: Result<(Vec<TypeDef>, Vec<u8>), MTFError>)
    ensures
        r is Ok <==> parse_mtf(data@) is Some,
        match r {
            Ok(out) => parse_mtf(data@) == Some((type_views(out.0@), out.1@)),
            Err(e) => e == spec_mtf_error(data@),
        },
{
    if data.len() < 12 {
        return Err(MTFError::UnexpectedEof);
    }
    let b0 = data[0];
    let b1 = data[1];
    let b2 = data[2];
    let b3 = data[3];
    if !(b0 == 0x4D && b1 == 0x54 && b2 == 0x46 && b3 == 0x00) {
        proof {
            assert(data@.subrange(0, 4) != mtf_magic()) by {
                if data@.subrange(0, 4) == mtf_magic() {
                    assert(data@.subrange(0, 4)[0] == 0x4Du8);
                    assert(data@.subrange(0, 4)[1] == 0x54u8);
                    assert(data@.subrange(0, 4)[2] == 0x46u8);
                    assert(data@.subrange(0, 4)[3] == 0x00u8);
                }
            }
        }
        return Err(MTFError::InvalidMagic);
    }
    proof {
        assert(data@.subrange(0, 4) =~= mtf_magic());
    }
    let version = read_u32_at(data, 4);
    if version != MTF_VERSION {
        return Err(MTFError::UnsupportedVersion(version));
    }
    let count_u = read_u32_at(data, 8);
    let ghost total_count = count_u as nat;
    let count = count_u as usize;
    let mut pos: usize = 12;
    let mut types: Vec<TypeDef> = Vec::new();
    let mut j: usize = 0;
    while j < count
        invariant
            12 <= pos <= data.len(),
            j <= count,
            types.len() == j,
            parse_types(data@, 12, total_count) == (match parse_types(
                data@,
                pos as int,
                (count - j) as nat,
            ) {
                Some((ts, p)) => Some((type_views(types@) + ts, p)),
                None => None::<(Seq<TypeDefV>, int)>,
            }),
        decreases count - j,
    {
        if data.len() - pos < 12 {
            proof {
                assert(parse_types(data@, pos as int, (count - j) as nat) is None);
            }
            return Err(MTFError::UnexpectedEof);
        }
        let t_name = read_u32_at(data, pos);
        let t_size = read_u32_at(data, pos + 4);
        let fcount_u = read_u32_at(data, pos + 8);
        let fcount = fcount_u as usize;
        let ghost tpos = pos as int;
        let ghost prior = type_views(types@);
        pos = pos + 12;
        let mut fields: Vec<FieldDef> = Vec::new();
        let mut k: usize = 0;
        while k < fcount
            invariant
                tpos + 12 <= pos <= data.len(),
                k <= fcount,
                fields.len() == k,
                parse_fields(data@, tpos + 12, fcount as nat) == (match parse_fields(
                    data@,
                    pos as int,
                    (fcount - k) as nat,
                ) {
                    Some((fs, p)) => Some((fields@ + fs, p)),
                    None => None::<(Seq<FieldDef>, int)>,
                }),
            decreases fcount - k,
        {
            if data.len() - pos < 12 {
                proof {
                    assert(parse_fields(data@, pos as int, (fcount - k) as nat) is None);
                    assert(parse_types(data@, tpos, (count - j) as nat) is None);
                }
                return Err(MTFError::UnexpectedEof);
            }
            let f_name = read_u32_at(data, pos);
            let f_off = read_u32_at(data, pos + 4);
            let f_size = read_u32_at(data, pos + 8);
            let ghost fpos = pos as int;
            fields.push(FieldDef { name_offset: f_name, offset_bits: f_off, size_bits: f_size });
            pos = pos + 12;
            k = k + 1;
            proof {
                let c_rem = (fcount - k + 1) as nat;
                assert(parse_fields(data@, fpos, c_rem) == (match parse_fields(
                    data@,
                    pos as int,
                    (fcount - k) as nat,
                ) {
                    Some((fs, p)) => Some((seq![spec_field_at(data@, fpos)] + fs, p)),
                    None => None::<(Seq<FieldDef>, int)>,
                }));
                assert(fields@.drop_last() + (seq![spec_field_at(data@, fpos)]
                    + parse_fields(data@, pos as int, (fcount - k) as nat)->Some_0.0) =~= fields@
                    + parse_fields(data@, pos as int, (fcount - k) as nat)->Some_0.0) by {
                    assert(fields@.last() == spec_field_at(data@, fpos));
                }
            }
        }
        proof {
            assert(parse_fields(data@, tpos + 12, fcount as nat) == Some(
                (fields@, pos as int),
            )) by {
                assert(parse_fields(data@, pos as int, 0nat) == Some(
                    (Seq::<FieldDef>::empty(), pos as int),
                ));
                assert(fields@ + Seq::<FieldDef>::empty() =~= fields@);
            }
        }
        let td = TypeDef { name_offset: t_name, size_bits: t_size, fields };
        let ghost tdv = td@;
        types.push(td);
        j = j + 1;
        proof {
            assert(parse_types(data@, tpos, (count - j + 1) as nat) == (match parse_types(
                data@,
                pos as int,
                (count - j) as nat,
            ) {
                Some((ts, p2)) => Some((seq![tdv] + ts, p2)),
                None => None::<(Seq<TypeDefV>, int)>,
            }));
            assert(type_views(types@) =~= prior + seq![tdv]);
            if parse_types(data@, pos as int, (count - j) as nat) is Some {
                let ts = parse_types(data@, pos as int, (count - j) as nat)->Some_0.0;
                assert(prior + (seq![tdv] + ts) =~= type_views(types@) + ts);
            }
        }
    }
    proof {
        assert(parse_types(data@, pos as int, 0nat) == Some((Seq::<TypeDefV>::empty(), pos as int)));
        assert(type_views(types@) + Seq::<TypeDefV>::empty() =~= type_views(types@));
        assert(parse_types(data@, 12, total_count) == Some((type_views(types@), pos as int)));
    }
    if data.len() - pos < 4 {
        return Err(MTFError::UnexpectedEof);
    }
    let slen_u = read_u32_at(data, pos);
    let slen = slen_u as usize;
    if data.len() - (pos + 4) < slen {
        return Err(MTFError::UnexpectedEof);
    }
    let strings = vstd::slice::slice_to_vec(&data.as_slice()[pos + 4..pos + 4 + slen]);
    Ok((types, strings))
}

/// A field-list encoding read from the front: the first field's record,
/// then the rest.
proof fn lemma_enc_fields_first(fs: Seq<FieldDef>)
    requires
        fs.len() > 0,
    ensures
        enc_fields(fs) =~= enc_field(fs[0]) + enc_fields(fs.drop_first()),
    decreases fs.len(),
{
    if fs.len() == 1 {
        assert(fs.drop_last() =~= Seq::<FieldDef>::empty());
        assert(fs.drop_first() =~= Seq::<FieldDef>::empty());
        assert(fs[0] == fs.last());
    } else {
        lemma_enc_fields_first(fs.drop_last());
        assert(fs.drop_last()[0] == fs[0]);
        assert(fs.drop_last().drop_first() =~= fs.drop_first().drop_last());
        assert(fs.drop_first().last() == fs.last());
        assert(enc_fields(fs.drop_first()) == enc_fields(fs.drop_first().drop_last()) + enc_field(
            fs.drop_first().last(),
        ));
    }
}

/// A type-table encoding read from the front: the first type's record,
/// then the rest.
proof fn lemma_enc_types_first(ts: Seq<TypeDefV>)
    requires
        ts.len() > 0,
    ensures
        enc_types(ts) =~= enc_type(ts[0]) + enc_types(ts.drop_first()),
    decreases ts.len(),
{
    if ts.len() == 1 {
        assert(ts.drop_last() =~= Seq::<TypeDefV>::empty());
        assert(ts.drop_first() =~= Seq::<TypeDefV>::empty());
        assert(ts[0] == ts.last());
    } else {
        lemma_enc_types_first(ts.drop_last());
        assert(ts.drop_last()[0] == ts[0]);
        assert(ts.drop_last().drop_first() =~= ts.drop_first().drop_last());
        assert(ts.drop_first().last() == ts.last());
        assert(enc_types(ts.drop_first()) == enc_types(ts.drop_first().drop_last()) + enc_type(
            ts.drop_first().last(),
        ));
    }
}

/// Parsing a buffer that carries a field-list encoding yields those fields
/// and stops right after them.
proof fn lemma_parse_fields_of_encoding(data: Seq<u8>, pos: int, fs: Seq<FieldDef>)
    requires
        0 <= pos,
        pos + enc_fields(fs).len() <= data.len(),
        data.subrange(pos, pos + enc_fields(fs).len()) == enc_fields(fs),
    ensures
        parse_fields(data, pos, fs.len()) == Some((fs, pos + enc_fields(fs).len())),
    decreases fs.len(),
{
    lemma_auto_spec_u32_to_from_le_bytes();
    if fs.len() == 0 {
        assert(parse_fields(data, pos, 0nat) == Some((Seq::<FieldDef>::empty(), pos)));
        assert(fs =~= Seq::<FieldDef>::empty());
    } else {
        lemma_enc_fields_first(fs);
        let rest = fs.drop_first();
        let flen = enc_fields(fs).len() as int;
        assert(spec_u32_to_le_bytes(fs[0].name_offset).len() == 4);
        assert(spec_u32_to_le_bytes(fs[0].offset_bits).len() == 4);
        assert(spec_u32_to_le_bytes(fs[0].size_bits).len() == 4);
        assert(data.subrange(pos, pos + 12) =~= enc_field(fs[0]));
        assert(enc_field(fs[0]).subrange(0, 4) =~= spec_u32_to_le_bytes(fs[0].name_offset));
        assert(enc_field(fs[0]).subrange(4, 8) =~= spec_u32_to_le_bytes(fs[0].offset_bits));
        assert(enc_field(fs[0]).subrange(8, 12) =~= spec_u32_to_le_bytes(fs[0].size_bits));
        assert(data.subrange(pos, pos + 4) =~= enc_field(fs[0]).subrange(0, 4));
        assert(data.subrange(pos + 4, pos + 8) =~= enc_field(fs[0]).subrange(4, 8));
        assert(data.subrange(pos + 8, pos + 12) =~= enc_field(fs[0]).subrange(8, 12));
        assert(spec_field_at(data, pos) == fs[0]);
        assert(enc_fields(fs).subrange(12, flen) =~= enc_fields(rest));
        assert(data.subrange(pos + 12, pos + flen) =~= enc_fields(fs).subrange(12, flen));
        lemma_parse_fields_of_encoding(data, pos + 12, rest);
        assert(seq![fs[0]] + rest =~= fs);
    }
}

/// Parsing a buffer that carries a type-table encoding yields those types
/// and stops right after them.
proof fn lemma_parse_types_of_encoding(data: Seq<u8>, pos: int, ts: Seq<TypeDefV>)
    requires
        0 <= pos,
        pos + enc_types(ts).len() <= data.len(),
        data.subrange(pos, pos + enc_types(ts).len()) == enc_types(ts),
        forall|i: int| 0 <= i < ts.len() ==> (#[trigger] ts[i]).fields.len() <= u32::MAX,
    ensures
        parse_types(data, pos, ts.len()) == Some((ts, pos + enc_types(ts).len())),
    decreases ts.len(),
{
    lemma_auto_spec_u32_to_from_le_bytes();
    if ts.len() == 0 {
        assert(parse_types(data, pos, 0nat) == Some((Seq::<TypeDefV>::empty(), pos)));
        assert(ts =~= Seq::<TypeDefV>::empty());
    } else {
        lemma_enc_types_first(ts);
        let t = ts[0];
        let rest = ts.drop_first();
        let tlen = enc_types(ts).len() as int;
        let t1len = enc_type(t).len() as int;
        assert(spec_u32_to_le_bytes(t.name_offset).len() == 4);
        assert(spec_u32_to_le_bytes(t.size_bits).len() == 4);
        assert(spec_u32_to_le_bytes(t.fields.len() as u32).len() == 4);
        assert(data.subrange(pos, pos + t1len) =~= enc_type(t));
        assert(enc_type(t).subrange(0, 4) =~= spec_u32_to_le_bytes(t.name_offset));
        assert(enc_type(t).subrange(4, 8) =~= spec_u32_to_le_bytes(t.size_bits));
        assert(enc_type(t).subrange(8, 12) =~= spec_u32_to_le_bytes(t.fields.len() as u32));
        assert(data.subrange(pos, pos + 4) =~= enc_type(t).subrange(0, 4));
        assert(data.subrange(pos + 4, pos + 8) =~= enc_type(t).subrange(4, 8));
        assert(data.subrange(pos + 8, pos + 12) =~= enc_type(t).subrange(8, 12));
        assert((t.fields.len() as u32) as nat == t.fields.len());
        assert(t1len == 12 + enc_fields(t.fields).len());
        assert(enc_type(t).subrange(12, t1len) =~= enc_fields(t.fields));
        assert(data.subrange(pos + 12, pos + t1len) =~= enc_type(t).subrange(12, t1len));
        lemma_parse_fields_of_encoding(data, pos + 12, t.fields);
        let fend = pos + 12 + enc_fields(t.fields).len();
        assert(parse_fields(data, pos + 12, t.fields.len()) == Some((t.fields, fend)));
        assert(fend == pos + t1len);
        assert(enc_types(ts).subrange(t1len, tlen) =~= enc_types(rest));
        assert(data.subrange(fend, pos + tlen) =~= enc_types(ts).subrange(t1len, tlen));
        lemma_parse_types_of_encoding(data, fend, rest);
        assert(TypeDefV { name_offset: t.name_offset, size_bits: t.size_bits, fields: t.fields }
            == t);
        assert(seq![t] + rest =~= ts);
    }
}

/// Format round-trip: parsing an encoded metadata blob recovers exactly
/// the type table and string table it was built from.
pub proof fn lemma_mtf_roundtrip(ts: Seq<TypeDefV>, strings: Seq<u8>)
    requires
        ts.len() <= u32::MAX,
        strings.len() <= u32::MAX,
        forall|i: int| 0 <= i < ts.len() ==> (#[trigger] ts[i]).fields.len() <= u32::MAX,
    ensures
        parse_mtf(encode_mtf(ts, strings)) == Some((ts, strings)),
{
    lemma_auto_spec_u32_to_from_le_bytes();
    let data = encode_mtf(ts, strings);
    let tstart = 12;
    let tend = 12 + enc_types(ts).len() as int;
    assert(spec_u32_to_le_bytes(MTF_VERSION).len() == 4);
    assert(spec_u32_to_le_bytes(ts.len() as u32).len() == 4);
    assert(spec_u32_to_le_bytes(strings.len() as u32).len() == 4);
    assert(data.subrange(0, 4) =~= mtf_magic());
    assert(data.subrange(4, 8) =~= spec_u32_to_le_bytes(MTF_VERSION));
    assert(data.subrange(8, 12) =~= spec_u32_to_le_bytes(ts.len() as u32));
    assert((ts.len() as u32) as nat == ts.len());
    assert(data.subrange(tstart, tend) =~= enc_types(ts));
    lemma_parse_types_of_encoding(data, tstart, ts);
    assert(data.subrange(tend, tend + 4) =~= spec_u32_to_le_bytes(strings.len() as u32));
    assert(data.subrange(tend + 4, tend + 4 + strings.len() as int) =~= strings);
}

/// The position of the first zero byte at or after `from`, or the length
/// of the buffer where there is none.
pub open spec fn nul_pos(s: Seq<u8>, from: int) -> int
    decreases s.len() - from,
{
    if from < 0 || from >= s.len() {
        s.len() as int
    } else if s[from] == 0 {
        from
    } else {
        nul_pos(s, from + 1)
    }
}

/// The bytes of the NUL-terminated string starting at `offset`.
pub open spec fn cstr_at(s: Seq<u8>, offset: int) -> Seq<u8> {
    s.subrange(offset, nul_pos(s, offset))
}

/// Relies on `core::str::from_utf8`: it succeeds exactly on valid UTF-8
/// and yields the string those bytes encode.
#[verifier::external_body]
fn bytes_to_string(b: &[u8]) -> (r: Option<String>)
    ensures
        r is Some <==> valid_utf8(b@),
        r is Some ==> r->0@ == decode_utf8(b@),
{
    match core::str::from_utf8(b) {
        Ok(s) => Some(s.to_owned()),
        Err(_) => None,
    }
}

/// Looks up the NUL-terminated UTF-8 string at `offset` in a string table,
/// validating the offset, the terminator and the encoding.
#[verifier::loop_isolation(false)]
pub fn read_string(strings: &Vec<u8>, offset: u32) -> (r: Result<String, MTFError>)
    ensures
        match r {
            Ok(out) => {
                &&& (offset as int) < strings.len()
                &&& nul_pos(strings@, offset as int) < strings.len()
                &&& valid_utf8(cstr_at(strings@, offset as int))
                &&& out@ == decode_utf8(cstr_at(strings@, offset as int))
            },
            Err(e) => if offset as int >= strings.len() {
                e == MTFError::InvalidStringOffset(offset)
            } else if nul_pos(strings@, offset as int) >= strings.len() {
                e == MTFError::UnexpectedEof
            } else {
                e == MTFError::InvalidUtf8 && !valid_utf8(cstr_at(strings@, offset as int))
            },
        },
{
    let n = strings.len();
    if offset as usize >= n {
        return Err(MTFError::InvalidStringOffset(offset));
    }
    let start = offset as usize;
    let mut end: usize = start;
    while end < n && strings[end] != 0
        invariant
            start <= end <= n,
            nul_pos(strings@, start as int) == nul_pos(strings@, end as int),
        decreases n - end,
    {
        end = end + 1;
    }
    if end >= n {
        return Err(MTFError::UnexpectedEof);
    }
    proof {
        assert(nul_pos(strings@, start as int) == end as int);
    }
    let name = vstd::slice::slice_to_vec(&strings.as_slice()[start..end]);
    proof {
        assert(name@ =~= cstr_at(strings@, offset as int));
    }
    match bytes_to_string(name.as_slice()) {
        Some(s) => Ok(s),
        None => Err(MTFError::InvalidUtf8),
    }
}

/// The string table that a list of names builds: each name's UTF-8 bytes
/// followed by a NUL, concatenated in order.
pub open spec fn table_of(names: Seq<Seq<char>>) -> Seq<u8>
    decreases names.len(),
{
    if names.len() == 0 {
        Seq::empty()
    } else {
        table_of(names.drop_last()) + vstd::utf8::encode_utf8(names.last()) + seq![0u8]
    }
}

/// The views of a list of strings.
pub open spec fn string_views(names: Seq<String>) -> Seq<Seq<char>> {
    names.map_values(|s: String| s@)
}

/// Builds a string table from a list of names, returning the table and,
/// for each name in order, its byte offset within the table.
#[verifier::loop_isolation(false)]
pub fn build_string_table(strings: &Vec<String>) -> (r: (Vec<u8>, Vec<u32>))
    requires
        table_of(string_views(strings@)).len() <= u32::MAX,
    ensures
        r.0@ == table_of(string_views(strings@)),
        r.1.len() == strings.len(),
        forall|i: int|
            0 <= i < strings.len() ==> r.1@[i] == table_of(
                string_views(strings@).take(i),
            ).len(),
{
    let ghost views = string_views(strings@);
    let mut table: Vec<u8> = Vec::new();
    let mut offsets: Vec<u32> = Vec::new();
    let mut i: usize = 0;
    while i < strings.len()
        invariant
            i <= strings.len(),
            offsets.len() == i,
            table@ =~= table_of(views.take(i as int)),
            forall|j: int| 0 <= j < i ==> offsets@[j] == table_of(views.take(j)).len(),
        decreases strings.len() - i,
    {
        proof {
            lemma_table_of_take_len(views, i as int);
            lemma_table_of_take_len(views, strings.len() as int);
            assert(views.take(strings.len() as int) =~= views);
        }
        offsets.push(table.len() as u32);
        let s: &String = &strings[i];
        let mut name_bytes = s.as_str().as_bytes_vec();
        table.append(&mut name_bytes);
        table.push(0);
        proof {
            assert(views.take(i + 1).drop_last() =~= views.take(i as int));
            assert(views.take(i + 1).last() == strings@[i as int]@);
            assert(table@ =~= table_of(views.take(i + 1)));
        }
        i = i + 1;
    }
    proof {
        assert(views.take(strings.len() as int) =~= views);
    }
    (table, offsets)
}

/// A prefix of the name list never builds a longer table than the whole.
proof fn lemma_table_of_take_len(names: Seq<Seq<char>>, i: int)
    requires
        0 <= i <= names.len(),
    ensures
        table_of(names.take(i)).len() <= table_of(names).len(),
    decreases names.len() - i,
{
    if i < names.len() {
        lemma_table_of_take_len(names, i + 1);
        assert(names.take(i + 1).drop_last() =~= names.take(i));
    } else {
        assert(names.take(i) =~= names);
    }
}

/// A data segment followed by its metadata blob, the blob's length as a
/// little-endian `u32` between them.
pub open spec fn spec_with_metadata(data: Seq<u8>, blob: Seq<u8>) -> Seq<u8> {
    data + spec_u32_to_le_bytes(blob.len() as u32) + blob
}

/// Frames a data segment and a metadata blob into one composite buffer:
/// the data, then the blob's length, then the blob.
pub fn encode_with_metadata(data: &Vec<u8>, blob: &Vec<u8>) -> (out: Vec<u8>)
    requires
        blob.len() <= u32::MAX,
        data.len() + 4 + blob.len() <= usize::MAX,
    ensures
        out@ == spec_with_metadata(data@, blob@),
{
    let mut out = data.clone();
    push_u32(&mut out, blob.len() as u32);
    let mut tail = blob.clone();
    out.append(&mut tail);
    proof {
        assert(out@ =~= spec_with_metadata(data@, blob@));
    }
    out
}

/// Whether position `i` of a composite buffer opens an embedded metadata
/// blob: the magic tag sits at `i`, a length field fits before it, and
/// that length says the blob runs exactly to the end of the buffer.
pub open spec fn meta_match(all: Seq<u8>, i: int) -> bool {
    &&& 4 <= i
    &&& i + 4 <= all.len()
    &&& all.subrange(i, i + 4) == mtf_magic()
    &&& i + spec_u32_from_le_bytes(all.subrange(i - 4, i)) == all.len()
}

/// The first metadata position at or after `from` that the scan accepts,
/// scanning magic positions strictly below `all.len() - 4`.
pub open spec fn spec_locate(all: Seq<u8>, from: int) -> Option<int>
    decreases all.len() - from,
{
    if from < 0 || from >= all.len() - 4 {
        None
    } else if meta_match(all, from) {
        Some(from)
    } else {
        spec_locate(all, from + 1)
    }
}

/// Scans a composite buffer for an embedded metadata blob, returning the
/// byte position where the blob starts. The length field just before the
/// found magic must run exactly to the end of the buffer; this guards
/// against the magic bytes accidentally appearing inside the data segment.
#[verifier::loop_isolation(false)]
pub fn locate_metadata(all: &Vec<u8>) -> (r: Option<usize>)
    ensures
        match r {
            Some(i) => spec_locate(all@, 0) == Some(i as int),
            None => spec_locate(all@, 0) is None,
        },
{
    let n = all.len();
    if n < 5 {
        proof {
            assert(spec_locate(all@, 0) is None) by {
                lemma_locate_none_short(all@, 0);
            }
        }
        return None;
    }
    let mut i: usize = 0;
    while i < n - 4
        invariant
            i <= n - 4,
            spec_locate(all@, 0) == spec_locate(all@, i as int),
        decreases n - i,
    {
        if all[i] == 0x4D && i + 4 <= n {
            let m1 = all[i + 1];
            let m2 = all[i + 2];
            let m3 = all[i + 3];
            if m1 == 0x54 && m2 == 0x46 && m3 == 0x00 && i >= 4 {
                proof {
                    assert(all@.subrange(i as int, i as int + 4) =~= mtf_magic());
                }
                let size = read_u32_at(all, i - 4);
                if (size as u64) == (n as u64) - (i as u64) {
                    proof {
                        assert(meta_match(all@, i as int));
                    }
                    return Some(i);
                }
            }
        }
        proof {
            assert(!meta_match(all@, i as int)) by {
                if meta_match(all@, i as int) {
                    assert(all@.subrange(i as int, i as int + 4)[0] == 0x4Du8);
                    assert(all@.subrange(i as int, i as int + 4)[1] == 0x54u8);
                    assert(all@.subrange(i as int, i as int + 4)[2] == 0x46u8);
                    assert(all@.subrange(i as int, i as int + 4)[3] == 0x00u8);
                }
            }
        }
        i = i + 1;
    }
    None
}

/// A buffer shorter than five bytes holds no embedded metadata.
proof fn lemma_locate_none_short(all: Seq<u8>, from: int)
    requires
        all.len() < 5,
    ensures
        spec_locate(all, from) is None,
    decreases all.len() - from,
{
    if !(from < 0 || from >= all.len() - 4) {
        lemma_locate_none_short(all, from + 1);
    }
}

/// Appends the little-endian bytes of `x`.
fn push_u32(out: &mut Vec<u8>, x: u32)
    ensures
        final(out)@ == old(out)@ + spec_u32_to_le_bytes(x),
{
    let mut b = u32_to_le_bytes(x);
    out.append(&mut b);
}

/// Serialises a type table and string table into a metadata blob.
pub fn write_mtf(types: &Vec<TypeDef>, strings: &Vec<u8>) -> (out: Vec<u8>)
    requires
        types.len() <= u32::MAX,
        strings.len() <= u32::MAX,
        forall|i: int| 0 <= i < types.len() ==> (#[trigger] types[i]).fields.len() <= u32::MAX,
    ensures
        out@ == encode_mtf(type_views(types@), strings@),
{
    let ghost tviews = type_views(types@);
    let mut out: Vec<u8> = Vec::new();
    out.push(0x4D);
    out.push(0x54);
    out.push(0x46);
    out.push(0x00);
    proof {
        assert(out@ =~= mtf_magic());
    }
    push_u32(&mut out, MTF_VERSION);
    push_u32(&mut out, types.len() as u32);
    let ghost header = out@;
    let mut ti: usize = 0;
    while ti < types.len()
        invariant
            ti <= types.len(),
            types.len() <= u32::MAX,
            forall|i: int| 0 <= i < types.len() ==> (#[trigger] types[i]).fields.len()
                <= u32::MAX,
            tviews == type_views(types@),
            header == mtf_magic() + spec_u32_to_le_bytes(MTF_VERSION) + spec_u32_to_le_bytes(
                types.len() as u32,
            ),
            out@ == header + enc_types(tviews.take(ti as int)),
        decreases types.len() - ti,
    {
        let t = &types[ti];
        push_u32(&mut out, t.name_offset);
        push_u32(&mut out, t.size_bits);
        push_u32(&mut out, t.fields.len() as u32);
        let ghost type_head = out@;
        let mut fi: usize = 0;
        while fi < t.fields.len()
            invariant
                fi <= t.fields.len(),
                out@ == type_head + enc_fields(t.fields@.take(fi as int)),
            decreases t.fields.len() - fi,
        {
            let f = &t.fields[fi];
            push_u32(&mut out, f.name_offset);
            push_u32(&mut out, f.offset_bits);
            push_u32(&mut out, f.size_bits);
            proof {
                assert(t.fields@.take(fi + 1).drop_last() =~= t.fields@.take(fi as int));
                assert(t.fields@.take(fi + 1).last() == t.fields@[fi as int]);
                assert(enc_field(t.fields@[fi as int]) =~= spec_u32_to_le_bytes(f.name_offset)
                    + spec_u32_to_le_bytes(f.offset_bits) + spec_u32_to_le_bytes(f.size_bits));
                assert(out@ =~= type_head + enc_fields(t.fields@.take(fi + 1)));
            }
            fi = fi + 1;
        }
        proof {
            assert(t.fields@.take(t.fields.len() as int) =~= t.fields@);
            assert(tviews.take(ti + 1).drop_last() =~= tviews.take(ti as int));
            assert(tviews.take(ti + 1).last() == tviews[ti as int]);
            assert(tviews[ti as int] == types[ti as int]@);
            assert(enc_type(tviews[ti as int]) =~= spec_u32_to_le_bytes(t.name_offset)
                + spec_u32_to_le_bytes(t.size_bits) + spec_u32_to_le_bytes(
                t.fields.len() as u32,
            ) + enc_fields(t.fields@));
            assert(out@ =~= header + enc_types(tviews.take(ti + 1)));
        }
        ti = ti + 1;
    }
    proof {
        assert(tviews.take(types.len() as int) =~= tviews);
    }
    push_u32(&mut out, strings.len() as u32);
    let mut tail = strings.clone();
    out.append(&mut tail);
    proof {
        assert(out@ =~= encode_mtf(tviews, strings@));
    }
    out
}

} // verus!
