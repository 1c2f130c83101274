//! The emitter behind compile-time struct reflection: given a type name
//! and its fields' names and byte sizes, builds the complete metadata blob
//! that describes the type, fields laid out in declaration order without
//! padding.

use vstd::prelude::*;
use vstd::string::StrSliceExecFns;
use crate::mtf::{FieldDef, TypeDef, TypeDefV, encode_mtf, table_of, string_views, write_mtf,
    build_string_table};

verus! {

/// Exact character-level string equality.
pub fn str_eq(a: &str, b: &str) -> (r: bool)
    ensures
        r == (a@ == b@),
{
    let la = a.unicode_len();
    let lb = b.unicode_len();
    if la != lb {
        proof {
            assert(a@ != b@);
        }
        return false;
    }
    let mut i: usize = 0;
    while i < la
        invariant
            i <= la,
            la == a@.len(),
            la == b@.len(),
            forall|j: int| 0 <= j < i ==> a@[j] == b@[j],
        decreases la - i,
    {
        if a.get_char(i) != b.get_char(i) {
            proof {
                assert(a@[i as int] != b@[i as int]);
            }
            return false;
        }
        i = i + 1;
    }
    proof {
        assert(a@ =~= b@);
    }
    true
}

/// The byte size of a named primitive type, or nothing for any other
/// name.
pub open spec fn spec_primitive_size(ident: Seq<char>) -> Option<usize> {
    if ident == "u8"@ || ident == "i8"@ || ident == "bool"@ {
        Some(1usize)
    } else if ident == "u16"@ || ident == "i16"@ {
        Some(2usize)
    } else if ident == "u32"@ || ident == "i32"@ || ident == "f32"@ {
        Some(4usize)
    } else if ident == "u64"@ || ident == "i64"@ || ident == "f64"@ {
        Some(8usize)
    } else if ident == "u128"@ || ident == "i128"@ {
        Some(16usize)
    } else {
        None
    }
}

/// The size in bytes of a primitive type named `ident`, or nothing for a
/// name that is not a supported primitive.
pub fn primitive_size_bytes(ident: &str) -> (r: Option<usize>)
    ensures
        r == spec_primitive_size(ident@),
{
    if str_eq(ident, "u8") || str_eq(ident, "i8") || str_eq(ident, "bool") {
        Some(1)
    } else if str_eq(ident, "u16") || str_eq(ident, "i16") {
        Some(2)
    } else if str_eq(ident, "u32") || str_eq(ident, "i32") || str_eq(ident, "f32") {
        Some(4)
    } else if str_eq(ident, "u64") || str_eq(ident, "i64") || str_eq(ident, "f64") {
        Some(8)
    } else if str_eq(ident, "u128") || str_eq(ident, "i128") {
        Some(16)
    } else {
        None
    }
}

/// The names a type blob interns: the type name, then each field name in
/// declaration order.
pub open spec fn blob_names(name: Seq<char>, fields: Seq<(String, u32)>) -> Seq<Seq<char>> {
    seq![name] + fields.map_values(|f: (String, u32)| f.0@)
}

/// The total byte size of the fields laid out back to back.
pub open spec fn total_size_bytes(fields: Seq<(String, u32)>) -> int
    decreases fields.len(),
{
    if fields.len() == 0 {
        0
    } else {
        total_size_bytes(fields.drop_last()) + fields.last().1
    }
}

/// The type descriptor a blob for `name` and `fields` carries: the name
/// interned first, each field's bit offset the sum of the sizes before it.
pub open spec fn blob_type_def(name: Seq<char>, fields: Seq<(String, u32)>) -> TypeDefV {
    TypeDefV {
        name_offset: 0u32,
        size_bits: (8 * total_size_bytes(fields)) as u32,
        fields: Seq::new(
            fields.len(),
            |i: int|
                FieldDef {
                    name_offset: table_of(blob_names(name, fields).take(i + 1)).len() as u32,
                    offset_bits: (8 * total_size_bytes(fields.take(i))) as u32,
                    size_bits: (8 * fields[i].1) as u32,
                },
        ),
    }
}

/// Fields lay out a non-negative number of bytes.
proof fn lemma_total_size_nonneg(fields: Seq<(String, u32)>)
    ensures
        total_size_bytes(fields) >= 0,
    decreases fields.len(),
{
    if fields.len() > 0 {
        lemma_total_size_nonneg(fields.drop_last());
    }
}

/// A prefix of the field list never lays out more bytes than the whole.
proof fn lemma_total_size_take(fields: Seq<(String, u32)>, i: int)
    requires
        0 <= i <= fields.len(),
    ensures
        0 <= total_size_bytes(fields.take(i)) <= total_size_bytes(fields),
    decreases fields.len() - i,
{
    lemma_total_size_nonneg(fields.take(i));
    if i < fields.len() {
        lemma_total_size_take(fields, i + 1);
        assert(fields.take(i + 1).drop_last() =~= fields.take(i));
    } else {
        assert(fields.take(i) =~= fields);
    }
}

/// Builds the complete metadata blob for one struct type: magic, version,
/// one type record with its fields, and the interned string table.
#[verifier::loop_isolation(false)]
pub fn build_type_blob(name: &String, fields: &Vec<(String, u32)>) -> (r: Vec<u8>)
    requires
        fields.len() <= u32::MAX,
        8 * total_size_bytes(fields@) <= u32::MAX,
        table_of(blob_names(name@, fields@)).len() <= u32::MAX,
    ensures
        r@ == encode_mtf(
            seq![blob_type_def(name@, fields@)],
            table_of(blob_names(name@, fields@)),
        ),
{
    let ghost names_spec = blob_names(name@, fields@);
    let mut names: Vec<String> = Vec::new();
    names.push(name.clone());
    let mut i: usize = 0;
    while i < fields.len()
        invariant
            i <= fields.len(),
            names.len() == i + 1,
            string_views(names@) =~= names_spec.take(i + 1),
        decreases fields.len() - i,
    {
        names.push(fields[i].0.clone());
        proof {
            assert(string_views(names@) =~= names_spec.take(i + 2));
        }
        i = i + 1;
    }
    proof {
        assert(names_spec.take(fields.len() + 1) =~= names_spec);
        assert(string_views(names@) == names_spec);
    }
    let r = build_string_table(&names);
    let table = r.0;
    let offsets = r.1;
    let mut fdefs: Vec<FieldDef> = Vec::new();
    let mut offset_bits: u32 = 0;
    let mut j: usize = 0;
    while j < fields.len()
        invariant
            j <= fields.len(),
            fdefs.len() == j,
            offset_bits == 8 * total_size_bytes(fields@.take(j as int)),
            fdefs@ =~= blob_type_def(name@, fields@).fields.take(j as int),
        decreases fields.len() - j,
    {
        proof {
            lemma_total_size_take(fields@, j as int);
            lemma_total_size_take(fields@, j + 1);
            assert(fields@.take(j + 1).drop_last() =~= fields@.take(j as int));
            assert(fields@.take(j + 1).last() == fields@[j as int]);
        }
        let fsize = fields[j].1;
        let fd = FieldDef {
            name_offset: offsets[j + 1],
            offset_bits,
            size_bits: 8 * fsize,
        };
        fdefs.push(fd);
        proof {
            assert(fdefs@ =~= blob_type_def(name@, fields@).fields.take(j + 1));
        }
        offset_bits = offset_bits + 8 * fsize;
        j = j + 1;
    }
    proof {
        assert(fdefs@ =~= blob_type_def(name@, fields@).fields);
        assert(fields@.take(fields.len() as int) =~= fields@);
    }
    let total = offset_bits;
    let td = TypeDef { name_offset: offsets[0], size_bits: total, fields: fdefs };
    let types: Vec<TypeDef> = vec![td];
    proof {
        assert(names_spec.take(0) =~= Seq::<Seq<char>>::empty());
        assert(types@.map_values(|t: TypeDef| t@) =~= seq![blob_type_def(name@, fields@)]);
    }
    write_mtf(&types, &table)
}

} // verus!
