//! Field records of any kind, read.

use vstd::prelude::*;
use vstd::utf8::encode_utf8;
use crate::attributes::{keys_sorted, map_bytes};
use crate::bytes::le_i64;
use crate::cursor::{
    law_string_round_trip, law_vint_round_trip, lemma_parse_i64_at, lemma_stands_split, stands_at, string_bytes,
    varint_bytes,
};
use crate::error::ErrorKind;
use crate::fnm::{flag, parse_field, parse_field_head, parse_shape, FieldHead, FieldShape, FnmModel};
use crate::roundtrip_fnm::{law_map_round_trip, pairs_writable};

verus! {

/// A flag in its place.
pub open spec fn flag_bit(set: bool, weight: int) -> int {
    if set {
        weight
    } else {
        0
    }
}

/// The flags of any record, lowest first: term vectors, no norms, payloads,
/// soft deletes, parent field, and in older files a skip index.
pub open spec fn flags_of(f: FnmModel, skip_flag: bool) -> u8 {
    (flag_bit(f.store_term_vector, 1) + flag_bit(f.omit_norms, 2) + flag_bit(f.store_payloads, 4) + flag_bit(
        f.soft_deletes,
        8,
    ) + flag_bit(f.parent_field, 16) + flag_bit(skip_flag, 32)) as u8
}

/// The bytes of any record, as a file of a version holds it: newer ones have
/// one more byte for the skip index.
pub open spec fn any_head(f: FnmModel, version: i32, skip_flag: bool, skip_byte: u8) -> Seq<u8> {
    string_bytes(f.name) + (varint_bytes(f.number as nat) + ((if version >= 2 {
        seq![flags_of(f, skip_flag), f.index_options, f.doc_values_type, skip_byte]
    } else {
        seq![flags_of(f, skip_flag), f.index_options, f.doc_values_type]
    }) + le_i64(f.doc_values_gen)))
}

/// Points and vectors of any record; without points, nothing is said of
/// their index.
pub open spec fn any_shape(f: FnmModel) -> Seq<u8> {
    varint_bytes(f.point_dimension_count as nat) + ((if f.point_dimension_count == 0 {
        Seq::empty()
    } else {
        varint_bytes(f.point_index_dimension_count as nat) + varint_bytes(f.point_num_bytes as nat)
    }) + (varint_bytes(f.vector_dimension as nat) + seq![f.vector_encoding, f.vector_similarity]))
}

/// Any field record reads back, not only those that are written here: each
/// flag, the skip index by flag or by byte, points, vectors and attributes.
pub proof fn law_any_record_read(b: Seq<u8>, p: nat, version: i32, f: FnmModel, skip_flag: bool, skip_byte: u8)
    requires
        encode_utf8(f.name).len() <= i32::MAX,
        f.number <= i32::MAX,
        f.index_options <= 4,
        f.doc_values_type <= 5,
        f.attributes.len() <= i32::MAX,
        keys_sorted(f.attributes),
        pairs_writable(f.attributes),
        f.point_dimension_count == 0 ==> f.point_index_dimension_count == 0 && f.point_num_bytes == 0,
        f.doc_values_skip_index <==> skip_flag || (version >= 2 && skip_byte != 0),
        stands_at(b, p, any_head(f, version, skip_flag, skip_byte) + (map_bytes(f.attributes) + any_shape(f))),
    ensures
        parse_field(b, p, version) == Ok::<(FnmModel, nat), ErrorKind>(
            (
                f,
                p + any_head(f, version, skip_flag, skip_byte).len() + map_bytes(f.attributes).len() + any_shape(
                    f,
                ).len(),
            ),
        ),
{
    let head = any_head(f, version, skip_flag, skip_byte);
    let m = map_bytes(f.attributes);
    lemma_stands_split(b, p, head, m + any_shape(f));
    lemma_any_head(b, p, version, f, skip_flag, skip_byte);
    lemma_stands_split(b, p + head.len(), m, any_shape(f));
    law_map_round_trip(b, p + head.len(), f.attributes);
    lemma_any_shape(b, p + head.len() + m.len(), f);
    lemma_flags(f, skip_flag);
}

/// The flags of a record are told apart.
proof fn lemma_flags(f: FnmModel, skip_flag: bool)
    ensures
        ({
            let x = flags_of(f, skip_flag);
            &&& x < 64
            &&& flag(x, 0) == f.store_term_vector
            &&& flag(x, 1) == f.omit_norms
            &&& flag(x, 2) == f.store_payloads
            &&& flag(x, 3) == f.soft_deletes
            &&& flag(x, 4) == f.parent_field
            &&& flag(x, 5) == skip_flag
        }),
{
    vstd::arithmetic::power2::lemma2_to64();
}

proof fn lemma_any_head(b: Seq<u8>, p: nat, version: i32, f: FnmModel, skip_flag: bool, skip_byte: u8)
    requires
        encode_utf8(f.name).len() <= i32::MAX,
        f.number <= i32::MAX,
        f.index_options <= 4,
        f.doc_values_type <= 5,
        stands_at(b, p, any_head(f, version, skip_flag, skip_byte)),
    ensures
        parse_field_head(b, p, version) == Ok::<(FieldHead, nat), ErrorKind>(
            (
                FieldHead {
                    name: f.name,
                    number: f.number,
                    bits: flags_of(f, skip_flag),
                    index_options: f.index_options,
                    doc_values_type: f.doc_values_type,
                    skip_byte: if version >= 2 {
                        skip_byte
                    } else {
                        0
                    },
                    doc_values_gen: f.doc_values_gen,
                },
                p + any_head(f, version, skip_flag, skip_byte).len(),
            ),
        ),
{
    let mid = if version >= 2 {
        seq![flags_of(f, skip_flag), f.index_options, f.doc_values_type, skip_byte]
    } else {
        seq![flags_of(f, skip_flag), f.index_options, f.doc_values_type]
    };
    let t2 = mid + le_i64(f.doc_values_gen);
    let t1 = varint_bytes(f.number as nat) + t2;
    lemma_flags(f, skip_flag);
    lemma_stands_split(b, p, string_bytes(f.name), t1);
    law_string_round_trip(b, p, f.name);
    let p1 = p + string_bytes(f.name).len();
    lemma_stands_split(b, p1, varint_bytes(f.number as nat), t2);
    law_vint_round_trip(b, p1, f.number);
    let p2 = p1 + varint_bytes(f.number as nat).len();
    lemma_stands_split(b, p2, mid, le_i64(f.doc_values_gen));
    let got = b.subrange(p2 as int, (p2 + mid.len()) as int);
    assert(got[0] == b[p2 as int]);
    assert(got[1] == b[p2 as int + 1]);
    assert(got[2] == b[p2 as int + 2]);
    if version >= 2 {
        assert(got[3] == b[p2 as int + 3]);
    }
    lemma_parse_i64_at(b, p2 + mid.len(), f.doc_values_gen);
}

proof fn lemma_any_shape(b: Seq<u8>, p: nat, f: FnmModel)
    requires
        f.point_dimension_count == 0 ==> f.point_index_dimension_count == 0 && f.point_num_bytes == 0,
        stands_at(b, p, any_shape(f)),
    ensures
        parse_shape(b, p) == Ok::<(FieldShape, nat), ErrorKind>(
            (
                FieldShape {
                    point_dimension_count: f.point_dimension_count,
                    point_index_dimension_count: f.point_index_dimension_count,
                    point_num_bytes: f.point_num_bytes,
                    vector_dimension: f.vector_dimension,
                    vector_encoding: f.vector_encoding,
                    vector_similarity: f.vector_similarity,
                },
                p + any_shape(f).len(),
            ),
        ),
{
    let last = seq![f.vector_encoding, f.vector_similarity];
    let t2 = varint_bytes(f.vector_dimension as nat) + last;
    let a = varint_bytes(f.point_index_dimension_count as nat);
    let c = varint_bytes(f.point_num_bytes as nat);
    let mid = if f.point_dimension_count == 0 {
        Seq::empty()
    } else {
        a + c
    };
    crate::bytes::lemma_signed_casts();
    lemma_stands_split(b, p, varint_bytes(f.point_dimension_count as nat), mid + t2);
    law_vint_round_trip(b, p, f.point_dimension_count);
    let p1 = p + varint_bytes(f.point_dimension_count as nat).len();
    lemma_stands_split(b, p1, mid, t2);
    let dims = f.point_dimension_count as i32;
    assert(dims as u32 == f.point_dimension_count);
    if f.point_dimension_count != 0 {
        lemma_stands_split(b, p1, a, c);
        law_vint_round_trip(b, p1, f.point_index_dimension_count);
        law_vint_round_trip(b, p1 + a.len(), f.point_num_bytes);
        assert(f.point_index_dimension_count as i32 as u32 == f.point_index_dimension_count);
        assert(f.point_num_bytes as i32 as u32 == f.point_num_bytes);
    } else {
        assert(0i32 as u32 == 0u32);
    }
    let p2 = p1 + mid.len();
    lemma_stands_split(b, p2, varint_bytes(f.vector_dimension as nat), last);
    law_vint_round_trip(b, p2, f.vector_dimension);
    let p3 = p2 + varint_bytes(f.vector_dimension as nat).len();
    let got = b.subrange(p3 as int, (p3 + 2) as int);
    assert(got[0] == b[p3 as int]);
    assert(got[1] == b[p3 as int + 1]);
    assert(f.vector_dimension as i32 as u32 == f.vector_dimension);
}

} // verus!
