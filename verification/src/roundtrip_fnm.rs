//! Field infos read back as written.

use vstd::prelude::*;
use vstd::utf8::{encode_utf8, is_ascii_chars_encode_utf8};
use crate::attributes::{inserted, key_less, keys_sorted, map_bytes, pairs_bytes};
use crate::bytes::le_i64;
use crate::cursor::{
    index_header_bytes, law_footer_round_trip, law_header_round_trip, law_string_round_trip, law_vint_round_trip,
    lemma_parse_i64_at, lemma_stands_split, parse_index_header, stands_at, string_bytes, varint_bytes, with_footer, HeaderModel,
};
use crate::error::ErrorKind;
use crate::fnm::{
    flag, parse_attributes, parse_field, parse_field_head, parse_fields, parse_fnm, parse_pairs, parse_shape, FieldHead,
    FieldShape, FnmModel,
};
use crate::lexicon::{lemma_less_asymmetric, lemma_less_irreflexive, term_less};
use crate::writer::{
    field_routing, fnm_body, head_bytes, record_bytes, records_from, routing, shape_bytes, EntryModel,
};

verus! {

/// What a record can hold.
pub open spec fn field_writable(f: EntryModel) -> bool {
    &&& encode_utf8(f.name).len() <= i32::MAX
    &&& f.number <= i32::MAX
    &&& f.index_options <= 4
    &&& f.doc_values_type <= 5
}

/// The record that is read back for a field.
pub open spec fn field_record(f: EntryModel) -> FnmModel {
    FnmModel {
        name: f.name,
        number: f.number,
        store_term_vector: false,
        omit_norms: false,
        store_payloads: false,
        soft_deletes: false,
        parent_field: false,
        doc_values_skip_index: false,
        index_options: f.index_options,
        doc_values_type: f.doc_values_type,
        doc_values_gen: (-1) as i64,
        attributes: field_routing(f),
        point_dimension_count: 0,
        point_index_dimension_count: 0,
        point_num_bytes: 0,
        vector_dimension: f.vector_dim,
        vector_encoding: if f.vector_dim > 0 {
            f.vector_encoding
        } else {
            1
        },
        vector_similarity: f.vector_similarity,
    }
}

/// Two byte strings that first differ at `i`.
proof fn lemma_less_at(a: Seq<u8>, b: Seq<u8>, i: int)
    requires
        0 <= i < a.len(),
        i < b.len(),
        a[i] < b[i],
        forall|j: int| 0 <= j < i ==> a[j] == b[j],
    ensures
        term_less(a, b),
    decreases i,
{
    if i > 0 {
        let x = a.drop_first();
        let y = b.drop_first();
        assert forall|j: int| 0 <= j < i - 1 implies x[j] == y[j] by {
            assert(a[j + 1] == b[j + 1]);
        }
        lemma_less_at(x, y, i - 1);
    }
}

/// Two ASCII texts that first differ at `i`.
proof fn lemma_key_less_at(a: Seq<char>, b: Seq<char>, i: int)
    requires
        0 <= i < a.len(),
        i < b.len(),
        a[i] < b[i],
        forall|j: int| 0 <= j < i ==> a[j] == b[j],
        vstd::utf8::is_ascii_chars(a),
        vstd::utf8::is_ascii_chars(b),
    ensures
        key_less(a, b),
{
    is_ascii_chars_encode_utf8(a);
    is_ascii_chars_encode_utf8(b);
    lemma_less_at(encode_utf8(a), encode_utf8(b), i);
}

/// The routing keys are ASCII, and in order.
proof fn lemma_routing_keys()
    ensures
        key_less("PerFieldDocValuesFormat.format"@, "PerFieldDocValuesFormat.suffix"@),
        key_less("PerFieldDocValuesFormat.format"@, "PerFieldKnnVectorsFormat.format"@),
        key_less("PerFieldDocValuesFormat.format"@, "PerFieldKnnVectorsFormat.suffix"@),
        key_less("PerFieldDocValuesFormat.format"@, "PerFieldPostingsFormat.format"@),
        key_less("PerFieldDocValuesFormat.format"@, "PerFieldPostingsFormat.suffix"@),
        key_less("PerFieldDocValuesFormat.suffix"@, "PerFieldKnnVectorsFormat.format"@),
        key_less("PerFieldDocValuesFormat.suffix"@, "PerFieldKnnVectorsFormat.suffix"@),
        key_less("PerFieldDocValuesFormat.suffix"@, "PerFieldPostingsFormat.format"@),
        key_less("PerFieldDocValuesFormat.suffix"@, "PerFieldPostingsFormat.suffix"@),
        key_less("PerFieldKnnVectorsFormat.format"@, "PerFieldKnnVectorsFormat.suffix"@),
        key_less("PerFieldKnnVectorsFormat.format"@, "PerFieldPostingsFormat.format"@),
        key_less("PerFieldKnnVectorsFormat.format"@, "PerFieldPostingsFormat.suffix"@),
        key_less("PerFieldKnnVectorsFormat.suffix"@, "PerFieldPostingsFormat.format"@),
        key_less("PerFieldKnnVectorsFormat.suffix"@, "PerFieldPostingsFormat.suffix"@),
        key_less("PerFieldPostingsFormat.format"@, "PerFieldPostingsFormat.suffix"@),
{
    reveal_strlit("PerFieldDocValuesFormat.format");
    reveal_strlit("PerFieldDocValuesFormat.suffix");
    reveal_strlit("PerFieldKnnVectorsFormat.format");
    reveal_strlit("PerFieldKnnVectorsFormat.suffix");
    reveal_strlit("PerFieldPostingsFormat.format");
    reveal_strlit("PerFieldPostingsFormat.suffix");
    lemma_key_less_at("PerFieldDocValuesFormat.format"@, "PerFieldDocValuesFormat.suffix"@, 24);
    lemma_key_less_at("PerFieldDocValuesFormat.format"@, "PerFieldKnnVectorsFormat.format"@, 8);
    lemma_key_less_at("PerFieldDocValuesFormat.format"@, "PerFieldKnnVectorsFormat.suffix"@, 8);
    lemma_key_less_at("PerFieldDocValuesFormat.format"@, "PerFieldPostingsFormat.format"@, 8);
    lemma_key_less_at("PerFieldDocValuesFormat.format"@, "PerFieldPostingsFormat.suffix"@, 8);
    lemma_key_less_at("PerFieldDocValuesFormat.suffix"@, "PerFieldKnnVectorsFormat.format"@, 8);
    lemma_key_less_at("PerFieldDocValuesFormat.suffix"@, "PerFieldKnnVectorsFormat.suffix"@, 8);
    lemma_key_less_at("PerFieldDocValuesFormat.suffix"@, "PerFieldPostingsFormat.format"@, 8);
    lemma_key_less_at("PerFieldDocValuesFormat.suffix"@, "PerFieldPostingsFormat.suffix"@, 8);
    lemma_key_less_at("PerFieldKnnVectorsFormat.format"@, "PerFieldKnnVectorsFormat.suffix"@, 25);
    lemma_key_less_at("PerFieldKnnVectorsFormat.format"@, "PerFieldPostingsFormat.format"@, 8);
    lemma_key_less_at("PerFieldKnnVectorsFormat.format"@, "PerFieldPostingsFormat.suffix"@, 8);
    lemma_key_less_at("PerFieldKnnVectorsFormat.suffix"@, "PerFieldPostingsFormat.format"@, 8);
    lemma_key_less_at("PerFieldKnnVectorsFormat.suffix"@, "PerFieldPostingsFormat.suffix"@, 8);
    lemma_key_less_at("PerFieldPostingsFormat.format"@, "PerFieldPostingsFormat.suffix"@, 23);
}

/// The routing attributes are in key order.
proof fn lemma_routing_sorted(doc_values: bool, vectors: bool, indexed: bool)
    ensures
        keys_sorted(routing(doc_values, vectors, indexed)),
{
    lemma_routing_keys();
    let s = routing(doc_values, vectors, indexed);
    assert forall|i: int, j: int| 0 <= i < j < s.len() implies key_less((#[trigger] s[i]).0, (#[trigger] s[j]).0) by {}
}

/// A key behind all others is inserted at the end.
proof fn lemma_inserted_last(s: Seq<(Seq<char>, Seq<char>)>, k: Seq<char>, v: Seq<char>)
    requires
        forall|j: int| 0 <= j < s.len() ==> key_less((#[trigger] s[j]).0, k),
    ensures
        inserted(s, k, v) == s.push((k, v)),
    decreases s.len(),
{
    if s.len() == 0 {
        assert(seq![(k, v)] + s =~= s.push((k, v)));
    } else {
        assert(key_less(s[0].0, k));
        lemma_less_asymmetric(encode_utf8(s[0].0), encode_utf8(k));
        lemma_less_irreflexive(encode_utf8(k));
        let t = s.drop_first();
        assert forall|j: int| 0 <= j < t.len() implies key_less((#[trigger] t[j]).0, k) by {
            assert(key_less(s[j + 1].0, k));
        }
        lemma_inserted_last(t, k, v);
        assert(seq![s[0]] + t.push((k, v)) =~= s.push((k, v)));
    }
}

/// Keys and values that can be written.
pub open spec fn pairs_writable(s: Seq<(Seq<char>, Seq<char>)>) -> bool {
    forall|i: int|
        0 <= i < s.len() ==> encode_utf8((#[trigger] s[i]).0).len() <= i32::MAX && encode_utf8(s[i].1).len() <= i32::MAX
}

/// The bytes of fewer pairs stand in front of those of more.
proof fn lemma_pairs_stand(b: Seq<u8>, p: nat, s: Seq<(Seq<char>, Seq<char>)>, i: nat, n: nat)
    requires
        i <= n,
        stands_at(b, p, pairs_bytes(s, n)),
    ensures
        stands_at(b, p, pairs_bytes(s, i)),
    decreases n,
{
    if i < n {
        lemma_stands_split(
            b,
            p,
            pairs_bytes(s, (n - 1) as nat),
            string_bytes(s[n - 1].0) + string_bytes(s[n - 1].1),
        );
        lemma_pairs_stand(b, p, s, i, (n - 1) as nat);
    }
}

/// Pairs from the `i`-th on read back.
proof fn lemma_pairs_read(b: Seq<u8>, p: nat, s: Seq<(Seq<char>, Seq<char>)>, i: nat)
    requires
        i <= s.len(),
        keys_sorted(s),
        pairs_writable(s),
        stands_at(b, p, pairs_bytes(s, s.len())),
    ensures
        parse_pairs(b, p + pairs_bytes(s, i).len(), (s.len() - i) as nat, s.take(i as int)) == Ok::<
            (Seq<(Seq<char>, Seq<char>)>, nat),
            ErrorKind,
        >((s, p + pairs_bytes(s, s.len()).len())),
    decreases s.len() - i,
{
    if i == s.len() {
        assert(s.take(i as int) =~= s);
    } else {
        let (k, v) = s[i as int];
        lemma_pairs_stand(b, p, s, i + 1, s.len());
        lemma_stands_split(b, p, pairs_bytes(s, i), string_bytes(k) + string_bytes(v));
        let q = p + pairs_bytes(s, i).len();
        lemma_stands_split(b, q, string_bytes(k), string_bytes(v));
        law_string_round_trip(b, q, k);
        law_string_round_trip(b, q + string_bytes(k).len(), v);
        lemma_inserted_last(s.take(i as int), k, v);
        assert(s.take(i as int).push((k, v)) =~= s.take(i as int + 1));
        lemma_pairs_read(b, p, s, i + 1);
    }
}

/// A map in key order reads back as written.
pub proof fn law_map_round_trip(b: Seq<u8>, p: nat, s: Seq<(Seq<char>, Seq<char>)>)
    requires
        s.len() <= i32::MAX,
        keys_sorted(s),
        pairs_writable(s),
        stands_at(b, p, map_bytes(s)),
    ensures
        parse_attributes(b, p) == Ok::<(Seq<(Seq<char>, Seq<char>)>, nat), ErrorKind>((s, p + map_bytes(s).len())),
{
    let head = varint_bytes((s.len() as u32) as nat);
    lemma_stands_split(b, p, head, pairs_bytes(s, s.len()));
    law_vint_round_trip(b, p, s.len() as u32);
    lemma_pairs_read(b, p + head.len(), s, 0);
    assert(s.take(0) =~= Seq::<(Seq<char>, Seq<char>)>::empty());
}

/// The routing attributes can be written.
proof fn lemma_routing_writable(doc_values: bool, vectors: bool, indexed: bool)
    ensures
        pairs_writable(routing(doc_values, vectors, indexed)),
{
    reveal_strlit("PerFieldDocValuesFormat.format");
    reveal_strlit("PerFieldDocValuesFormat.suffix");
    reveal_strlit("PerFieldKnnVectorsFormat.format");
    reveal_strlit("PerFieldKnnVectorsFormat.suffix");
    reveal_strlit("PerFieldPostingsFormat.format");
    reveal_strlit("PerFieldPostingsFormat.suffix");
    reveal_strlit("Lucene90");
    reveal_strlit("Lucene99HnswVectorsFormat");
    reveal_strlit("Lucene103");
    reveal_strlit("0");
    is_ascii_chars_encode_utf8("PerFieldDocValuesFormat.format"@);
    is_ascii_chars_encode_utf8("PerFieldDocValuesFormat.suffix"@);
    is_ascii_chars_encode_utf8("PerFieldKnnVectorsFormat.format"@);
    is_ascii_chars_encode_utf8("PerFieldKnnVectorsFormat.suffix"@);
    is_ascii_chars_encode_utf8("PerFieldPostingsFormat.format"@);
    is_ascii_chars_encode_utf8("PerFieldPostingsFormat.suffix"@);
    is_ascii_chars_encode_utf8("Lucene90"@);
    is_ascii_chars_encode_utf8("Lucene99HnswVectorsFormat"@);
    is_ascii_chars_encode_utf8("Lucene103"@);
    is_ascii_chars_encode_utf8("0"@);
}

/// The head of a record reads back.
proof fn lemma_head_read(b: Seq<u8>, p: nat, f: EntryModel)
    requires
        field_writable(f),
        stands_at(b, p, head_bytes(f)),
    ensures
        parse_field_head(b, p, crate::fnm::FORMAT_CURRENT) == Ok::<(FieldHead, nat), ErrorKind>(
            (
                FieldHead {
                    name: f.name,
                    number: f.number,
                    bits: 0,
                    index_options: f.index_options,
                    doc_values_type: f.doc_values_type,
                    skip_byte: 0,
                    doc_values_gen: (-1) as i64,
                },
                p + head_bytes(f).len(),
            ),
        ),
{
    let mid = seq![0u8, f.index_options, f.doc_values_type, 0u8];
    let t2 = mid + le_i64((-1) as i64);
    let t1 = varint_bytes(f.number as nat) + t2;
    lemma_stands_split(b, p, string_bytes(f.name), t1);
    law_string_round_trip(b, p, f.name);
    let p1 = p + string_bytes(f.name).len();
    lemma_stands_split(b, p1, varint_bytes(f.number as nat), t2);
    law_vint_round_trip(b, p1, f.number);
    let p2 = p1 + varint_bytes(f.number as nat).len();
    lemma_stands_split(b, p2, mid, le_i64((-1) as i64));
    let got = b.subrange(p2 as int, (p2 + 4) as int);
    assert(got[0] == b[p2 as int]);
    assert(got[1] == b[p2 as int + 1]);
    assert(got[2] == b[p2 as int + 2]);
    assert(got[3] == b[p2 as int + 3]);
    lemma_parse_i64_at(b, p2 + 4, (-1) as i64);
}

/// The shape of a record reads back.
proof fn lemma_shape_read(b: Seq<u8>, p: nat, f: EntryModel)
    requires
        stands_at(b, p, shape_bytes(f)),
    ensures
        parse_shape(b, p) == Ok::<(FieldShape, nat), ErrorKind>(
            (
                FieldShape {
                    point_dimension_count: 0,
                    point_index_dimension_count: 0,
                    point_num_bytes: 0,
                    vector_dimension: f.vector_dim,
                    vector_encoding: if f.vector_dim > 0 {
                        f.vector_encoding
                    } else {
                        1
                    },
                    vector_similarity: f.vector_similarity,
                },
                p + shape_bytes(f).len(),
            ),
        ),
{
    let last = seq![
        if f.vector_dim > 0 {
            f.vector_encoding
        } else {
            1u8
        },
        f.vector_similarity,
    ];
    let t = varint_bytes(f.vector_dim as nat) + last;
    lemma_stands_split(b, p, varint_bytes(0), t);
    law_vint_round_trip(b, p, 0);
    let p1 = p + varint_bytes(0).len();
    lemma_stands_split(b, p1, varint_bytes(f.vector_dim as nat), last);
    law_vint_round_trip(b, p1, f.vector_dim);
    let p2 = p1 + varint_bytes(f.vector_dim as nat).len();
    let got = b.subrange(p2 as int, (p2 + 2) as int);
    assert(got[0] == b[p2 as int]);
    assert(got[1] == b[p2 as int + 1]);
    crate::bytes::lemma_signed_casts();
    assert(f.vector_dim as i32 as u32 == f.vector_dim);
}

/// A record reads back.
proof fn lemma_record_read(b: Seq<u8>, p: nat, f: EntryModel)
    requires
        field_writable(f),
        stands_at(b, p, record_bytes(f)),
    ensures
        parse_field(b, p, crate::fnm::FORMAT_CURRENT) == Ok::<(FnmModel, nat), ErrorKind>(
            (field_record(f), p + record_bytes(f).len()),
        ),
{
    let m = map_bytes(field_routing(f));
    lemma_stands_split(b, p, head_bytes(f), m + shape_bytes(f));
    let p1 = p + head_bytes(f).len();
    lemma_stands_split(b, p1, m, shape_bytes(f));
    lemma_head_read(b, p, f);
    lemma_routing_sorted(f.doc_values_type != 0, f.vector_dim > 0, f.index_options > 0);
    lemma_routing_writable(f.doc_values_type != 0, f.vector_dim > 0, f.index_options > 0);
    law_map_round_trip(b, p1, field_routing(f));
    lemma_shape_read(b, p1 + m.len(), f);
    lemma_no_flags();
}

/// No flag is set in a zero byte.
proof fn lemma_no_flags()
    ensures
        forall|k: nat| !#[trigger] flag(0, k),
{
    assert forall|k: nat| !#[trigger] flag(0, k) by {
        vstd::arithmetic::power2::lemma_pow2_pos(k);
        vstd::arithmetic::div_mod::lemma_div_basics(vstd::arithmetic::power2::pow2(k) as int);
    }
}

/// The records from the `i`-th on read back.
#[verifier::rlimit(40)]
#[verifier::spinoff_prover]
proof fn lemma_records_read(b: Seq<u8>, p: nat, fields: Seq<EntryModel>, i: nat)
    requires
        i <= fields.len(),
        forall|k: int| 0 <= k < fields.len() ==> field_writable(#[trigger] fields[k]),
        stands_at(b, p, records_from(fields, i)),
    ensures
        parse_fields(b, p, crate::fnm::FORMAT_CURRENT, (fields.len() - i) as nat) == Ok::<Seq<FnmModel>, ErrorKind>(
            Seq::new((fields.len() - i) as nat, |k: int| field_record(fields[i + k])),
        ),
    decreases fields.len() - i,
{
    let all = Seq::new((fields.len() - i) as nat, |k: int| field_record(fields[i + k]));
    if i == fields.len() {
        assert(all =~= Seq::<FnmModel>::empty());
    } else {
        let f = fields[i as int];
        lemma_stands_split(b, p, record_bytes(f), records_from(fields, i + 1));
        lemma_record_read(b, p, f);
        let q = p + record_bytes(f).len();
        lemma_records_read(b, q, fields, i + 1);
        let rest = Seq::new((fields.len() - (i + 1)) as nat, |k: int| field_record(fields[i + 1 + k]));
        assert(seq![field_record(f)] + rest =~= all);
    }
}

/// A file whose body starts with `h`.
proof fn lemma_head_and_rest(b: Seq<u8>, h: Seq<u8>, tail: Seq<u8>)
    requires
        stands_at(b, 0, h + tail),
    ensures
        h + b.skip(h.len() as int) == b,
        stands_at(b, h.len(), tail),
{
    lemma_stands_split(b, 0, h, tail);
    assert(h + b.skip(h.len() as int) =~= b) by {
        assert(b.subrange(0, h.len() as int) == h);
        assert forall|i: int| 0 <= i < h.len() implies h[i] == b[i] by {
            assert(b.subrange(0, h.len() as int)[i] == b[i]);
        }
    }
}

/// The header that field infos start with.
proof fn lemma_fnm_header(segment_id: Seq<u8>, rest: Seq<u8>)
    requires
        segment_id.len() == 16,
    ensures
        ({
            let h = index_header_bytes(
                encode_utf8(crate::fnm::CODEC_NAME@),
                crate::fnm::FORMAT_CURRENT,
                segment_id,
                encode_utf8(""@),
            );
            parse_index_header(
                h + rest,
                crate::fnm::CODEC_NAME@,
                crate::fnm::FORMAT_START,
                crate::fnm::FORMAT_CURRENT,
            ) == Ok::<HeaderModel, ErrorKind>(
                HeaderModel {
                    codec: crate::fnm::CODEC_NAME@,
                    version: crate::fnm::FORMAT_CURRENT,
                    segment_id,
                    suffix: ""@,
                    length: h.len(),
                },
            )
        }),
{
    reveal_strlit("Lucene94FieldInfos");
    reveal_strlit("");
    is_ascii_chars_encode_utf8(crate::fnm::CODEC_NAME@);
    is_ascii_chars_encode_utf8(""@);
    law_header_round_trip(
        crate::fnm::CODEC_NAME@,
        crate::fnm::FORMAT_CURRENT,
        segment_id,
        ""@,
        rest,
        crate::fnm::FORMAT_START,
        crate::fnm::FORMAT_CURRENT,
    );
}

/// Parsing written field infos gives the fields back: name, number, types,
/// options, vector shape, and the attributes that route them.
pub proof fn law_fnm_round_trip(fields: Seq<EntryModel>, segment_id: Seq<u8>)
    requires
        segment_id.len() == 16,
        fields.len() <= i32::MAX,
        forall|i: int| 0 <= i < fields.len() ==> field_writable(#[trigger] fields[i]),
    ensures
        parse_fnm(with_footer(fnm_body(fields, segment_id))) == Ok::<Seq<FnmModel>, ErrorKind>(
            Seq::new(fields.len(), |i: int| field_record(fields[i])),
        ),
{
    let body = fnm_body(fields, segment_id);
    let b = with_footer(body);
    law_footer_round_trip(body);
    let h = index_header_bytes(
        encode_utf8(crate::fnm::CODEC_NAME@),
        crate::fnm::FORMAT_CURRENT,
        segment_id,
        encode_utf8(""@),
    );
    let count = varint_bytes((fields.len() as u32) as nat);
    let tail = count + records_from(fields, 0);
    lemma_head_and_rest(b, h, tail);
    lemma_fnm_header(segment_id, b.skip(h.len() as int));
    lemma_stands_split(b, h.len(), count, records_from(fields, 0));
    law_vint_round_trip(b, h.len(), fields.len() as u32);
    lemma_records_read(b, h.len() + count.len(), fields, 0);
    assert(Seq::new((fields.len() - 0) as nat, |k: int| field_record(fields[0 + k])) =~= Seq::new(
        fields.len(),
        |i: int| field_record(fields[i]),
    ));
}

} // verus!
