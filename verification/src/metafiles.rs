//! The files beside the doc values of a segment read back: its segment info,
//! the attributes that lead a reader to each field's files, and the index of
//! its stored fields.

use vstd::prelude::*;
use vstd::utf8::{encode_utf8, is_ascii_chars_encode_utf8};
use crate::attributes::{keys_sorted, looked_up, map_bytes};
use crate::bytes::{le_bytes, le_i32, lemma_le_bytes_len};
use crate::cursor::{
    i32_at, i64_at, index_header_bytes, law_footer_round_trip, law_header_round_trip, law_string_round_trip,
    law_vint_round_trip, lemma_stands_split, parse_index_header, parse_string, parse_vint, stands_at, string_bytes,
    varint_bytes, with_footer, HeaderModel,
};
use crate::error::ErrorKind;
use crate::fnm::parse_attributes;
use crate::monotonic::{decoded, law_monotonic_data_len, law_monotonic_round_trip, monotonic_meta, parse_meta};
use crate::roundtrip::{lemma_byte_at, lemma_i32_at, lemma_len_at};
use crate::roundtrip_fnm::{law_map_round_trip, pairs_writable};
use crate::stored::{
    chunk_count, chunk_pointers, chunk_starts, empty_stored_fields, fdm_head, fdm_indexes, fdm_tail, fdt_body,
    fdx_pointers, fdx_starts, lemma_data_size, stored_header,
};
use crate::writer::{field_routing, names_bytes, own_names, si_body, version_bytes, EntryModel};

verus! {

/// `n` strings from `p` on, and where they end.
pub open spec fn strings_at(b: Seq<u8>, p: nat, n: nat) -> Option<(Seq<Seq<char>>, nat)>
    decreases n,
{
    if n == 0 {
        Some((Seq::empty(), p))
    } else {
        match parse_string(b, p) {
            Err(_) => None,
            Ok((s, q)) => match strings_at(b, q, (n - 1) as nat) {
                None => None,
                Some((rest, r)) => Some((seq![s] + rest, r)),
            },
        }
    }
}

/// Name `i` stands behind those before it.
proof fn lemma_name_at(b: Seq<u8>, p: nat, files: Seq<Seq<char>>, i: nat, n: nat)
    requires
        i < n <= files.len(),
        stands_at(b, p, names_bytes(files, n)),
    ensures
        stands_at(b, p + names_bytes(files, i).len(), string_bytes(files[i as int])),
        names_bytes(files, i + 1).len() == names_bytes(files, i).len() + string_bytes(files[i as int]).len(),
    decreases n,
{
    lemma_stands_split(b, p, names_bytes(files, (n - 1) as nat), string_bytes(files[n - 1]));
    if i < n - 1 {
        lemma_name_at(b, p, files, i, (n - 1) as nat);
    }
}

proof fn lemma_names_read(b: Seq<u8>, p: nat, files: Seq<Seq<char>>, i: nat)
    requires
        i <= files.len(),
        forall|k: int| 0 <= k < files.len() ==> encode_utf8(#[trigger] files[k]).len() <= i32::MAX,
        stands_at(b, p, names_bytes(files, files.len())),
    ensures
        strings_at(b, p + names_bytes(files, i).len(), (files.len() - i) as nat) == Some(
            (files.skip(i as int), p + names_bytes(files, files.len()).len()),
        ),
    decreases files.len() - i,
{
    if i < files.len() {
        lemma_name_at(b, p, files, i, files.len());
        law_string_round_trip(b, p + names_bytes(files, i).len(), files[i as int]);
        lemma_names_read(b, p, files, i + 1);
        assert(seq![files[i as int]] + files.skip(i as int + 1) =~= files.skip(i as int));
    } else {
        assert(files.skip(i as int) =~= Seq::<Seq<char>>::empty());
    }
}

/// What a segment info says, field by field, behind its header.
pub open spec fn segment_info_says(
    b: Seq<u8>,
    p: nat,
    max_doc: int,
    files: Seq<Seq<char>>,
    diagnostics: Seq<(Seq<char>, Seq<char>)>,
    attributes: Seq<(Seq<char>, Seq<char>)>,
) -> bool {
    &&& i32_at(b, p) == 10 && i32_at(b, p + 4) == 3 && i32_at(b, p + 8) == 2
    &&& b[p as int + 12] == 1
    &&& i32_at(b, p + 13) == 10 && i32_at(b, p + 17) == 3 && i32_at(b, p + 21) == 2
    &&& i32_at(b, p + 25) == max_doc
    &&& b[p as int + 29] == 0xFF
    &&& b[p as int + 30] == 0xFF
    &&& parse_attributes(b, p + 31) is Ok
    &&& parse_attributes(b, p + 31)->Ok_0.0 == diagnostics
    &&& {
        let q1 = parse_attributes(b, p + 31)->Ok_0.1;
        let (count, q2) = parse_vint(b, q1)->Ok_0;
        let (listed, q3) = strings_at(b, q2, files.len())->0;
        let (said, q4) = parse_attributes(b, q3)->Ok_0;
        let (sorts, q5) = parse_vint(b, q4)->Ok_0;
        &&& parse_vint(b, q1) is Ok && count == files.len()
        &&& strings_at(b, q2, files.len()) is Some && listed == files
        &&& parse_attributes(b, q3) is Ok && said == attributes
        &&& parse_vint(b, q4) is Ok && sorts == 0
        &&& q5 + 16 == b.len()
    }
}

/// Where the fixed part of a segment info stands.
proof fn lemma_si_fixed(b: Seq<u8>, p: nat, max_doc: u32)
    requires
        max_doc <= i32::MAX,
        stands_at(b, p, si_fixed(max_doc)),
    ensures
        si_fixed(max_doc).len() == 31,
        i32_at(b, p) == 10,
        i32_at(b, p + 4) == 3,
        i32_at(b, p + 8) == 2,
        b[p as int + 12] == 1,
        i32_at(b, p + 13) == 10,
        i32_at(b, p + 17) == 3,
        i32_at(b, p + 21) == 2,
        i32_at(b, p + 25) == max_doc,
        b[p as int + 29] == 0xFF,
        b[p as int + 30] == 0xFF,
{
    let s3 = le_i32(max_doc as i32) + seq![0xFFu8, 0xFFu8];
    let s2 = version_bytes() + s3;
    let s1 = seq![1u8] + s2;
    lemma_version_at(b, p, s1);
    lemma_stands_split(b, p, version_bytes(), s1);
    lemma_stands_split(b, p + 12, seq![1u8], s2);
    lemma_byte_at(b, p + 12, 1);
    lemma_version_at(b, p + 13, s3);
    lemma_stands_split(b, p + 13, version_bytes(), s3);
    lemma_stands_split(b, p + 25, le_i32(max_doc as i32), seq![0xFFu8, 0xFFu8]);
    lemma_i32_at(b, p + 25, max_doc as i32);
    lemma_le_bytes_len(((max_doc as i32) as u32) as nat, 4);
    let pair = b.subrange((p + 29) as int, (p + 31) as int);
    assert(pair[0] == 0xFF && pair[1] == 0xFF);
}

proof fn lemma_version_at(b: Seq<u8>, p: nat, rest: Seq<u8>)
    requires
        stands_at(b, p, version_bytes() + rest),
    ensures
        i32_at(b, p) == 10,
        i32_at(b, p + 4) == 3,
        i32_at(b, p + 8) == 2,
        version_bytes().len() == 12,
{
    lemma_stands_split(b, p, version_bytes(), rest);
    lemma_stands_split(b, p, le_i32(10) + le_i32(3), le_i32(2));
    lemma_stands_split(b, p, le_i32(10), le_i32(3));
    lemma_i32_at(b, p, 10);
    lemma_i32_at(b, p + 4, 3);
    lemma_i32_at(b, p + 8, 2);
}

/// A segment info says how many documents the segment has and which files,
/// with its diagnostics and attributes, that it is no compound segment and
/// has no sort order; nothing stands between these and the footer.
pub proof fn law_segment_info_read(
    segment_id: Seq<u8>,
    max_doc: u32,
    files: Seq<Seq<char>>,
    diagnostics: Seq<(Seq<char>, Seq<char>)>,
    attributes: Seq<(Seq<char>, Seq<char>)>,
)
    requires
        segment_id.len() == 16,
        max_doc <= i32::MAX,
        files.len() <= i32::MAX,
        forall|k: int| 0 <= k < files.len() ==> encode_utf8(#[trigger] files[k]).len() <= i32::MAX,
        diagnostics.len() <= i32::MAX,
        keys_sorted(diagnostics),
        pairs_writable(diagnostics),
        attributes.len() <= i32::MAX,
        keys_sorted(attributes),
        pairs_writable(attributes),
    ensures
        ({
            let b = with_footer(si_body(segment_id, max_doc, files, diagnostics, attributes));
            &&& parse_index_header(b, "Lucene90SegmentInfo"@, 0, 0) is Ok
            &&& {
                let h = parse_index_header(b, "Lucene90SegmentInfo"@, 0, 0)->Ok_0;
                h.segment_id == segment_id && h.suffix == ""@ && segment_info_says(
                    b,
                    h.length,
                    max_doc as int,
                    files,
                    diagnostics,
                    attributes,
                )
            }
        }),
{
    let fixed = si_fixed(max_doc);
    let s1 = si_rest(files, diagnostics, attributes);
    let head = index_header_bytes(encode_utf8("Lucene90SegmentInfo"@), 0, segment_id, encode_utf8(""@));
    assert(si_body(segment_id, max_doc, files, diagnostics, attributes) =~= head + (fixed + s1));
    reveal_strlit("Lucene90SegmentInfo");
    is_ascii_chars_encode_utf8("Lucene90SegmentInfo"@);
    lemma_framed("Lucene90SegmentInfo"@, 0, segment_id, fixed + s1);
    let b = with_footer(head + (fixed + s1));
    lemma_stands_split(b, head.len(), fixed, s1);
    lemma_si_fixed(b, head.len(), max_doc);
    lemma_si_rest(b, head.len() + 31, files, diagnostics, attributes);
}

/// A file that starts with a header and ends in a footer: the header reads
/// back, and what is between stands behind it.
proof fn lemma_framed(codec: Seq<char>, version: i32, segment_id: Seq<u8>, inner: Seq<u8>)
    requires
        segment_id.len() == 16,
        encode_utf8(codec).len() <= i32::MAX,
    ensures
        ({
            let head = index_header_bytes(encode_utf8(codec), version, segment_id, encode_utf8(""@));
            let b = with_footer(head + inner);
            &&& parse_index_header(b, codec, version, version) == Ok::<HeaderModel, ErrorKind>(
                HeaderModel { codec, version, segment_id, suffix: ""@, length: head.len() },
            )
            &&& stands_at(b, head.len(), inner)
            &&& b.len() == head.len() + inner.len() + 16
        }),
{
    let head = index_header_bytes(encode_utf8(codec), version, segment_id, encode_utf8(""@));
    let body = head + inner;
    let b = with_footer(body);
    law_footer_round_trip(body);
    reveal_strlit("");
    is_ascii_chars_encode_utf8(""@);
    let rest = b.skip(head.len() as int);
    assert(b =~= head + rest) by {
        assert forall|i: int| 0 <= i < head.len() implies b[i] == head[i] by {
            assert(b[i] == b.subrange(0, body.len() as int)[i]);
        }
    }
    law_header_round_trip(codec, version, segment_id, ""@, rest, version, version);
    assert(stands_at(b, 0, head + inner));
    lemma_stands_split(b, 0, head, inner);
}

/// The part of a segment info with a fixed length.
spec fn si_fixed(max_doc: u32) -> Seq<u8> {
    version_bytes() + (seq![1u8] + (version_bytes() + (le_i32(max_doc as i32) + seq![0xFFu8, 0xFFu8])))
}

/// The part of a segment info behind that.
spec fn si_rest(
    files: Seq<Seq<char>>,
    diagnostics: Seq<(Seq<char>, Seq<char>)>,
    attributes: Seq<(Seq<char>, Seq<char>)>,
) -> Seq<u8> {
    map_bytes(diagnostics) + (varint_bytes((files.len() as u32) as nat) + (names_bytes(files, files.len()) + (map_bytes(
        attributes,
    ) + varint_bytes(0))))
}

proof fn lemma_si_rest(
    b: Seq<u8>,
    p: nat,
    files: Seq<Seq<char>>,
    diagnostics: Seq<(Seq<char>, Seq<char>)>,
    attributes: Seq<(Seq<char>, Seq<char>)>,
)
    requires
        files.len() <= i32::MAX,
        forall|k: int| 0 <= k < files.len() ==> encode_utf8(#[trigger] files[k]).len() <= i32::MAX,
        diagnostics.len() <= i32::MAX,
        keys_sorted(diagnostics),
        pairs_writable(diagnostics),
        attributes.len() <= i32::MAX,
        keys_sorted(attributes),
        pairs_writable(attributes),
        stands_at(b, p, si_rest(files, diagnostics, attributes)),
        b.len() == p + si_rest(files, diagnostics, attributes).len() + 16,
    ensures
        ({
            let q1 = parse_attributes(b, p)->Ok_0.1;
            let (count, q2) = parse_vint(b, q1)->Ok_0;
            let (listed, q3) = strings_at(b, q2, files.len())->0;
            let (said, q4) = parse_attributes(b, q3)->Ok_0;
            let (sorts, q5) = parse_vint(b, q4)->Ok_0;
            &&& parse_attributes(b, p) is Ok
            &&& parse_attributes(b, p)->Ok_0.0 == diagnostics
            &&& parse_vint(b, q1) is Ok && count == files.len()
            &&& strings_at(b, q2, files.len()) is Some && listed == files
            &&& parse_attributes(b, q3) is Ok && said == attributes
            &&& parse_vint(b, q4) is Ok && sorts == 0
            &&& q5 + 16 == b.len()
        }),
{
    let names = names_bytes(files, files.len());
    let s4 = map_bytes(attributes) + varint_bytes(0);
    let s3 = names + s4;
    let s2 = varint_bytes((files.len() as u32) as nat) + s3;
    lemma_stands_split(b, p, map_bytes(diagnostics), s2);
    law_map_round_trip(b, p, diagnostics);
    let q1 = p + map_bytes(diagnostics).len();
    lemma_stands_split(b, q1, varint_bytes(files.len()), s3);
    law_vint_round_trip(b, q1, files.len() as u32);
    let q2 = q1 + varint_bytes(files.len()).len();
    lemma_stands_split(b, q2, names, s4);
    lemma_names_read(b, q2, files, 0);
    assert(files.skip(0) =~= files);
    let q3 = q2 + names.len();
    lemma_stands_split(b, q3, map_bytes(attributes), varint_bytes(0));
    law_map_round_trip(b, q3, attributes);
    law_vint_round_trip(b, q3 + map_bytes(attributes).len(), 0);
}

/// A field's attributes lead to its files: the format and suffix that they
/// name for doc values are those in the names of the doc-values files, and
/// they name a format exactly where the field has doc values, vectors or
/// postings.
pub proof fn law_routing_leads_to_files(f: EntryModel, segment: Seq<char>)
    ensures
        ({
            let a = field_routing(f);
            let format = looked_up(a, "PerFieldDocValuesFormat.format"@);
            let suffix = looked_up(a, "PerFieldDocValuesFormat.suffix"@);
            &&& format is Some <==> f.doc_values_type != 0
            &&& suffix is Some <==> f.doc_values_type != 0
            &&& f.doc_values_type != 0 ==> own_names(segment)[0] == segment + "_"@ + format->0 + "_"@ + suffix->0
                + ".dvd"@ && own_names(segment)[1] == segment + "_"@ + format->0 + "_"@ + suffix->0 + ".dvm"@
            &&& looked_up(a, "PerFieldKnnVectorsFormat.format"@) is Some <==> f.vector_dim > 0
            &&& looked_up(a, "PerFieldPostingsFormat.format"@) is Some <==> f.index_options > 0
        }),
{
    reveal_strlit("PerFieldDocValuesFormat.format");
    reveal_strlit("PerFieldDocValuesFormat.suffix");
    reveal_strlit("PerFieldKnnVectorsFormat.format");
    reveal_strlit("PerFieldKnnVectorsFormat.suffix");
    reveal_strlit("PerFieldPostingsFormat.format");
    reveal_strlit("PerFieldPostingsFormat.suffix");
    reveal_strlit("Lucene90");
    reveal_strlit("0");
    reveal_strlit("_");
    reveal_strlit(".dvd");
    reveal_strlit(".dvm");
    reveal_strlit("_Lucene90_0.dvd");
    reveal_strlit("_Lucene90_0.dvm");
    reveal_with_fuel(looked_up, 8);
    let a = field_routing(f);
    assert("PerFieldDocValuesFormat.format"@[24] != "PerFieldDocValuesFormat.suffix"@[24]);
    assert("PerFieldKnnVectorsFormat.format"@[25] != "PerFieldKnnVectorsFormat.suffix"@[25]);
    assert("PerFieldPostingsFormat.format"@[23] != "PerFieldPostingsFormat.suffix"@[23]);
    assert("PerFieldDocValuesFormat.format"@.len() == 30);
    assert("PerFieldKnnVectorsFormat.format"@.len() == 31);
    assert("PerFieldPostingsFormat.format"@.len() == 29);
    if f.doc_values_type != 0 {
        assert(own_names(segment)[0] =~= segment + "_"@ + "Lucene90"@ + "_"@ + "0"@ + ".dvd"@);
        assert(own_names(segment)[1] =~= segment + "_"@ + "Lucene90"@ + "_"@ + "0"@ + ".dvm"@);
    }
}

/// What the metadata of empty stored fields says of their index, behind its
/// header: chunk size, number of documents, block shift, how many entries,
/// then where each of the two indexes starts with the metadata that decodes
/// it, and where the second ends.
pub proof fn law_stored_index_read(num_docs: nat, segment_id: Seq<u8>)
    requires
        num_docs <= i32::MAX,
        segment_id.len() == 16,
    ensures
        ({
            let (fdt, fdx, fdm) = empty_stored_fields(num_docs, segment_id);
            let n = chunk_starts(num_docs).len();
            let p = stored_header("Lucene90FieldsIndexMeta"@, 1, segment_id).len() + 3;
            let starts_at = i64_at(fdm, p + 12) as nat;
            let (a, q) = parse_meta(fdm, p + 20, n, 10)->Ok_0;
            let pointers_at = i64_at(fdm, q) as nat;
            let (b, r) = parse_meta(fdm, q + 8, n, 10)->Ok_0;
            &&& parse_vint(fdm, (p - 3) as nat) == Ok::<(i32, nat), ErrorKind>((81920, p))
            &&& i32_at(fdm, p) == num_docs
            &&& i32_at(fdm, p + 4) == 10
            &&& i32_at(fdm, p + 8) == n
            &&& parse_meta(fdm, p + 20, n, 10) is Ok
            &&& parse_meta(fdm, q + 8, n, 10) is Ok
            &&& decoded(a, fdx.skip(starts_at as int), n, 10) == Ok::<Seq<i64>, ErrorKind>(chunk_starts(num_docs))
            &&& decoded(b, fdx.skip(pointers_at as int), n, 10) == Ok::<Seq<i64>, ErrorKind>(
                chunk_pointers(num_docs, stored_header("Lucene90StoredFieldsFastData"@, 1, segment_id).len()),
            )
            &&& i64_at(fdm, r) + 16 == fdx.len()
            &&& i64_at(fdm, r + 8) + 16 == fdt.len()
        }),
{
    let (fdt, fdx, fdm) = empty_stored_fields(num_docs, segment_id);
    let starts = chunk_starts(num_docs);
    let pointers = chunk_pointers(num_docs, stored_header(crate::stored::DATA_CODEC@, 1, segment_id).len());
    let h = stored_header(crate::stored::INDEX_CODEC@, 0, segment_id);
    let meta = stored_header(crate::stored::META_CODEC@, 1, segment_id);
    let body = fdm_head(num_docs, segment_id) + fdm_indexes(num_docs, segment_id) + fdm_tail(num_docs, segment_id);
    law_footer_round_trip(body);
    law_footer_round_trip(h + fdx_starts(num_docs) + fdx_pointers(num_docs, segment_id));
    law_footer_round_trip(fdt_body(num_docs, segment_id));
    lemma_stored_sizes(num_docs, segment_id);
    lemma_fdm_parts(fdm, num_docs, segment_id);
    lemma_fdx_parts(fdx, num_docs, segment_id);
    let p = meta.len() + 3;
    let q = p + 20 + monotonic_meta(starts, 10).len();
    law_monotonic_round_trip(fdm, p + 20, fdx.skip(h.len() as int), starts, 10);
    law_monotonic_round_trip(fdm, q + 8, fdx.skip((h.len() + fdx_starts(num_docs).len()) as int), pointers, 10);
}

/// Sizes of the stored-fields index.
proof fn lemma_stored_sizes(num_docs: nat, segment_id: Seq<u8>)
    requires
        num_docs <= i32::MAX,
        segment_id.len() == 16,
    ensures
        stored_header(crate::stored::INDEX_CODEC@, 0, segment_id).len() + fdx_starts(num_docs).len() + fdx_pointers(
            num_docs,
            segment_id,
        ).len() <= 0x1_0000_0000_0000,
        fdt_body(num_docs, segment_id).len() <= 0x1_0000_0000_0000,
        chunk_count(num_docs) + 1 <= i32::MAX,
{
    crate::direct::lemma_ceil_div(num_docs, 1024);
    law_monotonic_data_len(chunk_starts(num_docs), 10);
    law_monotonic_data_len(
        chunk_pointers(num_docs, stored_header(crate::stored::DATA_CODEC@, 1, segment_id).len()),
        10,
    );
    lemma_data_size(num_docs, segment_id);
}

/// Where the parts of the metadata stand.
#[verifier::rlimit(80)]
#[verifier::spinoff_prover]
proof fn lemma_fdm_parts(fdm: Seq<u8>, num_docs: nat, segment_id: Seq<u8>)
    requires
        num_docs <= i32::MAX,
        segment_id.len() == 16,
        fdm == empty_stored_fields(num_docs, segment_id).2,
    ensures
        ({
            let starts = chunk_starts(num_docs);
            let pointers = chunk_pointers(num_docs, stored_header(crate::stored::DATA_CODEC@, 1, segment_id).len());
            let h = stored_header(crate::stored::INDEX_CODEC@, 0, segment_id).len();
            let p = stored_header(crate::stored::META_CODEC@, 1, segment_id).len() + 3;
            let q = p + 20 + monotonic_meta(starts, 10).len();
            let r = q + 8 + monotonic_meta(pointers, 10).len();
            &&& parse_vint(fdm, (p - 3) as nat) == Ok::<(i32, nat), ErrorKind>((81920, p))
            &&& i32_at(fdm, p) == num_docs
            &&& i32_at(fdm, p + 4) == 10
            &&& i32_at(fdm, p + 8) == starts.len()
            &&& i64_at(fdm, p + 12) == h
            &&& stands_at(fdm, p + 20, monotonic_meta(starts, 10))
            &&& i64_at(fdm, q) == h + fdx_starts(num_docs).len()
            &&& stands_at(fdm, q + 8, monotonic_meta(pointers, 10))
            &&& i64_at(fdm, r) == h + fdx_starts(num_docs).len() + fdx_pointers(num_docs, segment_id).len()
            &&& i64_at(fdm, r + 8) == fdt_body(num_docs, segment_id).len()
        }),
{
    lemma_stored_sizes(num_docs, segment_id);
    let starts = chunk_starts(num_docs);
    let pointers = chunk_pointers(num_docs, stored_header(crate::stored::DATA_CODEC@, 1, segment_id).len());
    let h = stored_header(crate::stored::INDEX_CODEC@, 0, segment_id).len();
    let a = h + fdx_starts(num_docs).len();
    let b = a + fdx_pointers(num_docs, segment_id).len();
    let meta = stored_header(crate::stored::META_CODEC@, 1, segment_id);
    let n = (chunk_count(num_docs) + 1) as i32;
    let tail = fdm_tail(num_docs, segment_id);
    let d = fdt_body(num_docs, segment_id).len();
    let rest = tail.skip(8);
    lemma_le_bytes_len(d, 8);
    assert(tail =~= le_bytes(d, 8) + rest);
    let front = fdm_front(num_docs as i32, n);
    let index = fdm_index(h, starts, a, pointers, b, d);
    let body = fdm_head(num_docs, segment_id) + fdm_indexes(num_docs, segment_id) + tail;
    lemma_five(meta, varint_bytes(81920), le_i32(num_docs as i32), le_i32(10), le_i32(n));
    lemma_five(le_bytes(h, 8), monotonic_meta(starts, 10), le_bytes(a, 8), monotonic_meta(pointers, 10), le_bytes(b, 8));
    lemma_body(meta, front, le_bytes(h, 8) + (monotonic_meta(starts, 10) + (le_bytes(a, 8) + (monotonic_meta(
        pointers,
        10,
    ) + le_bytes(b, 8)))), le_bytes(d, 8), rest);
    lemma_last_two(
        le_bytes(h, 8),
        monotonic_meta(starts, 10),
        le_bytes(a, 8),
        monotonic_meta(pointers, 10),
        le_bytes(b, 8),
        le_bytes(d, 8),
    );
    law_footer_round_trip(body);
    assert(stands_at(fdm, 0, meta + (front + (index + rest))));
    lemma_stands_split(fdm, 0, meta, front + (index + rest));
    lemma_stands_split(fdm, meta.len(), front, index + rest);
    lemma_front_read(fdm, meta.len(), num_docs as i32, n);
    lemma_stands_split(fdm, meta.len() + 15, index, rest);
    lemma_index_read(fdm, meta.len() + 15, h, starts, a, pointers, b, d);
}

/// Five parts, from either end.
proof fn lemma_five(a: Seq<u8>, b: Seq<u8>, c: Seq<u8>, d: Seq<u8>, e: Seq<u8>)
    ensures
        a + b + c + d + e == a + (b + (c + (d + e))),
{
    assert(a + b + c + d + e =~= a + (b + (c + (d + e))));
}

/// A sixth part behind five.
proof fn lemma_last_two(a: Seq<u8>, b: Seq<u8>, c: Seq<u8>, d: Seq<u8>, e: Seq<u8>, f: Seq<u8>)
    ensures
        (a + (b + (c + (d + e)))) + f == a + (b + (c + (d + (e + f)))),
{
    assert((a + (b + (c + (d + e)))) + f =~= a + (b + (c + (d + (e + f)))));
}

/// Head, indexes and tail, each cut in two.
proof fn lemma_body(meta: Seq<u8>, front: Seq<u8>, index: Seq<u8>, end: Seq<u8>, rest: Seq<u8>)
    ensures
        (meta + front) + index + (end + rest) == meta + (front + ((index + end) + rest)),
{
    assert((meta + front) + index + (end + rest) =~= meta + (front + ((index + end) + rest)));
}

/// The metadata in front of the indexes, behind the header.
spec fn fdm_front(num_docs: i32, n: i32) -> Seq<u8> {
    varint_bytes(81920) + (le_i32(num_docs) + (le_i32(10) + le_i32(n)))
}

proof fn lemma_front_read(b: Seq<u8>, p: nat, num_docs: i32, n: i32)
    requires
        stands_at(b, p, fdm_front(num_docs, n)),
    ensures
        fdm_front(num_docs, n).len() == 15,
        parse_vint(b, p) == Ok::<(i32, nat), ErrorKind>((81920, p + 3)),
        i32_at(b, p + 3) == num_docs,
        i32_at(b, p + 7) == 10,
        i32_at(b, p + 11) == n,
{
    let size = varint_bytes(81920);
    assert(size.len() == 3) by {
        reveal_with_fuel(varint_bytes, 4);
    }
    lemma_stands_split(b, p, size, le_i32(num_docs) + (le_i32(10) + le_i32(n)));
    law_vint_round_trip(b, p, 81920);
    lemma_stands_split(b, p + 3, le_i32(num_docs), le_i32(10) + le_i32(n));
    lemma_i32_at(b, p + 3, num_docs);
    lemma_stands_split(b, p + 7, le_i32(10), le_i32(n));
    lemma_i32_at(b, p + 7, 10);
    lemma_i32_at(b, p + 11, n);
}

/// The metadata of the indexes, and where the data ends.
spec fn fdm_index(h: nat, starts: Seq<i64>, a: nat, pointers: Seq<i64>, b: nat, d: nat) -> Seq<u8> {
    le_bytes(h, 8) + (monotonic_meta(starts, 10) + (le_bytes(a, 8) + (monotonic_meta(pointers, 10) + (le_bytes(b, 8)
        + le_bytes(d, 8)))))
}

proof fn lemma_index_read(s: Seq<u8>, p: nat, h: nat, starts: Seq<i64>, a: nat, pointers: Seq<i64>, b: nat, d: nat)
    requires
        stands_at(s, p, fdm_index(h, starts, a, pointers, b, d)),
        h <= i64::MAX,
        a <= i64::MAX,
        b <= i64::MAX,
        d <= i64::MAX,
    ensures
        ({
            let q = p + 8 + monotonic_meta(starts, 10).len();
            let r = q + 8 + monotonic_meta(pointers, 10).len();
            &&& i64_at(s, p) == h
            &&& stands_at(s, p + 8, monotonic_meta(starts, 10))
            &&& i64_at(s, q) == a
            &&& stands_at(s, q + 8, monotonic_meta(pointers, 10))
            &&& i64_at(s, r) == b
            &&& i64_at(s, r + 8) == d
        }),
{
    let s4 = le_bytes(b, 8) + le_bytes(d, 8);
    let s3 = monotonic_meta(pointers, 10) + s4;
    let s2 = le_bytes(a, 8) + s3;
    let s1 = monotonic_meta(starts, 10) + s2;
    let q = p + 8 + monotonic_meta(starts, 10).len();
    let r = q + 8 + monotonic_meta(pointers, 10).len();
    lemma_stands_split(s, p, le_bytes(h, 8), s1);
    lemma_len_at(s, p, h);
    lemma_stands_split(s, p + 8, monotonic_meta(starts, 10), s2);
    lemma_stands_split(s, q, le_bytes(a, 8), s3);
    lemma_len_at(s, q, a);
    lemma_stands_split(s, q + 8, monotonic_meta(pointers, 10), s4);
    lemma_stands_split(s, r, le_bytes(b, 8), le_bytes(d, 8));
    lemma_len_at(s, r, b);
    lemma_len_at(s, r + 8, d);
}

/// Where the two indexes stand.
proof fn lemma_fdx_parts(fdx: Seq<u8>, num_docs: nat, segment_id: Seq<u8>)
    requires
        fdx == empty_stored_fields(num_docs, segment_id).1,
    ensures
        ({
            let h = stored_header(crate::stored::INDEX_CODEC@, 0, segment_id).len();
            let a = h + fdx_starts(num_docs).len();
            &&& stands_at(fdx.skip(h as int), 0, fdx_starts(num_docs))
            &&& stands_at(fdx.skip(a as int), 0, fdx_pointers(num_docs, segment_id))
            &&& fdx.len() == a + fdx_pointers(num_docs, segment_id).len() + 16
        }),
{
    let head = stored_header(crate::stored::INDEX_CODEC@, 0, segment_id);
    let s = fdx_starts(num_docs);
    let t = fdx_pointers(num_docs, segment_id);
    let body = head + s + t;
    law_footer_round_trip(body);
    let h = head.len() as int;
    let a = h + s.len();
    assert(fdx.skip(h).subrange(0, s.len() as int) =~= body.subrange(h, a));
    assert(body.subrange(h, a) =~= s);
    assert(fdx.skip(a).subrange(0, t.len() as int) =~= body.subrange(a, a + t.len()));
    assert(body.subrange(a, a + t.len()) =~= t);
}

} // verus!
