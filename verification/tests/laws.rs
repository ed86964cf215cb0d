//! What holds of several functions together, on concrete values.

use lucene_arrow::attributes::Attributes;
use lucene_arrow::column::{decode_multi_numeric, decode_numeric, decode_sorted, decode_values};
use lucene_arrow::commit::latest_commit;
use lucene_arrow::cursor::Cursor;
use lucene_arrow::dict::{make_suffix_stream, push_framed_stream};
use lucene_arrow::direct::{pack, unpack, unsigned_bits_required};
use lucene_arrow::disi;
use lucene_arrow::encode::{encode_sorted_field, encode_sorted_numeric_field, encode_sorted_set_field};
use lucene_arrow::error::Error;
use lucene_arrow::extent::{coalesce, EXTENT_ALIGN, EXTENT_MAX_BYTES};
use lucene_arrow::file::DocValuesFileBuilder;
use lucene_arrow::lexicon::{find_term, less, sort_distinct};
use lucene_arrow::monotonic;
use lucene_arrow::ordmap::{apply_remap, build};
use lucene_arrow::plan::FieldId;
use lucene_arrow::read::{plan_doc_values, DocValuesPlans, DvField, DvKind};
use lucene_arrow::segment::stored_outside_cfs;
use lucene_arrow::stats::{find_value, lower_bound};
use lucene_arrow::terms::{decode_suffixes, materialize};
use lucene_arrow::write::{encode_numeric_field, encode_numeric_field_dense_chunks, CpuEncoder, EncodedField};

const ID: [u8; 16] = *b"segmentid0123456";

fn plan(dvm: &[u8], dvd: &[u8], kind: DvKind, max_doc: u32) -> DocValuesPlans {
    let field = DvField { number: 0, name: "f".into(), kind, has_skip_index: false };
    plan_doc_values(dvm, dvd, &[field], max_doc, "_0.dvd").unwrap()
}

fn sorted_segment(terms: &[&str]) -> (Vec<u8>, DocValuesPlans) {
    let docs: Vec<u32> = (0..terms.len() as u32).collect();
    let refs: Vec<&[u8]> = terms.iter().map(|t| t.as_bytes()).collect();
    let mut b = DocValuesFileBuilder::new(&ID, "");
    b.add_sorted_with(&CpuEncoder, 0, &docs, &refs, docs.len() as u32).unwrap();
    let (dvm, dvd) = b.finish();
    let plans = plan(&dvm, &dvd, DvKind::Sorted, docs.len() as u32);
    (dvd, plans)
}

/// Ordinals mapped across segments name the same terms.
#[test]
fn remapped_ordinals_name_the_same_terms() {
    let first = ["cat", "ant", "cat", "bee"];
    let second = ["dog", "bee", "dog"];
    let (dvd_a, a) = sorted_segment(&first);
    let (dvd_b, b) = sorted_segment(&second);
    let dict_a = materialize(&a.sorted[0].terms, &dvd_a).unwrap();
    let dict_b = materialize(&b.sorted[0].terms, &dvd_b).unwrap();
    let map = build(&[&dict_a, &dict_b]).unwrap();
    for (terms, plans, dvd, remap) in
        [(&first[..], &a, &dvd_a, &map.remap[0]), (&second[..], &b, &dvd_b, &map.remap[1])]
    {
        let global = apply_remap(&plans.sorted[0].ords, remap).unwrap();
        let ords = decode_values(&global, dvd).unwrap();
        let named: Vec<&[u8]> = ords.iter().map(|o| map.values.term(*o as usize)).collect();
        let wanted: Vec<&[u8]> = terms.iter().map(|t| t.as_bytes()).collect();
        assert_eq!(named, wanted);
    }
}

/// Extents cover every range, aligned, and within the cap.
#[test]
fn extents_cover_their_ranges() {
    let col = FieldId::new(1, "f");
    let ranges = [(5, 10), (100, 1), (70_000, 3), (1 << 30, 1 << 20), ((1 << 30) + (1 << 21), 9)];
    let extents = coalesce("_0.dvd", 3, &col, &ranges, 4096, EXTENT_MAX_BYTES);
    for (off, len) in ranges {
        assert!(extents.iter().any(|e| e.offset <= off && off + len <= e.end()), "{off}");
    }
    for e in &extents {
        assert_eq!(e.offset % EXTENT_ALIGN, 0);
        assert!(e.len <= EXTENT_MAX_BYTES);
        assert_eq!(e.seg_ord, 3);
    }
}

/// A range above the cap is cut into pieces that cover it without a gap.
#[test]
fn long_ranges_are_cut_to_the_cap() {
    let col = FieldId::new(1, "f");
    let mib = 1u64 << 20;
    let extents = coalesce("_0.dvd", 0, &col, &[(0, 100 * mib)], 0, EXTENT_MAX_BYTES);
    let ranges: Vec<(u64, u64)> = extents.iter().map(|e| (e.offset, e.len)).collect();
    assert_eq!(ranges, [(0, 64 * mib), (64 * mib, 36 * mib)]);

    let extents = coalesce("_0.dvd", 0, &col, &[(5000, 100_000), (200_000, 20_000)], 0, 16_384);
    assert!(extents.iter().all(|e| e.len <= 16_384 && e.offset % EXTENT_ALIGN == 0));
    for byte in (5000..105_000).chain(200_000..220_000) {
        assert!(extents.iter().any(|e| e.offset <= byte && byte < e.end()), "{byte}");
    }
    assert_eq!(coalesce("_0.dvd", 0, &col, &[(4096, 10)], 0, 0)[0].len, 10);
}

/// Alignment widens where the cap has room, and splits nothing.
#[test]
fn alignment_only_widens() {
    let col = FieldId::new(1, "f");
    let cut = |ranges: &[(u64, u64)], gap: u64, cap: u64| -> Vec<(u64, u64)> {
        coalesce("_0.dvd", 0, &col, ranges, gap, cap).iter().map(|e| (e.offset, e.len)).collect()
    };
    // A small cap with room for the widened range.
    assert_eq!(cut(&[(100, 50)], 0, 1000), [(0, 150)]);
    assert_eq!(cut(&[(100, 50)], 0, 150), [(0, 150)]);
    assert_eq!(cut(&[(100, 50)], 0, 149), [(100, 50)]);
    assert_eq!(cut(&[(5000, 90), (5090, 6), (9000, 4)], 0, 1000), [(4096, 1000), (8192, 812)]);
    // Ranges that just fit.
    assert_eq!(cut(&[(4095, 4096)], 0, 4096), [(4095, 4096)]);
    assert_eq!(cut(&[(100, EXTENT_MAX_BYTES)], 0, EXTENT_MAX_BYTES), [(100, EXTENT_MAX_BYTES)]);
    assert_eq!(cut(&[(4096, EXTENT_MAX_BYTES)], 0, EXTENT_MAX_BYTES), [(4096, EXTENT_MAX_BYTES)]);
    // Longer ones are cut, under a cap below the alignment where the bytes are.
    assert_eq!(cut(&[(100, 2500)], 0, 1000), [(100, 1000), (1100, 1000), (2100, 500)]);
    assert_eq!(cut(&[(100, 8192)], 0, 4096), [(0, 4096), (4096, 4096), (8192, 100)]);
    assert_eq!(cut(&[(100, 5000)], 0, 0), [(0, 5100)]);
    assert!(cut(&[], 0, 4096).is_empty());
}

/// Exactly as many bits are set as there are values, none of them beyond the
/// documents.
#[test]
fn document_sets_hold_exactly_their_values() {
    let set = |docs: &[u16]| {
        let mut b = vec![0u8, 0];
        b.extend_from_slice(&(docs.len() as u16 - 1).to_le_bytes());
        for d in docs {
            b.extend_from_slice(&d.to_le_bytes());
        }
        b
    };
    assert_eq!(disi::decode(&set(&[2, 5]), 2, 8, 0xFF).unwrap(), [0b100100]);
    assert!(matches!(disi::decode(&set(&[5, 5]), 2, 8, 0xFF), Err(Error::Corrupt(_))));
    assert!(matches!(disi::decode(&set(&[2, 8]), 2, 8, 0xFF), Err(Error::Corrupt(_))));
    assert!(matches!(disi::decode(&set(&[2, 5]), 3, 8, 0xFF), Err(Error::Corrupt(_))));
}

/// The commit of the highest generation is the latest; its name is spelled
/// anew.
#[test]
fn latest_commit_has_the_highest_generation() {
    let latest = |files: &[&str]| latest_commit(&files.iter().map(|f| f.to_string()).collect());
    assert_eq!(latest(&["_0.si", "segments_9", "segments_a", "segments_2"]).unwrap(), "segments_a");
    assert_eq!(latest(&["segments_zz", "segments_100"]).unwrap(), "segments_100");
    assert_eq!(latest(&["segments_00A", "segments"]).unwrap(), "segments_a");
    assert_eq!(latest(&["segments_+1", "segments_-3"]).unwrap(), "segments_1");
    assert_eq!(latest(&["segments_0"]).unwrap(), "segments_0");
    for none in [&["_0.si", "segments"][..], &[], &["segments_1", "segments_"], &["segments_1", "segments_x.y"],
        &["segments_-1"], &["segments_1y2p0ij32e8e8"]]
    {
        assert!(matches!(latest(none), Err(Error::InvalidArgument(_))), "{none:?}");
    }
    assert_eq!(latest(&["segments_1y2p0ij32e8e7"]).unwrap(), "segments_1y2p0ij32e8e7");
}

/// Files outside a compound file: the pair, the segment info, and what
/// carries a generation.
#[test]
fn generations_live_outside_the_compound_file() {
    for name in ["_0.si", "_0.cfs", "_0.cfe", "_0_1.liv", "_a2_1z.fnm", "_0_1_Lucene90_0.dvd"] {
        assert!(stored_outside_cfs(name), "{name}");
    }
    for name in ["_0.fnm", "_0_Lucene90_0.dvd", "_0.fdt", "_0_", "_0__1.fnm", "0_1.fnm", ""] {
        assert!(!stored_outside_cfs(name), "{name}");
    }
}

fn encoded(f: EncodedField) -> (Vec<u8>, Vec<u8>) {
    (f.meta, f.data)
}

/// The value part of a SORTED field is that of the NUMERIC field of its
/// ordinals.
#[test]
fn sorted_fields_start_as_numeric_ones() {
    let terms: [&[u8]; 4] = [b"cat", b"ant", b"cat", b"bee"];
    let (meta, data) = encoded(encode_sorted_field(&CpuEncoder, 7, &[0, 2, 3, 9], &terms, 12, 100).unwrap());
    let (nmeta, ndata) = encoded(encode_numeric_field(7, &[0, 2, 3, 9], &[2, 0, 2, 1], 12, 100).unwrap());
    assert_eq!(meta[..4], nmeta[..4]);
    assert_eq!(meta[5..nmeta.len()], nmeta[5..]);
    assert_eq!(data[..ndata.len()], ndata);
}

/// A SORTED_SET field holds sets; where each has one member, it has the
/// SORTED layout behind a flag.
#[test]
fn sorted_set_fields_hold_sets() {
    let t = |s: &str| s.as_bytes().to_vec();
    let encode = |v: &[Vec<Vec<u8>>]| encoded(encode_sorted_set_field(&CpuEncoder, 3, &[1, 4], v, 6, 40).unwrap());
    let two = encode(&[vec![t("b"), t("a")], vec![t("c")]]);
    assert_eq!(two, encode(&[vec![t("a"), t("b"), t("a")], vec![t("c"), t("c")]]));
    assert_ne!(two, encode(&[vec![t("b"), t("d")], vec![t("c")]]));
    assert_eq!(two.0[5], 1);

    let (meta, data) = encode(&[vec![t("b"), t("b")], vec![t("a")]]);
    let sorted = encode_sorted_field(&CpuEncoder, 3, &[1, 4], &[b"b", b"a"], 6, 40).unwrap();
    assert_eq!(meta[5], 0);
    assert_eq!(meta[6..], sorted.meta[5..]);
    assert_eq!(data, sorted.data);
}

/// The order of a document's values does not matter to a SORTED_NUMERIC
/// field; where each has one, it has the NUMERIC layout.
#[test]
fn sorted_numeric_fields_hold_values_in_any_order() {
    let encode = |v: &[Vec<i64>]| encoded(encode_sorted_numeric_field(&CpuEncoder, 3, &[1, 4], v, 6, 40).unwrap());
    assert_eq!(encode(&[vec![5, -1, 5], vec![2]]), encode(&[vec![5, 5, -1], vec![2]]));
    assert_ne!(encode(&[vec![5, -1, 5], vec![2]]), encode(&[vec![5, -1, -1], vec![2]]));

    let (meta, data) = encode(&[vec![5], vec![2]]);
    let numeric = encode_numeric_field(3, &[1, 4], &[5, 2], 6, 40).unwrap();
    assert_eq!(meta[5..numeric.meta.len()], numeric.meta[5..]);
    assert_eq!(meta[numeric.meta.len()..], 2i32.to_le_bytes());
    assert_eq!(data, numeric.data);
}

/// The dictionary of a written field holds its distinct terms in order, as
/// many as the plan says.
#[test]
fn dictionaries_materialize_to_the_distinct_terms() {
    let terms: Vec<String> = (0..200).map(|i| format!("t{:03}", i * 7 % 90)).collect();
    let refs: Vec<&str> = terms.iter().map(|t| t.as_str()).collect();
    let (dvd, plans) = sorted_segment(&refs);
    let d = materialize(&plans.sorted[0].terms, &dvd).unwrap();
    let mut expected: Vec<&[u8]> = refs.iter().map(|t| t.as_bytes()).collect();
    expected.sort();
    expected.dedup();
    assert_eq!((0..d.len()).map(|i| d.term(i)).collect::<Vec<_>>(), expected);
    assert_eq!(plans.sorted[0].terms.num_terms, 90);
}

/// Planning takes metadata alone where values stand in one block.
#[test]
fn planning_needs_no_data() {
    let mut b = DocValuesFileBuilder::new(&ID, "");
    b.add_sorted_set_with(&CpuEncoder, 0, &[0, 2], &[vec![b"x".to_vec(), b"y".to_vec()], vec![b"z".to_vec()]], 3)
        .unwrap();
    let (dvm, dvd) = b.finish();
    let with = plan(&dvm, &dvd, DvKind::SortedSet, 3);
    let without = plan(&dvm, &[], DvKind::SortedSet, 3);
    assert_eq!(format!("{with:?}"), format!("{without:?}"));
}

/// A monotonic sequence takes at most sixteen bytes of data for each value.
#[test]
fn monotonic_data_is_bounded() {
    for (values, shift) in [(vec![i64::MIN, 0, i64::MAX], 0u32), (vec![1, 2, 3, 4], 16), ((0..99).collect(), 2)] {
        let (mut meta, mut data) = (Vec::new(), Vec::new());
        monotonic::write(&values, shift, &mut meta, &mut data).unwrap();
        assert!(data.len() <= 16 * values.len());
    }
}

/// A dense field needs no documents: chunks and explicit documents agree.
#[test]
fn dense_fields_need_no_documents() {
    let values = [9i64, -4, 12, 12];
    let flat = encode_numeric_field(2, &[0, 1, 2, 3], &values, 4, 50).unwrap();
    let chunked =
        encode_numeric_field_dense_chunks(&CpuEncoder, 2, &[&values[..1], &values[1..]], 4, 50).unwrap();
    assert_eq!((flat.meta, flat.data), (chunked.meta, chunked.data));
    assert!(encode_numeric_field_dense_chunks(&CpuEncoder, 2, &[&values[..]], 5, 50).is_err());
}

/// As many bits as the greatest value takes hold every value.
#[test]
fn required_bits_hold_the_values() {
    for max in [0i64, 1, 5, 200, 70_000, i64::MAX, -1] {
        let bits = unsigned_bits_required(max);
        let mut packed = Vec::new();
        pack(&[max, 0], bits, &mut packed);
        assert_eq!(unpack(&packed, bits, 2).unwrap(), [max as u64, 0]);
    }
}

/// Lists of numbers come back sorted, documents without the field empty.
#[test]
fn number_lists_come_back_in_order() {
    let mut b = DocValuesFileBuilder::new(&ID, "");
    b.add_sorted_numeric_with(&CpuEncoder, 0, &[1, 3], &[vec![5, -2, 5], vec![8]], 5).unwrap();
    let (dvm, dvd) = b.finish();
    let plans = plan(&dvm, &dvd, DvKind::SortedNumeric, 5);
    let c = decode_multi_numeric(&plans.multi_numeric[0], &dvd).unwrap();
    assert_eq!(c.offsets, [0, 0, 3, 3, 4, 4]);
    assert_eq!(c.values, [-2, 5, 5, 8]);

    // One value each is a plain numeric column.
    let mut b = DocValuesFileBuilder::new(&ID, "");
    b.add_sorted_numeric_with(&CpuEncoder, 0, &[1, 3], &[vec![5], vec![8]], 5).unwrap();
    let (dvm, dvd) = b.finish();
    let plans = plan(&dvm, &dvd, DvKind::SortedNumeric, 5);
    let c = decode_numeric(&plans.plans[0], &dvd).unwrap();
    assert_eq!((c.values[1], c.values[3]), (5, 8));
    assert_eq!(c.validity.unwrap(), [0b01010]);
}

/// Sets of terms come back as sets.
#[test]
fn term_sets_come_back_as_sets() {
    let t = |s: &str| s.as_bytes().to_vec();
    let mut b = DocValuesFileBuilder::new(&ID, "");
    b.add_sorted_set_with(&CpuEncoder, 0, &[0, 2], &[vec![t("b"), t("a"), t("b")], vec![t("c")]], 3).unwrap();
    let (dvm, dvd) = b.finish();
    let plans = plan(&dvm, &dvd, DvKind::SortedSet, 3);
    let c = decode_sorted(&plans.sorted[0], &dvd).unwrap();
    assert_eq!(c.keys, [0, 1, 2]);
    assert_eq!(c.offsets.unwrap(), [0, 2, 2, 3]);
    assert_eq!(c.dict.term(2), b"c");
}

/// Sorting keeps each term once; the search finds exactly those.
#[test]
fn dictionaries_hold_each_term_once() {
    let terms: [&[u8]; 5] = [b"b", b"a", b"b", b"", b"ab"];
    let d = sort_distinct(&terms);
    assert_eq!(d, [b"" as &[u8], b"a", b"ab", b"b"]);
    assert!(d.windows(2).all(|w| less(w[0], w[1])));
    assert_eq!(find_term(&d, b"ab"), Some(2));
    assert_eq!(find_term(&d, b"aa"), None);
    assert_eq!(lower_bound(&[1, 4, 9], 5), 2);
    assert_eq!(find_value(&[1, 4, 9], 9), Some(2));
    assert_eq!(find_value(&[1, 4, 9], 5), None);
}

/// A block of terms behind its first one comes back.
#[test]
fn suffix_streams_come_back() {
    let terms: Vec<Vec<u8>> = (0..40).map(|i| format!("term-{i:04}-{}", "x".repeat(i)).into_bytes()).collect();
    let refs: Vec<&[u8]> = terms.iter().map(|t| t.as_slice()).collect();
    let stream = make_suffix_stream(&refs, 0, refs.len());
    let d = decode_suffixes(&stream, refs[0], refs.len() as u64 - 1).unwrap();
    assert_eq!((0..d.len()).map(|i| d.term(i)).collect::<Vec<_>>(), refs);
    assert!(decode_suffixes(&stream[..stream.len() - 1], refs[0], refs.len() as u64 - 1).is_err());

    let mut framed = Vec::new();
    push_framed_stream(&mut framed, 300, b"zz");
    assert_eq!(framed, [0xAC, 0x02, b'z', b'z']);
    assert_eq!(Cursor::new(&framed).vint().unwrap(), 300);
}

/// A map finds what was put in last under a key, in the order of keys.
#[test]
fn maps_keep_keys_in_order() {
    let mut a = Attributes::new();
    for (k, v) in [("b", "1"), ("a", "2"), ("b", "3"), ("", "4")] {
        a.insert(k.into(), v.into());
    }
    assert_eq!((0..a.len()).map(|i| a.key(i)).collect::<Vec<_>>(), ["", "a", "b"]);
    assert_eq!(a.get("b"), Some("3"));
    assert_eq!(a.get("c"), None);
    let b = a.duplicate();
    assert_eq!(b.value(1), "2");
}
