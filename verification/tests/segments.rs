//! Segment names, codecs, live documents and field infos.

use lucene_arrow::attributes::Attributes;
use lucene_arrow::cursor::{verify_footer, write_footer, write_index_header};
use lucene_arrow::error::Error;
use lucene_arrow::fnm;
use lucene_arrow::liv;
use lucene_arrow::liv::{base36, file_name, read_live_docs};
use lucene_arrow::norms::NormsFilesBuilder;
use lucene_arrow::segment::{
    assemble_segment, check_document, ensure_pinned_codec, live_docs, live_docs_file, read_from_cfs,
    stored_outside_cfs, CommitEntry, DocValuesKind, ListedField, SegmentDirectory, SegmentInfo, SegmentMeta,
};
use lucene_arrow::stored::write_empty_stored_fields;
use lucene_arrow::writer::{
    sort_names, write_fnm, write_segment_files_ext, write_segment_files_full, write_si, NamedFile, WriteField,
};

const ID: [u8; 16] = *b"0123456789abcdef";

#[test]
fn base36_matches_java() {
    assert_eq!(base36(0), "0");
    assert_eq!(base36(1), "1");
    assert_eq!(base36(35), "z");
    assert_eq!(base36(36), "10");
    assert_eq!(base36(46655), "zzz");
}

#[test]
fn pinned_codec_gate() {
    assert!(ensure_pinned_codec("_0", "Lucene103").is_ok());
    let err = ensure_pinned_codec("_0", "Lucene99").unwrap_err();
    assert!(matches!(err, Error::Unsupported(_)), "got {err:?}");
}

#[test]
fn compound_outer_files() {
    assert!(stored_outside_cfs("_0.si"));
    assert!(stored_outside_cfs("_0.cfs"));
    assert!(stored_outside_cfs("_0.cfe"));
    assert!(stored_outside_cfs("_0_1.liv"));
    assert!(!stored_outside_cfs("_0_Lucene90_0.dvm"));
    assert!(!stored_outside_cfs("_0.fnm"));
}

fn meta() -> SegmentMeta {
    SegmentMeta {
        ord: 0,
        name: "_0".into(),
        id: ID,
        codec: "Lucene103".into(),
        max_doc: 70,
        del_count: 3,
        del_gen: 36,
        is_compound: true,
        files: vec!["_0.si".into()],
        fields: Vec::new(),
    }
}

fn liv_file(words: &[u64], suffix: &str) -> Vec<u8> {
    let mut out = Vec::new();
    write_index_header(&mut out, liv::CODEC_NAME, liv::VERSION, &ID, suffix);
    for w in words {
        out.extend_from_slice(&w.to_le_bytes());
    }
    write_footer(&mut out);
    out
}

#[test]
fn live_documents_are_read_and_counted() {
    // Documents 1, 5 and 66 deleted; bits past the last document do not count.
    let words = [!((1u64 << 1) | (1 << 5)), !(1u64 << 2)];
    let bytes = liv_file(&words, "10");
    assert_eq!(read_live_docs(&bytes, 70, &ID, 36, 3).unwrap(), words);
    assert!(matches!(read_live_docs(&bytes, 70, &ID, 36, 2), Err(Error::Corrupt(_))));
    assert!(matches!(read_live_docs(&bytes, 70, &ID, 35, 3), Err(Error::Corrupt(_))));
    assert!(matches!(read_live_docs(&bytes, 70, &[0; 16], 36, 3), Err(Error::Corrupt(_))));
    assert!(matches!(read_live_docs(&bytes, 700, &ID, 36, 3), Err(Error::Corrupt(_))));

    let m = meta();
    assert_eq!(file_name("_0", 36), "_0_10.liv");
    assert_eq!(live_docs_file(&m).unwrap(), "_0_10.liv");
    assert_eq!(live_docs(&m, &bytes).unwrap().unwrap(), words);
    let none = SegmentMeta { del_gen: -1, ..meta() };
    assert!(live_docs_file(&none).is_none());
    assert!(live_docs(&none, &[]).unwrap().is_none());
    assert!(matches!(live_docs(&m, &[]), Err(Error::Corrupt(_))));
}

#[test]
fn segment_lookups() {
    let dir = SegmentDirectory::new("/x".into(), 7, vec![meta()]);
    assert_eq!(dir.path(), "/x");
    assert_eq!(dir.generation(), 7);
    assert_eq!(dir.segments().len(), 1);
    assert_eq!(dir.segment("_0").unwrap().max_doc, 70);
    assert!(dir.segment("_1").is_none());
    let m = meta();
    assert!(read_from_cfs(&m, "_0.dvd"));
    assert!(!read_from_cfs(&m, "_0.si"));
    assert!(check_document(&m, 69).is_ok());
    assert!(matches!(check_document(&m, 70), Err(Error::InvalidArgument(_))));
}

#[test]
fn doc_values_kinds_have_names() {
    assert_eq!(DocValuesKind::Absent.as_str(), "none");
    assert_eq!(DocValuesKind::SortedNumeric.as_str(), "sorted_numeric");
}

fn listed(name: &str, number: u32) -> ListedField {
    let mut attributes = Attributes::new();
    attributes.insert("k".into(), name.into());
    ListedField {
        name: name.into(),
        number,
        doc_values: DocValuesKind::Numeric,
        indexed: false,
        has_norms: false,
        has_points: false,
        attributes,
    }
}

fn info() -> SegmentInfo {
    SegmentInfo {
        name: "_0".into(),
        id: ID,
        max_doc: 5,
        is_compound: false,
        files: vec!["_0.si".into(), "_0.fnm".into(), "_0.fdt".into()],
    }
}

fn entry(codec: &str) -> CommitEntry {
    CommitEntry { name: "_0".into(), codec: codec.into(), del_count: 0, del_gen: -1 }
}

#[test]
fn field_infos_come_back_as_written() {
    let fields = [
        WriteField::doc_values("price", 3, 1),
        WriteField {
            name: "vec".into(),
            number: 1,
            doc_values_type: 0,
            vector_dim: 8,
            vector_encoding: 0,
            vector_similarity: 2,
            index_options: 0,
        },
        WriteField {
            name: "body".into(),
            number: 0,
            doc_values_type: 0,
            vector_dim: 0,
            vector_encoding: 0,
            vector_similarity: 0,
            index_options: 2,
        },
    ];
    let bytes = write_fnm(&fields, &ID);
    let parsed = fnm::parse(&bytes).unwrap();
    assert_eq!(parsed.len(), 3);
    assert_eq!(parsed[0].name, "price");
    assert_eq!(parsed[0].number, 3);
    assert_eq!(parsed[0].doc_values_type, 1);
    assert_eq!(parsed[0].doc_values_gen, -1);
    assert_eq!(parsed[0].attributes.len(), 2);
    assert_eq!(parsed[0].attributes.get("PerFieldDocValuesFormat.format"), Some("Lucene90"));
    assert_eq!(parsed[0].attributes.get("PerFieldDocValuesFormat.suffix"), Some("0"));
    assert_eq!(parsed[0].attributes.get("PerFieldPostingsFormat.format"), None);
    assert_eq!(parsed[0].vector_encoding, 1);
    assert_eq!(parsed[1].vector_dimension, 8);
    assert_eq!(parsed[1].vector_encoding, 0);
    assert_eq!(parsed[1].vector_similarity, 2);
    assert_eq!(
        parsed[1].attributes.get("PerFieldKnnVectorsFormat.format"),
        Some("Lucene99HnswVectorsFormat")
    );
    assert_eq!(parsed[2].index_options, 2);
    assert_eq!(parsed[2].attributes.get("PerFieldPostingsFormat.format"), Some("Lucene103"));

    let mut bad = bytes.clone();
    let n = bad.len();
    bad[n - 20] ^= 1;
    assert!(matches!(fnm::parse(&bad), Err(Error::Corrupt(_))));

    // Joined with what a directory lists, and put in order.
    let listing = [listed("price", 3), listed("body", 0)];
    let seg = assemble_segment(4, entry("Lucene103"), info(), &listing, &bytes).unwrap();
    assert_eq!(seg.ord, 4);
    assert_eq!(seg.files, ["_0.fdt", "_0.fnm", "_0.si"]);
    assert_eq!(seg.fields.iter().map(|f| f.number).collect::<Vec<_>>(), [0, 3]);
    assert_eq!(seg.field("body").unwrap().index_options, 2);
    assert_eq!(seg.field("price").unwrap().attributes.get("k"), Some("price"));
    assert!(seg.field("nope").is_none());
    assert!(matches!(
        assemble_segment(0, entry("Lucene99"), info(), &listing, &bytes),
        Err(Error::Unsupported(_))
    ));
    let stray = [listed("stray", 9)];
    assert!(matches!(
        assemble_segment(0, entry("Lucene103"), info(), &stray, &bytes),
        Err(Error::Corrupt(_))
    ));
}

#[test]
fn norms_take_as_few_bytes_as_they_can() {
    for (norms, width) in [
        (vec![5i64, 5, 5], 0usize),
        (vec![-128, 127], 1),
        (vec![0, 128], 2),
        (vec![0, 40_000], 4),
        (vec![0, 1 << 40], 8),
    ] {
        let plain = NormsFilesBuilder::new(&ID, "").finish();
        let mut b = NormsFilesBuilder::new(&ID, "");
        b.add_dense_field(1, &norms).unwrap();
        let (nvm, nvd) = b.finish();
        verify_footer(&nvm).unwrap();
        verify_footer(&nvd).unwrap();
        assert_eq!(nvd.len() - plain.1.len(), width * norms.len());
        assert_eq!(nvm.len() - plain.0.len(), 4 + 8 + 8 + 2 + 1 + 4 + 1 + 8);
    }
}

#[test]
fn stored_fields_of_nothing() {
    for num_docs in [0u32, 1, 1024, 1025, 5000] {
        let (fdt, fdx, fdm) = write_empty_stored_fields(num_docs, &ID);
        for f in [&fdt, &fdx, &fdm] {
            verify_footer(f).unwrap();
        }
        let chunks = num_docs.div_ceil(1024) as usize;
        // A header of 54 bytes, then per chunk its documents and zeros.
        let body = fdt.len() - 54 - 16;
        assert!(body >= chunks * 7 && body <= chunks * 17, "{num_docs}: {body}");
    }
    let (fdt, _, _) = write_empty_stored_fields(1, &ID);
    assert_eq!(&fdt[54..fdt.len() - 16], &[0, 5, 0, 0, 0, 0, 0]);
    let (fdt, _, _) = write_empty_stored_fields(3, &ID);
    assert_eq!(&fdt[54..fdt.len() - 16], &[0, 13, 0, 0, 0, 0, 0, 0, 0]);
}

#[test]
fn segment_files_are_listed() {
    let fields = [WriteField::doc_values("a", 0, 1)];
    let extra = vec![NamedFile { name: "_1_x.vec".into(), bytes: vec![1, 2] }];
    let (seg, files) = write_segment_files_ext("_1", ID, &fields, 3, b"meta", b"data", extra);
    let names: Vec<&str> = files.iter().map(|f| f.name.as_str()).collect();
    assert_eq!(
        names,
        ["_1_Lucene90_0.dvd", "_1_Lucene90_0.dvm", "_1.fnm", "_1.fdt", "_1.fdx", "_1.fdm", "_1_x.vec", "_1.si"]
    );
    assert_eq!(
        seg.files,
        ["_1_Lucene90_0.dvd", "_1_Lucene90_0.dvm", "_1.fnm", "_1.fdt", "_1.fdx", "_1.fdm", "_1.si", "_1_x.vec"]
    );
    assert_eq!(files[0].bytes, b"data");
    assert_eq!(files[1].bytes, b"meta");
    assert_eq!(files[6].bytes, [1, 2]);

    let mut diagnostics = Attributes::new();
    diagnostics.insert("source".into(), "flush".into());
    diagnostics.insert("lucene.version".into(), "10.3.2".into());
    assert_eq!(diagnostics.key(0), "lucene.version");
    let mut attributes = Attributes::new();
    attributes.insert("Lucene90StoredFieldsFormat.mode".into(), "BEST_SPEED".into());
    assert_eq!(files[7].bytes, write_si(&ID, 3, &seg.files, &diagnostics, &attributes));

    let (full, files) = write_segment_files_full(
        "_1",
        ID,
        &fields,
        3,
        b"meta",
        b"data",
        Vec::new(),
        vec!["_1_a.tim".into(), "_1.nvd".into()],
    );
    let mut expected = full.files.clone();
    expected.sort();
    assert_eq!(full.files, expected);
    assert_eq!(full.files.len(), 9);
    assert_eq!(files.last().unwrap().bytes, write_si(&ID, 3, &full.files, &diagnostics, &attributes));
}

#[test]
fn names_are_sorted_with_repeats() {
    let sorted = sort_names(vec!["b".into(), "a".into(), "b".into(), "".into()]);
    assert_eq!(sorted, ["", "a", "b", "b"]);
}
