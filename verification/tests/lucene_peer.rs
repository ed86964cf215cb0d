//! Segments of an independent Lucene writer and reader, in memory: what it
//! writes is read here, and what is written here is the same byte for byte.

use std::sync::Arc;

use bearing::codecs::lucene90::stored_fields_reader::StoredFieldsReader;
use bearing::codecs::lucene94::field_infos_format;
use bearing::codecs::lucene99::segment_info_format;
use bearing::document::{DocValuesType, StoredValue};
use bearing::index::segment::{FlushedSegment, SegmentId};
use bearing::index::segment_infos;
use bearing::index::segment_infos::SegmentInfos;
use bearing::prelude::{
    binary_dv, keyword, numeric_dv, sorted_dv, sorted_numeric_dv, sorted_set_dv, stored, DocumentBuilder, IndexWriter,
    IndexWriterConfig, MemoryDirectory, SharedDirectory,
};
use bearing::store::{CompoundDirectory, Directory};

use lucene_arrow::attributes::Attributes;
use lucene_arrow::buffer::{Cells, Column};
use lucene_arrow::coercion::ColumnSchema;
use lucene_arrow::commit::latest_commit;
use lucene_arrow::column::{decode_binary, decode_multi_numeric, decode_numeric, decode_sorted};
use lucene_arrow::engine::{dv_fields, find_file, plan_segment, stats, SegmentInput};
use lucene_arrow::file::DocValuesFileBuilder;
use lucene_arrow::framing;
use lucene_arrow::hydrate::{group_docs, group_pairs, hydrate, segment_at, StoredColumn};
use lucene_arrow::read::{plan_doc_values, DocValuesPlans};
use lucene_arrow::request::{GpuSupport, HydrateRequest, ReadRequest, SegmentSelector, WriteJob};
use lucene_arrow::resolve::resolve;
use lucene_arrow::scan::{segment_batches, ColumnData};
use lucene_arrow::schema::DataType;
use lucene_arrow::segment::{
    assemble_segment, field_infos_file, CommitEntry, DocValuesKind, ListedField, SegmentDirectory,
    SegmentInfo, SegmentMeta, StoredVal,
};
use lucene_arrow::session::{Batch, WriteSession};
use lucene_arrow::source::{BufferTarget, ByteRange, BytesRange};
use lucene_arrow::write::CpuEncoder;
use lucene_arrow::writer::{write_segment_files, NamedFile, WriteField, WrittenSegment};

const DV_SUFFIX: &str = "Lucene90_0";

fn kind(dv: DocValuesType) -> DocValuesKind {
    match dv {
        DocValuesType::None => DocValuesKind::Absent,
        DocValuesType::Numeric => DocValuesKind::Numeric,
        DocValuesType::Binary => DocValuesKind::Binary,
        DocValuesType::Sorted => DocValuesKind::Sorted,
        DocValuesType::SortedNumeric => DocValuesKind::SortedNumeric,
        DocValuesType::SortedSet => DocValuesKind::SortedSet,
    }
}

/// Opens the latest commit of a directory.
fn open(dir: &SharedDirectory) -> SegmentDirectory {
    let files = dir.list_all().unwrap();
    let name = latest_commit(&files).unwrap();
    let infos = segment_infos::read(&**dir, &name).unwrap();
    let mut segments = Vec::new();
    for (ord, e) in infos.segments.iter().enumerate() {
        let si = segment_info_format::read(&**dir, &e.name, &e.id).unwrap();
        let info = SegmentInfo {
            name: si.name.clone(),
            id: si.id,
            max_doc: si.max_doc,
            is_compound: si.is_compound_file,
            files: si.files.iter().cloned().collect(),
        };
        let fnm = field_infos_file(&info);
        let (fields, bytes) = if si.is_compound_file {
            let cfs = CompoundDirectory::open(&**dir, &si.name, &si.id).unwrap();
            (field_infos_format::read(&cfs, &si, "").unwrap(), cfs.open_file(&fnm).unwrap().as_bytes().to_vec())
        } else {
            (field_infos_format::read(&**dir, &si, "").unwrap(), dir.open_file(&fnm).unwrap().as_bytes().to_vec())
        };
        let listed: Vec<ListedField> = fields
            .iter()
            .map(|f| {
                let mut attributes = Attributes::new();
                for (k, v) in f.attributes() {
                    attributes.insert(k.clone(), v.clone());
                }
                ListedField {
                    name: f.name().to_string(),
                    number: f.number(),
                    doc_values: kind(f.doc_values_type()),
                    indexed: f.is_indexed(),
                    has_norms: f.has_norms(),
                    has_points: f.has_point_values(),
                    attributes,
                }
            })
            .collect();
        let entry = CommitEntry {
            name: e.name.clone(),
            codec: e.codec.clone(),
            del_count: e.del_count,
            del_gen: e.del_gen,
        };
        segments.push(assemble_segment(ord, entry, info, &listed, &bytes).unwrap());
    }
    SegmentDirectory::new("memory".into(), infos.generation, segments)
}

/// The bytes of one file of a segment, out of its compound file if need be.
fn input(dir: &SharedDirectory, seg: &SegmentMeta, name: &str) -> Vec<u8> {
    let inventory = open(dir);
    let bytes = open_input(dir, &inventory, &seg.name, name);
    bytes.unwrap()
}

fn open_input(dir: &SharedDirectory, inventory: &SegmentDirectory, segment: &str, name: &str) -> Option<Vec<u8>> {
    let (seg, compound) = inventory.locate_input(segment, name).ok()?;
    let backing = if compound {
        let cfs = CompoundDirectory::open(&**dir, &seg.name, &seg.id).unwrap();
        cfs.open_file(name).ok()?
    } else {
        dir.open_file(name).ok()?
    };
    Some(backing.as_bytes().to_vec())
}

fn file_bytes(dir: &SharedDirectory, seg: &SegmentMeta, ext: &str) -> (String, Vec<u8>) {
    let name = seg.files[find_file(&seg.files, ext).unwrap()].clone();
    let bytes = input(dir, seg, &name);
    (name, bytes)
}

fn inputs(dir: &SharedDirectory, seg: &SegmentMeta) -> SegmentInput {
    SegmentInput {
        dvm: file_bytes(dir, seg, ".dvm").1,
        dvd: file_bytes(dir, seg, ".dvd").1,
        vectors: Vec::new(),
        vec_data: Vec::new(),
    }
}

fn writer(dir: &SharedDirectory, compound: bool) -> IndexWriter {
    let config = IndexWriterConfig::default().num_threads(1).use_compound_file(compound);
    IndexWriter::new(config, Arc::clone(dir))
}

fn valid(validity: &Option<Vec<u64>>, d: usize) -> bool {
    match validity {
        Some(w) => w[d / 64] >> (d % 64) & 1 == 1,
        None => true,
    }
}

const NUM_DOCS: usize = 100;

fn build_index(compound: bool) -> SharedDirectory {
    let dir = MemoryDirectory::create();
    let w = writer(&dir, compound);
    for i in 0..NUM_DOCS as i64 {
        let doc = DocumentBuilder::new()
            .add_field(numeric_dv("price").value(i * 10))
            .add_field(sorted_dv("category").value(format!("cat-{}", i % 7).into_bytes()))
            .add_field(sorted_numeric_dv("scores").value(vec![i, i * 2, 42]))
            .add_field(binary_dv("payload").value(vec![i as u8, 0xAB, 0xCD]))
            .add_field(keyword("tag").value(format!("tag-{}", i % 3)))
            .build();
        w.add_document(doc).unwrap();
    }
    w.commit().unwrap();
    dir
}

fn assert_inventory(dir: &SegmentDirectory, compound: bool) {
    assert_eq!(dir.segments().len(), 1, "expected exactly one segment");
    let seg = &dir.segments()[0];

    assert_eq!(seg.codec, "Lucene103");
    assert_eq!(seg.max_doc, NUM_DOCS as i32);
    assert_eq!(seg.del_count, 0);
    assert_eq!(seg.ord, 0);
    assert_eq!(seg.is_compound, compound);
    assert!(!seg.files.is_empty(), "segment files list must be non-empty");
    let mut sorted = seg.files.clone();
    sorted.sort();
    assert_eq!(seg.files, sorted, "files list must be sorted");

    let dv = |name: &str| dir.segments()[0].field(name).unwrap().doc_values;
    assert_eq!(dv("price"), DocValuesKind::Numeric);
    assert_eq!(dv("category"), DocValuesKind::Sorted);
    assert_eq!(dv("scores"), DocValuesKind::SortedNumeric);
    assert_eq!(dv("payload"), DocValuesKind::Binary);
    let tag = seg.field("tag").unwrap();
    assert_eq!(tag.doc_values, DocValuesKind::SortedSet);
    assert!(tag.indexed);

    let price = seg.field("price").unwrap();
    assert!(!price.indexed);
    assert!(!price.has_norms);
    assert!(!price.has_points);
    assert!(!price.has_vectors);

    let mut numbers: Vec<u32> = seg.fields.iter().map(|f| f.number).collect();
    numbers.sort_unstable();
    numbers.dedup();
    assert_eq!(numbers.len(), seg.fields.len());

    if compound {
        assert!(seg.files.iter().any(|f| f.ends_with(".cfs")));
        assert!(seg.files.iter().any(|f| f.ends_with(".cfe")));
    } else {
        assert!(seg.files.iter().any(|f| f.ends_with(".dvm")));
        assert!(seg.files.iter().any(|f| f.ends_with(".dvd")));
    }
}

fn assert_dv_framing(raw: &SharedDirectory, dir: &SegmentDirectory, compound: bool) {
    let seg = &dir.segments()[0];
    let dvm_name = if compound {
        format!("{}_{DV_SUFFIX}.dvm", seg.name)
    } else {
        seg.files.iter().find(|f| f.ends_with(".dvm")).unwrap().clone()
    };

    for name in [dvm_name.clone(), dvm_name.replace(".dvm", ".dvd")] {
        let bytes = input(raw, seg, &name);
        assert!(!bytes.is_empty(), "{name} must be non-empty");

        framing::verify_footer(&bytes).unwrap();
        let expected_codec =
            if name.ends_with(".dvm") { "Lucene90DocValuesMetadata" } else { "Lucene90DocValuesData" };
        let header_len =
            framing::check_index_header(&bytes, expected_codec, 0, 0, &seg.id, DV_SUFFIX).unwrap();
        assert!(header_len > 0 && header_len < bytes.len());
        assert!(framing::check_index_header(&bytes, "NotACodec", 0, 0, &seg.id, DV_SUFFIX).is_err());
    }
}

#[test]
fn p0_open_plain_segment() {
    let raw = build_index(false);
    let dir = open(&raw);
    assert_eq!(dir.generation(), 1);
    assert_inventory(&dir, false);
    assert_dv_framing(&raw, &dir, false);
}

#[test]
fn p0_open_compound_segment() {
    let raw = build_index(true);
    let dir = open(&raw);
    assert_inventory(&dir, true);
    assert_dv_framing(&raw, &dir, true);
}

#[test]
fn open_input_reads_and_bounds_checks() {
    let raw = build_index(false);
    let dir = open(&raw);
    let seg = &dir.segments()[0];
    let dvd = seg.files[find_file(&seg.files, ".dvd").unwrap()].clone();
    let bytes = open_input(&raw, &dir, &seg.name, &dvd).unwrap();
    let range = BytesRange { bytes: &bytes };

    let mut buf = vec![0u8; 4];
    range.read_into(0, 4, BufferTarget::Host(&mut buf)).unwrap();
    assert_eq!(&buf[..], range.slice(0, 4).unwrap());
    assert!(range.read_into(range.len(), 1, BufferTarget::Host(&mut buf)).is_err());
    assert!(range.slice(range.len() - 1, 2).is_none());

    assert!(dir.locate_input("_nope", &dvd).is_err());
    assert!(open_input(&raw, &dir, "_nope", &dvd).is_none());
    assert!(open_input(&raw, &dir, &seg.name, "_0.doesnotexist").is_none());
}

#[test]
fn latest_generation_wins() {
    let raw = build_index(false);
    let mut bytes = raw.read_file("segments_1").unwrap();
    assert_eq!(bytes[33], 1, "suffix length");
    assert_eq!(bytes[34], b'1', "generation suffix");
    bytes[34] = b'2';
    let crc_at = bytes.len() - 8;
    let mut hasher = crc32fast::Hasher::new();
    hasher.update(&bytes[..crc_at]);
    let crc = u64::from(hasher.finalize()).to_be_bytes();
    bytes[crc_at..].copy_from_slice(&crc);
    raw.write_file("segments_2", &bytes).unwrap();

    assert_eq!(latest_commit(&raw.list_all().unwrap()).unwrap(), "segments_2");
    let dir = open(&raw);
    assert_eq!(dir.generation(), 2);
    assert_eq!(dir.segments()[0].max_doc, NUM_DOCS as i32);
}

struct Fixture {
    name: &'static str,
    per_doc: Vec<Option<i64>>,
}

fn build_segment(fixtures: &[Fixture]) -> SharedDirectory {
    let dir = MemoryDirectory::create();
    let w = writer(&dir, false);
    for d in 0..fixtures[0].per_doc.len() {
        let mut doc = DocumentBuilder::new();
        for f in fixtures {
            if let Some(v) = f.per_doc[d] {
                doc = doc.add_field(numeric_dv(f.name).value(v));
            }
        }
        w.add_document(doc.build()).unwrap();
    }
    w.commit().unwrap();
    dir
}

#[test]
fn decode_bearing_written_segment_matches_source_values() {
    let num_docs = 5000usize;
    let fixtures = vec![
        Fixture { name: "price", per_doc: (0..num_docs).map(|i| Some(1000 + i as i64 * 25)).collect() },
        Fixture { name: "flag", per_doc: vec![Some(7); num_docs] },
        Fixture {
            name: "bucket",
            per_doc: (0..num_docs).map(|i| Some([-1_000_000_007i64, 3, 900_719_925_474][i % 3])).collect(),
        },
        Fixture {
            name: "rare",
            per_doc: (0..num_docs)
                .map(|i| if i % 6 == 1 { Some(i as i64 * -13) } else { None })
                .collect(),
        },
        Fixture {
            name: "common",
            per_doc: (0..num_docs)
                .map(|i| if i % 10 != 0 { Some(i as i64) } else { None })
                .collect(),
        },
    ];

    let raw = build_segment(&fixtures);
    let dir = open(&raw);
    assert_eq!(dir.segments().len(), 1);
    let seg = &dir.segments()[0];
    let max_doc = seg.max_doc as u32;
    assert_eq!(max_doc as usize, num_docs);

    let (_, dvm) = file_bytes(&raw, seg, ".dvm");
    let (dvd_name, dvd) = file_bytes(&raw, seg, ".dvd");

    let fields = dv_fields(&seg.fields);
    let plans = plan_doc_values(&dvm, &dvd, &fields, max_doc, &dvd_name).unwrap();
    assert_eq!(plans.plans.len(), fixtures.len(), "one plan per numeric field");
    assert!(plans.skipped.is_empty());

    for fixture in &fixtures {
        let plan = plans.plans.iter().find(|p| p.column.name == fixture.name).unwrap();
        let column = decode_numeric(plan, &dvd).unwrap();
        assert_eq!(column.values.len(), num_docs, "{}", fixture.name);
        for (d, expected) in fixture.per_doc.iter().enumerate() {
            match expected {
                Some(v) => {
                    assert!(valid(&column.validity, d), "{} doc {d}", fixture.name);
                    assert_eq!(column.values[d], *v, "{} doc {d}", fixture.name);
                }
                None => assert!(!valid(&column.validity, d), "{} doc {d}", fixture.name),
            }
        }
    }
}

#[test]
fn encoder_is_byte_identical_to_bearing() {
    for (label, per_doc) in [
        ("dense-gcd", (0..2000).map(|i| Some(500 + i * 30)).collect::<Vec<_>>()),
        ("dense-table", (0..2000).map(|i| Some([11i64, -22, 1 << 40][i as usize % 3])).collect()),
        ("constant", vec![Some(-3); 999]),
        ("sparse", (0..6000).map(|i| if i % 5 == 0 { Some(i * 7) } else { None }).collect()),
        (
            "sparse-dense-disi",
            (0..80_000).map(|i| if i % 4 != 3 { Some(i) } else { None }).collect(),
        ),
    ] {
        let fixture = Fixture { name: "v", per_doc };
        let raw = build_segment(std::slice::from_ref(&fixture));
        let dir = open(&raw);
        let seg = &dir.segments()[0];
        let max_doc = seg.max_doc as u32;
        let field_number = seg.field("v").unwrap().number as i32;

        let (_, bearing_dvm) = file_bytes(&raw, seg, ".dvm");
        let (_, bearing_dvd) = file_bytes(&raw, seg, ".dvd");

        let (docs, values): (Vec<u32>, Vec<i64>) = fixture
            .per_doc
            .iter()
            .enumerate()
            .filter_map(|(d, v)| v.map(|v| (d as u32, v)))
            .unzip();
        let mut builder = DocValuesFileBuilder::new(&seg.id, DV_SUFFIX);
        builder.add_numeric(field_number, &docs, &values, max_doc).unwrap();
        let (our_dvm, our_dvd) = builder.finish();

        assert_eq!(our_dvd, bearing_dvd, "{label}: .dvd bytes differ");
        assert_eq!(our_dvm, bearing_dvm, "{label}: .dvm bytes differ");
    }
}

#[test]
fn sorted_encoder_is_byte_identical_to_bearing() {
    for (label, num_docs, absent_mod, num_terms) in [
        ("dense-3-terms", 500usize, 0usize, 3usize),
        ("dense-200-terms", 3000, 0, 200),
        ("sparse-90-terms", 4000, 7, 90),
    ] {
        let raw = MemoryDirectory::create();
        let w = writer(&raw, false);
        for i in 0..num_docs {
            let mut doc = DocumentBuilder::new();
            if absent_mod == 0 || i % absent_mod != 3 {
                doc = doc
                    .add_field(sorted_dv("cat").value(format!("term-{:05}", i * 13 % num_terms).into_bytes()));
            } else {
                doc = doc.add_field(numeric_dv("pad").value(i as i64));
            }
            w.add_document(doc.build()).unwrap();
        }
        w.commit().unwrap();

        let dir = open(&raw);
        let seg = &dir.segments()[0];
        let (_, bearing_dvm) = file_bytes(&raw, seg, ".dvm");
        let (_, bearing_dvd) = file_bytes(&raw, seg, ".dvd");
        let cat_number = seg.field("cat").unwrap().number as i32;
        let pad_number = seg.field("pad").map(|f| f.number as i32);
        let max_doc = seg.max_doc as u32;

        let mut fields: Vec<(i32, bool)> = vec![(cat_number, true)];
        if let Some(p) = pad_number {
            fields.push((p, false));
        }
        fields.sort_by_key(|f| f.0);

        let mut builder = DocValuesFileBuilder::new(&seg.id, DV_SUFFIX);
        for (number, is_cat) in fields {
            if is_cat {
                let (docs, terms): (Vec<u32>, Vec<Vec<u8>>) = (0..num_docs)
                    .filter(|i| absent_mod == 0 || i % absent_mod != 3)
                    .map(|i| (i as u32, format!("term-{:05}", i * 13 % num_terms).into_bytes()))
                    .unzip();
                let term_refs: Vec<&[u8]> = terms.iter().map(|t| t.as_slice()).collect();
                builder.add_sorted_with(&CpuEncoder, number, &docs, &term_refs, max_doc).unwrap();
            } else {
                let (docs, values): (Vec<u32>, Vec<i64>) = (0..num_docs)
                    .filter(|i| !(absent_mod == 0 || i % absent_mod != 3))
                    .map(|i| (i as u32, i as i64))
                    .unzip();
                builder.add_numeric(number, &docs, &values, max_doc).unwrap();
            }
        }
        let (our_dvm, our_dvd) = builder.finish();
        assert_eq!(our_dvd, bearing_dvd, "{label}: .dvd differs");
        assert_eq!(our_dvm, bearing_dvm, "{label}: .dvm differs");
    }
}

#[test]
fn remaining_dv_writers_byte_identical_to_bearing() {
    let num_docs = 3000usize;
    let raw = MemoryDirectory::create();
    let w = writer(&raw, false);
    for i in 0..num_docs as i64 {
        let mut doc = DocumentBuilder::new();
        if i % 3 != 1 {
            doc = doc.add_field(binary_dv("blob").value(vec![i as u8; (i % 5) as usize + 1]));
        }
        doc = doc.add_field(sorted_numeric_dv("scores").value(vec![i * 2, 42, i]));
        let mut terms: Vec<Vec<u8>> = (0..i % 3)
            .map(|j| format!("tag-{:03}", (i + j * 37) % 151).into_bytes())
            .collect();
        terms.push(format!("base-{:02}", i % 41).into_bytes());
        doc = doc.add_field(sorted_set_dv("tags").value(terms));
        w.add_document(doc.build()).unwrap();
    }
    w.commit().unwrap();

    let dir = open(&raw);
    let seg = &dir.segments()[0];
    let (_, bearing_dvm) = file_bytes(&raw, seg, ".dvm");
    let (_, bearing_dvd) = file_bytes(&raw, seg, ".dvd");
    let max_doc = seg.max_doc as u32;

    let mut ordered: Vec<(&str, u32)> = seg.fields.iter().map(|f| (f.name.as_str(), f.number)).collect();
    ordered.sort_by_key(|f| f.1);

    let mut builder = DocValuesFileBuilder::new(&seg.id, DV_SUFFIX);
    for (name, number) in ordered {
        match name {
            "blob" => {
                let (docs, vals): (Vec<u32>, Vec<Vec<u8>>) = (0..num_docs)
                    .filter(|i| i % 3 != 1)
                    .map(|i| (i as u32, vec![i as u8; i % 5 + 1]))
                    .unzip();
                let refs: Vec<&[u8]> = vals.iter().map(|v| v.as_slice()).collect();
                builder.add_binary(number as i32, &docs, &refs, max_doc).unwrap();
            }
            "scores" => {
                let docs: Vec<u32> = (0..num_docs as u32).collect();
                let vals: Vec<Vec<i64>> = (0..num_docs as i64).map(|i| vec![i * 2, 42, i]).collect();
                builder.add_sorted_numeric_with(&CpuEncoder, number as i32, &docs, &vals, max_doc).unwrap();
            }
            "tags" => {
                let docs: Vec<u32> = (0..num_docs as u32).collect();
                let terms: Vec<Vec<Vec<u8>>> = (0..num_docs as i64)
                    .map(|i| {
                        let mut t: Vec<Vec<u8>> = (0..i % 3)
                            .map(|j| format!("tag-{:03}", (i + j * 37) % 151).into_bytes())
                            .collect();
                        t.push(format!("base-{:02}", i % 41).into_bytes());
                        t
                    })
                    .collect();
                builder.add_sorted_set_with(&CpuEncoder, number as i32, &docs, &terms, max_doc).unwrap();
            }
            other => panic!("unexpected field {other}"),
        }
    }
    let (our_dvm, our_dvd) = builder.finish();
    assert_eq!(our_dvd, bearing_dvd, ".dvd differs");
    assert_eq!(our_dvm, bearing_dvm, ".dvm differs");
}

#[test]
fn sorted_and_multi_shapes_round_trip_through_bearing() {
    const DOCS: usize = 3000;
    let raw = MemoryDirectory::create();
    let w = writer(&raw, false);
    for i in 0..DOCS as i64 {
        let mut doc = DocumentBuilder::new()
            .add_field(numeric_dv("id").value(i))
            .add_field(sorted_numeric_dv("scores").value(vec![i * 2, 42, i]));
        if i % 7 != 3 {
            doc = doc.add_field(sorted_dv("category").value(format!("cat-{:04}", i % 200).into_bytes()));
        }
        doc = doc.add_field(keyword("tag").value(format!("tag-{}", i % 3)));
        if i % 3 != 1 {
            doc = doc.add_field(binary_dv("blob").value(vec![i as u8; (i % 5) as usize + 1]));
        }
        w.add_document(doc.build()).unwrap();
    }
    w.commit().unwrap();

    let dir = open(&raw);
    let seg = &dir.segments()[0];
    let fields = dv_fields(&seg.fields);
    let (_, dvm) = file_bytes(&raw, seg, ".dvm");
    let (dvd_name, dvd) = file_bytes(&raw, seg, ".dvd");

    let plans = plan_doc_values(&dvm, &dvd, &fields, DOCS as u32, &dvd_name).unwrap();
    assert_eq!(plans.plans.len(), 1, "id");
    assert_eq!(plans.sorted.len(), 2, "category + tag");
    assert_eq!(plans.multi_numeric.len(), 1, "scores");
    assert_eq!(plans.binary.len(), 1, "blob");
    assert!(plans.skipped.is_empty());

    let bin = decode_binary(&plans.binary[0], &dvd).unwrap();
    for d in 0..DOCS {
        if d % 3 != 1 {
            assert!(valid(&bin.validity, d), "blob doc {d}");
            let (s, e) = (bin.offsets[d] as usize, bin.offsets[d + 1] as usize);
            assert_eq!(&bin.bytes[s..e], vec![d as u8; d % 5 + 1].as_slice(), "blob doc {d}");
        } else {
            assert!(!valid(&bin.validity, d), "blob doc {d}");
        }
    }

    let cat = plans.sorted.iter().find(|p| p.ords.column.name == "category").unwrap();
    assert!(!cat.set);
    assert_eq!(cat.terms.num_terms, 200);
    let c = decode_sorted(cat, &dvd).unwrap();
    assert!(c.text);
    for d in 0..DOCS {
        if d % 7 != 3 {
            assert!(valid(&c.validity, d), "doc {d}");
            assert_eq!(c.dict.term(c.keys[d] as usize), format!("cat-{:04}", d % 200).as_bytes(), "doc {d}");
        } else {
            assert!(!valid(&c.validity, d), "doc {d}");
        }
    }

    let tag = plans.sorted.iter().find(|p| p.ords.column.name == "tag").unwrap();
    assert!(tag.set);
    assert!(tag.addresses.is_none(), "single-valued set");
    assert_eq!(tag.terms.num_terms, 3);
    let c = decode_sorted(tag, &dvd).unwrap();
    assert!(c.offsets.is_none());
    for d in 0..DOCS {
        assert_eq!(c.dict.term(c.keys[d] as usize), format!("tag-{}", d % 3).as_bytes(), "doc {d}");
    }

    let scores = &plans.multi_numeric[0];
    assert_eq!(scores.values.column.name, "scores");
    let list = decode_multi_numeric(scores, &dvd).unwrap();
    assert_eq!(list.offsets.len(), DOCS + 1);
    for d in 0..DOCS {
        let (start, end) = (list.offsets[d] as usize, list.offsets[d + 1] as usize);
        let mut expected = vec![d as i64 * 2, 42, d as i64];
        expected.sort();
        assert_eq!(&list.values[start..end], expected, "doc {d}");
    }
}

/// Writes files and a commit of them.
fn commit(raw: &SharedDirectory, files: &[NamedFile], segments: &[WrittenSegment]) {
    for f in files {
        raw.write_file(&f.name, &f.bytes).unwrap();
    }
    let mut infos = SegmentInfos::new();
    for s in segments {
        infos.add(FlushedSegment {
            segment_id: SegmentId { name: s.name.clone(), id: s.id },
            doc_count: s.num_docs as i32,
            file_names: s.files.clone(),
        });
    }
    infos.commit(&**raw).unwrap();
}

fn per_doc(field: usize, d: u32) -> Option<i64> {
    match field {
        0 => Some(1_000_000 + d as i64 * 25),
        1 => Some([7i64, -3, 1 << 41][d as usize % 3]),
        _ => (d % 6 != 2).then_some(d as i64 * -11),
    }
}

/// A whole segment written here opens through the other reader and decodes
/// back.
#[test]
fn our_segment_opens_decodes_and_passes_checkindex() {
    const DOCS: u32 = 20_000;
    let id: [u8; 16] = *b"segmentid0123456";
    let mut builder = DocValuesFileBuilder::new(&id, DV_SUFFIX);
    let names = ["price", "bucket", "rare"];
    for (i, _) in names.iter().enumerate() {
        let (docs, values): (Vec<u32>, Vec<i64>) =
            (0..DOCS).filter_map(|d| per_doc(i, d).map(|v| (d, v))).unzip();
        builder.add_numeric(i as i32, &docs, &values, DOCS).unwrap();
    }
    let (docs, terms): (Vec<u32>, Vec<Vec<u8>>) = (0..DOCS)
        .filter(|d| d % 5 != 4)
        .map(|d| (d, format!("cat-{:04}", d * 11 % 300).into_bytes()))
        .unzip();
    let term_refs: Vec<&[u8]> = terms.iter().map(|t| t.as_slice()).collect();
    builder.add_sorted_with(&CpuEncoder, 3, &docs, &term_refs, DOCS).unwrap();
    let (dvm, dvd) = builder.finish();

    let mut fields: Vec<WriteField> =
        names.iter().enumerate().map(|(i, n)| WriteField::doc_values(n, i as u32, 1)).collect();
    fields.push(WriteField::doc_values("category", 3, 3));
    let (seg, files) = write_segment_files("_0", id, &fields, DOCS, &dvm, &dvd);
    let raw = MemoryDirectory::create();
    commit(&raw, &files, &[seg]);

    let dir = open(&raw);
    assert_eq!(dir.segments().len(), 1);
    let seg = &dir.segments()[0];
    assert_eq!(seg.max_doc, DOCS as i32);
    assert_eq!(seg.field("price").unwrap().doc_values, DocValuesKind::Numeric);

    let (dvd_name, dvd) = file_bytes(&raw, seg, ".dvd");
    let (_, dvm) = file_bytes(&raw, seg, ".dvm");
    let plans = plan_doc_values(&dvm, &dvd, &dv_fields(&seg.fields), DOCS, &dvd_name).unwrap();
    for (i, name) in names.iter().enumerate() {
        let plan = plans.plans.iter().find(|p| p.column.name == *name).unwrap();
        let column = decode_numeric(plan, &dvd).unwrap();
        for d in 0..DOCS {
            match per_doc(i, d) {
                Some(v) => assert_eq!(column.values[d as usize], v, "{name} doc {d}"),
                None => assert!(!valid(&column.validity, d as usize), "{name} doc {d}"),
            }
        }
    }
    let c = decode_sorted(&plans.sorted[0], &dvd).unwrap();
    for (d, t) in docs.iter().zip(&terms) {
        assert_eq!(c.dict.term(c.keys[*d as usize] as usize), t.as_slice());
    }

    // Stored fields open, and hold nothing.
    let mut reader = StoredFieldsReader::open(&*raw, &seg.name, "", &seg.id).unwrap();
    for d in [0, 1023, 1024, DOCS - 1] {
        assert!(reader.document(d).unwrap().is_empty());
    }
}

/// Stored values of explicit rows, in the order asked for.
#[test]
fn hydrate_returns_stored_columns() {
    let raw = MemoryDirectory::create();
    let w = writer(&raw, false);
    for i in 0..500i64 {
        let doc = DocumentBuilder::new()
            .add_field(numeric_dv("id").value(i))
            .add_field(stored("title").string(format!("doc number {i}")))
            .add_field(stored("weight").long(i * 7))
            .build();
        w.add_document(doc).unwrap();
    }
    w.commit().unwrap();
    let dir = open(&raw);

    let request = HydrateRequest {
        path: "memory".into(),
        pairs: vec![(0, 411), (0, 3), (0, 77)],
        columns: vec!["title".into(), "weight".into(), "absent".into()],
    };
    let mut stored_rows: Vec<Vec<(u32, StoredVal)>> = vec![Vec::new(); request.pairs.len()];
    for (ord, places) in group_pairs(&request.pairs) {
        let seg = segment_at(dir.segments(), ord).unwrap();
        let docs = group_docs(&request.pairs, &places);
        let mut reader = StoredFieldsReader::open(&*raw, &seg.name, "", &seg.id).unwrap();
        for (d, place) in docs.iter().zip(&places) {
            stored_rows[*place] = reader
                .document(*d)
                .unwrap()
                .into_iter()
                .map(|f| {
                    let v = match f.value {
                        StoredValue::String(s) => StoredVal::Str(s),
                        StoredValue::Bytes(b) => StoredVal::Bytes(b),
                        StoredValue::Int(i) => StoredVal::I64(i as i64),
                        StoredValue::Long(l) => StoredVal::I64(l),
                        StoredValue::Float(x) => StoredVal::F64((x as f64).to_bits()),
                        StoredValue::Double(x) => StoredVal::F64(x.to_bits()),
                    };
                    (f.field_number, v)
                })
                .collect();
        }
    }
    let batch = hydrate(&request, dir.segments(), &stored_rows).unwrap();
    assert_eq!(batch.segs, [0, 0, 0]);
    assert_eq!(batch.docs, [411, 3, 77]);
    for (r, expected_doc) in [411i64, 3, 77].iter().enumerate() {
        assert!(matches!(&batch.columns[0].values, StoredColumn::Str(v)
            if v[r].as_deref() == Some(format!("doc number {expected_doc}").as_str())));
        assert!(matches!(&batch.columns[1].values, StoredColumn::I64(v) if v[r] == Some(expected_doc * 7)));
    }
    assert!(matches!(batch.columns[2].values, StoredColumn::Null(3)));
}

fn schema(name: &str, data_type: DataType) -> ColumnSchema {
    ColumnSchema { name: name.into(), data_type, printed_type: "t".into(), metadata: Attributes::new() }
}

fn job() -> WriteJob {
    WriteJob {
        output_dir: "out".into(),
        codec: "Lucene103".into(),
        segment_max_docs: Some(1000),
        segment_max_bytes: None,
        index_sort: None,
        coercion: Some("auto".into()),
        compound: Some(false),
        executor: Some("cpu".into()),
        frame_version: 1,
    }
}

fn read_request(columns: Option<Vec<String>>) -> ReadRequest {
    ReadRequest {
        path: "memory".into(),
        segments: SegmentSelector::All,
        columns,
        row_mode: "compact".into(),
        dict: None,
        batch_rows: Some(700),
        executor: None,
        frame_version: 1,
        relation: None,
        postings_field: None,
    }
}

/// A write job over several batches: segments are cut between batches, open
/// through the other reader, and scan back to the rows that went in.
#[test]
fn write_job_reads_back_through_a_scan() {
    let columns = [
        schema("id", DataType::Int64),
        schema("scores", DataType::List(Box::new(DataType::Int64))),
        schema("tags", DataType::List(Box::new(DataType::Utf8))),
        schema("blob", DataType::Binary),
        schema("name", DataType::Utf8),
    ];
    let mut session = WriteSession::new(&job(), &columns, false, false, GpuSupport::NotBuilt).unwrap();
    let raw = MemoryDirectory::create();
    let mut manifests = Vec::new();
    let mut next_id = 0u8;
    let scores_of = |d: i64| (0..1 + d % 3).map(|j| d * 5 - j * 100).collect::<Vec<i64>>();
    let tags_of = |d: i64| {
        if d % 4 == 0 {
            None
        } else {
            let mut t: Vec<Vec<u8>> =
                (0..d % 3).map(|j| format!("tag-{:03}", (d + j * 37) % 113).into_bytes()).collect();
            t.push(format!("base-{:02}", d % 31).into_bytes());
            Some(t)
        }
    };
    let blob_of = |d: i64| if d % 3 != 1 { Some(vec![d as u8; (d % 5) as usize + 1]) } else { None };
    let name_of = |d: i64| if d % 5 != 2 { Some(format!("n{:03}", d % 90).into_bytes()) } else { None };
    for b in 0..5i64 {
        let docs: Vec<i64> = (b * 600..b * 600 + 600).collect();
        let batch = Batch {
            columns: vec![
                Column {
                    name: "name".into(),
                    data_type: DataType::Utf8,
                    cells: Cells::Text(docs.iter().map(|d| name_of(*d)).collect()),
                },
                Column {
                    name: "id".into(),
                    data_type: DataType::Int64,
                    cells: Cells::I64(docs.iter().map(|d| Some(*d)).collect()),
                },
                Column {
                    name: "scores".into(),
                    data_type: DataType::List(Box::new(DataType::Int64)),
                    cells: Cells::Longs(docs.iter().map(|d| Some(scores_of(*d))).collect()),
                },
                Column {
                    name: "tags".into(),
                    data_type: DataType::List(Box::new(DataType::Utf8)),
                    cells: Cells::Texts(docs.iter().map(|d| tags_of(*d)).collect()),
                },
                Column {
                    name: "blob".into(),
                    data_type: DataType::Binary,
                    cells: Cells::Bytes(docs.iter().map(|d| blob_of(*d)).collect()),
                },
            ],
            rows: 600,
        };
        next_id += 1;
        let (flushed, outcome) = session.push(&CpuEncoder, [next_id; 16], Vec::new(), &batch).unwrap();
        outcome.unwrap();
        if let Some(f) = flushed {
            for file in &f.files {
                raw.write_file(&file.name, &file.bytes).unwrap();
            }
            manifests.push(f.manifest);
        }
    }
    let f = session.flush_segment(&CpuEncoder, [99; 16], Vec::new()).unwrap().unwrap();
    for file in &f.files {
        raw.write_file(&file.name, &file.bytes).unwrap();
    }
    manifests.push(f.manifest);
    assert!(session.flush_segment(&CpuEncoder, [98; 16], Vec::new()).unwrap().is_none());
    let written = session.finish().unwrap();
    assert_eq!(written.iter().map(|s| s.num_docs).collect::<Vec<_>>(), [1200, 1200, 600]);
    assert_eq!(written.iter().map(|s| s.name.as_str()).collect::<Vec<_>>(), ["_0", "_1", "_2"]);
    assert_eq!(manifests.iter().map(|m| m.max_doc).collect::<Vec<_>>(), [1200, 1200, 600]);
    for (m, s) in manifests.iter().zip(&written) {
        assert_eq!(m.files.iter().map(|f| f.name.clone()).collect::<Vec<_>>(), s.files);
        for f in &m.files {
            let bytes = raw.read_file(&f.name).unwrap();
            assert_eq!(f.bytes, bytes.len() as u64);
            assert_eq!(f.crc32, crc32fast::hash(&bytes));
        }
        assert_eq!(
            m.field_stats.iter().map(|s| s.lucene_type).collect::<Vec<_>>(),
            ["numeric", "sorted_numeric", "sorted_set", "binary", "sorted"]
        );
        assert!(m.field_stats.iter().all(|s| s.encoder == "cpu" && s.source_type == "t"));
    }
    commit(&raw, &[], &written);

    let dir = open(&raw);
    let all: Vec<SegmentInput> = dir.segments().iter().map(|s| inputs(&raw, s)).collect();
    let read = resolve(&read_request(None), dir.segments(), &all, GpuSupport::NotBuilt).unwrap();
    assert_eq!(
        read.config.columns,
        ["_seg", "_doc", "_global_doc", "id", "scores", "tags", "blob", "name"]
    );
    assert_eq!(read.config.executor, "cpu");
    let mut base = 0i64;
    for (k, seg) in dir.segments().iter().enumerate() {
        let plans: DocValuesPlans = plan_segment(seg, &all[k]).unwrap();
        let batches = segment_batches(&read, seg, &plans, &all[k], &None, base).unwrap();
        assert!(batches.keep.is_none());
        let expected: &[(usize, usize)] = if seg.max_doc == 1200 { &[(0, 700), (700, 500)] } else { &[(0, 600)] };
        assert_eq!(batches.ranges, expected);
        for row in 0..seg.max_doc as usize {
            let d = base + row as i64;
            assert!(matches!(&batches.columns[0], ColumnData::Int32(v) if v[row] == k as i32));
            assert!(matches!(&batches.columns[1], ColumnData::Int32(v) if v[row] == row as i32));
            assert!(matches!(&batches.columns[2], ColumnData::Int64(v) if v[row] == d));
            assert!(matches!(&batches.columns[3], ColumnData::Numeric(c) if c.values[row] == d));
            let mut want = scores_of(d);
            want.sort();
            assert!(matches!(&batches.columns[4], ColumnData::List(c)
                if c.values[c.offsets[row] as usize..c.offsets[row + 1] as usize] == want[..]));
            match &batches.columns[5] {
                ColumnData::Dictionary(c) => {
                    let o = c.offsets.as_ref().unwrap();
                    let got: Vec<Vec<u8>> = (o[row] as usize..o[row + 1] as usize)
                        .map(|i| c.dict.term(c.keys[i] as usize).to_vec())
                        .collect();
                    match tags_of(d) {
                        Some(mut t) => {
                            t.sort();
                            t.dedup();
                            assert_eq!(got, t);
                        }
                        None => assert!(got.is_empty() && !valid(&c.validity, row)),
                    }
                }
                _ => panic!("tags"),
            }
            assert!(matches!(&batches.columns[6], ColumnData::Binary(c)
                if match blob_of(d) {
                    Some(b) => c.bytes[c.offsets[row] as usize..c.offsets[row + 1] as usize] == b[..],
                    None => !valid(&c.validity, row),
                }));
            assert!(matches!(&batches.columns[7], ColumnData::Dictionary(c)
                if match name_of(d) {
                    Some(n) => c.dict.term(c.keys[row] as usize) == n.as_slice(),
                    None => !valid(&c.validity, row),
                }));
        }
        let costs = stats(&plans, &all[k].vectors).unwrap();
        let shapes: Vec<&str> = costs.iter().map(|c| c.shape).collect();
        assert_eq!(shapes, ["numeric", "sorted_set_multi", "sorted", "sorted_numeric_multi", "binary"]);
        assert_eq!(costs[0].field, "id");
        assert_eq!(costs[0].num_values, seg.max_doc as u64);
        base += seg.max_doc as i64;
    }
}
