//! Requests, write jobs and scans without files.

use lucene_arrow::attributes::Attributes;
use lucene_arrow::buffer::{append_column, in_range, Cells, ColBuffer, Column};
use lucene_arrow::coercion::{classify, parse_i64, ColumnSchema, NumericCoercion};
use lucene_arrow::engine::{doc_values_files, SegmentInput};
use lucene_arrow::error::Error;
use lucene_arrow::file::DocValuesFileBuilder;
use lucene_arrow::hydrate::{group_pairs, hydrate, StoredColumn};
use lucene_arrow::ieee::{average, product, widen};
use lucene_arrow::meta::RowMode;
use lucene_arrow::postings::{field_traits, postings_batches, postings_field, Postings};
use lucene_arrow::request::{
    resolve_executor, GpuSupport, HydrateRequest, ReadRequest, SegmentSelector, WriteJob,
};
use lucene_arrow::resolve::{check_request, resolve, select_segments};
use lucene_arrow::scan::{cut_batches, live_mask, segment_batches, ColumnData};
use lucene_arrow::schema::{DataType, TimeUnit};
use lucene_arrow::segment::{DocValuesKind, FieldMeta, SegmentMeta, StoredVal};
use lucene_arrow::server::{doc_bases, postings_request, status_of, ServiceAction, StatusCode};
use lucene_arrow::session::{check_codec, Batch, WriteSession};
use lucene_arrow::write::CpuEncoder;

const ID: [u8; 16] = *b"0123456789abcdef";

fn request() -> ReadRequest {
    ReadRequest {
        path: "/x".into(),
        segments: SegmentSelector::All,
        columns: None,
        row_mode: "positional".into(),
        dict: None,
        batch_rows: None,
        executor: None,
        frame_version: 1,
        relation: None,
        postings_field: None,
    }
}

fn field(name: &str, number: u32, doc_values: DocValuesKind) -> FieldMeta {
    FieldMeta {
        name: name.into(),
        number,
        doc_values,
        indexed: false,
        index_options: 0,
        has_norms: false,
        has_points: false,
        has_vectors: false,
        vector_dimension: 0,
        vector_encoding: 0,
        vector_similarity: 0,
        has_skip_index: false,
        attributes: Attributes::new(),
    }
}

fn segment(name: &str, ord: usize, max_doc: i32, fields: Vec<FieldMeta>) -> SegmentMeta {
    SegmentMeta {
        ord,
        name: name.into(),
        id: ID,
        codec: "Lucene103".into(),
        max_doc,
        del_count: 0,
        del_gen: -1,
        is_compound: false,
        files: vec![format!("{name}.dvd"), format!("{name}.dvm")],
        fields,
    }
}

/// A segment with one numeric field that has values everywhere.
fn numeric_input(values: &[i64]) -> SegmentInput {
    let docs: Vec<u32> = (0..values.len() as u32).collect();
    let mut b = DocValuesFileBuilder::new(&ID, "Lucene90_0");
    b.add_numeric(0, &docs, values, values.len() as u32).unwrap();
    let (dvm, dvd) = b.finish();
    SegmentInput { dvm, dvd, vectors: Vec::new(), vec_data: Vec::new() }
}

fn empty_input() -> SegmentInput {
    let b = DocValuesFileBuilder::new(&ID, "Lucene90_0");
    let (dvm, dvd) = b.finish();
    SegmentInput { dvm, dvd, vectors: Vec::new(), vec_data: Vec::new() }
}

#[test]
fn row_mode_and_frame_version_have_no_default() {
    assert_eq!(check_request(&request()).unwrap(), RowMode::Positional);
    let mut r = request();
    r.row_mode = "".into();
    assert!(matches!(check_request(&r), Err(Error::InvalidArgument(_))));
    let mut r = request();
    r.frame_version = 2;
    assert!(matches!(check_request(&r), Err(Error::Unsupported(_))));
    assert_eq!(RowMode::parse("compact").unwrap().as_str(), "compact");
    assert!(RowMode::parse("Compact").is_none());
}

#[test]
fn selectors_pick_segments() {
    assert!(matches!(SegmentSelector::from_keyword("all"), Ok(SegmentSelector::All)));
    assert!(matches!(SegmentSelector::from_keyword("some"), Err(Error::InvalidArgument(_))));
    let segs = [segment("_0", 0, 1, vec![]), segment("_1", 1, 1, vec![]), segment("_2", 2, 1, vec![])];
    assert_eq!(select_segments(&segs, &SegmentSelector::All).unwrap(), [0, 1, 2]);
    let names = SegmentSelector::Names(vec!["_2".into(), "_0".into()]);
    assert_eq!(select_segments(&segs, &names).unwrap(), [2, 0]);
    let stray = SegmentSelector::Names(vec!["_0".into(), "_9".into()]);
    assert!(matches!(select_segments(&segs, &stray), Err(Error::InvalidArgument(_))));
    assert_eq!(doc_bases(&segs, &vec![0, 1, 2]), (vec![0, 1, 2], 3));
}

#[test]
fn executors_resolve() {
    let ask = |s: &str, gpu: GpuSupport| resolve_executor(&Some(s.to_string()), gpu);
    assert!(!ask("cpu", GpuSupport::Device).unwrap());
    assert!(ask("gpu", GpuSupport::Device).unwrap());
    assert!(matches!(ask("gpu", GpuSupport::NotBuilt), Err(Error::Unsupported(_))));
    assert!(matches!(ask("gpu", GpuSupport::NoDevice), Err(Error::Unsupported(_))));
    assert!(!ask("auto", GpuSupport::NotBuilt).unwrap());
    assert!(resolve_executor(&None, GpuSupport::Device).unwrap());
    assert!(matches!(ask("fpga", GpuSupport::Device), Err(Error::InvalidArgument(_))));
}

#[test]
fn schemas_are_reconciled() {
    let segs = [
        segment("_0", 0, 3, vec![field("a", 0, DocValuesKind::Numeric)]),
        segment("_1", 1, 2, vec![field("b", 0, DocValuesKind::Numeric)]),
    ];
    let inputs = [numeric_input(&[5, 6, 7]), numeric_input(&[8, 9])];
    let read = resolve(&request(), &segs, &inputs, GpuSupport::NotBuilt).unwrap();
    let names: Vec<&str> = read.schema.iter().map(|f| f.name.as_str()).collect();
    assert_eq!(names, ["_seg", "_doc", "_global_doc", "_live", "a", "b"]);
    assert!(read.schema[..4].iter().all(|f| !f.nullable && f.lucene_field.is_none()));
    assert!(read.schema[4..].iter().all(|f| f.nullable && f.lucene_field.as_ref() == Some(&f.name)));
    assert_eq!(read.config.batch_rows, 131072);
    assert_eq!(read.config.segments, ["_0", "_1"]);
    assert_eq!(read.config.dict.get("*"), Some("segment"));

    // A column that the second segment lacks is all null there.
    let plans = lucene_arrow::engine::plan_segment(&segs[1], &inputs[1]).unwrap();
    let b = segment_batches(&read, &segs[1], &plans, &inputs[1], &None, 3).unwrap();
    assert!(matches!(b.columns[4], ColumnData::Absent { data_type: DataType::Int64, rows: 2 }));
    assert!(matches!(&b.columns[5], ColumnData::Numeric(c) if c.values == [8, 9]));
    assert!(matches!(&b.columns[2], ColumnData::Int64(v) if *v == [3, 4]));

    // The same name with another type is a conflict.
    let clash = [
        segment("_0", 0, 3, vec![field("a", 0, DocValuesKind::Numeric)]),
        segment("_1", 1, 2, vec![field("a", 0, DocValuesKind::Binary)]),
    ];
    let inputs = [numeric_input(&[5, 6, 7]), empty_input()];
    assert!(matches!(
        resolve(&request(), &clash, &inputs, GpuSupport::NotBuilt),
        Err(Error::InvalidArgument(_))
    ));
    // Columns that are not asked for do not clash.
    let mut r = request();
    r.columns = Some(vec!["_doc".into()]);
    let read = resolve(&r, &clash, &inputs, GpuSupport::NotBuilt).unwrap();
    assert_eq!(read.config.columns, ["_doc"]);

    let mut lone = segment("_0", 0, 3, vec![]);
    lone.files = vec!["_0.dvm".into()];
    assert!(matches!(doc_values_files(&lone), Err(Error::Corrupt(_))));
}

#[test]
fn row_modes_respect_deletes() {
    let num_docs = 2000usize;
    let deleted = |d: usize| d % 9 == 4;
    let mut words = vec![0u64; num_docs.div_ceil(64)];
    for d in (0..num_docs).filter(|d| !deleted(*d)) {
        words[d / 64] |= 1 << (d % 64);
    }
    let live = Some(words);
    let values: Vec<i64> = (0..num_docs as i64).map(|d| d * 3).collect();
    let segs = [segment("_0", 0, num_docs as i32, vec![field("val", 0, DocValuesKind::Numeric)])];
    let inputs = [numeric_input(&values)];
    let plans = lucene_arrow::engine::plan_segment(&segs[0], &inputs[0]).unwrap();

    let mut r = request();
    r.columns = Some(vec!["_doc".into(), "_live".into(), "val".into()]);
    let read = resolve(&r, &segs, &inputs, GpuSupport::NotBuilt).unwrap();
    let b = segment_batches(&read, &segs[0], &plans, &inputs[0], &live, 0).unwrap();
    assert!(b.keep.is_none());
    assert_eq!(b.ranges, [(0, num_docs)]);
    for d in 0..num_docs {
        assert!(matches!(&b.columns[1], ColumnData::Boolean(v) if v[d] == !deleted(d)));
        assert!(matches!(&b.columns[2], ColumnData::Numeric(c) if c.values[d] == d as i64 * 3));
    }

    r.row_mode = "compact".into();
    r.batch_rows = Some(1000);
    let read = resolve(&r, &segs, &inputs, GpuSupport::NotBuilt).unwrap();
    assert_eq!(read.config.columns, ["_doc", "val"]);
    let b = segment_batches(&read, &segs[0], &plans, &inputs[0], &live, 0).unwrap();
    let live_count = (0..num_docs).filter(|d| !deleted(*d)).count();
    assert_eq!(b.keep.as_ref().unwrap(), &live_mask(&live, num_docs));
    assert_eq!(b.keep.unwrap().iter().filter(|k| **k).count(), live_count);
    assert_eq!(b.ranges, [(0, 1000), (1000, live_count - 1000)]);
}

#[test]
fn batches_cover_every_row_once() {
    assert_eq!(cut_batches(0, 5), []);
    assert_eq!(cut_batches(5, 5), [(0, 5)]);
    assert_eq!(cut_batches(11, 5), [(0, 5), (5, 5), (10, 1)]);
    assert_eq!(cut_batches(2, 0), [(0, 1), (1, 1)]);
    assert_eq!(cut_batches(3, u64::MAX), [(0, 3)]);
}

fn column(data_type: DataType, md: &[(&str, &str)]) -> ColumnSchema {
    let mut metadata = Attributes::new();
    for (k, v) in md {
        metadata.insert(k.to_string(), v.to_string());
    }
    ColumnSchema { name: "c".into(), data_type, printed_type: "t".into(), metadata }
}

#[test]
fn lossy_columns_must_be_asked_for() {
    let u = classify(&column(DataType::UInt64, &[]), false).unwrap_err();
    assert!(matches!(&u, Error::InvalidArgument(m) if m.contains("allow_lossy")));
    assert_eq!(
        classify(&column(DataType::UInt64, &[("lucene.allow_lossy", "true")]), false).unwrap(),
        NumericCoercion::U64Lossy
    );
    assert!(classify(&column(DataType::UInt64, &[("lucene.allow_lossy", "yes")]), false).is_err());
    let d = classify(&column(DataType::Decimal128(10, 2), &[]), false).unwrap_err();
    assert!(matches!(d, Error::InvalidArgument(_)));
    assert_eq!(
        classify(&column(DataType::Decimal128(10, 2), &[("lucene.scale_factor", "100")]), false).unwrap(),
        NumericCoercion::DecimalScaled { factor: 100, scale: 2 }
    );
    assert!(matches!(classify(&column(DataType::Float16, &[]), false), Err(Error::Unsupported(_))));
    assert!(matches!(
        classify(&column(DataType::List(Box::new(DataType::Float64)), &[]), false),
        Err(Error::Unsupported(_))
    ));
    let v = DataType::FixedSizeList(Box::new(DataType::Float32), 8);
    assert!(matches!(classify(&column(v.duplicate(), &[]), false), Err(Error::InvalidArgument(_))));
    assert_eq!(
        classify(&column(v.duplicate(), &[("lucene.vector.similarity", "cosine")]), true).unwrap(),
        NumericCoercion::VectorF32 { dim: 8, similarity: 2 }
    );
    assert!(classify(&column(v, &[("lucene.vector.similarity", "taxicab")]), true).is_err());
}

#[test]
fn integers_are_spelled_as_in_rust() {
    for s in ["0", "-0", "+7", "007", "9223372036854775807", "-9223372036854775808", "", "-", "+", "1 ", "1e3",
        "9223372036854775808", "-9223372036854775809", "99999999999999999999999"] {
        assert_eq!(parse_i64(s), s.parse::<i64>().ok(), "{s:?}");
    }
}

fn appended(data_type: DataType, cells: Cells, c: NumericCoercion) -> (Vec<u32>, Vec<i64>) {
    let mut b = ColBuffer::for_coercion(&c);
    assert!(in_range(&c, &cells));
    append_column(&Column { name: "c".into(), data_type, cells }, &c, 10, &mut b).unwrap();
    match b {
        ColBuffer::Numeric { docs, values } => (docs, values),
        other => panic!("{other:?}"),
    }
}

#[test]
fn numbers_are_converted_without_loss() {
    let none = |v: Vec<i64>| (vec![10, 12], v);
    assert_eq!(
        appended(DataType::Int8, Cells::I8(vec![Some(-3), None, Some(7)]), NumericCoercion::Widen),
        none(vec![-3, 7])
    );
    assert_eq!(
        appended(DataType::Boolean, Cells::Bool(vec![Some(true), None, Some(false)]), NumericCoercion::Widen),
        none(vec![1, 0])
    );
    assert_eq!(
        appended(DataType::UInt32, Cells::U32(vec![Some(u32::MAX), None, Some(0)]), NumericCoercion::Widen),
        none(vec![u32::MAX as i64, 0])
    );
    assert_eq!(
        appended(DataType::UInt64, Cells::U64(vec![Some(u64::MAX), None, Some(1)]), NumericCoercion::U64Lossy),
        none(vec![-1, 1])
    );
    assert_eq!(
        appended(DataType::Date32, Cells::I32(vec![Some(-5), None, Some(5)]), NumericCoercion::TemporalI64),
        none(vec![-5, 5])
    );
    let x = 1.5f64;
    assert_eq!(
        appended(
            DataType::Float64,
            Cells::F64(vec![Some(x.to_bits()), None, Some((-0.0f64).to_bits())]),
            NumericCoercion::FloatBits
        ),
        none(vec![x.to_bits() as i64, i64::MIN])
    );
    let y = -2.25f32;
    assert_eq!(
        appended(
            DataType::Float32,
            Cells::F32(vec![Some(y.to_bits()), None, Some(0)]),
            NumericCoercion::Float32Bits
        ),
        none(vec![(y as f64).to_bits() as i64, 0])
    );
    let c = NumericCoercion::DecimalScaled { factor: 10, scale: 2 };
    // 0.25 and -0.25, in tenths: half away from zero.
    assert_eq!(
        appended(DataType::Decimal128(10, 2), Cells::Decimal(vec![Some(25), None, Some(-25)]), c),
        none(vec![3, -3])
    );
    let c = NumericCoercion::DecimalScaled { factor: 100, scale: 2 };
    assert_eq!(
        appended(DataType::Decimal128(10, 2), Cells::Decimal(vec![Some(12325), None, Some(-1)]), c),
        none(vec![12325, -1])
    );
    assert!(!in_range(&c, &Cells::Decimal(vec![Some(i128::MAX)])));
    // The lowest values whose rounding stays in range.
    let c = NumericCoercion::DecimalScaled { factor: 1, scale: 2 };
    assert_eq!(
        appended(DataType::Decimal128(38, 2), Cells::Decimal(vec![Some(i128::MIN + 50), None, Some(-150)]), c),
        none(vec![(i128::MIN / 100) as i64, -2])
    );
    assert!(!in_range(&c, &Cells::Decimal(vec![Some(i128::MIN + 49)])));
    let c = NumericCoercion::DecimalScaled { factor: 1, scale: 0 };
    assert_eq!(
        appended(DataType::Decimal128(38, 0), Cells::Decimal(vec![Some(i128::MIN), None, Some(i64::MIN as i128)]), c),
        none(vec![i128::MIN as i64, i64::MIN])
    );
    assert!(!in_range(
        &NumericCoercion::DecimalScaled { factor: 1, scale: -1 },
        &Cells::Decimal(vec![Some(1)])
    ));
    assert!(!in_range(
        &NumericCoercion::SortedDict,
        &Cells::Dict { keys: vec![Some(1)], values: vec![b"a".to_vec()] }
    ));
}

#[test]
fn columns_that_do_not_fit_are_refused() {
    let mut b = ColBuffer::for_coercion(&NumericCoercion::Passthrough);
    let text = Column { name: "c".into(), data_type: DataType::Utf8, cells: Cells::Text(vec![None]) };
    assert!(matches!(
        append_column(&text, &NumericCoercion::Passthrough, 0, &mut b),
        Err(Error::InvalidArgument(_))
    ));
    let time = Column {
        name: "c".into(),
        data_type: DataType::Time32(TimeUnit::Nanosecond),
        cells: Cells::I32(vec![Some(1)]),
    };
    assert!(matches!(
        append_column(&time, &NumericCoercion::TemporalI64, 0, &mut b),
        Err(Error::Unsupported(_))
    ));
    let mut t = ColBuffer::for_coercion(&NumericCoercion::SortedDict);
    let dict = Column {
        name: "c".into(),
        data_type: DataType::Dictionary(Box::new(DataType::Int32), Box::new(DataType::Utf8)),
        cells: Cells::Dict {
            keys: vec![Some(1), None, Some(0)],
            values: vec![b"x".to_vec(), b"y".to_vec()],
        },
    };
    append_column(&dict, &NumericCoercion::SortedDict, 5, &mut t).unwrap();
    assert!(matches!(&t, ColBuffer::Sorted { docs, terms }
        if *docs == [5, 7] && *terms == [b"y".to_vec(), b"x".to_vec()]));
    t.clear();
    assert!(matches!(&t, ColBuffer::Sorted { docs, terms } if docs.is_empty() && terms.is_empty()));
}

fn job() -> WriteJob {
    WriteJob {
        output_dir: "out".into(),
        codec: "Lucene103".into(),
        segment_max_docs: None,
        segment_max_bytes: None,
        index_sort: None,
        coercion: None,
        compound: None,
        executor: None,
        frame_version: 1,
    }
}

#[test]
fn jobs_are_refused_before_the_first_row() {
    let ints = [column(DataType::Int64, &[])];
    let shorts = [column(DataType::Int16, &[])];
    let start = |j: &WriteJob, s: &[ColumnSchema], occupied: bool| {
        WriteSession::new(j, s, occupied, false, GpuSupport::NotBuilt)
    };
    assert!(start(&job(), &ints, false).is_ok());
    assert!(matches!(start(&job(), &ints, true), Err(Error::InvalidArgument(_))));
    assert!(matches!(start(&job(), &[], false), Err(Error::InvalidArgument(_))));
    let mut j = job();
    j.codec = "Lucene99".into();
    assert!(matches!(start(&j, &ints, false), Err(Error::Unsupported(_))));
    assert!(matches!(check_codec(&j), Err(Error::Unsupported(_))));
    let mut j = job();
    j.coercion = Some("strict".into());
    assert!(start(&j, &ints, false).is_ok());
    assert!(matches!(start(&j, &shorts, false), Err(Error::InvalidArgument(_))));
    j.coercion = Some("auto".into());
    assert!(start(&j, &shorts, false).is_ok());
    j.executor = Some("gpu".into());
    assert!(matches!(start(&j, &shorts, false), Err(Error::Unsupported(_))));
}

#[test]
fn sessions_cut_between_batches() {
    let mut j = job();
    j.segment_max_docs = Some(0);
    let mut s = WriteSession::new(&j, &[column(DataType::Int64, &[])], false, false, GpuSupport::NotBuilt).unwrap();
    assert!(!s.is_full());
    let batch = |n: u32| Batch {
        columns: vec![Column {
            name: "c".into(),
            data_type: DataType::Int64,
            cells: Cells::I64((0..n as i64).map(Some).collect()),
        }],
        rows: n,
    };
    let (flushed, outcome) = s.push(&CpuEncoder, ID, Vec::new(), &batch(3)).unwrap();
    assert!(flushed.is_none() && outcome.is_ok());
    assert!(s.is_full());
    assert_eq!(s.docs_in_segment(), 3);
    let (flushed, outcome) = s.push(&CpuEncoder, ID, Vec::new(), &batch(2)).unwrap();
    let f = flushed.unwrap();
    assert!(outcome.is_ok());
    assert_eq!(f.manifest.name, "_0");
    assert_eq!(f.manifest.max_doc, 3);
    assert_eq!(f.files.len(), 7);
    assert_eq!(s.docs_in_segment(), 2);
    let lacking = Batch { columns: Vec::new(), rows: 1 };
    let (flushed, outcome) = s.push(&CpuEncoder, ID, Vec::new(), &lacking).unwrap();
    assert_eq!(flushed.unwrap().manifest.name, "_1");
    assert!(matches!(outcome, Err(Error::InvalidArgument(_))));

    let idle = WriteSession::new(&job(), &[column(DataType::Int64, &[])], false, false, GpuSupport::NotBuilt).unwrap();
    assert!(matches!(idle.finish(), Err(Error::InvalidArgument(_))));
}

/// Six batches of 1000 rows with a limit of 2500: a batch is whole in one
/// segment, and the segments hold all rows.
#[test]
fn segments_hold_whole_batches() {
    let mut j = job();
    j.segment_max_docs = Some(2500);
    let mut s = WriteSession::new(&j, &[column(DataType::Int64, &[])], false, false, GpuSupport::NotBuilt).unwrap();
    let mut cuts = Vec::new();
    for b in 0..6i64 {
        let batch = Batch {
            columns: vec![Column {
                name: "c".into(),
                data_type: DataType::Int64,
                cells: Cells::I64((b * 1000..b * 1000 + 1000).map(Some).collect()),
            }],
            rows: 1000,
        };
        assert!(s.accepts(&batch));
        let (flushed, outcome) = s.push(&CpuEncoder, ID, Vec::new(), &batch).unwrap();
        outcome.unwrap();
        if let Some(f) = flushed {
            cuts.push((b, f.manifest.max_doc));
        }
    }
    assert_eq!(cuts, [(3, 3000)]);
    assert_eq!(s.docs_in_segment(), 3000);
    s.flush_segment(&CpuEncoder, ID, Vec::new()).unwrap().unwrap();
    let sizes: Vec<u32> = s.finish().unwrap().iter().map(|w| w.num_docs).collect();
    assert_eq!(sizes, [3000, 3000]);
}

#[test]
fn single_precision_widens_exactly() {
    for bits in [0u32, 0x8000_0000, 1, 0x007F_FFFF, 0x0080_0000, 0x3F80_0000, 0x7F7F_FFFF, 0x7F80_0000, 0xFF80_0000,
        0x8000_0003, 0xC049_0FDB, 0x7FC0_0000]
    {
        let expected = f32::from_bits(bits) as f64;
        assert_eq!(widen(bits), expected.to_bits(), "{bits:#x}");
    }
    assert!(f64::from_bits(widen(0x7F80_0001)).is_nan());
    let mut x = 1u32;
    for _ in 0..5000 {
        x = x.wrapping_mul(1_664_525).wrapping_add(1_013_904_223);
        let f = f32::from_bits(x);
        if !f.is_nan() {
            assert_eq!(widen(x), (f as f64).to_bits(), "{x:#x}");
        }
    }
}

#[test]
fn slopes_are_those_of_floating_point() {
    let mut x = 7u64;
    for _ in 0..5000 {
        x = x.wrapping_mul(6_364_136_223_846_793_005).wrapping_add(1_442_695_040_888_963_407);
        let diff = (x >> (x % 60)) as i64;
        let steps = (x >> 40) % 100_000 + 1;
        let avg = (diff as f64 / steps as f64) as f32;
        assert_eq!(average(diff, steps), avg.to_bits(), "{diff} / {steps}");
        let i = x % 70_000;
        assert_eq!(product(avg.to_bits(), i), (avg * i as f32) as i64, "{avg} * {i}");
    }
}

#[test]
fn hydration_types_columns_by_their_first_value() {
    let seg = segment("_0", 0, 10, vec![field("t", 0, DocValuesKind::Absent), field("n", 1, DocValuesKind::Absent)]);
    let segs = [seg];
    let mut request = HydrateRequest {
        path: "/x".into(),
        pairs: vec![(0, 1), (0, 2), (0, 3)],
        columns: vec!["n".into()],
    };
    let rows = vec![
        vec![(0, StoredVal::Str("a".into()))],
        vec![(1, StoredVal::I64(1)), (1, StoredVal::I64(2))],
        vec![(7, StoredVal::Bytes(vec![1]))],
    ];
    let b = hydrate(&request, &segs, &rows).unwrap();
    assert!(matches!(&b.columns[0].values, StoredColumn::I64(v) if *v == [None, Some(2), None]));
    assert!(b.columns[0].nullable);

    let mixed = vec![
        vec![(1, StoredVal::F64(0))],
        vec![(1, StoredVal::I64(1))],
        vec![],
    ];
    assert!(matches!(hydrate(&request, &segs, &mixed), Err(Error::InvalidArgument(_))));
    request.columns = vec!["_doc".into()];
    assert!(matches!(hydrate(&request, &segs, &rows), Err(Error::Arrow(_))));
    request.columns = vec![];
    request.pairs[2].0 = 4;
    assert!(matches!(hydrate(&request, &segs, &rows), Err(Error::InvalidArgument(_))));
    assert_eq!(
        group_pairs(&vec![(3, 0), (1, 5), (3, 2), (1, 1)]),
        [(1, vec![1, 3]), (3, vec![0, 2])]
    );
}

#[test]
fn postings_are_cut_into_batches() {
    let mut f = field("body", 2, DocValuesKind::Absent);
    f.indexed = true;
    f.index_options = 3;
    let seg = segment("_0", 0, 9, vec![f, field("id", 0, DocValuesKind::Numeric)]);
    let t = field_traits(postings_field(&seg, "body").unwrap());
    assert!(t.has_freqs && t.has_positions && !t.has_offsets);
    assert!(matches!(postings_field(&seg, "id"), Err(Error::InvalidArgument(_))));
    assert!(matches!(postings_field(&seg, "nope"), Err(Error::InvalidArgument(_))));

    let mut p = Postings {
        terms: vec![b"a".to_vec(), b"b".to_vec()],
        term_ords: vec![0, 0, 1],
        docs: vec![1, 4, 1],
        freqs: vec![2, 1, 7],
    };
    let b = postings_batches(&p, 2).unwrap();
    assert_eq!(b.len(), 2);
    assert_eq!(b[0].keys, [0, 0]);
    assert_eq!(b[0].docs, [1, 4]);
    assert_eq!(b[1].keys, [1]);
    assert_eq!(b[1].freqs, [7]);
    p.term_ords[2] = 2;
    assert!(matches!(postings_batches(&p, 2), Err(Error::Codec(_))));

    let mut r = request();
    assert!(postings_request(&r).unwrap().is_none());
    r.relation = Some("postings".into());
    assert!(matches!(postings_request(&r), Err(Error::InvalidArgument(_))));
    r.postings_field = Some("body".into());
    assert_eq!(postings_request(&r).unwrap(), Some((&"body".to_string(), 1 << 20)));
}

#[test]
fn errors_become_statuses() {
    assert_eq!(status_of(&Error::invalid("x")), StatusCode::InvalidArgument);
    assert_eq!(status_of(&Error::unsupported("x")), StatusCode::Unimplemented);
    assert_eq!(status_of(&Error::corrupt("x")), StatusCode::Internal);
    assert_eq!(status_of(&Error::Codec("x".into())), StatusCode::Internal);
    assert_eq!(ServiceAction::parse("hydrate").unwrap(), ServiceAction::Hydrate);
    assert_eq!(ServiceAction::parse("stats").unwrap().as_str(), "stats");
    assert!(matches!(ServiceAction::parse("drop"), Err(Error::Unsupported(_))));
}
