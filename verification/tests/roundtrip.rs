//! Encode, plan, decode: values come back as they were.

use lucene_arrow::column::{decode_numeric, NumericColumn};
use lucene_arrow::consts;
use lucene_arrow::cursor::{write_footer, write_index_header};
use lucene_arrow::direct;
use lucene_arrow::file::DocValuesFileBuilder;
use lucene_arrow::plan::{BlockDecode, Coverage, DecodePlan, FieldId, PLAN_VERSION};
use lucene_arrow::read::{plan_doc_values, DvField, DvKind};
use lucene_arrow::schema::DataType;
use lucene_arrow::write::{encode_numeric_field_dense_chunks, encode_numeric_field_with, CpuEncoder};

const SEG_ID: [u8; 16] = *b"segmentid0123456";

fn field(number: i32) -> DvField {
    DvField { number, name: format!("f{number}"), kind: DvKind::Numeric, has_skip_index: false }
}

fn is_valid(c: &NumericColumn, d: usize) -> bool {
    match &c.validity {
        Some(w) => w[d / 64] >> (d % 64) & 1 == 1,
        None => true,
    }
}

/// Encode one numeric field, plan it back, decode it, compare per document.
fn round_trip(per_doc: &[Option<i64>]) {
    let max_doc = per_doc.len() as u32;
    let (docs, values): (Vec<u32>, Vec<i64>) = per_doc
        .iter()
        .enumerate()
        .filter_map(|(d, v)| v.map(|v| (d as u32, v)))
        .unzip();

    let mut builder = DocValuesFileBuilder::new(&SEG_ID, "");
    builder.add_numeric(0, &docs, &values, max_doc).unwrap();
    let (dvm, dvd) = builder.finish();

    let plans = plan_doc_values(&dvm, &dvd, &[field(0)], max_doc, "_0.dvd").unwrap();
    assert_eq!(plans.plans.len(), 1, "one numeric field, one plan");
    assert!(plans.skipped.is_empty());

    let column = decode_numeric(&plans.plans[0], &dvd).unwrap();
    assert_eq!(column.values.len(), per_doc.len());
    for (d, expected) in per_doc.iter().enumerate() {
        match expected {
            Some(v) => {
                assert!(is_valid(&column, d), "doc {d} should have a value");
                assert_eq!(column.values[d], *v, "doc {d}");
            }
            None => assert!(!is_valid(&column, d), "doc {d} should be null"),
        }
    }
}

#[test]
fn dense_delta_values() {
    round_trip(&(0..1000).map(|i| Some(1_000_000 + i * 7 + (i % 13))).collect::<Vec<_>>());
}

#[test]
fn dense_gcd_values() {
    round_trip(&(0..500).map(|i| Some(1_700_000_000 + i * 400)).collect::<Vec<_>>());
}

#[test]
fn dense_table_values() {
    let vals = [i64::MIN / 4, 0, i64::MAX / 4];
    round_trip(&(0..300).map(|i| Some(vals[i % 3])).collect::<Vec<_>>());
}

#[test]
fn dense_constant_values() {
    round_trip(&vec![Some(42); 128]);
}

#[test]
fn dense_negative_and_wide_values() {
    round_trip(
        &(0..777)
            .map(|i| Some((i as i64 - 388) * 0x0123_4567_89AB + 5))
            .collect::<Vec<_>>(),
    );
}

#[test]
fn sparse_values_use_validity() {
    round_trip(
        &(0..3000)
            .map(|d| if d % 7 == 0 { Some(d as i64 * 11) } else { None })
            .collect::<Vec<_>>(),
    );
}

#[test]
fn sparse_dense_disi_block() {
    round_trip(
        &(0..70_000)
            .map(|d| if d % 3 != 2 { Some(d as i64) } else { None })
            .collect::<Vec<_>>(),
    );
}

#[test]
fn single_value_column() {
    round_trip(&[Some(-9)]);
}

#[test]
fn all_docs_one_distinct_value_sparse() {
    let mut per_doc = vec![None; 100];
    per_doc[17] = Some(3);
    per_doc[80] = Some(3);
    round_trip(&per_doc);
}

#[test]
fn no_values_at_all() {
    round_trip(&[None, None, None]);
}

#[test]
fn extreme_values() {
    round_trip(&[Some(i64::MIN), Some(i64::MAX), Some(0), Some(-1)]);
}

/// The layout of several blocks, which the encoder never writes, made by
/// hand.
#[test]
fn multi_block_layout_decodes() {
    let block_size = consts::NUMERIC_BLOCK_SIZE as usize;
    let num_docs = (block_size + block_size / 2) as u32;
    let gcd = 10i64;

    let block0: Vec<i64> = (0..block_size as i64).map(|i| 1000 + gcd * (i % 500)).collect();
    let block1 = vec![777i64; block_size / 2];

    let mut dvd = Vec::new();
    write_index_header(&mut dvd, consts::DATA_CODEC, consts::VERSION, &SEG_ID, "");
    let values_offset = dvd.len() as u64;

    let deltas: Vec<i64> = block0.iter().map(|v| (v - 1000) / gcd).collect();
    let bpv = direct::unsigned_bits_required(499);
    let mut packed = Vec::new();
    direct::pack(&deltas, bpv, &mut packed);
    dvd.push(bpv);
    dvd.extend_from_slice(&1000i64.to_le_bytes());
    dvd.extend_from_slice(&(packed.len() as i32).to_le_bytes());
    let block0_payload = dvd.len() as u64;
    dvd.extend_from_slice(&packed);
    dvd.push(0);
    dvd.extend_from_slice(&777i64.to_le_bytes());
    let values_length = dvd.len() as u64 - values_offset;
    write_footer(&mut dvd);

    let mut dvm = Vec::new();
    write_index_header(&mut dvm, consts::META_CODEC, consts::VERSION, &SEG_ID, "");
    dvm.extend_from_slice(&0i32.to_le_bytes());
    dvm.push(consts::TYPE_NUMERIC);
    dvm.extend_from_slice(&(-1i64).to_le_bytes());
    dvm.extend_from_slice(&0i64.to_le_bytes());
    dvm.extend_from_slice(&(-1i16).to_le_bytes());
    dvm.push(0xFF);
    dvm.extend_from_slice(&(num_docs as i64).to_le_bytes());
    dvm.extend_from_slice(&consts::MULTI_BLOCK_TABLE_SIZE.to_le_bytes());
    dvm.push(consts::MULTI_BLOCK_BPV);
    dvm.extend_from_slice(&0i64.to_le_bytes());
    dvm.extend_from_slice(&gcd.to_le_bytes());
    dvm.extend_from_slice(&(values_offset as i64).to_le_bytes());
    dvm.extend_from_slice(&(values_length as i64).to_le_bytes());
    dvm.extend_from_slice(&((values_offset + values_length) as i64).to_le_bytes());
    dvm.extend_from_slice(&(-1i32).to_le_bytes());
    write_footer(&mut dvm);

    let plans = plan_doc_values(&dvm, &dvd, &[field(0)], num_docs, "_0.dvd").unwrap();
    let plan = &plans.plans[0];
    assert_eq!(plan.blocks.len(), 2);
    assert!(matches!(plan.coverage, Coverage::Dense { .. }));
    assert!(matches!(plan.blocks[0], BlockDecode::GcdPacked { offset, gcd: g, values, .. }
        if offset == block0_payload && g == gcd && values == block_size as u64));
    assert!(matches!(plan.blocks[1], BlockDecode::DeltaPacked { bit_width: 0, base: 777, .. }));

    let column = decode_numeric(plan, &dvd).unwrap();
    let expected: Vec<i64> = block0.iter().chain(block1.iter()).copied().collect();
    assert_eq!(column.values, expected);
}

/// Two fields in one file pair, both planned.
#[test]
fn two_fields_one_file() {
    let mut builder = DocValuesFileBuilder::new(&SEG_ID, "");
    builder.add_numeric(0, &[0, 1, 2], &[5, 6, 7], 3).unwrap();
    builder.add_numeric(2, &[1], &[99], 3).unwrap();
    let (dvm, dvd) = builder.finish();

    let fields = [field(0), field(2)];
    let plans = plan_doc_values(&dvm, &dvd, &fields, 3, "_0.dvd").unwrap();
    assert_eq!(plans.plans.len(), 2);
    assert!(matches!(plans.plans[0].coverage, Coverage::Dense { .. }));
    assert!(matches!(plans.plans[1].coverage, Coverage::Sparse { .. }));

    let a0 = decode_numeric(&plans.plans[0], &dvd).unwrap();
    assert_eq!(a0.values, &[5i64, 6, 7]);
    let a1 = decode_numeric(&plans.plans[1], &dvd).unwrap();
    assert!(!is_valid(&a1, 0));
    assert!(is_valid(&a1, 1));
    assert_eq!(a1.values[1], 99);
    assert!(!is_valid(&a1, 2));
}

fn check(values: Vec<i64>, splits: &[usize]) {
    let n = values.len() as u32;
    let docs: Vec<u32> = (0..n).collect();
    let flat = encode_numeric_field_with(&CpuEncoder, 7, &docs, &values, n, 123).unwrap();
    let mut chunks: Vec<&[i64]> = Vec::new();
    let mut at = 0;
    for &sp in splits {
        chunks.push(&values[at..at + sp]);
        at += sp;
    }
    chunks.push(&values[at..]);
    let chunked = encode_numeric_field_dense_chunks(&CpuEncoder, 7, &chunks, n, 123).unwrap();
    assert_eq!(flat.meta, chunked.meta, "metadata mismatch");
    assert_eq!(flat.data, chunked.data, "data mismatch");
}

#[test]
fn chunked_matches_flat_bytes() {
    check((0..10_000).map(|i| 1_000_000 + (i % 4096) * 25).collect(), &[1, 4095, 3000]);
    check(
        (0..5_000).map(|i| (i as i64).wrapping_mul(0x9E37_79B9_7F4A_7C15u64 as i64)).collect(),
        &[1234, 1234],
    );
    check((0..8_192).map(|i| (i % 7) * 1000 - 3000).collect(), &[100, 8000]);
    check(vec![42; 3000], &[1500]);
    check((0..100).map(|i| i * 3).collect(), &[]);
}

#[test]
fn payload_bytes_are_the_sum_of_blocks() {
    let plan = DecodePlan {
        plan_version: PLAN_VERSION,
        column: FieldId::new(3, "price"),
        file: "_0.dvd".into(),
        arrow_type: DataType::Int64,
        blocks: vec![
            BlockDecode::GcdPacked { offset: 64, len: 1024, bit_width: 4, base: 100, gcd: 25, values: 2048 },
            BlockDecode::Direct { offset: 1088, len: 2048, bit_width: 12, values: 2048 },
        ],
        coverage: Coverage::Dense { num_docs: 4096 },
        num_values: 4096,
    };
    assert_eq!(plan.payload_bytes(), 3072);
    assert_eq!(plan.blocks[0].byte_range(), (64, 1024));
    assert_eq!(plan.blocks[1].value_count(), 2048);
}
