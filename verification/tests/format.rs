//! Framing, packing and the small codecs of the file format.

use lucene_arrow::consts;
use lucene_arrow::cursor::{
    read_index_header, verify_footer, write_footer, write_index_header, write_string, write_vint, write_vlong, Cursor,
};
use lucene_arrow::direct::{
    for_each_unpacked, pack, packed_len, unpack, unsigned_bits_required, SUPPORTED_BITS_PER_VALUE,
};
use lucene_arrow::disi;
use lucene_arrow::disi::DEFAULT_DENSE_RANK_POWER;
use lucene_arrow::error::Error;
use lucene_arrow::extent::{coalesce, EXTENT_ALIGN, EXTENT_MAX_BYTES};
use lucene_arrow::framing;
use lucene_arrow::framing::{check_index_header, CODEC_MAGIC, FOOTER_LENGTH, FOOTER_MAGIC, ID_LENGTH};
use lucene_arrow::monotonic;
use lucene_arrow::ordmap::build;
use lucene_arrow::plan::FieldId;
use lucene_arrow::source::{BufferTarget, ByteRange, BytesRange};
use lucene_arrow::stats::gcd_compute;
use lucene_arrow::terms::TermsDict;
use lucene_arrow::write::encode_numeric_field;

const ID: [u8; ID_LENGTH] = *b"0123456789abcdef";

/// Builds a framed file: header, payload, footer.
fn frame(codec: &str, version: i32, suffix: &str, payload: &[u8]) -> Vec<u8> {
    let mut out = Vec::new();
    out.extend_from_slice(&CODEC_MAGIC.to_be_bytes());
    assert!(codec.len() < 0x80);
    out.push(codec.len() as u8);
    out.extend_from_slice(codec.as_bytes());
    out.extend_from_slice(&version.to_be_bytes());
    out.extend_from_slice(&ID);
    out.push(suffix.len() as u8);
    out.extend_from_slice(suffix.as_bytes());
    out.extend_from_slice(payload);
    out.extend_from_slice(&FOOTER_MAGIC.to_be_bytes());
    out.extend_from_slice(&0i32.to_be_bytes());
    let mut hasher = crc32fast::Hasher::new();
    hasher.update(&out);
    out.extend_from_slice(&u64::from(hasher.finalize()).to_be_bytes());
    out
}

#[test]
fn framing_header_and_footer_round_trip() {
    let bytes = frame("TestCodec", 3, "sfx", b"payload");
    let header_len = check_index_header(&bytes, "TestCodec", 0, 3, &ID, "sfx").unwrap();
    // Magic, name with its length, version, identifier, suffix with its length.
    assert_eq!(header_len, 4 + 10 + 4 + ID_LENGTH + 4);
    assert_eq!(&bytes[header_len..header_len + 7], b"payload");
    framing::verify_footer(&bytes).unwrap();
}

#[test]
fn header_mismatches_are_corrupt() {
    let bytes = frame("TestCodec", 3, "", b"");
    let is_corrupt = |r: Result<usize, Error>| matches!(r, Err(Error::Corrupt(_)));
    assert!(is_corrupt(check_index_header(&bytes, "Other", 0, 3, &ID, "")));
    assert!(is_corrupt(check_index_header(&bytes, "TestCodec", 4, 9, &ID, "")));
    assert!(is_corrupt(check_index_header(&bytes, "TestCodec", 0, 3, &[0u8; ID_LENGTH], "")));
    assert!(is_corrupt(check_index_header(&bytes, "TestCodec", 0, 3, &ID, "x")));
    let mut bad_magic = bytes.clone();
    bad_magic[0] ^= 0xFF;
    assert!(is_corrupt(check_index_header(&bad_magic, "TestCodec", 0, 3, &ID, "")));
}

#[test]
fn footer_detects_corruption() {
    let mut bytes = frame("TestCodec", 0, "", b"data data data");
    framing::verify_footer(&bytes).unwrap();

    // Flip one payload bit: the checksum must fail.
    let payload_at = bytes.len() - FOOTER_LENGTH - 3;
    bytes[payload_at] ^= 0x01;
    assert!(framing::verify_footer(&bytes).is_err());
    bytes[payload_at] ^= 0x01;

    // Corrupt the footer magic.
    let magic_at = bytes.len() - FOOTER_LENGTH;
    bytes[magic_at] ^= 0xFF;
    assert!(framing::verify_footer(&bytes).is_err());
    bytes[magic_at] ^= 0xFF;

    // Stored checksum with high bits set.
    let hi_at = bytes.len() - 8;
    bytes[hi_at] = 0x01;
    assert!(framing::verify_footer(&bytes).is_err());

    assert!(framing::verify_footer(&bytes[..FOOTER_LENGTH - 1]).is_err());
}

#[test]
fn cursor_header_and_footer_round_trip() {
    let id = *b"0123456789abcdef";
    let mut file = Vec::new();
    write_index_header(&mut file, "TestCodec", 2, &id, "sfx");
    file.extend_from_slice(b"payload");
    write_footer(&mut file);

    let header = read_index_header(&file, "TestCodec", 0, 3).unwrap();
    assert_eq!(header.version, 2);
    assert_eq!(header.segment_id, id);
    assert_eq!(header.suffix, "sfx");
    assert_eq!(&file[header.length..header.length + 7], b"payload");
    verify_footer(&file).unwrap();

    let mut corrupted = file.clone();
    let n = corrupted.len();
    corrupted[n - 20] ^= 1;
    assert!(verify_footer(&corrupted).is_err());

    assert!(read_index_header(&file, "OtherCodec", 0, 3).is_err());
    assert!(read_index_header(&file, "TestCodec", 3, 3).is_err());
}

#[test]
fn vint_matches_lucene_layout() {
    let mut out = Vec::new();
    write_vint(&mut out, 300);
    assert_eq!(out, vec![0xAC, 0x02]);
    let mut c = Cursor::new(&out);
    assert_eq!(c.vint().unwrap(), 300);
}

#[test]
fn written_footer_carries_the_crc32() {
    let mut file = b"some bytes".to_vec();
    write_footer(&mut file);
    let covered = file.len() - 8;
    let expected = u64::from(crc32fast::hash(&file[..covered]));
    let stored = u64::from_be_bytes(file[covered..].try_into().unwrap());
    assert_eq!(stored, expected);
    assert_ne!(stored, 0);
}

#[test]
fn variable_length_integers_come_back() {
    for v in [0u64, 1, 127, 128, 16_383, 16_384, 0xFFFF_FFFF, 1 << 62] {
        let mut out = Vec::new();
        write_vlong(&mut out, v);
        let mut c = Cursor::new(&out);
        assert_eq!(c.vlong().unwrap(), v as i64);
        assert_eq!(c.remaining(), 0);
    }
    // A continuation bit on the last byte there is.
    assert!(matches!(Cursor::new(&[0x80]).vint(), Err(Error::Corrupt(_))));
}

#[test]
fn strings_come_back() {
    let mut out = Vec::new();
    write_string(&mut out, "grüße");
    assert_eq!(out[0] as usize, "grüße".len());
    assert_eq!(Cursor::new(&out).string().unwrap(), "grüße");
    // Bytes that are no UTF-8.
    assert!(matches!(Cursor::new(&[2, 0xFF, 0xFE]).string(), Err(Error::Corrupt(_))));
}

#[test]
fn cursor_reads_fixed_widths() {
    let bytes = [1u8, 2, 3, 4, 5, 6, 7, 8, 9];
    let mut c = Cursor::at(&bytes, 1);
    assert_eq!(c.le_i16().unwrap(), 0x0302);
    assert_eq!(c.be_i32().unwrap(), 0x0405_0607);
    c.seek(0).unwrap();
    assert_eq!(c.le_i64().unwrap(), 0x0807_0605_0403_0201);
    assert_eq!(c.u8().unwrap(), 9);
    assert!(matches!(c.u8(), Err(Error::Corrupt(_))));
    assert!(c.seek(10).is_err());
}

#[test]
fn coalesces_adjacent_and_respects_cap() {
    let col = FieldId::new(1, "f");
    // Three ranges: the first two close together, the third far away.
    let ranges = [(8192, 4096), (13312, 4096), (10_000_000, 4096)];
    let ext = coalesce("_0.dvd", 0, &col, &ranges, 64 * 1024, EXTENT_MAX_BYTES);
    assert_eq!(ext.len(), 2);
    assert_eq!(ext[0].offset, 8192);
    assert_eq!(ext[0].end(), 17408);
    assert_eq!(ext[1].offset % EXTENT_ALIGN, 0);
    assert!(ext[1].offset <= 10_000_000 && ext[1].end() >= 10_004_096);
}

#[test]
fn splits_when_over_max_bytes() {
    let col = FieldId::new(1, "f");
    let ranges = [(0, 32 * 1024 * 1024), (32 * 1024 * 1024, 48 * 1024 * 1024)];
    let ext = coalesce("_0.dvd", 0, &col, &ranges, 0, EXTENT_MAX_BYTES);
    assert_eq!(ext.len(), 2, "a merged extent would exceed the cap");
}

#[test]
fn bits_required_rounds_to_supported() {
    assert_eq!(unsigned_bits_required(0), 1);
    assert_eq!(unsigned_bits_required(1), 1);
    assert_eq!(unsigned_bits_required(2), 2);
    assert_eq!(unsigned_bits_required(255), 8);
    assert_eq!(unsigned_bits_required(256), 12);
    assert_eq!(unsigned_bits_required(1 << 20), 24);
    assert_eq!(unsigned_bits_required(-1), 64);
}

#[test]
fn pack_unpack_round_trips_every_width() {
    for &bpv in &SUPPORTED_BITS_PER_VALUE {
        for count in [1usize, 2, 3, 5, 16, 17, 64, 129] {
            let mask = if bpv == 64 { u64::MAX } else { (1u64 << bpv) - 1 };
            let values: Vec<i64> = (0..count)
                .map(|i| ((i as u64).wrapping_mul(0x9E37_79B9_7F4A_7C15) & mask) as i64)
                .collect();
            let mut packed = Vec::new();
            pack(&values, bpv, &mut packed);
            assert_eq!(packed.len(), packed_len(count, bpv), "len bpv={bpv} count={count}");
            let unpacked = unpack(&packed, bpv, count).unwrap();
            let expected: Vec<u64> = values.iter().map(|&v| v as u64).collect();
            assert_eq!(unpacked, expected, "bpv={bpv} count={count}");
            let mut streamed = Vec::new();
            for_each_unpacked(&packed, bpv, count as u64, &mut streamed).unwrap();
            assert_eq!(streamed, expected);
        }
    }
}

#[test]
fn unpack_rejects_truncated_input() {
    let mut packed = Vec::new();
    pack(&[1, 2, 3, 4], 12, &mut packed);
    assert!(unpack(&packed[..packed.len() - 3], 12, 4).is_err());
}

fn disi_round_trip(doc_ids: &[u32], max_doc: u32) {
    let mut out = Vec::new();
    disi::write_bit_set(doc_ids, &mut out).unwrap();
    let bitmap = disi::decode(&out, doc_ids.len() as u64, max_doc, DEFAULT_DENSE_RANK_POWER).unwrap();
    let mut decoded = Vec::new();
    for (w, &word) in bitmap.iter().enumerate() {
        let mut bits = word;
        while bits != 0 {
            decoded.push(w as u32 * 64 + bits.trailing_zeros());
            bits &= bits - 1;
        }
    }
    assert_eq!(decoded, doc_ids);
}

#[test]
fn sparse_block() {
    disi_round_trip(&[3, 700, 4095, 65535], 70000);
}

#[test]
fn dense_block() {
    let docs: Vec<u32> = (0..20000).map(|i| i * 3).collect();
    disi_round_trip(&docs, 65536);
}

#[test]
fn all_block_plus_sparse_block() {
    let mut docs: Vec<u32> = (0..65536).collect();
    docs.extend([65536 + 10, 65536 + 99]);
    disi_round_trip(&docs, 140000);
}

#[test]
fn skips_empty_blocks() {
    disi_round_trip(&[5, 262144 + 7], 262200);
}

#[test]
fn disi_rejects_truncated_blocks() {
    let mut out = Vec::new();
    disi::write_bit_set(&[3, 700, 4095], &mut out).unwrap();
    assert!(matches!(
        disi::decode(&out[..out.len() / 2], 3, 70000, DEFAULT_DENSE_RANK_POWER),
        Err(Error::Corrupt(_))
    ));
}

#[test]
fn round_trips_ord_to_doc_shapes() {
    for values in [
        (0..100_000i64)
            .map(|i| i * 3 + (i % 17) * 17)
            .scan(0, |acc, v| {
                *acc = v.max(*acc);
                Some(*acc)
            })
            .collect::<Vec<_>>(),
        vec![5; 1000],
        (0..70_000i64).collect::<Vec<_>>(),
    ] {
        let mut meta = Vec::new();
        let mut data = Vec::new();
        monotonic::write(&values, 16, &mut meta, &mut data).unwrap();
        let mut c = Cursor::new(&meta);
        let blocks = monotonic::read_meta(&mut c, values.len() as u64, 16).unwrap();
        assert_eq!(c.remaining(), 0);
        let decoded = monotonic::decode(&blocks, &data, values.len() as u64, 16).unwrap();
        assert_eq!(decoded, values);
    }
}

#[test]
fn monotonic_rejects_falling_values() {
    let (mut meta, mut data) = (Vec::new(), Vec::new());
    assert!(matches!(
        monotonic::write(&[3, 2], 16, &mut meta, &mut data),
        Err(Error::InvalidArgument(_))
    ));
    assert!(meta.is_empty() && data.is_empty());
}

fn dict(terms: &[&str]) -> TermsDict {
    let mut d = TermsDict { bytes: Vec::new(), offsets: vec![0] };
    for t in terms {
        d.bytes.extend_from_slice(t.as_bytes());
        d.offsets.push(d.bytes.len() as i32);
    }
    d
}

#[test]
fn merges_with_duplicates() {
    let a = dict(&["ant", "bee", "cat"]);
    let b = dict(&["bee", "dog"]);
    let c = dict(&["ant", "dog", "emu"]);
    let map = build(&[&a, &b, &c]).unwrap();

    let globals: Vec<&[u8]> = (0..map.values.len()).map(|i| map.values.term(i)).collect();
    assert_eq!(globals, [b"ant" as &[u8], b"bee", b"cat", b"dog", b"emu"]);
    assert_eq!(map.remap[0], vec![0, 1, 2]);
    assert_eq!(map.remap[1], vec![1, 3]);
    assert_eq!(map.remap[2], vec![0, 3, 4]);
}

#[test]
fn empty_and_single_segment() {
    let a = dict(&[]);
    let b = dict(&["x"]);
    let map = build(&[&a, &b]).unwrap();
    assert_eq!(map.values.len(), 1);
    assert!(map.remap[0].is_empty());
    assert_eq!(map.remap[1], vec![0]);
}

#[test]
fn gcd_matches_java_mathutil() {
    assert_eq!(gcd_compute(0, 7), 7);
    assert_eq!(gcd_compute(12, 18), 6);
    assert_eq!(gcd_compute(-25, 100), 25);
    assert_eq!(gcd_compute(1, 999), 1);
}

#[test]
fn rejects_unsorted_docs() {
    assert!(encode_numeric_field(0, &[3, 1], &[10, 20], 10, 0).is_err());
}

#[test]
fn byte_range_reads_and_bounds() {
    let range = BytesRange { bytes: b"0123456789" };
    assert_eq!(range.len(), 10);
    assert!(!range.is_empty());
    let mut buf = [0u8; 4];
    range.read_into(3, 4, BufferTarget::Host(&mut buf)).unwrap();
    assert_eq!(&buf, b"3456");
    assert_eq!(range.slice(3, 4).unwrap(), b"3456");
    assert!(range.slice(9, 2).is_none());
    assert!(matches!(range.read_into(8, 4, BufferTarget::Host(&mut buf)), Err(Error::Corrupt(_))));
    assert!(matches!(range.read_into(u64::MAX, 4, BufferTarget::Host(&mut buf)), Err(Error::InvalidArgument(_))));
    assert!(matches!(range.read_into(0, 5, BufferTarget::Host(&mut buf)), Err(Error::InvalidArgument(_))));
    assert!(matches!(
        range.read_into(0, 4, BufferTarget::Device { ptr: 0, capacity: 8 }),
        Err(Error::Unsupported(_))
    ));
}

#[test]
fn codec_names_are_lucenes() {
    assert_eq!(consts::META_CODEC, "Lucene90DocValuesMetadata");
    assert_eq!(consts::DATA_CODEC, "Lucene90DocValuesData");
    assert_eq!(consts::NUMERIC_BLOCK_SIZE, 16384);
}
