//! Stored-fields files of a segment that stores nothing. Lucene opens stored
//! fields unconditionally, so the three files exist all the same.

use vstd::prelude::*;
use vstd::utf8::{encode_utf8, is_ascii_chars_encode_utf8};
use bearing::encoding::lz4::FastHashTable;
use crate::bytes::{le_bytes, le_i32, push_le, push_le_i32};
use crate::cursor::{
    index_header_bytes, law_vint_round_trip, lemma_stands_split, parse_vint, stands_at, varint_bytes, with_footer,
    write_footer, write_index_header, write_vint, write_vlong,
};
use crate::direct::ceil_div;
use crate::lz4::{compress_plain, new_table};
use crate::monotonic::{monotonic_data, monotonic_meta, non_decreasing};

verus! {

pub const DATA_CODEC: &'static str = "Lucene90StoredFieldsFastData";

pub const INDEX_CODEC: &'static str = "Lucene90FieldsIndexIdx";

pub const META_CODEC: &'static str = "Lucene90FieldsIndexMeta";

pub const CHUNK_SIZE: u32 = 81920;

pub const MAX_DOCS_PER_CHUNK: u32 = 1024;

pub const FDX_BLOCK_SHIFT: u32 = 10;

/// How many chunks hold the documents.
pub open spec fn chunk_count(num_docs: nat) -> nat {
    ceil_div(num_docs, MAX_DOCS_PER_CHUNK as nat)
}

/// The first document of chunk `i`; for the chunk past the last, the number
/// of documents.
pub open spec fn chunk_start(num_docs: nat, i: nat) -> nat {
    if MAX_DOCS_PER_CHUNK * i <= num_docs {
        (MAX_DOCS_PER_CHUNK * i) as nat
    } else {
        num_docs
    }
}

/// How many documents chunk `i` holds.
pub open spec fn chunk_docs(num_docs: nat, i: nat) -> nat {
    (chunk_start(num_docs, i + 1) - chunk_start(num_docs, i)) as nat
}

/// `n` zero bytes.
pub open spec fn zeros(n: nat) -> Seq<u8> {
    Seq::new(n, |i: int| 0u8)
}

/// A chunk of documents without fields: its first document, how many there
/// are, with the last chunk marked as cut short, then zero field counts and
/// lengths and an empty compressed buffer.
pub open spec fn chunk_bytes(num_docs: nat, i: nat) -> Seq<u8> {
    let n = chunk_docs(num_docs, i);
    let dirty = if chunk_start(num_docs, i + 1) == num_docs {
        1nat
    } else {
        0nat
    };
    varint_bytes(chunk_start(num_docs, i)) + varint_bytes(4 * n + dirty) + zeros(
        if n == 1 {
            5
        } else {
            7
        },
    )
}

/// The first `n` chunks.
pub open spec fn chunks_bytes(num_docs: nat, n: nat) -> Seq<u8>
    decreases n,
{
    if n == 0 {
        Seq::empty()
    } else {
        chunks_bytes(num_docs, (n - 1) as nat) + chunk_bytes(num_docs, (n - 1) as nat)
    }
}

/// Where the chunks start among the documents, and their number.
pub open spec fn chunk_starts(num_docs: nat) -> Seq<i64> {
    Seq::new(chunk_count(num_docs) + 1, |i: int| chunk_start(num_docs, i as nat) as i64)
}

/// Where the chunks start in the data file, whose header has `head` bytes,
/// and where the last one ends.
pub open spec fn chunk_pointers(num_docs: nat, head: nat) -> Seq<i64> {
    Seq::new(chunk_count(num_docs) + 1, |i: int| (head + chunks_bytes(num_docs, i as nat).len()) as i64)
}

/// The header of one of the files.
pub open spec fn stored_header(codec: Seq<char>, version: i32, segment_id: Seq<u8>) -> Seq<u8> {
    index_header_bytes(encode_utf8(codec), version, segment_id, encode_utf8(""@))
}

/// The data file before its footer.
pub open spec fn fdt_body(num_docs: nat, segment_id: Seq<u8>) -> Seq<u8> {
    stored_header(DATA_CODEC@, 1, segment_id) + chunks_bytes(num_docs, chunk_count(num_docs))
}

/// The index of the chunks: first documents, then file pointers.
pub open spec fn fdx_starts(num_docs: nat) -> Seq<u8> {
    monotonic_data(chunk_starts(num_docs), FDX_BLOCK_SHIFT as nat)
}

pub open spec fn fdx_pointers(num_docs: nat, segment_id: Seq<u8>) -> Seq<u8> {
    monotonic_data(
        chunk_pointers(num_docs, stored_header(DATA_CODEC@, 1, segment_id).len()),
        FDX_BLOCK_SHIFT as nat,
    )
}

/// The metadata in front of the two indexes.
pub open spec fn fdm_head(num_docs: nat, segment_id: Seq<u8>) -> Seq<u8> {
    stored_header(META_CODEC@, 1, segment_id) + varint_bytes(CHUNK_SIZE as nat) + le_i32(num_docs as u32 as i32)
        + le_i32(FDX_BLOCK_SHIFT as i32) + le_i32((chunk_count(num_docs) + 1) as i32)
}

/// The metadata of the two indexes, with the places where they start and
/// end.
pub open spec fn fdm_indexes(num_docs: nat, segment_id: Seq<u8>) -> Seq<u8> {
    let h = stored_header(INDEX_CODEC@, 0, segment_id).len();
    let a = h + fdx_starts(num_docs).len();
    let b = a + fdx_pointers(num_docs, segment_id).len();
    le_bytes(h, 8) + monotonic_meta(chunk_starts(num_docs), FDX_BLOCK_SHIFT as nat) + le_bytes(a, 8) + monotonic_meta(
        chunk_pointers(num_docs, stored_header(DATA_CODEC@, 1, segment_id).len()),
        FDX_BLOCK_SHIFT as nat,
    ) + le_bytes(b, 8)
}

/// The end of the metadata: where the chunks end, how many there are, and
/// how many of them and of their documents were cut short.
pub open spec fn fdm_tail(num_docs: nat, segment_id: Seq<u8>) -> Seq<u8> {
    let n = chunk_count(num_docs);
    le_bytes(fdt_body(num_docs, segment_id).len(), 8) + varint_bytes(n) + varint_bytes(
        if num_docs == 0 {
            0
        } else {
            1
        },
    ) + varint_bytes(
        if num_docs == 0 {
            0
        } else {
            chunk_docs(num_docs, (n - 1) as nat)
        },
    )
}

/// Data, index and metadata file.
pub open spec fn empty_stored_fields(num_docs: nat, segment_id: Seq<u8>) -> (Seq<u8>, Seq<u8>, Seq<u8>) {
    (
        with_footer(fdt_body(num_docs, segment_id)),
        with_footer(
            stored_header(INDEX_CODEC@, 0, segment_id) + fdx_starts(num_docs) + fdx_pointers(num_docs, segment_id),
        ),
        with_footer(
            fdm_head(num_docs, segment_id) + fdm_indexes(num_docs, segment_id) + fdm_tail(num_docs, segment_id),
        ),
    )
}

/// The three codec names and the empty suffix are short.
proof fn lemma_codec_names()
    ensures
        encode_utf8(DATA_CODEC@).len() == 28,
        encode_utf8(INDEX_CODEC@).len() == 22,
        encode_utf8(META_CODEC@).len() == 23,
        encode_utf8(""@).len() == 0,
{
    reveal_strlit("Lucene90StoredFieldsFastData");
    reveal_strlit("Lucene90FieldsIndexIdx");
    reveal_strlit("Lucene90FieldsIndexMeta");
    reveal_strlit("");
    is_ascii_chars_encode_utf8(DATA_CODEC@);
    is_ascii_chars_encode_utf8(INDEX_CODEC@);
    is_ascii_chars_encode_utf8(META_CODEC@);
    is_ascii_chars_encode_utf8(""@);
}

/// A variable-length integer below 2^35 takes one to five bytes.
proof fn lemma_varint_len(v: nat)
    requires
        v < 0x8_0000_0000,
    ensures
        1 <= varint_bytes(v).len() <= 5,
{
    reveal_with_fuel(varint_bytes, 6);
}

/// Sizes of chunks: few enough bytes for a file pointer.
proof fn lemma_chunk_sizes(num_docs: nat, n: nat)
    requires
        num_docs <= u32::MAX,
        n <= chunk_count(num_docs),
    ensures
        chunks_bytes(num_docs, n).len() <= 17 * n,
    decreases n,
{
    if n > 0 {
        lemma_chunk_sizes(num_docs, (n - 1) as nat);
        lemma_varint_len(chunk_start(num_docs, (n - 1) as nat));
        let k = chunk_docs(num_docs, (n - 1) as nat);
        assert(k <= 1024);
        lemma_varint_len(4 * k);
        lemma_varint_len(4 * k + 1);
    }
}

/// More chunks are more bytes.
proof fn lemma_chunks_grow(num_docs: nat, i: nat, j: nat)
    requires
        i <= j,
    ensures
        chunks_bytes(num_docs, i).len() <= chunks_bytes(num_docs, j).len(),
    decreases j,
{
    if i < j {
        lemma_chunks_grow(num_docs, i, (j - 1) as nat);
    }
}

/// Starts and pointers of chunks do not decrease.
proof fn lemma_index_ordered(num_docs: nat, head: nat)
    requires
        num_docs <= u32::MAX,
        head <= 1000,
    ensures
        non_decreasing(chunk_starts(num_docs)),
        non_decreasing(chunk_pointers(num_docs, head)),
{
    let n = chunk_count(num_docs);
    let s = chunk_starts(num_docs);
    let p = chunk_pointers(num_docs, head);
    assert(n <= num_docs);
    assert forall|i: int| 0 <= i < p.len() - 1 implies #[trigger] p[i] <= p[i + 1] by {
        lemma_chunks_grow(num_docs, i as nat, (i + 1) as nat);
        lemma_chunk_sizes(num_docs, (i + 1) as nat);
    }
    assert forall|i: int| 0 <= i < s.len() - 1 implies #[trigger] s[i] <= s[i + 1] by {}
}

/// Writes one chunk.
fn push_chunk(out: &mut Vec<u8>, num_docs: u32, doc_base: u32, n: u32, buffer: &[u8], Ghost(i): Ghost<nat>)
    requires
        doc_base == chunk_start(num_docs as nat, i),
        n == chunk_docs(num_docs as nat, i),
        n <= MAX_DOCS_PER_CHUNK,
        buffer@.len() == 0,
    ensures
        final(out)@ == old(out)@ + chunk_bytes(num_docs as nat, i),
{
    let ghost start = out@;
    let dirty: u32 = if n == num_docs - doc_base {
        1
    } else {
        0
    };
    write_vint(out, doc_base);
    write_vint(out, 4 * n + dirty);
    let ghost head = out@;
    if n != 1 {
        out.push(0);
        write_vint(out, 0);
        out.push(0);
        write_vint(out, 0);
    } else {
        write_vint(out, 0);
        write_vint(out, 0);
    }
    write_vint(out, 0);
    write_vint(out, 0);
    write_vint(out, buffer.len() as u32);
    out.extend_from_slice(buffer);
    assert(out@ =~= head + zeros(
        if n == 1 {
            5
        } else {
            7
        },
    )) by {
        assert(varint_bytes(0) =~= seq![0u8]);
    }
    assert(out@ =~= start + chunk_bytes(num_docs as nat, i));
}

/// Writes all chunks, and collects where they start.
fn push_chunks(fdt: &mut Vec<u8>, num_docs: u32) -> (r: (Vec<i64>, Vec<i64>))
    requires
        old(fdt)@.len() <= 1000,
    ensures
        final(fdt)@ == old(fdt)@ + chunks_bytes(num_docs as nat, chunk_count(num_docs as nat)),
        r.0@ == chunk_starts(num_docs as nat),
        r.1@ == chunk_pointers(num_docs as nat, old(fdt)@.len()),
{
    let ghost d = num_docs as nat;
    let ghost head = fdt@;
    let mut table: FastHashTable = new_table();
    let empty: Vec<u8> = Vec::new();
    let buffer: Vec<u8> = compress_plain(empty.as_slice(), &mut table);
    let mut starts: Vec<i64> = Vec::new();
    let mut pointers: Vec<i64> = Vec::new();
    let mut doc_base: u32 = 0;
    let ghost mut i: nat = 0;
    assert(fdt@ =~= head + chunks_bytes(d, 0));
    while doc_base < num_docs
        invariant
            d == num_docs,
            i <= chunk_count(d),
            doc_base == chunk_start(d, i),
            i < chunk_count(d) <==> doc_base < num_docs,
            buffer@.len() == 0,
            head.len() <= 1000,
            fdt@ == head + chunks_bytes(d, i),
            starts@.len() == i,
            pointers@.len() == i,
            forall|k: int| 0 <= k < i ==> #[trigger] starts@[k] == chunk_start(d, k as nat),
            forall|k: int| 0 <= k < i ==> #[trigger] pointers@[k] == (head.len() + chunks_bytes(d, k as nat).len()) as i64,
        decreases num_docs - doc_base,
    {
        let left: u32 = num_docs - doc_base;
        let n: u32 = if left < MAX_DOCS_PER_CHUNK {
            left
        } else {
            MAX_DOCS_PER_CHUNK
        };
        starts.push(doc_base as i64);
        pointers.push(fdt.len() as i64);
        push_chunk(fdt, num_docs, doc_base, n, buffer.as_slice(), Ghost(i));
        doc_base = doc_base + n;
        proof {
            assert(fdt@ =~= head + chunks_bytes(d, i + 1));
            i = i + 1;
        }
    }
    starts.push(num_docs as i64);
    pointers.push(fdt.len() as i64);
    assert(starts@ =~= chunk_starts(d));
    assert(pointers@ =~= chunk_pointers(d, head.len()));
    (starts, pointers)
}

/// Writes the two indexes and their metadata.
fn push_indexes(fdm: &mut Vec<u8>, fdx: &mut Vec<u8>, starts: &[i64], pointers: &[i64])
    requires
        non_decreasing(starts@),
        non_decreasing(pointers@),
    ensures
        ({
            let shift = FDX_BLOCK_SHIFT as nat;
            let a = old(fdx)@ + monotonic_data(starts@, shift);
            let b = a + monotonic_data(pointers@, shift);
            final(fdx)@ == b && final(fdm)@ == old(fdm)@ + (le_bytes(old(fdx)@.len(), 8) + monotonic_meta(starts@, shift)
                + le_bytes(a.len(), 8) + monotonic_meta(pointers@, shift) + le_bytes(b.len(), 8))
        }),
{
    let ghost m = fdm@;
    push_le(fdm, fdx.len() as u64, 8);
    let _ = crate::monotonic::write(starts, FDX_BLOCK_SHIFT, fdm, fdx);
    push_le(fdm, fdx.len() as u64, 8);
    let _ = crate::monotonic::write(pointers, FDX_BLOCK_SHIFT, fdm, fdx);
    push_le(fdm, fdx.len() as u64, 8);
    assert(fdm@ =~= m + (fdm@.skip(m.len() as int)));
    let ghost shift = FDX_BLOCK_SHIFT as nat;
    assert(fdm@ =~= m + (le_bytes(old(fdx)@.len(), 8) + monotonic_meta(starts@, shift) + le_bytes(
        (old(fdx)@ + monotonic_data(starts@, shift)).len(),
        8,
    ) + monotonic_meta(pointers@, shift) + le_bytes(
        (old(fdx)@ + monotonic_data(starts@, shift) + monotonic_data(pointers@, shift)).len(),
        8,
    )));
}

/// A header of these files is short.
proof fn lemma_header_short(codec: Seq<char>, version: i32, segment_id: Seq<u8>)
    requires
        encode_utf8(codec).len() <= 28,
        segment_id.len() == 16,
    ensures
        stored_header(codec, version, segment_id).len() <= 1000,
{
    lemma_codec_names();
    lemma_varint_len(encode_utf8(codec).len());
    crate::bytes::lemma_le_bytes_len(crate::cursor::CODEC_MAGIC as nat, 4);
    crate::bytes::lemma_le_bytes_len((version as u32) as nat, 4);
}

/// A new file with its header.
fn start_file(codec: &str, version: i32, segment_id: &[u8; 16]) -> (r: Vec<u8>)
    requires
        encode_utf8(codec@).len() <= 28,
    ensures
        r@ == stored_header(codec@, version, segment_id@),
        r@.len() <= 1000,
{
    proof {
        lemma_codec_names();
        lemma_header_short(codec@, version, segment_id@);
    }
    let mut r: Vec<u8> = Vec::new();
    write_index_header(&mut r, codec, version, segment_id, "");
    assert(r@ =~= stored_header(codec@, version, segment_id@));
    r
}

/// The metadata in front of the indexes.
fn fdm_start(num_docs: u32, chunks: u32, segment_id: &[u8; 16]) -> (fdm: Vec<u8>)
    requires
        chunks == chunk_count(num_docs as nat),
    ensures
        fdm@ == fdm_head(num_docs as nat, segment_id@),
{
    proof {
        lemma_codec_names();
    }
    let mut fdm: Vec<u8> = start_file(META_CODEC, 1, segment_id);
    write_vint(&mut fdm, CHUNK_SIZE);
    push_le_i32(&mut fdm, num_docs as i32);
    push_le_i32(&mut fdm, FDX_BLOCK_SHIFT as i32);
    push_le_i32(&mut fdm, (chunks + 1) as i32);
    assert(fdm@ =~= fdm_head(num_docs as nat, segment_id@));
    fdm
}

/// The end of the metadata.
fn push_tail(fdm: &mut Vec<u8>, num_docs: u32, starts: &[i64], fdt: &[u8], segment_id: &[u8; 16])
    requires
        starts@ == chunk_starts(num_docs as nat),
        fdt@ == fdt_body(num_docs as nat, segment_id@),
    ensures
        final(fdm)@ == old(fdm)@ + fdm_tail(num_docs as nat, segment_id@),
{
    let ghost before = fdm@;
    let ghost d = num_docs as nat;
    let chunks: usize = starts.len() - 1;
    push_le(fdm, fdt.len() as u64, 8);
    write_vlong(fdm, chunks as u64);
    if num_docs == 0 {
        write_vlong(fdm, 0);
        write_vlong(fdm, 0);
    } else {
        assert(chunk_count(d) >= 1);
        write_vlong(fdm, 1);
        write_vlong(fdm, (starts[chunks] - starts[chunks - 1]) as u64);
    }
    assert(fdm@ =~= before + fdm_tail(d, segment_id@));
}

/// Empty stored fields: every document has none. Returns data, index and
/// metadata file.
pub fn write_empty_stored_fields(num_docs: u32, segment_id: &[u8; 16]) -> (r: (Vec<u8>, Vec<u8>, Vec<u8>))
    ensures
        (r.0@, r.1@, r.2@) == empty_stored_fields(num_docs as nat, segment_id@),
{
    let ghost d = num_docs as nat;
    let ghost id = segment_id@;
    proof {
        lemma_codec_names();
        lemma_header_short(DATA_CODEC@, 1, id);
        lemma_index_ordered(d, stored_header(DATA_CODEC@, 1, id).len());
    }
    let mut fdt: Vec<u8> = start_file(DATA_CODEC, 1, segment_id);
    let (starts, pointers): (Vec<i64>, Vec<i64>) = push_chunks(&mut fdt, num_docs);
    let mut fdx: Vec<u8> = start_file(INDEX_CODEC, 0, segment_id);
    let mut fdm: Vec<u8> = fdm_start(num_docs, (starts.len() - 1) as u32, segment_id);
    push_indexes(&mut fdm, &mut fdx, starts.as_slice(), pointers.as_slice());
    push_tail(&mut fdm, num_docs, starts.as_slice(), fdt.as_slice(), segment_id);
    write_footer(&mut fdx);
    write_footer(&mut fdm);
    write_footer(&mut fdt);
    (fdt, fdx, fdm)
}

/// Every document is in one chunk, that of its number divided by 1024:
/// chunks start at document zero, each where the one before ends, and the
/// last ends at the number of documents.
pub proof fn law_chunks_hold_all_docs(num_docs: nat, d: nat)
    requires
        d < num_docs <= u32::MAX,
    ensures
        ({
            let s = chunk_starts(num_docs);
            let i = (d / 1024) as int;
            &&& s[0] == 0
            &&& s.last() == num_docs
            &&& 0 <= i < s.len() - 1
            &&& s[i] <= d < s[i + 1]
            &&& s[i + 1] - s[i] <= 1024
        }),
{
    let n = chunk_count(num_docs);
    crate::direct::lemma_ceil_div(num_docs, 1024);
    assert(1024 * (n - 1) < num_docs <= 1024 * n);
    let i = d / 1024;
    assert(i < n);
}

/// The chunk that pointer `i` leads to names its first document and how many
/// there are, twice shifted, with the lowest bit set on the last chunk alone;
/// nothing but zeros follows up to the next pointer.
pub proof fn law_chunk_at_pointer(num_docs: nat, segment_id: Seq<u8>, i: int)
    requires
        num_docs <= i32::MAX,
        segment_id.len() == 16,
        0 <= i < chunk_count(num_docs),
    ensures
        ({
            let fdt = fdt_body(num_docs, segment_id);
            let s = chunk_starts(num_docs);
            let p = chunk_pointers(num_docs, stored_header(DATA_CODEC@, 1, segment_id).len());
            &&& p.len() == s.len()
            &&& p.last() == fdt.len()
            &&& 0 <= p[i] < p[i + 1] <= fdt.len()
            &&& parse_vint(fdt, p[i] as nat) matches Ok((first, q)) && first == s[i] && (parse_vint(fdt, q) matches Ok(
                (count, t),
            ) && count == 4 * (s[i + 1] - s[i]) + (if i + 2 == s.len() {
                1int
            } else {
                0
            }) && t < p[i + 1] && forall|k: int| t <= k < p[i + 1] ==> #[trigger] fdt[k] == 0)
        }),
{
    let head = stored_header(DATA_CODEC@, 1, segment_id);
    let fdt = fdt_body(num_docs, segment_id);
    let n = chunk_count(num_docs);
    lemma_codec_names();
    lemma_header_short(DATA_CODEC@, 1, segment_id);
    crate::direct::lemma_ceil_div(num_docs, 1024);
    lemma_chunk_sizes(num_docs, n);
    lemma_chunk_within(num_docs, i as nat, n);
    lemma_chunks_grow(num_docs, i as nat + 1, n);
    let at = head.len() + chunks_bytes(num_docs, i as nat).len();
    let one = chunk_bytes(num_docs, i as nat);
    let all = chunks_bytes(num_docs, n);
    assert(stands_at(fdt, at, one)) by {
        assert(fdt.subrange(at as int, (at + one.len()) as int) =~= all.subrange(
            chunks_bytes(num_docs, i as nat).len() as int,
            (chunks_bytes(num_docs, i as nat).len() + one.len()) as int,
        ));
    }
    lemma_chunk_read(fdt, at, num_docs, i as nat);
    assert(chunks_bytes(num_docs, i as nat + 1) == chunks_bytes(num_docs, i as nat) + one);
}

/// A chunk that stands in a file, read.
proof fn lemma_chunk_read(fdt: Seq<u8>, at: nat, num_docs: nat, i: nat)
    requires
        num_docs <= i32::MAX,
        stands_at(fdt, at, chunk_bytes(num_docs, i)),
        chunk_docs(num_docs, i) <= 1024,
    ensures
        parse_vint(fdt, at) matches Ok((first, q)) && first == chunk_start(num_docs, i) && (parse_vint(fdt, q) matches Ok(
            (count, t),
        ) && count == 4 * chunk_docs(num_docs, i) + (if chunk_start(num_docs, i + 1) == num_docs {
            1int
        } else {
            0
        }) && t < at + chunk_bytes(num_docs, i).len() && forall|k: int|
            t <= k < at + chunk_bytes(num_docs, i).len() ==> #[trigger] fdt[k] == 0),
{
    let one = chunk_bytes(num_docs, i);
    let count = chunk_docs(num_docs, i);
    let dirty = if chunk_start(num_docs, i + 1) == num_docs {
        1nat
    } else {
        0nat
    };
    let a = varint_bytes(chunk_start(num_docs, i));
    let b = varint_bytes(4 * count + dirty);
    let z = zeros(if count == 1 {
        5
    } else {
        7
    });
    assert(one =~= a + (b + z));
    lemma_stands_split(fdt, at, a, b + z);
    lemma_stands_split(fdt, at + a.len(), b, z);
    law_vint_round_trip(fdt, at, chunk_start(num_docs, i) as u32);
    law_vint_round_trip(fdt, at + a.len(), (4 * count + dirty) as u32);
    assert forall|k: int| at + a.len() + b.len() <= k < at + one.len() implies #[trigger] fdt[k] == 0 by {
        let q = (at + a.len() + b.len()) as int;
        assert(fdt.subrange(q, q + z.len())[k - q] == z[k - q]);
    }
    assert(forall|x: u32| x <= i32::MAX ==> #[trigger] (x as i32) == x);
}

/// A chunk stands among the chunks.
proof fn lemma_chunk_within(num_docs: nat, i: nat, n: nat)
    requires
        i < n,
    ensures
        ({
            let before = chunks_bytes(num_docs, i).len() as int;
            let one = chunk_bytes(num_docs, i);
            &&& before + one.len() <= chunks_bytes(num_docs, n).len()
            &&& chunks_bytes(num_docs, n).subrange(before, before + one.len()) == one
        }),
    decreases n,
{
    let before = chunks_bytes(num_docs, i).len() as int;
    let one = chunk_bytes(num_docs, i);
    let all = chunks_bytes(num_docs, n);
    if i + 1 == n {
        assert(all.subrange(before, before + one.len()) =~= one);
    } else {
        lemma_chunk_within(num_docs, i, (n - 1) as nat);
        assert(all.subrange(before, before + one.len()) =~= chunks_bytes(num_docs, (n - 1) as nat).subrange(
            before,
            before + one.len(),
        ));
    }
}

/// The data file is small.
pub proof fn lemma_data_size(num_docs: nat, segment_id: Seq<u8>)
    requires
        num_docs <= u32::MAX,
        segment_id.len() == 16,
    ensures
        fdt_body(num_docs, segment_id).len() <= 1000 + 17 * chunk_count(num_docs),
        stored_header(INDEX_CODEC@, 0, segment_id).len() <= 1000,
{
    lemma_codec_names();
    lemma_header_short(DATA_CODEC@, 1, segment_id);
    lemma_header_short(INDEX_CODEC@, 0, segment_id);
    lemma_chunk_sizes(num_docs, chunk_count(num_docs));
}

} // verus!
