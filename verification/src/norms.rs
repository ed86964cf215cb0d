//! Norms files: per document, the encoded length of a scored field.
//!
//! Dense fields only: every document has a norm, stored in as few bytes as
//! the range of the norms allows, or once where all are equal.

use vstd::prelude::*;
use vstd::utf8::encode_utf8;
use vstd::arithmetic::power2::{lemma2_to64, lemma2_to64_rest, pow2};
use crate::bytes::{
    le_bytes, le_i16, le_i32, le_i64, le_value, lemma_cast_values, lemma_le_bytes_len, lemma_le_bytes_mod,
    lemma_le_value_of_bytes, push_le, push_le_i16, push_le_i32, push_le_i64,
};
use crate::cursor::{index_header_bytes, with_footer, write_footer, write_index_header, SEGMENT_ID_LENGTH};
use crate::error::Result;
use crate::monotonic::minimum;
use crate::stats::{lemma_min_max, maximum};

verus! {

pub const DATA_CODEC: &'static str = "Lucene90NormsData";

pub const META_CODEC: &'static str = "Lucene90NormsMetadata";

pub const VERSION: i32 = 0;

/// Bytes per norm for norms between `min` and `max`; none where they are
/// equal.
pub open spec fn norm_width(min: i64, max: i64) -> u8 {
    if min >= max {
        0
    } else if -128 <= min && max <= 127 {
        1
    } else if -32768 <= min && max <= 32767 {
        2
    } else if i32::MIN <= min && max <= i32::MAX {
        4
    } else {
        8
    }
}

fn num_bytes_per_value(min: i64, max: i64) -> (r: u8)
    ensures
        r == norm_width(min, max),
{
    if min >= max {
        0
    } else if -128 <= min && max <= 127 {
        1
    } else if -32768 <= min && max <= 32767 {
        2
    } else if -0x8000_0000 <= min && max <= 0x7FFF_FFFF {
        4
    } else {
        8
    }
}

/// The least norm, zero where there are none.
pub open spec fn least_norm(norms: Seq<i64>) -> i64 {
    if norms.len() == 0 {
        0
    } else {
        minimum(norms)
    }
}

/// The greatest norm, zero where there are none.
pub open spec fn greatest_norm(norms: Seq<i64>) -> i64 {
    if norms.len() == 0 {
        0
    } else {
        maximum(norms)
    }
}

/// Bytes per norm of a field.
pub open spec fn field_width(norms: Seq<i64>) -> u8 {
    norm_width(least_norm(norms), greatest_norm(norms))
}

/// The first `n` norms in `width` little-endian bytes each.
pub open spec fn norms_bytes(norms: Seq<i64>, n: nat, width: nat) -> Seq<u8>
    decreases n,
{
    if n == 0 {
        Seq::empty()
    } else {
        norms_bytes(norms, (n - 1) as nat, width) + le_bytes((norms[n - 1] as u64) as nat, width)
    }
}

/// The data of a field: its norms, unless all are equal.
pub open spec fn norms_data(norms: Seq<i64>) -> Seq<u8> {
    norms_bytes(norms, norms.len(), field_width(norms) as nat)
}

/// The metadata of a field whose data starts at `offset`: all documents have
/// it; count, width, and the offset or the one norm.
pub open spec fn norms_meta(field_number: i32, norms: Seq<i64>, offset: nat) -> Seq<u8> {
    le_i32(field_number) + (le_i64((-1) as i64) + (le_i64(0) + (le_i16((-1) as i16) + (seq![0xFFu8] + (le_i32(
        norms.len() as i32,
    ) + (seq![field_width(norms)] + if field_width(norms) == 0 {
        le_i64(least_norm(norms))
    } else {
        le_bytes(offset, 8)
    }))))))
}

/// Builds one metadata and data file pair, norms for all documents in
/// document order.
pub struct NormsFilesBuilder {
    nvm: Vec<u8>,
    nvd: Vec<u8>,
}

impl NormsFilesBuilder {
    /// The metadata bytes so far.
    pub closed spec fn meta_bytes(&self) -> Seq<u8> {
        self.nvm@
    }

    /// The data bytes so far.
    pub closed spec fn data_bytes(&self) -> Seq<u8> {
        self.nvd@
    }

    pub fn new(segment_id: &[u8; SEGMENT_ID_LENGTH], suffix: &str) -> (r: NormsFilesBuilder)
        requires
            encode_utf8(suffix@).len() < 256,
        ensures
            r.meta_bytes() == index_header_bytes(
                encode_utf8(META_CODEC@),
                VERSION,
                segment_id@,
                encode_utf8(suffix@),
            ),
            r.data_bytes() == index_header_bytes(
                encode_utf8(DATA_CODEC@),
                VERSION,
                segment_id@,
                encode_utf8(suffix@),
            ),
    {
        proof {
            reveal_strlit("Lucene90NormsMetadata");
            reveal_strlit("Lucene90NormsData");
            vstd::utf8::is_ascii_chars_encode_utf8(META_CODEC@);
            vstd::utf8::is_ascii_chars_encode_utf8(DATA_CODEC@);
        }
        let mut nvm: Vec<u8> = Vec::new();
        let mut nvd: Vec<u8> = Vec::new();
        write_index_header(&mut nvm, META_CODEC, VERSION, segment_id, suffix);
        write_index_header(&mut nvd, DATA_CODEC, VERSION, segment_id, suffix);
        let r: NormsFilesBuilder = NormsFilesBuilder { nvm, nvd };
        assert(r.meta_bytes() =~= index_header_bytes(
            encode_utf8(META_CODEC@),
            VERSION,
            segment_id@,
            encode_utf8(suffix@),
        ));
        assert(r.data_bytes() =~= index_header_bytes(
            encode_utf8(DATA_CODEC@),
            VERSION,
            segment_id@,
            encode_utf8(suffix@),
        ));
        r
    }

    /// Dense field: `norms[d]` is the norm of document `d`.
    pub fn add_dense_field(&mut self, field_number: i32, norms: &[i64]) -> (r: Result<()>)
        ensures
            r is Ok,
            final(self).meta_bytes() == old(self).meta_bytes() + norms_meta(
                field_number,
                norms@,
                old(self).data_bytes().len(),
            ),
            final(self).data_bytes() == old(self).data_bytes() + norms_data(norms@),
    {
        let (min, max): (i64, i64) = norm_range(norms);
        let width: u8 = num_bytes_per_value(min, max);
        let offset: u64 = self.nvd.len() as u64;
        let ghost meta0 = self.nvm@;
        let ghost data0 = self.nvd@;
        push_le_i32(&mut self.nvm, field_number);
        push_le_i64(&mut self.nvm, -1);
        push_le_i64(&mut self.nvm, 0);
        push_le_i16(&mut self.nvm, -1);
        self.nvm.push(0xFF);
        push_le_i32(&mut self.nvm, norms.len() as i32);
        self.nvm.push(width);
        if width == 0 {
            push_le_i64(&mut self.nvm, min);
        } else {
            push_le(&mut self.nvm, offset, 8);
        }
        assert(self.nvm@ =~= meta0 + norms_meta(field_number, norms@, data0.len()));
        push_norms(&mut self.nvd, norms, width as usize);
        Ok(())
    }

    /// Close both files: end mark of the metadata, and footers. Returns the
    /// metadata file and the data file.
    pub fn finish(self) -> (r: (Vec<u8>, Vec<u8>))
        ensures
            r.0@ == with_footer(self.meta_bytes() + le_i32((-1) as i32)),
            r.1@ == with_footer(self.data_bytes()),
    {
        let mut nvm: Vec<u8> = self.nvm;
        let mut nvd: Vec<u8> = self.nvd;
        push_le_i32(&mut nvm, -1);
        write_footer(&mut nvm);
        write_footer(&mut nvd);
        (nvm, nvd)
    }
}

/// The least and the greatest norm.
fn norm_range(norms: &[i64]) -> (r: (i64, i64))
    ensures
        r.0 == least_norm(norms@),
        r.1 == greatest_norm(norms@),
{
    if norms.len() == 0 {
        return (0, 0);
    }
    let mut min: i64 = norms[0];
    let mut max: i64 = norms[0];
    let mut i: usize = 1;
    assert(norms@.take(1) =~= seq![norms@[0]]);
    while i < norms.len()
        invariant
            1 <= i <= norms@.len(),
            min == minimum(norms@.take(i as int)),
            max == maximum(norms@.take(i as int)),
        decreases norms@.len() - i,
    {
        let v: i64 = norms[i];
        assert(norms@.take(i + 1).drop_last() =~= norms@.take(i as int));
        if v < min {
            min = v;
        }
        if v > max {
            max = v;
        }
        i = i + 1;
    }
    assert(norms@.take(i as int) =~= norms@);
    (min, max)
}

/// Appends each norm in `width` bytes.
fn push_norms(out: &mut Vec<u8>, norms: &[i64], width: usize)
    ensures
        final(out)@ == old(out)@ + norms_bytes(norms@, norms@.len(), width as nat),
{
    let mut i: usize = 0;
    assert(out@ =~= old(out)@ + norms_bytes(norms@, 0, width as nat));
    while i < norms.len()
        invariant
            i <= norms@.len(),
            out@ == old(out)@ + norms_bytes(norms@, i as nat, width as nat),
        decreases norms@.len() - i,
    {
        push_le(out, norms[i] as u64, width);
        i = i + 1;
        assert(out@ =~= old(out)@ + norms_bytes(norms@, i as nat, width as nat));
    }
}

/// The number that `b` spells in two's complement, least significant byte
/// first.
pub open spec fn signed_value(b: Seq<u8>) -> int {
    let v = le_value(b) as int;
    if b.len() == 0 || 2 * v < pow2(8 * b.len()) {
        v
    } else {
        v - pow2(8 * b.len())
    }
}

proof fn lemma_norm_at(norms: Seq<i64>, n: nat, width: nat, d: int)
    requires
        n <= norms.len(),
        0 <= d < n,
    ensures
        norms_bytes(norms, n, width).len() == n * width,
        d * width + width <= n * width,
        norms_bytes(norms, n, width).subrange(d * width, d * width + width) == le_bytes(
            (norms[d] as u64) as nat,
            width,
        ),
    decreases n,
{
    let m = (n - 1) as nat;
    let before = norms_bytes(norms, m, width);
    let all = norms_bytes(norms, n, width);
    lemma_le_bytes_len((norms[n - 1] as u64) as nat, width);
    lemma_norms_len(norms, m, width);
    assert(n * width == m * width + width) by (nonlinear_arith)
        requires
            n == m + 1,
    ;
    if d < m {
        lemma_norm_at(norms, m, width, d);
        assert(all.subrange(d * width, d * width + width) =~= before.subrange(d * width, d * width + width));
    } else {
        assert(all.subrange(d * width, d * width + width) =~= le_bytes((norms[d] as u64) as nat, width));
    }
}

proof fn lemma_norms_len(norms: Seq<i64>, n: nat, width: nat)
    ensures
        norms_bytes(norms, n, width).len() == n * width,
    decreases n,
{
    if n > 0 {
        let m = (n - 1) as nat;
        lemma_norms_len(norms, m, width);
        lemma_le_bytes_len((norms[n - 1] as u64) as nat, width);
        assert(n * width == m * width + width) by (nonlinear_arith)
            requires
                n == m + 1,
        ;
    } else {
        assert(0 * width == 0) by (nonlinear_arith);
    }
}

/// A number in the range of `w` bytes reads back from its low `w` bytes.
proof fn lemma_signed_bytes(v: i64, w: nat)
    requires
        w == 1 && -128 <= v <= 127 || w == 2 && -32768 <= v <= 32767 || w == 4 && i32::MIN <= v <= i32::MAX || w == 8,
    ensures
        signed_value(le_bytes((v as u64) as nat, w)) == v,
{
    lemma_cast_values();
    lemma_le_value_of_bytes((v as u64) as nat, w);
    lemma2_to64();
    lemma2_to64_rest();
    let u = (v as u64) as int;
    if w == 1 {
        assert(u % 0x100 == if v < 0 {
            v + 0x100
        } else {
            v as int
        });
    } else if w == 2 {
        assert(u % 0x1_0000 == if v < 0 {
            v + 0x1_0000
        } else {
            v as int
        });
    } else if w == 4 {
        assert(u % 0x1_0000_0000 == if v < 0 {
            v + 0x1_0000_0000
        } else {
            v as int
        });
    } else {
        assert(u % 0x1_0000_0000_0000_0000 == u);
    }
}

/// Norms read back: the metadata gives the count, the bytes per norm and
/// where the data starts. The norm of document `d` stands in the data behind
/// those of the documents before it, in two's complement; where the metadata
/// gives no bytes per norm, it holds the norm of every document itself.
pub proof fn law_norms_read_back(field_number: i32, norms: Seq<i64>, offset: nat, d: int)
    requires
        0 <= d < norms.len() <= i32::MAX,
        offset <= i64::MAX,
    ensures
        ({
            let meta = norms_meta(field_number, norms, offset);
            let data = norms_data(norms);
            let width = meta[27] as int;
            &&& meta.len() == 36
            &&& signed_value(meta.subrange(0, 4)) == field_number
            &&& signed_value(meta.subrange(4, 12)) == -1
            &&& signed_value(meta.subrange(12, 20)) == 0
            &&& signed_value(meta.subrange(20, 22)) == -1
            &&& meta[22] == 0xFF
            &&& signed_value(meta.subrange(23, 27)) == norms.len()
            &&& data.len() == norms.len() * width
            &&& width == 0 ==> signed_value(meta.subrange(28, 36)) == norms[d]
            &&& width > 0 ==> signed_value(meta.subrange(28, 36)) == offset && 0 <= d * width && d * width + width
                <= data.len() && signed_value(data.subrange(d * width, d * width + width)) == norms[d]
        }),
{
    let w = field_width(norms) as nat;
    let meta = norms_meta(field_number, norms, offset);
    lemma_min_max(norms);
    assert(minimum(norms) <= norms[d] <= maximum(norms));
    lemma_norms_len(norms, norms.len(), w);
    lemma_meta_parts(field_number, norms, offset);
    lemma_cast_values();
    lemma_narrow_casts();
    lemma_signed_bytes((-1) as i64, 8);
    lemma_signed_bytes(0, 8);
    lemma_signed_bytes((-1) as i64, 2);
    lemma_signed_bytes(field_number as i64, 4);
    lemma_signed_bytes(norms.len() as i64, 4);
    assert(le_i32(field_number) == le_bytes((field_number as i64 as u64) as nat, 4)) by {
        lemma_low_bytes(field_number);
    }
    assert(le_i32(norms.len() as i32) == le_bytes((norms.len() as i64 as u64) as nat, 4)) by {
        lemma_low_bytes(norms.len() as i32);
    }
    assert(le_i16((-1) as i16) == le_bytes(((-1) as i64 as u64) as nat, 2)) by {
        lemma_low_minus_one();
    }
    if w == 0 {
        lemma_signed_bytes(least_norm(norms), 8);
        assert(norms[d] == least_norm(norms));
    } else {
        lemma_signed_bytes(offset as i64, 8);
        lemma_norm_at(norms, norms.len(), w, d);
        lemma_signed_bytes(norms[d], w);
        assert(0 <= d * w) by (nonlinear_arith)
            requires
                d >= 0,
        ;
    }
}

proof fn lemma_narrow_casts()
    ensures
        forall|v: i32| #[trigger] (v as u32) == (if v < 0 {
            v + 0x1_0000_0000
        } else {
            v as int
        }),
{
    assert(forall|v: i32| #[trigger] (v as u32) == (if v < 0 {
        v + 0x1_0000_0000
    } else {
        v as int
    })) by (bit_vector);
}

proof fn lemma_low_bytes(v: i32)
    ensures
        le_i32(v) == le_bytes((v as i64 as u64) as nat, 4),
{
    lemma_cast_values();
    lemma_narrow_casts();
    lemma2_to64();
    let a = (v as u32) as nat;
    let b = (v as i64 as u64) as nat;
    assert(a % 0x1_0000_0000 == b % 0x1_0000_0000);
    assert(pow2(8 * 4) == 0x1_0000_0000);
    lemma_le_bytes_mod(a, 4);
    lemma_le_bytes_mod(b, 4);
}

proof fn lemma_low_minus_one()
    ensures
        le_i16((-1) as i16) == le_bytes(((-1) as i64 as u64) as nat, 2),
{
    lemma_cast_values();
    lemma2_to64();
    assert(((-1) as i16) as u16 == 0xFFFFu16) by (bit_vector);
    let b = ((-1) as i64 as u64) as nat;
    assert(b % 0x1_0000 == 0xFFFF);
    assert(pow2(8 * 2) == 0x1_0000);
    lemma_le_bytes_mod(0xFFFF, 2);
    lemma_le_bytes_mod(b, 2);
}

/// Where the parts of a field's metadata stand.
proof fn lemma_meta_parts(field_number: i32, norms: Seq<i64>, offset: nat)
    ensures
        ({
            let meta = norms_meta(field_number, norms, offset);
            &&& meta.len() == 36
            &&& meta.subrange(0, 4) == le_i32(field_number)
            &&& meta.subrange(4, 12) == le_i64((-1) as i64)
            &&& meta.subrange(12, 20) == le_i64(0)
            &&& meta.subrange(20, 22) == le_i16((-1) as i16)
            &&& meta[22] == 0xFF
            &&& meta.subrange(23, 27) == le_i32(norms.len() as i32)
            &&& meta[27] == field_width(norms)
            &&& meta.subrange(28, 36) == if field_width(norms) == 0 {
                le_i64(least_norm(norms))
            } else {
                le_bytes(offset, 8)
            }
        }),
{
    let meta = norms_meta(field_number, norms, offset);
    lemma_le_bytes_len((field_number as u32) as nat, 4);
    lemma_le_bytes_len((((-1) as i64) as u64) as nat, 8);
    lemma_le_bytes_len((0i64 as u64) as nat, 8);
    lemma_le_bytes_len((((-1) as i16) as u16) as nat, 2);
    lemma_le_bytes_len(((norms.len() as i32) as u32) as nat, 4);
    lemma_le_bytes_len((least_norm(norms) as u64) as nat, 8);
    lemma_le_bytes_len(offset, 8);
    assert(meta.subrange(0, 4) =~= le_i32(field_number));
    assert(meta.subrange(4, 12) =~= le_i64((-1) as i64));
    assert(meta.subrange(12, 20) =~= le_i64(0));
    assert(meta.subrange(20, 22) =~= le_i16((-1) as i16));
    assert(meta.subrange(23, 27) =~= le_i32(norms.len() as i32));
    assert(meta.subrange(28, 36) =~= if field_width(norms) == 0 {
        le_i64(least_norm(norms))
    } else {
        le_bytes(offset, 8)
    });
}

/// Norms take one, two, four or eight bytes each, as few as hold the least
/// and the greatest with their sign, and none where all are the same.
pub proof fn law_norm_width_least(min: i64, max: i64, w: nat)
    requires
        w == 1 || w == 2 || w == 4 || w == 8,
    ensures
        norm_width(min, max) == 0 <==> min >= max,
        min < max ==> {
            let n = norm_width(min, max) as nat;
            &&& n == 1 || n == 2 || n == 4 || n == 8
            &&& -pow2((8 * n - 1) as nat) <= min && max < pow2((8 * n - 1) as nat)
            &&& -pow2((8 * w - 1) as nat) <= min && max < pow2((8 * w - 1) as nat) ==> n <= w
        },
{
    vstd::arithmetic::power2::lemma2_to64();
    vstd::arithmetic::power2::lemma2_to64_rest();
    assert(pow2(7) == 128 && pow2(15) == 32768 && pow2(31) == 0x8000_0000 && pow2(63) == 0x8000_0000_0000_0000);
}

} // verus!
