//! A small cursor over Lucene-encoded bytes, plus codec framing.
//!
//! Data payloads are little-endian; only the integers of the codec header
//! and footer are big-endian. This module is the one place where both
//! conventions live.

use vstd::prelude::*;
use vstd::arithmetic::power2::{pow2, lemma2_to64, lemma_pow2_adds};
use vstd::slice::slice_subrange;
use vstd::utf8::{
    decode_utf8, encode_utf8, encode_utf8_decode_utf8, encode_utf8_valid_utf8, valid_utf8,
};
use crate::bytes::{
    be_bytes, be_i32, be_uint, be_value, le_bytes, le_i16, le_i32, le_i64, le_uint, le_value,
    lemma_be_round_trip, lemma_be_spelling, lemma_le_round_trip, lemma_le_value_bound,
    lemma_pow2_mono, lemma_signed_casts, push_be, push_be_i32,
};
use crate::error::{Error, ErrorKind, Result};
use crate::text::{same_text, text_from_slice};

verus! {

/// First word of every codec header.
pub const CODEC_MAGIC: u32 = 0x3FD7_6C17;

/// First word of every codec footer, the complement of [`CODEC_MAGIC`].
pub const FOOTER_MAGIC: u32 = 0xC028_93E8;

pub const FOOTER_LENGTH: usize = 16;

pub const SEGMENT_ID_LENGTH: usize = 16;

/// What a reader finds at some position: a value and the position behind
/// it, or the kind of error it reports.
pub type Parsed<T> = std::result::Result<(T, nat), ErrorKind>;

/// The bytes of `b` from `p` on begin with `s`.
pub open spec fn stands_at(b: Seq<u8>, p: nat, s: Seq<u8>) -> bool {
    p + s.len() <= b.len() && b.subrange(p as int, (p + s.len()) as int) == s
}

/// The next `n` bytes.
pub open spec fn parse_bytes(b: Seq<u8>, p: nat, n: nat) -> Parsed<Seq<u8>> {
    if p + n <= b.len() {
        Ok((b.subrange(p as int, (p + n) as int), p + n))
    } else {
        Err(ErrorKind::Corrupt)
    }
}

pub open spec fn parse_u8(b: Seq<u8>, p: nat) -> Parsed<u8> {
    if p < b.len() {
        Ok((b[p as int], p + 1))
    } else {
        Err(ErrorKind::Corrupt)
    }
}

/// The next `n` bytes as a little-endian number.
pub open spec fn parse_le(b: Seq<u8>, p: nat, n: nat) -> Parsed<nat> {
    if p + n <= b.len() {
        Ok((le_value(b.subrange(p as int, (p + n) as int)), p + n))
    } else {
        Err(ErrorKind::Corrupt)
    }
}

/// The next `n` bytes as a big-endian number.
pub open spec fn parse_be(b: Seq<u8>, p: nat, n: nat) -> Parsed<nat> {
    if p + n <= b.len() {
        Ok((be_value(b.subrange(p as int, (p + n) as int)), p + n))
    } else {
        Err(ErrorKind::Corrupt)
    }
}

pub open spec fn parse_i16(b: Seq<u8>, p: nat) -> Parsed<i16> {
    match parse_le(b, p, 2) {
        Ok((v, q)) => Ok((v as u16 as i16, q)),
        Err(k) => Err(k),
    }
}

pub open spec fn parse_i32(b: Seq<u8>, p: nat) -> Parsed<i32> {
    match parse_le(b, p, 4) {
        Ok((v, q)) => Ok((v as u32 as i32, q)),
        Err(k) => Err(k),
    }
}

pub open spec fn parse_i64(b: Seq<u8>, p: nat) -> Parsed<i64> {
    match parse_le(b, p, 8) {
        Ok((v, q)) => Ok((v as u64 as i64, q)),
        Err(k) => Err(k),
    }
}

pub open spec fn parse_be_i32(b: Seq<u8>, p: nat) -> Parsed<i32> {
    match parse_be(b, p, 4) {
        Ok((v, q)) => Ok((v as u32 as i32, q)),
        Err(k) => Err(k),
    }
}

/// The little-endian `i16` that stands at `p`.
pub open spec fn i16_at(b: Seq<u8>, p: nat) -> i16 {
    le_value(b.subrange(p as int, (p + 2) as int)) as u16 as i16
}

/// The little-endian `i32` that stands at `p`.
pub open spec fn i32_at(b: Seq<u8>, p: nat) -> i32 {
    le_value(b.subrange(p as int, (p + 4) as int)) as u32 as i32
}

/// The little-endian `i64` that stands at `p`.
pub open spec fn i64_at(b: Seq<u8>, p: nat) -> i64 {
    le_value(b.subrange(p as int, (p + 8) as int)) as u64 as i64
}

/// The number of bytes of the variable-length integer at `p`: those up to
/// and with the first byte below 128, which must be among the first `limit`.
pub open spec fn varint_extent(b: Seq<u8>, p: nat, limit: nat) -> Option<nat>
    decreases limit,
{
    if limit == 0 || p >= b.len() {
        None
    } else if b[p as int] < 128 {
        Some(1)
    } else {
        match varint_extent(b, p + 1, (limit - 1) as nat) {
            Some(k) => Some(k + 1),
            None => None,
        }
    }
}

/// The number whose 7-bit groups are the low bits of `s`, low group first.
pub open spec fn groups_value(s: Seq<u8>) -> nat
    decreases s.len(),
{
    if s.len() == 0 {
        0
    } else {
        (s[0] % 128) as nat + 128 * groups_value(s.drop_first())
    }
}

/// A variable-length integer of at most `limit` bytes.
pub open spec fn parse_varint(b: Seq<u8>, p: nat, limit: nat) -> Parsed<nat> {
    match varint_extent(b, p, limit) {
        Some(k) => Ok((groups_value(b.subrange(p as int, (p + k) as int)), p + k)),
        None => Err(ErrorKind::Corrupt),
    }
}

/// VInt: at most five groups; bits beyond the 32nd are dropped.
pub open spec fn parse_vint(b: Seq<u8>, p: nat) -> Parsed<i32> {
    match parse_varint(b, p, 5) {
        Ok((v, q)) => Ok(((v % 0x1_0000_0000) as u32 as i32, q)),
        Err(k) => Err(k),
    }
}

/// VLong: at most ten groups; bits beyond the 64th are dropped.
pub open spec fn parse_vlong(b: Seq<u8>, p: nat) -> Parsed<i64> {
    match parse_varint(b, p, 10) {
        Ok((v, q)) => Ok(((v % 0x1_0000_0000_0000_0000) as u64 as i64, q)),
        Err(k) => Err(k),
    }
}

/// UTF-8 text of `n` bytes.
pub open spec fn parse_text(b: Seq<u8>, p: nat, n: nat) -> Parsed<Seq<char>> {
    match parse_bytes(b, p, n) {
        Ok((s, q)) => if valid_utf8(s) {
            Ok((decode_utf8(s), q))
        } else {
            Err(ErrorKind::Corrupt)
        },
        Err(k) => Err(k),
    }
}

/// A string: its byte length as a VInt, then UTF-8 bytes.
pub open spec fn parse_string(b: Seq<u8>, p: nat) -> Parsed<Seq<char>> {
    match parse_vint(b, p) {
        Ok((n, q)) => if n < 0 {
            Err(ErrorKind::Corrupt)
        } else {
            parse_text(b, q, n as nat)
        },
        Err(k) => Err(k),
    }
}

/// The groups of `v`, low group first, all but the last marked with 128.
pub open spec fn varint_bytes(v: nat) -> Seq<u8>
    decreases v,
{
    if v < 128 {
        seq![v as u8]
    } else {
        seq![(v % 128 + 128) as u8] + varint_bytes(v / 128)
    }
}

/// An executed read `r` that moved a cursor from `before` to `after` did
/// what `expected` says.
pub open spec fn read_as<T>(r: Result<T>, before: &Cursor<'_>, after: &Cursor<'_>, expected: Parsed<T>) -> bool {
    &&& after.data() == before.data()
    &&& match expected {
        Ok((v, q)) => r == Ok::<T, Error>(v) && after.offset() == q,
        Err(k) => r matches Err(e) && e.kind() == k,
    }
}

/// Sequential reader over a byte slice.
#[derive(Debug, Clone)]
pub struct Cursor<'a> {
    bytes: &'a [u8],
    pos: usize,
}

impl<'a> Cursor<'a> {
    /// The bytes under the cursor.
    pub closed spec fn data(&self) -> Seq<u8> {
        self.bytes@
    }

    /// The position of the next byte.
    pub closed spec fn offset(&self) -> nat {
        self.pos as nat
    }

    pub fn new(bytes: &'a [u8]) -> (r: Cursor<'a>)
        ensures
            r.data() == bytes@,
            r.offset() == 0,
    {
        Cursor { bytes, pos: 0 }
    }

    pub fn at(bytes: &'a [u8], pos: usize) -> (r: Cursor<'a>)
        ensures
            r.data() == bytes@,
            r.offset() == pos,
    {
        Cursor { bytes, pos }
    }

    pub fn pos(&self) -> (r: usize)
        ensures
            r == self.offset(),
    {
        self.pos
    }

    pub fn remaining(&self) -> (r: usize)
        ensures
            r == (if self.offset() <= self.data().len() {
                self.data().len() - self.offset()
            } else {
                0
            }),
    {
        if self.pos <= self.bytes.len() {
            self.bytes.len() - self.pos
        } else {
            0
        }
    }

    pub fn seek(&mut self, pos: usize) -> (r: Result<()>)
        ensures
            final(self).data() == old(self).data(),
            pos <= old(self).data().len() ==> r is Ok && final(self).offset() == pos,
            pos > old(self).data().len() ==> (r matches Err(e) && e.kind() == ErrorKind::Corrupt)
                && final(self).offset() == old(self).offset(),
    {
        if pos > self.bytes.len() {
            return Err(Error::corrupt("seek beyond the end"));
        }
        self.pos = pos;
        Ok(())
    }

    pub fn take(&mut self, n: usize) -> (r: Result<&'a [u8]>)
        ensures
            final(self).data() == old(self).data(),
            match parse_bytes(old(self).data(), old(self).offset(), n as nat) {
                Ok((s, q)) => (r matches Ok(v) && v@ == s) && final(self).offset() == q,
                Err(k) => (r matches Err(e) && e.kind() == k) && final(self).offset() == old(self).offset(),
            },
    {
        if self.pos > self.bytes.len() || self.bytes.len() - self.pos < n {
            return Err(Error::corrupt("not enough bytes left"));
        }
        let out: &'a [u8] = slice_subrange(self.bytes, self.pos, self.pos + n);
        self.pos = self.pos + n;
        Ok(out)
    }

    pub fn skip(&mut self, n: usize) -> (r: Result<()>)
        ensures
            final(self).data() == old(self).data(),
            match parse_bytes(old(self).data(), old(self).offset(), n as nat) {
                Ok((s, q)) => r is Ok && final(self).offset() == q,
                Err(k) => (r matches Err(e) && e.kind() == k) && final(self).offset() == old(self).offset(),
            },
    {
        self.take(n)?;
        Ok(())
    }

    pub fn u8(&mut self) -> (r: Result<u8>)
        ensures
            read_as(r, old(self), final(self), parse_u8(old(self).data(), old(self).offset())),
            r is Err ==> final(self).offset() == old(self).offset(),
    {
        let s: &[u8] = self.take(1)?;
        Ok(s[0])
    }

    /// The next `n` bytes as a little-endian number.
    fn le(&mut self, n: usize) -> (r: Result<u64>)
        requires
            n <= 8,
        ensures
            final(self).data() == old(self).data(),
            match parse_le(old(self).data(), old(self).offset(), n as nat) {
                Ok((v, q)) => (r matches Ok(w) && w == v) && final(self).offset() == q,
                Err(k) => (r matches Err(e) && e.kind() == k) && final(self).offset() == old(self).offset(),
            },
    {
        let s: &[u8] = self.take(n)?;
        Ok(le_uint(s))
    }

    /// The next `n` bytes as a big-endian number.
    fn be(&mut self, n: usize) -> (r: Result<u64>)
        requires
            n <= 8,
        ensures
            final(self).data() == old(self).data(),
            match parse_be(old(self).data(), old(self).offset(), n as nat) {
                Ok((v, q)) => (r matches Ok(w) && w == v && v < pow2(8 * n as nat)) && final(self).offset() == q,
                Err(k) => (r matches Err(e) && e.kind() == k) && final(self).offset() == old(self).offset(),
            },
    {
        let s: &[u8] = self.take(n)?;
        proof {
            lemma_le_value_bound(s@.reverse());
        }
        Ok(be_uint(s))
    }

    pub fn le_i16(&mut self) -> (r: Result<i16>)
        ensures
            read_as(r, old(self), final(self), parse_i16(old(self).data(), old(self).offset())),
            r is Err ==> final(self).offset() == old(self).offset(),
    {
        let v: u64 = self.le(2)?;
        Ok(v as u16 as i16)
    }

    pub fn le_i32(&mut self) -> (r: Result<i32>)
        ensures
            read_as(r, old(self), final(self), parse_i32(old(self).data(), old(self).offset())),
            r is Err ==> final(self).offset() == old(self).offset(),
    {
        let v: u64 = self.le(4)?;
        Ok(v as u32 as i32)
    }

    pub fn le_i64(&mut self) -> (r: Result<i64>)
        ensures
            read_as(r, old(self), final(self), parse_i64(old(self).data(), old(self).offset())),
            r is Err ==> final(self).offset() == old(self).offset(),
    {
        let v: u64 = self.le(8)?;
        Ok(v as i64)
    }

    pub fn be_i32(&mut self) -> (r: Result<i32>)
        ensures
            read_as(r, old(self), final(self), parse_be_i32(old(self).data(), old(self).offset())),
            r is Err ==> final(self).offset() == old(self).offset(),
    {
        let v: u64 = self.be(4)?;
        Ok(v as u32 as i32)
    }

    pub fn be_u32(&mut self) -> (r: Result<u32>)
        ensures
            final(self).data() == old(self).data(),
            match parse_be(old(self).data(), old(self).offset(), 4) {
                Ok((v, q)) => (r matches Ok(w) && w == v) && final(self).offset() == q,
                Err(k) => (r matches Err(e) && e.kind() == k) && final(self).offset() == old(self).offset(),
            },
    {
        let v: u64 = self.be(4)?;
        proof {
            lemma2_to64();
        }
        Ok(v as u32)
    }

    pub fn be_u64(&mut self) -> (r: Result<u64>)
        ensures
            final(self).data() == old(self).data(),
            match parse_be(old(self).data(), old(self).offset(), 8) {
                Ok((v, q)) => (r matches Ok(w) && w == v) && final(self).offset() == q,
                Err(k) => (r matches Err(e) && e.kind() == k) && final(self).offset() == old(self).offset(),
            },
    {
        self.be(8)
    }

    /// A variable-length integer of at most `limit` groups.
    pub(crate) fn varint(&mut self, limit: usize) -> (r: Result<u128>)
        requires
            limit <= 10,
        ensures
            final(self).data() == old(self).data(),
            match parse_varint(old(self).data(), old(self).offset(), limit as nat) {
                Ok((v, q)) => (r matches Ok(w) && w == v) && final(self).offset() == q,
                Err(k) => (r matches Err(e) && e.kind() == k)
                    && final(self).offset() == varint_stop(old(self).data(), old(self).offset(), limit as nat),
            },
    {
        let mut value: u128 = 0;
        let mut scale: u128 = 1;
        let mut i: usize = 0;
        let ghost b = self.data();
        let ghost p = self.offset();
        proof {
            lemma2_to64();
            lemma_varint_extent_bound(b, p, limit as nat);
        }
        while i < limit
            invariant
                i <= limit <= 10,
                b == old(self).data(),
                p == old(self).offset(),
                self.data() == b,
                self.offset() == p + i,
                i == 0 || p + i <= b.len(),
                scale == pow2(7 * i as nat),
                value < scale,
                i <= limit ==> match varint_extent(b, p + i as nat, (limit - i) as nat) {
                    Some(k) => p + i + k <= b.len() && varint_extent(b, p, limit as nat) == Some(i as nat + k) && groups_value(b.subrange(p as int, p + i + k))
                        == value + scale * groups_value(b.subrange(p + i, p + i + k)),
                    None => varint_extent(b, p, limit as nat) is None,
                },
            decreases limit - i,
        {
            proof {
                lemma_varint_extent_bound(b, p + i as nat, (limit - i) as nat);
                lemma_varint_extent_bound(b, p + i as nat + 1, (limit - i - 1) as nat);
                lemma_pow2_adds(7 * i as nat, 7);
                lemma_pow2_mono(7 * i as nat, 70);
                lemma_pow2_mono(7 * i as nat + 7, 70);
                lemma_pow2_adds(64, 6);
                lemma2_to64();
            }
            let byte: u8 = match self.u8() {
                Ok(byte) => byte,
                Err(e) => {
                    assert(varint_extent(b, p + i as nat, (limit - i) as nat) is None);
                    return Err(e);
                },
            };
            let low: u128 = (byte % 128) as u128;
            proof {
                let k = varint_extent(b, p + i as nat, (limit - i) as nat);
                if k is Some {
                    let s = b.subrange(p + i, p + i + k->0);
                    assert(s[0] == byte);
                    assert(s.drop_first() =~= b.subrange(p + i + 1, p + i + k->0));
                    let g = groups_value(s.drop_first());
                    assert(groups_value(s) == low + 128 * g);
                    assert(scale * (low + 128 * g) == scale * low + (scale * 128) * g) by (nonlinear_arith);
                }
                assert(scale * low <= scale * 127) by (nonlinear_arith)
                    requires
                        low <= 127,
                ;
                if byte < 128 {
                    assert(b.subrange(p + i + 1, p + i + 1) =~= Seq::<u8>::empty());
                }
            }
            value = value + scale * low;
            scale = scale * 128;
            i = i + 1;
            if byte < 128 {
                return Ok(value);
            }
        }
        Err(Error::corrupt("variable-length integer too long"))
    }

    /// VInt: 7-bit groups, low group first, high bit marks continuation.
    pub fn vint(&mut self) -> (r: Result<i32>)
        ensures
            read_as(r, old(self), final(self), parse_vint(old(self).data(), old(self).offset())),
            r is Err ==> final(self).offset() == varint_stop(old(self).data(), old(self).offset(), 5),
    {
        let v: u128 = self.varint(5)?;
        Ok((v % 0x1_0000_0000) as u32 as i32)
    }

    pub fn vlong(&mut self) -> (r: Result<i64>)
        ensures
            read_as(r, old(self), final(self), parse_vlong(old(self).data(), old(self).offset())),
            r is Err ==> final(self).offset() == varint_stop(old(self).data(), old(self).offset(), 10),
    {
        let v: u128 = self.varint(10)?;
        Ok((v % 0x1_0000_0000_0000_0000) as u64 as i64)
    }

    /// A string: VInt byte length, then UTF-8 bytes.
    pub fn string(&mut self) -> (r: Result<String>)
        ensures
            final(self).data() == old(self).data(),
            match parse_string(old(self).data(), old(self).offset()) {
                Ok((s, q)) => (r matches Ok(v) && v@ == s) && final(self).offset() == q,
                Err(k) => r matches Err(e) && e.kind() == k,
            },
    {
        let len: i32 = self.vint()?;
        if len < 0 {
            return Err(Error::corrupt("negative string length"));
        }
        let bytes: &[u8] = self.take(len as usize)?;
        text_from_slice(bytes)
    }
}

/// Where a reader stands after giving up on a variable-length integer of at
/// most `limit` bytes: behind the last byte it could read.
pub open spec fn varint_stop(b: Seq<u8>, p: nat, limit: nat) -> nat {
    if p + limit <= b.len() {
        p + limit
    } else if p <= b.len() {
        b.len()
    } else {
        p
    }
}

pub proof fn lemma_varint_extent_bound(b: Seq<u8>, p: nat, limit: nat)
    ensures
        varint_extent(b, p, limit) matches Some(k) ==> 1 <= k <= limit && p + k <= b.len(),
    decreases limit,
{
    if limit > 0 && p < b.len() && b[p as int] >= 128 {
        lemma_varint_extent_bound(b, p + 1, (limit - 1) as nat);
    }
}

/// `CodecUtil.writeIndexHeader`: magic, codec name, version, segment id,
/// and a suffix behind its length in one byte.
pub open spec fn index_header_bytes(codec: Seq<u8>, version: i32, segment_id: Seq<u8>, suffix: Seq<u8>) -> Seq<u8> {
    be_bytes(CODEC_MAGIC as nat, 4) + (varint_bytes(codec.len()) + (codec + (be_i32(version) + (segment_id + (
    seq![suffix.len() as u8] + suffix)))))
}

/// What an index header says.
pub struct HeaderModel {
    pub codec: Seq<char>,
    pub version: i32,
    pub segment_id: Seq<u8>,
    pub suffix: Seq<char>,
    pub length: nat,
}

/// The index header that `b` begins with, where its codec name is `codec`
/// and its version within bounds.
pub open spec fn parse_index_header(b: Seq<u8>, codec: Seq<char>, min_version: i32, max_version: i32) -> std::result::Result<
    HeaderModel,
    ErrorKind,
> {
    match parse_be(b, 0, 4) {
        Err(k) => Err(k),
        Ok((magic, p1)) => if magic != CODEC_MAGIC {
            Err(ErrorKind::Corrupt)
        } else {
            match parse_string(b, p1) {
                Err(k) => Err(k),
                Ok((name, p2)) => if name != codec {
                    Err(ErrorKind::Corrupt)
                } else {
                    match parse_be_i32(b, p2) {
                        Err(k) => Err(k),
                        Ok((version, p3)) => if version < min_version || version > max_version {
                            Err(ErrorKind::Unsupported)
                        } else {
                            parse_header_tail(b, p3, name, version)
                        },
                    }
                },
            }
        },
    }
}

/// The segment id and suffix at `p`, behind the version of an index header.
pub open spec fn parse_header_tail(b: Seq<u8>, p: nat, codec: Seq<char>, version: i32) -> std::result::Result<
    HeaderModel,
    ErrorKind,
> {
    match parse_bytes(b, p, SEGMENT_ID_LENGTH as nat) {
        Err(k) => Err(k),
        Ok((segment_id, p1)) => match parse_u8(b, p1) {
            Err(k) => Err(k),
            Ok((n, p2)) => match parse_text(b, p2, n as nat) {
                Err(k) => Err(k),
                Ok((suffix, length)) => Ok(HeaderModel { codec, version, segment_id, suffix, length }),
            },
        },
    }
}

/// Parsed index header.
#[derive(Debug, Clone)]
pub struct IndexHeader {
    pub codec: String,
    pub version: i32,
    pub segment_id: [u8; SEGMENT_ID_LENGTH],
    pub suffix: String,
    /// Byte length of the header; payload starts here.
    pub length: usize,
}

impl View for IndexHeader {
    type V = HeaderModel;

    open spec fn view(&self) -> HeaderModel {
        HeaderModel {
            codec: self.codec@,
            version: self.version,
            segment_id: self.segment_id@,
            suffix: self.suffix@,
            length: self.length as nat,
        }
    }
}

/// The sixteen bytes of a segment id.
pub fn segment_id_from(s: &[u8]) -> (r: [u8; SEGMENT_ID_LENGTH])
    requires
        s@.len() == SEGMENT_ID_LENGTH,
    ensures
        r@ == s@,
{
    let mut id: [u8; SEGMENT_ID_LENGTH] = [0; SEGMENT_ID_LENGTH];
    let mut i: usize = 0;
    while i < SEGMENT_ID_LENGTH
        invariant
            s@.len() == SEGMENT_ID_LENGTH,
            i <= SEGMENT_ID_LENGTH,
            forall|k: int| 0 <= k < i ==> id@[k] == s@[k],
        decreases SEGMENT_ID_LENGTH - i,
    {
        id[i] = s[i];
        i = i + 1;
    }
    assert(id@ =~= s@);
    id
}

/// Parse and validate an index header at the start of `bytes`.
pub fn read_index_header(bytes: &[u8], expected_codec: &str, min_version: i32, max_version: i32) -> (r: Result<
    IndexHeader,
>)
    ensures
        match parse_index_header(bytes@, expected_codec@, min_version, max_version) {
            Ok(h) => r matches Ok(v) && v@ == h,
            Err(k) => r matches Err(e) && e.kind() == k,
        },
{
    let mut c: Cursor<'_> = Cursor::new(bytes);
    let magic: u32 = c.be_u32()?;
    if magic != CODEC_MAGIC {
        return Err(Error::corrupt("bad codec magic"));
    }
    let codec: String = c.string()?;
    if !same_text(codec.as_str(), expected_codec) {
        return Err(Error::corrupt("unexpected codec name"));
    }
    let version: i32 = c.be_i32()?;
    if version < min_version || version > max_version {
        return Err(Error::unsupported("codec version outside the supported range"));
    }
    let segment_id: [u8; SEGMENT_ID_LENGTH] = segment_id_from(c.take(SEGMENT_ID_LENGTH)?);
    let suffix_len: u8 = c.u8()?;
    let suffix: String = text_from_slice(c.take(suffix_len as usize)?)?;
    Ok(IndexHeader { codec, version, segment_id, suffix, length: c.pos() })
}

/// CRC-32 of a byte string.
pub uninterp spec fn crc32_of(bytes: Seq<u8>) -> u32;

/// Wraps `crc32fast::hash`, whose result is a function of the bytes alone:
/// their CRC-32 with the IEEE polynomial.
#[verifier::external_body]
pub(crate) fn crc32(bytes: &[u8]) -> (r: u32)
    ensures
        r == crc32_of(bytes@),
{
    crc32fast::hash(bytes)
}

/// A footer that records the checksum `crc`: magic, algorithm 0, checksum.
pub open spec fn footer_bytes(crc: u32) -> Seq<u8> {
    be_bytes(FOOTER_MAGIC as nat, 4) + (be_i32(0) + be_bytes(crc as nat, 8))
}

/// The last sixteen bytes of `b` are a footer that records `crc`.
pub open spec fn ends_with_footer(b: Seq<u8>, crc: u32) -> bool {
    b.len() >= FOOTER_LENGTH && b.subrange(b.len() - FOOTER_LENGTH, b.len() as int) == footer_bytes(crc)
}

/// `b` ends with a footer that records the checksum of everything before
/// the stored checksum.
pub open spec fn footer_valid(b: Seq<u8>) -> bool {
    ends_with_footer(b, crc32_of(b.subrange(0, b.len() - 8)))
}

/// Whether `bytes` end with a footer that records the checksum `actual`.
pub fn check_footer(bytes: &[u8], actual: u32) -> (r: Result<()>)
    ensures
        r is Ok <==> ends_with_footer(bytes@, actual),
        r matches Err(e) ==> e.kind() == ErrorKind::Corrupt,
{
    if bytes.len() < FOOTER_LENGTH {
        return Err(Error::corrupt("file shorter than codec footer"));
    }
    let ghost b = bytes@;
    let ghost n = b.len() as int;
    let mut c: Cursor<'_> = Cursor::at(bytes, bytes.len() - FOOTER_LENGTH);
    proof {
        lemma2_to64();
        let tail = b.subrange(n - 16, n);
        let f = footer_bytes(actual);
        lemma_be_round_trip(FOOTER_MAGIC as nat, 4);
        lemma_be_round_trip((0i32 as u32) as nat, 4);
        lemma_be_round_trip(actual as nat, 8);
        lemma_be_spelling(b.subrange(n - 16, n - 12), FOOTER_MAGIC as nat);
        lemma_be_spelling(b.subrange(n - 12, n - 8), (0i32 as u32) as nat);
        lemma_be_spelling(b.subrange(n - 8, n), actual as nat);
        assert(tail =~= b.subrange(n - 16, n - 12) + (b.subrange(n - 12, n - 8) + b.subrange(n - 8, n)));
        assert(f.subrange(0, 4) =~= be_bytes(FOOTER_MAGIC as nat, 4));
        assert(f.subrange(4, 8) =~= be_i32(0));
        assert(f.subrange(8, 16) =~= be_bytes(actual as nat, 8));
        assert(tail.subrange(0, 4) =~= b.subrange(n - 16, n - 12));
        assert(tail.subrange(4, 8) =~= b.subrange(n - 12, n - 8));
        assert(tail.subrange(8, 16) =~= b.subrange(n - 8, n));
    }
    let magic: u32 = c.be_u32()?;
    if magic != FOOTER_MAGIC {
        return Err(Error::corrupt("bad footer magic"));
    }
    let algorithm: u32 = c.be_u32()?;
    if algorithm != 0 {
        return Err(Error::corrupt("unknown checksum algorithm"));
    }
    let stored: u64 = c.be_u64()?;
    if stored > 0xFFFF_FFFF {
        return Err(Error::corrupt("checksum exceeds 32 bits"));
    }
    if stored != actual as u64 {
        return Err(Error::corrupt("checksum mismatch"));
    }
    Ok(())
}

/// Verify the codec footer (magic, algorithm 0, CRC-32 of everything before
/// the stored checksum).
pub fn verify_footer(bytes: &[u8]) -> (r: Result<()>)
    ensures
        r is Ok <==> footer_valid(bytes@),
        r matches Err(e) ==> e.kind() == ErrorKind::Corrupt,
{
    if bytes.len() < FOOTER_LENGTH {
        return Err(Error::corrupt("file shorter than codec footer"));
    }
    check_footer(bytes, crc32(slice_subrange(bytes, 0, bytes.len() - 8)))
}

/// Append a VInt.
pub fn write_vint(out: &mut Vec<u8>, v: u32)
    ensures
        final(out)@ == old(out)@ + varint_bytes(v as nat),
{
    write_vlong(out, v as u64);
}

/// Append a VLong.
pub fn write_vlong(out: &mut Vec<u8>, v: u64)
    ensures
        final(out)@ == old(out)@ + varint_bytes(v as nat),
{
    let mut rest: u64 = v;
    while rest >= 128
        invariant
            out@ + varint_bytes(rest as nat) == old(out)@ + varint_bytes(v as nat),
        decreases rest,
    {
        let ghost before = out@;
        out.push((rest % 128 + 128) as u8);
        assert(before + varint_bytes(rest as nat) =~= out@ + varint_bytes((rest / 128) as nat));
        rest = rest / 128;
    }
    let ghost before = out@;
    out.push(rest as u8);
    assert(out@ =~= before + varint_bytes(rest as nat));
}

/// Append the bytes of an index header.
pub fn write_index_header(
    out: &mut Vec<u8>,
    codec: &str,
    version: i32,
    segment_id: &[u8; SEGMENT_ID_LENGTH],
    suffix: &str,
)
    requires
        encode_utf8(codec@).len() <= u32::MAX,
        encode_utf8(suffix@).len() < 256,
    ensures
        final(out)@ == old(out)@ + index_header_bytes(
            encode_utf8(codec@),
            version,
            segment_id@,
            encode_utf8(suffix@),
        ),
{
    let ghost start = out@;
    let name: &[u8] = codec.as_bytes();
    let tail: &[u8] = suffix.as_bytes();
    push_be(out, CODEC_MAGIC as u64, 4);
    write_vint(out, name.len() as u32);
    out.extend_from_slice(name);
    push_be_i32(out, version);
    out.extend_from_slice(segment_id.as_slice());
    out.push(tail.len() as u8);
    out.extend_from_slice(tail);
    assert(out@ =~= start + index_header_bytes(encode_utf8(codec@), version, segment_id@, encode_utf8(suffix@)));
}

/// Append a footer that records the checksum `crc`, but for its magic and
/// algorithm, which the checksum already covers.
pub fn write_checksum(out: &mut Vec<u8>, crc: u32)
    ensures
        final(out)@ == old(out)@ + be_bytes(crc as nat, 8),
{
    push_be(out, crc as u64, 8);
}

/// `b` with a footer behind it.
pub open spec fn with_footer(b: Seq<u8>) -> Seq<u8> {
    let head = b + be_bytes(FOOTER_MAGIC as nat, 4) + be_i32(0);
    head + be_bytes(crc32_of(head) as nat, 8)
}

/// Append the codec footer: magic, algorithm 0, CRC-32 of everything
/// written so far with the magic and algorithm words.
pub fn write_footer(out: &mut Vec<u8>)
    ensures
        final(out)@ == with_footer(old(out)@),
{
    push_be(out, FOOTER_MAGIC as u64, 4);
    push_be_i32(out, 0);
    let crc: u32 = crc32(out.as_slice());
    write_checksum(out, crc);
}

// Reading back what was written.

pub proof fn lemma_stands_split(b: Seq<u8>, p: nat, s: Seq<u8>, t: Seq<u8>)
    ensures
        stands_at(b, p, s + t) <==> stands_at(b, p, s) && stands_at(b, p + s.len(), t),
{
    if p + s.len() + t.len() <= b.len() {
        let w = b.subrange(p as int, (p + s.len() + t.len()) as int);
        assert(w.subrange(0, s.len() as int) =~= b.subrange(p as int, (p + s.len()) as int));
        assert(w.subrange(s.len() as int, w.len() as int) =~= b.subrange(
            (p + s.len()) as int,
            (p + s.len() + t.len()) as int,
        ));
        assert((s + t).subrange(0, s.len() as int) =~= s);
        assert((s + t).subrange(s.len() as int, (s + t).len() as int) =~= t);
        assert(w =~= w.subrange(0, s.len() as int) + w.subrange(s.len() as int, w.len() as int));
    }
}

pub proof fn lemma_parse_le_at(b: Seq<u8>, p: nat, v: nat, n: nat)
    requires
        v < pow2(8 * n),
        stands_at(b, p, le_bytes(v, n)),
    ensures
        parse_le(b, p, n) == Ok::<(nat, nat), ErrorKind>((v, p + n)),
{
    lemma_le_round_trip(v, n);
}

pub proof fn lemma_parse_be_at(b: Seq<u8>, p: nat, v: nat, n: nat)
    requires
        v < pow2(8 * n),
        stands_at(b, p, be_bytes(v, n)),
    ensures
        parse_be(b, p, n) == Ok::<(nat, nat), ErrorKind>((v, p + n)),
{
    lemma_be_round_trip(v, n);
}

pub proof fn lemma_parse_i64_at(b: Seq<u8>, p: nat, v: i64)
    requires
        stands_at(b, p, le_i64(v)),
    ensures
        parse_i64(b, p) == Ok::<(i64, nat), ErrorKind>((v, p + 8)),
        le_i64(v).len() == 8,
{
    lemma2_to64();
    lemma_signed_casts();
    lemma_le_round_trip((v as u64) as nat, 8);
    lemma_parse_le_at(b, p, (v as u64) as nat, 8);
}

pub proof fn lemma_parse_i32_at(b: Seq<u8>, p: nat, v: i32)
    requires
        stands_at(b, p, le_i32(v)),
    ensures
        parse_i32(b, p) == Ok::<(i32, nat), ErrorKind>((v, p + 4)),
        le_i32(v).len() == 4,
{
    lemma2_to64();
    lemma_signed_casts();
    lemma_le_round_trip((v as u32) as nat, 4);
    lemma_parse_le_at(b, p, (v as u32) as nat, 4);
}

pub proof fn lemma_parse_i16_at(b: Seq<u8>, p: nat, v: i16)
    requires
        stands_at(b, p, le_i16(v)),
    ensures
        parse_i16(b, p) == Ok::<(i16, nat), ErrorKind>((v, p + 2)),
        le_i16(v).len() == 2,
{
    lemma2_to64();
    lemma_signed_casts();
    lemma_le_round_trip((v as u16) as nat, 2);
    lemma_parse_le_at(b, p, (v as u16) as nat, 2);
}

pub proof fn lemma_parse_be_i32_at(b: Seq<u8>, p: nat, v: i32)
    requires
        stands_at(b, p, be_i32(v)),
    ensures
        parse_be_i32(b, p) == Ok::<(i32, nat), ErrorKind>((v, p + 4)),
        be_i32(v).len() == 4,
{
    lemma2_to64();
    lemma_signed_casts();
    lemma_be_round_trip((v as u32) as nat, 4);
    lemma_parse_be_at(b, p, (v as u32) as nat, 4);
}

/// A variable-length integer reads back as the number that was written.
pub proof fn law_varint_round_trip(b: Seq<u8>, p: nat, v: nat, limit: nat)
    requires
        limit > 0,
        v < pow2(7 * limit),
        stands_at(b, p, varint_bytes(v)),
    ensures
        parse_varint(b, p, limit) == Ok::<(nat, nat), ErrorKind>((v, p + varint_bytes(v).len())),
        varint_extent(b, p, limit) == Some(varint_bytes(v).len()),
    decreases v,
{
    let s = varint_bytes(v);
    let w = b.subrange(p as int, (p + s.len()) as int);
    assert(w[0] == b[p as int]);
    reveal_with_fuel(groups_value, 2);
    if v < 128 {
        assert(w.drop_first() =~= Seq::<u8>::empty());
        assert(b[p as int] == v as u8);
    } else {
        let t = varint_bytes(v / 128);
        lemma_stands_split(b, p, seq![(v % 128 + 128) as u8], t);
        lemma2_to64();
        if limit == 1 {
            assert(false);
        }
        lemma_pow2_adds(7, (7 * (limit - 1)) as nat);
        assert(7 + 7 * (limit - 1) == 7 * limit);
        law_varint_round_trip(b, p + 1, v / 128, (limit - 1) as nat);
        assert(b[p as int] == (v % 128 + 128) as u8);
        assert(w.drop_first() =~= b.subrange((p + 1) as int, (p + 1 + t.len()) as int));
        assert(b[p as int] % 128 == v % 128);
    }
}

/// A written VInt reads back as the number it was written for.
pub proof fn law_vint_round_trip(b: Seq<u8>, p: nat, v: u32)
    requires
        stands_at(b, p, varint_bytes(v as nat)),
    ensures
        parse_vint(b, p) == Ok::<(i32, nat), ErrorKind>((v as i32, p + varint_bytes(v as nat).len())),
{
    lemma2_to64();
    lemma_pow2_mono(32, 35);
    law_varint_round_trip(b, p, v as nat, 5);
}

/// A written VLong reads back as the number it was written for.
pub proof fn law_vlong_round_trip(b: Seq<u8>, p: nat, v: u64)
    requires
        stands_at(b, p, varint_bytes(v as nat)),
    ensures
        parse_vlong(b, p) == Ok::<(i64, nat), ErrorKind>((v as i64, p + varint_bytes(v as nat).len())),
{
    lemma2_to64();
    lemma_pow2_mono(64, 70);
    law_varint_round_trip(b, p, v as nat, 10);
}

/// Reading an index header back gives what was written, wherever codec name
/// and version are the expected ones.
#[verifier::rlimit(50)]
#[verifier::spinoff_prover]
pub proof fn law_header_round_trip(
    codec: Seq<char>,
    version: i32,
    segment_id: Seq<u8>,
    suffix: Seq<char>,
    rest: Seq<u8>,
    min_version: i32,
    max_version: i32,
)
    requires
        encode_utf8(codec).len() <= i32::MAX,
        encode_utf8(suffix).len() < 256,
        segment_id.len() == SEGMENT_ID_LENGTH,
        min_version <= version <= max_version,
    ensures
        ({
            let h = index_header_bytes(encode_utf8(codec), version, segment_id, encode_utf8(suffix));
            parse_index_header(h + rest, codec, min_version, max_version) == Ok::<HeaderModel, ErrorKind>(
                HeaderModel { codec, version, segment_id, suffix, length: h.len() },
            )
        }),
{
    let name = encode_utf8(codec);
    let tail = encode_utf8(suffix);
    let h = index_header_bytes(name, version, segment_id, tail);
    let b = h + rest;
    assert(b.subrange(0, h.len() as int) =~= h);
    let s5 = seq![tail.len() as u8] + tail;
    let s4 = segment_id + s5;
    let s3 = be_i32(version) + s4;
    let s2 = name + s3;
    let s1 = varint_bytes(name.len()) + s2;
    lemma2_to64();
    lemma_be_round_trip(CODEC_MAGIC as nat, 4);
    lemma_stands_split(b, 0, be_bytes(CODEC_MAGIC as nat, 4), s1);
    lemma_parse_be_at(b, 0, CODEC_MAGIC as nat, 4);
    lemma_stands_split(b, 4, varint_bytes(name.len()), s2);
    law_vint_round_trip(b, 4, name.len() as u32);
    let p2 = 4 + varint_bytes(name.len()).len();
    lemma_stands_split(b, p2, name, s3);
    encode_utf8_valid_utf8(codec);
    encode_utf8_decode_utf8(codec);
    encode_utf8_valid_utf8(suffix);
    encode_utf8_decode_utf8(suffix);
    let p3 = p2 + name.len();
    lemma_stands_split(b, p3, be_i32(version), s4);
    lemma_parse_be_i32_at(b, p3, version);
    lemma_stands_split(b, p3 + 4, segment_id, s5);
    lemma_stands_split(b, p3 + 20, seq![tail.len() as u8], tail);
    assert(b[(p3 + 20) as int] == tail.len() as u8) by {
        assert(b.subrange((p3 + 20) as int, (p3 + 21) as int)[0] == tail.len() as u8);
    }
}

/// A written footer is valid.
pub proof fn law_footer_round_trip(b: Seq<u8>)
    ensures
        footer_valid(with_footer(b)),
        with_footer(b).len() == b.len() + FOOTER_LENGTH,
        with_footer(b).subrange(0, b.len() as int) == b,
{
    let head = b + be_bytes(FOOTER_MAGIC as nat, 4) + be_i32(0);
    let w = with_footer(b);
    lemma2_to64();
    lemma_be_round_trip(FOOTER_MAGIC as nat, 4);
    lemma_be_round_trip((0i32 as u32) as nat, 4);
    lemma_be_round_trip(crc32_of(head) as nat, 8);
    assert(w.subrange(0, w.len() - 8) =~= head);
    assert(w.subrange(w.len() - 16, w.len() as int) =~= footer_bytes(crc32_of(head)));
    assert(w.subrange(0, b.len() as int) =~= b);
}

/// A string: its byte length as a VInt, then its UTF-8 bytes.
pub open spec fn string_bytes(s: Seq<char>) -> Seq<u8> {
    varint_bytes((encode_utf8(s).len() as u32) as nat) + encode_utf8(s)
}

/// Append a string.
pub fn write_string(out: &mut Vec<u8>, s: &str)
    ensures
        final(out)@ == old(out)@ + string_bytes(s@),
{
    let bytes: &[u8] = s.as_bytes();
    write_vint(out, bytes.len() as u32);
    out.extend_from_slice(bytes);
    assert(out@ =~= old(out)@ + string_bytes(s@));
}

/// A written string reads back as it was.
pub proof fn law_string_round_trip(b: Seq<u8>, p: nat, s: Seq<char>)
    requires
        encode_utf8(s).len() <= i32::MAX,
        stands_at(b, p, string_bytes(s)),
    ensures
        parse_string(b, p) == Ok::<(Seq<char>, nat), ErrorKind>((s, p + string_bytes(s).len())),
{
    let bytes = encode_utf8(s);
    lemma_stands_split(b, p, varint_bytes(bytes.len()), bytes);
    law_vint_round_trip(b, p, bytes.len() as u32);
    encode_utf8_valid_utf8(s);
    encode_utf8_decode_utf8(s);
}

/// A file whose footer is accepted is one that the writer of footers made:
/// magic, algorithm and checksum all count.
pub proof fn law_footer_exact(b: Seq<u8>)
    requires
        footer_valid(b),
    ensures
        b.len() >= 16,
        b == with_footer(b.take(b.len() - 16)),
{
    let body = b.take(b.len() - 16);
    let tail = b.subrange(b.len() - 16, b.len() as int);
    let crc = crc32_of(b.subrange(0, b.len() - 8));
    assert(b =~= body + tail);
    lemma2_to64();
    lemma_be_round_trip(FOOTER_MAGIC as nat, 4);
    lemma_be_round_trip((0i32 as u32) as nat, 4);
    let head = body + be_bytes(FOOTER_MAGIC as nat, 4) + be_i32(0);
    assert(b.subrange(0, b.len() - 8) =~= head) by {
        lemma_be_round_trip(crc as nat, 8);
        assert(head =~= (body + footer_bytes(crc)).take(b.len() - 8));
    }
    assert(b =~= head + be_bytes(crc as nat, 8));
}

/// A header that is accepted names the expected codec and a version within
/// bounds behind the magic number, and what it says of segment and suffix
/// stands in front of the body.
pub proof fn law_header_exact(b: Seq<u8>, codec: Seq<char>, min_version: i32, max_version: i32)
    requires
        parse_index_header(b, codec, min_version, max_version) is Ok,
    ensures
        ({
            let h = parse_index_header(b, codec, min_version, max_version)->Ok_0;
            let n = encode_utf8(h.suffix).len();
            &&& b.subrange(0, 4) == seq![0x3Fu8, 0xD7u8, 0x6Cu8, 0x17u8]
            &&& h.codec == codec
            &&& min_version <= h.version <= max_version
            &&& 21 + n <= h.length <= b.len()
            &&& be_value(b.subrange(h.length - n - 21, h.length - n - 17)) == h.version as u32
            &&& b.subrange(h.length - n - 17, h.length - n - 1) == h.segment_id
            &&& b[h.length - n - 1] == n
            &&& b.subrange(h.length - n, h.length as int) == encode_utf8(h.suffix)
        }),
{
    let h = parse_index_header(b, codec, min_version, max_version)->Ok_0;
    lemma_magic_bytes(b.subrange(0, 4));
    let (name, p2) = parse_string(b, 4)->Ok_0;
    let n = b[(p2 + 20) as int] as nat;
    let s = b.subrange((p2 + 21) as int, (p2 + 21 + n) as int);
    lemma_decoded(s);
    lemma2_to64();
    crate::bytes::lemma_le_value_bound(b.subrange(p2 as int, (p2 + 4) as int).reverse());
    lemma_signed_casts();
}

/// Text that was decoded is encoded as the bytes it came from.
proof fn lemma_decoded(s: Seq<u8>)
    requires
        valid_utf8(s),
    ensures
        encode_utf8(decode_utf8(s)) == s,
{
    vstd::utf8::decode_utf8_encode_utf8(s);
}

/// The magic number, byte by byte.
proof fn lemma_magic_bytes(s: Seq<u8>)
    requires
        s.len() == 4,
        be_value(s) == CODEC_MAGIC,
    ensures
        s == seq![0x3Fu8, 0xD7u8, 0x6Cu8, 0x17u8],
{
    reveal_with_fuel(crate::bytes::le_value, 5);
    let r = s.reverse();
    assert(r.drop_first().drop_first().drop_first().drop_first().len() == 0);
    assert(s =~= seq![0x3Fu8, 0xD7u8, 0x6Cu8, 0x17u8]);
}

/// Nothing is read past the end: what does not lie whole in the bytes is
/// corruption.
pub proof fn law_truncated_refused(b: Seq<u8>, p: nat, n: nat)
    requires
        p + n > b.len(),
    ensures
        parse_bytes(b, p, n) is Err,
        n >= 1 && p >= b.len() ==> parse_u8(b, p) is Err,
        parse_le(b, p, n) is Err,
        parse_be(b, p, n) is Err,
        n == 2 ==> parse_i16(b, p) is Err,
        n == 4 ==> parse_i32(b, p) is Err && parse_be_i32(b, p) is Err,
        n == 8 ==> parse_i64(b, p) is Err,
        parse_text(b, p, n) is Err,
{
}

/// A variable-length integer must end within its limit: where as many bytes
/// as that, or all that are left, ask for another, it is corruption.
pub proof fn law_endless_varint_refused(b: Seq<u8>, p: nat, limit: nat)
    requires
        forall|i: int| p <= i < p + limit && i < b.len() ==> (#[trigger] b[i]) >= 128,
    ensures
        parse_varint(b, p, limit) is Err,
    decreases limit,
{
    if limit > 0 && p < b.len() {
        law_endless_varint_refused(b, p + 1, (limit - 1) as nat);
    }
}

/// A header of another version is told apart from a damaged one: with other
/// bounds on the version the same bytes are accepted as they are, or refused
/// as unsupported where the version is out of bounds; all else is corruption.
pub proof fn law_versions_told_apart(b: Seq<u8>, codec: Seq<char>, min_version: i32, max_version: i32)
    ensures
        match parse_index_header(b, codec, i32::MIN, i32::MAX) {
            Ok(h) => parse_index_header(b, codec, min_version, max_version) == (if min_version <= h.version
                <= max_version {
                Ok::<HeaderModel, ErrorKind>(h)
            } else {
                Err(ErrorKind::Unsupported)
            }),
            Err(k) => k == ErrorKind::Corrupt && parse_index_header(b, codec, min_version, max_version) is Err,
        },
{
}

} // verus!
