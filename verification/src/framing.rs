//! Codec framing of whole files: header checked against what a caller
//! expects, footer checked against the bytes.

use vstd::prelude::*;
use vstd::utf8::encode_utf8;
use crate::cursor;
use crate::cursor::{footer_valid, parse_be_i32, parse_text, parse_varint, Cursor};
use crate::error::{Error, ErrorKind, Result};
use crate::text::{same_bytes, same_text, text_from_slice};

verus! {

/// Magic at the start of every codec header.
pub const CODEC_MAGIC: i32 = 0x3FD7_6C17;

/// Magic of the footer: the complement of [`CODEC_MAGIC`].
pub const FOOTER_MAGIC: i32 = -0x3FD7_6C18;

/// Footer length in bytes: magic, algorithm, stored checksum.
pub const FOOTER_LENGTH: usize = 16;

/// Length of a segment id in bytes.
pub const ID_LENGTH: usize = 16;

/// Where the body of a file starts whose header says what is expected.
pub open spec fn header_end(
    b: Seq<u8>,
    codec: Seq<char>,
    min_version: i32,
    max_version: i32,
    segment_id: Seq<u8>,
    suffix: Seq<u8>,
) -> Option<nat> {
    match parse_be_i32(b, 0) {
        Ok((magic, p1)) if magic == CODEC_MAGIC => match parse_varint(b, p1, 5) {
            Ok((len, p2)) if len <= u32::MAX => match parse_text(b, p2, len) {
                Ok((name, p3)) if name == codec => match parse_be_i32(b, p3) {
                    Ok((version, p4)) if min_version <= version <= max_version => header_tail_end(
                        b,
                        p4,
                        segment_id,
                        suffix,
                    ),
                    _ => None,
                },
                _ => None,
            },
            _ => None,
        },
        _ => None,
    }
}

/// Where a header ends whose segment id and suffix stand at `p`.
pub open spec fn header_tail_end(b: Seq<u8>, p: nat, segment_id: Seq<u8>, suffix: Seq<u8>) -> Option<nat> {
    let q = p + ID_LENGTH as nat;
    if p + ID_LENGTH + 1 > b.len() || b.subrange(p as int, q as int) != segment_id {
        None
    } else {
        let n = b[q as int] as nat;
        if q + 1 + n > b.len() || b.subrange(q as int + 1, (q + 1 + n) as int) != suffix {
            None
        } else {
            Some(q + 1 + n)
        }
    }
}

/// Parses and validates a codec header at the start of `bytes`: magic, codec
/// name, version range, segment id, suffix. Returns where the file body
/// starts.
pub fn check_index_header(
    bytes: &[u8],
    expected_codec_name: &str,
    min_version: i32,
    max_version: i32,
    expected_segment_id: &[u8; ID_LENGTH],
    expected_suffix: &str,
) -> (r: Result<usize>)
    ensures
        match header_end(
            bytes@,
            expected_codec_name@,
            min_version,
            max_version,
            expected_segment_id@,
            encode_utf8(expected_suffix@),
        ) {
            Some(q) => r matches Ok(n) && n == q,
            None => r matches Err(e) && e.kind() == ErrorKind::Corrupt,
        },
{
    let mut c: Cursor<'_> = Cursor::new(bytes);
    let magic: i32 = c.be_i32()?;
    if magic != CODEC_MAGIC {
        return Err(Error::corrupt("codec magic mismatch"));
    }
    let len: u128 = c.varint(5)?;
    if len > 0xFFFF_FFFF {
        return Err(Error::corrupt("vint overflows u32"));
    }
    if len > bytes.len() as u128 {
        return Err(Error::corrupt("truncated header"));
    }
    let codec: String = text_from_slice(c.take(len as usize)?)?;
    if !same_text(codec.as_str(), expected_codec_name) {
        return Err(Error::corrupt("codec name mismatch"));
    }
    let version: i32 = c.be_i32()?;
    if version < min_version || version > max_version {
        return Err(Error::corrupt("version out of range"));
    }
    let id: &[u8] = c.take(ID_LENGTH)?;
    if !same_bytes(id, expected_segment_id.as_slice()) {
        return Err(Error::corrupt("object id mismatch"));
    }
    let suffix_len: u8 = c.u8()?;
    let suffix: &[u8] = c.take(suffix_len as usize)?;
    if !same_bytes(suffix, expected_suffix.as_bytes()) {
        return Err(Error::corrupt("segment suffix mismatch"));
    }
    Ok(c.pos())
}

/// Verifies the codec footer at the end of `bytes`. The checksum covers
/// everything but its own stored bytes.
pub fn verify_footer(bytes: &[u8]) -> (r: Result<()>)
    ensures
        r is Ok <==> footer_valid(bytes@),
        r matches Err(e) ==> e.kind() == ErrorKind::Corrupt,
{
    cursor::verify_footer(bytes)
}

/// Segment id and suffix are accepted where they stand.
proof fn lemma_tail_accepted(b: Seq<u8>, p: nat, segment_id: Seq<u8>, suffix: Seq<u8>)
    requires
        segment_id.len() == ID_LENGTH,
        suffix.len() < 256,
        cursor::stands_at(b, p, segment_id + (seq![suffix.len() as u8] + suffix)),
    ensures
        header_tail_end(b, p, segment_id, suffix) == Some(p + 17 + suffix.len()),
{
    let n = seq![suffix.len() as u8];
    cursor::lemma_stands_split(b, p, segment_id, n + suffix);
    cursor::lemma_stands_split(b, p + 16, n, suffix);
    assert(b[(p + 16) as int] == suffix.len() as u8) by {
        assert(b.subrange((p + 16) as int, (p + 17) as int)[0] == n[0]);
    }
}

/// The codec name is accepted where it stands.
proof fn lemma_name_accepted(b: Seq<u8>, p: nat, codec: Seq<char>)
    requires
        cursor::stands_at(b, p, encode_utf8(codec)),
    ensures
        parse_text(b, p, encode_utf8(codec).len()) == Ok::<(Seq<char>, nat), ErrorKind>(
            (codec, p + encode_utf8(codec).len()),
        ),
{
    vstd::utf8::encode_utf8_valid_utf8(codec);
    vstd::utf8::encode_utf8_decode_utf8(codec);
}

/// The magic number is accepted where it stands.
proof fn lemma_magic_accepted(b: Seq<u8>)
    requires
        cursor::stands_at(b, 0, crate::bytes::be_bytes(cursor::CODEC_MAGIC as nat, 4)),
    ensures
        parse_be_i32(b, 0) == Ok::<(i32, nat), ErrorKind>((CODEC_MAGIC, 4)),
{
    crate::bytes::lemma_signed_casts();
    assert((CODEC_MAGIC as u32) == cursor::CODEC_MAGIC);
    cursor::lemma_parse_be_i32_at(b, 0, CODEC_MAGIC);
}

/// Where the parts of a written header stand.
proof fn lemma_header_parts(b: Seq<u8>, name: Seq<u8>, version: i32, segment_id: Seq<u8>, suffix: Seq<u8>)
    requires
        cursor::stands_at(b, 0, cursor::index_header_bytes(name, version, segment_id, suffix)),
        segment_id.len() == ID_LENGTH,
    ensures
        ({
            let p = 4 + cursor::varint_bytes(name.len()).len();
            let q = p + name.len();
            &&& cursor::stands_at(b, 0, crate::bytes::be_bytes(cursor::CODEC_MAGIC as nat, 4))
            &&& cursor::stands_at(b, 4, cursor::varint_bytes(name.len()))
            &&& cursor::stands_at(b, p, name)
            &&& cursor::stands_at(b, q, crate::bytes::be_i32(version))
            &&& cursor::stands_at(b, q + 4, segment_id + (seq![suffix.len() as u8] + suffix))
            &&& cursor::index_header_bytes(name, version, segment_id, suffix).len() == q + 21 + suffix.len()
        }),
{
    let s4 = segment_id + (seq![suffix.len() as u8] + suffix);
    let s3 = crate::bytes::be_i32(version) + s4;
    let s2 = name + s3;
    let s1 = cursor::varint_bytes(name.len()) + s2;
    let p = 4 + cursor::varint_bytes(name.len()).len();
    crate::bytes::lemma_le_bytes_len(cursor::CODEC_MAGIC as nat, 4);
    crate::bytes::lemma_le_bytes_len((version as u32) as nat, 4);
    cursor::lemma_stands_split(b, 0, crate::bytes::be_bytes(cursor::CODEC_MAGIC as nat, 4), s1);
    cursor::lemma_stands_split(b, 4, cursor::varint_bytes(name.len()), s2);
    cursor::lemma_stands_split(b, p, name, s3);
    cursor::lemma_stands_split(b, p + name.len(), crate::bytes::be_i32(version), s4);
}

/// The length of a codec name is accepted where it stands.
proof fn lemma_length_accepted(b: Seq<u8>, n: nat)
    requires
        n <= u32::MAX,
        cursor::stands_at(b, 4, cursor::varint_bytes(n)),
    ensures
        parse_varint(b, 4, 5) == Ok::<(nat, nat), ErrorKind>((n, 4 + cursor::varint_bytes(n).len())),
{
    vstd::arithmetic::power2::lemma2_to64();
    crate::bytes::lemma_pow2_mono(32, 35);
    cursor::law_varint_round_trip(b, 4, n, 5);
}

/// A written header is accepted by a caller who expects what was written.
pub proof fn law_header_accepted(
    codec: Seq<char>,
    version: i32,
    segment_id: Seq<u8>,
    suffix: Seq<char>,
    rest: Seq<u8>,
    min_version: i32,
    max_version: i32,
)
    requires
        encode_utf8(codec).len() <= u32::MAX,
        encode_utf8(suffix).len() < 256,
        segment_id.len() == ID_LENGTH,
        min_version <= version <= max_version,
    ensures
        ({
            let h = cursor::index_header_bytes(encode_utf8(codec), version, segment_id, encode_utf8(suffix));
            header_end(h + rest, codec, min_version, max_version, segment_id, encode_utf8(suffix)) == Some(h.len())
        }),
{
    let name = encode_utf8(codec);
    let tail = encode_utf8(suffix);
    let h = cursor::index_header_bytes(name, version, segment_id, tail);
    let b = h + rest;
    assert(cursor::stands_at(b, 0, h)) by {
        assert(b.subrange(0, h.len() as int) =~= h);
    }
    lemma_header_parts(b, name, version, segment_id, tail);
    lemma_header_read(b, codec, version, segment_id, tail, min_version, max_version);
}

/// A header whose parts stand in place is accepted.
proof fn lemma_header_read(
    b: Seq<u8>,
    codec: Seq<char>,
    version: i32,
    segment_id: Seq<u8>,
    suffix: Seq<u8>,
    min_version: i32,
    max_version: i32,
)
    requires
        encode_utf8(codec).len() <= u32::MAX,
        suffix.len() < 256,
        segment_id.len() == ID_LENGTH,
        min_version <= version <= max_version,
        ({
            let name = encode_utf8(codec);
            let p = 4 + cursor::varint_bytes(name.len()).len();
            let q = p + name.len();
            &&& cursor::stands_at(b, 0, crate::bytes::be_bytes(cursor::CODEC_MAGIC as nat, 4))
            &&& cursor::stands_at(b, 4, cursor::varint_bytes(name.len()))
            &&& cursor::stands_at(b, p, name)
            &&& cursor::stands_at(b, q, crate::bytes::be_i32(version))
            &&& cursor::stands_at(b, q + 4, segment_id + (seq![suffix.len() as u8] + suffix))
        }),
    ensures
        header_end(b, codec, min_version, max_version, segment_id, suffix) == Some(
            4 + cursor::varint_bytes(encode_utf8(codec).len()).len() + encode_utf8(codec).len() + 21 + suffix.len(),
        ),
{
    let name = encode_utf8(codec);
    let p = 4 + cursor::varint_bytes(name.len()).len();
    let q = p + name.len();
    lemma_magic_accepted(b);
    lemma_length_accepted(b, name.len());
    lemma_name_accepted(b, p, codec);
    cursor::lemma_parse_be_i32_at(b, q, version);
    lemma_tail_accepted(b, q + 4, segment_id, suffix);
}

/// A header that is accepted is of the expected codec, segment and suffix:
/// all of them stand in front of the body.
pub proof fn law_header_end_exact(
    b: Seq<u8>,
    codec: Seq<char>,
    min_version: i32,
    max_version: i32,
    segment_id: Seq<u8>,
    suffix: Seq<u8>,
)
    requires
        header_end(b, codec, min_version, max_version, segment_id, suffix) is Some,
    ensures
        ({
            let q = header_end(b, codec, min_version, max_version, segment_id, suffix)->0 as int;
            let n = suffix.len();
            &&& 21 + n <= q <= b.len()
            &&& b.subrange(q - n, q) == suffix
            &&& b[q - n - 1] == n
            &&& b.subrange(q - n - 17, q - n - 1) == segment_id
            &&& min_version <= (crate::bytes::be_value(b.subrange(q - n - 21, q - n - 17)) as u32 as i32) <= max_version
            &&& crate::bytes::be_value(b.subrange(0, 4)) as u32 as i32 == 0x3FD7_6C17
            &&& exists|p: nat| #[trigger] cursor::stands_at(b, p, encode_utf8(codec)) && p + encode_utf8(codec).len() == q - n
                - 21
        }),
{
    let (len, p2) = cursor::parse_varint(b, 4, 5)->Ok_0;
    let s = b.subrange(p2 as int, (p2 + len) as int);
    vstd::utf8::decode_utf8_encode_utf8(s);
    assert(cursor::stands_at(b, p2, encode_utf8(codec)));
}

} // verus!
