//! The outside LZ4 coders: the writer's compressor, whose hash table lives
//! on from block to block, and the reader's decompressor.

use bearing::encoding::lz4::FastHashTable;
use lz4_flex::block::DecompressError;
use vstd::prelude::*;

verus! {

/// The hash table that the compressor keeps between calls.
#[verifier::external_type_specification]
#[verifier::external_body]
pub struct ExFastHashTable(bearing::encoding::lz4::FastHashTable);

/// Why a decompression failed.
#[verifier::external_type_specification]
#[verifier::external_body]
pub struct ExDecompressError(lz4_flex::block::DecompressError);

/// The entries of a compressor's hash table.
pub uninterp spec fn lz4_table(table: FastHashTable) -> Seq<u32>;

/// What `compress_with_dictionary_reuse` returns for a buffer whose first
/// `dict_len` bytes are the dictionary, with these table entries, and the
/// entries that it leaves behind.
pub uninterp spec fn lz4_with_dictionary(table: Seq<u32>, buffer: Seq<u8>, dict_len: nat) -> (Seq<u8>, Seq<u32>);

/// The compressed bytes of a buffer behind its dictionary.
pub open spec fn lz4_compressed(table: Seq<u32>, buffer: Seq<u8>, dict_len: nat) -> Seq<u8> {
    lz4_with_dictionary(table, buffer, dict_len).0
}

/// The table entries after a buffer was compressed.
pub open spec fn lz4_table_after(table: Seq<u32>, buffer: Seq<u8>, dict_len: nat) -> Seq<u32> {
    lz4_with_dictionary(table, buffer, dict_len).1
}

/// What `compress_reuse` returns for some input, with these table entries,
/// and the entries that it leaves behind.
pub uninterp spec fn lz4_plain(table: Seq<u32>, input: Seq<u8>) -> (Seq<u8>, Seq<u32>);

/// What `decompress_with_dict` returns; nothing where it fails.
pub uninterp spec fn lz4_decompressed(input: Seq<u8>, min_size: nat, dict: Seq<u8>) -> Option<Seq<u8>>;

/// Wraps `bearing::encoding::lz4::FastHashTable::new`: a table without
/// entries.
#[verifier::external_body]
pub(crate) fn new_table() -> (r: FastHashTable)
    ensures
        lz4_table(r) == Seq::<u32>::empty(),
{
    FastHashTable::new()
}

/// Wraps `bearing::encoding::lz4::compress_with_dictionary_reuse`. Result
/// and remaining table entries depend on the buffer, the dictionary length
/// and the entries before the call alone. What it writes for data that is
/// not empty is an LZ4 block that `lz4_flex::block::decompress_with_dict`
/// turns back into the data, given the same dictionary and the data's
/// length.
#[verifier::external_body]
pub(crate) fn compress_with_dictionary(buffer: &[u8], dict_len: usize, table: &mut FastHashTable) -> (r: Vec<u8>)
    requires
        dict_len <= buffer@.len(),
    ensures
        (r@, lz4_table(*final(table))) == lz4_with_dictionary(lz4_table(*old(table)), buffer@, dict_len as nat),
        dict_len < buffer@.len() ==> lz4_decompressed(
            r@,
            (buffer@.len() - dict_len) as nat,
            buffer@.take(dict_len as int),
        ) == Some(buffer@.skip(dict_len as int)),
{
    bearing::encoding::lz4::compress_with_dictionary_reuse(buffer, dict_len, table)
}

/// Wraps `bearing::encoding::lz4::compress_reuse`, whose result and remaining
/// table entries depend on the input and the entries before the call alone.
/// No input gives no output, and leaves the table as it is.
#[verifier::external_body]
pub(crate) fn compress_plain(input: &[u8], table: &mut FastHashTable) -> (r: Vec<u8>)
    ensures
        (r@, lz4_table(*final(table))) == lz4_plain(lz4_table(*old(table)), input@),
        input@.len() == 0 ==> r@.len() == 0 && lz4_table(*final(table)) == lz4_table(*old(table)),
{
    bearing::encoding::lz4::compress_reuse(input, table)
}

/// Wraps `lz4_flex::block::decompress_with_dict`, whose result depends on
/// its arguments alone. It allocates `min_size` bytes up front, so that size
/// is bounded here.
#[verifier::external_body]
pub(crate) fn decompress_with_dict(input: &[u8], min_size: usize, dict: &[u8]) -> (r: std::result::Result<
    Vec<u8>,
    DecompressError,
>)
    requires
        min_size <= i32::MAX,
    ensures
        match r {
            Ok(v) => lz4_decompressed(input@, min_size as nat, dict@) == Some(v@),
            Err(_) => lz4_decompressed(input@, min_size as nat, dict@) is None,
        },
{
    lz4_flex::block::decompress_with_dict(input, min_size, dict)
}

} // verus!
