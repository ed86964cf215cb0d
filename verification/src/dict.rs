//! Terms dictionaries, written.
//!
//! Blocks of 64 terms: the first raw, the others prefix-coded against their
//! predecessor in a suffix stream that is LZ4-compressed with the first term
//! as dictionary. Behind the blocks stand their addresses, then a reverse
//! index with the shortest keys that tell every 1024th term from the one
//! before it.

use bearing::encoding::lz4::FastHashTable;
use vstd::prelude::*;
use vstd::slice::slice_subrange;
use crate::bytes::{
    le_bytes, le_i32, le_value, lemma_le_bytes_len, lemma_le_round_trip, push_le, push_le_i32, push_le_sum,
};
use crate::consts;
use crate::cursor::{lemma_stands_split, stands_at, varint_bytes, write_vint, write_vlong};
use crate::error::{Error, ErrorKind, Result};
use crate::lexicon::{slices, term_less, terms_sorted};
use crate::lz4::{compress_with_dictionary, lz4_compressed, lz4_decompressed, lz4_table, lz4_table_after, new_table};
use crate::monotonic;
use crate::monotonic::{monotonic_data, monotonic_meta, non_decreasing};

verus! {

/// How many bytes `a` and `b` share at their start.
pub open spec fn shared(a: Seq<u8>, b: Seq<u8>) -> nat
    decreases a.len(),
{
    if a.len() == 0 || b.len() == 0 || a[0] != b[0] {
        0
    } else {
        shared(a.drop_first(), b.drop_first()) + 1
    }
}

pub proof fn lemma_shared(a: Seq<u8>, b: Seq<u8>)
    ensures
        shared(a, b) <= a.len(),
        shared(a, b) <= b.len(),
        a.take(shared(a, b) as int) == b.take(shared(a, b) as int),
        term_less(a, b) ==> shared(a, b) < b.len(),
    decreases a.len(),
{
    let n = shared(a, b);
    if n > 0 {
        lemma_shared(a.drop_first(), b.drop_first());
        let m = shared(a.drop_first(), b.drop_first());
        assert(a.take(n as int) =~= seq![a[0]] + a.drop_first().take(m as int));
        assert(b.take(n as int) =~= seq![b[0]] + b.drop_first().take(m as int));
    } else {
        assert(a.take(0) =~= b.take(0));
    }
}

/// Where the common start of two byte strings ends.
fn bytes_difference(prev: &[u8], term: &[u8]) -> (r: usize)
    ensures
        r == shared(prev@, term@),
        r <= term@.len(),
{
    let mut i: usize = 0;
    assert(prev@.skip(0) =~= prev@);
    assert(term@.skip(0) =~= term@);
    while i < prev.len() && i < term.len() && prev[i] == term[i]
        invariant
            i <= prev@.len(),
            i <= term@.len(),
            shared(prev@, term@) == i + shared(prev@.skip(i as int), term@.skip(i as int)),
        decreases term@.len() - i,
    {
        assert(prev@.skip(i as int).drop_first() =~= prev@.skip(i + 1));
        assert(term@.skip(i as int).drop_first() =~= term@.skip(i + 1));
        assert(prev@.skip(i as int)[0] == prev@[i as int]);
        assert(term@.skip(i as int)[0] == term@[i as int]);
        i = i + 1;
    }
    proof {
        if i < prev@.len() && i < term@.len() {
            assert(prev@.skip(i as int)[0] == prev@[i as int]);
            assert(term@.skip(i as int)[0] == term@[i as int]);
        }
    }
    i
}

/// The length of the shortest start of `b` that sorts behind `a`.
pub open spec fn key_len(a: Seq<u8>, b: Seq<u8>) -> nat {
    if shared(a, b) + 1 <= b.len() {
        shared(a, b) + 1
    } else {
        b.len()
    }
}

fn sort_key_length(a: &[u8], b: &[u8]) -> (r: usize)
    ensures
        r == key_len(a@, b@),
        r <= b@.len(),
{
    let common: usize = bytes_difference(a, b);
    if common < b.len() {
        common + 1
    } else {
        b.len()
    }
}

/// Both lengths of a prefix-coded term, each up to 15 in four bits.
pub open spec fn token(prefix: nat, suffix: nat) -> u8 {
    ((if prefix < 15 {
        prefix
    } else {
        15
    }) + 16 * (if suffix - 1 < 15 {
        suffix - 1
    } else {
        15
    })) as u8
}

/// What lengths of 15 and 16 or more go on with.
pub open spec fn length_tail(n: nat, cap: nat) -> Seq<u8> {
    if n >= cap {
        varint_bytes(((n - cap) as u32) as nat)
    } else {
        Seq::empty()
    }
}

/// A term, coded against the one before it.
pub open spec fn suffix_entry(prev: Seq<u8>, term: Seq<u8>) -> Seq<u8> {
    let prefix = shared(prev, term);
    let suffix = (term.len() - prefix) as nat;
    seq![token(prefix, suffix)] + (length_tail(prefix, 15) + (length_tail(suffix, 16) + term.skip(prefix as int)))
}

/// The suffix stream of terms `from` up to `to`: all but the first.
pub open spec fn suffix_stream(d: Seq<Seq<u8>>, from: nat, to: nat) -> Seq<u8>
    decreases to,
{
    if to <= from + 1 {
        Seq::empty()
    } else {
        suffix_stream(d, from, (to - 1) as nat) + suffix_entry(d[to - 2], d[to - 1])
    }
}

/// Where the block that starts at `from` ends.
pub open spec fn dict_block_end(n: nat, from: nat) -> nat {
    if from + 64 <= n {
        from + 64
    } else {
        n
    }
}

/// What is compressed for a block: its first term as dictionary, then the
/// suffix stream.
pub open spec fn block_buffer(d: Seq<Seq<u8>>, from: nat, to: nat) -> Seq<u8> {
    d[from as int] + suffix_stream(d, from, to)
}

/// The compressed suffix stream of a block.
pub open spec fn block_compressed(d: Seq<Seq<u8>>, from: nat, to: nat, table: Seq<u32>) -> Seq<u8> {
    lz4_compressed(table, block_buffer(d, from, to), d[from as int].len())
}

/// The compressor's table after a block.
pub open spec fn table_after(d: Seq<Seq<u8>>, from: nat, to: nat, table: Seq<u32>) -> Seq<u32> {
    if to <= from + 1 {
        table
    } else {
        lz4_table_after(table, block_buffer(d, from, to), d[from as int].len())
    }
}

/// A stream behind its length.
pub open spec fn framed_stream(len: nat, compressed: Seq<u8>) -> Seq<u8> {
    varint_bytes((len as u32) as nat) + compressed
}

/// The bytes of a block.
pub open spec fn dict_block(d: Seq<Seq<u8>>, from: nat, to: nat, table: Seq<u32>) -> Seq<u8> {
    let first = d[from as int];
    (varint_bytes((first.len() as u32) as nat) + first) + if to <= from + 1 {
        Seq::empty()
    } else {
        framed_stream(suffix_stream(d, from, to).len(), block_compressed(d, from, to, table))
    }
}

/// The blocks from term `from` on.
pub open spec fn dict_blocks(d: Seq<Seq<u8>>, from: nat, table: Seq<u32>) -> Seq<u8>
    decreases d.len() - from,
{
    if from >= d.len() {
        Seq::empty()
    } else {
        let to = dict_block_end(d.len(), from);
        dict_block(d, from, to, table) + dict_blocks(d, to, table_after(d, from, to, table))
    }
}

/// Where the blocks from term `from` on start.
pub open spec fn dict_starts(d: Seq<Seq<u8>>, from: nat, table: Seq<u32>, offset: nat) -> Seq<i64>
    decreases d.len() - from,
{
    if from >= d.len() {
        Seq::empty()
    } else {
        let to = dict_block_end(d.len(), from);
        seq![offset as i64] + dict_starts(
            d,
            to,
            table_after(d, from, to, table),
            offset + dict_block(d, from, to, table).len(),
        )
    }
}

/// The greatest length among the first `n` terms.
pub open spec fn max_term_len(d: Seq<Seq<u8>>, n: nat) -> i32
    decreases n,
{
    if n == 0 {
        0
    } else if (d[n - 1].len() as i32) > max_term_len(d, (n - 1) as nat) {
        d[n - 1].len() as i32
    } else {
        max_term_len(d, (n - 1) as nat)
    }
}

/// The greatest suffix-stream length from term `from` on, and `so_far`.
pub open spec fn max_stream_len(d: Seq<Seq<u8>>, from: nat, so_far: i32) -> i32
    decreases d.len() - from,
{
    if from >= d.len() {
        so_far
    } else {
        let to = dict_block_end(d.len(), from);
        let len = suffix_stream(d, from, to).len() as i32;
        max_stream_len(
            d,
            to,
            if to > from + 1 && len > so_far {
                len
            } else {
                so_far
            },
        )
    }
}

/// Every block's stream comes back from the decompressor.
pub open spec fn streams_decompress(d: Seq<Seq<u8>>, from: nat, table: Seq<u32>) -> bool
    decreases d.len() - from,
{
    from >= d.len() || {
        let to = dict_block_end(d.len(), from);
        &&& to > from + 1 ==> lz4_decompressed(
            block_compressed(d, from, to, table),
            suffix_stream(d, from, to).len(),
            d[from as int],
        ) == Some(suffix_stream(d, from, to))
        &&& streams_decompress(d, to, table_after(d, from, to, table))
    }
}

fn min_usize(a: usize, b: usize) -> (r: usize)
    ensures
        r == (if a < b {
            a
        } else {
            b
        }),
{
    if a < b {
        a
    } else {
        b
    }
}

/// Appends a term, coded against the one before it.
pub fn push_suffix_entry(out: &mut Vec<u8>, prev: &[u8], term: &[u8])
    requires
        term_less(prev@, term@),
    ensures
        final(out)@ == old(out)@ + suffix_entry(prev@, term@),
{
    let ghost start = out@;
    let prefix: usize = bytes_difference(prev, term);
    proof {
        lemma_shared(prev@, term@);
    }
    let suffix: usize = term.len() - prefix;
    out.push(min_usize(prefix, 15) as u8 + 16 * (min_usize(suffix - 1, 15) as u8));
    if prefix >= 15 {
        write_vint(out, (prefix - 15) as u32);
    }
    if suffix >= 16 {
        write_vint(out, (suffix - 16) as u32);
    }
    let rest: &[u8] = slice_subrange(term, prefix, term.len());
    assert(rest@ =~= term@.skip(prefix as int));
    out.extend_from_slice(rest);
    assert(out@ =~= start + suffix_entry(prev@, term@));
}

/// The suffix stream of terms `from` up to `to`.
pub fn make_suffix_stream(d: &[&[u8]], from: usize, to: usize) -> (r: Vec<u8>)
    requires
        from < to <= d@.len(),
        terms_sorted(slices(d@)),
    ensures
        r@ == suffix_stream(slices(d@), from as nat, to as nat),
{
    let ghost t = slices(d@);
    let total: usize = d.len();
    let mut out: Vec<u8> = Vec::new();
    let mut k: usize = from + 1;
    while k < to
        invariant
            from < k <= to <= total,
            total == d@.len(),
            t == slices(d@),
            terms_sorted(t),
            out@ == suffix_stream(t, from as nat, k as nat),
        decreases to - k,
    {
        assert(term_less(t[k - 1], t[k as int]));
        push_suffix_entry(&mut out, d[k - 1], d[k]);
        k = k + 1;
    }
    out
}

/// Appends a compressed stream behind the length it decompresses to.
pub fn push_framed_stream(out: &mut Vec<u8>, len: usize, compressed: &[u8])
    ensures
        final(out)@ == old(out)@ + framed_stream(len as nat, compressed@),
{
    write_vint(out, len as u32);
    out.extend_from_slice(compressed);
    assert(out@ =~= old(out)@ + framed_stream(len as nat, compressed@));
}

/// Appends one block; says how long its suffix stream is.
fn push_block(out: &mut Vec<u8>, d: &[&[u8]], from: usize, to: usize, table: &mut FastHashTable) -> (r: usize)
    requires
        from < to <= d@.len(),
        terms_sorted(slices(d@)),
    ensures
        final(out)@ == old(out)@ + dict_block(slices(d@), from as nat, to as nat, lz4_table(*old(table))),
        lz4_table(*final(table)) == table_after(slices(d@), from as nat, to as nat, lz4_table(*old(table))),
        r == suffix_stream(slices(d@), from as nat, to as nat).len(),
        to > from + 1 ==> lz4_decompressed(
            block_compressed(slices(d@), from as nat, to as nat, lz4_table(*old(table))),
            suffix_stream(slices(d@), from as nat, to as nat).len(),
            slices(d@)[from as int],
        ) == Some(suffix_stream(slices(d@), from as nat, to as nat)),
{
    let ghost t = slices(d@);
    let ghost start = out@;
    let first: &[u8] = d[from];
    write_vint(out, first.len() as u32);
    out.extend_from_slice(first);
    let stream: Vec<u8> = make_suffix_stream(d, from, to);
    if to - from > 1 {
        let mut combined: Vec<u8> = vstd::slice::slice_to_vec(first);
        combined.extend_from_slice(stream.as_slice());
        assert(combined@ =~= block_buffer(t, from as nat, to as nat));
        proof {
            lemma_stream_nonempty(t, from as nat, to as nat);
            assert(combined@.take(first@.len() as int) =~= first@);
            assert(combined@.skip(first@.len() as int) =~= stream@);
        }
        let compressed: Vec<u8> = compress_with_dictionary(combined.as_slice(), first.len(), table);
        push_framed_stream(out, stream.len(), compressed.as_slice());
    }
    assert(out@ =~= start + dict_block(t, from as nat, to as nat, lz4_table(*old(table))));
    stream.len()
}

/// A block of several terms has a stream.
proof fn lemma_stream_nonempty(d: Seq<Seq<u8>>, from: nat, to: nat)
    requires
        from + 1 < to,
    ensures
        suffix_stream(d, from, to).len() > 0,
{
    assert(suffix_entry(d[to - 2], d[to - 1]).len() > 0);
}

/// What stands in the index for term `ord`: the shortest start that sorts
/// behind the term before it.
pub open spec fn index_key(d: Seq<Seq<u8>>, ord: nat) -> Seq<u8> {
    if ord == 0 {
        Seq::empty()
    } else {
        d[ord as int].take(key_len(d[ord - 1], d[ord as int]) as int)
    }
}

/// The keys of every 1024th term from `ord` on.
pub open spec fn index_keys(d: Seq<Seq<u8>>, ord: nat) -> Seq<u8>
    decreases
        if ord < d.len() {
            d.len() - ord
        } else {
            0
        },
{
    if ord >= d.len() {
        Seq::empty()
    } else {
        index_key(d, ord) + index_keys(d, ord + 1024)
    }
}

/// Where those keys start, and where the last ends.
pub open spec fn index_offsets(d: Seq<Seq<u8>>, ord: nat, offset: nat) -> Seq<i64>
    decreases
        if ord < d.len() {
            d.len() - ord
        } else {
            0
        },
{
    if ord >= d.len() {
        seq![offset as i64]
    } else {
        seq![offset as i64] + index_offsets(d, ord + 1024, offset + index_key(d, ord).len())
    }
}

/// The data of the reverse index: keys, then their offsets.
pub open spec fn index_data(d: Seq<Seq<u8>>) -> Seq<u8> {
    index_keys(d, 0) + monotonic_data(index_offsets(d, 0, 0), 16)
}

/// What the metadata says of the reverse index, whose data starts at `at`.
pub open spec fn index_meta(d: Seq<Seq<u8>>, at: nat) -> Seq<u8> {
    let keys = index_keys(d, 0).len();
    let offsets = index_offsets(d, 0, 0);
    le_i32(10) + (monotonic_meta(offsets, 16) + (le_bytes(at, 8) + (le_bytes(keys, 8) + (le_bytes(at + keys, 8)
        + le_bytes(monotonic_data(offsets, 16).len(), 8)))))
}

/// No table entries.
pub open spec fn no_table() -> Seq<u32> {
    Seq::empty()
}

/// The data of a dictionary: blocks, their addresses, the reverse index.
pub open spec fn dict_data(d: Seq<Seq<u8>>) -> Seq<u8> {
    (dict_blocks(d, 0, no_table()) + monotonic_data(dict_starts(d, 0, no_table(), 0), 16)) + index_data(d)
}

/// What the metadata says of the blocks, whose data starts at `offset`.
pub open spec fn blocks_meta(d: Seq<Seq<u8>>, offset: nat) -> Seq<u8> {
    let blocks = dict_blocks(d, 0, no_table()).len();
    let starts = dict_starts(d, 0, no_table(), 0);
    (varint_bytes(d.len()) + (le_i32(16) + monotonic_meta(starts, 16))) + sections_meta(
        max_term_len(d, d.len()),
        max_stream_len(d, 0, 0),
        offset,
        blocks,
        monotonic_data(starts, 16).len(),
    )
}

/// The fixed part of what the metadata says of the blocks: longest term,
/// longest stream, where blocks and addresses start and how long they are.
pub open spec fn sections_meta(term: i32, stream: i32, offset: nat, blocks: nat, addresses: nat) -> Seq<u8> {
    le_i32(term) + (le_i32(stream) + (le_bytes(offset, 8) + (le_bytes(blocks, 8) + (le_bytes(offset + blocks, 8)
        + le_bytes(addresses, 8)))))
}

/// What the metadata says of a dictionary whose data starts at `offset`.
pub open spec fn dict_meta(d: Seq<Seq<u8>>, offset: nat) -> Seq<u8> {
    let index_at = offset + dict_blocks(d, 0, no_table()).len() + monotonic_data(
        dict_starts(d, 0, no_table(), 0),
        16,
    ).len();
    blocks_meta(d, offset) + index_meta(d, index_at)
}

/// All offsets can be addressed.
pub open spec fn dict_fits(d: Seq<Seq<u8>>) -> bool {
    dict_blocks(d, 0, no_table()).len() <= i64::MAX && index_keys(d, 0).len() <= i64::MAX
}

/// Block starts never fall.
pub proof fn lemma_starts(d: Seq<Seq<u8>>, from: nat, table: Seq<u32>, offset: nat)
    requires
        offset + dict_blocks(d, from, table).len() <= i64::MAX,
    ensures
        non_decreasing(dict_starts(d, from, table, offset)),
        from < d.len() ==> dict_starts(d, from, table, offset).len() > 0 && dict_starts(d, from, table, offset)[0]
            == offset,
    decreases d.len() - from,
{
    if from < d.len() {
        let to = dict_block_end(d.len(), from);
        let len = dict_block(d, from, to, table).len();
        let rest = dict_starts(d, to, table_after(d, from, to, table), offset + len);
        lemma_starts(d, to, table_after(d, from, to, table), offset + len);
        let all = dict_starts(d, from, table, offset);
        assert(all =~= seq![offset as i64] + rest);
        assert forall|i: int| 0 <= i < all.len() - 1 implies #[trigger] all[i] <= all[i + 1] by {
            if i > 0 {
                assert(rest[i - 1] <= rest[i - 1 + 1]);
            }
        }
    }
}

/// Index offsets never fall.
pub proof fn lemma_index_offsets(d: Seq<Seq<u8>>, ord: nat, offset: nat)
    requires
        offset + index_keys(d, ord).len() <= i64::MAX,
    ensures
        non_decreasing(index_offsets(d, ord, offset)),
        index_offsets(d, ord, offset).len() > 0,
        index_offsets(d, ord, offset)[0] == offset,
    decreases
        if ord < d.len() {
            d.len() - ord
        } else {
            0
        },
{
    if ord < d.len() {
        let len = index_key(d, ord).len();
        let rest = index_offsets(d, ord + 1024, offset + len);
        lemma_index_offsets(d, ord + 1024, offset + len);
        let all = index_offsets(d, ord, offset);
        assert(all =~= seq![offset as i64] + rest);
        assert forall|i: int| 0 <= i < all.len() - 1 implies #[trigger] all[i] <= all[i + 1] by {
            if i > 0 {
                assert(rest[i - 1] <= rest[i - 1 + 1]);
            }
        }
    }
}

/// Appends all blocks; says where each starts, and how long the longest
/// suffix stream is.
fn write_blocks(data: &mut Vec<u8>, d: &[&[u8]]) -> (r: (Vec<i64>, i32))
    requires
        terms_sorted(slices(d@)),
    ensures
        final(data)@ == old(data)@ + dict_blocks(slices(d@), 0, no_table()),
        r.0@ == dict_starts(slices(d@), 0, no_table(), 0),
        r.1 == max_stream_len(slices(d@), 0, 0),
        streams_decompress(slices(d@), 0, no_table()),
{
    let ghost t = slices(d@);
    let base: usize = data.len();
    let mut table: FastHashTable = new_table();
    let mut starts: Vec<i64> = Vec::new();
    let mut longest: i32 = 0;
    let mut from: usize = 0;
    let total: usize = d.len();
    assert(Seq::<i64>::empty() + dict_starts(t, 0, no_table(), 0) =~= dict_starts(t, 0, no_table(), 0));
    while from < total
        invariant
            from <= total == d@.len(),
            t == slices(d@),
            terms_sorted(t),
            base == old(data)@.len(),
            base <= data@.len(),
            data@ + dict_blocks(t, from as nat, lz4_table(table)) == old(data)@ + dict_blocks(t, 0, no_table()),
            starts@ + dict_starts(t, from as nat, lz4_table(table), (data@.len() - base) as nat) == dict_starts(
                t,
                0,
                no_table(),
                0,
            ),
            max_stream_len(t, from as nat, longest) == max_stream_len(t, 0, 0),
            streams_decompress(t, from as nat, lz4_table(table)) ==> streams_decompress(t, 0, no_table()),
        decreases total - from,
    {
        let to: usize = if total - from >= 64 {
            from + 64
        } else {
            total
        };
        assert(to == dict_block_end(t.len(), from as nat));
        let ghost table0 = lz4_table(table);
        let ghost data0 = data@;
        let ghost starts0 = starts@;
        starts.push((data.len() - base) as i64);
        let len: usize = push_block(data, d, from, to, &mut table);
        proof {
            let block = dict_block(t, from as nat, to as nat, table0);
            let rest = dict_blocks(t, to as nat, lz4_table(table));
            assert(data0 + (block + rest) =~= data@ + rest);
            let next = dict_starts(t, to as nat, lz4_table(table), (data@.len() - base) as nat);
            let here = (data0.len() - base) as i64;
            assert(starts0 + (seq![here] + next) =~= starts@ + next);
        }
        if to - from > 1 && len as i32 > longest {
            longest = len as i32;
        }
        from = to;
    }
    assert(data@ + dict_blocks(t, from as nat, lz4_table(table)) =~= data@);
    assert(starts@ + dict_starts(t, from as nat, lz4_table(table), (data@.len() - base) as nat) =~= starts@);
    (starts, longest)
}

/// The greatest length of a term.
fn longest_term(d: &[&[u8]]) -> (r: i32)
    ensures
        r == max_term_len(slices(d@), d@.len()),
{
    let mut longest: i32 = 0;
    let mut i: usize = 0;
    while i < d.len()
        invariant
            i <= d@.len(),
            longest == max_term_len(slices(d@), i as nat),
        decreases d@.len() - i,
    {
        if d[i].len() as i32 > longest {
            longest = d[i].len() as i32;
        }
        i = i + 1;
    }
    longest
}

/// Appends the keys of the reverse index; says where they start and end.
fn write_index_keys(data: &mut Vec<u8>, d: &[&[u8]]) -> (r: Vec<i64>)
    ensures
        final(data)@ == old(data)@ + index_keys(slices(d@), 0),
        r@ == index_offsets(slices(d@), 0, 0),
{
    let ghost t = slices(d@);
    let base: usize = data.len();
    let mut offsets: Vec<i64> = Vec::new();
    let mut ord: usize = 0;
    let total: usize = d.len();
    let mut more: bool = ord < total;
    assert(Seq::<i64>::empty() + index_offsets(t, 0, 0) =~= index_offsets(t, 0, 0));
    while more
        invariant
            total == d@.len(),
            t == slices(d@),
            base == old(data)@.len(),
            base <= data@.len(),
            more ==> ord < total,
            !more ==> ord <= total,
            more ==> data@ + index_keys(t, ord as nat) == old(data)@ + index_keys(t, 0),
            !more ==> data@ == old(data)@ + index_keys(t, 0),
            more ==> offsets@ + index_offsets(t, ord as nat, (data@.len() - base) as nat) == index_offsets(t, 0, 0),
            !more ==> offsets@ + seq![(data@.len() - base) as i64] == index_offsets(t, 0, 0),
        decreases
            if more {
                total - ord + 1
            } else {
                0
            },
    {
        let ghost data0 = data@;
        let ghost offsets0 = offsets@;
        let ghost here = ord as nat;
        offsets.push((data.len() - base) as i64);
        if ord > 0 {
            let n: usize = sort_key_length(d[ord - 1], d[ord]);
            let key: &[u8] = slice_subrange(d[ord], 0, n);
            assert(key@ =~= index_key(t, here));
            data.extend_from_slice(key);
        }
        proof {
            let key = index_key(t, here);
            assert(data@ =~= data0 + key);
            let rest = index_keys(t, here + 1024);
            assert(data0 + (key + rest) =~= data@ + rest);
            let next = index_offsets(t, here + 1024, (data@.len() - base) as nat);
            let at = (data0.len() - base) as i64;
            assert(offsets0 + (seq![at] + next) =~= offsets@ + next);
            if here + 1024 >= t.len() {
                assert(data@ + rest =~= data@);
            }
        }
        if total - ord > 1024 {
            ord = ord + 1024;
        } else {
            more = false;
        }
    }
    offsets.push((data.len() - base) as i64);
    proof {
        if total == 0 {
            assert(data@ =~= old(data)@ + index_keys(t, 0));
        }
        assert(offsets@ =~= index_offsets(t, 0, 0));
    }
    offsets
}

/// Appends the reverse index for term lookup.
fn write_terms_index(meta: &mut Vec<u8>, data: &mut Vec<u8>, sorted_terms: &[&[u8]], dvd_base: u64) -> (r: Result<()>)
    ensures
        index_keys(slices(sorted_terms@), 0).len() <= i64::MAX ==> {
            &&& r is Ok
            &&& final(meta)@ == old(meta)@ + index_meta(
                slices(sorted_terms@),
                dvd_base as nat + old(data)@.len(),
            )
            &&& final(data)@ == old(data)@ + index_data(slices(sorted_terms@))
        },
        index_keys(slices(sorted_terms@), 0).len() > i64::MAX ==> (r matches Err(e) && e.kind()
            == ErrorKind::InvalidArgument),
{
    let ghost t = slices(sorted_terms@);
    let ghost meta0 = meta@;
    let ghost data0 = data@;
    let before: usize = data.len();
    let offsets: Vec<i64> = write_index_keys(data, sorted_terms);
    let keys: usize = data.len() - before;
    if keys as u64 > 0x7FFF_FFFF_FFFF_FFFF {
        return Err(Error::invalid("terms index too large"));
    }
    proof {
        lemma_index_offsets(t, 0, 0);
    }
    let mut addresses: Vec<u8> = Vec::new();
    push_le_i32(meta, 10);
    monotonic::write(offsets.as_slice(), consts::DIRECT_MONOTONIC_BLOCK_SHIFT, meta, &mut addresses)?;
    assert(addresses@ =~= monotonic_data(offsets@, 16));
    push_le_sum(meta, dvd_base, before as u64);
    push_le(meta, keys as u64, 8);
    push_le_sum(meta, dvd_base, data.len() as u64);
    push_le(meta, addresses.len() as u64, 8);
    data.extend_from_slice(addresses.as_slice());
    assert(data@ =~= data0 + index_data(t));
    assert(meta@ =~= meta0 + index_meta(t, dvd_base as nat + data0.len()));
    Ok(())
}

fn write_sections_meta(meta: &mut Vec<u8>, term: i32, stream: i32, dvd_base: u64, before: usize, after: usize, addresses: u64)
    requires
        before <= after,
    ensures
        final(meta)@ == old(meta)@ + sections_meta(
            term,
            stream,
            dvd_base as nat + before as nat,
            (after - before) as nat,
            addresses as nat,
        ),
{
    push_le_i32(meta, term);
    push_le_i32(meta, stream);
    push_le_sum(meta, dvd_base, before as u64);
    push_le(meta, (after - before) as u64, 8);
    push_le_sum(meta, dvd_base, after as u64);
    push_le(meta, addresses, 8);
    assert(meta@ =~= old(meta)@ + sections_meta(
        term,
        stream,
        dvd_base as nat + before as nat,
        (after - before) as nat,
        addresses as nat,
    ));
}

/// Appends the blocks and their addresses.
fn write_dict_blocks(meta: &mut Vec<u8>, data: &mut Vec<u8>, sorted_terms: &[&[u8]], dvd_base: u64) -> (r: Result<()>)
    requires
        terms_sorted(slices(sorted_terms@)),
    ensures
        streams_decompress(slices(sorted_terms@), 0, no_table()),
        dict_blocks(slices(sorted_terms@), 0, no_table()).len() <= i64::MAX ==> {
            &&& r is Ok
            &&& final(meta)@ == old(meta)@ + blocks_meta(
                slices(sorted_terms@),
                dvd_base as nat + old(data)@.len(),
            )
            &&& final(data)@ == old(data)@ + (dict_blocks(slices(sorted_terms@), 0, no_table()) + monotonic_data(
                dict_starts(slices(sorted_terms@), 0, no_table(), 0),
                16,
            ))
        },
        dict_blocks(slices(sorted_terms@), 0, no_table()).len() > i64::MAX ==> (r matches Err(e) && e.kind()
            == ErrorKind::InvalidArgument),
{
    let ghost t = slices(sorted_terms@);
    let ghost meta0 = meta@;
    let ghost data0 = data@;
    let before: usize = data.len();
    let (starts, longest): (Vec<i64>, i32) = write_blocks(data, sorted_terms);
    let len: usize = data.len() - before;
    if len as u64 > 0x7FFF_FFFF_FFFF_FFFF {
        return Err(Error::invalid("terms dictionary too large"));
    }
    proof {
        lemma_starts(t, 0, no_table(), 0);
    }
    let mut addresses: Vec<u8> = Vec::new();
    write_vlong(meta, sorted_terms.len() as u64);
    push_le_i32(meta, consts::DIRECT_MONOTONIC_BLOCK_SHIFT as i32);
    monotonic::write(starts.as_slice(), consts::DIRECT_MONOTONIC_BLOCK_SHIFT, meta, &mut addresses)?;
    assert(addresses@ =~= monotonic_data(starts@, 16));
    assert(meta@ =~= meta0 + (varint_bytes(t.len()) + (le_i32(16) + monotonic_meta(starts@, 16))));
    let term: i32 = longest_term(sorted_terms);
    write_sections_meta(meta, term, longest, dvd_base, before, data.len(), addresses.len() as u64);
    data.extend_from_slice(addresses.as_slice());
    assert(data@ =~= data0 + (dict_blocks(t, 0, no_table()) + monotonic_data(
        dict_starts(t, 0, no_table(), 0),
        16,
    )));
    assert(meta@ =~= meta0 + blocks_meta(t, dvd_base as nat + data0.len()));
    Ok(())
}

/// Appends a terms dictionary: 64-term blocks, first term raw, the others in
/// a suffix stream compressed with the first term as dictionary.
pub(crate) fn add_terms_dict(meta: &mut Vec<u8>, data: &mut Vec<u8>, sorted_terms: &[&[u8]], dvd_base: u64) -> (r: Result<()>)
    requires
        terms_sorted(slices(sorted_terms@)),
    ensures
        streams_decompress(slices(sorted_terms@), 0, no_table()),
        dict_fits(slices(sorted_terms@)) ==> {
            &&& r is Ok
            &&& final(meta)@ == old(meta)@ + dict_meta(slices(sorted_terms@), dvd_base as nat + old(data)@.len())
            &&& final(data)@ == old(data)@ + dict_data(slices(sorted_terms@))
        },
        !dict_fits(slices(sorted_terms@)) ==> (r matches Err(e) && e.kind() == ErrorKind::InvalidArgument),
{
    let ghost t = slices(sorted_terms@);
    let ghost meta0 = meta@;
    let ghost data0 = data@;
    write_dict_blocks(meta, data, sorted_terms, dvd_base)?;
    write_terms_index(meta, data, sorted_terms, dvd_base)?;
    assert(data@ =~= data0 + dict_data(t));
    assert(meta@ =~= meta0 + dict_meta(t, dvd_base as nat + data0.len()));
    Ok(())
}

proof fn lemma_key(a: Seq<u8>, b: Seq<u8>, n: int)
    requires
        term_less(a, b),
        0 <= n < key_len(a, b),
    ensures
        term_less(a, b.take(key_len(a, b) as int)),
        !term_less(a, b.take(n)),
        key_len(a, b) <= b.len(),
    decreases a.len(),
{
    lemma_shared(a, b);
    let k = key_len(a, b) as int;
    if a.len() > 0 && a[0] == b[0] {
        let x = a.drop_first();
        let y = b.drop_first();
        lemma_shared(x, y);
        assert(b.take(k).drop_first() =~= y.take(k - 1));
        if n > 0 {
            lemma_key(x, y, n - 1);
            assert(b.take(n).drop_first() =~= y.take(n - 1));
        } else {
            lemma_key(x, y, 0);
        }
    }
}

/// A key of the reverse index is the shortest start of its term that sorts
/// behind the term before it, so that a lookup can tell on which side of it
/// a text lies. The first term has the empty key.
pub proof fn law_index_key(d: Seq<Seq<u8>>, ord: nat, n: int)
    requires
        terms_sorted(d),
        0 < ord < d.len(),
        0 <= n < index_key(d, ord).len(),
    ensures
        index_key(d, 0).len() == 0,
        index_key(d, ord) == d[ord as int].take(index_key(d, ord).len() as int),
        index_key(d, ord).len() <= d[ord as int].len(),
        term_less(d[ord - 1], index_key(d, ord)),
        !term_less(d[ord - 1], d[ord as int].take(n)),
{
    assert(term_less(d[ord - 1], d[ord as int]));
    lemma_shared(d[ord - 1], d[ord as int]);
    lemma_key(d[ord - 1], d[ord as int], n);
}

/// Key `i` of the reverse index is that of term `1024 * i`, and stands
/// between the offsets `i` and `i + 1`.
pub proof fn law_index_keys_at(d: Seq<Seq<u8>>, i: nat)
    requires
        1024 * i < d.len(),
        index_keys(d, 0).len() <= i64::MAX,
    ensures
        ({
            let offsets = index_offsets(d, 0, 0);
            &&& offsets.len() == (d.len() + 1023) / 1024 + 1
            &&& 0 <= offsets[i as int] <= offsets[i as int + 1] <= index_keys(d, 0).len()
            &&& index_keys(d, 0).subrange(offsets[i as int] as int, offsets[i as int + 1] as int) == index_key(d, 1024 * i)
            &&& offsets[0] == 0
            &&& offsets.last() == index_keys(d, 0).len()
        }),
{
    lemma_index_keys_at(d, 0, 0, i);
}

proof fn lemma_index_keys_at(d: Seq<Seq<u8>>, ord: nat, offset: nat, i: nat)
    requires
        ord < d.len() ==> ord + 1024 * i < d.len(),
        offset + index_keys(d, ord).len() <= i64::MAX,
    ensures
        ({
            let offsets = index_offsets(d, ord, offset);
            &&& offsets[0] == offset
            &&& offsets.last() == offset + index_keys(d, ord).len()
            &&& ord >= d.len() ==> offsets.len() == 1
            &&& ord < d.len() ==> offsets.len() == (d.len() - ord + 1023) / 1024 + 1 && offset <= offsets[i as int]
                <= offsets[i as int + 1] <= offset + index_keys(d, ord).len() && index_keys(d, ord).subrange(
                offsets[i as int] - offset,
                offsets[i as int + 1] - offset,
            ) == index_key(d, ord + 1024 * i)
        }),
    decreases
        if ord < d.len() {
            d.len() - ord
        } else {
            0
        },
{
    if ord < d.len() {
        let key = index_key(d, ord);
        let rest = index_keys(d, ord + 1024);
        let later = index_offsets(d, ord + 1024, offset + key.len());
        let offsets = index_offsets(d, ord, offset);
        let keys = index_keys(d, ord);
        assert(offsets =~= seq![offset as i64] + later);
        if i == 0 {
            lemma_index_keys_at(d, ord + 1024, offset + key.len(), 0);
            assert(keys.subrange(0, key.len() as int) =~= key);
        } else {
            let j = (i - 1) as nat;
            lemma_index_keys_at(d, ord + 1024, offset + key.len(), j);
            assert(offsets[i as int] == later[j as int] && offsets[i as int + 1] == later[j as int + 1]);
            assert(keys.subrange(offsets[i as int] - offset, offsets[i as int + 1] - offset) =~= rest.subrange(
                later[j as int] - (offset + key.len()),
                later[j as int + 1] - (offset + key.len()),
            ));
        }
    }
}

/// The length recorded as that of the longest term is just that: no term is
/// longer, and one is as long.
pub proof fn law_max_term_len(d: Seq<Seq<u8>>, n: nat)
    requires
        n <= d.len(),
        forall|i: int| 0 <= i < n ==> (#[trigger] d[i]).len() <= i32::MAX,
    ensures
        forall|i: int| 0 <= i < n ==> (#[trigger] d[i]).len() <= max_term_len(d, n),
        n > 0 ==> exists|i: int| 0 <= i < n && (#[trigger] d[i]).len() == max_term_len(d, n),
        n == 0 ==> max_term_len(d, n) == 0,
    decreases n,
{
    if n > 0 {
        let m = (n - 1) as nat;
        law_max_term_len(d, m);
        if (d[n - 1].len() as i32) > max_term_len(d, m) {
            assert(d[n - 1].len() == max_term_len(d, n));
        } else if m > 0 {
            let i = choose|i: int| 0 <= i < m && (#[trigger] d[i]).len() == max_term_len(d, m);
            assert(d[i].len() == max_term_len(d, n));
        } else {
            assert(d[0].len() == 0);
        }
    }
}

/// Block `i` from term `from` on: its suffix stream, where it has one.
pub open spec fn block_stream_len(d: Seq<Seq<u8>>, at: nat) -> nat {
    if dict_block_end(d.len(), at) > at + 1 {
        suffix_stream(d, at, dict_block_end(d.len(), at)).len()
    } else {
        0
    }
}

/// The length recorded as that of the longest suffix stream is just that: no
/// block, one for each 64 terms, has a longer one, and one has it.
pub proof fn law_max_stream_len(d: Seq<Seq<u8>>, i: nat)
    requires
        64 * i < d.len(),
        forall|k: nat| #![trigger block_stream_len(d, 64 * k)] 64 * k < d.len() ==> block_stream_len(d, 64 * k) <= i32::MAX,
    ensures
        block_stream_len(d, 64 * i) <= max_stream_len(d, 0, 0),
        max_stream_len(d, 0, 0) == 0 || exists|k: nat|
            #![trigger block_stream_len(d, 64 * k)]
            64 * k < d.len() && block_stream_len(d, 64 * k) == max_stream_len(d, 0, 0),
{
    lemma_max_stream_len(d, 0, 0, i);
}

proof fn lemma_max_stream_len(d: Seq<Seq<u8>>, j: nat, so_far: i32, i: nat)
    requires
        so_far >= 0,
        forall|k: nat| #![trigger block_stream_len(d, 64 * k)] 64 * k < d.len() ==> block_stream_len(d, 64 * k) <= i32::MAX,
    ensures
        ({
            let from = if 64 * j <= d.len() {
                64 * j
            } else {
                d.len()
            };
            let r = max_stream_len(d, from, so_far);
            &&& so_far <= r
            &&& j <= i && 64 * i < d.len() ==> block_stream_len(d, 64 * i) <= r
            &&& r == so_far || exists|k: nat|
                #![trigger block_stream_len(d, 64 * k)]
                64 * k < d.len() && block_stream_len(d, 64 * k) == r
        }),
    decreases
        if 64 * j < d.len() {
            d.len() - 64 * j
        } else {
            0
        },
{
    if 64 * j < d.len() {
        let from = 64 * j;
        let to = dict_block_end(d.len(), from);
        let len = suffix_stream(d, from, to).len();
        assert(block_stream_len(d, 64 * j) <= i32::MAX);
        let next = if to > from + 1 && (len as i32) > so_far {
            len as i32
        } else {
            so_far
        };
        lemma_max_stream_len(d, j + 1, next, i);
        assert(max_stream_len(d, from, so_far) == max_stream_len(d, to, next));
        let r = max_stream_len(d, to, next);
        if r == next && next != so_far {
            assert(block_stream_len(d, 64 * j) == r);
        }
    }
}

/// The last four numbers of a dictionary's metadata say where the reverse
/// index is: its keys and how many bytes they take, then their offsets.
pub proof fn law_reverse_index_located(d: Seq<Seq<u8>>, dvd: Seq<u8>, offset: nat)
    requires
        stands_at(dvd, offset, dict_data(d)),
        dvd.len() <= u64::MAX,
    ensures
        ({
            let m = dict_meta(d, offset);
            let n = m.len() as int;
            let keys_at = le_value(m.subrange(n - 32, n - 24));
            let keys_len = le_value(m.subrange(n - 24, n - 16));
            let offsets_at = le_value(m.subrange(n - 16, n - 8));
            let offsets_len = le_value(m.subrange(n - 8, n));
            &&& n >= 32
            &&& stands_at(dvd, keys_at, index_keys(d, 0))
            &&& keys_len == index_keys(d, 0).len()
            &&& stands_at(dvd, offsets_at, monotonic_data(index_offsets(d, 0, 0), 16))
            &&& offsets_len == monotonic_data(index_offsets(d, 0, 0), 16).len()
        }),
{
    let blocks = dict_blocks(d, 0, no_table());
    let starts = monotonic_data(dict_starts(d, 0, no_table(), 0), 16);
    let keys = index_keys(d, 0);
    let offsets = monotonic_data(index_offsets(d, 0, 0), 16);
    let at = offset + blocks.len() + starts.len();
    lemma_stands_split(dvd, offset, blocks + starts, index_data(d));
    lemma_stands_split(dvd, at, keys, offsets);
    let m = dict_meta(d, offset);
    let n = m.len() as int;
    let tail = le_bytes(at, 8) + (le_bytes(keys.len(), 8) + (le_bytes(at + keys.len(), 8) + le_bytes(offsets.len(), 8)));
    lemma_le_bytes_len(at, 8);
    lemma_le_bytes_len(keys.len(), 8);
    lemma_le_bytes_len(at + keys.len(), 8);
    lemma_le_bytes_len(offsets.len(), 8);
    vstd::arithmetic::power2::lemma2_to64();
    lemma_le_round_trip(at, 8);
    lemma_le_round_trip(keys.len(), 8);
    lemma_le_round_trip(at + keys.len(), 8);
    lemma_le_round_trip(offsets.len(), 8);
    assert(m.subrange(n - 32, n - 24) =~= le_bytes(at, 8));
    assert(m.subrange(n - 24, n - 16) =~= le_bytes(keys.len(), 8));
    assert(m.subrange(n - 16, n - 8) =~= le_bytes(at + keys.len(), 8));
    assert(m.subrange(n - 8, n) =~= le_bytes(offsets.len(), 8));
}

} // verus!
