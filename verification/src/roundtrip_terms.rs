//! Terms dictionaries read back as they were written.

use vstd::prelude::*;
use vstd::arithmetic::power2::lemma2_to64;
use crate::bytes::{le_bytes, le_i32, lemma_cast_values, lemma_le_bytes_len};
use crate::cursor::{
    law_vint_round_trip, law_vlong_round_trip, lemma_parse_i32_at, lemma_stands_split, stands_at, varint_bytes,
};
use crate::dict::{
    block_compressed, dict_block, dict_block_end, dict_blocks, dict_data, dict_meta, dict_starts, framed_stream,
    index_data, index_keys, index_meta, index_offsets, length_tail, lemma_shared, max_stream_len, max_term_len,
    no_table, sections_meta, shared, streams_decompress, suffix_entry, suffix_stream, table_after, token,
};
use crate::direct::{ceil_div, lemma_ceil_div};
use crate::error::ErrorKind;
use crate::lexicon::{term_less, terms_sorted};
use crate::monotonic::{
    block_end, block_meta, blocks_of, law_monotonic_round_trip, meta_from, monotonic_data, monotonic_meta,
    META_BYTES_PER_BLOCK,
};
use crate::read::{parse_terms_dict, parse_terms_tail, reverse_blocks};
use crate::roundtrip::{lemma_byte_at, lemma_i32_at, lemma_len_at};
use crate::terms::{
    block_at, block_terms, materialized, parse_first_term, parse_length, parse_suffix_term, suffix_terms,
    terms_from, total_bytes, TermsPlanModel,
};

verus! {

/// A length and its continuation read back.
proof fn lemma_length(s: Seq<u8>, p: nat, n: nat, cap: nat)
    requires
        n <= i32::MAX,
        stands_at(s, p, length_tail(n, cap)),
    ensures
        parse_length(
            s,
            p,
            if n < cap {
                n
            } else {
                cap
            },
            cap,
        ) == Ok::<(nat, nat), ErrorKind>((n, p + length_tail(n, cap).len())),
{
    if n >= cap {
        law_vint_round_trip(s, p, (n - cap) as u32);
    }
}

/// A prefix-coded term reads back.
proof fn lemma_suffix_entry(s: Seq<u8>, p: nat, prev: Seq<u8>, term: Seq<u8>)
    requires
        term_less(prev, term),
        prev.len() <= i32::MAX,
        term.len() <= i32::MAX,
        stands_at(s, p, suffix_entry(prev, term)),
    ensures
        parse_suffix_term(s, p, prev) == Ok::<(Seq<u8>, nat), ErrorKind>(
            (term, p + suffix_entry(prev, term).len()),
        ),
{
    lemma_shared(prev, term);
    let prefix = shared(prev, term);
    let suffix = (term.len() - prefix) as nat;
    let t = token(prefix, suffix);
    let rest = term.skip(prefix as int);
    let s2 = length_tail(suffix, 16) + rest;
    let s1 = length_tail(prefix, 15) + s2;
    lemma_stands_split(s, p, seq![t], s1);
    lemma_byte_at(s, p, t);
    lemma_stands_split(s, p + 1, length_tail(prefix, 15), s2);
    lemma_length(s, p + 1, prefix, 15);
    let p2 = p + 1 + length_tail(prefix, 15).len();
    lemma_stands_split(s, p2, length_tail(suffix, 16), rest);
    lemma_length(s, p2, suffix, 16);
    assert(t as nat % 16 == if prefix < 15 {
        prefix
    } else {
        15
    });
    assert(t as nat / 16 + 1 == if suffix < 16 {
        suffix
    } else {
        16
    });
    assert(prev.take(prefix as int) + rest =~= term) by {
        assert(prev.take(prefix as int) == term.take(prefix as int));
    }
}

/// The suffix stream of terms `k` up to `to`, from the front.
spec fn stream_back(d: Seq<Seq<u8>>, k: nat, to: nat) -> Seq<u8>
    decreases to - k,
{
    if k >= to {
        Seq::empty()
    } else {
        suffix_entry(d[k - 1], d[k as int]) + stream_back(d, k + 1, to)
    }
}

proof fn lemma_stream_back(d: Seq<Seq<u8>>, from: nat, k: nat, to: nat)
    requires
        from < k <= to,
    ensures
        suffix_stream(d, from, k) + stream_back(d, k, to) == suffix_stream(d, from, to),
    decreases to - k,
{
    if k < to {
        lemma_stream_back(d, from, k + 1, to);
        let e = suffix_entry(d[k - 1], d[k as int]);
        assert(suffix_stream(d, from, k + 1) == suffix_stream(d, from, k) + e);
        assert(suffix_stream(d, from, k) + (e + stream_back(d, k + 1, to)) =~= suffix_stream(d, from, k + 1)
            + stream_back(d, k + 1, to));
    } else {
        assert(suffix_stream(d, from, k) + stream_back(d, k, to) =~= suffix_stream(d, from, to));
    }
}

/// Every term can be addressed.
pub open spec fn terms_short(d: Seq<Seq<u8>>) -> bool {
    forall|i: int| 0 <= i < d.len() ==> (#[trigger] d[i]).len() <= i32::MAX
}

proof fn lemma_suffix_terms(s: Seq<u8>, p: nat, d: Seq<Seq<u8>>, k: nat, to: nat)
    requires
        terms_sorted(d),
        terms_short(d),
        0 < k <= to <= d.len(),
        stands_at(s, p, stream_back(d, k, to)),
    ensures
        suffix_terms(s, p, d[k - 1], (to - k) as nat) == Ok::<Seq<Seq<u8>>, ErrorKind>(
            d.subrange(k as int, to as int),
        ),
    decreases to - k,
{
    if k < to {
        let e = suffix_entry(d[k - 1], d[k as int]);
        assert(term_less(d[k - 1], d[k as int]));
        lemma_stands_split(s, p, e, stream_back(d, k + 1, to));
        lemma_suffix_entry(s, p, d[k - 1], d[k as int]);
        lemma_suffix_terms(s, p + e.len(), d, k + 1, to);
        assert(seq![d[k as int]] + d.subrange(k as int + 1, to as int) =~= d.subrange(k as int, to as int));
    } else {
        assert(d.subrange(k as int, to as int) =~= Seq::<Seq<u8>>::empty());
    }
}

/// A written block reads back.
proof fn lemma_block(
    dvd: Seq<u8>,
    start: nat,
    d: Seq<Seq<u8>>,
    from: nat,
    to: nat,
    table: Seq<u32>,
    max_len: u32,
)
    requires
        terms_sorted(d),
        terms_short(d),
        from < to <= d.len(),
        d[from as int].len() <= max_len,
        suffix_stream(d, from, to).len() <= i32::MAX,
        to > from + 1 ==> lz4_comes_back(d, from, to, table),
        stands_at(dvd, start, dict_block(d, from, to, table)),
    ensures
        block_terms(
            dvd,
            start,
            start + dict_block(d, from, to, table).len(),
            (to - from) as nat,
            max_len,
        ) == Ok::<Seq<Seq<u8>>, ErrorKind>(d.subrange(from as int, to as int)),
{
    let first = d[from as int];
    let len_bytes = varint_bytes((first.len() as u32) as nat);
    let head = len_bytes + first;
    let stream = suffix_stream(d, from, to);
    let tail = if to <= from + 1 {
        Seq::<u8>::empty()
    } else {
        framed_stream(stream.len(), block_compressed(d, from, to, table))
    };
    lemma_stands_split(dvd, start, head, tail);
    lemma_stands_split(dvd, start, len_bytes, first);
    law_vint_round_trip(dvd, start, first.len() as u32);
    let p1 = start + len_bytes.len();
    assert(parse_first_term(dvd, start, max_len) == Ok::<(Seq<u8>, nat), ErrorKind>((first, p1 + first.len())));
    if to <= from + 1 {
        assert(seq![first] =~= d.subrange(from as int, to as int));
    } else {
        let p2 = p1 + first.len();
        let compressed = block_compressed(d, from, to, table);
        let n_bytes = varint_bytes((stream.len() as u32) as nat);
        lemma_stands_split(dvd, p2, n_bytes, compressed);
        law_vint_round_trip(dvd, p2, stream.len() as u32);
        let p3 = p2 + n_bytes.len();
        let end = start + dict_block(d, from, to, table).len();
        assert(end == p3 + compressed.len());
        assert(dvd.subrange(p3 as int, end as int) == compressed);
        lemma_stream_back(d, from, from + 1, to);
        assert(suffix_stream(d, from, from + 1) + stream_back(d, from + 1, to) =~= stream_back(d, from + 1, to));
        assert(stream.subrange(0, stream.len() as int) =~= stream);
        lemma_suffix_terms(stream, 0, d, from + 1, to);
        assert(seq![first] + d.subrange(from as int + 1, to as int) =~= d.subrange(from as int, to as int));
    }
}

/// The decompressor gives the stream of a block back.
pub open spec fn lz4_comes_back(d: Seq<Seq<u8>>, from: nat, to: nat, table: Seq<u32>) -> bool {
    crate::lz4::lz4_decompressed(
        block_compressed(d, from, to, table),
        suffix_stream(d, from, to).len(),
        d[from as int],
    ) == Some(suffix_stream(d, from, to))
}

/// Every suffix stream from term `from` on can be addressed.
pub open spec fn streams_short(d: Seq<Seq<u8>>, from: nat) -> bool
    decreases d.len() - from,
{
    from >= d.len() || {
        let to = dict_block_end(d.len(), from);
        suffix_stream(d, from, to).len() <= i32::MAX && streams_short(d, to)
    }
}

proof fn lemma_max_term_len(d: Seq<Seq<u8>>, n: nat, i: int)
    requires
        terms_short(d),
        0 <= i < n <= d.len(),
    ensures
        d[i].len() <= max_term_len(d, n),
    decreases n,
{
    if i < n - 1 {
        lemma_max_term_len(d, (n - 1) as nat, i);
    }
}

proof fn lemma_starts_len(d: Seq<Seq<u8>>, from: nat, table: Seq<u32>, offset: nat)
    requires
        from <= d.len(),
    ensures
        dict_starts(d, from, table, offset).len() == ceil_div((d.len() - from) as nat, 64),
    decreases d.len() - from,
{
    lemma_ceil_div((d.len() - from) as nat, 64);
    if from < d.len() {
        let to = dict_block_end(d.len(), from);
        lemma_starts_len(
            d,
            to,
            table_after(d, from, to, table),
            offset + dict_block(d, from, to, table).len(),
        );
        lemma_ceil_div((d.len() - to) as nat, 64);
    }
}

/// Written blocks read back.
proof fn lemma_terms_from(
    plan: TermsPlanModel,
    dvd: Seq<u8>,
    starts: Seq<i64>,
    i: nat,
    d: Seq<Seq<u8>>,
    from: nat,
    table: Seq<u32>,
    offset: nat,
)
    requires
        terms_sorted(d),
        terms_short(d),
        from <= d.len(),
        i <= starts.len(),
        starts.skip(i as int) == dict_starts(d, from, table, offset),
        plan.max_term_length == max_term_len(d, d.len()),
        plan.terms_len == offset + dict_blocks(d, from, table).len(),
        plan.terms_offset + plan.terms_len <= i64::MAX,
        streams_short(d, from),
        streams_decompress(d, from, table),
        stands_at(dvd, (plan.terms_offset + offset) as nat, dict_blocks(d, from, table)),
    ensures
        terms_from(plan, dvd, starts, i, (d.len() - from) as nat) == Ok::<Seq<Seq<u8>>, ErrorKind>(
            d.skip(from as int),
        ),
    decreases d.len() - from,
{
    if from < d.len() {
        let to = dict_block_end(d.len(), from);
        let block = dict_block(d, from, to, table);
        let next = table_after(d, from, to, table);
        let after = offset + block.len();
        let s = dict_starts(d, from, table, offset);
        let rest = dict_starts(d, to, next, after);
        assert(s.len() >= 1);
        assert(starts.skip(i as int).len() == starts.len() - i);
        assert(starts[i as int] == starts.skip(i as int)[0]);
        assert(starts.skip(i as int + 1) =~= s.drop_first());
        assert(s.drop_first() =~= rest);
        let start = (plan.terms_offset + offset) as nat;
        lemma_stands_split(dvd, start, block, dict_blocks(d, to, next));
        lemma_max_term_len(d, d.len(), from as int);
        lemma_block(dvd, start, d, from, to, table, plan.max_term_length);
        if i + 1 < starts.len() {
            assert(starts[i as int + 1] == starts.skip(i as int + 1)[0]);
            assert(rest.len() > 0);
            assert(to < d.len());
            assert(rest[0] == after as i64);
        } else {
            assert(rest.len() == 0);
            lemma_starts_len(d, to, next, after);
            lemma_ceil_div((d.len() - to) as nat, 64);
            assert(to == d.len());
        }
        lemma_terms_from(plan, dvd, starts, i + 1, d, to, next, after);
        assert(d.subrange(from as int, to as int) + d.skip(to as int) =~= d.skip(from as int));
    } else {
        assert(starts.skip(i as int).len() == 0);
        assert(d.skip(from as int) =~= Seq::<Seq<u8>>::empty());
    }
}

/// The plan that stands for a written dictionary.
pub open spec fn written_terms(d: Seq<Seq<u8>>, offset: nat) -> TermsPlanModel {
    let blocks = dict_blocks(d, 0, no_table()).len();
    let starts = dict_starts(d, 0, no_table(), 0);
    TermsPlanModel {
        num_terms: d.len() as u64,
        address_meta: blocks_of(starts, 0, 16, 0),
        address_block_shift: 16,
        max_term_length: max_term_len(d, d.len()) as u32,
        max_block_length: max_stream_len(d, 0, 0) as u32,
        terms_offset: offset as u64,
        terms_len: blocks as u64,
        addresses_offset: (offset + blocks) as u64,
        addresses_len: monotonic_data(starts, 16).len() as u64,
    }
}

/// A dictionary that the format can hold: all sizes can be addressed.
pub open spec fn dict_small(d: Seq<Seq<u8>>, offset: nat) -> bool {
    &&& terms_short(d)
    &&& streams_short(d, 0)
    &&& offset + dict_data(d).len() <= i64::MAX
    &&& d.len() <= i64::MAX
    &&& total_bytes(d) <= i32::MAX
}

proof fn lemma_max_nonneg(d: Seq<Seq<u8>>, n: nat)
    ensures
        max_term_len(d, n) >= 0,
    decreases n,
{
    if n > 0 {
        lemma_max_nonneg(d, (n - 1) as nat);
    }
}

/// A written dictionary materializes to its terms.
pub proof fn law_dictionary_round_trip(d: Seq<Seq<u8>>, dvd: Seq<u8>, offset: nat)
    requires
        terms_sorted(d),
        dict_small(d, offset),
        streams_decompress(d, 0, no_table()),
        stands_at(dvd, offset, dict_data(d)),
    ensures
        materialized(written_terms(d, offset), dvd) == Ok::<Seq<Seq<u8>>, ErrorKind>(d),
{
    let plan = written_terms(d, offset);
    let blocks = dict_blocks(d, 0, no_table());
    let starts = dict_starts(d, 0, no_table(), 0);
    let addresses = monotonic_data(starts, 16);
    lemma_max_nonneg(d, d.len());
    lemma_stands_split(dvd, offset, blocks + addresses, index_data(d));
    lemma_stands_split(dvd, offset, blocks, addresses);
    let at = offset + blocks.len();
    let region = dvd.skip(at as int);
    assert(region.subrange(0, addresses.len() as int) =~= dvd.subrange(at as int, (at + addresses.len()) as int));
    let b = monotonic_meta(starts, 16);
    assert(b.subrange(0, b.len() as int) =~= b);
    law_monotonic_round_trip(b, 0, region, starts, 16);
    lemma_starts_len(d, 0, no_table(), 0);
    assert(starts.skip(0) =~= starts);
    lemma_terms_from(plan, dvd, starts, 0, d, 0, no_table(), 0);
    assert(d.skip(0) =~= d);
}

/// How long the meta blocks of some values are.
proof fn lemma_meta_len(values: Seq<i64>, from: nat, offset: nat)
    requires
        from <= values.len(),
    ensures
        meta_from(values, from, 16, offset).len() == META_BYTES_PER_BLOCK * ceil_div(
            (values.len() - from) as nat,
            65536,
        ),
    decreases values.len() - from,
{
    lemma2_to64();
    lemma_ceil_div((values.len() - from) as nat, 65536);
    if from < values.len() {
        let e = block_end(values.len(), from, 16);
        let block = crate::monotonic::block_at(values, from, 16);
        let next = offset + crate::monotonic::block_data(block).len();
        lemma_meta_len(values, e, next);
        lemma_ceil_div((values.len() - e) as nat, 65536);
        lemma_block_meta_len(block, offset);
    }
}

proof fn lemma_block_meta_len(block: Seq<i64>, offset: nat)
    ensures
        block_meta(block, offset).len() == META_BYTES_PER_BLOCK,
{
    let min = crate::monotonic::minimum(crate::monotonic::residues(block));
    lemma_le_bytes_len((min as u64) as nat, 8);
    lemma_le_bytes_len(crate::monotonic::block_average(block) as nat, 4);
    lemma_le_bytes_len(offset, 8);
}

proof fn lemma_index_offsets_len(d: Seq<Seq<u8>>, ord: nat, offset: nat)
    ensures
        index_offsets(d, ord, offset).len() == ceil_div(
            (if ord < d.len() {
                d.len() - ord
            } else {
                0
            }) as nat,
            1024,
        ) + 1,
    decreases
        if ord < d.len() {
            d.len() - ord
        } else {
            0
        },
{
    lemma_ceil_div(0, 1024);
    if ord < d.len() {
        lemma_ceil_div((d.len() - ord) as nat, 1024);
        lemma_index_offsets_len(d, ord + 1024, offset + crate::dict::index_key(d, ord).len());
        if ord + 1024 < d.len() {
            lemma_ceil_div((d.len() - ord - 1024) as nat, 1024);
        }
    }
}

/// The fixed part of a written dictionary entry reads back, with the reverse
/// index skipped.
proof fn lemma_terms_tail(b: Seq<u8>, p: nat, d: Seq<Seq<u8>>, offset: nat)
    requires
        dict_small(d, offset),
        ({
            let blocks = dict_blocks(d, 0, no_table()).len();
            let addresses = monotonic_data(dict_starts(d, 0, no_table(), 0), 16).len();
            stands_at(
                b,
                p,
                sections_meta(max_term_len(d, d.len()), max_stream_len(d, 0, 0), offset, blocks, addresses)
                    + index_meta(d, offset + blocks + addresses),
            )
        }),
    ensures
        ({
            let blocks = dict_blocks(d, 0, no_table()).len();
            let addresses = monotonic_data(dict_starts(d, 0, no_table(), 0), 16).len();
            let w = written_terms(d, offset);
            parse_terms_tail(b, p, w.num_terms, 16, w.address_meta) == Ok::<(TermsPlanModel, nat), ErrorKind>(
                (
                    w,
                    p + (sections_meta(
                        max_term_len(d, d.len()),
                        max_stream_len(d, 0, 0),
                        offset,
                        blocks,
                        addresses,
                    ) + index_meta(d, offset + blocks + addresses)).len(),
                ),
            )
        }),
{
    let blocks = dict_blocks(d, 0, no_table()).len();
    let addresses = monotonic_data(dict_starts(d, 0, no_table(), 0), 16).len();
    let term = max_term_len(d, d.len());
    let stream = max_stream_len(d, 0, 0);
    lemma_max_nonneg(d, d.len());
    lemma_cast_values();
    let s5 = le_bytes(addresses, 8);
    let s4 = le_bytes(offset + blocks, 8) + s5;
    let s3 = le_bytes(blocks, 8) + s4;
    let s2 = le_bytes(offset, 8) + s3;
    let s1 = le_i32(stream) + s2;
    let im = index_meta(d, offset + blocks + addresses);
    lemma_stands_split(b, p, sections_meta(term, stream, offset, blocks, addresses), im);
    lemma_stands_split(b, p, le_i32(term), s1);
    lemma_i32_at(b, p, term);
    lemma_stands_split(b, p + 4, le_i32(stream), s2);
    lemma_i32_at(b, p + 4, stream);
    lemma_stands_split(b, p + 8, le_bytes(offset, 8), s3);
    lemma_len_at(b, p + 8, offset);
    lemma_stands_split(b, p + 16, le_bytes(blocks, 8), s4);
    lemma_len_at(b, p + 16, blocks);
    lemma_stands_split(b, p + 24, le_bytes(offset + blocks, 8), s5);
    lemma_len_at(b, p + 24, offset + blocks);
    lemma_len_at(b, p + 32, addresses);
    // The reverse index.
    let at = offset + blocks + addresses;
    let keys = index_keys(d, 0).len();
    let offsets = index_offsets(d, 0, 0);
    let mm = monotonic_meta(offsets, 16);
    let tail = le_bytes(at, 8) + (le_bytes(keys, 8) + (le_bytes(at + keys, 8) + le_bytes(
        monotonic_data(offsets, 16).len(),
        8,
    )));
    lemma_stands_split(b, p + 40, le_i32(10), mm + tail);
    lemma_i32_at(b, p + 40, 10);
    lemma_meta_len(offsets, 0, 0);
    lemma_index_offsets_len(d, 0, 0);
    lemma2_to64();
    lemma_le_bytes_len(at, 8);
    lemma_le_bytes_len(keys, 8);
    lemma_le_bytes_len(at + keys, 8);
    lemma_le_bytes_len(monotonic_data(offsets, 16).len(), 8);
    assert(tail.len() == 32);
    assert((mm + tail).len() == mm.len() + 32);
    assert(reverse_blocks(d.len(), 10) == ceil_div(offsets.len(), 65536));
    assert((10i32 as u32) == 10);
}

/// A written dictionary entry parses to the plan of the dictionary.
pub proof fn law_dictionary_entry(b: Seq<u8>, p: nat, d: Seq<Seq<u8>>, offset: nat)
    requires
        dict_small(d, offset),
        stands_at(b, p, dict_meta(d, offset)),
    ensures
        parse_terms_dict(b, p) == Ok::<(TermsPlanModel, nat), ErrorKind>(
            (written_terms(d, offset), p + dict_meta(d, offset).len()),
        ),
{
    let blocks = dict_blocks(d, 0, no_table()).len();
    let starts = dict_starts(d, 0, no_table(), 0);
    let addresses = monotonic_data(starts, 16).len();
    let sm = sections_meta(max_term_len(d, d.len()), max_stream_len(d, 0, 0), offset, blocks, addresses);
    let im = index_meta(d, offset + blocks + addresses);
    let mm = monotonic_meta(starts, 16);
    let head = varint_bytes(d.len()) + (le_i32(16) + mm);
    assert(dict_meta(d, offset) =~= head + (sm + im));
    lemma_stands_split(b, p, head, sm + im);
    lemma_stands_split(b, p, varint_bytes(d.len()), le_i32(16) + mm);
    law_vlong_round_trip(b, p, d.len() as u64);
    lemma_cast_values();
    let p1 = p + varint_bytes(d.len()).len();
    lemma_stands_split(b, p1, le_i32(16), mm);
    lemma_parse_i32_at(b, p1, 16);
    let data = monotonic_data(starts, 16);
    assert(data.subrange(0, data.len() as int) =~= data);
    law_monotonic_round_trip(b, p1 + 4, data, starts, 16);
    lemma_starts_len(d, 0, no_table(), 0);
    assert((16i32 as u32) == 16);
    lemma_terms_tail(b, p + head.len(), d, offset);
}

} // verus!
