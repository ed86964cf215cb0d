//! IndexedDISI: which documents carry a value.
//!
//! Blocks of 65536 documents, each ALL, DENSE (bitmap with an optional rank
//! table) or SPARSE (document numbers as shorts), followed by a sentinel
//! block and a jump table. The reader is a bulk decoder straight into
//! validity words.

use vstd::prelude::*;
use vstd::arithmetic::div_mod::{
    lemma_div_basics, lemma_fundamental_div_mod, lemma_fundamental_div_mod_converse,
    lemma_mod_multiples_vanish,
};
use vstd::arithmetic::power2::{lemma2_to64, lemma_pow2_adds, lemma_pow2_pos, pow2};
use crate::bitset::{
    bit_count, count_bits, empty_words, has_bit, has_bits_from, lemma_bit_count_rank, lemma_zero_word, rank, set_bit,
    stands_for, word_bit,
};
use crate::bytes::{
    le_bytes, le_value, lemma_le_bytes_len, lemma_le_round_trip, lemma_le_value_bound,
    lemma_le_value_split, lemma_pow2_mono, push_le,
};
use crate::cursor::{lemma_stands_split, stands_at, Cursor};
use crate::direct::{ceil_div, lemma_bits_in_window, lemma_ceil_div, two_to};
use crate::error::{Error, ErrorKind, Result};

verus! {

pub const BLOCK_SIZE: u32 = 65536;

pub const DENSE_BLOCK_LONGS: usize = 1024;

/// Bytes of a DENSE block's bitmap.
pub const DENSE_BLOCK_BYTES: usize = 8192;

/// A block with at most this many documents is SPARSE.
pub const MAX_ARRAY_LENGTH: u32 = 4095;

const NO_MORE_DOCS: u32 = 0x7FFF_FFFF;

pub const DEFAULT_DENSE_RANK_POWER: u8 = 9;

/// Sorted and without repetition.
pub open spec fn strictly_increasing(docs: Seq<u32>) -> bool {
    forall|i: int, j: int| 0 <= i < j < docs.len() ==> docs[i] < docs[j]
}

/// The end of the run of documents from `i` on that lie in `block`.
pub open spec fn run_end(docs: Seq<u32>, i: nat, block: nat) -> nat
    decreases docs.len() - i,
{
    if i < docs.len() && docs[i as int] as nat / 65536 == block {
        run_end(docs, i + 1, block)
    } else {
        i
    }
}

/// Documents `i` up to `e`, counted from the start of their block.
pub open spec fn lows(docs: Seq<u32>, i: nat, e: nat) -> Seq<nat> {
    Seq::new((e - i) as nat, |k: int| docs[i + k] as nat % 65536)
}

/// The number whose set bits are `lows`.
pub open spec fn mask_of(lows: Seq<nat>) -> nat
    decreases lows.len(),
{
    if lows.len() == 0 {
        0
    } else {
        mask_of(lows.drop_last()) + pow2(lows.last())
    }
}

/// How many of `lows` are below `x`.
pub open spec fn count_below(lows: Seq<nat>, x: nat) -> nat
    decreases lows.len(),
{
    if lows.len() == 0 {
        0
    } else {
        count_below(lows.drop_last(), x) + if lows.last() < x {
            1nat
        } else {
            0nat
        }
    }
}

/// One big-endian short for each `2^power` documents of a block: how many
/// members come before them.
pub open spec fn rank_table(lows: Seq<nat>, power: nat) -> Seq<u8> {
    Seq::new(
        2 * pow2((16 - power) as nat),
        |i: int|
            {
                let n = count_below(lows, (i as nat / 2) * pow2(power));
                if i % 2 == 0 {
                    (n / 256) as u8
                } else {
                    (n % 256) as u8
                }
            },
    )
}

/// Members as little-endian shorts.
pub open spec fn sparse_bytes(lows: Seq<nat>) -> Seq<u8>
    decreases lows.len(),
{
    if lows.len() == 0 {
        Seq::empty()
    } else {
        sparse_bytes(lows.drop_last()) + le_bytes(lows.last(), 2)
    }
}

/// What follows the header of a block.
pub open spec fn block_body(lows: Seq<nat>, power: int) -> Seq<u8> {
    if lows.len() <= MAX_ARRAY_LENGTH {
        sparse_bytes(lows)
    } else if lows.len() == BLOCK_SIZE {
        Seq::empty()
    } else {
        (if power == -1 {
            Seq::empty()
        } else {
            rank_table(lows, power as nat)
        }) + le_bytes(mask_of(lows), DENSE_BLOCK_BYTES as nat)
    }
}

/// A block: its number, its cardinality less one, its body.
pub open spec fn block_bytes(block: nat, lows: Seq<nat>, power: int) -> Seq<u8> {
    le_bytes(block, 2) + (le_bytes((lows.len() - 1) as nat, 2) + block_body(lows, power))
}

/// The blocks of the documents from `i` on.
pub open spec fn blocks_from(docs: Seq<u32>, i: nat, power: int) -> Seq<u8>
    decreases docs.len() - i,
    when i <= docs.len()
    via blocks_from_decreases
{
    if i >= docs.len() {
        Seq::empty()
    } else {
        let block = docs[i as int] as nat / 65536;
        let e = run_end(docs, i, block);
        block_bytes(block, lows(docs, i, e), power) + blocks_from(docs, e, power)
    }
}

#[via_fn]
proof fn blocks_from_decreases(docs: Seq<u32>, i: nat, power: int) {
    if i < docs.len() {
        lemma_run_end(docs, i);
    }
}

/// One entry per block number: how many members, and how many bytes, come
/// before the first block from that number on; then one for the sentinel.
pub open spec fn jumps_from(docs: Seq<u32>, i: nat, offset: nat, first: nat, power: int) -> Seq<(nat, nat)>
    decreases docs.len() - i,
    when i <= docs.len()
    via jumps_from_decreases
{
    if i >= docs.len() {
        seq![(i, offset)]
    } else {
        let block = docs[i as int] as nat / 65536;
        let e = run_end(docs, i, block);
        Seq::new((block + 1 - first) as nat, |k: int| (i, offset)) + jumps_from(
            docs,
            e,
            offset + block_bytes(block, lows(docs, i, e), power).len(),
            block + 1,
            power,
        )
    }
}

#[via_fn]
proof fn jumps_from_decreases(docs: Seq<u32>, i: nat, offset: nat, first: nat, power: int) {
    if i < docs.len() {
        lemma_run_end(docs, i);
    }
}

/// Jump-table entries as pairs of little-endian integers.
pub open spec fn jump_bytes(jumps: Seq<(nat, nat)>) -> Seq<u8>
    decreases jumps.len(),
{
    if jumps.len() == 0 {
        Seq::empty()
    } else {
        jump_bytes(jumps.drop_last()) + (le_bytes(jumps.last().0, 4) + le_bytes(jumps.last().1, 4))
    }
}

/// The jump table, which is left out where there is only one block.
pub open spec fn jump_table(docs: Seq<u32>, power: int) -> Seq<(nat, nat)> {
    let jumps = jumps_from(docs, 0, 0, 0, power);
    if jumps.len() == 2 {
        Seq::empty()
    } else {
        jumps
    }
}

/// The whole region: blocks, sentinel block, jump table.
pub open spec fn disi_bytes(docs: Seq<u32>, power: int) -> Seq<u8> {
    blocks_from(docs, 0, power) + (block_bytes(32767, seq![65535nat], power) + jump_bytes(jump_table(docs, power)))
}

/// A rank power that a writer accepts.
pub open spec fn writable_rank_power(power: int) -> bool {
    7 <= power <= 15 || power == -1
}

pub proof fn lemma_run_end(docs: Seq<u32>, i: nat)
    requires
        i < docs.len(),
    ensures
        i < run_end(docs, i, docs[i as int] as nat / 65536) <= docs.len(),
{
    lemma_run_end_members(docs, i, docs[i as int] as nat / 65536);
    lemma_run_end_members(docs, i + 1, docs[i as int] as nat / 65536);
}

pub proof fn lemma_run_end_members(docs: Seq<u32>, i: nat, block: nat)
    requires
        i <= docs.len(),
    ensures
        i <= run_end(docs, i, block) <= docs.len(),
        forall|k: int| i <= k < run_end(docs, i, block) ==> #[trigger] docs[k] as nat / 65536 == block,
        run_end(docs, i, block) < docs.len() ==> docs[run_end(docs, i, block) as int] as nat / 65536 != block,
    decreases docs.len() - i,
{
    if i < docs.len() && docs[i as int] as nat / 65536 == block {
        lemma_run_end_members(docs, i + 1, block);
    }
}

/// Members of one block, in order and below the block size.
pub open spec fn block_members(lows: Seq<nat>) -> bool {
    &&& forall|i: int, j: int| 0 <= i < j < lows.len() ==> lows[i] < lows[j]
    &&& forall|i: int| 0 <= i < lows.len() ==> #[trigger] lows[i] < 65536
}

pub proof fn lemma_lows(docs: Seq<u32>, i: nat, e: nat)
    requires
        strictly_increasing(docs),
        i < docs.len(),
        e == run_end(docs, i, docs[i as int] as nat / 65536),
    ensures
        block_members(lows(docs, i, e)),
        1 <= lows(docs, i, e).len() <= 65536,
        lows(docs, i, e).len() == e - i,
{
    let block = docs[i as int] as nat / 65536;
    lemma_run_end(docs, i);
    lemma_run_end_members(docs, i, block);
    let l = lows(docs, i, e);
    assert forall|a: int, b: int| 0 <= a < b < l.len() implies l[a] < l[b] by {
        assert(docs[i + a] < docs[i + b]);
        assert(docs[i + a] as nat / 65536 == block);
        assert(docs[i + b] as nat / 65536 == block);
    }
    lemma_members_len(l);
}

/// At most `65536` members fit into a block.
pub proof fn lemma_members_len(l: Seq<nat>)
    requires
        block_members(l),
    ensures
        l.len() <= 65536,
{
    if l.len() > 0 {
        lemma_member_at_least(l, l.len() as int - 1);
    }
}

proof fn lemma_member_at_least(l: Seq<nat>, i: int)
    requires
        block_members(l),
        0 <= i < l.len(),
    ensures
        i <= l[i],
    decreases i,
{
    if i > 0 {
        lemma_member_at_least(l, i - 1);
    }
}

/// The end of the run of documents from `i` on that lie in one block.
fn find_run_end(docs: &[u32], i: usize) -> (e: usize)
    requires
        i < docs@.len(),
    ensures
        e == run_end(docs@, i as nat, docs@[i as int] as nat / 65536),
        i < e <= docs@.len(),
{
    let block: u32 = docs[i] / 65536;
    proof {
        lemma_run_end(docs@, i as nat);
    }
    let mut e: usize = i;
    while e < docs.len() && docs[e] / 65536 == block
        invariant
            block == docs@[i as int] as nat / 65536,
            i <= e <= docs@.len(),
            run_end(docs@, e as nat, block as nat) == run_end(docs@, i as nat, block as nat),
        decreases docs@.len() - e,
    {
        e = e + 1;
    }
    e
}

/// Appends the rank table of a DENSE block.
fn create_rank(docs: &[u32], from: usize, to: usize, power: u32, out: &mut Vec<u8>)
    requires
        from <= to <= docs@.len(),
        to - from <= 65536,
        block_members(lows(docs@, from as nat, to as nat)),
        7 <= power <= 15,
    ensures
        final(out)@ == old(out)@ + rank_table(lows(docs@, from as nat, to as nat), power as nat),
{
    let ghost l = lows(docs@, from as nat, to as nat);
    proof {
        lemma2_to64();
        lemma_pow2_mono(power as nat, 15);
        lemma_pow2_mono((16 - power) as nat, 9);
        lemma_pow2_adds(power as nat, (16 - power) as nat);
    }
    let step: u64 = two_to(power);
    let entries: u64 = two_to(16 - power);
    let mut at: usize = from;
    let mut e: u64 = 0;
    let ghost table = rank_table(l, power as nat);
    assert(table.subrange(0, 0) =~= Seq::<u8>::empty());
    assert(out@ =~= old(out)@ + table.subrange(0, 0));
    while e < entries
        invariant
            from <= at <= to <= docs@.len(),
            to - from <= 65536,
            l == lows(docs@, from as nat, to as nat),
            block_members(l),
            table == rank_table(l, power as nat),
            table.len() == 2 * entries,
            step == pow2(power as nat),
            entries <= 512,
            step <= 32768,
            e <= entries,
            forall|k: int| 0 <= k < at - from ==> #[trigger] l[k] < (if e == 0 { 0 } else { (e - 1) * step }),
            out@ == old(out)@ + table.subrange(0, 2 * e as int),
        decreases entries - e,
    {
        assert(e * step <= 512 * 32768) by (nonlinear_arith)
            requires
                e <= 512,
                step <= 32768,
        ;
        assert(e > 0 ==> (e - 1) * step <= e * step) by (nonlinear_arith);
        let bound: u64 = e * step;
        while at < to && (docs[at] as u64 % 65536) < bound
            invariant
                from <= at <= to <= docs@.len(),
                l == lows(docs@, from as nat, to as nat),
                forall|k: int| 0 <= k < at - from ==> #[trigger] l[k] < bound,
            decreases to - at,
        {
            assert(l[at - from] == docs@[at as int] as nat % 65536);
            at = at + 1;
        }
        let n: usize = at - from;
        proof {
            assert forall|k: int| n <= k < l.len() implies bound <= #[trigger] l[k] by {
                assert(l[at - from] == docs@[at as int] as nat % 65536);
                if k > n {
                    assert(l[n as int] < l[k]);
                }
            }
            lemma_count_split(l, bound as nat, n as nat);
            assert(table[2 * e as int] == (n / 256) as u8) by {
                assert((2 * e) as nat / 2 == e);
            }
            assert(table[2 * e + 1] == (n % 256) as u8) by {
                assert((2 * e + 1) as nat / 2 == e);
            }
        }
        let ghost before = out@;
        out.push((n / 256) as u8);
        out.push((n % 256) as u8);
        e = e + 1;
        assert(out@ =~= old(out)@ + table.subrange(0, 2 * e as int)) by {
            assert(before == old(out)@ + table.subrange(0, 2 * (e - 1) as int));
        }
        assert((e - 1) * step == bound);
    }
    assert(table.subrange(0, 2 * entries as int) =~= table);
}

/// In a list split into members below and not below `x`, those below count.
proof fn lemma_count_split(l: Seq<nat>, x: nat, n: nat)
    requires
        n <= l.len(),
        forall|k: int| 0 <= k < n ==> #[trigger] l[k] < x,
        forall|k: int| n <= k < l.len() ==> x <= #[trigger] l[k],
    ensures
        count_below(l, x) == n,
    decreases l.len(),
{
    if l.len() > 0 {
        let t = l.drop_last();
        assert forall|k: int| 0 <= k < t.len() implies #[trigger] t[k] == l[k] by {}
        if n == l.len() {
            lemma_count_split(t, x, (n - 1) as nat);
        } else {
            lemma_count_split(t, x, n);
        }
    }
}

/// Raising one byte raises the number accordingly.
proof fn lemma_le_value_update(s: Seq<u8>, j: int, v: u8)
    requires
        0 <= j < s.len(),
    ensures
        le_value(s.update(j, v)) == le_value(s) + (v - s[j]) * pow2(8 * j as nat),
    decreases s.len(),
{
    let u = s.update(j, v);
    lemma2_to64();
    if j == 0 {
        assert(u.drop_first() =~= s.drop_first());
        assert((v - s[0]) * 1 == v - s[0]);
    } else {
        assert(u.drop_first() =~= s.drop_first().update(j - 1, v));
        lemma_le_value_update(s.drop_first(), j - 1, v);
        let p = pow2(8 * (j - 1) as nat);
        lemma_pow2_adds(8, 8 * (j - 1) as nat);
        assert(8 + 8 * (j - 1) as nat == 8 * j as nat);
        let d = v - s[j];
        assert(256 * (d * p) == d * (256 * p)) by (nonlinear_arith);
    }
}

/// A byte of a number below `2^(8j + k)` is below `2^k`.
proof fn lemma_top_byte(s: Seq<u8>, j: int, k: nat)
    requires
        0 <= j < s.len(),
        le_value(s) < pow2(8 * j as nat + k),
    ensures
        s[j] < pow2(k),
{
    let a = s.subrange(0, j);
    let b = s.subrange(j, s.len() as int);
    assert(s =~= a + b);
    lemma_le_value_split(a, b);
    assert(b[0] == s[j]);
    lemma_pow2_adds(8 * j as nat, k);
    let p = pow2(8 * j as nat);
    lemma_pow2_pos(8 * j as nat);
    let w = le_value(b);
    assert(w < pow2(k)) by (nonlinear_arith)
        requires
            p > 0,
            p * w < p * pow2(k),
    ;
}

/// Members below `x` make a number below `2^x`.
proof fn lemma_mask_bound(l: Seq<nat>, x: nat)
    requires
        forall|i: int, j: int| 0 <= i < j < l.len() ==> l[i] < l[j],
        forall|i: int| 0 <= i < l.len() ==> #[trigger] l[i] < x,
    ensures
        mask_of(l) < pow2(x),
    decreases l.len(),
{
    lemma_pow2_pos(x);
    if l.len() > 0 {
        let t = l.drop_last();
        lemma_mask_bound(t, l.last());
        lemma_pow2_adds(1, l.last());
        lemma2_to64();
        lemma_pow2_mono(l.last() + 1, x);
    }
}

/// The set bits of the number are the members.
pub proof fn lemma_mask_bits(l: Seq<nat>, d: nat)
    requires
        forall|i: int, j: int| 0 <= i < j < l.len() ==> l[i] < l[j],
    ensures
        (mask_of(l) / pow2(d)) % 2 == 1 <==> l.contains(d),
        (mask_of(l) / pow2(d)) % 2 == 0 || (mask_of(l) / pow2(d)) % 2 == 1,
    decreases l.len(),
{
    lemma_pow2_pos(d);
    lemma2_to64();
    if l.len() == 0 {
        lemma_div_basics(pow2(d) as int);
    } else {
        let t = l.drop_last();
        let top = l.last();
        lemma_mask_bits(t, d);
        lemma_mask_bound(t, top);
        let m = mask_of(t) as int;
        let p = pow2(d) as int;
        assert(l.contains(d) <==> d == top || t.contains(d)) by {
            if t.contains(d) {
                let i = choose|i: int| 0 <= i < t.len() && t[i] == d;
                assert(l[i] == d);
            }
            if d == top {
                assert(l[l.len() - 1] == d);
            }
            if l.contains(d) && d != top {
                let i = choose|i: int| 0 <= i < l.len() && l[i] == d;
                assert(t[i] == d);
            }
        }
        if d < top {
            let c = pow2((top - d - 1) as nat) as int;
            lemma_pow2_adds(d, (top - d) as nat);
            lemma_pow2_adds(1, (top - d - 1) as nat);
            lemma_fundamental_div_mod(m, p);
            vstd::arithmetic::div_mod::lemma_mod_bound(m, p);
            assert(m + p * (2 * c) == (m / p + 2 * c) * p + m % p) by (nonlinear_arith)
                requires
                    m == p * (m / p) + m % p,
            ;
            lemma_fundamental_div_mod_converse(m + p * (2 * c), p, m / p + 2 * c, m % p);
            lemma_mod_multiples_vanish(c, m / p, 2);
        } else if d == top {
            lemma_fundamental_div_mod_converse(m + p, p, 1, m);
            assert(!t.contains(d)) by {
                if t.contains(d) {
                    let i = choose|i: int| 0 <= i < t.len() && t[i] == d;
                    assert(l[i] < l[l.len() - 1]);
                }
            }
        } else {
            lemma_pow2_mono(top + 1, d);
            lemma_pow2_adds(1, top);
            lemma_fundamental_div_mod_converse(m + pow2(top), p, 0, m + pow2(top));
            assert(!t.contains(d)) by {
                if t.contains(d) {
                    let i = choose|i: int| 0 <= i < t.len() && t[i] == d;
                    assert(l[i] < l[l.len() - 1]);
                }
            }
        }
    }
}

/// Appends the bitmap of a DENSE block.
fn push_bitmap(docs: &[u32], from: usize, to: usize, out: &mut Vec<u8>)
    requires
        from <= to <= docs@.len(),
        block_members(lows(docs@, from as nat, to as nat)),
    ensures
        final(out)@ == old(out)@ + le_bytes(mask_of(lows(docs@, from as nat, to as nat)), DENSE_BLOCK_BYTES as nat),
{
    let ghost l = lows(docs@, from as nat, to as nat);
    let mut map: Vec<u8> = vec![0u8; DENSE_BLOCK_BYTES];
    let mut at: usize = from;
    proof {
        lemma_zeros(map@);
        assert(l.take(0) =~= Seq::<nat>::empty());
    }
    while at < to
        invariant
            from <= at <= to <= docs@.len(),
            l == lows(docs@, from as nat, to as nat),
            block_members(l),
            map@.len() == DENSE_BLOCK_BYTES,
            le_value(map@) == mask_of(l.take(at - from)),
        decreases to - at,
    {
        let low: u32 = docs[at] % 65536;
        let j: usize = (low / 8) as usize;
        let ghost k = low as nat % 8;
        let ghost done = l.take(at - from);
        proof {
            assert(l[at - from] == low);
            assert forall|i: int| 0 <= i < done.len() implies #[trigger] done[i] < low by {
                assert(done[i] == l[i]);
            }
            lemma_mask_bound(done, low as nat);
            assert(low as nat == 8 * j as nat + k);
            lemma_top_byte(map@, j as int, k);
            lemma2_to64();
            lemma_pow2_mono(k, 7);
            lemma_pow2_adds(8 * j as nat, k);
            let one = pow2(k) as u8;
            let v = (map@[j as int] + one) as u8;
            lemma_pow2_adds(1, k);
            lemma_le_value_update(map@, j as int, v);
            assert(pow2(k) * pow2(8 * j as nat) == pow2(8 * j as nat) * pow2(k)) by (nonlinear_arith);
            assert(l.take(at - from + 1).drop_last() =~= done);
        }
        let add: u8 = two_to(low % 8) as u8;
        let cur: u8 = map[j];
        map[j] = cur + add;
        at = at + 1;
    }
    assert(l.take(to - from) =~= l);
    proof {
        crate::bytes::lemma_le_bytes_of_value(map@);
    }
    out.extend_from_slice(map.as_slice());
}

proof fn lemma_zeros(s: Seq<u8>)
    requires
        forall|i: int| 0 <= i < s.len() ==> s[i] == 0,
    ensures
        le_value(s) == 0,
    decreases s.len(),
{
    if s.len() > 0 {
        lemma_zeros(s.drop_first());
    }
}

/// Appends one block.
fn flush_block(block: u32, docs: &[u32], from: usize, to: usize, dense_rank_power: i8, out: &mut Vec<u8>)
    requires
        from < to <= docs@.len(),
        block_members(lows(docs@, from as nat, to as nat)),
        writable_rank_power(dense_rank_power as int),
    ensures
        final(out)@ == old(out)@ + block_bytes(
            block as nat,
            lows(docs@, from as nat, to as nat),
            dense_rank_power as int,
        ),
{
    let ghost l = lows(docs@, from as nat, to as nat);
    let ghost start = out@;
    proof {
        lemma_members_len(l);
    }
    let cardinality: usize = to - from;
    push_le(out, block as u64, 2);
    push_le(out, (cardinality - 1) as u64, 2);
    let ghost head = le_bytes(block as nat, 2) + le_bytes((cardinality - 1) as nat, 2);
    assert(out@ =~= start + head);
    if cardinality > MAX_ARRAY_LENGTH as usize {
        if cardinality != BLOCK_SIZE as usize {
            if dense_rank_power != -1 {
                create_rank(docs, from, to, dense_rank_power as u32, out);
            }
            push_bitmap(docs, from, to, out);
        }
    } else {
        let mut at: usize = from;
        assert(l.take(0) =~= Seq::<nat>::empty());
        assert(out@ =~= start + head + sparse_bytes(l.take(0)));
        while at < to
            invariant
                from <= at <= to <= docs@.len(),
                l == lows(docs@, from as nat, to as nat),
                out@ == start + head + sparse_bytes(l.take(at - from)),
            decreases to - at,
        {
            push_le(out, (docs[at] % 65536) as u64, 2);
            at = at + 1;
            proof {
                let t = l.take(at - from);
                assert(t.drop_last() =~= l.take(at - from - 1));
                assert(t.last() == docs@[at - 1] as nat % 65536);
                assert(out@ =~= start + head + sparse_bytes(t));
            }
        }
        assert(l.take(to - from) =~= l);
    }
    assert(out@ =~= start + block_bytes(block as nat, l, dense_rank_power as int));
}

/// Serialize the set `doc_ids` (sorted, unique) as blocks, sentinel and jump
/// table, appended to `out`. Returns the jump-table entry count for the
/// metadata.
pub fn write_bit_set(doc_ids: &[u32], out: &mut Vec<u8>) -> (r: Result<i16>)
    requires
        strictly_increasing(doc_ids@),
    ensures
        r == Ok::<i16, Error>(jump_table(doc_ids@, 9).len() as u16 as i16),
        final(out)@ == old(out)@ + disi_bytes(doc_ids@, 9),
{
    write_bit_set_with_rank_power(doc_ids, out, DEFAULT_DENSE_RANK_POWER as i8)
}

fn write_bit_set_with_rank_power(doc_ids: &[u32], out: &mut Vec<u8>, dense_rank_power: i8) -> (r: Result<i16>)
    requires
        strictly_increasing(doc_ids@),
    ensures
        writable_rank_power(dense_rank_power as int) ==> {
            &&& r == Ok::<i16, Error>(jump_table(doc_ids@, dense_rank_power as int).len() as u16 as i16)
            &&& final(out)@ == old(out)@ + disi_bytes(doc_ids@, dense_rank_power as int)
        },
        !writable_rank_power(dense_rank_power as int) ==> {
            &&& r matches Err(e) && e.kind() == ErrorKind::InvalidArgument
            &&& final(out)@ == old(out)@
        },
{
    if !(7 <= dense_rank_power && dense_rank_power <= 15) && dense_rank_power != -1 {
        return Err(Error::invalid("denseRankPower must be 7-15 or -1"));
    }
    let ghost power = dense_rank_power as int;
    let ghost docs = doc_ids@;
    let ghost start = out@;
    let mut body: Vec<u8> = Vec::new();
    let mut jumps: Vec<(u64, u64)> = Vec::new();
    let mut last_block: u32 = 0;
    let mut i: usize = 0;
    assert(body@ + blocks_from(docs, 0, power) =~= blocks_from(docs, 0, power));
    assert(jumps_model(jumps@) + jumps_from(docs, 0, 0, 0, power) =~= jumps_from(docs, 0, 0, 0, power));
    while i < doc_ids.len()
        invariant
            docs == doc_ids@,
            strictly_increasing(docs),
            writable_rank_power(power),
            power == dense_rank_power,
            i <= docs.len(),
            i < docs.len() ==> last_block <= docs[i as int] as nat / 65536,
            i > 0 ==> last_block == docs[i - 1] as nat / 65536 + 1,
            i == 0 ==> last_block == 0,
            jumps@.len() == last_block,
            body@ + blocks_from(docs, i as nat, power) == blocks_from(docs, 0, power),
            jumps_model(jumps@) + jumps_from(docs, i as nat, body@.len(), last_block as nat, power) == jumps_from(
                docs,
                0,
                0,
                0,
                power,
            ),
        decreases docs.len() - i,
    {
        let block: u32 = doc_ids[i] / 65536;
        let e: usize = find_run_end(doc_ids, i);
        let ghost l = lows(docs, i as nat, e as nat);
        proof {
            lemma_lows(docs, i as nat, e as nat);
            lemma_run_end_members(docs, i as nat, block as nat);
            assert(docs[e - 1] as nat / 65536 == block);
            if e < docs.len() {
                assert(docs[e - 1] < docs[e as int]);
                assert(docs[e as int] as nat / 65536 != block);
            }
        }
        let offset: u64 = body.len() as u64;
        let ghost jumps0 = jumps_model(jumps@);
        let ghost body0 = body@;
        while jumps.len() < block as usize + 1
            invariant
                block <= 65535,
                last_block <= jumps@.len() <= block + 1,
                jumps_model(jumps@) == jumps0 + Seq::new((jumps@.len() - last_block) as nat, |k: int| (i as nat, offset as nat)),
            decreases block + 1 - jumps@.len(),
        {
            let ghost before = jumps_model(jumps@);
            jumps.push((i as u64, offset));
            assert(jumps_model(jumps@) =~= before.push((i as nat, offset as nat)));
            assert(jumps_model(jumps@) =~= jumps0 + Seq::new(
                (jumps@.len() - last_block) as nat,
                |k: int| (i as nat, offset as nat),
            ));
        }
        flush_block(block, doc_ids, i, e, dense_rank_power, &mut body);
        proof {
            let bb = block_bytes(block as nat, l, power);
            assert(body0 + (bb + blocks_from(docs, e as nat, power)) =~= body@ + blocks_from(docs, e as nat, power));
            let js = Seq::new((block + 1 - last_block) as nat, |k: int| (i as nat, offset as nat));
            let tail = jumps_from(docs, e as nat, body@.len(), (block + 1) as nat, power);
            assert(jumps_from(docs, i as nat, body0.len(), last_block as nat, power) == js + tail);
            assert(jumps0 + (js + tail) =~= jumps_model(jumps@) + tail);
        }
        last_block = block + 1;
        i = e;
    }
    let offset: u64 = body.len() as u64;
    let ghost jumps0 = jumps_model(jumps@);
    jumps.push((i as u64, offset));
    proof {
        assert(body@ + blocks_from(docs, i as nat, power) =~= body@);
        assert(jumps_model(jumps@) =~= jumps0 + seq![(i as nat, offset as nat)]);
    }
    let sentinel: [u32; 1] = [NO_MORE_DOCS];
    proof {
        assert(lows(sentinel@, 0, 1) =~= seq![65535nat]);
    }
    flush_block(NO_MORE_DOCS / 65536, sentinel.as_slice(), 0, 1, dense_rank_power, &mut body);
    let count: usize = if jumps.len() == 2 {
        0
    } else {
        jumps.len()
    };
    let ghost table = jump_table(docs, power);
    let ghost body1 = body@;
    assert(table.take(0) =~= Seq::<(nat, nat)>::empty());
    assert(body@ =~= body1 + jump_bytes(table.take(0)));
    let mut k: usize = 0;
    while k < count
        invariant
            k <= count == table.len(),
            count <= jumps@.len(),
            count > 0 ==> table == jumps_model(jumps@),
            body@ == body1 + jump_bytes(table.take(k as int)),
        decreases count - k,
    {
        let (index, off): (u64, u64) = jumps[k];
        let ghost before = body@;
        push_le(&mut body, index, 4);
        push_le(&mut body, off, 4);
        k = k + 1;
        proof {
            let t = table.take(k as int);
            assert(t.drop_last() =~= table.take(k - 1));
            assert(t.last() == (index as nat, off as nat));
            assert(body@ =~= body1 + jump_bytes(t));
        }
    }
    assert(table.take(count as int) =~= table);
    out.extend_from_slice(body.as_slice());
    assert(out@ =~= start + disi_bytes(docs, power));
    Ok(count as u16 as i16)
}

/// Jump-table entries as mathematical pairs.
spec fn jumps_model(jumps: Seq<(u64, u64)>) -> Seq<(nat, nat)> {
    Seq::new(jumps.len(), |k: int| (jumps[k].0 as nat, jumps[k].1 as nat))
}

/// A rank power that a reader can make sense of; 0xFF stands for none.
pub open spec fn readable_rank_power(power: u8) -> bool {
    power == 0xFF || 7 <= power <= 70
}

/// How many bytes the rank table of a DENSE block takes.
pub open spec fn rank_len(power: u8) -> nat {
    if power == 0xFF {
        0
    } else {
        1024nat / pow2((power - 7) as nat)
    }
}

/// Byte length of the rank table a DENSE block carries.
pub fn dense_rank_bytes(dense_rank_power: u8) -> (r: usize)
    requires
        readable_rank_power(dense_rank_power),
    ensures
        r == rank_len(dense_rank_power),
        r <= 1024,
{
    if dense_rank_power == 0xFF {
        return 0;
    }
    let shift: u64 = (dense_rank_power - 7) as u64;
    proof {
        vstd::bits::lemma_u64_shr_is_div(1024, shift);
        lemma_pow2_pos(shift as nat);
        vstd::arithmetic::div_mod::lemma_div_nonincreasing(1024, pow2(shift as nat) as int);
    }
    (1024u64 >> shift) as usize
}

/// How many bits the validity words of `max_doc` documents have.
pub open spec fn bitmap_bits(max_doc: nat) -> nat {
    64 * ceil_div(max_doc, 64)
}

/// Bit `d` of a bitmap.
pub open spec fn map_bit(map: Seq<u8>, d: nat) -> bool {
    (le_value(map) / pow2(d)) % 2 == 1
}

/// Short `i` of those that start at `p`.
pub open spec fn short_at(b: Seq<u8>, p: nat, i: nat) -> nat {
    le_value(b.subrange((p + 2 * i) as int, (p + 2 * i + 2) as int))
}

/// Reads the block at `p`: its cardinality, and `acc` with its members.
pub open spec fn scan_block(b: Seq<u8>, p: nat, max_doc: nat, rank: nat, acc: Set<nat>) -> std::result::Result<
    (nat, Set<nat>, nat),
    ErrorKind,
> {
    if p + 4 > b.len() {
        Err(ErrorKind::Corrupt)
    } else {
        let base = le_value(b.subrange(p as int, (p + 2) as int)) * 65536;
        let card = le_value(b.subrange((p + 2) as int, (p + 4) as int)) + 1;
        if base >= max_doc {
            Err(ErrorKind::Corrupt)
        } else if card == BLOCK_SIZE {
            if base + 65536 > bitmap_bits(max_doc) {
                Err(ErrorKind::Corrupt)
            } else {
                Ok((card, acc.union(Set::new(|d: nat| base <= d < base + 65536)), p + 4))
            }
        } else if card > MAX_ARRAY_LENGTH {
            let w = p + 4 + rank;
            let map = b.subrange(w as int, (w + DENSE_BLOCK_BYTES) as int);
            if w + DENSE_BLOCK_BYTES > b.len() {
                Err(ErrorKind::Corrupt)
            } else if exists|d: nat| d < 65536 && base + d >= bitmap_bits(max_doc) && #[trigger] map_bit(map, d) {
                Err(ErrorKind::Corrupt)
            } else {
                Ok((card, dense_into(acc, base, map), w + DENSE_BLOCK_BYTES as nat))
            }
        } else if p + 4 + 2 * card > b.len() {
            Err(ErrorKind::Corrupt)
        } else if exists|i: nat| i < card && base + #[trigger] short_at(b, p + 4, i) >= max_doc {
            Err(ErrorKind::Corrupt)
        } else {
            Ok((card, acc.union(sparse_members(b, p + 4, base, card)), p + 4 + 2 * card))
        }
    }
}

/// `acc`, with the documents of one block replaced by what `map` says.
pub open spec fn dense_into(acc: Set<nat>, base: nat, map: Seq<u8>) -> Set<nat> {
    Set::new(
        |d: nat|
            if base <= d < base + 65536 {
                map_bit(map, (d - base) as nat)
            } else {
                acc.contains(d)
            },
    )
}

/// The documents that `n` shorts from `p` on name.
pub open spec fn sparse_members(b: Seq<u8>, p: nat, base: nat, n: nat) -> Set<nat> {
    Set::new(|d: nat| exists|i: nat| i < n && d == base + #[trigger] short_at(b, p, i))
}

/// Reads blocks from `p` on until `want` documents were seen, exactly.
pub open spec fn disi_scan(
    b: Seq<u8>,
    p: nat,
    seen: nat,
    want: nat,
    max_doc: nat,
    rank: nat,
    acc: Set<nat>,
) -> std::result::Result<Set<nat>, ErrorKind>
    decreases
        if seen < want {
            want - seen
        } else {
            0
        },
{
    if seen == want {
        Ok(acc)
    } else if seen > want {
        Err(ErrorKind::Corrupt)
    } else {
        match scan_block(b, p, max_doc, rank, acc) {
            Err(k) => Err(k),
            Ok((card, docs, q)) => if card == 0 {
                Err(ErrorKind::Corrupt)
            } else {
                disi_scan(b, q, seen + card, want, max_doc, rank, docs)
            },
        }
    }
}

/// A set of exactly `want` documents, all of them below `max_doc`.
pub open spec fn names_exactly(docs: Set<nat>, want: nat, max_doc: nat) -> bool {
    &&& rank(docs, max_doc) == want
    &&& forall|d: nat| #[trigger] docs.contains(d) ==> d < max_doc
}

/// The documents that a region names, where it names exactly `want` of them
/// below `max_doc` and no other.
#[verifier::opaque]
pub open spec fn disi_docs(b: Seq<u8>, want: nat, max_doc: nat, power: u8) -> std::result::Result<Set<nat>, ErrorKind> {
    if !readable_rank_power(power) {
        Err(ErrorKind::Corrupt)
    } else {
        match disi_scan(b, 0, 0, want, max_doc, rank_len(power), Set::empty()) {
            Err(k) => Err(k),
            Ok(docs) => if names_exactly(docs, want, max_doc) {
                Ok(docs)
            } else {
                Err(ErrorKind::Corrupt)
            },
        }
    }
}

/// The documents that a region names are as many as were wanted, and below
/// the bound.
pub proof fn law_disi_exact(b: Seq<u8>, want: nat, max_doc: nat, power: u8)
    ensures
        disi_docs(b, want, max_doc, power) matches Ok(docs) ==> names_exactly(docs, want, max_doc),
{
    reveal(disi_docs);
}

/// A word other than zero has a bit set.
proof fn lemma_some_bit(w: u64, n: nat) -> (k: nat)
    requires
        0 < w,
        (w as nat) < pow2(n),
    ensures
        k < n,
        word_bit(w, k),
    decreases n,
{
    lemma2_to64();
    if n == 0 {
        assert(false);
        0
    } else {
        let m = (n - 1) as nat;
        lemma_pow2_adds(1, m);
        if w as nat >= pow2(m) {
            lemma_fundamental_div_mod_converse(w as int, pow2(m) as int, 1, w - pow2(m));
            m
        } else {
            lemma_some_bit(w, m)
        }
    }
}

/// Reads the bitmap of a DENSE block into `words`.
fn read_dense(c: &mut Cursor<'_>, words: &mut Vec<u64>, base: u32) -> (r: Result<()>)
    requires
        base % 65536 == 0,
        base / 64 + 1024 <= usize::MAX,
    ensures
        final(c).data() == old(c).data(),
        final(words)@.len() == old(words)@.len(),
        ({
            let b = old(c).data();
            let w = old(c).offset();
            let map = b.subrange(w as int, (w + DENSE_BLOCK_BYTES) as int);
            let bits = 64 * old(words)@.len();
            let outside = exists|d: nat| d < 65536 && base + d >= bits && #[trigger] map_bit(map, d);
            if w + DENSE_BLOCK_BYTES <= b.len() && !outside {
                &&& r is Ok
                &&& final(c).offset() == w + DENSE_BLOCK_BYTES
                &&& forall|d: nat| d < bits ==> (#[trigger] has_bit(final(words)@, d) <==> if base <= d < base + 65536 {
                    map_bit(map, (d - base) as nat)
                } else {
                    has_bit(old(words)@, d)
                })
            } else {
                r matches Err(e) && e.kind() == ErrorKind::Corrupt
            }
        }),
{
    let ghost b = c.data();
    let ghost w0 = c.offset();
    let ghost map = b.subrange(w0 as int, (w0 + DENSE_BLOCK_BYTES) as int);
    let ghost bits = 64 * words@.len();
    let first: usize = (base / 64) as usize;
    let mut w: usize = 0;
    while w < DENSE_BLOCK_LONGS
        invariant
            w <= DENSE_BLOCK_LONGS,
            b == old(c).data(),
            c.data() == b,
            w0 == old(c).offset(),
            c.offset() == w0 + 8 * w,
            w == 0 || c.offset() <= b.len(),
            map == b.subrange(w0 as int, (w0 + DENSE_BLOCK_BYTES) as int),
            first == base / 64,
            base % 65536 == 0,
            first + 1024 <= usize::MAX,
            words@.len() == old(words)@.len(),
            bits == 64 * words@.len(),
            w0 + DENSE_BLOCK_BYTES <= b.len() ==> {
                &&& forall|d: nat| d < 64 * w && base + d >= bits ==> !#[trigger] map_bit(map, d)
                &&& forall|d: nat| d < bits ==> (#[trigger] has_bit(words@, d) <==> if base <= d < base + 64 * w {
                    map_bit(map, (d - base) as nat)
                } else {
                    has_bit(old(words)@, d)
                })
            },
        decreases DENSE_BLOCK_LONGS - w,
    {
        let word: u64 = c.le_i64()? as u64;
        let ghost before = words@;
        proof {
            crate::bytes::lemma_signed_casts();
            lemma2_to64();
            if w0 + DENSE_BLOCK_BYTES <= b.len() {
                let part = map.subrange(8 * w as int, 8 * w + 8);
                assert(part =~= b.subrange(w0 + 8 * w, w0 + 8 * w + 8));
                lemma_le_value_bound(part);
                assert(word == le_value(part));
                assert forall|k: nat| k < 64 implies map_bit(map, 64 * w as nat + k) == #[trigger] word_bit(word, k) by {
                    lemma_bits_in_window(map, 8 * w as nat, 8, k, 1);
                    assert(8 * (8 * w as nat) + k == 64 * w as nat + k);
                }
            }
        }
        if first + w < words.len() {
            words[first + w] = word;
            proof {
                if w0 + DENSE_BLOCK_BYTES <= b.len() {
                    assert forall|d: nat| d < bits implies (#[trigger] has_bit(words@, d) <==> if base <= d < base + 64
                        * (w + 1) {
                        map_bit(map, (d - base) as nat)
                    } else {
                        has_bit(old(words)@, d)
                    }) by {
                        assert(has_bit(before, d) <==> if base <= d < base + 64 * w {
                            map_bit(map, (d - base) as nat)
                        } else {
                            has_bit(old(words)@, d)
                        });
                        if d / 64 == first + w {
                            let k = d % 64;
                            assert(d == base + (64 * w as nat + k));
                            assert(map_bit(map, 64 * w as nat + k) == word_bit(word, k));
                        }
                    }
                    assert forall|d: nat| d < 64 * (w + 1) && base + d >= bits implies !#[trigger] map_bit(map, d) by {
                        assert(base + d < bits || d < 64 * w);
                    }
                }
            }
        } else if word != 0 {
            proof {
                if w0 + DENSE_BLOCK_BYTES <= b.len() {
                    let k = lemma_some_bit(word, 64);
                    let d = 64 * w as nat + k;
                    assert(map_bit(map, d));
                    assert(base + d >= bits);
                }
            }
            return Err(Error::corrupt("DISI DENSE block sets bits beyond max_doc"));
        } else {
            proof {
                if w0 + DENSE_BLOCK_BYTES <= b.len() {
                    assert forall|d: nat| d < 64 * (w + 1) && base + d >= bits implies !#[trigger] map_bit(map, d) by {
                        if d >= 64 * w {
                            let k = (d - 64 * w) as nat;
                            lemma_zero_word(k);
                            assert(map_bit(map, 64 * w as nat + k) == word_bit(word, k));
                        }
                    }
                    assert forall|d: nat| d < bits implies (#[trigger] has_bit(words@, d) <==> if base <= d < base + 64
                        * (w + 1) {
                        map_bit(map, (d - base) as nat)
                    } else {
                        has_bit(old(words)@, d)
                    }) by {
                        assert(d < base + 64 * w);
                    }
                }
            }
        }
        w = w + 1;
    }
    Ok(())
}

/// Reads blocks into validity words until `num_values` documents were seen.
fn read_blocks(bytes: &[u8], num_values: u64, max_doc: u32, rank: usize) -> (r: Result<Vec<u64>>)
    requires
        rank <= 1024,
    ensures
        match disi_scan(bytes@, 0, 0, num_values as nat, max_doc as nat, rank as nat, Set::empty()) {
            Ok(docs) => r matches Ok(words) && words@.len() == ceil_div(max_doc as nat, 64) && stands_for(words@, docs),
            Err(k) => r matches Err(e) && e.kind() == k,
        },
{
    proof {
        lemma_ceil_div(max_doc as nat, 64);
    }
    let n_words: usize = (max_doc / 64) as usize + if max_doc % 64 == 0 {
        0
    } else {
        1
    };
    let mut words: Vec<u64> = empty_words(n_words);
    let mut c: Cursor<'_> = Cursor::new(bytes);
    let ghost b = bytes@;
    let ghost bits = bitmap_bits(max_doc as nat);
    let ghost result = disi_scan(b, 0, 0, num_values as nat, max_doc as nat, rank as nat, Set::empty());
    let mut seen: u64 = 0;
    let ghost mut acc: Set<nat> = Set::empty();
    while seen < num_values
        invariant
            b == bytes@,
            c.data() == b,
            rank <= 1024,
            words@.len() == ceil_div(max_doc as nat, 64),
            words@.len() == n_words,
            bits == 64 * words@.len(),
            bits == bitmap_bits(max_doc as nat),
            max_doc <= bits,
            seen <= num_values,
            stands_for(words@, acc),
            result == disi_scan(b, 0, 0, num_values as nat, max_doc as nat, rank as nat, Set::empty()),
            disi_scan(b, c.offset(), seen as nat, num_values as nat, max_doc as nat, rank as nat, acc) == result,
        decreases num_values - seen,
    {
        let ghost p = c.offset();
        let ghost step = scan_block(b, p, max_doc as nat, rank as nat, acc);
        let ghost words0 = words@;
        assert(step matches Err(k) ==> k == ErrorKind::Corrupt && result == Err::<Set<nat>, ErrorKind>(k));
        let block: u32 = c.le_i16()? as u16 as u32;
        let cardinality: u32 = c.le_i16()? as u16 as u32 + 1;
        proof {
            crate::bytes::lemma_signed_casts();
            lemma2_to64();
            lemma_le_value_bound(b.subrange(p as int, (p + 2) as int));
            lemma_le_value_bound(b.subrange((p + 2) as int, (p + 4) as int));
            assert(block == le_value(b.subrange(p as int, (p + 2) as int)));
            assert(cardinality == le_value(b.subrange((p + 2) as int, (p + 4) as int)) + 1);
        }
        let base: u32 = block * BLOCK_SIZE;
        if base >= max_doc {
            return Err(Error::corrupt("DISI block beyond max_doc"));
        }
        if cardinality == BLOCK_SIZE {
            if base as u64 + 65536 > n_words as u64 * 64 {
                return Err(Error::corrupt("DISI ALL block beyond max_doc"));
            }
            let mut d: u32 = 0;
            while d < BLOCK_SIZE
                invariant
                    d <= 65536,
                    base + 65536 <= 64 * n_words,
                    words@.len() == n_words,
                    base <= u32::MAX - 65535,
                    forall|e: nat| #[trigger] has_bit(words@, e) <==> has_bit(words0, e) || base <= e < base + d,
                decreases 65536 - d,
            {
                set_bit(&mut words, (base + d) as usize);
                d = d + 1;
            }
        } else if cardinality > MAX_ARRAY_LENGTH {
            c.skip(rank)?;
            read_dense(&mut c, &mut words, base)?;
            proof {
                let w = p + 4 + rank;
                let map = b.subrange(w as int, (w + DENSE_BLOCK_BYTES) as int);
                assert(stands_for(words@, dense_into(acc, base as nat, map))) by {
                    assert forall|d: nat| #[trigger] has_bit(words@, d) <==> dense_into(acc, base as nat, map).contains(
                        d,
                    ) by {
                        assert(has_bit(words0, d) <==> acc.contains(d));
                        if d >= bits {
                            assert(d / 64 >= words@.len());
                            if base <= d < base + 65536 {
                                assert(!map_bit(map, (d - base) as nat));
                            }
                        }
                    }
                }
            }
        } else {
            let mut i: u32 = 0;
            while i < cardinality
                invariant
                    i <= cardinality <= MAX_ARRAY_LENGTH,
                    c.data() == b,
                    c.offset() == p + 4 + 2 * i,
                    c.offset() <= b.len(),
                    base == le_value(b.subrange(p as int, (p + 2) as int)) * 65536,
                    cardinality == le_value(b.subrange((p + 2) as int, (p + 4) as int)) + 1,
                    base < max_doc,
                    max_doc <= 64 * n_words,
                    words@.len() == n_words,
                    base <= u32::MAX - 65535,
                    step == scan_block(b, p, max_doc as nat, rank as nat, acc),
                    b == bytes@,
                    result == disi_scan(b, 0, 0, num_values as nat, max_doc as nat, rank as nat, Set::empty()),
                    step is Err ==> result == Err::<Set<nat>, ErrorKind>(ErrorKind::Corrupt),
                    forall|k: nat| k < i ==> base + #[trigger] short_at(b, p + 4, k) < max_doc,
                    forall|e: nat| #[trigger]
                        has_bit(words@, e) <==> has_bit(words0, e) || sparse_members(b, p + 4, base as nat, i as nat).contains(
                            e,
                        ),
                decreases cardinality - i,
            {
                let within: u32 = c.le_i16()? as u16 as u32;
                let doc: u32 = base + within;
                proof {
                    crate::bytes::lemma_signed_casts();
                    lemma2_to64();
                    lemma_le_value_bound(b.subrange(p + 4 + 2 * i, p + 4 + 2 * i + 2));
                    assert(within == short_at(b, p + 4, i as nat));
                }
                if doc >= max_doc {
                    return Err(Error::corrupt("DISI doc beyond max_doc"));
                }
                let ghost words1 = words@;
                set_bit(&mut words, doc as usize);
                proof {
                    let s0 = sparse_members(b, p + 4, base as nat, i as nat);
                    let s1 = sparse_members(b, p + 4, base as nat, (i + 1) as nat);
                    assert forall|e: nat| #[trigger] s1.contains(e) <==> s0.contains(e) || e == doc by {
                        if s1.contains(e) {
                            let k = choose|k: nat| k < i + 1 && e == base + #[trigger] short_at(b, p + 4, k);
                            assert(k < i || k == i);
                        }
                        if e == doc {
                            assert(e == base + short_at(b, p + 4, i as nat));
                        }
                    }
                    assert forall|e: nat| #[trigger] has_bit(words@, e) <==> has_bit(words0, e) || s1.contains(e) by {
                        assert(has_bit(words1, e) <==> has_bit(words0, e) || s0.contains(e));
                    }
                }
                i = i + 1;
            }
            proof {
                let s = acc.union(sparse_members(b, p + 4, base as nat, cardinality as nat));
                assert(stands_for(words@, s)) by {
                    assert forall|e: nat| #[trigger] has_bit(words@, e) <==> s.contains(e) by {
                        assert(has_bit(words0, e) <==> acc.contains(e));
                    }
                }
            }
        }
        proof {
            assert(step matches Ok((card, docs, q)) && card == cardinality && q == c.offset());
            if cardinality == BLOCK_SIZE {
                assert(stands_for(words@, step->Ok_0.1)) by {
                    assert forall|e: nat| #[trigger] has_bit(words@, e) <==> step->Ok_0.1.contains(e) by {
                        assert(has_bit(words0, e) <==> acc.contains(e));
                    }
                }
            }
            acc = step->Ok_0.1;
        }
        assert(disi_scan(
            b,
            c.offset(),
            (seen + cardinality) as nat,
            num_values as nat,
            max_doc as nat,
            rank as nat,
            acc,
        ) == result);
        if cardinality as u64 > num_values - seen {
            return Err(Error::corrupt("DISI cardinality differs from the expected one"));
        }
        seen = seen + cardinality as u64;
    }
    Ok(words)
}

/// Bulk-decode a DISI region into validity words, lowest bit first.
///
/// `bytes` is the region of the docs-with-field set (blocks, sentinel, jump
/// table; the tail is ignored). The words cover `[0, max_doc)`; exactly
/// `num_values` bits are set.
pub fn decode(bytes: &[u8], num_values: u64, max_doc: u32, dense_rank_power: u8) -> (r: Result<Vec<u64>>)
    ensures
        match disi_docs(bytes@, num_values as nat, max_doc as nat, dense_rank_power) {
            Ok(docs) => r matches Ok(words) && words@.len() == ceil_div(max_doc as nat, 64) && stands_for(words@, docs),
            Err(k) => r matches Err(e) && e.kind() == k,
        },
        r matches Ok(words) ==> bit_count(words@, max_doc as nat) == num_values && forall|d: nat| #[trigger]
            has_bit(words@, d) ==> d < max_doc,
{
    proof {
        reveal(disi_docs);
    }
    if !(dense_rank_power == 0xFF || (7 <= dense_rank_power && dense_rank_power <= 70)) {
        return Err(Error::corrupt("invalid DISI dense rank power"));
    }
    let words: Vec<u64> = read_blocks(bytes, num_values, max_doc, dense_rank_bytes(dense_rank_power))?;
    let ghost docs = disi_scan(
        bytes@,
        0,
        0,
        num_values as nat,
        max_doc as nat,
        rank_len(dense_rank_power),
        Set::empty(),
    )->Ok_0;
    proof {
        lemma_bit_count_rank(words@, docs, max_doc as nat);
    }
    if count_bits(words.as_slice(), max_doc) as u64 != num_values {
        return Err(Error::corrupt("DISI blocks name another number of documents than expected"));
    }
    if has_bits_from(words.as_slice(), max_doc) {
        proof {
            let d = choose|d: nat| max_doc <= d && #[trigger] has_bit(words@, d);
            assert(docs.contains(d));
        }
        return Err(Error::corrupt("DISI blocks name documents beyond max_doc"));
    }
    assert forall|d: nat| #[trigger] docs.contains(d) implies d < max_doc by {
        assert(has_bit(words@, d));
    }
    Ok(words)
}

// Decoding gives back the set that was written.

/// The first `n` documents, as a set.
pub open spec fn doc_set(docs: Seq<u32>, n: nat) -> Set<nat> {
    Set::new(|d: nat| exists|k: int| 0 <= k < n && #[trigger] docs[k] == d)
}

proof fn lemma_sparse_bytes(l: Seq<nat>, j: nat)
    requires
        block_members(l),
    ensures
        sparse_bytes(l).len() == 2 * l.len(),
        j < l.len() ==> sparse_bytes(l).subrange(2 * j as int, 2 * j as int + 2) == le_bytes(l[j as int], 2),
    decreases l.len(),
{
    if l.len() > 0 {
        let t = l.drop_last();
        lemma_sparse_bytes(t, j);
        lemma_le_bytes_len(l.last(), 2);
        let s = sparse_bytes(l);
        if j + 1 < l.len() {
            assert(s.subrange(2 * j as int, 2 * j as int + 2) =~= sparse_bytes(t).subrange(2 * j as int, 2 * j as int + 2));
        } else if j + 1 == l.len() {
            assert(s.subrange(2 * j as int, 2 * j as int + 2) =~= le_bytes(l.last(), 2));
        }
    }
}

/// A block with all members names each of its documents.
proof fn lemma_all_members(l: Seq<nat>, i: int)
    requires
        block_members(l),
        l.len() == 65536,
        0 <= i < 65536,
    ensures
        l[i] == i,
{
    lemma_member_at_least(l, i);
    lemma_member_at_most(l, i);
}

proof fn lemma_member_at_most(l: Seq<nat>, i: int)
    requires
        block_members(l),
        0 <= i < l.len(),
    ensures
        l[i] + (l.len() - i) <= 65536,
    decreases l.len() - i,
{
    if i + 1 < l.len() {
        lemma_member_at_most(l, i + 1);
    }
}

/// The rank power as metadata records it.
pub open spec fn power_byte(power: int) -> u8 {
    if power == -1 {
        0xFF
    } else {
        power as u8
    }
}

proof fn lemma_rank_table_len(l: Seq<nat>, power: int)
    requires
        7 <= power <= 15,
    ensures
        rank_table(l, power as nat).len() == rank_len(power_byte(power)),
{
    lemma2_to64();
    let a = pow2((power - 7) as nat) as int;
    let b = 2 * pow2((16 - power) as nat) as int;
    lemma_pow2_adds((power - 7) as nat, (16 - power) as nat);
    lemma_pow2_pos((power - 7) as nat);
    assert(a * b == 1024) by (nonlinear_arith)
        requires
            a * pow2((16 - power) as nat) == 512,
            b == 2 * pow2((16 - power) as nat),
    ;
    assert(a * b == b * a) by (nonlinear_arith);
    lemma_fundamental_div_mod_converse(1024, a, b, 0);
}

/// Scanning a written block adds its members.
proof fn lemma_scan_written(b: Seq<u8>, p: nat, docs: Seq<u32>, i: nat, power: int, max_doc: nat)
    requires
        strictly_increasing(docs),
        forall|k: int| 0 <= k < docs.len() ==> #[trigger] docs[k] < max_doc,
        i < docs.len(),
        i == 0 || docs[i - 1] as nat / 65536 != docs[i as int] as nat / 65536,
        writable_rank_power(power),
        ({
            let block = docs[i as int] as nat / 65536;
            stands_at(b, p, block_bytes(block, lows(docs, i, run_end(docs, i, block)), power))
        }),
    ensures
        ({
            let block = docs[i as int] as nat / 65536;
            let e = run_end(docs, i, block);
            scan_block(b, p, max_doc, rank_len(power_byte(power)), doc_set(docs, i)) == Ok::<
                (nat, Set<nat>, nat),
                ErrorKind,
            >(((e - i) as nat, doc_set(docs, e), p + block_bytes(block, lows(docs, i, e), power).len()))
        }),
{
    let block = docs[i as int] as nat / 65536;
    let e = run_end(docs, i, block);
    let l = lows(docs, i, e);
    let body = block_body(l, power);
    let base = block * 65536;
    let acc = doc_set(docs, i);
    let rank = rank_len(power_byte(power));
    lemma_lows(docs, i, e);
    lemma_run_end_members(docs, i, block);
    lemma2_to64();
    lemma_le_round_trip(block, 2);
    lemma_le_round_trip((l.len() - 1) as nat, 2);
    lemma_stands_split(b, p, le_bytes(block, 2), le_bytes((l.len() - 1) as nat, 2) + body);
    lemma_stands_split(b, p + 2, le_bytes((l.len() - 1) as nat, 2), body);
    assert(base <= docs[i as int]);
    lemma_ceil_div(max_doc, 64);
    let bits = bitmap_bits(max_doc);
    assert(max_doc <= bits);
    // Membership in the longer prefix, in terms of this block.
    assert forall|d: nat| #[trigger] doc_set(docs, e).contains(d) <==> acc.contains(d) || (base <= d < base + 65536
        && l.contains((d - base) as nat)) by {
        if doc_set(docs, e).contains(d) {
            let k = choose|k: int| 0 <= k < e && #[trigger] docs[k] == d;
            if k >= i {
                assert(docs[k] as nat / 65536 == block);
                assert(l[k - i] == (d - base) as nat);
            }
        }
        if acc.contains(d) {
            let k = choose|k: int| 0 <= k < i && #[trigger] docs[k] == d;
            assert(docs[k] == d);
        }
        if base <= d < base + 65536 && l.contains((d - base) as nat) {
            let k = choose|k: int| 0 <= k < l.len() && l[k] == (d - base) as nat;
            assert(docs[i + k] as nat / 65536 == block);
            assert(docs[i + k] == d);
        }
    }
    assert forall|d: nat| acc.contains(d) implies d < base by {
        let k = choose|k: int| 0 <= k < i && #[trigger] docs[k] == d;
        assert(docs[i - 1] < docs[i as int]);
        assert(k < i - 1 ==> docs[k] < docs[i - 1]);
    }
    if l.len() <= MAX_ARRAY_LENGTH {
        lemma_sparse_bytes(l, 0);
        assert forall|j: nat| j < l.len() implies #[trigger] short_at(b, p + 4, j) == l[j as int] by {
            lemma_sparse_bytes(l, j);
            assert(b.subrange((p + 4 + 2 * j) as int, (p + 4 + 2 * j + 2) as int) =~= b.subrange(
                (p + 4) as int,
                (p + 4 + body.len()) as int,
            ).subrange(2 * j as int, 2 * j as int + 2));
            lemma_le_round_trip(l[j as int], 2);
        }
        assert forall|j: nat| j < l.len() implies base + #[trigger] short_at(b, p + 4, j) < max_doc by {
            assert(docs[(i + j) as int] as nat / 65536 == block);
        }
        let m = sparse_members(b, p + 4, base, l.len());
        assert forall|d: nat| #[trigger] m.contains(d) <==> base <= d < base + 65536 && l.contains((d - base) as nat) by {
            if m.contains(d) {
                let j = choose|j: nat| j < l.len() && d == base + #[trigger] short_at(b, p + 4, j);
                assert(l[j as int] == (d - base) as nat);
            }
            if base <= d < base + 65536 && l.contains((d - base) as nat) {
                let k = choose|k: int| 0 <= k < l.len() && l[k] == (d - base) as nat;
                assert(d == base + short_at(b, p + 4, k as nat));
            }
        }
        assert(acc.union(m) =~= doc_set(docs, e));
    } else if l.len() == BLOCK_SIZE {
        let m = Set::new(|d: nat| base <= d < base + 65536);
        assert forall|d: nat| base <= d < base + 65536 implies #[trigger] l.contains((d - base) as nat) by {
            lemma_all_members(l, d - base);
        }
        lemma_all_members(l, 65535);
        assert(docs[i as int + 65535] as nat / 65536 == block);
        assert(base + 65535 < max_doc);
        assert(bits % 64 == 0);
        assert(acc.union(m) =~= doc_set(docs, e));
    } else {
        let table = if power == -1 {
            Seq::<u8>::empty()
        } else {
            rank_table(l, power as nat)
        };
        let map = le_bytes(mask_of(l), DENSE_BLOCK_BYTES as nat);
        if power != -1 {
            lemma_rank_table_len(l, power);
        }
        lemma_stands_split(b, p + 4, table, map);
        lemma_mask_bound(l, 65536);
        lemma_le_round_trip(mask_of(l), DENSE_BLOCK_BYTES as nat);
        let w = p + 4 + rank;
        assert(b.subrange(w as int, (w + DENSE_BLOCK_BYTES) as int) == map);
        assert forall|d: nat| d < 65536 implies (#[trigger] map_bit(map, d) <==> l.contains(d)) by {
            lemma_mask_bits(l, d);
        }
        assert forall|d: nat| d < 65536 && base + d >= bits implies !#[trigger] map_bit(map, d) by {
            if l.contains(d) {
                let k = choose|k: int| 0 <= k < l.len() && l[k] == d;
                assert(docs[i + k] as nat / 65536 == block);
            }
        }
        assert(dense_into(acc, base, map) =~= doc_set(docs, e));
    }
}

proof fn lemma_scan_from(b: Seq<u8>, p: nat, docs: Seq<u32>, i: nat, power: int, max_doc: nat)
    requires
        strictly_increasing(docs),
        forall|k: int| 0 <= k < docs.len() ==> #[trigger] docs[k] < max_doc,
        i <= docs.len(),
        i == 0 || i == docs.len() || docs[i - 1] as nat / 65536 != docs[i as int] as nat / 65536,
        writable_rank_power(power),
        stands_at(b, p, blocks_from(docs, i, power)),
    ensures
        disi_scan(b, p, i, docs.len(), max_doc, rank_len(power_byte(power)), doc_set(docs, i)) == Ok::<
            Set<nat>,
            ErrorKind,
        >(doc_set(docs, docs.len())),
    decreases docs.len() - i,
{
    if i < docs.len() {
        let block = docs[i as int] as nat / 65536;
        let e = run_end(docs, i, block);
        let bb = block_bytes(block, lows(docs, i, e), power);
        lemma_run_end(docs, i);
        lemma_run_end_members(docs, i, block);
        lemma_stands_split(b, p, bb, blocks_from(docs, e, power));
        lemma_scan_written(b, p, docs, i, power, max_doc);
        assert(docs[e - 1] as nat / 65536 == block);
        lemma_scan_from(b, p + bb.len(), docs, e, power, max_doc);
    }
}

/// Before document `i` of a sorted list come `i` members.
pub proof fn lemma_rank_of(docs: Seq<u32>, d: nat, i: nat)
    requires
        strictly_increasing(docs),
        i <= docs.len(),
        forall|k: int| 0 <= k < i ==> #[trigger] docs[k] < d,
        forall|k: int| i <= k < docs.len() ==> d <= #[trigger] docs[k],
    ensures
        rank(doc_set(docs, docs.len()), d) == i,
    decreases d,
{
    let s = doc_set(docs, docs.len());
    if d == 0 {
        if i > 0 {
            assert(docs[0] < 0);
        }
    } else {
        let c = (d - 1) as nat;
        if i > 0 && docs[i - 1] == c {
            assert(s.contains(c));
            assert forall|k: int| 0 <= k < i - 1 implies #[trigger] docs[k] < c by {
                assert(docs[k] < docs[i - 1]);
            }
            lemma_rank_of(docs, c, (i - 1) as nat);
        } else {
            assert(!s.contains(c)) by {
                if s.contains(c) {
                    let k = choose|k: int| 0 <= k < docs.len() && #[trigger] docs[k] == c;
                    if k < i - 1 {
                        assert(docs[k] < docs[i - 1]);
                    }
                }
            }
            assert forall|k: int| 0 <= k < i implies #[trigger] docs[k] < c by {
                if k < i - 1 {
                    assert(docs[k] < docs[i - 1]);
                }
            }
            lemma_rank_of(docs, c, i);
        }
    }
}

/// Decoding a written set gives exactly its documents, for every sorted set
/// below `max_doc` and whatever follows it.
pub proof fn law_disi_round_trip(docs: Seq<u32>, max_doc: nat, power: int, rest: Seq<u8>)
    requires
        strictly_increasing(docs),
        forall|k: int| 0 <= k < docs.len() ==> #[trigger] docs[k] < max_doc,
        writable_rank_power(power),
    ensures
        disi_docs(disi_bytes(docs, power) + rest, docs.len(), max_doc, power_byte(power)) == Ok::<Set<nat>, ErrorKind>(
            doc_set(docs, docs.len()),
        ),
{
    reveal(disi_docs);
    let b = disi_bytes(docs, power) + rest;
    let blocks = blocks_from(docs, 0, power);
    assert(b.subrange(0, blocks.len() as int) =~= blocks);
    lemma_scan_from(b, 0, docs, 0, power, max_doc);
    assert(doc_set(docs, 0) =~= Set::<nat>::empty());
    lemma_rank_of(docs, max_doc, docs.len());
}

/// Members in order: those below `x` come first, as many as counted.
proof fn lemma_count_below(l: Seq<nat>, x: nat)
    requires
        block_members(l),
    ensures
        count_below(l, x) <= l.len(),
        forall|k: int| 0 <= k < count_below(l, x) ==> #[trigger] l[k] < x,
        forall|k: int| count_below(l, x) <= k < l.len() ==> x <= #[trigger] l[k],
    decreases l.len(),
{
    if l.len() > 0 {
        let t = l.drop_last();
        lemma_count_below(t, x);
        if l.last() < x {
            assert(count_below(t, x) == t.len()) by {
                if count_below(t, x) < t.len() {
                    assert(x <= t[t.len() - 1]);
                }
            }
        }
        assert forall|k: int| 0 <= k < count_below(l, x) implies #[trigger] l[k] < x by {
            if k < t.len() {
                assert(t[k] == l[k]);
            }
        }
        assert forall|k: int| count_below(l, x) <= k < l.len() implies x <= #[trigger] l[k] by {
            if k < t.len() {
                assert(t[k] == l[k]);
            }
        }
    }
}

/// Entry `k` of a rank table, read as a big-endian short, is the place of the
/// first member from document `k * 2^power` of the block on: all members
/// before that place are below, all others are not.
pub proof fn law_rank_table(l: Seq<nat>, power: nat, k: int)
    requires
        block_members(l),
        l.len() < 65536,
        power <= 16,
        0 <= k < pow2((16 - power) as nat),
    ensures
        ({
            let t = rank_table(l, power);
            let n = 256 * t[2 * k] + t[2 * k + 1];
            &&& t.len() == 2 * pow2((16 - power) as nat)
            &&& n <= l.len()
            &&& forall|j: int| 0 <= j < n ==> #[trigger] l[j] < k * pow2(power)
            &&& forall|j: int| n <= j < l.len() ==> k * pow2(power) <= #[trigger] l[j]
        }),
{
    let x = (k as nat) * pow2(power);
    lemma_count_below(l, x);
    let t = rank_table(l, power);
    let c = count_below(l, x);
    assert((2 * k) as nat / 2 == k && (2 * k + 1) as nat / 2 == k);
    assert(t[2 * k] == (c / 256) as u8);
    assert(t[2 * k + 1] == (c % 256) as u8);
}

/// The jump table from document `i` on, for blocks from number `first` on.
proof fn lemma_jumps(docs: Seq<u32>, i: nat, offset: nat, first: nat, power: int, n: nat)
    requires
        strictly_increasing(docs),
        i <= docs.len(),
        i < docs.len() ==> first <= docs[i as int] as nat / 65536,
        i > 0 ==> first == docs[i - 1] as nat / 65536 + 1,
        i == docs.len() ==> n == first,
        i < docs.len() ==> first <= n <= docs.last() as nat / 65536 + 1,
    ensures
        ({
            let j = jumps_from(docs, i, offset, first, power);
            let e = j[n - first];
            &&& i < docs.len() ==> j.len() == docs.last() as nat / 65536 + 2 - first
            &&& i == docs.len() ==> j.len() == 1
            &&& i <= e.0 <= docs.len()
            &&& forall|k: int| i <= k < e.0 ==> #[trigger] docs[k] as nat / 65536 < n
            &&& forall|k: int| e.0 <= k < docs.len() ==> n <= #[trigger] docs[k] as nat / 65536
            &&& offset <= e.1
            &&& blocks_from(docs, i, power).len() >= e.1 - offset
            &&& blocks_from(docs, i, power).skip(e.1 - offset) == blocks_from(docs, e.0, power)
        }),
    decreases docs.len() - i,
{
    let all = blocks_from(docs, i, power);
    if i >= docs.len() {
        assert(all.skip(0) =~= all);
    } else {
        let block = docs[i as int] as nat / 65536;
        let e = run_end(docs, i, block);
        lemma_run_end(docs, i);
        lemma_run_end_members(docs, i, block);
        let one = block_bytes(block, lows(docs, i, e), power);
        let rest = blocks_from(docs, e, power);
        assert(all == one + rest);
        assert forall|k: int| e <= k < docs.len() implies block + 1 <= #[trigger] docs[k] as nat / 65536 by {
            assert(docs[e as int] <= docs[k]);
            assert(docs[i as int] < docs[e as int]);
        }
        assert(docs[e - 1] as nat / 65536 == block);
        let repeated = Seq::new((block + 1 - first) as nat, |k: int| (i, offset));
        let later = jumps_from(docs, e, offset + one.len(), block + 1, power);
        if e < docs.len() {
            assert(docs[e as int] <= docs.last());
        }
        if n <= block {
            lemma_jumps(docs, e, offset + one.len(), block + 1, power, block + 1);
            assert((repeated + later)[n - first] == (i, offset));
            assert(all.skip(0) =~= all);
            assert forall|k: int| i <= k < docs.len() implies n <= #[trigger] docs[k] as nat / 65536 by {
                assert(docs[i as int] <= docs[k]);
            }
        } else {
            lemma_jumps(docs, e, offset + one.len(), block + 1, power, n);
            let entry = later[n - (block + 1)];
            assert((repeated + later)[n - first] == entry);
            assert(all.skip(entry.1 - offset) =~= rest.skip(entry.1 - (offset + one.len())));
            assert forall|k: int| i <= k < entry.0 implies #[trigger] docs[k] as nat / 65536 < n by {
                if k < e {
                    assert(docs[k] as nat / 65536 == block);
                }
            }
        }
    }
}

/// A jump to block `n` lands where it should: at the first document that is
/// not in an earlier block, whose place among the documents the entry gives,
/// and at the bytes of the blocks from there on. There is one entry for each
/// block up to the last and one behind, and no table at all for a single
/// block.
pub proof fn law_jump_table(docs: Seq<u32>, power: int, n: nat)
    requires
        strictly_increasing(docs),
        docs.len() > 0,
        n <= docs.last() as nat / 65536 + 1,
    ensures
        ({
            let t = jump_table(docs, power);
            let e = t[n as int];
            &&& t.len() == 0 <==> docs.last() < 65536
            &&& t.len() > 0 ==> {
                &&& t.len() == docs.last() as nat / 65536 + 2
                &&& e.0 <= docs.len()
                &&& forall|k: int| 0 <= k < e.0 ==> #[trigger] docs[k] < 65536 * n
                &&& forall|k: int| e.0 <= k < docs.len() ==> 65536 * n <= #[trigger] docs[k]
                &&& e.1 <= blocks_from(docs, 0, power).len()
                &&& blocks_from(docs, 0, power).skip(e.1 as int) == blocks_from(docs, e.0, power)
            }
        }),
{
    lemma_jumps(docs, 0, 0, 0, power, n);
    let e = jumps_from(docs, 0, 0, 0, power)[n as int];
    assert forall|k: int| 0 <= k < e.0 implies #[trigger] docs[k] < 65536 * n by {
        assert(docs[k] as nat / 65536 < n);
    }
    assert forall|k: int| e.0 <= k < docs.len() implies 65536 * n <= #[trigger] docs[k] by {
        assert(n <= docs[k] as nat / 65536);
    }
}

/// Entry `i` of a written jump table spells its two numbers.
pub proof fn law_jump_entry_at(jumps: Seq<(nat, nat)>, i: int)
    requires
        0 <= i < jumps.len(),
        jumps[i].0 < 0x1_0000_0000,
        jumps[i].1 < 0x1_0000_0000,
    ensures
        jump_bytes(jumps).len() == 8 * jumps.len(),
        le_value(jump_bytes(jumps).subrange(8 * i, 8 * i + 4)) == jumps[i].0,
        le_value(jump_bytes(jumps).subrange(8 * i + 4, 8 * i + 8)) == jumps[i].1,
    decreases jumps.len(),
{
    let t = jumps.drop_last();
    let last = jumps.last();
    let all = jump_bytes(jumps);
    lemma_jump_bytes_len(t);
    lemma_le_bytes_len(last.0, 4);
    lemma_le_bytes_len(last.1, 4);
    if i < t.len() {
        law_jump_entry_at(t, i);
        assert(all.subrange(8 * i, 8 * i + 4) =~= jump_bytes(t).subrange(8 * i, 8 * i + 4));
        assert(all.subrange(8 * i + 4, 8 * i + 8) =~= jump_bytes(t).subrange(8 * i + 4, 8 * i + 8));
    } else {
        lemma2_to64();
        assert(all.subrange(8 * i, 8 * i + 4) =~= le_bytes(last.0, 4));
        assert(all.subrange(8 * i + 4, 8 * i + 8) =~= le_bytes(last.1, 4));
        assert(pow2(8 * 4) == 0x1_0000_0000);
        crate::bytes::lemma_le_round_trip(last.0, 4);
        crate::bytes::lemma_le_round_trip(last.1, 4);
    }
}

proof fn lemma_jump_bytes_len(jumps: Seq<(nat, nat)>)
    ensures
        jump_bytes(jumps).len() == 8 * jumps.len(),
    decreases jumps.len(),
{
    if jumps.len() > 0 {
        lemma_jump_bytes_len(jumps.drop_last());
        lemma_le_bytes_len(jumps.last().0, 4);
        lemma_le_bytes_len(jumps.last().1, 4);
    }
}

} // verus!
