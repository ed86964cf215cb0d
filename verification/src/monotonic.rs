//! DirectMonotonic sequences (bulk form): monotone values in blocks of
//! `2^block_shift`.
//!
//! Each block has 21 bytes of metadata (`min: i64`, `avgInc`: the bits of a
//! single, `offset: i64` relative to the writer's base, `bits: u8`) and
//! packed deltas in the data stream. Used for list offsets and term
//! addresses.

use vstd::prelude::*;
use vstd::arithmetic::power2::{lemma2_to64, lemma_pow2_pos, pow2};
use vstd::slice::slice_subrange;
use crate::bytes::{le_bytes, le_i64, lemma_le_bytes_len, lemma_signed_casts, push_le, push_le_i64};
use crate::cursor::{
    lemma_parse_i64_at, lemma_parse_le_at, lemma_stands_split, parse_i64, parse_le, parse_u8,
    stands_at, Cursor, Parsed,
};
use crate::direct::{
    bits_required, ceil_div, each_unpacked, for_each_unpacked, law_bits_required, law_pack_unpack, law_packed_len,
    lemma_ceil_div, pack, packed, supported, two_to, unsigned_bits_required,
};
use crate::error::{Error, ErrorKind, Result};
use crate::ieee::{average, average_bits, product, product_part};

verus! {

pub const META_BYTES_PER_BLOCK: usize = 21;

/// No value is below the one before it.
pub open spec fn non_decreasing(values: Seq<i64>) -> bool {
    forall|i: int| 0 <= i < values.len() - 1 ==> #[trigger] values[i] <= values[i + 1]
}

/// The bits of a block's average increment.
pub open spec fn block_average(block: Seq<i64>) -> u32 {
    average_bits(
        block.last().wrapping_sub(block[0]),
        if block.len() <= 2 {
            1
        } else {
            (block.len() - 1) as nat
        },
    ) as u32
}

/// What the average increment predicts for the value at `i`, less the
/// block's minimum.
pub open spec fn predicted(avg_inc: u32, i: nat) -> i64 {
    product_part(avg_inc, i) as i64
}

/// How far each value lies from what the average predicts.
pub open spec fn residues(block: Seq<i64>) -> Seq<i64> {
    Seq::new(block.len(), |i: int| block[i].wrapping_sub(predicted(block_average(block), i as nat)))
}

/// The least of some numbers.
pub open spec fn minimum(s: Seq<i64>) -> i64
    decreases s.len(),
{
    if s.len() <= 1 {
        s[0]
    } else if s.last() < minimum(s.drop_last()) {
        s.last()
    } else {
        minimum(s.drop_last())
    }
}

/// The residues, counted from the least one.
pub open spec fn deltas(block: Seq<i64>) -> Seq<i64> {
    Seq::new(block.len(), |i: int| residues(block)[i].wrapping_sub(minimum(residues(block))))
}

/// All bits that some number has.
pub open spec fn or_all(s: Seq<i64>) -> u64
    decreases s.len(),
{
    if s.len() == 0 {
        0
    } else {
        or_all(s.drop_last()) | (s.last() as u64)
    }
}

/// Bits per delta; none where all deltas are zero.
pub open spec fn block_bits(block: Seq<i64>) -> u8 {
    if or_all(deltas(block)) == 0 {
        0
    } else {
        bits_required(or_all(deltas(block)))
    }
}

pub open spec fn block_data(block: Seq<i64>) -> Seq<u8> {
    packed(deltas(block), block_bits(block))
}

/// One parsed meta block.
#[derive(Debug, Clone, Copy)]
pub struct MetaBlock {
    pub min: i64,
    /// The bits of a single.
    pub avg_inc: u32,
    pub offset: u64,
    pub bits: u8,
}

/// The metadata of a block whose data starts at `offset`.
pub open spec fn block_meta(block: Seq<i64>, offset: nat) -> Seq<u8> {
    le_i64(minimum(residues(block))) + (le_bytes(block_average(block) as nat, 4) + (le_bytes(offset, 8)
        + seq![block_bits(block)]))
}

/// Where the block that starts at `from` ends.
pub open spec fn block_end(len: nat, from: nat, block_shift: nat) -> nat {
    if from + pow2(block_shift) <= len {
        from + pow2(block_shift)
    } else {
        len
    }
}

pub open spec fn block_at(values: Seq<i64>, from: nat, block_shift: nat) -> Seq<i64> {
    values.subrange(from as int, block_end(values.len(), from, block_shift) as int)
}

/// Metadata of the blocks from `from` on, whose data starts at `offset`.
pub open spec fn meta_from(values: Seq<i64>, from: nat, block_shift: nat, offset: nat) -> Seq<u8>
    decreases values.len() - from,
    via meta_from_decreases
{
    if from >= values.len() {
        Seq::empty()
    } else {
        let block = block_at(values, from, block_shift);
        block_meta(block, offset) + meta_from(
            values,
            block_end(values.len(), from, block_shift),
            block_shift,
            offset + block_data(block).len(),
        )
    }
}

#[via_fn]
proof fn meta_from_decreases(values: Seq<i64>, from: nat, block_shift: nat, offset: nat) {
    lemma_pow2_pos(block_shift);
}

/// Data of the blocks from `from` on.
pub open spec fn data_from(values: Seq<i64>, from: nat, block_shift: nat) -> Seq<u8>
    decreases values.len() - from,
    via data_from_decreases
{
    if from >= values.len() {
        Seq::empty()
    } else {
        block_data(block_at(values, from, block_shift)) + data_from(
            values,
            block_end(values.len(), from, block_shift),
            block_shift,
        )
    }
}

#[via_fn]
proof fn data_from_decreases(values: Seq<i64>, from: nat, block_shift: nat) {
    lemma_pow2_pos(block_shift);
}

/// All metadata of `values`.
pub open spec fn monotonic_meta(values: Seq<i64>, block_shift: nat) -> Seq<u8> {
    meta_from(values, 0, block_shift, 0)
}

/// All data of `values`.
pub open spec fn monotonic_data(values: Seq<i64>, block_shift: nat) -> Seq<u8> {
    data_from(values, 0, block_shift)
}

fn is_non_decreasing(values: &[i64]) -> (r: bool)
    ensures
        r == non_decreasing(values@),
{
    let mut i: usize = 1;
    while i < values.len()
        invariant
            1 <= i,
            i <= values@.len() || i == 1,
            forall|k: int| 0 <= k < i - 1 ==> #[trigger] values@[k] <= values@[k + 1],
        decreases values@.len() - i,
    {
        if values[i - 1] > values[i] {
            assert(!(values@[i - 1] <= values@[i - 1 + 1]));
            return false;
        }
        i = i + 1;
    }
    true
}

/// Writes one block.
fn write_block(block: &[i64], offset: u64, meta: &mut Vec<u8>, data: &mut Vec<u8>)
    requires
        block@.len() > 0,
    ensures
        final(meta)@ == old(meta)@ + block_meta(block@, offset as nat),
        final(data)@ == old(data)@ + block_data(block@),
{
    let count: usize = block.len();
    let steps: u64 = if count <= 2 {
        1
    } else {
        (count - 1) as u64
    };
    let avg_inc: u32 = average(block[count - 1].wrapping_sub(block[0]), steps);
    let mut rest: Vec<i64> = Vec::new();
    let mut i: usize = 0;
    let mut min: i64 = 0;
    while i < count
        invariant
            i <= count == block@.len(),
            avg_inc == block_average(block@),
            rest@ == residues(block@).take(i as int),
            i > 0 ==> min == minimum(rest@),
        decreases count - i,
    {
        let v: i64 = block[i].wrapping_sub(product(avg_inc, i as u64));
        rest.push(v);
        assert(rest@ =~= residues(block@).take(i + 1));
        assert(rest@.drop_last() =~= residues(block@).take(i as int));
        if i == 0 || v < min {
            min = v;
        }
        i = i + 1;
    }
    assert(residues(block@).take(count as int) =~= residues(block@));
    let mut ds: Vec<i64> = Vec::new();
    let mut max_delta: u64 = 0;
    let mut k: usize = 0;
    while k < count
        invariant
            k <= count == block@.len(),
            rest@ == residues(block@),
            min == minimum(rest@),
            ds@ == deltas(block@).take(k as int),
            max_delta == or_all(ds@),
        decreases count - k,
    {
        let d: i64 = rest[k].wrapping_sub(min);
        ds.push(d);
        assert(ds@ =~= deltas(block@).take(k + 1));
        assert(ds@.drop_last() =~= deltas(block@).take(k as int));
        max_delta = max_delta | (d as u64);
        k = k + 1;
    }
    assert(deltas(block@).take(count as int) =~= deltas(block@));
    let ghost meta0 = meta@;
    push_le_i64(meta, min);
    push_le(meta, avg_inc as u64, 4);
    push_le(meta, offset, 8);
    if max_delta == 0 {
        meta.push(0);
        assert(data@ =~= old(data)@ + block_data(block@));
    } else {
        proof {
            law_bits_required(max_delta);
            lemma_signed_casts();
        }
        let bits: u8 = unsigned_bits_required(max_delta as i64);
        pack(ds.as_slice(), bits, data);
        meta.push(bits);
    }
    assert(meta@ =~= meta0 + block_meta(block@, offset as nat));
}

/// Encode `values` (monotonically non-decreasing). Meta bytes append to
/// `meta`, packed deltas append to `data`; the length of `data` at entry is
/// the base the per-block offsets are relative to.
pub fn write(values: &[i64], block_shift: u32, meta: &mut Vec<u8>, data: &mut Vec<u8>) -> (r: Result<()>)
    requires
        block_shift < 64,
    ensures
        non_decreasing(values@) ==> {
            &&& r is Ok
            &&& final(meta)@ == old(meta)@ + monotonic_meta(values@, block_shift as nat)
            &&& final(data)@ == old(data)@ + monotonic_data(values@, block_shift as nat)
        },
        !non_decreasing(values@) ==> {
            &&& r matches Err(e) && e.kind() == ErrorKind::InvalidArgument
            &&& final(meta)@ == old(meta)@
            &&& final(data)@ == old(data)@
        },
{
    if !is_non_decreasing(values) {
        return Err(Error::invalid("DirectMonotonic input must be non-decreasing"));
    }
    let size: u64 = two_to(block_shift);
    let base: usize = data.len();
    let total: usize = values.len();
    let ghost shift = block_shift as nat;
    let mut i: usize = 0;
    while i < total
        invariant
            total == values@.len(),
            i <= total,
            size == pow2(shift),
            block_shift as nat == shift,
            base == old(data)@.len(),
            base <= data@.len(),
            meta@ + meta_from(values@, i as nat, shift, (data@.len() - base) as nat) == old(meta)@ + monotonic_meta(
                values@,
                shift,
            ),
            data@ + data_from(values@, i as nat, shift) == old(data)@ + monotonic_data(values@, shift),
        decreases total - i,
    {
        proof {
            lemma_pow2_pos(shift);
        }
        let e: usize = if (total - i) as u64 >= size {
            i + size as usize
        } else {
            total
        };
        assert(e == block_end(total as nat, i as nat, shift));
        let block: &[i64] = slice_subrange(values, i, e);
        let ghost meta0 = meta@;
        let ghost data0 = data@;
        let offset: u64 = (data.len() - base) as u64;
        write_block(block, offset, meta, data);
        proof {
            let d = block_data(block@);
            let next = (data@.len() - base) as nat;
            assert(block@ == block_at(values@, i as nat, shift));
            assert(meta0 + (block_meta(block@, offset as nat) + meta_from(values@, e as nat, shift, next)) =~= meta@
                + meta_from(values@, e as nat, shift, next));
            assert(data0 + (d + data_from(values@, e as nat, shift)) =~= data@ + data_from(values@, e as nat, shift));
        }
        i = e;
    }
    proof {
        assert(meta@ + meta_from(values@, i as nat, shift, (data@.len() - base) as nat) =~= meta@);
        assert(data@ + data_from(values@, i as nat, shift) =~= data@);
    }
    Ok(())
}

/// One meta block.
pub open spec fn parse_meta_block(b: Seq<u8>, p: nat) -> Parsed<MetaBlock> {
    match parse_i64(b, p) {
        Err(k) => Err(k),
        Ok((min, p1)) => match parse_le(b, p1, 4) {
            Err(k) => Err(k),
            Ok((avg_inc, p2)) => match parse_i64(b, p2) {
                Err(k) => Err(k),
                Ok((offset, p3)) => match parse_u8(b, p3) {
                    Err(k) => Err(k),
                    Ok((bits, p4)) => if offset < 0 {
                        Err(ErrorKind::Corrupt)
                    } else {
                        Ok((MetaBlock { min, avg_inc: avg_inc as u32, offset: offset as u64, bits }, p4))
                    },
                },
            },
        },
    }
}

/// `n` meta blocks.
pub open spec fn parse_meta_blocks(b: Seq<u8>, p: nat, n: nat) -> Parsed<Seq<MetaBlock>>
    decreases n,
{
    if n == 0 {
        Ok((Seq::empty(), p))
    } else {
        match parse_meta_block(b, p) {
            Err(k) => Err(k),
            Ok((first, q)) => match parse_meta_blocks(b, q, (n - 1) as nat) {
                Err(k) => Err(k),
                Ok((rest, e)) => Ok((seq![first] + rest, e)),
            },
        }
    }
}

/// The meta blocks of `num_values` values.
pub open spec fn parse_meta(b: Seq<u8>, p: nat, num_values: nat, block_shift: u32) -> Parsed<Seq<MetaBlock>> {
    if block_shift >= 64 {
        Err(ErrorKind::Corrupt)
    } else {
        parse_meta_blocks(b, p, ceil_div(num_values, pow2(block_shift as nat)))
    }
}

fn read_meta_block(c: &mut Cursor<'_>) -> (r: Result<MetaBlock>)
    ensures
        crate::cursor::read_as(r, old(c), final(c), parse_meta_block(old(c).data(), old(c).offset())),
{
    let min: i64 = c.le_i64()?;
    let avg_inc: i32 = c.le_i32()?;
    let offset: i64 = c.le_i64()?;
    let bits: u8 = c.u8()?;
    if offset < 0 {
        return Err(Error::corrupt("negative DirectMonotonic block offset"));
    }
    proof {
        lemma_signed_casts();
    }
    Ok(MetaBlock { min, avg_inc: avg_inc as u32, offset: offset as u64, bits })
}

/// The number of blocks that `num_values` values take.
pub fn block_count(num_values: u64, block_shift: u32) -> (r: u64)
    requires
        block_shift < 64,
    ensures
        r == ceil_div(num_values as nat, pow2(block_shift as nat)),
{
    let size: u64 = two_to(block_shift);
    proof {
        lemma_pow2_pos(block_shift as nat);
        lemma_ceil_div(num_values as nat, size as nat);
        vstd::arithmetic::div_mod::lemma_div_nonincreasing(num_values as int, size as int);
        vstd::arithmetic::div_mod::lemma_fundamental_div_mod(num_values as int, size as int);
        if size == 1 {
            assert(num_values % 1 == 0);
        }
        assert(num_values % size != 0 ==> num_values / size < u64::MAX) by (nonlinear_arith)
            requires
                size > 0,
                size == 1 ==> num_values % size == 0,
                num_values == size * (num_values / size) + num_values % size,
                num_values <= u64::MAX,
                num_values % size >= 0,
        ;
    }
    num_values / size + if num_values % size == 0 {
        0
    } else {
        1
    }
}

/// Parse the meta blocks of `num_values` values from the cursor.
pub fn read_meta(c: &mut Cursor<'_>, num_values: u64, block_shift: u32) -> (r: Result<Vec<MetaBlock>>)
    ensures
        final(c).data() == old(c).data(),
        match parse_meta(old(c).data(), old(c).offset(), num_values as nat, block_shift) {
            Ok((v, q)) => (r matches Ok(w) && w@ == v) && final(c).offset() == q,
            Err(k) => r matches Err(e) && e.kind() == k,
        },
{
    if block_shift >= 64 {
        return Err(Error::corrupt("invalid DirectMonotonic block shift"));
    }
    let n: u64 = block_count(num_values, block_shift);
    let mut blocks: Vec<MetaBlock> = Vec::new();
    let mut i: u64 = 0;
    let ghost b = c.data();
    let ghost whole = parse_meta_blocks(b, c.offset(), n as nat);
    proof {
        if whole is Ok {
            assert(Seq::<MetaBlock>::empty() + whole->Ok_0.0 =~= whole->Ok_0.0);
        }
    }
    while i < n
        invariant
            i <= n,
            b == old(c).data(),
            c.data() == b,
            block_shift < 64,
            whole == parse_meta(b, old(c).offset(), num_values as nat, block_shift),
            match parse_meta_blocks(b, c.offset(), (n - i) as nat) {
                Ok((rest, q)) => whole == Ok::<(Seq<MetaBlock>, nat), ErrorKind>((blocks@ + rest, q)),
                Err(k) => whole == Err::<(Seq<MetaBlock>, nat), ErrorKind>(k),
            },
        decreases n - i,
    {
        let ghost before = blocks@;
        let block: MetaBlock = read_meta_block(c)?;
        blocks.push(block);
        proof {
            let left = parse_meta_blocks(b, c.offset(), (n - i - 1) as nat);
            if left is Ok {
                assert(before + (seq![block] + left->Ok_0.0) =~= blocks@ + left->Ok_0.0);
            }
        }
        i = i + 1;
    }
    assert(blocks@ + Seq::<MetaBlock>::empty() =~= blocks@);
    Ok(blocks)
}

/// The first `count` values of one block.
pub open spec fn decoded_block(block: MetaBlock, data: Seq<u8>, count: nat) -> std::result::Result<Seq<i64>, ErrorKind> {
    if block.bits == 0 {
        Ok(Seq::new(count, |i: int| block.min.wrapping_add(predicted(block.avg_inc, i as nat))))
    } else if block.offset > data.len() {
        Err(ErrorKind::Corrupt)
    } else {
        match each_unpacked(data.skip(block.offset as int), block.bits, count) {
            Err(k) => Err(k),
            Ok(x) => Ok(
                Seq::new(
                    count,
                    |i: int| block.min.wrapping_add(predicted(block.avg_inc, i as nat)).wrapping_add(x[i] as i64),
                ),
            ),
        }
    }
}

/// How many values block `i` holds.
pub open spec fn values_in_block(num_values: nat, block_shift: nat, i: nat) -> nat {
    let size = pow2(block_shift);
    if num_values <= i * size {
        0
    } else if num_values - i * size < size {
        (num_values - i * size) as nat
    } else {
        size
    }
}

/// The values of the blocks from `i` on.
pub open spec fn decoded_from(
    blocks: Seq<MetaBlock>,
    i: nat,
    data: Seq<u8>,
    num_values: nat,
    block_shift: nat,
) -> std::result::Result<Seq<i64>, ErrorKind>
    decreases blocks.len() - i,
{
    if i >= blocks.len() {
        Ok(Seq::empty())
    } else {
        match decoded_block(blocks[i as int], data, values_in_block(num_values, block_shift, i)) {
            Err(k) => Err(k),
            Ok(first) => match decoded_from(blocks, i + 1, data, num_values, block_shift) {
                Err(k) => Err(k),
                Ok(rest) => Ok(first + rest),
            },
        }
    }
}

/// The whole sequence.
pub open spec fn decoded(blocks: Seq<MetaBlock>, data: Seq<u8>, num_values: nat, block_shift: u32) -> std::result::Result<
    Seq<i64>,
    ErrorKind,
> {
    if block_shift >= 64 {
        Err(ErrorKind::Corrupt)
    } else {
        decoded_from(blocks, 0, data, num_values, block_shift as nat)
    }
}

/// Appends the first `count` values of one block.
fn decode_block(block: &MetaBlock, data: &[u8], count: u64, out: &mut Vec<i64>) -> (r: Result<()>)
    ensures
        match decoded_block(*block, data@, count as nat) {
            Ok(v) => r is Ok && final(out)@ == old(out)@ + v,
            Err(k) => r matches Err(e) && e.kind() == k,
        },
{
    let ghost start = out@;
    if block.bits == 0 {
        let ghost all = decoded_block(*block, data@, count as nat)->Ok_0;
        let mut i: u64 = 0;
        assert(out@ =~= start + all.take(0));
        while i < count
            invariant
                i <= count,
                block.bits == 0,
                all == decoded_block(*block, data@, count as nat)->Ok_0,
                all.len() == count,
                out@ == start + all.take(i as int),
            decreases count - i,
        {
            out.push(block.min.wrapping_add(product(block.avg_inc, i)));
            i = i + 1;
            assert(out@ =~= start + all.take(i as int));
        }
        assert(all.take(count as int) =~= all);
        return Ok(());
    }
    if block.offset > data.len() as u64 {
        return Err(Error::corrupt("DirectMonotonic offset beyond data"));
    }
    let payload: &[u8] = slice_subrange(data, block.offset as usize, data.len());
    assert(payload@ =~= data@.skip(block.offset as int));
    let mut raw: Vec<u64> = Vec::new();
    for_each_unpacked(payload, block.bits, count, &mut raw)?;
    let ghost all = decoded_block(*block, data@, count as nat)->Ok_0;
    proof {
        assert(Seq::<u64>::empty() + each_unpacked(payload@, block.bits, count as nat)->Ok_0 =~= each_unpacked(
            payload@,
            block.bits,
            count as nat,
        )->Ok_0);
    }
    let mut i: usize = 0;
    assert(out@ =~= start + all.take(0));
    while i < raw.len()
        invariant
            i <= raw@.len(),
            raw@.len() == count,
            decoded_block(*block, data@, count as nat) is Ok,
            block.bits != 0,
            block.offset <= data@.len(),
            each_unpacked(data@.skip(block.offset as int), block.bits, count as nat) == Ok::<Seq<u64>, ErrorKind>(raw@),
            all == decoded_block(*block, data@, count as nat)->Ok_0,
            out@ == start + all.take(i as int),
        decreases raw@.len() - i,
    {
        out.push(block.min.wrapping_add(product(block.avg_inc, i as u64)).wrapping_add(raw[i] as i64));
        i = i + 1;
        assert(out@ =~= start + all.take(i as int));
    }
    assert(all.take(count as int) =~= all);
    Ok(())
}

/// Bulk-decode the whole sequence. `data` is the region starting at the
/// writer's base.
pub fn decode(blocks: &[MetaBlock], data: &[u8], num_values: u64, block_shift: u32) -> (r: Result<Vec<i64>>)
    ensures
        match decoded(blocks@, data@, num_values as nat, block_shift) {
            Ok(v) => r matches Ok(w) && w@ == v,
            Err(k) => r matches Err(e) && e.kind() == k,
        },
{
    if block_shift >= 64 {
        return Err(Error::corrupt("invalid DirectMonotonic block shift"));
    }
    let size: u64 = two_to(block_shift);
    let mut out: Vec<i64> = Vec::new();
    let ghost whole = decoded(blocks@, data@, num_values as nat, block_shift);
    proof {
        if whole is Ok {
            assert(Seq::<i64>::empty() + whole->Ok_0 =~= whole->Ok_0);
        }
    }
    let mut i: usize = 0;
    // How many values are left for the blocks from `i` on.
    let mut left: u64 = num_values;
    proof {
        lemma_pow2_pos(block_shift as nat);
        assert(0 * size == 0) by (nonlinear_arith);
    }
    while i < blocks.len()
        invariant
            i <= blocks@.len(),
            block_shift < 64,
            size == pow2(block_shift as nat),
            size > 0,
            left == (if num_values <= i * size {
                0
            } else {
                num_values - i * size
            }),
            whole == decoded(blocks@, data@, num_values as nat, block_shift),
            match decoded_from(blocks@, i as nat, data@, num_values as nat, block_shift as nat) {
                Ok(rest) => whole == Ok::<Seq<i64>, ErrorKind>(out@ + rest),
                Err(k) => whole == Err::<Seq<i64>, ErrorKind>(k),
            },
        decreases blocks@.len() - i,
    {
        let count: u64 = if left < size {
            left
        } else {
            size
        };
        assert(count == values_in_block(num_values as nat, block_shift as nat, i as nat));
        let ghost before = out@;
        decode_block(&blocks[i], data, count, &mut out)?;
        proof {
            let rest = decoded_from(blocks@, i as nat + 1, data@, num_values as nat, block_shift as nat);
            let first = decoded_block(blocks@[i as int], data@, count as nat)->Ok_0;
            if rest is Ok {
                assert(before + (first + rest->Ok_0) =~= out@ + rest->Ok_0);
            }
            assert((i + 1) * size == i * size + size) by (nonlinear_arith);
        }
        left = left - count;
        i = i + 1;
    }
    assert(out@ + Seq::<i64>::empty() =~= out@);
    Ok(out)
}

// Decoding gives back what was written.

/// The meta blocks that stand for `values` from `from` on.
pub open spec fn blocks_of(values: Seq<i64>, from: nat, block_shift: nat, offset: nat) -> Seq<MetaBlock>
    decreases values.len() - from,
    via blocks_of_decreases
{
    if from >= values.len() {
        Seq::empty()
    } else {
        let block = block_at(values, from, block_shift);
        seq![
            MetaBlock {
                min: minimum(residues(block)),
                avg_inc: block_average(block),
                offset: offset as u64,
                bits: block_bits(block),
            },
        ] + blocks_of(
            values,
            block_end(values.len(), from, block_shift),
            block_shift,
            offset + block_data(block).len(),
        )
    }
}

#[via_fn]
proof fn blocks_of_decreases(values: Seq<i64>, from: nat, block_shift: nat, offset: nat) {
    lemma_pow2_pos(block_shift);
}

proof fn lemma_or_all(s: Seq<i64>, i: int)
    requires
        0 <= i < s.len(),
    ensures
        (s[i] as u64) <= or_all(s),
    decreases s.len(),
{
    let a = or_all(s.drop_last());
    let b = s.last() as u64;
    assert(a <= (a | b) && b <= (a | b)) by (bit_vector);
    if i < s.len() - 1 {
        lemma_or_all(s.drop_last(), i);
    }
}

/// A written block decodes to its values.
#[verifier::rlimit(30)]
#[verifier::spinoff_prover]
proof fn lemma_block_round_trip(block: Seq<i64>, data: Seq<u8>, offset: nat)
    requires
        block.len() > 0,
        offset <= u64::MAX,
        stands_at(data, offset, block_data(block)),
    ensures
        decoded_block(
            MetaBlock {
                min: minimum(residues(block)),
                avg_inc: block_average(block),
                offset: offset as u64,
                bits: block_bits(block),
            },
            data,
            block.len(),
        ) == Ok::<Seq<i64>, ErrorKind>(block),
{
    let ds = deltas(block);
    let all = or_all(ds);
    let bits = block_bits(block);
    let m = MetaBlock {
        min: minimum(residues(block)),
        avg_inc: block_average(block),
        offset: offset as u64,
        bits,
    };
    assert(supported(bits_required(all)) && all < pow2(bits_required(all) as nat)) by {
        law_bits_required(all);
    }
    lemma_signed_casts();
    assert forall|i: int| 0 <= i < ds.len() implies (#[trigger] ds[i] as u64) <= all by {
        lemma_or_all(ds, i);
    }
    if all == 0 {
        assert forall|i: int| 0 <= i < ds.len() implies #[trigger] ds[i] == 0 by {
            assert((ds[i] as u64) as i64 == ds[i]);
            assert(ds[i] as u64 == 0);
        }
        let out = decoded_block(m, data, block.len())->Ok_0;
        assert forall|i: int| 0 <= i < block.len() implies out[i] == block[i] by {
            assert(ds[i] == 0);
        }
        assert(out =~= block);
    } else {
        let rest = data.subrange((offset + block_data(block).len()) as int, data.len() as int);
        assert(data.skip(offset as int) =~= packed(ds, bits) + rest);
        law_pack_unpack(ds, bits, rest);
        let x = Seq::new(ds.len(), |i: int| ds[i] as u64);
        let out = decoded_block(m, data, block.len())->Ok_0;
        assert forall|i: int| 0 <= i < block.len() implies out[i] == block[i] by {
            assert(x[i] as i64 == ds[i]);
        }
        assert(out =~= block);
    }
}

proof fn lemma_parse_written_meta(b: Seq<u8>, p: nat, block: Seq<i64>, offset: nat)
    requires
        offset <= i64::MAX,
        stands_at(b, p, block_meta(block, offset)),
    ensures
        block_meta(block, offset).len() == META_BYTES_PER_BLOCK,
        parse_meta_block(b, p) == Ok::<(MetaBlock, nat), ErrorKind>(
            (
                MetaBlock {
                    min: minimum(residues(block)),
                    avg_inc: block_average(block),
                    offset: offset as u64,
                    bits: block_bits(block),
                },
                p + META_BYTES_PER_BLOCK as nat,
            ),
        ),
{
    let min = minimum(residues(block));
    let avg = block_average(block);
    let s3 = seq![block_bits(block)];
    let s2 = le_bytes(offset, 8) + s3;
    let s1 = le_bytes(avg as nat, 4) + s2;
    lemma2_to64();
    lemma_signed_casts();
    assert((offset as i64) as u64 == offset);
    lemma_le_bytes_len(avg as nat, 4);
    lemma_le_bytes_len(offset, 8);
    lemma_le_bytes_len((min as u64) as nat, 8);
    lemma_stands_split(b, p, le_i64(min), s1);
    lemma_parse_i64_at(b, p, min);
    lemma_stands_split(b, p + 8, le_bytes(avg as nat, 4), s2);
    lemma_parse_le_at(b, p + 8, avg as nat, 4);
    lemma_stands_split(b, p + 12, le_bytes(offset, 8), s3);
    lemma_parse_i64_at(b, p + 12, offset as i64);
    assert(b[(p + 20) as int] == block_bits(block)) by {
        assert(b.subrange((p + 20) as int, (p + 21) as int)[0] == block_bits(block));
    }
}

proof fn lemma_block_count_step(len: nat, from: nat, shift: nat)
    requires
        from < len,
    ensures
        ceil_div((len - from) as nat, pow2(shift)) == 1 + ceil_div(
            (len - block_end(len, from, shift)) as nat,
            pow2(shift),
        ),
{
    let size = pow2(shift);
    lemma_pow2_pos(shift);
    let e = block_end(len, from, shift);
    let a = (len - from) as nat;
    let c = (len - e) as nat;
    lemma_ceil_div(a, size);
    lemma_ceil_div(c, size);
    let x = ceil_div(a, size) as int;
    let y = ceil_div(c, size) as int;
    let z = size as int;
    if from + size <= len {
        assert(x == y + 1) by (nonlinear_arith)
            requires
                (x - 1) * z < a <= x * z,
                (y - 1) * z < c <= y * z,
                a == c + z,
                z > 0,
        ;
    } else {
        assert(y == 0) by (nonlinear_arith)
            requires
                (y - 1) * z < 0 <= y * z,
                z > 0,
        ;
        assert(x == 1) by (nonlinear_arith)
            requires
                (x - 1) * z < a <= x * z,
                0 < a < z,
        ;
    }
}

proof fn lemma_parse_meta_from(b: Seq<u8>, p: nat, values: Seq<i64>, from: nat, shift: nat, offset: nat)
    requires
        from <= values.len(),
        offset + data_from(values, from, shift).len() <= i64::MAX,
        stands_at(b, p, meta_from(values, from, shift, offset)),
    ensures
        parse_meta_blocks(b, p, ceil_div((values.len() - from) as nat, pow2(shift))) == Ok::<
            (Seq<MetaBlock>, nat),
            ErrorKind,
        >((blocks_of(values, from, shift, offset), p + meta_from(values, from, shift, offset).len())),
    decreases values.len() - from,
{
    lemma_pow2_pos(shift);
    if from < values.len() {
        let block = block_at(values, from, shift);
        let e = block_end(values.len(), from, shift);
        let next = offset + block_data(block).len();
        lemma_block_count_step(values.len(), from, shift);
        lemma_stands_split(b, p, block_meta(block, offset), meta_from(values, e, shift, next));
        lemma_parse_written_meta(b, p, block, offset);
        lemma_parse_meta_from(b, p + 21, values, e, shift, next);
    } else {
        lemma_ceil_div(0, pow2(shift));
        assert(0nat / pow2(shift) == 0) by {
            vstd::arithmetic::div_mod::lemma_div_basics(pow2(shift) as int);
        }
        assert(0nat % pow2(shift) == 0) by {
            vstd::arithmetic::div_mod::lemma_small_mod(0, pow2(shift));
        }
    }
}

proof fn lemma_decode_from(
    all: Seq<MetaBlock>,
    i: nat,
    data: Seq<u8>,
    values: Seq<i64>,
    from: nat,
    shift: nat,
    offset: nat,
)
    requires
        from <= values.len(),
        i <= all.len(),
        all.skip(i as int) == blocks_of(values, from, shift, offset),
        from == i * pow2(shift) || from == values.len(),
        offset + data_from(values, from, shift).len() <= i64::MAX,
        stands_at(data, offset, data_from(values, from, shift)),
    ensures
        decoded_from(all, i, data, values.len(), shift) == Ok::<Seq<i64>, ErrorKind>(values.skip(from as int)),
    decreases values.len() - from,
{
    lemma_pow2_pos(shift);
    let size = pow2(shift);
    if from < values.len() {
        let block = block_at(values, from, shift);
        let e = block_end(values.len(), from, shift);
        let next = offset + block_data(block).len();
        lemma_stands_split(data, offset, block_data(block), data_from(values, e, shift));
        lemma_block_round_trip(block, data, offset);
        let bs = blocks_of(values, from, shift, offset);
        assert(bs.len() >= 1);
        assert(all.skip(i as int).len() == all.len() - i);
        assert(all[i as int] == all.skip(i as int)[0]);
        assert(all.skip(i as int + 1) =~= bs.drop_first());
        assert(bs.drop_first() =~= blocks_of(values, e, shift, next));
        assert((i + 1) * size == i * size + size) by (nonlinear_arith);
        lemma_decode_from(all, i + 1, data, values, e, shift, next);
        assert(values_in_block(values.len(), shift, i) == block.len());
        assert(block + values.skip(e as int) =~= values.skip(from as int));
    } else {
        assert(all.skip(i as int).len() == 0);
        assert(values.skip(from as int) =~= Seq::<i64>::empty());
    }
}

proof fn lemma_data_len(values: Seq<i64>, from: nat, block_shift: nat)
    requires
        from <= values.len(),
    ensures
        data_from(values, from, block_shift).len() <= 16 * (values.len() - from),
    decreases values.len() - from,
{
    if from < values.len() {
        lemma_pow2_pos(block_shift);
        let end = block_end(values.len(), from, block_shift);
        let block = block_at(values, from, block_shift);
        law_bits_required(or_all(deltas(block)));
        law_packed_len(deltas(block), block_bits(block));
        lemma_data_len(values, end, block_shift);
    }
}

/// A sequence takes at most sixteen bytes of data for each value, so that
/// offsets reach all data of every sequence of fewer than 2^59 values.
pub proof fn law_monotonic_data_len(values: Seq<i64>, block_shift: nat)
    ensures
        monotonic_data(values, block_shift).len() <= 16 * values.len(),
        values.len() < 0x800_0000_0000_0000 ==> monotonic_data(values, block_shift).len() <= i64::MAX,
{
    lemma_data_len(values, 0, block_shift);
}

/// A written sequence reads back as it was: its metadata parses, and the
/// blocks decode to the values, wherever the metadata stands and whatever
/// follows the data.
pub proof fn law_monotonic_round_trip(b: Seq<u8>, p: nat, data: Seq<u8>, values: Seq<i64>, block_shift: u32)
    requires
        block_shift < 64,
        monotonic_data(values, block_shift as nat).len() <= i64::MAX,
        stands_at(b, p, monotonic_meta(values, block_shift as nat)),
        stands_at(data, 0, monotonic_data(values, block_shift as nat)),
    ensures
        parse_meta(b, p, values.len(), block_shift) == Ok::<(Seq<MetaBlock>, nat), ErrorKind>(
            (blocks_of(values, 0, block_shift as nat, 0), p + monotonic_meta(values, block_shift as nat).len()),
        ),
        decoded(blocks_of(values, 0, block_shift as nat, 0), data, values.len(), block_shift) == Ok::<
            Seq<i64>,
            ErrorKind,
        >(values),
{
    let shift = block_shift as nat;
    lemma_parse_meta_from(b, p, values, 0, shift, 0);
    let all = blocks_of(values, 0, shift, 0);
    assert(all.skip(0) =~= all);
    assert(0 * pow2(shift) == 0) by (nonlinear_arith);
    lemma_decode_from(all, 0, data, values, 0, shift, 0);
    assert(values.skip(0) =~= values);
}

} // verus!
