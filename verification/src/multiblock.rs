//! Value streams in several blocks read back: each block of 16384 values has
//! a header of its own in the data file, with its least value and its width.

use vstd::prelude::*;
use vstd::arithmetic::power2::pow2;
use vstd::wrapping::i64_specs::signed_crop;
use crate::bytes::{le_bytes, le_i32, le_i64, lemma_cast_values};
use crate::column::{block_values, finish_value, finished, matches_docs, scattered, stream_from, stream_values, Epilogue};
use crate::cursor::{lemma_stands_split, stands_at};
use crate::direct::{law_pack_unpack, law_packed_len, packed, supported};
use crate::disi::{disi_bytes, doc_set, lemma_rank_of, strictly_increasing};
use crate::error::ErrorKind;
use crate::plan::{BlockModel, FieldIdModel};
use crate::read::{entry_blocks, entry_plan, multi_blocks, parse_numeric_entry, EntryModel};
use crate::roundtrip::{
    lemma_all_docs, lemma_byte_at, lemma_i32_at, lemma_i64_at, lemma_len_at, lemma_presence, lemma_written_coverage,
    plan_holds, written_presence,
};
use crate::write::{lemma_docs_len, presence_data, presence_meta};

verus! {

/// A block as it is stored: the packed numbers are the distances of the
/// values from the least, in steps of the stream's common divisor. A width of
/// zero stores none, and all values are the least.
pub struct StoredBlock {
    pub min: i64,
    pub bits: u8,
    pub numbers: Seq<u64>,
}

/// Numbers to be packed.
pub open spec fn as_signed(numbers: Seq<u64>) -> Seq<i64> {
    Seq::new(numbers.len(), |i: int| numbers[i] as i64)
}

/// The bytes of a block.
pub open spec fn stored_bytes(b: StoredBlock) -> Seq<u8> {
    seq![b.bits] + (le_i64(b.min) + if b.bits == 0 {
        Seq::empty()
    } else {
        le_i32(packed(as_signed(b.numbers), b.bits).len() as i32) + packed(as_signed(b.numbers), b.bits)
    })
}

/// The bytes of the blocks from `i` on.
pub open spec fn stored_from(blocks: Seq<StoredBlock>, i: nat) -> Seq<u8>
    decreases blocks.len() - i,
{
    if i >= blocks.len() {
        Seq::empty()
    } else {
        stored_bytes(blocks[i as int]) + stored_from(blocks, i + 1)
    }
}

/// A block that can be stored: its width is one of the format's and holds
/// its numbers; all blocks but the last are full.
pub open spec fn storable(blocks: Seq<StoredBlock>, i: int) -> bool {
    let b = blocks[i];
    &&& b.bits == 0 || supported(b.bits)
    &&& forall|k: int| 0 <= k < b.numbers.len() && b.bits > 0 ==> (#[trigger] b.numbers[k]) < pow2(b.bits as nat)
    &&& 0 < b.numbers.len() <= 16384
    &&& i + 1 < blocks.len() ==> b.numbers.len() == 16384
}

/// The value at place `k` of a block: the least value, and as many steps of
/// `gcd` as the number there says, in 64-bit arithmetic.
pub open spec fn stands_for_value(b: StoredBlock, k: int, gcd: i64, v: i64) -> bool {
    if b.bits == 0 {
        v == b.min
    } else {
        (v - (b.min + gcd * b.numbers[k])) % 0x1_0000_0000_0000_0000 == 0
    }
}

/// `values` are those of the blocks, one block behind the other.
pub open spec fn values_of_blocks(blocks: Seq<StoredBlock>, gcd: i64, values: Seq<i64>) -> bool {
    &&& blocks.len() == 0 ==> values.len() == 0
    &&& blocks.len() > 0 ==> values.len() == 16384 * (blocks.len() - 1) + blocks.last().numbers.len()
    &&& forall|i: int|
        0 <= i < values.len() ==> stands_for_value(blocks[i / 16384], i % 16384, gcd, #[trigger] values[i])
}

/// The arithmetic behind unpacking gives the one number that is `base` and
/// `x` steps of `gcd`, up to a multiple of 2^64.
proof fn lemma_linear_value(base: i64, gcd: i64, x: u64, v: i64)
    requires
        (v - (base + gcd * x)) % 0x1_0000_0000_0000_0000 == 0,
    ensures
        finish_value(Epilogue::Linear { base, gcd }, x) == v,
{
    let r = 0x1_0000_0000_0000_0000int;
    lemma_cast_values();
    let y = x as i64;
    let a: int = if x < 0x8000_0000_0000_0000 {
        0
    } else {
        1
    };
    assert(x == y + a * r);
    let p = gcd * y;
    let m = signed_crop(p);
    let b = (p - m) / r;
    assert(p - m == b * r) by {
        lemma_crop_multiple(p);
    }
    let w = finish_value(Epilogue::Linear { base, gcd }, x);
    assert(w == base.wrapping_add(m));
    let c: int = if base + m > i64::MAX {
        1
    } else if base + m < i64::MIN {
        -1
    } else {
        0
    };
    assert(w == base + m - c * r);
    let e = (v - (base + gcd * x)) / r;
    assert(v - (base + gcd * x) == e * r) by {
        vstd::arithmetic::div_mod::lemma_fundamental_div_mod(v - (base + gcd * x), r);
    }
    assert(gcd * x == p + (gcd * a) * r) by (nonlinear_arith)
        requires
            x == y + a * r,
            p == gcd * y,
    ;
    assert(v - w == (e + gcd * a + b + c) * r) by (nonlinear_arith)
        requires
            v - (base + gcd * x) == e * r,
            gcd * x == p + (gcd * a) * r,
            p - m == b * r,
            w == base + m - c * r,
    ;
    let k = e + gcd * a + b + c;
    assert(k == 0) by (nonlinear_arith)
        requires
            v - w == k * r,
            -r < v - w < r,
            r > 0,
    ;
}

proof fn lemma_crop_multiple(p: int)
    ensures
        p - signed_crop(p) == (p - signed_crop(p)) / 0x1_0000_0000_0000_0000 * 0x1_0000_0000_0000_0000,
{
    let r = 0x1_0000_0000_0000_0000int;
    vstd::arithmetic::div_mod::lemma_fundamental_div_mod(p, r);
    let q = p / r;
    let m = signed_crop(p);
    if p % r > i64::MAX {
        assert(p - m == (q + 1) * r) by (nonlinear_arith)
            requires
                p == r * q + p % r,
                m == p % r - r,
        ;
        vstd::arithmetic::div_mod::lemma_fundamental_div_mod_converse(p - m, r, q + 1, 0);
    } else {
        assert(p - m == q * r) by (nonlinear_arith)
            requires
                p == r * q + p % r,
                m == p % r,
        ;
        vstd::arithmetic::div_mod::lemma_fundamental_div_mod_converse(p - m, r, q, 0);
    }
}

/// Where the parts of a block stand.
proof fn lemma_header(dvd: Seq<u8>, p: nat, b: StoredBlock)
    requires
        stands_at(dvd, p, stored_bytes(b)),
        b.bits == 0 || supported(b.bits),
        b.numbers.len() <= 16384,
    ensures
        p + 9 <= dvd.len(),
        dvd[p as int] == b.bits,
        crate::cursor::i64_at(dvd, p + 1) == b.min,
        b.bits == 0 ==> stored_bytes(b).len() == 9,
        b.bits > 0 ==> {
            let body = packed(as_signed(b.numbers), b.bits);
            &&& body.len() <= i32::MAX
            &&& crate::cursor::i32_at(dvd, p + 9) == body.len()
            &&& stands_at(dvd, p + 13, body)
            &&& stored_bytes(b).len() == 13 + body.len()
        },
{
    let body = packed(as_signed(b.numbers), b.bits);
    let tail = if b.bits == 0 {
        Seq::<u8>::empty()
    } else {
        le_i32(body.len() as i32) + body
    };
    lemma_stands_split(dvd, p, seq![b.bits], le_i64(b.min) + tail);
    lemma_byte_at(dvd, p, b.bits);
    lemma_stands_split(dvd, p + 1, le_i64(b.min), tail);
    lemma_i64_at(dvd, p + 1, b.min);
    if b.bits > 0 {
        law_packed_len(as_signed(b.numbers), b.bits);
        lemma_stands_split(dvd, p + 9, le_i32(body.len() as i32), body);
        lemma_i32_at(dvd, p + 9, body.len() as i32);
    }
}

/// What a block plans to.
spec fn block_at(p: nat, b: StoredBlock, gcd: i64) -> BlockModel {
    if b.bits == 0 {
        BlockModel::DeltaPacked {
            offset: (p + 9) as u64,
            len: 0,
            bit_width: 0,
            base: b.min,
            values: b.numbers.len() as u64,
        }
    } else {
        BlockModel::GcdPacked {
            offset: (p + 13) as u64,
            len: packed(as_signed(b.numbers), b.bits).len() as u64,
            bit_width: b.bits,
            base: b.min,
            gcd,
            values: b.numbers.len() as u64,
        }
    }
}

proof fn lemma_block_values(dvd: Seq<u8>, p: nat, b: StoredBlock, gcd: i64, mine: Seq<i64>)
    requires
        dvd.len() <= u64::MAX,
        stands_at(dvd, p, stored_bytes(b)),
        b.bits == 0 || supported(b.bits),
        forall|k: int| 0 <= k < b.numbers.len() && b.bits > 0 ==> (#[trigger] b.numbers[k]) < pow2(b.bits as nat),
        b.numbers.len() <= 16384,
        mine.len() == b.numbers.len(),
        forall|k: int| 0 <= k < mine.len() ==> stands_for_value(b, k, gcd, #[trigger] mine[k]),
    ensures
        block_values(block_at(p, b, gcd), dvd) == Ok::<Seq<i64>, ErrorKind>(mine),
{
    lemma_header(dvd, p, b);
    if b.bits == 0 {
        assert(Seq::new(b.numbers.len(), |i: int| b.min) =~= mine) by {
            assert forall|k: int| 0 <= k < mine.len() implies mine[k] == b.min by {
                assert(stands_for_value(b, k, gcd, mine[k]));
            }
        }
    } else {
        let body = packed(as_signed(b.numbers), b.bits);
        let s = as_signed(b.numbers);
        crate::bytes::lemma_signed_casts();
        assert forall|k: int| 0 <= k < s.len() implies (#[trigger] s[k] as u64) < pow2(b.bits as nat) by {
            assert(s[k] as u64 == b.numbers[k]);
        }
        law_pack_unpack(s, b.bits, Seq::empty());
        assert(body + Seq::<u8>::empty() =~= body);
        assert(Seq::new(s.len(), |i: int| s[i] as u64) =~= b.numbers);
        let ep = Epilogue::Linear { base: b.min, gcd };
        let out = Seq::new(b.numbers.len(), |i: int| finish_value(ep, b.numbers[i]));
        assert forall|k: int| 0 <= k < mine.len() implies out[k] == mine[k] by {
            assert(stands_for_value(b, k, gcd, mine[k]));
            lemma_linear_value(b.min, gcd, b.numbers[k], mine[k]);
        }
        assert(out =~= mine);
        assert(finished(ep, Ok(b.numbers)) == Ok::<Seq<i64>, ErrorKind>(mine));
    }
}

/// One more block in front.
proof fn lemma_stream_behind(first: BlockModel, rest: Seq<BlockModel>, i: nat, dvd: Seq<u8>)
    requires
        i <= rest.len(),
    ensures
        stream_from(seq![first] + rest, i + 1, dvd) == stream_from(rest, i, dvd),
    decreases rest.len() - i,
{
    let all = seq![first] + rest;
    if i < rest.len() {
        assert(all[i as int + 1] == rest[i as int]);
        lemma_stream_behind(first, rest, i + 1, dvd);
    }
}

/// A block is planned, then those behind it.
proof fn lemma_block_planned(dvd: Seq<u8>, p: nat, b: StoredBlock, gcd: i64, remaining: nat)
    requires
        stands_at(dvd, p, stored_bytes(b)),
        b.bits == 0 || supported(b.bits),
        0 < b.numbers.len() <= 16384,
        b.numbers.len() == if remaining < 16384 {
            remaining
        } else {
            16384
        },
        multi_blocks(dvd, p + stored_bytes(b).len(), (remaining - b.numbers.len()) as nat, gcd) is Ok,
    ensures
        multi_blocks(dvd, p, remaining, gcd) == Ok::<Seq<BlockModel>, ErrorKind>(
            seq![block_at(p, b, gcd)] + multi_blocks(
                dvd,
                p + stored_bytes(b).len(),
                (remaining - b.numbers.len()) as nat,
                gcd,
            )->Ok_0,
        ),
{
    lemma_header(dvd, p, b);
}

/// The values of one block are those at its places.
proof fn lemma_values_of_block(blocks: Seq<StoredBlock>, j: int, gcd: i64, values: Seq<i64>, k: int)
    requires
        0 <= j < blocks.len(),
        0 <= k < 16384,
        16384 * j + k < values.len(),
        values_of_blocks(blocks, gcd, values),
    ensures
        stands_for_value(blocks[j], k, gcd, values[16384 * j + k]),
{
    let i = 16384 * j + k;
    assert(i / 16384 == j && i % 16384 == k);
    assert(stands_for_value(blocks[i / 16384], i % 16384, gcd, values[i]));
}

/// The values of the blocks from `j` on are planned and decoded.
proof fn lemma_blocks_read(dvd: Seq<u8>, p: nat, blocks: Seq<StoredBlock>, j: nat, gcd: i64, values: Seq<i64>)
    requires
        j <= blocks.len(),
        forall|i: int| 0 <= i < blocks.len() ==> #[trigger] storable(blocks, i),
        values_of_blocks(blocks, gcd, values),
        stands_at(dvd, p, stored_from(blocks, j)),
        dvd.len() <= u64::MAX,
        blocks.len() > 0,
    ensures
        ({
            let from = if j < blocks.len() {
                16384 * j
            } else {
                values.len()
            };
            multi_blocks(dvd, p, (values.len() - from) as nat, gcd) matches Ok(m) && stream_from(m, 0, dvd) == Ok::<
                Seq<i64>,
                ErrorKind,
            >(values.skip(from as int))
        }),
    decreases blocks.len() - j,
{
    if j >= blocks.len() {
        assert(values.skip(values.len() as int) =~= Seq::<i64>::empty());
    } else {
        let b = blocks[j as int];
        let n = b.numbers.len();
        let from = (16384 * j) as nat;
        let remaining = (values.len() - from) as nat;
        assert(storable(blocks, j as int));
        assert(storable(blocks, blocks.len() - 1));
        lemma_stands_split(dvd, p, stored_bytes(b), stored_from(blocks, j + 1));
        let q = p + stored_bytes(b).len();
        lemma_blocks_read(dvd, q, blocks, j + 1, gcd, values);
        let next = from + n;
        assert(next == if j + 1 < blocks.len() {
            (16384 * (j + 1)) as int
        } else {
            values.len() as int
        });
        assert(n == if remaining < 16384 {
            remaining
        } else {
            16384
        });
        let rest = multi_blocks(dvd, q, (values.len() - next) as nat, gcd)->Ok_0;
        let mine = values.subrange(from as int, next as int);
        let first = block_at(p, b, gcd);
        let all = seq![first] + rest;
        lemma_block_planned(dvd, p, b, gcd, remaining);
        lemma_stream_behind(first, rest, 0, dvd);
        assert(all[0] == first);
        assert forall|k: int| 0 <= k < n implies stands_for_value(b, k, gcd, #[trigger] mine[k]) by {
            lemma_values_of_block(blocks, j as int, gcd, values, k);
            assert(mine[k] == values[from + k]);
        }
        lemma_block_values(dvd, p, b, gcd, mine);
        assert(stream_from(all, 0, dvd) == Ok::<Seq<i64>, ErrorKind>(mine + values.skip(next as int)));
        assert(mine + values.skip(next as int) =~= values.skip(from as int));
    }
}

/// The entry of a stream in several blocks: set of documents, count, the mark
/// of several blocks for the table size and for the bits, least value, common
/// divisor, where the blocks are, how long they are, and where a jump table
/// would be.
pub open spec fn blocks_entry(
    n: nat,
    docs: Seq<u32>,
    max_doc: nat,
    presence_at: nat,
    blocks: Seq<StoredBlock>,
    min: i64,
    gcd: i64,
    blocks_at: nat,
    jump: i64,
) -> Seq<u8> {
    presence_meta(docs.len(), docs, max_doc, presence_at) + (le_bytes(n, 8) + (le_i32((-16) as i32) + (seq![0xFFu8] + (
    le_i64(min) + (le_i64(gcd) + (le_bytes(blocks_at, 8) + (le_bytes(stored_from(blocks, 0).len(), 8) + le_i64(
        jump,
    ))))))))
}

/// Values in several blocks read back, whatever the common divisor: the entry
/// parses, plans, and decodes to a column that holds each value at its
/// document and nothing else. A value is the least of its block and as many
/// steps of the divisor as its packed number says.
pub proof fn law_blocks_round_trip(
    dvm: Seq<u8>,
    p: nat,
    dvd: Seq<u8>,
    presence_at: nat,
    blocks_at: nat,
    blocks: Seq<StoredBlock>,
    values: Seq<i64>,
    min: i64,
    gcd: i64,
    jump: i64,
    docs: Seq<u32>,
    max_doc: u32,
    column: FieldIdModel,
    file: Seq<char>,
)
    requires
        strictly_increasing(docs),
        docs.len() > 0 ==> docs.last() < max_doc,
        docs.len() == values.len(),
        blocks.len() > 0,
        forall|i: int| 0 <= i < blocks.len() ==> #[trigger] storable(blocks, i),
        values_of_blocks(blocks, gcd, values),
        presence_at + disi_bytes(docs, 9).len() <= i64::MAX,
        blocks_at + stored_from(blocks, 0).len() <= i64::MAX,
        dvd.len() <= u64::MAX,
        stands_at(
            dvm,
            p,
            blocks_entry(values.len(), docs, max_doc as nat, presence_at, blocks, min, gcd, blocks_at, jump),
        ),
        stands_at(dvd, presence_at, presence_data(docs.len(), docs, max_doc as nat)),
        stands_at(dvd, blocks_at, stored_from(blocks, 0)),
    ensures
        match parse_numeric_entry(dvm, p) {
            Ok((e, q)) => q == p + 72 && plan_holds(
                entry_plan(e, dvd, column, max_doc, file),
                dvd,
                column,
                docs,
                values,
                max_doc as nat,
            ),
            Err(_) => false,
        },
{
    let n = docs.len();
    lemma_docs_len(docs, max_doc as nat);
    lemma_blocks_entry(dvm, p, docs, max_doc as nat, presence_at, blocks, min, gcd, blocks_at, jump);
    let (e, q) = parse_numeric_entry(dvm, p)->Ok_0;
    lemma_cast_values();
    lemma_written_coverage(n, docs, max_doc, presence_at, dvd);
    lemma_blocks_read(dvd, blocks_at, blocks, 0, gcd, values);
    assert(values.skip(0) =~= values);
    assert(values.len() > 0) by {
        assert(storable(blocks, blocks.len() - 1));
    }
    let plan = entry_plan(e, dvd, column, max_doc, file)->Ok_0;
    assert(entry_blocks(e, dvd) == multi_blocks(dvd, blocks_at, values.len(), gcd));
    assert(stream_values(plan, dvd) == Ok::<Seq<i64>, ErrorKind>(values));
    lemma_column(plan, dvd, column, docs, values, max_doc);
}

proof fn lemma_column(
    plan: crate::plan::PlanModel,
    dvd: Seq<u8>,
    column: FieldIdModel,
    docs: Seq<u32>,
    values: Seq<i64>,
    max_doc: u32,
)
    requires
        strictly_increasing(docs),
        docs.len() > 0 ==> docs.last() < max_doc,
        docs.len() == values.len(),
        docs.len() > 0,
        plan.column == column,
        plan.arrow_type == crate::schema::DataType::Int64,
        plan.num_values == values.len(),
        stream_values(plan, dvd) == Ok::<Seq<i64>, ErrorKind>(values),
        crate::column::num_docs_of(plan.coverage) == max_doc,
        docs.len() == max_doc ==> plan.coverage is Dense,
        docs.len() != max_doc ==> plan.coverage is Sparse && crate::column::coverage_docs(plan.coverage, dvd) == Ok::<
            Option<Set<nat>>,
            ErrorKind,
        >(Some(doc_set(docs, docs.len()))),
    ensures
        plan_holds(Ok(plan), dvd, column, docs, values, max_doc as nat),
{
    let s = doc_set(docs, docs.len());
    if docs.len() == max_doc {
        assert forall|i: int| 0 <= i < docs.len() implies docs[i] == i by {
            lemma_all_docs(docs, i);
        }
        assert forall|d: nat| d < max_doc implies #[trigger] s.contains(d) by {
            assert(docs[d as int] == d);
        }
    } else {
        lemma_rank_of(docs, max_doc as nat, docs.len());
        assert(matches_docs(values.len(), s, max_doc as nat));
        let out = scattered(values, s, max_doc as nat);
        assert forall|i: int| 0 <= i < docs.len() implies out[#[trigger] docs[i] as int] == values[i] by {
            assert(s.contains(docs[i] as nat));
            assert forall|k: int| 0 <= k < i implies #[trigger] docs[k] < docs[i] by {}
            assert forall|k: int| i <= k < docs.len() implies docs[i] <= #[trigger] docs[k] by {}
            lemma_rank_of(docs, docs[i] as nat, i as nat);
        }
    }
}

/// Such an entry reads back.
proof fn lemma_blocks_entry(
    b: Seq<u8>,
    p: nat,
    docs: Seq<u32>,
    max_doc: nat,
    presence_at: nat,
    blocks: Seq<StoredBlock>,
    min: i64,
    gcd: i64,
    blocks_at: nat,
    jump: i64,
)
    requires
        docs.len() <= i64::MAX,
        presence_at + disi_bytes(docs, 9).len() <= i64::MAX,
        blocks_at + stored_from(blocks, 0).len() <= i64::MAX,
        stands_at(b, p, blocks_entry(docs.len(), docs, max_doc, presence_at, blocks, min, gcd, blocks_at, jump)),
    ensures
        parse_numeric_entry(b, p) == Ok::<(EntryModel, nat), ErrorKind>(
            (
                EntryModel {
                    presence: written_presence(docs.len(), docs, max_doc, presence_at),
                    num_values: docs.len() as i64,
                    table: None,
                    bits_per_value: 0xFF,
                    min,
                    gcd,
                    values_offset: blocks_at as i64,
                    values_length: stored_from(blocks, 0).len() as i64,
                },
                p + 72,
            ),
        ),
{
    let d = stored_from(blocks, 0).len();
    let pm = presence_meta(docs.len(), docs, max_doc, presence_at);
    let s7 = le_i64(jump);
    let s6 = le_bytes(d, 8) + s7;
    let s5 = le_bytes(blocks_at, 8) + s6;
    let s4 = le_i64(gcd) + s5;
    let s3 = le_i64(min) + s4;
    let s2 = seq![0xFFu8] + s3;
    let s1 = le_i32((-16) as i32) + s2;
    lemma_stands_split(b, p, pm, le_bytes(docs.len(), 8) + s1);
    lemma_presence(b, p, docs.len(), docs, max_doc, presence_at);
    let q = p + 19;
    lemma_stands_split(b, q, le_bytes(docs.len(), 8), s1);
    lemma_len_at(b, q, docs.len());
    lemma_stands_split(b, q + 8, le_i32((-16) as i32), s2);
    lemma_i32_at(b, q + 8, (-16) as i32);
    let r = q + 12;
    lemma_stands_split(b, r, seq![0xFFu8], s3);
    lemma_byte_at(b, r, 0xFF);
    lemma_stands_split(b, r + 1, le_i64(min), s4);
    lemma_i64_at(b, r + 1, min);
    lemma_stands_split(b, r + 9, le_i64(gcd), s5);
    lemma_i64_at(b, r + 9, gcd);
    lemma_stands_split(b, r + 17, le_bytes(blocks_at, 8), s6);
    lemma_len_at(b, r + 17, blocks_at);
    lemma_stands_split(b, r + 25, le_bytes(d, 8), s7);
    lemma_len_at(b, r + 25, d);
    lemma_i64_at(b, r + 33, jump);
}

} // verus!
