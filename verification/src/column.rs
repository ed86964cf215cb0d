//! Executors on the CPU: plans and data-file bytes to column values.
//!
//! A column is held as plain values: one slot per document, validity words
//! (lowest bit first) where some documents have no value, list offsets where
//! documents have several. Validity means "field absent for this document",
//! never deletion.

use vstd::prelude::*;
use vstd::slice::slice_subrange;
use crate::bitset::{
    empty_words, get_bit, has_bit, has_bits_from, law_rank_counts, lemma_rank_mono, members_below, rank, stands_for,
};
use crate::direct::{ceil_div, each_unpacked, for_each_unpacked, lemma_ceil_div};
use crate::disi;
use crate::disi::{disi_docs, law_disi_exact};
use crate::error::{Error, ErrorKind, Result};
use crate::plan::{BlockDecode, BlockModel, Coverage, DecodePlan, PlanModel};
use crate::read::{
    addresses_of, BinaryModel, BinaryPlan, MultiNumericModel, MultiNumericPlan, SortedModel,
    SortedPlan,
};
use crate::schema::DataType;
use crate::terms::{materialize, materialized, TermsDict};
use crate::text::text_from_slice;

verus! {

/// The bytes of a block.
pub open spec fn block_bytes_of(dvd: Seq<u8>, offset: u64, len: u64) -> std::result::Result<Seq<u8>, ErrorKind> {
    if offset + len > dvd.len() {
        Err(ErrorKind::Corrupt)
    } else {
        Ok(dvd.subrange(offset as int, offset + len))
    }
}

/// The packed numbers of a block.
pub open spec fn block_numbers(dvd: Seq<u8>, offset: u64, len: u64, bit_width: u8, values: u64) -> std::result::Result<
    Seq<u64>,
    ErrorKind,
> {
    match block_bytes_of(dvd, offset, len) {
        Err(k) => Err(k),
        Ok(b) => each_unpacked(b, bit_width, values as nat),
    }
}

/// What turns a packed number into a value.
pub enum Epilogue {
    /// `base + gcd * x`.
    Linear { base: i64, gcd: i64 },
    /// `table[x]`.
    Gather { table: Seq<i64> },
}

/// The value of a packed number.
pub open spec fn finish_value(ep: Epilogue, x: u64) -> i64 {
    match ep {
        Epilogue::Linear { base, gcd } => base.wrapping_add(gcd.wrapping_mul(x as i64)),
        Epilogue::Gather { table } => table[x as int],
    }
}

/// A packed number that has a value.
pub open spec fn finishable(ep: Epilogue, x: u64) -> bool {
    match ep {
        Epilogue::Linear { .. } => true,
        Epilogue::Gather { table } => x < table.len(),
    }
}

/// The values of packed numbers, where each has one.
pub open spec fn finished(ep: Epilogue, xs: std::result::Result<Seq<u64>, ErrorKind>) -> std::result::Result<
    Seq<i64>,
    ErrorKind,
> {
    match xs {
        Err(k) => Err(k),
        Ok(x) => if forall|i: int| 0 <= i < x.len() ==> finishable(ep, #[trigger] x[i]) {
            Ok(Seq::new(x.len(), |i: int| finish_value(ep, x[i])))
        } else {
            Err(ErrorKind::Corrupt)
        },
    }
}

/// The values of one block.
pub open spec fn block_values(block: BlockModel, dvd: Seq<u8>) -> std::result::Result<Seq<i64>, ErrorKind> {
    match block {
        BlockModel::Direct { offset, len, bit_width, values } => finished(
            Epilogue::Linear { base: 0, gcd: 1 },
            block_numbers(dvd, offset, len, bit_width, values),
        ),
        BlockModel::DeltaPacked { offset, len, bit_width, base, values } => if bit_width == 0 {
            Ok(Seq::new(values as nat, |i: int| base))
        } else {
            finished(Epilogue::Linear { base, gcd: 1 }, block_numbers(dvd, offset, len, bit_width, values))
        },
        BlockModel::GcdPacked { offset, len, bit_width, base, gcd, values } => finished(
            Epilogue::Linear { base, gcd },
            block_numbers(dvd, offset, len, bit_width, values),
        ),
        BlockModel::Table { offset, len, bit_width, table, values } => finished(
            Epilogue::Gather { table },
            block_numbers(dvd, offset, len, bit_width, values),
        ),
        _ => Err(ErrorKind::Unsupported),
    }
}

/// The values of the blocks from `i` on.
pub open spec fn stream_from(blocks: Seq<BlockModel>, i: nat, dvd: Seq<u8>) -> std::result::Result<Seq<i64>, ErrorKind>
    decreases blocks.len() - i,
{
    if i >= blocks.len() {
        Ok(Seq::empty())
    } else {
        match block_values(blocks[i as int], dvd) {
            Err(k) => Err(k),
            Ok(first) => match stream_from(blocks, i + 1, dvd) {
                Err(k) => Err(k),
                Ok(rest) => Ok(first + rest),
            },
        }
    }
}

/// The value stream of a plan.
pub open spec fn stream_values(plan: PlanModel, dvd: Seq<u8>) -> std::result::Result<Seq<i64>, ErrorKind> {
    match stream_from(plan.blocks, 0, dvd) {
        Err(k) => Err(k),
        Ok(v) => if v.len() == plan.num_values {
            Ok(v)
        } else {
            Err(ErrorKind::Corrupt)
        },
    }
}

/// The packed numbers of a block.
fn read_numbers(dvd: &[u8], offset: u64, len: u64, bit_width: u8, values: u64) -> (r: Result<Vec<u64>>)
    ensures
        match block_numbers(dvd@, offset, len, bit_width, values) {
            Ok(v) => r matches Ok(w) && w@ == v,
            Err(k) => r matches Err(e) && e.kind() == k,
        },
{
    if offset as u128 + len as u128 > dvd.len() as u128 {
        return Err(Error::corrupt("block beyond data file"));
    }
    let payload: &[u8] = slice_subrange(dvd, offset as usize, (offset + len) as usize);
    let mut out: Vec<u64> = Vec::new();
    for_each_unpacked(payload, bit_width, values, &mut out)?;
    proof {
        let v = block_numbers(dvd@, offset, len, bit_width, values)->Ok_0;
        assert(Seq::<u64>::empty() + v =~= v);
    }
    Ok(out)
}

/// Appends `base + gcd * x` for each packed number.
fn finish_linear(xs: &[u64], base: i64, gcd: i64, out: &mut Vec<i64>)
    ensures
        finished(Epilogue::Linear { base, gcd }, Ok(xs@)) matches Ok(v) && final(out)@ == old(out)@ + v,
{
    let ghost all = Seq::new(xs@.len(), |i: int| finish_value(Epilogue::Linear { base, gcd }, xs@[i]));
    let mut i: usize = 0;
    assert(out@ =~= old(out)@ + all.take(0));
    while i < xs.len()
        invariant
            i <= xs@.len(),
            all == Seq::new(xs@.len(), |i: int| finish_value(Epilogue::Linear { base, gcd }, xs@[i])),
            out@ == old(out)@ + all.take(i as int),
        decreases xs@.len() - i,
    {
        out.push(base.wrapping_add(gcd.wrapping_mul(xs[i] as i64)));
        i = i + 1;
        assert(out@ =~= old(out)@ + all.take(i as int));
    }
    assert(all.take(i as int) =~= all);
}

/// Appends the table entry of each packed number.
fn finish_gather(xs: &[u64], table: &[i64], out: &mut Vec<i64>) -> (r: Result<()>)
    ensures
        match finished(Epilogue::Gather { table: table@ }, Ok(xs@)) {
            Ok(v) => r is Ok && final(out)@ == old(out)@ + v,
            Err(k) => r matches Err(e) && e.kind() == k,
        },
{
    let ghost ep = Epilogue::Gather { table: table@ };
    let ghost all = Seq::new(xs@.len(), |i: int| finish_value(ep, xs@[i]));
    let mut i: usize = 0;
    assert(out@ =~= old(out)@ + all.take(0));
    while i < xs.len()
        invariant
            i <= xs@.len(),
            ep == (Epilogue::Gather { table: table@ }),
            all == Seq::new(xs@.len(), |i: int| finish_value(ep, xs@[i])),
            forall|k: int| 0 <= k < i ==> finishable(ep, #[trigger] xs@[k]),
            out@ == old(out)@ + all.take(i as int),
        decreases xs@.len() - i,
    {
        if xs[i] >= table.len() as u64 {
            assert(!finishable(ep, xs@[i as int]));
            return Err(Error::corrupt("table index out of range"));
        }
        out.push(table[xs[i] as usize]);
        i = i + 1;
        assert(out@ =~= old(out)@ + all.take(i as int));
    }
    assert(all.take(i as int) =~= all);
    Ok(())
}

/// One block: unpack, then the arithmetic or gathering behind it.
fn decode_block(block: &BlockDecode, dvd: &[u8], out: &mut Vec<i64>) -> (r: Result<()>)
    ensures
        match block_values(block@, dvd@) {
            Ok(v) => r is Ok && final(out)@ == old(out)@ + v,
            Err(k) => r matches Err(e) && e.kind() == k,
        },
{
    match block {
        BlockDecode::Direct { offset, len, bit_width, values } => {
            let xs: Vec<u64> = read_numbers(dvd, *offset, *len, *bit_width, *values)?;
            finish_linear(xs.as_slice(), 0, 1, out);
            Ok(())
        },
        BlockDecode::DeltaPacked { offset, len, bit_width, base, values } => {
            if *bit_width == 0 {
                let mut i: u64 = 0;
                let ghost all = Seq::new(*values as nat, |i: int| *base);
                assert(out@ =~= old(out)@ + all.take(0));
                while i < *values
                    invariant
                        i <= *values,
                        all == Seq::new(*values as nat, |i: int| *base),
                        out@ == old(out)@ + all.take(i as int),
                    decreases *values - i,
                {
                    out.push(*base);
                    i = i + 1;
                    assert(out@ =~= old(out)@ + all.take(i as int));
                }
                assert(all.take(i as int) =~= all);
                return Ok(());
            }
            let xs: Vec<u64> = read_numbers(dvd, *offset, *len, *bit_width, *values)?;
            finish_linear(xs.as_slice(), *base, 1, out);
            Ok(())
        },
        BlockDecode::GcdPacked { offset, len, bit_width, base, gcd, values } => {
            let xs: Vec<u64> = read_numbers(dvd, *offset, *len, *bit_width, *values)?;
            finish_linear(xs.as_slice(), *base, *gcd, out);
            Ok(())
        },
        BlockDecode::Table { offset, len, bit_width, table, values } => {
            let xs: Vec<u64> = read_numbers(dvd, *offset, *len, *bit_width, *values)?;
            finish_gather(xs.as_slice(), table.as_slice(), out)
        },
        _ => Err(Error::unsupported("block kind not used by numeric doc values")),
    }
}

/// Decode just the packed value stream of a plan: the building block for
/// multi-valued shapes, where positions come from an addresses sequence.
pub fn decode_values(plan: &DecodePlan, dvd: &[u8]) -> (r: Result<Vec<i64>>)
    ensures
        match stream_values(plan@, dvd@) {
            Ok(v) => r matches Ok(w) && w@ == v,
            Err(k) => r matches Err(e) && e.kind() == k,
        },
{
    let mut out: Vec<i64> = Vec::new();
    let ghost blocks = plan@.blocks;
    let ghost whole = stream_from(blocks, 0, dvd@);
    let mut i: usize = 0;
    proof {
        if whole is Ok {
            assert(Seq::<i64>::empty() + whole->Ok_0 =~= whole->Ok_0);
        }
    }
    while i < plan.blocks.len()
        invariant
            i <= plan.blocks@.len(),
            blocks == plan@.blocks,
            blocks.len() == plan.blocks@.len(),
            whole == stream_from(blocks, 0, dvd@),
            match stream_from(blocks, i as nat, dvd@) {
                Ok(rest) => whole == Ok::<Seq<i64>, ErrorKind>(out@ + rest),
                Err(k) => whole == Err::<Seq<i64>, ErrorKind>(k),
            },
        decreases plan.blocks@.len() - i,
    {
        let ghost before = out@;
        decode_block(&plan.blocks[i], dvd, &mut out)?;
        proof {
            let first = block_values(blocks[i as int], dvd@)->Ok_0;
            let rest = stream_from(blocks, i as nat + 1, dvd@);
            if rest is Ok {
                assert(before + (first + rest->Ok_0) =~= out@ + rest->Ok_0);
            }
        }
        i = i + 1;
    }
    assert(out@ + Seq::<i64>::empty() =~= out@);
    if out.len() as u64 != plan.num_values {
        return Err(Error::corrupt("blocks yielded wrong value count"));
    }
    Ok(out)
}

/// Which documents have a value; nothing where all have one.
pub open spec fn coverage_docs(coverage: Coverage, dvd: Seq<u8>) -> std::result::Result<Option<Set<nat>>, ErrorKind> {
    match coverage {
        Coverage::Dense { num_docs } => Ok(None),
        Coverage::Empty { num_docs } => Ok(Some(Set::empty())),
        Coverage::Sparse { num_docs, disi } => match block_bytes_of(dvd, disi.offset, disi.len) {
            Err(k) => Err(k),
            Ok(region) => match disi_docs(region, disi.num_values as nat, num_docs as nat, disi.dense_rank_power) {
                Err(k) => Err(k),
                Ok(s) => Ok(Some(s)),
            },
        },
    }
}

pub open spec fn num_docs_of(coverage: Coverage) -> u32 {
    match coverage {
        Coverage::Dense { num_docs } => num_docs,
        Coverage::Empty { num_docs } => num_docs,
        Coverage::Sparse { num_docs, .. } => num_docs,
    }
}

/// Validity words stand for a set of documents, or are absent where every
/// document has a value.
pub open spec fn validity_is(words: Option<Vec<u64>>, docs: Option<Set<nat>>, num_docs: nat) -> bool {
    match (words, docs) {
        (None, None) => true,
        (Some(w), Some(s)) => w@.len() == ceil_div(num_docs, 64) && stands_for(w@, s),
        _ => false,
    }
}

fn word_count(num_docs: u32) -> (r: usize)
    ensures
        r == ceil_div(num_docs as nat, 64),
        num_docs <= 64 * r,
{
    proof {
        lemma_ceil_div(num_docs as nat, 64);
    }
    (num_docs / 64) as usize + if num_docs % 64 == 0 {
        0
    } else {
        1
    }
}

/// Coverage to per-document validity; the words are absent for a dense
/// column.
fn coverage_bitmap(coverage: &Coverage, dvd: &[u8]) -> (r: Result<(u32, Option<Vec<u64>>)>)
    ensures
        match coverage_docs(*coverage, dvd@) {
            Ok(s) => r matches Ok((n, w)) && n == num_docs_of(*coverage) && validity_is(w, s, n as nat),
            Err(k) => r matches Err(e) && e.kind() == k,
        },
{
    match coverage {
        Coverage::Dense { num_docs } => Ok((*num_docs, None)),
        Coverage::Empty { num_docs } => {
            let words: Vec<u64> = empty_words(word_count(*num_docs));
            assert(stands_for(words@, Set::empty()));
            Ok((*num_docs, Some(words)))
        },
        Coverage::Sparse { num_docs, disi: d } => {
            if d.offset as u128 + d.len as u128 > dvd.len() as u128 {
                return Err(Error::corrupt("DISI range beyond data file"));
            }
            let region: &[u8] = slice_subrange(dvd, d.offset as usize, (d.offset + d.len) as usize);
            let words: Vec<u64> = disi::decode(region, d.num_values, *num_docs, d.dense_rank_power)?;
            Ok((*num_docs, Some(words)))
        },
    }
}

/// `values` at the places of their documents: the members of `s`, in order.
pub open spec fn scattered(values: Seq<i64>, s: Set<nat>, num_docs: nat) -> Seq<i64> {
    Seq::new(
        num_docs,
        |d: int|
            if s.contains(d as nat) {
                values[rank(s, d as nat) as int]
            } else {
                0
            },
    )
}

/// There is one value for each document, and no document beyond the last.
pub open spec fn matches_docs(n: nat, s: Set<nat>, num_docs: nat) -> bool {
    &&& rank(s, num_docs) == n
    &&& forall|d: nat| #[trigger] s.contains(d) ==> d < num_docs
}

/// Puts each value at the place of its document.
fn scatter(values: &[i64], words: &[u64], num_docs: u32, s: Ghost<Set<nat>>) -> (r: Result<Vec<i64>>)
    requires
        stands_for(words@, s@),
        forall|d: nat| #[trigger] s@.contains(d) ==> d < num_docs,
    ensures
        matches_docs(values@.len(), s@, num_docs as nat) ==> (r matches Ok(v) && v@ == scattered(
            values@,
            s@,
            num_docs as nat,
        )),
        !matches_docs(values@.len(), s@, num_docs as nat) ==> (r matches Err(e) && e.kind() == ErrorKind::Corrupt),
{
    let mut out: Vec<i64> = Vec::new();
    let mut v: usize = 0;
    let mut d: u32 = 0;
    while d < num_docs
        invariant
            d <= num_docs,
            stands_for(words@, s@),
            v == rank(s@, d as nat),
            v <= values@.len(),
            out@ == scattered(values@, s@, d as nat),
        decreases num_docs - d,
    {
        assert(has_bit(words@, d as nat) == s@.contains(d as nat));
        if get_bit(words, d as usize) {
            if v >= values.len() {
                proof {
                    lemma_rank_mono(s@, d as nat + 1, num_docs as nat);
                }
                return Err(Error::corrupt("more documents than decoded values"));
            }
            out.push(values[v]);
            v = v + 1;
        } else {
            out.push(0);
        }
        d = d + 1;
        assert(out@ =~= scattered(values@, s@, d as nat));
    }
    if v != values.len() {
        return Err(Error::corrupt("fewer documents than decoded values"));
    }
    Ok(out)
}

/// A numeric column: one slot per document, zero where there is no value.
#[derive(Debug)]
pub struct NumericColumn {
    pub values: Vec<i64>,
    /// Absent where every document has a value.
    pub validity: Option<Vec<u64>>,
    /// The values are the bits of doubles.
    pub float: bool,
}

/// A numeric column as mathematical values.
pub struct NumericColumnModel {
    pub values: Seq<i64>,
    pub docs: Option<Set<nat>>,
    pub float: bool,
}

/// An executed column holds what the model says.
pub open spec fn numeric_column_is(c: NumericColumn, m: NumericColumnModel) -> bool {
    &&& c.values@ == m.values
    &&& validity_is(c.validity, m.docs, m.values.len())
    &&& c.float == m.float
}

/// The slots of a column whose coverage names the documents `docs`.
pub open spec fn slots(values: Seq<i64>, docs: Option<Set<nat>>, coverage: Coverage) -> std::result::Result<
    Seq<i64>,
    ErrorKind,
> {
    let num_docs = num_docs_of(coverage) as nat;
    match coverage {
        Coverage::Empty { .. } => Ok(Seq::new(num_docs, |i: int| 0i64)),
        Coverage::Dense { .. } => if values.len() == num_docs {
            Ok(values)
        } else {
            Err(ErrorKind::Corrupt)
        },
        Coverage::Sparse { .. } => if matches_docs(values.len(), docs->0, num_docs) {
            Ok(scattered(values, docs->0, num_docs))
        } else {
            Err(ErrorKind::Corrupt)
        },
    }
}

/// The column that a numeric plan stands for.
pub open spec fn numeric_column(plan: PlanModel, dvd: Seq<u8>) -> std::result::Result<NumericColumnModel, ErrorKind> {
    match stream_values(plan, dvd) {
        Err(k) => Err(k),
        Ok(values) => match coverage_docs(plan.coverage, dvd) {
            Err(k) => Err(k),
            Ok(docs) => match slots(values, docs, plan.coverage) {
                Err(k) => Err(k),
                Ok(s) => match plan.arrow_type {
                    DataType::Int64 => Ok(NumericColumnModel { values: s, docs, float: false }),
                    DataType::Float64 => Ok(NumericColumnModel { values: s, docs, float: true }),
                    _ => Err(ErrorKind::Unsupported),
                },
            },
        },
    }
}

/// The slots of a column.
fn fill_slots(values: Vec<i64>, words: &Option<Vec<u64>>, coverage: &Coverage, docs: Ghost<Option<Set<nat>>>) -> (r: Result<
    Vec<i64>,
>)
    requires
        validity_is(*words, docs@, num_docs_of(*coverage) as nat),
        coverage is Dense <==> docs@ is None,
        *coverage is Sparse ==> forall|d: nat| #[trigger] (docs@->0).contains(d) ==> d < num_docs_of(*coverage),
    ensures
        match slots(values@, docs@, *coverage) {
            Ok(v) => r matches Ok(w) && w@ == v,
            Err(k) => r matches Err(e) && e.kind() == k,
        },
{
    match coverage {
        Coverage::Dense { num_docs } => {
            if values.len() as u64 != *num_docs as u64 {
                return Err(Error::corrupt("dense column: value count differs from document count"));
            }
            Ok(values)
        },
        Coverage::Empty { num_docs } => {
            let n: u32 = *num_docs;
            let mut out: Vec<i64> = Vec::new();
            let mut i: u32 = 0;
            while i < n
                invariant
                    i <= n,
                    out@ == Seq::new(i as nat, |i: int| 0i64),
                decreases n - i,
            {
                out.push(0);
                i = i + 1;
                assert(out@ =~= Seq::new(i as nat, |i: int| 0i64));
            }
            Ok(out)
        },
        Coverage::Sparse { num_docs, .. } => match words {
            Some(w) => scatter(values.as_slice(), w.as_slice(), *num_docs, Ghost(docs@->0)),
            None => Err(Error::corrupt("missing validity")),
        },
    }
}

/// The documents of a sparse coverage are documents of the segment.
proof fn lemma_coverage_below(coverage: Coverage, dvd: Seq<u8>)
    ensures
        coverage is Sparse ==> (coverage_docs(coverage, dvd) matches Ok(docs) ==> forall|d: nat| #[trigger]
            (docs->0).contains(d) ==> d < num_docs_of(coverage)),
{
    if let Coverage::Sparse { num_docs, disi } = coverage {
        if let Ok(region) = block_bytes_of(dvd, disi.offset, disi.len) {
            law_disi_exact(region, disi.num_values as nat, num_docs as nat, disi.dense_rank_power);
        }
    }
}

/// Decode a numeric doc-values plan against the full data-file bytes. The
/// output has one slot per document; sparse coverage becomes validity.
pub fn decode_numeric(plan: &DecodePlan, dvd: &[u8]) -> (r: Result<NumericColumn>)
    ensures
        match numeric_column(plan@, dvd@) {
            Ok(m) => r matches Ok(c) && numeric_column_is(c, m),
            Err(k) => r matches Err(e) && e.kind() == k,
        },
{
    let stream: Vec<i64> = decode_values(plan, dvd)?;
    let (num_docs, validity): (u32, Option<Vec<u64>>) = coverage_bitmap(&plan.coverage, dvd)?;
    let ghost docs = coverage_docs(plan.coverage, dvd@)->Ok_0;
    proof {
        lemma_coverage_below(plan.coverage, dvd@);
    }
    let values: Vec<i64> = fill_slots(stream, &validity, &plan.coverage, Ghost(docs))?;
    match plan.arrow_type {
        DataType::Int64 => Ok(NumericColumn { values, validity, float: false }),
        DataType::Float64 => Ok(NumericColumn { values, validity, float: true }),
        _ => Err(Error::unsupported("numeric decode into this type")),
    }
}

/// Which entry of an addresses sequence says where the list of document `d`
/// ends: the one behind all documents with a value up to it.
pub open spec fn end_index(docs: Option<Set<nat>>, d: nat) -> nat {
    match docs {
        None => d + 1,
        Some(s) => rank(s, d + 1),
    }
}

/// Where the list of document `d` ends; zero where no address says so.
pub open spec fn list_end(addresses: Seq<i64>, docs: Option<Set<nat>>, d: nat) -> i64 {
    if end_index(docs, d) < addresses.len() {
        addresses[end_index(docs, d) as int]
    } else {
        0
    }
}

/// Where the list of document `d` starts: where the one before it ends.
pub open spec fn list_start(addresses: Seq<i64>, docs: Option<Set<nat>>, d: nat) -> i64 {
    if d == 0 {
        0
    } else {
        list_end(addresses, docs, (d - 1) as nat)
    }
}

/// The list of document `d` can be addressed: it does not end before it
/// starts, nor beyond what an offset can say.
pub open spec fn list_fits(addresses: Seq<i64>, docs: Option<Set<nat>>, d: nat, every: bool) -> bool {
    &&& list_start(addresses, docs, d) <= list_end(addresses, docs, d) <= i32::MAX
    &&& every ==> end_index(docs, d) < addresses.len()
}

/// Per-document list offsets from one address per document with a value.
/// With `every`, each document must find its address.
pub open spec fn list_offsets(num_docs: nat, docs: Option<Set<nat>>, addresses: Seq<i64>, every: bool) -> std::result::Result<
    Seq<i32>,
    ErrorKind,
> {
    if docs is None && addresses.len() != num_docs + 1 {
        Err(ErrorKind::Corrupt)
    } else if forall|d: nat| d < num_docs ==> #[trigger] list_fits(addresses, docs, d, every) {
        Ok(Seq::new(num_docs + 1, |d: int| list_start(addresses, docs, d as nat) as i32))
    } else {
        Err(ErrorKind::Corrupt)
    }
}

/// Per-document list offsets.
fn doc_offsets(
    num_docs: u32,
    words: &Option<Vec<u64>>,
    addresses: &[i64],
    every: bool,
    docs: Ghost<Option<Set<nat>>>,
) -> (r: Result<Vec<i32>>)
    requires
        validity_is(*words, docs@, num_docs as nat),
    ensures
        match list_offsets(num_docs as nat, docs@, addresses@, every) {
            Ok(v) => r matches Ok(w) && w@ == v,
            Err(k) => r matches Err(e) && e.kind() == k,
        },
{
    if words.is_none() && addresses.len() as u64 != num_docs as u64 + 1 {
        return Err(Error::corrupt("dense addresses count differs from document count"));
    }
    let mut offsets: Vec<i32> = Vec::new();
    offsets.push(0);
    // Documents with a value seen so far, which is the place of their address.
    let mut seen: usize = 0;
    let mut last: i64 = 0;
    let mut d: u32 = 0;
    let ghost all = Seq::new(num_docs as nat + 1, |d: int| list_start(addresses@, docs@, d as nat) as i32);
    while d < num_docs
        invariant
            d <= num_docs,
            validity_is(*words, docs@, num_docs as nat),
            docs@ is None ==> addresses@.len() == num_docs + 1,
            all == Seq::new(num_docs as nat + 1, |d: int| list_start(addresses@, docs@, d as nat) as i32),
            seen == (match docs@ {
                None => d as nat,
                Some(s) => rank(s, d as nat),
            }),
            seen <= d,
            last == list_start(addresses@, docs@, d as nat),
            0 <= last <= i32::MAX,
            forall|e: nat| e < d ==> #[trigger] list_fits(addresses@, docs@, e, every),
            offsets@ == all.take(d + 1),
        decreases num_docs - d,
    {
        let present: bool = match words {
            None => true,
            Some(w) => {
                assert(has_bit(w@, d as nat) == docs@->0.contains(d as nat));
                get_bit(w.as_slice(), d as usize)
            },
        };
        if present {
            seen = seen + 1;
        }
        assert(seen == end_index(docs@, d as nat));
        let end: i64 = if seen < addresses.len() {
            addresses[seen]
        } else {
            if every {
                assert(!list_fits(addresses@, docs@, d as nat, every));
                return Err(Error::corrupt("more documents than addresses"));
            }
            0
        };
        if end < last || end > 0x7FFF_FFFF {
            assert(!list_fits(addresses@, docs@, d as nat, every));
            return Err(Error::corrupt("offsets out of order or beyond i32::MAX"));
        }
        offsets.push(end as i32);
        last = end;
        d = d + 1;
        assert(offsets@ =~= all.take(d + 1));
    }
    assert(all.take(num_docs + 1) =~= all);
    Ok(offsets)
}

/// A list column: the items of all documents, and where each document's
/// start and end.
#[derive(Debug)]
pub struct ListColumn {
    pub values: Vec<i64>,
    pub offsets: Vec<i32>,
    pub validity: Option<Vec<u64>>,
}

pub struct ListColumnModel {
    pub values: Seq<i64>,
    pub offsets: Seq<i32>,
    pub docs: Option<Set<nat>>,
}

pub open spec fn list_column_is(c: ListColumn, m: ListColumnModel) -> bool {
    &&& c.values@ == m.values
    &&& c.offsets@ == m.offsets
    &&& validity_is(c.validity, m.docs, (m.offsets.len() - 1) as nat)
}

/// The column that a multi-valued numeric plan stands for.
pub open spec fn multi_numeric_column(plan: MultiNumericModel, dvd: Seq<u8>) -> std::result::Result<
    ListColumnModel,
    ErrorKind,
> {
    match stream_values(plan.values, dvd) {
        Err(k) => Err(k),
        Ok(values) => match addresses_of(plan.addresses, dvd) {
            Err(k) => Err(k),
            Ok(addresses) => match coverage_docs(plan.values.coverage, dvd) {
                Err(k) => Err(k),
                Ok(docs) => match list_offsets(num_docs_of(plan.values.coverage) as nat, docs, addresses, false) {
                    Err(k) => Err(k),
                    Ok(offsets) => if offsets.last() > values.len() {
                        Err(ErrorKind::Corrupt)
                    } else {
                        Ok(ListColumnModel { values, offsets, docs })
                    },
                },
            },
        },
    }
}

/// Decode a multi-valued SORTED_NUMERIC column; values within a document
/// come back in sorted order.
pub fn decode_multi_numeric(plan: &MultiNumericPlan, dvd: &[u8]) -> (r: Result<ListColumn>)
    ensures
        match multi_numeric_column(plan@, dvd@) {
            Ok(m) => r matches Ok(c) && list_column_is(c, m),
            Err(k) => r matches Err(e) && e.kind() == k,
        },
{
    let values: Vec<i64> = decode_values(&plan.values, dvd)?;
    let addresses: Vec<i64> = plan.addresses.decode(dvd)?;
    let (num_docs, validity): (u32, Option<Vec<u64>>) = coverage_bitmap(&plan.values.coverage, dvd)?;
    let ghost docs = coverage_docs(plan.values.coverage, dvd@)->Ok_0;
    let offsets: Vec<i32> = doc_offsets(num_docs, &validity, addresses.as_slice(), false, Ghost(docs))?;
    proof {
        lemma_offsets_start(num_docs as nat, docs, addresses@, false);
    }
    if offsets[offsets.len() - 1] as u64 > values.len() as u64 {
        return Err(Error::corrupt("list offset beyond the values"));
    }
    Ok(ListColumn { values, offsets, validity })
}

/// Offsets start at zero and never fall.
pub proof fn lemma_offsets_start(num_docs: nat, docs: Option<Set<nat>>, addresses: Seq<i64>, every: bool)
    ensures
        list_offsets(num_docs, docs, addresses, every) matches Ok(o) ==> {
            &&& o.len() == num_docs + 1
            &&& forall|d: int| 0 <= d < o.len() ==> 0 <= #[trigger] o[d]
            &&& forall|d: int| 0 <= d < num_docs ==> #[trigger] o[d] <= o[d + 1]
        },
{
    if list_offsets(num_docs, docs, addresses, every) is Ok {
        let o = list_offsets(num_docs, docs, addresses, every)->Ok_0;
        assert forall|d: int| 0 <= d < o.len() implies 0 <= #[trigger] o[d] && list_start(
            addresses,
            docs,
            d as nat,
        ) == o[d] by {
            lemma_list_start(num_docs, docs, addresses, every, d as nat);
        }
        assert forall|d: int| 0 <= d < num_docs implies #[trigger] o[d] <= o[d + 1] by {
            assert(list_fits(addresses, docs, d as nat, every));
            assert(o[d + 1] == list_start(addresses, docs, (d + 1) as nat));
        }
    }
}

proof fn lemma_list_start(num_docs: nat, docs: Option<Set<nat>>, addresses: Seq<i64>, every: bool, d: nat)
    requires
        forall|d: nat| d < num_docs ==> #[trigger] list_fits(addresses, docs, d, every),
        d <= num_docs,
    ensures
        0 <= list_start(addresses, docs, d) <= i32::MAX,
    decreases d,
{
    if d > 0 {
        lemma_list_start(num_docs, docs, addresses, every, (d - 1) as nat);
        assert(list_fits(addresses, docs, (d - 1) as nat, every));
    }
}

/// A binary column: the bytes of all documents, and where each document's
/// start and end.
#[derive(Debug)]
pub struct BinaryColumn {
    pub bytes: Vec<u8>,
    pub offsets: Vec<i32>,
    pub validity: Option<Vec<u64>>,
}

pub struct BinaryColumnModel {
    pub bytes: Seq<u8>,
    pub offsets: Seq<i32>,
    pub docs: Option<Set<nat>>,
}

pub open spec fn binary_column_is(c: BinaryColumn, m: BinaryColumnModel) -> bool {
    &&& c.bytes@ == m.bytes
    &&& c.offsets@ == m.offsets
    &&& validity_is(c.validity, m.docs, (m.offsets.len() - 1) as nat)
}

/// Where the values of a binary plan start: at multiples of their length, or
/// where the addresses say.
pub open spec fn value_offsets(plan: BinaryModel, dvd: Seq<u8>) -> std::result::Result<Seq<i64>, ErrorKind> {
    match plan.addresses {
        None => Ok(
            Seq::new(plan.num_docs_with_field as nat + 1, |i: int| (i * plan.min_length) as i64),
        ),
        Some(a) => addresses_of(a, dvd),
    }
}

/// The column that a binary plan stands for.
pub open spec fn binary_column(plan: BinaryModel, dvd: Seq<u8>) -> std::result::Result<BinaryColumnModel, ErrorKind> {
    match block_bytes_of(dvd, plan.data_offset, plan.data_len) {
        Err(k) => Err(k),
        Ok(bytes) => match coverage_docs(plan.coverage, dvd) {
            Err(k) => Err(k),
            Ok(docs) => match value_offsets(plan, dvd) {
                Err(k) => Err(k),
                Ok(starts) => if starts.len() != plan.num_docs_with_field + 1 {
                    Err(ErrorKind::Corrupt)
                } else {
                    match list_offsets(num_docs_of(plan.coverage) as nat, docs, starts, true) {
                        Err(k) => Err(k),
                        Ok(offsets) => if offsets.last() > bytes.len() {
                            Err(ErrorKind::Arrow)
                        } else {
                            Ok(BinaryColumnModel { bytes, offsets, docs })
                        },
                    }
                },
            },
        },
    }
}

fn read_value_offsets(plan: &BinaryPlan, dvd: &[u8]) -> (r: Result<Vec<i64>>)
    ensures
        match value_offsets(plan@, dvd@) {
            Ok(v) => r matches Ok(w) && w@ == v,
            Err(k) => r matches Err(e) && e.kind() == k,
        },
{
    match &plan.addresses {
        Some(a) => a.decode(dvd),
        None => {
            let n: u64 = plan.num_docs_with_field as u64 + 1;
            let mut out: Vec<i64> = Vec::new();
            let mut i: u64 = 0;
            while i < n
                invariant
                    i <= n <= 0x1_0000_0000,
                    n == plan.num_docs_with_field + 1,
                    out@ == Seq::new(i as nat, |i: int| (i * plan.min_length) as i64),
                decreases n - i,
            {
                assert(i * plan.min_length <= 0xFFFF_FFFF * 0xFFFF_FFFF) by (nonlinear_arith)
                    requires
                        i <= 0xFFFF_FFFF,
                        plan.min_length <= 0xFFFF_FFFF,
                ;
                out.push((i * plan.min_length as u64) as i64);
                i = i + 1;
                assert(out@ =~= Seq::new(i as nat, |i: int| (i * plan.min_length) as i64));
            }
            Ok(out)
        },
    }
}

/// Decode a BINARY column: values concatenated in document order;
/// fixed-length, or cut where the addresses say.
pub fn decode_binary(plan: &BinaryPlan, dvd: &[u8]) -> (r: Result<BinaryColumn>)
    ensures
        match binary_column(plan@, dvd@) {
            Ok(m) => r matches Ok(c) && binary_column_is(c, m),
            Err(k) => r matches Err(e) && e.kind() == k,
        },
{
    if plan.data_offset as u128 + plan.data_len as u128 > dvd.len() as u128 {
        return Err(Error::corrupt("binary data region beyond file"));
    }
    let region: &[u8] = slice_subrange(dvd, plan.data_offset as usize, (plan.data_offset + plan.data_len) as usize);
    let (num_docs, validity): (u32, Option<Vec<u64>>) = coverage_bitmap(&plan.coverage, dvd)?;
    let ghost docs = coverage_docs(plan.coverage, dvd@)->Ok_0;
    let starts: Vec<i64> = read_value_offsets(plan, dvd)?;
    if starts.len() as u64 != plan.num_docs_with_field as u64 + 1 {
        return Err(Error::corrupt("binary addresses count mismatch"));
    }
    let offsets: Vec<i32> = doc_offsets(num_docs, &validity, starts.as_slice(), true, Ghost(docs))?;
    proof {
        lemma_offsets_start(num_docs as nat, docs, starts@, true);
    }
    if offsets[offsets.len() - 1] as u64 > region.len() as u64 {
        return Err(Error::Arrow("binary offset beyond the values".to_owned()));
    }
    Ok(BinaryColumn { bytes: vstd::slice::slice_to_vec(region), offsets, validity })
}

/// A dictionary column: the dictionary, and the keys of documents or, with
/// offsets, of the items of their lists.
#[derive(Debug)]
pub struct DictColumn {
    pub dict: TermsDict,
    /// Every term is UTF-8 text.
    pub text: bool,
    pub keys: Vec<i32>,
    /// Present exactly if documents have lists.
    pub offsets: Option<Vec<i32>>,
    pub validity: Option<Vec<u64>>,
}

pub struct DictColumnModel {
    pub terms: Seq<Seq<u8>>,
    pub keys: Seq<i32>,
    pub offsets: Option<Seq<i32>>,
    pub docs: Option<Set<nat>>,
    pub num_docs: nat,
}

/// Every term is UTF-8 text.
pub open spec fn all_text(terms: Seq<Seq<u8>>) -> bool {
    forall|i: int| 0 <= i < terms.len() ==> vstd::utf8::valid_utf8(#[trigger] terms[i])
}

pub open spec fn dict_column_is(c: DictColumn, m: DictColumnModel) -> bool {
    &&& c.dict.valid()
    &&& c.dict.terms() == m.terms
    &&& c.text == all_text(m.terms)
    &&& c.keys@ == m.keys
    &&& match (c.offsets, m.offsets) {
        (Some(v), Some(o)) => v@ == o,
        (None, None) => true,
        _ => false,
    }
    &&& validity_is(c.validity, m.docs, m.num_docs)
}

/// An ordinal that a key can hold.
pub open spec fn key_fits(ord: i64) -> bool {
    i32::MIN <= ord <= i32::MAX
}

/// The first `n` ordinals as keys.
pub open spec fn keys_of(ords: Seq<i64>, n: nat) -> Seq<i32> {
    Seq::new(n, |i: int| ords[i] as i32)
}

/// The first `n` ordinals can be keys.
pub open spec fn keys_fit(ords: Seq<i64>, n: nat) -> bool {
    forall|i: int| 0 <= i < n ==> key_fits(#[trigger] ords[i])
}

/// One key per document: that of its ordinal, zero where it has none.
pub open spec fn scattered_keys(ords: Seq<i64>, docs: Option<Set<nat>>, num_docs: nat) -> std::result::Result<
    Seq<i32>,
    ErrorKind,
> {
    match docs {
        None => if ords.len() == num_docs && keys_fit(ords, num_docs) {
            Ok(keys_of(ords, num_docs))
        } else {
            Err(ErrorKind::Corrupt)
        },
        Some(s) => if rank(s, num_docs) <= ords.len() && keys_fit(ords, rank(s, num_docs)) && (forall|d: nat| #[trigger]
            s.contains(d) ==> d < num_docs) {
            Ok(
                Seq::new(
                    num_docs,
                    |d: int|
                        if s.contains(d as nat) {
                            ords[rank(s, d as nat) as int] as i32
                        } else {
                            0
                        },
                ),
            )
        } else {
            Err(ErrorKind::Corrupt)
        },
    }
}

/// Every key that counts names a term.
pub open spec fn keys_in_range(keys: Seq<i32>, docs: Option<Set<nat>>, num_terms: nat) -> bool {
    forall|i: int|
        0 <= i < keys.len() && (docs matches Some(s) ==> s.contains(i as nat)) ==> 0 <= #[trigger] keys[i] < num_terms
}

/// The keys of a single-valued column.
pub open spec fn single_keys(ords: Seq<i64>, docs: Option<Set<nat>>, num_docs: nat, terms: Seq<Seq<u8>>) -> std::result::Result<
    DictColumnModel,
    ErrorKind,
> {
    match scattered_keys(ords, docs, num_docs) {
        Err(k) => Err(k),
        Ok(keys) => if keys_in_range(keys, docs, terms.len()) {
            Ok(DictColumnModel { terms, keys, offsets: None, docs, num_docs })
        } else {
            Err(ErrorKind::Arrow)
        },
    }
}

/// The keys and offsets of a multi-valued column.
pub open spec fn multi_keys(
    ords: Seq<i64>,
    docs: Option<Set<nat>>,
    num_docs: nat,
    terms: Seq<Seq<u8>>,
    addresses: Seq<i64>,
) -> std::result::Result<DictColumnModel, ErrorKind> {
    match list_offsets(num_docs, docs, addresses, false) {
        Err(k) => Err(k),
        Ok(offsets) => if !keys_fit(ords, ords.len()) {
            Err(ErrorKind::Corrupt)
        } else if !keys_in_range(keys_of(ords, ords.len()), None, terms.len()) {
            Err(ErrorKind::Arrow)
        } else if offsets.last() > ords.len() {
            Err(ErrorKind::Corrupt)
        } else {
            Ok(
                DictColumnModel {
                    terms,
                    keys: keys_of(ords, ords.len()),
                    offsets: Some(offsets),
                    docs,
                    num_docs,
                },
            )
        },
    }
}

/// The column that a sorted plan stands for.
pub open spec fn sorted_column(plan: SortedModel, dvd: Seq<u8>) -> std::result::Result<DictColumnModel, ErrorKind> {
    match materialized(plan.terms, dvd) {
        Err(k) => Err(k),
        Ok(terms) => match coverage_docs(plan.ords.coverage, dvd) {
            Err(k) => Err(k),
            Ok(docs) => match stream_values(plan.ords, dvd) {
                Err(k) => Err(k),
                Ok(ords) => {
                    let num_docs = num_docs_of(plan.ords.coverage) as nat;
                    match plan.addresses {
                        None => single_keys(ords, docs, num_docs, terms),
                        Some(a) => match addresses_of(a, dvd) {
                            Err(k) => Err(k),
                            Ok(addresses) => multi_keys(ords, docs, num_docs, terms, addresses),
                        },
                    }
                },
            },
        },
    }
}

/// Whether every term is UTF-8 text.
fn is_text(dict: &TermsDict) -> (r: bool)
    requires
        dict.valid(),
    ensures
        r == all_text(dict.terms()),
{
    let mut i: usize = 0;
    while i < dict.len()
        invariant
            dict.valid(),
            i <= dict.terms().len(),
            forall|k: int| 0 <= k < i ==> vstd::utf8::valid_utf8(#[trigger] dict.terms()[k]),
        decreases dict.terms().len() - i,
    {
        match text_from_slice(dict.term(i)) {
            Ok(_) => {},
            Err(_) => {
                assert(!vstd::utf8::valid_utf8(dict.terms()[i as int]));
                return false;
            },
        }
        i = i + 1;
    }
    true
}

/// The first `n` ordinals as keys.
fn make_keys(ords: &[i64], n: usize) -> (r: Option<Vec<i32>>)
    requires
        n <= ords@.len(),
    ensures
        match r {
            Some(v) => keys_fit(ords@, n as nat) && v@ == keys_of(ords@, n as nat),
            None => !keys_fit(ords@, n as nat),
        },
{
    let mut keys: Vec<i32> = Vec::new();
    let mut i: usize = 0;
    while i < n
        invariant
            i <= n <= ords@.len(),
            keys_fit(ords@, i as nat),
            keys@ == keys_of(ords@, i as nat),
        decreases n - i,
    {
        if ords[i] < -0x8000_0000 || ords[i] > 0x7FFF_FFFF {
            assert(!key_fits(ords@[i as int]));
            return None;
        }
        keys.push(ords[i] as i32);
        i = i + 1;
        assert(keys@ =~= keys_of(ords@, i as nat));
    }
    Some(keys)
}

/// One key per document.
fn scatter_keys(ords: &[i64], words: &Option<Vec<u64>>, num_docs: u32, docs: Ghost<Option<Set<nat>>>) -> (r: Result<
    Vec<i32>,
>)
    requires
        validity_is(*words, docs@, num_docs as nat),
    ensures
        match scattered_keys(ords@, docs@, num_docs as nat) {
            Ok(v) => r matches Ok(w) && w@ == v,
            Err(k) => r matches Err(e) && e.kind() == k,
        },
{
    let w: &Vec<u64> = match words {
        None => {
            if ords.len() as u64 != num_docs as u64 {
                return Err(Error::corrupt("dense ordinal count differs from document count"));
            }
            return match make_keys(ords, ords.len()) {
                Some(keys) => Ok(keys),
                None => Err(Error::corrupt("ordinal beyond i32")),
            };
        },
        Some(w) => w,
    };
    let ghost s = docs@->0;
    let mut out: Vec<i32> = Vec::new();
    let mut v: usize = 0;
    let mut d: u32 = 0;
    let ghost all = Seq::new(
        num_docs as nat,
        |d: int|
            if s.contains(d as nat) {
                ords@[rank(s, d as nat) as int] as i32
            } else {
                0
            },
    );
    while d < num_docs
        invariant
            d <= num_docs,
            docs@ == Some(s),
            stands_for(w@, s),
            all == Seq::new(
                num_docs as nat,
                |d: int|
                    if s.contains(d as nat) {
                        ords@[rank(s, d as nat) as int] as i32
                    } else {
                        0
                    },
            ),
            v == rank(s, d as nat),
            v <= ords@.len(),
            keys_fit(ords@, v as nat),
            out@ == all.take(d as int),
        decreases num_docs - d,
    {
        assert(has_bit(w@, d as nat) == s.contains(d as nat));
        if get_bit(w.as_slice(), d as usize) {
            proof {
                lemma_rank_mono(s, d as nat + 1, num_docs as nat);
            }
            if v >= ords.len() {
                return Err(Error::corrupt("more documents than ordinals"));
            }
            if ords[v] < -0x8000_0000 || ords[v] > 0x7FFF_FFFF {
                assert(!key_fits(ords@[v as int]));
                return Err(Error::corrupt("ordinal beyond i32"));
            }
            out.push(ords[v] as i32);
            v = v + 1;
        } else {
            out.push(0);
        }
        d = d + 1;
        assert(out@ =~= all.take(d as int));
    }
    if has_bits_from(w.as_slice(), num_docs) {
        assert(exists|d: nat| num_docs <= d && #[trigger] s.contains(d)) by {
            let e = choose|e: nat| num_docs <= e && #[trigger] has_bit(w@, e);
            assert(s.contains(e));
        }
        return Err(Error::corrupt("documents beyond max_doc"));
    }
    assert forall|d: nat| #[trigger] s.contains(d) implies d < num_docs by {
        assert(has_bit(w@, d));
    }
    assert(all.take(num_docs as int) =~= all);
    Ok(out)
}

/// Whether every key that counts names a term.
fn check_keys(keys: &[i32], words: Option<&Vec<u64>>, num_terms: usize, docs: Ghost<Option<Set<nat>>>) -> (r: bool)
    requires
        match (words, docs@) {
            (None, None) => true,
            (Some(w), Some(s)) => stands_for(w@, s),
            _ => false,
        },
    ensures
        r == keys_in_range(keys@, docs@, num_terms as nat),
{
    let mut i: usize = 0;
    while i < keys.len()
        invariant
            i <= keys@.len(),
            match (words, docs@) {
                (None, None) => true,
                (Some(w), Some(s)) => stands_for(w@, s),
                _ => false,
            },
            forall|k: int|
                0 <= k < i && (docs@ matches Some(s) ==> s.contains(k as nat)) ==> 0 <= #[trigger] keys@[k] < num_terms,
        decreases keys@.len() - i,
    {
        let counts: bool = match words {
            None => true,
            Some(w) => {
                assert(has_bit(w@, i as nat) == docs@->0.contains(i as nat));
                get_bit(w.as_slice(), i)
            },
        };
        if counts && (keys[i] < 0 || keys[i] as u64 >= num_terms as u64) {
            assert(!(0 <= keys@[i as int] < num_terms));
            return false;
        }
        i = i + 1;
    }
    true
}

/// The column of one ordinal per document.
fn single_column(
    dict: TermsDict,
    ords: &[i64],
    validity: Option<Vec<u64>>,
    num_docs: u32,
    docs: Ghost<Option<Set<nat>>>,
) -> (r: Result<DictColumn>)
    requires
        dict.valid(),
        validity_is(validity, docs@, num_docs as nat),
    ensures
        match single_keys(ords@, docs@, num_docs as nat, dict.terms()) {
            Ok(m) => r matches Ok(c) && dict_column_is(c, m),
            Err(k) => r matches Err(e) && e.kind() == k,
        },
{
    let keys: Vec<i32> = scatter_keys(ords, &validity, num_docs, docs)?;
    if !check_keys(keys.as_slice(), validity.as_ref(), dict.len(), docs) {
        return Err(Error::Arrow("dictionary key out of range".to_owned()));
    }
    let text: bool = is_text(&dict);
    Ok(DictColumn { dict, text, keys, offsets: None, validity })
}

/// The column of a list of ordinals per document.
fn multi_column(
    dict: TermsDict,
    ords: &[i64],
    addresses: &[i64],
    validity: Option<Vec<u64>>,
    num_docs: u32,
    docs: Ghost<Option<Set<nat>>>,
) -> (r: Result<DictColumn>)
    requires
        dict.valid(),
        validity_is(validity, docs@, num_docs as nat),
    ensures
        match multi_keys(ords@, docs@, num_docs as nat, dict.terms(), addresses@) {
            Ok(m) => r matches Ok(c) && dict_column_is(c, m),
            Err(k) => r matches Err(e) && e.kind() == k,
        },
{
    let offsets: Vec<i32> = doc_offsets(num_docs, &validity, addresses, false, docs)?;
    proof {
        lemma_offsets_start(num_docs as nat, docs@, addresses@, false);
    }
    let keys: Vec<i32> = match make_keys(ords, ords.len()) {
        Some(keys) => keys,
        None => {
            return Err(Error::corrupt("ordinal beyond i32"));
        },
    };
    if !check_keys(keys.as_slice(), None, dict.len(), Ghost(None)) {
        return Err(Error::Arrow("dictionary key out of range".to_owned()));
    }
    if offsets[offsets.len() - 1] as u64 > ords.len() as u64 {
        return Err(Error::corrupt("list offset beyond the ordinals"));
    }
    let text: bool = is_text(&dict);
    Ok(DictColumn { dict, text, keys, offsets: Some(offsets), validity })
}

/// Decode a SORTED or SORTED_SET column with its own dictionary.
pub fn decode_sorted(plan: &SortedPlan, dvd: &[u8]) -> (r: Result<DictColumn>)
    ensures
        match sorted_column(plan@, dvd@) {
            Ok(m) => r matches Ok(c) && dict_column_is(c, m),
            Err(k) => r matches Err(e) && e.kind() == k,
        },
{
    let dict: TermsDict = materialize(&plan.terms, dvd)?;
    let (num_docs, validity): (u32, Option<Vec<u64>>) = coverage_bitmap(&plan.ords.coverage, dvd)?;
    let ghost docs = coverage_docs(plan.ords.coverage, dvd@)->Ok_0;
    let ords: Vec<i64> = decode_values(&plan.ords, dvd)?;
    match &plan.addresses {
        None => single_column(dict, ords.as_slice(), validity, num_docs, Ghost(docs)),
        Some(a) => {
            let addresses: Vec<i64> = a.decode(dvd)?;
            multi_column(dict, ords.as_slice(), addresses.as_slice(), validity, num_docs, Ghost(docs))
        },
    }
}

/// A column of vectors of one length: the bytes of their items, row by row,
/// zeros where a document has none.
#[derive(Debug)]
pub struct VectorColumn {
    pub bytes: Vec<u8>,
    pub dimension: i32,
    /// Bytes per item: four for floats, one for bytes.
    pub width: u8,
    pub validity: Option<Vec<u64>>,
}

pub struct VectorColumnModel {
    pub bytes: Seq<u8>,
    pub dimension: i32,
    pub width: u8,
    pub docs: Option<Set<nat>>,
    pub num_docs: nat,
}

pub open spec fn vector_column_is(c: VectorColumn, m: VectorColumnModel) -> bool {
    &&& c.bytes@ == m.bytes
    &&& c.dimension == m.dimension
    &&& c.width == m.width
    &&& validity_is(c.validity, m.docs, m.num_docs)
}

/// Dimension and item width of a vector type.
pub open spec fn vector_shape(t: DataType) -> std::result::Result<(i32, u8), ErrorKind> {
    match t {
        DataType::FixedSizeList(child, dim) => if dim < 0 {
            Err(ErrorKind::InvalidArgument)
        } else {
            match *child {
                DataType::Float32 => Ok((dim, 4)),
                DataType::Int8 => Ok((dim, 1)),
                _ => Err(ErrorKind::Unsupported),
            }
        },
        _ => Err(ErrorKind::InvalidArgument),
    }
}

/// The bytes of a vector plan: those of its one raw block.
pub open spec fn vector_payload(blocks: Seq<BlockModel>, data: Seq<u8>) -> std::result::Result<Seq<u8>, ErrorKind> {
    if blocks.len() == 0 {
        Ok(Seq::empty())
    } else if blocks.len() > 1 {
        Err(ErrorKind::InvalidArgument)
    } else {
        match blocks[0] {
            BlockModel::Raw { offset, len } => block_bytes_of(data, offset, len),
            _ => Err(ErrorKind::InvalidArgument),
        }
    }
}

/// Rows of `stride` bytes: the vector of each document that has one.
pub open spec fn vector_rows(payload: Seq<u8>, docs: Option<Set<nat>>, num_docs: nat, stride: nat) -> Seq<u8> {
    Seq::new(
        num_docs * stride,
        |i: int|
            {
                let d = i as nat / stride;
                match docs {
                    None => payload[i],
                    Some(s) => if s.contains(d) {
                        payload[rank(s, d) * stride + i % stride as int]
                    } else {
                        0u8
                    },
                }
            },
    )
}

/// As many vectors as the coverage asks for.
pub open spec fn vectors_cover(count: nat, docs: Option<Set<nat>>, num_docs: nat) -> bool {
    match docs {
        None => count == num_docs,
        Some(s) => rank(s, num_docs) <= count && forall|d: nat| #[trigger] s.contains(d) ==> d < num_docs,
    }
}

/// The column that a flat-vector plan stands for.
pub open spec fn vector_column(plan: PlanModel, data: Seq<u8>) -> std::result::Result<VectorColumnModel, ErrorKind> {
    match vector_shape(plan.arrow_type) {
        Err(k) => Err(k),
        Ok((dimension, width)) => match vector_payload(plan.blocks, data) {
            Err(k) => Err(k),
            Ok(payload) => {
                let stride = (dimension * width) as nat;
                let num_docs = num_docs_of(plan.coverage) as nat;
                if payload.len() != plan.num_values * stride {
                    Err(ErrorKind::Corrupt)
                } else {
                    match coverage_docs(plan.coverage, data) {
                        Err(k) => Err(k),
                        Ok(docs) => if !vectors_cover(plan.num_values as nat, docs, num_docs) || num_docs * stride
                            > usize::MAX {
                            Err(ErrorKind::Corrupt)
                        } else {
                            Ok(
                                VectorColumnModel {
                                    bytes: vector_rows(payload, docs, num_docs, stride),
                                    dimension,
                                    width,
                                    docs,
                                    num_docs,
                                },
                            )
                        },
                    }
                }
            },
        },
    }
}

fn read_vector_shape(t: &DataType) -> (r: Result<(i32, u8)>)
    ensures
        match vector_shape(*t) {
            Ok(v) => r == Ok::<(i32, u8), Error>(v),
            Err(k) => r matches Err(e) && e.kind() == k,
        },
{
    match t {
        DataType::FixedSizeList(child, dim) => {
            if *dim < 0 {
                return Err(Error::invalid("vector plan must have a dimension"));
            }
            match **child {
                DataType::Float32 => Ok((*dim, 4)),
                DataType::Int8 => Ok((*dim, 1)),
                _ => Err(Error::unsupported("vector child type")),
            }
        },
        _ => Err(Error::invalid("vector plan must have FixedSizeList type")),
    }
}

fn read_vector_payload<'a>(blocks: &Vec<BlockDecode>, data: &'a [u8]) -> (r: Result<&'a [u8]>)
    ensures
        match vector_payload(crate::plan::blocks_model(blocks@), data@) {
            Ok(v) => r matches Ok(w) && w@ == v,
            Err(k) => r matches Err(e) && e.kind() == k,
        },
{
    if blocks.len() == 0 {
        let none: &'a [u8] = slice_subrange(data, 0, 0);
        assert(none@ =~= Seq::<u8>::empty());
        return Ok(none);
    }
    if blocks.len() > 1 {
        return Err(Error::invalid("vector plan must be a single Raw block"));
    }
    match &blocks[0] {
        BlockDecode::Raw { offset, len } => {
            if *offset as u128 + *len as u128 > data.len() as u128 {
                return Err(Error::corrupt("vector data range beyond file"));
            }
            Ok(slice_subrange(data, *offset as usize, (*offset + *len) as usize))
        },
        _ => Err(Error::invalid("vector plan must be a single Raw block")),
    }
}

/// Appends the row of one document, whose vector starts at `from`; zeros
/// where it has none.
fn push_row(payload: &[u8], from: Option<usize>, stride: u64, out: &mut Vec<u8>)
    requires
        from matches Some(f) ==> f + stride <= payload@.len(),
    ensures
        final(out)@ == old(out)@ + Seq::new(
            stride as nat,
            |j: int|
                match from {
                    Some(f) => payload@[f + j],
                    None => 0u8,
                },
        ),
{
    let ghost row = Seq::new(
        stride as nat,
        |j: int|
            match from {
                Some(f) => payload@[f + j],
                None => 0u8,
            },
    );
    let n: usize = payload.len();
    let mut j: u64 = 0;
    assert(out@ =~= old(out)@ + row.take(0));
    while j < stride
        invariant
            j <= stride,
            n == payload@.len(),
            from matches Some(f) ==> f + stride <= n,
            row == Seq::new(
                stride as nat,
                |j: int|
                    match from {
                        Some(f) => payload@[f + j],
                        None => 0u8,
                    },
            ),
            out@ == old(out)@ + row.take(j as int),
        decreases stride - j,
    {
        let b: u8 = match from {
            Some(f) => payload[f + j as usize],
            None => 0,
        };
        out.push(b);
        j = j + 1;
        assert(out@ =~= old(out)@ + row.take(j as int));
    }
    assert(row.take(stride as int) =~= row);
}

/// The rows of a column in which some documents have no vector.
fn sparse_rows(payload: &[u8], words: &[u64], num_docs: u32, stride: u64, count: u64, s: Ghost<Set<nat>>) -> (r: Result<
    Vec<u8>,
>)
    requires
        stands_for(words@, s@),
        payload@.len() == count * stride,
    ensures
        vectors_cover(count as nat, Some(s@), num_docs as nat) ==> (r matches Ok(v) && v@ == vector_rows(
            payload@,
            Some(s@),
            num_docs as nat,
            stride as nat,
        )),
        !vectors_cover(count as nat, Some(s@), num_docs as nat) ==> (r matches Err(e) && e.kind()
            == ErrorKind::Corrupt),
{
    let n: usize = payload.len();
    let mut out: Vec<u8> = Vec::new();
    let mut v: u64 = 0;
    let mut d: u32 = 0;
    let ghost all = vector_rows(payload@, Some(s@), num_docs as nat, stride as nat);
    proof {
        assert(0 * stride == 0) by (nonlinear_arith);
    }
    assert(out@ =~= all.take(0));
    while d < num_docs
        invariant
            d <= num_docs,
            n == payload@.len(),
            stands_for(words@, s@),
            payload@.len() == count * stride,
            all == vector_rows(payload@, Some(s@), num_docs as nat, stride as nat),
            v == rank(s@, d as nat),
            v <= count,
            out@ == all.take(d * stride),
        decreases num_docs - d,
    {
        assert(has_bit(words@, d as nat) == s@.contains(d as nat));
        let ghost before = out@;
        let mut from: Option<usize> = None;
        if get_bit(words, d as usize) {
            proof {
                lemma_rank_mono(s@, d as nat + 1, num_docs as nat);
            }
            if v >= count {
                return Err(Error::corrupt("more documents than vectors"));
            }
            assert(v * stride + stride <= count * stride) by (nonlinear_arith)
                requires
                    v + 1 <= count,
            ;
            from = Some((v as u128 * stride as u128) as usize);
            v = v + 1;
        }
        push_row(payload, from, stride, &mut out);
        proof {
            assert((d + 1) * stride == d * stride + stride) by (nonlinear_arith);
            assert((d + 1) * stride <= num_docs * stride) by (nonlinear_arith)
                requires
                    d + 1 <= num_docs,
            ;
            assert forall|j: int| 0 <= j < stride implies #[trigger] all[d * stride + j] == out@[d * stride + j] by {
                let i = d * stride + j;
                assert(stride * d == d * stride) by (nonlinear_arith);
                vstd::arithmetic::div_mod::lemma_fundamental_div_mod_converse(i, stride as int, d as int, j);
            }
            assert(out@ =~= all.take((d + 1) * stride)) by {
                assert(before.len() == d * stride);
                assert forall|i: int| 0 <= i < out@.len() implies out@[i] == all.take((d + 1) * stride)[i] by {
                    if i >= d * stride {
                        let j = i - d * stride;
                        assert(all[d * stride + j] == out@[d * stride + j]);
                    } else {
                        assert(out@[i] == before[i]);
                    }
                }
            }
        }
        d = d + 1;
    }
    if has_bits_from(words, num_docs) {
        assert(exists|d: nat| num_docs <= d && #[trigger] s@.contains(d)) by {
            let e = choose|e: nat| num_docs <= e && #[trigger] has_bit(words@, e);
            assert(s@.contains(e));
        }
        return Err(Error::corrupt("documents beyond max_doc"));
    }
    assert forall|d: nat| #[trigger] s@.contains(d) implies d < num_docs by {
        assert(has_bit(words@, d));
    }
    assert(all.take(num_docs * stride) =~= all);
    Ok(out)
}

/// Decode a flat-vector plan into rows aligned with documents. Vectors are
/// stored one behind the other; sparse coverage puts them at the places of
/// their documents.
pub fn decode_flat_vectors(plan: &DecodePlan, vec_data: &[u8]) -> (r: Result<VectorColumn>)
    ensures
        match vector_column(plan@, vec_data@) {
            Ok(m) => r matches Ok(c) && vector_column_is(c, m),
            Err(k) => r matches Err(e) && e.kind() == k,
        },
{
    let (dimension, width): (i32, u8) = read_vector_shape(&plan.arrow_type)?;
    let payload: &[u8] = read_vector_payload(&plan.blocks, vec_data)?;
    proof {
        assert(0 <= dimension * width <= 0x7FFF_FFFF * 4) by (nonlinear_arith)
            requires
                0 <= dimension <= 0x7FFF_FFFF,
                width <= 4,
        ;
    }
    let stride: u64 = dimension as u64 * width as u64;
    proof {
        assert(plan.num_values * stride <= 0xFFFF_FFFF_FFFF_FFFF * 0x1_FFFF_FFFC) by (nonlinear_arith)
            requires
                plan.num_values <= 0xFFFF_FFFF_FFFF_FFFF,
                stride <= 0x1_FFFF_FFFC,
        ;
    }
    if payload.len() as u128 != plan.num_values as u128 * stride as u128 {
        return Err(Error::corrupt("vector payload size mismatch"));
    }
    let (num_docs, validity): (u32, Option<Vec<u64>>) = coverage_bitmap(&plan.coverage, vec_data)?;
    let ghost docs = coverage_docs(plan.coverage, vec_data@)->Ok_0;
    proof {
        assert(num_docs * stride <= 0xFFFF_FFFF * 0x1_FFFF_FFFC) by (nonlinear_arith)
            requires
                num_docs <= 0xFFFF_FFFF,
                stride <= 0x1_FFFF_FFFC,
        ;
    }
    if num_docs as u128 * stride as u128 > usize::MAX as u128 {
        return Err(Error::corrupt("vector column too large"));
    }
    let bytes: Vec<u8> = match &validity {
        None => {
            if plan.num_values != num_docs as u64 {
                return Err(Error::corrupt("dense vector column count mismatch"));
            }
            assert(payload@ =~= vector_rows(payload@, docs, num_docs as nat, stride as nat));
            vstd::slice::slice_to_vec(payload)
        },
        Some(words) => {
            sparse_rows(payload, words.as_slice(), num_docs, stride, plan.num_values, Ghost(docs->0))?
        },
    };
    Ok(VectorColumn { bytes, dimension, width, validity })
}

/// The vectors of a file stand one behind the other from the offset of the
/// plan's block on, and a column gives each document its own: where all
/// documents have one, that of document `d` is behind those of the documents
/// before it; where some have none, behind those of the documents before it
/// that have one. A document without a vector has zeros.
pub proof fn law_vector_of_document(plan: PlanModel, data: Seq<u8>, offset: u64, len: u64, d: nat)
    requires
        plan.blocks == seq![BlockModel::Raw { offset, len }],
        vector_column(plan, data) is Ok,
        d < num_docs_of(plan.coverage),
    ensures
        ({
            let c = vector_column(plan, data)->Ok_0;
            let stride = c.dimension * c.width;
            let row = c.bytes.subrange(d * stride, d * stride + stride);
            &&& coverage_docs(plan.coverage, data) == Ok::<Option<Set<nat>>, ErrorKind>(c.docs)
            &&& c.num_docs == num_docs_of(plan.coverage)
            &&& c.bytes.len() == c.num_docs * stride
            &&& 0 <= d * stride && d * stride + stride <= c.bytes.len()
            &&& match c.docs {
                None => offset + d * stride + stride <= data.len() && row == data.subrange(
                    offset + d * stride,
                    offset + d * stride + stride,
                ),
                Some(s) => if s.contains(d) {
                    let at = offset + members_below(s, d).len() * stride;
                    at + stride <= data.len() && row == data.subrange(at, at + stride)
                } else {
                    forall|j: int| 0 <= j < stride ==> row[j] == 0
                },
            }
        }),
{
    let c = vector_column(plan, data)->Ok_0;
    let stride = c.dimension * c.width;
    let n = c.num_docs;
    let payload = vector_payload(plan.blocks, data)->Ok_0;
    assert(plan.blocks[0] == (BlockModel::Raw { offset, len }));
    assert(payload == data.subrange(offset as int, offset + len));
    lemma_stride(c.dimension, c.width);
    assert(0 <= d * stride && d * stride + stride <= n * stride) by (nonlinear_arith)
        requires
            stride >= 0,
            d + 1 <= n,
    ;
    assert(n * (stride as nat) == n * stride) by (nonlinear_arith)
        requires
            stride >= 0,
    ;
    let row = c.bytes.subrange(d * stride, d * stride + stride);
    assert forall|j: int| 0 <= j < stride implies row[j] == (match c.docs {
        None => payload[d * stride + j],
        Some(s) => if s.contains(d) {
            payload[rank(s, d) * stride + j]
        } else {
            0u8
        },
    }) by {
        let i = d * stride + j;
        assert(stride * d == d * stride) by (nonlinear_arith);
        vstd::arithmetic::div_mod::lemma_fundamental_div_mod_converse(i, stride, d as int, j);
        assert(row[j] == c.bytes[i]);
    }
    assert(payload.len() == plan.num_values * stride) by (nonlinear_arith)
        requires
            payload.len() == plan.num_values * (stride as nat),
            stride >= 0,
    ;
    match c.docs {
        None => {
            assert(row =~= data.subrange(offset + d * stride, offset + d * stride + stride));
        },
        Some(s) => {
            if s.contains(d) {
                law_rank_counts(s, d);
                lemma_rank_mono(s, d + 1, n);
                let r = rank(s, d);
                assert(r * stride + stride <= plan.num_values * stride && 0 <= r * stride) by (nonlinear_arith)
                    requires
                        r + 1 <= plan.num_values,
                        stride >= 0,
                ;
                assert(row =~= data.subrange(offset + r * stride, offset + r * stride + stride));
            }
        },
    }
}

proof fn lemma_stride(dimension: i32, width: u8)
    requires
        dimension >= 0,
    ensures
        dimension * width >= 0,
{
    assert(dimension * width >= 0) by (nonlinear_arith)
        requires
            dimension >= 0,
            width >= 0,
    ;
}

/// A vector plan decodes where its one block is in the file and holds just
/// its vectors, and these are those of all documents, or of the documents
/// that have one: four bytes for each float of a vector, or one for each
/// small integer.
pub proof fn law_vectors_decode(plan: PlanModel, data: Seq<u8>, offset: u64, len: u64, item: DataType, dimension: i32, width: u8)
    requires
        plan.blocks == seq![BlockModel::Raw { offset, len }],
        plan.arrow_type == DataType::FixedSizeList(Box::new(item), dimension),
        item == DataType::Float32 && width == 4 || item == DataType::Int8 && width == 1,
        dimension >= 0,
        offset + len <= data.len(),
        len == plan.num_values * (dimension * width),
        num_docs_of(plan.coverage) * (dimension * width) <= usize::MAX,
        match coverage_docs(plan.coverage, data) {
            Ok(None) => plan.num_values == num_docs_of(plan.coverage),
            Ok(Some(s)) => plan.num_values == members_below(s, num_docs_of(plan.coverage) as nat).len() && forall|
                d: nat,
            | #[trigger] s.contains(d) ==> d < num_docs_of(plan.coverage),
            Err(_) => false,
        },
    ensures
        vector_column(plan, data) matches Ok(c) && c.dimension == dimension && c.width == width,
{
    assert(plan.blocks[0] == (BlockModel::Raw { offset, len }));
    lemma_stride(dimension, width);
    match coverage_docs(plan.coverage, data) {
        Ok(Some(s)) => {
            law_rank_counts(s, num_docs_of(plan.coverage) as nat);
        },
        _ => {},
    }
    assert(plan.num_values * ((dimension * width) as nat) == plan.num_values * (dimension * width)) by (nonlinear_arith)
        requires
            dimension * width >= 0,
    ;
    assert((num_docs_of(plan.coverage) as nat) * ((dimension * width) as nat) == num_docs_of(plan.coverage) * (dimension
        * width)) by (nonlinear_arith)
        requires
            dimension * width >= 0,
    ;
}

/// A plan for doubles decodes to a column of doubles, one for integers to a
/// column of integers: the same numbers either way.
pub proof fn law_doubles_are_the_same_numbers(a: PlanModel, b: PlanModel, dvd: Seq<u8>)
    requires
        a.arrow_type == DataType::Int64,
        b == (PlanModel { arrow_type: DataType::Float64, ..a }),
    ensures
        match (numeric_column(a, dvd), numeric_column(b, dvd)) {
            (Ok(x), Ok(y)) => !x.float && y.float && x.values == y.values && x.docs == y.docs,
            (Err(j), Err(k)) => j == k,
            _ => false,
        },
{
    assert(stream_values(a, dvd) == stream_values(b, dvd));
}

/// A block is decoded from the bytes of its own range alone: what stands
/// elsewhere in the file does not matter. It yields as many values as it
/// says.
pub proof fn law_block_needs_its_range(block: BlockModel, a: Seq<u8>, b: Seq<u8>)
    requires
        block.byte_range().0 + block.byte_range().1 <= a.len(),
        block.byte_range().0 + block.byte_range().1 <= b.len(),
        a.subrange(block.byte_range().0 as int, block.byte_range().0 + block.byte_range().1) == b.subrange(
            block.byte_range().0 as int,
            block.byte_range().0 + block.byte_range().1,
        ),
    ensures
        block_values(block, a) == block_values(block, b),
        block_values(block, a) matches Ok(v) ==> v.len() == block.value_count(),
{
}

/// A stream of blocks is the values of its first blocks, then those of the
/// others, and costs the bytes of both.
pub proof fn law_stream_of_parts(x: Seq<BlockModel>, y: Seq<BlockModel>, dvd: Seq<u8>)
    requires
        stream_from(x, 0, dvd) is Ok,
        stream_from(y, 0, dvd) is Ok,
    ensures
        stream_from(x + y, 0, dvd) == Ok::<Seq<i64>, ErrorKind>(
            stream_from(x, 0, dvd)->Ok_0 + stream_from(y, 0, dvd)->Ok_0,
        ),
        crate::plan::payload_bytes_of(x + y, (x + y).len()) == crate::plan::payload_bytes_of(x, x.len())
            + crate::plan::payload_bytes_of(y, y.len()),
{
    lemma_stream_parts(x, y, 0, dvd);
    lemma_payload_parts(x, y, y.len());
}

proof fn lemma_stream_parts(x: Seq<BlockModel>, y: Seq<BlockModel>, i: nat, dvd: Seq<u8>)
    requires
        i <= x.len(),
        stream_from(x, i, dvd) is Ok,
        stream_from(y, 0, dvd) is Ok,
    ensures
        stream_from(x + y, i, dvd) == Ok::<Seq<i64>, ErrorKind>(
            stream_from(x, i, dvd)->Ok_0 + stream_from(y, 0, dvd)->Ok_0,
        ),
    decreases x.len() - i,
{
    let s = x + y;
    if i < x.len() {
        assert(s[i as int] == x[i as int]);
        lemma_stream_parts(x, y, i + 1, dvd);
        let first = block_values(x[i as int], dvd)->Ok_0;
        let rest = stream_from(x, i + 1, dvd)->Ok_0;
        let tail = stream_from(y, 0, dvd)->Ok_0;
        assert(first + (rest + tail) =~= (first + rest) + tail);
    } else {
        lemma_stream_tail(x, y, 0, dvd);
        let tail = stream_from(y, 0, dvd)->Ok_0;
        assert(Seq::<i64>::empty() + tail =~= tail);
    }
}

proof fn lemma_stream_tail(x: Seq<BlockModel>, y: Seq<BlockModel>, i: nat, dvd: Seq<u8>)
    requires
        i <= y.len(),
    ensures
        stream_from(x + y, x.len() + i, dvd) == stream_from(y, i, dvd),
    decreases y.len() - i,
{
    if i < y.len() {
        assert((x + y)[x.len() + i as int] == y[i as int]);
        lemma_stream_tail(x, y, i + 1, dvd);
    }
}

proof fn lemma_payload_parts(x: Seq<BlockModel>, y: Seq<BlockModel>, n: nat)
    requires
        n <= y.len(),
    ensures
        crate::plan::payload_bytes_of(x + y, x.len() + n) == crate::plan::payload_bytes_of(x, x.len())
            + crate::plan::payload_bytes_of(y, n),
    decreases n,
{
    if n > 0 {
        lemma_payload_parts(x, y, (n - 1) as nat);
        assert((x + y)[x.len() + n - 1] == y[n - 1]);
    } else {
        lemma_payload_front(x, y, x.len());
    }
}

proof fn lemma_payload_front(x: Seq<BlockModel>, y: Seq<BlockModel>, n: nat)
    requires
        n <= x.len(),
    ensures
        crate::plan::payload_bytes_of(x + y, n) == crate::plan::payload_bytes_of(x, n),
    decreases n,
{
    if n > 0 {
        lemma_payload_front(x, y, (n - 1) as nat);
        assert((x + y)[n - 1] == x[n - 1]);
    }
}

/// A block whose bytes do not all lie in the file, or are too few for its
/// values, is corruption; so is a stream with another number of values than
/// its plan says.
pub proof fn law_short_data_refused(block: BlockModel, plan: PlanModel, dvd: Seq<u8>)
    ensures
        (block is Direct || block is GcdPacked || block is Table || (block matches BlockModel::DeltaPacked { bit_width, .. }
            && bit_width != 0)) && (block.byte_range().0 + block.byte_range().1 > dvd.len() || 8 * block.byte_range().1
            < block.value_count() * block_width(block)) ==> block_values(block, dvd) == Err::<Seq<i64>, ErrorKind>(
            ErrorKind::Corrupt,
        ),
        stream_values(plan, dvd) matches Ok(v) ==> v.len() == plan.num_values,
{
    let n = block.value_count() as nat;
    let w = block_width(block) as nat;
    crate::direct::lemma_ceil_div(n * w, 8);
}

/// The width of a block's packed numbers.
pub open spec fn block_width(block: BlockModel) -> u8 {
    match block {
        BlockModel::Direct { bit_width, .. } => bit_width,
        BlockModel::DeltaPacked { bit_width, .. } => bit_width,
        BlockModel::GcdPacked { bit_width, .. } => bit_width,
        BlockModel::Table { bit_width, .. } => bit_width,
        BlockModel::Monotonic { bit_width, .. } => bit_width,
        BlockModel::Ordinals { bit_width, .. } => bit_width,
        BlockModel::Raw { .. } => 0,
    }
}

} // verus!
