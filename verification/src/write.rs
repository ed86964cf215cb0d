//! Doc-values encoding.
//!
//! Fields are always written in single-block mode: one packed run of deltas,
//! multiples of a common step, or table indexes, whichever the statistics of
//! the field call for.

use vstd::prelude::*;
use crate::bytes::{
    le_bytes, le_i16, le_i32, le_i64, push_le, push_le_i16, push_le_i32, push_le_i64, push_le_sum,
};
use crate::consts;
use crate::direct::{bits_required, law_bits_required, pack, packable, packed, unsigned_bits_required};
use crate::disi::{
    disi_bytes, jump_table, strictly_increasing, write_bit_set, DEFAULT_DENSE_RANK_POWER,
};
use crate::error::{Error, ErrorKind, Result};
use crate::ieee::magnitude;
use crate::stats::{
    find_value, sorted_strictly, stats_of, table_model, NumericStats, StatsFold, StatsModel,
};

verus! {

/// `a / b` without its fraction; the one quotient that does not fit wraps.
pub open spec fn quotient(a: i64, b: i64) -> i64 {
    let q = (magnitude(a) / magnitude(b)) as u64 as i64;
    if (a < 0) != (b < 0) {
        0i64.wrapping_sub(q)
    } else {
        q
    }
}

fn divide(a: i64, b: i64) -> (r: i64)
    requires
        b != 0,
    ensures
        r == quotient(a, b),
{
    let x: u64 = if a < 0 {
        (-(a as i128)) as u64
    } else {
        a as u64
    };
    let y: u64 = if b < 0 {
        (-(b as i128)) as u64
    } else {
        b as u64
    };
    let q: i64 = (x / y) as i64;
    if (a < 0) != (b < 0) {
        0i64.wrapping_sub(q)
    } else {
        q
    }
}

/// What is packed for `v`: its place in the table where there is one, else
/// how many steps it lies above the base.
pub open spec fn encoded_value(v: i64, base: i64, gcd: i64, table: Option<Seq<i64>>) -> i64 {
    match table {
        Some(t) => t.index_of(v) as i64,
        None => quotient(v.wrapping_sub(base), gcd),
    }
}

pub open spec fn encoded_values(values: Seq<i64>, base: i64, gcd: i64, table: Option<Seq<i64>>) -> Seq<i64> {
    Seq::new(values.len(), |i: int| encoded_value(values[i], base, gcd, table))
}

/// Every value has a place in the table, where there is one.
pub open spec fn all_in_table(values: Seq<i64>, table: Option<Seq<i64>>) -> bool {
    table matches Some(t) ==> forall|i: int| 0 <= i < values.len() ==> t.contains(#[trigger] values[i])
}

pub open spec fn slice_model(table: Option<&[i64]>) -> Option<Seq<i64>> {
    match table {
        Some(t) => Some(t@),
        None => None,
    }
}

/// Packing needs a width it can lay out, and a sorted table or a step.
pub open spec fn pack_allowed(bpv: u8, gcd: i64, table: Option<Seq<i64>>) -> bool {
    packable(bpv) && match table {
        Some(t) => sorted_strictly(t),
        None => gcd != 0,
    }
}

/// What packing may return.
pub open spec fn pack_outcome(
    r: Result<Vec<u8>>,
    values: Seq<i64>,
    bpv: u8,
    base: i64,
    gcd: i64,
    table: Option<Seq<i64>>,
    reliable: bool,
) -> bool {
    if all_in_table(values, table) {
        &&& r matches Ok(out) ==> out@ == packed(encoded_values(values, base, gcd, table), bpv)
        &&& reliable ==> r is Ok
    } else {
        r matches Err(e) && e.kind() == ErrorKind::InvalidArgument
    }
}

/// The chunks, one behind the other.
pub open spec fn concatenated(chunks: Seq<&[i64]>) -> Seq<i64>
    decreases chunks.len(),
{
    if chunks.len() == 0 {
        Seq::empty()
    } else {
        concatenated(chunks.drop_last()) + chunks.last()@
    }
}

/// The chunks as one list.
fn concat(chunks: &[&[i64]]) -> (r: Vec<i64>)
    ensures
        r@ == concatenated(chunks@),
{
    let mut r: Vec<i64> = Vec::new();
    let mut i: usize = 0;
    assert(chunks@.take(0) =~= Seq::<&[i64]>::empty());
    while i < chunks.len()
        invariant
            i <= chunks@.len(),
            r@ == concatenated(chunks@.take(i as int)),
        decreases chunks@.len() - i,
    {
        r.extend_from_slice(chunks[i]);
        i = i + 1;
        assert(chunks@.take(i as int).drop_last() =~= chunks@.take(i - 1));
        assert(chunks@.take(i as int).last() == chunks@[i - 1]);
    }
    assert(chunks@.take(i as int) =~= chunks@);
    r
}

/// Statistics and packing for numeric doc values. Implementations must be
/// bit-identical; they may fail where the machinery behind them does, unless
/// they are `reliable`.
pub trait NumericEncoder {
    /// Never fails on valid input.
    spec fn reliable(&self) -> bool;

    fn stats(&self, values: &[i64]) -> (r: Result<NumericStats>)
        requires
            values@.len() > 0,
        ensures
            r matches Ok(s) ==> s@ == stats_of(values@),
            self.reliable() ==> r is Ok,
    ;

    /// Pack `(v - base) / gcd` (or the table index of `v` when `table` is
    /// given) at `bpv`, with padding.
    fn pack(&self, values: &[i64], bpv: u8, base: i64, gcd: i64, table: Option<&[i64]>) -> (r: Result<Vec<u8>>)
        requires
            pack_allowed(bpv, gcd, slice_model(table)),
        ensures
            pack_outcome(r, values@, bpv, base, gcd, slice_model(table), self.reliable()),
    ;

    /// As `stats`, over chunks taken one behind the other.
    fn stats_chunks(&self, chunks: &[&[i64]]) -> (r: Result<NumericStats>)
        requires
            concatenated(chunks@).len() > 0,
        ensures
            r matches Ok(s) ==> s@ == stats_of(concatenated(chunks@)),
            self.reliable() ==> r is Ok,
    {
        self.stats(concat(chunks).as_slice())
    }

    /// As `pack`, over chunks taken one behind the other.
    fn pack_chunks(&self, chunks: &[&[i64]], bpv: u8, base: i64, gcd: i64, table: Option<&[i64]>) -> (r: Result<Vec<u8>>)
        requires
            pack_allowed(bpv, gcd, slice_model(table)),
        ensures
            pack_outcome(r, concatenated(chunks@), bpv, base, gcd, slice_model(table), self.reliable()),
    {
        self.pack(concat(chunks).as_slice(), bpv, base, gcd, table)
    }
}

/// The executor on the CPU.
#[derive(Debug, Clone, Copy)]
pub struct CpuEncoder;

impl Default for CpuEncoder {
    fn default() -> (r: CpuEncoder) {
        CpuEncoder
    }
}

/// Appends what is packed for each value; stops where the table lacks one.
fn encode_into(values: &[i64], base: i64, gcd: i64, table: Option<&[i64]>, out: &mut Vec<i64>) -> (r: Result<()>)
    requires
        match table {
            Some(t) => sorted_strictly(t@),
            None => gcd != 0,
        },
    ensures
        all_in_table(values@, slice_model(table)) ==> r is Ok && final(out)@ == old(out)@ + encoded_values(
            values@,
            base,
            gcd,
            slice_model(table),
        ),
        !all_in_table(values@, slice_model(table)) ==> (r matches Err(e) && e.kind() == ErrorKind::InvalidArgument),
{
    let ghost t = slice_model(table);
    let ghost all = encoded_values(values@, base, gcd, t);
    let mut i: usize = 0;
    assert(out@ =~= old(out)@ + all.take(0));
    while i < values.len()
        invariant
            i <= values@.len(),
            t == slice_model(table),
            all == encoded_values(values@, base, gcd, t),
            match table {
                Some(t) => sorted_strictly(t@),
                None => gcd != 0,
            },
            all_in_table(values@.take(i as int), t),
            out@ == old(out)@ + all.take(i as int),
        decreases values@.len() - i,
    {
        let v: i64 = values[i];
        let e: i64 = match table {
            Some(entries) => match find_value(entries, v) {
                Some(k) => {
                    proof {
                        lemma_index_of(entries@, v, k as int);
                    }
                    k as i64
                },
                None => {
                    assert(!all_in_table(values@, t)) by {
                        assert(!entries@.contains(values@[i as int]));
                    }
                    return Err(Error::invalid("value missing from table"));
                },
            },
            None => divide(v.wrapping_sub(base), gcd),
        };
        out.push(e);
        i = i + 1;
        assert(out@ =~= old(out)@ + all.take(i as int));
        assert(all_in_table(values@.take(i as int), t)) by {
            if t is Some {
                assert forall|k: int| 0 <= k < i implies t->0.contains(#[trigger] values@.take(i as int)[k]) by {
                    if k < i - 1 {
                        assert(t->0.contains(values@.take(i - 1)[k]));
                    }
                }
            }
        }
    }
    assert(values@.take(i as int) =~= values@);
    assert(all.take(i as int) =~= all);
    Ok(())
}

pub proof fn lemma_index_of(t: Seq<i64>, v: i64, k: int)
    requires
        sorted_strictly(t),
        0 <= k < t.len(),
        t[k] == v,
    ensures
        t.index_of(v) == k,
{
    let i = t.index_of(v);
    assert(t.contains(v));
    assert(0 <= i < t.len() && t[i] == v);
    if i < k {
        assert(t[i] < t[k]);
    } else if k < i {
        assert(t[k] < t[i]);
    }
}

impl NumericEncoder for CpuEncoder {
    open spec fn reliable(&self) -> bool {
        true
    }

    fn stats(&self, values: &[i64]) -> (r: Result<NumericStats>) {
        let mut fold: StatsFold = StatsFold::start(values[0]);
        let mut i: usize = 1;
        assert(fold.values() =~= values@.take(1));
        while i < values.len()
            invariant
                1 <= i <= values@.len(),
                fold.valid(),
                fold.values() == values@.take(i as int),
            decreases values@.len() - i,
        {
            fold.add(values[i]);
            i = i + 1;
            assert(fold.values() =~= values@.take(i as int));
        }
        assert(values@.take(i as int) =~= values@);
        Ok(fold.finish())
    }

    fn pack(&self, values: &[i64], bpv: u8, base: i64, gcd: i64, table: Option<&[i64]>) -> (r: Result<Vec<u8>>) {
        let mut encoded: Vec<i64> = Vec::new();
        encode_into(values, base, gcd, table, &mut encoded)?;
        let mut out: Vec<u8> = Vec::new();
        pack(encoded.as_slice(), bpv, &mut out);
        proof {
            let e = encoded_values(values@, base, gcd, slice_model(table));
            assert(encoded@ =~= e);
            assert(out@ =~= packed(e, bpv));
        }
        Ok(out)
    }

    fn stats_chunks(&self, chunks: &[&[i64]]) -> (r: Result<NumericStats>) {
        let mut fold: Option<StatsFold> = None;
        let mut c: usize = 0;
        assert(chunks@.take(0) =~= Seq::<&[i64]>::empty());
        while c < chunks.len()
            invariant
                c <= chunks@.len(),
                match fold {
                    Some(f) => f.valid() && f.values() == concatenated(chunks@.take(c as int)),
                    None => concatenated(chunks@.take(c as int)).len() == 0,
                },
            decreases chunks@.len() - c,
        {
            let chunk: &[i64] = chunks[c];
            let ghost before = concatenated(chunks@.take(c as int));
            let mut i: usize = 0;
            assert(before =~= before + chunk@.take(0));
            while i < chunk.len()
                invariant
                    i <= chunk@.len(),
                    match fold {
                        Some(f) => f.valid() && f.values() == before + chunk@.take(i as int),
                        None => (before + chunk@.take(i as int)).len() == 0,
                    },
                decreases chunk@.len() - i,
            {
                let v: i64 = chunk[i];
                let ghost done = before + chunk@.take(i as int);
                match &mut fold {
                    Some(f) => {
                        f.add(v);
                    },
                    None => {
                        fold = Some(StatsFold::start(v));
                    },
                }
                i = i + 1;
                assert(done.push(v) =~= before + chunk@.take(i as int));
                assert(done.len() == 0 ==> seq![v] =~= before + chunk@.take(i as int));
            }
            assert(chunk@.take(i as int) =~= chunk@);
            c = c + 1;
            assert(chunks@.take(c as int).drop_last() =~= chunks@.take(c - 1));
            assert(chunks@.take(c as int).last() == chunks@[c - 1]);
        }
        assert(chunks@.take(c as int) =~= chunks@);
        match fold {
            Some(f) => Ok(f.finish()),
            None => Err(Error::invalid("no values")),
        }
    }

    fn pack_chunks(&self, chunks: &[&[i64]], bpv: u8, base: i64, gcd: i64, table: Option<&[i64]>) -> (r: Result<Vec<u8>>) {
        let mut encoded: Vec<i64> = Vec::new();
        let ghost t = slice_model(table);
        let mut c: usize = 0;
        proof {
            assert(chunks@.take(0) =~= Seq::<&[i64]>::empty());
            assert(encoded@ =~= encoded_values(Seq::empty(), base, gcd, t));
        }
        while c < chunks.len()
            invariant
                c <= chunks@.len(),
                t == slice_model(table),
                pack_allowed(bpv, gcd, t),
                all_in_table(concatenated(chunks@.take(c as int)), t),
                encoded@ == encoded_values(concatenated(chunks@.take(c as int)), base, gcd, t),
            decreases chunks@.len() - c,
        {
            let ghost before = concatenated(chunks@.take(c as int));
            let ghost after = before + chunks@[c as int]@;
            proof {
                assert(chunks@.take(c + 1).drop_last() =~= chunks@.take(c as int));
                assert(chunks@.take(c + 1).last() == chunks@[c as int]);
                lemma_in_table_concat(before, chunks@[c as int]@, t);
            }
            match encode_into(chunks[c], base, gcd, table, &mut encoded) {
                Ok(_) => {},
                Err(e) => {
                    proof {
                        lemma_concat_prefix(chunks@, c + 1, t);
                    }
                    return Err(e);
                },
            }
            c = c + 1;
            assert(encoded@ =~= encoded_values(after, base, gcd, t));
        }
        assert(chunks@.take(c as int) =~= chunks@);
        let mut out: Vec<u8> = Vec::new();
        pack(encoded.as_slice(), bpv, &mut out);
        assert(out@ =~= packed(encoded@, bpv));
        Ok(out)
    }
}

proof fn lemma_in_table_concat(a: Seq<i64>, b: Seq<i64>, t: Option<Seq<i64>>)
    ensures
        all_in_table(a + b, t) <==> (all_in_table(a, t) && all_in_table(b, t)),
{
    if t is Some {
        let e = t->0;
        if all_in_table(a + b, t) {
            assert forall|i: int| 0 <= i < a.len() implies e.contains(#[trigger] a[i]) by {
                assert(e.contains((a + b)[i]));
            }
            assert forall|i: int| 0 <= i < b.len() implies e.contains(#[trigger] b[i]) by {
                assert(e.contains((a + b)[a.len() + i]));
            }
        }
        if all_in_table(a, t) && all_in_table(b, t) {
            assert forall|i: int| 0 <= i < (a + b).len() implies e.contains(#[trigger] (a + b)[i]) by {
                if i < a.len() {
                    assert(e.contains(a[i]));
                } else {
                    assert(e.contains(b[i - a.len()]));
                }
            }
        }
    }
}

/// A value missing among the first chunks is missing among all.
proof fn lemma_concat_prefix(chunks: Seq<&[i64]>, n: int, t: Option<Seq<i64>>)
    requires
        0 <= n <= chunks.len(),
    ensures
        all_in_table(concatenated(chunks), t) ==> all_in_table(concatenated(chunks.take(n)), t),
    decreases chunks.len(),
{
    if n == chunks.len() {
        assert(chunks.take(n) =~= chunks);
    } else {
        lemma_concat_prefix(chunks.drop_last(), n, t);
        assert(chunks.drop_last().take(n) =~= chunks.take(n));
        lemma_in_table_concat(concatenated(chunks.drop_last()), chunks.last()@, t);
    }
}

/// One encoded field: `meta` is the metadata entry (with field number and
/// type byte); `data` is the payload. All offsets inside `meta` are absolute
/// data-file offsets, counted from the length of the data file before this
/// field's payload is appended.
#[derive(Debug)]
pub struct EncodedField {
    pub meta: Vec<u8>,
    pub data: Vec<u8>,
}

/// Value stream of a field: one flat slice, or a list of slices taken one
/// behind the other.
pub enum ValuesIn<'a> {
    Flat(&'a [i64]),
    Chunks(&'a [&'a [i64]]),
}

impl<'a> View for ValuesIn<'a> {
    type V = Seq<i64>;

    open spec fn view(&self) -> Seq<i64> {
        match self {
            ValuesIn::Flat(v) => v@,
            ValuesIn::Chunks(c) => concatenated(c@),
        }
    }
}

/// How many values the chunks hold together.
fn total_len(chunks: &[&[i64]]) -> (r: u128)
    ensures
        r == concatenated(chunks@).len(),
{
    let mut n: u128 = 0;
    let mut i: usize = 0;
    assert(chunks@.take(0) =~= Seq::<&[i64]>::empty());
    while i < chunks.len()
        invariant
            i <= chunks@.len(),
            n == concatenated(chunks@.take(i as int)).len(),
            n <= i * 0xFFFF_FFFF_FFFF_FFFF,
        decreases chunks@.len() - i,
    {
        assert(n + 0xFFFF_FFFF_FFFF_FFFF <= u128::MAX) by (nonlinear_arith)
            requires
                n <= i * 0xFFFF_FFFF_FFFF_FFFF,
                i < 0xFFFF_FFFF_FFFF_FFFF,
        ;
        n = n + chunks[i].len() as u128;
        i = i + 1;
        assert(chunks@.take(i as int).drop_last() =~= chunks@.take(i - 1));
        assert(chunks@.take(i as int).last() == chunks@[i - 1]);
    }
    assert(chunks@.take(i as int) =~= chunks@);
    n
}

impl<'a> ValuesIn<'a> {
    /// How many values there are.
    fn len(&self) -> (r: u128)
        ensures
            r == self@.len(),
    {
        match self {
            ValuesIn::Flat(v) => v.len() as u128,
            ValuesIn::Chunks(c) => total_len(c),
        }
    }

    fn stats<E: NumericEncoder>(&self, e: &E) -> (r: Result<NumericStats>)
        requires
            self@.len() > 0,
        ensures
            r matches Ok(s) ==> s@ == stats_of(self@),
            e.reliable() ==> r is Ok,
    {
        match self {
            ValuesIn::Flat(v) => e.stats(v),
            ValuesIn::Chunks(c) => e.stats_chunks(c),
        }
    }

    fn pack<E: NumericEncoder>(&self, e: &E, bpv: u8, base: i64, gcd: i64, table: Option<&[i64]>) -> (r: Result<Vec<u8>>)
        requires
            pack_allowed(bpv, gcd, slice_model(table)),
        ensures
            pack_outcome(r, self@, bpv, base, gcd, slice_model(table), e.reliable()),
    {
        match self {
            ValuesIn::Flat(v) => e.pack(v, bpv, base, gcd, table),
            ValuesIn::Chunks(c) => e.pack_chunks(c, bpv, base, gcd, table),
        }
    }
}

/// How the values of a field are laid out.
pub struct Layout {
    pub table: Option<Seq<i64>>,
    pub bits: u8,
    pub base: i64,
    pub gcd: i64,
}

/// Bits for the distance between least and greatest value, in steps.
pub open spec fn delta_bits(st: StatsModel) -> u8 {
    bits_required(quotient(st.max.wrapping_sub(st.min), st.gcd) as u64)
}

/// A table is used where its indexes need fewer bits than the deltas.
pub open spec fn uses_table(st: StatsModel) -> bool {
    st.table matches Some(t) && t.len() > 1 && bits_required((t.len() - 1) as u64) < delta_bits(st)
}

/// The layout that the statistics of a field call for.
pub open spec fn layout_of(st: StatsModel) -> Layout {
    if st.min >= st.max {
        Layout { table: None, bits: 0, base: st.min, gcd: st.gcd }
    } else if uses_table(st) {
        Layout { table: st.table, bits: bits_required((st.table->0.len() - 1) as u64), base: 0, gcd: 1 }
    } else {
        let from_zero = st.gcd == 1 && st.min > 0 && bits_required(st.max as u64) == bits_required(
            st.max.wrapping_sub(st.min) as u64,
        );
        Layout {
            table: None,
            bits: delta_bits(st),
            base: if from_zero {
                0
            } else {
                st.min
            },
            gcd: st.gcd,
        }
    }
}

/// The numbers of a table, one behind the other.
pub open spec fn le_i64_all(t: Seq<i64>) -> Seq<u8>
    decreases t.len(),
{
    if t.len() == 0 {
        Seq::empty()
    } else {
        le_i64_all(t.drop_last()) + le_i64(t.last())
    }
}

/// A table behind its size, or the mark that there is none.
pub open spec fn table_meta(table: Option<Seq<i64>>) -> Seq<u8> {
    match table {
        Some(t) => le_i32(t.len() as i32) + le_i64_all(t),
        None => le_i32((-1) as i32),
    }
}

/// The packed values of a field.
pub open spec fn values_data(values: Seq<i64>) -> Seq<u8> {
    let l = layout_for(values);
    if l.bits == 0 {
        Seq::empty()
    } else {
        packed(encoded_values(values, l.base, l.gcd, l.table), l.bits)
    }
}

/// What the metadata says of `n` values in layout `l`, whose `len` bytes of
/// data start at `offset`.
pub open spec fn stream_meta(n: nat, l: Layout, offset: nat, len: nat) -> Seq<u8> {
    le_bytes(n, 8) + (table_meta(l.table) + (seq![l.bits] + (le_i64(l.base) + (le_i64(l.gcd) + (le_bytes(offset, 8) + (
    le_bytes(len, 8) + le_i64((-1) as i64)))))))
}

/// What the metadata says of the values, whose data starts at `offset`.
pub open spec fn values_meta(values: Seq<i64>, offset: nat) -> Seq<u8> {
    stream_meta(values.len(), layout_for(values), offset, values_data(values).len())
}

/// How many of `max_doc` documents carry a value.
pub open spec fn docs_with_value(values: Seq<i64>, docs: Seq<u32>, max_doc: nat) -> nat {
    if docs.len() == 0 && values.len() == max_doc {
        max_doc
    } else {
        docs.len()
    }
}

/// The set of documents, where it is neither empty nor all of them.
pub open spec fn presence_data(n: nat, docs: Seq<u32>, max_doc: nat) -> Seq<u8> {
    if n == 0 || n == max_doc {
        Seq::empty()
    } else {
        disi_bytes(docs, 9)
    }
}

/// What the metadata says of the set of documents, whose data starts at
/// `offset`.
pub open spec fn presence_meta(n: nat, docs: Seq<u32>, max_doc: nat, offset: nat) -> Seq<u8> {
    if n == 0 {
        le_i64((-2) as i64) + (le_i64(0) + (le_i16((-1) as i16) + seq![0xFFu8]))
    } else if n == max_doc {
        le_i64((-1) as i64) + (le_i64(0) + (le_i16((-1) as i16) + seq![0xFFu8]))
    } else {
        le_bytes(offset, 8) + (le_bytes(disi_bytes(docs, 9).len(), 8) + (le_i16(
            jump_table(docs, 9).len() as u16 as i16,
        ) + seq![9u8]))
    }
}

/// The data of a numeric entry.
pub open spec fn entry_data(values: Seq<i64>, docs: Seq<u32>, max_doc: nat) -> Seq<u8> {
    presence_data(docs_with_value(values, docs, max_doc), docs, max_doc) + values_data(values)
}

/// The metadata of a numeric entry whose data starts at `offset`.
pub open spec fn entry_meta(values: Seq<i64>, docs: Seq<u32>, max_doc: nat, offset: nat) -> Seq<u8> {
    let n = docs_with_value(values, docs, max_doc);
    presence_meta(n, docs, max_doc, offset) + values_meta(values, offset + presence_data(n, docs, max_doc).len())
}

/// Writes the set of documents that carry a value.
pub(crate) fn write_presence(meta: &mut Vec<u8>, data: &mut Vec<u8>, n: u32, docs: &[u32], max_doc: u32, dvd_base: u64)
    requires
        strictly_increasing(docs@),
    ensures
        final(meta)@ == old(meta)@ + presence_meta(
            n as nat,
            docs@,
            max_doc as nat,
            dvd_base as nat + old(data)@.len(),
        ),
        final(data)@ == old(data)@ + presence_data(n as nat, docs@, max_doc as nat),
{
    let ghost meta0 = meta@;
    let ghost data0 = data@;
    if n == 0 {
        push_le_i64(meta, -2);
        push_le_i64(meta, 0);
        push_le_i16(meta, -1);
        meta.push(0xFF);
    } else if n == max_doc {
        push_le_i64(meta, -1);
        push_le_i64(meta, 0);
        push_le_i16(meta, -1);
        meta.push(0xFF);
    } else {
        push_le_sum(meta, dvd_base, data.len() as u64);
        let before: usize = data.len();
        let jump_table_entry_count: i16 = match write_bit_set(docs, data) {
            Ok(count) => count,
            Err(_) => 0,
        };
        push_le(meta, (data.len() - before) as u64, 8);
        push_le_i16(meta, jump_table_entry_count);
        meta.push(DEFAULT_DENSE_RANK_POWER);
    }
    assert(data@ =~= data0 + presence_data(n as nat, docs@, max_doc as nat));
    assert(meta@ =~= meta0 + presence_meta(n as nat, docs@, max_doc as nat, dvd_base as nat + data0.len()));
}

/// Writes a table behind its size, or the mark that there is none.
fn write_table(meta: &mut Vec<u8>, table: Option<&[i64]>)
    requires
        table matches Some(t) ==> t@.len() <= 256,
    ensures
        final(meta)@ == old(meta)@ + table_meta(slice_model(table)),
{
    let ghost start = meta@;
    match table {
        Some(t) => {
            push_le_i32(meta, t.len() as i32);
            let ghost head = meta@;
            let mut i: usize = 0;
            assert(t@.take(0) =~= Seq::<i64>::empty());
            assert(meta@ =~= head + le_i64_all(t@.take(0)));
            while i < t.len()
                invariant
                    i <= t@.len(),
                    meta@ == head + le_i64_all(t@.take(i as int)),
                decreases t@.len() - i,
            {
                push_le_i64(meta, t[i]);
                i = i + 1;
                assert(t@.take(i as int).drop_last() =~= t@.take(i - 1));
                assert(meta@ =~= head + le_i64_all(t@.take(i as int)));
            }
            assert(t@.take(i as int) =~= t@);
            assert(meta@ =~= start + (le_i32(t@.len() as i32) + le_i64_all(t@)));
        },
        None => {
            push_le_i32(meta, -1);
        },
    }
}

/// A chosen layout.
struct Choice {
    table: Option<Vec<i64>>,
    bits: u8,
    base: i64,
    gcd: i64,
}

impl Choice {
    spec fn model(&self) -> Layout {
        Layout { table: table_model(self.table), bits: self.bits, base: self.base, gcd: self.gcd }
    }
}

/// The layout of some values; that of no values is all zeros.
pub open spec fn layout_for(values: Seq<i64>) -> Layout {
    if values.len() == 0 {
        Layout { table: None, bits: 0, base: 0, gcd: 0 }
    } else {
        layout_of(stats_of(values))
    }
}

/// Picks the layout that the statistics of the values call for.
fn choose_layout<E: NumericEncoder>(vals: &ValuesIn<'_>, encoder: &E) -> (r: Result<Choice>)
    ensures
        encoder.reliable() ==> r is Ok,
        r matches Ok(c) ==> c.model() == layout_for(vals@),
{
    if vals.len() == 0 {
        return Ok(Choice { table: None, bits: 0, base: 0, gcd: 0 });
    }
    let stats: NumericStats = vals.stats(encoder)?;
    proof {
        lemma_stats_facts(vals@);
    }
    if stats.min >= stats.max {
        return Ok(Choice { table: None, bits: 0, base: stats.min, gcd: stats.gcd });
    }
    let delta: u8 = unsigned_bits_required(divide(stats.max.wrapping_sub(stats.min), stats.gcd));
    let narrow: u8 = match &stats.table {
        Some(t) => if t.len() > 1 {
            unsigned_bits_required((t.len() - 1) as i64)
        } else {
            delta
        },
        None => delta,
    };
    if narrow < delta {
        return Ok(Choice { table: stats.table, bits: narrow, base: 0, gcd: 1 });
    }
    let from_zero: bool = stats.gcd == 1 && stats.min > 0 && unsigned_bits_required(stats.max)
        == unsigned_bits_required(stats.max.wrapping_sub(stats.min));
    Ok(
        Choice {
            table: None,
            bits: delta,
            base: if from_zero {
                0
            } else {
                stats.min
            },
            gcd: stats.gcd,
        },
    )
}

/// Writes what the metadata says of a value stream.
fn write_stream_meta(
    meta: &mut Vec<u8>,
    num_values: u64,
    table: Option<&[i64]>,
    choice: &Choice,
    dvd_base: u64,
    offset: u64,
    len: u64,
)
    requires
        table matches Some(t) ==> t@.len() <= 256,
    ensures
        final(meta)@ == old(meta)@ + stream_meta(
            num_values as nat,
            (Layout { table: slice_model(table), bits: choice.bits, base: choice.base, gcd: choice.gcd }),
            dvd_base as nat + offset as nat,
            len as nat,
        ),
{
    push_le(meta, num_values, 8);
    write_table(meta, table);
    meta.push(choice.bits);
    push_le_i64(meta, choice.base);
    push_le_i64(meta, choice.gcd);
    push_le_sum(meta, dvd_base, offset);
    push_le(meta, len, 8);
    push_le_i64(meta, -1);
    assert(meta@ =~= old(meta)@ + stream_meta(
        num_values as nat,
        (Layout { table: slice_model(table), bits: choice.bits, base: choice.base, gcd: choice.gcd }),
        dvd_base as nat + offset as nat,
        len as nat,
    ));
}

/// Writes the values in the layout they call for.
fn write_stream<E: NumericEncoder>(
    meta: &mut Vec<u8>,
    data: &mut Vec<u8>,
    vals: &ValuesIn<'_>,
    dvd_base: u64,
    encoder: &E,
) -> (r: Result<()>)
    requires
        vals@.len() <= u64::MAX,
    ensures
        encoder.reliable() ==> r is Ok,
        r is Ok ==> {
            &&& final(meta)@ == old(meta)@ + values_meta(vals@, dvd_base as nat + old(data)@.len())
            &&& final(data)@ == old(data)@ + values_data(vals@)
        },
{
    let ghost data0 = data@;
    let ghost values = vals@;
    let choice: Choice = choose_layout(vals, encoder)?;
    let ghost l = layout_for(values);
    proof {
        if values.len() > 0 {
            lemma_stats_facts(values);
        }
    }
    let entries: Option<&[i64]> = match &choice.table {
        Some(t) => Some(t.as_slice()),
        None => None,
    };
    assert(slice_model(entries) == l.table);
    let before: usize = data.len();
    if choice.bits > 0 {
        let payload: Vec<u8> = vals.pack(encoder, choice.bits, choice.base, choice.gcd, entries)?;
        data.extend_from_slice(payload.as_slice());
    }
    assert(data@ =~= data0 + values_data(values));
    let len: u64 = (data.len() - before) as u64;
    write_stream_meta(meta, vals.len() as u64, entries, &choice, dvd_base, before as u64, len);
    Ok(())
}

/// The body shared by all entries with a value stream: which documents carry
/// values, then the values themselves.
///
/// Without `docs`, as many values as documents mean that every document has
/// one.
pub(crate) fn write_values<E: NumericEncoder>(
    meta: &mut Vec<u8>,
    data: &mut Vec<u8>,
    vals: &ValuesIn<'_>,
    docs: &[u32],
    max_doc: u32,
    dvd_base: u64,
    encoder: &E,
) -> (r: Result<()>)
    requires
        strictly_increasing(docs@),
        docs@.len() <= u32::MAX,
        vals@.len() <= u64::MAX,
    ensures
        encoder.reliable() ==> r is Ok,
        r is Ok ==> {
            &&& final(meta)@ == old(meta)@ + entry_meta(
                vals@,
                docs@,
                max_doc as nat,
                dvd_base as nat + old(data)@.len(),
            )
            &&& final(data)@ == old(data)@ + entry_data(vals@, docs@, max_doc as nat)
        },
{
    let ghost meta0 = meta@;
    let ghost data0 = data@;
    let num_values: u64 = vals.len() as u64;
    let n: u32 = if docs.len() == 0 && num_values == max_doc as u64 {
        max_doc
    } else {
        docs.len() as u32
    };
    write_presence(meta, data, n, docs, max_doc, dvd_base);
    write_stream(meta, data, vals, dvd_base, encoder)?;
    proof {
        let offset = dvd_base as nat + data0.len();
        assert(data@ =~= data0 + entry_data(vals@, docs@, max_doc as nat));
        assert(meta@ =~= meta0 + entry_meta(vals@, docs@, max_doc as nat, offset));
    }
    Ok(())
}

/// What the layout needs to know of the statistics.
pub proof fn lemma_stats_facts(values: Seq<i64>)
    requires
        values.len() > 0,
    ensures
        ({
            let st = stats_of(values);
            &&& st.min < st.max ==> st.gcd != 0
            &&& st.table matches Some(t) ==> sorted_strictly(t) && t.len() <= 256 && all_in_table(values, st.table)
            &&& packable(layout_of(st).bits)
        }),
{
    let st = stats_of(values);
    crate::stats::law_distinct_sorted(values);
    law_bits_required(quotient(st.max.wrapping_sub(st.min), st.gcd) as u64);
    if st.table is Some {
        law_bits_required((st.table->0.len() - 1) as u64);
        assert forall|i: int| 0 <= i < values.len() implies st.table->0.contains(#[trigger] values[i]) by {
            assert(values.contains(values[i]));
        }
    }
    if st.min < st.max {
        crate::stats::lemma_step_positive(values);
    }
}

/// A field's number and type, before its entry.
pub open spec fn field_head(field_number: i32, kind: u8) -> Seq<u8> {
    le_i32(field_number) + seq![kind]
}

/// The metadata of a NUMERIC field.
pub open spec fn numeric_meta(field_number: i32, values: Seq<i64>, docs: Seq<u32>, max_doc: nat, offset: nat) -> Seq<u8> {
    field_head(field_number, consts::TYPE_NUMERIC) + entry_meta(values, docs, max_doc, offset)
}

pub(crate) fn write_field_head(meta: &mut Vec<u8>, field_number: i32, kind: u8)
    ensures
        final(meta)@ == old(meta)@ + field_head(field_number, kind),
{
    push_le_i32(meta, field_number);
    meta.push(kind);
    assert(meta@ =~= old(meta)@ + field_head(field_number, kind));
}

/// Documents that a numeric field can be written for.
pub open spec fn docs_acceptable(docs: Seq<u32>, n: nat, max_doc: nat) -> bool {
    &&& docs.len() == n
    &&& strictly_increasing(docs)
    &&& docs.len() > 0 ==> docs.last() < max_doc
}

fn is_strictly_increasing(docs: &[u32]) -> (r: bool)
    ensures
        r == strictly_increasing(docs@),
{
    let mut i: usize = 1;
    while i < docs.len()
        invariant
            1 <= i,
            i <= docs@.len() || i == 1,
            strictly_increasing(docs@.take(if i <= docs@.len() {
                i as int
            } else {
                0
            })),
        decreases docs@.len() - i,
    {
        if docs[i - 1] >= docs[i] {
            return false;
        }
        assert(strictly_increasing(docs@.take(i + 1))) by {
            let t = docs@.take(i + 1);
            let u = docs@.take(i as int);
            assert forall|a: int, b: int| 0 <= a < b < t.len() implies t[a] < t[b] by {
                if b < i {
                    assert(u[a] < u[b]);
                } else if a < i - 1 {
                    assert(u[a] < u[i - 1]);
                }
            }
        }
        i = i + 1;
    }
    assert(docs@.len() > 0 ==> docs@.take(docs@.len() as int) =~= docs@);
    true
}

/// A sorted list of documents below `max_doc` has at most `max_doc` entries.
pub proof fn lemma_docs_len(docs: Seq<u32>, max_doc: nat)
    requires
        strictly_increasing(docs),
        docs.len() > 0 ==> docs.last() < max_doc,
    ensures
        docs.len() <= max_doc,
        forall|i: int| 0 <= i < docs.len() ==> #[trigger] docs[i] < max_doc,
{
    if docs.len() > 0 {
        lemma_doc_at_least(docs, docs.len() - 1);
        assert forall|i: int| 0 <= i < docs.len() implies #[trigger] docs[i] < max_doc by {
            if i < docs.len() - 1 {
                assert(docs[i] < docs[docs.len() - 1]);
            }
        }
    }
}

proof fn lemma_doc_at_least(docs: Seq<u32>, i: int)
    requires
        strictly_increasing(docs),
        0 <= i < docs.len(),
    ensures
        i <= docs[i],
    decreases i,
{
    if i > 0 {
        lemma_doc_at_least(docs, i - 1);
        assert(docs[i - 1] < docs[i]);
    }
}

/// Encode one NUMERIC doc-values field.
///
/// `docs` are the (sorted, unique) documents carrying a value; `values[i]`
/// belongs to `docs[i]`. `max_doc` is the segment's document count.
pub fn encode_numeric_field(field_number: i32, docs: &[u32], values: &[i64], max_doc: u32, dvd_base: u64) -> (r: Result<
    EncodedField,
>)
    ensures
        docs_acceptable(docs@, values@.len(), max_doc as nat) ==> (r matches Ok(f) && f.meta@ == numeric_meta(
            field_number,
            values@,
            docs@,
            max_doc as nat,
            dvd_base as nat,
        ) && f.data@ == entry_data(values@, docs@, max_doc as nat)),
        !docs_acceptable(docs@, values@.len(), max_doc as nat) ==> (r matches Err(e) && e.kind()
            == ErrorKind::InvalidArgument),
{
    encode_numeric_field_with(&CpuEncoder, field_number, docs, values, max_doc, dvd_base)
}

/// As [`encode_numeric_field`], with an explicit executor. Same policy
/// either way, so the same bytes.
pub fn encode_numeric_field_with<E: NumericEncoder>(
    encoder: &E,
    field_number: i32,
    docs: &[u32],
    values: &[i64],
    max_doc: u32,
    dvd_base: u64,
) -> (r: Result<EncodedField>)
    ensures
        docs_acceptable(docs@, values@.len(), max_doc as nat) ==> {
            &&& encoder.reliable() ==> r is Ok
            &&& r matches Ok(f) ==> f.meta@ == numeric_meta(
                field_number,
                values@,
                docs@,
                max_doc as nat,
                dvd_base as nat,
            ) && f.data@ == entry_data(values@, docs@, max_doc as nat)
        },
        !docs_acceptable(docs@, values@.len(), max_doc as nat) ==> (r matches Err(e) && e.kind()
            == ErrorKind::InvalidArgument),
{
    if docs.len() != values.len() {
        return Err(Error::invalid("docs and values length mismatch"));
    }
    if !is_strictly_increasing(docs) {
        return Err(Error::invalid("docs must be sorted and unique"));
    }
    if docs.len() > 0 && docs[docs.len() - 1] >= max_doc {
        return Err(Error::invalid("doc beyond max_doc"));
    }
    proof {
        lemma_docs_len(docs@, max_doc as nat);
    }
    let mut meta: Vec<u8> = Vec::new();
    let mut data: Vec<u8> = Vec::new();
    write_field_head(&mut meta, field_number, consts::TYPE_NUMERIC);
    write_values(&mut meta, &mut data, &ValuesIn::Flat(values), docs, max_doc, dvd_base, encoder)?;
    assert(data@ =~= entry_data(values@, docs@, max_doc as nat));
    assert(meta@ =~= numeric_meta(field_number, values@, docs@, max_doc as nat, dvd_base as nat));
    Ok(EncodedField { meta, data })
}

/// Encode one NUMERIC field in which every document has a value, straight
/// from a list of slices. The bytes are those of
/// [`encode_numeric_field_with`] on the concatenation.
pub fn encode_numeric_field_dense_chunks<E: NumericEncoder>(
    encoder: &E,
    field_number: i32,
    chunks: &[&[i64]],
    max_doc: u32,
    dvd_base: u64,
) -> (r: Result<EncodedField>)
    ensures
        concatenated(chunks@).len() == max_doc ==> {
            &&& encoder.reliable() ==> r is Ok
            &&& r matches Ok(f) ==> f.meta@ == numeric_meta(
                field_number,
                concatenated(chunks@),
                Seq::empty(),
                max_doc as nat,
                dvd_base as nat,
            ) && f.data@ == entry_data(concatenated(chunks@), Seq::empty(), max_doc as nat)
        },
        concatenated(chunks@).len() != max_doc ==> (r matches Err(e) && e.kind() == ErrorKind::InvalidArgument),
{
    if total_len(chunks) != max_doc as u128 {
        return Err(Error::invalid("dense chunks: value count differs from max_doc"));
    }
    let mut meta: Vec<u8> = Vec::new();
    let mut data: Vec<u8> = Vec::new();
    let none: [u32; 0] = [];
    write_field_head(&mut meta, field_number, consts::TYPE_NUMERIC);
    let ghost values = concatenated(chunks@);
    assert(none@ =~= Seq::<u32>::empty());
    write_values(&mut meta, &mut data, &ValuesIn::Chunks(chunks), none.as_slice(), max_doc, dvd_base, encoder)?;
    assert(data@ =~= entry_data(values, Seq::empty(), max_doc as nat));
    assert(meta@ =~= numeric_meta(field_number, values, Seq::empty(), max_doc as nat, dvd_base as nat));
    Ok(EncodedField { meta, data })
}

/// A field in which every document has a value is written the same with and
/// without its list of documents, from one slice or from several.
pub proof fn law_dense_needs_no_docs(field_number: i32, values: Seq<i64>, docs: Seq<u32>, max_doc: nat, offset: nat)
    requires
        values.len() == max_doc,
        docs.len() == max_doc,
    ensures
        numeric_meta(field_number, values, docs, max_doc, offset) == numeric_meta(
            field_number,
            values,
            Seq::empty(),
            max_doc,
            offset,
        ),
        entry_data(values, docs, max_doc) == entry_data(values, Seq::empty(), max_doc),
{
}

} // verus!
