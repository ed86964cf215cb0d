//! Metadata entries to decode plans.
//!
//! Walks every field entry of a metadata file. NUMERIC fields, and
//! SORTED_NUMERIC fields that turn out single-valued, become plain plans;
//! the other types become plans of their own shape.

use vstd::prelude::*;
use vstd::arithmetic::power2::pow2;
use vstd::slice::slice_subrange;
use crate::consts;
use crate::cursor::{
    footer_valid, i16_at, i32_at, i64_at, parse_i32, parse_i64, parse_index_header, parse_u8, parse_vint,
    parse_vlong, read_index_header, verify_footer, Cursor, IndexHeader, Parsed,
};
use crate::direct::ceil_div;
use crate::error::{Error, ErrorKind, Result};
use crate::monotonic::{
    block_count, decode, decoded, parse_meta, read_meta, MetaBlock, META_BYTES_PER_BLOCK,
};
use crate::plan::{
    blocks_model, BlockDecode, BlockModel, Coverage, DecodePlan, DisiPlan, FieldId, FieldIdModel,
    PlanModel, PLAN_VERSION,
};
use crate::schema::DataType;
use crate::terms::{TermsDictPlan, TermsPlanModel};

verus! {

/// Doc-values type of a field, as recorded in the field infos.
#[derive(Debug, Clone, Copy, PartialEq, Eq, Structural)]
pub enum DvKind {
    Numeric,
    Binary,
    Sorted,
    SortedNumeric,
    SortedSet,
}

/// What the planner needs to know about each doc-values field.
#[derive(Debug)]
pub struct DvField {
    pub number: i32,
    pub name: String,
    pub kind: DvKind,
    /// A skip index is present: extra metadata precedes the entry.
    pub has_skip_index: bool,
}

/// Where the set of documents with a value stands.
pub struct PresenceModel {
    pub offset: i64,
    pub len: i64,
    pub jump_table_entry_count: i16,
    pub dense_rank_power: u8,
}

/// The record of 19 bytes that says where the set of documents stands.
pub open spec fn parse_presence(b: Seq<u8>, p: nat) -> Parsed<PresenceModel> {
    if p + 19 > b.len() {
        Err(ErrorKind::Corrupt)
    } else {
        Ok(
            (
                PresenceModel {
                    offset: i64_at(b, p),
                    len: i64_at(b, p + 8),
                    jump_table_entry_count: i16_at(b, p + 16),
                    dense_rank_power: b[(p + 18) as int],
                },
                p + 19,
            ),
        )
    }
}

/// The coverage that a presence record stands for.
pub open spec fn coverage_of(pr: PresenceModel, num_values: u64, max_doc: u32) -> std::result::Result<Coverage, ErrorKind> {
    if pr.offset == -2 {
        Ok(Coverage::Empty { num_docs: max_doc })
    } else if pr.offset == -1 {
        Ok(Coverage::Dense { num_docs: max_doc })
    } else if pr.offset >= 0 {
        Ok(
            Coverage::Sparse {
                num_docs: max_doc,
                disi: DisiPlan {
                    offset: pr.offset as u64,
                    len: pr.len as u64,
                    jump_table_entry_count: pr.jump_table_entry_count,
                    dense_rank_power: pr.dense_rank_power,
                    num_values,
                },
            },
        )
    } else {
        Err(ErrorKind::Corrupt)
    }
}

/// A numeric entry.
pub struct EntryModel {
    pub presence: PresenceModel,
    pub num_values: i64,
    pub table: Option<Seq<i64>>,
    pub bits_per_value: u8,
    pub min: i64,
    pub gcd: i64,
    pub values_offset: i64,
    pub values_length: i64,
}

/// `n` little-endian numbers from `p` on.
pub open spec fn numbers_at(b: Seq<u8>, p: nat, n: nat) -> Seq<i64> {
    Seq::new(n, |i: int| i64_at(b, (p + 8 * i) as nat))
}

/// A table size that an entry can have.
pub open spec fn table_size_valid(n: i32) -> bool {
    0 < n <= 256 || n == -1 || n == consts::MULTI_BLOCK_TABLE_SIZE
}

/// The numeric entry at `p`.
pub open spec fn parse_numeric_entry(b: Seq<u8>, p: nat) -> Parsed<EntryModel> {
    if p + 31 > b.len() {
        Err(ErrorKind::Corrupt)
    } else {
        let size = i32_at(b, p + 27);
        let n = if size > 0 {
            size as nat
        } else {
            0
        };
        let q = p + 31 + 8 * n;
        if !table_size_valid(size) || q + 41 > b.len() {
            Err(ErrorKind::Corrupt)
        } else {
            Ok(
                (
                    EntryModel {
                        presence: parse_presence(b, p)->Ok_0.0,
                        num_values: i64_at(b, p + 19),
                        table: if size > 0 {
                            Some(numbers_at(b, p + 31, n))
                        } else {
                            None
                        },
                        bits_per_value: b[q as int],
                        min: i64_at(b, q + 1),
                        gcd: i64_at(b, q + 9),
                        values_offset: i64_at(b, q + 17),
                        values_length: i64_at(b, q + 25),
                    },
                    q + 41,
                ),
            )
        }
    }
}

/// The blocks of a value stream in multi-block mode: each block of up to
/// 16384 values has a header of its own in the data file.
pub open spec fn multi_blocks(dvd: Seq<u8>, p: nat, remaining: nat, gcd: i64) -> std::result::Result<
    Seq<BlockModel>,
    ErrorKind,
>
    decreases remaining,
{
    if remaining == 0 {
        Ok(Seq::empty())
    } else {
        let n = if remaining < consts::NUMERIC_BLOCK_SIZE {
            remaining
        } else {
            consts::NUMERIC_BLOCK_SIZE as nat
        };
        let rest = (remaining - n) as nat;
        if p + 9 > dvd.len() {
            Err(ErrorKind::Corrupt)
        } else if dvd[p as int] == 0 {
            match multi_blocks(dvd, p + 9, rest, gcd) {
                Err(k) => Err(k),
                Ok(blocks) => Ok(
                    seq![
                        BlockModel::DeltaPacked {
                            offset: (p + 9) as u64,
                            len: 0,
                            bit_width: 0,
                            base: i64_at(dvd, p + 1),
                            values: n as u64,
                        },
                    ] + blocks,
                ),
            }
        } else if p + 13 > dvd.len() {
            Err(ErrorKind::Corrupt)
        } else {
            let size = i32_at(dvd, p + 9);
            if size < 0 || p + 13 + size > dvd.len() {
                Err(ErrorKind::Corrupt)
            } else {
                match multi_blocks(dvd, p + 13 + size as nat, rest, gcd) {
                    Err(k) => Err(k),
                    Ok(blocks) => Ok(
                        seq![
                            BlockModel::GcdPacked {
                                offset: (p + 13) as u64,
                                len: size as u64,
                                bit_width: dvd[p as int],
                                base: i64_at(dvd, p + 1),
                                gcd,
                                values: n as u64,
                            },
                        ] + blocks,
                    ),
                }
            }
        }
    }
}

/// The one block of a value stream in single-block mode.
pub open spec fn single_block(e: EntryModel) -> BlockModel {
    let offset = e.values_offset as u64;
    let len = e.values_length as u64;
    let values = e.num_values as u64;
    let bit_width = e.bits_per_value;
    if e.table is Some {
        BlockModel::Table { offset, len, bit_width, table: e.table->0, values }
    } else if e.gcd != 1 {
        BlockModel::GcdPacked { offset, len, bit_width, base: e.min, gcd: e.gcd, values }
    } else if e.min != 0 {
        BlockModel::DeltaPacked { offset, len, bit_width, base: e.min, values }
    } else {
        BlockModel::Direct { offset, len, bit_width, values }
    }
}

/// The blocks of an entry.
pub open spec fn entry_blocks(e: EntryModel, dvd: Seq<u8>) -> std::result::Result<Seq<BlockModel>, ErrorKind> {
    let values = e.num_values as u64;
    if values == 0 {
        Ok(Seq::empty())
    } else if e.bits_per_value == 0 {
        Ok(
            seq![
                BlockModel::DeltaPacked {
                    offset: e.values_offset as u64,
                    len: 0,
                    bit_width: 0,
                    base: e.min,
                    values,
                },
            ],
        )
    } else if e.bits_per_value == consts::MULTI_BLOCK_BPV {
        multi_blocks(dvd, e.values_offset as u64 as nat, values as nat, e.gcd)
    } else {
        Ok(seq![single_block(e)])
    }
}

/// The plan of an entry.
pub open spec fn entry_plan(e: EntryModel, dvd: Seq<u8>, column: FieldIdModel, max_doc: u32, file: Seq<char>) -> std::result::Result<
    PlanModel,
    ErrorKind,
> {
    match coverage_of(e.presence, e.num_values as u64, max_doc) {
        Err(k) => Err(k),
        Ok(coverage) => match entry_blocks(e, dvd) {
            Err(k) => Err(k),
            Ok(blocks) => Ok(
                PlanModel {
                    plan_version: PLAN_VERSION,
                    column,
                    file,
                    arrow_type: DataType::Int64,
                    blocks,
                    coverage,
                    num_values: e.num_values as u64,
                },
            ),
        },
    }
}

/// Everything a numeric metadata entry records.
#[derive(Debug)]
struct NumericEntry {
    presence: Presence,
    num_values: i64,
    table: Option<Vec<i64>>,
    bits_per_value: u8,
    min: i64,
    gcd: i64,
    values_offset: i64,
    values_length: i64,
}

#[derive(Debug, Clone, Copy)]
struct Presence {
    offset: i64,
    len: i64,
    jump_table_entry_count: i16,
    dense_rank_power: u8,
}

impl Presence {
    spec fn model(self) -> PresenceModel {
        PresenceModel {
            offset: self.offset,
            len: self.len,
            jump_table_entry_count: self.jump_table_entry_count,
            dense_rank_power: self.dense_rank_power,
        }
    }

    fn coverage(&self, num_values: u64, max_doc: u32) -> (r: Result<Coverage>)
        ensures
            match coverage_of(self.model(), num_values, max_doc) {
                Ok(c) => r == Ok::<Coverage, Error>(c),
                Err(k) => r matches Err(e) && e.kind() == k,
            },
    {
        if self.offset == -2 {
            Ok(Coverage::Empty { num_docs: max_doc })
        } else if self.offset == -1 {
            Ok(Coverage::Dense { num_docs: max_doc })
        } else if self.offset >= 0 {
            Ok(
                Coverage::Sparse {
                    num_docs: max_doc,
                    disi: DisiPlan {
                        offset: self.offset as u64,
                        len: self.len as u64,
                        jump_table_entry_count: self.jump_table_entry_count,
                        dense_rank_power: self.dense_rank_power,
                        num_values,
                    },
                },
            )
        } else {
            Err(Error::corrupt("invalid docsWithFieldOffset"))
        }
    }
}

impl NumericEntry {
    spec fn model(self) -> EntryModel {
        EntryModel {
            presence: self.presence.model(),
            num_values: self.num_values,
            table: crate::stats::table_model(self.table),
            bits_per_value: self.bits_per_value,
            min: self.min,
            gcd: self.gcd,
            values_offset: self.values_offset,
            values_length: self.values_length,
        }
    }
}

fn read_presence(c: &mut Cursor<'_>) -> (r: Result<Presence>)
    ensures
        final(c).data() == old(c).data(),
        match parse_presence(old(c).data(), old(c).offset()) {
            Ok((v, q)) => (r matches Ok(w) && w.model() == v) && final(c).offset() == q,
            Err(k) => r matches Err(e) && e.kind() == k,
        },
{
    let offset: i64 = c.le_i64()?;
    let len: i64 = c.le_i64()?;
    let jump_table_entry_count: i16 = c.le_i16()?;
    let dense_rank_power: u8 = c.u8()?;
    Ok(Presence { offset, len, jump_table_entry_count, dense_rank_power })
}

/// Reads `n` numbers.
fn read_numbers(c: &mut Cursor<'_>, n: usize) -> (r: Result<Vec<i64>>)
    ensures
        final(c).data() == old(c).data(),
        old(c).offset() + 8 * n <= old(c).data().len() ==> (r matches Ok(v) && v@ == numbers_at(
            old(c).data(),
            old(c).offset(),
            n as nat,
        )) && final(c).offset() == old(c).offset() + 8 * n,
        old(c).offset() + 8 * n > old(c).data().len() ==> n == 0 || (r matches Err(e) && e.kind() == ErrorKind::Corrupt),
        n == 0 ==> (r matches Ok(v) && v@.len() == 0) && final(c).offset() == old(c).offset(),
{
    let mut out: Vec<i64> = Vec::new();
    let mut i: usize = 0;
    let ghost b = c.data();
    let ghost p = c.offset();
    while i < n
        invariant
            i <= n,
            b == old(c).data(),
            p == old(c).offset(),
            c.data() == b,
            c.offset() == p + 8 * i,
            i == 0 || c.offset() <= b.len(),
            out@ == numbers_at(b, p, i as nat),
        decreases n - i,
    {
        out.push(c.le_i64()?);
        i = i + 1;
        assert(out@ =~= numbers_at(b, p, i as nat));
    }
    Ok(out)
}

fn read_numeric_entry(c: &mut Cursor<'_>) -> (r: Result<NumericEntry>)
    ensures
        final(c).data() == old(c).data(),
        match parse_numeric_entry(old(c).data(), old(c).offset()) {
            Ok((v, q)) => (r matches Ok(w) && w.model() == v) && final(c).offset() == q,
            Err(k) => r matches Err(e) && e.kind() == k,
        },
{
    let presence: Presence = read_presence(c)?;
    let num_values: i64 = c.le_i64()?;
    let table_size: i32 = c.le_i32()?;
    if table_size > 256 {
        return Err(Error::corrupt("numeric table size > 256"));
    }
    if table_size <= 0 && table_size != -1 && table_size != consts::MULTI_BLOCK_TABLE_SIZE {
        return Err(Error::corrupt("invalid numeric table size"));
    }
    let table: Option<Vec<i64>> = if table_size > 0 {
        Some(read_numbers(c, table_size as usize)?)
    } else {
        None
    };
    let bits_per_value: u8 = c.u8()?;
    let min: i64 = c.le_i64()?;
    let gcd: i64 = c.le_i64()?;
    let values_offset: i64 = c.le_i64()?;
    let values_length: i64 = c.le_i64()?;
    c.skip(8)?;
    Ok(NumericEntry { presence, num_values, table, bits_per_value, min, gcd, values_offset, values_length })
}

/// Walks the block headers of a value stream in multi-block mode.
fn read_multi_blocks(dvd: &[u8], offset: u64, num_values: u64, gcd: i64) -> (r: Result<Vec<BlockDecode>>)
    requires
        num_values > 0,
    ensures
        match multi_blocks(dvd@, offset as nat, num_values as nat, gcd) {
            Ok(v) => r matches Ok(w) && blocks_model(w@) == v,
            Err(k) => r matches Err(e) && e.kind() == k,
        },
{
    let mut blocks: Vec<BlockDecode> = Vec::new();
    if offset > dvd.len() as u64 {
        return Err(Error::corrupt("values offset beyond data file"));
    }
    let mut d: Cursor<'_> = Cursor::at(dvd, offset as usize);
    let mut remaining: u64 = num_values;
    let ghost whole = multi_blocks(dvd@, offset as nat, num_values as nat, gcd);
    proof {
        assert(blocks_model(blocks@) =~= Seq::<BlockModel>::empty());
        if whole is Ok {
            assert(Seq::<BlockModel>::empty() + whole->Ok_0 =~= whole->Ok_0);
        }
    }
    while remaining > 0
        invariant
            d.data() == dvd@,
            whole == multi_blocks(dvd@, offset as nat, num_values as nat, gcd),
            match multi_blocks(dvd@, d.offset(), remaining as nat, gcd) {
                Ok(rest) => whole == Ok::<Seq<BlockModel>, ErrorKind>(blocks_model(blocks@) + rest),
                Err(k) => whole == Err::<Seq<BlockModel>, ErrorKind>(k),
            },
        decreases remaining,
    {
        let ghost before = blocks_model(blocks@);
        let n: u64 = if remaining < consts::NUMERIC_BLOCK_SIZE as u64 {
            remaining
        } else {
            consts::NUMERIC_BLOCK_SIZE as u64
        };
        let bpv: u8 = d.u8()?;
        let base: i64 = d.le_i64()?;
        let block: BlockDecode = if bpv == 0 {
            BlockDecode::DeltaPacked { offset: d.pos() as u64, len: 0, bit_width: 0, base, values: n }
        } else {
            let buffer_size: i32 = d.le_i32()?;
            if buffer_size < 0 {
                return Err(Error::corrupt("negative block buffer size"));
            }
            let at: u64 = d.pos() as u64;
            d.skip(buffer_size as usize)?;
            BlockDecode::GcdPacked { offset: at, len: buffer_size as u64, bit_width: bpv, base, gcd, values: n }
        };
        let ghost first = block@;
        blocks.push(block);
        proof {
            assert(blocks_model(blocks@) =~= before.push(first));
            let rest = multi_blocks(dvd@, d.offset(), (remaining - n) as nat, gcd);
            if rest is Ok {
                assert(before + (seq![first] + rest->Ok_0) =~= blocks_model(blocks@) + rest->Ok_0);
            }
        }
        remaining = remaining - n;
    }
    assert(blocks_model(blocks@) + Seq::<BlockModel>::empty() =~= blocks_model(blocks@));
    Ok(blocks)
}

fn numeric_entry_into_plan(entry: NumericEntry, dvd: &[u8], field_id: FieldId, max_doc: u32, dvd_file: &str) -> (r: Result<
    DecodePlan,
>)
    ensures
        match entry_plan(entry.model(), dvd@, field_id@, max_doc, dvd_file@) {
            Ok(v) => r matches Ok(w) && w@ == v,
            Err(k) => r matches Err(e) && e.kind() == k,
        },
{
    let num_values: u64 = entry.num_values as u64;
    let coverage: Coverage = entry.presence.coverage(num_values, max_doc)?;
    let ghost e = entry.model();
    let ghost expected = entry_blocks(e, dvd@);
    let blocks: Vec<BlockDecode> = if num_values == 0 {
        Vec::new()
    } else if entry.bits_per_value == consts::MULTI_BLOCK_BPV {
        read_multi_blocks(dvd, entry.values_offset as u64, num_values, entry.gcd)?
    } else {
        let offset: u64 = entry.values_offset as u64;
        let len: u64 = entry.values_length as u64;
        let bit_width: u8 = entry.bits_per_value;
        let mut one: Vec<BlockDecode> = Vec::new();
        if bit_width == 0 {
            one.push(BlockDecode::DeltaPacked { offset, len: 0, bit_width: 0, base: entry.min, values: num_values });
        } else {
            match entry.table {
                Some(table) => {
                    one.push(BlockDecode::Table { offset, len, bit_width, table, values: num_values });
                },
                None => {
                    if entry.gcd != 1 {
                        one.push(
                            BlockDecode::GcdPacked {
                                offset,
                                len,
                                bit_width,
                                base: entry.min,
                                gcd: entry.gcd,
                                values: num_values,
                            },
                        );
                    } else if entry.min != 0 {
                        one.push(
                            BlockDecode::DeltaPacked { offset, len, bit_width, base: entry.min, values: num_values },
                        );
                    } else {
                        one.push(BlockDecode::Direct { offset, len, bit_width, values: num_values });
                    }
                },
            }
        }
        assert(blocks_model(one@) =~= expected->Ok_0);
        one
    };
    assert(expected matches Ok(v) && blocks_model(blocks@) =~= v);
    Ok(
        DecodePlan {
            plan_version: PLAN_VERSION,
            column: field_id,
            file: dvd_file.to_owned(),
            arrow_type: DataType::Int64,
            blocks,
            coverage,
            num_values,
        },
    )
}

/// A DirectMonotonic address sequence in the data file: `count` monotone
/// values.
#[derive(Debug)]
pub struct AddressesPlan {
    pub offset: u64,
    pub len: u64,
    pub block_shift: u32,
    pub meta: Vec<MetaBlock>,
    pub count: u64,
}

pub struct AddressesModel {
    pub offset: u64,
    pub len: u64,
    pub block_shift: u32,
    pub meta: Seq<MetaBlock>,
    pub count: u64,
}

impl View for AddressesPlan {
    type V = AddressesModel;

    open spec fn view(&self) -> AddressesModel {
        AddressesModel {
            offset: self.offset,
            len: self.len,
            block_shift: self.block_shift,
            meta: self.meta@,
            count: self.count,
        }
    }
}

/// The sequence that an address plan stands for.
pub open spec fn addresses_of(a: AddressesModel, dvd: Seq<u8>) -> std::result::Result<Seq<i64>, ErrorKind> {
    if a.offset + a.len > dvd.len() {
        Err(ErrorKind::Corrupt)
    } else {
        decoded(a.meta, dvd.skip(a.offset as int), a.count as nat, a.block_shift)
    }
}

impl AddressesPlan {
    /// Bulk-decode the whole sequence from full data-file bytes.
    pub fn decode(&self, dvd: &[u8]) -> (r: Result<Vec<i64>>)
        ensures
            match addresses_of(self@, dvd@) {
                Ok(v) => r matches Ok(w) && w@ == v,
                Err(k) => r matches Err(e) && e.kind() == k,
            },
    {
        if self.offset as u128 + self.len as u128 > dvd.len() as u128 {
            return Err(Error::corrupt("addresses region beyond data file"));
        }
        let region: &[u8] = slice_subrange(dvd, self.offset as usize, dvd.len());
        assert(region@ =~= dvd@.skip(self.offset as int));
        decode(self.meta.as_slice(), region, self.count, self.block_shift)
    }
}

/// An address sequence: offset, block shift, meta blocks, length.
pub open spec fn parse_addresses(b: Seq<u8>, p: nat, count: u64) -> Parsed<AddressesModel> {
    match parse_i64(b, p) {
        Err(k) => Err(k),
        Ok((offset, p1)) => match parse_vint(b, p1) {
            Err(k) => Err(k),
            Ok((shift, p2)) => match parse_meta(b, p2, count as nat, shift as u32) {
                Err(k) => Err(k),
                Ok((meta, p3)) => match parse_i64(b, p3) {
                    Err(k) => Err(k),
                    Ok((len, p4)) => if offset < 0 || len < 0 {
                        Err(ErrorKind::Corrupt)
                    } else {
                        Ok(
                            (
                                AddressesModel {
                                    offset: offset as u64,
                                    len: len as u64,
                                    block_shift: shift as u32,
                                    meta,
                                    count,
                                },
                                p4,
                            ),
                        )
                    },
                },
            },
        },
    }
}

fn read_addresses(c: &mut Cursor<'_>, count: u64) -> (r: Result<AddressesPlan>)
    ensures
        final(c).data() == old(c).data(),
        match parse_addresses(old(c).data(), old(c).offset(), count) {
            Ok((v, q)) => (r matches Ok(w) && w@ == v) && final(c).offset() == q,
            Err(k) => r matches Err(e) && e.kind() == k,
        },
{
    let offset: i64 = c.le_i64()?;
    let block_shift: u32 = c.vint()? as u32;
    let meta: Vec<MetaBlock> = read_meta(c, count, block_shift)?;
    let len: i64 = c.le_i64()?;
    if offset < 0 || len < 0 {
        return Err(Error::corrupt("negative addresses offset/length"));
    }
    Ok(AddressesPlan { offset: offset as u64, len: len as u64, block_shift, meta, count })
}

/// How many meta blocks the reverse index of `num_terms` terms has.
pub open spec fn reverse_blocks(num_terms: nat, reverse_shift: nat) -> nat {
    ceil_div(ceil_div(num_terms, pow2(reverse_shift)) + 1, 65536)
}

/// The fixed part of a terms-dictionary entry behind its address metadata:
/// lengths, offsets, the shift of the reverse index; then the metadata of the
/// reverse index, which bulk reading skips.
pub open spec fn parse_terms_tail(b: Seq<u8>, p: nat, num_terms: u64, shift: u32, meta: Seq<MetaBlock>) -> Parsed<
    TermsPlanModel,
> {
    if p + 44 > b.len() {
        Err(ErrorKind::Corrupt)
    } else {
        let max_term_length = i32_at(b, p);
        let terms_offset = i64_at(b, p + 8);
        let terms_len = i64_at(b, p + 16);
        let addresses_offset = i64_at(b, p + 24);
        let addresses_len = i64_at(b, p + 32);
        let reverse_shift = i32_at(b, p + 40) as u32;
        let q = p + 44 + META_BYTES_PER_BLOCK * reverse_blocks(num_terms as nat, reverse_shift as nat) + 32;
        if terms_offset < 0 || terms_len < 0 || addresses_offset < 0 || addresses_len < 0 || max_term_length < 0 {
            Err(ErrorKind::Corrupt)
        } else if reverse_shift >= 64 || q > b.len() {
            Err(ErrorKind::Corrupt)
        } else {
            Ok(
                (
                    TermsPlanModel {
                        num_terms,
                        address_meta: meta,
                        address_block_shift: shift,
                        max_term_length: max_term_length as u32,
                        max_block_length: i32_at(b, p + 4) as u32,
                        terms_offset: terms_offset as u64,
                        terms_len: terms_len as u64,
                        addresses_offset: addresses_offset as u64,
                        addresses_len: addresses_len as u64,
                    },
                    q as nat,
                ),
            )
        }
    }
}

/// A terms-dictionary entry.
pub open spec fn parse_terms_dict(b: Seq<u8>, p: nat) -> Parsed<TermsPlanModel> {
    match parse_vlong(b, p) {
        Err(k) => Err(k),
        Ok((num_terms, p1)) => if num_terms < 0 {
            Err(ErrorKind::Corrupt)
        } else {
            match parse_i32(b, p1) {
                Err(k) => Err(k),
                Ok((shift, p2)) => match parse_meta(b, p2, ceil_div(num_terms as nat, 64), shift as u32) {
                    Err(k) => Err(k),
                    Ok((meta, p3)) => parse_terms_tail(b, p3, num_terms as u64, shift as u32, meta),
                },
            }
        },
    }
}

fn read_terms_tail(c: &mut Cursor<'_>, num_terms: u64, shift: u32, meta: Vec<MetaBlock>) -> (r: Result<TermsDictPlan>)
    ensures
        final(c).data() == old(c).data(),
        match parse_terms_tail(old(c).data(), old(c).offset(), num_terms, shift, meta@) {
            Ok((v, q)) => (r matches Ok(w) && w@ == v) && final(c).offset() == q,
            Err(k) => r matches Err(e) && e.kind() == k,
        },
{
    let max_term_length: i32 = c.le_i32()?;
    let max_block_length: i32 = c.le_i32()?;
    let terms_offset: i64 = c.le_i64()?;
    let terms_len: i64 = c.le_i64()?;
    let addresses_offset: i64 = c.le_i64()?;
    let addresses_len: i64 = c.le_i64()?;
    if terms_offset < 0 || terms_len < 0 || addresses_offset < 0 || addresses_len < 0 || max_term_length < 0 {
        return Err(Error::corrupt("negative terms dict field"));
    }
    let reverse_shift: u32 = c.le_i32()? as u32;
    if reverse_shift >= 64 {
        return Err(Error::corrupt("invalid reverse index shift"));
    }
    let reverse: u128 = (block_count(num_terms, reverse_shift) as u128 + 1 + 65535) / 65536;
    let per_block: u128 = META_BYTES_PER_BLOCK as u128;
    assert(reverse * per_block <= 0x1_0000_0000_0000_0000 * 21) by (nonlinear_arith)
        requires
            reverse <= 0x1_0000_0000_0000_0000,
            per_block == 21,
    ;
    assert(reverse * per_block == META_BYTES_PER_BLOCK * reverse) by (nonlinear_arith)
        requires
            per_block == META_BYTES_PER_BLOCK,
    ;
    let skipped: u128 = reverse * per_block + 32;
    if skipped > c.remaining() as u128 {
        return Err(Error::corrupt("terms dict reverse index truncated"));
    }
    c.skip(skipped as usize)?;
    Ok(
        TermsDictPlan {
            num_terms,
            address_meta: meta,
            address_block_shift: shift,
            max_term_length: max_term_length as u32,
            max_block_length: max_block_length as u32,
            terms_offset: terms_offset as u64,
            terms_len: terms_len as u64,
            addresses_offset: addresses_offset as u64,
            addresses_len: addresses_len as u64,
        },
    )
}

fn read_terms_dict(c: &mut Cursor<'_>) -> (r: Result<TermsDictPlan>)
    ensures
        final(c).data() == old(c).data(),
        match parse_terms_dict(old(c).data(), old(c).offset()) {
            Ok((v, q)) => (r matches Ok(w) && w@ == v) && final(c).offset() == q,
            Err(k) => r matches Err(e) && e.kind() == k,
        },
{
    let num_terms: i64 = c.vlong()?;
    if num_terms < 0 {
        return Err(Error::corrupt("negative term count"));
    }
    let shift: u32 = c.le_i32()? as u32;
    let num_blocks: u64 = (num_terms as u64 + 63) / 64;
    let meta: Vec<MetaBlock> = read_meta(c, num_blocks, shift)?;
    read_terms_tail(c, num_terms as u64, shift, meta)
}

/// A SORTED or SORTED_SET column: ordinal stream and terms dictionary.
#[derive(Debug)]
pub struct SortedPlan {
    /// Ordinal decode plan. Single-valued: one ordinal per document with a
    /// value. Multi-valued: the concatenated stream (`addresses` slices it).
    pub ords: DecodePlan,
    /// Present exactly if multi-valued: one offset more than there are
    /// documents with the field.
    pub addresses: Option<AddressesPlan>,
    pub terms: TermsDictPlan,
    /// Declared SORTED_SET, even if single-valued.
    pub set: bool,
}

/// A multi-valued SORTED_NUMERIC column.
#[derive(Debug)]
pub struct MultiNumericPlan {
    /// Concatenated value stream.
    pub values: DecodePlan,
    /// One offset more than there are documents with the field.
    pub addresses: AddressesPlan,
}

/// A BINARY column.
#[derive(Debug)]
pub struct BinaryPlan {
    pub column: FieldId,
    /// Concatenated value bytes in the data file.
    pub data_offset: u64,
    pub data_len: u64,
    pub coverage: Coverage,
    pub num_docs_with_field: u32,
    pub min_length: u32,
    pub max_length: u32,
    /// Absent for fixed-length values (`min_length` bytes each); otherwise
    /// start offsets relative to `data_offset`.
    pub addresses: Option<AddressesPlan>,
}

/// Planner output: plans by shape, and what was skipped and why.
#[derive(Debug)]
pub struct DocValuesPlans {
    /// NUMERIC and single-valued SORTED_NUMERIC.
    pub plans: Vec<DecodePlan>,
    pub sorted: Vec<SortedPlan>,
    pub multi_numeric: Vec<MultiNumericPlan>,
    pub binary: Vec<BinaryPlan>,
    pub skipped: Vec<(FieldId, &'static str)>,
}

pub struct SortedModel {
    pub ords: PlanModel,
    pub addresses: Option<AddressesModel>,
    pub terms: TermsPlanModel,
    pub set: bool,
}

pub struct MultiNumericModel {
    pub values: PlanModel,
    pub addresses: AddressesModel,
}

pub struct BinaryModel {
    pub column: FieldIdModel,
    pub data_offset: u64,
    pub data_len: u64,
    pub coverage: Coverage,
    pub num_docs_with_field: u32,
    pub min_length: u32,
    pub max_length: u32,
    pub addresses: Option<AddressesModel>,
}

/// Planner output as mathematical values.
pub struct PlansModel {
    pub plans: Seq<PlanModel>,
    pub sorted: Seq<SortedModel>,
    pub multi_numeric: Seq<MultiNumericModel>,
    pub binary: Seq<BinaryModel>,
}

pub open spec fn addresses_model(a: Option<AddressesPlan>) -> Option<AddressesModel> {
    match a {
        Some(a) => Some(a@),
        None => None,
    }
}

impl View for SortedPlan {
    type V = SortedModel;

    open spec fn view(&self) -> SortedModel {
        SortedModel {
            ords: self.ords@,
            addresses: addresses_model(self.addresses),
            terms: self.terms@,
            set: self.set,
        }
    }
}

impl View for MultiNumericPlan {
    type V = MultiNumericModel;

    open spec fn view(&self) -> MultiNumericModel {
        MultiNumericModel { values: self.values@, addresses: self.addresses@ }
    }
}

impl View for BinaryPlan {
    type V = BinaryModel;

    open spec fn view(&self) -> BinaryModel {
        BinaryModel {
            column: self.column@,
            data_offset: self.data_offset,
            data_len: self.data_len,
            coverage: self.coverage,
            num_docs_with_field: self.num_docs_with_field,
            min_length: self.min_length,
            max_length: self.max_length,
            addresses: addresses_model(self.addresses),
        }
    }
}

impl View for DocValuesPlans {
    type V = PlansModel;

    open spec fn view(&self) -> PlansModel {
        PlansModel {
            plans: Seq::new(self.plans@.len(), |i: int| self.plans@[i]@),
            sorted: Seq::new(self.sorted@.len(), |i: int| self.sorted@[i]@),
            multi_numeric: Seq::new(self.multi_numeric@.len(), |i: int| self.multi_numeric@[i]@),
            binary: Seq::new(self.binary@.len(), |i: int| self.binary@[i]@),
        }
    }
}

/// A BINARY entry: where the values stand, the presence record, counts and
/// lengths, and addresses where the lengths differ.
pub open spec fn parse_binary_entry(b: Seq<u8>, p: nat, column: FieldIdModel, max_doc: u32) -> Parsed<BinaryModel> {
    if p + 47 > b.len() {
        Err(ErrorKind::Corrupt)
    } else {
        let data_offset = i64_at(b, p);
        let data_len = i64_at(b, p + 8);
        let presence = parse_presence(b, p + 16)->Ok_0.0;
        let n = i32_at(b, p + 35);
        let min_length = i32_at(b, p + 39);
        let max_length = i32_at(b, p + 43);
        if data_offset < 0 || data_len < 0 || n < 0 || min_length < 0 || max_length < min_length {
            Err(ErrorKind::Corrupt)
        } else {
            match coverage_of(presence, n as u64, max_doc) {
                Err(k) => Err(k),
                Ok(coverage) => {
                    let fixed = BinaryModel {
                        column,
                        data_offset: data_offset as u64,
                        data_len: data_len as u64,
                        coverage,
                        num_docs_with_field: n as u32,
                        min_length: min_length as u32,
                        max_length: max_length as u32,
                        addresses: None,
                    };
                    if max_length == min_length {
                        Ok((fixed, p + 47))
                    } else {
                        match parse_addresses(b, p + 47, (n + 1) as u64) {
                            Err(k) => Err(k),
                            Ok((a, q)) => Ok((BinaryModel { addresses: Some(a), ..fixed }, q)),
                        }
                    }
                },
            }
        }
    }
}

fn read_binary_entry(c: &mut Cursor<'_>, column: FieldId, max_doc: u32) -> (r: Result<BinaryPlan>)
    ensures
        final(c).data() == old(c).data(),
        match parse_binary_entry(old(c).data(), old(c).offset(), column@, max_doc) {
            Ok((v, q)) => (r matches Ok(w) && w@ == v) && final(c).offset() == q,
            Err(k) => r matches Err(e) && e.kind() == k,
        },
{
    let data_offset: i64 = c.le_i64()?;
    let data_len: i64 = c.le_i64()?;
    let presence: Presence = read_presence(c)?;
    let num_docs_with_field: i32 = c.le_i32()?;
    let min_length: i32 = c.le_i32()?;
    let max_length: i32 = c.le_i32()?;
    if data_offset < 0 || data_len < 0 || num_docs_with_field < 0 || min_length < 0 || max_length < min_length {
        return Err(Error::corrupt("invalid BINARY entry"));
    }
    let coverage: Coverage = presence.coverage(num_docs_with_field as u64, max_doc)?;
    let addresses: Option<AddressesPlan> = if max_length > min_length {
        Some(read_addresses(c, num_docs_with_field as u64 + 1)?)
    } else {
        None
    };
    Ok(
        BinaryPlan {
            column,
            data_offset: data_offset as u64,
            data_len: data_len as u64,
            coverage,
            num_docs_with_field: num_docs_with_field as u32,
            min_length: min_length as u32,
            max_length: max_length as u32,
            addresses,
        },
    )
}

/// Multi-valued columns share the numeric entry layout, but the set of
/// documents tracks documents with the field, not values.
pub open spec fn with_doc_count(plan: PlanModel, n: u64) -> PlanModel {
    match plan.coverage {
        Coverage::Sparse { num_docs, disi } => PlanModel {
            coverage: Coverage::Sparse { num_docs, disi: DisiPlan { num_values: n, ..disi } },
            ..plan
        },
        _ => plan,
    }
}

fn fix_multi_coverage(plan: &mut DecodePlan, num_docs_with_field: u64)
    ensures
        final(plan)@ == with_doc_count(old(plan)@, num_docs_with_field),
{
    match plan.coverage {
        Coverage::Sparse { num_docs, disi } => {
            plan.coverage = Coverage::Sparse {
                num_docs,
                disi: DisiPlan {
                    offset: disi.offset,
                    len: disi.len,
                    jump_table_entry_count: disi.jump_table_entry_count,
                    dense_rank_power: disi.dense_rank_power,
                    num_values: num_docs_with_field,
                },
            };
        },
        _ => {},
    }
}

/// What one entry of a metadata file plans to.
pub enum FieldPlanModel {
    Numeric(PlanModel),
    Sorted(SortedModel),
    MultiNumeric(MultiNumericModel),
    Binary(BinaryModel),
}

/// A SORTED_NUMERIC entry.
pub open spec fn parse_sorted_numeric(
    b: Seq<u8>,
    p: nat,
    dvd: Seq<u8>,
    column: FieldIdModel,
    max_doc: u32,
    file: Seq<char>,
) -> Parsed<FieldPlanModel> {
    match parse_numeric_entry(b, p) {
        Err(k) => Err(k),
        Ok((e, p1)) => match parse_i32(b, p1) {
            Err(k) => Err(k),
            Ok((n, p2)) => match entry_plan(e, dvd, column, max_doc, file) {
                Err(k) => Err(k),
                Ok(plan) => if e.num_values <= n {
                    Ok((FieldPlanModel::Numeric(plan), p2))
                } else if n < 0 {
                    Err(ErrorKind::Corrupt)
                } else {
                    match parse_addresses(b, p2, (n + 1) as u64) {
                        Err(k) => Err(k),
                        Ok((addresses, q)) => Ok(
                            (
                                FieldPlanModel::MultiNumeric(
                                    MultiNumericModel { values: with_doc_count(plan, n as u64), addresses },
                                ),
                                q,
                            ),
                        ),
                    }
                },
            },
        },
    }
}

/// A SORTED entry.
pub open spec fn parse_sorted(
    b: Seq<u8>,
    p: nat,
    dvd: Seq<u8>,
    column: FieldIdModel,
    max_doc: u32,
    file: Seq<char>,
) -> Parsed<FieldPlanModel> {
    match parse_numeric_entry(b, p) {
        Err(k) => Err(k),
        Ok((e, p1)) => match entry_plan(e, dvd, column, max_doc, file) {
            Err(k) => Err(k),
            Ok(ords) => match parse_terms_dict(b, p1) {
                Err(k) => Err(k),
                Ok((terms, q)) => Ok(
                    (FieldPlanModel::Sorted(SortedModel { ords, addresses: None, terms, set: false }), q),
                ),
            },
        },
    }
}

/// The addresses of a SORTED_SET entry, and how many documents they are for.
pub open spec fn parse_set_addresses(b: Seq<u8>, p: nat, multi: u8) -> Parsed<Option<(AddressesModel, u64)>> {
    if multi == 0 {
        Ok((None, p))
    } else {
        match parse_i32(b, p) {
            Err(k) => Err(k),
            Ok((n, p1)) => if n < 0 {
                Err(ErrorKind::Corrupt)
            } else {
                match parse_addresses(b, p1, (n + 1) as u64) {
                    Err(k) => Err(k),
                    Ok((a, q)) => Ok((Some((a, n as u64)), q)),
                }
            },
        }
    }
}

/// A SORTED_SET entry.
pub open spec fn parse_sorted_set(
    b: Seq<u8>,
    p: nat,
    dvd: Seq<u8>,
    column: FieldIdModel,
    max_doc: u32,
    file: Seq<char>,
) -> Parsed<FieldPlanModel> {
    match parse_u8(b, p) {
        Err(k) => Err(k),
        Ok((multi, p1)) => match parse_numeric_entry(b, p1) {
            Err(k) => Err(k),
            Ok((e, p2)) => match parse_set_addresses(b, p2, multi) {
                Err(k) => Err(k),
                Ok((found, p3)) => match entry_plan(e, dvd, column, max_doc, file) {
                    Err(k) => Err(k),
                    Ok(plan) => match parse_terms_dict(b, p3) {
                        Err(k) => Err(k),
                        Ok((terms, q)) => {
                            let (ords, addresses) = match found {
                                Some((a, n)) => (with_doc_count(plan, n), Some(a)),
                                None => (plan, None),
                            };
                            Ok((FieldPlanModel::Sorted(SortedModel { ords, addresses, terms, set: true }), q))
                        },
                    },
                },
            },
        },
    }
}

/// What an entry of type `kind` plans to; a NUMERIC entry must be declared
/// so.
#[verifier::opaque]
pub open spec fn parse_field_plan(
    b: Seq<u8>,
    p: nat,
    dvd: Seq<u8>,
    field: FieldModel,
    kind: u8,
    max_doc: u32,
    file: Seq<char>,
) -> Parsed<FieldPlanModel> {
    let column = field.id;
    if kind == consts::TYPE_NUMERIC {
        if field.kind != DvKind::Numeric {
            Err(ErrorKind::Corrupt)
        } else {
            match parse_numeric_entry(b, p) {
                Err(k) => Err(k),
                Ok((e, q)) => match entry_plan(e, dvd, column, max_doc, file) {
                    Err(k) => Err(k),
                    Ok(plan) => Ok((FieldPlanModel::Numeric(plan), q)),
                },
            }
        }
    } else if kind == consts::TYPE_SORTED_NUMERIC {
        parse_sorted_numeric(b, p, dvd, column, max_doc, file)
    } else if kind == consts::TYPE_BINARY {
        match parse_binary_entry(b, p, column, max_doc) {
            Err(k) => Err(k),
            Ok((plan, q)) => Ok((FieldPlanModel::Binary(plan), q)),
        }
    } else if kind == consts::TYPE_SORTED {
        parse_sorted(b, p, dvd, column, max_doc, file)
    } else if kind == consts::TYPE_SORTED_SET {
        parse_sorted_set(b, p, dvd, column, max_doc, file)
    } else {
        Err(ErrorKind::Corrupt)
    }
}

/// A field as the planner sees it.
pub struct FieldModel {
    pub id: FieldIdModel,
    pub kind: DvKind,
    pub has_skip_index: bool,
}

impl View for DvField {
    type V = FieldModel;

    open spec fn view(&self) -> FieldModel {
        FieldModel {
            id: FieldIdModel { number: self.number, name: self.name@ },
            kind: self.kind,
            has_skip_index: self.has_skip_index,
        }
    }
}

/// Fields as the planner sees them.
pub open spec fn field_models(fields: Seq<DvField>) -> Seq<FieldModel> {
    Seq::new(fields.len(), |i: int| fields[i]@)
}

/// The first field with this number.
pub open spec fn find_field(fields: Seq<FieldModel>, number: i32) -> Option<int>
    decreases fields.len(),
{
    if fields.len() == 0 {
        None
    } else if fields[0].id.number == number {
        Some(0)
    } else {
        match find_field(fields.drop_first(), number) {
            Some(i) => Some(i + 1),
            None => None,
        }
    }
}

/// Plans with one more.
pub open spec fn plans_with(acc: PlansModel, plan: FieldPlanModel) -> PlansModel {
    match plan {
        FieldPlanModel::Numeric(m) => PlansModel { plans: acc.plans.push(m), ..acc },
        FieldPlanModel::Sorted(m) => PlansModel { sorted: acc.sorted.push(m), ..acc },
        FieldPlanModel::MultiNumeric(m) => PlansModel { multi_numeric: acc.multi_numeric.push(m), ..acc },
        FieldPlanModel::Binary(m) => PlansModel { binary: acc.binary.push(m), ..acc },
    }
}

/// One entry: field number, type byte, skip-index metadata where the field
/// has it, then the entry proper. Nothing at the end mark.
pub open spec fn parse_entry(
    b: Seq<u8>,
    p: nat,
    dvd: Seq<u8>,
    fields: Seq<FieldModel>,
    max_doc: u32,
    file: Seq<char>,
) -> Parsed<Option<FieldPlanModel>> {
    match parse_i32(b, p) {
        Err(k) => Err(k),
        Ok((number, p1)) => if number == -1 {
            Ok((None, p1))
        } else {
            match find_field(fields, number) {
                None => Err(ErrorKind::Corrupt),
                Some(i) => match parse_u8(b, p1) {
                    Err(k) => Err(k),
                    Ok((kind, p2)) => {
                        let p3 = if fields[i].has_skip_index {
                            p2 + 40
                        } else {
                            p2
                        };
                        if p3 > b.len() {
                            Err(ErrorKind::Corrupt)
                        } else {
                            match parse_field_plan(b, p3, dvd, fields[i], kind, max_doc, file) {
                                Err(k) => Err(k),
                                Ok((plan, q)) => Ok((Some(plan), q)),
                            }
                        }
                    },
                },
            }
        },
    }
}

/// All entries from `p` up to the end mark.
pub open spec fn parse_entries(
    b: Seq<u8>,
    p: nat,
    dvd: Seq<u8>,
    fields: Seq<FieldModel>,
    max_doc: u32,
    file: Seq<char>,
    acc: PlansModel,
) -> std::result::Result<PlansModel, ErrorKind>
    decreases b.len() - p,
    via parse_entries_decreases
{
    match parse_entry(b, p, dvd, fields, max_doc, file) {
        Err(k) => Err(k),
        Ok((None, q)) => Ok(acc),
        Ok((Some(plan), q)) => parse_entries(b, q, dvd, fields, max_doc, file, plans_with(acc, plan)),
    }
}

#[via_fn]
proof fn parse_entries_decreases(
    b: Seq<u8>,
    p: nat,
    dvd: Seq<u8>,
    fields: Seq<FieldModel>,
    max_doc: u32,
    file: Seq<char>,
    acc: PlansModel,
) {
    lemma_entry_advances(b, p, dvd, fields, max_doc, file);
}

proof fn lemma_meta_blocks_advance(b: Seq<u8>, p: nat, n: nat)
    ensures
        crate::monotonic::parse_meta_blocks(b, p, n) matches Ok((v, q)) ==> p <= q && (q <= b.len() || q == p),
    decreases n,
{
    if n > 0 {
        match crate::monotonic::parse_meta_block(b, p) {
            Ok((first, q)) => lemma_meta_blocks_advance(b, q, (n - 1) as nat),
            Err(_) => {},
        }
    }
}

proof fn lemma_addresses_advance(b: Seq<u8>, p: nat, count: u64)
    ensures
        parse_addresses(b, p, count) matches Ok((v, q)) ==> p < q <= b.len(),
{
    if parse_i64(b, p) is Ok {
        let p1 = p + 8;
        crate::cursor::lemma_varint_extent_bound(b, p1, 5);
        if parse_vint(b, p1) is Ok {
            let (shift, p2) = parse_vint(b, p1)->Ok_0;
            lemma_meta_blocks_advance(b, p2, ceil_div(count as nat, pow2((shift as u32) as nat)));
        }
    }
}

proof fn lemma_terms_advance(b: Seq<u8>, p: nat)
    ensures
        parse_terms_dict(b, p) matches Ok((v, q)) ==> p < q <= b.len(),
{
    crate::cursor::lemma_varint_extent_bound(b, p, 10);
    if parse_vlong(b, p) is Ok {
        let (n, p1) = parse_vlong(b, p)->Ok_0;
        if parse_i32(b, p1) is Ok {
            let (shift, p2) = parse_i32(b, p1)->Ok_0;
            lemma_meta_blocks_advance(
                b,
                p2,
                ceil_div(ceil_div(n as nat, 64), pow2((shift as u32) as nat)),
            );
        }
    }
}

proof fn lemma_sorted_numeric_advances(b: Seq<u8>, p: nat, dvd: Seq<u8>, column: FieldIdModel, max_doc: u32, file: Seq<char>)
    ensures
        parse_sorted_numeric(b, p, dvd, column, max_doc, file) matches Ok((v, q)) ==> p < q <= b.len(),
{
    if parse_numeric_entry(b, p) is Ok {
        let (e, p1) = parse_numeric_entry(b, p)->Ok_0;
        if parse_i32(b, p1) is Ok {
            let (n, p2) = parse_i32(b, p1)->Ok_0;
            lemma_addresses_advance(b, p2, (n + 1) as u64);
        }
    }
}

proof fn lemma_sorted_advances(b: Seq<u8>, p: nat, dvd: Seq<u8>, column: FieldIdModel, max_doc: u32, file: Seq<char>)
    ensures
        parse_sorted(b, p, dvd, column, max_doc, file) matches Ok((v, q)) ==> p < q <= b.len(),
{
    if parse_numeric_entry(b, p) is Ok {
        lemma_terms_advance(b, parse_numeric_entry(b, p)->Ok_0.1);
    }
}

proof fn lemma_sorted_set_advances(b: Seq<u8>, p: nat, dvd: Seq<u8>, column: FieldIdModel, max_doc: u32, file: Seq<char>)
    ensures
        parse_sorted_set(b, p, dvd, column, max_doc, file) matches Ok((v, q)) ==> p < q <= b.len(),
{
    if parse_u8(b, p) is Ok && parse_numeric_entry(b, p + 1) is Ok {
        let multi = b[p as int];
        let p2 = parse_numeric_entry(b, p + 1)->Ok_0.1;
        if parse_i32(b, p2) is Ok {
            let (n, p3) = parse_i32(b, p2)->Ok_0;
            lemma_addresses_advance(b, p3, (n + 1) as u64);
        }
        if parse_set_addresses(b, p2, multi) is Ok {
            lemma_terms_advance(b, parse_set_addresses(b, p2, multi)->Ok_0.1);
        }
    }
}

proof fn lemma_binary_advances(b: Seq<u8>, p: nat, column: FieldIdModel, max_doc: u32)
    ensures
        parse_binary_entry(b, p, column, max_doc) matches Ok((v, q)) ==> p < q <= b.len(),
{
    lemma_addresses_advance(b, p + 47, (i32_at(b, p + 35) + 1) as u64);
}

/// An entry that plans to something has bytes of its own.
proof fn lemma_entry_advances(b: Seq<u8>, p: nat, dvd: Seq<u8>, fields: Seq<FieldModel>, max_doc: u32, file: Seq<char>)
    ensures
        parse_entry(b, p, dvd, fields, max_doc, file) matches Ok((Some(plan), q)) ==> p < q <= b.len(),
{
    reveal(parse_field_plan);
    let found = find_field(fields, i32_at(b, p));
    if p + 5 <= b.len() && found is Some {
        let f = fields[found->0];
        let p3 = if f.has_skip_index {
            p + 45
        } else {
            p + 5
        };
        lemma_sorted_numeric_advances(b, p3, dvd, f.id, max_doc, file);
        lemma_sorted_advances(b, p3, dvd, f.id, max_doc, file);
        lemma_sorted_set_advances(b, p3, dvd, f.id, max_doc, file);
        lemma_binary_advances(b, p3, f.id, max_doc);
    }
}

fn find_field_index(fields: &[DvField], number: i32) -> (r: Option<usize>)
    ensures
        match r {
            Some(i) => find_field(field_models(fields@), number) == Some(i as int) && i < fields@.len(),
            None => find_field(field_models(fields@), number) is None,
        },
{
    let ghost m = field_models(fields@);
    let mut i: usize = 0;
    assert(m.skip(0) =~= m);
    while i < fields.len()
        invariant
            i <= fields@.len(),
            m == field_models(fields@),
            match find_field(m.skip(i as int), number) {
                Some(k) => find_field(m, number) == Some(i + k),
                None => find_field(m, number) is None,
            },
        decreases fields@.len() - i,
    {
        assert(m.skip(i as int).drop_first() =~= m.skip(i + 1));
        if fields[i].number == number {
            return Some(i);
        }
        i = i + 1;
    }
    None
}

/// What one entry of a metadata file plans to.
enum FieldPlan {
    Numeric(DecodePlan),
    Sorted(SortedPlan),
    MultiNumeric(MultiNumericPlan),
    Binary(BinaryPlan),
}

impl FieldPlan {
    spec fn model(self) -> FieldPlanModel {
        match self {
            FieldPlan::Numeric(p) => FieldPlanModel::Numeric(p@),
            FieldPlan::Sorted(p) => FieldPlanModel::Sorted(p@),
            FieldPlan::MultiNumeric(p) => FieldPlanModel::MultiNumeric(p@),
            FieldPlan::Binary(p) => FieldPlanModel::Binary(p@),
        }
    }
}

fn plan_sorted_numeric(c: &mut Cursor<'_>, dvd: &[u8], column: FieldId, max_doc: u32, dvd_file: &str) -> (r: Result<
    FieldPlan,
>)
    ensures
        final(c).data() == old(c).data(),
        match parse_sorted_numeric(old(c).data(), old(c).offset(), dvd@, column@, max_doc, dvd_file@) {
            Ok((v, q)) => (r matches Ok(w) && w.model() == v) && final(c).offset() == q,
            Err(k) => r matches Err(e) && e.kind() == k,
        },
{
    let entry: NumericEntry = read_numeric_entry(c)?;
    let n: i32 = c.le_i32()?;
    let num_values: i64 = entry.num_values;
    let mut plan: DecodePlan = numeric_entry_into_plan(entry, dvd, column, max_doc, dvd_file)?;
    if num_values <= n as i64 {
        return Ok(FieldPlan::Numeric(plan));
    }
    if n < 0 {
        return Err(Error::corrupt("negative document count"));
    }
    let addresses: AddressesPlan = read_addresses(c, n as u64 + 1)?;
    fix_multi_coverage(&mut plan, n as u64);
    Ok(FieldPlan::MultiNumeric(MultiNumericPlan { values: plan, addresses }))
}

fn plan_sorted(c: &mut Cursor<'_>, dvd: &[u8], column: FieldId, max_doc: u32, dvd_file: &str) -> (r: Result<FieldPlan>)
    ensures
        final(c).data() == old(c).data(),
        match parse_sorted(old(c).data(), old(c).offset(), dvd@, column@, max_doc, dvd_file@) {
            Ok((v, q)) => (r matches Ok(w) && w.model() == v) && final(c).offset() == q,
            Err(k) => r matches Err(e) && e.kind() == k,
        },
{
    let entry: NumericEntry = read_numeric_entry(c)?;
    let ords: DecodePlan = numeric_entry_into_plan(entry, dvd, column, max_doc, dvd_file)?;
    let terms: TermsDictPlan = read_terms_dict(c)?;
    Ok(FieldPlan::Sorted(SortedPlan { ords, addresses: None, terms, set: false }))
}

fn read_set_addresses(c: &mut Cursor<'_>, multi: u8) -> (r: Result<Option<(AddressesPlan, u64)>>)
    ensures
        final(c).data() == old(c).data(),
        match parse_set_addresses(old(c).data(), old(c).offset(), multi) {
            Ok((v, q)) => (r matches Ok(w) && match (w, v) {
                (Some((a, n)), Some((b, m))) => a@ == b && n == m,
                (None, None) => true,
                _ => false,
            }) && final(c).offset() == q,
            Err(k) => r matches Err(e) && e.kind() == k,
        },
{
    if multi == 0 {
        return Ok(None);
    }
    let n: i32 = c.le_i32()?;
    if n < 0 {
        return Err(Error::corrupt("negative document count"));
    }
    let addresses: AddressesPlan = read_addresses(c, n as u64 + 1)?;
    Ok(Some((addresses, n as u64)))
}

fn plan_sorted_set(c: &mut Cursor<'_>, dvd: &[u8], column: FieldId, max_doc: u32, dvd_file: &str) -> (r: Result<FieldPlan>)
    ensures
        final(c).data() == old(c).data(),
        match parse_sorted_set(old(c).data(), old(c).offset(), dvd@, column@, max_doc, dvd_file@) {
            Ok((v, q)) => (r matches Ok(w) && w.model() == v) && final(c).offset() == q,
            Err(k) => r matches Err(e) && e.kind() == k,
        },
{
    let multi: u8 = c.u8()?;
    let entry: NumericEntry = read_numeric_entry(c)?;
    let found: Option<(AddressesPlan, u64)> = read_set_addresses(c, multi)?;
    let mut ords: DecodePlan = numeric_entry_into_plan(entry, dvd, column, max_doc, dvd_file)?;
    let terms: TermsDictPlan = read_terms_dict(c)?;
    let addresses: Option<AddressesPlan> = match found {
        Some((a, n)) => {
            fix_multi_coverage(&mut ords, n);
            Some(a)
        },
        None => None,
    };
    Ok(FieldPlan::Sorted(SortedPlan { ords, addresses, terms, set: true }))
}

fn plan_field(c: &mut Cursor<'_>, dvd: &[u8], field: &DvField, kind: u8, max_doc: u32, dvd_file: &str) -> (r: Result<
    FieldPlan,
>)
    ensures
        final(c).data() == old(c).data(),
        match parse_field_plan(old(c).data(), old(c).offset(), dvd@, field@, kind, max_doc, dvd_file@) {
            Ok((v, q)) => (r matches Ok(w) && w.model() == v) && final(c).offset() == q,
            Err(k) => r matches Err(e) && e.kind() == k,
        },
{
    proof {
        reveal(parse_field_plan);
    }
    let column: FieldId = FieldId::new(field.number, field.name.as_str());
    assert(column@ == field@.id);
    if kind == consts::TYPE_NUMERIC {
        if field.kind != DvKind::Numeric {
            return Err(Error::corrupt("field is not NUMERIC in the field infos but NUMERIC in its entry"));
        }
        let entry: NumericEntry = read_numeric_entry(c)?;
        Ok(FieldPlan::Numeric(numeric_entry_into_plan(entry, dvd, column, max_doc, dvd_file)?))
    } else if kind == consts::TYPE_SORTED_NUMERIC {
        plan_sorted_numeric(c, dvd, column, max_doc, dvd_file)
    } else if kind == consts::TYPE_BINARY {
        Ok(FieldPlan::Binary(read_binary_entry(c, column, max_doc)?))
    } else if kind == consts::TYPE_SORTED {
        plan_sorted(c, dvd, column, max_doc, dvd_file)
    } else if kind == consts::TYPE_SORTED_SET {
        plan_sorted_set(c, dvd, column, max_doc, dvd_file)
    } else {
        Err(Error::corrupt("invalid doc values type byte"))
    }
}

fn plan_entry(c: &mut Cursor<'_>, dvd: &[u8], fields: &[DvField], max_doc: u32, dvd_file: &str) -> (r: Result<
    Option<FieldPlan>,
>)
    ensures
        final(c).data() == old(c).data(),
        match parse_entry(old(c).data(), old(c).offset(), dvd@, field_models(fields@), max_doc, dvd_file@) {
            Ok((Some(v), q)) => (r matches Ok(Some(w)) && w.model() == v) && final(c).offset() == q,
            Ok((None, q)) => (r matches Ok(None)) && final(c).offset() == q,
            Err(k) => r matches Err(e) && e.kind() == k,
        },
{
    let number: i32 = c.le_i32()?;
    if number == -1 {
        return Ok(None);
    }
    let i: usize = match find_field_index(fields, number) {
        Some(i) => i,
        None => {
            return Err(Error::corrupt("entry references unknown field number"));
        },
    };
    let kind: u8 = c.u8()?;
    if fields[i].has_skip_index {
        c.skip(40)?;
    }
    Ok(Some(plan_field(c, dvd, &fields[i], kind, max_doc, dvd_file)?))
}

fn add_plan(plans: &mut DocValuesPlans, plan: FieldPlan)
    ensures
        final(plans)@ == plans_with(old(plans)@, plan.model()),
        final(plans).skipped@ == old(plans).skipped@,
{
    let ghost before = plans@;
    match plan {
        FieldPlan::Numeric(p) => {
            plans.plans.push(p);
            assert(plans@.plans =~= before.plans.push(p@));
        },
        FieldPlan::Sorted(p) => {
            plans.sorted.push(p);
            assert(plans@.sorted =~= before.sorted.push(p@));
        },
        FieldPlan::MultiNumeric(p) => {
            plans.multi_numeric.push(p);
            assert(plans@.multi_numeric =~= before.multi_numeric.push(p@));
        },
        FieldPlan::Binary(p) => {
            plans.binary.push(p);
            assert(plans@.binary =~= before.binary.push(p@));
        },
    }
    assert(plans@.plans =~= plans_with(before, plan.model()).plans);
    assert(plans@.sorted =~= plans_with(before, plan.model()).sorted);
    assert(plans@.multi_numeric =~= plans_with(before, plan.model()).multi_numeric);
    assert(plans@.binary =~= plans_with(before, plan.model()).binary);
}

/// No plans.
pub open spec fn no_plans() -> PlansModel {
    PlansModel { plans: Seq::empty(), sorted: Seq::empty(), multi_numeric: Seq::empty(), binary: Seq::empty() }
}

/// What a whole metadata file plans to.
pub open spec fn doc_values_plans(
    dvm: Seq<u8>,
    dvd: Seq<u8>,
    fields: Seq<FieldModel>,
    max_doc: u32,
    file: Seq<char>,
) -> std::result::Result<PlansModel, ErrorKind> {
    match parse_index_header(dvm, consts::META_CODEC@, consts::VERSION, consts::VERSION) {
        Err(k) => Err(k),
        Ok(h) => if !footer_valid(dvm) {
            Err(ErrorKind::Corrupt)
        } else {
            parse_entries(dvm, h.length, dvd, fields, max_doc, file, no_plans())
        },
    }
}

/// Parse a whole metadata file (header and footer with it) into decode
/// plans. `dvd` is needed only to walk multi-block value headers; for
/// single-block fields it is untouched.
pub fn plan_doc_values(dvm: &[u8], dvd: &[u8], fields: &[DvField], max_doc: u32, dvd_file: &str) -> (r: Result<
    DocValuesPlans,
>)
    ensures
        match doc_values_plans(dvm@, dvd@, field_models(fields@), max_doc, dvd_file@) {
            Ok(v) => r matches Ok(w) && w@ == v && w.skipped@.len() == 0,
            Err(k) => r matches Err(e) && e.kind() == k,
        },
{
    let header: IndexHeader = read_index_header(dvm, consts::META_CODEC, consts::VERSION, consts::VERSION)?;
    verify_footer(dvm)?;
    let mut c: Cursor<'_> = Cursor::at(dvm, header.length);
    let mut plans: DocValuesPlans = DocValuesPlans {
        plans: Vec::new(),
        sorted: Vec::new(),
        multi_numeric: Vec::new(),
        binary: Vec::new(),
        skipped: Vec::new(),
    };
    let ghost whole = parse_entries(dvm@, c.offset(), dvd@, field_models(fields@), max_doc, dvd_file@, no_plans());
    proof {
        assert(plans@.plans =~= no_plans().plans);
        assert(plans@.sorted =~= no_plans().sorted);
        assert(plans@.multi_numeric =~= no_plans().multi_numeric);
        assert(plans@.binary =~= no_plans().binary);
    }
    loop
        invariant
            c.data() == dvm@,
            plans.skipped@.len() == 0,
            whole == doc_values_plans(dvm@, dvd@, field_models(fields@), max_doc, dvd_file@),
            parse_entries(dvm@, c.offset(), dvd@, field_models(fields@), max_doc, dvd_file@, plans@) == whole,
        decreases dvm@.len() - c.offset(),
    {
        proof {
            lemma_entry_advances(dvm@, c.offset(), dvd@, field_models(fields@), max_doc, dvd_file@);
        }
        match plan_entry(&mut c, dvd, fields, max_doc, dvd_file)? {
            Some(plan) => {
                add_plan(&mut plans, plan);
            },
            None => {
                return Ok(plans);
            },
        }
    }
}

/// An entry of type `kind` whose values stand in at most one block.
pub open spec fn one_block(b: Seq<u8>, p: nat, kind: u8) -> bool {
    let at = if kind == consts::TYPE_SORTED_SET {
        p + 1
    } else {
        p
    };
    kind == consts::TYPE_BINARY || (parse_numeric_entry(b, at) matches Ok((e, _)) ==> e.num_values == 0
        || e.bits_per_value != consts::MULTI_BLOCK_BPV)
}

/// The entry at `p` has its values in at most one block.
pub open spec fn one_block_entry(b: Seq<u8>, p: nat, fields: Seq<FieldModel>) -> bool {
    match (parse_i32(b, p), parse_u8(b, p + 4)) {
        (Ok((number, _)), Ok((kind, _))) => match find_field(fields, number) {
            Some(i) => one_block(
                b,
                if fields[i].has_skip_index {
                    p + 45
                } else {
                    p + 5
                },
                kind,
            ),
            None => true,
        },
        _ => true,
    }
}

/// All entries from `p` on have their values in at most one block each.
pub open spec fn one_block_entries(b: Seq<u8>, p: nat, fields: Seq<FieldModel>, max_doc: u32, file: Seq<char>) -> bool
    decreases b.len() - p,
    via one_block_entries_decreases
{
    one_block_entry(b, p, fields) && (parse_entry(b, p, Seq::empty(), fields, max_doc, file) matches Ok((Some(_), q))
        ==> one_block_entries(b, q, fields, max_doc, file))
}

#[via_fn]
proof fn one_block_entries_decreases(b: Seq<u8>, p: nat, fields: Seq<FieldModel>, max_doc: u32, file: Seq<char>) {
    lemma_entry_advances(b, p, Seq::empty(), fields, max_doc, file);
}

proof fn lemma_blocks_need_no_data(e: EntryModel, dvd: Seq<u8>)
    requires
        e.num_values == 0 || e.bits_per_value != consts::MULTI_BLOCK_BPV,
    ensures
        entry_blocks(e, dvd) == entry_blocks(e, Seq::empty()),
{
}

proof fn lemma_field_needs_no_data(
    b: Seq<u8>,
    p: nat,
    dvd: Seq<u8>,
    field: FieldModel,
    kind: u8,
    max_doc: u32,
    file: Seq<char>,
)
    requires
        one_block(b, p, kind),
    ensures
        parse_field_plan(b, p, dvd, field, kind, max_doc, file) == parse_field_plan(
            b,
            p,
            Seq::empty(),
            field,
            kind,
            max_doc,
            file,
        ),
{
    reveal(parse_field_plan);
    let at = if kind == consts::TYPE_SORTED_SET {
        p + 1
    } else {
        p
    };
    if kind != consts::TYPE_BINARY && parse_numeric_entry(b, at) is Ok {
        let e = parse_numeric_entry(b, at)->Ok_0.0;
        lemma_blocks_need_no_data(e, dvd);
        assert(entry_plan(e, dvd, field.id, max_doc, file) == entry_plan(e, Seq::empty(), field.id, max_doc, file));
    }
}

proof fn lemma_entry_needs_no_data(
    b: Seq<u8>,
    p: nat,
    dvd: Seq<u8>,
    fields: Seq<FieldModel>,
    max_doc: u32,
    file: Seq<char>,
)
    requires
        one_block_entry(b, p, fields),
    ensures
        parse_entry(b, p, dvd, fields, max_doc, file) == parse_entry(b, p, Seq::empty(), fields, max_doc, file),
{
    let found = find_field(fields, i32_at(b, p));
    if p + 5 <= b.len() && found is Some {
        let f = fields[found->0];
        let p3 = if f.has_skip_index {
            p + 45
        } else {
            p + 5
        };
        lemma_field_needs_no_data(b, p3, dvd, f, b[(p + 4) as int], max_doc, file);
    }
}

proof fn lemma_entries_need_no_data(
    b: Seq<u8>,
    p: nat,
    dvd: Seq<u8>,
    fields: Seq<FieldModel>,
    max_doc: u32,
    file: Seq<char>,
    acc: PlansModel,
)
    requires
        one_block_entries(b, p, fields, max_doc, file),
    ensures
        parse_entries(b, p, dvd, fields, max_doc, file, acc) == parse_entries(
            b,
            p,
            Seq::empty(),
            fields,
            max_doc,
            file,
            acc,
        ),
    decreases b.len() - p,
{
    lemma_entry_needs_no_data(b, p, dvd, fields, max_doc, file);
    lemma_entry_advances(b, p, Seq::empty(), fields, max_doc, file);
    match parse_entry(b, p, Seq::empty(), fields, max_doc, file) {
        Ok((Some(plan), q)) => lemma_entries_need_no_data(b, q, dvd, fields, max_doc, file, plans_with(acc, plan)),
        _ => {},
    }
}

/// Planning takes metadata alone: where no field has its values in several
/// blocks, the data file does not matter to it.
pub proof fn law_planning_needs_no_data(
    dvm: Seq<u8>,
    dvd: Seq<u8>,
    other: Seq<u8>,
    fields: Seq<FieldModel>,
    max_doc: u32,
    file: Seq<char>,
)
    requires
        parse_index_header(dvm, consts::META_CODEC@, consts::VERSION, consts::VERSION) matches Ok(h)
            ==> one_block_entries(dvm, h.length, fields, max_doc, file),
    ensures
        doc_values_plans(dvm, dvd, fields, max_doc, file) == doc_values_plans(dvm, other, fields, max_doc, file),
{
    match parse_index_header(dvm, consts::META_CODEC@, consts::VERSION, consts::VERSION) {
        Ok(h) => {
            lemma_entries_need_no_data(dvm, h.length, dvd, fields, max_doc, file, no_plans());
            lemma_entries_need_no_data(dvm, h.length, other, fields, max_doc, file, no_plans());
        },
        Err(_) => {},
    }
}

/// The field with a number is the first that has it; where there is none, no
/// field has it.
pub proof fn law_field_found(fields: Seq<FieldModel>, number: i32)
    ensures
        match find_field(fields, number) {
            Some(i) => 0 <= i < fields.len() && fields[i].id.number == number && forall|k: int|
                0 <= k < i ==> (#[trigger] fields[k]).id.number != number,
            None => forall|k: int| 0 <= k < fields.len() ==> (#[trigger] fields[k]).id.number != number,
        },
    decreases fields.len(),
{
    if fields.len() > 0 && fields[0].id.number != number {
        let rest = fields.drop_first();
        law_field_found(rest, number);
        assert forall|k: int| 0 < k < fields.len() implies fields[k] == #[trigger] rest[k - 1] by {}
        match find_field(fields, number) {
            Some(i) => {
                assert forall|k: int| 0 <= k < i implies (#[trigger] fields[k]).id.number != number by {
                    if k > 0 {
                        assert(rest[k - 1].id.number != number);
                    }
                }
            },
            None => {
                assert forall|k: int| 0 <= k < fields.len() implies (#[trigger] fields[k]).id.number != number by {
                    if k > 0 {
                        assert(rest[k - 1].id.number != number);
                    }
                }
            },
        }
    }
}

/// An entry of a field that the segment does not have is corruption, and so
/// is a numeric entry of a field that is declared otherwise.
pub proof fn law_stray_entries_refused(
    b: Seq<u8>,
    p: nat,
    dvd: Seq<u8>,
    fields: Seq<FieldModel>,
    max_doc: u32,
    file: Seq<char>,
    number: i32,
)
    requires
        number != -1,
        parse_i32(b, p) matches Ok((n, q)) && n == number && q < b.len(),
        (forall|k: int| 0 <= k < fields.len() ==> (#[trigger] fields[k]).id.number != number) || (exists|i: int|
            0 <= i < fields.len() && (#[trigger] fields[i]).id.number == number && fields[i].kind != DvKind::Numeric
                && forall|k: int| 0 <= k < i ==> (#[trigger] fields[k]).id.number != number) && b[parse_i32(
            b,
            p,
        )->Ok_0.1 as int] == 0,
    ensures
        parse_entry(b, p, dvd, fields, max_doc, file) == Err::<(Option<FieldPlanModel>, nat), ErrorKind>(
            ErrorKind::Corrupt,
        ),
{
    reveal(parse_field_plan);
    law_field_found(fields, number);
    if find_field(fields, number) is Some {
        let i = choose|i: int|
            0 <= i < fields.len() && (#[trigger] fields[i]).id.number == number && fields[i].kind != DvKind::Numeric
                && forall|k: int| 0 <= k < i ==> (#[trigger] fields[k]).id.number != number;
        assert(find_field(fields, number) == Some(i));
    }
}

} // verus!
