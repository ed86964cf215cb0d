//! Decode and encode plans: how byte ranges become a typed column, and back.
//!
//! Plans are produced by the metadata-parsing stage and consumed by
//! executors, which produce bit-identical output for the same plan.

use vstd::prelude::*;
use crate::schema::DataType;

verus! {

/// Internal plan-format version. Not a wire contract.
pub const PLAN_VERSION: u32 = 1;

/// Identifies one column of one segment: field number and name.
#[derive(Debug)]
pub struct FieldId {
    pub number: i32,
    pub name: String,
}

impl FieldId {
    pub fn new(number: i32, name: &str) -> (r: FieldId)
        ensures
            r.number == number,
            r.name@ == name@,
    {
        FieldId { number, name: name.to_owned() }
    }

    /// A second identifier with the same number and name.
    pub fn duplicate(&self) -> (r: FieldId)
        ensures
            r@ == self@,
    {
        FieldId { number: self.number, name: self.name.clone() }
    }
}

/// A field identifier as mathematical values.
pub struct FieldIdModel {
    pub number: i32,
    pub name: Seq<char>,
}

impl View for FieldId {
    type V = FieldIdModel;

    open spec fn view(&self) -> FieldIdModel {
        FieldIdModel { number: self.number, name: self.name@ }
    }
}

/// How to decode one contiguous run of packed values.
///
/// Offsets are absolute byte offsets into the data file. Every packed
/// variant carries `values`: how many logical values the block yields. A
/// `bit_width` of 0 means that there are no payload bytes and every value
/// equals the base.
#[derive(Debug)]
pub enum BlockDecode {
    /// `value = unpack(bits)`.
    Direct { offset: u64, len: u64, bit_width: u8, values: u64 },
    /// `value = base + unpack(bits)`.
    DeltaPacked { offset: u64, len: u64, bit_width: u8, base: i64, values: u64 },
    /// `value = base + gcd * unpack(bits)`.
    GcdPacked { offset: u64, len: u64, bit_width: u8, base: i64, gcd: i64, values: u64 },
    /// `value = table[unpack(bits)]`.
    Table { offset: u64, len: u64, bit_width: u8, table: Vec<i64>, values: u64 },
    /// `value = base + round(avg * i) + unpack(bits)`, where `avg` holds the
    /// bits of a single.
    Monotonic { offset: u64, len: u64, bit_width: u8, base: i64, avg: u32, values: u64 },
    /// Ordinals: unpack and, optionally, gather.
    Ordinals { offset: u64, len: u64, bit_width: u8, values: u64 },
    /// Verbatim bytes (flat vectors).
    Raw { offset: u64, len: u64 },
}

/// A block as mathematical values.
pub enum BlockModel {
    Direct { offset: u64, len: u64, bit_width: u8, values: u64 },
    DeltaPacked { offset: u64, len: u64, bit_width: u8, base: i64, values: u64 },
    GcdPacked { offset: u64, len: u64, bit_width: u8, base: i64, gcd: i64, values: u64 },
    Table { offset: u64, len: u64, bit_width: u8, table: Seq<i64>, values: u64 },
    Monotonic { offset: u64, len: u64, bit_width: u8, base: i64, avg: u32, values: u64 },
    Ordinals { offset: u64, len: u64, bit_width: u8, values: u64 },
    Raw { offset: u64, len: u64 },
}

impl BlockModel {
    /// Where the block's bytes start, and how many there are.
    pub open spec fn byte_range(self) -> (u64, u64) {
        match self {
            BlockModel::Direct { offset, len, .. } => (offset, len),
            BlockModel::DeltaPacked { offset, len, .. } => (offset, len),
            BlockModel::GcdPacked { offset, len, .. } => (offset, len),
            BlockModel::Table { offset, len, .. } => (offset, len),
            BlockModel::Monotonic { offset, len, .. } => (offset, len),
            BlockModel::Ordinals { offset, len, .. } => (offset, len),
            BlockModel::Raw { offset, len } => (offset, len),
        }
    }

    /// How many logical values the block yields.
    pub open spec fn value_count(self) -> u64 {
        match self {
            BlockModel::Direct { values, .. } => values,
            BlockModel::DeltaPacked { values, .. } => values,
            BlockModel::GcdPacked { values, .. } => values,
            BlockModel::Table { values, .. } => values,
            BlockModel::Monotonic { values, .. } => values,
            BlockModel::Ordinals { values, .. } => values,
            BlockModel::Raw { .. } => 0,
        }
    }
}

impl View for BlockDecode {
    type V = BlockModel;

    open spec fn view(&self) -> BlockModel {
        match *self {
            BlockDecode::Direct { offset, len, bit_width, values } => BlockModel::Direct {
                offset,
                len,
                bit_width,
                values,
            },
            BlockDecode::DeltaPacked { offset, len, bit_width, base, values } => BlockModel::DeltaPacked {
                offset,
                len,
                bit_width,
                base,
                values,
            },
            BlockDecode::GcdPacked { offset, len, bit_width, base, gcd, values } => BlockModel::GcdPacked {
                offset,
                len,
                bit_width,
                base,
                gcd,
                values,
            },
            BlockDecode::Table { offset, len, bit_width, table, values } => BlockModel::Table {
                offset,
                len,
                bit_width,
                table: table@,
                values,
            },
            BlockDecode::Monotonic { offset, len, bit_width, base, avg, values } => BlockModel::Monotonic {
                offset,
                len,
                bit_width,
                base,
                avg,
                values,
            },
            BlockDecode::Ordinals { offset, len, bit_width, values } => BlockModel::Ordinals {
                offset,
                len,
                bit_width,
                values,
            },
            BlockDecode::Raw { offset, len } => BlockModel::Raw { offset, len },
        }
    }
}

impl BlockDecode {
    pub fn byte_range(&self) -> (r: (u64, u64))
        ensures
            r == self@.byte_range(),
    {
        match self {
            BlockDecode::Direct { offset, len, .. } => (*offset, *len),
            BlockDecode::DeltaPacked { offset, len, .. } => (*offset, *len),
            BlockDecode::GcdPacked { offset, len, .. } => (*offset, *len),
            BlockDecode::Table { offset, len, .. } => (*offset, *len),
            BlockDecode::Monotonic { offset, len, .. } => (*offset, *len),
            BlockDecode::Ordinals { offset, len, .. } => (*offset, *len),
            BlockDecode::Raw { offset, len } => (*offset, *len),
        }
    }

    /// Logical values this block yields (0 for `Raw`, which is
    /// byte-oriented).
    pub fn value_count(&self) -> (r: u64)
        ensures
            r == self@.value_count(),
    {
        match self {
            BlockDecode::Direct { values, .. } => *values,
            BlockDecode::DeltaPacked { values, .. } => *values,
            BlockDecode::GcdPacked { values, .. } => *values,
            BlockDecode::Table { values, .. } => *values,
            BlockDecode::Monotonic { values, .. } => *values,
            BlockDecode::Ordinals { values, .. } => *values,
            BlockDecode::Raw { .. } => 0,
        }
    }
}

/// Where the set of documents with a value stands, for sparse fields.
#[derive(Debug, Clone, Copy, PartialEq, Eq, Structural)]
pub struct DisiPlan {
    /// Absolute byte offset of the blocks in the data file.
    pub offset: u64,
    pub len: u64,
    /// Number of jump-table entries.
    pub jump_table_entry_count: i16,
    /// Rank block size for DENSE blocks is `2^dense_rank_power`.
    pub dense_rank_power: u8,
    /// Number of documents that carry a value.
    pub num_values: u64,
}

/// How many documents the plan spans and which carry values.
#[derive(Debug, Clone, Copy, PartialEq, Eq, Structural)]
pub enum Coverage {
    /// Every document in `[0, num_docs)` has a value.
    Dense { num_docs: u32 },
    /// Only `disi.num_values` documents have values.
    Sparse { num_docs: u32, disi: DisiPlan },
    /// No document has a value.
    Empty { num_docs: u32 },
}

/// How to turn byte ranges into one typed column for one segment.
#[derive(Debug)]
pub struct DecodePlan {
    pub plan_version: u32,
    pub column: FieldId,
    /// Data file the offsets refer to, relative to the segment directory.
    pub file: String,
    pub arrow_type: DataType,
    pub blocks: Vec<BlockDecode>,
    pub coverage: Coverage,
    /// Total values across `blocks`.
    pub num_values: u64,
}

/// A plan as mathematical values.
pub struct PlanModel {
    pub plan_version: u32,
    pub column: FieldIdModel,
    pub file: Seq<char>,
    pub arrow_type: DataType,
    pub blocks: Seq<BlockModel>,
    pub coverage: Coverage,
    pub num_values: u64,
}

pub open spec fn blocks_model(blocks: Seq<BlockDecode>) -> Seq<BlockModel> {
    Seq::new(blocks.len(), |i: int| blocks[i]@)
}

impl View for DecodePlan {
    type V = PlanModel;

    open spec fn view(&self) -> PlanModel {
        PlanModel {
            plan_version: self.plan_version,
            column: self.column@,
            file: self.file@,
            arrow_type: self.arrow_type,
            blocks: blocks_model(self.blocks@),
            coverage: self.coverage,
            num_values: self.num_values,
        }
    }
}

/// The payload bytes of the first `n` blocks.
pub open spec fn payload_bytes_of(blocks: Seq<BlockModel>, n: nat) -> nat
    decreases n,
{
    if n == 0 {
        0
    } else {
        payload_bytes_of(blocks, (n - 1) as nat) + blocks[n - 1].byte_range().1 as nat
    }
}

impl DecodePlan {
    /// Sum of payload bytes the executor must fetch.
    pub fn payload_bytes(&self) -> (r: u64)
        requires
            payload_bytes_of(self@.blocks, self@.blocks.len()) <= u64::MAX,
        ensures
            r == payload_bytes_of(self@.blocks, self@.blocks.len()),
    {
        let mut total: u64 = 0;
        let mut i: usize = 0;
        while i < self.blocks.len()
            invariant
                i <= self.blocks@.len(),
                self@.blocks.len() == self.blocks@.len(),
                payload_bytes_of(self@.blocks, self@.blocks.len()) <= u64::MAX,
                total == payload_bytes_of(self@.blocks, i as nat),
            decreases self.blocks@.len() - i,
        {
            proof {
                lemma_payload_mono(self@.blocks, i as nat + 1, self@.blocks.len());
            }
            total = total + self.blocks[i].byte_range().1;
            i = i + 1;
        }
        total
    }
}

pub proof fn lemma_payload_mono(blocks: Seq<BlockModel>, m: nat, n: nat)
    requires
        m <= n,
    ensures
        payload_bytes_of(blocks, m) <= payload_bytes_of(blocks, n),
    decreases n,
{
    if m < n {
        lemma_payload_mono(blocks, m, (n - 1) as nat);
    }
}

/// Encoding choice of one block on the write path.
#[derive(Debug)]
pub enum BlockEncode {
    /// All values equal `base`: no payload bits.
    Constant { base: i64 },
    /// Pack `(value - base) / gcd` at `bit_width`.
    Pack { bit_width: u8, base: i64, gcd: i64 },
    /// Pack indexes into `table` at `bit_width`.
    Table { bit_width: u8, table: Vec<i64> },
    /// Verbatim bytes.
    Raw,
}

/// How one column becomes codec payload for one output segment.
#[derive(Debug)]
pub struct EncodePlan {
    pub plan_version: u32,
    pub column: FieldId,
    pub arrow_type: DataType,
    /// One entry per value block, in document order.
    pub blocks: Vec<BlockEncode>,
    /// Documents with a value; none for a dense column.
    pub sparse: Option<SparseEncode>,
    pub num_docs: u32,
    pub num_values: u64,
}

/// Which documents carry values, on the write side.
#[derive(Debug)]
pub struct SparseEncode {
    /// Sorted documents that have a value.
    pub docs_with_value: Vec<u32>,
}

} // verus!
