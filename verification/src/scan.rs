//! Scanning a segment: full-length columns, the rows that are kept, and how
//! they are cut into batches.

use vstd::prelude::*;
use crate::bitset::{get_bit, has_bit};
use crate::column::{
    binary_column, binary_column_is, decode_binary, decode_flat_vectors, decode_multi_numeric, decode_numeric,
    decode_sorted, dict_column_is, list_column_is, multi_numeric_column, numeric_column, numeric_column_is,
    sorted_column, vector_column, vector_column_is, BinaryColumn, DictColumn, ListColumn, NumericColumn, VectorColumn,
};
use crate::direct::ceil_div;
use crate::engine::{
    binary_named, find_binary, find_multi, find_numeric, find_sorted, find_vector, lemma_binary_named,
    lemma_multi_named, lemma_numeric_named, lemma_sorted_named, multi_named, numeric_named, sorted_named, vector_plans,
    SegmentInput,
};
use crate::error::{ErrorKind, Result};
use crate::meta::{RowMode, COL_DOC, COL_GLOBAL_DOC, COL_LIVE, COL_SEG};
use crate::plan::PlanModel;
use crate::read::{DocValuesPlans, PlansModel};
use crate::resolve::{ResolvedRead, SchemaField};
use crate::schema::DataType;
use crate::segment::SegmentMeta;
use crate::text::same_text;

verus! {

/// The values of one column of a segment, one slot per document.
#[derive(Debug)]
pub enum ColumnData {
    Int32(Vec<i32>),
    Int64(Vec<i64>),
    Boolean(Vec<bool>),
    Numeric(NumericColumn),
    Dictionary(DictColumn),
    List(ListColumn),
    Binary(BinaryColumn),
    Vectors(VectorColumn),
    /// The segment lacks the field: all null.
    Absent { data_type: DataType, rows: usize },
}

/// Which plan a column is decoded by.
pub enum Source {
    Numeric(nat),
    Sorted(nat),
    Multi(nat),
    Binary(nat),
    Vector(nat),
    Absent,
}

/// The first plan with a column's name: numeric ones first, then terms,
/// lists, byte strings, vectors.
pub open spec fn source_of(plans: PlansModel, vectors: Seq<PlanModel>, name: Seq<char>) -> Source {
    match numeric_named(plans.plans, name, 0) {
        Some(i) => Source::Numeric(i),
        None => match sorted_named(plans.sorted, name, 0) {
            Some(i) => Source::Sorted(i),
            None => match multi_named(plans.multi_numeric, name, 0) {
                Some(i) => Source::Multi(i),
                None => match binary_named(plans.binary, name, 0) {
                    Some(i) => Source::Binary(i),
                    None => match numeric_named(vectors, name, 0) {
                        Some(i) => Source::Vector(i),
                        None => Source::Absent,
                    },
                },
            },
        },
    }
}

/// What decoding a field of a segment gives.
pub open spec fn field_decoded(
    r: Result<ColumnData>,
    plans: PlansModel,
    input: SegmentInput,
    name: Seq<char>,
    num_docs: usize,
    expected: DataType,
) -> bool {
    let dvd = input.dvd@;
    let vectors = vector_plans(input.vectors@);
    match source_of(plans, vectors, name) {
        Source::Numeric(i) => match numeric_column(plans.plans[i as int], dvd) {
            Ok(m) => r matches Ok(ColumnData::Numeric(c)) && numeric_column_is(c, m),
            Err(k) => r matches Err(e) && e.kind() == k,
        },
        Source::Sorted(i) => match sorted_column(plans.sorted[i as int], dvd) {
            Ok(m) => r matches Ok(ColumnData::Dictionary(c)) && dict_column_is(c, m),
            Err(k) => r matches Err(e) && e.kind() == k,
        },
        Source::Multi(i) => match multi_numeric_column(plans.multi_numeric[i as int], dvd) {
            Ok(m) => r matches Ok(ColumnData::List(c)) && list_column_is(c, m),
            Err(k) => r matches Err(e) && e.kind() == k,
        },
        Source::Binary(i) => match binary_column(plans.binary[i as int], dvd) {
            Ok(m) => r matches Ok(ColumnData::Binary(c)) && binary_column_is(c, m),
            Err(k) => r matches Err(e) && e.kind() == k,
        },
        Source::Vector(i) => match vector_column(vectors[i as int], input.vec_data@) {
            Ok(m) => r matches Ok(ColumnData::Vectors(c)) && vector_column_is(c, m),
            Err(k) => r matches Err(e) && e.kind() == k,
        },
        Source::Absent => r == Ok::<ColumnData, crate::error::Error>(
            ColumnData::Absent { data_type: expected, rows: num_docs },
        ),
    }
}

/// Decodes a field of a segment; a field that the segment lacks is all null.
pub fn decode_field(
    plans: &DocValuesPlans,
    input: &SegmentInput,
    name: &str,
    num_docs: usize,
    expected: &DataType,
) -> (r: Result<ColumnData>)
    ensures
        field_decoded(r, plans@, *input, name@, num_docs, *expected),
{
    let dvd: &[u8] = input.dvd.as_slice();
    if let Some(i) = find_numeric(plans, name) {
        assert(plans@.plans[i as int] == plans.plans@[i as int]@);
        let c: NumericColumn = decode_numeric(&plans.plans[i], dvd)?;
        return Ok(ColumnData::Numeric(c));
    }
    if let Some(i) = find_sorted(plans, name) {
        assert(plans@.sorted[i as int] == plans.sorted@[i as int]@);
        let c: DictColumn = decode_sorted(&plans.sorted[i], dvd)?;
        return Ok(ColumnData::Dictionary(c));
    }
    if let Some(i) = find_multi(plans, name) {
        assert(plans@.multi_numeric[i as int] == plans.multi_numeric@[i as int]@);
        let c: ListColumn = decode_multi_numeric(&plans.multi_numeric[i], dvd)?;
        return Ok(ColumnData::List(c));
    }
    if let Some(i) = find_binary(plans, name) {
        assert(plans@.binary[i as int] == plans.binary@[i as int]@);
        let c: BinaryColumn = decode_binary(&plans.binary[i], dvd)?;
        return Ok(ColumnData::Binary(c));
    }
    if let Some(i) = find_vector(&input.vectors, name) {
        assert(vector_plans(input.vectors@)[i as int] == input.vectors@[i as int].plan@);
        let c: VectorColumn = decode_flat_vectors(&input.vectors[i].plan, input.vec_data.as_slice())?;
        return Ok(ColumnData::Vectors(c));
    }
    Ok(ColumnData::Absent { data_type: expected.duplicate(), rows: num_docs })
}

/// Whether a document is live: all are where nothing was deleted.
pub open spec fn live_at(live: Option<Vec<u64>>, d: int) -> bool {
    match live {
        Some(w) => has_bit(w@, d as nat),
        None => true,
    }
}

/// Liveness of the first `n` documents.
pub open spec fn live_flags(live: Option<Vec<u64>>, n: nat) -> Seq<bool> {
    Seq::new(n, |d: int| live_at(live, d))
}

/// Liveness of the first `n` documents.
pub fn live_mask(live: &Option<Vec<u64>>, n: usize) -> (r: Vec<bool>)
    ensures
        r@ == live_flags(*live, n as nat),
{
    let mut r: Vec<bool> = Vec::new();
    let mut d: usize = 0;
    while d < n
        invariant
            d <= n,
            r@.len() == d,
            forall|k: int| 0 <= k < d ==> (#[trigger] r@[k]) == live_at(*live, k),
        decreases n - d,
    {
        let b: bool = match live {
            Some(w) => get_bit(w.as_slice(), d),
            None => true,
        };
        r.push(b);
        d = d + 1;
    }
    assert(r@ =~= live_flags(*live, n as nat));
    r
}

/// What the column of a schema field holds for a segment.
#[verifier::opaque]
pub open spec fn column_decoded(
    r: Result<ColumnData>,
    field: SchemaField,
    ord: usize,
    num_docs: usize,
    doc_base: i64,
    live: Option<Vec<u64>>,
    plans: PlansModel,
    input: SegmentInput,
) -> bool {
    let name = field.name@;
    let n = num_docs as nat;
    if name == COL_SEG@ {
        r matches Ok(ColumnData::Int32(v)) && v@ == Seq::new(n, |d: int| ord as i32)
    } else if name == COL_DOC@ {
        r matches Ok(ColumnData::Int32(v)) && v@ == Seq::new(n, |d: int| d as i32)
    } else if name == COL_GLOBAL_DOC@ {
        r matches Ok(ColumnData::Int64(v)) && v@ == Seq::new(n, |d: int| (doc_base + d) as i64)
    } else if name == COL_LIVE@ {
        r matches Ok(ColumnData::Boolean(v)) && v@ == live_flags(live, n)
    } else {
        field_decoded(r, plans, input, name, num_docs, field.data_type)
    }
}

/// Whether the column of a schema field can be decoded.
pub open spec fn column_decodes(
    field: SchemaField,
    ord: usize,
    num_docs: usize,
    doc_base: i64,
    live: Option<Vec<u64>>,
    plans: PlansModel,
    input: SegmentInput,
) -> bool {
    exists|c: ColumnData| #[trigger] column_decoded(Ok(c), field, ord, num_docs, doc_base, live, plans, input)
}

/// `n` times the same number.
fn repeated(x: i32, n: usize) -> (r: Vec<i32>)
    ensures
        r@ == Seq::new(n as nat, |d: int| x),
{
    let mut r: Vec<i32> = Vec::new();
    let mut d: usize = 0;
    while d < n
        invariant
            d <= n,
            r@ == Seq::new(d as nat, |d: int| x),
        decreases n - d,
    {
        r.push(x);
        d = d + 1;
        assert(r@ =~= Seq::new(d as nat, |d: int| x));
    }
    r
}

/// The numbers below `n`.
fn counted(n: usize) -> (r: Vec<i32>)
    ensures
        r@ == Seq::new(n as nat, |d: int| d as i32),
{
    let mut r: Vec<i32> = Vec::new();
    let mut d: usize = 0;
    while d < n
        invariant
            d <= n,
            r@ == Seq::new(d as nat, |d: int| d as i32),
        decreases n - d,
    {
        r.push(d as i32);
        d = d + 1;
        assert(r@ =~= Seq::new(d as nat, |d: int| d as i32));
    }
    r
}

/// `n` numbers from `base` on.
fn counted_from(base: i64, n: usize) -> (r: Vec<i64>)
    requires
        base + n <= i64::MAX,
    ensures
        r@ == Seq::new(n as nat, |d: int| (base + d) as i64),
{
    let mut r: Vec<i64> = Vec::new();
    let mut d: usize = 0;
    while d < n
        invariant
            d <= n,
            base + n <= i64::MAX,
            r@ == Seq::new(d as nat, |d: int| (base + d) as i64),
        decreases n - d,
    {
        r.push((base as i128 + d as i128) as i64);
        d = d + 1;
        assert(r@ =~= Seq::new(d as nat, |d: int| (base + d) as i64));
    }
    r
}

/// The column of a schema field for a segment.
pub fn segment_column(
    field: &SchemaField,
    ord: usize,
    num_docs: usize,
    doc_base: i64,
    live: &Option<Vec<u64>>,
    plans: &DocValuesPlans,
    input: &SegmentInput,
) -> (r: Result<ColumnData>)
    requires
        doc_base + num_docs <= i64::MAX,
    ensures
        column_decoded(r, *field, ord, num_docs, doc_base, *live, plans@, *input),
{
    proof {
        reveal(column_decoded);
    }
    let name: &str = field.name.as_str();
    if same_text(name, COL_SEG) {
        Ok(ColumnData::Int32(repeated(ord as i32, num_docs)))
    } else if same_text(name, COL_DOC) {
        Ok(ColumnData::Int32(counted(num_docs)))
    } else if same_text(name, COL_GLOBAL_DOC) {
        Ok(ColumnData::Int64(counted_from(doc_base, num_docs)))
    } else if same_text(name, COL_LIVE) {
        Ok(ColumnData::Boolean(live_mask(live, num_docs)))
    } else {
        decode_field(plans, input, name, num_docs, &field.data_type)
    }
}

/// How many of the first `n` flags are set.
pub open spec fn set_flags(s: Seq<bool>, n: nat) -> nat
    decreases n,
{
    if n == 0 {
        0
    } else {
        set_flags(s, (n - 1) as nat) + if s[n - 1] {
            1nat
        } else {
            0nat
        }
    }
}

fn count_flags(s: &Vec<bool>) -> (r: usize)
    ensures
        r == set_flags(s@, s@.len()),
        r <= s@.len(),
{
    let mut r: usize = 0;
    let mut i: usize = 0;
    while i < s.len()
        invariant
            i <= s@.len(),
            r <= i,
            r == set_flags(s@, i as nat),
        decreases s@.len() - i,
    {
        if s[i] {
            r = r + 1;
        }
        i = i + 1;
    }
    r
}

/// Rows per batch: as asked for, at least one.
pub open spec fn rows_per_batch(batch_rows: u64) -> nat {
    if batch_rows == 0 {
        1
    } else {
        batch_rows as nat
    }
}

/// Batches of `per` rows that cover `rows` rows in order, the last one
/// shorter where they do not come out even.
pub open spec fn batches_of(rows: nat, per: nat) -> Seq<(nat, nat)> {
    Seq::new(
        ceil_div(rows, per),
        |i: int|
            (
                (per * i) as nat,
                if per * i + per <= rows {
                    per
                } else {
                    (rows - per * i) as nat
                },
            ),
    )
}

/// Row ranges as mathematical values.
pub open spec fn ranges_view(v: Seq<(usize, usize)>) -> Seq<(nat, nat)> {
    Seq::new(v.len(), |i: int| (v[i].0 as nat, v[i].1 as nat))
}

/// How many batches lie before a row offset.
pub proof fn lemma_batch_step(rows: nat, per: nat, i: nat)
    requires
        per > 0,
    ensures
        per * i < rows ==> i < ceil_div(rows, per) && per * (i + 1) == per * i + per,
        per * i >= rows ==> i >= ceil_div(rows, per),
{
    let c = ceil_div(rows, per);
    let x = rows + per - 1;
    vstd::arithmetic::div_mod::lemma_fundamental_div_mod(x as int, per as int);
    vstd::arithmetic::div_mod::lemma_mod_bound(x as int, per as int);
    assert(per * (i + 1) == per * i + per) by (nonlinear_arith);
    if per * i < rows && i >= c {
        assert(per * i >= per * c) by (nonlinear_arith)
            requires
                i >= c,
        ;
    }
    if per * i >= rows && i < c {
        assert(per * c >= per * i + per) by (nonlinear_arith)
            requires
                c >= i + 1,
                per > 0,
        ;
    }
}

/// Cuts rows into batches.
pub fn cut_batches(rows: usize, batch_rows: u64) -> (r: Vec<(usize, usize)>)
    ensures
        ranges_view(r@) == batches_of(rows as nat, rows_per_batch(batch_rows)),
{
    let ghost per = rows_per_batch(batch_rows);
    let mut out: Vec<(usize, usize)> = Vec::new();
    let mut off: usize = 0;
    assert(per * 0 == 0);
    while off < rows
        invariant
            off <= rows,
            per == rows_per_batch(batch_rows),
            per > 0,
            off < rows ==> off == per * out@.len(),
            per * out@.len() >= off,
            out@.len() <= ceil_div(rows as nat, per),
            off == rows ==> out@.len() == ceil_div(rows as nat, per) || rows == 0,
            forall|i: int|
                0 <= i < out@.len() ==> ((#[trigger] out@[i]).0 as nat, out@[i].1 as nat) == batches_of(
                    rows as nat,
                    per,
                )[i],
        decreases rows - off,
    {
        let left: usize = rows - off;
        let len: usize = if batch_rows == 0 {
            1
        } else if batch_rows < left as u64 {
            batch_rows as usize
        } else {
            left
        };
        proof {
            lemma_batch_step(rows as nat, per, out@.len());
            lemma_batch_step(rows as nat, per, out@.len() + 1);
        }
        out.push((off, len));
        off = off + len;
    }
    proof {
        lemma_batch_step(rows as nat, per, out@.len());
        assert(ranges_view(out@) =~= batches_of(rows as nat, per));
    }
    out
}

/// Every row lies in exactly one batch, no batch is empty, and none is
/// longer than asked for.
pub proof fn law_batches_cover(rows: nat, per: nat, row: nat)
    requires
        per > 0,
        row < rows,
    ensures
        ({
            let b = batches_of(rows, per);
            let i = (row / per) as int;
            &&& 0 <= i < b.len()
            &&& b[i].0 <= row < b[i].0 + b[i].1
            &&& forall|j: int| 0 <= j < b.len() && (#[trigger] b[j]).0 <= row < b[j].0 + b[j].1 ==> j == i
            &&& forall|j: int| 0 <= j < b.len() ==> 0 < (#[trigger] b[j]).1 <= per && b[j].0 + b[j].1 <= rows
        }),
{
    let b = batches_of(rows, per);
    let i = row / per;
    vstd::arithmetic::div_mod::lemma_fundamental_div_mod(row as int, per as int);
    vstd::arithmetic::div_mod::lemma_mod_bound(row as int, per as int);
    lemma_batch_step(rows, per, i);
    assert forall|j: int| 0 <= j < b.len() implies 0 < (#[trigger] b[j]).1 <= per && b[j].0 + b[j].1 <= rows && b[j].0
        == per * j by {
        lemma_batch_step(rows, per, j as nat);
    }
    assert forall|j: int| 0 <= j < b.len() && (#[trigger] b[j]).0 <= row < b[j].0 + b[j].1 implies j == i by {
        if j < i {
            assert(per * j + per <= per * i) by (nonlinear_arith)
                requires
                    j + 1 <= i,
                    per > 0,
            ;
        } else if j > i {
            assert(per * i + per <= per * j) by (nonlinear_arith)
                requires
                    i + 1 <= j,
                    per > 0,
            ;
        }
    }
}

/// A segment, scanned.
#[derive(Debug)]
pub struct SegmentBatches {
    /// One for each schema field, over all documents.
    pub columns: Vec<ColumnData>,
    /// Which documents to keep; absent for all.
    pub keep: Option<Vec<bool>>,
    /// Offset and length of each batch among the kept rows.
    pub ranges: Vec<(usize, usize)>,
}

/// Which documents of a segment are kept: in compact mode, those that are
/// live.
pub open spec fn kept_flags(row_mode: RowMode, live: Option<Vec<u64>>, n: nat) -> Option<Seq<bool>> {
    if row_mode == RowMode::Compact && live is Some {
        Some(live_flags(live, n))
    } else {
        None
    }
}

/// How many rows are kept.
pub open spec fn kept_rows(keep: Option<Seq<bool>>, n: nat) -> nat {
    match keep {
        Some(f) => set_flags(f, n),
        None => n,
    }
}

/// Scans a segment: decodes every column of the schema, decides which rows
/// are kept, and cuts them into batches. The first column that cannot be
/// decoded decides the error.
pub fn segment_batches(
    read: &ResolvedRead,
    seg: &SegmentMeta,
    plans: &DocValuesPlans,
    input: &SegmentInput,
    live: &Option<Vec<u64>>,
    doc_base: i64,
) -> (r: Result<SegmentBatches>)
    requires
        seg.max_doc >= 0,
        doc_base + seg.max_doc <= i64::MAX,
    ensures
        match r {
            Ok(b) => {
                let n = seg.max_doc as nat;
                let keep = kept_flags(read.row_mode, *live, n);
                &&& b.columns@.len() == read.schema@.len()
                &&& forall|i: int|
                    0 <= i < read.schema@.len() ==> column_decoded(
                        Ok(#[trigger] b.columns@[i]),
                        read.schema@[i],
                        seg.ord,
                        seg.max_doc as usize,
                        doc_base,
                        *live,
                        plans@,
                        *input,
                    )
                &&& match (b.keep, keep) {
                    (Some(v), Some(f)) => v@ == f,
                    (None, None) => true,
                    _ => false,
                }
                &&& ranges_view(b.ranges@) == batches_of(kept_rows(keep, n), rows_per_batch(read.config.batch_rows))
            },
            Err(e) => exists|i: int|
                0 <= i < read.schema@.len() && column_decoded(
                    Err(e),
                    #[trigger] read.schema@[i],
                    seg.ord,
                    seg.max_doc as usize,
                    doc_base,
                    *live,
                    plans@,
                    *input,
                ) && forall|j: int|
                    0 <= j < i ==> column_decodes(
                        #[trigger] read.schema@[j],
                        seg.ord,
                        seg.max_doc as usize,
                        doc_base,
                        *live,
                        plans@,
                        *input,
                    ),
        },
{
    let num_docs: usize = seg.max_doc as usize;
    let mut columns: Vec<ColumnData> = Vec::new();
    let mut i: usize = 0;
    while i < read.schema.len()
        invariant
            i <= read.schema@.len(),
            seg.max_doc >= 0,
            num_docs == seg.max_doc,
            num_docs == seg.max_doc as usize,
            doc_base + seg.max_doc <= i64::MAX,
            columns@.len() == i,
            forall|j: int|
                0 <= j < i ==> column_decoded(
                    Ok(#[trigger] columns@[j]),
                    read.schema@[j],
                    seg.ord,
                    num_docs,
                    doc_base,
                    *live,
                    plans@,
                    *input,
                ),
        decreases read.schema@.len() - i,
    {
        let outcome: Result<ColumnData> = segment_column(
            &read.schema[i],
            seg.ord,
            num_docs,
            doc_base,
            live,
            plans,
            input,
        );
        match outcome {
            Ok(c) => {
                columns.push(c);
            },
            Err(e) => {
                proof {
                    assert forall|j: int| 0 <= j < i implies column_decodes(
                        #[trigger] read.schema@[j],
                        seg.ord,
                        seg.max_doc as usize,
                        doc_base,
                        *live,
                        plans@,
                        *input,
                    ) by {
                        assert(column_decoded(
                            Ok(columns@[j]),
                            read.schema@[j],
                            seg.ord,
                            num_docs,
                            doc_base,
                            *live,
                            plans@,
                            *input,
                        ));
                    }
                    assert(column_decoded(
                        Err(e),
                        read.schema@[i as int],
                        seg.ord,
                        num_docs,
                        doc_base,
                        *live,
                        plans@,
                        *input,
                    ));
                }
                return Err(e);
            },
        }
        i = i + 1;
    }
    let compact: bool = match read.row_mode {
        RowMode::Compact => true,
        RowMode::Positional => false,
    };
    let keep: Option<Vec<bool>> = if compact && live.is_some() {
        Some(live_mask(live, num_docs))
    } else {
        None
    };
    let rows: usize = match &keep {
        Some(k) => count_flags(k),
        None => num_docs,
    };
    let ranges: Vec<(usize, usize)> = cut_batches(rows, read.config.batch_rows);
    Ok(SegmentBatches { columns, keep, ranges })
}

/// As many flags are set as documents are live.
proof fn lemma_flags_live(live: Option<Vec<u64>>, n: nat, m: nat)
    requires
        live is Some,
        m <= n,
    ensures
        set_flags(live_flags(live, n), m) == crate::liv::live_count(live->0@, m),
    decreases m,
{
    if m > 0 {
        lemma_flags_live(live, n, (m - 1) as nat);
    }
}

/// In compact mode the rows of a segment are as many as its documents less
/// the deleted ones, where its live documents are those of its live-docs
/// file; in positional mode every document has a row.
pub proof fn law_rows_kept(seg: SegmentMeta, bytes: Seq<u8>, live: Option<Vec<u64>>, row_mode: RowMode)
    requires
        seg.max_doc >= 0,
        crate::segment::has_deletes(&seg),
        live is Some,
        crate::liv::live_docs_words(bytes, seg.max_doc as u32, seg.id@, seg.del_gen as nat, seg.del_count) == Ok::<
            Seq<u64>,
            ErrorKind,
        >(live->0@),
    ensures
        row_mode == RowMode::Compact ==> kept_rows(
            kept_flags(row_mode, live, seg.max_doc as nat),
            seg.max_doc as nat,
        ) == seg.max_doc - seg.del_count,
        row_mode == RowMode::Positional ==> kept_rows(
            kept_flags(row_mode, live, seg.max_doc as nat),
            seg.max_doc as nat,
        ) == seg.max_doc,
{
    let n = seg.max_doc as nat;
    lemma_flags_live(live, n, n);
    crate::bitset::lemma_bit_count_bound(live->0@, n);
}

/// The names of the system columns differ.
proof fn lemma_system_names()
    ensures
        COL_SEG@.len() == 4,
        COL_DOC@.len() == 4,
        COL_SEG@[1] != COL_DOC@[1],
        COL_GLOBAL_DOC@.len() == 11,
        COL_LIVE@.len() == 5,
{
    reveal_strlit("_seg");
    reveal_strlit("_doc");
    reveal_strlit("_global_doc");
    reveal_strlit("_live");
}

/// Row `d` of a scanned segment says of itself: the segment's ordinal, the
/// document within the segment, the document across segments, and whether
/// the document is live.
pub proof fn law_system_columns(
    r: Result<ColumnData>,
    field: SchemaField,
    ord: usize,
    num_docs: usize,
    doc_base: i64,
    live: Option<Vec<u64>>,
    plans: PlansModel,
    input: SegmentInput,
    d: int,
)
    requires
        column_decoded(r, field, ord, num_docs, doc_base, live, plans, input),
        0 <= d < num_docs,
        num_docs <= i32::MAX,
        ord <= i32::MAX,
        0 <= doc_base,
        doc_base + num_docs <= i64::MAX,
    ensures
        field.name@ == "_seg"@ ==> (r matches Ok(ColumnData::Int32(v)) && v@.len() == num_docs && v@[d] == ord),
        field.name@ == "_doc"@ ==> (r matches Ok(ColumnData::Int32(v)) && v@.len() == num_docs && v@[d] == d),
        field.name@ == "_global_doc"@ ==> (r matches Ok(ColumnData::Int64(v)) && v@.len() == num_docs && v@[d]
            == doc_base + d),
        field.name@ == "_live"@ ==> (r matches Ok(ColumnData::Boolean(v)) && v@.len() == num_docs && v@[d] == (live
            matches Some(w) ==> has_bit(w@, d as nat))),
{
    reveal(column_decoded);
    lemma_system_names();
}

/// In compact mode a document has a row exactly where its live bit is set;
/// without deletions, and in positional mode, every document has one.
pub proof fn law_kept_are_live(row_mode: RowMode, live: Option<Vec<u64>>, n: nat, d: int)
    requires
        0 <= d < n,
    ensures
        match kept_flags(row_mode, live, n) {
            Some(f) => row_mode == RowMode::Compact && f.len() == n && (live matches Some(w) && f[d] == has_bit(
                w@,
                d as nat,
            )),
            None => row_mode == RowMode::Positional || live is None,
        },
{
}

/// As many rows are kept as there are flags set.
pub proof fn law_flags_counted(f: Seq<bool>, n: nat)
    requires
        n <= f.len(),
    ensures
        Set::new(|d: nat| d < n && f[d as int]).finite(),
        set_flags(f, n) == Set::new(|d: nat| d < n && f[d as int]).len(),
    decreases n,
{
    let s = Set::new(|d: nat| d < n && f[d as int]);
    if n == 0 {
        assert(s =~= Set::<nat>::empty());
    } else {
        let m = (n - 1) as nat;
        let t = Set::new(|d: nat| d < m && f[d as int]);
        law_flags_counted(f, m);
        if f[m as int] {
            assert(s =~= t.insert(m));
        } else {
            assert(s =~= t);
        }
    }
}

/// Batches are as long as asked for, one row where none is asked for, all but
/// the last one, which holds what is left.
pub proof fn law_batches_as_asked(rows: nat, batch_rows: u64, i: int)
    requires
        0 <= i < batches_of(rows, rows_per_batch(batch_rows)).len(),
    ensures
        ({
            let b = batches_of(rows, rows_per_batch(batch_rows));
            &&& b[0].0 == 0
            &&& i + 1 < b.len() && batch_rows > 0 ==> b[i].1 == batch_rows
            &&& batch_rows == 0 ==> b[i].1 == 1
            &&& i + 1 < b.len() ==> b[i + 1].0 == b[i].0 + b[i].1
            &&& i + 1 == b.len() ==> b[i].0 + b[i].1 == rows
        }),
{
    let per = rows_per_batch(batch_rows);
    lemma_batch_step(rows, per, i as nat);
    lemma_batch_step(rows, per, i as nat + 1);
    assert(per * 0 == 0);
}

/// A plan found by name has the name, and none of the same kind before it
/// has; where none is found, none has.
pub proof fn law_source_named(plans: PlansModel, vectors: Seq<PlanModel>, name: Seq<char>)
    ensures
        match source_of(plans, vectors, name) {
            Source::Numeric(i) => i < plans.plans.len() && plans.plans[i as int].column.name == name && forall|k: int|
                0 <= k < i ==> (#[trigger] plans.plans[k]).column.name != name,
            Source::Sorted(i) => i < plans.sorted.len() && plans.sorted[i as int].ords.column.name == name && forall|
                k: int,
            |
                0 <= k < i ==> (#[trigger] plans.sorted[k]).ords.column.name != name,
            Source::Multi(i) => i < plans.multi_numeric.len() && plans.multi_numeric[i as int].values.column.name
                == name && forall|k: int|
                0 <= k < i ==> (#[trigger] plans.multi_numeric[k]).values.column.name != name,
            Source::Binary(i) => i < plans.binary.len() && plans.binary[i as int].column.name == name && forall|k: int|

                0 <= k < i ==> (#[trigger] plans.binary[k]).column.name != name,
            Source::Vector(i) => i < vectors.len() && vectors[i as int].column.name == name && forall|k: int|
                0 <= k < i ==> (#[trigger] vectors[k]).column.name != name,
            Source::Absent => {
                &&& forall|k: int| 0 <= k < plans.plans.len() ==> (#[trigger] plans.plans[k]).column.name != name
                &&& forall|k: int| 0 <= k < plans.sorted.len() ==> (#[trigger] plans.sorted[k]).ords.column.name != name
                &&& forall|k: int|
                    0 <= k < plans.multi_numeric.len() ==> (#[trigger] plans.multi_numeric[k]).values.column.name != name
                &&& forall|k: int| 0 <= k < plans.binary.len() ==> (#[trigger] plans.binary[k]).column.name != name
                &&& forall|k: int| 0 <= k < vectors.len() ==> (#[trigger] vectors[k]).column.name != name
            },
        },
{
    lemma_numeric_named(plans.plans, name, 0);
    lemma_sorted_named(plans.sorted, name, 0);
    lemma_multi_named(plans.multi_numeric, name, 0);
    lemma_binary_named(plans.binary, name, 0);
    lemma_numeric_named(vectors, name, 0);
}

} // verus!
