//! The scan engine: a read request over a commit's segments becomes one
//! reconciled schema, and each segment becomes full-length columns cut into
//! batches of rows.

use vstd::prelude::*;
use crate::error::{Error, ErrorKind, Result};
use crate::plan::{lemma_payload_mono, payload_bytes_of, DecodePlan, FieldIdModel, PlanModel};
use crate::read::{
    doc_values_plans, field_models, no_plans, plan_doc_values, BinaryModel, DocValuesPlans, DvField, DvKind, FieldModel,
    MultiNumericModel, PlansModel, SortedModel,
};
use crate::schema::DataType;
use crate::segment::{ends_with, text_ends_with, DocValuesKind, FieldMeta, SegmentMeta};
use crate::text::same_text;

verus! {

/// Rows per batch where the request does not say.
pub const DEFAULT_BATCH_ROWS: u64 = 131072;

/// The planner's name for a doc-values type.
pub open spec fn dv_kind_of(k: DocValuesKind) -> Option<DvKind> {
    match k {
        DocValuesKind::Numeric => Some(DvKind::Numeric),
        DocValuesKind::Binary => Some(DvKind::Binary),
        DocValuesKind::Sorted => Some(DvKind::Sorted),
        DocValuesKind::SortedNumeric => Some(DvKind::SortedNumeric),
        DocValuesKind::SortedSet => Some(DvKind::SortedSet),
        DocValuesKind::Absent => None,
    }
}

pub fn dv_kind(k: DocValuesKind) -> (r: Option<DvKind>)
    ensures
        r == dv_kind_of(k),
{
    match k {
        DocValuesKind::Numeric => Some(DvKind::Numeric),
        DocValuesKind::Binary => Some(DvKind::Binary),
        DocValuesKind::Sorted => Some(DvKind::Sorted),
        DocValuesKind::SortedNumeric => Some(DvKind::SortedNumeric),
        DocValuesKind::SortedSet => Some(DvKind::SortedSet),
        DocValuesKind::Absent => None,
    }
}

/// The doc-values fields among the first `n`, as the planner sees them.
pub open spec fn planner_fields(fields: Seq<FieldMeta>, n: nat) -> Seq<FieldModel>
    decreases n,
{
    if n == 0 {
        Seq::empty()
    } else {
        let before = planner_fields(fields, (n - 1) as nat);
        let f = fields[n - 1];
        match dv_kind_of(f.doc_values) {
            Some(kind) => before.push(
                FieldModel {
                    id: FieldIdModel { number: f.number as i32, name: f.name@ },
                    kind,
                    has_skip_index: f.has_skip_index,
                },
            ),
            None => before,
        }
    }
}

/// The doc-values fields of a segment.
pub fn dv_fields(fields: &Vec<FieldMeta>) -> (r: Vec<DvField>)
    ensures
        field_models(r@) == planner_fields(fields@, fields@.len()),
{
    let mut r: Vec<DvField> = Vec::new();
    let mut i: usize = 0;
    assert(field_models(r@) =~= planner_fields(fields@, 0));
    while i < fields.len()
        invariant
            i <= fields@.len(),
            field_models(r@) == planner_fields(fields@, i as nat),
        decreases fields@.len() - i,
    {
        let f: &FieldMeta = &fields[i];
        let ghost before = field_models(r@);
        match dv_kind(f.doc_values) {
            Some(kind) => {
                let d: DvField = DvField {
                    number: f.number as i32,
                    name: f.name.clone(),
                    kind,
                    has_skip_index: f.has_skip_index,
                };
                let ghost m = d@;
                r.push(d);
                assert(field_models(r@) =~= before.push(m));
            },
            None => {},
        }
        i = i + 1;
    }
    r
}

/// The first file from `from` on with an ending.
pub open spec fn file_with_ending(files: Seq<String>, ending: Seq<char>, from: nat) -> Option<nat>
    decreases files.len() - from,
{
    if from >= files.len() {
        None
    } else if text_ends_with(files[from as int]@, ending) {
        Some(from)
    } else {
        file_with_ending(files, ending, from + 1)
    }
}

/// Finds the first file with an ending.
pub fn find_file(files: &Vec<String>, ending: &str) -> (r: Option<usize>)
    ensures
        match r {
            Some(i) => i < files@.len() && file_with_ending(files@, ending@, 0) == Some(i as nat),
            None => file_with_ending(files@, ending@, 0) is None,
        },
{
    let mut i: usize = 0;
    while i < files.len()
        invariant
            i <= files@.len(),
            file_with_ending(files@, ending@, 0) == file_with_ending(files@, ending@, i as nat),
        decreases files@.len() - i,
    {
        if ends_with(files[i].as_str(), ending) {
            return Some(i);
        }
        i = i + 1;
    }
    None
}

/// The places of a metadata file and its data file; a metadata file without
/// a data file is corruption.
pub open spec fn file_pair(files: Seq<String>, meta: Seq<char>, data: Seq<char>) -> std::result::Result<
    Option<(nat, nat)>,
    ErrorKind,
> {
    match file_with_ending(files, meta, 0) {
        None => Ok(None),
        Some(i) => match file_with_ending(files, data, 0) {
            None => Err(ErrorKind::Corrupt),
            Some(j) => Ok(Some((i, j))),
        },
    }
}

/// What `find_pair` found.
pub open spec fn pair_found(r: Option<(usize, usize)>, pair: Option<(nat, nat)>, n: nat) -> bool {
    match (r, pair) {
        (Some((a, b)), Some((i, j))) => a == i && b == j && a < n && b < n,
        (None, None) => true,
        _ => false,
    }
}

/// Finds a metadata file and its data file.
fn find_pair(files: &Vec<String>, meta: &str, data: &str) -> (r: Result<Option<(usize, usize)>>)
    ensures
        match file_pair(files@, meta@, data@) {
            Ok(p) => r matches Ok(v) && pair_found(v, p, files@.len()),
            Err(k) => r matches Err(e) && e.kind() == k,
        },
{
    match find_file(files, meta) {
        None => Ok(None),
        Some(i) => match find_file(files, data) {
            None => Err(Error::corrupt("metadata file without its data file")),
            Some(j) => Ok(Some((i, j))),
        },
    }
}

/// The doc-values files of a segment, by their places among its files.
pub fn doc_values_files(seg: &SegmentMeta) -> (r: Result<Option<(usize, usize)>>)
    ensures
        match file_pair(seg.files@, ".dvm"@, ".dvd"@) {
            Ok(p) => r matches Ok(v) && pair_found(v, p, seg.files@.len()),
            Err(k) => r matches Err(e) && e.kind() == k,
        },
{
    find_pair(&seg.files, ".dvm", ".dvd")
}

/// The vector files of a segment, by their places among its files.
pub fn vector_files(seg: &SegmentMeta) -> (r: Result<Option<(usize, usize)>>)
    ensures
        match file_pair(seg.files@, ".vemf"@, ".vec"@) {
            Ok(p) => r matches Ok(v) && pair_found(v, p, seg.files@.len()),
            Err(k) => r matches Err(e) && e.kind() == k,
        },
{
    find_pair(&seg.files, ".vemf", ".vec")
}

/// A vector column as its planner found it.
#[derive(Debug)]
pub struct VectorPlan {
    pub plan: DecodePlan,
    pub count: u64,
    pub dim: u32,
    /// Bytes per item.
    pub width: u8,
}

/// What was read of a segment: bytes of its doc-values files, and its
/// vectors where it has any.
#[derive(Debug)]
pub struct SegmentInput {
    pub dvm: Vec<u8>,
    pub dvd: Vec<u8>,
    pub vectors: Vec<VectorPlan>,
    pub vec_data: Vec<u8>,
}

/// The doc-values plans of a segment.
pub open spec fn segment_plans(seg: SegmentMeta, dvm: Seq<u8>, dvd: Seq<u8>) -> std::result::Result<PlansModel, ErrorKind> {
    let plans = match file_pair(seg.files@, ".dvm"@, ".dvd"@) {
        Err(k) => Err(k),
        Ok(None) => Ok(no_plans()),
        Ok(Some((_, j))) => doc_values_plans(
            dvm,
            dvd,
            planner_fields(seg.fields@, seg.fields@.len()),
            seg.max_doc as u32,
            seg.files@[j as int]@,
        ),
    };
    if plans is Ok && file_pair(seg.files@, ".vemf"@, ".vec"@) is Err {
        Err(ErrorKind::Corrupt)
    } else {
        plans
    }
}

/// Plans the doc values of a segment.
pub fn plan_segment(seg: &SegmentMeta, input: &SegmentInput) -> (r: Result<DocValuesPlans>)
    ensures
        match segment_plans(*seg, input.dvm@, input.dvd@) {
            Ok(m) => r matches Ok(p) && p@ == m,
            Err(k) => r matches Err(e) && e.kind() == k,
        },
{
    let plans: DocValuesPlans = match doc_values_files(seg)? {
        None => {
            let none: DocValuesPlans = DocValuesPlans {
                plans: Vec::new(),
                sorted: Vec::new(),
                multi_numeric: Vec::new(),
                binary: Vec::new(),
                skipped: Vec::new(),
            };
            proof {
                assert(none@.plans =~= no_plans().plans);
                assert(none@.sorted =~= no_plans().sorted);
                assert(none@.multi_numeric =~= no_plans().multi_numeric);
                assert(none@.binary =~= no_plans().binary);
            }
            none
        },
        Some((_, j)) => {
            let fields: Vec<DvField> = dv_fields(&seg.fields);
            plan_doc_values(
                input.dvm.as_slice(),
                input.dvd.as_slice(),
                fields.as_slice(),
                seg.max_doc as u32,
                seg.files[j].as_str(),
            )?
        },
    };
    vector_files(seg)?;
    Ok(plans)
}

/// Text behind 32-bit dictionary keys.
pub open spec fn dictionary_type() -> DataType {
    DataType::Dictionary(Box::new(DataType::Int32), Box::new(DataType::Utf8))
}

/// The first plan of a terms column from `i` on with a name.
pub open spec fn sorted_named(plans: Seq<SortedModel>, name: Seq<char>, i: nat) -> Option<nat>
    decreases plans.len() - i,
{
    if i >= plans.len() {
        None
    } else if plans[i as int].ords.column.name == name {
        Some(i)
    } else {
        sorted_named(plans, name, i + 1)
    }
}

/// The first plan of a column of lists from `i` on with a name.
pub open spec fn multi_named(plans: Seq<MultiNumericModel>, name: Seq<char>, i: nat) -> Option<nat>
    decreases plans.len() - i,
{
    if i >= plans.len() {
        None
    } else if plans[i as int].values.column.name == name {
        Some(i)
    } else {
        multi_named(plans, name, i + 1)
    }
}

/// The first numeric plan from `i` on with a name.
pub open spec fn numeric_named(plans: Seq<PlanModel>, name: Seq<char>, i: nat) -> Option<nat>
    decreases plans.len() - i,
{
    if i >= plans.len() {
        None
    } else if plans[i as int].column.name == name {
        Some(i)
    } else {
        numeric_named(plans, name, i + 1)
    }
}

/// The first plan of a column of byte strings from `i` on with a name.
pub open spec fn binary_named(plans: Seq<BinaryModel>, name: Seq<char>, i: nat) -> Option<nat>
    decreases plans.len() - i,
{
    if i >= plans.len() {
        None
    } else if plans[i as int].column.name == name {
        Some(i)
    } else {
        binary_named(plans, name, i + 1)
    }
}

/// The plans of vector columns.
pub open spec fn vector_plans(v: Seq<VectorPlan>) -> Seq<PlanModel> {
    Seq::new(v.len(), |i: int| v[i].plan@)
}

/// The column type of a field in a segment; none where it is not scanned.
pub open spec fn field_type(f: FieldMeta, plans: PlansModel) -> Option<DataType> {
    if f.has_vectors {
        let item = if f.vector_encoding == 0 {
            DataType::Int8
        } else {
            DataType::Float32
        };
        Some(DataType::FixedSizeList(Box::new(item), f.vector_dimension as i32))
    } else {
        match f.doc_values {
            DocValuesKind::Numeric => Some(DataType::Int64),
            DocValuesKind::Sorted => Some(dictionary_type()),
            DocValuesKind::SortedSet => match sorted_named(plans.sorted, f.name@, 0) {
                Some(i) => if plans.sorted[i as int].addresses is Some {
                    Some(DataType::List(Box::new(dictionary_type())))
                } else {
                    Some(dictionary_type())
                },
                None => Some(dictionary_type()),
            },
            DocValuesKind::SortedNumeric => if multi_named(plans.multi_numeric, f.name@, 0) is Some {
                Some(DataType::List(Box::new(DataType::Int64)))
            } else {
                Some(DataType::Int64)
            },
            DocValuesKind::Binary => Some(DataType::Binary),
            DocValuesKind::Absent => None,
        }
    }
}

pub(crate) fn find_sorted(plans: &DocValuesPlans, name: &str) -> (r: Option<usize>)
    ensures
        match r {
            Some(i) => i < plans.sorted@.len() && sorted_named(plans@.sorted, name@, 0) == Some(i as nat),
            None => sorted_named(plans@.sorted, name@, 0) is None,
        },
{
    let ghost m = plans@.sorted;
    let mut i: usize = 0;
    while i < plans.sorted.len()
        invariant
            i <= plans.sorted@.len(),
            m == plans@.sorted,
            sorted_named(m, name@, 0) == sorted_named(m, name@, i as nat),
        decreases plans.sorted@.len() - i,
    {
        assert(m[i as int] == plans.sorted@[i as int]@);
        if same_text(plans.sorted[i].ords.column.name.as_str(), name) {
            return Some(i);
        }
        i = i + 1;
    }
    None
}

pub(crate) fn find_multi(plans: &DocValuesPlans, name: &str) -> (r: Option<usize>)
    ensures
        match r {
            Some(i) => i < plans.multi_numeric@.len() && multi_named(plans@.multi_numeric, name@, 0) == Some(i as nat),
            None => multi_named(plans@.multi_numeric, name@, 0) is None,
        },
{
    let ghost m = plans@.multi_numeric;
    let mut i: usize = 0;
    while i < plans.multi_numeric.len()
        invariant
            i <= plans.multi_numeric@.len(),
            m == plans@.multi_numeric,
            multi_named(m, name@, 0) == multi_named(m, name@, i as nat),
        decreases plans.multi_numeric@.len() - i,
    {
        assert(m[i as int] == plans.multi_numeric@[i as int]@);
        if same_text(plans.multi_numeric[i].values.column.name.as_str(), name) {
            return Some(i);
        }
        i = i + 1;
    }
    None
}

pub(crate) fn find_numeric(plans: &DocValuesPlans, name: &str) -> (r: Option<usize>)
    ensures
        match r {
            Some(i) => i < plans.plans@.len() && numeric_named(plans@.plans, name@, 0) == Some(i as nat),
            None => numeric_named(plans@.plans, name@, 0) is None,
        },
{
    let ghost m = plans@.plans;
    let mut i: usize = 0;
    while i < plans.plans.len()
        invariant
            i <= plans.plans@.len(),
            m == plans@.plans,
            numeric_named(m, name@, 0) == numeric_named(m, name@, i as nat),
        decreases plans.plans@.len() - i,
    {
        assert(m[i as int] == plans.plans@[i as int]@);
        if same_text(plans.plans[i].column.name.as_str(), name) {
            return Some(i);
        }
        i = i + 1;
    }
    None
}

pub(crate) fn find_binary(plans: &DocValuesPlans, name: &str) -> (r: Option<usize>)
    ensures
        match r {
            Some(i) => i < plans.binary@.len() && binary_named(plans@.binary, name@, 0) == Some(i as nat),
            None => binary_named(plans@.binary, name@, 0) is None,
        },
{
    let ghost m = plans@.binary;
    let mut i: usize = 0;
    while i < plans.binary.len()
        invariant
            i <= plans.binary@.len(),
            m == plans@.binary,
            binary_named(m, name@, 0) == binary_named(m, name@, i as nat),
        decreases plans.binary@.len() - i,
    {
        assert(m[i as int] == plans.binary@[i as int]@);
        if same_text(plans.binary[i].column.name.as_str(), name) {
            return Some(i);
        }
        i = i + 1;
    }
    None
}

pub(crate) fn find_vector(vectors: &Vec<VectorPlan>, name: &str) -> (r: Option<usize>)
    ensures
        match r {
            Some(i) => i < vectors@.len() && numeric_named(vector_plans(vectors@), name@, 0) == Some(i as nat),
            None => numeric_named(vector_plans(vectors@), name@, 0) is None,
        },
{
    let ghost m = vector_plans(vectors@);
    let mut i: usize = 0;
    while i < vectors.len()
        invariant
            i <= vectors@.len(),
            m == vector_plans(vectors@),
            numeric_named(m, name@, 0) == numeric_named(m, name@, i as nat),
        decreases vectors@.len() - i,
    {
        assert(m[i as int] == vectors@[i as int].plan@);
        if same_text(vectors[i].plan.column.name.as_str(), name) {
            return Some(i);
        }
        i = i + 1;
    }
    None
}

/// The column type that a field decodes to in a segment.
pub fn field_arrow_type(f: &FieldMeta, plans: &DocValuesPlans) -> (r: Option<DataType>)
    ensures
        r == field_type(*f, plans@),
{
    if f.has_vectors {
        let item: DataType = if f.vector_encoding == 0 {
            DataType::Int8
        } else {
            DataType::Float32
        };
        return Some(DataType::FixedSizeList(Box::new(item), f.vector_dimension as i32));
    }
    match f.doc_values {
        DocValuesKind::Numeric => Some(DataType::Int64),
        DocValuesKind::Sorted => Some(DataType::Dictionary(Box::new(DataType::Int32), Box::new(DataType::Utf8))),
        DocValuesKind::SortedSet => {
            let dict: DataType = DataType::Dictionary(Box::new(DataType::Int32), Box::new(DataType::Utf8));
            let multi: bool = match find_sorted(plans, f.name.as_str()) {
                Some(i) => {
                    assert(plans@.sorted[i as int] == plans.sorted@[i as int]@);
                    plans.sorted[i].addresses.is_some()
                },
                None => false,
            };
            if multi {
                Some(DataType::List(Box::new(dict)))
            } else {
                Some(dict)
            }
        },
        DocValuesKind::SortedNumeric => if find_multi(plans, f.name.as_str()).is_some() {
            Some(DataType::List(Box::new(DataType::Int64)))
        } else {
            Some(DataType::Int64)
        },
        DocValuesKind::Binary => Some(DataType::Binary),
        DocValuesKind::Absent => None,
    }
}

/// What decoding one field of a segment costs.
#[derive(Debug)]
pub struct FieldCost {
    pub field: String,
    pub shape: &'static str,
    pub num_values: u64,
    pub payload_bytes: u64,
    /// Of numeric columns.
    pub blocks: Option<usize>,
    /// Of columns of terms: how many there are, and their bytes.
    pub terms: Option<(u64, u64)>,
    /// Of vector columns.
    pub dim: Option<u32>,
}

/// A field's cost as mathematical values.
pub struct CostModel {
    pub field: Seq<char>,
    pub shape: Seq<char>,
    pub num_values: nat,
    pub payload_bytes: nat,
    pub blocks: Option<nat>,
    pub terms: Option<(u64, u64)>,
    pub dim: Option<u32>,
}

impl View for FieldCost {
    type V = CostModel;

    open spec fn view(&self) -> CostModel {
        CostModel {
            field: self.field@,
            shape: self.shape@,
            num_values: self.num_values as nat,
            payload_bytes: self.payload_bytes as nat,
            blocks: match self.blocks {
                Some(n) => Some(n as nat),
                None => None,
            },
            terms: self.terms,
            dim: self.dim,
        }
    }
}

/// The payload bytes of a plan.
pub open spec fn plan_payload(p: PlanModel) -> nat {
    payload_bytes_of(p.blocks, p.blocks.len())
}

/// The cost of a numeric column.
pub open spec fn numeric_cost(p: PlanModel) -> CostModel {
    CostModel {
        field: p.column.name,
        shape: "numeric"@,
        num_values: p.num_values as nat,
        payload_bytes: plan_payload(p),
        blocks: Some(p.blocks.len()),
        terms: None,
        dim: None,
    }
}

/// The cost of a column of terms.
pub open spec fn sorted_cost(p: SortedModel) -> CostModel {
    CostModel {
        field: p.ords.column.name,
        shape: if p.addresses is Some {
            "sorted_set_multi"@
        } else {
            "sorted"@
        },
        num_values: p.ords.num_values as nat,
        payload_bytes: plan_payload(p.ords),
        blocks: None,
        terms: Some((p.terms.num_terms, p.terms.terms_len)),
        dim: None,
    }
}

/// The cost of a column of lists of numbers.
pub open spec fn multi_cost(p: MultiNumericModel) -> CostModel {
    CostModel {
        field: p.values.column.name,
        shape: "sorted_numeric_multi"@,
        num_values: p.values.num_values as nat,
        payload_bytes: plan_payload(p.values),
        blocks: None,
        terms: None,
        dim: None,
    }
}

/// The cost of a column of byte strings.
pub open spec fn binary_cost(p: BinaryModel) -> CostModel {
    CostModel {
        field: p.column.name,
        shape: "binary"@,
        num_values: p.num_docs_with_field as nat,
        payload_bytes: p.data_len as nat,
        blocks: None,
        terms: None,
        dim: None,
    }
}

/// The cost of a vector column.
pub open spec fn vector_cost(p: VectorPlan) -> CostModel {
    CostModel {
        field: p.plan.column.name@,
        shape: "vector"@,
        num_values: p.count as nat,
        payload_bytes: (p.count * p.dim * p.width) as nat,
        blocks: None,
        terms: None,
        dim: Some(p.dim),
    }
}

/// The costs of all fields of a segment: numeric columns, then columns of
/// terms, lists, byte strings and vectors.
pub open spec fn segment_costs(plans: PlansModel, vectors: Seq<VectorPlan>) -> Seq<CostModel> {
    Seq::new(plans.plans.len(), |i: int| numeric_cost(plans.plans[i])) + Seq::new(
        plans.sorted.len(),
        |i: int| sorted_cost(plans.sorted[i]),
    ) + Seq::new(plans.multi_numeric.len(), |i: int| multi_cost(plans.multi_numeric[i])) + Seq::new(
        plans.binary.len(),
        |i: int| binary_cost(plans.binary[i]),
    ) + Seq::new(vectors.len(), |i: int| vector_cost(vectors[i]))
}

/// Costs that a counter of 64 bits holds.
pub open spec fn costs_fit(c: Seq<CostModel>) -> bool {
    forall|i: int| 0 <= i < c.len() ==> (#[trigger] c[i]).payload_bytes <= u64::MAX
}

/// Costs as mathematical values.
pub open spec fn costs_view(c: Seq<FieldCost>) -> Seq<CostModel> {
    Seq::new(c.len(), |i: int| c[i]@)
}

/// The payload bytes of a plan, if a counter of 64 bits holds them.
fn payload_of(p: &DecodePlan) -> (r: Option<u64>)
    ensures
        match r {
            Some(n) => plan_payload(p@) == n,
            None => plan_payload(p@) > u64::MAX,
        },
{
    let ghost m = p@.blocks;
    let mut total: u64 = 0;
    let mut i: usize = 0;
    while i < p.blocks.len()
        invariant
            i <= p.blocks@.len(),
            m == p@.blocks,
            m.len() == p.blocks@.len(),
            total == payload_bytes_of(m, i as nat),
        decreases p.blocks@.len() - i,
    {
        let len: u64 = p.blocks[i].byte_range().1;
        assert(m[i as int] == p.blocks@[i as int]@);
        proof {
            lemma_payload_mono(m, i as nat + 1, m.len());
        }
        match total.checked_add(len) {
            Some(t) => {
                total = t;
            },
            None => {
                return None;
            },
        }
        i = i + 1;
    }
    Some(total)
}

/// Appends the cost of a field.
fn push_cost(out: &mut Vec<FieldCost>, c: FieldCost)
    ensures
        costs_view(final(out)@) == costs_view(old(out)@).push(c@),
{
    let ghost before = costs_view(out@);
    let ghost m = c@;
    out.push(c);
    assert(costs_view(out@) =~= before.push(m));
}

/// The error for sizes past 64 bits, which no sound file states.
fn too_large() -> (e: Error)
    ensures
        e.kind() == ErrorKind::Corrupt,
{
    Error::corrupt("payload sizes past 64 bits")
}

fn numeric_costs(plans: &DocValuesPlans, out: &mut Vec<FieldCost>) -> (r: Result<()>)
    ensures
        ({
            let c = Seq::new(plans@.plans.len(), |i: int| numeric_cost(plans@.plans[i]));
            &&& costs_fit(c) ==> r is Ok && costs_view(final(out)@) == costs_view(old(out)@) + c
            &&& !costs_fit(c) ==> (r matches Err(e) && e.kind() == ErrorKind::Corrupt)
        }),
{
    let ghost m = plans@.plans;
    let ghost c = Seq::new(m.len(), |i: int| numeric_cost(m[i]));
    let ghost before = costs_view(out@);
    let mut i: usize = 0;
    assert(costs_view(out@) =~= before + c.take(0));
    while i < plans.plans.len()
        invariant
            i <= plans.plans@.len(),
            m == plans@.plans,
            m.len() == plans.plans@.len(),
            c == Seq::new(m.len(), |i: int| numeric_cost(m[i])),
            costs_view(out@) == before + c.take(i as int),
            forall|k: int| 0 <= k < i ==> (#[trigger] c[k]).payload_bytes <= u64::MAX,
        decreases plans.plans@.len() - i,
    {
        let p: &DecodePlan = &plans.plans[i];
        assert(m[i as int] == p@);
        let payload_bytes: u64 = match payload_of(p) {
            Some(n) => n,
            None => {
                assert(c[i as int].payload_bytes > u64::MAX);
                return Err(too_large());
            },
        };
        push_cost(
            out,
            FieldCost {
                field: p.column.name.clone(),
                shape: "numeric",
                num_values: p.num_values,
                payload_bytes,
                blocks: Some(p.blocks.len()),
                terms: None,
                dim: None,
            },
        );
        i = i + 1;
        assert(before + c.take(i as int) =~= (before + c.take(i - 1)).push(c[i - 1]));
    }
    assert(c.take(i as int) =~= c);
    Ok(())
}

fn sorted_costs(plans: &DocValuesPlans, out: &mut Vec<FieldCost>) -> (r: Result<()>)
    ensures
        ({
            let c = Seq::new(plans@.sorted.len(), |i: int| sorted_cost(plans@.sorted[i]));
            &&& costs_fit(c) ==> r is Ok && costs_view(final(out)@) == costs_view(old(out)@) + c
            &&& !costs_fit(c) ==> (r matches Err(e) && e.kind() == ErrorKind::Corrupt)
        }),
{
    let ghost m = plans@.sorted;
    let ghost c = Seq::new(m.len(), |i: int| sorted_cost(m[i]));
    let ghost before = costs_view(out@);
    let mut i: usize = 0;
    assert(costs_view(out@) =~= before + c.take(0));
    while i < plans.sorted.len()
        invariant
            i <= plans.sorted@.len(),
            m == plans@.sorted,
            m.len() == plans.sorted@.len(),
            c == Seq::new(m.len(), |i: int| sorted_cost(m[i])),
            costs_view(out@) == before + c.take(i as int),
            forall|k: int| 0 <= k < i ==> (#[trigger] c[k]).payload_bytes <= u64::MAX,
        decreases plans.sorted@.len() - i,
    {
        assert(m[i as int] == plans.sorted@[i as int]@);
        let payload_bytes: u64 = match payload_of(&plans.sorted[i].ords) {
            Some(n) => n,
            None => {
                assert(c[i as int].payload_bytes > u64::MAX);
                return Err(too_large());
            },
        };
        let shape: &'static str = if plans.sorted[i].addresses.is_some() {
            "sorted_set_multi"
        } else {
            "sorted"
        };
        push_cost(
            out,
            FieldCost {
                field: plans.sorted[i].ords.column.name.clone(),
                shape,
                num_values: plans.sorted[i].ords.num_values,
                payload_bytes,
                blocks: None,
                terms: Some((plans.sorted[i].terms.num_terms, plans.sorted[i].terms.terms_len)),
                dim: None,
            },
        );
        i = i + 1;
        assert(before + c.take(i as int) =~= (before + c.take(i - 1)).push(c[i - 1]));
    }
    assert(c.take(i as int) =~= c);
    Ok(())
}

fn multi_costs(plans: &DocValuesPlans, out: &mut Vec<FieldCost>) -> (r: Result<()>)
    ensures
        ({
            let c = Seq::new(plans@.multi_numeric.len(), |i: int| multi_cost(plans@.multi_numeric[i]));
            &&& costs_fit(c) ==> r is Ok && costs_view(final(out)@) == costs_view(old(out)@) + c
            &&& !costs_fit(c) ==> (r matches Err(e) && e.kind() == ErrorKind::Corrupt)
        }),
{
    let ghost m = plans@.multi_numeric;
    let ghost c = Seq::new(m.len(), |i: int| multi_cost(m[i]));
    let ghost before = costs_view(out@);
    let mut i: usize = 0;
    assert(costs_view(out@) =~= before + c.take(0));
    while i < plans.multi_numeric.len()
        invariant
            i <= plans.multi_numeric@.len(),
            m == plans@.multi_numeric,
            m.len() == plans.multi_numeric@.len(),
            c == Seq::new(m.len(), |i: int| multi_cost(m[i])),
            costs_view(out@) == before + c.take(i as int),
            forall|k: int| 0 <= k < i ==> (#[trigger] c[k]).payload_bytes <= u64::MAX,
        decreases plans.multi_numeric@.len() - i,
    {
        assert(m[i as int] == plans.multi_numeric@[i as int]@);
        let p: &DecodePlan = &plans.multi_numeric[i].values;
        let payload_bytes: u64 = match payload_of(p) {
            Some(n) => n,
            None => {
                assert(c[i as int].payload_bytes > u64::MAX);
                return Err(too_large());
            },
        };
        push_cost(
            out,
            FieldCost {
                field: p.column.name.clone(),
                shape: "sorted_numeric_multi",
                num_values: p.num_values,
                payload_bytes,
                blocks: None,
                terms: None,
                dim: None,
            },
        );
        i = i + 1;
        assert(before + c.take(i as int) =~= (before + c.take(i - 1)).push(c[i - 1]));
    }
    assert(c.take(i as int) =~= c);
    Ok(())
}

fn binary_costs(plans: &DocValuesPlans, out: &mut Vec<FieldCost>)
    ensures
        costs_view(final(out)@) == costs_view(old(out)@) + Seq::new(
            plans@.binary.len(),
            |i: int| binary_cost(plans@.binary[i]),
        ),
{
    let ghost m = plans@.binary;
    let ghost c = Seq::new(m.len(), |i: int| binary_cost(m[i]));
    let ghost before = costs_view(out@);
    let mut i: usize = 0;
    assert(costs_view(out@) =~= before + c.take(0));
    while i < plans.binary.len()
        invariant
            i <= plans.binary@.len(),
            m == plans@.binary,
            m.len() == plans.binary@.len(),
            c == Seq::new(m.len(), |i: int| binary_cost(m[i])),
            costs_view(out@) == before + c.take(i as int),
        decreases plans.binary@.len() - i,
    {
        assert(m[i as int] == plans.binary@[i as int]@);
        push_cost(
            out,
            FieldCost {
                field: plans.binary[i].column.name.clone(),
                shape: "binary",
                num_values: plans.binary[i].num_docs_with_field as u64,
                payload_bytes: plans.binary[i].data_len,
                blocks: None,
                terms: None,
                dim: None,
            },
        );
        i = i + 1;
        assert(before + c.take(i as int) =~= (before + c.take(i - 1)).push(c[i - 1]));
    }
    assert(c.take(i as int) =~= c);
}

fn vector_costs(vectors: &Vec<VectorPlan>, out: &mut Vec<FieldCost>) -> (r: Result<()>)
    ensures
        ({
            let c = Seq::new(vectors@.len(), |i: int| vector_cost(vectors@[i]));
            &&& costs_fit(c) ==> r is Ok && costs_view(final(out)@) == costs_view(old(out)@) + c
            &&& !costs_fit(c) ==> (r matches Err(e) && e.kind() == ErrorKind::Corrupt)
        }),
{
    let ghost c = Seq::new(vectors@.len(), |i: int| vector_cost(vectors@[i]));
    let ghost before = costs_view(out@);
    let mut i: usize = 0;
    assert(costs_view(out@) =~= before + c.take(0));
    while i < vectors.len()
        invariant
            i <= vectors@.len(),
            c == Seq::new(vectors@.len(), |i: int| vector_cost(vectors@[i])),
            costs_view(out@) == before + c.take(i as int),
            forall|k: int| 0 <= k < i ==> (#[trigger] c[k]).payload_bytes <= u64::MAX,
        decreases vectors@.len() - i,
    {
        let v: &VectorPlan = &vectors[i];
        proof {
            assert(v.count * v.dim <= 0xFFFF_FFFF_FFFF_FFFF * 0xFFFF_FFFF) by (nonlinear_arith)
                requires
                    v.count <= 0xFFFF_FFFF_FFFF_FFFF,
                    v.dim <= 0xFFFF_FFFF,
            ;
            assert((v.count * v.dim) * v.width <= 0xFFFF_FFFF_FFFF_FFFF * 0xFFFF_FFFF * 255) by (nonlinear_arith)
                requires
                    v.count * v.dim <= 0xFFFF_FFFF_FFFF_FFFF * 0xFFFF_FFFF,
                    v.width <= 255,
            ;
        }
        let bytes: u128 = v.count as u128 * v.dim as u128 * v.width as u128;
        if bytes > 0xFFFF_FFFF_FFFF_FFFF {
            assert(c[i as int].payload_bytes > u64::MAX);
            return Err(too_large());
        }
        push_cost(
            out,
            FieldCost {
                field: v.plan.column.name.clone(),
                shape: "vector",
                num_values: v.count,
                payload_bytes: bytes as u64,
                blocks: None,
                terms: None,
                dim: Some(v.dim),
            },
        );
        i = i + 1;
        assert(before + c.take(i as int) =~= (before + c.take(i - 1)).push(c[i - 1]));
    }
    assert(c.take(i as int) =~= c);
    Ok(())
}

/// Decode-cost estimates of a segment's fields, from plans alone.
pub fn stats(plans: &DocValuesPlans, vectors: &Vec<VectorPlan>) -> (r: Result<Vec<FieldCost>>)
    ensures
        costs_fit(segment_costs(plans@, vectors@)) ==> (r matches Ok(v) && costs_view(v@) == segment_costs(
            plans@,
            vectors@,
        )),
        !costs_fit(segment_costs(plans@, vectors@)) ==> (r matches Err(e) && e.kind() == ErrorKind::Corrupt),
{
    let ghost m = plans@;
    let ghost a = Seq::new(m.plans.len(), |i: int| numeric_cost(m.plans[i]));
    let ghost b = Seq::new(m.sorted.len(), |i: int| sorted_cost(m.sorted[i]));
    let ghost c = Seq::new(m.multi_numeric.len(), |i: int| multi_cost(m.multi_numeric[i]));
    let ghost d = Seq::new(m.binary.len(), |i: int| binary_cost(m.binary[i]));
    let ghost e = Seq::new(vectors@.len(), |i: int| vector_cost(vectors@[i]));
    proof {
        lemma_costs_fit(a, b, c, d, e);
    }
    let mut out: Vec<FieldCost> = Vec::new();
    assert(costs_view(out@) =~= Seq::<CostModel>::empty());
    numeric_costs(plans, &mut out)?;
    sorted_costs(plans, &mut out)?;
    multi_costs(plans, &mut out)?;
    binary_costs(plans, &mut out);
    vector_costs(vectors, &mut out)?;
    assert(costs_view(out@) =~= segment_costs(plans@, vectors@));
    Ok(out)
}

/// All costs fit where those of each kind do.
proof fn lemma_costs_fit(a: Seq<CostModel>, b: Seq<CostModel>, c: Seq<CostModel>, d: Seq<CostModel>, e: Seq<CostModel>)
    requires
        costs_fit(d),
    ensures
        costs_fit(a + b + c + d + e) <==> costs_fit(a) && costs_fit(b) && costs_fit(c) && costs_fit(e),
{
    let all = a + b + c + d + e;
    if costs_fit(all) {
        assert forall|i: int| 0 <= i < a.len() implies (#[trigger] a[i]).payload_bytes <= u64::MAX by {
            assert(all[i] == a[i]);
        }
        assert forall|i: int| 0 <= i < b.len() implies (#[trigger] b[i]).payload_bytes <= u64::MAX by {
            assert(all[a.len() + i] == b[i]);
        }
        assert forall|i: int| 0 <= i < c.len() implies (#[trigger] c[i]).payload_bytes <= u64::MAX by {
            assert(all[a.len() + b.len() + i] == c[i]);
        }
        assert forall|i: int| 0 <= i < e.len() implies (#[trigger] e[i]).payload_bytes <= u64::MAX by {
            assert(all[a.len() + b.len() + c.len() + d.len() + i] == e[i]);
        }
    }
}

/// The first plan with a name has it, and none before it.
pub proof fn lemma_numeric_named(plans: Seq<PlanModel>, name: Seq<char>, i: nat)
    ensures
        match numeric_named(plans, name, i) {
            Some(j) => i <= j < plans.len() && plans[j as int].column.name == name && forall|k: int|
                i <= k < j ==> (#[trigger] plans[k]).column.name != name,
            None => forall|k: int| i <= k < plans.len() ==> (#[trigger] plans[k]).column.name != name,
        },
    decreases plans.len() - i,
{
    if i < plans.len() && plans[i as int].column.name != name {
        lemma_numeric_named(plans, name, i + 1);
    }
}

/// The first plan with a name has it, and none before it.
pub proof fn lemma_sorted_named(plans: Seq<SortedModel>, name: Seq<char>, i: nat)
    ensures
        match sorted_named(plans, name, i) {
            Some(j) => i <= j < plans.len() && plans[j as int].ords.column.name == name && forall|k: int|
                i <= k < j ==> (#[trigger] plans[k]).ords.column.name != name,
            None => forall|k: int| i <= k < plans.len() ==> (#[trigger] plans[k]).ords.column.name != name,
        },
    decreases plans.len() - i,
{
    if i < plans.len() && plans[i as int].ords.column.name != name {
        lemma_sorted_named(plans, name, i + 1);
    }
}

/// The first plan with a name has it, and none before it.
pub proof fn lemma_multi_named(plans: Seq<MultiNumericModel>, name: Seq<char>, i: nat)
    ensures
        match multi_named(plans, name, i) {
            Some(j) => i <= j < plans.len() && plans[j as int].values.column.name == name && forall|k: int|
                i <= k < j ==> (#[trigger] plans[k]).values.column.name != name,
            None => forall|k: int| i <= k < plans.len() ==> (#[trigger] plans[k]).values.column.name != name,
        },
    decreases plans.len() - i,
{
    if i < plans.len() && plans[i as int].values.column.name != name {
        lemma_multi_named(plans, name, i + 1);
    }
}

/// The first plan with a name has it, and none before it.
pub proof fn lemma_binary_named(plans: Seq<BinaryModel>, name: Seq<char>, i: nat)
    ensures
        match binary_named(plans, name, i) {
            Some(j) => i <= j < plans.len() && plans[j as int].column.name == name && forall|k: int|
                i <= k < j ==> (#[trigger] plans[k]).column.name != name,
            None => forall|k: int| i <= k < plans.len() ==> (#[trigger] plans[k]).column.name != name,
        },
    decreases plans.len() - i,
{
    if i < plans.len() && plans[i as int].column.name != name {
        lemma_binary_named(plans, name, i + 1);
    }
}

/// The first file with an ending has it, and none before it.
pub proof fn law_file_with_ending(files: Seq<String>, ending: Seq<char>, from: nat)
    ensures
        match file_with_ending(files, ending, from) {
            Some(j) => from <= j < files.len() && has_ending(files[j as int]@, ending) && forall|k: int|
                from <= k < j ==> !has_ending((#[trigger] files[k])@, ending),
            None => forall|k: int| from <= k < files.len() ==> !has_ending((#[trigger] files[k])@, ending),
        },
    decreases files.len() - from,
{
    if from < files.len() {
        assert(text_ends_with(files[from as int]@, ending) == has_ending(files[from as int]@, ending)) by {
            lemma_ending(files[from as int]@, ending);
        }
        if !text_ends_with(files[from as int]@, ending) {
            law_file_with_ending(files, ending, from + 1);
        }
    }
}

/// A text is something with an ending behind it.
pub open spec fn has_ending(s: Seq<char>, ending: Seq<char>) -> bool {
    exists|front: Seq<char>| s == #[trigger] (front + ending)
}

proof fn lemma_ending(s: Seq<char>, ending: Seq<char>)
    ensures
        text_ends_with(s, ending) == has_ending(s, ending),
{
    if text_ends_with(s, ending) {
        let front = s.take(s.len() - ending.len());
        assert(s =~= front + ending);
    }
    if has_ending(s, ending) {
        let front = choose|front: Seq<char>| s == #[trigger] (front + ending);
        assert(s.skip(s.len() - ending.len()) =~= ending);
        assert(s.subrange(s.len() - ending.len(), s.len() as int) =~= ending);
    }
}

/// A metadata file and its data file are found together: none where there is
/// no metadata file, an error where the data file is missing.
pub proof fn law_file_pair(files: Seq<String>, meta: Seq<char>, data: Seq<char>)
    ensures
        match file_pair(files, meta, data) {
            Ok(None) => forall|k: int| 0 <= k < files.len() ==> !has_ending((#[trigger] files[k])@, meta),
            Ok(Some((i, j))) => i < files.len() && j < files.len() && has_ending(files[i as int]@, meta) && has_ending(
                files[j as int]@,
                data,
            ),
            Err(k) => k == ErrorKind::Corrupt && (exists|i: int|
                0 <= i < files.len() && has_ending((#[trigger] files[i])@, meta)) && forall|j: int|
                0 <= j < files.len() ==> !has_ending((#[trigger] files[j])@, data),
        },
{
    law_file_with_ending(files, meta, 0);
    law_file_with_ending(files, data, 0);
}

/// The planner sees each field with doc values once, in order, under its own
/// number and name, with its type and whether a skip index stands in front;
/// fields without doc values it does not see.
pub proof fn law_planner_fields(fields: Seq<FieldMeta>, n: nat, k: int)
    requires
        n <= fields.len(),
        0 <= k < n,
    ensures
        planner_fields(fields, n).len() <= n,
        fields[k].doc_values != DocValuesKind::Absent ==> ({
            let i = planner_fields(fields, k as nat).len() as int;
            &&& i < planner_fields(fields, n).len()
            &&& planner_fields(fields, n)[i].id == (FieldIdModel { number: fields[k].number as i32, name: fields[k].name@ })
            &&& planner_fields(fields, n)[i].has_skip_index == fields[k].has_skip_index
            &&& match planner_fields(fields, n)[i].kind {
                DvKind::Numeric => fields[k].doc_values == DocValuesKind::Numeric,
                DvKind::Binary => fields[k].doc_values == DocValuesKind::Binary,
                DvKind::Sorted => fields[k].doc_values == DocValuesKind::Sorted,
                DvKind::SortedNumeric => fields[k].doc_values == DocValuesKind::SortedNumeric,
                DvKind::SortedSet => fields[k].doc_values == DocValuesKind::SortedSet,
            }
        }),
        fields[k].doc_values == DocValuesKind::Absent ==> planner_fields(fields, (k + 1) as nat) == planner_fields(
            fields,
            k as nat,
        ),
    decreases n,
{
    if n > 1 {
        law_planner_fields(fields, (n - 1) as nat, if k < n - 1 {
            k
        } else {
            0
        });
    }
    if k < n - 1 {
        let before = planner_fields(fields, (n - 1) as nat);
        let i = planner_fields(fields, k as nat).len() as int;
        if fields[k].doc_values != DocValuesKind::Absent {
            assert(planner_fields(fields, n)[i] == before[i]);
        }
    }
}

/// The costs of a segment list every plan once, under its own name, with the
/// bytes of all its blocks.
pub proof fn law_costs_listed(plans: PlansModel, vectors: Seq<VectorPlan>, i: int)
    ensures
        ({
            let c = segment_costs(plans, vectors);
            let (n, s, m, b) = (
                plans.plans.len() as int,
                plans.sorted.len() as int,
                plans.multi_numeric.len() as int,
                plans.binary.len() as int,
            );
            &&& c.len() == n + s + m + b + vectors.len()
            &&& 0 <= i < n ==> c[i].field == plans.plans[i].column.name && c[i].num_values == plans.plans[i].num_values
                && c[i].payload_bytes == payload_bytes_of(plans.plans[i].blocks, plans.plans[i].blocks.len())
                && c[i].blocks == Some(plans.plans[i].blocks.len())
            &&& 0 <= i < s ==> c[n + i].field == plans.sorted[i].ords.column.name && c[n + i].num_values
                == plans.sorted[i].ords.num_values && c[n + i].payload_bytes == payload_bytes_of(
                plans.sorted[i].ords.blocks,
                plans.sorted[i].ords.blocks.len(),
            ) && c[n + i].terms == Some((plans.sorted[i].terms.num_terms, plans.sorted[i].terms.terms_len))
            &&& 0 <= i < m ==> c[n + s + i].field == plans.multi_numeric[i].values.column.name && c[n + s
                + i].num_values == plans.multi_numeric[i].values.num_values && c[n + s + i].payload_bytes
                == payload_bytes_of(
                plans.multi_numeric[i].values.blocks,
                plans.multi_numeric[i].values.blocks.len(),
            )
            &&& 0 <= i < b ==> c[n + s + m + i].field == plans.binary[i].column.name && c[n + s + m + i].num_values
                == plans.binary[i].num_docs_with_field && c[n + s + m + i].payload_bytes == plans.binary[i].data_len
            &&& 0 <= i < vectors.len() ==> c[n + s + m + b + i].field == vectors[i].plan.column.name@ && c[n + s + m + b
                + i].num_values == vectors[i].count && c[n + s + m + b + i].payload_bytes == vectors[i].count
                * vectors[i].dim * vectors[i].width && c[n + s + m + b + i].dim == Some(vectors[i].dim)
        }),
{
}

/// The type of a field in a schema says how its values are held: vectors by
/// their dimension, numbers and terms plain or in lists as the segment has
/// them, byte strings as they are. A field with neither has no column.
pub proof fn law_field_types(f: FieldMeta, plans: PlansModel)
    ensures
        field_type(f, plans) is Some <==> f.has_vectors || f.doc_values != DocValuesKind::Absent,
        f.has_vectors ==> (field_type(f, plans) matches Some(DataType::FixedSizeList(t, n)) && n
            == f.vector_dimension as i32 && (*t == DataType::Int8 <==> f.vector_encoding == 0) && (*t == DataType::Float32
            <==> f.vector_encoding != 0)),
        !f.has_vectors ==> {
            &&& field_type(f, plans) == Some(DataType::Int64) <==> f.doc_values == DocValuesKind::Numeric || (
            f.doc_values == DocValuesKind::SortedNumeric && forall|i: int|
                0 <= i < plans.multi_numeric.len() ==> (#[trigger] plans.multi_numeric[i]).values.column.name != f.name@)
            &&& field_type(f, plans) == Some(DataType::List(Box::new(DataType::Int64))) <==> f.doc_values
                == DocValuesKind::SortedNumeric && exists|i: int|
                0 <= i < plans.multi_numeric.len() && (#[trigger] plans.multi_numeric[i]).values.column.name == f.name@
            &&& field_type(f, plans) == Some(DataType::Binary) <==> f.doc_values == DocValuesKind::Binary
            &&& f.doc_values == DocValuesKind::Sorted ==> field_type(f, plans) == Some(
                DataType::Dictionary(Box::new(DataType::Int32), Box::new(DataType::Utf8)),
            )
        },
{
    lemma_multi_named(plans.multi_numeric, f.name@, 0);
    lemma_sorted_named(plans.sorted, f.name@, 0);
}

} // verus!
