//! Resolving a read request: which segments, which columns of which type,
//! and the configuration that is echoed back.

use vstd::prelude::*;
use crate::attributes::Attributes;
use crate::engine::{field_arrow_type, field_type, plan_segment, segment_plans, SegmentInput, DEFAULT_BATCH_ROWS};
use crate::error::{Error, ErrorKind, Result};
use crate::meta::{
    row_mode_text, RowMode, COL_DOC, COL_GLOBAL_DOC, COL_LIVE, COL_SEG, FRAME_VERSION,
};
use crate::read::{DocValuesPlans, PlansModel};
use crate::request::{
    resolve_executor, resolved_executor, text_of, GpuSupport, ReadRequest, SegmentSelector,
};
use crate::schema::DataType;
use crate::segment::{FieldMeta, SegmentMeta};
use crate::text::same_text;

verus! {

/// The first segment from `i` on with a name.
pub open spec fn segment_named(segments: Seq<SegmentMeta>, name: Seq<char>, i: nat) -> Option<nat>
    decreases segments.len() - i,
{
    if i >= segments.len() {
        None
    } else if segments[i as int].name@ == name {
        Some(i)
    } else {
        segment_named(segments, name, i + 1)
    }
}

/// The segments that the first `n` names stand for.
pub open spec fn named_segments(segments: Seq<SegmentMeta>, names: Seq<String>, n: nat) -> std::result::Result<
    Seq<nat>,
    ErrorKind,
>
    decreases n,
{
    if n == 0 {
        Ok(Seq::empty())
    } else {
        match named_segments(segments, names, (n - 1) as nat) {
            Err(k) => Err(k),
            Ok(before) => match segment_named(segments, names[n - 1]@, 0) {
                None => Err(ErrorKind::InvalidArgument),
                Some(i) => Ok(before.push(i)),
            },
        }
    }
}

/// The segments that a selector stands for.
pub open spec fn selected(segments: Seq<SegmentMeta>, selector: SegmentSelector) -> std::result::Result<
    Seq<nat>,
    ErrorKind,
> {
    match selector {
        SegmentSelector::All => Ok(Seq::new(segments.len(), |i: int| i as nat)),
        SegmentSelector::Names(names) => named_segments(segments, names@, names@.len()),
    }
}

/// Places as mathematical values.
pub open spec fn places(v: Seq<usize>) -> Seq<nat> {
    Seq::new(v.len(), |i: int| v[i] as nat)
}

fn find_segment(segments: &[SegmentMeta], name: &str) -> (r: Option<usize>)
    ensures
        match r {
            Some(i) => i < segments@.len() && segment_named(segments@, name@, 0) == Some(i as nat),
            None => segment_named(segments@, name@, 0) is None,
        },
{
    let mut i: usize = 0;
    while i < segments.len()
        invariant
            i <= segments@.len(),
            segment_named(segments@, name@, 0) == segment_named(segments@, name@, i as nat),
        decreases segments@.len() - i,
    {
        if same_text(segments[i].name.as_str(), name) {
            return Some(i);
        }
        i = i + 1;
    }
    None
}

/// A name that stands for no segment ends the selection.
proof fn lemma_names_stop(segments: Seq<SegmentMeta>, names: Seq<String>, i: nat, n: nat)
    requires
        i <= n,
        named_segments(segments, names, i) is Err,
    ensures
        named_segments(segments, names, n) == named_segments(segments, names, i),
    decreases n,
{
    if i < n {
        lemma_names_stop(segments, names, i, (n - 1) as nat);
    }
}

/// Every place lies among the segments.
pub open spec fn within(v: Seq<usize>, n: nat) -> bool {
    forall|i: int| 0 <= i < v.len() ==> (#[trigger] v[i]) < n
}

/// Picks the segments that a selector stands for, in its order.
pub fn select_segments(segments: &[SegmentMeta], selector: &SegmentSelector) -> (r: Result<Vec<usize>>)
    ensures
        match selected(segments@, *selector) {
            Ok(s) => r matches Ok(v) && places(v@) == s && within(v@, segments@.len()),
            Err(k) => r matches Err(e) && e.kind() == k,
        },
{
    let mut out: Vec<usize> = Vec::new();
    match selector {
        SegmentSelector::All => {
            let mut i: usize = 0;
            while i < segments.len()
                invariant
                    i <= segments@.len(),
                    out@.len() == i,
                    forall|k: int| 0 <= k < i ==> (#[trigger] out@[k]) == k,
                decreases segments@.len() - i,
            {
                out.push(i);
                i = i + 1;
            }
            assert(places(out@) =~= Seq::new(segments@.len(), |i: int| i as nat));
        },
        SegmentSelector::Names(names) => {
            let mut i: usize = 0;
            assert(places(out@) =~= Seq::<nat>::empty());
            while i < names.len()
                invariant
                    i <= names@.len(),
                    *selector == SegmentSelector::Names(*names),
                    within(out@, segments@.len()),
                    named_segments(segments@, names@, i as nat) == Ok::<Seq<nat>, ErrorKind>(places(out@)),
                decreases names@.len() - i,
            {
                let ghost before = places(out@);
                match find_segment(segments, names[i].as_str()) {
                    None => {
                        proof {
                            lemma_names_stop(segments@, names@, (i + 1) as nat, names@.len());
                        }
                        return Err(Error::invalid("no such segment"));
                    },
                    Some(k) => {
                        out.push(k);
                        assert(places(out@) =~= before.push(k as nat));
                    },
                }
                i = i + 1;
            }
        },
    }
    Ok(out)
}

/// Columns that a request names; none for all.
pub open spec fn wanted_names(columns: Option<Vec<String>>) -> Option<Seq<Seq<char>>> {
    match columns {
        Some(v) => Some(Seq::new(v@.len(), |i: int| v@[i]@)),
        None => None,
    }
}

/// Whether a column is asked for.
pub open spec fn wanted(names: Option<Seq<Seq<char>>>, name: Seq<char>) -> bool {
    match names {
        Some(s) => s.contains(name),
        None => true,
    }
}

/// Whether a column is asked for.
pub fn is_wanted(columns: &Option<Vec<String>>, name: &str) -> (r: bool)
    ensures
        r == wanted(wanted_names(*columns), name@),
{
    match columns {
        None => true,
        Some(v) => {
            let ghost s = Seq::new(v@.len(), |i: int| v@[i]@);
            let mut i: usize = 0;
            let mut found: bool = false;
            while i < v.len() && !found
                invariant
                    i <= v@.len(),
                    s == Seq::new(v@.len(), |i: int| v@[i]@),
                    found ==> s.contains(name@),
                    !found ==> forall|k: int| 0 <= k < i ==> (#[trigger] s[k]) != name@,
                decreases v@.len() - i,
            {
                if same_text(v[i].as_str(), name) {
                    assert(s[i as int] == name@);
                    found = true;
                }
                i = i + 1;
            }
            found
        },
    }
}

/// One column of the schema that a request reads.
#[derive(Debug)]
pub struct SchemaField {
    pub name: String,
    pub data_type: DataType,
    pub nullable: bool,
    /// The field whose values the column holds; none for system columns.
    pub lucene_field: Option<String>,
}

/// A schema column as mathematical values.
pub struct SchemaModel {
    pub name: Seq<char>,
    pub data_type: DataType,
    pub nullable: bool,
    pub lucene_field: Option<Seq<char>>,
}

impl View for SchemaField {
    type V = SchemaModel;

    open spec fn view(&self) -> SchemaModel {
        SchemaModel {
            name: self.name@,
            data_type: self.data_type,
            nullable: self.nullable,
            lucene_field: text_of(self.lucene_field),
        }
    }
}

/// A schema as mathematical values.
pub open spec fn schema_view(s: Seq<SchemaField>) -> Seq<SchemaModel> {
    Seq::new(s.len(), |i: int| s[i]@)
}

/// The column of a field.
pub open spec fn field_column(name: Seq<char>, data_type: DataType) -> SchemaModel {
    SchemaModel { name, data_type, nullable: true, lucene_field: Some(name) }
}

/// The type that a column has so far.
pub open spec fn known_type(columns: Seq<SchemaModel>, name: Seq<char>, i: nat) -> Option<DataType>
    decreases columns.len() - i,
{
    if i >= columns.len() {
        None
    } else if columns[i as int].name == name {
        Some(columns[i as int].data_type)
    } else {
        known_type(columns, name, i + 1)
    }
}

/// The columns after one more field of a segment: a new column where the
/// name is new, and no change where it has the type it had. Another type is
/// a conflict: nothing is converted.
pub open spec fn with_field(
    columns: Seq<SchemaModel>,
    f: FieldMeta,
    plans: PlansModel,
    names: Option<Seq<Seq<char>>>,
) -> std::result::Result<Seq<SchemaModel>, ErrorKind> {
    match field_type(f, plans) {
        None => Ok(columns),
        Some(dt) => if !wanted(names, f.name@) {
            Ok(columns)
        } else {
            match known_type(columns, f.name@, 0) {
                None => Ok(columns.push(field_column(f.name@, dt))),
                Some(t) => if t == dt {
                    Ok(columns)
                } else {
                    Err(ErrorKind::InvalidArgument)
                },
            }
        },
    }
}

/// The columns after the first `n` fields of a segment.
pub open spec fn with_fields(
    columns: Seq<SchemaModel>,
    fields: Seq<FieldMeta>,
    plans: PlansModel,
    names: Option<Seq<Seq<char>>>,
    n: nat,
) -> std::result::Result<Seq<SchemaModel>, ErrorKind>
    decreases n,
{
    if n == 0 {
        Ok(columns)
    } else {
        match with_fields(columns, fields, plans, names, (n - 1) as nat) {
            Err(k) => Err(k),
            Ok(before) => with_field(before, fields[n - 1], plans, names),
        }
    }
}

/// The columns after the first `n` selected segments.
pub open spec fn reconciled(
    segments: Seq<SegmentMeta>,
    inputs: Seq<SegmentInput>,
    chosen: Seq<nat>,
    names: Option<Seq<Seq<char>>>,
    n: nat,
) -> std::result::Result<Seq<SchemaModel>, ErrorKind>
    decreases n,
{
    if n == 0 {
        Ok(Seq::empty())
    } else {
        let k = chosen[n - 1] as int;
        let seg = segments[k];
        match reconciled(segments, inputs, chosen, names, (n - 1) as nat) {
            Err(e) => Err(e),
            Ok(before) => match segment_plans(seg, inputs[k].dvm@, inputs[k].dvd@) {
                Err(e) => Err(e),
                Ok(plans) => with_fields(before, seg.fields@, plans, names, seg.fields@.len()),
            },
        }
    }
}

/// Finds the type that a column has so far.
fn find_type<'a>(columns: &'a Vec<SchemaField>, name: &str) -> (r: Option<&'a DataType>)
    ensures
        match r {
            Some(t) => known_type(schema_view(columns@), name@, 0) == Some(*t),
            None => known_type(schema_view(columns@), name@, 0) is None,
        },
{
    let ghost m = schema_view(columns@);
    let mut i: usize = 0;
    while i < columns.len()
        invariant
            i <= columns@.len(),
            m == schema_view(columns@),
            known_type(m, name@, 0) == known_type(m, name@, i as nat),
        decreases columns@.len() - i,
    {
        assert(m[i as int] == columns@[i as int]@);
        if same_text(columns[i].name.as_str(), name) {
            return Some(&columns[i].data_type);
        }
        i = i + 1;
    }
    None
}

/// Takes one field of a segment into the columns.
fn add_field(columns: &mut Vec<SchemaField>, f: &FieldMeta, plans: &DocValuesPlans, names: &Option<Vec<String>>) -> (r:
    Result<()>)
    ensures
        match with_field(schema_view(old(columns)@), *f, plans@, wanted_names(*names)) {
            Ok(m) => r is Ok && schema_view(final(columns)@) == m,
            Err(k) => (r matches Err(e) && e.kind() == k) && final(columns)@ == old(columns)@,
        },
{
    let dt: DataType = match field_arrow_type(f, plans) {
        Some(dt) => dt,
        None => {
            return Ok(());
        },
    };
    if !is_wanted(names, f.name.as_str()) {
        return Ok(());
    }
    let same: Option<bool> = match find_type(columns, f.name.as_str()) {
        Some(t) => Some(t.same(&dt)),
        None => None,
    };
    match same {
        Some(true) => Ok(()),
        Some(false) => Err(Error::invalid("type conflict between segments")),
        None => {
            let ghost before = schema_view(columns@);
            let c: SchemaField = SchemaField {
                name: f.name.clone(),
                data_type: dt,
                nullable: true,
                lucene_field: Some(f.name.clone()),
            };
            let ghost m = c@;
            columns.push(c);
            assert(schema_view(columns@) =~= before.push(m));
            Ok(())
        },
    }
}

/// A conflict ends the reconciliation of a segment.
proof fn lemma_fields_stop(
    columns: Seq<SchemaModel>,
    fields: Seq<FieldMeta>,
    plans: PlansModel,
    names: Option<Seq<Seq<char>>>,
    i: nat,
    n: nat,
)
    requires
        i <= n,
        with_fields(columns, fields, plans, names, i) is Err,
    ensures
        with_fields(columns, fields, plans, names, n) == with_fields(columns, fields, plans, names, i),
    decreases n,
{
    if i < n {
        lemma_fields_stop(columns, fields, plans, names, i, (n - 1) as nat);
    }
}

/// Takes the fields of one more segment into the columns.
fn reconcile_segment(
    columns: &mut Vec<SchemaField>,
    seg: &SegmentMeta,
    plans: &DocValuesPlans,
    names: &Option<Vec<String>>,
) -> (r: Result<()>)
    ensures
        match with_fields(
            schema_view(old(columns)@),
            seg.fields@,
            plans@,
            wanted_names(*names),
            seg.fields@.len(),
        ) {
            Ok(m) => r is Ok && schema_view(final(columns)@) == m,
            Err(k) => r matches Err(e) && e.kind() == k,
        },
{
    let ghost start = schema_view(columns@);
    let ghost w = wanted_names(*names);
    let mut i: usize = 0;
    while i < seg.fields.len()
        invariant
            i <= seg.fields@.len(),
            w == wanted_names(*names),
            start == schema_view(old(columns)@),
            with_fields(start, seg.fields@, plans@, w, i as nat) == Ok::<Seq<SchemaModel>, ErrorKind>(
                schema_view(columns@),
            ),
        decreases seg.fields@.len() - i,
    {
        match add_field(columns, &seg.fields[i], plans, names) {
            Ok(()) => {},
            Err(e) => {
                proof {
                    lemma_fields_stop(start, seg.fields@, plans@, w, (i + 1) as nat, seg.fields@.len());
                }
                return Err(e);
            },
        }
        i = i + 1;
    }
    Ok(())
}

/// A failure ends the reconciliation.
proof fn lemma_reconcile_stops(
    segments: Seq<SegmentMeta>,
    inputs: Seq<SegmentInput>,
    chosen: Seq<nat>,
    names: Option<Seq<Seq<char>>>,
    i: nat,
    n: nat,
)
    requires
        i <= n,
        reconciled(segments, inputs, chosen, names, i) is Err,
    ensures
        reconciled(segments, inputs, chosen, names, n) == reconciled(segments, inputs, chosen, names, i),
    decreases n,
{
    if i < n {
        lemma_reconcile_stops(segments, inputs, chosen, names, i, (n - 1) as nat);
    }
}

/// The columns of all selected segments.
pub fn reconcile(segments: &[SegmentMeta], inputs: &[SegmentInput], chosen: &Vec<usize>, names: &Option<Vec<String>>) -> (r:
    Result<Vec<SchemaField>>)
    requires
        inputs@.len() == segments@.len(),
        within(chosen@, segments@.len()),
    ensures
        match reconciled(segments@, inputs@, places(chosen@), wanted_names(*names), chosen@.len()) {
            Ok(m) => r matches Ok(v) && schema_view(v@) == m,
            Err(k) => r matches Err(e) && e.kind() == k,
        },
{
    let ghost w = wanted_names(*names);
    let ghost c = places(chosen@);
    let mut columns: Vec<SchemaField> = Vec::new();
    let mut i: usize = 0;
    assert(schema_view(columns@) =~= Seq::<SchemaModel>::empty());
    while i < chosen.len()
        invariant
            i <= chosen@.len(),
            inputs@.len() == segments@.len(),
            within(chosen@, segments@.len()),
            w == wanted_names(*names),
            c == places(chosen@),
            reconciled(segments@, inputs@, c, w, i as nat) == Ok::<Seq<SchemaModel>, ErrorKind>(schema_view(columns@)),
        decreases chosen@.len() - i,
    {
        let k: usize = chosen[i];
        assert(c[i as int] == k);
        let plans: DocValuesPlans = match plan_segment(&segments[k], &inputs[k]) {
            Ok(p) => p,
            Err(e) => {
                proof {
                    lemma_reconcile_stops(segments@, inputs@, c, w, (i + 1) as nat, c.len());
                }
                return Err(e);
            },
        };
        match reconcile_segment(&mut columns, &segments[k], &plans, names) {
            Ok(()) => {},
            Err(e) => {
                proof {
                    lemma_reconcile_stops(segments@, inputs@, c, w, (i + 1) as nat, c.len());
                }
                return Err(e);
            },
        }
        i = i + 1;
    }
    Ok(columns)
}

/// A system column: never null, of no field.
pub open spec fn system_column(name: Seq<char>, data_type: DataType) -> SchemaModel {
    SchemaModel { name, data_type, nullable: false, lucene_field: None }
}

/// One column, if it is asked for.
pub open spec fn column_if(names: Option<Seq<Seq<char>>>, name: Seq<char>, data_type: DataType) -> Seq<SchemaModel> {
    if wanted(names, name) {
        seq![system_column(name, data_type)]
    } else {
        Seq::empty()
    }
}

/// The system columns: segment, document, document across segments, and in
/// positional mode whether the document is live.
pub open spec fn system_columns(names: Option<Seq<Seq<char>>>, row_mode: RowMode) -> Seq<SchemaModel> {
    column_if(names, COL_SEG@, DataType::Int32) + column_if(names, COL_DOC@, DataType::Int32) + column_if(
        names,
        COL_GLOBAL_DOC@,
        DataType::Int64,
    ) + if row_mode == RowMode::Positional {
        column_if(names, COL_LIVE@, DataType::Boolean)
    } else {
        Seq::empty()
    }
}

/// Appends a system column, if it is asked for.
fn add_system(columns: &mut Vec<SchemaField>, names: &Option<Vec<String>>, name: &str, data_type: DataType)
    ensures
        schema_view(final(columns)@) == schema_view(old(columns)@) + column_if(
            wanted_names(*names),
            name@,
            data_type,
        ),
{
    let ghost before = schema_view(columns@);
    if is_wanted(names, name) {
        let c: SchemaField = SchemaField { name: name.to_owned(), data_type, nullable: false, lucene_field: None };
        columns.push(c);
    }
    assert(schema_view(columns@) =~= before + column_if(wanted_names(*names), name@, data_type));
}

/// The whole schema: system columns, then fields.
fn full_schema(names: &Option<Vec<String>>, row_mode: RowMode, fields: Vec<SchemaField>) -> (r: Vec<SchemaField>)
    ensures
        schema_view(r@) == system_columns(wanted_names(*names), row_mode) + schema_view(fields@),
{
    let ghost f = schema_view(fields@);
    let mut rest: Vec<SchemaField> = fields;
    let mut all: Vec<SchemaField> = Vec::new();
    assert(schema_view(all@) =~= Seq::<SchemaModel>::empty());
    add_system(&mut all, names, COL_SEG, DataType::Int32);
    add_system(&mut all, names, COL_DOC, DataType::Int32);
    add_system(&mut all, names, COL_GLOBAL_DOC, DataType::Int64);
    match row_mode {
        RowMode::Positional => add_system(&mut all, names, COL_LIVE, DataType::Boolean),
        RowMode::Compact => {},
    }
    let ghost s = schema_view(all@);
    assert(s =~= system_columns(wanted_names(*names), row_mode));
    all.append(&mut rest);
    assert(schema_view(all@) =~= s + f);
    all
}

/// The resolved request, echoed back.
#[derive(Debug)]
pub struct ResolvedConfig {
    pub path: String,
    pub segments: Vec<String>,
    pub columns: Vec<String>,
    pub row_mode: &'static str,
    pub dict: Attributes,
    pub batch_rows: u64,
    pub executor: &'static str,
    pub frame_version: u32,
}

/// A resolved request as mathematical values.
pub struct ConfigModel {
    pub path: Seq<char>,
    pub segments: Seq<Seq<char>>,
    pub columns: Seq<Seq<char>>,
    pub row_mode: Seq<char>,
    pub dict: Seq<(Seq<char>, Seq<char>)>,
    pub batch_rows: u64,
    pub executor: Seq<char>,
    pub frame_version: u32,
}

impl View for ResolvedConfig {
    type V = ConfigModel;

    open spec fn view(&self) -> ConfigModel {
        ConfigModel {
            path: self.path@,
            segments: Seq::new(self.segments@.len(), |i: int| self.segments@[i]@),
            columns: Seq::new(self.columns@.len(), |i: int| self.columns@[i]@),
            row_mode: self.row_mode@,
            dict: self.dict@,
            batch_rows: self.batch_rows,
            executor: self.executor@,
            frame_version: self.frame_version,
        }
    }
}

/// A request, resolved against the segments of a commit.
#[derive(Debug)]
pub struct ResolvedRead {
    pub schema: Vec<SchemaField>,
    /// Places of the selected segments in the commit.
    pub segments: Vec<usize>,
    pub config: ResolvedConfig,
    pub row_mode: RowMode,
    pub use_gpu: bool,
}

/// A resolved read as mathematical values.
pub struct ReadModel {
    pub schema: Seq<SchemaModel>,
    pub segments: Seq<nat>,
    pub config: ConfigModel,
    pub row_mode: RowMode,
    pub use_gpu: bool,
}

impl View for ResolvedRead {
    type V = ReadModel;

    open spec fn view(&self) -> ReadModel {
        ReadModel {
            schema: schema_view(self.schema@),
            segments: places(self.segments@),
            config: self.config@,
            row_mode: self.row_mode,
            use_gpu: self.use_gpu,
        }
    }
}

/// The row mode that a text stands for.
pub open spec fn parsed_row_mode(s: Seq<char>) -> Option<RowMode> {
    if s == row_mode_text(RowMode::Compact) {
        Some(RowMode::Compact)
    } else if s == row_mode_text(RowMode::Positional) {
        Some(RowMode::Positional)
    } else {
        None
    }
}

/// The row mode of a request whose form is right.
pub open spec fn checked_request(request: ReadRequest) -> std::result::Result<RowMode, ErrorKind> {
    match parsed_row_mode(request.row_mode@) {
        None => Err(ErrorKind::InvalidArgument),
        Some(m) => if request.frame_version != FRAME_VERSION {
            Err(ErrorKind::Unsupported)
        } else {
            Ok(m)
        },
    }
}

/// Checks the form of a request: a row mode, which has no default, and the
/// frame version that is spoken here.
pub fn check_request(request: &ReadRequest) -> (r: Result<RowMode>)
    ensures
        match checked_request(*request) {
            Ok(m) => r == Ok::<RowMode, Error>(m),
            Err(k) => r matches Err(e) && e.kind() == k,
        },
{
    proof {
        crate::meta::law_row_modes_differ(RowMode::Compact, RowMode::Positional);
    }
    let row_mode: RowMode = match RowMode::parse(request.row_mode.as_str()) {
        Some(m) => m,
        None => {
            return Err(Error::invalid("row_mode must be \"compact\" or \"positional\""));
        },
    };
    if request.frame_version != FRAME_VERSION {
        return Err(Error::unsupported("frame_version that is not spoken here"));
    }
    Ok(row_mode)
}

/// The configuration that a resolved request echoes.
pub open spec fn echoed(
    request: ReadRequest,
    segments: Seq<SegmentMeta>,
    chosen: Seq<nat>,
    schema: Seq<SchemaModel>,
    row_mode: RowMode,
    use_gpu: bool,
) -> ConfigModel {
    ConfigModel {
        path: request.path@,
        segments: Seq::new(chosen.len(), |i: int| segments[chosen[i] as int].name@),
        columns: Seq::new(schema.len(), |i: int| schema[i].name),
        row_mode: row_mode_text(row_mode),
        dict: seq![("*"@, crate::meta::dict_mode::SEGMENT@)],
        batch_rows: match request.batch_rows {
            Some(n) => n,
            None => DEFAULT_BATCH_ROWS,
        },
        executor: if use_gpu {
            "gpu"@
        } else {
            "cpu"@
        },
        frame_version: FRAME_VERSION,
    }
}

/// A request resolved against segments, or why it cannot be.
pub open spec fn resolved(request: ReadRequest, segments: Seq<SegmentMeta>, inputs: Seq<SegmentInput>, gpu: GpuSupport) -> std::result::Result<
    ReadModel,
    ErrorKind,
> {
    let names = wanted_names(request.columns);
    match checked_request(request) {
        Err(k) => Err(k),
        Ok(row_mode) => match selected(segments, request.segments) {
            Err(k) => Err(k),
            Ok(chosen) => match reconciled(segments, inputs, chosen, names, chosen.len()) {
                Err(k) => Err(k),
                Ok(fields) => match resolved_executor(text_of(request.executor), gpu) {
                    Err(k) => Err(k),
                    Ok(use_gpu) => {
                        let schema = system_columns(names, row_mode) + fields;
                        Ok(
                            ReadModel {
                                schema,
                                segments: chosen,
                                config: echoed(request, segments, chosen, schema, row_mode, use_gpu),
                                row_mode,
                                use_gpu,
                            },
                        )
                    },
                },
            },
        },
    }
}

/// The names of the selected segments.
fn chosen_names(segments: &[SegmentMeta], chosen: &Vec<usize>) -> (r: Vec<String>)
    requires
        within(chosen@, segments@.len()),
    ensures
        r@.len() == chosen@.len(),
        forall|i: int| 0 <= i < chosen@.len() ==> (#[trigger] r@[i])@ == segments@[chosen@[i] as int].name@,
{
    let mut r: Vec<String> = Vec::new();
    let mut i: usize = 0;
    while i < chosen.len()
        invariant
            i <= chosen@.len(),
            within(chosen@, segments@.len()),
            r@.len() == i,
            forall|k: int| 0 <= k < i ==> (#[trigger] r@[k])@ == segments@[chosen@[k] as int].name@,
        decreases chosen@.len() - i,
    {
        r.push(segments[chosen[i]].name.clone());
        i = i + 1;
    }
    r
}

/// The names of the columns.
fn column_names(schema: &Vec<SchemaField>) -> (r: Vec<String>)
    ensures
        r@.len() == schema@.len(),
        forall|i: int| 0 <= i < schema@.len() ==> (#[trigger] r@[i])@ == schema@[i].name@,
{
    let mut r: Vec<String> = Vec::new();
    let mut i: usize = 0;
    while i < schema.len()
        invariant
            i <= schema@.len(),
            r@.len() == i,
            forall|k: int| 0 <= k < i ==> (#[trigger] r@[k])@ == schema@[k].name@,
        decreases schema@.len() - i,
    {
        r.push(schema[i].name.clone());
        i = i + 1;
    }
    r
}

/// Resolves a request: checks it, picks segments, reconciles the schema over
/// them, resolves the executor, and says what will be done. `inputs` holds
/// what was read of each segment; only that of selected ones matters.
pub fn resolve(request: &ReadRequest, segments: &[SegmentMeta], inputs: &[SegmentInput], gpu: GpuSupport) -> (r: Result<
    ResolvedRead,
>)
    requires
        inputs@.len() == segments@.len(),
    ensures
        match resolved(*request, segments@, inputs@, gpu) {
            Ok(m) => r matches Ok(v) && v@ == m && within(v.segments@, segments@.len()),
            Err(k) => r matches Err(e) && e.kind() == k,
        },
{
    let row_mode: RowMode = check_request(request)?;
    let chosen: Vec<usize> = select_segments(segments, &request.segments)?;
    assert(places(chosen@).len() == chosen@.len());
    let fields: Vec<SchemaField> = reconcile(segments, inputs, &chosen, &request.columns)?;
    let use_gpu: bool = resolve_executor(&request.executor, gpu)?;
    let schema: Vec<SchemaField> = full_schema(&request.columns, row_mode, fields);
    let mut dict: Attributes = Attributes::new();
    dict.insert("*".to_owned(), crate::meta::dict_mode::SEGMENT.to_owned());
    let config: ResolvedConfig = ResolvedConfig {
        path: request.path.clone(),
        segments: chosen_names(segments, &chosen),
        columns: column_names(&schema),
        row_mode: row_mode.as_str(),
        dict,
        batch_rows: match request.batch_rows {
            Some(n) => n,
            None => DEFAULT_BATCH_ROWS,
        },
        executor: if use_gpu {
            "gpu"
        } else {
            "cpu"
        },
        frame_version: FRAME_VERSION,
    };
    proof {
        let e = echoed(*request, segments@, places(chosen@), schema_view(schema@), row_mode, use_gpu);
        assert(config@.segments =~= e.segments);
        assert(config@.columns =~= e.columns);
        assert(config@.dict =~= e.dict);
    }
    Ok(ResolvedRead { schema, segments: chosen, config, row_mode, use_gpu })
}

/// More fields never change the type that a column has.
proof fn lemma_types_stay(columns: Seq<SchemaModel>, c: SchemaModel, name: Seq<char>, i: nat)
    requires
        i <= columns.len(),
    ensures
        known_type(columns, name, i) is Some ==> known_type(columns.push(c), name, i) == known_type(columns, name, i),
        known_type(columns, name, i) is None && c.name == name ==> known_type(columns.push(c), name, i) == Some(
            c.data_type,
        ),
        known_type(columns, name, i) is None && c.name != name ==> known_type(columns.push(c), name, i) is None,
    decreases columns.len() - i,
{
    let all = columns.push(c);
    if i < columns.len() {
        assert(all[i as int] == columns[i as int]);
        lemma_types_stay(columns, c, name, i + 1);
    } else {
        assert(all[i as int] == c);
        assert(known_type(all, name, i + 1) is None);
    }
}

/// One more field: earlier types stay, and the field's own is known.
proof fn lemma_field_typed(columns: Seq<SchemaModel>, f: FieldMeta, plans: PlansModel, names: Option<Seq<Seq<char>>>, name: Seq<char>)
    requires
        with_field(columns, f, plans, names) is Ok,
    ensures
        ({
            let after = with_field(columns, f, plans, names)->Ok_0;
            &&& known_type(columns, name, 0) is Some ==> known_type(after, name, 0) == known_type(columns, name, 0)
            &&& wanted(names, f.name@) ==> (field_type(f, plans) matches Some(dt) ==> known_type(after, f.name@, 0)
                == Some(dt))
        }),
{
    if let Some(dt) = field_type(f, plans) {
        lemma_types_stay(columns, field_column(f.name@, dt), name, 0);
        lemma_types_stay(columns, field_column(f.name@, dt), f.name@, 0);
    }
}

/// The fields of a segment: earlier types stay, and the fields' own are
/// known.
proof fn lemma_fields_typed(
    columns: Seq<SchemaModel>,
    fields: Seq<FieldMeta>,
    plans: PlansModel,
    names: Option<Seq<Seq<char>>>,
    n: nat,
    name: Seq<char>,
    j: int,
)
    requires
        with_fields(columns, fields, plans, names, n) is Ok,
    ensures
        ({
            let after = with_fields(columns, fields, plans, names, n)->Ok_0;
            &&& known_type(columns, name, 0) is Some ==> known_type(after, name, 0) == known_type(columns, name, 0)
            &&& 0 <= j < n && wanted(names, fields[j].name@) ==> (field_type(fields[j], plans) matches Some(dt)
                ==> known_type(after, fields[j].name@, 0) == Some(dt))
        }),
    decreases n,
{
    if n > 0 {
        let before = with_fields(columns, fields, plans, names, (n - 1) as nat)->Ok_0;
        lemma_fields_typed(columns, fields, plans, names, (n - 1) as nat, name, j);
        lemma_field_typed(before, fields[n - 1], plans, names, name);
        if 0 <= j < n - 1 {
            lemma_field_typed(before, fields[n - 1], plans, names, fields[j].name@);
        }
    }
}

/// Where reconciling succeeds, every wanted field of every selected segment
/// is a column of exactly the type it has in that segment: a type conflict
/// is never passed over, and nothing is converted.
pub proof fn law_reconciled_types(
    segments: Seq<SegmentMeta>,
    inputs: Seq<SegmentInput>,
    chosen: Seq<nat>,
    names: Option<Seq<Seq<char>>>,
    n: nat,
    i: int,
    j: int,
)
    requires
        reconciled(segments, inputs, chosen, names, n) is Ok,
        0 <= i < n,
        0 <= j < segments[chosen[i] as int].fields@.len(),
    ensures
        ({
            let columns = reconciled(segments, inputs, chosen, names, n)->Ok_0;
            let k = chosen[i] as int;
            let f = segments[k].fields@[j];
            match segment_plans(segments[k], inputs[k].dvm@, inputs[k].dvd@) {
                Ok(plans) => wanted(names, f.name@) ==> (field_type(f, plans) matches Some(dt) ==> known_type(
                    columns,
                    f.name@,
                    0,
                ) == Some(dt)),
                Err(_) => false,
            }
        }),
    decreases n,
{
    let m = chosen[n - 1] as int;
    let before = reconciled(segments, inputs, chosen, names, (n - 1) as nat)->Ok_0;
    let plans = segment_plans(segments[m], inputs[m].dvm@, inputs[m].dvd@)->Ok_0;
    let f = segments[chosen[i] as int].fields@[j];
    lemma_fields_typed(before, segments[m].fields@, plans, names, segments[m].fields@.len(), f.name@, j);
    if i < n - 1 {
        law_reconciled_types(segments, inputs, chosen, names, (n - 1) as nat, i, j);
    }
}

/// The first segment with a name has it, and none before it.
proof fn lemma_segment_named(segments: Seq<SegmentMeta>, name: Seq<char>, i: nat)
    ensures
        match segment_named(segments, name, i) {
            Some(j) => i <= j < segments.len() && segments[j as int].name@ == name && forall|k: int|
                i <= k < j ==> (#[trigger] segments[k]).name@ != name,
            None => forall|k: int| i <= k < segments.len() ==> (#[trigger] segments[k]).name@ != name,
        },
    decreases segments.len() - i,
{
    if i < segments.len() && segments[i as int].name@ != name {
        lemma_segment_named(segments, name, i + 1);
    }
}

/// All segments are selected in order; or those that are named, in the order
/// of the names, each the first with its name. A name that no segment has is
/// refused.
pub proof fn law_selection(segments: Seq<SegmentMeta>, selector: SegmentSelector)
    ensures
        match selector {
            SegmentSelector::All => selected(segments, selector) matches Ok(s) && s.len() == segments.len() && forall|
                i: int,
            |
                0 <= i < s.len() ==> #[trigger] s[i] == i,
            SegmentSelector::Names(names) => match selected(segments, selector) {
                Ok(s) => s.len() == names@.len() && forall|i: int|
                    0 <= i < s.len() ==> {
                        &&& (#[trigger] s[i]) < segments.len()
                        &&& segments[s[i] as int].name@ == names@[i]@
                        &&& forall|k: int| 0 <= k < s[i] ==> (#[trigger] segments[k]).name@ != names@[i]@
                    },
                Err(k) => k == ErrorKind::InvalidArgument && exists|i: int|
                    0 <= i < names@.len() && names_none(segments, (#[trigger] names@[i])@),
            },
        },
{
    if let SegmentSelector::Names(names) = selector {
        lemma_named_segments(segments, names@, names@.len());
    }
}

/// No segment has a name.
pub open spec fn names_none(segments: Seq<SegmentMeta>, name: Seq<char>) -> bool {
    forall|k: int| 0 <= k < segments.len() ==> (#[trigger] segments[k]).name@ != name
}

proof fn lemma_named_segments(segments: Seq<SegmentMeta>, names: Seq<String>, n: nat)
    requires
        n <= names.len(),
    ensures
        match named_segments(segments, names, n) {
            Ok(s) => s.len() == n && forall|i: int|
                0 <= i < n ==> {
                    &&& (#[trigger] s[i]) < segments.len()
                    &&& segments[s[i] as int].name@ == names[i]@
                    &&& forall|k: int| 0 <= k < s[i] ==> (#[trigger] segments[k]).name@ != names[i]@
                },
            Err(k) => k == ErrorKind::InvalidArgument && exists|i: int|
                0 <= i < n && names_none(segments, (#[trigger] names[i])@),
        },
    decreases n,
{
    if n > 0 {
        lemma_named_segments(segments, names, (n - 1) as nat);
        lemma_segment_named(segments, names[n - 1]@, 0);
        if named_segments(segments, names, (n - 1) as nat) is Err {
            let i = choose|i: int| 0 <= i < n - 1 && names_none(segments, (#[trigger] names[i])@);
            assert(names_none(segments, names[i]@));
        } else if named_segments(segments, names, n) is Err {
            assert(names_none(segments, names[n - 1]@));
        }
    }
}

/// Columns have names of their own.
pub open spec fn names_apart(columns: Seq<SchemaModel>) -> bool {
    forall|i: int, j: int| 0 <= i < j < columns.len() ==> (#[trigger] columns[i]).name != (#[trigger] columns[j]).name
}

/// A column is that of a field: asked for, nullable, under the field's name.
pub open spec fn is_field_column(c: SchemaModel, names: Option<Seq<Seq<char>>>) -> bool {
    c.nullable && c.lucene_field == Some(c.name) && wanted(names, c.name)
}

proof fn lemma_known_type(columns: Seq<SchemaModel>, name: Seq<char>, i: nat)
    ensures
        match known_type(columns, name, i) {
            Some(t) => exists|j: int| i <= j < columns.len() && (#[trigger] columns[j]).name == name && columns[j].data_type == t,
            None => forall|j: int| i <= j < columns.len() ==> (#[trigger] columns[j]).name != name,
        },
    decreases columns.len() - i,
{
    if i < columns.len() && columns[i as int].name != name {
        lemma_known_type(columns, name, i + 1);
    }
}

proof fn lemma_fields_apart(
    columns: Seq<SchemaModel>,
    fields: Seq<FieldMeta>,
    plans: PlansModel,
    names: Option<Seq<Seq<char>>>,
    n: nat,
)
    requires
        n <= fields.len(),
        names_apart(columns),
        forall|i: int| 0 <= i < columns.len() ==> is_field_column(#[trigger] columns[i], names),
    ensures
        with_fields(columns, fields, plans, names, n) matches Ok(c) ==> names_apart(c) && forall|i: int|
            0 <= i < c.len() ==> is_field_column(#[trigger] c[i], names),
    decreases n,
{
    if n > 0 {
        lemma_fields_apart(columns, fields, plans, names, (n - 1) as nat);
        if let Ok(before) = with_fields(columns, fields, plans, names, (n - 1) as nat) {
            lemma_known_type(before, fields[n - 1].name@, 0);
        }
    }
}

/// The columns of a read each have a name of their own, are asked for, hold
/// the values of the field with that name, and may hold nulls.
pub proof fn law_columns_apart(
    segments: Seq<SegmentMeta>,
    inputs: Seq<SegmentInput>,
    chosen: Seq<nat>,
    names: Option<Seq<Seq<char>>>,
    n: nat,
)
    requires
        n <= chosen.len(),
    ensures
        reconciled(segments, inputs, chosen, names, n) matches Ok(c) ==> names_apart(c) && forall|i: int|
            0 <= i < c.len() ==> is_field_column(#[trigger] c[i], names),
    decreases n,
{
    if n > 0 {
        law_columns_apart(segments, inputs, chosen, names, (n - 1) as nat);
        let k = chosen[n - 1] as int;
        if let Ok(before) = reconciled(segments, inputs, chosen, names, (n - 1) as nat) {
            if let Ok(plans) = segment_plans(segments[k], inputs[k].dvm@, inputs[k].dvd@) {
                lemma_fields_apart(before, segments[k].fields@, plans, names, segments[k].fields@.len());
            }
        }
    }
}

/// Some column has a name.
pub open spec fn has_column(columns: Seq<SchemaModel>, name: Seq<char>) -> bool {
    exists|i: int| 0 <= i < columns.len() && (#[trigger] columns[i]).name == name
}

/// The address of a row is there where it is asked for, liveness only in
/// positional mode. None of these is ever null, and none is a field.
pub proof fn law_system_schema(names: Option<Seq<Seq<char>>>, row_mode: RowMode, i: int)
    ensures
        ({
            let s = system_columns(names, row_mode);
            &&& has_column(s, "_seg"@) <==> wanted(names, "_seg"@)
            &&& has_column(s, "_doc"@) <==> wanted(names, "_doc"@)
            &&& has_column(s, "_global_doc"@) <==> wanted(names, "_global_doc"@)
            &&& has_column(s, "_live"@) <==> wanted(names, "_live"@) && row_mode == RowMode::Positional
            &&& 0 <= i < s.len() ==> !s[i].nullable && s[i].lucene_field is None && s[i].data_type == (if s[i].name
                == "_global_doc"@ {
                DataType::Int64
            } else if s[i].name == "_live"@ {
                DataType::Boolean
            } else {
                DataType::Int32
            })
        }),
{
    reveal_strlit("_seg");
    reveal_strlit("_doc");
    reveal_strlit("_global_doc");
    reveal_strlit("_live");
    assert("_seg"@[1] != "_doc"@[1]);
    assert("_seg"@.len() == 4 && "_doc"@.len() == 4 && "_global_doc"@.len() == 11 && "_live"@.len() == 5);
    let a = column_if(names, COL_SEG@, DataType::Int32);
    let b = column_if(names, COL_DOC@, DataType::Int32);
    let c = column_if(names, COL_GLOBAL_DOC@, DataType::Int64);
    let d = if row_mode == RowMode::Positional {
        column_if(names, COL_LIVE@, DataType::Boolean)
    } else {
        Seq::empty()
    };
    let s = system_columns(names, row_mode);
    assert(s =~= a + b + c + d);
    if wanted(names, COL_SEG@) {
        assert(s[0].name == COL_SEG@);
    }
    if wanted(names, COL_DOC@) {
        assert(s[a.len() as int].name == COL_DOC@);
    }
    if wanted(names, COL_GLOBAL_DOC@) {
        assert(s[(a + b).len() as int].name == COL_GLOBAL_DOC@);
    }
    if wanted(names, COL_LIVE@) && row_mode == RowMode::Positional {
        assert(s[(a + b + c).len() as int].name == COL_LIVE@);
    }
}

/// What is echoed of a request is what was asked for and what will be done:
/// the path and row mode of the request, the names of the segments and the
/// columns that are read, the rows per batch, and where the work runs.
pub proof fn law_echo_tells(request: ReadRequest, segments: Seq<SegmentMeta>, inputs: Seq<SegmentInput>, gpu: GpuSupport)
    ensures
        match resolved(request, segments, inputs, gpu) {
            Ok(m) => {
                &&& m.config.path == request.path@
                &&& m.config.row_mode == request.row_mode@
                &&& m.row_mode == RowMode::Compact <==> request.row_mode@ == "compact"@
                &&& m.row_mode == RowMode::Positional <==> request.row_mode@ == "positional"@
                &&& m.config.frame_version == request.frame_version
                &&& m.config.segments.len() == m.segments.len()
                &&& forall|i: int|
                    0 <= i < m.segments.len() ==> #[trigger] m.config.segments[i] == segments[m.segments[i] as int].name@
                &&& m.config.columns.len() == m.schema.len()
                &&& forall|i: int| 0 <= i < m.schema.len() ==> #[trigger] m.config.columns[i] == m.schema[i].name
                &&& request.batch_rows is Some ==> Some(m.config.batch_rows) == request.batch_rows
                &&& m.config.executor == if m.use_gpu {
                    "gpu"@
                } else {
                    "cpu"@
                }
                &&& Ok::<bool, ErrorKind>(m.use_gpu) == resolved_executor(text_of(request.executor), gpu)
                &&& Ok::<Seq<nat>, ErrorKind>(m.segments) == selected(segments, request.segments)
            },
            Err(k) => {
                &&& request.row_mode@ != "compact"@ && request.row_mode@ != "positional"@ ==> k
                    == ErrorKind::InvalidArgument
                &&& (request.row_mode@ == "compact"@ || request.row_mode@ == "positional"@) && request.frame_version != 1
                    ==> k == ErrorKind::Unsupported
            },
        },
{
    crate::meta::law_row_modes_differ(RowMode::Compact, RowMode::Positional);
}

} // verus!
