//! The write job: batches of rows in, files of all-live segments out.
//! Segments are cut between batches, never within one.

use vstd::prelude::*;
use vstd::string::StringExecFns;
use vstd::utf8::{encode_utf8, is_ascii_chars_encode_utf8};
use crate::buffer::{
    append_column, append_outcome, buffer_docs, buffer_valid, cells_in_range, cleared, empty_buffer, in_range,
    law_append_keeps, row_count, texts, BufferModel, ColBuffer, Column,
};
use crate::bytes::le_i32;
use crate::coercion::{canonical, classified, classify, ColumnSchema, NumericCoercion};
use crate::consts;
use crate::cursor::{crc32, crc32_of, index_header_bytes, with_footer};
use crate::disi::strictly_increasing;
use crate::dict::{dict_fits, no_table, streams_decompress};
use crate::encode::{
    binary_data, binary_meta, flat, flat_terms, joined, lists_data, multi_valued, ordered_lists, set_dictionary,
    set_ordinals, sorted_data, sorted_meta, sorted_numeric_meta, sorted_set_data, sorted_set_meta,
};
use crate::error::{Error, ErrorKind, Result};
use crate::file::DocValuesFileBuilder;
use crate::lexicon::{dictionary_of, is_dictionary, slices};
use crate::liv::{base36_text, base36_unsigned};
use crate::request::{
    resolve_executor, resolved_executor, text_of, FieldStats, FileManifest, GpuSupport, SegmentManifest, WriteJob,
};
use crate::segment::PINNED_CODEC;
use crate::text::same_text;
use crate::write::{entry_data, numeric_meta, NumericEncoder};
use crate::writer::{
    entries, file_names, files_view, own_names, segment_files, write_segment_files_ext, EntryModel, FileModel,
    NamedFile, WriteField, WrittenSegment,
};

verus! {

/// Documents after which a segment is cut, where the job does not say.
pub const DEFAULT_SEGMENT_MAX_DOCS: u64 = 1048576;

/// The per-field suffix of the doc-values files.
pub const SUFFIX: &'static str = "Lucene90_0";

/// A field of the job: how its column is stored.
#[derive(Debug)]
pub struct FieldSpec {
    pub name: String,
    pub coercion: NumericCoercion,
    /// The type that the column arrives with, as text.
    pub source_type: String,
}

/// A field of the job as mathematical values.
pub struct SpecModel {
    pub name: Seq<char>,
    pub coercion: NumericCoercion,
    pub source_type: Seq<char>,
}

impl View for FieldSpec {
    type V = SpecModel;

    open spec fn view(&self) -> SpecModel {
        SpecModel { name: self.name@, coercion: self.coercion, source_type: self.source_type@ }
    }
}

/// The rows of one arriving batch.
#[derive(Debug)]
pub struct Batch {
    pub columns: Vec<Column>,
    pub rows: u32,
}

/// Collects batches and turns them into the files of segments.
pub struct WriteSession {
    fields: Vec<FieldSpec>,
    segment_max_docs: u64,
    buffers: Vec<ColBuffer>,
    docs_in_segment: u32,
    written: Vec<WrittenSegment>,
    use_gpu: bool,
}

/// A session as mathematical values.
pub struct SessionModel {
    pub fields: Seq<SpecModel>,
    pub segment_max_docs: u64,
    /// One for each field, for the segment being built.
    pub buffers: Seq<BufferModel>,
    pub docs: u32,
    /// Segments made so far.
    pub written: Seq<WrittenSegment>,
    pub use_gpu: bool,
}

/// Fields as mathematical values.
pub open spec fn specs(fields: Seq<FieldSpec>) -> Seq<SpecModel> {
    Seq::new(fields.len(), |i: int| fields[i]@)
}

/// Buffers as mathematical values.
pub open spec fn buffer_models(buffers: Seq<ColBuffer>) -> Seq<BufferModel> {
    Seq::new(buffers.len(), |i: int| buffers[i]@)
}

impl View for WriteSession {
    type V = SessionModel;

    closed spec fn view(&self) -> SessionModel {
        SessionModel {
            fields: specs(self.fields@),
            segment_max_docs: self.segment_max_docs,
            buffers: buffer_models(self.buffers@),
            docs: self.docs_in_segment,
            written: self.written@,
            use_gpu: self.use_gpu,
        }
    }
}

/// What holds of a session between calls: a buffer of the right kind for
/// each field, its documents in order, below the documents seen, each with
/// a value.
pub open spec fn session_valid(m: SessionModel) -> bool {
    &&& m.fields.len() == m.buffers.len()
    &&& m.fields.len() > 0
    &&& m.segment_max_docs >= 1
    &&& forall|i: int|
        0 <= i < m.buffers.len() ==> {
            &&& buffer_valid(#[trigger] m.buffers[i], m.docs as nat)
            &&& cleared(m.buffers[i]) == empty_buffer(m.fields[i].coercion)
        }
}

/// How the first `n` columns of a schema are stored, or why one of them is
/// refused.
pub open spec fn planned_fields(schema: Seq<ColumnSchema>, strict: bool, vectors: bool, n: nat) -> std::result::Result<
    Seq<SpecModel>,
    ErrorKind,
>
    decreases n,
{
    if n == 0 {
        Ok(Seq::empty())
    } else {
        let f = schema[n - 1];
        match planned_fields(schema, strict, vectors, (n - 1) as nat) {
            Err(k) => Err(k),
            Ok(before) => match classified(f.data_type, f.metadata@, vectors) {
                Err(k) => Err(k),
                Ok(coercion) => if strict && !canonical(coercion, f.data_type) {
                    Err(ErrorKind::InvalidArgument)
                } else {
                    Ok(before.push(SpecModel { name: f.name@, coercion, source_type: f.printed_type@ }))
                },
            },
        }
    }
}

/// The documents after which a job's segments are cut.
pub open spec fn cut_after(job: WriteJob) -> u64 {
    match job.segment_max_docs {
        Some(n) => if n == 0 {
            1
        } else {
            n
        },
        None => DEFAULT_SEGMENT_MAX_DOCS,
    }
}

/// The session that a job starts with, or why it does not start. `occupied`
/// says that the output directory holds something.
pub open spec fn started(job: WriteJob, schema: Seq<ColumnSchema>, occupied: bool, vectors: bool, gpu: GpuSupport) -> std::result::Result<
    SessionModel,
    ErrorKind,
> {
    if job.codec@ != PINNED_CODEC@ {
        Err(ErrorKind::Unsupported)
    } else if occupied {
        Err(ErrorKind::InvalidArgument)
    } else {
        match planned_fields(schema, text_of(job.coercion) == Some("strict"@), vectors, schema.len()) {
            Err(k) => Err(k),
            Ok(fields) => if fields.len() == 0 {
                Err(ErrorKind::InvalidArgument)
            } else {
                match resolved_executor(text_of(job.executor), gpu) {
                    Err(k) => Err(k),
                    Ok(use_gpu) => Ok(
                        SessionModel {
                            fields,
                            segment_max_docs: cut_after(job),
                            buffers: Seq::new(fields.len(), |i: int| empty_buffer(fields[i].coercion)),
                            docs: 0,
                            written: Seq::empty(),
                            use_gpu,
                        },
                    ),
                }
            },
        }
    }
}

/// Refuses jobs for any codec but the pinned one.
pub fn check_codec(job: &WriteJob) -> (r: Result<()>)
    ensures
        r is Ok <==> job.codec@ == PINNED_CODEC@,
        r matches Err(e) ==> e.kind() == ErrorKind::Unsupported,
{
    if same_text(job.codec.as_str(), PINNED_CODEC) {
        Ok(())
    } else {
        Err(Error::unsupported("only the codec Lucene103 is written"))
    }
}

/// Decides how each column of a schema is stored.
pub fn plan_fields(schema: &[ColumnSchema], strict: bool, vectors: bool) -> (r: Result<Vec<FieldSpec>>)
    ensures
        match planned_fields(schema@, strict, vectors, schema@.len()) {
            Ok(f) => r matches Ok(v) && specs(v@) == f,
            Err(k) => r matches Err(e) && e.kind() == k,
        },
{
    let mut fields: Vec<FieldSpec> = Vec::new();
    let mut i: usize = 0;
    assert(specs(fields@) =~= Seq::<SpecModel>::empty());
    while i < schema.len()
        invariant
            i <= schema@.len(),
            planned_fields(schema@, strict, vectors, i as nat) == Ok::<Seq<SpecModel>, ErrorKind>(specs(fields@)),
        decreases schema@.len() - i,
    {
        let f: &ColumnSchema = &schema[i];
        let ghost before = specs(fields@);
        let coercion: NumericCoercion = match classify(f, vectors) {
            Ok(c) => c,
            Err(e) => {
                proof {
                    lemma_plan_stops(schema@, strict, vectors, (i + 1) as nat, schema@.len());
                }
                return Err(e);
            },
        };
        if strict && !coercion.is_canonical(&f.data_type) {
            proof {
                lemma_plan_stops(schema@, strict, vectors, (i + 1) as nat, schema@.len());
            }
            return Err(Error::invalid("coercion \"strict\": a column is not of a canonical shape"));
        }
        let spec_: FieldSpec = FieldSpec { name: f.name.clone(), coercion, source_type: f.printed_type.clone() };
        let ghost m = spec_@;
        fields.push(spec_);
        i = i + 1;
        assert(specs(fields@) =~= before.push(m));
    }
    Ok(fields)
}

/// A refused column refuses the schema.
proof fn lemma_plan_stops(schema: Seq<ColumnSchema>, strict: bool, vectors: bool, i: nat, n: nat)
    requires
        i <= n <= schema.len(),
        planned_fields(schema, strict, vectors, i) is Err,
    ensures
        planned_fields(schema, strict, vectors, n) == planned_fields(schema, strict, vectors, i),
    decreases n,
{
    if i < n {
        lemma_plan_stops(schema, strict, vectors, i, (n - 1) as nat);
    }
}

/// A planned field for each column.
proof fn lemma_plan_len(schema: Seq<ColumnSchema>, strict: bool, vectors: bool, n: nat)
    ensures
        planned_fields(schema, strict, vectors, n) matches Ok(f) ==> f.len() == n,
    decreases n,
{
    if n > 0 {
        lemma_plan_len(schema, strict, vectors, (n - 1) as nat);
    }
}

/// An empty buffer is cleared, and holds no document.
proof fn lemma_empty_buffer(c: NumericCoercion, n: nat)
    ensures
        cleared(empty_buffer(c)) == empty_buffer(c),
        buffer_valid(empty_buffer(c), n),
{
}

/// Empty buffers for all fields.
fn new_buffers(fields: &Vec<FieldSpec>) -> (r: Vec<ColBuffer>)
    ensures
        buffer_models(r@) == Seq::new(fields@.len(), |i: int| empty_buffer(fields@[i].coercion)),
{
    let mut r: Vec<ColBuffer> = Vec::new();
    let mut i: usize = 0;
    while i < fields.len()
        invariant
            i <= fields@.len(),
            r@.len() == i,
            forall|k: int| 0 <= k < i ==> (#[trigger] r@[k])@ == empty_buffer(fields@[k].coercion),
        decreases fields@.len() - i,
    {
        r.push(ColBuffer::for_coercion(&fields[i].coercion));
        i = i + 1;
    }
    assert(buffer_models(r@) =~= Seq::new(fields@.len(), |i: int| empty_buffer(fields@[i].coercion)));
    r
}

impl WriteSession {
    /// Starts a job for columns of a schema. `occupied` says that the output
    /// directory holds something; `vectors`, that vector ingest is built in.
    pub fn new(job: &WriteJob, schema: &[ColumnSchema], occupied: bool, vectors: bool, gpu: GpuSupport) -> (r: Result<
        WriteSession,
    >)
        ensures
            match started(*job, schema@, occupied, vectors, gpu) {
                Ok(m) => r matches Ok(s) && s@ == m && session_valid(s@),
                Err(k) => r matches Err(e) && e.kind() == k,
            },
    {
        check_codec(job)?;
        if occupied {
            return Err(Error::invalid("the output directory is not empty: write jobs never append"));
        }
        let strict: bool = match &job.coercion {
            Some(c) => same_text(c.as_str(), "strict"),
            None => false,
        };
        let fields: Vec<FieldSpec> = plan_fields(schema, strict, vectors)?;
        proof {
            lemma_plan_len(schema@, strict, vectors, schema@.len());
        }
        if fields.len() == 0 {
            return Err(Error::invalid("the schema has no fields"));
        }
        let use_gpu: bool = resolve_executor(&job.executor, gpu)?;
        let segment_max_docs: u64 = match job.segment_max_docs {
            Some(n) => if n == 0 {
                1
            } else {
                n
            },
            None => DEFAULT_SEGMENT_MAX_DOCS,
        };
        let buffers: Vec<ColBuffer> = new_buffers(&fields);
        let r: WriteSession = WriteSession {
            fields,
            segment_max_docs,
            buffers,
            docs_in_segment: 0,
            written: Vec::new(),
            use_gpu,
        };
        proof {
            let m = started(*job, schema@, occupied, vectors, gpu)->Ok_0;
            assert(r@.buffers =~= m.buffers);
            assert(r@.written =~= m.written);
            assert forall|i: int| 0 <= i < r@.buffers.len() implies {
                &&& buffer_valid(#[trigger] r@.buffers[i], 0)
                &&& cleared(r@.buffers[i]) == empty_buffer(r@.fields[i].coercion)
            } by {
                lemma_empty_buffer(r@.fields[i].coercion, 0);
            }
        }
        Ok(r)
    }

    /// Whether the segment being built is to be flushed before the next
    /// batch.
    pub fn is_full(&self) -> (r: bool)
        ensures
            r == cut_due(self@),
    {
        self.docs_in_segment as u64 >= self.segment_max_docs
    }

    /// Documents in the segment being built.
    pub fn docs_in_segment(&self) -> (r: u32)
        ensures
            r == self@.docs,
    {
        self.docs_in_segment
    }
}

/// Place `i` holds the first column with a name.
pub open spec fn column_at(columns: Seq<Column>, name: Seq<char>, i: int) -> bool {
    &&& 0 <= i < columns.len()
    &&& columns[i].name@ == name
    &&& forall|j: int| 0 <= j < i ==> (#[trigger] columns[j]).name@ != name
}

/// The first column with a name.
pub open spec fn column_named(columns: Seq<Column>, name: Seq<char>) -> Option<Column> {
    if exists|i: int| column_at(columns, name, i) {
        Some(columns[choose|i: int| column_at(columns, name, i)])
    } else {
        None
    }
}

/// A session whose rows went into segments, of which there are now `written`.
pub open spec fn emptied(m: SessionModel, written: Seq<WrittenSegment>) -> SessionModel {
    SessionModel { buffers: Seq::new(m.buffers.len(), |i: int| cleared(m.buffers[i])), docs: 0, written, ..m }
}

/// A cut is due before the next batch.
pub open spec fn cut_due(m: SessionModel) -> bool {
    m.docs >= m.segment_max_docs
}

/// The session that the next batch goes to: behind the cut, where one is due.
pub open spec fn behind_cut(m: SessionModel, written: Seq<WrittenSegment>) -> SessionModel {
    if cut_due(m) {
        emptied(m, written)
    } else {
        m
    }
}

/// The columns that a session takes out of a batch have as many cells as the
/// batch has rows, all of them in range.
pub open spec fn batch_fits(m: SessionModel, batch: Batch) -> bool {
    &&& m.docs + batch.rows <= u32::MAX
    &&& forall|i: int|
        0 <= i < m.fields.len() ==> match column_named(batch.columns@, (#[trigger] m.fields[i]).name) {
            Some(c) => row_count(c.cells) == batch.rows && cells_in_range(m.fields[i].coercion, c.cells),
            None => true,
        }
}

/// The buffers after the columns of the first `n` fields were appended, up
/// to the first that is missing or refused, and why it is.
pub open spec fn appended(m: SessionModel, columns: Seq<Column>, n: nat) -> (Seq<BufferModel>, Option<ErrorKind>)
    decreases n,
{
    if n == 0 {
        (m.buffers, None)
    } else {
        let (before, failed) = appended(m, columns, (n - 1) as nat);
        let f = m.fields[n - 1];
        if failed is Some {
            (before, failed)
        } else {
            match column_named(columns, f.name) {
                None => (before, Some(ErrorKind::InvalidArgument)),
                Some(c) => match append_outcome(before[n - 1], f.coercion, c, m.docs as nat) {
                    Err(k) => (before, Some(k)),
                    Ok(b) => (before.update(n - 1, b), None),
                },
            }
        }
    }
}

/// There is at most one first column with a name.
proof fn lemma_column_unique(columns: Seq<Column>, name: Seq<char>, i: int)
    requires
        column_at(columns, name, i),
    ensures
        column_named(columns, name) == Some(columns[i]),
{
    let k = choose|k: int| column_at(columns, name, k);
    assert(column_at(columns, name, k));
    if k < i {
        assert(columns[k].name@ != name);
    } else if i < k {
        assert(columns[i].name@ != name);
    }
}

/// Finds the first column with a name.
fn find_column<'a>(columns: &'a Vec<Column>, name: &str) -> (r: Option<&'a Column>)
    ensures
        match r {
            Some(c) => column_named(columns@, name@) == Some(*c),
            None => column_named(columns@, name@) is None,
        },
{
    let mut i: usize = 0;
    while i < columns.len()
        invariant
            i <= columns@.len(),
            forall|j: int| 0 <= j < i ==> (#[trigger] columns@[j]).name@ != name@,
        decreases columns@.len() - i,
    {
        if same_text(columns[i].name.as_str(), name) {
            proof {
                lemma_column_unique(columns@, name@, i as int);
            }
            return Some(&columns[i]);
        }
        i = i + 1;
    }
    None
}

/// A failure ends the appending.
proof fn lemma_append_stops(m: SessionModel, columns: Seq<Column>, i: nat, n: nat)
    requires
        i <= n,
        appended(m, columns, i).1 is Some,
    ensures
        appended(m, columns, n) == appended(m, columns, i),
    decreases n,
{
    if i < n {
        lemma_append_stops(m, columns, i, (n - 1) as nat);
    }
}

/// What appending the first `n` columns leaves: buffers of the same kinds,
/// those of the first `n` fields valid up to the new end, the others as
/// before.
proof fn lemma_appended_valid(m: SessionModel, batch: Batch, n: nat)
    requires
        session_valid(m),
        batch_fits(m, batch),
        n <= m.fields.len(),
        appended(m, batch.columns@, n).1 is None,
    ensures
        ({
            let b = appended(m, batch.columns@, n).0;
            &&& b.len() == m.buffers.len()
            &&& forall|i: int|
                0 <= i < n ==> buffer_valid(#[trigger] b[i], (m.docs + batch.rows) as nat) && cleared(b[i])
                    == empty_buffer(m.fields[i].coercion)
            &&& forall|i: int| n <= i < b.len() ==> b[i] == m.buffers[i]
        }),
    decreases n,
{
    if n > 0 {
        lemma_appended_valid(m, batch, (n - 1) as nat);
        let before = appended(m, batch.columns@, (n - 1) as nat).0;
        let f = m.fields[n - 1];
        let c = column_named(batch.columns@, f.name)->0;
        assert(m.fields[n - 1] == f);
        assert(buffer_valid(m.buffers[n - 1], m.docs as nat));
        law_append_keeps(before[n - 1], f.coercion, c, m.docs as nat);
    }
}

/// The demands on the columns of the first `n` fields.
fn columns_fit(fields: &Vec<FieldSpec>, batch: &Batch) -> (r: bool)
    ensures
        r == forall|i: int|
            0 <= i < fields@.len() ==> match column_named(batch.columns@, (#[trigger] specs(fields@)[i]).name) {
                Some(c) => row_count(c.cells) == batch.rows && cells_in_range(specs(fields@)[i].coercion, c.cells),
                None => true,
            },
{
    let ghost m = specs(fields@);
    let mut i: usize = 0;
    while i < fields.len()
        invariant
            i <= fields@.len(),
            m == specs(fields@),
            forall|k: int|
                0 <= k < i ==> match column_named(batch.columns@, (#[trigger] m[k]).name) {
                    Some(c) => row_count(c.cells) == batch.rows && cells_in_range(m[k].coercion, c.cells),
                    None => true,
                },
        decreases fields@.len() - i,
    {
        assert(m[i as int] == fields@[i as int]@);
        match find_column(&batch.columns, fields[i].name.as_str()) {
            Some(c) => {
                if c.cells.rows() != batch.rows as usize || !in_range(&fields[i].coercion, &c.cells) {
                    assert(!(row_count(c.cells) == batch.rows && cells_in_range(m[i as int].coercion, c.cells)));
                    return false;
                }
            },
            None => {},
        }
        i = i + 1;
    }
    true
}

impl WriteSession {
    /// Whether a batch can be pushed: behind the cut where one is due, its rows
    /// can be numbered, and the columns that the session takes have that many
    /// cells, all in range.
    pub fn accepts(&self, batch: &Batch) -> (r: bool)
        ensures
            r == batch_fits(behind_cut(self@, self@.written), *batch),
    {
        let docs: u32 = if self.is_full() {
            0
        } else {
            self.docs_in_segment
        };
        docs <= u32::MAX - batch.rows && columns_fit(&self.fields, batch)
    }

    /// Appends a batch to the segment being built.
    fn append_batch(&mut self, batch: &Batch) -> (r: Result<()>)
        requires
            session_valid(old(self)@),
            batch_fits(old(self)@, *batch),
        ensures
            ({
                let m = old(self)@;
                let (buffers, failed) = appended(m, batch.columns@, m.fields.len());
                match failed {
                    None => {
                        &&& r is Ok
                        &&& final(self)@ == (SessionModel { buffers, docs: (m.docs + batch.rows) as u32, ..m })
                        &&& session_valid(final(self)@)
                    },
                    Some(k) => (r matches Err(e) && e.kind() == k) && final(self)@ == (SessionModel { buffers, ..m }),
                }
            }),
    {
        let ghost m = self@;
        let base: u32 = self.docs_in_segment;
        let mut i: usize = 0;
        while i < self.fields.len()
            invariant
                i <= self.fields@.len(),
                self.fields@.len() == self.buffers@.len(),
                m == old(self)@,
                base == m.docs,
                session_valid(m),
                batch_fits(m, *batch),
                m.fields == specs(self.fields@),
                self@ == (SessionModel { buffers: appended(m, batch.columns@, i as nat).0, ..m }),
                appended(m, batch.columns@, i as nat).1 is None,
                buffer_models(self.buffers@) == appended(m, batch.columns@, i as nat).0,
                self.docs_in_segment == base,
            decreases self.fields@.len() - i,
        {
            let ghost before = buffer_models(self.buffers@);
            proof {
                assert(m.fields[i as int] == self.fields@[i as int]@);
                lemma_appended_valid(m, *batch, i as nat);
            }
            let col: &Column = match find_column(&batch.columns, self.fields[i].name.as_str()) {
                Some(c) => c,
                None => {
                    proof {
                        lemma_append_stops(m, batch.columns@, (i + 1) as nat, m.fields.len());
                    }
                    return Err(Error::invalid("the batch lacks a column"));
                },
            };
            let coercion: NumericCoercion = self.fields[i].coercion;
            let outcome: Result<()> = append_column(col, &coercion, base, &mut self.buffers[i]);
            match outcome {
                Ok(()) => {
                    let ghost after = self.buffers@[i as int]@;
                    assert(buffer_models(self.buffers@) =~= before.update(i as int, after));
                },
                Err(e) => {
                    proof {
                        assert(buffer_models(self.buffers@) =~= before);
                        lemma_append_stops(m, batch.columns@, (i + 1) as nat, m.fields.len());
                    }
                    return Err(e);
                },
            }
            i = i + 1;
        }
        proof {
            lemma_appended_valid(m, *batch, m.fields.len());
        }
        self.docs_in_segment = base + batch.rows;
        Ok(())
    }
}

/// The metadata of a buffer's field number `i` whose data starts at `base`.
/// Vectors are no doc values.
#[verifier::opaque]
pub open spec fn buffer_meta(i: i32, b: BufferModel, max_doc: nat, base: nat) -> Seq<u8> {
    match b {
        BufferModel::Numeric { docs, values } => numeric_meta(i, values, docs, max_doc, base),
        BufferModel::Sorted { docs, terms } => sorted_meta(i, terms, docs, max_doc, base),
        BufferModel::Bytes { docs, values } => binary_meta(i, values, docs, max_doc, base),
        BufferModel::MultiNumeric { docs, values } => sorted_numeric_meta(
            i,
            ordered_lists(values),
            docs,
            max_doc,
            base,
        ),
        BufferModel::MultiTerms { docs, terms } => sorted_set_meta(i, terms, docs, max_doc, base),
        BufferModel::Vectors { .. } => Seq::empty(),
    }
}

/// The data of a buffer's field.
#[verifier::opaque]
pub open spec fn buffer_data(b: BufferModel, max_doc: nat) -> Seq<u8> {
    match b {
        BufferModel::Numeric { docs, values } => entry_data(values, docs, max_doc),
        BufferModel::Sorted { docs, terms } => sorted_data(terms, docs, max_doc),
        BufferModel::Bytes { docs, values } => binary_data(values, docs, max_doc),
        BufferModel::MultiNumeric { docs, values } => lists_data(
            ordered_lists(values),
            docs,
            max_doc,
            multi_valued(ordered_lists(values)),
        ),
        BufferModel::MultiTerms { docs, terms } => sorted_set_data(terms, docs, max_doc),
        BufferModel::Vectors { .. } => Seq::empty(),
    }
}

/// Values whose total size a file can address.
#[verifier::opaque]
pub open spec fn buffer_fits(b: BufferModel) -> bool {
    match b {
        BufferModel::Numeric { .. } => true,
        BufferModel::Sorted { terms, .. } => dict_fits(dictionary_of(terms)),
        BufferModel::Bytes { values, .. } => joined(values, values.len()).len() <= i64::MAX,
        BufferModel::MultiNumeric { values, .. } => flat(ordered_lists(values), values.len()).len() <= i64::MAX,
        BufferModel::MultiTerms { terms, .. } => dict_fits(set_dictionary(terms)) && flat(
            set_ordinals(terms),
            terms.len(),
        ).len() <= i64::MAX,
        BufferModel::Vectors { .. } => true,
    }
}

/// What the compressor's work on a buffer's terms promises a reader.
#[verifier::opaque]
pub open spec fn buffer_readable(b: BufferModel) -> bool {
    match b {
        BufferModel::Sorted { terms, .. } => is_dictionary(dictionary_of(terms), terms) && streams_decompress(
            dictionary_of(terms),
            0,
            no_table(),
        ),
        BufferModel::MultiTerms { terms, .. } => is_dictionary(set_dictionary(terms), flat_terms(terms, terms.len()))
            && streams_decompress(set_dictionary(terms), 0, no_table()),
        _ => true,
    }
}

/// Metadata and data file after the fields of the first `n` buffers.
pub open spec fn files_after(buffers: Seq<BufferModel>, max_doc: nat, id: Seq<u8>, n: nat) -> (Seq<u8>, Seq<u8>)
    decreases n,
{
    if n == 0 {
        (
            index_header_bytes(encode_utf8(consts::META_CODEC@), consts::VERSION, id, encode_utf8(SUFFIX@)),
            index_header_bytes(encode_utf8(consts::DATA_CODEC@), consts::VERSION, id, encode_utf8(SUFFIX@)),
        )
    } else {
        let (meta, data) = files_after(buffers, max_doc, id, (n - 1) as nat);
        let b = buffers[n - 1];
        (meta + buffer_meta((n - 1) as i32, b, max_doc, data.len()), data + buffer_data(b, max_doc))
    }
}

/// Documents in order leave no more of them than the greatest allows.
proof fn lemma_docs_bounded(docs: Seq<u32>, i: int)
    requires
        strictly_increasing(docs),
        0 <= i < docs.len(),
    ensures
        docs[i] >= i,
    decreases i,
{
    if i > 0 {
        lemma_docs_bounded(docs, i - 1);
    }
}

/// Byte strings as slices.
fn as_slices(v: &Vec<Vec<u8>>) -> (r: Vec<&[u8]>)
    ensures
        slices(r@) == texts(v@),
{
    let mut r: Vec<&[u8]> = Vec::new();
    let mut i: usize = 0;
    while i < v.len()
        invariant
            i <= v@.len(),
            r@.len() == i,
            forall|k: int| 0 <= k < i ==> (#[trigger] r@[k])@ == v@[k]@,
        decreases v@.len() - i,
    {
        r.push(v[i].as_slice());
        i = i + 1;
    }
    assert(slices(r@) =~= texts(v@));
    r
}

/// Adds the field of a buffer to the files.
fn add_buffer<E: NumericEncoder>(
    builder: &mut DocValuesFileBuilder,
    encoder: &E,
    i: i32,
    buffer: &ColBuffer,
    max_doc: u32,
) -> (r: Result<()>)
    requires
        buffer_valid(buffer@, max_doc as nat),
    ensures
        buffer_fits(buffer@) && encoder.reliable() ==> r is Ok,
        !buffer_fits(buffer@) ==> (r matches Err(e) && (encoder.reliable() ==> e.kind() == ErrorKind::InvalidArgument)),
        r is Err ==> *final(builder) == *old(builder),
        r is Ok ==> final(builder).grew(
            old(builder),
            buffer_meta(i, buffer@, max_doc as nat, old(builder).data_bytes().len()),
            buffer_data(buffer@, max_doc as nat),
        ) && buffer_readable(buffer@),
{
    proof {
        reveal(buffer_meta);
        reveal(buffer_data);
        reveal(buffer_fits);
        reveal(buffer_readable);
        let docs = buffer_docs(buffer@);
        if docs.len() > 0 {
            lemma_docs_bounded(docs, docs.len() - 1);
            assert(docs[docs.len() - 1] < max_doc);
        }
    }
    match buffer {
        ColBuffer::Numeric { docs, values } => builder.add_numeric_with(
            encoder,
            i,
            docs.as_slice(),
            values.as_slice(),
            max_doc,
        ),
        ColBuffer::Sorted { docs, terms } => {
            let refs: Vec<&[u8]> = as_slices(terms);
            assert(refs@.len() == slices(refs@).len());
            builder.add_sorted_with(encoder, i, docs.as_slice(), refs.as_slice(), max_doc)
        },
        ColBuffer::Bytes { docs, values } => {
            let refs: Vec<&[u8]> = as_slices(values);
            assert(refs@.len() == slices(refs@).len());
            builder.add_binary(i, docs.as_slice(), refs.as_slice(), max_doc)
        },
        ColBuffer::MultiNumeric { docs, values } => builder.add_sorted_numeric_with(
            encoder,
            i,
            docs.as_slice(),
            values.as_slice(),
            max_doc,
        ),
        ColBuffer::MultiTerms { docs, terms } => builder.add_sorted_set_with(
            encoder,
            i,
            docs.as_slice(),
            terms.as_slice(),
            max_doc,
        ),
        ColBuffer::Vectors { .. } => {
            assert(builder.meta_bytes() + Seq::<u8>::empty() =~= builder.meta_bytes());
            assert(builder.data_bytes() + Seq::<u8>::empty() =~= builder.data_bytes());
            Ok(())
        },
    }
}

/// Every buffer's values fit.
pub open spec fn all_fit(buffers: Seq<BufferModel>) -> bool {
    forall|i: int| 0 <= i < buffers.len() ==> buffer_fits(#[trigger] buffers[i])
}

/// Every buffer's terms can be read back.
pub open spec fn all_readable(buffers: Seq<BufferModel>) -> bool {
    forall|i: int| 0 <= i < buffers.len() ==> buffer_readable(#[trigger] buffers[i])
}

/// Encodes all buffers into a pair of doc-values files.
fn encode_buffers<E: NumericEncoder>(encoder: &E, buffers: &Vec<ColBuffer>, max_doc: u32, id: &[u8; 16]) -> (r: Result<
    (Vec<u8>, Vec<u8>),
>)
    requires
        forall|i: int| 0 <= i < buffers@.len() ==> buffer_valid((#[trigger] buffers@[i])@, max_doc as nat),
    ensures
        ({
            let b = buffer_models(buffers@);
            let (meta, data) = files_after(b, max_doc as nat, id@, b.len());
            &&& all_fit(b) && encoder.reliable() ==> r is Ok
            &&& !all_fit(b) ==> (r matches Err(e) && (encoder.reliable() ==> e.kind() == ErrorKind::InvalidArgument))
            &&& r matches Ok(files) ==> {
                &&& files.0@ == with_footer(meta + le_i32((-1) as i32))
                &&& files.1@ == with_footer(data)
                &&& all_readable(b)
            }
        }),
{
    let ghost b = buffer_models(buffers@);
    proof {
        reveal_strlit("Lucene90_0");
        is_ascii_chars_encode_utf8(SUFFIX@);
    }
    let mut builder: DocValuesFileBuilder = DocValuesFileBuilder::new(id, SUFFIX);
    let mut i: usize = 0;
    while i < buffers.len()
        invariant
            i <= buffers@.len(),
            b == buffer_models(buffers@),
            forall|k: int| 0 <= k < buffers@.len() ==> buffer_valid((#[trigger] buffers@[k])@, max_doc as nat),
            builder.meta_bytes() == files_after(b, max_doc as nat, id@, i as nat).0,
            builder.data_bytes() == files_after(b, max_doc as nat, id@, i as nat).1,
            forall|k: int| 0 <= k < i ==> buffer_fits(#[trigger] b[k]) && buffer_readable(b[k]),
        decreases buffers@.len() - i,
    {
        assert(b[i as int] == buffers@[i as int]@);
        add_buffer(&mut builder, encoder, i as i32, &buffers[i], max_doc)?;
        i = i + 1;
    }
    Ok(builder.finish())
}

/// The entry of field number `i` in the field infos.
pub open spec fn entry_for(i: int, f: SpecModel) -> EntryModel {
    match f.coercion {
        NumericCoercion::VectorF32 { dim, similarity } => EntryModel {
            name: f.name,
            number: i as u32,
            doc_values_type: 0,
            vector_dim: dim as u32,
            vector_encoding: 1,
            vector_similarity: similarity,
            index_options: 0,
        },
        c => EntryModel {
            name: f.name,
            number: i as u32,
            doc_values_type: c.dv_byte(),
            vector_dim: 0,
            vector_encoding: 0,
            vector_similarity: 0,
            index_options: 0,
        },
    }
}

/// The entries of all fields.
pub open spec fn entries_for(fields: Seq<SpecModel>) -> Seq<EntryModel> {
    Seq::new(fields.len(), |i: int| entry_for(i, fields[i]))
}

/// The entries of all fields in the field infos.
fn write_fields(fields: &Vec<FieldSpec>) -> (r: Vec<WriteField>)
    ensures
        entries(r@) == entries_for(specs(fields@)),
{
    let ghost m = specs(fields@);
    let mut r: Vec<WriteField> = Vec::new();
    let mut i: usize = 0;
    while i < fields.len()
        invariant
            i <= fields@.len(),
            m == specs(fields@),
            r@.len() == i,
            forall|k: int| 0 <= k < i ==> (#[trigger] r@[k])@ == entry_for(k, m[k]),
        decreases fields@.len() - i,
    {
        let f: &FieldSpec = &fields[i];
        assert(m[i as int] == f@);
        let entry: WriteField = match f.coercion {
            NumericCoercion::VectorF32 { dim, similarity } => WriteField {
                name: f.name.clone(),
                number: i as u32,
                doc_values_type: 0,
                vector_dim: dim as u32,
                vector_encoding: 1,
                vector_similarity: similarity,
                index_options: 0,
            },
            c => WriteField::doc_values(f.name.as_str(), i as u32, c.doc_values_byte()),
        };
        assert(entry@ == entry_for(i as int, m[i as int]));
        r.push(entry);
        i = i + 1;
    }
    assert(entries(r@) =~= entries_for(m));
    r
}

/// The name of segment number `n` of a job.
pub open spec fn segment_name(n: nat) -> Seq<char> {
    "_"@ + base36_text(n)
}

/// The doc-values files of the segment being built.
pub open spec fn doc_values_files(m: SessionModel, id: Seq<u8>) -> (Seq<u8>, Seq<u8>) {
    let (meta, data) = files_after(m.buffers, m.docs as nat, id, m.buffers.len());
    (with_footer(meta + le_i32((-1) as i32)), with_footer(data))
}

/// All files of the segment being built: doc values, field infos, empty
/// stored fields, further files, and the segment info that lists them.
pub open spec fn flushed_files(m: SessionModel, id: Seq<u8>, extra: Seq<FileModel>) -> Seq<FileModel> {
    let (dvm, dvd) = doc_values_files(m, id);
    let name = segment_name(m.written.len());
    segment_files(
        name,
        id,
        entries_for(m.fields),
        m.docs,
        dvm,
        dvd,
        extra,
        own_names(name) + file_names(extra),
    )
}

/// A manifest entry says what a file holds.
pub open spec fn manifest_is(f: FileManifest, file: FileModel) -> bool {
    f.name@ == file.name && f.bytes == file.bytes.len() && f.crc32 == crc32_of(file.bytes)
}

/// Files in the order in which the segment lists them: its own, the segment
/// info last of these, then further ones.
pub open spec fn listed_order(files: Seq<FileModel>) -> Seq<FileModel> {
    files.take(6).push(files.last()) + files.subrange(6, files.len() - 1)
}

/// What a manifest says of a flushed segment.
pub open spec fn manifest_of(r: SegmentManifest, m: SessionModel, files: Seq<FileModel>) -> bool {
    &&& r.name@ == segment_name(m.written.len())
    &&& r.max_doc == m.docs as i32
    &&& r.files@.len() == files.len()
    &&& forall|i: int| 0 <= i < files.len() ==> manifest_is(#[trigger] r.files@[i], listed_order(files)[i])
    &&& r.field_stats@.len() == m.fields.len()
    &&& forall|i: int|
        0 <= i < m.fields.len() ==> {
            &&& (#[trigger] r.field_stats@[i]).name@ == m.fields[i].name
            &&& r.field_stats@[i].lucene_type@ == m.fields[i].coercion.type_text()
            &&& r.field_stats@[i].source_type@ == m.fields[i].source_type
            &&& r.field_stats@[i].encoder@ == (if m.use_gpu {
                "gpu"@
            } else {
                "cpu"@
            })
        }
    &&& r.wall_ms == 0
}

/// A flushed segment: the files to write, and what to answer for it once
/// they are written.
#[derive(Debug)]
pub struct Flushed {
    pub files: Vec<NamedFile>,
    pub manifest: SegmentManifest,
}

/// The manifest entry of a file.
fn file_manifest(f: &NamedFile) -> (r: FileManifest)
    ensures
        manifest_is(r, f@),
{
    FileManifest { name: f.name.clone(), bytes: f.bytes.len() as u64, crc32: crc32(f.bytes.as_slice()) }
}

/// The manifest entries of all files.
fn file_manifests(files: &Vec<NamedFile>) -> (r: Vec<FileManifest>)
    requires
        files@.len() >= 7,
    ensures
        r@.len() == files@.len(),
        forall|i: int|
            0 <= i < files@.len() ==> manifest_is(#[trigger] r@[i], listed_order(files_view(files@))[i]),
{
    let ghost order = listed_order(files_view(files@));
    let n: usize = files.len();
    let mut r: Vec<FileManifest> = Vec::new();
    let mut i: usize = 0;
    while i < n
        invariant
            i <= n,
            n == files@.len(),
            n >= 7,
            order == listed_order(files_view(files@)),
            r@.len() == i,
            forall|k: int| 0 <= k < i ==> manifest_is(#[trigger] r@[k], order[k]),
        decreases n - i,
    {
        let at: usize = if i < 6 {
            i
        } else if i == 6 {
            n - 1
        } else {
            i - 1
        };
        assert(order[i as int] == files@[at as int]@);
        r.push(file_manifest(&files[at]));
        i = i + 1;
    }
    r
}

/// What the manifest says of the fields.
fn field_stats(fields: &Vec<FieldSpec>, use_gpu: bool) -> (r: Vec<FieldStats>)
    ensures
        r@.len() == fields@.len(),
        forall|i: int|
            0 <= i < fields@.len() ==> {
                &&& (#[trigger] r@[i]).name@ == fields@[i].name@
                &&& r@[i].lucene_type@ == fields@[i].coercion.type_text()
                &&& r@[i].source_type@ == fields@[i].source_type@
                &&& r@[i].encoder@ == (if use_gpu {
                    "gpu"@
                } else {
                    "cpu"@
                })
            },
{
    let mut r: Vec<FieldStats> = Vec::new();
    let mut i: usize = 0;
    while i < fields.len()
        invariant
            i <= fields@.len(),
            r@.len() == i,
            forall|k: int|
                0 <= k < i ==> {
                    &&& (#[trigger] r@[k]).name@ == fields@[k].name@
                    &&& r@[k].lucene_type@ == fields@[k].coercion.type_text()
                    &&& r@[k].source_type@ == fields@[k].source_type@
                    &&& r@[k].encoder@ == (if use_gpu {
                        "gpu"@
                    } else {
                        "cpu"@
                    })
                },
        decreases fields@.len() - i,
    {
        let f: &FieldSpec = &fields[i];
        let encoder: &'static str = if use_gpu {
            "gpu"
        } else {
            "cpu"
        };
        r.push(
            FieldStats {
                name: f.name.clone(),
                lucene_type: f.coercion.lucene_type(),
                source_type: f.source_type.clone(),
                encoder,
            },
        );
        i = i + 1;
    }
    r
}

/// Empties all buffers.
fn clear_buffers(buffers: &mut Vec<ColBuffer>)
    ensures
        buffer_models(final(buffers)@) == Seq::new(
            old(buffers)@.len(),
            |i: int| cleared(buffer_models(old(buffers)@)[i]),
        ),
{
    let ghost before = buffer_models(buffers@);
    let n: usize = buffers.len();
    let mut i: usize = 0;
    while i < n
        invariant
            i <= n,
            n == buffers@.len(),
            before.len() == n,
            forall|k: int| 0 <= k < i ==> (#[trigger] buffers@[k])@ == cleared(before[k]),
            forall|k: int| i <= k < n ==> (#[trigger] buffers@[k])@ == before[k],
        decreases n - i,
    {
        buffers[i].clear();
        i = i + 1;
    }
    assert(buffer_models(buffers@) =~= Seq::new(n as nat, |i: int| cleared(before[i])));
}

/// A flush leaves a valid session with empty buffers.
proof fn lemma_cleared_valid(m: SessionModel, w: Seq<WrittenSegment>)
    requires
        session_valid(m),
    ensures
        session_valid(
            SessionModel {
                buffers: Seq::new(m.buffers.len(), |i: int| cleared(m.buffers[i])),
                docs: 0,
                written: w,
                ..m
            },
        ),
{
    let c = Seq::new(m.buffers.len(), |i: int| cleared(m.buffers[i]));
    assert forall|i: int| 0 <= i < c.len() implies buffer_valid(#[trigger] c[i], 0) && cleared(c[i]) == empty_buffer(
        m.fields[i].coercion,
    ) by {
        assert(cleared(m.buffers[i]) == empty_buffer(m.fields[i].coercion));
        lemma_empty_buffer(m.fields[i].coercion, 0);
    }
}

/// A segment has at least its own files.
proof fn lemma_files_len(m: SessionModel, id: Seq<u8>, extra: Seq<FileModel>)
    ensures
        flushed_files(m, id, extra).len() == extra.len() + 7,
{
}

/// A segment record and the files that go with it.
pub open spec fn segment_record(w: WrittenSegment, m: SessionModel, id: [u8; 16], extra: Seq<FileModel>) -> bool {
    &&& w.name@ == segment_name(m.written.len())
    &&& w.id == id
    &&& w.num_docs == m.docs
    &&& crate::writer::names(w.files@) == own_names(segment_name(m.written.len())) + file_names(extra)
}

/// What a flush makes of the session `m`: the files and manifest of its
/// segment, and a session `after` that is empty again and knows one segment
/// more.
pub open spec fn flushed_as(
    m: SessionModel,
    after: SessionModel,
    f: Flushed,
    id: [u8; 16],
    extra: Seq<FileModel>,
) -> bool {
    &&& files_view(f.files@) == flushed_files(m, id@, extra)
    &&& manifest_of(f.manifest, m, files_view(f.files@))
    &&& all_readable(m.buffers)
    &&& after == emptied(m, after.written)
    &&& segment_added(m, after, id, extra)
}

/// The segments of `after` are those of `m` and the one that `m` was building.
pub open spec fn segment_added(m: SessionModel, after: SessionModel, id: [u8; 16], extra: Seq<FileModel>) -> bool {
    &&& after.written.len() == m.written.len() + 1
    &&& after.written.drop_last() == m.written
    &&& segment_record(after.written.last(), m, id, extra)
}

impl WriteSession {
    /// The name of the segment being built.
    fn next_name(&self) -> (r: String)
        ensures
            r@ == segment_name(self@.written.len()),
    {
        let mut name: String = "_".to_owned();
        name.append(base36_unsigned(self.written.len() as u64).as_str());
        name
    }

    /// The manifest of the segment being built.
    fn manifest(&self, files: &Vec<NamedFile>) -> (r: SegmentManifest)
        requires
            files@.len() >= 7,
        ensures
            manifest_of(r, self@, files_view(files@)),
    {
        let stats: Vec<FieldStats> = field_stats(&self.fields, self.use_gpu);
        let entries: Vec<FileManifest> = file_manifests(files);
        assert(self@.fields.len() == self.fields@.len());
        assert forall|i: int| 0 <= i < self@.fields.len() implies self@.fields[i] == self.fields@[i]@ by {}
        SegmentManifest {
            name: self.next_name(),
            max_doc: self.docs_in_segment as i32,
            files: entries,
            field_stats: stats,
            wall_ms: 0,
        }
    }

    /// The files of the segment being built, and its record.
    fn assemble<E: NumericEncoder>(&self, encoder: &E, id: [u8; 16], extra: Vec<NamedFile>) -> (r: Result<
        (WrittenSegment, Flushed),
    >)
        requires
            session_valid(self@),
        ensures
            all_fit(self@.buffers) && encoder.reliable() ==> r is Ok,
            !all_fit(self@.buffers) ==> (r matches Err(e) && (encoder.reliable() ==> e.kind() == ErrorKind::InvalidArgument)),
            r matches Ok((w, f)) ==> {
                &&& files_view(f.files@) == flushed_files(self@, id@, files_view(extra@))
                &&& manifest_of(f.manifest, self@, files_view(f.files@))
                &&& all_readable(self@.buffers)
                &&& segment_record(w, self@, id, files_view(extra@))
            },
    {
        let ghost m = self@;
        let docs: u32 = self.docs_in_segment;
        assert forall|i: int| 0 <= i < self.buffers@.len() implies buffer_valid(
            (#[trigger] self.buffers@[i])@,
            docs as nat,
        ) by {
            assert(m.buffers[i] == self.buffers@[i]@);
        }
        let (dvm, dvd): (Vec<u8>, Vec<u8>) = encode_buffers(encoder, &self.buffers, docs, &id)?;
        let ghost extra_files = extra@;
        let name: String = self.next_name();
        let fields: Vec<WriteField> = write_fields(&self.fields);
        let (seg, files): (WrittenSegment, Vec<NamedFile>) = write_segment_files_ext(
            name.as_str(),
            id,
            fields.as_slice(),
            docs,
            dvm.as_slice(),
            dvd.as_slice(),
            extra,
        );
        assert(files@.len() == files_view(files@).len());
        proof {
            lemma_files_len(m, id@, files_view(extra_files));
        }
        let manifest: SegmentManifest = self.manifest(&files);
        Ok((seg, Flushed { files, manifest }))
    }
}

/// A push took `batch` and left the session `after`: the rows stand behind
/// those of the segment being built, or start a new one where a cut was due.
pub open spec fn taken(m: SessionModel, batch: Batch, after: SessionModel) -> bool {
    let c = behind_cut(m, after.written);
    &&& appended(c, batch.columns@, c.fields.len()).1 is None
    &&& c.docs + batch.rows <= u32::MAX
    &&& after == (SessionModel {
        buffers: appended(c, batch.columns@, c.fields.len()).0,
        docs: (c.docs + batch.rows) as u32,
        ..c
    })
    &&& if cut_due(m) {
        &&& after.written.len() == m.written.len() + 1
        &&& after.written.drop_last() == m.written
        &&& after.written.last().num_docs == m.docs
        &&& after.written.last().name@ == segment_name(m.written.len())
    } else {
        after.written == m.written
    }
}

impl WriteSession {
    /// Turns the rows collected so far into the files of one segment, under
    /// the given identifier and with further files of the caller. Nothing
    /// comes of no rows. Fails, and changes nothing, where values are too
    /// large for a file or the encoder fails.
    pub fn flush_segment<E: NumericEncoder>(&mut self, encoder: &E, id: [u8; 16], extra: Vec<NamedFile>) -> (r: Result<
        Option<Flushed>,
    >)
        requires
            session_valid(old(self)@),
        ensures
            ({
                let m = old(self)@;
                &&& m.docs == 0 ==> r == Ok::<Option<Flushed>, Error>(None) && final(self)@ == m
                &&& m.docs > 0 && all_fit(m.buffers) && encoder.reliable() ==> r is Ok
                &&& m.docs > 0 && !all_fit(m.buffers) ==> (r matches Err(e) && (encoder.reliable() ==> e.kind() == ErrorKind::InvalidArgument))
                &&& r is Err ==> final(self)@ == m
                &&& m.docs > 0 && r is Ok ==> (r matches Ok(Some(f)) && flushed_as(
                    m,
                    final(self)@,
                    f,
                    id,
                    files_view(extra@),
                ))
                &&& session_valid(final(self)@)
            }),
    {
        let ghost m = self@;
        if self.docs_in_segment == 0 {
            return Ok(None);
        }
        let (seg, flushed): (WrittenSegment, Flushed) = self.assemble(encoder, id, extra)?;
        self.written.push(seg);
        self.docs_in_segment = 0;
        clear_buffers(&mut self.buffers);
        proof {
            lemma_cleared_valid(m, self@.written);
            assert(self@.written.drop_last() =~= m.written);
            assert(self@.buffers =~= Seq::new(m.buffers.len(), |i: int| cleared(m.buffers[i])));
        }
        Ok(Some(flushed))
    }

    /// Takes the next batch. Documents are numbered in order of arrival, and a
    /// batch belongs to exactly one segment: cuts happen between batches,
    /// never within one. Where a cut is due, the rows collected so far are
    /// flushed first, as by [`WriteSession::flush_segment`]; a failure there
    /// changes nothing. The files of the flushed segment come back beside what
    /// became of the batch. A missing or unsuitable column is refused, after
    /// which the session is not to be used on.
    pub fn push<E: NumericEncoder>(
        &mut self,
        encoder: &E,
        id: [u8; 16],
        extra: Vec<NamedFile>,
        batch: &Batch,
    ) -> (r: Result<(Option<Flushed>, Result<()>)>)
        requires
            session_valid(old(self)@),
            batch_fits(behind_cut(old(self)@, old(self)@.written), *batch),
        ensures
            ({
                let m = old(self)@;
                let after = final(self)@;
                let c = behind_cut(m, after.written);
                let (buffers, failed) = appended(c, batch.columns@, c.fields.len());
                &&& !cut_due(m) || (all_fit(m.buffers) && encoder.reliable()) ==> r is Ok
                &&& cut_due(m) && !all_fit(m.buffers) ==> (r matches Err(e) && (encoder.reliable() ==> e.kind() == ErrorKind::InvalidArgument))
                &&& r is Err ==> after == m
                &&& r matches Ok((flushed, outcome)) ==> {
                    &&& match flushed {
                        Some(f) => cut_due(m) && flushed_as(m, emptied(m, after.written), f, id, files_view(extra@)),
                        None => !cut_due(m) && after.written == m.written,
                    }
                    &&& match failed {
                        None => outcome is Ok && taken(m, *batch, after) && session_valid(after),
                        Some(k) => (outcome matches Err(e) && e.kind() == k) && after == (SessionModel { buffers, ..c }),
                    }
                }
            }),
    {
        let ghost m = self@;
        let mut flushed: Option<Flushed> = None;
        if self.is_full() {
            flushed = self.flush_segment(encoder, id, extra)?;
        }
        let outcome: Result<()> = self.append_batch(batch);
        Ok((flushed, outcome))
    }

    /// Ends a job whose rows are all flushed: the segments to commit, in
    /// order. A job without rows is an error.
    pub fn finish(self) -> (r: Result<Vec<WrittenSegment>>)
        requires
            self@.docs == 0,
        ensures
            self@.written.len() > 0 ==> (r matches Ok(v) && v@ == self@.written),
            self@.written.len() == 0 ==> (r matches Err(e) && e.kind() == ErrorKind::InvalidArgument),
    {
        if self.written.len() == 0 {
            return Err(Error::invalid("write job received no rows"));
        }
        Ok(self.written)
    }
}

} // verus!
