//! What a write job takes in: which columns it accepts, that it never refuses
//! one of them later, and where their rows go.

use vstd::prelude::*;
use crate::attributes::looked_up;
use crate::buffer::{append_outcome, buffer_docs, cleared, empty_buffer, BufferModel, Cells, Column};
use crate::coercion::{
    all_digits, canonical, classified, digits_value, similarity_of, spelled, spelled_i64, ColumnSchema, NumericCoercion,
};
use crate::error::ErrorKind;
use crate::request::{text_of, GpuSupport, SegmentManifest, WriteJob};
use crate::schema::{DataType, TimeUnit};
use crate::session::{
    appended, behind_cut, column_named, entries_for, entry_for, flushed_files, listed_order, manifest_is,
    manifest_of, planned_fields,
    segment_name, session_valid, started, taken, Batch, SessionModel, SpecModel,
};
use crate::writer::{file_names, own_names, FileModel};

verus! {

/// The cells that columns of a type have.
pub open spec fn cells_of_type(dt: DataType, cells: Cells) -> bool {
    match dt {
        DataType::Boolean => cells is Bool,
        DataType::Int8 => cells is I8,
        DataType::Int16 => cells is I16,
        DataType::Int32 => cells is I32,
        DataType::Int64 => cells is I64,
        DataType::UInt8 => cells is U8,
        DataType::UInt16 => cells is U16,
        DataType::UInt32 => cells is U32,
        DataType::UInt64 => cells is U64,
        DataType::Float32 => cells is F32,
        DataType::Float64 => cells is F64,
        DataType::Timestamp(_) => cells is I64,
        DataType::Date64 => cells is I64,
        DataType::Duration(_) => cells is I64,
        DataType::Time64(u) => cells is I64 && (u == TimeUnit::Microsecond || u == TimeUnit::Nanosecond),
        DataType::Date32 => cells is I32,
        DataType::Time32(u) => cells is I32 && (u == TimeUnit::Second || u == TimeUnit::Millisecond),
        DataType::Decimal128(_, _) => cells is Decimal,
        DataType::Utf8 => cells is Text,
        DataType::LargeUtf8 => cells is Text,
        DataType::Dictionary(_, _) => cells is Dict,
        DataType::Binary => cells is Bytes,
        DataType::LargeBinary => cells is Bytes,
        DataType::List(t) => if *t == DataType::Int64 {
            cells is Longs
        } else {
            cells is Texts
        },
        DataType::FixedSizeList(_, _) => cells is Vectors,
        _ => false,
    }
}

/// A column whose type was accepted with the schema is never refused later:
/// whatever its rows hold, they go into its buffer, at any time.
pub proof fn law_accepted_columns_go_in(
    dt: DataType,
    md: Seq<(Seq<char>, Seq<char>)>,
    vectors: bool,
    c: NumericCoercion,
    b: BufferModel,
    col: Column,
    base: nat,
)
    requires
        classified(dt, md, vectors) == Ok::<NumericCoercion, ErrorKind>(c),
        cleared(b) == empty_buffer(c),
        col.data_type == dt,
        cells_of_type(dt, col.cells),
    ensures
        append_outcome(b, c, col, base) is Ok,
{
}

/// Values that lose something are taken only where the column's metadata
/// asks for it: unsigned integers of 64 bits by `true`, decimals by a factor,
/// which is then the one that they are scaled by.
pub proof fn law_lossy_only_when_asked(dt: DataType, md: Seq<(Seq<char>, Seq<char>)>, vectors: bool)
    ensures
        dt == DataType::UInt64 ==> (classified(dt, md, vectors) is Ok <==> looked_up(md, "lucene.allow_lossy"@) == Some(
            "true"@,
        )),
        classified(dt, md, vectors) == Ok::<NumericCoercion, ErrorKind>(NumericCoercion::U64Lossy) ==> dt
            == DataType::UInt64,
        classified(dt, md, vectors) matches Ok(NumericCoercion::DecimalScaled { factor, scale }) ==> (dt matches
            DataType::Decimal128(_, s) && s == scale) && (looked_up(md, "lucene.scale_factor"@) matches Some(t)
            && spelled(vstd::utf8::encode_utf8(t)) == Some(factor as int)),
        dt is Decimal128 && looked_up(md, "lucene.scale_factor"@) is None ==> classified(dt, md, vectors) == Err::<
            NumericCoercion,
            ErrorKind,
        >(ErrorKind::InvalidArgument),
{
}

/// Shapes that pass a strict job are those that are stored as they come.
pub proof fn law_canonical_shapes(dt: DataType, md: Seq<(Seq<char>, Seq<char>)>, vectors: bool)
    requires
        classified(dt, md, vectors) is Ok,
    ensures
        canonical(classified(dt, md, vectors)->Ok_0, dt) <==> dt == DataType::Int64 || dt == DataType::Float64 || dt
            == DataType::Binary || dt is Dictionary || dt is FixedSizeList || (dt matches DataType::List(t) && *t
            == DataType::Int64),
{
}

/// The vector columns of a job have the dimension of their type.
pub proof fn law_vectors_keep_their_shape(t: DataType, dim: i32, md: Seq<(Seq<char>, Seq<char>)>, vectors: bool)
    ensures
        classified(DataType::FixedSizeList(Box::new(t), dim), md, vectors) matches Ok(c) ==> (c matches
            NumericCoercion::VectorF32 { dim: d, similarity } && d == dim && t == DataType::Float32 && vectors
            && similarity_of(looked_up(md, "lucene.vector.similarity"@)) == Some(similarity)),
{
}

/// The similarities have four codes, one each; none named is the first.
pub proof fn law_similarities_differ(a: Seq<char>, b: Seq<char>)
    ensures
        similarity_of(Some(a)) is Some && similarity_of(Some(a)) == similarity_of(Some(b)) ==> a == b,
        similarity_of(Some(a)) matches Some(k) ==> k < 4,
        similarity_of(None) == similarity_of(Some("euclidean"@)),
        similarity_of(None) == Some(0u8),
{
}

/// What kind of doc values a field is said to have is what its values are
/// collected as: in the field infos, and in the manifest.
pub proof fn law_kind_as_collected(c: NumericCoercion)
    ensures
        match empty_buffer(c) {
            BufferModel::Vectors { .. } => c.dv_byte() == 0 && c.type_text() == "vector"@,
            BufferModel::Numeric { .. } => c.dv_byte() == 1 && c.type_text() == "numeric"@,
            BufferModel::Bytes { .. } => c.dv_byte() == 2 && c.type_text() == "binary"@,
            BufferModel::Sorted { .. } => c.dv_byte() == 3 && c.type_text() == "sorted"@,
            BufferModel::MultiTerms { .. } => c.dv_byte() == 4 && c.type_text() == "sorted_set"@,
            BufferModel::MultiNumeric { .. } => c.dv_byte() == 5 && c.type_text() == "sorted_numeric"@,
        },
{
}

/// A number in decimal digits.
pub open spec fn decimal_digits(v: nat) -> Seq<u8>
    decreases v,
{
    if v < 10 {
        seq![(48 + v) as u8]
    } else {
        decimal_digits(v / 10).push((48 + v % 10) as u8)
    }
}

/// A factor written in decimal is read as the number it is, with a sign or
/// without.
pub proof fn law_decimal_read(v: nat)
    ensures
        spelled(decimal_digits(v)) == Some(v as int),
        spelled(seq![43u8] + decimal_digits(v)) == Some(v as int),
        spelled(seq![45u8] + decimal_digits(v)) == Some(-(v as int)),
        v <= i64::MAX ==> spelled_i64(decimal_digits(v)) == Some(v as i64),
        v > i64::MAX ==> spelled_i64(decimal_digits(v)) is None,
{
    let s = decimal_digits(v);
    lemma_decimal_digits(v);
    assert((seq![43u8] + s).skip(1) =~= s);
    assert((seq![45u8] + s).skip(1) =~= s);
}

proof fn lemma_decimal_digits(v: nat)
    ensures
        all_digits(decimal_digits(v)),
        digits_value(decimal_digits(v)) == v,
    decreases v,
{
    let s = decimal_digits(v);
    if v < 10 {
        assert(s.drop_last() =~= Seq::<u8>::empty());
        assert(digits_value(s.drop_last()) == 0);
    } else {
        lemma_decimal_digits(v / 10);
        assert(s.drop_last() =~= decimal_digits(v / 10));
    }
}

/// Column `i` of a schema is refused: it has no mapping, or it is no
/// canonical shape and the job is strict.
pub open spec fn column_refused(schema: Seq<ColumnSchema>, strict: bool, vectors: bool, i: int) -> bool {
    match classified(schema[i].data_type, schema[i].metadata@, vectors) {
        Err(_) => true,
        Ok(c) => strict && !canonical(c, schema[i].data_type),
    }
}

/// A job has one field for each column of the schema, in order, under the
/// column's name and with the column's own mapping. It has none at all where
/// a single column is refused.
pub proof fn law_fields_planned(schema: Seq<ColumnSchema>, strict: bool, vectors: bool, n: nat)
    requires
        n <= schema.len(),
    ensures
        match planned_fields(schema, strict, vectors, n) {
            Ok(f) => f.len() == n && forall|i: int|
                0 <= i < n ==> {
                    &&& (#[trigger] f[i]).name == schema[i].name@
                    &&& f[i].source_type == schema[i].printed_type@
                    &&& classified(schema[i].data_type, schema[i].metadata@, vectors) == Ok::<NumericCoercion, ErrorKind>(
                        f[i].coercion,
                    )
                    &&& !column_refused(schema, strict, vectors, i)
                },
            Err(_) => exists|i: int| 0 <= i < n && #[trigger] column_refused(schema, strict, vectors, i),
        },
    decreases n,
{
    if n > 0 {
        let m = (n - 1) as nat;
        law_fields_planned(schema, strict, vectors, m);
        if planned_fields(schema, strict, vectors, m) is Err {
            let i = choose|i: int| 0 <= i < m && #[trigger] column_refused(schema, strict, vectors, i);
            assert(column_refused(schema, strict, vectors, i));
        } else if planned_fields(schema, strict, vectors, n) is Err {
            assert(column_refused(schema, strict, vectors, n - 1));
        }
    }
}

/// A strict job takes less than an automatic one, and takes it the same way.
pub proof fn law_strict_takes_less(schema: Seq<ColumnSchema>, vectors: bool, n: nat)
    requires
        n <= schema.len(),
        planned_fields(schema, true, vectors, n) is Ok,
    ensures
        planned_fields(schema, false, vectors, n) == planned_fields(schema, true, vectors, n),
    decreases n,
{
    if n > 0 {
        law_strict_takes_less(schema, vectors, (n - 1) as nat);
    }
}

/// A job starts empty: no rows, no segments, an empty buffer for each field.
/// It cuts segments after as many documents as it asks for, at least one. It
/// does not start for another codec, in an occupied directory, or without
/// fields.
pub proof fn law_job_starts_empty(job: WriteJob, schema: Seq<ColumnSchema>, occupied: bool, vectors: bool, gpu: GpuSupport)
    ensures
        match started(job, schema, occupied, vectors, gpu) {
            Ok(m) => {
                &&& job.codec@ == "Lucene103"@
                &&& !occupied
                &&& schema.len() > 0
                &&& session_valid(m)
                &&& m.docs == 0
                &&& m.written.len() == 0
                &&& m.fields.len() == schema.len()
                &&& forall|i: int| 0 <= i < m.buffers.len() ==> buffer_docs(#[trigger] m.buffers[i]).len() == 0
                &&& job.segment_max_docs is Some && job.segment_max_docs->0 > 0 ==> m.segment_max_docs
                    == job.segment_max_docs->0
                &&& text_of(job.coercion) == Some("strict"@) ==> forall|i: int|
                    0 <= i < schema.len() ==> canonical((#[trigger] m.fields[i]).coercion, schema[i].data_type)
            },
            Err(k) => job.codec@ != "Lucene103"@ ==> k == ErrorKind::Unsupported,
        },
{
    let strict = text_of(job.coercion) == Some("strict"@);
    law_fields_planned(schema, strict, vectors, schema.len());
    if let Ok(m) = started(job, schema, occupied, vectors, gpu) {
        assert forall|i: int| 0 <= i < m.buffers.len() implies buffer_docs(#[trigger] m.buffers[i]).len() == 0
            && crate::buffer::buffer_valid(m.buffers[i], 0) && cleared(m.buffers[i]) == empty_buffer(
            m.fields[i].coercion,
        ) by {
            assert(m.buffers[i] == empty_buffer(m.fields[i].coercion));
        }
        if strict {
            assert forall|i: int| 0 <= i < schema.len() implies canonical(
                (#[trigger] m.fields[i]).coercion,
                schema[i].data_type,
            ) by {
                assert(!column_refused(schema, strict, vectors, i));
            }
        }
    }
}

/// Every field gets the batch's column of its own name, in its own buffer,
/// with the first row at the document that comes next.
pub proof fn law_columns_by_name(m: SessionModel, columns: Seq<Column>, n: nat, i: int)
    requires
        n <= m.fields.len(),
        m.fields.len() == m.buffers.len(),
        appended(m, columns, n).1 is None,
        0 <= i < m.fields.len(),
    ensures
        appended(m, columns, n).0.len() == m.buffers.len(),
        i < n ==> (column_named(columns, m.fields[i].name) matches Some(c) && append_outcome(
            m.buffers[i],
            m.fields[i].coercion,
            c,
            m.docs as nat,
        ) == Ok::<BufferModel, ErrorKind>(appended(m, columns, n).0[i])),
        i >= n ==> appended(m, columns, n).0[i] == m.buffers[i],
    decreases n,
{
    if n > 0 {
        law_columns_by_name(m, columns, (n - 1) as nat, i);
        law_columns_by_name(m, columns, (n - 1) as nat, n - 1);
    }
}

/// The column of a name is one of the batch, has the name, and is the first
/// that has it; where there is none, no column has it.
pub proof fn law_column_named(columns: Seq<Column>, name: Seq<char>)
    ensures
        match column_named(columns, name) {
            Some(c) => exists|i: int|
                0 <= i < columns.len() && (#[trigger] columns[i]) == c && c.name@ == name && forall|j: int|
                    0 <= j < i ==> (#[trigger] columns[j]).name@ != name,
            None => forall|i: int| 0 <= i < columns.len() ==> (#[trigger] columns[i]).name@ != name,
        },
{
    if exists|i: int| crate::session::column_at(columns, name, i) {
        let i = choose|i: int| crate::session::column_at(columns, name, i);
        assert(columns[i].name@ == name);
    } else {
        assert forall|i: int| 0 <= i < columns.len() implies (#[trigger] columns[i]).name@ != name by {
            if columns[i].name@ == name {
                lemma_first_column(columns, name, i);
            }
        }
    }
}

/// Where some column has a name, one is the first.
proof fn lemma_first_column(columns: Seq<Column>, name: Seq<char>, i: int)
    requires
        0 <= i < columns.len(),
        columns[i].name@ == name,
    ensures
        exists|k: int| crate::session::column_at(columns, name, k),
    decreases i,
{
    if forall|j: int| 0 <= j < i ==> (#[trigger] columns[j]).name@ != name {
        assert(crate::session::column_at(columns, name, i));
    } else {
        let j = choose|j: int| 0 <= j < i && (#[trigger] columns[j]).name@ == name;
        lemma_first_column(columns, name, j);
    }
}

/// A batch that is taken adds its rows, all of them, behind those of the
/// segment being built, for every field.
pub proof fn law_batch_taken(m: SessionModel, batch: Batch, after: SessionModel, i: int)
    requires
        session_valid(m),
        taken(m, batch, after),
        0 <= i < m.fields.len(),
    ensures
        ({
            let c = behind_cut(m, after.written);
            &&& after.fields == m.fields
            &&& after.docs == c.docs + batch.rows
            &&& c.docs == (if m.docs >= m.segment_max_docs {
                0
            } else {
                m.docs
            })
            &&& column_named(batch.columns@, m.fields[i].name) is Some
            &&& append_outcome(
                c.buffers[i],
                m.fields[i].coercion,
                column_named(batch.columns@, m.fields[i].name)->0,
                c.docs as nat,
            ) == Ok::<BufferModel, ErrorKind>(after.buffers[i])
            &&& c.buffers[i] == (if m.docs >= m.segment_max_docs {
                empty_buffer(m.fields[i].coercion)
            } else {
                m.buffers[i]
            })
        }),
{
    let c = behind_cut(m, after.written);
    assert(cleared(m.buffers[i]) == empty_buffer(m.fields[i].coercion));
    law_columns_by_name(c, batch.columns@, c.fields.len(), i);
}

/// The entry of a field in the field infos has its place as number and its
/// name; a vector field has its dimension there, no other has one.
pub proof fn law_entries_numbered(fields: Seq<SpecModel>, i: int)
    requires
        0 <= i < fields.len() <= u32::MAX,
    ensures
        entries_for(fields).len() == fields.len(),
        entries_for(fields)[i].number == i,
        entries_for(fields)[i].name == fields[i].name,
        match fields[i].coercion {
            NumericCoercion::VectorF32 { dim, similarity } => entries_for(fields)[i].vector_dim == dim as u32
                && entries_for(fields)[i].vector_similarity == similarity && entries_for(fields)[i].doc_values_type == 0,
            c => entries_for(fields)[i].vector_dim == 0 && entries_for(fields)[i].doc_values_type == c.dv_byte(),
        },
        entries_for(fields)[i].index_options == 0,
{
    assert(entries_for(fields)[i] == entry_for(i, fields[i]));
}

/// Segments of a job are named apart.
pub proof fn law_segments_named_apart(a: nat, b: nat)
    ensures
        segment_name(a) == segment_name(b) ==> a == b,
        segment_name(a).len() >= 2,
        segment_name(a)[0] == '_',
        crate::liv::spelled36(segment_name(a).skip(1)) == a,
{
    reveal_strlit("_");
    crate::liv::law_base36_spells(a);
    crate::liv::law_base36_spells(b);
    assert(segment_name(a).skip(1) =~= crate::liv::base36_text(a));
    assert(segment_name(b).skip(1) =~= crate::liv::base36_text(b));
}

/// Place `k` of written files, in the order in which they are listed.
pub open spec fn listed_place(n: int, k: int) -> int {
    if k < 6 {
        k
    } else if k == n - 1 {
        6
    } else {
        k + 1
    }
}

/// Files in the listed order: each at its place.
proof fn lemma_listed_order(files: Seq<FileModel>, k: int)
    requires
        files.len() >= 7,
        0 <= k < files.len(),
    ensures
        listed_order(files).len() == files.len(),
        0 <= listed_place(files.len() as int, k) < files.len(),
        listed_order(files)[listed_place(files.len() as int, k)] == files[k],
{
}

/// Another order of the same files.
proof fn lemma_same_files(files: Seq<FileModel>)
    requires
        files.len() >= 7,
    ensures
        listed_order(files).to_multiset() == files.to_multiset(),
{
    let (a, b, c) = (files.take(6), files.subrange(6, files.len() - 1), seq![files.last()]);
    assert(files =~= a + b + c);
    assert(listed_order(files) =~= a + c + b);
    vstd::seq_lib::lemma_multiset_commutative(a + b, c);
    vstd::seq_lib::lemma_multiset_commutative(a, b);
    vstd::seq_lib::lemma_multiset_commutative(a + c, b);
    vstd::seq_lib::lemma_multiset_commutative(a, c);
    assert(listed_order(files).to_multiset() =~= files.to_multiset());
}

/// The names of the files of a flushed segment, in the listed order.
proof fn lemma_flushed_names(m: SessionModel, id: Seq<u8>, extra: Seq<FileModel>, k: int)
    requires
        0 <= k < flushed_files(m, id, extra).len(),
    ensures
        ({
            let files = flushed_files(m, id, extra);
            let listed = own_names(segment_name(m.written.len())) + file_names(extra);
            &&& files.len() == extra.len() + 7
            &&& listed.len() == files.len()
            &&& files[k].name == listed[listed_place(files.len() as int, k)]
        }),
{
}

/// A flushed segment lists exactly the files that are written for it, and its
/// manifest tells of each of them, once.
pub proof fn law_files_listed(m: SessionModel, id: Seq<u8>, extra: Seq<FileModel>, name: Seq<char>)
    ensures
        ({
            let files = flushed_files(m, id, extra);
            let listed = own_names(segment_name(m.written.len())) + file_names(extra);
            &&& files.len() == listed.len()
            &&& file_names(files).contains(name) <==> listed.contains(name)
            &&& listed_order(files).to_multiset() == files.to_multiset()
        }),
{
    let files = flushed_files(m, id, extra);
    let listed = own_names(segment_name(m.written.len())) + file_names(extra);
    let n = files.len() as int;
    assert(n == extra.len() + 7);
    lemma_flushed_names(m, id, extra, 0);
    lemma_same_files(files);
    if file_names(files).contains(name) {
        let k = choose|k: int| 0 <= k < files.len() && file_names(files)[k] == name;
        lemma_flushed_names(m, id, extra, k);
        assert(listed[listed_place(n, k)] == name);
    }
    if listed.contains(name) {
        let j = choose|j: int| 0 <= j < listed.len() && listed[j] == name;
        let k = if j < 6 {
            j
        } else if j == 6 {
            n - 1
        } else {
            j - 1
        };
        lemma_flushed_names(m, id, extra, k);
        assert(listed_place(n, k) == j);
        assert(file_names(files)[k] == name);
    }
}

/// The manifest of a segment tells of every file that is written for it: its
/// name, how many bytes it has, and their checksum. It tells how many
/// documents there are, and of every field how it was stored.
pub proof fn law_manifest_tells(r: SegmentManifest, m: SessionModel, id: Seq<u8>, extra: Seq<FileModel>, k: int)
    requires
        manifest_of(r, m, flushed_files(m, id, extra)),
        0 <= k < flushed_files(m, id, extra).len(),
        m.docs <= i32::MAX,
    ensures
        r.max_doc == m.docs,
        r.name@ == segment_name(m.written.len()),
        exists|j: int|
            0 <= j < r.files@.len() && (#[trigger] r.files@[j]).name@ == flushed_files(m, id, extra)[k].name
                && r.files@[j].bytes == flushed_files(m, id, extra)[k].bytes.len() && r.files@[j].crc32
                == crate::cursor::crc32_of(flushed_files(m, id, extra)[k].bytes),
        r.field_stats@.len() == m.fields.len(),
        forall|i: int|
            0 <= i < m.fields.len() ==> (#[trigger] r.field_stats@[i]).name@ == m.fields[i].name
                && r.field_stats@[i].source_type@ == m.fields[i].source_type,
{
    let files = flushed_files(m, id, extra);
    let j = listed_place(files.len() as int, k);
    lemma_flushed_names(m, id, extra, k);
    lemma_listed_order(files, k);
    assert(manifest_is(r.files@[j], listed_order(files)[j]));
}

/// A refusal tells what would help: a column that is unsupported stays so
/// whatever its metadata says; one that is an invalid argument is accepted
/// with the right metadata, in a build with vectors.
pub proof fn law_refusals_tell(dt: DataType, md: Seq<(Seq<char>, Seq<char>)>, vectors: bool, other: Seq<(Seq<char>, Seq<char>)>)
    ensures
        classified(dt, md, vectors) == Err::<NumericCoercion, ErrorKind>(ErrorKind::Unsupported) ==> classified(
            dt,
            other,
            true,
        ) == Err::<NumericCoercion, ErrorKind>(ErrorKind::Unsupported),
        classified(dt, md, vectors) matches Err(k) ==> k == ErrorKind::Unsupported || k == ErrorKind::InvalidArgument,
        classified(dt, md, vectors) == Err::<NumericCoercion, ErrorKind>(ErrorKind::InvalidArgument) ==> exists|
            better: Seq<(Seq<char>, Seq<char>)>,
        | #[trigger] classified(dt, better, true) is Ok,
{
    if classified(dt, md, vectors) == Err::<NumericCoercion, ErrorKind>(ErrorKind::InvalidArgument) {
        if dt == DataType::UInt64 {
            let better = seq![("lucene.allow_lossy"@, "true"@)];
            assert(looked_up(better, "lucene.allow_lossy"@) == Some("true"@));
            assert(classified(dt, better, true) is Ok);
        } else if dt is Decimal128 {
            let better = seq![("lucene.scale_factor"@, "1"@)];
            assert(looked_up(better, "lucene.scale_factor"@) == Some("1"@));
            reveal_strlit("1");
            vstd::utf8::is_ascii_chars_encode_utf8("1"@);
            let s = vstd::utf8::encode_utf8("1"@);
            assert("1"@[0] == '1');
            assert(s[0] == 49);
            assert(s =~= decimal_digits(1));
            law_decimal_read(1);
            assert(classified(dt, better, true) is Ok);
        } else {
            let better = Seq::<(Seq<char>, Seq<char>)>::empty();
            assert(looked_up(better, "lucene.vector.similarity"@) is None);
            assert(classified(dt, better, true) is Ok);
        }
    }
}

} // verus!
