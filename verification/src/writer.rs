//! Segment assembly: field infos, segment info, and the full list of files
//! of a segment around its encoded doc values.

use vstd::prelude::*;
use vstd::string::StringExecFns;
use vstd::utf8::{encode_utf8, is_ascii_chars_encode_utf8};
use crate::attributes::{key_less, map_bytes, pairs_bytes, write_map, Attributes};
use crate::bytes::{copy_of, le_i32, le_i64, push_le_i32, push_le_i64};
use crate::cursor::{
    index_header_bytes, string_bytes, varint_bytes, with_footer, write_footer, write_index_header, write_string,
    write_vint,
};
use crate::lexicon::{lemma_less_asymmetric, lemma_less_total, lemma_less_transitive, less};
use crate::stored::{empty_stored_fields, write_empty_stored_fields};

verus! {

/// The Lucene version stamped into segment infos.
pub const LUCENE_VERSION: (i32, i32, i32) = (10, 3, 2);

pub const SEGMENT_INFO_CODEC: &'static str = "Lucene90SegmentInfo";

/// One field entry for writing field infos.
#[derive(Debug, Clone)]
pub struct WriteField {
    pub name: String,
    pub number: u32,
    /// 0 none, 1 NUMERIC, 2 BINARY, 3 SORTED, 4 SORTED_SET, 5
    /// SORTED_NUMERIC.
    pub doc_values_type: u8,
    /// 0 for no vectors.
    pub vector_dim: u32,
    pub vector_encoding: u8,
    pub vector_similarity: u8,
    /// 0 none, 1 documents, 2 documents and frequencies.
    pub index_options: u8,
}

impl WriteField {
    /// A field with doc values only.
    pub fn doc_values(name: &str, number: u32, doc_values_type: u8) -> (r: WriteField)
        ensures
            r.name@ == name@,
            r.number == number,
            r.doc_values_type == doc_values_type,
            r.vector_dim == 0,
            r.vector_encoding == 0,
            r.vector_similarity == 0,
            r.index_options == 0,
    {
        WriteField {
            name: name.to_owned(),
            number,
            doc_values_type,
            vector_dim: 0,
            vector_encoding: 0,
            vector_similarity: 0,
            index_options: 0,
        }
    }
}

/// A field entry as mathematical values.
pub struct EntryModel {
    pub name: Seq<char>,
    pub number: u32,
    pub doc_values_type: u8,
    pub vector_dim: u32,
    pub vector_encoding: u8,
    pub vector_similarity: u8,
    pub index_options: u8,
}

impl View for WriteField {
    type V = EntryModel;

    open spec fn view(&self) -> EntryModel {
        EntryModel {
            name: self.name@,
            number: self.number,
            doc_values_type: self.doc_values_type,
            vector_dim: self.vector_dim,
            vector_encoding: self.vector_encoding,
            vector_similarity: self.vector_similarity,
            index_options: self.index_options,
        }
    }
}

/// Field entries as mathematical values.
pub open spec fn entries(fields: Seq<WriteField>) -> Seq<EntryModel> {
    Seq::new(fields.len(), |i: int| fields[i]@)
}

/// The attributes that route a field to the formats that hold its doc
/// values, vectors and postings; a reader ignores the field without them.
pub open spec fn routing(doc_values: bool, vectors: bool, indexed: bool) -> Seq<(Seq<char>, Seq<char>)> {
    let a = if doc_values {
        seq![
            ("PerFieldDocValuesFormat.format"@, "Lucene90"@),
            ("PerFieldDocValuesFormat.suffix"@, "0"@),
        ]
    } else {
        Seq::empty()
    };
    let b = if vectors {
        seq![
            ("PerFieldKnnVectorsFormat.format"@, "Lucene99HnswVectorsFormat"@),
            ("PerFieldKnnVectorsFormat.suffix"@, "0"@),
        ]
    } else {
        Seq::empty()
    };
    let c = if indexed {
        seq![
            ("PerFieldPostingsFormat.format"@, "Lucene103"@),
            ("PerFieldPostingsFormat.suffix"@, "0"@),
        ]
    } else {
        Seq::empty()
    };
    a + b + c
}

/// The attributes of a field.
pub open spec fn field_routing(f: EntryModel) -> Seq<(Seq<char>, Seq<char>)> {
    routing(f.doc_values_type != 0, f.vector_dim > 0, f.index_options > 0)
}

/// Name, number, flags, options, types and generation of a record.
pub open spec fn head_bytes(f: EntryModel) -> Seq<u8> {
    string_bytes(f.name) + (varint_bytes(f.number as nat) + (seq![0u8, f.index_options, f.doc_values_type, 0u8]
        + le_i64((-1) as i64)))
}

/// Points and vectors of a record.
pub open spec fn shape_bytes(f: EntryModel) -> Seq<u8> {
    varint_bytes(0) + (varint_bytes(f.vector_dim as nat) + seq![
        if f.vector_dim > 0 {
            f.vector_encoding
        } else {
            1u8
        },
        f.vector_similarity,
    ])
}

/// One record.
pub open spec fn record_bytes(f: EntryModel) -> Seq<u8> {
    head_bytes(f) + (map_bytes(field_routing(f)) + shape_bytes(f))
}

/// The records from `from` on.
pub open spec fn records_from(fields: Seq<EntryModel>, from: nat) -> Seq<u8>
    decreases fields.len() - from,
{
    if from >= fields.len() {
        Seq::empty()
    } else {
        record_bytes(fields[from as int]) + records_from(fields, from + 1)
    }
}

/// The field-infos file before its footer.
pub open spec fn fnm_body(fields: Seq<EntryModel>, segment_id: Seq<u8>) -> Seq<u8> {
    index_header_bytes(
        encode_utf8(crate::fnm::CODEC_NAME@),
        crate::fnm::FORMAT_CURRENT,
        segment_id,
        encode_utf8(""@),
    ) + (varint_bytes((fields.len() as u32) as nat) + records_from(fields, 0))
}

/// Two more attributes at the end.
proof fn lemma_two_pairs(
    s: Seq<(Seq<char>, Seq<char>)>,
    a: (Seq<char>, Seq<char>),
    b: (Seq<char>, Seq<char>),
)
    ensures
        pairs_bytes(s + seq![a, b], (s.len() + 2) as nat) == pairs_bytes(s, s.len()) + (string_bytes(a.0)
            + string_bytes(a.1)) + (string_bytes(b.0) + string_bytes(b.1)),
{
    let t = s + seq![a, b];
    lemma_pairs_prefix(s, t, s.len());
    assert(t[s.len() as int] == a);
    assert(t[s.len() as int + 1] == b);
    assert(pairs_bytes(t, s.len() + 1) == pairs_bytes(t, s.len()) + (string_bytes(a.0) + string_bytes(a.1)));
}

proof fn lemma_pairs_prefix(s: Seq<(Seq<char>, Seq<char>)>, t: Seq<(Seq<char>, Seq<char>)>, n: nat)
    requires
        n <= s.len() <= t.len(),
        forall|i: int| 0 <= i < n ==> s[i] == t[i],
    ensures
        pairs_bytes(s, n) == pairs_bytes(t, n),
    decreases n,
{
    if n > 0 {
        lemma_pairs_prefix(s, t, (n - 1) as nat);
    }
}

/// Appends two attributes to those of `done`.
fn push_format(out: &mut Vec<u8>, format_key: &str, format: &str, suffix_key: &str, Ghost(head): Ghost<Seq<u8>>, Ghost(
    done,
): Ghost<Seq<(Seq<char>, Seq<char>)>>)
    requires
        old(out)@ == head + pairs_bytes(done, done.len()),
    ensures
        ({
            let s = done + seq![(format_key@, format@), (suffix_key@, "0"@)];
            final(out)@ == head + pairs_bytes(s, s.len())
        }),
{
    write_string(out, format_key);
    write_string(out, format);
    write_string(out, suffix_key);
    write_string(out, "0");
    proof {
        let a = (format_key@, format@);
        let b = (suffix_key@, "0"@);
        lemma_two_pairs(done, a, b);
        let s = done + seq![a, b];
        assert(s.len() == done.len() + 2);
        assert(out@ =~= head + pairs_bytes(s, s.len()));
    }
}

/// Appends the attributes that route a field.
fn push_routing(out: &mut Vec<u8>, doc_values: bool, vectors: bool, indexed: bool)
    ensures
        final(out)@ == old(out)@ + map_bytes(routing(doc_values, vectors, indexed)),
{
    let ghost start = out@;
    let mut count: u32 = 0;
    if doc_values {
        count = count + 2;
    }
    if vectors {
        count = count + 2;
    }
    if indexed {
        count = count + 2;
    }
    write_vint(out, count);
    let ghost head = out@;
    let ghost mut s: Seq<(Seq<char>, Seq<char>)> = Seq::empty();
    assert(out@ =~= head + pairs_bytes(s, 0));
    if doc_values {
        push_format(
            out,
            "PerFieldDocValuesFormat.format",
            "Lucene90",
            "PerFieldDocValuesFormat.suffix",
            Ghost(head),
            Ghost(s),
        );
        proof {
            s = s + seq![("PerFieldDocValuesFormat.format"@, "Lucene90"@), ("PerFieldDocValuesFormat.suffix"@, "0"@)];
        }
    }
    if vectors {
        push_format(
            out,
            "PerFieldKnnVectorsFormat.format",
            "Lucene99HnswVectorsFormat",
            "PerFieldKnnVectorsFormat.suffix",
            Ghost(head),
            Ghost(s),
        );
        proof {
            s = s + seq![
                ("PerFieldKnnVectorsFormat.format"@, "Lucene99HnswVectorsFormat"@),
                ("PerFieldKnnVectorsFormat.suffix"@, "0"@),
            ];
        }
    }
    if indexed {
        push_format(
            out,
            "PerFieldPostingsFormat.format",
            "Lucene103",
            "PerFieldPostingsFormat.suffix",
            Ghost(head),
            Ghost(s),
        );
        proof {
            s = s + seq![("PerFieldPostingsFormat.format"@, "Lucene103"@), ("PerFieldPostingsFormat.suffix"@, "0"@)];
        }
    }
    assert(s =~= routing(doc_values, vectors, indexed));
    assert(count == s.len());
    assert(out@ =~= start + map_bytes(s));
}

/// Appends one record.
fn push_record(out: &mut Vec<u8>, f: &WriteField)
    ensures
        final(out)@ == old(out)@ + record_bytes(f@),
{
    let ghost start = out@;
    write_string(out, f.name.as_str());
    write_vint(out, f.number);
    out.push(0);
    out.push(f.index_options);
    out.push(f.doc_values_type);
    out.push(0);
    push_le_i64(out, -1);
    assert(out@ =~= start + head_bytes(f@));
    push_routing(out, f.doc_values_type != 0, f.vector_dim > 0, f.index_options > 0);
    let ghost late = out@;
    write_vint(out, 0);
    write_vint(out, f.vector_dim);
    out.push(
        if f.vector_dim > 0 {
            f.vector_encoding
        } else {
            1
        },
    );
    out.push(f.vector_similarity);
    assert(out@ =~= late + shape_bytes(f@));
    assert(out@ =~= start + record_bytes(f@));
}

/// The codec names and the empty suffix are short.
proof fn lemma_codec_names()
    ensures
        encode_utf8(crate::fnm::CODEC_NAME@).len() == 18,
        encode_utf8(SEGMENT_INFO_CODEC@).len() == 19,
        encode_utf8(""@).len() == 0,
{
    reveal_strlit("Lucene94FieldInfos");
    reveal_strlit("Lucene90SegmentInfo");
    reveal_strlit("");
    is_ascii_chars_encode_utf8(crate::fnm::CODEC_NAME@);
    is_ascii_chars_encode_utf8(SEGMENT_INFO_CODEC@);
    is_ascii_chars_encode_utf8(""@);
}

/// Field-infos writer: what it writes, [`crate::fnm::parse`] reads back.
pub fn write_fnm(fields: &[WriteField], segment_id: &[u8; 16]) -> (r: Vec<u8>)
    ensures
        r@ == with_footer(fnm_body(entries(fields@), segment_id@)),
{
    proof {
        lemma_codec_names();
    }
    let mut out: Vec<u8> = Vec::new();
    write_index_header(&mut out, crate::fnm::CODEC_NAME, crate::fnm::FORMAT_CURRENT, segment_id, "");
    write_vint(&mut out, fields.len() as u32);
    let ghost e = entries(fields@);
    let ghost whole = fnm_body(e, segment_id@);
    let mut i: usize = 0;
    assert(out@ + records_from(e, 0) =~= whole);
    while i < fields.len()
        invariant
            i <= fields@.len(),
            e == entries(fields@),
            out@ + records_from(e, i as nat) == whole,
        decreases fields@.len() - i,
    {
        let ghost before = out@;
        push_record(&mut out, &fields[i]);
        assert(before + (record_bytes(e[i as int]) + records_from(e, (i + 1) as nat)) =~= out@
            + records_from(e, (i + 1) as nat));
        i = i + 1;
    }
    assert(out@ =~= whole);
    write_footer(&mut out);
    out
}

/// Names as mathematical values.
pub open spec fn names(files: Seq<String>) -> Seq<Seq<char>> {
    Seq::new(files.len(), |i: int| files[i]@)
}

/// The first `n` names, written.
pub open spec fn names_bytes(files: Seq<Seq<char>>, n: nat) -> Seq<u8>
    decreases n,
{
    if n == 0 {
        Seq::empty()
    } else {
        names_bytes(files, (n - 1) as nat) + string_bytes(files[n - 1])
    }
}

/// Version, written as three integers.
pub open spec fn version_bytes() -> Seq<u8> {
    le_i32(10) + le_i32(3) + le_i32(2)
}

/// The segment info up to the file list: version, minimum version, document
/// count, no compound file, no blocks.
pub open spec fn si_head(segment_id: Seq<u8>, max_doc: u32) -> Seq<u8> {
    index_header_bytes(encode_utf8(SEGMENT_INFO_CODEC@), 0, segment_id, encode_utf8(""@)) + (version_bytes() + (seq![
        1u8,
    ] + (version_bytes() + (le_i32(max_doc as i32) + seq![0xFFu8, 0xFFu8]))))
}

/// The segment info before its footer: behind the head diagnostics, files,
/// attributes, and no sort fields.
pub open spec fn si_body(
    segment_id: Seq<u8>,
    max_doc: u32,
    files: Seq<Seq<char>>,
    diagnostics: Seq<(Seq<char>, Seq<char>)>,
    attributes: Seq<(Seq<char>, Seq<char>)>,
) -> Seq<u8> {
    si_head(segment_id, max_doc) + (map_bytes(diagnostics) + (varint_bytes((files.len() as u32) as nat) + (names_bytes(
        files,
        files.len(),
    ) + (map_bytes(attributes) + varint_bytes(0)))))
}

/// Appends the version.
fn push_version(out: &mut Vec<u8>)
    ensures
        final(out)@ == old(out)@ + version_bytes(),
{
    push_le_i32(out, LUCENE_VERSION.0);
    push_le_i32(out, LUCENE_VERSION.1);
    push_le_i32(out, LUCENE_VERSION.2);
    assert(out@ =~= old(out)@ + version_bytes());
}

/// The segment info up to its maps.
fn si_start(segment_id: &[u8; 16], max_doc: u32) -> (r: Vec<u8>)
    ensures
        r@ == si_head(segment_id@, max_doc),
{
    proof {
        lemma_codec_names();
    }
    let mut out: Vec<u8> = Vec::new();
    write_index_header(&mut out, SEGMENT_INFO_CODEC, 0, segment_id, "");
    push_version(&mut out);
    out.push(1);
    push_version(&mut out);
    push_le_i32(&mut out, max_doc as i32);
    out.push(0xFF);
    out.push(0xFF);
    assert(out@ =~= si_head(segment_id@, max_doc));
    out
}

/// Appends names behind their number.
fn push_names(out: &mut Vec<u8>, files: &[String])
    ensures
        final(out)@ == old(out)@ + (varint_bytes((files@.len() as u32) as nat) + names_bytes(
            names(files@),
            files@.len(),
        )),
{
    let ghost start = out@;
    let ghost all = names(files@);
    write_vint(out, files.len() as u32);
    let ghost head = out@;
    let mut i: usize = 0;
    assert(out@ =~= head + names_bytes(all, 0));
    while i < files.len()
        invariant
            i <= files@.len(),
            all == names(files@),
            out@ == head + names_bytes(all, i as nat),
        decreases files@.len() - i,
    {
        write_string(out, files[i].as_str());
        i = i + 1;
        assert(out@ =~= head + names_bytes(all, i as nat));
    }
    assert(out@ =~= start + (varint_bytes((files@.len() as u32) as nat) + names_bytes(all, files@.len())));
}

/// Segment-info writer.
pub fn write_si(
    segment_id: &[u8; 16],
    max_doc: u32,
    files: &[String],
    diagnostics: &Attributes,
    attributes: &Attributes,
) -> (r: Vec<u8>)
    ensures
        r@ == with_footer(si_body(segment_id@, max_doc, names(files@), diagnostics@, attributes@)),
{
    let mut out: Vec<u8> = si_start(segment_id, max_doc);
    write_map(&mut out, diagnostics);
    push_names(&mut out, files);
    write_map(&mut out, attributes);
    write_vint(&mut out, 0);
    assert(out@ =~= si_body(segment_id@, max_doc, names(files@), diagnostics@, attributes@));
    write_footer(&mut out);
    out
}

/// One written (not yet committed) segment.
#[derive(Debug, Clone)]
pub struct WrittenSegment {
    pub name: String,
    pub id: [u8; 16],
    pub num_docs: u32,
    pub files: Vec<String>,
}

/// A file to write: its name and its bytes.
#[derive(Debug, Clone)]
pub struct NamedFile {
    pub name: String,
    pub bytes: Vec<u8>,
}

/// A file as mathematical values.
pub struct FileModel {
    pub name: Seq<char>,
    pub bytes: Seq<u8>,
}

impl View for NamedFile {
    type V = FileModel;

    open spec fn view(&self) -> FileModel {
        FileModel { name: self.name@, bytes: self.bytes@ }
    }
}

/// Files as mathematical values.
pub open spec fn files_view(files: Seq<NamedFile>) -> Seq<FileModel> {
    Seq::new(files.len(), |i: int| files[i]@)
}

/// The diagnostics of a flushed segment.
pub open spec fn flush_diagnostics() -> Seq<(Seq<char>, Seq<char>)> {
    seq![("lucene.version"@, "10.3.2"@), ("source"@, "flush"@)]
}

/// The attributes of a segment.
pub open spec fn segment_attributes() -> Seq<(Seq<char>, Seq<char>)> {
    seq![("Lucene90StoredFieldsFormat.mode"@, "BEST_SPEED"@)]
}

/// The segment info of a flushed segment with these files.
pub open spec fn segment_info(segment_id: Seq<u8>, num_docs: u32, files: Seq<Seq<char>>) -> Seq<u8> {
    with_footer(si_body(segment_id, num_docs, files, flush_diagnostics(), segment_attributes()))
}

/// Names of the files that every segment has, in the order of writing.
pub open spec fn own_names(segment: Seq<char>) -> Seq<Seq<char>> {
    seq![
        segment + "_Lucene90_0.dvd"@,
        segment + "_Lucene90_0.dvm"@,
        segment + ".fnm"@,
        segment + ".fdt"@,
        segment + ".fdx"@,
        segment + ".fdm"@,
        segment + ".si"@,
    ]
}

/// Names of files.
pub open spec fn file_names(files: Seq<FileModel>) -> Seq<Seq<char>> {
    Seq::new(files.len(), |i: int| files[i].name)
}

/// The files of a segment but for its segment info, which lists them.
pub open spec fn payload_files(
    segment: Seq<char>,
    segment_id: Seq<u8>,
    fields: Seq<EntryModel>,
    num_docs: u32,
    dvm: Seq<u8>,
    dvd: Seq<u8>,
    extra: Seq<FileModel>,
) -> Seq<FileModel> {
    let (fdt, fdx, fdm) = empty_stored_fields(num_docs as nat, segment_id);
    let n = own_names(segment);
    seq![
        FileModel { name: n[0], bytes: dvd },
        FileModel { name: n[1], bytes: dvm },
        FileModel { name: n[2], bytes: with_footer(fnm_body(fields, segment_id)) },
        FileModel { name: n[3], bytes: fdt },
        FileModel { name: n[4], bytes: fdx },
        FileModel { name: n[5], bytes: fdm },
    ] + extra
}

/// All files of a segment: payload files, then the segment info, which lists
/// `listed`.
pub open spec fn segment_files(
    segment: Seq<char>,
    segment_id: Seq<u8>,
    fields: Seq<EntryModel>,
    num_docs: u32,
    dvm: Seq<u8>,
    dvd: Seq<u8>,
    extra: Seq<FileModel>,
    listed: Seq<Seq<char>>,
) -> Seq<FileModel> {
    payload_files(segment, segment_id, fields, num_docs, dvm, dvd, extra).push(
        FileModel { name: segment + ".si"@, bytes: segment_info(segment_id, num_docs, listed) },
    )
}

/// The segment info of a flushed segment.
fn flushed_si(segment_id: &[u8; 16], num_docs: u32, files: &[String]) -> (r: Vec<u8>)
    ensures
        r@ == segment_info(segment_id@, num_docs, names(files@)),
{
    let mut diagnostics: Attributes = Attributes::new();
    diagnostics.insert("source".to_owned(), "flush".to_owned());
    diagnostics.insert("lucene.version".to_owned(), "10.3.2".to_owned());
    let mut attributes: Attributes = Attributes::new();
    attributes.insert("Lucene90StoredFieldsFormat.mode".to_owned(), "BEST_SPEED".to_owned());
    proof {
        reveal_strlit("source");
        reveal_strlit("lucene.version");
        is_ascii_chars_encode_utf8("source"@);
        is_ascii_chars_encode_utf8("lucene.version"@);
        assert(key_less("lucene.version"@, "source"@));
        assert(diagnostics@ =~= flush_diagnostics());
        assert(attributes@ =~= segment_attributes());
    }
    write_si(segment_id, num_docs, files, &diagnostics, &attributes)
}

/// A file name: the segment's name and an ending.
fn name_with(segment: &str, ending: &str) -> (r: String)
    ensures
        r@ == segment@ + ending@,
{
    let mut s: String = segment.to_owned();
    s.append(ending);
    s
}

/// The files of a segment but for its segment info.
fn payload(
    segment_name: &str,
    segment_id: &[u8; 16],
    fields: &[WriteField],
    num_docs: u32,
    dvm: &[u8],
    dvd: &[u8],
    extra: Vec<NamedFile>,
) -> (r: Vec<NamedFile>)
    ensures
        files_view(r@) == payload_files(
            segment_name@,
            segment_id@,
            entries(fields@),
            num_docs,
            dvm@,
            dvd@,
            files_view(extra@),
        ),
{
    let (fdt, fdx, fdm): (Vec<u8>, Vec<u8>, Vec<u8>) = write_empty_stored_fields(num_docs, segment_id);
    let fnm: Vec<u8> = write_fnm(fields, segment_id);
    let ghost added = files_view(extra@);
    let mut more: Vec<NamedFile> = extra;
    let mut files: Vec<NamedFile> = Vec::new();
    files.push(NamedFile { name: name_with(segment_name, "_Lucene90_0.dvd"), bytes: copy_of(dvd) });
    files.push(NamedFile { name: name_with(segment_name, "_Lucene90_0.dvm"), bytes: copy_of(dvm) });
    files.push(NamedFile { name: name_with(segment_name, ".fnm"), bytes: fnm });
    files.push(NamedFile { name: name_with(segment_name, ".fdt"), bytes: fdt });
    files.push(NamedFile { name: name_with(segment_name, ".fdx"), bytes: fdx });
    files.push(NamedFile { name: name_with(segment_name, ".fdm"), bytes: fdm });
    files.append(&mut more);
    assert(files_view(files@) =~= payload_files(
        segment_name@,
        segment_id@,
        entries(fields@),
        num_docs,
        dvm@,
        dvd@,
        added,
    ));
    files
}

/// The names under which a segment's own files and further ones are listed.
fn listed_names(segment_name: &str, payload: &[NamedFile]) -> (r: Vec<String>)
    requires
        payload@.len() >= 6,
        forall|i: int| 0 <= i < 6 ==> (#[trigger] payload@[i]).name@ == own_names(segment_name@)[i],
    ensures
        names(r@) == own_names(segment_name@) + file_names(files_view(payload@.skip(6))),
{
    let mut r: Vec<String> = Vec::new();
    let mut i: usize = 0;
    while i < payload.len()
        invariant
            payload@.len() >= 6,
            i <= payload@.len(),
            r@.len() == i + if i > 6 {
                1int
            } else {
                0
            },
            forall|k: int| 0 <= k < i && k < 6 ==> (#[trigger] r@[k])@ == payload@[k].name@,
            i > 6 ==> r@[6]@ == segment_name@ + ".si"@,
            forall|k: int| 6 <= k < i ==> (#[trigger] r@[k + 1])@ == payload@[k].name@,
        decreases payload@.len() - i,
    {
        if i == 6 {
            r.push(name_with(segment_name, ".si"));
        }
        r.push(payload[i].name.clone());
        i = i + 1;
    }
    if payload.len() == 6 {
        r.push(name_with(segment_name, ".si"));
    }
    let ghost rest = file_names(files_view(payload@.skip(6)));
    assert forall|k: int| 7 <= k < r@.len() implies (#[trigger] r@[k])@ == rest[k - 7] by {
        assert(r@[(k - 1) + 1]@ == payload@[k - 1].name@);
    }
    assert(names(r@) =~= own_names(segment_name@) + rest);
    r
}

/// The first files of the payload are the segment's own.
proof fn lemma_payload_names(
    files: Seq<NamedFile>,
    segment: Seq<char>,
    segment_id: Seq<u8>,
    fields: Seq<EntryModel>,
    num_docs: u32,
    dvm: Seq<u8>,
    dvd: Seq<u8>,
    extra: Seq<FileModel>,
)
    requires
        files_view(files) == payload_files(segment, segment_id, fields, num_docs, dvm, dvd, extra),
    ensures
        files.len() == 6 + extra.len(),
        forall|i: int| 0 <= i < 6 ==> (#[trigger] files[i]).name@ == own_names(segment)[i],
        files_view(files.skip(6)) == extra,
{
    let v = files_view(files);
    assert(v.len() == 6 + extra.len());
    assert forall|i: int| 0 <= i < 6 implies (#[trigger] files[i]).name@ == own_names(segment)[i] by {
        assert(v[i] == files[i]@);
    }
    assert(files_view(files.skip(6)) =~= extra) by {
        assert forall|i: int| 0 <= i < extra.len() implies files_view(files.skip(6))[i] == extra[i] by {
            assert(v[i + 6] == files[i + 6]@);
        }
    }
}

/// One segment's files (no commit): a pair of encoded doc-values files with
/// field infos, segment info and empty stored fields around it.
pub fn write_segment_files(
    segment_name: &str,
    segment_id: [u8; 16],
    fields: &[WriteField],
    num_docs: u32,
    dvm: &[u8],
    dvd: &[u8],
) -> (r: (WrittenSegment, Vec<NamedFile>))
    ensures
        r.0.name@ == segment_name@,
        r.0.id == segment_id,
        r.0.num_docs == num_docs,
        names(r.0.files@) == own_names(segment_name@),
        files_view(r.1@) == segment_files(
            segment_name@,
            segment_id@,
            entries(fields@),
            num_docs,
            dvm@,
            dvd@,
            Seq::empty(),
            own_names(segment_name@),
        ),
{
    let extra: Vec<NamedFile> = Vec::new();
    assert(files_view(extra@) =~= Seq::<FileModel>::empty());
    assert(own_names(segment_name@) + file_names(Seq::<FileModel>::empty()) =~= own_names(segment_name@));
    write_segment_files_ext(segment_name, segment_id, fields, num_docs, dvm, dvd, extra)
}

/// [`write_segment_files`] with further files of the segment.
pub fn write_segment_files_ext(
    segment_name: &str,
    segment_id: [u8; 16],
    fields: &[WriteField],
    num_docs: u32,
    dvm: &[u8],
    dvd: &[u8],
    extra: Vec<NamedFile>,
) -> (r: (WrittenSegment, Vec<NamedFile>))
    ensures
        r.0.name@ == segment_name@,
        r.0.id == segment_id,
        r.0.num_docs == num_docs,
        names(r.0.files@) == own_names(segment_name@) + file_names(files_view(extra@)),
        files_view(r.1@) == segment_files(
            segment_name@,
            segment_id@,
            entries(fields@),
            num_docs,
            dvm@,
            dvd@,
            files_view(extra@),
            own_names(segment_name@) + file_names(files_view(extra@)),
        ),
{
    let ghost added = files_view(extra@);
    let mut out: Vec<NamedFile> = payload(segment_name, &segment_id, fields, num_docs, dvm, dvd, extra);
    proof {
        lemma_payload_names(out@, segment_name@, segment_id@, entries(fields@), num_docs, dvm@, dvd@, added);
    }
    let files: Vec<String> = listed_names(segment_name, out.as_slice());
    let si: Vec<u8> = flushed_si(&segment_id, num_docs, files.as_slice());
    let ghost before = files_view(out@);
    let last: NamedFile = NamedFile { name: name_with(segment_name, ".si"), bytes: si };
    let ghost model = last@;
    out.push(last);
    assert(files_view(out@) =~= before.push(model));
    (WrittenSegment { name: segment_name.to_owned(), id: segment_id, num_docs, files }, out)
}

/// No name stands behind a greater one.
pub open spec fn names_sorted(s: Seq<Seq<char>>) -> bool {
    forall|i: int, j: int| 0 <= i < j < s.len() ==> !key_less(#[trigger] s[j], #[trigger] s[i])
}

/// Puts a name in its place among sorted ones.
fn place_name(sorted: &mut Vec<String>, name: String)
    requires
        names_sorted(names(old(sorted)@)),
    ensures
        names_sorted(names(final(sorted)@)),
        names(final(sorted)@).to_multiset() == names(old(sorted)@).to_multiset().insert(name@),
{
    let ghost s = names(sorted@);
    let ghost x = name@;
    let mut i: usize = sorted.len();
    while i > 0 && less(name.as_str().as_bytes(), sorted[i - 1].as_str().as_bytes())
        invariant
            i <= sorted@.len(),
            s == names(sorted@),
            x == name@,
            forall|j: int| i <= j < s.len() ==> key_less(x, #[trigger] s[j]),
        decreases i,
    {
        assert(s[i - 1] == sorted@[i - 1]@);
        i = i - 1;
    }
    let ghost k = i as int;
    sorted.insert(i, name);
    proof {
        broadcast use vstd::seq_lib::group_to_multiset_ensures;

        let t = names(sorted@);
        assert(t =~= s.insert(k, x));
        if k > 0 {
            assert(s[k - 1] == old(sorted)@[k - 1]@);
        }
        assert forall|a: int, b: int| 0 <= a < b < t.len() implies !key_less(#[trigger] t[b], #[trigger] t[a]) by {
            if b < k {
                assert(!key_less(s[b], s[a]));
            } else if a > k {
                assert(!key_less(s[b - 1], s[a - 1]));
            } else if a == k {
                lemma_less_asymmetric(encode_utf8(x), encode_utf8(s[b - 1]));
            } else if b == k {
                if a < k - 1 {
                    assert(!key_less(s[k - 1], s[a]));
                    lemma_not_less_transitive(s[a], s[k - 1], x);
                }
            } else {
                assert(!key_less(s[b - 1], s[a]));
            }
        }
    }
}

/// Where neither step goes down, the whole does not.
proof fn lemma_not_less_transitive(a: Seq<char>, b: Seq<char>, c: Seq<char>)
    requires
        !key_less(b, a),
        !key_less(c, b),
    ensures
        !key_less(c, a),
{
    if key_less(c, a) {
        lemma_less_total(encode_utf8(a), encode_utf8(b));
        if encode_utf8(a) != encode_utf8(b) {
            lemma_less_transitive(encode_utf8(c), encode_utf8(a), encode_utf8(b));
        }
    }
}

/// Names in order.
pub fn sort_names(files: Vec<String>) -> (r: Vec<String>)
    ensures
        names_sorted(names(r@)),
        names(r@).to_multiset() == names(files@).to_multiset(),
{
    broadcast use vstd::seq_lib::group_to_multiset_ensures;

    let ghost all = names(files@);
    let mut rest: Vec<String> = files;
    let mut sorted: Vec<String> = Vec::new();
    assert(names(sorted@).to_multiset().add(names(rest@).to_multiset()) =~= all.to_multiset());
    while rest.len() > 0
        invariant
            names_sorted(names(sorted@)),
            names(sorted@).to_multiset().add(names(rest@).to_multiset()) =~= all.to_multiset(),
        decreases rest@.len(),
    {
        let ghost before = names(rest@);
        let ghost done = names(sorted@);
        match rest.pop() {
            Some(name) => {
                let ghost x = name@;
                place_name(&mut sorted, name);
                proof {
                    broadcast use vstd::seq_lib::group_to_multiset_ensures;

                    assert(names(rest@).push(x) =~= before);
                    assert(before.to_multiset() =~= names(rest@).to_multiset().insert(x));
                    assert(names(sorted@).to_multiset().add(names(rest@).to_multiset()) =~= done.to_multiset().add(
                        before.to_multiset(),
                    ));
                }
            },
            None => {},
        }
    }
    assert(names(rest@) =~= Seq::<Seq<char>>::empty());
    assert(names(sorted@).to_multiset() =~= all.to_multiset());
    sorted
}

/// [`write_segment_files_ext`] with the names of files that exist already
/// among the segment's files, all in order.
pub fn write_segment_files_full(
    segment_name: &str,
    segment_id: [u8; 16],
    fields: &[WriteField],
    num_docs: u32,
    dvm: &[u8],
    dvd: &[u8],
    extra: Vec<NamedFile>,
    existing: Vec<String>,
) -> (r: (WrittenSegment, Vec<NamedFile>))
    ensures
        r.0.name@ == segment_name@,
        r.0.id == segment_id,
        r.0.num_docs == num_docs,
        names_sorted(names(r.0.files@)),
        names(r.0.files@).to_multiset() == (own_names(segment_name@) + file_names(files_view(extra@)) + names(
            existing@,
        )).to_multiset(),
        files_view(r.1@) == segment_files(
            segment_name@,
            segment_id@,
            entries(fields@),
            num_docs,
            dvm@,
            dvd@,
            files_view(extra@),
            names(r.0.files@),
        ),
{
    let ghost added = files_view(extra@);
    let ghost present = names(existing@);
    let mut more: Vec<String> = existing;
    let mut out: Vec<NamedFile> = payload(segment_name, &segment_id, fields, num_docs, dvm, dvd, extra);
    proof {
        lemma_payload_names(out@, segment_name@, segment_id@, entries(fields@), num_docs, dvm@, dvd@, added);
    }
    let mut all: Vec<String> = listed_names(segment_name, out.as_slice());
    let ghost own = names(all@);
    all.append(&mut more);
    assert(names(all@) =~= own + present);
    let files: Vec<String> = sort_names(all);
    let si: Vec<u8> = flushed_si(&segment_id, num_docs, files.as_slice());
    let ghost before = files_view(out@);
    let last: NamedFile = NamedFile { name: name_with(segment_name, ".si"), bytes: si };
    let ghost model = last@;
    out.push(last);
    assert(files_view(out@) =~= before.push(model));
    (WrittenSegment { name: segment_name.to_owned(), id: segment_id, num_docs, files }, out)
}

} // verus!
