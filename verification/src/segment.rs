//! What a commit says of its segments and their fields, and the decisions
//! that a reader of a segment directory takes on it.

use vstd::prelude::*;
use vstd::string::{StrSliceExecFns, StringExecFns};
use crate::attributes::Attributes;
use crate::error::{Error, ErrorKind, Result};
use crate::fnm::{fields_model, parse, parse_fnm, FnmField, FnmModel};
use crate::liv::{file_name, live_docs_name, live_docs_words, read_live_docs};
use crate::text::same_text;
use crate::writer::{names, names_sorted, sort_names};

verus! {

/// The one codec that is read.
pub const PINNED_CODEC: &'static str = "Lucene103";

/// Doc-values type of one field.
#[derive(Debug, Clone, Copy, PartialEq, Eq, Hash, Structural)]
pub enum DocValuesKind {
    /// The field has no doc values.
    Absent,
    Numeric,
    Binary,
    Sorted,
    SortedNumeric,
    SortedSet,
}

impl DocValuesKind {
    /// The name of a type.
    pub open spec fn text(&self) -> Seq<char> {
        match self {
            DocValuesKind::Absent => "none"@,
            DocValuesKind::Numeric => "numeric"@,
            DocValuesKind::Binary => "binary"@,
            DocValuesKind::Sorted => "sorted"@,
            DocValuesKind::SortedNumeric => "sorted_numeric"@,
            DocValuesKind::SortedSet => "sorted_set"@,
        }
    }

    pub fn as_str(&self) -> (r: &'static str)
        ensures
            r@ == self.text(),
    {
        match self {
            DocValuesKind::Absent => "none",
            DocValuesKind::Numeric => "numeric",
            DocValuesKind::Binary => "binary",
            DocValuesKind::Sorted => "sorted",
            DocValuesKind::SortedNumeric => "sorted_numeric",
            DocValuesKind::SortedSet => "sorted_set",
        }
    }
}

/// A stored-field value; a double by its bits.
#[derive(Debug, Clone, PartialEq)]
pub enum StoredVal {
    Str(String),
    Bytes(Vec<u8>),
    I64(i64),
    F64(u64),
}

/// A field as the directory's own reader lists it.
#[derive(Debug)]
pub struct ListedField {
    pub name: String,
    pub number: u32,
    pub doc_values: DocValuesKind,
    pub indexed: bool,
    pub has_norms: bool,
    pub has_points: bool,
    pub attributes: Attributes,
}

/// One field of one segment.
#[derive(Debug)]
pub struct FieldMeta {
    pub name: String,
    pub number: u32,
    pub doc_values: DocValuesKind,
    /// True when the field has postings.
    pub indexed: bool,
    /// 0 none, 1 documents, 2 and frequencies, 3 and positions, 4 and
    /// offsets.
    pub index_options: u8,
    pub has_norms: bool,
    pub has_points: bool,
    pub has_vectors: bool,
    /// 0 when the field has no vectors.
    pub vector_dimension: u32,
    pub vector_encoding: u8,
    pub vector_similarity: u8,
    /// Doc-values skip index present; changes the layout of metadata
    /// entries.
    pub has_skip_index: bool,
    pub attributes: Attributes,
}

/// A field as mathematical values.
pub struct FieldMetaModel {
    pub name: Seq<char>,
    pub number: u32,
    pub doc_values: DocValuesKind,
    pub indexed: bool,
    pub index_options: u8,
    pub has_norms: bool,
    pub has_points: bool,
    pub has_vectors: bool,
    pub vector_dimension: u32,
    pub vector_encoding: u8,
    pub vector_similarity: u8,
    pub has_skip_index: bool,
    pub attributes: Seq<(Seq<char>, Seq<char>)>,
}

impl View for FieldMeta {
    type V = FieldMetaModel;

    open spec fn view(&self) -> FieldMetaModel {
        FieldMetaModel {
            name: self.name@,
            number: self.number,
            doc_values: self.doc_values,
            indexed: self.indexed,
            index_options: self.index_options,
            has_norms: self.has_norms,
            has_points: self.has_points,
            has_vectors: self.has_vectors,
            vector_dimension: self.vector_dimension,
            vector_encoding: self.vector_encoding,
            vector_similarity: self.vector_similarity,
            has_skip_index: self.has_skip_index,
            attributes: self.attributes@,
        }
    }
}

/// Fields as mathematical values.
pub open spec fn fields_view(fields: Seq<FieldMeta>) -> Seq<FieldMetaModel> {
    Seq::new(fields.len(), |i: int| fields[i]@)
}

/// One segment of a commit: its entry there joined with its segment info
/// and field infos.
#[derive(Debug)]
pub struct SegmentMeta {
    /// Position within the commit.
    pub ord: usize,
    /// Segment name, such as `_0`.
    pub name: String,
    /// Every file header of the segment repeats it.
    pub id: [u8; 16],
    pub codec: String,
    pub max_doc: i32,
    pub del_count: i32,
    /// Deletes generation, -1 for none; names the live-docs file.
    pub del_gen: i64,
    pub is_compound: bool,
    /// Files belonging to the segment, sorted.
    pub files: Vec<String>,
    pub fields: Vec<FieldMeta>,
}

impl SegmentMeta {
    /// The first field with a name.
    pub fn field(&self, name: &str) -> (r: Option<&FieldMeta>)
        ensures
            match r {
                Some(f) => exists|i: int|
                    0 <= i < self.fields@.len() && (#[trigger] self.fields@[i]) == *f && f.name@ == name@ && forall|
                        j: int,
                    |
                        0 <= j < i ==> (#[trigger] self.fields@[j]).name@ != name@,
                None => forall|j: int| 0 <= j < self.fields@.len() ==> (#[trigger] self.fields@[j]).name@ != name@,
            },
    {
        let mut i: usize = 0;
        while i < self.fields.len()
            invariant
                i <= self.fields@.len(),
                forall|j: int| 0 <= j < i ==> (#[trigger] self.fields@[j]).name@ != name@,
            decreases self.fields@.len() - i,
        {
            if same_text(self.fields[i].name.as_str(), name) {
                return Some(&self.fields[i]);
            }
            i = i + 1;
        }
        None
    }
}

/// The inventory of an opened segment directory.
#[derive(Debug)]
pub struct SegmentDirectory {
    path: String,
    generation: i64,
    segments: Vec<SegmentMeta>,
}

impl SegmentDirectory {
    /// The path of the directory.
    pub closed spec fn path_text(&self) -> Seq<char> {
        self.path@
    }

    /// The generation of the commit.
    pub closed spec fn commit(&self) -> i64 {
        self.generation
    }

    /// The segments of the commit.
    pub closed spec fn all(&self) -> Seq<SegmentMeta> {
        self.segments@
    }

    /// The inventory of a commit.
    pub fn new(path: String, generation: i64, segments: Vec<SegmentMeta>) -> (r: SegmentDirectory)
        ensures
            r.path_text() == path@,
            r.commit() == generation,
            r.all() == segments@,
    {
        SegmentDirectory { path, generation, segments }
    }

    pub fn path(&self) -> (r: &str)
        ensures
            r@ == self.path_text(),
    {
        self.path.as_str()
    }

    /// Generation of the commit that was opened.
    pub fn generation(&self) -> (r: i64)
        ensures
            r == self.commit(),
    {
        self.generation
    }

    /// Segments of the commit, in order.
    pub fn segments(&self) -> (r: &[SegmentMeta])
        ensures
            r@ == self.all(),
    {
        self.segments.as_slice()
    }

    /// The first segment with a name.
    pub fn segment(&self, name: &str) -> (r: Option<&SegmentMeta>)
        ensures
            match r {
                Some(s) => exists|i: int|
                    0 <= i < self.all().len() && (#[trigger] self.all()[i]) == *s && s.name@ == name@ && forall|j: int|
                        0 <= j < i ==> (#[trigger] self.all()[j]).name@ != name@,
                None => forall|j: int| 0 <= j < self.all().len() ==> (#[trigger] self.all()[j]).name@ != name@,
            },
    {
        let mut i: usize = 0;
        while i < self.segments.len()
            invariant
                i <= self.segments@.len(),
                self.segments@ == self.all(),
                forall|j: int| 0 <= j < i ==> (#[trigger] self.all()[j]).name@ != name@,
            decreases self.segments@.len() - i,
        {
            if same_text(self.segments[i].name.as_str(), name) {
                assert(self.all()[i as int].name@ == name@);
                return Some(&self.segments[i]);
            }
            i = i + 1;
        }
        None
    }

    /// Where a file of a segment is to be read: the segment, and whether out
    /// of its compound file; an invalid argument where the commit holds no
    /// such segment.
    pub fn locate_input(&self, segment: &str, file_name: &str) -> (r: Result<(&SegmentMeta, bool)>)
        ensures
            match r {
                Ok((s, compound)) => (exists|i: int|
                    0 <= i < self.all().len() && (#[trigger] self.all()[i]) == *s && s.name@ == segment@ && forall|j: int|
                        0 <= j < i ==> (#[trigger] self.all()[j]).name@ != segment@) && compound == (s.is_compound
                    && !outside_compound(file_name@)),
                Err(e) => e.kind() == ErrorKind::InvalidArgument && forall|j: int|
                    0 <= j < self.all().len() ==> (#[trigger] self.all()[j]).name@ != segment@,
            },
    {
        match self.segment(segment) {
            Some(s) => Ok((s, read_from_cfs(s, file_name))),
            None => Err(Error::invalid("no such segment in the commit")),
        }
    }
}

/// A segment's entry in a commit.
#[derive(Debug)]
pub struct CommitEntry {
    pub name: String,
    pub codec: String,
    pub del_count: i32,
    pub del_gen: i64,
}

/// What a segment info says.
#[derive(Debug)]
pub struct SegmentInfo {
    pub name: String,
    pub id: [u8; 16],
    pub max_doc: i32,
    pub is_compound: bool,
    pub files: Vec<String>,
}

/// Refuses every codec but the pinned one.
pub fn ensure_pinned_codec(segment: &str, codec: &str) -> (r: Result<()>)
    ensures
        r is Ok <==> codec@ == PINNED_CODEC@,
        r matches Err(e) ==> e.kind() == ErrorKind::Unsupported,
{
    if same_text(codec, PINNED_CODEC) {
        Ok(())
    } else {
        Err(Error::unsupported("segment uses a codec other than Lucene103"))
    }
}

/// A text that ends with another.
pub open spec fn text_ends_with(s: Seq<char>, t: Seq<char>) -> bool {
    t.len() <= s.len() && s.skip(s.len() - t.len()) == t
}

/// Whether a text ends with another.
pub fn ends_with(s: &str, t: &str) -> (r: bool)
    ensures
        r == text_ends_with(s@, t@),
{
    let n: usize = s.unicode_len();
    let k: usize = t.unicode_len();
    if k > n {
        return false;
    }
    let tail: &str = s.substring_char(n - k, n);
    assert(tail@ =~= s@.skip(s@.len() - t@.len()));
    same_text(tail, t)
}

/// A digit of a number in base 36, as names hold it.
pub open spec fn name_digit(c: char) -> bool {
    '0' <= c <= '9' || 'a' <= c <= 'z'
}

/// Where the digits that start at `from` end.
pub open spec fn digits_end(name: Seq<char>, from: nat) -> nat
    decreases name.len() - from,
{
    if from < name.len() && name_digit(name[from as int]) {
        digits_end(name, from + 1)
    } else {
        from
    }
}

/// Names that carry an update generation: behind the segment's name and an
/// underscore, a number in base 36 that an underscore or a dot ends.
pub open spec fn generation_named(name: Seq<char>) -> bool {
    let i = digits_end(name, 1);
    let j = digits_end(name, i + 1);
    &&& name.len() > 0 && name[0] == '_'
    &&& 1 < i < name.len() && name[i as int] == '_'
    &&& i + 1 < j < name.len() && (name[j as int] == '_' || name[j as int] == '.')
}

/// Files of a compound segment that live outside its compound file.
pub open spec fn outside_compound(name: Seq<char>) -> bool {
    text_ends_with(name, ".si"@) || text_ends_with(name, ".cfs"@) || text_ends_with(name, ".cfe"@) || text_ends_with(
        name,
        ".liv"@,
    ) || generation_named(name)
}

fn find_digits_end(name: &str, from: usize) -> (r: usize)
    requires
        from <= name@.len(),
    ensures
        r == digits_end(name@, from as nat),
        from <= r <= name@.len(),
{
    let n: usize = name.unicode_len();
    let mut i: usize = from;
    while i < n
        invariant_except_break
            digits_end(name@, i as nat) == digits_end(name@, from as nat),
        invariant
            from <= i <= n,
            n == name@.len(),
        ensures
            i == digits_end(name@, from as nat),
        decreases n - i,
    {
        let c: char = name.get_char(i);
        if !(('0' <= c && c <= '9') || ('a' <= c && c <= 'z')) {
            break;
        }
        i = i + 1;
    }
    i
}

/// Whether a name carries an update generation.
fn has_generation(name: &str) -> (r: bool)
    ensures
        r == generation_named(name@),
{
    let n: usize = name.unicode_len();
    if n == 0 || name.get_char(0) != '_' {
        return false;
    }
    let i: usize = find_digits_end(name, 1);
    if i <= 1 || i >= n || name.get_char(i) != '_' {
        return false;
    }
    let j: usize = find_digits_end(name, i + 1);
    if j <= i + 1 || j >= n {
        return false;
    }
    let c: char = name.get_char(j);
    c == '_' || c == '.'
}

/// Whether a file of a compound segment lives outside its compound file: the
/// compound pair itself, the segment info, and the generations of live
/// documents and of updates.
pub fn stored_outside_cfs(file_name: &str) -> (r: bool)
    ensures
        r == outside_compound(file_name@),
{
    ends_with(file_name, ".si") || ends_with(file_name, ".cfs") || ends_with(file_name, ".cfe") || ends_with(
        file_name,
        ".liv",
    ) || has_generation(file_name)
}

/// Whether a segment's file is read out of its compound file.
pub fn read_from_cfs(meta: &SegmentMeta, file_name: &str) -> (r: bool)
    ensures
        r == (meta.is_compound && !outside_compound(file_name@)),
{
    meta.is_compound && !stored_outside_cfs(file_name)
}

/// Whether documents of the segment were deleted.
pub open spec fn has_deletes(meta: &SegmentMeta) -> bool {
    meta.del_gen >= 0 && meta.del_count != 0
}

/// The live-docs file of a segment; none where nothing was deleted.
pub fn live_docs_file(meta: &SegmentMeta) -> (r: Option<String>)
    ensures
        match r {
            Some(name) => has_deletes(meta) && name@ == live_docs_name(meta.name@, meta.del_gen as nat),
            None => !has_deletes(meta),
        },
{
    if meta.del_gen < 0 || meta.del_count == 0 {
        None
    } else {
        Some(file_name(meta.name.as_str(), meta.del_gen))
    }
}

/// The live documents of a segment out of the bytes of its live-docs file;
/// none where nothing was deleted.
pub fn live_docs(meta: &SegmentMeta, bytes: &[u8]) -> (r: Result<Option<Vec<u64>>>)
    ensures
        !has_deletes(meta) ==> r == Ok::<Option<Vec<u64>>, Error>(None),
        has_deletes(meta) ==> match live_docs_words(
            bytes@,
            meta.max_doc as u32,
            meta.id@,
            meta.del_gen as nat,
            meta.del_count,
        ) {
            Ok(w) => r matches Ok(Some(v)) && v@ == w,
            Err(k) => r matches Err(e) && e.kind() == k,
        },
{
    if meta.del_gen < 0 || meta.del_count == 0 {
        return Ok(None);
    }
    let words: Vec<u64> = read_live_docs(bytes, meta.max_doc as u32, &meta.id, meta.del_gen, meta.del_count)?;
    Ok(Some(words))
}

/// Refuses documents that the segment does not have.
pub fn check_document(meta: &SegmentMeta, doc: u32) -> (r: Result<()>)
    ensures
        r is Ok <==> doc < meta.max_doc as u32,
        r matches Err(e) ==> e.kind() == ErrorKind::InvalidArgument,
{
    if doc >= meta.max_doc as u32 {
        Err(Error::invalid("document past max_doc"))
    } else {
        Ok(())
    }
}

/// Place `i` holds the first record with number `n`.
pub open spec fn first_with_number(own: Seq<FnmModel>, n: u32, i: int) -> bool {
    &&& 0 <= i < own.len()
    &&& own[i].number == n
    &&& forall|j: int| 0 <= j < i ==> (#[trigger] own[j]).number != n
}

/// Some record has number `n`.
pub open spec fn has_number(own: Seq<FnmModel>, n: u32) -> bool {
    exists|j: int| 0 <= j < own.len() && (#[trigger] own[j]).number == n
}

/// A listed field, completed by its record.
pub open spec fn joined_field(f: ListedField, own: FnmModel) -> FieldMetaModel {
    FieldMetaModel {
        name: f.name@,
        number: f.number,
        doc_values: f.doc_values,
        indexed: f.indexed,
        index_options: own.index_options,
        has_norms: f.has_norms,
        has_points: f.has_points,
        has_vectors: own.vector_dimension > 0,
        vector_dimension: own.vector_dimension,
        vector_encoding: own.vector_encoding,
        vector_similarity: own.vector_similarity,
        has_skip_index: own.doc_values_skip_index,
        attributes: f.attributes@,
    }
}

/// `x` placed behind every field whose number is not greater.
pub open spec fn placed(s: Seq<FieldMetaModel>, x: FieldMetaModel) -> Seq<FieldMetaModel>
    decreases s.len(),
{
    if s.len() == 0 || s.last().number <= x.number {
        s.push(x)
    } else {
        placed(s.drop_last(), x).push(s.last())
    }
}

/// Fields by number; those with one number stay in order.
pub open spec fn by_number(s: Seq<FieldMetaModel>) -> Seq<FieldMetaModel>
    decreases s.len(),
{
    if s.len() == 0 {
        Seq::empty()
    } else {
        placed(by_number(s.drop_last()), s.last())
    }
}

/// The listed fields with their records, in the order of the list.
pub open spec fn joined(listed: Seq<ListedField>, own: Seq<FnmModel>) -> Seq<FieldMetaModel> {
    Seq::new(
        listed.len(),
        |i: int| joined_field(listed[i], own[choose|k: int| first_with_number(own, listed[i].number, k)]),
    )
}

/// Every listed field has a record.
pub open spec fn all_recorded(listed: Seq<ListedField>, own: Seq<FnmModel>) -> bool {
    forall|i: int| 0 <= i < listed.len() ==> has_number(own, (#[trigger] listed[i]).number)
}

/// The first record with a number.
fn find_record(own: &[FnmField], number: u32) -> (r: Option<usize>)
    ensures
        match r {
            Some(i) => first_with_number(fields_model(own@), number, i as int),
            None => !has_number(fields_model(own@), number),
        },
{
    let ghost m = fields_model(own@);
    let mut i: usize = 0;
    while i < own.len()
        invariant
            i <= own@.len(),
            m == fields_model(own@),
            forall|j: int| 0 <= j < i ==> (#[trigger] m[j]).number != number,
        decreases own@.len() - i,
    {
        assert(m[i as int] == own@[i as int]@);
        if own[i].number == number {
            return Some(i);
        }
        i = i + 1;
    }
    None
}

/// Puts a field behind every one whose number is not greater.
fn place(fields: &mut Vec<FieldMeta>, field: FieldMeta)
    ensures
        fields_view(final(fields)@) == placed(fields_view(old(fields)@), field@),
{
    let ghost s = fields_view(fields@);
    let ghost x = field@;
    let mut i: usize = fields.len();
    while i > 0 && fields[i - 1].number > field.number
        invariant
            i <= fields@.len(),
            s == fields_view(fields@),
            x == field@,
            forall|j: int| i <= j < fields@.len() ==> (#[trigger] fields@[j]).number > x.number,
        decreases i,
    {
        i = i - 1;
    }
    proof {
        assert forall|j: int| i <= j < s.len() implies (#[trigger] s[j]).number > x.number by {
            assert(fields@[j].number > x.number);
        }
        lemma_placed(s, x, i as int);
    }
    fields.insert(i, field);
    assert(fields_view(fields@) =~= s.insert(i as int, x));
}

proof fn lemma_placed(s: Seq<FieldMetaModel>, x: FieldMetaModel, i: int)
    requires
        0 <= i <= s.len(),
        i > 0 ==> s[i - 1].number <= x.number,
        forall|j: int| i <= j < s.len() ==> (#[trigger] s[j]).number > x.number,
    ensures
        placed(s, x) == s.insert(i, x),
    decreases s.len(),
{
    if i == s.len() {
        assert(s.push(x) =~= s.insert(i, x));
    } else {
        assert(s.last() == s[s.len() - 1]);
        lemma_placed(s.drop_last(), x, i);
        assert(s.drop_last().insert(i, x).push(s.last()) =~= s.insert(i, x));
    }
}

/// Completes listed fields by their records and puts them in the order of
/// their numbers. A listed field without a record is corruption.
pub fn join_fields(listed: &[ListedField], own: &[FnmField]) -> (r: Result<Vec<FieldMeta>>)
    ensures
        all_recorded(listed@, fields_model(own@)) ==> (r matches Ok(v) && fields_view(v@) == by_number(joined(listed@, fields_model(own@)))),
        !all_recorded(listed@, fields_model(own@)) ==> (r matches Err(e) && e.kind() == ErrorKind::Corrupt),
{
    let ghost m = fields_model(own@);
    let mut fields: Vec<FieldMeta> = Vec::new();
    let ghost whole = joined(listed@, m);
    let mut i: usize = 0;
    assert(fields_view(fields@) =~= by_number(whole.take(0)));
    while i < listed.len()
        invariant
            i <= listed@.len(),
            m == fields_model(own@),
            whole == joined(listed@, m),
            fields_view(fields@) == by_number(whole.take(i as int)),
            forall|j: int| 0 <= j < i ==> has_number(m, (#[trigger] listed@[j]).number),
        decreases listed@.len() - i,
    {
        let f: &ListedField = &listed[i];
        let k: usize = match find_record(own, f.number) {
            Some(k) => k,
            None => {
                assert(!has_number(m, listed@[i as int].number));
                return Err(Error::corrupt("field listed without a record"));
            },
        };
        let rec: &FnmField = &own[k];
        assert(m[k as int] == rec@);
        let field: FieldMeta = FieldMeta {
            name: f.name.clone(),
            number: f.number,
            doc_values: f.doc_values,
            indexed: f.indexed,
            index_options: rec.index_options,
            has_norms: f.has_norms,
            has_points: f.has_points,
            has_vectors: rec.vector_dimension > 0,
            vector_dimension: rec.vector_dimension,
            vector_encoding: rec.vector_encoding,
            vector_similarity: rec.vector_similarity,
            has_skip_index: rec.doc_values_skip_index,
            attributes: f.attributes.duplicate(),
        };
        proof {
            let c = choose|c: int| first_with_number(m, f.number, c);
            assert(first_with_number(m, f.number, k as int));
            assert(c == k) by {
                if c < k {
                    assert(m[c].number == f.number);
                } else if k < c {
                    assert(m[k as int].number == f.number);
                }
            }
            assert(field@ == whole[i as int]);
            assert(whole.take(i + 1).drop_last() =~= whole.take(i as int));
            assert(has_number(m, f.number));
        }
        place(&mut fields, field);
        i = i + 1;
    }
    assert(whole.take(i as int) =~= whole);
    Ok(fields)
}

/// Fields put in order are in order of their numbers and are the same
/// fields.
pub proof fn law_fields_by_number(s: Seq<FieldMetaModel>)
    ensures
        by_number(s).to_multiset() == s.to_multiset(),
        forall|i: int, j: int|
            0 <= i <= j < by_number(s).len() ==> (#[trigger] by_number(s)[i]).number <= (#[trigger] by_number(
                s,
            )[j]).number,
    decreases s.len(),
{
    broadcast use vstd::seq_lib::group_to_multiset_ensures;

    if s.len() > 0 {
        law_fields_by_number(s.drop_last());
        lemma_placed_keeps(by_number(s.drop_last()), s.last());
        assert(s.drop_last().push(s.last()) =~= s);
    }
}

proof fn lemma_placed_keeps(s: Seq<FieldMetaModel>, x: FieldMetaModel)
    requires
        forall|i: int, j: int| 0 <= i <= j < s.len() ==> (#[trigger] s[i]).number <= (#[trigger] s[j]).number,
    ensures
        placed(s, x).to_multiset() == s.to_multiset().insert(x),
        placed(s, x).len() == s.len() + 1,
        placed(s, x).last().number == (if s.len() == 0 || s.last().number <= x.number {
            x.number
        } else {
            s.last().number
        }),
        forall|i: int, j: int|
            0 <= i <= j < placed(s, x).len() ==> (#[trigger] placed(s, x)[i]).number <= (#[trigger] placed(
                s,
                x,
            )[j]).number,
    decreases s.len(),
{
    broadcast use vstd::seq_lib::group_to_multiset_ensures;

    if s.len() == 0 || s.last().number <= x.number {
    } else {
        let t = s.drop_last();
        lemma_placed_keeps(t, x);
        assert(t.push(s.last()) =~= s);
        assert(placed(s, x).to_multiset() =~= s.to_multiset().insert(x));
        let p = placed(t, x);
        assert forall|i: int, j: int| 0 <= i <= j < placed(s, x).len() implies (#[trigger] placed(s, x)[i]).number <= (
        #[trigger] placed(s, x)[j]).number by {
            if j == p.len() {
                if i < j {
                    assert(p[i].number <= p[p.len() - 1].number);
                    assert(p.last().number <= s.last().number);
                }
            } else {
                assert(p[i].number <= p[j].number);
            }
        }
    }
}

/// The file that holds a segment's field infos.
pub fn field_infos_file(info: &SegmentInfo) -> (r: String)
    ensures
        r@ == info.name@ + ".fnm"@,
{
    let mut s: String = info.name.clone();
    s.append(".fnm");
    s
}

/// The fields of a segment, or why they cannot be told: another codec, field
/// infos that do not parse, a listed field without a record.
pub open spec fn segment_fields(entry: CommitEntry, listed: Seq<ListedField>, fnm: Seq<u8>) -> std::result::Result<
    Seq<FieldMetaModel>,
    ErrorKind,
> {
    if entry.codec@ != PINNED_CODEC@ {
        Err(ErrorKind::Unsupported)
    } else {
        match parse_fnm(fnm) {
            Err(k) => Err(k),
            Ok(own) => if all_recorded(listed, own) {
                Ok(by_number(joined(listed, own)))
            } else {
                Err(ErrorKind::Corrupt)
            },
        }
    }
}

/// Joins a segment's entry in the commit with its segment info and field
/// infos: `listed` as the directory's reader lists the fields, `fnm` the
/// bytes that say the rest.
pub fn assemble_segment(ord: usize, entry: CommitEntry, info: SegmentInfo, listed: &[ListedField], fnm: &[u8]) -> (r:
    Result<SegmentMeta>)
    ensures
        match segment_fields(entry, listed@, fnm@) {
            Err(k) => r matches Err(e) && e.kind() == k,
            Ok(fields) => r matches Ok(m) && {
                &&& m.ord == ord
                &&& m.name@ == info.name@
                &&& m.id == info.id
                &&& m.codec@ == entry.codec@
                &&& m.max_doc == info.max_doc
                &&& m.del_count == entry.del_count
                &&& m.del_gen == entry.del_gen
                &&& m.is_compound == info.is_compound
                &&& names_sorted(names(m.files@))
                &&& names(m.files@).to_multiset() == names(info.files@).to_multiset()
                &&& fields_view(m.fields@) == fields
            },
        },
{
    ensure_pinned_codec(entry.name.as_str(), entry.codec.as_str())?;
    let own: Vec<FnmField> = parse(fnm)?;
    let fields: Vec<FieldMeta> = join_fields(listed, own.as_slice())?;
    let files: Vec<String> = sort_names(info.files);
    Ok(
        SegmentMeta {
            ord,
            name: info.name,
            id: info.id,
            codec: entry.codec,
            max_doc: info.max_doc,
            del_count: entry.del_count,
            del_gen: entry.del_gen,
            is_compound: info.is_compound,
            files,
            fields,
        },
    )
}

/// Digits end where they end.
proof fn lemma_digits_end(name: Seq<char>, from: nat, to: nat)
    requires
        from <= to <= name.len(),
        forall|i: int| from <= i < to ==> name_digit(#[trigger] name[i]),
        to < name.len() ==> !name_digit(name[to as int]),
    ensures
        digits_end(name, from) == to,
    decreases to - from,
{
    if from < to {
        assert(name_digit(name[from as int]));
        lemma_digits_end(name, from + 1, to);
    }
}

/// A text of digits.
pub open spec fn digits_only(s: Seq<char>) -> bool {
    s.len() > 0 && forall|i: int| 0 <= i < s.len() ==> name_digit(#[trigger] s[i])
}

/// Files of a compound segment that were written later live outside of it:
/// those whose name has a generation behind the segment's. A segment's plain
/// files live inside, but for its info, the compound pair itself and live
/// documents.
pub proof fn law_outside_compound(number: Seq<char>, generation: Seq<char>, rest: Seq<char>, ending: Seq<char>)
    requires
        digits_only(number),
        digits_only(generation),
        rest.len() > 0,
        rest[0] == '_' || rest[0] == '.',
        digits_only(ending),
    ensures
        outside_compound(seq!['_'] + number + seq!['_'] + generation + rest),
        outside_compound(seq!['_'] + number + seq!['.'] + ending) <==> ending == seq!['s', 'i'] || ending == seq![
            'c',
            'f',
            's',
        ] || ending == seq!['c', 'f', 'e'] || ending == seq!['l', 'i', 'v'],
{
    let a = seq!['_'] + number + seq!['_'] + generation + rest;
    let i = 1 + number.len();
    let j = i + 1 + generation.len();
    assert forall|k: int| 1 <= k < i implies name_digit(#[trigger] a[k]) by {
        assert(a[k] == number[k - 1]);
    }
    assert(a[i as int] == '_');
    assert forall|k: int| i + 1 <= k < j implies name_digit(#[trigger] a[k]) by {
        assert(a[k] == generation[k - (i + 1)]);
    }
    assert(a[j as int] == rest[0]);
    lemma_digits_end(a, 1, i);
    lemma_digits_end(a, i + 1, j);
    let b = seq!['_'] + number + seq!['.'] + ending;
    assert forall|k: int| 1 <= k < i implies name_digit(#[trigger] b[k]) by {
        assert(b[k] == number[k - 1]);
    }
    assert(b[i as int] == '.');
    lemma_digits_end(b, 1, i);
    assert(!generation_named(b));
    assert(b.skip(i as int + 1) =~= ending);
    lemma_ending_of(b, i, ending, ".si"@, seq!['s', 'i']);
    lemma_ending_of(b, i, ending, ".cfs"@, seq!['c', 'f', 's']);
    lemma_ending_of(b, i, ending, ".cfe"@, seq!['c', 'f', 'e']);
    lemma_ending_of(b, i, ending, ".liv"@, seq!['l', 'i', 'v']);
}

/// A name with one dot ends in a dot and an extension where the extension is
/// its own.
proof fn lemma_ending_of(b: Seq<char>, i: nat, ending: Seq<char>, t: Seq<char>, e: Seq<char>)
    requires
        i + 1 + ending.len() == b.len(),
        b[i as int] == '.',
        b.skip(i as int + 1) == ending,
        digits_only(ending),
        digits_only(e),
        t == seq!['.'] + e || t == ".si"@ && e == seq!['s', 'i'] || t == ".cfs"@ && e == seq!['c', 'f', 's'] || t
            == ".cfe"@ && e == seq!['c', 'f', 'e'] || t == ".liv"@ && e == seq!['l', 'i', 'v'],
    ensures
        text_ends_with(b, t) <==> ending == e,
{
    reveal_strlit(".si");
    reveal_strlit(".cfs");
    reveal_strlit(".cfe");
    reveal_strlit(".liv");
    assert(t =~= seq!['.'] + e);
    if ending == e {
        assert(b.skip(b.len() - t.len()) =~= t);
    }
    if text_ends_with(b, t) {
        let k = b.len() - t.len();
        assert(b.skip(k)[0] == t[0]);
        assert(b[k] == '.');
        if k > i {
            assert(b[k] == b.skip(i as int + 1)[k - (i + 1)]);
            assert(name_digit(ending[k - (i + 1)]));
        }
        if k < i {
            assert(b.skip(k)[i - k] == t[i - k]);
            assert(name_digit(e[i - k - 1]));
        }
        if k == i {
            assert(ending =~= e) by {
                assert forall|x: int| 0 <= x < e.len() implies ending[x] == e[x] by {
                    assert(b.skip(k)[x + 1] == t[x + 1]);
                    assert(b.skip(i as int + 1)[x] == ending[x]);
                }
            }
        }
    }
}

/// A field of a segment is the listed field, completed by the first record
/// with its number: what the list says of it stays, and its postings,
/// vectors and skip index are those of the record.
pub proof fn law_fields_completed(listed: Seq<ListedField>, own: Seq<FnmModel>, i: int, k: int)
    requires
        0 <= i < listed.len(),
        0 <= k < own.len(),
        own[k].number == listed[i].number,
        forall|j: int| 0 <= j < k ==> (#[trigger] own[j]).number != listed[i].number,
    ensures
        joined(listed, own).len() == listed.len(),
        ({
            let f = joined(listed, own)[i];
            &&& f.name == listed[i].name@
            &&& f.number == listed[i].number
            &&& f.doc_values == listed[i].doc_values
            &&& f.indexed == listed[i].indexed
            &&& f.has_norms == listed[i].has_norms
            &&& f.has_points == listed[i].has_points
            &&& f.attributes == listed[i].attributes@
            &&& f.index_options == own[k].index_options
            &&& f.vector_dimension == own[k].vector_dimension
            &&& f.has_vectors <==> own[k].vector_dimension > 0
            &&& f.vector_encoding == own[k].vector_encoding
            &&& f.vector_similarity == own[k].vector_similarity
            &&& f.has_skip_index == own[k].doc_values_skip_index
        }),
{
    assert(first_with_number(own, listed[i].number, k));
    let c = choose|c: int| first_with_number(own, listed[i].number, c);
    if c < k {
        assert(own[c].number != listed[i].number);
    } else if k < c {
        assert(own[k].number != listed[i].number);
    }
}

} // verus!
