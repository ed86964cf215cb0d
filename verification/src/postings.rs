//! The postings relation: for one indexed field of a segment, one row per
//! term and document, with the frequency. Deleted documents are not left
//! out.

use vstd::prelude::*;
use crate::engine::{file_with_ending, find_file};
use crate::error::{Error, ErrorKind, Result};
use crate::scan::{batches_of, cut_batches, ranges_view};
use crate::segment::{FieldMeta, SegmentMeta};
use crate::text::same_text;

verus! {

/// The value of the relation key that asks for postings.
pub const RELATION: &'static str = "postings";

/// What the postings of a field hold beside documents.
#[derive(Debug, Clone, Copy, PartialEq, Eq, Structural)]
pub struct FieldTraits {
    pub has_freqs: bool,
    pub has_positions: bool,
    pub has_offsets: bool,
}

/// What an index-options byte says of the postings.
pub open spec fn traits_of(index_options: u8) -> FieldTraits {
    FieldTraits {
        has_freqs: index_options >= 2,
        has_positions: index_options >= 3,
        has_offsets: index_options >= 4,
    }
}

/// What the postings of a field hold.
pub fn field_traits(f: &FieldMeta) -> (r: FieldTraits)
    ensures
        r == traits_of(f.index_options),
{
    FieldTraits {
        has_freqs: f.index_options >= 2,
        has_positions: f.index_options >= 3,
        has_offsets: f.index_options >= 4,
    }
}

/// The first field from `i` on with a name.
pub open spec fn field_named(fields: Seq<FieldMeta>, name: Seq<char>, i: nat) -> Option<nat>
    decreases fields.len() - i,
{
    if i >= fields.len() {
        None
    } else if fields[i as int].name@ == name {
        Some(i)
    } else {
        field_named(fields, name, i + 1)
    }
}

/// The field of a segment whose postings are asked for: it must exist and be
/// indexed.
pub fn postings_field<'a>(seg: &'a SegmentMeta, name: &str) -> (r: Result<&'a FieldMeta>)
    ensures
        match field_named(seg.fields@, name@, 0) {
            Some(i) => if seg.fields@[i as int].indexed {
                r matches Ok(f) && *f == seg.fields@[i as int]
            } else {
                r matches Err(e) && e.kind() == ErrorKind::InvalidArgument
            },
            None => r matches Err(e) && e.kind() == ErrorKind::InvalidArgument,
        },
{
    let mut i: usize = 0;
    while i < seg.fields.len()
        invariant
            i <= seg.fields@.len(),
            field_named(seg.fields@, name@, 0) == field_named(seg.fields@, name@, i as nat),
        decreases seg.fields@.len() - i,
    {
        if same_text(seg.fields[i].name.as_str(), name) {
            let f: &FieldMeta = &seg.fields[i];
            if !f.indexed {
                return Err(Error::invalid("the field has no postings"));
            }
            return Ok(f);
        }
        i = i + 1;
    }
    Err(Error::invalid("field not found"))
}

/// Whether the field with a number has frequencies: the first with it
/// decides, none has none.
pub open spec fn freqs_of(fields: Seq<FieldMeta>, number: u32, i: nat) -> bool
    decreases fields.len() - i,
{
    if i >= fields.len() {
        false
    } else if fields[i as int].number == number {
        fields[i as int].index_options >= 2
    } else {
        freqs_of(fields, number, i + 1)
    }
}

/// Whether the field with a number has frequencies.
pub fn has_freqs(seg: &SegmentMeta, number: u32) -> (r: bool)
    ensures
        r == freqs_of(seg.fields@, number, 0),
{
    let mut i: usize = 0;
    while i < seg.fields.len()
        invariant
            i <= seg.fields@.len(),
            freqs_of(seg.fields@, number, 0) == freqs_of(seg.fields@, number, i as nat),
        decreases seg.fields@.len() - i,
    {
        if seg.fields[i].number == number {
            return seg.fields[i].index_options >= 2;
        }
        i = i + 1;
    }
    false
}

/// The place of a postings file among a segment's files.
pub fn postings_file(seg: &SegmentMeta, ending: &str) -> (r: Result<usize>)
    ensures
        match file_with_ending(seg.files@, ending@, 0) {
            Some(i) => r matches Ok(k) && k == i && k < seg.files@.len(),
            None => r matches Err(e) && e.kind() == ErrorKind::InvalidArgument,
        },
{
    match find_file(&seg.files, ending) {
        Some(i) => Ok(i),
        None => Err(Error::invalid("no such postings file in the segment")),
    }
}

/// The postings of a field: sorted terms, and for each row the place of its
/// term, its document and the frequency there.
#[derive(Debug)]
pub struct Postings {
    pub terms: Vec<Vec<u8>>,
    pub term_ords: Vec<u32>,
    pub docs: Vec<u32>,
    pub freqs: Vec<u32>,
}

/// Every row has a document and a frequency.
pub open spec fn rows_agree(p: Postings) -> bool {
    p.term_ords@.len() == p.docs@.len() && p.docs@.len() == p.freqs@.len()
}

/// A batch of rows: dictionary keys of the terms, documents, frequencies.
#[derive(Debug)]
pub struct PostingsBatch {
    pub keys: Vec<i32>,
    pub docs: Vec<u32>,
    pub freqs: Vec<u32>,
}

/// A batch holds rows `from .. from + len`.
pub open spec fn batch_is(b: PostingsBatch, p: Postings, from: nat, len: nat) -> bool {
    &&& b.keys@ == Seq::new(len, |i: int| p.term_ords@[from + i] as i32)
    &&& b.docs@ == p.docs@.subrange(from as int, (from + len) as int)
    &&& b.freqs@ == p.freqs@.subrange(from as int, (from + len) as int)
}

/// Every key of some rows is the place of a term.
pub open spec fn keys_valid(p: Postings) -> bool {
    forall|i: int| 0 <= i < p.term_ords@.len() ==> 0 <= ((#[trigger] p.term_ords@[i]) as i32) < p.terms@.len()
}

/// One batch of rows.
fn one_batch(p: &Postings, from: usize, len: usize) -> (r: Result<PostingsBatch>)
    requires
        rows_agree(*p),
        from + len <= p.docs@.len(),
    ensures
        match r {
            Ok(b) => batch_is(b, *p, from as nat, len as nat) && forall|i: int|
                from <= i < from + len ==> 0 <= ((#[trigger] p.term_ords@[i]) as i32) < p.terms@.len(),
            Err(e) => e.kind() == ErrorKind::Codec && exists|i: int|
                from <= i < from + len && !(0 <= ((#[trigger] p.term_ords@[i]) as i32) < p.terms@.len()),
        },
{
    let rows: usize = p.docs.len();
    let mut keys: Vec<i32> = Vec::new();
    let mut docs: Vec<u32> = Vec::new();
    let mut freqs: Vec<u32> = Vec::new();
    let mut i: usize = 0;
    while i < len
        invariant
            i <= len,
            rows_agree(*p),
            rows == p.docs@.len(),
            from + len <= rows,
            keys@.len() == i,
            docs@.len() == i,
            freqs@.len() == i,
            forall|k: int| 0 <= k < i ==> (#[trigger] keys@[k]) == p.term_ords@[from + k] as i32,
            forall|k: int| 0 <= k < i ==> (#[trigger] docs@[k]) == p.docs@[from + k],
            forall|k: int| 0 <= k < i ==> (#[trigger] freqs@[k]) == p.freqs@[from + k],
            forall|k: int| from <= k < from + i ==> 0 <= ((#[trigger] p.term_ords@[k]) as i32) < p.terms@.len(),
        decreases len - i,
    {
        let key: i32 = p.term_ords[from + i] as i32;
        if key < 0 || key as usize >= p.terms.len() {
            assert(!(0 <= ((p.term_ords@[from + i]) as i32) < p.terms@.len()));
            return Err(Error::Codec("dictionary key without a term".to_owned()));
        }
        keys.push(key);
        docs.push(p.docs[from + i]);
        freqs.push(p.freqs[from + i]);
        i = i + 1;
    }
    assert(keys@ =~= Seq::new(len as nat, |i: int| p.term_ords@[from + i] as i32));
    assert(docs@ =~= p.docs@.subrange(from as int, (from + len) as int));
    assert(freqs@ =~= p.freqs@.subrange(from as int, (from + len) as int));
    Ok(PostingsBatch { keys, docs, freqs })
}

/// Cuts the postings of a field into batches of `batch_rows` rows.
pub fn postings_batches(p: &Postings, batch_rows: u64) -> (r: Result<Vec<PostingsBatch>>)
    requires
        rows_agree(*p),
        batch_rows > 0,
    ensures
        keys_valid(*p) ==> (r matches Ok(v) && v@.len() == batches_of(p.docs@.len(), batch_rows as nat).len() && forall|
            i: int,
        |
            0 <= i < v@.len() ==> batch_is(
                #[trigger] v@[i],
                *p,
                batches_of(p.docs@.len(), batch_rows as nat)[i].0,
                batches_of(p.docs@.len(), batch_rows as nat)[i].1,
            )),
        !keys_valid(*p) ==> (r matches Err(e) && e.kind() == ErrorKind::Codec),
{
    let ranges: Vec<(usize, usize)> = cut_batches(p.docs.len(), batch_rows);
    let ghost b = batches_of(p.docs@.len(), batch_rows as nat);
    let mut out: Vec<PostingsBatch> = Vec::new();
    let mut i: usize = 0;
    assert(ranges_view(ranges@).len() == ranges@.len());
    while i < ranges.len()
        invariant
            i <= ranges@.len(),
            ranges@.len() == b.len(),
            batch_rows > 0,
            rows_agree(*p),
            b == batches_of(p.docs@.len(), batch_rows as nat),
            b == ranges_view(ranges@),
            out@.len() == i,
            forall|k: int| 0 <= k < i ==> batch_is(#[trigger] out@[k], *p, b[k].0, b[k].1),
            forall|k: int, j: int|
                0 <= k < i && (#[trigger] b[k]).0 <= j < b[k].0 + b[k].1 ==> 0 <= ((#[trigger] p.term_ords@[j]) as i32)
                    < p.terms@.len(),
        decreases ranges@.len() - i,
    {
        let (from, len): (usize, usize) = ranges[i];
        proof {
            assert(b[i as int] == (from as nat, len as nat));
            crate::scan::lemma_batch_step(p.docs@.len(), batch_rows as nat, i as nat);
        }
        let batch: PostingsBatch = one_batch(p, from, len)?;
        out.push(batch);
        i = i + 1;
    }
    proof {
        assert forall|j: int| 0 <= j < p.term_ords@.len() implies 0 <= ((#[trigger] p.term_ords@[j]) as i32)
            < p.terms@.len() by {
            crate::scan::law_batches_cover(p.docs@.len(), batch_rows as nat, j as nat);
            let k = (j as nat / batch_rows as nat) as int;
            assert(b[k].0 <= j < b[k].0 + b[k].1);
        }
    }
    Ok(out)
}

/// What postings hold grows with the index options: documents alone, then
/// frequencies, then positions, then offsets, one more with each step.
pub proof fn law_traits_nested(options: u8)
    requires
        1 <= options <= 4,
    ensures
        ({
            let t = traits_of(options);
            &&& t.has_offsets ==> t.has_positions
            &&& t.has_positions ==> t.has_freqs
            &&& options == 1 + (if t.has_freqs {
                1int
            } else {
                0
            }) + (if t.has_positions {
                1int
            } else {
                0
            }) + (if t.has_offsets {
                1int
            } else {
                0
            })
        }),
{
}

/// The first field with a name has it, and none before it.
pub proof fn law_field_named(fields: Seq<FieldMeta>, name: Seq<char>, i: nat)
    ensures
        match field_named(fields, name, i) {
            Some(j) => i <= j < fields.len() && fields[j as int].name@ == name && forall|k: int|
                i <= k < j ==> (#[trigger] fields[k]).name@ != name,
            None => forall|k: int| i <= k < fields.len() ==> (#[trigger] fields[k]).name@ != name,
        },
    decreases fields.len() - i,
{
    if i < fields.len() && fields[i as int].name@ != name {
        law_field_named(fields, name, i + 1);
    }
}

/// The field with a number has frequencies as its own options say.
pub proof fn law_freqs_of(fields: Seq<FieldMeta>, number: u32, i: nat, j: int)
    requires
        i <= j < fields.len(),
        fields[j].number == number,
        forall|k: int| i <= k < j ==> (#[trigger] fields[k]).number != number,
    ensures
        freqs_of(fields, number, i) == traits_of(fields[j].index_options).has_freqs,
    decreases j - i,
{
    if i < j {
        law_freqs_of(fields, number, i + 1, j);
    }
}

/// Batches hold the rows of the postings: row `row` is in its batch with the
/// term, the document and the frequency that it has.
pub proof fn law_row_in_batch(p: Postings, batches: Seq<PostingsBatch>, batch_rows: u64, row: nat)
    requires
        rows_agree(p),
        keys_valid(p),
        batch_rows > 0,
        row < p.docs@.len(),
        batches.len() == batches_of(p.docs@.len(), batch_rows as nat).len(),
        forall|i: int|
            0 <= i < batches.len() ==> batch_is(
                #[trigger] batches[i],
                p,
                batches_of(p.docs@.len(), batch_rows as nat)[i].0,
                batches_of(p.docs@.len(), batch_rows as nat)[i].1,
            ),
    ensures
        ({
            let i = (row / batch_rows as nat) as int;
            let k = (row % batch_rows as nat) as int;
            &&& 0 <= i < batches.len()
            &&& k < batches[i].keys@.len()
            &&& batches[i].keys@.len() == batches[i].docs@.len()
            &&& batches[i].keys@.len() == batches[i].freqs@.len()
            &&& batches[i].keys@[k] == p.term_ords@[row as int]
            &&& batches[i].docs@[k] == p.docs@[row as int]
            &&& batches[i].freqs@[k] == p.freqs@[row as int]
        }),
{
    let per = batch_rows as nat;
    let i = (row / per) as int;
    crate::scan::law_batches_cover(p.docs@.len(), per, row);
    vstd::arithmetic::div_mod::lemma_fundamental_div_mod(row as int, per as int);
    vstd::arithmetic::div_mod::lemma_mod_bound(row as int, per as int);
    let b = batches_of(p.docs@.len(), per)[i];
    assert(b.0 == per * i);
    assert(batch_is(batches[i], p, b.0, b.1));
    let ord = p.term_ords@[row as int];
    assert(0 <= (ord as i32));
    assert(0 <= (ord as i32) ==> ord as i32 == ord) by (bit_vector);
    let k = (row % per) as int;
    assert(b.0 + k == row);
    assert(batches[i].keys@[k] == p.term_ords@[b.0 + k] as i32);
}

} // verus!
