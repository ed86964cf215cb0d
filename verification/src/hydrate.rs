//! Stored columns for explicit rows. Stored values carry their type one by
//! one; a column gets its type from its first value, and a value of another
//! type is refused.

use vstd::prelude::*;
use crate::bytes::copy_of;
use crate::error::{Error, ErrorKind, Result};
use crate::meta::{COL_DOC, COL_SEG};
use crate::request::HydrateRequest;
use crate::segment::{FieldMeta, SegmentMeta, StoredVal};
use crate::text::same_text;

verus! {

/// A stored value as mathematical values.
pub enum StoredModel {
    Str(Seq<char>),
    Bytes(Seq<u8>),
    I64(i64),
    F64(u64),
}

impl View for StoredVal {
    type V = StoredModel;

    open spec fn view(&self) -> StoredModel {
        match self {
            StoredVal::Str(s) => StoredModel::Str(s@),
            StoredVal::Bytes(b) => StoredModel::Bytes(b@),
            StoredVal::I64(v) => StoredModel::I64(*v),
            StoredVal::F64(v) => StoredModel::F64(*v),
        }
    }
}

/// The types of stored values.
#[derive(Debug, Clone, Copy, PartialEq, Eq, Structural)]
pub enum StoredKind {
    Str,
    Bytes,
    I64,
    F64,
}

pub open spec fn kind_of(v: StoredModel) -> StoredKind {
    match v {
        StoredModel::Str(_) => StoredKind::Str,
        StoredModel::Bytes(_) => StoredKind::Bytes,
        StoredModel::I64(_) => StoredKind::I64,
        StoredModel::F64(_) => StoredKind::F64,
    }
}

fn stored_kind(v: &StoredVal) -> (r: StoredKind)
    ensures
        r == kind_of(v@),
{
    match v {
        StoredVal::Str(_) => StoredKind::Str,
        StoredVal::Bytes(_) => StoredKind::Bytes,
        StoredVal::I64(_) => StoredKind::I64,
        StoredVal::F64(_) => StoredKind::F64,
    }
}

/// The places among the first `n` pairs that name a segment.
pub open spec fn places_of(pairs: Seq<(u32, u32)>, seg: u32, n: nat) -> Seq<usize>
    decreases n,
{
    if n == 0 {
        Seq::empty()
    } else {
        let before = places_of(pairs, seg, (n - 1) as nat);
        if pairs[n - 1].0 == seg {
            before.push((n - 1) as usize)
        } else {
            before
        }
    }
}

/// Groups of the first `n` pairs: by ascending segment, each with the places
/// of its pairs in order; every pair is in one.
pub open spec fn groups_are(g: Seq<(u32, Vec<usize>)>, pairs: Seq<(u32, u32)>, n: nat) -> bool {
    &&& forall|i: int, j: int| 0 <= i < j < g.len() ==> (#[trigger] g[i]).0 < (#[trigger] g[j]).0
    &&& forall|i: int| 0 <= i < g.len() ==> (#[trigger] g[i]).1@ == places_of(pairs, g[i].0, n) && g[i].1@.len() > 0
    &&& forall|k: int| 0 <= k < n ==> exists|i: int| 0 <= i < g.len() && (#[trigger] g[i]).0 == (#[trigger] pairs[k]).0
}

/// Groups pairs by segment, so that each segment is read once.
pub fn group_pairs(pairs: &Vec<(u32, u32)>) -> (r: Vec<(u32, Vec<usize>)>)
    ensures
        groups_are(r@, pairs@, pairs@.len()),
{
    let mut groups: Vec<(u32, Vec<usize>)> = Vec::new();
    let mut n: usize = 0;
    while n < pairs.len()
        invariant
            n <= pairs@.len(),
            groups_are(groups@, pairs@, n as nat),
        decreases pairs@.len() - n,
    {
        add_pair(&mut groups, pairs, n);
        n = n + 1;
    }
    groups
}

/// A segment without pairs has no places.
proof fn lemma_no_places(pairs: Seq<(u32, u32)>, seg: u32, n: nat)
    requires
        n <= pairs.len(),
        forall|k: int| 0 <= k < n ==> (#[trigger] pairs[k]).0 != seg,
    ensures
        places_of(pairs, seg, n) == Seq::<usize>::empty(),
    decreases n,
{
    if n > 0 {
        lemma_no_places(pairs, seg, (n - 1) as nat);
    }
}

/// Puts pair `n` into its group.
fn add_pair(groups: &mut Vec<(u32, Vec<usize>)>, pairs: &Vec<(u32, u32)>, n: usize)
    requires
        n < pairs@.len(),
        groups_are(old(groups)@, pairs@, n as nat),
    ensures
        groups_are(final(groups)@, pairs@, (n + 1) as nat),
{
    let seg: u32 = pairs[n].0;
    let ghost g0 = groups@;
    let mut p: usize = 0;
    while p < groups.len() && groups[p].0 < seg
        invariant
            p <= groups@.len(),
            groups@ == g0,
            forall|i: int| 0 <= i < p ==> (#[trigger] g0[i]).0 < seg,
        decreases groups@.len() - p,
    {
        p = p + 1;
    }
    if p < groups.len() && groups[p].0 == seg {
        groups[p].1.push(n);
        proof {
            let g = groups@;
            assert(g[p as int].1@ =~= places_of(pairs@, seg, (n + 1) as nat));
            assert forall|k: int| 0 <= k < n + 1 implies exists|i: int|
                0 <= i < g.len() && (#[trigger] g[i]).0 == (#[trigger] pairs@[k]).0 by {
                if k < n {
                    let i = choose|i: int| 0 <= i < g0.len() && (#[trigger] g0[i]).0 == pairs@[k].0;
                    assert(g[i].0 == pairs@[k].0);
                } else {
                    assert(g[p as int].0 == pairs@[k].0);
                }
            }
        }
    } else {
        let mut places: Vec<usize> = Vec::new();
        places.push(n);
        let ghost added = (seg, places);
        groups.insert(p, (seg, places));
        proof {
            let g = groups@;
            assert(g == g0.insert(p as int, added));
            assert forall|k: int| 0 <= k < n implies (#[trigger] pairs@[k]).0 != seg by {
                let i = choose|i: int| 0 <= i < g0.len() && (#[trigger] g0[i]).0 == pairs@[k].0;
                if i > p {
                    assert(g0[p as int].0 < g0[i].0);
                }
            }
            lemma_no_places(pairs@, seg, n as nat);
            assert(places@ =~= places_of(pairs@, seg, (n + 1) as nat));
            assert forall|i: int, j: int| 0 <= i < j < g.len() implies (#[trigger] g[i]).0 < (#[trigger] g[j]).0 by {
                if j < p {
                    assert(g[i] == g0[i] && g[j] == g0[j]);
                } else if j == p {
                    assert(g[i] == g0[i]);
                } else {
                    assert(g[j] == g0[j - 1]);
                    if i < p {
                        assert(g[i] == g0[i]);
                    } else if i == p {
                        assert(!(g0[p as int].0 < seg) && g0[p as int].0 != seg);
                        if j - 1 > p {
                            assert(g0[p as int].0 < g0[j - 1].0);
                        }
                    } else {
                        assert(g[i] == g0[i - 1]);
                    }
                }
            }
            assert forall|i: int| 0 <= i < g.len() implies (#[trigger] g[i]).1@ == places_of(
                pairs@,
                g[i].0,
                (n + 1) as nat,
            ) && g[i].1@.len() > 0 by {
                if i < p {
                    assert(g[i] == g0[i]);
                } else if i > p {
                    assert(g[i] == g0[i - 1]);
                    assert(g0[p as int].0 <= g0[i - 1].0);
                }
            }
            assert forall|k: int| 0 <= k < n + 1 implies exists|i: int|
                0 <= i < g.len() && (#[trigger] g[i]).0 == (#[trigger] pairs@[k]).0 by {
                if k < n {
                    let i = choose|i: int| 0 <= i < g0.len() && (#[trigger] g0[i]).0 == pairs@[k].0;
                    if i < p {
                        assert(g[i].0 == pairs@[k].0);
                    } else {
                        assert(g[i + 1].0 == pairs@[k].0);
                    }
                } else {
                    assert(g[p as int].0 == pairs@[k].0);
                }
            }
        }
    }
}

/// The documents that a group's pairs ask for.
pub fn group_docs(pairs: &Vec<(u32, u32)>, places: &Vec<usize>) -> (r: Vec<u32>)
    requires
        forall|i: int| 0 <= i < places@.len() ==> (#[trigger] places@[i]) < pairs@.len(),
    ensures
        r@ == Seq::new(places@.len(), |i: int| pairs@[places@[i] as int].1),
{
    let mut r: Vec<u32> = Vec::new();
    let mut i: usize = 0;
    while i < places.len()
        invariant
            i <= places@.len(),
            forall|k: int| 0 <= k < places@.len() ==> (#[trigger] places@[k]) < pairs@.len(),
            r@.len() == i,
            forall|k: int| 0 <= k < i ==> (#[trigger] r@[k]) == pairs@[places@[k] as int].1,
        decreases places@.len() - i,
    {
        r.push(pairs[places[i]].1);
        i = i + 1;
    }
    assert(r@ =~= Seq::new(places@.len(), |i: int| pairs@[places@[i] as int].1));
    r
}

/// The segment with an ordinal.
pub fn segment_at<'a>(segments: &'a [SegmentMeta], ord: u32) -> (r: Result<&'a SegmentMeta>)
    ensures
        ord < segments@.len() ==> (r matches Ok(s) && *s == segments@[ord as int]),
        ord >= segments@.len() ==> (r matches Err(e) && e.kind() == ErrorKind::InvalidArgument),
{
    if (ord as usize) < segments.len() {
        Ok(&segments[ord as usize])
    } else {
        Err(Error::invalid("no segment with this ordinal"))
    }
}

/// The name of the first field from `i` on with a number.
pub open spec fn name_of(fields: Seq<FieldMeta>, number: u32, i: nat) -> Option<Seq<char>>
    decreases fields.len() - i,
{
    if i >= fields.len() {
        None
    } else if fields[i as int].number == number {
        Some(fields[i as int].name@)
    } else {
        name_of(fields, number, i + 1)
    }
}

/// Whether the field with a number has a name.
fn is_named(fields: &Vec<FieldMeta>, number: u32, name: &str) -> (r: bool)
    ensures
        r == (name_of(fields@, number, 0) == Some(name@)),
{
    let mut i: usize = 0;
    while i < fields.len()
        invariant
            i <= fields@.len(),
            name_of(fields@, number, 0) == name_of(fields@, number, i as nat),
        decreases fields@.len() - i,
    {
        if fields[i].number == number {
            return same_text(fields[i].name.as_str(), name);
        }
        i = i + 1;
    }
    false
}

/// The last of the first `n` stored values whose field has a name.
pub open spec fn value_named(fields: Seq<FieldMeta>, values: Seq<(u32, StoredVal)>, name: Seq<char>, n: nat) -> Option<
    StoredModel,
>
    decreases n,
{
    if n == 0 {
        None
    } else if name_of(fields, values[n - 1].0, 0) == Some(name) {
        Some(values[n - 1].1@)
    } else {
        value_named(fields, values, name, (n - 1) as nat)
    }
}

/// A stored value, if there is one.
pub open spec fn stored_view(v: Option<&StoredVal>) -> Option<StoredModel> {
    match v {
        Some(x) => Some(x@),
        None => None,
    }
}

/// Finds the last stored value whose field has a name.
fn find_value<'a>(fields: &Vec<FieldMeta>, values: &'a Vec<(u32, StoredVal)>, name: &str) -> (r: Option<&'a StoredVal>)
    ensures
        stored_view(r) == value_named(fields@, values@, name@, values@.len()),
{
    let mut n: usize = values.len();
    while n > 0
        invariant
            n <= values@.len(),
            value_named(fields@, values@, name@, values@.len()) == value_named(fields@, values@, name@, n as nat),
        decreases n,
    {
        if is_named(fields, values[n - 1].0, name) {
            return Some(&values[n - 1].1);
        }
        n = n - 1;
    }
    None
}

/// The cells of a stored column: for each row, what its document stores
/// under the column's name.
pub open spec fn stored_cells(
    pairs: Seq<(u32, u32)>,
    segments: Seq<SegmentMeta>,
    stored: Seq<Vec<(u32, StoredVal)>>,
    name: Seq<char>,
) -> Seq<Option<StoredModel>> {
    Seq::new(
        pairs.len(),
        |i: int| value_named(segments[pairs[i].0 as int].fields@, stored[i]@, name, stored[i]@.len()),
    )
}

/// The type of the first `n` cells: that of the first value, which all
/// others must share.
pub open spec fn cells_kind(cells: Seq<Option<StoredModel>>, n: nat) -> std::result::Result<Option<StoredKind>, ErrorKind>
    decreases n,
{
    if n == 0 {
        Ok(None)
    } else {
        match cells_kind(cells, (n - 1) as nat) {
            Err(k) => Err(k),
            Ok(kind) => match (kind, cells[n - 1]) {
                (kind, None) => Ok(kind),
                (None, Some(v)) => Ok(Some(kind_of(v))),
                (Some(k), Some(v)) => if kind_of(v) == k {
                    Ok(Some(k))
                } else {
                    Err(ErrorKind::InvalidArgument)
                },
            },
        }
    }
}

/// The values of a stored column.
#[derive(Debug)]
pub enum StoredColumn {
    /// No row has a value: a column of null texts.
    Null(usize),
    Str(Vec<Option<String>>),
    Bytes(Vec<Option<Vec<u8>>>),
    I64(Vec<Option<i64>>),
    F64(Vec<Option<u64>>),
}

/// The cells of a column.
pub open spec fn column_cells(c: StoredColumn) -> Seq<Option<StoredModel>> {
    match c {
        StoredColumn::Null(n) => Seq::new(n as nat, |i: int| None),
        StoredColumn::Str(v) => Seq::new(
            v@.len(),
            |i: int|
                match v@[i] {
                    Some(x) => Some(StoredModel::Str(x@)),
                    None => None,
                },
        ),
        StoredColumn::Bytes(v) => Seq::new(
            v@.len(),
            |i: int|
                match v@[i] {
                    Some(x) => Some(StoredModel::Bytes(x@)),
                    None => None,
                },
        ),
        StoredColumn::I64(v) => Seq::new(
            v@.len(),
            |i: int|
                match v@[i] {
                    Some(x) => Some(StoredModel::I64(x)),
                    None => None,
                },
        ),
        StoredColumn::F64(v) => Seq::new(
            v@.len(),
            |i: int|
                match v@[i] {
                    Some(x) => Some(StoredModel::F64(x)),
                    None => None,
                },
        ),
    }
}

/// The type of a column.
pub open spec fn column_kind(c: StoredColumn) -> Option<StoredKind> {
    match c {
        StoredColumn::Null(_) => None,
        StoredColumn::Str(_) => Some(StoredKind::Str),
        StoredColumn::Bytes(_) => Some(StoredKind::Bytes),
        StoredColumn::I64(_) => Some(StoredKind::I64),
        StoredColumn::F64(_) => Some(StoredKind::F64),
    }
}

/// A failure stays one.
proof fn lemma_kind_stops(cells: Seq<Option<StoredModel>>, i: nat, n: nat)
    requires
        i <= n,
        cells_kind(cells, i) is Err,
    ensures
        cells_kind(cells, n) == cells_kind(cells, i),
    decreases n,
{
    if i < n {
        lemma_kind_stops(cells, i, (n - 1) as nat);
    }
}

/// An empty column of a type, behind `n` null rows.
fn start_column(kind: StoredKind, n: usize) -> (r: StoredColumn)
    ensures
        column_kind(r) == Some(kind),
        column_cells(r) == Seq::new(n as nat, |i: int| None::<StoredModel>),
{
    let mut r: StoredColumn = match kind {
        StoredKind::Str => StoredColumn::Str(Vec::new()),
        StoredKind::Bytes => StoredColumn::Bytes(Vec::new()),
        StoredKind::I64 => StoredColumn::I64(Vec::new()),
        StoredKind::F64 => StoredColumn::F64(Vec::new()),
    };
    let mut i: usize = 0;
    assert(column_cells(r) =~= Seq::new(0, |i: int| None::<StoredModel>));
    while i < n
        invariant
            i <= n,
            column_kind(r) == Some(kind),
            column_cells(r) == Seq::new(i as nat, |i: int| None::<StoredModel>),
        decreases n - i,
    {
        append_null(&mut r);
        i = i + 1;
        assert(column_cells(r) =~= Seq::new(i as nat, |i: int| None::<StoredModel>));
    }
    r
}

/// Appends a null row.
fn append_null(c: &mut StoredColumn)
    requires
        *old(c) is Null ==> (*old(c))->Null_0 < usize::MAX,
    ensures
        column_kind(*final(c)) == column_kind(*old(c)),
        column_cells(*final(c)) == column_cells(*old(c)).push(None),
{
    let ghost before = column_cells(*c);
    match c {
        StoredColumn::Null(n) => {
            *n = *n + 1;
        },
        StoredColumn::Str(v) => v.push(None),
        StoredColumn::Bytes(v) => v.push(None),
        StoredColumn::I64(v) => v.push(None),
        StoredColumn::F64(v) => v.push(None),
    }
    assert(column_cells(*c) =~= before.push(None));
}

/// Appends a value of the column's type.
fn append_value(c: &mut StoredColumn, v: &StoredVal) -> (r: bool)
    ensures
        r == (column_kind(*old(c)) == Some(kind_of(v@))),
        r ==> column_kind(*final(c)) == column_kind(*old(c)) && column_cells(*final(c)) == column_cells(*old(c)).push(
            Some(v@),
        ),
{
    let ghost before = column_cells(*c);
    let fits: bool = match (&mut *c, v) {
        (StoredColumn::Str(b), StoredVal::Str(s)) => {
            b.push(Some(s.clone()));
            true
        },
        (StoredColumn::Bytes(b), StoredVal::Bytes(x)) => {
            b.push(Some(copy_of(x.as_slice())));
            true
        },
        (StoredColumn::I64(b), StoredVal::I64(x)) => {
            b.push(Some(*x));
            true
        },
        (StoredColumn::F64(b), StoredVal::F64(x)) => {
            b.push(Some(*x));
            true
        },
        _ => false,
    };
    if fits {
        assert(column_cells(*c) =~= before.push(Some(v@)));
    }
    fits
}

/// Builds a stored column.
fn build_column(
    pairs: &Vec<(u32, u32)>,
    segments: &[SegmentMeta],
    stored: &Vec<Vec<(u32, StoredVal)>>,
    name: &str,
) -> (r: Result<StoredColumn>)
    requires
        stored@.len() == pairs@.len(),
        forall|i: int| 0 <= i < pairs@.len() ==> (#[trigger] pairs@[i]).0 < segments@.len(),
    ensures
        ({
            let cells = stored_cells(pairs@, segments@, stored@, name@);
            match cells_kind(cells, cells.len()) {
                Ok(kind) => r matches Ok(c) && column_kind(c) == kind && column_cells(c) == cells,
                Err(k) => r matches Err(e) && e.kind() == k,
            }
        }),
{
    let ghost cells = stored_cells(pairs@, segments@, stored@, name@);
    let mut column: StoredColumn = StoredColumn::Null(0);
    let mut i: usize = 0;
    assert(column_cells(column) =~= cells.take(0));
    while i < pairs.len()
        invariant
            i <= pairs@.len(),
            stored@.len() == pairs@.len(),
            forall|k: int| 0 <= k < pairs@.len() ==> (#[trigger] pairs@[k]).0 < segments@.len(),
            cells == stored_cells(pairs@, segments@, stored@, name@),
            column_cells(column) == cells.take(i as int),
            cells_kind(cells, i as nat) == Ok::<Option<StoredKind>, ErrorKind>(column_kind(column)),
        decreases pairs@.len() - i,
    {
        let seg: &SegmentMeta = &segments[pairs[i].0 as usize];
        let ghost before = column_cells(column);
        match find_value(&seg.fields, &stored[i], name) {
            None => {
                assert(column is Null ==> column->Null_0 == before.len());
                append_null(&mut column);
                assert(cells.take(i + 1) =~= before.push(None));
            },
            Some(v) => {
                let promoted: Option<usize> = match &column {
                    StoredColumn::Null(n) => Some(*n),
                    _ => None,
                };
                match promoted {
                    Some(n) => {
                        column = start_column(stored_kind(v), n);
                        assert(column_cells(column) =~= before);
                    },
                    None => {},
                }
                if !append_value(&mut column, v) {
                    proof {
                        lemma_kind_stops(cells, (i + 1) as nat, cells.len());
                    }
                    return Err(Error::invalid("a column mixes stored types"));
                }
                assert(cells.take(i + 1) =~= before.push(Some(v@)));
            },
        }
        i = i + 1;
    }
    assert(cells.take(i as int) =~= cells);
    Ok(column)
}

/// One hydrated column.
#[derive(Debug)]
pub struct HydratedField {
    pub name: String,
    pub nullable: bool,
    pub values: StoredColumn,
}

/// Hydrated rows, in the order of the request's pairs.
#[derive(Debug)]
pub struct HydratedBatch {
    pub segs: Vec<i32>,
    pub docs: Vec<i32>,
    pub columns: Vec<HydratedField>,
}

/// Whether a hydrated column may hold nulls: all may but those named like
/// the row address.
pub open spec fn may_be_null(name: Seq<char>) -> bool {
    name != COL_SEG@ && name != COL_DOC@
}

/// Some cell has no value.
pub open spec fn has_null(cells: Seq<Option<StoredModel>>) -> bool {
    exists|i: int| 0 <= i < cells.len() && (#[trigger] cells[i]) is None
}

/// Every pair names a segment.
pub open spec fn pairs_valid(pairs: Seq<(u32, u32)>, segments: Seq<SegmentMeta>) -> bool {
    forall|i: int| 0 <= i < pairs.len() ==> (#[trigger] pairs[i]).0 < segments.len()
}

/// Column `j` of a request mixes types.
pub open spec fn column_mixes(request: HydrateRequest, segments: Seq<SegmentMeta>, stored: Seq<Vec<(u32, StoredVal)>>, j: int) -> bool {
    let cells = stored_cells(request.pairs@, segments, stored, request.columns@[j]@);
    cells_kind(cells, cells.len()) is Err
}

/// Column `j` of a request is null where it must not be.
pub open spec fn column_lacks(request: HydrateRequest, segments: Seq<SegmentMeta>, stored: Seq<Vec<(u32, StoredVal)>>, j: int) -> bool {
    !may_be_null(request.columns@[j]@) && has_null(
        stored_cells(request.pairs@, segments, stored, request.columns@[j]@),
    )
}

/// A hydrated column is what the request's column `j` asks for.
pub open spec fn column_hydrated(
    f: HydratedField,
    request: HydrateRequest,
    segments: Seq<SegmentMeta>,
    stored: Seq<Vec<(u32, StoredVal)>>,
    j: int,
) -> bool {
    let cells = stored_cells(request.pairs@, segments, stored, request.columns@[j]@);
    &&& f.name@ == request.columns@[j]@
    &&& f.nullable == may_be_null(f.name@)
    &&& cells_kind(cells, cells.len()) == Ok::<Option<StoredKind>, ErrorKind>(column_kind(f.values))
    &&& column_cells(f.values) == cells
}

/// Whether a column has a row without a value.
fn lacks_value(c: &StoredColumn) -> (r: bool)
    ensures
        r == has_null(column_cells(*c)),
{
    let ghost cells = column_cells(*c);
    match c {
        StoredColumn::Null(n) => {
            if *n > 0 {
                assert(cells[0] is None);
                true
            } else {
                false
            }
        },
        StoredColumn::Str(v) => {
            let mut i: usize = 0;
            while i < v.len()
                invariant
                    i <= v@.len(),
                    cells == column_cells(*c),
                    *c == StoredColumn::Str(*v),
                    forall|k: int| 0 <= k < i ==> (#[trigger] cells[k]) is Some,
                decreases v@.len() - i,
            {
                if v[i].is_none() {
                    assert(cells[i as int] is None);
                    return true;
                }
                i = i + 1;
            }
            false
        },
        StoredColumn::Bytes(v) => {
            let mut i: usize = 0;
            while i < v.len()
                invariant
                    i <= v@.len(),
                    cells == column_cells(*c),
                    *c == StoredColumn::Bytes(*v),
                    forall|k: int| 0 <= k < i ==> (#[trigger] cells[k]) is Some,
                decreases v@.len() - i,
            {
                if v[i].is_none() {
                    assert(cells[i as int] is None);
                    return true;
                }
                i = i + 1;
            }
            false
        },
        StoredColumn::I64(v) => {
            let mut i: usize = 0;
            while i < v.len()
                invariant
                    i <= v@.len(),
                    cells == column_cells(*c),
                    *c == StoredColumn::I64(*v),
                    forall|k: int| 0 <= k < i ==> (#[trigger] cells[k]) is Some,
                decreases v@.len() - i,
            {
                if v[i].is_none() {
                    assert(cells[i as int] is None);
                    return true;
                }
                i = i + 1;
            }
            false
        },
        StoredColumn::F64(v) => {
            let mut i: usize = 0;
            while i < v.len()
                invariant
                    i <= v@.len(),
                    cells == column_cells(*c),
                    *c == StoredColumn::F64(*v),
                    forall|k: int| 0 <= k < i ==> (#[trigger] cells[k]) is Some,
                decreases v@.len() - i,
            {
                if v[i].is_none() {
                    assert(cells[i as int] is None);
                    return true;
                }
                i = i + 1;
            }
            false
        },
    }
}

/// Whether every pair names a segment.
fn check_pairs(pairs: &Vec<(u32, u32)>, segments: &[SegmentMeta]) -> (r: bool)
    ensures
        r == pairs_valid(pairs@, segments@),
{
    let mut i: usize = 0;
    while i < pairs.len()
        invariant
            i <= pairs@.len(),
            forall|k: int| 0 <= k < i ==> (#[trigger] pairs@[k]).0 < segments@.len(),
        decreases pairs@.len() - i,
    {
        if pairs[i].0 as usize >= segments.len() {
            assert(!(pairs@[i as int].0 < segments@.len()));
            return false;
        }
        i = i + 1;
    }
    true
}

/// The row address as columns.
fn address_columns(pairs: &Vec<(u32, u32)>) -> (r: (Vec<i32>, Vec<i32>))
    ensures
        r.0@ == Seq::new(pairs@.len(), |i: int| pairs@[i].0 as i32),
        r.1@ == Seq::new(pairs@.len(), |i: int| pairs@[i].1 as i32),
{
    let mut segs: Vec<i32> = Vec::new();
    let mut docs: Vec<i32> = Vec::new();
    let mut i: usize = 0;
    while i < pairs.len()
        invariant
            i <= pairs@.len(),
            segs@.len() == i,
            docs@.len() == i,
            forall|k: int| 0 <= k < i ==> (#[trigger] segs@[k]) == pairs@[k].0 as i32,
            forall|k: int| 0 <= k < i ==> (#[trigger] docs@[k]) == pairs@[k].1 as i32,
        decreases pairs@.len() - i,
    {
        segs.push(pairs[i].0 as i32);
        docs.push(pairs[i].1 as i32);
        i = i + 1;
    }
    assert(segs@ =~= Seq::new(pairs@.len(), |i: int| pairs@[i].0 as i32));
    assert(docs@ =~= Seq::new(pairs@.len(), |i: int| pairs@[i].1 as i32));
    (segs, docs)
}

/// Turns the stored values of the requested rows, one list per pair, into
/// columns. Pairs without a segment and columns of mixed types are invalid
/// arguments; a column named like the row address must have no nulls.
pub fn hydrate(request: &HydrateRequest, segments: &[SegmentMeta], stored: &Vec<Vec<(u32, StoredVal)>>) -> (r: Result<
    HydratedBatch,
>)
    requires
        stored@.len() == request.pairs@.len(),
    ensures
        ({
            let n = request.columns@.len();
            let mixed = exists|j: int| 0 <= j < n && #[trigger] column_mixes(*request, segments@, stored@, j);
            let lacking = exists|j: int| 0 <= j < n && #[trigger] column_lacks(*request, segments@, stored@, j);
            if !pairs_valid(request.pairs@, segments@) || mixed {
                r matches Err(e) && e.kind() == ErrorKind::InvalidArgument
            } else if lacking {
                r matches Err(e) && e.kind() == ErrorKind::Arrow
            } else {
                r matches Ok(b) && {
                    &&& b.segs@ == Seq::new(request.pairs@.len(), |i: int| request.pairs@[i].0 as i32)
                    &&& b.docs@ == Seq::new(request.pairs@.len(), |i: int| request.pairs@[i].1 as i32)
                    &&& b.columns@.len() == n
                    &&& forall|j: int|
                        0 <= j < n ==> column_hydrated(#[trigger] b.columns@[j], *request, segments@, stored@, j)
                }
            }
        }),
{
    if !check_pairs(&request.pairs, segments) {
        return Err(Error::invalid("no segment with this ordinal"));
    }
    let (segs, docs): (Vec<i32>, Vec<i32>) = address_columns(&request.pairs);
    let mut columns: Vec<HydratedField> = Vec::new();
    let mut lacking: bool = false;
    let mut j: usize = 0;
    while j < request.columns.len()
        invariant
            j <= request.columns@.len(),
            stored@.len() == request.pairs@.len(),
            pairs_valid(request.pairs@, segments@),
            columns@.len() == j,
            forall|k: int| 0 <= k < j ==> column_hydrated(#[trigger] columns@[k], *request, segments@, stored@, k),
            forall|k: int| 0 <= k < j ==> !(#[trigger] column_mixes(*request, segments@, stored@, k)),
            lacking == exists|k: int| 0 <= k < j && #[trigger] column_lacks(*request, segments@, stored@, k),
        decreases request.columns@.len() - j,
    {
        let name: &str = request.columns[j].as_str();
        let values: StoredColumn = match build_column(&request.pairs, segments, stored, name) {
            Ok(c) => c,
            Err(e) => {
                proof {
                    assert(column_mixes(*request, segments@, stored@, j as int));
                    lemma_kind_error(stored_cells(request.pairs@, segments@, stored@, name@), request.pairs@.len());
                }
                return Err(e);
            },
        };
        assert(!column_mixes(*request, segments@, stored@, j as int));
        let nullable: bool = !same_text(name, COL_SEG) && !same_text(name, COL_DOC);
        let lacks: bool = !nullable && lacks_value(&values);
        assert(lacks == column_lacks(*request, segments@, stored@, j as int));
        if lacks {
            lacking = true;
        }
        columns.push(HydratedField { name: request.columns[j].clone(), nullable, values });
        assert(column_hydrated(columns@[j as int], *request, segments@, stored@, j as int));
        j = j + 1;
    }
    if lacking {
        return Err(Error::Arrow("a column that must not be null lacks values".to_owned()));
    }
    Ok(HydratedBatch { segs, docs, columns })
}

/// Mixed types are an invalid argument.
proof fn lemma_kind_error(cells: Seq<Option<StoredModel>>, n: nat)
    ensures
        cells_kind(cells, n) matches Err(k) ==> k == ErrorKind::InvalidArgument,
    decreases n,
{
    if n > 0 {
        lemma_kind_error(cells, (n - 1) as nat);
    }
}

/// A segment's places are exactly those of the pairs that name it, in order.
pub proof fn law_places(pairs: Seq<(u32, u32)>, seg: u32, n: nat, k: usize)
    requires
        n <= pairs.len() <= usize::MAX,
    ensures
        places_of(pairs, seg, n).contains(k) <==> k < n && pairs[k as int].0 == seg,
        forall|i: int, j: int|
            0 <= i < j < places_of(pairs, seg, n).len() ==> (#[trigger] places_of(pairs, seg, n)[i]) < (
            #[trigger] places_of(pairs, seg, n)[j]),
        forall|i: int| 0 <= i < places_of(pairs, seg, n).len() ==> (#[trigger] places_of(pairs, seg, n)[i]) < n,
    decreases n,
{
    if n > 0 {
        let before = places_of(pairs, seg, (n - 1) as nat);
        let all = places_of(pairs, seg, n);
        law_places(pairs, seg, (n - 1) as nat, k);
        if pairs[n - 1].0 == seg {
            assert(all[all.len() - 1] == n - 1);
            if before.contains(k) {
                let i = choose|i: int| 0 <= i < before.len() && before[i] == k;
                assert(all[i] == k);
            }
            if all.contains(k) && k != n - 1 {
                let i = choose|i: int| 0 <= i < all.len() && all[i] == k;
                assert(before[i] == k);
            }
        }
    }
}

/// A field's name is that of the first field with its number.
proof fn lemma_name_of(fields: Seq<FieldMeta>, number: u32, i: nat)
    ensures
        match name_of(fields, number, i) {
            Some(s) => exists|j: int|
                i <= j < fields.len() && #[trigger] fields[j].number == number && fields[j].name@ == s && forall|k: int|
                    i <= k < j ==> (#[trigger] fields[k]).number != number,
            None => forall|k: int| i <= k < fields.len() ==> (#[trigger] fields[k]).number != number,
        },
    decreases fields.len() - i,
{
    if i < fields.len() && fields[i as int].number != number {
        lemma_name_of(fields, number, i + 1);
    }
}

/// Field `j` has a number and a name, and is the first with that number.
pub open spec fn first_with_number(fields: Seq<FieldMeta>, number: u32, name: Seq<char>, j: int) -> bool {
    &&& 0 <= j < fields.len()
    &&& fields[j].number == number
    &&& fields[j].name@ == name
    &&& forall|k: int| 0 <= k < j ==> (#[trigger] fields[k]).number != number
}

/// A stored value belongs to a named field.
pub open spec fn belongs_to(fields: Seq<FieldMeta>, number: u32, name: Seq<char>) -> bool {
    exists|j: int| #[trigger] first_with_number(fields, number, name, j)
}

proof fn lemma_belongs(fields: Seq<FieldMeta>, number: u32, name: Seq<char>)
    ensures
        belongs_to(fields, number, name) <==> name_of(fields, number, 0) == Some(name),
{
    lemma_name_of(fields, number, 0);
    if name_of(fields, number, 0) == Some(name) {
        let j = choose|j: int|
            0 <= j < fields.len() && #[trigger] fields[j].number == number && fields[j].name@ == name && forall|k: int|
                0 <= k < j ==> (#[trigger] fields[k]).number != number;
        assert(first_with_number(fields, number, name, j));
    }
    if belongs_to(fields, number, name) {
        let j = choose|j: int| #[trigger] first_with_number(fields, number, name, j);
        assert(fields[j].number == number);
        let s = name_of(fields, number, 0)->0;
        let i = choose|i: int|
            0 <= i < fields.len() && #[trigger] fields[i].number == number && fields[i].name@ == s && forall|k: int|
                0 <= k < i ==> (#[trigger] fields[k]).number != number;
        assert(i == j);
    }
}

/// A hydrated cell is the last value that the row's own document stores under
/// the column's name, in the row's own segment; it is null where there is
/// none.
pub proof fn law_cell_hydrated(
    pairs: Seq<(u32, u32)>,
    segments: Seq<SegmentMeta>,
    stored: Seq<Vec<(u32, StoredVal)>>,
    name: Seq<char>,
    row: int,
)
    requires
        0 <= row < pairs.len(),
        stored.len() == pairs.len(),
    ensures
        stored_cells(pairs, segments, stored, name).len() == pairs.len(),
        ({
            let fields = segments[pairs[row].0 as int].fields@;
            let values = stored[row]@;
            match stored_cells(pairs, segments, stored, name)[row] {
                Some(v) => exists|i: int|
                    0 <= i < values.len() && (#[trigger] values[i]).1@ == v && belongs_to(fields, values[i].0, name)
                        && forall|k: int| i < k < values.len() ==> !belongs_to(fields, (#[trigger] values[k]).0, name),
                None => forall|k: int| 0 <= k < values.len() ==> !belongs_to(fields, (#[trigger] values[k]).0, name),
            }
        }),
{
    let fields = segments[pairs[row].0 as int].fields@;
    lemma_value_named(fields, stored[row]@, name, stored[row]@.len());
}

proof fn lemma_value_named(fields: Seq<FieldMeta>, values: Seq<(u32, StoredVal)>, name: Seq<char>, n: nat)
    requires
        n <= values.len(),
    ensures
        match value_named(fields, values, name, n) {
            Some(v) => exists|i: int|
                0 <= i < n && (#[trigger] values[i]).1@ == v && belongs_to(fields, values[i].0, name) && forall|k: int|
                    i < k < n ==> !belongs_to(fields, (#[trigger] values[k]).0, name),
            None => forall|k: int| 0 <= k < n ==> !belongs_to(fields, (#[trigger] values[k]).0, name),
        },
    decreases n,
{
    if n > 0 {
        let m = (n - 1) as nat;
        lemma_belongs(fields, values[m as int].0, name);
        if name_of(fields, values[m as int].0, 0) != Some(name) {
            lemma_value_named(fields, values, name, m);
            if value_named(fields, values, name, m) is Some {
                let v = value_named(fields, values, name, m)->0;
                let i = choose|i: int|
                    0 <= i < m && (#[trigger] values[i]).1@ == v && belongs_to(fields, values[i].0, name) && forall|
                        k: int,
                    |
                        i < k < m ==> !belongs_to(fields, (#[trigger] values[k]).0, name);
                assert(values[i].1@ == v);
                assert forall|k: int| i < k < n implies !belongs_to(fields, (#[trigger] values[k]).0, name) by {}
            }
        } else {
            assert(values[m as int].1@ == value_named(fields, values, name, n)->0);
        }
    }
}

/// A column has the one type that all its values share, and none where it
/// has no value; it is refused where two values differ in type.
pub proof fn law_one_type(cells: Seq<Option<StoredModel>>, n: nat)
    requires
        n <= cells.len(),
    ensures
        match cells_kind(cells, n) {
            Ok(None) => forall|i: int| 0 <= i < n ==> (#[trigger] cells[i]) is None,
            Ok(Some(k)) => (exists|i: int| 0 <= i < n && (#[trigger] cells[i]) is Some) && forall|i: int|
                0 <= i < n && (#[trigger] cells[i]) is Some ==> kind_of(cells[i]->0) == k,
            Err(k) => k == ErrorKind::InvalidArgument && exists|i: int, j: int|
                0 <= i < j < n && (#[trigger] cells[i]) is Some && (#[trigger] cells[j]) is Some && kind_of(cells[i]->0)
                    != kind_of(cells[j]->0),
        },
    decreases n,
{
    if n > 0 {
        let m = (n - 1) as nat;
        law_one_type(cells, m);
        if cells_kind(cells, m) is Err {
            let (i, j) = choose|i: int, j: int|
                0 <= i < j < m && (#[trigger] cells[i]) is Some && (#[trigger] cells[j]) is Some && kind_of(
                    cells[i]->0,
                ) != kind_of(cells[j]->0);
            assert(cells[i] is Some && cells[j] is Some);
        } else if cells[m as int] is Some {
            if cells_kind(cells, m)->Ok_0 is Some {
                let i = choose|i: int| 0 <= i < m && (#[trigger] cells[i]) is Some;
                assert(cells[i] is Some && cells[m as int] is Some);
            }
        } else if cells_kind(cells, m)->Ok_0 is Some {
            let i = choose|i: int| 0 <= i < m && (#[trigger] cells[i]) is Some;
            assert(cells[i] is Some);
        }
    }
}

/// A hydrated column that is said to hold no null holds none, and only the
/// two columns of the row address are said so.
pub proof fn law_nulls_as_declared(
    f: HydratedField,
    request: HydrateRequest,
    segments: Seq<SegmentMeta>,
    stored: Seq<Vec<(u32, StoredVal)>>,
    j: int,
    i: int,
)
    requires
        column_hydrated(f, request, segments, stored, j),
        !column_lacks(request, segments, stored, j),
        0 <= i < column_cells(f.values).len(),
    ensures
        !f.nullable ==> column_cells(f.values)[i] is Some,
        f.nullable <==> request.columns@[j]@ != "_seg"@ && request.columns@[j]@ != "_doc"@,
{
    reveal_strlit("_seg");
    reveal_strlit("_doc");
}

} // verus!
