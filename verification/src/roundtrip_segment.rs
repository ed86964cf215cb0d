//! A whole segment of a write job reads back: its field infos describe its
//! fields to the planner, and a scan by name finds the values.

use vstd::prelude::*;
use vstd::utf8::encode_utf8;
use crate::cursor::with_footer;
use crate::engine::{dv_kind_of, planner_fields};
use crate::error::ErrorKind;
use crate::fnm::FnmModel;
use crate::plan::FieldIdModel;
use crate::read::{doc_values_plans, find_field, DvKind, FieldModel};
use crate::roundtrip_fnm::{field_record, field_writable, law_fnm_round_trip};
use crate::roundtrip_session::{
    all_described, all_small, described, describes, law_session_scanned, names_differ, plan_holds_buffer, scanned_plan,
    session_readable,
};
use crate::segment::{
    all_recorded, by_number, fields_view, first_with_number, has_number, joined, placed, segment_fields,
    CommitEntry, DocValuesKind, FieldMeta, FieldMetaModel, ListedField, PINNED_CODEC,
};
use crate::session::{all_readable, doc_values_files, entries_for, entry_for, session_valid, SessionModel};
use crate::writer::{fnm_body, EntryModel};

verus! {

/// The doc-values type that a doc-values byte of the field infos stands for.
pub open spec fn kind_of_byte(b: u8) -> DocValuesKind {
    if b == 1 {
        DocValuesKind::Numeric
    } else if b == 2 {
        DocValuesKind::Binary
    } else if b == 3 {
        DocValuesKind::Sorted
    } else if b == 4 {
        DocValuesKind::SortedSet
    } else if b == 5 {
        DocValuesKind::SortedNumeric
    } else {
        DocValuesKind::Absent
    }
}

/// A directory's reader lists the fields of the field infos as they stand
/// there.
pub open spec fn lists_entries(listed: Seq<ListedField>, e: Seq<EntryModel>) -> bool {
    &&& listed.len() == e.len()
    &&& forall|i: int|
        0 <= i < e.len() ==> {
            &&& (#[trigger] listed[i]).name@ == e[i].name
            &&& listed[i].number == e[i].number
            &&& listed[i].doc_values == kind_of_byte(e[i].doc_values_type)
        }
}

/// Fields in the order of their numbers stay where they are.
proof fn lemma_already_ordered(s: Seq<FieldMetaModel>)
    requires
        forall|i: int| 0 <= i < s.len() ==> (#[trigger] s[i]).number == i,
    ensures
        by_number(s) == s,
    decreases s.len(),
{
    if s.len() > 0 {
        let t = s.drop_last();
        lemma_already_ordered(t);
        if t.len() > 0 {
            assert(t.last().number == t.len() - 1);
        }
        assert(placed(t, s.last()) == t.push(s.last()));
        assert(t.push(s.last()) =~= s);
    } else {
        assert(by_number(s) =~= s);
    }
}

/// The records of a session's fields.
pub open spec fn records(m: SessionModel) -> Seq<FnmModel> {
    Seq::new(m.fields.len(), |i: int| field_record(entries_for(m.fields)[i]))
}

/// The joined fields of a session: numbered by their places, with the types
/// they were written with.
proof fn lemma_joined_fields(m: SessionModel, listed: Seq<ListedField>)
    requires
        m.fields.len() <= i32::MAX,
        lists_entries(listed, entries_for(m.fields)),
    ensures
        all_recorded(listed, records(m)),
        joined(listed, records(m)).len() == m.fields.len(),
        forall|i: int|
            0 <= i < m.fields.len() ==> {
                &&& (#[trigger] joined(listed, records(m))[i]).number == i
                &&& joined(listed, records(m))[i].name == m.fields[i].name
                &&& joined(listed, records(m))[i].doc_values == kind_of_byte(m.fields[i].coercion.dv_byte())
                &&& !joined(listed, records(m))[i].has_skip_index
            },
{
    let own = records(m);
    let e = entries_for(m.fields);
    assert forall|i: int| 0 <= i < own.len() implies (#[trigger] own[i]).number == i by {
        assert(e[i] == entry_for(i, m.fields[i]));
    }
    assert forall|i: int| 0 <= i < listed.len() implies has_number(own, (#[trigger] listed[i]).number) && first_with_number(
        own,
        listed[i].number,
        i,
    ) by {
        assert(e[i] == entry_for(i, m.fields[i]));
        assert(own[i].number == i);
    }
    assert forall|i: int| 0 <= i < m.fields.len() implies {
        &&& (#[trigger] joined(listed, own)[i]).number == i
        &&& joined(listed, own)[i].name == m.fields[i].name
        &&& joined(listed, own)[i].doc_values == kind_of_byte(m.fields[i].coercion.dv_byte())
        &&& !joined(listed, own)[i].has_skip_index
    } by {
        assert(has_number(own, listed[i].number));
        let c = choose|c: int| first_with_number(own, listed[i].number, c);
        assert(first_with_number(own, listed[i].number, i));
        assert(first_with_number(own, listed[i].number, c));
        assert(own[c].number == c);
        assert(c == i);
        assert(e[i] == entry_for(i, m.fields[i]));
    }
}

/// One more planner field.
proof fn lemma_find_push(s: Seq<FieldModel>, x: FieldModel, number: i32)
    ensures
        find_field(s.push(x), number) == (match find_field(s, number) {
            Some(i) => Some(i),
            None => if x.id.number == number {
                Some(s.len() as int)
            } else {
                None
            },
        }),
        find_field(s, number) matches Some(i) ==> 0 <= i < s.len(),
    decreases s.len(),
{
    reveal_with_fuel(find_field, 2);
    let t = s.push(x);
    if s.len() > 0 {
        assert(t[0] == s[0]);
        assert(t.drop_first() =~= s.drop_first().push(x));
        lemma_find_push(s.drop_first(), x, number);
    } else {
        assert(t[0] == x);
        assert(t.drop_first() =~= Seq::<FieldModel>::empty());
    }
}

/// The planner's fields, where the fields are numbered by their places: each
/// doc-values field is found under its number, and no number past the end
/// is.
proof fn lemma_planner_finds(fields: Seq<FieldMeta>, n: nat, k: int)
    requires
        n <= fields.len() <= i32::MAX,
        0 <= k < fields.len(),
        forall|i: int| 0 <= i < fields.len() ==> (#[trigger] fields[i]).number == i,
    ensures
        match dv_kind_of(fields[k].doc_values) {
            Some(kind) if k < n => find_field(planner_fields(fields, n), k as i32) matches Some(j) && 0 <= j
                < planner_fields(fields, n).len() && planner_fields(fields, n)[j] == (FieldModel {
                id: FieldIdModel { number: k as i32, name: fields[k].name@ },
                kind,
                has_skip_index: fields[k].has_skip_index,
            }),
            _ => find_field(planner_fields(fields, n), k as i32) is None,
        },
    decreases n,
{
    if n > 0 {
        lemma_planner_finds(fields, (n - 1) as nat, k);
        let before = planner_fields(fields, (n - 1) as nat);
        let f = fields[n - 1];
        assert(f.number == n - 1);
        if let Some(kind) = dv_kind_of(f.doc_values) {
            let x = FieldModel {
                id: FieldIdModel { number: f.number as i32, name: f.name@ },
                kind,
                has_skip_index: f.has_skip_index,
            };
            lemma_find_push(before, x, k as i32);
            assert(before.push(x)[before.len() as int] == x);
        }
    }
}

/// A buffer's field has the doc-values type of its coercion.
proof fn lemma_buffer_kind(m: SessionModel, k: int)
    requires
        session_valid(m),
        0 <= k < m.buffers.len(),
    ensures
        !(m.buffers[k] is Vectors) ==> dv_kind_of(kind_of_byte(m.fields[k].coercion.dv_byte())) is Some,
        m.buffers[k] is Numeric ==> dv_kind_of(kind_of_byte(m.fields[k].coercion.dv_byte())) == Some(DvKind::Numeric),
{
    assert(crate::buffer::cleared(m.buffers[k]) == crate::buffer::empty_buffer(m.fields[k].coercion));
}

/// The field infos that a session writes, read back and joined with a
/// listing of them, describe every doc-values field of the session to the
/// planner.
pub proof fn law_session_described(
    m: SessionModel,
    id: Seq<u8>,
    entry: CommitEntry,
    listed: Seq<ListedField>,
    fields: Seq<FieldMeta>,
)
    requires
        session_valid(m),
        m.fields.len() <= i32::MAX,
        id.len() == 16,
        forall|i: int| 0 <= i < m.fields.len() ==> encode_utf8((#[trigger] m.fields[i]).name).len() <= i32::MAX,
        entry.codec@ == PINNED_CODEC@,
        lists_entries(listed, entries_for(m.fields)),
    ensures
        segment_fields(entry, listed, with_footer(fnm_body(entries_for(m.fields), id))) is Ok,
        Ok::<Seq<FieldMetaModel>, ErrorKind>(fields_view(fields)) == segment_fields(
            entry,
            listed,
            with_footer(fnm_body(entries_for(m.fields), id)),
        ) ==> all_described(planner_fields(fields, fields.len()), m),
{
    let e = entries_for(m.fields);
    assert forall|i: int| 0 <= i < e.len() implies field_writable(#[trigger] e[i]) by {
        assert(e[i] == entry_for(i, m.fields[i]));
        assert(encode_utf8(m.fields[i].name).len() <= i32::MAX);
    }
    law_fnm_round_trip(e, id);
    assert(Seq::new(e.len(), |i: int| field_record(e[i])) =~= records(m));
    lemma_joined_fields(m, listed);
    let j = joined(listed, records(m));
    lemma_already_ordered(j);
    if fields_view(fields) == j {
        assert(fields.len() == j.len());
        assert forall|i: int| 0 <= i < fields.len() implies (#[trigger] fields[i]).number == i && fields[i].name@
            == m.fields[i].name && fields[i].doc_values == kind_of_byte(m.fields[i].coercion.dv_byte())
            && !fields[i].has_skip_index by {
            assert(fields_view(fields)[i] == fields[i]@);
            assert(j[i].number == i);
        }
        let p = planner_fields(fields, fields.len());
        assert forall|k: int| 0 <= k < m.buffers.len() && !((#[trigger] m.buffers[k]) is Vectors) implies described(
            p,
            m.buffers[k],
            k as i32,
            m.fields[k].name,
        ) by {
            assert(fields[k].number == k);
            lemma_buffer_kind(m, k);
            lemma_planner_finds(fields, fields.len(), k);
            let at = find_field(p, k as i32)->0;
            assert(describes(p[at], m.buffers[k], k as i32, m.fields[k].name));
        }
    }
}

/// A segment of a write job, opened and scanned: its field infos parse and
/// join, its doc values plan, and the column of each field decodes by a plan
/// that holds exactly what went in for that field.
pub proof fn law_segment_reads_back(
    m: SessionModel,
    id: Seq<u8>,
    entry: CommitEntry,
    listed: Seq<ListedField>,
    fields: Seq<FieldMeta>,
    file: Seq<char>,
    k: int,
)
    requires
        session_valid(m),
        m.fields.len() <= i32::MAX,
        id.len() == 16,
        all_readable(m.buffers),
        all_small(m, id),
        names_differ(m),
        forall|i: int| 0 <= i < m.fields.len() ==> encode_utf8((#[trigger] m.fields[i]).name).len() <= i32::MAX,
        entry.codec@ == PINNED_CODEC@,
        lists_entries(listed, entries_for(m.fields)),
        Ok::<Seq<FieldMetaModel>, ErrorKind>(fields_view(fields)) == segment_fields(
            entry,
            listed,
            with_footer(fnm_body(entries_for(m.fields), id)),
        ),
        0 <= k < m.buffers.len(),
        !(m.buffers[k] is Vectors),
    ensures
        ({
            let (dvm, dvd) = doc_values_files(m, id);
            match doc_values_plans(dvm, dvd, planner_fields(fields, fields.len()), m.docs, file) {
                Ok(plans) => match scanned_plan(plans, m.fields[k].name) {
                    Some(p) => plan_holds_buffer(
                        p,
                        m.buffers[k],
                        dvd,
                        FieldIdModel { number: k as i32, name: m.fields[k].name },
                        m.docs as nat,
                    ),
                    None => false,
                },
                Err(_) => false,
            }
        }),
{
    law_session_described(m, id, entry, listed, fields);
    let p = planner_fields(fields, fields.len());
    assert(session_readable(m, id, p));
    law_session_scanned(m, id, p, file, k);
}

} // verus!
