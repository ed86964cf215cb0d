//! Segments read back as the rows of a write job went into them.

use vstd::prelude::*;
use vstd::utf8::is_ascii_chars_encode_utf8;
use crate::buffer::{buffer_valid, BufferModel};
use crate::bytes::le_i32;
use crate::column::{binary_column, sorted_column};
use crate::consts;
use crate::cursor::{law_footer_round_trip, lemma_stands_split, stands_at, SEGMENT_ID_LENGTH};
use crate::disi::disi_bytes;
use crate::encode::{
    addresses_meta, binary_addresses, binary_data, flat, joined, law_in_order, list_addresses, list_lengths,
    lists_data, multi_valued, needs_addresses, ordered_lists, ordinals, recorded_greatest, recorded_least,
    set_dictionary, set_head, set_lists_meta, set_multi, set_ordinals, sorted_set_meta,
};
use crate::engine::{binary_named, multi_named, numeric_named, sorted_named};
use crate::error::ErrorKind;
use crate::lexicon::dictionary_of;
use crate::plan::{FieldIdModel, PlanModel};
use crate::read::{
    doc_values_plans, find_field, no_plans, parse_binary_entry, parse_entries, parse_field_plan, parse_sorted,
    parse_sorted_numeric, parse_sorted_set, plans_with, BinaryModel, DvKind, FieldModel, FieldPlanModel,
    MultiNumericModel, PlansModel, SortedModel,
};
use crate::roundtrip::{
    law_numeric_field_planned, lemma_end_mark, lemma_field_planned, lemma_metadata_file, metadata_file, plan_holds,
};
use crate::roundtrip_fields::{
    binary_column_holds, dict_column_holds, law_binary_round_trip, law_sorted_numeric_round_trip,
    law_sorted_round_trip, law_sorted_set_round_trip, numeric_lists_hold, set_column_holds,
};
use crate::roundtrip_terms::dict_small;
use crate::scan::{source_of, Source};
use crate::session::{
    buffer_data, buffer_meta, buffer_readable, doc_values_files, files_after, SessionModel, SUFFIX,
};
use crate::write::{entry_data, entry_meta, field_head, presence_data, presence_meta, values_data};

verus! {

/// A plan decodes to what a buffer held: each value at its document and
/// nothing else. Lists of numbers come back in order, lists of terms as sets.
pub open spec fn plan_holds_buffer(m: FieldPlanModel, b: BufferModel, dvd: Seq<u8>, column: FieldIdModel, max_doc: nat) -> bool {
    match (b, m) {
        (BufferModel::Numeric { docs, values }, FieldPlanModel::Numeric(p)) => plan_holds(
            Ok(p),
            dvd,
            column,
            docs,
            values,
            max_doc,
        ),
        (BufferModel::Sorted { docs, terms }, FieldPlanModel::Sorted(p)) => p.ords.column == column && !p.set
            && match sorted_column(p, dvd) {
            Ok(c) => dict_column_holds(c, docs, terms, max_doc),
            Err(_) => false,
        },
        (BufferModel::Bytes { docs, values }, FieldPlanModel::Binary(p)) => p.column == column && match binary_column(
            p,
            dvd,
        ) {
            Ok(c) => binary_column_holds(c, docs, values, max_doc),
            Err(_) => false,
        },
        (BufferModel::MultiNumeric { docs, values }, _) => numeric_lists_hold(
            m,
            dvd,
            column,
            docs,
            ordered_lists(values),
            max_doc,
        ),
        (BufferModel::MultiTerms { docs, terms }, FieldPlanModel::Sorted(p)) => p.ords.column == column && p.set
            && match sorted_column(p, dvd) {
            Ok(c) => set_column_holds(c, docs, terms, max_doc),
            Err(_) => false,
        },
        _ => false,
    }
}

/// Sizes that the file format and 32-bit column offsets can hold, for a
/// buffer whose data starts at `offset`.
pub open spec fn buffer_small(b: BufferModel, max_doc: nat, offset: nat) -> bool {
    match b {
        BufferModel::Numeric { docs, values } => offset + disi_bytes(docs, 9).len() + values_data(values).len()
            <= i64::MAX,
        BufferModel::Sorted { docs, terms } => {
            let d = dictionary_of(terms);
            let ords = ordinals(terms, d);
            &&& offset + disi_bytes(docs, 9).len() + values_data(ords).len() <= i64::MAX
            &&& dict_small(d, offset + entry_data(ords, docs, max_doc).len())
        },
        BufferModel::Bytes { docs, values } => {
            &&& docs.len() <= i32::MAX
            &&& joined(values, values.len()).len() <= i32::MAX
            &&& offset + joined(values, values.len()).len() + disi_bytes(docs, 9).len() <= i64::MAX
            &&& offset + binary_data(values, docs, max_doc).len() <= i64::MAX
        },
        BufferModel::MultiNumeric { docs, values } => {
            let v = ordered_lists(values);
            &&& docs.len() <= i32::MAX
            &&& flat(v, v.len()).len() <= i32::MAX
            &&& offset + disi_bytes(docs, 9).len() + values_data(flat(v, v.len())).len() <= i64::MAX
            &&& offset + lists_data(v, docs, max_doc, multi_valued(v)).len() <= i64::MAX
        },
        BufferModel::MultiTerms { docs, terms } => {
            let ords = set_ordinals(terms);
            let all = flat(ords, ords.len());
            &&& docs.len() <= i32::MAX
            &&& all.len() <= i32::MAX
            &&& offset + disi_bytes(docs, 9).len() + values_data(all).len() <= i64::MAX
            &&& dict_small(set_dictionary(terms), offset + lists_data(ords, docs, max_doc, set_multi(ords)).len())
        },
        BufferModel::Vectors { .. } => true,
    }
}

/// The planner's description of a buffer's field.
pub open spec fn describes(f: FieldModel, b: BufferModel, number: i32, name: Seq<char>) -> bool {
    &&& f.id == FieldIdModel { number, name }
    &&& !f.has_skip_index
    &&& b is Numeric ==> f.kind == DvKind::Numeric
}

/// The step over one field of the metadata: planning takes the plan up and
/// goes on behind it.
pub open spec fn planning_steps(
    dvm: Seq<u8>,
    p: nat,
    q: nat,
    dvd: Seq<u8>,
    fields: Seq<FieldModel>,
    max_doc: u32,
    file: Seq<char>,
    acc: PlansModel,
    plan: FieldPlanModel,
) -> bool {
    parse_entries(dvm, p, dvd, fields, max_doc, file, acc) == parse_entries(
        dvm,
        q,
        dvd,
        fields,
        max_doc,
        file,
        plans_with(acc, plan),
    )
}

/// A written SORTED field is planned, and its plan holds the terms.
proof fn lemma_sorted_step(
    dvm: Seq<u8>,
    p: nat,
    dvd: Seq<u8>,
    offset: nat,
    b: BufferModel,
    max_doc: u32,
    fields: Seq<FieldModel>,
    i: int,
    file: Seq<char>,
    acc: PlansModel,
) -> (plan: FieldPlanModel)
    requires
        b is Sorted,
        buffer_valid(b, max_doc as nat),
        buffer_small(b, max_doc as nat, offset),
        buffer_readable(b),
        0 <= i < fields.len(),
        find_field(fields, fields[i].id.number) == Some(i),
        fields[i].id.number != -1,
        !fields[i].has_skip_index,
        stands_at(dvm, p, buffer_meta(fields[i].id.number, b, max_doc as nat, offset)),
        stands_at(dvd, offset, buffer_data(b, max_doc as nat)),
    ensures
        plan_holds_buffer(plan, b, dvd, fields[i].id, max_doc as nat),
        planning_steps(
            dvm,
            p,
            p + buffer_meta(fields[i].id.number, b, max_doc as nat, offset).len(),
            dvd,
            fields,
            max_doc,
            file,
            acc,
            plan,
        ),
{
    reveal(buffer_meta);
    reveal(buffer_data);
    reveal(buffer_readable);
    let number = fields[i].id.number;
    let (docs, terms) = (b->Sorted_docs, b->Sorted_terms);
    let d = dictionary_of(terms);
    let ords = ordinals(terms, d);
    let head = field_head(number, consts::TYPE_SORTED);
    let em = entry_meta(ords, docs, max_doc as nat, offset);
    let dm = crate::dict::dict_meta(d, offset + entry_data(ords, docs, max_doc as nat).len());
    lemma_stands_split(dvm, p, head + em, dm);
    lemma_stands_split(dvm, p, head, em);
    law_sorted_round_trip(dvm, p, dvd, offset, terms, docs, max_doc, number, fields[i].id, file);
    lemma_field_planned(dvm, p, dvd, max_doc, fields, i, consts::TYPE_SORTED, file, acc);
    lemma_plan_by_kind(dvm, p + 5, dvd, fields[i], max_doc, file);
    parse_sorted(dvm, p + 5, dvd, fields[i].id, max_doc, file)->Ok_0.0
}

/// What a field plans to by the kind of its entry.
proof fn lemma_plan_by_kind(b: Seq<u8>, p: nat, dvd: Seq<u8>, field: FieldModel, max_doc: u32, file: Seq<char>)
    ensures
        parse_field_plan(b, p, dvd, field, consts::TYPE_SORTED, max_doc, file) == parse_sorted(
            b,
            p,
            dvd,
            field.id,
            max_doc,
            file,
        ),
        parse_field_plan(b, p, dvd, field, consts::TYPE_SORTED_SET, max_doc, file) == parse_sorted_set(
            b,
            p,
            dvd,
            field.id,
            max_doc,
            file,
        ),
        parse_field_plan(b, p, dvd, field, consts::TYPE_SORTED_NUMERIC, max_doc, file) == parse_sorted_numeric(
            b,
            p,
            dvd,
            field.id,
            max_doc,
            file,
        ),
        match (
            parse_field_plan(b, p, dvd, field, consts::TYPE_BINARY, max_doc, file),
            parse_binary_entry(b, p, field.id, max_doc),
        ) {
            (Ok((plan, q)), Ok((m, r))) => plan == FieldPlanModel::Binary(m) && q == r,
            (Err(_), Err(_)) => true,
            _ => false,
        },
{
    reveal(parse_field_plan);
}

/// A written NUMERIC field is planned, and its plan holds the numbers.
proof fn lemma_numeric_step(
    dvm: Seq<u8>,
    p: nat,
    dvd: Seq<u8>,
    offset: nat,
    b: BufferModel,
    max_doc: u32,
    fields: Seq<FieldModel>,
    i: int,
    file: Seq<char>,
    acc: PlansModel,
) -> (plan: FieldPlanModel)
    requires
        b is Numeric,
        buffer_valid(b, max_doc as nat),
        buffer_small(b, max_doc as nat, offset),
        buffer_readable(b),
        0 <= i < fields.len(),
        find_field(fields, fields[i].id.number) == Some(i),
        fields[i].id.number != -1,
        !fields[i].has_skip_index,
        fields[i].kind == DvKind::Numeric,
        stands_at(dvm, p, buffer_meta(fields[i].id.number, b, max_doc as nat, offset)),
        stands_at(dvd, offset, buffer_data(b, max_doc as nat)),
    ensures
        plan_holds_buffer(plan, b, dvd, fields[i].id, max_doc as nat),
        planning_steps(
            dvm,
            p,
            p + buffer_meta(fields[i].id.number, b, max_doc as nat, offset).len(),
            dvd,
            fields,
            max_doc,
            file,
            acc,
            plan,
        ),
{
    reveal(buffer_meta);
    reveal(buffer_data);
    reveal(buffer_readable);
    let number = fields[i].id.number;
    let (docs, values) = (b->Numeric_docs, b->Numeric_values);
    law_numeric_field_planned(dvm, p, dvd, offset, values, docs, max_doc, fields, i, file, acc);
    let plan = choose|plan: PlanModel|
        {
            &&& #[trigger] plan_holds(Ok(plan), dvd, fields[i].id, docs, values, max_doc as nat)
            &&& parse_entries(dvm, p, dvd, fields, max_doc, file, acc) == parse_entries(
                dvm,
                p + crate::write::numeric_meta(number, values, docs, max_doc as nat, offset).len(),
                dvd,
                fields,
                max_doc,
                file,
                plans_with(acc, FieldPlanModel::Numeric(plan)),
            )
        };
    FieldPlanModel::Numeric(plan)
}

/// A written BINARY field is planned, and its plan holds the byte strings.
proof fn lemma_binary_step(
    dvm: Seq<u8>,
    p: nat,
    dvd: Seq<u8>,
    offset: nat,
    b: BufferModel,
    max_doc: u32,
    fields: Seq<FieldModel>,
    i: int,
    file: Seq<char>,
    acc: PlansModel,
) -> (plan: FieldPlanModel)
    requires
        b is Bytes,
        buffer_valid(b, max_doc as nat),
        buffer_small(b, max_doc as nat, offset),
        buffer_readable(b),
        0 <= i < fields.len(),
        find_field(fields, fields[i].id.number) == Some(i),
        fields[i].id.number != -1,
        !fields[i].has_skip_index,
        stands_at(dvm, p, buffer_meta(fields[i].id.number, b, max_doc as nat, offset)),
        stands_at(dvd, offset, buffer_data(b, max_doc as nat)),
    ensures
        plan_holds_buffer(plan, b, dvd, fields[i].id, max_doc as nat),
        planning_steps(
            dvm,
            p,
            p + buffer_meta(fields[i].id.number, b, max_doc as nat, offset).len(),
            dvd,
            fields,
            max_doc,
            file,
            acc,
            plan,
        ),
{
    reveal(buffer_meta);
    reveal(buffer_data);
    reveal(buffer_readable);
    let number = fields[i].id.number;
    let (docs, values) = (b->Bytes_docs, b->Bytes_values);
    let len = joined(values, values.len()).len();
    let presence = presence_data(docs.len(), docs, max_doc as nat).len();
    let head = field_head(number, consts::TYPE_BINARY);
    let body = crate::bytes::le_bytes(offset, 8) + (crate::bytes::le_bytes(len, 8) + (presence_meta(
        docs.len(),
        docs,
        max_doc as nat,
        offset + len,
    ) + (le_i32(docs.len() as u32 as i32) + (le_i32(recorded_least(values)) + le_i32(recorded_greatest(values))))));
    let tail = if needs_addresses(values) {
        addresses_meta(binary_addresses(values), offset + len + presence)
    } else {
        Seq::empty()
    };
    lemma_stands_split(dvm, p, head + body, tail);
    lemma_stands_split(dvm, p, head, body);
    law_binary_round_trip(dvm, p, dvd, offset, values, docs, max_doc, number, fields[i].id);
    lemma_field_planned(dvm, p, dvd, max_doc, fields, i, consts::TYPE_BINARY, file, acc);
    lemma_plan_by_kind(dvm, p + 5, dvd, fields[i], max_doc, file);
    FieldPlanModel::Binary(parse_binary_entry(dvm, p + 5, fields[i].id, max_doc)->Ok_0.0)
}

/// A written SORTED_NUMERIC field is planned, and its plan holds the lists.
proof fn lemma_lists_step(
    dvm: Seq<u8>,
    p: nat,
    dvd: Seq<u8>,
    offset: nat,
    b: BufferModel,
    max_doc: u32,
    fields: Seq<FieldModel>,
    i: int,
    file: Seq<char>,
    acc: PlansModel,
) -> (plan: FieldPlanModel)
    requires
        b is MultiNumeric,
        buffer_valid(b, max_doc as nat),
        buffer_small(b, max_doc as nat, offset),
        buffer_readable(b),
        0 <= i < fields.len(),
        find_field(fields, fields[i].id.number) == Some(i),
        fields[i].id.number != -1,
        !fields[i].has_skip_index,
        stands_at(dvm, p, buffer_meta(fields[i].id.number, b, max_doc as nat, offset)),
        stands_at(dvd, offset, buffer_data(b, max_doc as nat)),
    ensures
        plan_holds_buffer(plan, b, dvd, fields[i].id, max_doc as nat),
        planning_steps(
            dvm,
            p,
            p + buffer_meta(fields[i].id.number, b, max_doc as nat, offset).len(),
            dvd,
            fields,
            max_doc,
            file,
            acc,
            plan,
        ),
{
    reveal(buffer_meta);
    reveal(buffer_data);
    reveal(buffer_readable);
    let number = fields[i].id.number;
    let (docs, values) = (b->MultiNumeric_docs, b->MultiNumeric_values);
    let v = ordered_lists(values);
    let all = flat(v, v.len());
    assert forall|k: int| 0 <= k < v.len() implies (#[trigger] v[k]).len() > 0 by {
        assert(values[k].len() > 0);
        law_in_order(values[k]);
    }
    let head = field_head(number, consts::TYPE_SORTED_NUMERIC);
    let em = entry_meta(all, docs, max_doc as nat, offset);
    let n = le_i32(docs.len() as i32);
    let tail = if multi_valued(v) {
        addresses_meta(
            list_addresses(list_lengths(v), v.len()),
            offset + entry_data(all, docs, max_doc as nat).len(),
        )
    } else {
        Seq::empty()
    };
    lemma_stands_split(dvm, p, (head + em) + n, tail);
    lemma_stands_split(dvm, p, head + em, n);
    lemma_stands_split(dvm, p, head, em);
    law_sorted_numeric_round_trip(dvm, p, dvd, offset, v, docs, max_doc, number, fields[i].id, file);
    lemma_field_planned(dvm, p, dvd, max_doc, fields, i, consts::TYPE_SORTED_NUMERIC, file, acc);
    lemma_plan_by_kind(dvm, p + 5, dvd, fields[i], max_doc, file);
    parse_sorted_numeric(dvm, p + 5, dvd, fields[i].id, max_doc, file)->Ok_0.0
}

/// The metadata of a SORTED_SET field starts with its head.
proof fn lemma_set_head(
    dvm: Seq<u8>,
    p: nat,
    number: i32,
    terms: Seq<Seq<Seq<u8>>>,
    docs: Seq<u32>,
    max_doc: nat,
    offset: nat,
)
    requires
        stands_at(dvm, p, sorted_set_meta(number, terms, docs, max_doc, offset)),
    ensures
        stands_at(dvm, p, field_head(number, consts::TYPE_SORTED_SET)),
{
    let ords = set_ordinals(terms);
    let all = flat(ords, ords.len());
    let multi = set_multi(ords);
    let head = set_head(number, multi);
    let em = entry_meta(all, docs, max_doc, offset);
    let lm = set_lists_meta(ords, docs, multi, offset + entry_data(all, docs, max_doc).len());
    let dm = crate::dict::dict_meta(
        set_dictionary(terms),
        offset + lists_data(ords, docs, max_doc, multi).len(),
    );
    lemma_stands_split(dvm, p, (head + em) + lm, dm);
    lemma_stands_split(dvm, p, head + em, lm);
    lemma_stands_split(dvm, p, head, em);
    let flag = seq![
        if multi {
            1u8
        } else {
            0u8
        },
    ];
    lemma_stands_split(dvm, p, field_head(number, consts::TYPE_SORTED_SET), flag);
}

/// A written SORTED_SET field is planned, and its plan holds the sets.
proof fn lemma_set_step(
    dvm: Seq<u8>,
    p: nat,
    dvd: Seq<u8>,
    offset: nat,
    b: BufferModel,
    max_doc: u32,
    fields: Seq<FieldModel>,
    i: int,
    file: Seq<char>,
    acc: PlansModel,
) -> (plan: FieldPlanModel)
    requires
        b is MultiTerms,
        buffer_valid(b, max_doc as nat),
        buffer_small(b, max_doc as nat, offset),
        buffer_readable(b),
        0 <= i < fields.len(),
        find_field(fields, fields[i].id.number) == Some(i),
        fields[i].id.number != -1,
        !fields[i].has_skip_index,
        stands_at(dvm, p, buffer_meta(fields[i].id.number, b, max_doc as nat, offset)),
        stands_at(dvd, offset, buffer_data(b, max_doc as nat)),
    ensures
        plan_holds_buffer(plan, b, dvd, fields[i].id, max_doc as nat),
        planning_steps(
            dvm,
            p,
            p + buffer_meta(fields[i].id.number, b, max_doc as nat, offset).len(),
            dvd,
            fields,
            max_doc,
            file,
            acc,
            plan,
        ),
{
    reveal(buffer_meta);
    reveal(buffer_data);
    reveal(buffer_readable);
    let number = fields[i].id.number;
    let (docs, terms) = (b->MultiTerms_docs, b->MultiTerms_terms);
    lemma_set_head(dvm, p, number, terms, docs, max_doc as nat, offset);
    law_sorted_set_round_trip(dvm, p, dvd, offset, terms, docs, max_doc, number, fields[i].id, file);
    lemma_field_planned(dvm, p, dvd, max_doc, fields, i, consts::TYPE_SORTED_SET, file, acc);
    lemma_plan_by_kind(dvm, p + 5, dvd, fields[i], max_doc, file);
    parse_sorted_set(dvm, p + 5, dvd, fields[i].id, max_doc, file)->Ok_0.0
}

/// A written field is planned, and its plan holds what the buffer held.
proof fn lemma_buffer_step(
    dvm: Seq<u8>,
    p: nat,
    dvd: Seq<u8>,
    offset: nat,
    b: BufferModel,
    max_doc: u32,
    fields: Seq<FieldModel>,
    i: int,
    file: Seq<char>,
    acc: PlansModel,
) -> (plan: FieldPlanModel)
    requires
        !(b is Vectors),
        buffer_valid(b, max_doc as nat),
        buffer_small(b, max_doc as nat, offset),
        buffer_readable(b),
        0 <= i < fields.len(),
        find_field(fields, fields[i].id.number) == Some(i),
        fields[i].id.number != -1,
        !fields[i].has_skip_index,
        b is Numeric ==> fields[i].kind == DvKind::Numeric,
        stands_at(dvm, p, buffer_meta(fields[i].id.number, b, max_doc as nat, offset)),
        stands_at(dvd, offset, buffer_data(b, max_doc as nat)),
    ensures
        plan_holds_buffer(plan, b, dvd, fields[i].id, max_doc as nat),
        planning_steps(
            dvm,
            p,
            p + buffer_meta(fields[i].id.number, b, max_doc as nat, offset).len(),
            dvd,
            fields,
            max_doc,
            file,
            acc,
            plan,
        ),
{
    match b {
        BufferModel::Numeric { .. } => lemma_numeric_step(dvm, p, dvd, offset, b, max_doc, fields, i, file, acc),
        BufferModel::Sorted { .. } => lemma_sorted_step(dvm, p, dvd, offset, b, max_doc, fields, i, file, acc),
        BufferModel::Bytes { .. } => lemma_binary_step(dvm, p, dvd, offset, b, max_doc, fields, i, file, acc),
        BufferModel::MultiNumeric { .. } => lemma_lists_step(dvm, p, dvd, offset, b, max_doc, fields, i, file, acc),
        _ => lemma_set_step(dvm, p, dvd, offset, b, max_doc, fields, i, file, acc),
    }
}

/// Some field of the planner describes a buffer's.
pub open spec fn described(fields: Seq<FieldModel>, b: BufferModel, number: i32, name: Seq<char>) -> bool {
    exists|j: int|
        {
            &&& 0 <= j < fields.len()
            &&& find_field(fields, number) == Some(j)
            &&& describes(#[trigger] fields[j], b, number, name)
        }
}

/// The planner knows every doc-values field of a session.
pub open spec fn all_described(fields: Seq<FieldModel>, m: SessionModel) -> bool {
    forall|k: int|
        0 <= k < m.buffers.len() && !((#[trigger] m.buffers[k]) is Vectors) ==> described(
            fields,
            m.buffers[k],
            k as i32,
            m.fields[k].name,
        )
}

/// All buffers are small enough for the files.
pub open spec fn all_small(m: SessionModel, id: Seq<u8>) -> bool {
    forall|k: int|
        0 <= k < m.buffers.len() ==> buffer_small(
            #[trigger] m.buffers[k],
            m.docs as nat,
            files_after(m.buffers, m.docs as nat, id, k as nat).1.len(),
        )
}

/// The planner's output for the plans of the first `n` fields.
pub open spec fn taken_up(plans: Seq<Option<FieldPlanModel>>, n: nat) -> PlansModel
    decreases n,
{
    if n == 0 {
        no_plans()
    } else {
        match plans[n - 1] {
            Some(p) => plans_with(taken_up(plans, (n - 1) as nat), p),
            None => taken_up(plans, (n - 1) as nat),
        }
    }
}

/// The plan of a field: none for vectors, and otherwise one that holds what
/// the buffer held.
pub open spec fn plan_fits(plan: Option<FieldPlanModel>, m: SessionModel, dvd: Seq<u8>, k: int) -> bool {
    match plan {
        None => m.buffers[k] is Vectors,
        Some(p) => plan_holds_buffer(
            p,
            m.buffers[k],
            dvd,
            FieldIdModel { number: k as i32, name: m.fields[k].name },
            m.docs as nat,
        ),
    }
}

/// The plans of the first `n` fields are right.
pub open spec fn plans_fit(plans: Seq<Option<FieldPlanModel>>, m: SessionModel, dvd: Seq<u8>, n: nat) -> bool {
    forall|k: int| 0 <= k < n ==> plan_fits(#[trigger] plans[k], m, dvd, k)
}

/// The files after fewer fields stand in front of those after more.
proof fn lemma_files_stand(buffers: Seq<BufferModel>, max_doc: nat, id: Seq<u8>, k: nat, n: nat, dvm: Seq<u8>, dvd: Seq<u8>)
    requires
        k <= n,
        stands_at(dvm, 0, files_after(buffers, max_doc, id, n).0),
        stands_at(dvd, 0, files_after(buffers, max_doc, id, n).1),
    ensures
        stands_at(dvm, 0, files_after(buffers, max_doc, id, k).0),
        stands_at(dvd, 0, files_after(buffers, max_doc, id, k).1),
    decreases n,
{
    if k < n {
        let (meta, data) = files_after(buffers, max_doc, id, (n - 1) as nat);
        let b = buffers[n - 1];
        lemma_stands_split(dvm, 0, meta, buffer_meta((n - 1) as i32, b, max_doc, data.len()));
        lemma_stands_split(dvd, 0, data, buffer_data(b, max_doc));
        lemma_files_stand(buffers, max_doc, id, k, (n - 1) as nat, dvm, dvd);
    }
}

/// The fold over plans looks at the first `n` only.
proof fn lemma_taken_up_prefix(a: Seq<Option<FieldPlanModel>>, b: Seq<Option<FieldPlanModel>>, n: nat)
    requires
        n <= a.len(),
        n <= b.len(),
        forall|i: int| 0 <= i < n ==> a[i] == b[i],
    ensures
        taken_up(a, n) == taken_up(b, n),
    decreases n,
{
    if n > 0 {
        lemma_taken_up_prefix(a, b, (n - 1) as nat);
    }
}

/// What planning a session's files rests on.
pub open spec fn session_readable(m: SessionModel, id: Seq<u8>, fields: Seq<FieldModel>) -> bool {
    &&& crate::session::session_valid(m)
    &&& m.buffers.len() <= i32::MAX
    &&& id.len() == SEGMENT_ID_LENGTH
    &&& crate::session::all_readable(m.buffers)
    &&& all_small(m, id)
    &&& all_described(fields, m)
}

/// Planning walks over the first `n` fields and takes their plans up.
proof fn lemma_walk(
    m: SessionModel,
    id: Seq<u8>,
    fields: Seq<FieldModel>,
    file: Seq<char>,
    dvm: Seq<u8>,
    dvd: Seq<u8>,
    n: nat,
) -> (plans: Seq<Option<FieldPlanModel>>)
    requires
        session_readable(m, id, fields),
        n <= m.buffers.len(),
        stands_at(dvm, 0, files_after(m.buffers, m.docs as nat, id, n).0),
        stands_at(dvd, 0, files_after(m.buffers, m.docs as nat, id, n).1),
    ensures
        plans.len() == n,
        plans_fit(plans, m, dvd, n),
        parse_entries(
            dvm,
            files_after(m.buffers, m.docs as nat, id, 0).0.len(),
            dvd,
            fields,
            m.docs,
            file,
            no_plans(),
        ) == parse_entries(
            dvm,
            files_after(m.buffers, m.docs as nat, id, n).0.len(),
            dvd,
            fields,
            m.docs,
            file,
            taken_up(plans, n),
        ),
    decreases n,
{
    if n == 0 {
        Seq::empty()
    } else {
        let k = (n - 1) as nat;
        let docs = m.docs as nat;
        let (meta, data) = files_after(m.buffers, docs, id, k);
        let b = m.buffers[k as int];
        let bm = buffer_meta(k as i32, b, docs, data.len());
        lemma_stands_split(dvm, 0, meta, bm);
        lemma_stands_split(dvd, 0, data, buffer_data(b, docs));
        let before = lemma_walk(m, id, fields, file, dvm, dvd, k);
        let acc = taken_up(before, k);
        if b is Vectors {
            assert(bm =~= Seq::<u8>::empty()) by {
                reveal(buffer_meta);
            }
            let plans = before.push(None);
            lemma_taken_up_prefix(before, plans, k);
            plans
        } else {
            assert(described(fields, m.buffers[k as int], k as i32, m.fields[k as int].name));
            let j = choose|j: int|
                {
                    &&& 0 <= j < fields.len()
                    &&& find_field(fields, k as i32) == Some(j)
                    &&& describes(#[trigger] fields[j], b, k as i32, m.fields[k as int].name)
                };
            let plan = lemma_buffer_step(dvm, meta.len(), dvd, data.len(), b, m.docs, fields, j, file, acc);
            let plans = before.push(Some(plan));
            lemma_taken_up_prefix(before, plans, k);
            assert(plan_fits(plans[k as int], m, dvd, k as int));
            plans
        }
    }
}

/// What a session flushes into doc-values files is what a reader plans and
/// decodes: planning the pair succeeds, and gives, field by field in order,
/// plans that decode to the values of that field at their documents.
pub proof fn law_session_round_trip(m: SessionModel, id: Seq<u8>, fields: Seq<FieldModel>, file: Seq<char>)
    requires
        session_readable(m, id, fields),
    ensures
        ({
            let (dvm, dvd) = doc_values_files(m, id);
            exists|plans: Seq<Option<FieldPlanModel>>|
                {
                    &&& plans.len() == m.buffers.len()
                    &&& #[trigger] plans_fit(plans, m, dvd, m.buffers.len())
                    &&& doc_values_plans(dvm, dvd, fields, m.docs, file) == Ok::<PlansModel, ErrorKind>(
                        taken_up(plans, m.buffers.len()),
                    )
                }
        }),
{
    let n = m.buffers.len();
    let docs = m.docs as nat;
    let (meta, data) = files_after(m.buffers, docs, id, n);
    let (dvm, dvd) = doc_values_files(m, id);
    let end = le_i32((-1) as i32);
    law_footer_round_trip(meta + end);
    law_footer_round_trip(data);
    assert(stands_at(dvm, 0, meta + end));
    lemma_stands_split(dvm, 0, meta, end);
    assert(stands_at(dvd, 0, data));
    lemma_files_stand(m.buffers, docs, id, 0, n, dvm, dvd);
    let h = files_after(m.buffers, docs, id, 0).0;
    let rest = meta.skip(h.len() as int);
    assert(h + rest =~= meta) by {
        assert(dvm.subrange(0, h.len() as int) == h);
        assert(dvm.subrange(0, meta.len() as int) == meta);
        assert(h.len() <= meta.len()) by {
            lemma_files_grow(m.buffers, docs, id, n);
        }
        assert forall|i: int| 0 <= i < h.len() implies h[i] == meta[i] by {
            assert(dvm.subrange(0, h.len() as int)[i] == dvm[i]);
            assert(dvm.subrange(0, meta.len() as int)[i] == dvm[i]);
        }
    }
    assert(metadata_file(id, SUFFIX@, rest) == dvm);
    reveal_strlit("Lucene90_0");
    is_ascii_chars_encode_utf8(SUFFIX@);
    lemma_metadata_file(id, SUFFIX@, rest, dvd, fields, m.docs, file);
    let plans = lemma_walk(m, id, fields, file, dvm, dvd, n);
    lemma_end_mark(dvm, meta.len(), dvd, fields, m.docs, file, taken_up(plans, n));
    assert(plans_fit(plans, m, dvd, n));
}

/// The metadata never gets shorter.
proof fn lemma_files_grow(buffers: Seq<BufferModel>, max_doc: nat, id: Seq<u8>, n: nat)
    ensures
        files_after(buffers, max_doc, id, 0).0.len() <= files_after(buffers, max_doc, id, n).0.len(),
    decreases n,
{
    if n > 0 {
        lemma_files_grow(buffers, max_doc, id, (n - 1) as nat);
    }
}

/// One more numeric plan.
proof fn lemma_numeric_named_push(s: Seq<PlanModel>, x: PlanModel, name: Seq<char>, i: nat)
    requires
        i <= s.len(),
    ensures
        numeric_named(s.push(x), name, i) == (match numeric_named(s, name, i) {
            Some(k) => Some(k),
            None => if x.column.name == name {
                Some(s.len())
            } else {
                None
            },
        }),
        numeric_named(s, name, i) matches Some(k) ==> k < s.len(),
    decreases s.len() - i,
{
    let t = s.push(x);
    if i < s.len() {
        assert(t[i as int] == s[i as int]);
        lemma_numeric_named_push(s, x, name, i + 1);
    } else {
        assert(t[i as int] == x);
        assert(numeric_named(t, name, i + 1) is None);
    }
}

/// One more plan of terms.
proof fn lemma_sorted_named_push(s: Seq<SortedModel>, x: SortedModel, name: Seq<char>, i: nat)
    requires
        i <= s.len(),
    ensures
        sorted_named(s.push(x), name, i) == (match sorted_named(s, name, i) {
            Some(k) => Some(k),
            None => if x.ords.column.name == name {
                Some(s.len())
            } else {
                None
            },
        }),
        sorted_named(s, name, i) matches Some(k) ==> k < s.len(),
    decreases s.len() - i,
{
    let t = s.push(x);
    if i < s.len() {
        assert(t[i as int] == s[i as int]);
        lemma_sorted_named_push(s, x, name, i + 1);
    } else {
        assert(t[i as int] == x);
        assert(sorted_named(t, name, i + 1) is None);
    }
}

/// One more plan of lists.
proof fn lemma_multi_named_push(s: Seq<MultiNumericModel>, x: MultiNumericModel, name: Seq<char>, i: nat)
    requires
        i <= s.len(),
    ensures
        multi_named(s.push(x), name, i) == (match multi_named(s, name, i) {
            Some(k) => Some(k),
            None => if x.values.column.name == name {
                Some(s.len())
            } else {
                None
            },
        }),
        multi_named(s, name, i) matches Some(k) ==> k < s.len(),
    decreases s.len() - i,
{
    let t = s.push(x);
    if i < s.len() {
        assert(t[i as int] == s[i as int]);
        lemma_multi_named_push(s, x, name, i + 1);
    } else {
        assert(t[i as int] == x);
        assert(multi_named(t, name, i + 1) is None);
    }
}

/// One more plan of byte strings.
proof fn lemma_binary_named_push(s: Seq<BinaryModel>, x: BinaryModel, name: Seq<char>, i: nat)
    requires
        i <= s.len(),
    ensures
        binary_named(s.push(x), name, i) == (match binary_named(s, name, i) {
            Some(k) => Some(k),
            None => if x.column.name == name {
                Some(s.len())
            } else {
                None
            },
        }),
        binary_named(s, name, i) matches Some(k) ==> k < s.len(),
    decreases s.len() - i,
{
    let t = s.push(x);
    if i < s.len() {
        assert(t[i as int] == s[i as int]);
        lemma_binary_named_push(s, x, name, i + 1);
    } else {
        assert(t[i as int] == x);
        assert(binary_named(t, name, i + 1) is None);
    }
}

/// The column name of a plan.
pub open spec fn plan_name(p: FieldPlanModel) -> Seq<char> {
    match p {
        FieldPlanModel::Numeric(m) => m.column.name,
        FieldPlanModel::Sorted(m) => m.ords.column.name,
        FieldPlanModel::MultiNumeric(m) => m.values.column.name,
        FieldPlanModel::Binary(m) => m.column.name,
    }
}

/// The plan by which a scan decodes a column; none where it is absent.
pub open spec fn scanned_plan(plans: PlansModel, name: Seq<char>) -> Option<FieldPlanModel> {
    match source_of(plans, Seq::empty(), name) {
        Source::Numeric(i) => Some(FieldPlanModel::Numeric(plans.plans[i as int])),
        Source::Sorted(i) => Some(FieldPlanModel::Sorted(plans.sorted[i as int])),
        Source::Multi(i) => Some(FieldPlanModel::MultiNumeric(plans.multi_numeric[i as int])),
        Source::Binary(i) => Some(FieldPlanModel::Binary(plans.binary[i as int])),
        Source::Vector(_) => None,
        Source::Absent => None,
    }
}

/// One more plan is found under its name, if nothing was before, and changes
/// nothing under other names.
proof fn lemma_plan_taken(acc: PlansModel, p: FieldPlanModel, name: Seq<char>)
    ensures
        plan_name(p) == name && scanned_plan(acc, name) is None ==> scanned_plan(plans_with(acc, p), name) == Some(p),
        plan_name(p) != name ==> scanned_plan(plans_with(acc, p), name) == scanned_plan(acc, name),
{
    match p {
        FieldPlanModel::Numeric(m) => lemma_numeric_named_push(acc.plans, m, name, 0),
        FieldPlanModel::Sorted(m) => lemma_sorted_named_push(acc.sorted, m, name, 0),
        FieldPlanModel::MultiNumeric(m) => lemma_multi_named_push(acc.multi_numeric, m, name, 0),
        FieldPlanModel::Binary(m) => lemma_binary_named_push(acc.binary, m, name, 0),
    }
}

/// Among plans of fields with names of their own, a scan finds each under
/// its name.
proof fn lemma_scanned(plans: Seq<Option<FieldPlanModel>>, n: nat, k: int, name: Seq<char>)
    requires
        n <= plans.len(),
        0 <= k < plans.len(),
        plans[k] is Some,
        plan_name(plans[k]->0) == name,
        forall|j: int| 0 <= j < plans.len() && j != k && (#[trigger] plans[j]) is Some ==> plan_name(plans[j]->0) != name,
    ensures
        scanned_plan(taken_up(plans, n), name) == (if k < n {
            plans[k]
        } else {
            None
        }),
    decreases n,
{
    if n > 0 {
        lemma_scanned(plans, (n - 1) as nat, k, name);
        if plans[n - 1] is Some {
            lemma_plan_taken(taken_up(plans, (n - 1) as nat), plans[n - 1]->0, name);
        }
    }
}

/// A right plan has the name of its field.
proof fn lemma_held_name(p: FieldPlanModel, b: BufferModel, dvd: Seq<u8>, column: FieldIdModel, max_doc: nat)
    requires
        plan_holds_buffer(p, b, dvd, column, max_doc),
    ensures
        plan_name(p) == column.name,
{
}

/// Fields have names of their own.
pub open spec fn names_differ(m: SessionModel) -> bool {
    forall|i: int, j: int|
        0 <= i < j < m.fields.len() ==> (#[trigger] m.fields[i]).name != (#[trigger] m.fields[j]).name
}

/// A scan for a field by its name, over the files that a session flushes,
/// decodes by a plan that holds exactly the values that went in for that
/// field.
pub proof fn law_session_scanned(m: SessionModel, id: Seq<u8>, fields: Seq<FieldModel>, file: Seq<char>, k: int)
    requires
        session_readable(m, id, fields),
        names_differ(m),
        0 <= k < m.buffers.len(),
        !(m.buffers[k] is Vectors),
    ensures
        ({
            let (dvm, dvd) = doc_values_files(m, id);
            match doc_values_plans(dvm, dvd, fields, m.docs, file) {
                Ok(plans) => match scanned_plan(plans, m.fields[k].name) {
                    Some(p) => plan_holds_buffer(
                        p,
                        m.buffers[k],
                        dvd,
                        FieldIdModel { number: k as i32, name: m.fields[k].name },
                        m.docs as nat,
                    ),
                    None => false,
                },
                Err(_) => false,
            }
        }),
{
    let n = m.buffers.len();
    let (dvm, dvd) = doc_values_files(m, id);
    law_session_round_trip(m, id, fields, file);
    let plans = choose|plans: Seq<Option<FieldPlanModel>>|
        {
            &&& plans.len() == n
            &&& #[trigger] plans_fit(plans, m, dvd, n)
            &&& doc_values_plans(dvm, dvd, fields, m.docs, file) == Ok::<PlansModel, ErrorKind>(taken_up(plans, n))
        };
    assert forall|j: int| 0 <= j < n && (#[trigger] plans[j]) is Some implies plan_name(plans[j]->0) == m.fields[j].name by {
        assert(plan_fits(plans[j], m, dvd, j));
        lemma_held_name(
            plans[j]->0,
            m.buffers[j],
            dvd,
            FieldIdModel { number: j as i32, name: m.fields[j].name },
            m.docs as nat,
        );
    }
    assert(plan_fits(plans[k], m, dvd, k));
    assert forall|j: int| 0 <= j < n && j != k && (#[trigger] plans[j]) is Some implies plan_name(plans[j]->0)
        != m.fields[k].name by {
        if j < k {
            assert(m.fields[j].name != m.fields[k].name);
        } else {
            assert(m.fields[k].name != m.fields[j].name);
        }
    }
    lemma_scanned(plans, n, k, m.fields[k].name);
}

} // verus!
