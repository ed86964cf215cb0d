//! Whole file pairs with one dictionary field read back.

use vstd::prelude::*;
use vstd::utf8::encode_utf8;
use crate::column::sorted_column;
use crate::consts;
use crate::cursor::{index_header_bytes, lemma_stands_split, SEGMENT_ID_LENGTH};
use crate::dict::{dict_meta, no_table, streams_decompress};
use crate::disi::disi_bytes;
use crate::encode::{
    flat, flat_terms, lists_data, ordinals, set_dictionary, set_head, set_lists_meta, set_multi, set_ordinals,
    sorted_data, sorted_meta, sorted_set_data, sorted_set_meta,
};
use crate::lexicon::dictionary_of;
use crate::read::{
    doc_values_plans, find_field, no_plans, parse_field_plan, parse_sorted, parse_sorted_set, plans_with,
    FieldModel,
};
use crate::roundtrip::{
    data_file, data_start, lemma_data_file, lemma_end_mark, lemma_field_planned, lemma_metadata_file, metadata_file,
};
use crate::roundtrip_fields::{
    dict_column_holds, dictionary_read, docs_valid, law_sorted_round_trip, law_sorted_set_round_trip,
    set_column_holds,
};
use crate::roundtrip_terms::dict_small;
use crate::write::{entry_data, entry_meta, field_head, values_data};

verus! {

/// A file pair with one SORTED field plans to one plan. Its dictionary
/// materializes to the distinct terms in order, as many as the plan says, and
/// it decodes to a column that gives each document its term.
pub proof fn law_sorted_file_round_trip(
    segment_id: Seq<u8>,
    suffix: Seq<char>,
    terms: Seq<Seq<u8>>,
    docs: Seq<u32>,
    max_doc: u32,
    field: FieldModel,
    file: Seq<char>,
)
    requires
        segment_id.len() == SEGMENT_ID_LENGTH,
        encode_utf8(suffix).len() < 256,
        docs_valid(docs, max_doc as nat),
        docs.len() == terms.len(),
        streams_decompress(dictionary_of(terms), 0, no_table()),
        ({
            let offset = data_start(segment_id, suffix);
            let ords = ordinals(terms, dictionary_of(terms));
            &&& offset + disi_bytes(docs, 9).len() + values_data(ords).len() <= i64::MAX
            &&& dict_small(dictionary_of(terms), offset + entry_data(ords, docs, max_doc as nat).len())
        }),
        field.id.number != -1,
        !field.has_skip_index,
    ensures
        ({
            let offset = data_start(segment_id, suffix);
            let dvm = metadata_file(
                segment_id,
                suffix,
                sorted_meta(field.id.number, terms, docs, max_doc as nat, offset),
            );
            let dvd = data_file(segment_id, suffix, sorted_data(terms, docs, max_doc as nat));
            match doc_values_plans(dvm, dvd, seq![field], max_doc, file) {
                Ok(plans) => plans.sorted.len() == 1 && plans.sorted[0].ords.column == field.id && dictionary_read(
                    plans.sorted[0].terms,
                    dvd,
                    terms,
                ) && (sorted_column(plans.sorted[0], dvd) matches Ok(c) && dict_column_holds(
                    c,
                    docs,
                    terms,
                    max_doc as nat,
                )),
                Err(_) => false,
            }
        }),
{
    let offset = data_start(segment_id, suffix);
    let number = field.id.number;
    let d = dictionary_of(terms);
    let ords = ordinals(terms, d);
    let meta = sorted_meta(number, terms, docs, max_doc as nat, offset);
    let data = sorted_data(terms, docs, max_doc as nat);
    let dvm = metadata_file(segment_id, suffix, meta);
    let dvd = data_file(segment_id, suffix, data);
    let fields = seq![field];
    lemma_metadata_file(segment_id, suffix, meta, dvd, fields, max_doc, file);
    lemma_data_file(segment_id, suffix, data);
    let p = index_header_bytes(encode_utf8(consts::META_CODEC@), consts::VERSION, segment_id, encode_utf8(suffix)).len();
    assert(fields[0] == field);
    assert(find_field(fields, number) == Some(0int));
    let head = field_head(number, consts::TYPE_SORTED);
    let em = entry_meta(ords, docs, max_doc as nat, offset);
    lemma_stands_split(dvm, p, head + em, dict_meta(d, offset + entry_data(ords, docs, max_doc as nat).len()));
    lemma_stands_split(dvm, p, head, em);
    lemma_field_planned(dvm, p, dvd, max_doc, fields, 0, consts::TYPE_SORTED, file, no_plans());
    law_sorted_round_trip(dvm, p, dvd, offset, terms, docs, max_doc, number, field.id, file);
    assert(parse_field_plan(dvm, p + 5, dvd, field, consts::TYPE_SORTED, max_doc, file) == parse_sorted(
        dvm,
        p + 5,
        dvd,
        field.id,
        max_doc,
        file,
    )) by {
        reveal(parse_field_plan);
    }
    let (plan, q) = parse_sorted(dvm, p + 5, dvd, field.id, max_doc, file)->Ok_0;
    lemma_end_mark(dvm, p + meta.len(), dvd, fields, max_doc, file, plans_with(no_plans(), plan));
    assert(no_plans().sorted.push(plan->Sorted_0)[0] == plan->Sorted_0);
}

/// A file pair with one SORTED_SET field plans to one plan. Its dictionary
/// materializes to the distinct terms of all documents in order, as many as
/// the plan says, and it decodes to a column that gives each document its
/// terms.
pub proof fn law_sorted_set_file_round_trip(
    segment_id: Seq<u8>,
    suffix: Seq<char>,
    t: Seq<Seq<Seq<u8>>>,
    docs: Seq<u32>,
    max_doc: u32,
    field: FieldModel,
    file: Seq<char>,
)
    requires
        segment_id.len() == SEGMENT_ID_LENGTH,
        encode_utf8(suffix).len() < 256,
        docs_valid(docs, max_doc as nat),
        docs.len() == t.len(),
        docs.len() <= i32::MAX,
        forall|i: int| 0 <= i < t.len() ==> (#[trigger] t[i]).len() > 0,
        streams_decompress(set_dictionary(t), 0, no_table()),
        ({
            let offset = data_start(segment_id, suffix);
            let ords = set_ordinals(t);
            let all = flat(ords, ords.len());
            &&& all.len() <= i32::MAX
            &&& offset + disi_bytes(docs, 9).len() + values_data(all).len() <= i64::MAX
            &&& dict_small(
                set_dictionary(t),
                offset + lists_data(ords, docs, max_doc as nat, set_multi(ords)).len(),
            )
        }),
        field.id.number != -1,
        !field.has_skip_index,
    ensures
        ({
            let offset = data_start(segment_id, suffix);
            let dvm = metadata_file(
                segment_id,
                suffix,
                sorted_set_meta(field.id.number, t, docs, max_doc as nat, offset),
            );
            let dvd = data_file(segment_id, suffix, sorted_set_data(t, docs, max_doc as nat));
            match doc_values_plans(dvm, dvd, seq![field], max_doc, file) {
                Ok(plans) => plans.sorted.len() == 1 && plans.sorted[0].ords.column == field.id && dictionary_read(
                    plans.sorted[0].terms,
                    dvd,
                    flat_terms(t, t.len()),
                ) && (sorted_column(plans.sorted[0], dvd) matches Ok(c) && set_column_holds(c, docs, t, max_doc as nat)),
                Err(_) => false,
            }
        }),
{
    let offset = data_start(segment_id, suffix);
    let number = field.id.number;
    let ords = set_ordinals(t);
    let all = flat(ords, ords.len());
    let multi = set_multi(ords);
    let meta = sorted_set_meta(number, t, docs, max_doc as nat, offset);
    let data = sorted_set_data(t, docs, max_doc as nat);
    let dvm = metadata_file(segment_id, suffix, meta);
    let dvd = data_file(segment_id, suffix, data);
    let fields = seq![field];
    lemma_metadata_file(segment_id, suffix, meta, dvd, fields, max_doc, file);
    lemma_data_file(segment_id, suffix, data);
    let p = index_header_bytes(encode_utf8(consts::META_CODEC@), consts::VERSION, segment_id, encode_utf8(suffix)).len();
    assert(fields[0] == field);
    assert(find_field(fields, number) == Some(0int));
    let head = field_head(number, consts::TYPE_SORTED_SET);
    let flag = set_head(number, multi);
    let em = entry_meta(all, docs, max_doc as nat, offset);
    let lm = set_lists_meta(ords, docs, multi, offset + entry_data(all, docs, max_doc as nat).len());
    let dm = dict_meta(set_dictionary(t), offset + lists_data(ords, docs, max_doc as nat, multi).len());
    lemma_stands_split(dvm, p, (flag + em) + lm, dm);
    lemma_stands_split(dvm, p, flag + em, lm);
    lemma_stands_split(dvm, p, flag, em);
    lemma_stands_split(
        dvm,
        p,
        head,
        seq![if multi {
            1u8
        } else {
            0u8
        }],
    );
    lemma_field_planned(dvm, p, dvd, max_doc, fields, 0, consts::TYPE_SORTED_SET, file, no_plans());
    law_sorted_set_round_trip(dvm, p, dvd, offset, t, docs, max_doc, number, field.id, file);
    assert(parse_field_plan(dvm, p + 5, dvd, field, consts::TYPE_SORTED_SET, max_doc, file) == parse_sorted_set(
        dvm,
        p + 5,
        dvd,
        field.id,
        max_doc,
        file,
    )) by {
        reveal(parse_field_plan);
    }
    let (plan, q) = parse_sorted_set(dvm, p + 5, dvd, field.id, max_doc, file)->Ok_0;
    lemma_end_mark(dvm, p + meta.len(), dvd, fields, max_doc, file, plans_with(no_plans(), plan));
    assert(no_plans().sorted.push(plan->Sorted_0)[0] == plan->Sorted_0);
}

} // verus!
